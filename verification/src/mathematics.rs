//! Integer arithmetic of rates and timestamps.
use vstd::arithmetic::div_mod::*;
use vstd::prelude::*;

verus! {

/// `a / b` rounded towards zero.
pub open spec fn tdiv(a: int, b: int) -> int
    recommends
        b > 0,
{
    if a >= 0 {
        a / b
    } else {
        -((-a) / b)
    }
}

/// Remainder of [`tdiv`]; it has the sign of `a`.
pub open spec fn trem(a: int, b: int) -> int
    recommends
        b > 0,
{
    a - tdiv(a, b) * b
}

/// `a / b` rounded towards zero.
pub fn tdiv_i128(a: i128, b: i128) -> (r: i128)
    requires
        b > 0,
        a > i128::MIN,
    ensures
        r == tdiv(a as int, b as int),
        a >= 0 ==> 0 <= r <= a,
        a < 0 ==> a <= r <= 0,
{
    if a >= 0 {
        let q: u128 = (a as u128) / (b as u128);
        proof {
            lemma_div_is_ordered_by_denominator(a as int, 1, b as int);
            lemma_div_basics(a as int);
            lemma_div_pos_is_pos(a as int, b as int);
        }
        q as i128
    } else {
        let m: u128 = (-a) as u128;
        let q: u128 = m / (b as u128);
        proof {
            lemma_div_is_ordered_by_denominator(m as int, 1, b as int);
            lemma_div_basics(m as int);
            lemma_div_pos_is_pos(m as int, b as int);
        }
        -(q as i128)
    }
}

/// `a / b` rounded towards zero, for a divisor of either sign.
pub open spec fn tquot(a: int, b: int) -> int {
    if b > 0 {
        tdiv(a, b)
    } else {
        -tdiv(a, -b)
    }
}

/// `a / b` rounded towards zero, for a divisor of either sign.
pub fn tquot_i128(a: i128, b: i128) -> (r: i128)
    requires
        b != 0,
        b > i128::MIN,
        a > i128::MIN,
    ensures
        r == tquot(a as int, b as int),
        -a <= r <= a || a <= r <= -a,
{
    if b > 0 {
        tdiv_i128(a, b)
    } else {
        -tdiv_i128(a, -b)
    }
}

/// Greatest common divisor.
pub open spec fn gcd(a: nat, b: nat) -> nat
    decreases b,
{
    if b == 0 {
        a
    } else {
        gcd(b, a % b)
    }
}

/// `d` divides `a`.
pub open spec fn divides(d: nat, a: nat) -> bool {
    exists|k: nat| a == #[trigger] (d * k)
}

proof fn lemma_divides_comb(d: nat, a: nat, b: nat, q: nat)
    requires
        divides(d, a),
        divides(d, b),
    ensures
        divides(d, a * q + b),
{
    let x = choose|k: nat| a == #[trigger] (d * k);
    let y = choose|k: nat| b == #[trigger] (d * k);
    assert(a * q + b == d * (x * q + y)) by (nonlinear_arith)
        requires
            a == d * x,
            b == d * y,
    ;
}

/// The greatest common divisor divides both numbers, and every common divisor
/// divides it.
pub proof fn lemma_gcd(a: nat, b: nat)
    ensures
        divides(gcd(a, b), a),
        divides(gcd(a, b), b),
        forall|d: nat| #[trigger] divides(d, a) && divides(d, b) ==> divides(d, gcd(a, b)),
        a > 0 || b > 0 ==> gcd(a, b) > 0,
    decreases b,
{
    if b == 0 {
        assert(a == a * 1);
        assert(0 == a * 0);
    } else {
        let q = a / b;
        let r = a % b;
        lemma_fundamental_div_mod(a as int, b as int);
        lemma_gcd(b, r);
        let g = gcd(b, r);
        lemma_divides_comb(g, b, r, q);
        assert(b * q + r == a);
        assert forall|d: nat| #[trigger] divides(d, a) && divides(d, b) implies divides(d, gcd(a, b)) by {
            let x = choose|k: nat| a == #[trigger] (d * k);
            let y = choose|k: nat| b == #[trigger] (d * k);
            assert(r == d * (x - y * q)) by (nonlinear_arith)
                requires
                    a == b * q + r,
                    a == d * x,
                    b == d * y,
            ;
            if d > 0 {
                assert(x - y * q >= 0) by (nonlinear_arith)
                    requires
                        r == d * (x - y * q),
                        r >= 0,
                        d > 0,
                ;
                let k = (x - y * q) as nat;
                assert(r == d * k);
            } else {
                assert(r == d * 0);
            }
            assert(divides(d, r));
        }
    }
}

fn gcd_exec(a: u64, b: u64) -> (r: u64)
    ensures
        r == gcd(a as nat, b as nat),
    decreases b,
{
    if b == 0 {
        a
    } else {
        gcd_exec(b, a % b)
    }
}

/// The fraction `num / den` in lowest terms.
pub open spec fn lowest(num: nat, den: nat) -> (nat, nat) {
    (num / gcd(num, den), den / gcd(num, den))
}

/// `num / den` in lowest terms, if both parts are at most `max`.
pub fn reduce_exact(num: u64, den: u64, max: u64) -> (r: Option<(u64, u64)>)
    requires
        num > 0,
        den > 0,
    ensures
        r.is_some() == (lowest(num as nat, den as nat).0 <= max && lowest(
            num as nat,
            den as nat,
        ).1 <= max),
        r matches Some((a, b)) ==> (a as nat, b as nat) == lowest(num as nat, den as nat) && 1 <= a
            <= num && 1 <= b <= den && a <= max && b <= max,
{
    let g: u64 = gcd_exec(num, den);
    proof {
        lemma_gcd(num as nat, den as nat);
        lemma_lowest_pos(num as nat, den as nat);
    }
    let a: u64 = num / g;
    let b: u64 = den / g;
    if a <= max && b <= max {
        Some((a, b))
    } else {
        None
    }
}

/// Both parts of a reduced fraction are positive and not larger than before,
/// and the fraction is the same.
pub proof fn lemma_lowest_pos(num: nat, den: nat)
    requires
        num > 0,
        den > 0,
    ensures
        1 <= lowest(num, den).0 <= num,
        1 <= lowest(num, den).1 <= den,
        lowest(num, den).0 * gcd(num, den) == num,
        lowest(num, den).1 * gcd(num, den) == den,
        lowest(num, den).0 * den == lowest(num, den).1 * num,
{
    lemma_gcd(num, den);
    let g = gcd(num, den);
    let x = choose|k: nat| num == #[trigger] (g * k);
    let y = choose|k: nat| den == #[trigger] (g * k);
    lemma_div_multiples_vanish(x as int, g as int);
    lemma_div_multiples_vanish(y as int, g as int);
    assert(num / g == x && den / g == y);
    assert(x >= 1 && y >= 1 && x <= num && y <= den && x * g == num && y * g == den && x * den == y
        * num) by (nonlinear_arith)
        requires
            num == g * x,
            den == g * y,
            num > 0,
            den > 0,
            g > 0,
    ;
}

/// How a quotient is rounded.
#[derive(Clone, Copy, Debug, PartialEq, Eq, Structural)]
pub enum Rounding {
    /// To the nearest integer, halves away from zero.
    NearInf,
    /// Towards positive infinity.
    Up,
}

/// `a * b / c` as an integer.
pub open spec fn rescaled(a: int, b: int, c: int, rnd: Rounding) -> int {
    match rnd {
        Rounding::NearInf => if a >= 0 {
            (a * b + c / 2) / c
        } else {
            -(((-a) * b + c / 2) / c)
        },
        Rounding::Up => if a >= 0 {
            (a * b + c - 1) / c
        } else {
            -(((-a) * b) / c)
        },
    }
}

/// `a * b / c`; `i64::MIN` where the arguments or the result are out of range.
pub open spec fn rescale_spec(a: int, b: int, c: int, rnd: Rounding) -> int {
    if b < 0 || c <= 0 {
        i64::MIN as int
    } else {
        let q = rescaled(if a == i64::MIN {
            i64::MIN + 1
        } else {
            a
        }, b, c, rnd);
        if i64::MIN < q <= i64::MAX {
            q
        } else {
            i64::MIN as int
        }
    }
}

/// `a * b / c`; `i64::MIN` where the arguments or the result are out of range.
pub fn rescale_rnd(a: i64, b: i64, c: i64, rnd: Rounding) -> (r: i64)
    ensures
        r == rescale_spec(a as int, b as int, c as int, rnd),
{
    if b < 0 || c <= 0 {
        return i64::MIN;
    }
    let neg: bool = a < 0;
    let m: u128 = if a == i64::MIN {
        0x7fff_ffff_ffff_ffff
    } else if neg {
        (-a) as u128
    } else {
        a as u128
    };
    let bu: u128 = b as u128;
    let cu: u128 = c as u128;
    proof {
        assert(0 <= m * bu <= 0x7fff_ffff_ffff_ffff * 0x7fff_ffff_ffff_ffff) by (nonlinear_arith)
            requires
                0 <= m <= 0x7fff_ffff_ffff_ffff,
                0 <= bu <= 0x7fff_ffff_ffff_ffff,
        ;
    }
    let p: u128 = m * bu;
    let bias: u128 = match rnd {
        Rounding::NearInf => cu / 2,
        Rounding::Up => if neg {
            0
        } else {
            cu - 1
        },
    };
    let q: u128 = (p + bias) / cu;
    if q > 0x7fff_ffff_ffff_ffff {
        return i64::MIN;
    }
    if neg {
        -(q as i64)
    } else {
        q as i64
    }
}

/// `a * b / c` to the nearest integer.
pub fn rescale(a: i64, b: i64, c: i64) -> (r: i64)
    ensures
        r == rescale_spec(a as int, b as int, c as int, Rounding::NearInf),
{
    rescale_rnd(a, b, c, Rounding::NearInf)
}

/// A quotient is the nearest integer, the farther from zero of two, or the next one
/// above; and the opposite of a number gives the opposite of its quotient.
pub proof fn lemma_rescaled(a: int, b: int, c: int)
    requires
        b >= 0,
        c > 0,
    ensures
        ({
            let q = rescaled(a, b, c, Rounding::NearInf);
            &&& -c <= 2 * (q * c - a * b) <= c
            &&& 2 * (q * c - a * b) == c ==> q > 0
            &&& 2 * (a * b - q * c) == c ==> q < 0
            &&& rescaled(-a, b, c, Rounding::NearInf) == -q
        }),
        ({
            let q = rescaled(a, b, c, Rounding::Up);
            0 <= q * c - a * b < c
        }),
{
    let m = if a >= 0 {
        a
    } else {
        -a
    };
    assert((-a) * b == -(a * b)) by (nonlinear_arith);
    let n = m * b;
    assert(n >= 0) by (nonlinear_arith)
        requires
            n == m * b,
            m >= 0,
            b >= 0,
    ;
    let k = (n + c / 2) / c;
    lemma_fundamental_div_mod(n + c / 2, c);
    lemma_mod_bound(n + c / 2, c);
    lemma_div_pos_is_pos(n + c / 2, c);
    assert(c * k == k * c) by (nonlinear_arith);
    assert((-k) * c == -(k * c)) by (nonlinear_arith);
    assert(k == 0 ==> k * c == 0) by (nonlinear_arith);
    if a == 0 {
        assert(n == 0) by (nonlinear_arith)
            requires
                n == m * b,
                m == 0,
        ;
        lemma_fundamental_div_mod_converse(c / 2, c, 0, c / 2);
    }
    let u = (n + c - 1) / c;
    lemma_fundamental_div_mod(n + c - 1, c);
    lemma_mod_bound(n + c - 1, c);
    assert(c * u == u * c) by (nonlinear_arith);
    let l = n / c;
    lemma_fundamental_div_mod(n, c);
    lemma_mod_bound(n, c);
    assert(c * l == l * c) by (nonlinear_arith);
    assert((-l) * c == -(l * c)) by (nonlinear_arith);
}

} // verus!
