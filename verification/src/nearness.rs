//! How near the results of floating-point operations are to the exact ones.
use crate::float;
use crate::float::{Format, ToInt, SCALE};
use vstd::arithmetic::div_mod::*;
use vstd::arithmetic::power2::*;
use vstd::prelude::*;

verus! {

// --- values ---------------------------------------------------------------------------

/// The unit in which values are counted goes this often into one.
pub open spec fn one() -> int {
    pow2(SCALE as nat) as int
}

/// What a magnitude stands for.
pub open spec fn mag_value(f: Format, mag: nat) -> int {
    float::units(float::mag_mant(f, mag), float::mag_expo(f, mag)) as int
}

/// Neither an infinity nor "not a number".
pub open spec fn finite(f: Format, bits: u64) -> bool {
    float::magnitude(f, bits) < f.inf()
}

/// What a bit pattern stands for.
pub open spec fn value(f: Format, bits: u64) -> int {
    let v = mag_value(f, float::magnitude(f, bits));
    if float::is_neg(f, bits) {
        -v
    } else {
        v
    }
}

pub open spec fn size(v: int) -> int {
    if v < 0 {
        -v
    } else {
        v
    }
}

/// The number `r` is the quotient `n / d`, but for rounding.
pub open spec fn near(f: Format, r: int, n: int, d: int) -> bool {
    size(r * d - n) * pow2(f.p()) <= size(n) + d * pow2((f.floor_exp() + f.p() - 1) as nat)
}

// --- rounding -------------------------------------------------------------------------

proof fn lemma_nearest(n: nat, d: nat)
    requires
        d > 0,
    ensures
        -(d as int) <= 2 * (float::rne(n, d) * d - n) <= d,
{
    lemma_fundamental_div_mod(n as int, d as int);
    lemma_mod_bound(n as int, d as int);
    let fl = n / d;
    assert(fl * d == d * fl) by (nonlinear_arith);
    assert((fl + 1) * d == fl * d + d) by (nonlinear_arith);
}

proof fn lemma_quotient_below(n: nat, d: nat, k: nat)
    requires
        d > 0,
        n < k * d,
    ensures
        n / d < k,
{
    lemma_fundamental_div_mod(n as int, d as int);
    lemma_mod_bound(n as int, d as int);
    assert(n / d < k) by (nonlinear_arith)
        requires
            n < k * d,
            d * (n / d) <= n,
            d > 0,
    ;
}

proof fn lemma_quotient_above(n: nat, d: nat, k: nat)
    requires
        d > 0,
        n >= k * d,
    ensures
        n / d >= k,
{
    lemma_fundamental_div_mod(n as int, d as int);
    lemma_mod_bound(n as int, d as int);
    assert(n / d >= k) by (nonlinear_arith)
        requires
            n >= k * d,
            n < d * (n / d) + d,
            d > 0,
    ;
}

/// What the magnitude made of the exponent `q` and the significand `m` stands for.
proof fn lemma_made(f: Format, q: nat, m: nat)
    requires
        q >= f.floor_exp(),
        m <= 2 * f.half(),
        q > f.floor_exp() ==> m >= f.half(),
    ensures
        mag_value(f, ((q - f.floor_exp()) as nat) * f.half() + m) == m * pow2(q),
{
    float::lemma_format(f);
    let h = f.half();
    let k = (q - f.floor_exp()) as nat;
    let mag = k * h + m;
    assert(k * h >= 0) by (nonlinear_arith);
    if mag < h {
        assert(k == 0) by (nonlinear_arith)
            requires
                k * h < h,
                h > 0,
                k >= 0,
        ;
    } else if m < h {
        assert(k == 0);
        assert(k * h == 0);
        assert(false);
    } else if m < 2 * h {
        assert(mag == (k + 1) * h + (m - h)) by (nonlinear_arith)
            requires
                mag == k * h + m,
        ;
        lemma_fundamental_div_mod_converse(mag as int, h as int, k as int + 1, m - h);
    } else {
        assert(mag == (k + 2) * h + 0) by (nonlinear_arith)
            requires
                mag == k * h + m,
                m == 2 * h,
        ;
        lemma_fundamental_div_mod_converse(mag as int, h as int, k as int + 2, 0);
        float::lemma_pow2_step(q);
        assert(h * pow2(q + 1) == m * pow2(q)) by (nonlinear_arith)
            requires
                m == 2 * h,
                pow2(q + 1) == 2 * pow2(q),
        ;
    }
}

/// A rounded magnitude stands for a value near to the one that was rounded.
pub proof fn lemma_rounded(f: Format, x: nat, d: nat)
    requires
        d > 0,
        x < d * pow2(4196),
    ensures
        float::round_mag(f, x, d) < f.inf(),
        near(f, mag_value(f, float::round_mag(f, x, d)), x as int, d as int),
{
    float::lemma_format(f);
    let y = x / d;
    let b = float::bitlen(y);
    let fe = f.floor_exp();
    let p = f.p();
    let h = f.half();
    let q = float::quantum(f, x, d);
    let c = pow2(q);
    lemma_pow2_pos(q);
    let u = d * c;
    assert(u > 0) by (nonlinear_arith)
        requires
            u == d * c,
            d > 0,
            c > 0,
    ;
    let m = float::rne(x, u);
    lemma_nearest(x, u);
    lemma_fundamental_div_mod(x as int, d as int);
    lemma_mod_bound(x as int, d as int);
    lemma2_to64();
    assert(y < pow2(b)) by {
        if y > 0 {
            float::lemma_bitlen_bounds(y);
        }
    }
    assert(x < pow2(b) * d) by (nonlinear_arith)
        requires
            x < d * y + d,
            y + 1 <= pow2(b),
    ;
    assert(b <= 4196) by {
        if b > 4196 {
            float::lemma_bitlen_bounds(y);
            if b - 1 > 4196 {
                lemma_pow2_strictly_increases(4196, (b - 1) as nat);
            }
            assert(x >= d * pow2(4196)) by (nonlinear_arith)
                requires
                    x >= d * y,
                    y >= pow2(4196),
            ;
        }
    }
    let tiny = pow2((fe + p - 1) as nat);
    if b < fe + p {
        lemma_pow2_adds((p - 1) as nat, fe);
        if b < fe + p - 1 {
            lemma_pow2_strictly_increases(b, (fe + p - 1) as nat);
        }
        assert(x < h * u) by (nonlinear_arith)
            requires
                x < pow2(b) * d,
                pow2(b) <= h * c,
                u == d * c,
        ;
        lemma_quotient_below(x, u, h);
        assert(tiny == h * c);
    } else {
        lemma_pow2_adds(p, q);
        lemma_pow2_adds((p - 1) as nat, q);
        assert(b == p + q);
        assert(x < (2 * h) * u) by (nonlinear_arith)
            requires
                x < pow2(b) * d,
                pow2(b) == (2 * h) * c,
                u == d * c,
        ;
        lemma_quotient_below(x, u, 2 * h);
        assert(y > 0) by {
            reveal_with_fuel(float::bitlen, 1);
        }
        float::lemma_bitlen_bounds(y);
        assert(pow2((b - 1) as nat) == h * c);
        assert(x >= h * u) by (nonlinear_arith)
            requires
                x >= d * y,
                y >= h * c,
                u == d * c,
        ;
        lemma_quotient_above(x, u, h);
    }
    let k = (q - fe) as nat;
    lemma_made(f, q, m);
    assert(k * h + m < f.inf()) by {
        let top: nat = if f == Format::Binary64 {
            1200
        } else {
            252
        };
        assert(k <= top);
        assert(k * h <= top * h) by (nonlinear_arith)
            requires
                k <= top,
        ;
    }
    let v = m * c;
    assert(v * d == m * u) by (nonlinear_arith)
        requires
            v == m * c,
            u == d * c,
    ;
    let e = size(v * d - x);
    assert(2 * e <= u);
    let pp = pow2(p);
    assert(e * pp <= h * u) by (nonlinear_arith)
        requires
            2 * e <= u,
            pp == 2 * h,
    ;
    if b < fe + p {
        assert(h * u == d * tiny) by (nonlinear_arith)
            requires
                u == d * c,
                tiny == h * c,
        ;
    } else {
        lemma_pow2_pos((fe + p - 1) as nat);
        assert(d * tiny >= 0) by (nonlinear_arith);
    }
}


pub(crate) proof fn lemma_near_scaled(f: Format, r: int, n: int, d: int, c: int)
    requires
        c > 0,
        d >= 0,
    ensures
        near(f, r, n, d) <==> near(f, r, n * c, d * c),
{
    let w = pow2(f.p()) as int;
    let t = pow2((f.floor_exp() + f.p() - 1) as nat) as int;
    let e = r * d - n;
    assert(r * (d * c) - n * c == e * c) by (nonlinear_arith)
        requires
            e == r * d - n,
    ;
    assert(size(e * c) == size(e) * c) by (nonlinear_arith)
        requires
            c > 0,
    ;
    assert(size(n * c) == size(n) * c) by (nonlinear_arith)
        requires
            c > 0,
    ;
    let a = size(e) * w;
    let b = size(n) + d * t;
    assert(size(e) * c * w == a * c) by (nonlinear_arith)
        requires
            a == size(e) * w,
    ;
    assert(size(n) * c + d * c * t == b * c) by (nonlinear_arith)
        requires
            b == size(n) + d * t,
    ;
    assert(a <= b <==> a * c <= b * c) by (nonlinear_arith)
        requires
            c > 0,
    ;
}

pub(crate) proof fn lemma_near_opposite(f: Format, r: int, n: int, d: int)
    ensures
        near(f, r, n, d) <==> near(f, -r, -n, d),
{
    assert((-r) * d - (-n) == -(r * d - n)) by (nonlinear_arith);
}

pub(crate) proof fn lemma_encoded(f: Format, neg: bool, mag: nat)
    requires
        mag < f.inf(),
    ensures
        float::magnitude(f, float::encode(f, neg, mag)) == mag,
        float::is_neg(f, float::encode(f, neg, mag)) == neg,
        f.holds(float::encode(f, neg, mag)),
        value(f, float::encode(f, neg, mag)) == if neg {
            -mag_value(f, mag)
        } else {
            mag_value(f, mag)
        },
{
    float::lemma_format(f);
}

/// A sum is near to the exact sum.
pub proof fn lemma_sum(f: Format, a: u64, b: u64)
    requires
        finite(f, a),
        finite(f, b),
        size(value(f, a) + value(f, b)) < pow2(4196),
    ensures
        finite(f, float::add_bits(f, a, b)),
        f.holds(float::add_bits(f, a, b)),
        near(f, value(f, float::add_bits(f, a, b)), value(f, a) + value(f, b), 1),
{
    reveal(float::add_bits);
    float::lemma_format(f);
    let s = value(f, a) + value(f, b);
    if s == 0 {
        lemma_encoded(f, float::is_neg(f, a) && float::is_neg(f, b), 0);
        let c = pow2((f.qmin() + SCALE) as nat);
        assert(0 * c == 0) by (nonlinear_arith);
        assert(0 * pow2(f.p()) == 0);
    } else {
        let x = size(s) as nat;
        lemma_rounded(f, x, 1);
        lemma_encoded(f, s < 0, float::round_mag(f, x, 1));
        lemma_near_opposite(f, mag_value(f, float::round_mag(f, x, 1)), x as int, 1);
    }
}

pub(crate) proof fn lemma_expo(f: Format, mag: nat)
    requires
        mag < f.inf(),
    ensures
        -1100 <= float::mag_expo(f, mag) <= 1000,
{
    let h = f.half() as int;
    lemma_fundamental_div_mod(mag as int, h);
    lemma_mod_bound(mag as int, h);
    lemma_div_pos_is_pos(mag as int, h);
    if f == Format::Binary32 {
        assert(mag as int / 0x80_0000 <= 255);
    } else {
        assert(mag as int / 0x10_0000_0000_0000 <= 2047);
    }
}

/// A product is near to the exact product.
pub proof fn lemma_product(f: Format, a: u64, b: u64)
    requires
        finite(f, a),
        finite(f, b),
        size(value(f, a) * value(f, b)) < one() * pow2(4196),
    ensures
        finite(f, float::mul_bits(f, a, b)),
        f.holds(float::mul_bits(f, a, b)),
        near(f, value(f, float::mul_bits(f, a, b)), value(f, a) * value(f, b), one()),
{
    reveal(float::mul_bits);
    let (ga, gb) = (float::magnitude(f, a), float::magnitude(f, b));
    let (ma, mb) = (float::mag_mant(f, ga), float::mag_mant(f, gb));
    let (qa, qb) = (float::mag_expo(f, ga), float::mag_expo(f, gb));
    lemma_expo(f, ga);
    lemma_expo(f, gb);
    let x = float::units(ma * mb, qa + qb);
    let (ca, cb, cx) = (
        pow2((qa + SCALE) as nat) as int,
        pow2((qb + SCALE) as nat) as int,
        pow2((qa + qb + SCALE) as nat) as int,
    );
    lemma_pow2_adds((qa + SCALE) as nat, (qb + SCALE) as nat);
    lemma_pow2_adds((qa + qb + SCALE) as nat, SCALE as nat);
    let (va, vb) = (mag_value(f, ga), mag_value(f, gb));
    let u = one();
    lemma_pow2_pos(SCALE as nat);
    assert(va * vb == x * u) by (nonlinear_arith)
        requires
            va == ma * ca,
            vb == mb * cb,
            x == ma * mb * cx,
            ca * cb == cx * u,
    ;
    let neg = float::is_neg(f, a) != float::is_neg(f, b);
    assert(value(f, a) * value(f, b) == if neg {
        -(va * vb)
    } else {
        va * vb
    }) by (nonlinear_arith)
        requires
            value(f, a) == if float::is_neg(f, a) {
                -va
            } else {
                va
            },
            value(f, b) == if float::is_neg(f, b) {
                -vb
            } else {
                vb
            },
            neg == (float::is_neg(f, a) != float::is_neg(f, b)),
    ;
    let top = pow2(4196) as int;
    assert(x >= 0);
    assert(va * vb >= 0) by (nonlinear_arith)
        requires
            va >= 0,
            vb >= 0,
    ;
    assert(x < 1 * top) by (nonlinear_arith)
        requires
            x * u < u * top,
            u > 0,
    ;
    lemma_rounded(f, x, 1);
    let r = mag_value(f, float::round_mag(f, x, 1));
    lemma_encoded(f, neg, float::round_mag(f, x, 1));
    lemma_near_scaled(f, r, x as int, 1, u);
    assert(1 * u == u);
    lemma_near_opposite(f, r, x * u, u);
}

/// A quotient is near to the exact quotient.
pub proof fn lemma_quotient(f: Format, a: u64, b: u64)
    requires
        finite(f, a),
        finite(f, b),
        value(f, b) > 0,
        size(value(f, a)) * one() < value(f, b) * pow2(4196),
    ensures
        finite(f, float::div_bits(f, a, b)),
        f.holds(float::div_bits(f, a, b)),
        near(f, value(f, float::div_bits(f, a, b)), value(f, a) * one(), value(f, b)),
{
    reveal(float::div_bits);
    let (ga, gb) = (float::magnitude(f, a), float::magnitude(f, b));
    let (ma, mb) = (float::mag_mant(f, ga), float::mag_mant(f, gb));
    let (qa, qb) = (float::mag_expo(f, ga), float::mag_expo(f, gb));
    lemma_expo(f, ga);
    lemma_expo(f, gb);
    let x = float::units(ma, qa - qb);
    let (ca, cb, cx) = (
        pow2((qa + SCALE) as nat) as int,
        pow2((qb + SCALE) as nat) as int,
        pow2((qa - qb + SCALE) as nat) as int,
    );
    lemma_pow2_adds((qa + SCALE) as nat, SCALE as nat);
    lemma_pow2_adds((qa - qb + SCALE) as nat, (qb + SCALE) as nat);
    lemma_pow2_pos((qb + SCALE) as nat);
    let (va, vb) = (mag_value(f, ga), mag_value(f, gb));
    assert(va >= 0 && vb >= 0);
    assert(!float::is_neg(f, b));
    assert(mb > 0) by {
        if mb == 0 {
            assert(0 * cb == 0);
        }
    }
    let u = one();
    assert(va * u == x * cb) by (nonlinear_arith)
        requires
            va == ma * ca,
            x == ma * cx,
            ca * u == cx * cb,
    ;
    let top = pow2(4196) as int;
    assert(x < mb * top) by (nonlinear_arith)
        requires
            x * cb < mb * cb * top,
            cb > 0,
    ;
    lemma_rounded(f, x, mb);
    let r = mag_value(f, float::round_mag(f, x, mb));
    let neg = float::is_neg(f, a);
    lemma_encoded(f, neg, float::round_mag(f, x, mb));
    lemma_near_scaled(f, r, x as int, mb as int, cb);
    lemma_near_opposite(f, r, va * u, vb);
    assert((-va) * u == -(va * u)) by (nonlinear_arith);
}

/// The integer zero has no bits.
pub proof fn lemma_zero(f: Format)
    ensures
        float::int_bits(f, 0, 0) == 0,
{
    reveal(float::int_bits);
    float::lemma_format(f);
    let c = pow2(SCALE as nat);
    assert(0 * c == 0) by (nonlinear_arith);
    reveal_with_fuel(float::bitlen, 1);
    assert(0int / 1 == 0);
    let q = float::quantum(f, 0, 1);
    assert(q == f.floor_exp());
    lemma_pow2_pos(q);
    let d = 1 * pow2(q);
    lemma_div_basics(d as int);
    lemma_fundamental_div_mod(0, d as int);
    assert(float::rne(0, d) == 0);
    assert(0 * f.half() == 0);
}

/// An integer that fits into the significand is itself.
pub proof fn lemma_integer(f: Format, v: int)
    requires
        -pow2(f.p()) < v < pow2(f.p()),
    ensures
        finite(f, float::int_bits(f, v, 0)),
        f.holds(float::int_bits(f, v, 0)),
        value(f, float::int_bits(f, v, 0)) == v * one(),
{
    reveal(float::int_bits);
    float::lemma_format(f);
    if v == 0 {
        lemma_zero(f);
        lemma_encoded(f, false, 0);
        let c = pow2((f.qmin() + SCALE) as nat);
        assert(0 * c == 0) by (nonlinear_arith);
        assert(0 * one() == 0);
    } else {
        let a = size(v) as nat;
        let mag = float::round_mag(f, float::units(a, 0), 1);
        float::lemma_exact_mag(f, a, 0);
        lemma_encoded(f, v < 0, mag);
        let n = float::bitlen(a);
        let g = (f.p() - n) as nat;
        lemma_pow2_adds(g, (n - f.p() + SCALE) as nat);
        let (c, e) = (pow2(g) as int, pow2((n - f.p() + SCALE) as nat) as int);
        assert(a * c * e == a * one()) by (nonlinear_arith)
            requires
                c * e == one(),
        ;
        assert((-a) * one() == -(a * one())) by (nonlinear_arith);
    }
}

/// The negative of a number.
pub proof fn lemma_opposite(f: Format, a: u64)
    requires
        finite(f, a),
    ensures
        finite(f, float::neg_bits(f, a)),
        f.holds(float::neg_bits(f, a)),
        value(f, float::neg_bits(f, a)) == -value(f, a),
{
    float::lemma_format(f);
}


// --- order ----------------------------------------------------------------------------

proof fn lemma_mag_step(f: Format, mag: nat)
    ensures
        mag_value(f, mag) < mag_value(f, mag + 1),
{
    float::lemma_format(f);
    let h = f.half() as int;
    let m = mag as int;
    lemma_fundamental_div_mod(m, h);
    lemma_mod_bound(m, h);
    lemma_div_pos_is_pos(m, h);
    let (k, r) = (m / h, m % h);
    assert(h * k == k * h) by (nonlinear_arith);
    if m < h {
        let c = pow2((f.qmin() + SCALE) as nat) as int;
        lemma_pow2_pos((f.qmin() + SCALE) as nat);
        if m + 1 == h {
            lemma_fundamental_div_mod_converse(m + 1, h, 1, 0);
        }
        assert(m * c < (m + 1) * c) by (nonlinear_arith)
            requires
                c > 0,
        ;
    } else {
        let q = (f.qmin() + k - 1 + SCALE) as nat;
        assert(k >= 1) by (nonlinear_arith)
            requires
                m == k * h + r,
                m >= h,
                r < h,
                h > 0,
        ;
        let c = pow2(q) as int;
        lemma_pow2_pos(q);
        if r + 1 < h {
            lemma_fundamental_div_mod_converse(m + 1, h, k, r + 1);
            assert((r + h) * c < (r + 1 + h) * c) by (nonlinear_arith)
                requires
                    c > 0,
            ;
        } else {
            assert(m + 1 == (k + 1) * h + 0) by (nonlinear_arith)
                requires
                    m == k * h + r,
                    r + 1 == h,
            ;
            lemma_fundamental_div_mod_converse(m + 1, h, k + 1, 0);
            float::lemma_pow2_step(q);
            assert((r + h) * c < h * (2 * c)) by (nonlinear_arith)
                requires
                    r + 1 == h,
                    c > 0,
            ;
        }
    }
}

proof fn lemma_mag_order(f: Format, a: nat, b: nat)
    requires
        a < b,
    ensures
        mag_value(f, a) < mag_value(f, b),
    decreases b - a,
{
    lemma_mag_step(f, a);
    if a + 1 < b {
        lemma_mag_order(f, a + 1, b);
    }
}

/// Numbers are in order as their values are.
pub proof fn lemma_order(f: Format, a: u64, b: u64)
    requires
        finite(f, a),
        finite(f, b),
    ensures
        float::lt_bits(f, a, b) == (value(f, a) < value(f, b)),
        float::eq_bits(f, a, b) == (value(f, a) == value(f, b)),
{
    reveal(float::lt_bits);
    reveal(float::eq_bits);
    let (x, y) = (float::magnitude(f, a), float::magnitude(f, b));
    if x < y {
        lemma_mag_order(f, x, y);
    } else if y < x {
        lemma_mag_order(f, y, x);
    }
    let c = pow2((f.qmin() + SCALE) as nat);
    assert(0 * c == 0) by (nonlinear_arith);
    if x > 0 {
        lemma_mag_order(f, 0, x);
    }
    if y > 0 {
        lemma_mag_order(f, 0, y);
    }
}

// --- conversions ----------------------------------------------------------------------

/// A number of another format is near to the number.
pub proof fn lemma_converted(from: Format, to: Format, a: u64)
    requires
        finite(from, a),
        size(value(from, a)) < pow2(4196),
    ensures
        finite(to, float::convert_bits(from, to, a)),
        to.holds(float::convert_bits(from, to, a)),
        near(to, value(to, float::convert_bits(from, to, a)), value(from, a), 1),
{
    reveal(float::convert_bits);
    let x = mag_value(from, float::magnitude(from, a));
    lemma_rounded(to, x as nat, 1);
    let mag = float::round_mag(to, x as nat, 1);
    lemma_encoded(to, float::is_neg(from, a), mag);
    lemma_near_opposite(to, mag_value(to, mag), x, 1);
}

/// A number times `2^k` becomes the nearest integer.
pub proof fn lemma_to_nearest(f: Format, a: u64, k: nat)
    requires
        finite(f, a),
        k <= 100,
        size(value(f, a)) * pow2(k) < one() * 0x4000_0000_0000_0000,
    ensures
        ({
            let r = float::to_int(f, ToInt::Nearest, a, k as int);
            &&& 2 * size(r * one() - value(f, a) * pow2(k)) <= one()
            &&& size(r) <= 0x4000_0000_0000_0000
        }),
{
    reveal(float::to_int);
    let mag = float::magnitude(f, a);
    let (m, q) = (float::mag_mant(f, mag), float::mag_expo(f, mag));
    lemma_expo(f, mag);
    let x = float::units(m, q + k);
    let w = mag_value(f, mag);
    lemma_pow2_adds((q + SCALE) as nat, k);
    let (c, d) = (pow2((q + SCALE) as nat) as int, pow2(k) as int);
    assert(x == w * d) by (nonlinear_arith)
        requires
            w == m * c,
            x == m * (c * d),
    ;
    let u = one();
    lemma_pow2_pos(SCALE as nat);
    lemma_nearest(x, u as nat);
    let n = float::rne(x, u as nat) as int;
    assert((-n) * u == -(n * u)) by (nonlinear_arith);
    assert((-w) * d == -(w * d)) by (nonlinear_arith);
    assert(n <= 0x4000_0000_0000_0000) by (nonlinear_arith)
        requires
            2 * (n * u - x) <= u,
            x < u * 0x4000_0000_0000_0000,
            u > 0,
    ;
}

/// A number becomes the next integer that is not below it.
pub proof fn lemma_to_ceil(f: Format, a: u64)
    requires
        finite(f, a),
        0 <= value(f, a) < one() * 0x4000_0000_0000_0000,
    ensures
        ({
            let r = float::to_int(f, ToInt::Ceil, a, 0);
            &&& (r - 1) * one() < value(f, a) <= r * one()
            &&& 0 <= r <= 0x4000_0000_0000_0000
        }),
{
    reveal(float::to_int);
    let mag = float::magnitude(f, a);
    let w = mag_value(f, mag);
    let u = one();
    lemma_pow2_pos(SCALE as nat);
    lemma_fundamental_div_mod(w, u);
    lemma_mod_bound(w, u);
    lemma_div_pos_is_pos(w, u);
    let (q, m) = (w / u, w % u);
    assert(u * q == q * u) by (nonlinear_arith);
    assert((q + 1) * u == q * u + u && (q - 1) * u == q * u - u) by (nonlinear_arith);
    assert(q < 0x4000_0000_0000_0000) by (nonlinear_arith)
        requires
            q * u <= w,
            w < u * 0x4000_0000_0000_0000,
            u > 0,
    ;
    if float::is_neg(f, a) {
        assert(w == 0);
        assert(q == 0) by {
            lemma_div_basics(u);
        }
    }
}

// --- nothing --------------------------------------------------------------------------

/// No bits are nothing.
pub proof fn lemma_nothing(f: Format)
    ensures
        finite(f, 0),
        f.holds(0),
        value(f, 0) == 0,
{
    let c = pow2((f.qmin() + SCALE) as nat);
    assert(0 * c == 0) by (nonlinear_arith);
}

/// Adding nothing changes nothing.
pub proof fn lemma_plus_nothing(f: Format, a: u64, b: u64)
    requires
        finite(f, a),
        finite(f, b),
        value(f, b) == 0,
    ensures
        finite(f, float::add_bits(f, a, b)),
        finite(f, float::add_bits(f, b, a)),
        f.holds(float::add_bits(f, a, b)),
        f.holds(float::add_bits(f, b, a)),
        value(f, float::add_bits(f, a, b)) == value(f, a),
        value(f, float::add_bits(f, b, a)) == value(f, a),
{
    reveal(float::add_bits);
    float::lemma_format(f);
    let mag = float::magnitude(f, a);
    let x = mag_value(f, mag);
    let c = pow2((f.qmin() + SCALE) as nat);
    assert(0 * c == 0) by (nonlinear_arith);
    float::lemma_round_trip(f, mag);
    lemma_encoded(f, true, mag);
    lemma_encoded(f, false, mag);
    lemma_encoded(f, true, 0);
    lemma_encoded(f, false, 0);
}

/// A product with nothing is nothing.
pub proof fn lemma_times_nothing(f: Format, a: u64, b: u64)
    requires
        finite(f, a),
        finite(f, b),
        value(f, b) == 0,
    ensures
        finite(f, float::mul_bits(f, a, b)),
        f.holds(float::mul_bits(f, a, b)),
        value(f, float::mul_bits(f, a, b)) == 0,
{
    reveal(float::mul_bits);
    let (ga, gb) = (float::magnitude(f, a), float::magnitude(f, b));
    let (ma, mb) = (float::mag_mant(f, ga), float::mag_mant(f, gb));
    let (qa, qb) = (float::mag_expo(f, ga), float::mag_expo(f, gb));
    lemma_expo(f, ga);
    lemma_expo(f, gb);
    let c = pow2((qb + SCALE) as nat);
    lemma_pow2_pos((qb + SCALE) as nat);
    assert(mb == 0) by (nonlinear_arith)
        requires
            mb * c == 0,
            c > 0,
    ;
    let d = pow2((qa + qb + SCALE) as nat);
    assert(ma * mb * d == 0) by (nonlinear_arith)
        requires
            mb == 0,
    ;
    reveal(float::int_bits);
    lemma_zero(f);
    let z = pow2(SCALE as nat);
    assert(0 * z == 0) by (nonlinear_arith);
    assert(float::round_mag(f, 0, 1) == 0) by {
        let m = float::round_mag(f, 0, 1);
        lemma_pow2_pos(4196);
        lemma_rounded(f, 0, 1);
        assert(float::encode(f, false, m) == 0);
    }
    lemma_encoded(f, float::is_neg(f, a) != float::is_neg(f, b), 0);
    let e = pow2((f.qmin() + SCALE) as nat);
    assert(0 * e == 0) by (nonlinear_arith);
}

} // verus!
