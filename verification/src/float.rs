//! IEEE 754 binary32 and binary64 arithmetic on bit patterns.
//!
//! Every operation is stated over the exact value of its operands: the result
//! is the exact result rounded to the nearest representable number, ties going
//! to the even encoding. A bit pattern splits into a sign and a magnitude; the
//! magnitudes of finite numbers enumerate the representable values in order.
use vstd::arithmetic::div_mod::*;
use vstd::arithmetic::mul::*;
use vstd::arithmetic::power2::*;
use vstd::prelude::*;

verus! {

/// Exact values are counted in units of `2^-SCALE`, which is finer than any
/// value an operation below produces.
pub const SCALE: u32 = 4096;

/// A binary interchange format.
#[derive(Clone, Copy, Debug, PartialEq, Eq, Structural)]
pub enum Format {
    /// Single precision.
    Binary32,
    /// Double precision.
    Binary64,
}

impl Format {
    /// Significand precision in bits, the implicit bit included.
    pub open spec fn p(self) -> nat {
        match self {
            Format::Binary32 => 24,
            Format::Binary64 => 53,
        }
    }

    /// Exponent of the least positive value.
    pub open spec fn qmin(self) -> int {
        match self {
            Format::Binary32 => -149,
            Format::Binary64 => -1074,
        }
    }

    /// Magnitude of infinity.
    pub open spec fn inf(self) -> nat {
        match self {
            Format::Binary32 => 0x7f80_0000,
            Format::Binary64 => 0x7ff0_0000_0000_0000,
        }
    }

    /// The sign bit.
    pub open spec fn sign(self) -> nat {
        match self {
            Format::Binary32 => 0x8000_0000,
            Format::Binary64 => 0x8000_0000_0000_0000,
        }
    }

    /// The least significand of a normal number.
    pub open spec fn half(self) -> nat {
        match self {
            Format::Binary32 => 0x80_0000,
            Format::Binary64 => 0x10_0000_0000_0000,
        }
    }

    /// Exponent of the least positive value, counted from `2^-SCALE`.
    pub open spec fn floor_exp(self) -> nat {
        (self.qmin() + SCALE) as nat
    }

    /// Bit patterns of the format.
    pub open spec fn holds(self, bits: u64) -> bool {
        bits < 2 * self.sign()
    }
}

/// What a bit pattern stands for: `(-1)^neg * m * 2^q`, an infinity or no number.
pub enum Num {
    Nan,
    Inf { neg: bool },
    Fin { neg: bool, m: nat, q: int },
}

pub open spec fn mag_mant(f: Format, mag: nat) -> nat {
    if mag < f.half() {
        mag
    } else {
        mag % f.half() + f.half()
    }
}

pub open spec fn mag_expo(f: Format, mag: nat) -> int {
    if mag < f.half() {
        f.qmin() as int
    } else {
        f.qmin() + (mag / f.half()) as int - 1
    }
}

pub open spec fn is_neg(f: Format, bits: u64) -> bool {
    bits >= f.sign()
}

pub open spec fn magnitude(f: Format, bits: u64) -> nat {
    if bits >= f.sign() {
        (bits - f.sign()) as nat
    } else {
        bits as nat
    }
}

pub open spec fn decode(f: Format, bits: u64) -> Num {
    let mag = magnitude(f, bits);
    if mag > f.inf() {
        Num::Nan
    } else if mag == f.inf() {
        Num::Inf { neg: is_neg(f, bits) }
    } else {
        Num::Fin { neg: is_neg(f, bits), m: mag_mant(f, mag), q: mag_expo(f, mag) }
    }
}

/// The quotient `n / d` to the nearest integer, ties to even.
pub open spec fn rne(n: nat, d: nat) -> nat {
    let fl = n / d;
    let r = n % d;
    if 2 * r > d || (2 * r == d && fl % 2 == 1) {
        fl + 1
    } else {
        fl
    }
}

/// Number of binary digits.
pub open spec fn bitlen(y: nat) -> nat
    decreases y,
{
    if y == 0 {
        0
    } else {
        1 + bitlen(y / 2)
    }
}

/// Exponent of the unit in the last place that `x / d` is rounded to, counted
/// from `2^-SCALE`.
pub open spec fn quantum(f: Format, x: nat, d: nat) -> nat {
    let b = bitlen(x / d);
    if b < f.floor_exp() + f.p() {
        f.floor_exp()
    } else {
        (b - f.p()) as nat
    }
}

/// Magnitude nearest to the value `x / d` (in units of `2^-SCALE`). A
/// significand that rounds up to the next power of two carries into the
/// exponent, and the largest exponent into infinity.
pub open spec fn round_mag(f: Format, x: nat, d: nat) -> nat {
    let q = quantum(f, x, d);
    let mag = ((q - f.floor_exp()) as nat) * f.half() + rne(x, d * pow2(q));
    if mag >= f.inf() {
        f.inf() as nat
    } else {
        mag
    }
}

pub open spec fn encode(f: Format, neg: bool, mag: nat) -> u64 {
    if neg {
        (mag + f.sign()) as u64
    } else {
        mag as u64
    }
}

pub open spec fn quiet_nan(f: Format) -> u64 {
    (f.inf() + f.half() / 2) as u64
}

/// `m * 2^q` in units of `2^-SCALE`.
pub open spec fn units(m: nat, q: int) -> nat {
    m * pow2((q + SCALE) as nat)
}

/// Signed form of [`units`].
pub open spec fn signed_units(neg: bool, m: nat, q: int) -> int {
    if neg {
        -(units(m, q) as int)
    } else {
        units(m, q) as int
    }
}

/// The sum of two bit patterns.
#[verifier::opaque]
pub open spec fn add_bits(f: Format, a: u64, b: u64) -> u64 {
    match (decode(f, a), decode(f, b)) {
        (Num::Fin { neg: na, m: ma, q: qa }, Num::Fin { neg: nb, m: mb, q: qb }) => {
            let s = signed_units(na, ma, qa) + signed_units(nb, mb, qb);
            if s == 0 {
                encode(f, na && nb, 0)
            } else if s < 0 {
                encode(f, true, round_mag(f, (-s) as nat, 1))
            } else {
                encode(f, false, round_mag(f, s as nat, 1))
            }
        },
        (Num::Inf { neg: na }, Num::Inf { neg: nb }) => if na == nb {
            encode(f, na, f.inf() as nat)
        } else {
            quiet_nan(f)
        },
        (Num::Inf { neg }, Num::Fin { .. }) => encode(f, neg, f.inf() as nat),
        (Num::Fin { .. }, Num::Inf { neg }) => encode(f, neg, f.inf() as nat),
        _ => quiet_nan(f),
    }
}

/// The product of two bit patterns.
#[verifier::opaque]
pub open spec fn mul_bits(f: Format, a: u64, b: u64) -> u64 {
    match (decode(f, a), decode(f, b)) {
        (Num::Fin { neg: na, m: ma, q: qa }, Num::Fin { neg: nb, m: mb, q: qb }) =>
            encode(f, na != nb, round_mag(f, units(ma * mb, qa + qb), 1)),
        (Num::Inf { neg: na }, Num::Inf { neg: nb }) => encode(f, na != nb, f.inf() as nat),
        (Num::Inf { neg: na }, Num::Fin { neg: nb, m, .. }) => if m == 0 {
            quiet_nan(f)
        } else {
            encode(f, na != nb, f.inf() as nat)
        },
        (Num::Fin { neg: na, m, .. }, Num::Inf { neg: nb }) => if m == 0 {
            quiet_nan(f)
        } else {
            encode(f, na != nb, f.inf() as nat)
        },
        _ => quiet_nan(f),
    }
}

/// The quotient of two bit patterns.
#[verifier::opaque]
pub open spec fn div_bits(f: Format, a: u64, b: u64) -> u64 {
    match (decode(f, a), decode(f, b)) {
        (Num::Fin { neg: na, m: ma, q: qa }, Num::Fin { neg: nb, m: mb, q: qb }) => if mb == 0 {
            if ma == 0 {
                quiet_nan(f)
            } else {
                encode(f, na != nb, f.inf() as nat)
            }
        } else {
            encode(f, na != nb, round_mag(f, units(ma, qa - qb), mb))
        },
        (Num::Inf { neg: na }, Num::Fin { neg: nb, .. }) => encode(f, na != nb, f.inf() as nat),
        (Num::Fin { neg: na, .. }, Num::Inf { neg: nb }) => encode(f, na != nb, 0),
        _ => quiet_nan(f),
    }
}

/// Position of a number on the number line; both zeros are at 0.
pub open spec fn order_key(f: Format, bits: u64) -> int {
    if is_neg(f, bits) {
        -(magnitude(f, bits) as int)
    } else {
        magnitude(f, bits) as int
    }
}

pub open spec fn is_nan(f: Format, bits: u64) -> bool {
    magnitude(f, bits) > f.inf()
}

#[verifier::opaque]
pub open spec fn lt_bits(f: Format, a: u64, b: u64) -> bool {
    !is_nan(f, a) && !is_nan(f, b) && order_key(f, a) < order_key(f, b)
}

#[verifier::opaque]
pub open spec fn eq_bits(f: Format, a: u64, b: u64) -> bool {
    !is_nan(f, a) && !is_nan(f, b) && order_key(f, a) == order_key(f, b)
}

pub open spec fn neg_bits(f: Format, a: u64) -> u64 {
    if is_neg(f, a) {
        (a - f.sign()) as u64
    } else {
        (a + f.sign()) as u64
    }
}

pub open spec fn abs_bits(f: Format, a: u64) -> u64 {
    magnitude(f, a) as u64
}

/// The integer `v`, scaled by `2^k`, as the nearest number of the format.
#[verifier::opaque]
pub open spec fn int_bits(f: Format, v: int, k: int) -> u64 {
    if v < 0 {
        encode(f, true, round_mag(f, units((-v) as nat, k), 1))
    } else {
        encode(f, false, round_mag(f, units(v as nat, k), 1))
    }
}

/// How a fraction is brought to an integer.
#[derive(Clone, Copy, Debug, PartialEq, Eq, Structural)]
pub enum ToInt {
    /// To the nearest integer, ties to even.
    Nearest,
    /// Towards zero.
    Truncate,
    /// Towards positive infinity.
    Ceil,
}

/// The value `(-1)^neg * x / d` as an integer.
pub open spec fn fraction_to_int(mode: ToInt, neg: bool, x: nat, d: nat) -> int {
    let lo = x / d;
    let t = match mode {
        ToInt::Nearest => rne(x, d),
        ToInt::Truncate => lo,
        ToInt::Ceil => if !neg && x % d != 0 {
            lo + 1
        } else {
            lo
        },
    };
    if neg {
        -(t as int)
    } else {
        t as int
    }
}

pub open spec fn saturate(v: int, lo: int, hi: int) -> int {
    if v < lo {
        lo
    } else if v > hi {
        hi
    } else {
        v
    }
}

/// A bit pattern times `2^k` as a 64-bit integer; out-of-range values saturate
/// and "not a number" is 0.
#[verifier::opaque]
pub open spec fn to_int(f: Format, mode: ToInt, a: u64, k: int) -> int {
    match decode(f, a) {
        Num::Nan => 0,
        Num::Inf { neg } => if neg {
            i64::MIN as int
        } else {
            i64::MAX as int
        },
        Num::Fin { neg, m, q } => saturate(
            fraction_to_int(mode, neg, units(m, q + k), pow2(SCALE as nat)),
            i64::MIN as int,
            i64::MAX as int,
        ),
    }
}

/// Change of format; "not a number" stays that, with its leading payload bits.
#[verifier::opaque]
pub open spec fn convert_bits(from: Format, to: Format, a: u64) -> u64 {
    match decode(from, a) {
        Num::Nan => encode(
            to,
            is_neg(from, a),
            quiet_payload(to, nan_payload(from, to, (magnitude(from, a) - from.inf()) as nat)),
        ),
        Num::Inf { neg } => encode(to, neg, to.inf() as nat),
        Num::Fin { neg, m, q } => encode(to, neg, round_mag(to, units(m, q), 1)),
    }
}

/// The payload of a "not a number" shifted from one significand width to another.
pub open spec fn nan_payload(from: Format, to: Format, payload: nat) -> nat {
    if from.p() > to.p() {
        payload / pow2((from.p() - to.p()) as nat)
    } else {
        payload * pow2((to.p() - from.p()) as nat)
    }
}

/// Magnitude of the quiet "not a number" with the given payload.
pub open spec fn quiet_payload(f: Format, payload: nat) -> nat {
    let quiet = f.half() / 2;
    f.inf() as nat + quiet + payload % quiet
}


// --- rounding lemmas ---------------------------------------------------------

pub(crate) proof fn lemma_format(f: Format)
    ensures
        f.half() == pow2((f.p() - 1) as nat),
        2 * f.half() == pow2(f.p()),
        f.floor_exp() >= 3000,
        f.inf() % 2 == 0,
        f.inf() < f.sign(),
        0 < f.half() < 0x20_0000_0000_0000,
{
    lemma2_to64();
    lemma2_to64_rest();
}

pub(crate) proof fn lemma_pow2_step(k: nat)
    ensures
        pow2(k + 1) == 2 * pow2(k),
        pow2(k) > 0,
{
    lemma_pow2_unfold(k + 1);
    lemma_pow2_pos(k);
}

proof fn lemma_bitlen(y: nat, k: nat)
    requires
        pow2(k) <= y < pow2(k + 1),
    ensures
        bitlen(y) == k + 1,
    decreases k,
{
    lemma_pow2_step(k);
    if k == 0 {
        lemma2_to64();
        assert(y == 1);
        reveal_with_fuel(bitlen, 2);
    } else {
        lemma_pow2_step((k - 1) as nat);
        lemma_bitlen(y / 2, (k - 1) as nat);
    }
}

pub(crate) proof fn lemma_bitlen_bounds(y: nat)
    requires
        y > 0,
    ensures
        bitlen(y) >= 1,
        pow2((bitlen(y) - 1) as nat) <= y < pow2(bitlen(y)),
    decreases y,
{
    lemma2_to64();
    if y == 1 {
        reveal_with_fuel(bitlen, 2);
    } else {
        lemma_bitlen_bounds(y / 2);
        lemma_pow2_step(bitlen(y / 2));
        lemma_pow2_step((bitlen(y / 2) - 1) as nat);
    }
}

proof fn lemma_divmod_scale(n: nat, d: nat, c: nat)
    requires
        d > 0,
        c > 0,
    ensures
        d * c > 0,
        (n * c) / (d * c) == n / d,
        (n * c) % (d * c) == (n % d) * c,
{
    assert(d * c > 0) by (nonlinear_arith)
        requires
            d > 0,
            c > 0,
    ;
    lemma_mul_is_commutative(n as int, c as int);
    lemma_mul_is_commutative(d as int, c as int);
    lemma_div_multiples_vanish_quotient(c as int, n as int, d as int);
    lemma_truncate_middle(n as int, c as int, d as int);
    lemma_mul_is_commutative(c as int, (n % d) as int);
}

proof fn lemma_rne_scale(n: nat, d: nat, c: nat)
    requires
        d > 0,
        c > 0,
    ensures
        rne(n * c, d * c) == rne(n, d),
{
    lemma_divmod_scale(n, d, c);
    let r = n % d;
    assert(2 * (r * c) > d * c <==> 2 * r > d) by (nonlinear_arith)
        requires
            c > 0,
    ;
    assert(2 * (r * c) == d * c <==> 2 * r == d) by (nonlinear_arith)
        requires
            c > 0,
    ;
}

proof fn lemma_round_scale(f: Format, x: nat, d: nat, c: nat)
    requires
        d > 0,
        c > 0,
    ensures
        round_mag(f, x * c, d * c) == round_mag(f, x, d),
{
    lemma_divmod_scale(x, d, c);
    let q = quantum(f, x, d);
    lemma_pow2_pos(q);
    assert(d * c * pow2(q) == d * pow2(q) * c) by (nonlinear_arith);
    assert(d * pow2(q) > 0) by (nonlinear_arith)
        requires
            d > 0,
            pow2(q) > 0,
    ;
    lemma_rne_scale(x, d * pow2(q), c);
}

/// One bit that says whether anything was cut off.
pub open spec fn sticky(n: nat, d: nat) -> nat {
    if n % d != 0 {
        1
    } else {
        0
    }
}

proof fn lemma_rne_sticky(n: nat, d: nat, h: nat)
    requires
        d > 0,
        h > 0,
    ensures
        rne(n, d * (2 * h)) == rne(2 * (n / d) + sticky(n, d), 2 * (2 * h)),
{
    let y = n / d;
    let r = n % d;
    let s = sticky(n, d);
    let p = 2 * h;
    let a = y / p;
    let b = y % p;
    lemma_fundamental_div_mod(n as int, d as int);
    lemma_fundamental_div_mod(y as int, p as int);
    lemma_div_denominator(n as int, d as int, p as int);
    lemma_mod_breakdown(n as int, d as int, p as int);
    assert(n / (d * p) == a);
    assert(n % (d * p) == d * b + r);
    let z = 2 * y + s;
    assert(z == a * (2 * p) + (2 * b + s)) by (nonlinear_arith)
        requires
            z == 2 * y + s,
            y == p * a + b,
    ;
    assert(0 <= 2 * b + s < 2 * p);
    lemma_fundamental_div_mod_converse(z as int, (2 * p) as int, a as int, (2 * b + s) as int);
    assert(z / (2 * p) == a);
    assert(z % (2 * p) == 2 * b + s);
    let lhs = d * b + r;
    assert(d * p == 2 * (d * h)) by (nonlinear_arith)
        requires
            p == 2 * h,
    ;
    if b > h {
        assert(d * b >= d * h + d) by (nonlinear_arith)
            requires
                b >= h + 1,
                d > 0,
        ;
    } else if b < h {
        assert(d * b + d <= d * h) by (nonlinear_arith)
            requires
                b + 1 <= h,
                d > 0,
        ;
    }
}

/// Cutting `n / d` off below its unit and keeping one sticky bit does not
/// change how it rounds, as long as enough bits stay.
proof fn lemma_round_sticky(f: Format, n: nat, d: nat, g: nat)
    requires
        d > 0,
        g >= 1,
        n / d >= 2 * pow2(f.p()),
    ensures
        round_mag(f, n * pow2(g), d) == round_mag(
            f,
            (2 * (n / d) + sticky(n, d)) * pow2((g - 1) as nat),
            1,
        ),
{
    lemma_format(f);
    let y = n / d;
    let r = n % d;
    let s = sticky(n, d);
    let pg = pow2(g);
    let pg1 = pow2((g - 1) as nat);
    lemma_pow2_step((g - 1) as nat);
    lemma_pow2_pos(f.p());
    lemma_bitlen_bounds(y);
    let k = (bitlen(y) - 1) as nat;
    let x = n * pg;
    let z = (2 * y + s) * pg1;
    // x / d lies in [y * 2^g, (y + 1) * 2^g)
    lemma_fundamental_div_mod(n as int, d as int);
    let xd = x / d;
    lemma_fundamental_div_mod(x as int, d as int);
    assert(y * pg <= xd < (y + 1) * pg) by (nonlinear_arith)
        requires
            x == n * pg,
            n == d * y + r,
            0 <= r < d,
            x == d * xd + x % d,
            0 <= x % d < d,
            d > 0,
            pg > 0,
    ;
    assert(y * pg <= z < (y + 1) * pg) by (nonlinear_arith)
        requires
            z == (2 * y + s) * pg1,
            0 <= s <= 1,
            pg == 2 * pg1,
            pg1 > 0,
    ;
    lemma_pow2_adds(k, g);
    lemma_pow2_adds(k + 1, g);
    assert(pow2(k) * pg <= y * pg) by (nonlinear_arith)
        requires
            pow2(k) <= y,
            pg > 0,
    ;
    assert((y + 1) * pg <= pow2(k + 1) * pg) by (nonlinear_arith)
        requires
            y + 1 <= pow2(k + 1),
            pg > 0,
    ;
    lemma_bitlen(xd, k + g);
    lemma_bitlen(z, k + g);
    let q = quantum(f, x, d);
    assert(z / 1 == z);
    assert(q == quantum(f, z, 1));
    // at least one bit of y is cut off
    lemma_pow2_step(f.p());
    if k <= f.p() {
        if k < f.p() {
            lemma_pow2_strictly_increases(k, f.p());
        }
        lemma_pow2_step(k);
        assert(false);
    }
    assert(q >= g + 1);
    let t = (q - g) as nat;
    lemma_pow2_adds(t, g);
    lemma_pow2_step((t - 1) as nat);
    let h = pow2((t - 1) as nat);
    assert(d * pow2(q) == (d * pow2(t)) * pg) by (nonlinear_arith)
        requires
            pow2(q) == pow2(t) * pg,
    ;
    assert(d * pow2(t) > 0) by (nonlinear_arith)
        requires
            d > 0,
            pow2(t) > 0,
    ;
    lemma_rne_scale(n, d * pow2(t), pg);
    lemma_pow2_adds(t + 1, (g - 1) as nat);
    lemma_pow2_step(t);
    lemma_rne_scale(2 * y + s, pow2(t + 1), pg1);
    lemma_rne_sticky(n, d, h);
}

proof fn lemma_units_shift(m: nat, q: int, j: nat)
    requires
        q - j + SCALE >= 0,
    ensures
        units(m * pow2(j), q - j) == units(m, q),
{
    lemma_pow2_adds(j, (q - j + SCALE) as nat);
    assert(m * pow2(j) * pow2((q - j + SCALE) as nat) == m * (pow2(j) * pow2(
        (q - j + SCALE) as nat,
    ))) by (nonlinear_arith);
}

proof fn lemma_rne_exact(n: nat, d: nat)
    requires
        d > 0,
    ensures
        rne(n * d, d) == n,
        (n * d) / d == n,
        (n * d) % d == 0,
{
    lemma_div_multiples_vanish(n as int, d as int);
    lemma_mod_multiples_basic(n as int, d as int);
    lemma_mul_is_commutative(n as int, d as int);
}

// --- executable core -----------------------------------------------------------

/// `2^t`.
fn pow2_u128(t: u32) -> (r: u128)
    requires
        t < 128,
    ensures
        r == pow2(t as nat),
        r > 0,
{
    proof {
        lemma2_to64();
    }
    let mut r: u128 = 1;
    let mut i: u32 = 0;
    while i < t
        invariant
            i <= t < 128,
            r == pow2(i as nat),
            r >= 1,
        decreases t - i,
    {
        proof {
            lemma_pow2_step(i as nat);
            lemma_pow2_bound127(i as nat + 1);
        }
        r = r * 2;
        i = i + 1;
    }
    r
}

proof fn lemma_pow2_bound127(k: nat)
    requires
        k <= 127,
    ensures
        pow2(k) <= 0x8000_0000_0000_0000_0000_0000_0000_0000,
{
    lemma2_to64();
    lemma2_to64_rest();
    lemma_pow2_adds(64, 63);
    if k < 127 {
        lemma_pow2_strictly_increases(k, 127);
    }
}

/// `n / d` to the nearest integer, ties to even.
fn rne_u128(n: u128, d: u128) -> (r: u128)
    requires
        d > 0,
        n < 0x8000_0000_0000_0000_0000_0000_0000_0000,
    ensures
        r == rne(n as nat, d as nat),
        r <= n + 1,
{
    let fl: u128 = n / d;
    let r: u128 = n % d;
    proof {
        assert(fl <= n) by (nonlinear_arith)
            requires
                fl == n / d,
                d > 0,
        ;
    }
    if r > d - r || (r == d - r && fl % 2 == 1) {
        fl + 1
    } else {
        fl
    }
}

/// Position of the leading bit.
fn floor_log2(n: u128) -> (l: u32)
    requires
        0 < n < 0x8000_0000_0000_0000_0000_0000_0000_0000,
    ensures
        l < 127,
        pow2(l as nat) <= n < pow2(l as nat + 1),
{
    proof {
        lemma2_to64();
        lemma2_to64_rest();
        lemma_pow2_adds(64, 63);
    }
    let mut d: u128 = 1;
    let mut l: u32 = 0;
    while n - d >= d
        invariant
            l < 127,
            d == pow2(l as nat),
            1 <= d <= n,
            n < 0x8000_0000_0000_0000_0000_0000_0000_0000,
            pow2(127) == 0x8000_0000_0000_0000_0000_0000_0000_0000,
        decreases n - d,
    {
        proof {
            lemma_pow2_step(l as nat);
            if l == 126 {
                assert(pow2(127) == 2 * pow2(126));
            }
        }
        d = d * 2;
        l = l + 1;
    }
    proof {
        lemma_pow2_step(l as nat);
    }
    l
}

impl Format {
    fn precision(self) -> (r: u32)
        ensures
            r == self.p(),
    {
        match self {
            Format::Binary32 => 24,
            Format::Binary64 => 53,
        }
    }

    fn floor_exponent(self) -> (r: i32)
        ensures
            r == self.floor_exp(),
    {
        match self {
            Format::Binary32 => 3947,
            Format::Binary64 => 3022,
        }
    }

    fn infinity(self) -> (r: u64)
        ensures
            r == self.inf(),
    {
        match self {
            Format::Binary32 => 0x7f80_0000,
            Format::Binary64 => 0x7ff0_0000_0000_0000,
        }
    }

    fn sign_bit(self) -> (r: u64)
        ensures
            r == self.sign(),
    {
        match self {
            Format::Binary32 => 0x8000_0000,
            Format::Binary64 => 0x8000_0000_0000_0000,
        }
    }

    fn hidden_bit(self) -> (r: u64)
        ensures
            r == self.half(),
    {
        match self {
            Format::Binary32 => 0x80_0000,
            Format::Binary64 => 0x10_0000_0000_0000,
        }
    }
}

/// Magnitude nearest to `n * 2^e`.
#[verifier::rlimit(40)]
fn round_pack(f: Format, n: u128, e: i32) -> (mag: u64)
    requires
        n < 0x8000_0000_0000_0000_0000_0000_0000_0000,
        -2500 <= e <= 2500,
    ensures
        mag == round_mag(f, units(n as nat, e as int), 1),
        mag <= f.inf(),
{
    proof {
        lemma_format(f);
        lemma_pow2_pos(f.floor_exp());
    }
    let ghost x = units(n as nat, e as int);
    if n == 0 {
        proof {
            lemma_mul_basics(pow2((e + SCALE) as nat) as int);
            assert(x == 0);
            assert(bitlen(0) == 0);
            let q = quantum(f, 0, 1);
            lemma_pow2_pos(q);
            assert(rne(0, 1 * pow2(q)) == 0) by {
                lemma_small_mod(0, pow2(q));
                lemma_basic_div(0, pow2(q) as int);
            }
        }
        return 0;
    }
    let l: u32 = floor_log2(n);
    let big_e: i32 = e + 4096;
    let lead: i32 = l as i32 + big_e + 1 - f.precision() as i32;
    let floor: i32 = f.floor_exponent();
    let q: i32 = if lead > floor {
        lead
    } else {
        floor
    };
    let ghost gl = l as nat;
    let ghost ge = big_e as nat;
    proof {
        lemma_pow2_adds(gl, ge);
        lemma_pow2_adds(gl + 1, ge);
        lemma_pow2_pos(ge);
        assert(pow2(gl) * pow2(ge) <= x < pow2(gl + 1) * pow2(ge)) by (nonlinear_arith)
            requires
                x == n as nat * pow2(ge),
                pow2(gl) <= n < pow2(gl + 1),
                pow2(ge) > 0,
        ;
        lemma_bitlen(x, gl + ge);
        assert(x / 1 == x);
        assert(q as nat == quantum(f, x, 1));
        assert(1 * pow2(q as nat) == pow2(q as nat));
    }
    let m: u128;
    if q <= big_e {
        let sh: u32 = (big_e - q) as u32;
        proof {
            lemma_pow2_adds(sh as nat, q as nat);
            lemma_pow2_pos(q as nat);
            assert(x == (n as nat * pow2(sh as nat)) * pow2(q as nat)) by (nonlinear_arith)
                requires
                    x == n as nat * pow2(ge),
                    pow2(ge) == pow2(sh as nat) * pow2(q as nat),
            ;
            lemma_rne_exact(n as nat * pow2(sh as nat), pow2(q as nat));
            lemma_pow2_adds(gl + 1, sh as nat);
            lemma_pow2_pos(sh as nat);
            assert(n as nat * pow2(sh as nat) <= pow2(gl + 1) * pow2(sh as nat)) by (nonlinear_arith)
                requires
                    n < pow2(gl + 1),
                    pow2(sh as nat) > 0,
            ;
            lemma_pow2_bound127(gl + 1 + sh as nat);
        }
        m = n * pow2_u128(sh);
    } else {
        let t: u32 = (q - big_e) as u32;
        proof {
            lemma_pow2_adds(t as nat, ge);
            lemma_pow2_pos(t as nat);
            lemma_rne_scale(n as nat, pow2(t as nat), pow2(ge));
        }
        if t >= 128 {
            proof {
                lemma2_to64();
                lemma_pow2_adds(64, 64);
                if t > 128 {
                    lemma_pow2_strictly_increases(128, t as nat);
                }
                lemma_small_mod(n as nat, pow2(t as nat));
                lemma_basic_div(n as int, pow2(t as nat) as int);
            }
            m = 0;
        } else {
            m = rne_u128(n, pow2_u128(t));
        }
    }
    assert(m == rne(x, pow2(q as nat)));
    let steps: u128 = (q - floor) as u128;
    let half: u64 = f.hidden_bit();
    proof {
        assert(steps * half <= 8192 * 0x20_0000_0000_0000) by (nonlinear_arith)
            requires
                0 <= steps <= 8192,
                0 <= half <= 0x20_0000_0000_0000,
        ;
    }
    let mag: u128 = steps * (half as u128) + m;
    if mag >= f.infinity() as u128 {
        f.infinity()
    } else {
        mag as u64
    }
}


/// A bit pattern taken apart.
enum Parts {
    Nan,
    Inf(bool),
    Fin(bool, u64, i32),
}

spec fn parts_match(f: Format, p: Parts, n: Num) -> bool {
    match (p, n) {
        (Parts::Nan, Num::Nan) => true,
        (Parts::Inf(a), Num::Inf { neg }) => a == neg,
        (Parts::Fin(a, m, q), Num::Fin { neg, m: gm, q: gq }) => {
            &&& a == neg
            &&& m == gm
            &&& q == gq
            &&& m < 2 * f.half()
            &&& f.qmin() <= q <= 971
            &&& q > f.qmin() ==> m >= f.half()
        },
        _ => false,
    }
}

fn split(f: Format, bits: u64) -> (r: (bool, u64))
    requires
        f.holds(bits),
    ensures
        r.0 == is_neg(f, bits),
        r.1 == magnitude(f, bits),
        r.1 < f.sign(),
{
    let s: u64 = f.sign_bit();
    if bits >= s {
        (true, bits - s)
    } else {
        (false, bits)
    }
}

fn unpack(f: Format, bits: u64) -> (r: Parts)
    requires
        f.holds(bits),
    ensures
        parts_match(f, r, decode(f, bits)),
{
    let (neg, mag) = split(f, bits);
    let inf: u64 = f.infinity();
    let half: u64 = f.hidden_bit();
    if mag > inf {
        Parts::Nan
    } else if mag == inf {
        Parts::Inf(neg)
    } else if mag < half {
        let q: i32 = f.floor_exponent() - 4096;
        Parts::Fin(neg, mag, q)
    } else {
        let t: u64 = mag / half;
        proof {
            match f {
                Format::Binary32 => {
                    assert(1 <= t <= 254);
                },
                Format::Binary64 => {
                    assert(1 <= t <= 2046);
                },
            }
        }
        let q: i32 = f.floor_exponent() - 4096 + t as i32 - 1;
        Parts::Fin(neg, mag % half + half, q)
    }
}

fn pack(f: Format, neg: bool, mag: u64) -> (r: u64)
    requires
        mag < f.sign(),
    ensures
        r == encode(f, neg, mag as nat),
        f.holds(r),
{
    if neg {
        mag + f.sign_bit()
    } else {
        mag
    }
}

fn nan(f: Format) -> (r: u64)
    ensures
        r == quiet_nan(f),
        f.holds(r),
{
    f.infinity() + f.hidden_bit() / 2
}

/// The sum of two finite numbers with `qa >= qb`.
#[verifier::rlimit(40)]
fn add_finite(f: Format, na: bool, ma: u64, qa: i32, nb: bool, mb: u64, qb: i32) -> (r: u64)
    requires
        ma < 2 * f.half(),
        mb < 2 * f.half(),
        f.qmin() <= qb <= qa <= 971,
        qa > f.qmin() ==> ma >= f.half(),
    ensures
        f.holds(r),
        ({
            let s = signed_units(na, ma as nat, qa as int) + signed_units(nb, mb as nat, qb as int);
            r == if s == 0 {
                encode(f, na && nb, 0)
            } else if s < 0 {
                encode(f, true, round_mag(f, (-s) as nat, 1))
            } else {
                encode(f, false, round_mag(f, s as nat, 1))
            }
        }),
{
    proof {
        lemma_format(f);
        lemma2_to64();
        lemma2_to64_rest();
    }
    let ghost ua = units(ma as nat, qa as int);
    let ghost ub = units(mb as nat, qb as int);
    let ghost s = signed_units(na, ma as nat, qa as int) + signed_units(nb, mb as nat, qb as int);
    let diff: i32 = qa - qb;
    if diff <= 70 {
        let ghost w = pow2((qb + SCALE) as nat);
        proof {
            lemma_pow2_pos((qb + SCALE) as nat);
            lemma_pow2_adds(64, 6);
            if diff < 70 {
                lemma_pow2_strictly_increases(diff as nat, 70);
            }
            lemma_pow2_pos(diff as nat);
            assert(ma * pow2(diff as nat) <= 0x20_0000_0000_0000 * pow2(70)) by (nonlinear_arith)
                requires
                    0 <= ma <= 0x20_0000_0000_0000,
                    0 < pow2(diff as nat) <= pow2(70),
            ;
            lemma_units_shift(ma as nat, qa as int, diff as nat);
        }
        let a: u128 = (ma as u128) * pow2_u128(diff as u32);
        let b: u128 = mb as u128;
        assert(ua == a as nat * w);
        assert(ub == b as nat * w);
        let (neg, n): (bool, u128) = if na == nb {
            (na, a + b)
        } else if a >= b {
            (na, a - b)
        } else {
            (nb, b - a)
        };
        proof {
            assert((a + b) * w == a * w + b * w) by (nonlinear_arith);
            assert((a - b) * w == a * w - b * w) by (nonlinear_arith);
            assert((b - a) * w == b * w - a * w) by (nonlinear_arith);
            assert(n > 0 ==> n * w > 0) by (nonlinear_arith)
                requires
                    w > 0,
            ;
            lemma_mul_basics(w as int);
            assert(s == if neg {
                -(units(n as nat, qb as int) as int)
            } else {
                units(n as nat, qb as int) as int
            });
        }
        if n == 0 {
            return pack(f, na && nb, 0);
        }
        let mag: u64 = round_pack(f, n, qb);
        return pack(f, neg, mag);
    }
    proof {
        lemma_pow2_pos((qa + SCALE) as nat);
        assert(ua > 0) by (nonlinear_arith)
            requires
                ua == ma as nat * pow2((qa + SCALE) as nat),
                ma > 0,
                pow2((qa + SCALE) as nat) > 0,
        ;
    }
    if mb == 0 {
        proof {
            lemma_mul_basics(pow2((qb + SCALE) as nat) as int);
            assert(ub == 0);
        }
        let mag: u64 = round_pack(f, ma as u128, qa);
        return pack(f, na, mag);
    }
    // The smaller operand only reaches the sticky bit.
    let wide: u128 = (ma as u128) * 4096;
    let (top, n): (u128, u128) = if na == nb {
        (wide, 2 * wide + 1)
    } else {
        ((wide - 1) as u128, 2 * wide - 1)
    };
    let mag: u64 = round_pack(f, n, qa - 13);
    proof {
        let g = (qa - 12 + SCALE) as nat;
        let d = pow2(g);
        lemma_pow2_pos(g);
        lemma_pow2_pos((qb + SCALE) as nat);
        // ua == wide * d and 0 < ub < d
        assert(pow2(12) == 4096);
        lemma_units_shift(ma as nat, qa as int, 12);
        assert(ua == wide * d);
        lemma_pow2_adds((qa - 12 - qb) as nat, (qb + SCALE) as nat);
        if qa - 12 - qb > 53 {
            lemma_pow2_strictly_increases(53, (qa - 12 - qb) as nat);
        }
        assert(0 < ub < d) by (nonlinear_arith)
            requires
                ub == mb as nat * pow2((qb + SCALE) as nat),
                0 < mb < 0x20_0000_0000_0000,
                pow2((qb + SCALE) as nat) > 0,
                d == pow2((qa - 12 - qb) as nat) * pow2((qb + SCALE) as nat),
                pow2((qa - 12 - qb) as nat) >= 0x20_0000_0000_0000,
        ;
        let x: nat = if na == nb {
            ua + ub
        } else {
            (ua - ub) as nat
        };
        assert(ua >= d) by (nonlinear_arith)
            requires
                ua == wide * d,
                wide >= 1,
                d > 0,
        ;
        assert(s == if na {
            -(x as int)
        } else {
            x as int
        });
        let rem: int = x - top * d;
        assert((wide - 1) * d == wide * d - d) by (nonlinear_arith);
        assert(0 < rem < d);
        lemma_fundamental_div_mod_converse(x as int, d as int, top as int, rem);
        assert(sticky(x, d) == 1);
        match f {
            Format::Binary32 => {
                assert(2 * pow2(f.p()) == 0x200_0000);
            },
            Format::Binary64 => {
                assert(2 * pow2(f.p()) == 0x40_0000_0000_0000);
            },
        }
        lemma_round_sticky(f, x, d, g);
        lemma_round_scale(f, x, 1, d);
        assert(1 * d == d);
        assert(units(n as nat, qa - 13) == (2 * top + 1) as nat * pow2((g - 1) as nat));
    }
    pack(f, na, mag)
}

/// The sum of two numbers.
pub fn add_f(f: Format, a: u64, b: u64) -> (r: u64)
    requires
        f.holds(a),
        f.holds(b),
    ensures
        r == add_bits(f, a, b),
        f.holds(r),
{
    proof {
        reveal(add_bits);
    }
    match (unpack(f, a), unpack(f, b)) {
        (Parts::Fin(na, ma, qa), Parts::Fin(nb, mb, qb)) => {
            if qa >= qb {
                add_finite(f, na, ma, qa, nb, mb, qb)
            } else {
                add_finite(f, nb, mb, qb, na, ma, qa)
            }
        },
        (Parts::Inf(na), Parts::Inf(nb)) => {
            if na == nb {
                pack(f, na, f.infinity())
            } else {
                nan(f)
            }
        },
        (Parts::Inf(na), Parts::Fin(_, _, _)) => pack(f, na, f.infinity()),
        (Parts::Fin(_, _, _), Parts::Inf(nb)) => pack(f, nb, f.infinity()),
        _ => nan(f),
    }
}

/// The product of two numbers.
pub fn mul_f(f: Format, a: u64, b: u64) -> (r: u64)
    requires
        f.holds(a),
        f.holds(b),
    ensures
        r == mul_bits(f, a, b),
        f.holds(r),
{
    proof {
        reveal(mul_bits);
    }
    proof {
        lemma_format(f);
    }
    match (unpack(f, a), unpack(f, b)) {
        (Parts::Fin(na, ma, qa), Parts::Fin(nb, mb, qb)) => {
            proof {
                assert(ma * mb <= 0x20_0000_0000_0000 * 0x20_0000_0000_0000) by (nonlinear_arith)
                    requires
                        0 <= ma <= 0x20_0000_0000_0000,
                        0 <= mb <= 0x20_0000_0000_0000,
                ;
            }
            let n: u128 = (ma as u128) * (mb as u128);
            let mag: u64 = round_pack(f, n, qa + qb);
            pack(f, na != nb, mag)
        },
        (Parts::Inf(na), Parts::Inf(nb)) => pack(f, na != nb, f.infinity()),
        (Parts::Inf(na), Parts::Fin(nb, m, _)) => {
            if m == 0 {
                nan(f)
            } else {
                pack(f, na != nb, f.infinity())
            }
        },
        (Parts::Fin(na, m, _), Parts::Inf(nb)) => {
            if m == 0 {
                nan(f)
            } else {
                pack(f, na != nb, f.infinity())
            }
        },
        _ => nan(f),
    }
}

/// Magnitude of the quotient `ma * 2^e / mb`.
#[verifier::rlimit(40)]
fn div_finite(f: Format, ma: u64, mb: u64, e: i32) -> (mag: u64)
    requires
        ma < 2 * f.half(),
        0 < mb < 2 * f.half(),
        -2050 <= e <= 2050,
    ensures
        mag == round_mag(f, units(ma as nat, e as int), mb as nat),
        mag <= f.inf(),
{
    proof {
        lemma_format(f);
        lemma2_to64();
        lemma2_to64_rest();
    }
    let half: u64 = f.hidden_bit();
    if ma == 0 {
        let mag: u64 = round_pack(f, 0, 0);
        proof {
            lemma_mul_basics(pow2((e + SCALE) as nat) as int);
            lemma_mul_basics(pow2(SCALE as nat) as int);
            assert(units(0, e as int) == 0);
            assert(units(0, 0) == 0);
            lemma_round_scale(f, 0, 1, mb as nat);
            assert(0 * mb as nat == 0);
            assert(1 * mb as nat == mb);
        }
        return mag;
    }
    let mut m: u64 = ma;
    let mut q: i32 = e;
    while m < half
        invariant
            half == f.half(),
            half < 0x20_0000_0000_0000,
            0 < m < 2 * half,
            -2050 <= e <= 2050,
            m as int + (e - q) >= 1 + (e - q),
            q <= e,
            pow2((e - q) as nat) <= m,
            units(m as nat, q as int) == units(ma as nat, e as int),
            half <= pow2(52),
            -2150 <= q,
        decreases 2 * half - m,
    {
        proof {
            let k = (e - q) as nat;
            lemma_pow2_step(k);
            if k >= 52 {
                if k > 52 {
                    lemma_pow2_strictly_increases(52, k);
                }
                assert(false);
            }
            lemma2_to64();
            lemma_units_shift(m as nat, q as int, 1);
        }
        m = m * 2;
        q = q - 1;
    }
    let p3: u128 = (half as u128) * 16;
    proof {
        assert(m * p3 <= 0x40_0000_0000_0000 * (0x20_0000_0000_0000 * 16)) by (nonlinear_arith)
            requires
                0 <= m <= 0x40_0000_0000_0000,
                0 <= p3 <= 0x20_0000_0000_0000 * 16,
        ;
    }
    let n: u128 = (m as u128) * p3;
    let quo: u128 = n / (mb as u128);
    let rem: u128 = n % (mb as u128);
    let ghost sh = (f.p() + 3) as nat;
    proof {
        assert(quo <= n) by (nonlinear_arith)
            requires
                quo == n / (mb as u128),
                mb > 0,
        ;
        lemma_pow2_adds(f.p(), 3);
        assert(p3 == pow2(sh));
        lemma_units_shift(m as nat, q as int, sh);
        lemma_fundamental_div_mod(n as int, mb as int);
        assert(quo >= 4 * half) by (nonlinear_arith)
            requires
                n == mb * quo + rem,
                rem < mb,
                n == m * (half * 16),
                m >= half,
                0 < mb < 2 * half,
                half > 0,
        ;
        let g = (q - sh + SCALE) as nat;
        lemma_round_sticky(f, n as nat, mb as nat, g);
        assert(units(n as nat, q - sh) == n as nat * pow2(g));
    }
    let low: u128 = if rem != 0 {
        1
    } else {
        0
    };
    let mag: u64 = round_pack(f, 2 * quo + low, q - f.precision() as i32 - 4);
    mag
}

/// The quotient of two numbers.
pub fn div_f(f: Format, a: u64, b: u64) -> (r: u64)
    requires
        f.holds(a),
        f.holds(b),
    ensures
        r == div_bits(f, a, b),
        f.holds(r),
{
    proof {
        reveal(div_bits);
    }
    match (unpack(f, a), unpack(f, b)) {
        (Parts::Fin(na, ma, qa), Parts::Fin(nb, mb, qb)) => {
            if mb == 0 {
                if ma == 0 {
                    nan(f)
                } else {
                    pack(f, na != nb, f.infinity())
                }
            } else {
                let mag: u64 = div_finite(f, ma, mb, qa - qb);
                pack(f, na != nb, mag)
            }
        },
        (Parts::Inf(na), Parts::Fin(nb, _, _)) => pack(f, na != nb, f.infinity()),
        (Parts::Fin(na, _, _), Parts::Inf(nb)) => pack(f, na != nb, 0),
        _ => nan(f),
    }
}

pub fn lt_f(f: Format, a: u64, b: u64) -> (r: bool)
    requires
        f.holds(a),
        f.holds(b),
    ensures
        r == lt_bits(f, a, b),
{
    proof {
        reveal(lt_bits);
    }
    let (na, ma) = split(f, a);
    let (nb, mb) = split(f, b);
    let inf: u64 = f.infinity();
    if ma > inf || mb > inf {
        return false;
    }
    match (na, nb) {
        (false, false) => ma < mb,
        (true, true) => mb < ma,
        (true, false) => ma != 0 || mb != 0,
        (false, true) => false,
    }
}

pub fn eq_f(f: Format, a: u64, b: u64) -> (r: bool)
    requires
        f.holds(a),
        f.holds(b),
    ensures
        r == eq_bits(f, a, b),
{
    proof {
        reveal(eq_bits);
    }
    let (na, ma) = split(f, a);
    let (nb, mb) = split(f, b);
    let inf: u64 = f.infinity();
    if ma > inf || mb > inf {
        return false;
    }
    if na == nb {
        ma == mb
    } else {
        ma == 0 && mb == 0
    }
}

pub fn neg_f(f: Format, a: u64) -> (r: u64)
    requires
        f.holds(a),
    ensures
        r == neg_bits(f, a),
        f.holds(r),
{
    let s: u64 = f.sign_bit();
    if a >= s {
        a - s
    } else {
        a + s
    }
}

pub fn abs_f(f: Format, a: u64) -> (r: u64)
    requires
        f.holds(a),
    ensures
        r == abs_bits(f, a),
        f.holds(r),
{
    let (_, m) = split(f, a);
    m
}

/// The integer `v * 2^k` as the nearest number.
pub fn from_int_f(f: Format, v: i64, k: i32) -> (r: u64)
    requires
        -100 <= k <= 100,
    ensures
        r == int_bits(f, v as int, k as int),
        f.holds(r),
{
    proof {
        reveal(int_bits);
    }
    if v < 0 {
        let n: u128 = (-(v as i128)) as u128;
        let mag: u64 = round_pack(f, n, k);
        pack(f, true, mag)
    } else {
        let mag: u64 = round_pack(f, v as u128, k);
        pack(f, false, mag)
    }
}

proof fn lemma_fraction_scale(mode: ToInt, neg: bool, x: nat, d: nat, c: nat)
    requires
        d > 0,
        c > 0,
    ensures
        fraction_to_int(mode, neg, x * c, d * c) == fraction_to_int(mode, neg, x, d),
{
    lemma_rne_scale(x, d, c);
    lemma_divmod_scale(x, d, c);
    let r = x % d;
    assert(r * c != 0 <==> r != 0) by (nonlinear_arith)
        requires
            c > 0,
    ;
}

/// A number times `2^k` as an integer.
#[verifier::rlimit(40)]
pub fn to_int_f(f: Format, mode: ToInt, a: u64, k: i32) -> (r: i64)
    requires
        f.holds(a),
        0 <= k <= 100,
    ensures
        r == to_int(f, mode, a, k as int),
{
    proof {
        reveal(to_int);
    }
    proof {
        lemma_format(f);
        lemma2_to64();
        lemma2_to64_rest();
    }
    match unpack(f, a) {
        Parts::Nan => 0,
        Parts::Inf(neg) => {
            if neg {
                i64::MIN
            } else {
                i64::MAX
            }
        },
        Parts::Fin(neg, m, q) => {
            let e: i32 = q + k;
            let t: u128;
            let ghost one = pow2(SCALE as nat);
            proof {
                lemma_pow2_pos(SCALE as nat);
            }
            if e >= 0 {
                proof {
                    lemma_pow2_adds(e as nat, SCALE as nat);
                    lemma_pow2_pos(e as nat);
                    assert(units(m as nat, e as int) == m as nat * pow2(e as nat) * one) by (nonlinear_arith)
                        requires
                            units(m as nat, e as int) == m as nat * pow2((e + SCALE) as nat),
                            pow2((e + SCALE) as nat) == pow2(e as nat) * one,
                    ;
                    lemma_rne_exact(m as nat * pow2(e as nat), one);
                }
                if m == 0 {
                    proof {
                        lemma_mul_basics(pow2(e as nat) as int);
                    }
                    t = 0;
                } else if e >= 64 {
                    proof {
                        if e > 64 {
                            lemma_pow2_strictly_increases(64, e as nat);
                        }
                        assert(m * pow2(e as nat) >= pow2(64)) by (nonlinear_arith)
                            requires
                                m >= 1,
                                pow2(e as nat) >= pow2(64),
                        ;
                    }
                    return if neg {
                        i64::MIN
                    } else {
                        i64::MAX
                    };
                } else {
                    proof {
                        lemma_pow2_strictly_increases(e as nat, 64);
                        assert(m * pow2(e as nat) <= 0x40_0000_0000_0000 * pow2(64)) by (nonlinear_arith)
                            requires
                                0 <= m <= 0x40_0000_0000_0000,
                                0 < pow2(e as nat) <= pow2(64),
                        ;
                    }
                    t = (m as u128) * pow2_u128(e as u32);
                }
            } else {
                let sh: u32 = (-e) as u32;
                proof {
                    lemma_pow2_adds(sh as nat, (SCALE - sh) as nat);
                    lemma_pow2_pos(sh as nat);
                    lemma_pow2_pos((SCALE - sh) as nat);
                    lemma_fraction_scale(mode, neg, m as nat, pow2(sh as nat), pow2((SCALE - sh) as nat));
                }
                if sh >= 64 {
                    proof {
                        if sh > 64 {
                            lemma_pow2_strictly_increases(64, sh as nat);
                        }
                        lemma_small_mod(m as nat, pow2(sh as nat));
                        lemma_basic_div(m as int, pow2(sh as nat) as int);
                    }
                    t = match mode {
                        ToInt::Ceil => if !neg && m != 0 {
                            1
                        } else {
                            0
                        },
                        _ => 0,
                    };
                } else {
                    let d: u128 = pow2_u128(sh);
                    t = match mode {
                        ToInt::Nearest => rne_u128(m as u128, d),
                        ToInt::Truncate => (m as u128) / d,
                        ToInt::Ceil => {
                            let lo: u128 = (m as u128) / d;
                            proof {
                                assert(lo <= m) by (nonlinear_arith)
                                    requires
                                        lo == (m as u128) / d,
                                        d > 0,
                                ;
                            }
                            if !neg && (m as u128) % d != 0 {
                                lo + 1
                            } else {
                                lo
                            }
                        },
                    };
                }
            }
            assert(fraction_to_int(mode, neg, units(m as nat, e as int), one) == if neg {
                -(t as int)
            } else {
                t as int
            });
            if neg {
                if t >= 0x8000_0000_0000_0000 {
                    i64::MIN
                } else {
                    -(t as i64)
                }
            } else if t > 0x7fff_ffff_ffff_ffff {
                i64::MAX
            } else {
                t as i64
            }
        },
    }
}

/// Change of format.
pub fn convert_f(from: Format, to: Format, a: u64) -> (r: u64)
    requires
        from.holds(a),
    ensures
        r == convert_bits(from, to, a),
        to.holds(r),
{
    proof {
        reveal(convert_bits);
    }
    proof {
        lemma_format(from);
        lemma2_to64();
    }
    match unpack(from, a) {
        Parts::Nan => {
            let (neg, mag) = split(from, a);
            let payload: u64 = mag - from.infinity();
            let moved: u64 = match (from, to) {
                (Format::Binary64, Format::Binary32) => payload / 0x2000_0000,
                (Format::Binary32, Format::Binary64) => payload * 0x2000_0000,
                _ => payload,
            };
            proof {
                let k = if from.p() > to.p() {
                    (from.p() - to.p()) as nat
                } else {
                    (to.p() - from.p()) as nat
                };
                assert(k == 0 || k == 29);
                assert(pow2(0) == 1 && pow2(29) == 0x2000_0000);
                lemma_mul_basics(payload as int);
                assert(moved == nan_payload(from, to, payload as nat));
            }
            let quiet: u64 = to.hidden_bit() / 2;
            pack(to, neg, to.infinity() + quiet + moved % quiet)
        },
        Parts::Inf(neg) => pack(to, neg, to.infinity()),
        Parts::Fin(neg, m, q) => {
            let mag: u64 = round_pack(to, m as u128, q);
            pack(to, neg, mag)
        },
    }
}


/// A single precision number.
#[derive(Clone, Copy, Debug, PartialEq, Eq, Structural, Hash)]
pub struct F32 {
    pub bits: u32,
}

impl F32 {
    pub open spec fn s_plus(self, o: F32) -> F32 {
        F32 { bits: add_bits(Format::Binary32, self.bits as u64, o.bits as u64) as u32 }
    }

    pub open spec fn s_minus(self, o: F32) -> F32 {
        self.s_plus(o.s_neg())
    }

    pub open spec fn s_times(self, o: F32) -> F32 {
        F32 { bits: mul_bits(Format::Binary32, self.bits as u64, o.bits as u64) as u32 }
    }

    pub open spec fn s_over(self, o: F32) -> F32 {
        F32 { bits: div_bits(Format::Binary32, self.bits as u64, o.bits as u64) as u32 }
    }

    pub open spec fn s_neg(self) -> F32 {
        F32 { bits: neg_bits(Format::Binary32, self.bits as u64) as u32 }
    }

    pub open spec fn s_abs(self) -> F32 {
        F32 { bits: abs_bits(Format::Binary32, self.bits as u64) as u32 }
    }

    pub open spec fn s_less(self, o: F32) -> bool {
        lt_bits(Format::Binary32, self.bits as u64, o.bits as u64)
    }

    pub open spec fn s_same(self, o: F32) -> bool {
        eq_bits(Format::Binary32, self.bits as u64, o.bits as u64)
    }

    pub open spec fn s_from_int(v: int) -> F32 {
        F32 { bits: int_bits(Format::Binary32, v, 0) as u32 }
    }

    /// The larger of two numbers; "not a number" gives way.
    pub open spec fn s_max(self, o: F32) -> F32 {
        if is_nan(Format::Binary32, self.bits as u64) || self.s_less(o) {
            o
        } else {
            self
        }
    }

    /// The smaller of two numbers; "not a number" gives way.
    pub open spec fn s_min(self, o: F32) -> F32 {
        if is_nan(Format::Binary32, self.bits as u64) || o.s_less(self) {
            o
        } else {
            self
        }
    }

    pub fn from_bits(bits: u32) -> (r: F32)
        ensures
            r.bits == bits,
    {
        F32 { bits }
    }

    pub fn to_bits(self) -> (r: u32)
        ensures
            r == self.bits,
    {
        self.bits
    }

    /// Sum.
    pub fn plus(self, o: F32) -> (r: F32)
        ensures
            r == self.s_plus(o),
    {
        F32 { bits: add_f(Format::Binary32, self.bits as u64, o.bits as u64) as u32 }
    }

    /// Difference.
    pub fn minus(self, o: F32) -> (r: F32)
        ensures
            r == self.s_minus(o),
    {
        self.plus(o.negated())
    }

    /// Product.
    pub fn times(self, o: F32) -> (r: F32)
        ensures
            r == self.s_times(o),
    {
        F32 { bits: mul_f(Format::Binary32, self.bits as u64, o.bits as u64) as u32 }
    }

    /// Quotient.
    pub fn over(self, o: F32) -> (r: F32)
        ensures
            r == self.s_over(o),
    {
        F32 { bits: div_f(Format::Binary32, self.bits as u64, o.bits as u64) as u32 }
    }

    pub fn negated(self) -> (r: F32)
        ensures
            r == self.s_neg(),
    {
        F32 { bits: neg_f(Format::Binary32, self.bits as u64) as u32 }
    }

    pub fn absolute(self) -> (r: F32)
        ensures
            r == self.s_abs(),
    {
        F32 { bits: abs_f(Format::Binary32, self.bits as u64) as u32 }
    }

    pub fn less(self, o: F32) -> (r: bool)
        ensures
            r == self.s_less(o),
    {
        lt_f(Format::Binary32, self.bits as u64, o.bits as u64)
    }

    /// Numeric equality: the two zeros are the same, "not a number" is not.
    pub fn same(self, o: F32) -> (r: bool)
        ensures
            r == self.s_same(o),
    {
        eq_f(Format::Binary32, self.bits as u64, o.bits as u64)
    }

    /// The number nearest to an integer.
    pub fn from_int(v: i64) -> (r: F32)
        ensures
            r == F32::s_from_int(v as int),
    {
        F32 { bits: from_int_f(Format::Binary32, v, 0) as u32 }
    }

    pub fn larger(self, o: F32) -> (r: F32)
        ensures
            r == self.s_max(o),
    {
        let (_, m) = split(Format::Binary32, self.bits as u64);
        if m > Format::Binary32.infinity() || self.less(o) {
            o
        } else {
            self
        }
    }

    pub fn smaller(self, o: F32) -> (r: F32)
        ensures
            r == self.s_min(o),
    {
        let (_, m) = split(Format::Binary32, self.bits as u64);
        if m > Format::Binary32.infinity() || o.less(self) {
            o
        } else {
            self
        }
    }

    /// The number as a 32-bit integer; out-of-range values saturate.
    pub open spec fn s_to_i32(self, mode: ToInt) -> int {
        saturate(to_int(Format::Binary32, mode, self.bits as u64, 0), i32::MIN as int, i32::MAX as int)
    }

    pub fn to_i32(self, mode: ToInt) -> (r: i32)
        ensures
            r == self.s_to_i32(mode),
    {
        let v: i64 = to_int_f(Format::Binary32, mode, self.bits as u64, 0);
        if v < -0x8000_0000 {
            i32::MIN
        } else if v > 0x7fff_ffff {
            i32::MAX
        } else {
            v as i32
        }
    }
}

/// A double precision number.
#[derive(Clone, Copy, Debug, PartialEq, Eq, Structural, Hash)]
pub struct F64 {
    pub bits: u64,
}

impl F64 {
    pub open spec fn s_plus(self, o: F64) -> F64 {
        F64 { bits: add_bits(Format::Binary64, self.bits as u64, o.bits as u64) as u64 }
    }

    pub open spec fn s_minus(self, o: F64) -> F64 {
        self.s_plus(o.s_neg())
    }

    pub open spec fn s_times(self, o: F64) -> F64 {
        F64 { bits: mul_bits(Format::Binary64, self.bits as u64, o.bits as u64) as u64 }
    }

    pub open spec fn s_over(self, o: F64) -> F64 {
        F64 { bits: div_bits(Format::Binary64, self.bits as u64, o.bits as u64) as u64 }
    }

    pub open spec fn s_neg(self) -> F64 {
        F64 { bits: neg_bits(Format::Binary64, self.bits as u64) as u64 }
    }

    pub open spec fn s_abs(self) -> F64 {
        F64 { bits: abs_bits(Format::Binary64, self.bits as u64) as u64 }
    }

    pub open spec fn s_less(self, o: F64) -> bool {
        lt_bits(Format::Binary64, self.bits as u64, o.bits as u64)
    }

    pub open spec fn s_same(self, o: F64) -> bool {
        eq_bits(Format::Binary64, self.bits as u64, o.bits as u64)
    }

    pub open spec fn s_from_int(v: int) -> F64 {
        F64 { bits: int_bits(Format::Binary64, v, 0) as u64 }
    }

    /// The larger of two numbers; "not a number" gives way.
    pub open spec fn s_max(self, o: F64) -> F64 {
        if is_nan(Format::Binary64, self.bits as u64) || self.s_less(o) {
            o
        } else {
            self
        }
    }

    /// The smaller of two numbers; "not a number" gives way.
    pub open spec fn s_min(self, o: F64) -> F64 {
        if is_nan(Format::Binary64, self.bits as u64) || o.s_less(self) {
            o
        } else {
            self
        }
    }

    pub fn from_bits(bits: u64) -> (r: F64)
        ensures
            r.bits == bits,
    {
        F64 { bits }
    }

    pub fn to_bits(self) -> (r: u64)
        ensures
            r == self.bits,
    {
        self.bits
    }

    /// Sum.
    pub fn plus(self, o: F64) -> (r: F64)
        ensures
            r == self.s_plus(o),
    {
        F64 { bits: add_f(Format::Binary64, self.bits as u64, o.bits as u64) as u64 }
    }

    /// Difference.
    pub fn minus(self, o: F64) -> (r: F64)
        ensures
            r == self.s_minus(o),
    {
        self.plus(o.negated())
    }

    /// Product.
    pub fn times(self, o: F64) -> (r: F64)
        ensures
            r == self.s_times(o),
    {
        F64 { bits: mul_f(Format::Binary64, self.bits as u64, o.bits as u64) as u64 }
    }

    /// Quotient.
    pub fn over(self, o: F64) -> (r: F64)
        ensures
            r == self.s_over(o),
    {
        F64 { bits: div_f(Format::Binary64, self.bits as u64, o.bits as u64) as u64 }
    }

    pub fn negated(self) -> (r: F64)
        ensures
            r == self.s_neg(),
    {
        F64 { bits: neg_f(Format::Binary64, self.bits as u64) as u64 }
    }

    pub fn absolute(self) -> (r: F64)
        ensures
            r == self.s_abs(),
    {
        F64 { bits: abs_f(Format::Binary64, self.bits as u64) as u64 }
    }

    pub fn less(self, o: F64) -> (r: bool)
        ensures
            r == self.s_less(o),
    {
        lt_f(Format::Binary64, self.bits as u64, o.bits as u64)
    }

    /// Numeric equality: the two zeros are the same, "not a number" is not.
    pub fn same(self, o: F64) -> (r: bool)
        ensures
            r == self.s_same(o),
    {
        eq_f(Format::Binary64, self.bits as u64, o.bits as u64)
    }

    /// The number nearest to an integer.
    pub fn from_int(v: i64) -> (r: F64)
        ensures
            r == F64::s_from_int(v as int),
    {
        F64 { bits: from_int_f(Format::Binary64, v, 0) as u64 }
    }

    pub fn larger(self, o: F64) -> (r: F64)
        ensures
            r == self.s_max(o),
    {
        let (_, m) = split(Format::Binary64, self.bits as u64);
        if m > Format::Binary64.infinity() || self.less(o) {
            o
        } else {
            self
        }
    }

    pub fn smaller(self, o: F64) -> (r: F64)
        ensures
            r == self.s_min(o),
    {
        let (_, m) = split(Format::Binary64, self.bits as u64);
        if m > Format::Binary64.infinity() || o.less(self) {
            o
        } else {
            self
        }
    }

    /// The number as a 32-bit integer; out-of-range values saturate.
    pub open spec fn s_to_i32(self, mode: ToInt) -> int {
        saturate(to_int(Format::Binary64, mode, self.bits as u64, 0), i32::MIN as int, i32::MAX as int)
    }

    pub fn to_i32(self, mode: ToInt) -> (r: i32)
        ensures
            r == self.s_to_i32(mode),
    {
        let v: i64 = to_int_f(Format::Binary64, mode, self.bits as u64, 0);
        if v < -0x8000_0000 {
            i32::MIN
        } else if v > 0x7fff_ffff {
            i32::MAX
        } else {
            v as i32
        }
    }
}

impl F32 {
    pub open spec fn s_widen(self) -> F64 {
        F64 { bits: convert_bits(Format::Binary32, Format::Binary64, self.bits as u64) }
    }

    /// The same number in double precision.
    pub fn widen(self) -> (r: F64)
        ensures
            r == self.s_widen(),
    {
        F64 { bits: convert_f(Format::Binary32, Format::Binary64, self.bits as u64) }
    }
}

impl F64 {
    pub open spec fn s_narrow(self) -> F32 {
        F32 { bits: convert_bits(Format::Binary64, Format::Binary32, self.bits) as u32 }
    }

    /// The nearest number in single precision.
    pub fn narrow(self) -> (r: F32)
        ensures
            r == self.s_narrow(),
    {
        F32 { bits: convert_f(Format::Binary64, Format::Binary32, self.bits) as u32 }
    }

    /// Rounded to single precision and then to the nearest integer, ties to even.
    pub open spec fn s_lrintf(self) -> int {
        self.s_narrow().s_to_i32(ToInt::Nearest)
    }

    pub fn lrintf(self) -> (r: i32)
        ensures
            r == self.s_lrintf(),
    {
        self.narrow().to_i32(ToInt::Nearest)
    }
}

// --- exact integers ----------------------------------------------------------

/// The bit pattern of a positive integer that fits into the significand, scaled.
pub(crate) proof fn lemma_exact_mag(f: Format, v: nat, k: int)
    requires
        0 < v < pow2(f.p()),
        -100 <= k <= 0,
    ensures
        ({
            let mag = round_mag(f, units(v, k), 1);
            let n = bitlen(v);
            &&& 1 <= n <= f.p()
            &&& f.half() <= mag < f.inf()
            &&& mag_mant(f, mag) == v * pow2((f.p() - n) as nat)
            &&& mag_expo(f, mag) == n + k - f.p()
        }),
{
    lemma_format(f);
    lemma_bitlen_bounds(v);
    let n = bitlen(v);
    let p = f.p();
    let e = (k + SCALE) as nat;
    if n > p {
        if n - 1 > p {
            lemma_pow2_strictly_increases(p, (n - 1) as nat);
        }
    }
    assert(n <= p);
    let x = units(v, k);
    lemma_pow2_pos(e);
    // the number of digits
    lemma_pow2_adds((n - 1) as nat, e);
    lemma_pow2_adds(n, e);
    assert(pow2((n - 1 + e) as nat) <= x < pow2((n - 1 + e) as nat + 1)) by (nonlinear_arith)
        requires
            x == v * pow2(e),
            pow2((n - 1) as nat) <= v,
            v + 1 <= pow2(n),
            pow2(e) > 0,
            pow2((n - 1 + e) as nat) == pow2((n - 1) as nat) * pow2(e),
            pow2((n - 1 + e) as nat + 1) == pow2(n) * pow2(e),
    ;
    lemma_bitlen(x, (n - 1 + e) as nat);
    assert(x / 1 == x);
    let q = quantum(f, x, 1);
    assert(q == n + e - p);
    // the significand
    let g = (p - n) as nat;
    let m = v * pow2(g);
    lemma_pow2_adds(g, q);
    assert(x == m * pow2(q)) by (nonlinear_arith)
        requires
            x == v * pow2(e),
            m == v * pow2(g),
            pow2(e) == pow2(g) * pow2(q),
    ;
    lemma_pow2_pos(q);
    lemma_rne_exact(m, pow2(q));
    assert(1 * pow2(q) == pow2(q));
    lemma_pow2_adds((n - 1) as nat, g);
    lemma_pow2_adds(n, g);
    lemma_pow2_pos(g);
    assert(f.half() <= m < 2 * f.half()) by (nonlinear_arith)
        requires
            m == v * pow2(g),
            pow2((n - 1) as nat) <= v,
            v + 1 <= pow2(n),
            pow2(g) > 0,
            f.half() == pow2((n - 1) as nat) * pow2(g),
            2 * f.half() == pow2(n) * pow2(g),
    ;
    let h = f.half() as int;
    let t = q - f.floor_exp();
    let mag = t * h + m;
    assert(0 <= t <= 2000);
    assert(0 <= t * h <= t * h + h) by (nonlinear_arith)
        requires
            t >= 0,
            h > 0,
    ;
    lemma_fundamental_div_mod_converse(mag, h, t + 1, m - h);
    assert(mag == (t + 1) * h + (m - h)) by (nonlinear_arith)
        requires
            mag == t * h + m,
    ;
    assert(mag < f.inf()) by {
        match f {
            Format::Binary32 => {
                assert(t == n + k - 24 + 149);
                assert(t <= 149);
            },
            Format::Binary64 => {
                assert(t <= 1074);
            },
        }
    }
}

/// An integer that fits into the significand becomes a number, and this the
/// integer again, without loss.
pub proof fn lemma_int_exact(f: Format, v: int, k: int)
    requires
        -pow2(f.p()) < v < pow2(f.p()),
        -100 <= k <= 0,
    ensures
        to_int(f, ToInt::Nearest, int_bits(f, v, k), -k) == v,
{
    reveal(to_int);
    reveal(int_bits);
    lemma_format(f);
    let neg = v < 0;
    let a: nat = if neg {
        (-v) as nat
    } else {
        v as nat
    };
    let bits = int_bits(f, v, k);
    let mag = round_mag(f, units(a, k), 1);
    lemma2_to64();
    lemma2_to64_rest();
    if a == 0 {
        let x = units(0, k);
        assert(x == 0);
        assert(bitlen(0) == 0);
        assert(x / 1 == 0);
        let q = quantum(f, x, 1);
        lemma_pow2_pos(q);
        assert(q == f.floor_exp());
        assert(1 * pow2(q) == pow2(q));
        assert(rne(0, pow2(q)) == 0) by {
            lemma_rne_exact(0, pow2(q));
            assert(0 * pow2(q) == 0) by (nonlinear_arith);
        }
        let t = (q - f.floor_exp()) as nat;
        assert(t == 0);
        assert(t * f.half() == 0) by (nonlinear_arith)
            requires
                t == 0,
        ;
        assert(rne(x, 1 * pow2(q)) == 0);
        assert(mag == 0);
        assert(units(0, f.qmin() - k) == 0);
        lemma_pow2_pos(SCALE as nat);
        lemma_rne_exact(0, pow2(SCALE as nat));
    } else {
        lemma_exact_mag(f, a, k);
        let n = bitlen(a);
        let g = (f.p() - n) as nat;
        let m = a * pow2(g);
        let q = n + k - f.p();
        assert(magnitude(f, bits) == mag);
        assert(is_neg(f, bits) == neg);
        assert(decode(f, bits) == (Num::Fin { neg, m, q }));
        lemma_units_shift(a, 0, g);
        assert(units(m, q - k) == units(a, 0));
        lemma_pow2_pos(SCALE as nat);
        lemma_rne_exact(a, pow2(SCALE as nat));
    }
}

// --- orders of magnitude -------------------------------------------------------

/// How a value with the leading digit `2^a` is rounded.
proof fn lemma_binade(f: Format, x: nat, a: nat)
    requires
        pow2(a) <= x < pow2(a + 1),
        a + 1 >= f.floor_exp() + f.p(),
    ensures
        ({
            let q = (a + 1 - f.p()) as nat;
            let m = rne(x, pow2(q));
            let mag = ((q - f.floor_exp()) as nat) * f.half() + m;
            &&& f.half() <= m <= 2 * f.half()
            &&& x == pow2(a) ==> m == f.half()
            &&& mag < f.inf() ==> round_mag(f, x, 1) == mag
        }),
{
    lemma_format(f);
    lemma_bitlen(x, a);
    assert(x / 1 == x);
    let q = (a + 1 - f.p()) as nat;
    let h = f.half();
    assert(quantum(f, x, 1) == q);
    lemma_pow2_adds((f.p() - 1) as nat, q);
    lemma_pow2_adds(f.p(), q);
    lemma_pow2_pos(q);
    let d = pow2(q);
    assert(1 * d == d);
    let fl = x / d;
    lemma_fundamental_div_mod(x as int, d as int);
    lemma_mod_bound(x as int, d as int);
    assert(h <= fl < 2 * h) by (nonlinear_arith)
        requires
            x == d * fl + x % d,
            0 <= x % d < d,
            h * d <= x,
            x < 2 * h * d,
            d > 0,
    ;
    if x == pow2(a) {
        lemma_rne_exact(h, d);
    }
}

/// A tiny bit more than 0.002, times `2^k`, is less than any integer from
/// `2^(k-1)` on.
pub(crate) proof fn lemma_thousandths(k: nat, c: int)
    requires
        1 <= k <= 62,
        pow2((k - 1) as nat) <= c <= 0x7fff_ffff_ffff_ffff,
    ensures
        lt_bits(
            Format::Binary64,
            mul_bits(
                Format::Binary64,
                0x3f60_624d_d2f1_a9fc,
                int_bits(Format::Binary64, pow2(k) as int, 0),
            ),
            int_bits(Format::Binary64, c, 0),
        ),
{
    reveal(lt_bits);
    reveal(mul_bits);
    reveal(int_bits);
    let f = Format::Binary64;
    let h = f.half();
    lemma_format(f);
    lemma2_to64();
    lemma2_to64_rest();
    lemma_pow2_pos(k);
    // the power of two
    let b1 = int_bits(f, pow2(k) as int, 0);
    lemma_pow2_adds(k, 4096);
    lemma_pow2_step(k + 4096);
    lemma_binade(f, pow2(k + 4096), k + 4096);
    let mag1 = (k + 1022) * h + h;
    assert(b1 == mag1);
    lemma_fundamental_div_mod_converse(mag1 as int, h as int, (k + 1023) as int, 0);
    assert(decode(f, b1) == (Num::Fin { neg: false, m: h, q: k - 52 }));
    // the product
    let s = 0x3f60_624d_d2f1_a9fcu64;
    let ms: nat = 0x10_624d_d2f1_a9fc;
    assert(decode(f, s) == (Num::Fin { neg: false, m: ms, q: -61 }));
    let x = units(ms * h, -61 + (k - 52));
    lemma_pow2_adds(52, (k + 3983) as nat);
    lemma_pow2_adds(52, (k + 4035) as nat);
    lemma_pow2_adds(53, (k + 4035) as nat);
    let e = pow2((k + 4035) as nat);
    assert(x == ms * e) by (nonlinear_arith)
        requires
            x == ms * h * pow2((k + 3983) as nat),
            e == h * pow2((k + 3983) as nat),
    ;
    lemma_pow2_pos((k + 4035) as nat);
    assert(h * e <= x < 2 * h * e) by (nonlinear_arith)
        requires
            x == ms * e,
            h <= ms,
            ms < 2 * h,
            e > 0,
    ;
    lemma_binade(f, x, (k + 4087) as nat);
    let b2 = mul_bits(f, s, b1);
    let mag2 = round_mag(f, x, 1);
    assert((k + 1013) * h + h <= mag2 <= (k + 1013) * h + 2 * h);
    assert(b2 == mag2);
    // the integer
    let n = bitlen(c as nat);
    lemma_bitlen_bounds(c as nat);
    if n < k {
        if n < k - 1 {
            lemma_pow2_strictly_increases(n, (k - 1) as nat);
        }
        assert(false);
    }
    if n > 63 {
        if n > 64 {
            lemma_pow2_strictly_increases(63, (n - 1) as nat);
        }
        assert(false);
    }
    lemma_pow2_adds((n - 1) as nat, 4096);
    lemma_pow2_adds(n, 4096);
    lemma_pow2_pos(4096);
    let y = units(c as nat, 0);
    let z = pow2(4096);
    assert(pow2((n - 1 + 4096) as nat) <= y < pow2(n + 4096)) by (nonlinear_arith)
        requires
            y == c * z,
            pow2((n - 1 + 4096) as nat) == pow2((n - 1) as nat) * z,
            pow2(n + 4096) == pow2(n) * z,
            pow2((n - 1) as nat) <= c,
            c < pow2(n),
            z > 0,
    ;
    lemma_binade(f, y, (n - 1 + 4096) as nat);
    let b3 = int_bits(f, c, 0);
    let mag3 = round_mag(f, y, 1);
    assert((n + 1021) * h + h <= mag3 <= (n + 1021) * h + 2 * h);
    assert(b3 == mag3);
}

/// Rounding gives a finite number back.
pub(crate) proof fn lemma_round_trip(f: Format, mag: nat)
    requires
        mag < f.inf(),
    ensures
        round_mag(f, units(mag_mant(f, mag), mag_expo(f, mag)), 1) == mag,
{
    lemma_format(f);
    let h = f.half();
    let e = f.floor_exp();
    let m = mag_mant(f, mag);
    let x = units(m, mag_expo(f, mag));
    assert(x / 1 == x);
    if mag < h {
        lemma_pow2_pos(e);
        lemma_pow2_adds((f.p() - 1) as nat, e);
        assert(x < h * pow2(e)) by (nonlinear_arith)
            requires
                x == m * pow2(e),
                m < h,
                pow2(e) > 0,
        ;
        let b = bitlen(x);
        if b >= e + f.p() {
            lemma_bitlen_bounds(x);
            let lo = (b - 1) as nat;
            let hi = (f.p() - 1 + e) as nat;
            if hi < lo {
                lemma_pow2_strictly_increases(hi, lo);
            }
            assert(false);
        }
        assert(quantum(f, x, 1) == e);
        assert(1 * pow2(e) == pow2(e));
        lemma_rne_exact(m, pow2(e));
        assert(0nat * h == 0) by (nonlinear_arith);
    } else {
        let t = mag / h;
        lemma_fundamental_div_mod(mag as int, h as int);
        lemma_mod_bound(mag as int, h as int);
        if t == 0 {
            assert(h * t == 0) by (nonlinear_arith)
                requires
                    t == 0,
            ;
        }
        let q = (e + t - 1) as nat;
        let a = (f.p() - 1 + q) as nat;
        lemma_pow2_pos(q);
        lemma_pow2_adds((f.p() - 1) as nat, q);
        lemma_pow2_adds(f.p(), q);
        assert(h * pow2(q) <= x < 2 * h * pow2(q)) by (nonlinear_arith)
            requires
                x == m * pow2(q),
                h <= m < 2 * h,
                pow2(q) > 0,
        ;
        lemma_binade(f, x, a);
        lemma_rne_exact(m, pow2(q));
        assert((t - 1) * h + m == mag) by (nonlinear_arith)
            requires
                mag == h * t + mag % h,
                m == mag % h + h,
        ;
    }
}

impl F64 {
    pub open spec fn nan(self) -> bool {
        is_nan(Format::Binary64, self.bits)
    }

    /// What is no number does not become one.
    pub proof fn lemma_nan_times(self, o: F64)
        requires
            self.nan(),
        ensures
            self.s_times(o).nan(),
    {
        reveal(mul_bits);
    }

    /// A number times one is the number.
    pub proof fn lemma_times_one(self)
        requires
            !self.nan(),
        ensures
            self.s_times(F64 { bits: 0x3ff0_0000_0000_0000 }) == self,
    {
        reveal(mul_bits);
        let f = Format::Binary64;
        let a = self.bits;
        let one = 0x3ff0_0000_0000_0000u64;
        lemma_format(f);
        lemma2_to64_rest();
        assert(decode(f, one) == (Num::Fin { neg: false, m: f.half(), q: -52 }));
        let mag = magnitude(f, a);
        if mag < f.inf() {
            let m = mag_mant(f, mag);
            let q = mag_expo(f, mag);
            lemma_round_trip(f, mag);
            assert(q >= -1074) by {
                if mag >= f.half() {
                    lemma_fundamental_div_mod(mag as int, f.half() as int);
                    lemma_mod_bound(mag as int, f.half() as int);
                }
            }
            lemma_units_shift(m, q, 52);
        }
    }
}

} // verus!
