//! What conversions keep of the loudness of samples, coefficients and gains.
use crate::audioconvert;
use crate::float;
use crate::float::{Format, ToInt, F64, SCALE};
use crate::mixtable;
use crate::mixtable::{Gain, Levels};
use crate::nearness;
use crate::nearness::{near, one, size};
use crate::rematrix;
use crate::resample;
use crate::samplefmt::SampleFormat;
use crate::speakers;
use vstd::arithmetic::div_mod::*;
use vstd::arithmetic::power2::*;
use vstd::prelude::*;

verus! {

// --- samples --------------------------------------------------------------------------

/// An integer sample is as loud in another integer format, less than what the steps of
/// that format cannot tell.
pub proof fn lemma_as_loud(from: SampleFormat, to: SampleFormat, v: u64)
    requires
        audioconvert::is_int(from),
        audioconvert::is_int(to),
        v < pow2(audioconvert::width(from)),
    ensures
        ({
            let x = audioconvert::int_value(from, v);
            let y = audioconvert::int_value(to, audioconvert::conv_value(from, to, v));
            let (a, b) = (pow2(audioconvert::width(from)), pow2(audioconvert::width(to)));
            0 <= x * b - y * a < a
        }),
{
    let (wf, wt) = (audioconvert::width(from), audioconvert::width(to));
    let x = audioconvert::int_value(from, v);
    audioconvert::lemma_int_there_and_back(from, v);
    let y = audioconvert::rescaled_int(from, to, x);
    let (a, b) = (pow2(wf) as int, pow2(wt) as int);
    let (ha, hb) = (pow2((wf - 1) as nat) as int, pow2((wt - 1) as nat) as int);
    lemma_pow2_pos(wf);
    float::lemma_pow2_step((wf - 1) as nat);
    float::lemma_pow2_step((wt - 1) as nat);
    if wt >= wf {
        let c = pow2((wt - wf) as nat) as int;
        lemma_pow2_adds(wf, (wt - wf) as nat);
        lemma_pow2_adds((wf - 1) as nat, (wt - wf) as nat);
        assert(x * b == y * a) by (nonlinear_arith)
            requires
                y == x * c,
                b == a * c,
        ;
        assert(-hb <= y < hb) by (nonlinear_arith)
            requires
                y == x * c,
                hb == ha * c,
                -ha <= x < ha,
                c > 0,
        ;
        if from == to {
            assert(c == 1) by {
                lemma2_to64();
            }
        }
    } else {
        let c = pow2((wf - wt) as nat) as int;
        lemma_pow2_pos((wf - wt) as nat);
        lemma_pow2_adds(wt, (wf - wt) as nat);
        lemma_pow2_adds((wt - 1) as nat, (wf - wt) as nat);
        lemma_fundamental_div_mod(x, c);
        lemma_mod_bound(x, c);
        lemma_pow2_pos(wt);
        assert(0 <= x * b - y * a < a) by (nonlinear_arith)
            requires
                x == c * y + x % c,
                0 <= x % c < c,
                a == b * c,
                b > 0,
        ;
        assert(-hb <= y < hb) by (nonlinear_arith)
            requires
                x == c * y + x % c,
                0 <= x % c < c,
                ha == hb * c,
                -ha <= x < ha,
                c > 0,
        ;
    }
    audioconvert::lemma_raw_value(to, y);
    if from == to {
        assert(audioconvert::conv_value(from, to, v) == v);
    }
}

/// A louder integer sample is not softer in another integer format.
pub proof fn lemma_louder(from: SampleFormat, to: SampleFormat, v: u64, w: u64)
    requires
        audioconvert::is_int(from),
        audioconvert::is_int(to),
        v < pow2(audioconvert::width(from)),
        w < pow2(audioconvert::width(from)),
        audioconvert::int_value(from, v) <= audioconvert::int_value(from, w),
    ensures
        audioconvert::int_value(to, audioconvert::conv_value(from, to, v))
            <= audioconvert::int_value(to, audioconvert::conv_value(from, to, w)),
{
    lemma_as_loud(from, to, v);
    lemma_as_loud(from, to, w);
    let (a, b) = (
        pow2(audioconvert::width(from)) as int,
        pow2(audioconvert::width(to)) as int,
    );
    let (x, z) = (audioconvert::int_value(from, v), audioconvert::int_value(from, w));
    let y = audioconvert::int_value(to, audioconvert::conv_value(from, to, v));
    let t = audioconvert::int_value(to, audioconvert::conv_value(from, to, w));
    lemma_pow2_pos(audioconvert::width(from));
    lemma_pow2_pos(audioconvert::width(to));
    assert(y <= t) by (nonlinear_arith)
        requires
            x <= z,
            0 <= x * b - y * a < a,
            0 <= z * b - t * a < a,
            a > 0,
            b > 0,
    ;
}

/// Full scale is one in the floating formats.
pub proof fn lemma_floated(from: SampleFormat, to: SampleFormat, v: u64)
    requires
        audioconvert::is_int(from),
        audioconvert::is_float(to),
        v < pow2(audioconvert::width(from)),
    ensures
        ({
            let f = audioconvert::float_format(to);
            let r = audioconvert::conv_value(from, to, v);
            let x = audioconvert::int_value(from, v);
            let full = pow2((audioconvert::width(from) - 1) as nat) as int;
            &&& nearness::finite(f, r)
            &&& near(f, nearness::value(f, r), x * one(), full)
        }),
{
    reveal(float::int_bits);
    let f = audioconvert::float_format(to);
    let w = audioconvert::width(from);
    let x = audioconvert::int_value(from, v);
    audioconvert::lemma_int_there_and_back(from, v);
    let a = size(x) as nat;
    let k = (SCALE + 1 - w) as nat;
    let c = pow2(k) as int;
    let full = pow2((w - 1) as nat) as int;
    lemma_pow2_adds(k, (w - 1) as nat);
    lemma_pow2_pos(k);
    lemma_pow2_pos((w - 1) as nat);
    let n = a * pow2(k);
    lemma_pow2_strictly_increases(SCALE as nat, 4196);
    assert(n <= full * c) by (nonlinear_arith)
        requires
            n == a * c,
            a <= full,
            c > 0,
    ;
    assert(full * c == c * full) by (nonlinear_arith);
    nearness::lemma_rounded(f, n, 1);
    let mag = float::round_mag(f, n, 1);
    nearness::lemma_encoded(f, x < 0, mag);
    let r = nearness::mag_value(f, mag);
    nearness::lemma_near_opposite(f, r, n as int, 1);
    let s = if x < 0 {
        -r
    } else {
        r
    };
    assert(x * c == if x < 0 {
        -(n as int)
    } else {
        n as int
    }) by (nonlinear_arith)
        requires
            n == a * c,
            a == size(x),
    ;
    nearness::lemma_near_scaled(f, s, x * c, 1, full);
    assert(x * c * full == x * one()) by (nonlinear_arith)
        requires
            c * full == one(),
    ;
    assert(1 * full == full);
}

/// A floating sample becomes the nearest integer one, cut off at full scale.
pub proof fn lemma_unfloated(from: SampleFormat, to: SampleFormat, v: u64) -> (t: int)
    requires
        audioconvert::is_float(from),
        audioconvert::is_int(to),
        nearness::finite(audioconvert::float_format(from), v),
        size(nearness::value(audioconvert::float_format(from), v)) * pow2(
            (audioconvert::width(to) - 1) as nat,
        ) < one() * 0x4000_0000_0000_0000,
        audioconvert::width(to) <= 16 ==> size(
            nearness::value(audioconvert::float_format(from), v),
        ) < one() * 0x4000,
    ensures
        ({
            let full = pow2((audioconvert::width(to) - 1) as nat) as int;
            let x = nearness::value(audioconvert::float_format(from), v);
            &&& 2 * size(t * one() - x * full) <= one()
            &&& audioconvert::int_value(to, audioconvert::conv_value(from, to, v))
                == float::saturate(t, -full, full - 1)
        }),
{
    let f = audioconvert::float_format(from);
    let w = audioconvert::width(to);
    let k = (w - 1) as nat;
    let full = pow2(k) as int;
    nearness::lemma_to_nearest(f, v, k);
    let t = float::to_int(f, ToInt::Nearest, v, k as int);
    let x = nearness::value(f, v);
    let u = one();
    lemma2_to64();
    lemma2_to64_rest();
    lemma_pow2_pos(SCALE as nat);
    if w <= 16 {
        assert(size(x * full) <= 0x4000 * 0x8000 * u) by (nonlinear_arith)
            requires
                -u * 0x4000 <= x <= u * 0x4000,
                0 < full <= 0x8000,
                u > 0,
        ;
        assert(-0x2000_0001 <= t <= 0x2000_0001) by (nonlinear_arith)
            requires
                2 * size(t * u - x * full) <= u,
                size(x * full) <= 0x4000 * 0x8000 * u,
                u > 0,
        ;
    }
    let c = audioconvert::clipped_int(to, t);
    assert(c == float::saturate(t, -full, full - 1));
    audioconvert::lemma_raw_value(to, c);
    t
}

// --- gains ----------------------------------------------------------------------------

/// What a double-precision number stands for.
pub open spec fn worth(v: F64) -> int {
    nearness::value(Format::Binary64, v.bits)
}

pub open spec fn finite(v: F64) -> bool {
    nearness::finite(Format::Binary64, v.bits)
}

/// The rounding of tiny numbers of a format.
pub open spec fn tiny(f: Format) -> int {
    pow2((f.floor_exp() + f.p() - 1) as nat) as int
}

pub(crate) proof fn lemma_tiny()
    ensures
        0 < tiny(Format::Binary32),
        0 < tiny(Format::Binary64),
        tiny(Format::Binary32) * 0x1_0000_0000_0000_0000 < one(),
        tiny(Format::Binary64) * 0x1_0000_0000_0000_0000 < one(),
        one() * 0x1_0000_0000_0000_0000 < pow2(4196),
        pow2(24) == 0x100_0000,
        pow2(53) == 0x20_0000_0000_0000,
{
    lemma2_to64();
    lemma2_to64_rest();
    lemma_pow2_pos(3970);
    lemma_pow2_pos(3074);
    lemma_pow2_adds(3970, 64);
    lemma_pow2_adds(3074, 64);
    lemma_pow2_adds(4096, 64);
    lemma_pow2_strictly_increases(4034, 4096);
    lemma_pow2_strictly_increases(3138, 4096);
    lemma_pow2_strictly_increases(4160, 4196);
    assert(Format::Binary32.floor_exp() + 23 == 3970);
    assert(Format::Binary64.floor_exp() + 52 == 3074);
}

/// A number of at most `2^18`, rounded to single precision and to an integer.
pub(crate) proof fn lemma_integral(v: F64)
    requires
        finite(v),
        size(worth(v)) <= 0x4_0000 * one(),
    ensures
        ({
            let t = float::to_int(Format::Binary32, ToInt::Nearest, v.s_narrow().bits as u64, 0);
            &&& 100 * size(t * one() - worth(v)) <= 52 * one()
            &&& size(t) <= 0x4_0001
        }),
{
    lemma_tiny();
    let f = Format::Binary32;
    let u = one();
    nearness::lemma_converted(Format::Binary64, f, v.bits);
    let b = float::convert_bits(Format::Binary64, f, v.bits);
    let n = nearness::value(f, b);
    let x = worth(v);
    assert(n * 1 == n && 1 * tiny(f) == tiny(f));
    assert(size(n - x) * 0x100_0000 <= 0x4_0001 * u);
    assert((b as u32) as u64 == b);
    lemma2_to64();
    assert(pow2(0) == 1);
    assert(size(n) * 1 == size(n) && n * 1 == n);
    nearness::lemma_to_nearest(f, b, 0);
    let t = float::to_int(f, ToInt::Nearest, b, 0);
    assert(size(t) <= 0x4_0001) by (nonlinear_arith)
        requires
            size(t * u) <= 0x4_0001 * u,
            u > 0,
    ;
}

/// A gain of at most two, in units of `1 / 32768`.
pub(crate) proof fn lemma_times_fixed(g: F64)
    requires
        finite(g),
        size(worth(g)) <= 2 * one(),
    ensures
        finite(g.s_times(F64 { bits: rematrix::FIXED_ONE_BITS })),
        size(worth(g.s_times(F64 { bits: rematrix::FIXED_ONE_BITS })) - 32768 * worth(g))
            * 0x20_0000_0000_0000 <= 0x1_0001 * one(),
{
    lemma_tiny();
    let f = Format::Binary64;
    let k = F64 { bits: rematrix::FIXED_ONE_BITS };
    let u = one();
    lemma2_to64_rest();
    assert(nearness::mag_value(f, 0x40e0_0000_0000_0000) == 0x10_0000_0000_0000 * pow2(4059)) by {
        assert(0x40e0_0000_0000_0000int / 0x10_0000_0000_0000 == 1038 && 0x40e0_0000_0000_0000int
            % 0x10_0000_0000_0000 == 0);
        assert(float::mag_expo(f, 0x40e0_0000_0000_0000) == -37);
        assert(float::mag_mant(f, 0x40e0_0000_0000_0000) == 0x10_0000_0000_0000);
    }
    lemma_pow2_adds(37, 4059);
    assert(worth(k) == 32768 * u);
    let x = worth(g);
    let n = x * worth(k);
    assert(n == 32768 * x * u) by (nonlinear_arith)
        requires
            n == x * (32768 * u),
    ;
    assert(size(n) <= 65536 * (u * u)) by (nonlinear_arith)
        requires
            n == x * (32768 * u),
            -2 * u <= x <= 2 * u,
            u > 0,
    ;
    let top = pow2(4196) as int;
    assert(65536 * (u * u) < u * top) by (nonlinear_arith)
        requires
            u > 0,
            u * 0x1_0000_0000_0000_0000 < top,
    ;
    nearness::lemma_product(f, g.bits, k.bits);
    let p = g.s_times(k);
    let r = worth(p);
    nearness::lemma_near_scaled(f, r, 32768 * x, 1, u);
    assert(1 * u == u && r * 1 == r && 1 * tiny(f) == tiny(f));
    assert(size(r - 32768 * x) * 0x20_0000_0000_0000 <= 0x1_0001 * u);
}

/// A gain of at most two in units of `1 / 32768` is the nearest one.
pub proof fn lemma_fixed(g: F64)
    requires
        finite(g),
        size(worth(g)) <= 2 * one(),
    ensures
        100 * size(rematrix::fixed(g) * one() - 32768 * worth(g)) <= 53 * one(),
{
    lemma_tiny();
    lemma_times_fixed(g);
    lemma_integral(g.s_times(F64 { bits: rematrix::FIXED_ONE_BITS }));
}

/// A coefficient of a filter is its value over the gain of the filter, in units of the
/// format, to the nearest integer and cut off at full scale.
pub proof fn lemma_coefficient(y: F64, norm: F64) -> (t: int)
    requires
        finite(y),
        finite(norm),
        size(worth(y)) <= worth(norm),
        one() <= 0x10_0000 * worth(norm),
        worth(norm) <= 0x10_0000 * one(),
    ensures
        100 * size(t * worth(norm) - 32768 * worth(y)) <= 54 * worth(norm),
        resample::coefficient(SampleFormat::S16p, y, norm) == float::saturate(t, -32768, 32767),
{
    lemma_tiny();
    let f = Format::Binary64;
    let u = one();
    lemma2_to64();
    assert(pow2(15) == 32768);
    nearness::lemma_integer(f, 32768);
    let k = F64::s_from_int(32768);
    let (x, d) = (worth(y), worth(norm));
    let n = x * worth(k);
    assert(n == 32768 * x * u) by (nonlinear_arith)
        requires
            n == x * (32768 * u),
    ;
    assert(size(n) <= 0x8_0000_0000 * (u * u)) by (nonlinear_arith)
        requires
            n == x * (32768 * u),
            -(0x10_0000 * u) <= x <= 0x10_0000 * u,
            u > 0,
    ;
    let top = pow2(4196) as int;
    assert(0x8_0000_0000 * (u * u) < u * top) by (nonlinear_arith)
        requires
            u > 0,
            u * 0x1_0000_0000_0000_0000 < top,
    ;
    nearness::lemma_product(f, y.bits, k.bits);
    let fp = y.s_times(k);
    let p = worth(fp);
    nearness::lemma_near_scaled(f, p, 32768 * x, 1, u);
    assert(1 * u == u && p * 1 == p && 1 * tiny(f) == tiny(f));
    let ti = tiny(f);
    let w = 0x20_0000_0000_0000int;
    assert(size(p - 32768 * x) * w <= 32768 * size(x) + ti);
    assert(d > 0);
    assert(ti <= d);
    assert(size(p) <= 32769 * d);
    // the quotient
    assert(size(p) * u < d * top) by (nonlinear_arith)
        requires
            size(p) <= 32769 * d,
            u * 0x1_0000_0000_0000_0000 < top,
            d > 0,
            u > 0,
    ;
    nearness::lemma_quotient(f, fp.bits, norm.bits);
    let fq = fp.s_over(norm);
    let q = worth(fq);
    let e = q * d - p * u;
    assert(size(p * u) <= 32769 * (d * u)) by (nonlinear_arith)
        requires
            size(p) <= 32769 * d,
            u > 0,
    ;
    assert(d * ti <= d * u) by (nonlinear_arith)
        requires
            0 < ti <= u,
            d > 0,
    ;
    assert(size(e) * w <= 32770 * (d * u));
    let du = d * u;
    assert(du > 0) by (nonlinear_arith)
        requires
            du == d * u,
            d > 0,
            u > 0,
    ;
    assert(size(q) <= 32771 * u) by (nonlinear_arith)
        requires
            size(q * d) <= 32771 * (d * u),
            d > 0,
    ;
    lemma_integral(fq);
    let t = float::to_int(Format::Binary32, ToInt::Nearest, fq.s_narrow().bits as u64, 0);
    // t u - q, q d - p u, p - 32768 x
    let (g, h) = (t * u - q, p - 32768 * x);
    let z = t * d - 32768 * x;
    assert(z * u == g * d + e + h * u) by (nonlinear_arith)
        requires
            z == t * d - 32768 * x,
            g == t * u - q,
            e == q * d - p * u,
            h == p - 32768 * x,
    ;
    assert(100 * size(g * d) <= 52 * du) by (nonlinear_arith)
        requires
            100 * size(g) <= 52 * u,
            du == d * u,
            d > 0,
    ;
    assert(size(h * u) * w <= 32769 * du) by (nonlinear_arith)
        requires
            size(h) * w <= 32769 * d,
            du == d * u,
            u > 0,
            w > 0,
    ;
    assert(100 * size(z * u) <= 54 * du);
    assert(100 * size(z) <= 54 * d) by (nonlinear_arith)
        requires
            100 * size(z * u) <= 54 * du,
            du == d * u,
            u > 0,
    ;
    t
}

// --- the gains of a mix ---------------------------------------------------------------

/// The square of the number is `b / a`, but for rounding.
pub open spec fn is_root(v: F64, a: int, b: int) -> bool {
    let (w, u) = (worth(v), one());
    &&& finite(v)
    &&& 0 < w <= 2 * u
    &&& size(a * (w * w) - b * (u * u)) * 0x100_0000_0000 <= u * u
}

proof fn lemma_root(v: F64, m: int, h: int, k: nat, a: int, b: int)
    requires
        0x10_0000_0000_0000 <= m < 0x20_0000_0000_0000,
        m <= 2 * h,
        (h == 0x20_0000_0000_0000 && k == 4043) || (h == 0x10_0000_0000_0000 && k == 4044),
        v.bits == (k - 3022) * 0x10_0000_0000_0000 + m,
        size(a * (m * m) - b * (h * h)) * 0x100_0000_0000 <= h * h,
    ensures
        is_root(v, a, b),
{
    let f = Format::Binary64;
    lemma2_to64_rest();
    lemma_pow2_adds(53, 4043);
    lemma_pow2_adds(52, 4044);
    let e = pow2(k) as int;
    lemma_pow2_pos(k);
    let (w, u) = (worth(v), one());
    let mag = v.bits as int;
    lemma_fundamental_div_mod_converse(
        mag,
        0x10_0000_0000_0000,
        k - 3021,
        m - 0x10_0000_0000_0000,
    );
    assert(float::mag_mant(f, mag as nat) == m);
    assert(float::mag_expo(f, mag as nat) == k - SCALE);
    assert(w == m * e);
    assert(u == h * e);
    let d = a * (m * m) - b * (h * h);
    let ee = e * e;
    let (mm, hh) = (m * m, h * h);
    assert(w * w == mm * ee) by (nonlinear_arith)
        requires
            w == m * e,
            mm == m * m,
            ee == e * e,
    ;
    assert(u * u == hh * ee) by (nonlinear_arith)
        requires
            u == h * e,
            hh == h * h,
            ee == e * e,
    ;
    assert(a * (mm * ee) - b * (hh * ee) == d * ee) by (nonlinear_arith)
        requires
            d == a * mm - b * hh,
    ;
    assert(ee > 0) by (nonlinear_arith)
        requires
            ee == e * e,
            e > 0,
    ;
    assert(size(d * ee) * 0x100_0000_0000 <= hh * ee) by (nonlinear_arith)
        requires
            size(d) * 0x100_0000_0000 <= hh,
            ee > 0,
    ;
    assert(0 < w <= 2 * u) by (nonlinear_arith)
        requires
            w == m * e,
            u == h * e,
            0 < m <= 2 * h,
            e > 0,
    ;
}

/// What the fixed gains are the roots of.
pub proof fn lemma_roots()
    ensures
        is_root(mixtable::num(mixtable::SQRT1_2_BITS), 2, 1),
        is_root(mixtable::num(mixtable::SQRT1_3_BITS), 3, 1),
        is_root(mixtable::num(mixtable::SQRT2_3_BITS), 3, 2),
        is_root(mixtable::num(mixtable::SQRT3_2_BITS), 2, 3),
        is_root(mixtable::num(mixtable::SQRT_2_BITS), 1, 2),
        is_root(mixtable::num(mixtable::ONE_BITS), 1, 1),
        is_root(mixtable::num(mixtable::HALF_BITS), 4, 1),
{
    lemma_root(
        mixtable::num(mixtable::SQRT1_2_BITS),
        0x16a09e667f3bcd,
        0x20000000000000,
        4043,
        2,
        1,
    );
    lemma_root(
        mixtable::num(mixtable::SQRT1_3_BITS),
        0x1279a74590331c,
        0x20000000000000,
        4043,
        3,
        1,
    );
    lemma_root(
        mixtable::num(mixtable::SQRT2_3_BITS),
        0x1a20bd700c2c3e,
        0x20000000000000,
        4043,
        3,
        2,
    );
    lemma_root(
        mixtable::num(mixtable::SQRT3_2_BITS),
        0x13988e1409212e,
        0x10000000000000,
        4044,
        2,
        3,
    );
    lemma_root(
        mixtable::num(mixtable::SQRT_2_BITS),
        0x16a09e667f3bcd,
        0x10000000000000,
        4044,
        1,
        2,
    );
    lemma_root(
        mixtable::num(mixtable::ONE_BITS),
        0x10000000000000,
        0x10000000000000,
        4044,
        1,
        1,
    );
    lemma_root(
        mixtable::num(mixtable::HALF_BITS),
        0x10000000000000,
        0x20000000000000,
        4043,
        4,
        1,
    );
}

/// A fixed gain has the power that it is named after.
pub proof fn lemma_gain_power(g: Gain, l: Levels)
    ensures
        speakers::power(g) matches Some(p) ==> {
            let w = worth(mixtable::gain_value(g, l));
            &&& finite(mixtable::gain_value(g, l))
            &&& w >= 0
            &&& size(12 * (w * w) - p * (one() * one())) * 0x1_0000_0000 <= one() * one()
        },
{
    lemma_roots();
    lemma_tiny();
    let f = Format::Binary64;
    nearness::lemma_zero(f);
    nearness::lemma_integer(f, 0);
    let u = one();
    assert(0 * u == 0) by (nonlinear_arith);
    let w = worth(mixtable::gain_value(g, l));
    assert(w == 0 ==> w * w == 0) by (nonlinear_arith);
    let uu = u * u;
    assert(uu >= 0) by (nonlinear_arith)
        requires
            uu == u * u,
    ;
    if speakers::power(g) is Some {
        let p = speakers::power(g)->0;
        assert((p == 0 ==> p * uu == 0) && (p == 3 ==> p * uu == 3 * uu) && (p == 4 ==> p * uu == 4
            * uu) && (p == 6 ==> p * uu == 6 * uu) && (p == 8 ==> p * uu == 8 * uu) && (p == 12
            ==> p * uu == 12 * uu)) by (nonlinear_arith);
        match g {
            Gain::Zero => assert(w == 0),
            Gain::One => assert(is_root(mixtable::gain_value(g, l), 1, 1)),
            Gain::Half => assert(is_root(mixtable::gain_value(g, l), 4, 1)),
            Gain::Sqrt1_2 => assert(is_root(mixtable::gain_value(g, l), 2, 1)),
            Gain::Sqrt1_3 => assert(is_root(mixtable::gain_value(g, l), 3, 1)),
            Gain::Sqrt2_3 => assert(is_root(mixtable::gain_value(g, l), 3, 2)),
            _ => {},
        }
    }
}

/// A gain that the user sets is the level that is set, or a part of it, and its sign
/// tells whether the phase is turned.
pub proof fn lemma_gain_levels(g: Gain, l: Levels)
    requires
        finite(l.clev),
        finite(l.slev),
        finite(l.lfe),
        size(worth(l.clev)) <= 0x100 * one(),
        size(worth(l.slev)) <= 0x100 * one(),
        size(worth(l.lfe)) <= 0x100 * one(),
    ensures
        ({
            let w = worth(mixtable::gain_value(g, l));
            let (c, s, f) = (worth(l.clev), worth(l.slev), worth(l.lfe));
            let half = worth(mixtable::num(mixtable::SQRT1_2_BITS));
            let more = worth(mixtable::num(mixtable::SQRT3_2_BITS));
            let two = worth(mixtable::num(mixtable::SQRT_2_BITS));
            match g {
                Gain::Clev => is_level(w, c, one()),
                Gain::ClevSqrt2 => is_level(w, c, two),
                Gain::Slev => is_level(w, s, one()),
                Gain::NegSlev => is_level(-w, s, one()),
                Gain::SlevSqrt1_2 => is_level(w, s, half),
                Gain::NegSlevSqrt1_2 => is_level(-w, s, half),
                Gain::SlevSqrt3_2 => is_level(w, s, more),
                Gain::NegSlevSqrt3_2 => is_level(-w, s, more),
                Gain::Lfe => is_level(w, f, one()),
                Gain::LfeSqrt1_2 => is_level(w, f, half),
                _ => true,
            }
        }),
{
    lemma_roots();
    let half = mixtable::num(mixtable::SQRT1_2_BITS);
    let more = mixtable::num(mixtable::SQRT3_2_BITS);
    let two = mixtable::num(mixtable::SQRT_2_BITS);
    match g {
        Gain::Clev => lemma_level_plain(l.clev),
        Gain::Slev | Gain::NegSlev => lemma_level_plain(l.slev),
        Gain::Lfe => lemma_level_plain(l.lfe),
        Gain::ClevSqrt2 => lemma_level_times(l.clev, two),
        Gain::SlevSqrt1_2 | Gain::NegSlevSqrt1_2 => lemma_level_times(l.slev, half),
        Gain::SlevSqrt3_2 | Gain::NegSlevSqrt3_2 => lemma_level_times(l.slev, more),
        Gain::LfeSqrt1_2 => lemma_level_times(l.lfe, half),
        _ => {},
    }
}

/// The gain `w` is the level `c` times `k`, but for rounding.
pub open spec fn is_level(w: int, c: int, k: int) -> bool {
    size(w * one() - c * k) * 0x1_0000_0000 <= one() * one()
}

proof fn lemma_from_zero(v: F64)
    requires
        finite(v),
        size(worth(v)) <= 0x400 * one(),
    ensures
        finite((F64 { bits: 0 }).s_plus(v)),
        finite((F64 { bits: 0 }).s_minus(v)),
        size(worth((F64 { bits: 0 }).s_plus(v)) - worth(v)) * 0x100_0000_0000 <= one(),
        size(worth((F64 { bits: 0 }).s_minus(v)) + worth(v)) * 0x100_0000_0000 <= one(),
{
    lemma_tiny();
    let f = Format::Binary64;
    nearness::lemma_zero(f);
    nearness::lemma_integer(f, 0);
    let u = one();
    assert(0 * u == 0) by (nonlinear_arith);
    nearness::lemma_opposite(f, v.bits);
    nearness::lemma_sum(f, 0, v.bits);
    nearness::lemma_sum(f, 0, float::neg_bits(f, v.bits));
    let (a, b) = (worth((F64 { bits: 0 }).s_plus(v)), worth((F64 { bits: 0 }).s_minus(v)));
    assert(a * 1 == a && b * 1 == b && 1 * tiny(f) == tiny(f));
}

proof fn lemma_level_plain(v: F64)
    requires
        finite(v),
        size(worth(v)) <= 0x100 * one(),
    ensures
        is_level(worth((F64 { bits: 0 }).s_plus(v)), worth(v), one()),
        is_level(-worth((F64 { bits: 0 }).s_minus(v)), worth(v), one()),
{
    lemma_from_zero(v);
    let (x, u) = (worth(v), one());
    let (a, b) = (
        worth((F64 { bits: 0 }).s_plus(v)) - x,
        -worth((F64 { bits: 0 }).s_minus(v)) - x,
    );
    assert((a + x) * u - x * u == a * u && (b + x) * u - x * u == b * u) by (nonlinear_arith);
    lemma_pow2_pos(SCALE as nat);
    assert(size(a * u) * 0x1_0000_0000 <= u * u) by (nonlinear_arith)
        requires
            size(a) * 0x100_0000_0000 <= u,
            u > 0,
    ;
    assert(size(b * u) * 0x1_0000_0000 <= u * u) by (nonlinear_arith)
        requires
            size(b) * 0x100_0000_0000 <= u,
            u > 0,
    ;
}

proof fn lemma_level_times(v: F64, k: F64)
    requires
        finite(v),
        finite(k),
        size(worth(v)) <= 0x100 * one(),
        0 < worth(k) <= 2 * one(),
    ensures
        is_level(worth(v.s_times(k)), worth(v), worth(k)),
        is_level(worth((F64 { bits: 0 }).s_plus(v.s_times(k))), worth(v), worth(k)),
        is_level(-worth((F64 { bits: 0 }).s_minus(v.s_times(k))), worth(v), worth(k)),
{
    lemma_tiny();
    let f = Format::Binary64;
    let (x, y, u) = (worth(v), worth(k), one());
    let n = x * y;
    assert(size(n) <= 0x200 * (u * u)) by (nonlinear_arith)
        requires
            n == x * y,
            -(0x100 * u) <= x <= 0x100 * u,
            0 < y <= 2 * u,
    ;
    let top = pow2(4196) as int;
    assert(0x200 * (u * u) < u * top) by (nonlinear_arith)
        requires
            u > 0,
            u * 0x1_0000_0000_0000_0000 < top,
    ;
    nearness::lemma_product(f, v.bits, k.bits);
    let p = v.s_times(k);
    let r = worth(p);
    let t = tiny(f);
    assert(u * t <= u * u) by (nonlinear_arith)
        requires
            0 < t < u,
    ;
    let e = r * u - n;
    assert(size(e) * 0x20_0000_0000_0000 <= 0x201 * (u * u));
    assert(size(r) <= 0x201 * u) by (nonlinear_arith)
        requires
            size(r * u) <= 0x201 * (u * u),
            u > 0,
    ;
    lemma_from_zero(p);
    let (a, b) = (
        worth((F64 { bits: 0 }).s_plus(p)) - r,
        -worth((F64 { bits: 0 }).s_minus(p)) - r,
    );
    assert((a + r) * u - n == a * u + e && (b + r) * u - n == b * u + e) by (nonlinear_arith)
        requires
            e == r * u - n,
    ;
    assert(size(a * u) * 0x100_0000_0000 <= u * u) by (nonlinear_arith)
        requires
            size(a) * 0x100_0000_0000 <= u,
            u > 0,
    ;
    assert(size(b * u) * 0x100_0000_0000 <= u * u) by (nonlinear_arith)
        requires
            size(b) * 0x100_0000_0000 <= u,
            u > 0,
    ;
}

} // verus!
