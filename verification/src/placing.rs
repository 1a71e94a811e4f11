//! Where the pixels of a scaled picture come from.
use crate::float;
use crate::float::{Format, F32, SCALE};
use crate::nearness;
use crate::nearness::{near, one, size};
use crate::pixels::Frame;
use crate::sampler;
use crate::sampler::ScaleAlgorithm;
use crate::scale;
use crate::scale::{ConversionMode, Scene};
use crate::scalecontext::ScaleContext;
use crate::scalefilter;
use vstd::arithmetic::div_mod::*;
use vstd::arithmetic::power2::*;
use vstd::prelude::*;

verus! {

/// What a number stands for, in units of which [`one`] are one.
pub open spec fn worth(v: F32) -> int {
    nearness::value(Format::Binary32, v.bits as u64)
}

pub open spec fn finite(v: F32) -> bool {
    nearness::finite(Format::Binary32, v.bits as u64)
}

/// Half of one.
pub open spec fn half() -> int {
    pow2(4095) as int
}

/// The rounding of tiny numbers.
pub open spec fn tiny() -> int {
    pow2(3970) as int
}

pub(crate) proof fn lemma_units()
    ensures
        one() == 2 * half(),
        half() > 0,
        tiny() > 0,
        tiny() * 0x8000_0000 <= half(),
        pow2(24) == 0x100_0000,
        Format::Binary32.floor_exp() + Format::Binary32.p() - 1 == 3970,
        one() * 0x1_0000_0000_0000_0000 <= pow2(4196),
        half() <= pow2(4196),
{
    float::lemma_pow2_step(4095);
    lemma2_to64();
    lemma2_to64_rest();
    lemma_pow2_adds(3970, 31);
    lemma_pow2_pos(3970);
    lemma_pow2_strictly_increases(4001, 4095);
    lemma_pow2_adds(4096, 64);
    lemma_pow2_strictly_increases(4160, 4196);
    assert(pow2(3970) * pow2(31) == tiny() * 0x8000_0000);
}

pub(crate) proof fn lemma_near_whole(r: int, n: int)
    requires
        near(Format::Binary32, r, n, 1),
    ensures
        size(r - n) * 0x100_0000 <= size(n) + tiny(),
{
    lemma_units();
    assert(1 * tiny() == tiny());
    assert(r * 1 == r);
}

pub(crate) proof fn lemma_half()
    ensures
        finite(F32 { bits: 0x3f00_0000 }),
        worth(F32 { bits: 0x3f00_0000 }) == half(),
        finite(F32 { bits: 0x4000_0000 }),
        worth(F32 { bits: 0x4000_0000 }) == 2 * one(),
        half() == pow2(4095),
{
    lemma2_to64();
    lemma_pow2_adds(23, 4072);
    lemma_pow2_adds(23, 4074);
    float::lemma_pow2_step(4096);
    let f = Format::Binary32;
    assert(0x3f00_0000int / 0x80_0000 == 126 && 0x3f00_0000int % 0x80_0000 == 0);
    assert(0x4000_0000int / 0x80_0000 == 128 && 0x4000_0000int % 0x80_0000 == 0);
    assert(float::mag_expo(f, 0x3f00_0000) == -24);
    assert(float::mag_expo(f, 0x4000_0000) == -22);
    assert(float::mag_mant(f, 0x3f00_0000) == pow2(23));
    assert(float::mag_mant(f, 0x4000_0000) == pow2(23));
}

pub(crate) proof fn lemma_same_bits(b: u64)
    requires
        Format::Binary32.holds(b),
    ensures
        (b as u32) as u64 == b,
{
}

/// A difference.
pub(crate) proof fn lemma_minus(a: F32, b: F32)
    requires
        finite(a),
        finite(b),
        size(worth(a)) + size(worth(b)) < pow2(4196),
    ensures
        finite(a.s_minus(b)),
        size(worth(a.s_minus(b)) - (worth(a) - worth(b))) * 0x100_0000 <= size(worth(a) - worth(b))
            + tiny(),
{
    let f = Format::Binary32;
    nearness::lemma_opposite(f, b.bits as u64);
    let n = float::neg_bits(f, b.bits as u64);
    lemma_same_bits(n);
    nearness::lemma_sum(f, a.bits as u64, n);
    lemma_same_bits(float::add_bits(f, a.bits as u64, n));
    lemma_near_whole(worth(a.s_minus(b)), worth(a) - worth(b));
}

pub(crate) proof fn lemma_plus(a: F32, b: F32)
    requires
        finite(a),
        finite(b),
        size(worth(a)) + size(worth(b)) < pow2(4196),
    ensures
        finite(a.s_plus(b)),
        size(worth(a.s_plus(b)) - (worth(a) + worth(b))) * 0x100_0000 <= size(worth(a) + worth(b))
            + tiny(),
{
    let f = Format::Binary32;
    nearness::lemma_sum(f, a.bits as u64, b.bits as u64);
    lemma_same_bits(float::add_bits(f, a.bits as u64, b.bits as u64));
    lemma_near_whole(worth(a.s_plus(b)), worth(a) + worth(b));
}

/// A product with the integer `k`.
proof fn lemma_times(a: F32, b: F32, k: int)
    requires
        finite(a),
        finite(b),
        worth(b) == k * one(),
        0 <= k <= 0x100_0000,
        size(worth(a)) <= one() * 0x100_0000,
    ensures
        finite(a.s_times(b)),
        size(worth(a.s_times(b)) - worth(a) * k) * 0x100_0000 <= size(worth(a) * k) + tiny(),
{
    let f = Format::Binary32;
    lemma_units();
    let u = one();
    let va = worth(a);
    let n = va * (k * u);
    assert(n == va * k * u) by (nonlinear_arith)
        requires
            n == va * (k * u),
    ;
    assert(size(n) <= u * (u * 0x1_0000_0000_0000)) by (nonlinear_arith)
        requires
            n == va * (k * u),
            -u * 0x100_0000 <= va <= u * 0x100_0000,
            0 <= k <= 0x100_0000,
            u > 0,
    ;
    let top = pow2(4196) as int;
    assert(u * (u * 0x1_0000_0000_0000) < u * top) by (nonlinear_arith)
        requires
            u > 0,
            u * 0x1_0000_0000_0000_0000 <= top,
    ;
    nearness::lemma_product(f, a.bits as u64, b.bits as u64);
    lemma_same_bits(float::mul_bits(f, a.bits as u64, b.bits as u64));
    let r = worth(a.s_times(b));
    nearness::lemma_near_scaled(f, r, va * k, 1, u);
    assert(1 * u == u);
    lemma_near_whole(r, va * k);
}

/// A quotient by the integer `k`.
pub(crate) proof fn lemma_over(a: F32, b: F32, k: int)
    requires
        finite(a),
        finite(b),
        worth(b) == k * one(),
        1 <= k <= 0x100_0000,
        size(worth(a)) <= one() * 0x2_0000_0000_0000,
    ensures
        finite(a.s_over(b)),
        size(worth(a.s_over(b)) * k - worth(a)) * 0x100_0000 <= size(worth(a)) + k * tiny(),
{
    let f = Format::Binary32;
    lemma_units();
    let u = one();
    let va = worth(a);
    let top = pow2(4196) as int;
    assert(k * u > 0) by (nonlinear_arith)
        requires
            k >= 1,
            u > 0,
    ;
    assert(size(va) * u < k * u * top) by (nonlinear_arith)
        requires
            0 <= size(va) <= u * 0x2_0000_0000_0000,
            u * 0x1_0000_0000_0000_0000 <= top,
            k >= 1,
            u > 0,
    ;
    nearness::lemma_quotient(f, a.bits as u64, b.bits as u64);
    lemma_same_bits(float::div_bits(f, a.bits as u64, b.bits as u64));
    let r = worth(a.s_over(b));
    nearness::lemma_near_scaled(f, r, va, k, u);
}

// --- places ---------------------------------------------------------------------------

pub(crate) proof fn lemma_count(v: int)
    requires
        -0x100_0000 < v < 0x100_0000,
    ensures
        finite(F32::s_from_int(v)),
        worth(F32::s_from_int(v)) == v * one(),
{
    lemma_units();
    nearness::lemma_integer(Format::Binary32, v);
    lemma_same_bits(float::int_bits(Format::Binary32, v, 0));
}

/// The middle of destination pixel `d` lies, seen from the middle of the first source
/// pixel, where the sizes of the pictures put it: at `(2 d + 1) src / dst - 1` half
/// pixels, but for rounding.
pub proof fn lemma_source_place(d: int, src: int, dst: int)
    requires
        0 <= d < dst,
        1 <= src < 0x100_0000,
        dst < 0x100_0000,
    ensures
        finite(sampler::source_place(d, src, dst)),
        size(
            2 * dst * worth(sampler::source_place(d, src, dst)) - ((2 * d + 1) * src - dst) * one(),
        ) * 0x8_0000 <= dst * src * one(),
{
    lemma_units();
    lemma_half();
    lemma_count(d);
    lemma_count(src);
    lemma_count(dst);
    let h = F32 { bits: 0x3f00_0000 };
    let (u, hf) = (one(), half());
    let fa = F32::s_from_int(d).s_plus(h);
    assert(0 <= d * u <= 0x100_0000 * u) by (nonlinear_arith)
        requires
            0 <= d < 0x100_0000,
            u > 0,
    ;
    lemma_plus(F32::s_from_int(d), h);
    let a = worth(fa);
    let ea = d * u + hf;
    assert(hf <= ea <= dst * u - hf) by (nonlinear_arith)
        requires
            ea == d * u + hf,
            0 <= d <= dst - 1,
            u == 2 * hf,
            hf > 0,
    ;
    assert(ea <= 0x100_0000 * u) by (nonlinear_arith)
        requires
            ea <= dst * u,
            dst < 0x100_0000,
            u > 0,
    ;
    // times the source
    let e1 = size(a - ea);
    assert(e1 * 0x100_0000 <= 2 * ea);
    assert(0 < a && a <= 2 * ea);
    assert(a <= u * 0x100_0000) by {
        assert(dst * u <= 0xff_ffff * u) by (nonlinear_arith)
            requires
                dst <= 0xff_ffff,
                u > 0,
        ;
    }
    let fb = fa.s_times(F32::s_from_int(src));
    lemma_times(fa, F32::s_from_int(src), src);
    let b = worth(fb);
    let eb = ea * src;
    assert(a * src > 0 && a * src >= a) by (nonlinear_arith)
        requires
            a > 0,
            src >= 1,
    ;
    assert(eb >= ea && a * src <= 2 * eb) by (nonlinear_arith)
        requires
            eb == ea * src,
            a <= 2 * ea,
            ea > 0,
            src >= 1,
    ;
    let e1s = size(a * src - eb);
    assert(e1s == e1 * src) by (nonlinear_arith)
        requires
            e1s == size(a * src - eb),
            e1 == size(a - ea),
            eb == ea * src,
            src >= 1,
    ;
    assert(e1s * 0x100_0000 <= 2 * eb) by (nonlinear_arith)
        requires
            e1s == e1 * src,
            e1 * 0x100_0000 <= 2 * ea,
            eb == ea * src,
            src >= 1,
    ;
    assert(size(b - eb) * 0x100_0000 <= 5 * eb);
    // by the destination
    let full = dst * src * u;
    assert(eb <= full) by (nonlinear_arith)
        requires
            eb == ea * src,
            ea <= dst * u,
            full == dst * src * u,
            src >= 1,
    ;
    assert(eb <= u * 0x1_0000_0000_0000) by (nonlinear_arith)
        requires
            eb == ea * src,
            0 < ea <= 0x100_0000 * u,
            1 <= src <= 0x100_0000,
    ;
    let fc = fb.s_over(F32::s_from_int(dst));
    lemma_over(fb, F32::s_from_int(dst), dst);
    let c = worth(fc);
    let t = tiny();
    assert(dst * t <= hf) by (nonlinear_arith)
        requires
            0 < dst < 0x100_0000,
            t * 0x8000_0000 <= hf,
            t > 0,
    ;
    assert(size(c * dst - eb) * 0x100_0000 <= 8 * eb);
    // less a half
    assert(0 < c <= 2 * src * u) by (nonlinear_arith)
        requires
            0 < c * dst <= 2 * full,
            full == dst * src * u,
            dst >= 1,
    ;
    assert(2 * src * u <= 0x200_0000 * u) by (nonlinear_arith)
        requires
            src <= 0x100_0000,
            u > 0,
    ;
    lemma_minus(fc, h);
    let r = worth(fc.s_minus(h));
    let e4 = size(r - (c - hf));
    assert(e4 * 0x100_0000 <= 2 * src * u + u);
    assert(2 * src * u == 2 * (src * u)) by (nonlinear_arith);
    assert(src * u >= u) by (nonlinear_arith)
        requires
            src >= 1,
            u > 0,
    ;
    let e4d = size(r * dst - (c * dst - hf * dst));
    assert(e4d == e4 * dst) by (nonlinear_arith)
        requires
            e4 == size(r - (c - hf)),
            e4d == size(r * dst - (c * dst - hf * dst)),
            dst >= 1,
    ;
    assert(e4d * 0x100_0000 <= 3 * full) by (nonlinear_arith)
        requires
            e4d == e4 * dst,
            e4 * 0x100_0000 <= 3 * (src * u),
            full == dst * src * u,
            dst >= 1,
    ;
    assert(2 * dst * r == 2 * (r * dst)) by (nonlinear_arith);
    assert(((2 * d + 1) * src - dst) * u == 2 * eb - 2 * (hf * dst)) by (nonlinear_arith)
        requires
            eb == (d * u + hf) * src,
            u == 2 * hf,
    ;
}

/// Rounding gives the nearest integer.
pub proof fn lemma_rounded(v: F32)
    requires
        finite(v),
        size(worth(v)) < one() * 0x1000_0000_0000,
    ensures
        size(sampler::rounded(v) * one() - worth(v)) <= half(),
{
    reveal(float::to_int);
    lemma_units();
    let f = Format::Binary32;
    let bits = v.bits as u64;
    let mag = float::magnitude(f, bits);
    let (m, q) = (float::mag_mant(f, mag), float::mag_expo(f, mag));
    nearness::lemma_expo(f, mag);
    let x = float::units(m, q + 1);
    let w = nearness::mag_value(f, mag);
    float::lemma_pow2_step((q + SCALE) as nat);
    assert(x == 2 * w) by (nonlinear_arith)
        requires
            x == m * pow2((q + 1 + SCALE) as nat),
            w == m * pow2((q + SCALE) as nat),
            pow2((q + 1 + SCALE) as nat) == 2 * pow2((q + SCALE) as nat),
    ;
    let u = one();
    lemma_fundamental_div_mod(x as int, u);
    lemma_mod_bound(x as int, u);
    let k = x as int / u;
    lemma_div_pos_is_pos(x as int, u);
    assert(k < 0x2000_0000_0000) by (nonlinear_arith)
        requires
            u * k <= x,
            x < u * 0x2000_0000_0000,
            u > 0,
    ;
    let n = (k + 1) / 2;
    assert(k == 2 * n || k == 2 * n - 1);
    assert(size(2 * (n * u) - x) <= u) by (nonlinear_arith)
        requires
            u * k <= x < u * k + u,
            k == 2 * n || k == 2 * n - 1,
    ;
    assert((-n) * u == -(n * u)) by (nonlinear_arith);
}

// --- chroma ---------------------------------------------------------------------------

/// Chroma has a sample for every second pixel: its place is half the place of luma,
/// or half of what luma is behind the middle of its first pixel pair.
pub proof fn lemma_chroma_place(s: F32, center: bool)
    requires
        finite(s),
        size(worth(s)) <= one() * 0x200_0000,
    ensures
        finite(scale::chroma_place(s, center)),
        ({
            let from = if center {
                worth(s) - half()
            } else {
                worth(s)
            };
            size(2 * worth(scale::chroma_place(s, center)) - from) * 0x40_0000 <= size(worth(s))
                + one()
        }),
{
    lemma_units();
    lemma_half();
    let two = F32 { bits: 0x4000_0000 };
    let h = F32 { bits: 0x3f00_0000 };
    if center {
        lemma_minus(s, h);
        lemma_over(s.s_minus(h), two, 2);
    } else {
        lemma_over(s, two, 2);
    }
}


/// The chroma sample nearest to destination pixel `d` along an axis: its column or
/// row is half the place of luma (less a quarter where chroma lies in the middle), to
/// within half a sample.
pub proof fn lemma_nearest_chroma(d: int, src: int, dst: int, center: bool)
    requires
        0 <= d < dst,
        1 <= src < 0x100_0000,
        dst < 0x100_0000,
    ensures
        ({
            let n = sampler::rounded(
                scale::chroma_place(sampler::source_place(d, src, dst), center),
            );
            let half_place = (2 * d + 1) * src - dst - if center {
                dst
            } else {
                0
            };
            size(4 * dst * n - half_place) * 0x4_0000 <= 0x8_0000 * dst + 2 * dst * src
        }),
{
    lemma_units();
    lemma_source_place(d, src, dst);
    let s = sampler::source_place(d, src, dst);
    let (u, hf) = (one(), half());
    let ws = worth(s);
    let luma = (2 * d + 1) * src - dst;
    let full = dst * src * u;
    let e = 2 * dst * ws - luma * u;
    assert(size(e) * 0x8_0000 <= full);
    // the place is within the picture
    assert(size(luma * u) <= 2 * full + dst * u) by (nonlinear_arith)
        requires
            luma == (2 * d + 1) * src - dst,
            0 <= d <= dst - 1,
            src >= 1,
            u > 0,
            full == dst * src * u,
    ;
    assert(full >= dst * u) by (nonlinear_arith)
        requires
            full == dst * src * u,
            src >= 1,
            dst >= 1,
            u > 0,
    ;
    assert(size(2 * dst * ws) <= 4 * full);
    assert(size(ws) <= 2 * (src * u)) by (nonlinear_arith)
        requires
            -4 * full <= 2 * dst * ws <= 4 * full,
            full == dst * src * u,
            dst >= 1,
    ;
    assert(src * u <= 0xff_ffff * u && src * u >= u) by (nonlinear_arith)
        requires
            1 <= src <= 0xff_ffff,
            u > 0,
    ;
    lemma_chroma_place(s, center);
    let c = scale::chroma_place(s, center);
    let wc = worth(c);
    let from = ws - if center {
        hf
    } else {
        0
    };
    lemma_rounded(c);
    let n = sampler::rounded(c);
    let g = 2 * wc - from;
    assert(size(g) * 0x40_0000 <= 2 * (src * u) + u);
    let k = n * u - wc;
    assert(2 * (size(2 * k)) <= 2 * u);
    // 4 dst (n u) - (place) = 4 dst k + 2 dst g + e
    let back = if center {
        dst
    } else {
        0
    };
    let total = (4 * dst * n - (luma - back)) * u;
    assert(total == 4 * (dst * k) + 2 * (dst * g) + e) by (nonlinear_arith)
        requires
            total == (4 * dst * n - (luma - back)) * u,
            k == n * u - wc,
            g == 2 * wc - from,
            e == 2 * dst * ws - luma * u,
            from == ws - (if back == 0 {
                0
            } else {
                hf
            }),
            back == 0 || back == dst,
            u == 2 * hf,
    ;
    assert(size(dst * k) * 2 <= dst * u) by (nonlinear_arith)
        requires
            size(k) * 2 <= u,
            dst >= 1,
    ;
    assert(size(dst * g) * 0x40_0000 <= 3 * full) by (nonlinear_arith)
        requires
            size(g) * 0x40_0000 <= 3 * (src * u),
            full == dst * src * u,
            dst >= 1,
    ;
    let x = 4 * dst * n - (luma - back);
    assert(size(total) * 0x4_0000 <= 0x8_0000 * (dst * u) + 2 * full);
    assert(size(x) * 0x4_0000 <= 0x8_0000 * dst + 2 * dst * src) by (nonlinear_arith)
        requires
            total == x * u,
            size(total) * 0x4_0000 <= 0x8_0000 * (dst * u) + 2 * full,
            full == dst * src * u,
            u > 0,
    ;
}

/// The luma pixel nearest to destination pixel `d` along an axis lies within half a
/// pixel of its place.
pub proof fn lemma_nearest_luma(d: int, src: int, dst: int)
    requires
        0 <= d < dst,
        1 <= src < 0x100_0000,
        dst < 0x100_0000,
    ensures
        size(
            2 * dst * sampler::rounded(sampler::source_place(d, src, dst)) - ((2 * d + 1) * src - dst),
        ) * 0x8_0000 <= 0x8_0000 * dst + dst * src,
{
    lemma_units();
    lemma_source_place(d, src, dst);
    let s = sampler::source_place(d, src, dst);
    let u = one();
    let ws = worth(s);
    let luma = (2 * d + 1) * src - dst;
    let full = dst * src * u;
    let e = 2 * dst * ws - luma * u;
    assert(size(luma * u) <= 2 * full + dst * u && full >= dst * u) by (nonlinear_arith)
        requires
            luma == (2 * d + 1) * src - dst,
            0 <= d <= dst - 1,
            src >= 1,
            u > 0,
            full == dst * src * u,
    ;
    assert(size(2 * dst * ws) <= 4 * full);
    assert(size(ws) <= 2 * (src * u)) by (nonlinear_arith)
        requires
            -4 * full <= 2 * dst * ws <= 4 * full,
            full == dst * src * u,
            dst >= 1,
    ;
    assert(src * u <= 0xff_ffff * u) by (nonlinear_arith)
        requires
            src <= 0xff_ffff,
            u > 0,
    ;
    lemma_rounded(s);
    let n = sampler::rounded(s);
    let k = n * u - ws;
    let x = 2 * dst * n - luma;
    let total = x * u;
    assert(total == 2 * (dst * k) + e) by (nonlinear_arith)
        requires
            total == (2 * dst * n - luma) * u,
            k == n * u - ws,
            e == 2 * dst * ws - luma * u,
    ;
    assert(size(dst * k) * 2 <= dst * u) by (nonlinear_arith)
        requires
            size(k) * 2 <= u,
            dst >= 1,
    ;
    assert(size(total) * 0x8_0000 <= 0x8_0000 * (dst * u) + full);
    assert(size(x) * 0x8_0000 <= 0x8_0000 * dst + dst * src) by (nonlinear_arith)
        requires
            total == x * u,
            size(total) * 0x8_0000 <= 0x8_0000 * (dst * u) + full,
            full == dst * src * u,
            u > 0,
    ;
}

/// Planes that are moved are moved by quarters of a pixel.
pub open spec fn quarters(shift: Option<F32>) -> int {
    match shift {
        Some(d) => if d.bits == 0xbe80_0000 {
            -1
        } else {
            0
        },
        None => 0,
    }
}

proof fn lemma_shift(shift: Option<F32>)
    requires
        shift is None || shift->0.bits == 0 || shift->0.bits == 0xbe80_0000,
    ensures
        shift matches Some(d) ==> finite(d) && 2 * worth(d) == quarters(shift) * half(),
{
    lemma2_to64();
    lemma_pow2_adds(23, 4071);
    float::lemma_pow2_step(4094);
    let f = Format::Binary32;
    assert(0x3e80_0000int / 0x80_0000 == 125 && 0x3e80_0000int % 0x80_0000 == 0);
    assert(float::mag_expo(f, 0x3e80_0000) == -25);
    assert(float::mag_mant(f, 0x3e80_0000) == pow2(23));
    assert(float::magnitude(f, 0xbe80_0000) == 0x3e80_0000);
    let c = pow2((f.qmin() + SCALE) as nat);
    assert(0 * c == 0) by (nonlinear_arith);
}

/// The sample of a plane that is nearest to destination pixel `d` along an axis lies
/// within half a pixel of its place, moved.
pub proof fn lemma_nearest_moved(d: int, src: int, dst: int, shift: Option<F32>)
    requires
        0 <= d < dst,
        1 <= src < 0x100_0000,
        dst < 0x100_0000,
        shift is None || shift->0.bits == 0 || shift->0.bits == 0xbe80_0000,
    ensures
        size(
            4 * dst * sampler::rounded(scale::moved(sampler::source_place(d, src, dst), shift)) - 2 * (
            (2 * d + 1) * src - dst) - dst * quarters(shift),
        ) * 0x2_0000 <= 0x4_0000 * dst + dst * (src + 1),
{
    lemma_units();
    lemma_source_place(d, src, dst);
    lemma_shift(shift);
    let s = sampler::source_place(d, src, dst);
    let (u, hf) = (one(), half());
    let ws = worth(s);
    let luma = (2 * d + 1) * src - dst;
    let full = dst * src * u;
    let e = 2 * dst * ws - luma * u;
    assert(size(luma * u) <= 2 * full + dst * u && full >= dst * u) by (nonlinear_arith)
        requires
            luma == (2 * d + 1) * src - dst,
            0 <= d <= dst - 1,
            src >= 1,
            u > 0,
            full == dst * src * u,
    ;
    assert(size(2 * dst * ws) <= 4 * full);
    assert(size(ws) <= 2 * (src * u)) by (nonlinear_arith)
        requires
            -4 * full <= 2 * dst * ws <= 4 * full,
            full == dst * src * u,
            dst >= 1,
    ;
    assert(src * u <= 0xff_ffff * u && src * u >= u) by (nonlinear_arith)
        requires
            1 <= src <= 0xff_ffff,
            u > 0,
    ;
    let c = quarters(shift);
    let r = scale::moved(s, shift);
    let wr = worth(r);
    if shift is Some {
        lemma_plus(s, shift->0);
    }
    // twice the place that is meant: 2 ws + c half
    let m = 2 * wr - 2 * ws - c * hf;
    assert(size(m) * 0x100_0000 <= 8 * (src * u));
    lemma_rounded(r);
    let n = sampler::rounded(r);
    let k = n * u - wr;
    let x = 4 * dst * n - 2 * luma - dst * c;
    let total = x * u;
    assert(4 * (dst * k) == 4 * dst * n * u - 4 * (dst * wr)) by (nonlinear_arith)
        requires
            k == n * u - wr,
    ;
    assert(2 * (dst * m) == 4 * (dst * wr) - 4 * (dst * ws) - dst * c * u) by (nonlinear_arith)
        requires
            m == 2 * wr - 2 * ws - c * hf,
            u == 2 * hf,
    ;
    assert(2 * e == 4 * (dst * ws) - 2 * (luma * u)) by (nonlinear_arith)
        requires
            e == 2 * dst * ws - luma * u,
    ;
    assert(total == 4 * dst * n * u - 2 * (luma * u) - dst * c * u) by (nonlinear_arith)
        requires
            total == (4 * dst * n - 2 * luma - dst * c) * u,
    ;
    assert(total == 4 * (dst * k) + 2 * (dst * m) + 2 * e);
    assert(size(dst * k) * 2 <= dst * u) by (nonlinear_arith)
        requires
            size(k) * 2 <= u,
            dst >= 1,
    ;
    assert(size(dst * m) * 0x100_0000 <= 8 * full) by (nonlinear_arith)
        requires
            size(m) * 0x100_0000 <= 8 * (src * u),
            full == dst * src * u,
            dst >= 1,
    ;
    assert(size(total) * 0x2_0000 <= 0x4_0000 * (dst * u) + full);
    assert(size(x) * 0x2_0000 <= 0x4_0000 * dst + dst * src) by (nonlinear_arith)
        requires
            total == x * u,
            size(total) * 0x2_0000 <= 0x4_0000 * (dst * u) + full,
            full == dst * src * u,
            u > 0,
    ;
    assert(dst * (src + 1) == dst * src + dst) by (nonlinear_arith);
}

// --- pictures of twice the size ---------------------------------------------------------

proof fn lemma_twice(d: int, src: int)
    requires
        0 <= d < 2 * src,
        1 <= src < 0x1_0000,
    ensures
        sampler::rounded(sampler::source_place(d, src, 2 * src)) == d / 2,
        sampler::rounded(scale::chroma_place(sampler::source_place(d, src, 2 * src), false)) == (d
            + 1) / 4,
        sampler::rounded(scale::chroma_place(sampler::source_place(d, src, 2 * src), true)) == d / 4,
{
    let dst = 2 * src;
    let s = sampler::source_place(d, src, dst);
    lemma_nearest_luma(d, src, dst);
    let n = sampler::rounded(s);
    let a = 4 * n - (2 * d - 1);
    assert(2 * dst * n - ((2 * d + 1) * src - dst) == a * src) by (nonlinear_arith)
        requires
            dst == 2 * src,
            a == 4 * n - (2 * d - 1),
    ;
    assert(size(a) < 3) by (nonlinear_arith)
        requires
            size(a * src) * 0x8_0000 <= 0x8_0000 * dst + dst * src,
            dst == 2 * src,
            1 <= src < 0x1_0000,
    ;
    lemma_nearest_chroma(d, src, dst, false);
    let m = sampler::rounded(scale::chroma_place(s, false));
    let b = 8 * m - (2 * d - 1);
    assert(4 * dst * m - ((2 * d + 1) * src - dst - 0) == b * src) by (nonlinear_arith)
        requires
            dst == 2 * src,
            b == 8 * m - (2 * d - 1),
    ;
    assert(size(b) < 5) by (nonlinear_arith)
        requires
            size(b * src) * 0x4_0000 <= 0x8_0000 * dst + 2 * dst * src,
            dst == 2 * src,
            1 <= src < 0x1_0000,
    ;
    lemma_nearest_chroma(d, src, dst, true);
    let l = sampler::rounded(scale::chroma_place(s, true));
    let c = 8 * l - (2 * d - 3);
    assert(4 * dst * l - ((2 * d + 1) * src - dst - dst) == c * src) by (nonlinear_arith)
        requires
            dst == 2 * src,
            c == 8 * l - (2 * d - 3),
    ;
    assert(size(c) < 5) by (nonlinear_arith)
        requires
            size(c * src) * 0x4_0000 <= 0x8_0000 * dst + 2 * dst * src,
            dst == 2 * src,
            1 <= src < 0x1_0000,
    ;
}

/// A picture enlarged to twice its size by its nearest pixels shows each luma pixel
/// twice along each axis, and each chroma sample, which covers two pixels, four times:
/// from its first column or row on where chroma lies in the middle of four pixels, one
/// earlier where it lies on the first of them.
pub proof fn lemma_doubled(scene: Scene, planes: Seq<Seq<u8>>, p: int, x: int, y: int)
    requires
        scene.sampled == Some(ScaleAlgorithm::Nearest),
        1 <= scene.src.0 < 0x1_0000,
        1 <= scene.src.1 < 0x1_0000,
        scene.dst.0 == 2 * scene.src.0,
        scene.dst.1 == 2 * scene.src.1,
        0 <= x < scene.dst.0,
        0 <= y < scene.dst.1,
    ensures
        scene.luma(planes, x, y) == F32::s_from_int(
            planes[0][(y / 2) * scene.src.0 + x / 2] as int,
        ),
        ({
            let cw = (scene.src.0 + 1) / 2;
            let ch = (scene.src.1 + 1) / 2;
            let (cx, cy) = if scene.center {
                (x / 4, y / 4)
            } else {
                (
                    scalefilter::between((x + 1) / 4, 0, cw - 1),
                    scalefilter::between((y + 1) / 4, 0, ch - 1),
                )
            };
            scene.chroma(planes, p, x, y) == F32::s_from_int(planes[p][cy * cw + cx] as int)
        }),
{
    lemma_twice(x, scene.src.0 as int);
    lemma_twice(y, scene.src.1 as int);
}

proof fn lemma_byte_kept(b: u8)
    ensures
        sampler::byte_of(F32::s_from_int(b as int)) == b,
{
    lemma_units();
    let v = F32::s_from_int(b as int);
    lemma_count(b as int);
    let u = one();
    assert(0 <= b * u < u * 0x1000_0000_0000) by (nonlinear_arith)
        requires
            0 <= b < 256,
            u > 0,
    ;
    lemma_rounded(v);
    let n = sampler::rounded(v);
    assert(n == b) by (nonlinear_arith)
        requires
            size(n * u - b * u) * 2 <= u,
            u > 0,
    ;
}

/// A plane enlarged to twice its size by its nearest pixels shows each of them twice
/// along each axis.
pub proof fn lemma_doubled_plane(
    plane: Seq<u8>,
    w: int,
    h: int,
    shift: Option<F32>,
    x: int,
    y: int,
)
    requires
        1 <= w < 0x1_0000,
        1 <= h < 0x1_0000,
        shift is None || shift->0.bits == 0,
        0 <= x < 2 * w,
        0 <= y < 2 * h,
    ensures
        scale::resampled(ScaleAlgorithm::Nearest, plane, w, h, 2 * w, 2 * h, shift)[y * (2 * w) + x]
            == plane[(y / 2) * w + x / 2],
{
    lemma_fundamental_div_mod_converse(y * (2 * w) + x, 2 * w, y, x);
    assert(y * (2 * w) + x < 2 * w * (2 * h) && y * (2 * w) + x >= 0) by (nonlinear_arith)
        requires
            0 <= x < 2 * w,
            0 <= y <= 2 * h - 1,
            w >= 1,
    ;
    lemma_twice_moved(x, w, shift);
    lemma_twice_moved(y, h, shift);
    lemma_byte_kept(plane[(y / 2) * w + x / 2]);
}

proof fn lemma_twice_moved(d: int, src: int, shift: Option<F32>)
    requires
        0 <= d < 2 * src,
        1 <= src < 0x1_0000,
        shift is None || shift->0.bits == 0,
    ensures
        sampler::rounded(scale::moved(sampler::source_place(d, src, 2 * src), shift)) == d / 2,
{
    let dst = 2 * src;
    lemma_nearest_moved(d, src, dst, shift);
    let n = sampler::rounded(scale::moved(sampler::source_place(d, src, dst), shift));
    let a = 8 * n - 4 * d + 2;
    assert(4 * dst * n - 2 * ((2 * d + 1) * src - dst) - dst * 0 == a * src) by (nonlinear_arith)
        requires
            dst == 2 * src,
            a == 8 * n - 4 * d + 2,
    ;
    assert(size(a) < 6) by (nonlinear_arith)
        requires
            size(a * src) * 0x2_0000 <= 0x4_0000 * dst + dst * (src + 1),
            dst == 2 * src,
            1 <= src < 0x1_0000,
    ;
}

/// Where nothing is scaled the four pixels of a square share their chroma sample.
pub proof fn lemma_shared_chroma(scene: Scene, planes: Seq<Seq<u8>>, p: int, c: int, r: int)
    requires
        scene.sampled is None,
        0 <= c,
        0 <= r,
    ensures
        forall|x: int, y: int|
            2 * c <= x <= 2 * c + 1 && 2 * r <= y <= 2 * r + 1 ==> #[trigger] scene.chroma(
                planes,
                p,
                x,
                y,
            ) == F32::s_from_int(planes[p][r * ((scene.src.0 + 1) / 2) + c] as int),
{
}

/// Where nothing is scaled, planes and paintings fetch chroma from the same places:
/// sample `k` of a plane from where pixel `2 k` of a painting does.
pub proof fn lemma_planes_agree(
    c: ScaleContext,
    f: Frame,
    p: int,
    alg: ScaleAlgorithm,
    n: int,
    k: int,
)
    requires
        c.mode != ConversionMode::Gray8ToGray8,
        p > 0,
        1 <= n < 0x1_0000,
        0 <= k,
        2 * k < n,
    ensures
        ({
            let m = (n + 1) / 2;
            let a = scale::moved(sampler::source_place(k, m, m), c.shift(f, p));
            let b = scale::chroma_place(
                sampler::source_place(2 * k, n, n),
                c.scene(f, Some(alg)).center,
            );
            &&& finite(a)
            &&& finite(b)
            &&& 8 * size(worth(a) - worth(b)) <= one()
        }),
{
    lemma_units();
    let m = (n + 1) / 2;
    let shift = c.shift(f, p);
    lemma_shift(shift);
    let (u, hf) = (one(), half());
    lemma_same_size(k, m);
    lemma_same_size(2 * k, n);
    let s = sampler::source_place(k, m, m);
    let t = sampler::source_place(2 * k, n, n);
    assert(0 <= k * u <= 0x8000 * u) by (nonlinear_arith)
        requires
            0 <= k <= 0x8000,
            u > 0,
    ;
    assert((2 * k) * u == 2 * (k * u)) by (nonlinear_arith);
    lemma_plus(s, shift->0);
    lemma_chroma_place(t, c.scene(f, Some(alg)).center);
}

proof fn lemma_same_size(d: int, n: int)
    requires
        0 <= d < n,
        1 <= n < 0x1_0000,
    ensures
        finite(sampler::source_place(d, n, n)),
        16 * size(worth(sampler::source_place(d, n, n)) - d * one()) <= one(),
{
    lemma_units();
    lemma_source_place(d, n, n);
    let u = one();
    let r = worth(sampler::source_place(d, n, n));
    let x = r - d * u;
    assert(2 * n * r - ((2 * d + 1) * n - n) * u == 2 * n * x) by (nonlinear_arith)
        requires
            x == r - d * u,
    ;
    assert(16 * size(x) <= u) by (nonlinear_arith)
        requires
            size(2 * n * x) * 0x8_0000 <= n * n * u,
            1 <= n < 0x1_0000,
            u > 0,
    ;
}

} // verus!
