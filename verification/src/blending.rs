//! How near resampled pictures and their colors are to what is meant.
use crate::float;
use crate::float::{Format, F32, SCALE};
use crate::nearness;
use crate::nearness::{one, size};
use crate::placing;
use crate::placing::{finite, tiny, worth};
use crate::sampler;
use crate::sampler::ScaleAlgorithm;
use crate::scalefilter;
use vstd::arithmetic::div_mod::*;
use vstd::arithmetic::power2::*;
use vstd::prelude::*;

verus! {

// --- errors ---------------------------------------------------------------------------

/// The unit of errors: about a millionth.
pub open spec fn speck() -> int {
    pow2(4076) as int
}

proof fn lemma_speck()
    ensures
        one() == 0x10_0000 * speck(),
        speck() > 0,
        tiny() < speck(),
        tiny() > 0,
        pow2(24) == 0x100_0000,
{
    lemma2_to64();
    lemma_pow2_adds(20, 4076);
    lemma_pow2_pos(4076);
    lemma_pow2_strictly_increases(3970, 4076);
    lemma_pow2_pos(3970);
}

/// A sum of at most `k`.
proof fn lemma_plus_within(a: F32, b: F32, k: int)
    requires
        finite(a),
        finite(b),
        1 <= k <= 0x10_0000,
        size(worth(a)) <= k * one(),
        size(worth(b)) <= k * one(),
        size(worth(a) + worth(b)) <= k * one(),
    ensures
        finite(a.s_plus(b)),
        16 * size(worth(a.s_plus(b)) - (worth(a) + worth(b))) <= (k + 1) * speck(),
{
    lemma_speck();
    placing::lemma_units();
    let (u, e) = (one(), speck());
    assert(k * u <= 0x10_0000 * u) by (nonlinear_arith)
        requires
            k <= 0x10_0000,
            u > 0,
    ;
    placing::lemma_plus(a, b);
    assert((k + 1) * e * 0x10_0000 == k * u + u) by (nonlinear_arith)
        requires
            u == 0x10_0000 * e,
    ;
}

proof fn lemma_minus_within(a: F32, b: F32, k: int)
    requires
        finite(a),
        finite(b),
        1 <= k <= 0x10_0000,
        size(worth(a)) <= k * one(),
        size(worth(b)) <= k * one(),
        size(worth(a) - worth(b)) <= k * one(),
    ensures
        finite(a.s_minus(b)),
        16 * size(worth(a.s_minus(b)) - (worth(a) - worth(b))) <= (k + 1) * speck(),
{
    let f = Format::Binary32;
    nearness::lemma_opposite(f, b.bits as u64);
    placing::lemma_same_bits(float::neg_bits(f, b.bits as u64));
    lemma_plus_within(a, b.s_neg(), k);
}

/// A product of at most `k`.
proof fn lemma_times_within(a: F32, b: F32, k: int)
    requires
        finite(a),
        finite(b),
        1 <= k <= 0x10_0000,
        size(worth(a) * worth(b)) <= k * one() * one(),
    ensures
        finite(a.s_times(b)),
        16 * size(worth(a.s_times(b)) * one() - worth(a) * worth(b)) <= (k + 1) * speck() * one(),
{
    let f = Format::Binary32;
    lemma_speck();
    placing::lemma_units();
    let (u, e) = (one(), speck());
    let top = pow2(4196) as int;
    let n = worth(a) * worth(b);
    assert(k * u * u < u * top) by (nonlinear_arith)
        requires
            1 <= k <= 0x10_0000,
            u > 0,
            u * 0x1_0000_0000_0000_0000 <= top,
    ;
    nearness::lemma_product(f, a.bits as u64, b.bits as u64);
    placing::lemma_same_bits(float::mul_bits(f, a.bits as u64, b.bits as u64));
    let r = worth(a.s_times(b));
    let err = size(r * u - n);
    let t = tiny();
    assert(err * 0x100_0000 <= size(n) + u * t);
    assert(u * t <= u * u) by (nonlinear_arith)
        requires
            0 < t < u,
    ;
    assert((k + 1) * e * u * 0x10_0000 == k * u * u + u * u) by (nonlinear_arith)
        requires
            u == 0x10_0000 * e,
    ;
}

/// A quotient.
proof fn lemma_over_within(a: F32, b: F32)
    requires
        finite(a),
        finite(b),
        size(worth(a)) <= 2 * one(),
        one() <= 2 * worth(b) <= 4 * one(),
    ensures
        finite(a.s_over(b)),
        4 * size(worth(a.s_over(b)) * worth(b) - worth(a) * one()) <= speck() * one(),
{
    let f = Format::Binary32;
    lemma_speck();
    placing::lemma_units();
    let (u, e) = (one(), speck());
    let top = pow2(4196) as int;
    let (va, vb) = (worth(a), worth(b));
    assert(size(va) * u < vb * top) by (nonlinear_arith)
        requires
            0 <= size(va) <= 2 * u,
            u <= 2 * vb,
            u > 0,
            u * 0x1_0000_0000_0000_0000 <= top,
    ;
    nearness::lemma_quotient(f, a.bits as u64, b.bits as u64);
    placing::lemma_same_bits(float::div_bits(f, a.bits as u64, b.bits as u64));
    let r = worth(a.s_over(b));
    let err = size(r * vb - va * u);
    let t = tiny();
    assert(size(va * u) <= 2 * (u * u)) by (nonlinear_arith)
        requires
            -2 * u <= va <= 2 * u,
            u > 0,
    ;
    assert(vb * t <= u * u) by (nonlinear_arith)
        requires
            0 < vb <= 2 * u,
            0 < t,
            2 * t < u,
    ;
    assert(err * 0x100_0000 <= 3 * (u * u));
    assert(e * u * 0x10_0000 == u * u) by (nonlinear_arith)
        requires
            u == 0x10_0000 * e,
    ;
}

/// The larger of a number and zero.
proof fn lemma_max_zero(a: F32)
    requires
        finite(a),
    ensures
        finite(a.s_max(F32 { bits: 0 })),
        worth(a.s_max(F32 { bits: 0 })) == if worth(a) < 0 {
            0
        } else {
            worth(a)
        },
{
    reveal(float::lt_bits);
    let f = Format::Binary32;
    let bits = a.bits as u64;
    let mag = float::magnitude(f, bits);
    let (m, q) = (float::mag_mant(f, mag), float::mag_expo(f, mag));
    nearness::lemma_expo(f, mag);
    let c = pow2((q + SCALE) as nat);
    lemma_pow2_pos((q + SCALE) as nat);
    let z = pow2((f.qmin() + SCALE) as nat);
    assert(0 * z == 0) by (nonlinear_arith);
    assert(m > 0 ==> m * c > 0) by (nonlinear_arith)
        requires
            c > 0,
    ;
    assert(m == 0 ==> m * c == 0) by (nonlinear_arith);
    assert(m == 0 <==> mag == 0);
}

proof fn lemma_abs(a: F32)
    requires
        finite(a),
    ensures
        finite(a.s_abs()),
        worth(a.s_abs()) == size(worth(a)),
{
    let f = Format::Binary32;
    let mag = float::magnitude(f, a.bits as u64);
    let (m, q) = (float::mag_mant(f, mag), float::mag_expo(f, mag));
    let c = pow2((q + SCALE) as nat);
    assert(m * c >= 0) by (nonlinear_arith);
}

/// The largest integer that is not above a number.
pub proof fn lemma_floored(v: F32, k: int)
    requires
        finite(v),
        k * one() <= worth(v) < (k + 1) * one(),
        -0x4000_0000 <= k <= 0x4000_0000,
    ensures
        sampler::floored(v) == k,
{
    reveal(float::to_int);
    placing::lemma_units();
    let f = Format::Binary32;
    let bits = v.bits as u64;
    let nb = float::neg_bits(f, bits);
    nearness::lemma_opposite(f, bits);
    placing::lemma_same_bits(nb);
    let mag = float::magnitude(f, bits);
    assert(float::magnitude(f, nb) == mag);
    let x = nearness::mag_value(f, mag);
    let u = one();
    lemma_fundamental_div_mod(x, u);
    lemma_mod_bound(x, u);
    let (q, m) = (x / u, x % u);
    if float::is_neg(f, bits) {
        // v == -x
        let c = if m != 0 {
            q + 1
        } else {
            q
        };
        assert(c == -k) by (nonlinear_arith)
            requires
                x == u * q + m,
                0 <= m < u,
                k * u <= -x < (k + 1) * u,
                c == if m != 0 {
                    q + 1
                } else {
                    q
                },
        ;
    } else {
        assert(q == k) by (nonlinear_arith)
            requires
                x == u * q + m,
                0 <= m < u,
                k * u <= x < (k + 1) * u,
        ;
    }
}


proof fn lemma_ones()
    ensures
        finite(F32 { bits: 0 }),
        worth(F32 { bits: 0 }) == 0,
        finite(F32 { bits: 0x3f80_0000 }),
        worth(F32 { bits: 0x3f80_0000 }) == one(),
        finite(F32 { bits: 0x3400_0000 }),
        4 * worth(F32 { bits: 0x3400_0000 }) < one(),
{
    lemma2_to64();
    let f = Format::Binary32;
    lemma_pow2_adds(23, 4073);
    lemma_pow2_adds(23, 4050);
    lemma_pow2_strictly_increases(4073, 4094);
    float::lemma_pow2_step(4094);
    float::lemma_pow2_step(4095);
    assert(0x3f80_0000int / 0x80_0000 == 127 && 0x3f80_0000int % 0x80_0000 == 0);
    assert(0x3400_0000int / 0x80_0000 == 104 && 0x3400_0000int % 0x80_0000 == 0);
    assert(float::mag_expo(f, 0x3f80_0000) == -23);
    assert(float::mag_expo(f, 0x3400_0000) == -46);
    assert(float::mag_mant(f, 0x3f80_0000) == pow2(23));
    assert(float::mag_mant(f, 0x3400_0000) == pow2(23));
    let z = pow2((f.qmin() + SCALE) as nat);
    assert(0 * z == 0) by (nonlinear_arith);
}

// --- between two pixels -----------------------------------------------------------------

/// The distance of pixel `c` from a place.
proof fn lemma_distance(x: F32, c: int, d: int)
    requires
        finite(x),
        -0x10_0000 <= c <= 0x10_0000,
        worth(x) == c * one() + d,
        size(d) <= 2 * one(),
    ensures
        finite(F32::s_from_int(c).s_minus(x).s_abs()),
        4 * size(worth(F32::s_from_int(c).s_minus(x).s_abs()) - size(d)) <= speck(),
{
    lemma_speck();
    placing::lemma_units();
    placing::lemma_count(c);
    let u = one();
    assert(size(c * u) <= 0x10_0000 * u) by (nonlinear_arith)
        requires
            -0x10_0000 <= c <= 0x10_0000,
            u > 0,
    ;
    placing::lemma_minus(F32::s_from_int(c), x);
    lemma_abs(F32::s_from_int(c).s_minus(x));
}

/// The weight of a pixel at the distance `d`: what is missing to one.
proof fn lemma_tent(x: F32, c: int, d: int)
    requires
        finite(x),
        -0x10_0000 <= c <= 0x10_0000,
        worth(x) == c * one() + d,
        size(d) <= one(),
    ensures
        ({
            let w = ScaleAlgorithm::Bilinear.spec_weight(F32::s_from_int(c).s_minus(x).s_abs());
            &&& finite(w)
            &&& size(worth(w) - (one() - size(d))) <= speck()
            &&& worth(w) >= 0
        }),
{
    lemma_speck();
    lemma_ones();
    lemma_distance(x, c, d);
    let a = F32::s_from_int(c).s_minus(x).s_abs();
    let l = F32 { bits: 0x3f80_0000 };
    lemma_abs(F32::s_from_int(c).s_minus(x));
    lemma_minus_within(l, a, 2);
    lemma_max_zero(l.s_minus(a));
}

/// The weights of the two pixels about a place between them.
proof fn lemma_bilinear_shares(x: F32, k: int, t: int)
    requires
        finite(x),
        -0xf_0000 <= k <= 0xf_0000,
        worth(x) == k * one() + t,
        0 <= t < one(),
    ensures
        ({
            let alg = ScaleAlgorithm::Bilinear;
            &&& !sampler::weightless(alg, x)
            &&& sampler::first_tap(alg, x) == k
            &&& finite(sampler::share(alg, x, 0))
            &&& finite(sampler::share(alg, x, 1))
            &&& size(worth(sampler::share(alg, x, 0)) - (one() - t)) <= 14 * speck()
            &&& size(worth(sampler::share(alg, x, 1)) - t) <= 14 * speck()
        }),
{
    let alg = ScaleAlgorithm::Bilinear;
    lemma_speck();
    lemma_ones();
    let (u, e) = (one(), speck());
    assert((k + 1) * u == k * u + u) by (nonlinear_arith);
    lemma_floored(x, k);
    lemma_tent(x, k, t);
    lemma_tent(x, k + 1, t - u);
    let w0 = sampler::tap_weight(alg, x, 0);
    let w1 = sampler::tap_weight(alg, x, 1);
    assert(size(worth(w0) - (u - t)) <= e);
    assert(size(worth(w1) - t) <= e);
    let zero = F32 { bits: 0 };
    lemma_plus_within(zero, w0, 2);
    let s1 = zero.s_plus(w0);
    lemma_plus_within(s1, w1, 3);
    let s = s1.s_plus(w1);
    reveal_with_fuel(sampler::weight_sum, 3);
    assert(sampler::weight_sum(alg, x, 2) == s);
    assert(size(worth(s) - u) <= 3 * e);
    nearness::lemma_order(Format::Binary32, s.bits as u64, 0x3400_0000);
    lemma_share(w0, s);
    lemma_share(w1, s);
}

/// A weight is hardly changed by making all add up to one.
proof fn lemma_share(w: F32, s: F32)
    requires
        finite(w),
        finite(s),
        size(worth(s) - one()) <= 3 * speck(),
        -one() <= 4 * worth(w) <= 5 * one(),
    ensures
        finite(w.s_over(s)),
        size(worth(w.s_over(s)) - worth(w)) <= 13 * speck(),
{
    lemma_speck();
    let (u, e) = (one(), speck());
    lemma_over_within(w, s);
    let (r, v, c) = (worth(w.s_over(s)), worth(w), worth(s));
    assert(size(v * u) <= 2 * (u * u)) by (nonlinear_arith)
        requires
            -u <= 4 * v <= 5 * u,
            u > 0,
    ;
    assert(e * u <= u * u) by (nonlinear_arith)
        requires
            0 < e <= u,
    ;
    assert(size(r * c) <= 3 * (u * u));
    assert(size(r) <= 4 * u) by (nonlinear_arith)
        requires
            size(r * c) <= 3 * (u * u),
            4 * c >= 3 * u,
            u > 0,
    ;
    let g = u - c;
    assert(r * u - v * u == (r * c - v * u) + r * g) by (nonlinear_arith)
        requires
            g == u - c,
    ;
    assert(size(r * g) <= 12 * (e * u)) by (nonlinear_arith)
        requires
            -4 * u <= r <= 4 * u,
            -3 * e <= g <= 3 * e,
            e > 0,
            u > 0,
    ;
    assert(e * u == u * e) by (nonlinear_arith);
    let d = r - v;
    assert(d * u == r * u - v * u) by (nonlinear_arith)
        requires
            d == r - v,
    ;
    assert(size(d) <= 13 * e) by (nonlinear_arith)
        requires
            -(13 * (e * u)) <= d * u <= 13 * (e * u),
            u > 0,
            e > 0,
    ;
}


/// A value of at most 256 times a weight. The value is off by at most `m` and the
/// weight by at most 14 units.
proof fn lemma_weighed(p: F32, s: F32, v: int, w: int, m: int)
    requires
        finite(p),
        finite(s),
        0 <= v <= 255 * one(),
        0 <= w <= one(),
        0 <= m <= 0x4000,
        size(worth(p) - v) <= m * speck(),
        size(worth(s) - w) <= 14 * speck(),
    ensures
        finite(p.s_times(s)),
        size(worth(p.s_times(s)) * one() - v * w) <= (m + 3602) * speck() * one(),
        size(worth(p.s_times(s))) <= 256 * one(),
{
    lemma_speck();
    let (u, e) = (one(), speck());
    let (a, b) = (worth(p), worth(s));
    let (da, db) = (a - v, b - w);
    assert(a * b - v * w == v * db + da * w + da * db) by (nonlinear_arith)
        requires
            da == a - v,
            db == b - w,
    ;
    assert(m * e <= 0x4000 * e) by (nonlinear_arith)
        requires
            m <= 0x4000,
            e > 0,
    ;
    assert(size(v * db) <= 3570 * (e * u)) by (nonlinear_arith)
        requires
            0 <= v <= 255 * u,
            -14 * e <= db <= 14 * e,
            e > 0,
            u > 0,
    ;
    assert(size(da * w) <= m * e * u) by (nonlinear_arith)
        requires
            0 <= w <= u,
            -(m * e) <= da <= m * e,
            u > 0,
    ;
    assert(size(da * db) <= e * u) by (nonlinear_arith)
        requires
            -(0x4000 * e) <= da <= 0x4000 * e,
            -14 * e <= db <= 14 * e,
            u == 0x10_0000 * e,
            e > 0,
    ;
    assert(0 <= v * w <= 255 * (u * u)) by (nonlinear_arith)
        requires
            0 <= v <= 255 * u,
            0 <= w <= u,
    ;
    assert(m * e * u + 3602 * (e * u) <= u * u) by (nonlinear_arith)
        requires
            0 <= m <= 0x4000,
            u == 0x10_0000 * e,
            e > 0,
    ;
    assert(256 * u * u == 256 * (u * u)) by (nonlinear_arith);
    lemma_times_within(p, s, 256);
    let r = worth(p.s_times(s));
    assert((256 + 1) * e * u == 257 * (e * u)) by (nonlinear_arith);
    assert(size(r * u - a * b) <= 17 * (e * u)) by {
        assert(e * u > 0) by (nonlinear_arith)
            requires
                e > 0,
                u > 0,
        ;
    }
    assert((m + 3602) * e * u == m * e * u + 3602 * (e * u)) by (nonlinear_arith);
    assert(size(r) <= 256 * u) by (nonlinear_arith)
        requires
            size(r * u) <= 256 * (u * u),
            u > 0,
    ;
}

/// A row of a picture between two pixels.
proof fn lemma_bilinear_row(plane: Seq<u8>, w: int, row: int, x: F32, k: int, t: int)
    requires
        finite(x),
        -0xf_0000 <= k <= 0xf_0000,
        worth(x) == k * one() + t,
        0 <= t < one(),
    ensures
        ({
            let r = sampler::row_sum(ScaleAlgorithm::Bilinear, plane, w, row, x, 2);
            let p = plane[row * w + scalefilter::between(k, 0, w - 1)] as int;
            let q = plane[row * w + scalefilter::between(k + 1, 0, w - 1)] as int;
            &&& finite(r)
            &&& size(worth(r) - (p * (one() - t) + q * t)) <= 7300 * speck()
            &&& 0 <= p * (one() - t) + q * t <= 255 * one()
        }),
{
    let alg = ScaleAlgorithm::Bilinear;
    lemma_speck();
    lemma_ones();
    lemma_bilinear_shares(x, k, t);
    let (u, e) = (one(), speck());
    let p = plane[row * w + scalefilter::between(k, 0, w - 1)] as int;
    let q = plane[row * w + scalefilter::between(k + 1, 0, w - 1)] as int;
    let (fp, fq) = (F32::s_from_int(p), F32::s_from_int(q));
    placing::lemma_count(p);
    placing::lemma_count(q);
    assert(0 <= p * u <= 255 * u && 0 <= q * u <= 255 * u) by (nonlinear_arith)
        requires
            0 <= p <= 255,
            0 <= q <= 255,
            u > 0,
    ;
    let (a, b) = (sampler::share(alg, x, 0), sampler::share(alg, x, 1));
    lemma_weighed(fp, a, p * u, u - t, 0);
    lemma_weighed(fq, b, q * u, t, 0);
    let (fa, fb) = (fp.s_times(a), fq.s_times(b));
    lemma_unscaled(worth(fa), p, u - t, 3602);
    lemma_unscaled(worth(fb), q, t, 3602);
    let zero = F32 { bits: 0 };
    lemma_plus_within(zero, fa, 256);
    let r1 = zero.s_plus(fa);
    lemma_plus_within(r1, fb, 513);
    reveal_with_fuel(sampler::row_sum, 3);
    assert(p * (u - t) + q * t <= 255 * u && 0 <= p * (u - t) && 0 <= q * t) by (nonlinear_arith)
        requires
            0 <= p <= 255,
            0 <= q <= 255,
            0 <= t <= u,
    ;
}

/// From units squared to units.
proof fn lemma_unscaled(r: int, p: int, w: int, m: int)
    requires
        size(r * one() - p * one() * w) <= (0 + m) * speck() * one(),
    ensures
        size(r - p * w) <= m * speck(),
{
    lemma_speck();
    let (u, e) = (one(), speck());
    let d = r - p * w;
    assert(d * u == r * u - p * u * w) by (nonlinear_arith)
        requires
            d == r - p * w,
    ;
    let me = (0 + m) * e;
    assert(size(d) <= me) by (nonlinear_arith)
        requires
            size(d * u) <= me * u,
            u > 0,
    ;
}

/// The exact mean of four pixels about a place, in square units.
pub open spec fn four_mean(plane: Seq<u8>, w: int, h: int, kx: int, tx: int, ky: int, ty: int) -> int {
    let c0 = scalefilter::between(kx, 0, w - 1);
    let c1 = scalefilter::between(kx + 1, 0, w - 1);
    let r0 = scalefilter::between(ky, 0, h - 1);
    let r1 = scalefilter::between(ky + 1, 0, h - 1);
    let u = one();
    (plane[r0 * w + c0] * (u - tx) + plane[r0 * w + c1] * tx) * (u - ty) + (plane[r1 * w + c0] * (u
        - tx) + plane[r1 * w + c1] * tx) * ty
}

/// A bilinear sample is the mean of the four pixels about its place, each weighed by
/// how near it is, to within a thirty-second of a step of brightness.
pub proof fn lemma_bilinear(
    plane: Seq<u8>,
    w: int,
    h: int,
    x: F32,
    y: F32,
    kx: int,
    tx: int,
    ky: int,
    ty: int,
)
    requires
        finite(x),
        finite(y),
        -0xf_0000 <= kx <= 0xf_0000,
        -0xf_0000 <= ky <= 0xf_0000,
        worth(x) == kx * one() + tx,
        worth(y) == ky * one() + ty,
        0 <= tx < one(),
        0 <= ty < one(),
    ensures
        ({
            let s = sampler::sample(ScaleAlgorithm::Bilinear, plane, w, h, x, y);
            &&& finite(s)
            &&& 32 * size(worth(s) * one() - four_mean(plane, w, h, kx, tx, ky, ty)) <= one() * one()
        }),
{
    let alg = ScaleAlgorithm::Bilinear;
    lemma_speck();
    lemma_ones();
    lemma_bilinear_shares(x, kx, tx);
    lemma_bilinear_shares(y, ky, ty);
    let (u, e) = (one(), speck());
    let r0 = scalefilter::between(ky, 0, h - 1);
    let r1 = scalefilter::between(ky + 1, 0, h - 1);
    lemma_bilinear_row(plane, w, r0, x, kx, tx);
    lemma_bilinear_row(plane, w, r1, x, kx, tx);
    let c0 = scalefilter::between(kx, 0, w - 1);
    let c1 = scalefilter::between(kx + 1, 0, w - 1);
    let v0 = plane[r0 * w + c0] * (u - tx) + plane[r0 * w + c1] * tx;
    let v1 = plane[r1 * w + c0] * (u - tx) + plane[r1 * w + c1] * tx;
    let (f0, f1) = (
        sampler::row_sum(alg, plane, w, r0, x, 2),
        sampler::row_sum(alg, plane, w, r1, x, 2),
    );
    let (a, b) = (sampler::share(alg, y, 0), sampler::share(alg, y, 1));
    lemma_weighed(f0, a, v0, u - ty, 7300);
    lemma_weighed(f1, b, v1, ty, 7300);
    let (g0, g1) = (f0.s_times(a), f1.s_times(b));
    let zero = F32 { bits: 0 };
    lemma_plus_within(zero, g0, 256);
    let s1 = zero.s_plus(g0);
    lemma_plus_within(s1, g1, 513);
    let s = s1.s_plus(g1);
    reveal_with_fuel(sampler::column_sum, 3);
    assert(sampler::sample(alg, plane, w, h, x, y) == s);
    let d = worth(s) - worth(g0) - worth(g1);
    assert(size(d) <= 50 * e);
    assert(worth(s) * u == worth(g0) * u + worth(g1) * u + d * u) by (nonlinear_arith)
        requires
            d == worth(s) - worth(g0) - worth(g1),
    ;
    assert(size(d * u) <= 50 * (e * u)) by (nonlinear_arith)
        requires
            -50 * e <= d <= 50 * e,
            u > 0,
    ;
    assert((7300 + 3602) * e * u == 10902 * (e * u)) by (nonlinear_arith);
    assert(u * u == 0x10_0000 * (e * u)) by (nonlinear_arith)
        requires
            u == 0x10_0000 * e,
    ;
    assert(e * u > 0) by (nonlinear_arith)
        requires
            e > 0,
            u > 0,
    ;
}


// --- the cubic kernel -------------------------------------------------------------------

/// What the numbers of the cubic kernel are.
proof fn lemma_cubic_numbers()
    ensures
        finite(F32 { bits: 0x40c0_0000 }),
        worth(F32 { bits: 0x40c0_0000 }) == 6 * one(),
        finite(F32 { bits: 0xc166_6666 }),
        worth(F32 { bits: 0xc166_6666 }) == -15099494 * speck(),
        finite(F32 { bits: 0x4106_6666 }),
        worth(F32 { bits: 0x4106_6666 }) == 8808038 * speck(),
        finite(F32 { bits: 0x4166_6667 }),
        worth(F32 { bits: 0x4166_6667 }) == 15099495 * speck(),
        finite(F32 { bits: 0xc1e6_6667 }),
        worth(F32 { bits: 0xc1e6_6667 }) == -30198990 * speck(),
        finite(F32 { bits: 0x4190_0000 }),
        worth(F32 { bits: 0x4190_0000 }) == 18 * one(),
        finite(F32 { bits: 0xc066_6667 }),
        4 * worth(F32 { bits: 0xc066_6667 }) == -15099495 * speck(),
        finite(F32 { bits: 0x4000_0000 }),
        worth(F32 { bits: 0x4000_0000 }) == 2 * one(),
{
    lemma_speck();
    placing::lemma_half();
    float::lemma_pow2_step(4074);
    float::lemma_pow2_step(4075);
    float::lemma_pow2_step(4076);
    let f = Format::Binary32;
    assert(0x40c0_0000int / 0x80_0000 == 129 && 0x40c0_0000int % 0x80_0000 == 0x40_0000);
    assert(0x4166_6666int / 0x80_0000 == 130 && 0x4166_6666int % 0x80_0000 == 0x66_6666);
    assert(0x4106_6666int / 0x80_0000 == 130 && 0x4106_6666int % 0x80_0000 == 0x06_6666);
    assert(0x4166_6667int / 0x80_0000 == 130 && 0x4166_6667int % 0x80_0000 == 0x66_6667);
    assert(0x41e6_6667int / 0x80_0000 == 131 && 0x41e6_6667int % 0x80_0000 == 0x66_6667);
    assert(0x4190_0000int / 0x80_0000 == 131 && 0x4190_0000int % 0x80_0000 == 0x10_0000);
    assert(0x4066_6667int / 0x80_0000 == 128 && 0x4066_6667int % 0x80_0000 == 0x66_6667);
    assert(nearness::mag_value(f, 0x40c0_0000) == 0xc0_0000 * pow2(4075)) by {
        assert(float::mag_expo(f, 0x40c0_0000) == -21);
        assert(float::mag_mant(f, 0x40c0_0000) == 0xc0_0000);
    }
    assert(nearness::mag_value(f, 0x4166_6666) == 0xe6_6666 * pow2(4076)) by {
        assert(float::mag_expo(f, 0x4166_6666) == -20);
        assert(float::mag_mant(f, 0x4166_6666) == 0xe6_6666);
    }
    assert(nearness::mag_value(f, 0x4106_6666) == 0x86_6666 * pow2(4076)) by {
        assert(float::mag_expo(f, 0x4106_6666) == -20);
        assert(float::mag_mant(f, 0x4106_6666) == 0x86_6666);
    }
    assert(nearness::mag_value(f, 0x4166_6667) == 0xe6_6667 * pow2(4076)) by {
        assert(float::mag_expo(f, 0x4166_6667) == -20);
        assert(float::mag_mant(f, 0x4166_6667) == 0xe6_6667);
    }
    assert(nearness::mag_value(f, 0x41e6_6667) == 0xe6_6667 * pow2(4077)) by {
        assert(float::mag_expo(f, 0x41e6_6667) == -19);
        assert(float::mag_mant(f, 0x41e6_6667) == 0xe6_6667);
    }
    assert(nearness::mag_value(f, 0x4190_0000) == 0x90_0000 * pow2(4077)) by {
        assert(float::mag_expo(f, 0x4190_0000) == -19);
        assert(float::mag_mant(f, 0x4190_0000) == 0x90_0000);
    }
    assert(nearness::mag_value(f, 0x4066_6667) == 0xe6_6667 * pow2(4074)) by {
        assert(float::mag_expo(f, 0x4066_6667) == -22);
        assert(float::mag_mant(f, 0x4066_6667) == 0xe6_6667);
    }
    assert(float::magnitude(f, 0xc166_6666) == 0x4166_6666);
    assert(float::magnitude(f, 0xc1e6_6667) == 0x41e6_6667);
    assert(float::magnitude(f, 0xc066_6667) == 0x4066_6667);
}

/// Up to a pixel away the kernel falls as `1 - 2.4 x^2 + 1.4 x^3`.
pub proof fn lemma_cubic_near(x: F32)
    requires
        finite(x),
        0 <= worth(x) < one(),
    ensures
        ({
            let (u, v) = (one(), worth(x));
            let w = ScaleAlgorithm::Bicubic.spec_weight(x);
            &&& finite(w)
            &&& size(60 * worth(w) * u * u - (60 * u * u * u - 144 * u * v * v + 84 * v * v * v))
                <= 300 * speck() * u * u
        }),
{
    lemma_speck();
    lemma_ones();
    lemma_cubic_numbers();
    let (u, e, v) = (one(), speck(), worth(x));
    let six = F32 { bits: 0x40c0_0000 };
    let p2 = F32 { bits: 0xc166_6666 };
    let p3 = F32 { bits: 0x4106_6666 };
    nearness::lemma_order(Format::Binary32, x.bits as u64, 0x3f80_0000);
    let (c2, c3) = (worth(p2), worth(p3));
    assert(0 <= v * c3 <= 9 * u * u) by (nonlinear_arith)
        requires
            0 <= v <= u,
            0 <= c3 <= 9 * u,
    ;
    lemma_times_within(x, p3, 9);
    let fa = x.s_times(p3);
    let a = worth(fa);
    assert((9 + 1) * e * u == 10 * (e * u)) by (nonlinear_arith);
    assert(e * u > 0) by (nonlinear_arith)
        requires
            e > 0,
            u > 0,
    ;
    assert(9 * u * u == 9 * (u * u)) by (nonlinear_arith);
    assert(e * u * 0x10_0000 == u * u) by (nonlinear_arith)
        requires
            u == 0x10_0000 * e,
    ;
    let a1 = a * u - v * c3;
    assert(size(a1) <= e * u);
    assert(-u <= a <= 10 * u) by (nonlinear_arith)
        requires
            -(u * u) <= a * u <= 10 * (u * u),
            u > 0,
    ;
    assert(a >= -e) by (nonlinear_arith)
        requires
            a * u >= -(e * u),
            u > 0,
    ;
    lemma_plus_within(p2, fa, 15);
    let fb = p2.s_plus(fa);
    let b = worth(fb);
    let b1 = b - c2 - a;
    assert(size(b1) <= e);
    assert(size(b) <= 16 * u);
    assert(0 <= v * v <= u * u && 1 * u * u == u * u) by (nonlinear_arith)
        requires
            0 <= v <= u,
    ;
    lemma_times_within(x, x, 1);
    let fc = x.s_times(x);
    let c = worth(fc);
    assert((1 + 1) * e * u == 2 * (e * u)) by (nonlinear_arith);
    let c1 = c * u - v * v;
    assert(size(c1) <= e * u);
    assert(-u <= c <= 2 * u) by (nonlinear_arith)
        requires
            -(u * u) <= c * u <= 2 * (u * u),
            u > 0,
    ;
    assert(size(c * b) <= 32 * (u * u) && 32 * u * u == 32 * (u * u)) by (nonlinear_arith)
        requires
            -u <= c <= 2 * u,
            -16 * u <= b <= 16 * u,
            u > 0,
    ;
    lemma_times_within(fc, fb, 32);
    let fd = fc.s_times(fb);
    let d = worth(fd);
    assert((32 + 1) * e * u == 33 * (e * u)) by (nonlinear_arith);
    let d1 = d * u - c * b;
    assert(size(d1) <= 3 * (e * u));
    assert(size(d) <= 33 * u) by (nonlinear_arith)
        requires
            size(d * u) <= 33 * (u * u),
            u > 0,
    ;
    lemma_plus_within(six, fd, 39);
    let fe = six.s_plus(fd);
    let f = worth(fe);
    let f1 = f - 6 * u - d;
    assert(size(f1) <= 3 * e);
    placing::lemma_over(fe, six, 6);
    let w = worth(fe.s_over(six));
    let g1 = 6 * w - f;
    assert(size(g1) <= 3 * e);
    lemma_cubic_near_sum(u, e, v, c2, c3, a, b, c, d, w, a1, b1, c1, d1, f1 + g1);
}

proof fn lemma_cubic_near_sum(
    u: int,
    e: int,
    v: int,
    c2: int,
    c3: int,
    a: int,
    b: int,
    c: int,
    d: int,
    w: int,
    a1: int,
    b1: int,
    c1: int,
    d1: int,
    f1: int,
)
    requires
        e > 0,
        u == 0x10_0000 * e,
        0 <= v <= u,
        c2 == -15099494 * e,
        c3 == 8808038 * e,
        a1 == a * u - v * c3,
        b1 == b - c2 - a,
        c1 == c * u - v * v,
        d1 == d * u - c * b,
        6 * w == 6 * u + d + f1,
        size(a1) <= e * u,
        size(b1) <= e,
        size(c1) <= e * u,
        size(d1) <= 3 * (e * u),
        size(f1) <= 6 * e,
    ensures
        size(60 * w * u * u - (60 * u * u * u - 144 * u * v * v + 84 * v * v * v)) <= 300 * e * u * u,
{
    let uu = u * u;
    let vv = v * v;
    let beta = c2 * u + v * c3;
    let b2 = a1 + b1 * u;
    assert(b * u == beta + b2) by (nonlinear_arith)
        requires
            beta == c2 * u + v * c3,
            b2 == a1 + b1 * u,
            a1 == a * u - v * c3,
            b1 == b - c2 - a,
    ;
    assert(size(b1 * u) <= e * u) by (nonlinear_arith)
        requires
            -e <= b1 <= e,
            u > 0,
    ;
    assert(0 <= vv <= uu) by (nonlinear_arith)
        requires
            vv == v * v,
            uu == u * u,
            0 <= v <= u,
    ;
    let eu = e * u;
    assert(eu > 0 && uu > 0) by (nonlinear_arith)
        requires
            eu == e * u,
            uu == u * u,
            e > 0,
            u > 0,
    ;
    assert(size(beta) <= 16 * uu) by (nonlinear_arith)
        requires
            beta == c2 * u + v * c3,
            -15 * u <= c2 <= 0,
            0 <= c3 <= 9 * u,
            0 <= v <= u,
            uu == u * u,
    ;
    let x1 = vv * b2;
    assert(size(x1) <= 2 * (eu * uu)) by (nonlinear_arith)
        requires
            x1 == vv * b2,
            0 <= vv <= uu,
            -(2 * eu) <= b2 <= 2 * eu,
    ;
    let x2 = c1 * beta;
    assert(size(x2) <= 16 * (eu * uu)) by (nonlinear_arith)
        requires
            x2 == c1 * beta,
            -eu <= c1 <= eu,
            -(16 * uu) <= beta <= 16 * uu,
            eu > 0,
            uu > 0,
    ;
    let x3 = c1 * b2;
    assert(eu <= uu) by (nonlinear_arith)
        requires
            eu == e * u,
            uu == u * u,
            0 < e <= u,
    ;
    assert(size(x3) <= 2 * (eu * uu)) by (nonlinear_arith)
        requires
            x3 == c1 * b2,
            -eu <= c1 <= eu,
            -(2 * eu) <= b2 <= 2 * eu,
            0 < eu <= uu,
    ;
    assert((c * u) * (b * u) == vv * beta + x1 + x2 + x3) by (nonlinear_arith)
        requires
            c * u == vv + c1,
            b * u == beta + b2,
            x1 == vv * b2,
            x2 == c1 * beta,
            x3 == c1 * b2,
    ;
    assert((c * u) * (b * u) == c * b * uu) by (nonlinear_arith)
        requires
            uu == u * u,
    ;
    // 6 w u^3
    let uuu = uu * u;
    assert(6 * w * uuu == 6 * u * uuu + c * b * uu + d1 * uu + f1 * uuu) by (nonlinear_arith)
        requires
            6 * w == 6 * u + d + f1,
            d1 == d * u - c * b,
            uuu == uu * u,
    ;
    assert(size(d1 * uu) <= 3 * (eu * uu)) by (nonlinear_arith)
        requires
            -(3 * eu) <= d1 <= 3 * eu,
            uu > 0,
    ;
    assert(size(f1 * uuu) <= 6 * (eu * uu)) by (nonlinear_arith)
        requires
            -(6 * e) <= f1 <= 6 * e,
            uuu == uu * u,
            eu == e * u,
            uu > 0,
            u > 0,
    ;
    // the constants
    let beta1 = 10 * beta + 144 * uu - 84 * (u * v);
    assert(beta1 == 4 * eu - 4 * (e * v)) by (nonlinear_arith)
        requires
            beta1 == 10 * beta + 144 * uu - 84 * (u * v),
            beta == c2 * u + v * c3,
            c2 == -15099494 * e,
            c3 == 8808038 * e,
            u == 0x10_0000 * e,
            eu == e * u,
            uu == u * u,
    ;
    assert(0 <= e * v <= eu) by (nonlinear_arith)
        requires
            0 <= v <= u,
            eu == e * u,
            e > 0,
    ;
    let x4 = vv * beta1;
    assert(size(x4) <= 4 * (eu * uu)) by (nonlinear_arith)
        requires
            x4 == vv * beta1,
            0 <= vv <= uu,
            0 <= beta1 <= 4 * eu,
    ;
    assert(10 * (vv * beta) == x4 - 144 * (vv * uu) + 84 * (vv * (u * v))) by (nonlinear_arith)
        requires
            x4 == vv * beta1,
            beta1 == 10 * beta + 144 * uu - 84 * (u * v),
    ;
    let t = 60 * w * u * u - (60 * u * u * u - 144 * u * v * v + 84 * v * v * v);
    assert(t * u == 60 * w * u * u * u - 60 * u * u * u * u + 144 * u * v * v * u - 84 * v * v * v * u)
        by (nonlinear_arith)
        requires
            t == 60 * w * u * u - (60 * u * u * u - 144 * u * v * v + 84 * v * v * v),
    ;
    assert(60 * w * u * u * u == 10 * (6 * w * uuu)) by (nonlinear_arith)
        requires
            uuu == uu * u,
            uu == u * u,
    ;
    assert(60 * u * u * u * u == 10 * (6 * u * uuu)) by (nonlinear_arith)
        requires
            uuu == uu * u,
            uu == u * u,
    ;
    assert(144 * u * v * v * u == 144 * (vv * uu)) by (nonlinear_arith)
        requires
            uu == u * u,
            vv == v * v,
    ;
    assert(84 * v * v * v * u == 84 * (vv * (u * v))) by (nonlinear_arith)
        requires
            vv == v * v,
    ;
    assert(size(t * u) <= 300 * (eu * uu));
    assert(300 * (eu * uu) == 300 * e * u * u * u) by (nonlinear_arith)
        requires
            eu == e * u,
            uu == u * u,
    ;
    let bound = 300 * e * u * u;
    assert(size(t) <= bound) by (nonlinear_arith)
        requires
            size(t * u) <= bound * u,
            u > 0,
    ;
}


/// From one to two pixels away it is `2.4 - 4.8 x + 3 x^2 - 0.6 x^3`.
pub proof fn lemma_cubic_far(x: F32)
    requires
        finite(x),
        one() <= worth(x) < 2 * one(),
    ensures
        ({
            let (u, v) = (one(), worth(x));
            let w = ScaleAlgorithm::Bicubic.spec_weight(x);
            &&& finite(w)
            &&& size(
                20 * worth(w) * u * u - (48 * u * u * u - 96 * u * u * v + 60 * u * v * v - 12 * v * v
                    * v),
            ) <= 300 * speck() * u * u
        }),
{
    lemma_speck();
    lemma_ones();
    lemma_cubic_numbers();
    let (u, e, v) = (one(), speck(), worth(x));
    let six = F32 { bits: 0x40c0_0000 };
    let q0 = F32 { bits: 0x4166_6667 };
    let q1 = F32 { bits: 0xc1e6_6667 };
    let q2 = F32 { bits: 0x4190_0000 };
    let q3 = F32 { bits: 0xc066_6667 };
    nearness::lemma_order(Format::Binary32, x.bits as u64, 0x3f80_0000);
    nearness::lemma_order(Format::Binary32, x.bits as u64, 0x4000_0000);
    let (c0, c1, c2, c3) = (worth(q0), worth(q1), worth(q2), worth(q3));
    assert(e * u > 0) by (nonlinear_arith)
        requires
            e > 0,
            u > 0,
    ;
    let (fa, a1) = lemma_step_times(x, q3, 4, 9);
    let a = worth(fa);
    lemma_plus_within(q2, fa, 27);
    let fb = q2.s_plus(fa);
    let b = worth(fb);
    let b1 = b - c2 - a;
    assert(size(b1) <= 2 * e);
    let (fc, k1) = lemma_step_times(x, fb, 28, 57);
    let c = worth(fc);
    lemma_plus_within(q1, fc, 86);
    let fd = q1.s_plus(fc);
    let d = worth(fd);
    let d1 = d - c1 - c;
    assert(size(d1) <= 6 * e);
    let (fe, e1) = lemma_step_times(x, fd, 87, 175);
    let g = worth(fe);
    lemma_plus_within(q0, fe, 190);
    let ff = q0.s_plus(fe);
    let f = worth(ff);
    let f1 = f - c0 - g;
    assert(size(f1) <= 12 * e);
    placing::lemma_over(ff, six, 6);
    let w = worth(ff.s_over(six));
    let g1 = 6 * w - f;
    assert(size(g1) <= 13 * e);
    lemma_cubic_far_sum(u, e, v, c0, c1, c2, c3, a, b, c, d, g, w, a1, b1, k1, d1, e1, f1 + g1);
}

/// A product with a distance of at most two, and how far it is off.
proof fn lemma_step_times(x: F32, y: F32, k: int, m: int) -> (r: (F32, int))
    requires
        finite(x),
        finite(y),
        0 <= worth(x) <= 2 * one(),
        1 <= k <= 100,
        m == 2 * k + 1,
        size(worth(y)) <= k * one(),
    ensures
        r.0 == x.s_times(y),
        finite(r.0),
        r.1 == worth(r.0) * one() - worth(x) * worth(y),
        16 * size(r.1) <= m * (speck() * one()),
        size(worth(r.0)) <= m * one(),
{
    lemma_speck();
    let (u, e) = (one(), speck());
    let (v, y0) = (worth(x), worth(y));
    assert(size(v * y0) <= 2 * k * (u * u)) by (nonlinear_arith)
        requires
            0 <= v <= 2 * u,
            -(k * u) <= y0 <= k * u,
            u > 0,
            k >= 1,
    ;
    assert(2 * k * (u * u) == (2 * k) * u * u) by (nonlinear_arith);
    lemma_times_within(x, y, 2 * k);
    let r = x.s_times(y);
    let d = worth(r) * u - v * y0;
    assert((2 * k + 1) * e * u == (2 * k + 1) * (e * u)) by (nonlinear_arith);
    assert((2 * k + 1) * (e * u) <= 16 * (u * u)) by (nonlinear_arith)
        requires
            1 <= k <= 100,
            u == 0x10_0000 * e,
            e > 0,
    ;
    let bound = (2 * k + 1) * u;
    assert(size(worth(r)) <= bound) by (nonlinear_arith)
        requires
            size(worth(r) * u) <= 2 * k * (u * u) + u * u,
            bound == (2 * k + 1) * u,
            u > 0,
    ;
    (r, d)
}

proof fn lemma_cubic_far_sum(
    u: int,
    e: int,
    v: int,
    c0: int,
    c1: int,
    c2: int,
    c3: int,
    a: int,
    b: int,
    c: int,
    d: int,
    g: int,
    w: int,
    a1: int,
    b1: int,
    k1: int,
    d1: int,
    e1: int,
    f1: int,
)
    requires
        e > 0,
        u == 0x10_0000 * e,
        u <= v <= 2 * u,
        c0 == 15099495 * e,
        c1 == -30198990 * e,
        c2 == 18 * u,
        4 * c3 == -15099495 * e,
        a1 == a * u - v * c3,
        b1 == b - c2 - a,
        k1 == c * u - v * b,
        d1 == d - c1 - c,
        e1 == g * u - v * d,
        6 * w == c0 + g + f1,
        size(a1) <= 1 * (e * u),
        size(b1) <= 2 * e,
        size(k1) <= 4 * (e * u),
        size(d1) <= 6 * e,
        size(e1) <= 11 * (e * u),
        size(f1) <= 25 * e,
    ensures
        size(
            20 * w * u * u - (48 * u * u * u - 96 * u * u * v + 60 * u * v * v - 12 * v * v * v),
        ) <= 300 * e * u * u,
{
    let eu = e * u;
    let uu = u * u;
    let vv = v * v;
    assert(eu > 0 && uu > 0) by (nonlinear_arith)
        requires
            eu == e * u,
            uu == u * u,
            e > 0,
            u > 0,
    ;
    assert(0 < vv <= 4 * uu && v * u <= 2 * uu && 0 < v * u) by (nonlinear_arith)
        requires
            vv == v * v,
            uu == u * u,
            0 < v <= 2 * u,
    ;
    let n = eu * uu;
    // v B u = v u c2 + v^2 c3 + ...
    assert(b * u == c2 * u + v * c3 + a1 + b1 * u) by (nonlinear_arith)
        requires
            a1 == a * u - v * c3,
            b1 == b - c2 - a,
    ;
    assert(d * uu == c1 * uu + v * (b * u) + k1 * u + d1 * uu) by (nonlinear_arith)
        requires
            k1 == c * u - v * b,
            d1 == d - c1 - c,
            uu == u * u,
    ;
    assert(6 * w * (uu * u) == c0 * (uu * u) + v * (d * uu) + e1 * uu + f1 * (uu * u))
        by (nonlinear_arith)
        requires
            6 * w == c0 + g + f1,
            e1 == g * u - v * d,
            uu == u * u,
    ;
    let bu = b * u;
    let x1 = vv * a1;
    let x2 = vv * (b1 * u);
    let x3 = v * (k1 * u);
    let x4 = v * (d1 * uu);
    let x5 = e1 * uu;
    let x6 = f1 * (uu * u);
    assert(vv * bu == vv * (c2 * u) + vv * (v * c3) + x1 + x2) by (nonlinear_arith)
        requires
            bu == c2 * u + v * c3 + a1 + b1 * u,
            x1 == vv * a1,
            x2 == vv * (b1 * u),
    ;
    let duu = d * uu;
    assert(v * duu == v * (c1 * uu) + vv * bu + x3 + x4) by (nonlinear_arith)
        requires
            duu == c1 * uu + v * bu + k1 * u + d1 * uu,
            vv == v * v,
            x3 == v * (k1 * u),
            x4 == v * (d1 * uu),
    ;
    assert(size(x1) <= 4 * n) by (nonlinear_arith)
        requires
            x1 == vv * a1,
            0 < vv <= 4 * uu,
            -eu <= a1 <= eu,
            n == eu * uu,
            eu > 0,
    ;
    assert(size(x2) <= 8 * n) by (nonlinear_arith)
        requires
            x2 == vv * (b1 * u),
            0 < vv <= 4 * uu,
            -(2 * e) <= b1 <= 2 * e,
            n == eu * uu,
            eu == e * u,
            u > 0,
            e > 0,
    ;
    assert(size(x3) <= 8 * n) by (nonlinear_arith)
        requires
            x3 == v * (k1 * u),
            0 < v * u <= 2 * uu,
            -(4 * eu) <= k1 <= 4 * eu,
            n == eu * uu,
            eu > 0,
    ;
    assert(size(x4) <= 12 * n) by (nonlinear_arith)
        requires
            x4 == v * (d1 * uu),
            0 < v <= 2 * u,
            -(6 * e) <= d1 <= 6 * e,
            n == eu * uu,
            eu == e * u,
            uu > 0,
            e > 0,
    ;
    assert(size(x5) <= 11 * n) by (nonlinear_arith)
        requires
            x5 == e1 * uu,
            -(11 * eu) <= e1 <= 11 * eu,
            n == eu * uu,
            uu > 0,
    ;
    assert(size(x6) <= 25 * n) by (nonlinear_arith)
        requires
            x6 == f1 * (uu * u),
            -(25 * e) <= f1 <= 25 * e,
            n == eu * uu,
            eu == e * u,
            uu > 0,
            u > 0,
    ;
    // the constants
    let y0 = 40 * (c0 * (uu * u)) - 576 * (uu * uu);
    assert(y0 == 24 * n) by (nonlinear_arith)
        requires
            y0 == 40 * (c0 * (uu * u)) - 576 * (uu * uu),
            c0 == 15099495 * e,
            u == 0x10_0000 * e,
            uu == u * u,
            eu == e * u,
            n == eu * uu,
    ;
    let y1 = 40 * (v * (c1 * uu)) + 1152 * (v * u * uu);
    assert(y1 == -48 * (v * e * uu)) by (nonlinear_arith)
        requires
            y1 == 40 * (v * (c1 * uu)) + 1152 * (v * u * uu),
            c1 == -30198990 * e,
            u == 0x10_0000 * e,
    ;
    assert(0 <= v * e * uu <= 2 * n) by (nonlinear_arith)
        requires
            0 < v <= 2 * u,
            n == eu * uu,
            eu == e * u,
            uu > 0,
            e > 0,
    ;
    let y3 = 40 * (vv * (v * c3)) + 144 * (vv * (v * u));
    assert(y3 == -6 * (vv * (v * e))) by (nonlinear_arith)
        requires
            y3 == 40 * (vv * (v * c3)) + 144 * (vv * (v * u)),
            4 * c3 == -15099495 * e,
            u == 0x10_0000 * e,
    ;
    assert(0 <= vv * (v * e) <= 8 * n) by (nonlinear_arith)
        requires
            0 < vv <= 4 * uu,
            0 < v <= 2 * u,
            n == eu * uu,
            eu == e * u,
            e > 0,
    ;
    assert(40 * (vv * (c2 * u)) == 720 * (vv * uu)) by (nonlinear_arith)
        requires
            c2 == 18 * u,
            uu == u * u,
    ;
    let t = 20 * w * u * u - (48 * u * u * u - 96 * u * u * v + 60 * u * v * v - 12 * v * v * v);
    assert(t * u == 20 * w * u * u * u - 48 * u * u * u * u + 96 * u * u * v * u - 60 * u * v * v * u
        + 12 * v * v * v * u) by (nonlinear_arith)
        requires
            t == 20 * w * u * u - (48 * u * u * u - 96 * u * u * v + 60 * u * v * v - 12 * v * v * v),
    ;
    assert(12 * (20 * w * u * u * u) == 40 * (6 * w * (uu * u))) by (nonlinear_arith)
        requires
            uu == u * u,
    ;
    assert(48 * u * u * u * u == 48 * (uu * uu)) by (nonlinear_arith)
        requires
            uu == u * u,
    ;
    assert(96 * u * u * v * u == 96 * (v * u * uu)) by (nonlinear_arith)
        requires
            uu == u * u,
    ;
    assert(60 * u * v * v * u == 60 * (vv * uu)) by (nonlinear_arith)
        requires
            uu == u * u,
            vv == v * v,
    ;
    assert(12 * v * v * v * u == 12 * (vv * (v * u))) by (nonlinear_arith)
        requires
            vv == v * v,
    ;
    assert(n > 0) by (nonlinear_arith)
        requires
            n == eu * uu,
            eu > 0,
            uu > 0,
    ;
    assert(size(t * u) <= 300 * n);
    let bound = 300 * e * u * u;
    assert(300 * n == bound * u) by (nonlinear_arith)
        requires
            n == eu * uu,
            eu == e * u,
            uu == u * u,
            bound == 300 * e * u * u,
    ;
    assert(size(t) <= bound) by (nonlinear_arith)
        requires
            size(t * u) <= bound * u,
            u > 0,
    ;
}

/// Farther away it is nothing, and it looks at the two pixels on either side.
pub proof fn lemma_cubic_reach(x: F32, k: int)
    requires
        finite(x),
        -0x4000_0000 <= k <= 0x4000_0000,
    ensures
        worth(x) >= 2 * one() ==> ScaleAlgorithm::Bicubic.spec_weight(x) == (F32 { bits: 0 }),
        k * one() <= worth(x) < (k + 1) * one() ==> sampler::first_tap(ScaleAlgorithm::Bicubic, x)
            == k - 1 && ScaleAlgorithm::Bicubic.spec_taps() == 4,
{
    lemma_ones();
    lemma_cubic_numbers();
    placing::lemma_units();
    nearness::lemma_order(Format::Binary32, x.bits as u64, 0x3f80_0000);
    nearness::lemma_order(Format::Binary32, x.bits as u64, 0x4000_0000);
    if k * one() <= worth(x) < (k + 1) * one() {
        lemma_floored(x, k);
    }
}


// --- colors -----------------------------------------------------------------------------

/// A number that is off by at most `m` units becomes the pixel nearest to what is meant.
proof fn lemma_byte(v: F32, x: int, m: int)
    requires
        finite(v),
        0 <= m <= 0x4000,
        size(worth(v) - x) <= m * speck(),
        size(x) <= 0x1_0000 * one(),
    ensures
        2 * size(sampler::byte_of(v) * one() - scalefilter::between(x, 0, 255 * one())) <= one() + 2 * m
            * speck(),
{
    lemma_speck();
    placing::lemma_units();
    let (u, e) = (one(), speck());
    assert(0 <= m * e <= 0x4000 * e) by (nonlinear_arith)
        requires
            0 <= m <= 0x4000,
            e > 0,
    ;
    placing::lemma_rounded(v);
    let n = sampler::rounded(v);
    let c = sampler::byte_of(v);
    assert(2 * m * e == 2 * (m * e)) by (nonlinear_arith);
    assert(c == 0 ==> c * u == 0) by (nonlinear_arith);
    assert(c == 255 ==> c * u == 255 * u) by (nonlinear_arith);
    if n < 0 {
        assert(n * u <= -u) by (nonlinear_arith)
            requires
                n <= -1,
                u > 0,
        ;
    } else if n > 255 {
        assert(n * u >= 256 * u) by (nonlinear_arith)
            requires
                n >= 256,
                u > 0,
        ;
    } else {
        assert(0 <= n * u <= 255 * u) by (nonlinear_arith)
            requires
                0 <= n <= 255,
                u > 0,
        ;
    }
}

/// The number `g` is a gain of `k` millionths.
spec fn is_gain(g: F32, k: int) -> bool {
    &&& finite(g)
    &&& size(1000000 * worth(g) - k * one()) <= 1000000 * speck()
    &&& 0 <= k <= 3000000
}

/// What the gains of colors are, in millionths.
pub open spec fn millionths(full: bool) -> (int, int, int, int) {
    if full {
        (1402000, 344136, 714136, 1772000)
    } else {
        (1596030, 391760, 812970, 2017230)
    }
}

proof fn lemma_gains(full: bool)
    ensures
        ({
            let g = sampler::gains(full);
            let k = millionths(full);
            &&& is_gain(g.0, k.0)
            &&& is_gain(g.1, k.1)
            &&& is_gain(g.2, k.2)
            &&& is_gain(g.3, k.3)
        }),
        is_gain(F32 { bits: 0x3f95_0a85 }, 1164384),
        finite(F32 { bits: 0x4300_0000 }),
        worth(F32 { bits: 0x4300_0000 }) == 128 * one(),
        finite(F32 { bits: 0x4180_0000 }),
        worth(F32 { bits: 0x4180_0000 }) == 16 * one(),
{
    lemma_speck();
    let f = Format::Binary32;
    float::lemma_pow2_step(4071);
    float::lemma_pow2_step(4072);
    float::lemma_pow2_step(4073);
    float::lemma_pow2_step(4074);
    float::lemma_pow2_step(4075);
    float::lemma_pow2_step(4076);
    lemma_pow2_adds(4, 4076);
    lemma_pow2_adds(7, 4073);
    lemma2_to64();
    assert(nearness::mag_value(f, 0x3fb3_74bc) == 0xb3_74bc * pow2(4073)) by {
        assert(0x3fb3_74bcint / 0x80_0000 == 127 && 0x3fb3_74bcint % 0x80_0000 == 0x3374bc);
        assert(float::mag_expo(f, 0x3fb3_74bc) == -23);
        assert(float::mag_mant(f, 0x3fb3_74bc) == 0xb3_74bc);
    }
    assert(nearness::mag_value(f, 0x3eb0_3298) == 0xb0_3298 * pow2(4071)) by {
        assert(0x3eb0_3298int / 0x80_0000 == 125 && 0x3eb0_3298int % 0x80_0000 == 0x303298);
        assert(float::mag_expo(f, 0x3eb0_3298) == -25);
        assert(float::mag_mant(f, 0x3eb0_3298) == 0xb0_3298);
    }
    assert(nearness::mag_value(f, 0x3f36_d19e) == 0xb6_d19e * pow2(4072)) by {
        assert(0x3f36_d19eint / 0x80_0000 == 126 && 0x3f36_d19eint % 0x80_0000 == 0x36d19e);
        assert(float::mag_expo(f, 0x3f36_d19e) == -24);
        assert(float::mag_mant(f, 0x3f36_d19e) == 0xb6_d19e);
    }
    assert(nearness::mag_value(f, 0x3fe2_d0e5) == 0xe2_d0e5 * pow2(4073)) by {
        assert(0x3fe2_d0e5int / 0x80_0000 == 127 && 0x3fe2_d0e5int % 0x80_0000 == 0x62d0e5);
        assert(float::mag_expo(f, 0x3fe2_d0e5) == -23);
        assert(float::mag_mant(f, 0x3fe2_d0e5) == 0xe2_d0e5);
    }
    assert(nearness::mag_value(f, 0x3fcc_4ab6) == 0xcc_4ab6 * pow2(4073)) by {
        assert(0x3fcc_4ab6int / 0x80_0000 == 127 && 0x3fcc_4ab6int % 0x80_0000 == 0x4c4ab6);
        assert(float::mag_expo(f, 0x3fcc_4ab6) == -23);
        assert(float::mag_mant(f, 0x3fcc_4ab6) == 0xcc_4ab6);
    }
    assert(nearness::mag_value(f, 0x3ec8_94c4) == 0xc8_94c4 * pow2(4071)) by {
        assert(0x3ec8_94c4int / 0x80_0000 == 125 && 0x3ec8_94c4int % 0x80_0000 == 0x4894c4);
        assert(float::mag_expo(f, 0x3ec8_94c4) == -25);
        assert(float::mag_mant(f, 0x3ec8_94c4) == 0xc8_94c4);
    }
    assert(nearness::mag_value(f, 0x3f50_1ecd) == 0xd0_1ecd * pow2(4072)) by {
        assert(0x3f50_1ecdint / 0x80_0000 == 126 && 0x3f50_1ecdint % 0x80_0000 == 0x501ecd);
        assert(float::mag_expo(f, 0x3f50_1ecd) == -24);
        assert(float::mag_mant(f, 0x3f50_1ecd) == 0xd0_1ecd);
    }
    assert(nearness::mag_value(f, 0x4001_1a4c) == 0x81_1a4c * pow2(4074)) by {
        assert(0x4001_1a4cint / 0x80_0000 == 128 && 0x4001_1a4cint % 0x80_0000 == 0x11a4c);
        assert(float::mag_expo(f, 0x4001_1a4c) == -22);
        assert(float::mag_mant(f, 0x4001_1a4c) == 0x81_1a4c);
    }
    assert(nearness::mag_value(f, 0x3f95_0a85) == 0x95_0a85 * pow2(4073)) by {
        assert(0x3f95_0a85int / 0x80_0000 == 127 && 0x3f95_0a85int % 0x80_0000 == 0x150a85);
        assert(float::mag_expo(f, 0x3f95_0a85) == -23);
        assert(float::mag_mant(f, 0x3f95_0a85) == 0x95_0a85);
    }
    assert(nearness::mag_value(f, 0x4300_0000) == 0x80_0000 * pow2(4080)) by {
        assert(0x4300_0000int / 0x80_0000 == 134 && 0x4300_0000int % 0x80_0000 == 0x0);
        assert(float::mag_expo(f, 0x4300_0000) == -16);
        assert(float::mag_mant(f, 0x4300_0000) == 0x80_0000);
    }
    assert(nearness::mag_value(f, 0x4180_0000) == 0x80_0000 * pow2(4077)) by {
        assert(0x4180_0000int / 0x80_0000 == 131 && 0x4180_0000int % 0x80_0000 == 0x0);
        assert(float::mag_expo(f, 0x4180_0000) == -19);
        assert(float::mag_mant(f, 0x4180_0000) == 0x80_0000);
    }
}

/// A chroma difference times its gain.
proof fn lemma_tinted(g: F32, k: int, v: F32, x: int)
    requires
        is_gain(g, k),
        finite(v),
        size(x) <= 128 * one(),
        size(worth(v) - x) <= 17 * speck(),
    ensures
        finite(g.s_times(v)),
        size(1000000 * worth(g.s_times(v)) - k * x) <= 1000000 * (300 * speck()),
        size(worth(g.s_times(v))) <= 400 * one(),
{
    lemma_speck();
    let (u, e) = (one(), speck());
    let (a, b) = (worth(g), worth(v));
    assert(0 <= k * u <= 3000000 * u) by (nonlinear_arith)
        requires
            0 <= k <= 3000000,
            u > 0,
    ;
    assert(size(a) <= 4 * u);
    assert(size(a * b) <= 520 * (u * u) && 520 * u * u == 520 * (u * u)) by (nonlinear_arith)
        requires
            -4 * u <= a <= 4 * u,
            -130 * u <= b <= 130 * u,
            u > 0,
    ;
    lemma_times_within(g, v, 520);
    let r = worth(g.s_times(v));
    let d = r * u - a * b;
    assert((520 + 1) * e * u == 521 * (e * u)) by (nonlinear_arith);
    assert(e * u > 0) by (nonlinear_arith)
        requires
            e > 0,
            u > 0,
    ;
    assert(size(d) <= 33 * (e * u));
    let a1 = 1000000 * a - k * u;
    let b1 = b - x;
    assert(1000000 * (a * b) == k * u * x + a1 * x + 1000000 * (a * b1)) by (nonlinear_arith)
        requires
            a1 == 1000000 * a - k * u,
            b1 == b - x,
    ;
    assert(size(a1 * x) <= 128000000 * (e * u)) by (nonlinear_arith)
        requires
            -1000000 * e <= a1 <= 1000000 * e,
            -128 * u <= x <= 128 * u,
            e > 0,
            u > 0,
    ;
    assert(size(a * b1) <= 68 * (e * u)) by (nonlinear_arith)
        requires
            -4 * u <= a <= 4 * u,
            -17 * e <= b1 <= 17 * e,
            e > 0,
            u > 0,
    ;
    let t = 1000000 * r - k * x;
    assert(t * u == 1000000 * (r * u) - k * u * x) by (nonlinear_arith)
        requires
            t == 1000000 * r - k * x,
    ;
    assert(size(t * u) <= 300000000 * (e * u));
    assert(300000000 * (e * u) == 300000000 * e * u) by (nonlinear_arith);
    assert(size(t) <= 300000000 * e) by (nonlinear_arith)
        requires
            size(t * u) <= 300000000 * e * u,
            u > 0,
    ;
    assert(e * u * 0x10_0000 == u * u) by (nonlinear_arith)
        requires
            u == 0x10_0000 * e,
    ;
    assert(size(k * x) <= 384000000 * u) by (nonlinear_arith)
        requires
            0 <= k <= 3000000,
            -128 * u <= x <= 128 * u,
            u > 0,
    ;
}

/// How bright a luma is, in millionths of a unit.
pub open spec fn bright(y: int, full: bool) -> int {
    if full {
        1000000 * y
    } else {
        1164384 * (y - 16 * one())
    }
}

proof fn lemma_bright(y: F32, full: bool)
    requires
        finite(y),
        0 <= worth(y) <= 255 * one(),
    ensures
        finite(sampler::brightness(y, full)),
        size(1000000 * worth(sampler::brightness(y, full)) - bright(worth(y), full)) <= 1000000 * (600
            * speck()),
        size(worth(sampler::brightness(y, full))) <= 400 * one(),
{
    lemma_speck();
    lemma_gains(full);
    if !full {
        let k = F32 { bits: 0x3f95_0a85 };
        let c = F32 { bits: 0x4180_0000 };
        lemma_minus_within(y, c, 256);
        let d = y.s_minus(c);
        let x = worth(y) - 16 * one();
        lemma_lit(k, d, x);
    }
}

proof fn lemma_lit(g: F32, v: F32, x: int)
    requires
        is_gain(g, 1164384),
        finite(v),
        size(x) <= 255 * one(),
        size(worth(v) - x) <= 17 * speck(),
    ensures
        finite(v.s_times(g)),
        size(1000000 * worth(v.s_times(g)) - 1164384 * x) <= 1000000 * (600 * speck()),
        size(worth(v.s_times(g))) <= 400 * one(),
{
    lemma_speck();
    let (u, e) = (one(), speck());
    let (a, b) = (worth(g), worth(v));
    assert(size(a) <= 2 * u);
    assert(size(b * a) <= 520 * (u * u) && 520 * u * u == 520 * (u * u)) by (nonlinear_arith)
        requires
            -2 * u <= a <= 2 * u,
            -256 * u <= b <= 256 * u,
            u > 0,
    ;
    lemma_times_within(v, g, 520);
    let r = worth(v.s_times(g));
    let d = r * u - b * a;
    assert((520 + 1) * e * u == 521 * (e * u)) by (nonlinear_arith);
    assert(e * u > 0) by (nonlinear_arith)
        requires
            e > 0,
            u > 0,
    ;
    assert(size(d) <= 33 * (e * u));
    let a1 = 1000000 * a - 1164384 * u;
    let b1 = b - x;
    assert(1000000 * (b * a) == 1164384 * (u * x) + a1 * x + 1000000 * (a * b1)) by (nonlinear_arith)
        requires
            a1 == 1000000 * a - 1164384 * u,
            b1 == b - x,
    ;
    assert(size(a1 * x) <= 255000000 * (e * u)) by (nonlinear_arith)
        requires
            -1000000 * e <= a1 <= 1000000 * e,
            -255 * u <= x <= 255 * u,
            e > 0,
            u > 0,
    ;
    assert(size(a * b1) <= 34 * (e * u)) by (nonlinear_arith)
        requires
            -2 * u <= a <= 2 * u,
            -17 * e <= b1 <= 17 * e,
            e > 0,
            u > 0,
    ;
    let t = 1000000 * r - 1164384 * x;
    assert(t * u == 1000000 * (r * u) - 1164384 * (u * x)) by (nonlinear_arith)
        requires
            t == 1000000 * r - 1164384 * x,
    ;
    assert(size(t * u) <= 600000000 * (e * u));
    assert(600000000 * (e * u) == 600000000 * e * u) by (nonlinear_arith);
    assert(size(t) <= 600000000 * e) by (nonlinear_arith)
        requires
            size(t * u) <= 600000000 * e * u,
            u > 0,
    ;
}

/// The step of color `c` is the one nearest to `x` millionths of a unit, or the last
/// one on that side.
pub open spec fn shown(c: int, x: int) -> bool {
    size(1000000 * (c * one()) - scalefilter::between(x, 0, 255000000 * one())) <= 510000 * one()
}

proof fn lemma_shown(v: F32, x: int)
    requires
        finite(v),
        size(1000000 * worth(v) - x) <= 1000000 * (2000 * speck()),
        size(worth(v)) <= 2000 * one(),
    ensures
        shown(sampler::byte_of(v), x),
{
    lemma_speck();
    let (u, e) = (one(), speck());
    lemma_byte(v, worth(v), 0);
    assert(2 * 0 * e == 0) by (nonlinear_arith);
    assert(0 * e == 0) by (nonlinear_arith);
    let c = sampler::byte_of(v);
    assert(size(1000000 * scalefilter::between(worth(v), 0, 255 * u) - scalefilter::between(
        x,
        0,
        255000000 * u,
    )) <= 2000000000 * e);
}

/// Red, green and blue after ITU-R BT.601: brightness, and the chroma differences times
/// their gains, to the nearest step.
pub proof fn lemma_colors(y: F32, cb: F32, cr: F32, full: bool)
    requires
        finite(y),
        finite(cb),
        finite(cr),
        0 <= worth(y) <= 255 * one(),
        0 <= worth(cb) <= 255 * one(),
        0 <= worth(cr) <= 255 * one(),
    ensures
        ({
            let (r, g, b) = sampler::color(y, cb, cr, full);
            let (rv, gu, gv, bu) = millionths(full);
            let l = bright(worth(y), full);
            let (u, v) = (worth(cb) - 128 * one(), worth(cr) - 128 * one());
            &&& shown(r, l + rv * v)
            &&& shown(g, l - gu * u - gv * v)
            &&& shown(b, l + bu * u)
        }),
        ({
            let (r, g, b) = sampler::gray(y, full);
            &&& r == g == b
            &&& shown(r, bright(worth(y), full))
        }),
{
    lemma_speck();
    lemma_gains(full);
    lemma_bright(y, full);
    let mid = F32 { bits: 0x4300_0000 };
    lemma_minus_within(cb, mid, 256);
    lemma_minus_within(cr, mid, 256);
    let (fu, fv) = (cb.s_minus(mid), cr.s_minus(mid));
    let (u, v) = (worth(cb) - 128 * one(), worth(cr) - 128 * one());
    let (rv, gu, gv, bu) = sampler::gains(full);
    let (kr, kgu, kgv, kb) = millionths(full);
    lemma_tinted(rv, kr, fv, v);
    lemma_tinted(gu, kgu, fu, u);
    lemma_tinted(gv, kgv, fv, v);
    lemma_tinted(bu, kb, fu, u);
    let b = sampler::brightness(y, full);
    let l = bright(worth(y), full);
    lemma_warmer(b, rv.s_times(fv), l, kr * v);
    lemma_warmer(b, bu.s_times(fu), l, kb * u);
    lemma_cooler(b, gu.s_times(fu), gv.s_times(fv), l, kgu * u, kgv * v);
    lemma_shown(b, l);
}

proof fn lemma_warmer(b: F32, t: F32, l: int, x: int)
    requires
        finite(b),
        finite(t),
        size(worth(b)) <= 400 * one(),
        size(worth(t)) <= 400 * one(),
        size(1000000 * worth(b) - l) <= 1000000 * (600 * speck()),
        size(1000000 * worth(t) - x) <= 1000000 * (300 * speck()),
    ensures
        shown(sampler::byte_of(b.s_plus(t)), l + x),
{
    lemma_speck();
    lemma_plus_within(b, t, 800);
    lemma_shown(b.s_plus(t), l + x);
}

proof fn lemma_cooler(b: F32, t: F32, s: F32, l: int, x: int, y: int)
    requires
        finite(b),
        finite(t),
        finite(s),
        size(worth(b)) <= 400 * one(),
        size(worth(t)) <= 400 * one(),
        size(worth(s)) <= 400 * one(),
        size(1000000 * worth(b) - l) <= 1000000 * (600 * speck()),
        size(1000000 * worth(t) - x) <= 1000000 * (300 * speck()),
        size(1000000 * worth(s) - y) <= 1000000 * (300 * speck()),
    ensures
        shown(sampler::byte_of(b.s_minus(t).s_minus(s)), l - x - y),
{
    lemma_speck();
    lemma_minus_within(b, t, 800);
    let g = b.s_minus(t);
    lemma_minus_within(g, s, 1300);
    lemma_shown(g.s_minus(s), l - x - y);
}

} // verus!
