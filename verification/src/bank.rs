//! What the filters of a resampler are: where their taps lie, and what they make of
//! a sound.
use crate::arith;
use crate::arith::Arith;
use crate::float;
use crate::float::{Format, ToInt, F32, F64};
use crate::loudness;
use crate::mathematics;
use crate::nearness;
use crate::placing;
use crate::resample;
use crate::resample::{FilterShape, ResampleContext};
use crate::samplefmt::SampleFormat;
use vstd::arithmetic::div_mod::*;
use vstd::arithmetic::power2::*;
use vstd::prelude::*;

verus! {

// --- where taps lie ---------------------------------------------------------------------

/// Where tap `i` of phase `ph` lies from the middle of the filter, of which `pc` are
/// an input sample.
pub open spec fn tap_place(tc: int, pc: int, ph: int, i: int) -> int {
    (i - (tc - 1) / 2) * pc - ph
}

/// The same for value `t` of a table, which lists its values phase by phase.
pub open spec fn value_place(tc: int, pc: int, t: int) -> int {
    tap_place(tc, pc, t / tc, t % tc)
}

proof fn lemma_listed_at(tc: int, pc: int, ph: int, i: int)
    requires
        1 <= tc,
        0 <= i < tc,
    ensures
        (ph * tc + i) / tc == ph,
        (ph * tc + i) % tc == i,
{
    lemma_fundamental_div_mod_converse(ph * tc + i, tc, ph, i);
}

/// With an even number of phases the filter of a phase is that of the opposite phase
/// in reverse.
pub proof fn lemma_bank_mirrored(
    bank: Seq<i128>,
    f: SampleFormat,
    taps: Seq<F64>,
    tc: int,
    alloc: int,
    pc: int,
    ph: int,
    i: int,
)
    requires
        resample::bank_of(bank, f, taps, tc, alloc, pc),
        1 <= tc <= alloc,
        pc % 2 == 0,
        0 < ph < pc,
        0 <= i < tc,
    ensures
        bank[(pc - ph) * alloc + i] == bank[ph * alloc + (tc - 1 - i)],
{
    let j = tc - 1 - i;
    assert(resample::row_entry(bank, alloc, pc - ph, i) == resample::bank_entry(
        f,
        taps,
        tc,
        alloc,
        pc,
        pc - ph,
        i,
    ));
    assert(resample::row_entry(bank, alloc, ph, j) == resample::bank_entry(
        f,
        taps,
        tc,
        alloc,
        pc,
        ph,
        j,
    ));
    assert(pc - (pc - ph) == ph);
    assert(tc - 1 - j == i);
}

/// Every tap of a bank, also of the phases that the table leaves out and of the row
/// behind the last phase, is the value of the table that lies as far from the middle
/// of the filter as the tap does.
pub proof fn lemma_bank_placed(
    bank: Seq<i128>,
    f: SampleFormat,
    taps: Seq<F64>,
    tc: int,
    alloc: int,
    pc: int,
    ph: int,
    i: int,
) -> (t: int)
    requires
        resample::bank_of(bank, f, taps, tc, alloc, pc),
        1 <= tc <= alloc,
        1 <= pc,
        taps.len() == resample::listed(pc) * tc,
        tc % 2 == 0 || pc % 2 == 1,
        0 <= ph <= pc,
        0 <= i < tc,
        ph == pc ==> i > 0,
    ensures
        0 <= t < taps.len(),
        value_place(tc, pc, t) == tap_place(tc, pc, ph, i) || value_place(tc, pc, t) == -tap_place(
            tc,
            pc,
            ph,
            i,
        ),
        bank[ph * alloc + i] == resample::coefficient(f, taps[t], resample::gain_sum(taps, tc as nat)),
{
    assert(resample::row_entry(bank, alloc, ph, i) == resample::bank_entry(
        f,
        taps,
        tc,
        alloc,
        pc,
        ph,
        i,
    ));
    let (p, k) = if ph < pc {
        (ph, i)
    } else {
        (0, i - 1)
    };
    let t = resample::listing(tc, pc, p, k);
    let c = (tc - 1) / 2;
    assert((k - c) * pc - p == (i - c) * pc - ph) by (nonlinear_arith)
        requires
            ph < pc ==> p == ph && k == i,
            ph >= pc ==> p == 0 && k == i - 1 && ph == pc,
    ;
    resample::lemma_listing(tc, pc, p, k);
    if pc % 2 == 0 && (2 * p > pc || (2 * p == pc && 2 * k >= tc)) {
        lemma_listed_at(tc, pc, pc - p, tc - 1 - k);
        assert((tc - 1 - k - c) * pc - (pc - p) == -((k - c) * pc - p)) by (nonlinear_arith)
            requires
                2 * c == tc - 2,
        ;
    } else {
        lemma_listed_at(tc, pc, p, k);
    }
    t
}

/// The values of a table are those of the filter at their places: value `t` is taken
/// at the place of its tap, but for rounding.
pub proof fn lemma_offset_placed(shape: FilterShape, t: int)
    requires
        shape.listable(),
        0 <= t < shape.values(),
    ensures
        nearness::finite(Format::Binary64, shape.offset(t).bits),
        ({
            let (tc, pc) = (shape.tap_count as int, shape.phase_count as int);
            let x = nearness::value(Format::Binary64, shape.offset(t).bits);
            nearness::size(x * pc - value_place(tc, pc, t) * nearness::one()) * 0x2_0000_0000_0000
                <= tc * pc * nearness::one()
        }),
{
    let f = Format::Binary64;
    let (tc, pc) = (shape.tap_count as int, shape.phase_count as int);
    let u = nearness::one();
    let tiny = pow2(3074) as int;
    assert(f.floor_exp() + f.p() - 1 == 3074);
    lemma2_to64();
    lemma2_to64_rest();
    lemma_pow2_adds(3074, 64);
    lemma_pow2_pos(3074);
    lemma_pow2_strictly_increases(3138, 4096);
    lemma_pow2_adds(4096, 64);
    lemma_pow2_strictly_increases(4160, 4196);
    let top = pow2(4196) as int;
    assert(tiny * 0x1_0000_0000_0000_0000 < u && u * 0x1_0000_0000_0000_0000 < top && tiny > 0);
    let (i, ph) = (t % tc, t / tc);
    let c = shape.center();
    lemma_mod_bound(t, tc);
    lemma_fundamental_div_mod(t, tc);
    lemma_div_pos_is_pos(t, tc);
    let n = resample::listed(pc);
    assert(ph < n) by (nonlinear_arith)
        requires
            tc * ph <= t,
            t < n * tc,
            tc >= 1,
    ;
    assert(ph <= pc);
    nearness::lemma_integer(f, i);
    nearness::lemma_integer(f, c);
    nearness::lemma_integer(f, ph);
    nearness::lemma_integer(f, pc);
    let k = i - c;
    assert(nearness::size(k) <= tc);
    // the tap
    let fc = F64::s_from_int(c);
    nearness::lemma_opposite(f, fc.bits);
    assert(i * u - c * u == k * u) by (nonlinear_arith)
        requires
            k == i - c,
    ;
    assert(nearness::size(k * u) <= tc * u && tc * u <= 0x8000_0000 * u && tc * u >= u)
        by (nonlinear_arith)
        requires
            -tc <= k <= tc,
            1 <= tc <= 0x8000_0000,
            u > 0,
    ;
    nearness::lemma_sum(f, F64::s_from_int(i).bits, fc.s_neg().bits);
    let fa = F64::s_from_int(i).s_minus(fc);
    let a = nearness::value(f, fa.bits);
    assert(a * 1 == a && 1 * tiny == tiny);
    let w = 0x20_0000_0000_0000int;
    assert(pow2(53) == w);
    assert(nearness::size(a - k * u) * w <= 2 * (tc * u));
    // the phase
    assert(0 <= ph * u <= pc * u && pc * u >= u && pc * u <= 0x8000_0000 * u) by (nonlinear_arith)
        requires
            0 <= ph <= pc,
            1 <= pc <= 0x8000_0000,
            u > 0,
    ;
    assert(ph * u * u < pc * u * top) by (nonlinear_arith)
        requires
            0 <= ph * u <= pc * u,
            pc * u > 0,
            0 < u < top,
    ;
    nearness::lemma_quotient(f, F64::s_from_int(ph).bits, F64::s_from_int(pc).bits);
    let fb = F64::s_from_int(ph).s_over(F64::s_from_int(pc));
    let b = nearness::value(f, fb.bits);
    nearness::lemma_near_scaled(f, b, ph * u, pc, u);
    let e2 = nearness::size(b * pc - ph * u);
    assert(pc * tiny <= u) by (nonlinear_arith)
        requires
            1 <= pc <= 0x8000_0000,
            tiny * 0x1_0000_0000_0000_0000 < u,
            tiny > 0,
    ;
    assert(e2 * w <= 2 * (pc * u));
    assert(-u <= b <= 2 * u) by (nonlinear_arith)
        requires
            e2 == nearness::size(b * pc - ph * u),
            e2 <= pc * u,
            0 <= ph * u <= pc * u,
            pc >= 1,
            u > 0,
    ;
    // their distance
    nearness::lemma_opposite(f, fb.bits);
    nearness::lemma_sum(f, fa.bits, fb.s_neg().bits);
    let x = nearness::value(f, shape.offset(t).bits);
    assert(x * 1 == x);
    let e3 = nearness::size(x - (a - b));
    assert(e3 * w <= 6 * (tc * u));
    let e1 = nearness::size(a - k * u);
    let full = tc * pc * u;
    let d = x * pc - value_place(tc, pc, t) * u;
    let (d1, d3) = (a - k * u, x - (a - b));
    let d2 = b * pc - ph * u;
    assert(d == d3 * pc + d1 * pc - d2) by (nonlinear_arith)
        requires
            d == x * pc - (k * pc - ph) * u,
            d1 == a - k * u,
            d3 == x - (a - b),
            d2 == b * pc - ph * u,
    ;
    assert(nearness::size(d3 * pc) * w <= 6 * full) by (nonlinear_arith)
        requires
            nearness::size(d3) * w <= 6 * (tc * u),
            full == tc * pc * u,
            pc >= 1,
            w > 0,
    ;
    assert(nearness::size(d1 * pc) * w <= 2 * full) by (nonlinear_arith)
        requires
            nearness::size(d1) * w <= 2 * (tc * u),
            full == tc * pc * u,
            pc >= 1,
            w > 0,
    ;
    assert(pc * u <= full) by (nonlinear_arith)
        requires
            full == tc * pc * u,
            tc >= 1,
            pc * u > 0,
    ;
    assert(nearness::size(d) * w <= 10 * full);
}

// --- how long a filter is -------------------------------------------------------------

/// The cutoff of a filter is that of the slower of the two rates: the wanted part of
/// half the output rate, over the input rate, and no more than all of it.
pub proof fn lemma_low_pass(out_rate: int, in_rate: int, cutoff: F64) -> (q: int)
    requires
        1 <= out_rate < 0x8000_0000,
        1 <= in_rate < 0x8000_0000,
        loudness::finite(cutoff),
        nearness::one() <= 0x10_0000 * loudness::worth(cutoff),
        loudness::worth(cutoff) <= nearness::one(),
    ensures
        nearness::size(q * in_rate - out_rate * loudness::worth(cutoff)) * 0x4_0000_0000_0000
            <= out_rate * loudness::worth(cutoff),
        loudness::finite(resample::low_pass(out_rate, in_rate, cutoff)),
        loudness::worth(resample::low_pass(out_rate, in_rate, cutoff)) == if q < nearness::one() {
            q
        } else {
            nearness::one()
        },
{
    let f = Format::Binary64;
    loudness::lemma_tiny();
    let u = nearness::one();
    let t = loudness::tiny(f);
    let top = pow2(4196) as int;
    let w = 0x20_0000_0000_0000int;
    let c = loudness::worth(cutoff);
    nearness::lemma_zero(f);
    nearness::lemma_integer(f, 0);
    nearness::lemma_order(f, cutoff.bits, 0);
    assert(!cutoff.s_same(F64 { bits: 0 })) by {
        assert(0 * u == 0);
    }
    nearness::lemma_integer(f, out_rate);
    nearness::lemma_integer(f, in_rate);
    let (fo, fi) = (F64::s_from_int(out_rate), F64::s_from_int(in_rate));
    let n = out_rate * c;
    assert(out_rate * u * c == n * u) by (nonlinear_arith)
        requires
            n == out_rate * c,
    ;
    assert(c <= n <= 0x8000_0000 * u) by (nonlinear_arith)
        requires
            n == out_rate * c,
            1 <= out_rate <= 0x8000_0000,
            0 < c <= u,
    ;
    assert(n * u < u * top) by (nonlinear_arith)
        requires
            n <= 0x8000_0000 * u,
            u * 0x1_0000_0000_0000_0000 < top,
            u > 0,
    ;
    assert(n * u >= 0) by (nonlinear_arith)
        requires
            n >= 0,
            u > 0,
    ;
    nearness::lemma_product(f, fo.bits, cutoff.bits);
    let fp = fo.s_times(cutoff);
    let p = loudness::worth(fp);
    nearness::lemma_near_scaled(f, p, n, 1, u);
    assert(1 * u == u && p * 1 == p && 1 * t == t);
    assert(nearness::size(p - n) * w <= 2 * n);
    assert(0 < p <= 2 * n);
    let iu = in_rate * u;
    assert(u <= iu) by (nonlinear_arith)
        requires
            iu == in_rate * u,
            in_rate >= 1,
            u > 0,
    ;
    assert(p * u < iu * top) by (nonlinear_arith)
        requires
            0 < p <= 0x1_0000_0000 * u,
            u <= iu,
            u * 0x1_0000_0000_0000_0000 < top,
            u > 0,
    ;
    nearness::lemma_quotient(f, fp.bits, fi.bits);
    let fq = fp.s_over(fi);
    let q = loudness::worth(fq);
    nearness::lemma_near_scaled(f, q, p, in_rate, u);
    assert(in_rate * t <= p) by (nonlinear_arith)
        requires
            1 <= in_rate < 0x8000_0000,
            0 < t,
            t * 0x1_0000_0000_0000_0000 < u,
            u <= 0x10_0000 * c,
            c <= 2 * p,
    ;
    assert(nearness::size(q * in_rate - p) * w <= 2 * p);
    assert(nearness::size(q * in_rate - n) * w <= 8 * n);
    // no more than one
    lemma_unit_worth();
    nearness::lemma_order(f, resample::ONE, fq.bits);
    q
}

/// A filter has as many taps as its size, stretched by its cutoff, asks for: an even
/// number, less than two more than that, or one.
pub proof fn lemma_taps_span(filter_size: int, factor: F64)
    requires
        1 <= filter_size <= 0x400,
        loudness::finite(factor),
        nearness::one() <= 0x10_0000 * loudness::worth(factor),
        loudness::worth(factor) <= nearness::one(),
    ensures
        ({
            let n = resample::taps_for(filter_size, factor);
            let x = loudness::worth(factor);
            let u = nearness::one();
            &&& n == 1 || n % 2 == 0
            &&& n >= 1
            &&& n * x * 0x1_0000_0000 >= filter_size * u * 0xffff_ffff
            &&& n > 1 ==> (n - 2) * x * 0x1_0000_0000 <= filter_size * u * 0x1_0000_0001
        }),
{
    let f = Format::Binary64;
    loudness::lemma_tiny();
    let u = nearness::one();
    let t = loudness::tiny(f);
    let top = pow2(4196) as int;
    let x = loudness::worth(factor);
    nearness::lemma_integer(f, filter_size);
    let fs = F64::s_from_int(filter_size);
    let s = filter_size * u;
    assert(u <= s <= 0x400 * u) by (nonlinear_arith)
        requires
            s == filter_size * u,
            1 <= filter_size <= 0x400,
            u > 0,
    ;
    assert(s * u < x * top) by (nonlinear_arith)
        requires
            0 < s <= 0x10_0000 * u,
            u <= 0x10_0000 * x,
            u * 0x1_0000_0000_0000_0000 < top,
            u > 0,
    ;
    nearness::lemma_quotient(f, fs.bits, factor.bits);
    let fw = fs.s_over(factor);
    let w = loudness::worth(fw);
    let e = w * x - s * u;
    assert(x * t <= s * u) by (nonlinear_arith)
        requires
            0 < x <= u,
            0 < t <= u,
            u <= s,
    ;
    assert(s * u > 0) by (nonlinear_arith)
        requires
            s > 0,
            u > 0,
    ;
    assert(nearness::size(e) * 0x20_0000_0000_0000 <= 2 * (s * u));
    assert(0 <= w <= 0x6000_0000 * u) by (nonlinear_arith)
        requires
            0 < 2 * (w * x) <= 3 * (s * u),
            s <= 0x400 * u,
            u <= 0x10_0000 * x,
            x > 0,
            u > 0,
    ;
    nearness::lemma_to_ceil(f, fw.bits);
    let c = float::to_int(f, ToInt::Ceil, fw.bits, 0);
    let m = fw.s_to_i32(ToInt::Ceil);
    let n = resample::taps_for(filter_size, factor);
    assert(c >= 1) by (nonlinear_arith)
        requires
            w <= c * u,
            w * x > 0,
            x > 0,
            u > 0,
    ;
    assert(c <= 0x6000_0001) by (nonlinear_arith)
        requires
            (c - 1) * u < w,
            w <= 0x6000_0000 * u,
            u > 0,
    ;
    assert(m == c);
    assert(n >= c && (n > 1 ==> n - 2 <= c - 1));
    assert(n * u >= w) by (nonlinear_arith)
        requires
            n >= c,
            w <= c * u,
            u > 0,
    ;
    assert(n * x * u >= s * u + e) by (nonlinear_arith)
        requires
            n * u >= w,
            e == w * x - s * u,
            x > 0,
    ;
    let a = n * x - s;
    assert(a * u == n * x * u - s * u) by (nonlinear_arith)
        requires
            a == n * x - s,
    ;
    let su = s * u;
    assert(a * 0x1_0000_0000 >= -s) by (nonlinear_arith)
        requires
            a * u * 0x1_0000_0000 >= -su,
            su == s * u,
            u > 0,
    ;
    if n > 1 {
        assert((n - 2) * u <= w) by (nonlinear_arith)
            requires
                n - 2 <= c - 1,
                (c - 1) * u < w,
                u > 0,
        ;
        assert((n - 2) * x * u <= s * u + e) by (nonlinear_arith)
            requires
                (n - 2) * u <= w,
                e == w * x - s * u,
                x > 0,
        ;
        let b = (n - 2) * x - s;
        assert(b * u == (n - 2) * x * u - s * u) by (nonlinear_arith)
            requires
                b == (n - 2) * x - s,
        ;
        assert(b * 0x1_0000_0000 <= s) by (nonlinear_arith)
            requires
                b * u * 0x1_0000_0000 <= su,
                su == s * u,
                u > 0,
        ;
    }
}

/// The coefficients of the first phase, added up.
pub open spec fn coefficient_sum(taps: Seq<F64>, norm: F64, n: nat) -> int
    decreases n,
{
    if n == 0 {
        0
    } else {
        coefficient_sum(taps, norm, (n - 1) as nat) + resample::coefficient(
            SampleFormat::S16p,
            taps[n - 1],
            norm,
        )
    }
}

spec fn value_sum(taps: Seq<F64>, n: nat) -> int
    decreases n,
{
    if n == 0 {
        0
    } else {
        value_sum(taps, (n - 1) as nat) + loudness::worth(taps[n - 1])
    }
}

/// The first values of a table are numbers of at most `m`.
spec fn modest(taps: Seq<F64>, n: int, m: int) -> bool {
    forall|k: int|
        0 <= k < n ==> loudness::finite(#[trigger] taps[k]) && nearness::size(
            loudness::worth(taps[k]),
        ) <= m
}

proof fn lemma_sum_of_values(taps: Seq<F64>, n: int, m: int)
    requires
        0 <= n <= 1024,
        modest(taps, n, m),
        nearness::one() <= 0x10_0000 * m,
        m <= 0x10_0000 * nearness::one(),
    ensures
        ({
            let g = resample::gain_sum(taps, n as nat);
            &&& loudness::finite(g)
            &&& nearness::size(loudness::worth(g)) <= 2 * (n * m)
            &&& nearness::size(loudness::worth(g) - value_sum(taps, n as nat)) * 0x400_0000_0000 <= n
                * m
        }),
    decreases n,
{
    let f = Format::Binary64;
    loudness::lemma_tiny();
    nearness::lemma_nothing(f);
    let u = nearness::one();
    if n > 0 {
        lemma_sum_of_values(taps, n - 1, m);
        assert((n - 1) * m == n * m - m && n * m <= 1024 * m) by (nonlinear_arith)
            requires
                n <= 1024,
                m > 0,
        ;
        let g = resample::gain_sum(taps, (n - 1) as nat);
        let y = taps[n - 1];
        nearness::lemma_sum(f, g.bits, y.bits);
        let r = loudness::worth(g.s_plus(y));
        let t = loudness::tiny(f);
        assert(r * 1 == r && 1 * t == t);
    } else {
        assert(n * m == 0) by (nonlinear_arith)
            requires
                n == 0,
        ;
    }
}

proof fn lemma_sum_of_coefficients(taps: Seq<F64>, norm: F64, n: int)
    requires
        0 <= n <= 1024,
        loudness::finite(norm),
        modest(taps, n, loudness::worth(norm)),
        nearness::one() <= 0x10_0000 * loudness::worth(norm),
        loudness::worth(norm) <= 0x10_0000 * nearness::one(),
    ensures
        100 * nearness::size(
            coefficient_sum(taps, norm, n as nat) * loudness::worth(norm) - 32768 * value_sum(
                taps,
                n as nat,
            ),
        ) <= 155 * (n * loudness::worth(norm)),
    decreases n,
{
    let d = loudness::worth(norm);
    loudness::lemma_tiny();
    if n > 0 {
        lemma_sum_of_coefficients(taps, norm, n - 1);
        let t = loudness::lemma_coefficient(taps[n - 1], norm);
        let c = resample::coefficient(SampleFormat::S16p, taps[n - 1], norm);
        let y = loudness::worth(taps[n - 1]);
        assert(-32769 <= t <= 32769) by (nonlinear_arith)
            requires
                100 * nearness::size(t * d - 32768 * y) <= 54 * d,
                -d <= y <= d,
                d > 0,
        ;
        assert(nearness::size(c * d - t * d) <= d) by (nonlinear_arith)
            requires
                -1 <= c - t <= 1,
                d > 0,
        ;
        let s = coefficient_sum(taps, norm, (n - 1) as nat);
        assert((s + c) * d == s * d + c * d) by (nonlinear_arith);
        assert((n - 1) * d == n * d - d) by (nonlinear_arith);
    } else {
        assert(n * d == 0) by (nonlinear_arith)
            requires
                n == 0,
        ;
        assert(0 * d == 0) by (nonlinear_arith);
    }
}

/// A filter keeps the level of a constant sound: the coefficients of its first phase
/// add up to one in the units of the format, to within what each of them is rounded by.
pub proof fn lemma_level_kept(taps: Seq<F64>, tc: int)
    requires
        1 <= tc <= 1024,
        tc <= taps.len(),
        ({
            let g = loudness::worth(resample::gain_sum(taps, tc as nat));
            &&& nearness::one() <= 0x10_0000 * g
            &&& g <= 0x10_0000 * nearness::one()
            &&& forall|k: int|
                0 <= k < tc ==> loudness::finite(#[trigger] taps[k]) && nearness::size(
                    loudness::worth(taps[k]),
                ) <= g
        }),
    ensures
        100 * nearness::size(
            coefficient_sum(taps, resample::gain_sum(taps, tc as nat), tc as nat) - 32768,
        ) <= 156 * tc,
{
    let norm = resample::gain_sum(taps, tc as nat);
    let d = loudness::worth(norm);
    loudness::lemma_tiny();
    lemma_sum_of_values(taps, tc, d);
    lemma_sum_of_coefficients(taps, norm, tc);
    let s = coefficient_sum(taps, norm, tc as nat);
    let v = value_sum(taps, tc as nat);
    let x = s - 32768;
    assert(x * d == (s * d - 32768 * v) + 32768 * (v - d)) by (nonlinear_arith)
        requires
            x == s - 32768,
    ;
    let n = tc * d;
    assert(n >= d) by (nonlinear_arith)
        requires
            n == tc * d,
            tc >= 1,
            d > 0,
    ;
    assert(100 * nearness::size(x * d) <= 156 * n);
    assert(100 * nearness::size(x) <= 156 * tc) by (nonlinear_arith)
        requires
            100 * nearness::size(x * d) <= 156 * n,
            n == tc * d,
            d > 0,
    ;
}

// --- what a filter makes of a sound -----------------------------------------------------

/// Integer arithmetic.
pub open spec fn whole_numbers(a: Arith) -> bool {
    a == Arith::S16 || a == Arith::S16Clip || a == Arith::S32
}

/// Nothing but silence in the `len` samples from `pos` on, except for sample `k`.
pub open spec fn alone(src: Seq<u64>, pos: int, len: int, k: int) -> bool {
    forall|j: int| 0 <= j < len && j != k ==> #[trigger] src[pos + j] == 0
}

proof fn lemma_quiet(a: Arith, c: int, start: int)
    requires
        whole_numbers(a),
        arith::acc_ok(a, start),
    ensures
        arith::acc_sum(a, start, arith::product(a, c, 0)) == start,
{
    assert(c * 0 == 0) by (nonlinear_arith);
}

proof fn lemma_kept_sum(a: Arith, c: int, u: int, v: int)
    requires
        whole_numbers(a),
    ensures
        arith::acc_ok(a, arith::acc_sum(a, u, v)),
{
}

proof fn lemma_alone_sum(
    a: Arith,
    bank: Seq<i128>,
    base: int,
    src: Seq<u64>,
    pos: int,
    start: int,
    first: int,
    step: int,
    n: nat,
    k: int,
)
    requires
        whole_numbers(a),
        arith::acc_ok(a, start),
        0 <= first,
        1 <= step,
        forall|j: int| 0 <= j < n && first + j * step != k ==> src[pos + #[trigger] (first + j * step)]
            == 0,
    ensures
        resample::tap_sum(a, bank, base, src, pos, start, first, step, n) == if exists|j: int|
            0 <= j < n && #[trigger] (first + j * step) == k {
            arith::acc_sum(a, start, arith::product(a, bank[base + k] as int, src[pos + k]))
        } else {
            start
        },
    decreases n,
{
    if n > 0 {
        lemma_alone_sum(a, bank, base, src, pos, start, first, step, (n - 1) as nat, k);
        let t = first + (n - 1) * step;
        let before = exists|j: int| 0 <= j < n - 1 && #[trigger] (first + j * step) == k;
        let now = exists|j: int| 0 <= j < n && #[trigger] (first + j * step) == k;
        if t == k {
            assert(now);
            if before {
                let j = choose|j: int| 0 <= j < n - 1 && #[trigger] (first + j * step) == k;
                assert(first + j * step < first + (n - 1) * step) by (nonlinear_arith)
                    requires
                        j < n - 1,
                        step >= 1,
                ;
            }
        } else {
            assert(src[pos + t] == 0);
            let c = bank[base + t] as int;
            let p = arith::product(a, bank[base + k] as int, src[pos + k]);
            lemma_quiet(a, c, start);
            lemma_kept_sum(a, c, start, p);
            lemma_quiet(a, c, arith::acc_sum(a, start, p));
            assert(before == now);
        }
    }
}


/// The sums of even and odd taps, of which one alone has something to add.
proof fn lemma_joined(a: Arith, even: bool, tap: int, x: u64)
    requires
        a == Arith::S16 || a == Arith::S32,
    ensures
        ({
            let start = resample::acc_start(a);
            let p = arith::product(a, tap, x);
            let y = (if even {
                resample::joined(a, arith::acc_sum(a, start, p), 0)
            } else {
                resample::joined(a, start, arith::acc_sum(a, 0, p))
            }) as int;
            &&& a == Arith::S16 && -0x7fff_0000 <= tap * arith::wrap16(x as int) <= 0x7fff_0000
                ==> arith::wrap16(y) == float::saturate(
                (tap * arith::wrap16(x as int) + 0x4000) / 0x8000,
                -0x8000,
                0x7fff,
            )
            &&& a == Arith::S32 && -0x4000_0000_0000_0000 <= tap * arith::wrap32(x as int)
                <= 0x4000_0000_0000_0000 ==> arith::wrap32(y) == float::saturate(
                (tap * arith::wrap32(x as int) + 0x2000_0000) / 0x4000_0000,
                -0x8000_0000,
                0x7fff_ffff,
            )
        }),
{
}

/// A sound that is silent but for one sample comes out, where that sample lies under
/// tap `j` of the phase, as the sample times that tap.
pub proof fn lemma_lone_sample(c: ResampleContext, src: Seq<u64>, n: int, j: int)
    requires
        !c.is_trivial(),
        !c.interpolates(),
        0 <= j < c.filter_length,
        alone(src, c.pos_at(n), c.filter_length as int, j),
    ensures
        ({
            let tap = c.bank@[c.index_at(n) * c.filter_alloc + j] as int;
            let x = src[c.pos_at(n) + j] as int;
            let y = c.out_sample(src, n) as int;
            &&& c.arith() == Arith::S16 && -0x7fff_0000 <= tap * arith::wrap16(x) <= 0x7fff_0000
                ==> arith::wrap16(y) == float::saturate(
                (tap * arith::wrap16(x) + 0x4000) / 0x8000,
                -0x8000,
                0x7fff,
            )
            &&& c.arith() == Arith::S32 && -0x4000_0000_0000_0000 <= tap * arith::wrap32(x)
                <= 0x4000_0000_0000_0000 ==> arith::wrap32(y) == float::saturate(
                (tap * arith::wrap32(x) + 0x2000_0000) / 0x4000_0000,
                -0x8000_0000,
                0x7fff_ffff,
            )
        }),
{
    let a = c.arith();
    if a == Arith::S16 || a == Arith::S32 {
        let base = c.index_at(n) * c.filter_alloc;
        let len = c.filter_length as nat;
        let pos = c.pos_at(n);
        assert forall|t: int| 0 <= t < (len + 1) / 2 && 0 + t * 2 != j implies src[pos + #[trigger] (
        0 + t * 2)] == 0 by {}
        assert forall|t: int| 0 <= t < len / 2 && 1 + t * 2 != j implies src[pos + #[trigger] (1 + t
            * 2)] == 0 by {}
        lemma_alone_sum(
            a,
            c.bank@,
            base,
            src,
            pos,
            resample::acc_start(a),
            0,
            2,
            (len + 1) / 2,
            j,
        );
        lemma_alone_sum(a, c.bank@, base, src, pos, 0, 1, 2, len / 2, j);
        let h = j / 2;
        let even = j % 2 == 0;
        if even {
            assert(0 + h * 2 == j && 0 <= h < (len + 1) / 2);
        } else {
            assert(1 + h * 2 == j && 0 <= h < len / 2);
        }
        lemma_joined(a, even, c.bank@[base + j] as int, src[pos + j]);
    }
}

proof fn lemma_truncated(x: int, d: int)
    requires
        d > 0,
    ensures
        -d < mathematics::tdiv(x, d) * d - x < d,
        x >= 0 ==> 0 <= mathematics::tdiv(x, d) * d <= x,
        x <= 0 ==> x <= mathematics::tdiv(x, d) * d <= 0,
{
    if x >= 0 {
        lemma_fundamental_div_mod(x, d);
        lemma_mod_bound(x, d);
        lemma_div_pos_is_pos(x, d);
        assert((x / d) * d == d * (x / d)) by (nonlinear_arith);
        assert((x / d) * d >= 0) by (nonlinear_arith)
            requires
                x / d >= 0,
                d > 0,
        ;
    } else {
        lemma_fundamental_div_mod(-x, d);
        lemma_mod_bound(-x, d);
        lemma_div_pos_is_pos(-x, d);
        assert((-((-x) / d)) * d == -(d * ((-x) / d))) by (nonlinear_arith);
        assert(d * ((-x) / d) >= 0) by (nonlinear_arith)
            requires
                (-x) / d >= 0,
                d > 0,
        ;
    }
}

/// Between two phases lies, up to the unit in which fractions are counted, the mean of
/// what the two give, each weighed by how near it is.
pub proof fn lemma_interpolated(v: int, v2: int, frac: int, unit: int)
    requires
        0 <= frac < unit <= i32::MAX,
    ensures
        -0x4000_0000 <= v <= 0x4000_0000 && -0x4000_0000 <= v2 < 0x4000_0000 ==> -unit
            < resample::between(Arith::S16, v, v2, frac, unit) * unit - (v * (unit - frac) + v2
            * frac) < unit,
        -0x4000_0000_0000_0000 <= v <= 0x4000_0000_0000_0000 && -0x4000_0000_0000_0000 <= v2
            < 0x4000_0000_0000_0000 ==> -unit * unit < resample::between(
            Arith::S32,
            v,
            v2,
            frac,
            unit,
        ) * unit - (v * (unit - frac) + v2 * frac) < unit * unit,
{
    let d = v2 - v;
    assert(v * unit + d * frac == v * (unit - frac) + v2 * frac) by (nonlinear_arith)
        requires
            d == v2 - v,
    ;
    if -0x4000_0000 <= v <= 0x4000_0000 && -0x4000_0000 <= v2 < 0x4000_0000 {
        let t = mathematics::tdiv(d * frac, unit);
        lemma_truncated(d * frac, unit);
        assert((v + t) * unit == v * unit + t * unit) by (nonlinear_arith);
        assert((d <= 0 ==> d * unit <= d * frac <= 0) && (d >= 0 ==> 0 <= d * frac <= d * unit))
            by (nonlinear_arith)
            requires
                0 <= frac < unit,
        ;
        assert((d <= 0 ==> d <= t <= 0) && (d >= 0 ==> 0 <= t <= d)) by (nonlinear_arith)
            requires
                unit > 0,
                d <= 0 ==> d * unit <= t * unit <= 0,
                d >= 0 ==> 0 <= t * unit <= d * unit,
        ;
    }
    if -0x4000_0000_0000_0000 <= v <= 0x4000_0000_0000_0000 && -0x4000_0000_0000_0000 <= v2
        < 0x4000_0000_0000_0000 {
        let q = mathematics::tdiv(d, unit);
        lemma_truncated(d, unit);
        let t = q * frac;
        assert((d <= 0 ==> d <= t <= 0) && (d >= 0 ==> 0 <= t <= d)) by (nonlinear_arith)
            requires
                t == q * frac,
                0 <= frac < unit,
                d <= 0 ==> d <= q * unit <= 0,
                d >= 0 ==> 0 <= q * unit <= d,
        ;
        assert((v + t) * unit == v * unit + t * unit) by (nonlinear_arith);
        assert(t * unit - d * frac == (q * unit - d) * frac) by (nonlinear_arith)
            requires
                t == q * frac,
        ;
        assert(-(unit * unit) < (q * unit - d) * frac < unit * unit) by (nonlinear_arith)
            requires
                -unit < q * unit - d < unit,
                0 <= frac < unit,
        ;
        assert(-unit * unit == -(unit * unit)) by (nonlinear_arith);
    }
}

// --- the same in floating point -------------------------------------------------------

/// The number format of floating arithmetic.
pub open spec fn number_format(a: Arith) -> Format {
    if a == Arith::Flt {
        Format::Binary32
    } else {
        Format::Binary64
    }
}

/// The taps of a filter are numbers.
pub open spec fn numbers(f: Format, bank: Seq<i128>, base: int, len: int) -> bool {
    forall|j: int|
        0 <= j < len ==> 0 <= (#[trigger] bank[base + j]) <= u64::MAX && nearness::finite(
            f,
            bank[base + j] as u64,
        )
}

proof fn lemma_alone_float(
    a: Arith,
    bank: Seq<i128>,
    base: int,
    len: int,
    src: Seq<u64>,
    pos: int,
    first: int,
    step: int,
    n: nat,
    k: int,
)
    requires
        a == Arith::Flt || a == Arith::Dbl,
        0 <= first,
        1 <= step,
        n > 0 ==> first + (n - 1) * step < len,
        numbers(number_format(a), bank, base, len),
        alone(src, pos, len, k),
        0 <= k < len,
        nearness::finite(
            number_format(a),
            float::mul_bits(number_format(a), bank[base + k] as u64, src[pos + k]),
        ),
        number_format(a).holds(
            float::mul_bits(number_format(a), bank[base + k] as u64, src[pos + k]),
        ),
    ensures
        ({
            let f = number_format(a);
            let r = resample::tap_sum(a, bank, base, src, pos, 0, first, step, n);
            &&& 0 <= r <= u64::MAX
            &&& f.holds(r as u64)
            &&& nearness::finite(f, r as u64)
            &&& nearness::value(f, r as u64) == if exists|j: int|
                0 <= j < n && #[trigger] (first + j * step) == k {
                nearness::value(f, float::mul_bits(f, bank[base + k] as u64, src[pos + k]))
            } else {
                0
            }
        }),
    decreases n,
{
    let f = number_format(a);
    nearness::lemma_nothing(f);
    if n > 0 {
        let t = first + (n - 1) * step;
        assert(t >= 0 && (n > 1 ==> first + (n - 2) * step < len)) by (nonlinear_arith)
            requires
                t == first + (n - 1) * step,
                t < len,
                first >= 0,
                step >= 1,
                n >= 1,
        ;
        lemma_alone_float(a, bank, base, len, src, pos, first, step, (n - 1) as nat, k);
        let before = exists|j: int| 0 <= j < n - 1 && #[trigger] (first + j * step) == k;
        let now = exists|j: int| 0 <= j < n && #[trigger] (first + j * step) == k;
        let r = resample::tap_sum(a, bank, base, src, pos, 0, first, step, (n - 1) as nat) as u64;
        let p = float::mul_bits(f, bank[base + t] as u64, src[pos + t]);
        assert(nearness::finite(f, bank[base + t] as u64));
        if t == k {
            assert(now);
            if before {
                let j = choose|j: int| 0 <= j < n - 1 && #[trigger] (first + j * step) == k;
                assert(first + j * step < first + (n - 1) * step) by (nonlinear_arith)
                    requires
                        j < n - 1,
                        step >= 1,
                ;
            }
            nearness::lemma_plus_nothing(f, p, r);
        } else {
            assert(src[pos + t] == 0);
            nearness::lemma_times_nothing(f, bank[base + t] as u64, 0);
            nearness::lemma_plus_nothing(f, r, p);
            assert(before == now);
        }
    }
}

/// In floating point, too, a sound that is silent but for one sample comes out as that
/// sample times the tap over it.
pub proof fn lemma_lone_number(c: ResampleContext, src: Seq<u64>, n: int, j: int)
    requires
        !c.is_trivial(),
        !c.interpolates(),
        c.arith() == Arith::Flt || c.arith() == Arith::Dbl,
        0 <= j < c.filter_length,
        alone(src, c.pos_at(n), c.filter_length as int, j),
        numbers(
            number_format(c.arith()),
            c.bank@,
            c.index_at(n) * c.filter_alloc,
            c.filter_length as int,
        ),
        ({
            let f = number_format(c.arith());
            let p = float::mul_bits(
                f,
                c.bank@[c.index_at(n) * c.filter_alloc + j] as u64,
                src[c.pos_at(n) + j],
            );
            nearness::finite(f, p) && f.holds(p)
        }),
    ensures
        ({
            let f = number_format(c.arith());
            nearness::value(f, c.out_sample(src, n)) == nearness::value(
                f,
                float::mul_bits(
                    f,
                    c.bank@[c.index_at(n) * c.filter_alloc + j] as u64,
                    src[c.pos_at(n) + j],
                ),
            )
        }),
{
    let a = c.arith();
    let f = number_format(a);
    let base = c.index_at(n) * c.filter_alloc;
    let len = c.filter_length as int;
    let pos = c.pos_at(n);
    lemma_alone_float(a, c.bank@, base, len, src, pos, 0, 2, ((len + 1) / 2) as nat, j);
    lemma_alone_float(a, c.bank@, base, len, src, pos, 1, 2, (len / 2) as nat, j);
    let v = resample::tap_sum(a, c.bank@, base, src, pos, 0, 0, 2, ((len + 1) / 2) as nat) as u64;
    let w = resample::tap_sum(a, c.bank@, base, src, pos, 0, 1, 2, (len / 2) as nat) as u64;
    let h = j / 2;
    if j % 2 == 0 {
        assert(0 + h * 2 == j && 0 <= h < (len + 1) / 2);
        nearness::lemma_plus_nothing(f, v, w);
    } else {
        assert(1 + h * 2 == j && 0 <= h < len / 2);
        nearness::lemma_plus_nothing(f, w, v);
    }
}

/// A number, and a part of a distance.
proof fn lemma_part_way(x: F64, fd: F64, frac: int, unit: int)
    requires
        0 <= frac < unit <= i32::MAX,
        loudness::finite(x),
        loudness::finite(fd),
        nearness::size(loudness::worth(x)) <= 5 * nearness::one(),
        nearness::size(loudness::worth(fd)) <= 10 * nearness::one(),
    ensures
        ({
            let inv = (F64 { bits: resample::ONE }).s_over(F64::s_from_int(unit));
            let r = x.s_plus(fd.s_times(inv).s_times(F64::s_from_int(frac)));
            &&& loudness::finite(r)
            &&& nearness::size(
                loudness::worth(r) * unit - (loudness::worth(x) * unit + loudness::worth(fd) * frac),
            ) * 0x8000_0000_0000 <= unit * nearness::one()
            &&& nearness::size(loudness::worth(r)) <= 20 * nearness::one()
        }),
{
    let f = Format::Binary64;
    loudness::lemma_tiny();
    let u = nearness::one();
    let t = loudness::tiny(f);
    let top = pow2(4196) as int;
    let w = 0x20_0000_0000_0000int;
    let vx = loudness::worth(x);
    let d = loudness::worth(fd);
    assert(1 * t == t);
    // the reciprocal
    let fone = F64 { bits: resample::ONE };
    lemma_unit_worth();
    nearness::lemma_integer(f, unit);
    nearness::lemma_integer(f, frac);
    let funit = F64::s_from_int(unit);
    let uu = unit * u;
    assert(u <= uu <= 0x8000_0000 * u) by (nonlinear_arith)
        requires
            uu == unit * u,
            1 <= unit <= 0x8000_0000,
            u > 0,
    ;
    assert(u * u < uu * top) by (nonlinear_arith)
        requires
            u <= uu,
            0 < u < top,
    ;
    nearness::lemma_quotient(f, fone.bits, funit.bits);
    let finv = fone.s_over(funit);
    let inv = loudness::worth(finv);
    nearness::lemma_near_scaled(f, inv, u, unit, u);
    assert(unit * t <= u) by (nonlinear_arith)
        requires
            1 <= unit <= 0x8000_0000,
            0 < t,
            t * 0x1_0000_0000_0000_0000 < u,
    ;
    let g = inv * unit - u;
    assert(nearness::size(g) * w <= 2 * u);
    assert(0 < inv <= 2 * u) by (nonlinear_arith)
        requires
            0 < inv * unit <= 2 * u,
            unit >= 1,
    ;
    // times the reciprocal
    let n = d * inv;
    assert(nearness::size(n) <= 20 * (u * u)) by (nonlinear_arith)
        requires
            n == d * inv,
            -10 * u <= d <= 10 * u,
            0 < inv <= 2 * u,
    ;
    assert(20 * (u * u) < u * top) by (nonlinear_arith)
        requires
            u > 0,
            u * 0x1_0000_0000_0000_0000 < top,
    ;
    nearness::lemma_product(f, fd.bits, finv.bits);
    let fa = fd.s_times(finv);
    let a = loudness::worth(fa);
    let h = a * u - n;
    assert(nearness::size(h) * w <= nearness::size(n) + u * t);
    let nu = n * unit;
    assert(nu == d * u + d * g) by (nonlinear_arith)
        requires
            nu == n * unit,
            n == d * inv,
            g == inv * unit - u,
    ;
    assert(nearness::size(d * g) * w <= 20 * (u * u)) by (nonlinear_arith)
        requires
            -10 * u <= d <= 10 * u,
            nearness::size(g) * w <= 2 * u,
            u > 0,
            w > 0,
    ;
    assert(nearness::size(d * u) <= 10 * (u * u)) by (nonlinear_arith)
        requires
            -10 * u <= d <= 10 * u,
            u > 0,
    ;
    assert(nearness::size(nu) <= 11 * (u * u));
    assert(nearness::size(h * unit) * w <= nearness::size(nu) + u * u) by (nonlinear_arith)
        requires
            nearness::size(h) * w <= nearness::size(n) + u * t,
            nu == n * unit,
            unit * t <= u,
            unit >= 1,
            u > 0,
            w > 0,
    ;
    let au = a * unit;
    let k = au - d;
    assert(k * u == h * unit + d * g) by (nonlinear_arith)
        requires
            k == a * unit - d,
            h == a * u - n,
            n * unit == d * u + d * g,
    ;
    assert(nearness::size(k) * w <= 33 * u) by (nonlinear_arith)
        requires
            nearness::size(k * u) * w <= 33 * (u * u),
            u > 0,
            w > 0,
    ;
    assert(nearness::size(au) <= 11 * u);
    // times the fraction
    let ffrac = F64::s_from_int(frac);
    let m = a * frac;
    assert(nearness::size(a) <= 11 * u) by (nonlinear_arith)
        requires
            nearness::size(a * unit) <= 11 * u,
            unit >= 1,
    ;
    assert(nearness::size(m) <= 11 * u) by (nonlinear_arith)
        requires
            m == a * frac,
            nearness::size(a * unit) <= 11 * u,
            0 <= frac < unit,
    ;
    assert(a * (frac * u) == m * u) by (nonlinear_arith)
        requires
            m == a * frac,
    ;
    assert(nearness::size(m * u) <= 11 * (u * u)) by (nonlinear_arith)
        requires
            nearness::size(m) <= 11 * u,
            u > 0,
    ;
    nearness::lemma_product(f, fa.bits, ffrac.bits);
    let fb = fa.s_times(ffrac);
    let b = loudness::worth(fb);
    nearness::lemma_near_scaled(f, b, m, 1, u);
    assert(b * 1 == b && 1 * u == u);
    let q = b - m;
    assert(nearness::size(q) * w <= 12 * u);
    assert(nearness::size(b) <= 12 * u);
    // added
    nearness::lemma_sum(f, x.bits, fb.bits);
    let r = loudness::worth(x.s_plus(fb));
    assert(r * 1 == r);
    let p = r - (vx + b);
    assert(nearness::size(p) * w <= 18 * u);
    let z = r * unit - (vx * unit + d * frac);
    assert(z == p * unit + q * unit + k * frac) by (nonlinear_arith)
        requires
            z == r * unit - (vx * unit + d * frac),
            p == r - (vx + b),
            q == b - m,
            m == a * frac,
            k == a * unit - d,
    ;
    assert(nearness::size(p * unit) * w <= 18 * uu) by (nonlinear_arith)
        requires
            nearness::size(p) * w <= 18 * u,
            uu == unit * u,
            unit >= 1,
            w > 0,
    ;
    assert(nearness::size(q * unit) * w <= 12 * uu) by (nonlinear_arith)
        requires
            nearness::size(q) * w <= 12 * u,
            uu == unit * u,
            unit >= 1,
            w > 0,
    ;
    assert(nearness::size(k * frac) * w <= 33 * uu) by (nonlinear_arith)
        requires
            nearness::size(k) * w <= 33 * u,
            uu == unit * u,
            0 <= frac < unit,
            w > 0,
            u > 0,
    ;
}

/// Between two phases lies in double precision the mean of what the two give, each
/// weighed by how near it is, but for rounding.
pub proof fn lemma_interpolated_number(x: F64, y: F64, frac: int, unit: int)
    requires
        0 <= frac < unit <= i32::MAX,
        loudness::finite(x),
        loudness::finite(y),
        nearness::size(loudness::worth(x)) <= 4 * nearness::one(),
        nearness::size(loudness::worth(y)) <= 4 * nearness::one(),
    ensures
        ({
            let r = F64 {
                bits: resample::between(Arith::Dbl, x.bits as int, y.bits as int, frac, unit) as u64,
            };
            &&& loudness::finite(r)
            &&& nearness::size(
                loudness::worth(r) * unit - (loudness::worth(x) * (unit - frac) + loudness::worth(y)
                    * frac),
            ) * 0x4000_0000_0000 <= unit * nearness::one()
        }),
{
    let f = Format::Binary64;
    loudness::lemma_tiny();
    let u = nearness::one();
    let (vx, vy) = (loudness::worth(x), loudness::worth(y));
    nearness::lemma_opposite(f, x.bits);
    nearness::lemma_sum(f, y.bits, x.s_neg().bits);
    let fd = y.s_minus(x);
    let d = loudness::worth(fd);
    let t = loudness::tiny(f);
    assert(d * 1 == d && 1 * t == t);
    let d1 = d - (vy - vx);
    assert(nearness::size(d1) * 0x20_0000_0000_0000 <= 9 * u);
    lemma_part_way(x, fd, frac, unit);
    let inv = (F64 { bits: resample::ONE }).s_over(F64::s_from_int(unit));
    let r = loudness::worth(x.s_plus(fd.s_times(inv).s_times(F64::s_from_int(frac))));
    lemma_mean(r, vx, vy, d, d1, frac, unit);
    assert(nearness::size(d1 * frac) * 0x20_0000_0000_0000 <= 9 * (unit * u)) by (nonlinear_arith)
        requires
            nearness::size(d1) * 0x20_0000_0000_0000 <= 9 * u,
            0 <= frac < unit,
            u > 0,
    ;
}

proof fn lemma_mean(r: int, vx: int, vy: int, d: int, d1: int, frac: int, unit: int)
    requires
        d1 == d - (vy - vx),
    ensures
        r * unit - (vx * (unit - frac) + vy * frac) == r * unit - (vx * unit + d * frac) + d1 * frac,
{
    assert(vx * (unit - frac) + vy * frac == vx * unit + (vy - vx) * frac) by (nonlinear_arith);
    assert(d * frac == (vy - vx) * frac + d1 * frac) by (nonlinear_arith)
        requires
            d1 == d - (vy - vx),
    ;
}

/// In single precision, too.
pub proof fn lemma_interpolated_single(x: F32, y: F32, frac: int, unit: int)
    requires
        0 <= frac < unit <= i32::MAX,
        placing::finite(x),
        placing::finite(y),
        nearness::size(placing::worth(x)) <= 4 * nearness::one(),
        nearness::size(placing::worth(y)) <= 4 * nearness::one(),
    ensures
        ({
            let r = F32 {
                bits: resample::between(Arith::Flt, x.bits as int, y.bits as int, frac, unit) as u32,
            };
            &&& placing::finite(r)
            &&& nearness::size(
                placing::worth(r) * unit - (placing::worth(x) * (unit - frac) + placing::worth(y)
                    * frac),
            ) * 0x2_0000 <= unit * nearness::one()
        }),
{
    let (s, f) = (Format::Binary32, Format::Binary64);
    loudness::lemma_tiny();
    placing::lemma_units();
    let u = nearness::one();
    let (vx, vy) = (placing::worth(x), placing::worth(y));
    // the difference
    placing::lemma_minus(y, x);
    let sd = y.s_minus(x);
    nearness::lemma_converted(s, f, sd.bits as u64);
    let fd = sd.s_widen();
    let d = loudness::worth(fd);
    let t = loudness::tiny(f);
    assert(d * 1 == d && 1 * t == t);
    let d1 = d - (vy - vx);
    assert(nearness::size(d1) * 0x100_0000 <= 10 * u);
    // the start
    nearness::lemma_converted(s, f, x.bits as u64);
    let fx = x.s_widen();
    let wx = loudness::worth(fx);
    assert(wx * 1 == wx);
    let x1 = wx - vx;
    assert(nearness::size(x1) * 0x100_0000 <= u);
    lemma_part_way(fx, fd, frac, unit);
    let inv = (F64 { bits: resample::ONE }).s_over(F64::s_from_int(unit));
    let fr = fx.s_plus(fd.s_times(inv).s_times(F64::s_from_int(frac)));
    let wr = loudness::worth(fr);
    nearness::lemma_converted(f, s, fr.bits);
    let b = float::convert_bits(f, s, fr.bits);
    placing::lemma_same_bits(b);
    let r = nearness::value(s, b);
    let ts = loudness::tiny(s);
    assert(r * 1 == r && 1 * ts == ts);
    let r1 = r - wr;
    assert(nearness::size(r1) * 0x100_0000 <= 21 * u);
    let uu = unit * u;
    assert(r * unit == wr * unit + r1 * unit) by (nonlinear_arith)
        requires
            r1 == r - wr,
    ;
    assert(wx * unit == vx * unit + x1 * unit) by (nonlinear_arith)
        requires
            x1 == wx - vx,
    ;
    lemma_mean(r, vx, vy, d, d1, frac, unit);
    assert(nearness::size(d1 * frac) * 0x100_0000 <= 10 * uu) by (nonlinear_arith)
        requires
            nearness::size(d1) * 0x100_0000 <= 10 * u,
            0 <= frac < unit,
            uu == unit * u,
            u > 0,
    ;
    assert(nearness::size(x1 * unit) * 0x100_0000 <= uu) by (nonlinear_arith)
        requires
            nearness::size(x1) * 0x100_0000 <= u,
            unit >= 1,
            uu == unit * u,
    ;
    assert(nearness::size(r1 * unit) * 0x100_0000 <= 21 * uu) by (nonlinear_arith)
        requires
            nearness::size(r1) * 0x100_0000 <= 21 * u,
            unit >= 1,
            uu == unit * u,
    ;
}

proof fn lemma_unit_worth()
    ensures
        loudness::finite(F64 { bits: resample::ONE }),
        loudness::worth(F64 { bits: resample::ONE }) == nearness::one(),
{
    let f = Format::Binary64;
    lemma2_to64_rest();
    lemma_pow2_adds(52, 4044);
    assert(0x3ff0_0000_0000_0000int / 0x10_0000_0000_0000 == 1023 && 0x3ff0_0000_0000_0000int
        % 0x10_0000_0000_0000 == 0);
    assert(float::mag_expo(f, 0x3ff0_0000_0000_0000) == -52);
    assert(float::mag_mant(f, 0x3ff0_0000_0000_0000) == 0x10_0000_0000_0000);
}

} // verus!
