//! Rational resampling with a polyphase filter bank.
use crate::arith;
use crate::arith::Arith;
use crate::audio;
use crate::audio::{AudioData, Planes};
use crate::error::{invalid, Error};
use crate::float;
use crate::float::{to_int_f, Format, ToInt, F32, F64};
use crate::mathematics;
use crate::mathematics::{reduce_exact, rescale, rescale_rnd, tdiv_i128, tquot_i128, Rounding};
use crate::samplefmt::SampleFormat;
use crate::text;
use crate::text::push_signed;
use vstd::arithmetic::div_mod::*;
use vstd::arithmetic::mul::*;
use vstd::arithmetic::power2::*;
use vstd::prelude::*;

verus! {

/// Shape of the window that the low-pass filter is cut out with.
#[derive(Clone, Copy, Debug, PartialEq, Eq, Structural, Hash)]
pub enum FilterType {
    /// Cubic.
    Cubic,
    /// Blackman-Nuttall windowed sinc.
    BlackmanNuttall,
    /// Kaiser windowed sinc.
    Kaiser,
}

/// The arithmetic of filtering in an internal sample format.
pub open spec fn filter_arith(f: SampleFormat) -> Arith {
    match f {
        SampleFormat::S16p => Arith::S16,
        SampleFormat::S32p => Arith::S32,
        SampleFormat::Fltp => Arith::Flt,
        _ => Arith::Dbl,
    }
}

/// Formats that can be resampled.
pub open spec fn resamplable(f: SampleFormat) -> bool {
    f == SampleFormat::S16p || f == SampleFormat::S32p || f == SampleFormat::Fltp || f
        == SampleFormat::Dblp
}

/// Fraction bits of the coefficients.
pub open spec fn coeff_bits(f: SampleFormat) -> nat {
    match f {
        SampleFormat::S16p => 15,
        SampleFormat::S32p => 30,
        _ => 0,
    }
}

// --- one output sample ---------------------------------------------------------------

/// What an accumulator starts from: half a unit of the result.
pub open spec fn acc_start(a: Arith) -> int {
    match a {
        Arith::S32 => 0x2000_0000,
        Arith::Flt | Arith::Dbl => 0,
        _ => 16384,
    }
}

/// `start` plus the products of the taps `first`, `first + step`, ... (`n` of
/// them) of the filter at `base` with the samples from `pos` on.
pub open spec fn tap_sum(
    a: Arith,
    bank: Seq<i128>,
    base: int,
    src: Seq<u64>,
    pos: int,
    start: int,
    first: int,
    step: int,
    n: nat,
) -> int
    decreases n,
{
    if n == 0 {
        start
    } else {
        let t = first + (n - 1) * step;
        arith::acc_sum(
            a,
            tap_sum(a, bank, base, src, pos, start, first, step, (n - 1) as nat),
            arith::product(a, bank[base + t] as int, src[pos + t]),
        )
    }
}

/// The sample that the sums of the even and of the odd taps give.
pub open spec fn joined(a: Arith, v: int, v2: int) -> u64 {
    match a {
        Arith::Flt => float::add_bits(Format::Binary32, v as u64, v2 as u64),
        Arith::Dbl => float::add_bits(Format::Binary64, v as u64, v2 as u64),
        Arith::S32 => arith::raw32(
            float::saturate(arith::wrap64(v + v2) / 0x4000_0000, i32::MIN as int, i32::MAX as int),
        ),
        _ => arith::raw16(float::saturate((v + v2) / 32768, -32768, 32767)),
    }
}

/// An output sample without interpolation between phases.
pub open spec fn plain_sample(
    a: Arith,
    bank: Seq<i128>,
    base: int,
    len: nat,
    src: Seq<u64>,
    pos: int,
) -> u64 {
    joined(
        a,
        tap_sum(a, bank, base, src, pos, acc_start(a), 0, 2, (len + 1) / 2),
        tap_sum(a, bank, base, src, pos, 0, 1, 2, len / 2),
    )
}

/// The point at `frac / unit` of the way from `v` to `v2`.
pub open spec fn between(a: Arith, v: int, v2: int, frac: int, unit: int) -> int {
    let inv = F64 { bits: ONE }.s_over(F64::s_from_int(unit));
    match a {
        Arith::Flt => {
            let x = F32 { bits: v as u32 };
            let y = F32 { bits: v2 as u32 };
            x.s_widen().s_plus(
                y.s_minus(x).s_widen().s_times(inv).s_times(F64::s_from_int(frac)),
            ).s_narrow().bits as int
        },
        Arith::Dbl => {
            let x = F64 { bits: v as u64 };
            let y = F64 { bits: v2 as u64 };
            x.s_plus(y.s_minus(x).s_times(inv).s_times(F64::s_from_int(frac))).bits as int
        },
        Arith::S32 => arith::wrap64(
            v + arith::wrap64(mathematics::tdiv(arith::wrap64(v2 - v), unit) * frac),
        ),
        _ => arith::wrap32(v + mathematics::tdiv(arith::wrap32(v2 - v) * frac, unit)),
    }
}

/// The sample that an accumulator gives.
pub open spec fn settled(a: Arith, v: int) -> u64 {
    match a {
        Arith::Flt | Arith::Dbl => v as u64,
        Arith::S32 => arith::raw32(
            float::saturate(v / 0x4000_0000, i32::MIN as int, i32::MAX as int),
        ),
        _ => arith::raw16(float::saturate(v / 32768, -32768, 32767)),
    }
}

/// An output sample interpolated between the phase at `base` and the next one.
pub open spec fn linear_sample(
    a: Arith,
    bank: Seq<i128>,
    base: int,
    next: int,
    len: nat,
    src: Seq<u64>,
    pos: int,
    frac: int,
    unit: int,
) -> u64 {
    settled(
        a,
        between(
            a,
            tap_sum(a, bank, base, src, pos, acc_start(a), 0, 1, len),
            tap_sum(a, bank, next, src, pos, acc_start(a), 0, 1, len),
            frac,
            unit,
        ),
    )
}

/// The bits of the number one.
pub const ONE: u64 = 0x3ff0_0000_0000_0000;

fn shift(t: i128, bits: u32) -> (r: i128)
    requires
        bits == 15 || bits == 30,
        -0x1_0000_0000_0000_0000 <= t <= 0xffff_ffff_ffff_ffff,
    ensures
        bits == 15 ==> r == t as int / 32768,
        bits == 30 ==> r == t as int / 0x4000_0000,
{
    let u: u128 = (t + 0x1_0000_0000_0000_0000) as u128;
    if bits == 15 {
        (u / 32768) as i128 - 0x2_0000_0000_0000
    } else {
        (u / 0x4000_0000) as i128 - 0x4_0000_0000
    }
}

fn clip(t: i128, lo: i128, hi: i128) -> (r: i128)
    requires
        lo <= hi,
    ensures
        r == float::saturate(t as int, lo as int, hi as int),
        lo <= r <= hi,
{
    if t < lo {
        lo
    } else if t > hi {
        hi
    } else {
        t
    }
}

pub open spec fn plain_arith(a: Arith) -> bool {
    a == Arith::S16 || a == Arith::S32 || a == Arith::Flt || a == Arith::Dbl
}

/// Bytes of a sample.
pub open spec fn arith_bytes(a: Arith) -> nat {
    match a {
        Arith::S32 | Arith::Flt => 4,
        Arith::Dbl => 8,
        _ => 2,
    }
}

fn joined_exec(a: Arith, v: i128, v2: i128) -> (r: u64)
    requires
        plain_arith(a),
        arith::acc_ok(a, v as int),
        arith::acc_ok(a, v2 as int),
    ensures
        r == joined(a, v as int, v2 as int),
        r < pow2(8 * arith_bytes(a)),
{
    proof {
        crate::bytes::lemma_byte_width(arith_bytes(a));
    }
    match a {
        Arith::Flt => float::add_f(Format::Binary32, v as u64, v2 as u64),
        Arith::Dbl => float::add_f(Format::Binary64, v as u64, v2 as u64),
        Arith::S32 => arith::unsigned(
            clip(shift(arith::wrap_i128(v + v2, 64), 30), i32::MIN as i128, i32::MAX as i128),
            0x1_0000_0000,
        ),
        _ => arith::unsigned(clip(shift(v + v2, 15), -32768, 32767), 0x1_0000),
    }
}

fn settled_exec(a: Arith, v: i128) -> (r: u64)
    requires
        plain_arith(a),
        arith::acc_ok(a, v as int),
    ensures
        r == settled(a, v as int),
        r < pow2(8 * arith_bytes(a)),
{
    proof {
        crate::bytes::lemma_byte_width(arith_bytes(a));
    }
    match a {
        Arith::Flt | Arith::Dbl => v as u64,
        Arith::S32 => arith::unsigned(
            clip(shift(v, 30), i32::MIN as i128, i32::MAX as i128),
            0x1_0000_0000,
        ),
        _ => arith::unsigned(clip(shift(v, 15), -32768, 32767), 0x1_0000),
    }
}

fn between_exec(a: Arith, v: i128, v2: i128, frac: i32, unit: i32) -> (r: i128)
    requires
        plain_arith(a),
        arith::acc_ok(a, v as int),
        arith::acc_ok(a, v2 as int),
        0 <= frac,
        1 <= unit,
    ensures
        r == between(a, v as int, v2 as int, frac as int, unit as int),
        arith::acc_ok(a, r as int),
{
    match a {
        Arith::Flt => {
            let inv = F64 { bits: ONE }.over(F64::from_int(unit as i64));
            let x = F32 { bits: v as u32 };
            let y = F32 { bits: v2 as u32 };
            x.widen().plus(
                y.minus(x).widen().times(inv).times(F64::from_int(frac as i64)),
            ).narrow().bits as i128
        },
        Arith::Dbl => {
            let inv = F64 { bits: ONE }.over(F64::from_int(unit as i64));
            let x = F64 { bits: v as u64 };
            let y = F64 { bits: v2 as u64 };
            x.plus(y.minus(x).times(inv).times(F64::from_int(frac as i64))).bits as i128
        },
        Arith::S32 => {
            let d: i128 = arith::wrap_i128(v2 - v, 64);
            let q: i128 = tdiv_i128(d, unit as i128);
            proof {
                arith::lemma_mul_bound(
                    q as int,
                    frac as int,
                    0x8000_0000_0000_0000,
                    0x7fff_ffff,
                );
            }
            arith::wrap_i128(v + arith::wrap_i128(q * frac as i128, 64), 64)
        },
        _ => {
            let d: i128 = arith::wrap_i128(v2 - v, 32);
            proof {
                arith::lemma_mul_bound(d as int, frac as int, 0x8000_0000, 0x7fff_ffff);
            }
            arith::wrap_i128(v + tdiv_i128(d * frac as i128, unit as i128), 32)
        },
    }
}

// --- the resampler -------------------------------------------------------------------

/// A resampler: the filter bank and the clock that walks through it.
///
/// Time is counted in ticks: an input sample lasts `phase_count * src_incr` of
/// them and an output sample `dst_incr`. The bank holds one filter of
/// `filter_length` taps for each phase, at a distance of `filter_alloc`, and a
/// copy of the first one, moved on by one tap, behind the last.
pub struct ResampleContext {
    /// Coefficients; integers, or the bit patterns of floating-point numbers.
    pub bank: Vec<i128>,
    pub filter_length: i32,
    pub filter_alloc: i32,
    pub ideal_dst_incr: i32,
    pub dst_incr: i32,
    pub dst_incr_div: i32,
    pub dst_incr_mod: i32,
    /// Phase of the next output sample; negative before the first input.
    pub index: i32,
    /// Ticks since that phase began.
    pub frac: i32,
    pub src_incr: i32,
    /// Output samples that are still to be made at the changed rate.
    pub compensation_distance: i32,
    pub phase_count: i32,
    /// Nonzero: interpolate between phases.
    pub linear: i32,
    pub filter_type: FilterType,
    pub kaiser_beta: F64,
    pub factor: F64,
    pub format: SampleFormat,
    pub felem_size: i32,
    pub filter_shift: i32,
    /// The phase count to change to when the rate is to be changed.
    pub phase_count_compensation: i32,
}

/// Half the range of a 32-bit integer, rounded down.
pub const MAX_INCR: i32 = 1073741823;

impl ResampleContext {
    pub open spec fn arith(self) -> Arith {
        filter_arith(self.format)
    }

    pub open spec fn wf(self) -> bool {
        &&& resamplable(self.format)
        &&& self.felem_size == self.format.spec_bytes()
        &&& self.filter_shift == coeff_bits(self.format)
        &&& 1 <= self.filter_length <= self.filter_alloc <= 0x100_0000
        &&& 1 <= self.phase_count <= 0x4000_0000
        &&& self.phase_count <= self.phase_count_compensation <= 0x4000_0000
        &&& self.phase_count_compensation as int % self.phase_count as int == 0
        &&& 1 <= self.src_incr <= 0x4000_0000
        &&& 1 <= self.ideal_dst_incr <= 0x4000_0000
        &&& 0 <= self.frac < self.src_incr
        &&& self.phase_count != self.phase_count_compensation ==> self.keeps_phase()
        &&& self.index >= -self.phase_count * ((self.filter_length - 1) / 2)
        &&& self.index < self.phase_count
        &&& self.is_trivial() ==> self.index == 0
        &&& self.bank@.len() == self.filter_alloc * (self.phase_count + 1)
        &&& forall|t: int|
            0 <= t < self.bank@.len() ==> #[trigger] arith::gain_ok(
                self.arith(),
                self.bank@[t] as int,
            )
    }

    /// Every output falls on the beginning of a phase.
    pub open spec fn keeps_phase(self) -> bool {
        &&& self.frac == 0
        &&& self.dst_incr == self.ideal_dst_incr
        &&& self.dst_incr as int % self.src_incr as int == 0
    }

    /// The clock moves forward.
    pub open spec fn running(self) -> bool {
        &&& self.dst_incr >= 1
        &&& self.dst_incr_div == self.dst_incr as int / self.src_incr as int
        &&& self.dst_incr_mod == self.dst_incr as int % self.src_incr as int
    }

    /// Ticks from the start of the input to output sample `n`.
    pub open spec fn ticks(self, n: int) -> int {
        self.index * self.src_incr + self.frac + n * self.dst_incr
    }

    /// Whole phases to output sample `n`.
    pub open spec fn phases(self, n: int) -> int {
        self.ticks(n) / (self.src_incr as int)
    }

    /// Ticks between the phase of output sample `n` and the sample itself.
    pub open spec fn frac_at(self, n: int) -> int {
        self.ticks(n) % (self.src_incr as int)
    }

    /// Phase of output sample `n`.
    pub open spec fn index_at(self, n: int) -> int {
        self.phases(n) % (self.phase_count as int)
    }

    /// First input sample that output sample `n` depends on.
    pub open spec fn pos_at(self, n: int) -> int {
        self.phases(n) / (self.phase_count as int)
    }

    /// The filter is the identity.
    pub open spec fn is_trivial(self) -> bool {
        self.filter_length == 1 && self.phase_count == 1
    }

    /// Up to `m` outputs of a call lie where the clock says. Without a filter, the
    /// fixed-point position of later outputs may be off.
    pub open spec fn faithful(self, m: int) -> bool {
        self.is_trivial() ==> m * self.src_incr < 0x1_0000_0000
    }

    /// Outputs are interpolated between phases.
    pub open spec fn interpolates(self) -> bool {
        self.linear != 0 && (self.frac != 0 || self.dst_incr_mod != 0)
    }

    /// Input sample that output sample `n` repeats when the filter is trivial;
    /// computed in 32.32 fixed point.
    pub open spec fn pick(self, n: int) -> int {
        let start = 0x1_0000_0000 * self.frac / (self.src_incr as int) + 0x1_0000_0000 * self.index
            + 1;
        let step = 0x1_0000_0000 * self.dst_incr / (self.src_incr as int) + 1;
        (start + n * step) / 0x1_0000_0000
    }

    /// Output sample `n` of a channel.
    pub open spec fn out_sample(self, src: Seq<u64>, n: int) -> u64 {
        if self.is_trivial() {
            src[self.pick(n)]
        } else {
            let base = self.index_at(n) * self.filter_alloc;
            if self.interpolates() {
                linear_sample(
                    self.arith(),
                    self.bank@,
                    base,
                    base + self.filter_alloc,
                    self.filter_length as nat,
                    src,
                    self.pos_at(n),
                    self.frac_at(n),
                    self.src_incr as int,
                )
            } else {
                plain_sample(
                    self.arith(),
                    self.bank@,
                    base,
                    self.filter_length as nat,
                    src,
                    self.pos_at(n),
                )
            }
        }
    }

    /// Input samples that output sample `n` needs.
    pub open spec fn reach(self, n: int) -> int {
        if self.is_trivial() {
            self.pick(n) + 1
        } else {
            self.pos_at(n) + self.filter_length
        }
    }

    /// A channel with its first `n` samples replaced by output.
    pub open spec fn out_row(self, d: Seq<u64>, s: Seq<u64>, n: int) -> Seq<u64> {
        Seq::new(
            d.len(),
            |i: int|
                if i < n {
                    self.out_sample(s, i)
                } else {
                    d[i]
                },
        )
    }

    /// All channels with their first `n` samples replaced by output.
    pub open spec fn out_planes(self, d: Planes, s: Planes, n: int) -> Planes {
        Seq::new(d.len(), |c: int| self.out_row(d[c], s[c], n))
    }

    proof fn lemma_clock(self, n: int, pos: int, index: int, frac: int)
        requires
            self.wf(),
            self.ticks(n) == (pos * self.phase_count + index) * self.src_incr + frac,
            0 <= frac < self.src_incr,
            0 <= index < self.phase_count,
        ensures
            self.frac_at(n) == frac,
            self.phases(n) == pos * self.phase_count + index,
            self.index_at(n) == index,
            self.pos_at(n) == pos,
    {
        lemma_fundamental_div_mod_converse(
            self.ticks(n),
            self.src_incr as int,
            pos * self.phase_count + index,
            frac,
        );
        lemma_fundamental_div_mod_converse(
            pos * self.phase_count + index,
            self.phase_count as int,
            pos,
            index,
        );
    }

    /// The clock at output sample `n`, put together again.
    pub proof fn lemma_ticks(self, n: int)
        requires
            self.wf(),
        ensures
            self.ticks(n) == (self.pos_at(n) * self.phase_count + self.index_at(n)) * self.src_incr
                + self.frac_at(n),
            0 <= self.frac_at(n) < self.src_incr,
            0 <= self.index_at(n) < self.phase_count,
    {
        lemma_fundamental_div_mod(self.ticks(n), self.src_incr as int);
        lemma_fundamental_div_mod(self.phases(n), self.phase_count as int);
        lemma_mul_is_commutative(self.src_incr as int, self.phases(n));
        lemma_mul_is_commutative(self.phase_count as int, self.pos_at(n));
    }

    proof fn lemma_one_phase(self, n: int)
        requires
            self.phase_count == 1,
        ensures
            self.index_at(n) == 0,
            self.pos_at(n) == self.phases(n),
    {
        lemma_div_basics(self.phases(n));
        lemma_fundamental_div_mod(self.phases(n), 1);
    }

    /// Later outputs do not need earlier input.
    pub proof fn lemma_forward(self, j: int, k: int)
        requires
            self.wf(),
            self.dst_incr >= 0,
            j <= k,
        ensures
            self.ticks(j) <= self.ticks(k),
            self.pos_at(j) <= self.pos_at(k),
            self.pick(j) <= self.pick(k),
    {
        assert(j * self.dst_incr <= k * self.dst_incr) by (nonlinear_arith)
            requires
                j <= k,
                self.dst_incr >= 0,
        ;
        lemma_div_is_ordered(self.ticks(j), self.ticks(k), self.src_incr as int);
        lemma_div_is_ordered(self.phases(j), self.phases(k), self.phase_count as int);
        let step = 0x1_0000_0000 * self.dst_incr / (self.src_incr as int) + 1;
        let start = 0x1_0000_0000 * self.frac / (self.src_incr as int) + 0x1_0000_0000 * self.index
            + 1;
        lemma_div_pos_is_pos(0x1_0000_0000 * self.dst_incr, self.src_incr as int);
        assert(j * step <= k * step) by (nonlinear_arith)
            requires
                j <= k,
                step >= 0,
        ;
        lemma_div_is_ordered(start + j * step, start + k * step, 0x1_0000_0000);
    }

    fn arith_exec(&self) -> (a: Arith)
        requires
            resamplable(self.format),
        ensures
            a == self.arith(),
            plain_arith(a),
            arith_bytes(a) == self.format.spec_bytes(),
    {
        match self.format {
            SampleFormat::S16p => Arith::S16,
            SampleFormat::S32p => Arith::S32,
            SampleFormat::Fltp => Arith::Flt,
            _ => Arith::Dbl,
        }
    }

    /// Sum of `n` taps of the filter at `base`.
    fn tap_sum_exec(
        &self,
        a: Arith,
        base: usize,
        src: &AudioData,
        ch: usize,
        pos: usize,
        start: i128,
        first: usize,
        step: usize,
        n: usize,
    ) -> (r: i128)
        requires
            self.wf(),
            a == self.arith(),
            plain_arith(a),
            src.wf(),
            src.bps == arith_bytes(a),
            ch < src.ch_count,
            arith::acc_ok(a, start as int),
            step == 1 || step == 2,
            first <= 1,
            n > 0 ==> first + (n - 1) * step < self.filter_length,
            base + self.filter_length <= self.bank@.len(),
            pos + self.filter_length <= src.count,
        ensures
            r == tap_sum(
                a,
                self.bank@,
                base as int,
                src.chans()[ch as int],
                pos as int,
                start as int,
                first as int,
                step as int,
                n as nat,
            ),
            arith::acc_ok(a, r as int),
    {
        let mut acc: i128 = start;
        let mut k: usize = 0;
        let mut t: usize = first;
        while k < n
            invariant
                self.wf(),
                a == self.arith(),
                plain_arith(a),
                src.wf(),
                src.bps == arith_bytes(a),
                ch < src.ch_count,
                step == 1 || step == 2,
                t == first + k * step,
                k <= n,
                n > 0 ==> first + (n - 1) * step < self.filter_length,
                base + self.filter_length <= self.bank@.len(),
                pos + self.filter_length <= src.count,
                arith::acc_ok(a, acc as int),
                acc == tap_sum(
                    a,
                    self.bank@,
                    base as int,
                    src.chans()[ch as int],
                    pos as int,
                    start as int,
                    first as int,
                    step as int,
                    k as nat,
                ),
            decreases n - k,
        {
            proof {
                crate::bytes::lemma_byte_width(arith_bytes(a));
                assert(k * step <= (n - 1) * step) by (nonlinear_arith)
                    requires
                        k <= n - 1,
                        step >= 0,
                ;
                assert((k + 1) * step == k * step + step) by (nonlinear_arith);
            }
            let blen: usize = self.bank.len();
            assert(arith::gain_ok(a, self.bank@[base + t] as int));
            let x: u64 = src.load(ch, pos + t);
            acc = arith::acc_sum_exec(a, acc, arith::product_exec(a, self.bank[base + t], x));
            k = k + 1;
            t = t + step;
        }
        acc
    }

    /// An output sample at phase `index`, `frac` ticks and input sample `pos`.
    fn sample_exec(
        &self,
        a: Arith,
        interp: bool,
        src: &AudioData,
        ch: usize,
        index: i64,
        frac: i64,
        pos: usize,
    ) -> (r: u64)
        requires
            self.wf(),
            a == self.arith(),
            plain_arith(a),
            src.wf(),
            src.bps == arith_bytes(a),
            ch < src.ch_count,
            0 <= index < self.phase_count,
            0 <= frac < self.src_incr,
            pos + self.filter_length <= src.count,
        ensures
            r == if interp {
                linear_sample(
                    a,
                    self.bank@,
                    index * self.filter_alloc,
                    index * self.filter_alloc + self.filter_alloc,
                    self.filter_length as nat,
                    src.chans()[ch as int],
                    pos as int,
                    frac as int,
                    self.src_incr as int,
                )
            } else {
                plain_sample(
                    a,
                    self.bank@,
                    index * self.filter_alloc,
                    self.filter_length as nat,
                    src.chans()[ch as int],
                    pos as int,
                )
            },
            r < pow2(8 * arith_bytes(a)),
    {
        let blen: usize = self.bank.len();
        let fl: usize = self.filter_length as usize;
        let fa: usize = self.filter_alloc as usize;
        proof {
            assert(0 <= index * fa && index * fa + 2 * fa <= fa * (self.phase_count + 1))
                by (nonlinear_arith)
                requires
                    0 <= index <= self.phase_count - 1,
                    fa >= 0,
            ;
        }
        let base: usize = index as usize * fa;
        let start: i128 = match a {
            Arith::S32 => 0x2000_0000,
            Arith::Flt | Arith::Dbl => 0,
            _ => 16384,
        };
        if interp {
            let v: i128 = self.tap_sum_exec(a, base, src, ch, pos, start, 0, 1, fl);
            let v2: i128 = self.tap_sum_exec(a, base + fa, src, ch, pos, start, 0, 1, fl);
            settled_exec(a, between_exec(a, v, v2, frac as i32, self.src_incr))
        } else {
            let v: i128 = self.tap_sum_exec(a, base, src, ch, pos, start, 0, 2, (fl + 1) / 2);
            let v2: i128 = self.tap_sum_exec(a, base, src, ch, pos, 0, 1, 2, fl / 2);
            joined_exec(a, v, v2)
        }
    }

    /// Writes `n` output samples of one channel.
    fn resample_kernel(
        &self,
        interp: bool,
        dst: &mut AudioData,
        src: &AudioData,
        ch: usize,
        n: usize,
    ) -> (r: Result<(i64, i64, i64), Error>)
        requires
            self.wf(),
            self.running(),
            self.index >= 0,
            !self.is_trivial(),
            interp == self.interpolates(),
            1 <= n <= i32::MAX,
            old(dst).wf(),
            src.wf(),
            old(dst).bps == self.felem_size,
            src.bps == self.felem_size,
            ch < old(dst).ch_count,
        ensures
            final(dst).wf(),
            final(dst).same_shape(*old(dst)),
            final(dst).count == old(dst).count,
            r.is_ok() == (ch < src.ch_count && n <= old(dst).count && self.reach(n - 1)
                <= src.count),
            r matches Err(e) ==> e == Error::BufferTooSmall,
            r matches Ok((index, frac, pos)) ==> {
                &&& index == self.index_at(n as int)
                &&& frac == self.frac_at(n as int)
                &&& pos == self.pos_at(n as int)
                &&& final(dst).chans() == old(dst).chans().update(
                    ch as int,
                    self.out_row(old(dst).chans()[ch as int], src.chans()[ch as int], n as int),
                )
            },
    {
        if ch >= src.ch_count {
            return Err(Error::BufferTooSmall);
        }
        let a: Arith = self.arith_exec();
        let ghost o = *dst;
        let ghost d0 = dst.chans();
        let ghost s0 = src.chans()[ch as int];
        let unit: i64 = self.src_incr as i64;
        let pc: i64 = self.phase_count as i64;
        let fl: usize = self.filter_length as usize;
        let mut pos: i64 = self.index as i64 / pc;
        let mut index: i64 = self.index as i64 % pc;
        let mut frac: i64 = self.frac as i64;
        proof {
            lemma_fundamental_div_mod(self.index as int, pc as int);
            lemma_mul_is_commutative(pc as int, pos as int);
        }
        let mut j: usize = 0;
        while j < n
            invariant
                self.wf(),
                self.running(),
                self.index >= 0,
                !self.is_trivial(),
                interp == self.interpolates(),
                a == self.arith(),
                plain_arith(a),
                arith_bytes(a) == self.felem_size,
                1 <= n <= i32::MAX,
                j <= n,
                dst.wf(),
                dst.same_shape(o),
                dst.count == o.count,
                src.wf(),
                o.bps == self.felem_size,
                src.bps == self.felem_size,
                ch < o.ch_count,
                ch < src.ch_count,
                o == *old(dst),
                d0 == o.chans(),
                s0 == src.chans()[ch as int],
                unit == self.src_incr,
                pc == self.phase_count,
                fl == self.filter_length,
                0 <= pos,
                0 <= index < pc,
                0 <= frac < unit,
                self.ticks(j as int) == (pos * pc + index) * unit + frac,
                j > 0 ==> j <= o.count && self.reach(j - 1) <= src.count,
                forall|c: int| 0 <= c < o.ch_count && c != ch ==> #[trigger] dst.chans()[c] == d0[c],
                forall|i: int|
                    0 <= i < o.count ==> #[trigger] dst.chans()[ch as int][i] == if i < j {
                        self.out_sample(s0, i)
                    } else {
                        d0[ch as int][i]
                    },
            decreases n - j,
        {
            proof {
                self.lemma_clock(j as int, pos as int, index as int, frac as int);
                self.lemma_forward(j as int, n - 1);
                self.lemma_pos_bound(j as int);
            }
            if pos as u64 > usize::MAX as u64 - fl as u64 {
                return Err(Error::BufferTooSmall);
            }
            if pos as usize + fl > src.count || j >= dst.count {
                return Err(Error::BufferTooSmall);
            }
            let v: u64 = self.sample_exec(a, interp, src, ch, index, frac, pos as usize);
            dst.store(ch, j, v);
            let mut f: i64 = frac + self.dst_incr_mod as i64;
            let mut i: i64 = index + self.dst_incr_div as i64;
            let ghost carry: int = if f >= unit { 1 } else { 0 };
            if f >= unit {
                f = f - unit;
                i = i + 1;
            }
            proof {
                self.lemma_advance(j as int, pos as int, index as int, frac as int, i as int, f as int, carry);
                lemma_fundamental_div_mod(i as int, pc as int);
                lemma_div_pos_is_pos(i as int, pc as int);
                let q = i as int / pc as int;
                assert((pos + q) * pc == pos * pc + pc * q) by (nonlinear_arith);
                self.lemma_clock((j + 1) as int, pos + q, i as int % pc as int, f as int);
                self.lemma_pos_bound((j + 1) as int);
            }
            pos = pos + i / pc;
            index = i % pc;
            frac = f;
            j = j + 1;
        }
        proof {
            self.lemma_clock(n as int, pos as int, index as int, frac as int);
            let want = d0.update(ch as int, self.out_row(d0[ch as int], s0, n as int));
            assert forall|c: int| 0 <= c < o.ch_count implies dst.chans()[c] == #[trigger] want[c] by {
                assert(dst.chans()[c] =~= want[c]);
            }
            assert(dst.chans() =~= want);
        }
        Ok((index, frac, pos))
    }

    pub(crate) proof fn lemma_pos_bound(self, n: int)
        requires
            self.wf(),
            self.index >= 0,
            0 <= n <= i32::MAX,
            self.dst_incr >= 0,
        ensures
            0 <= self.pos_at(n) <= self.phases(n) <= self.ticks(n) <= 0x7000_0000_0000_0000,
    {
        assert(0 <= self.index * self.src_incr <= 0x8000_0000 * 0x4000_0000) by (nonlinear_arith)
            requires
                0 <= self.index <= 0x8000_0000,
                0 <= self.src_incr <= 0x4000_0000,
        ;
        assert(0 <= n * self.dst_incr <= 0x8000_0000 * 0x8000_0000) by (nonlinear_arith)
            requires
                0 <= n <= 0x8000_0000,
                0 <= self.dst_incr <= 0x8000_0000,
        ;
        let t = self.ticks(n);
        lemma_div_pos_is_pos(t, self.src_incr as int);
        lemma_div_is_ordered_by_denominator(t, 1, self.src_incr as int);
        lemma_div_basics(t);
        lemma_div_pos_is_pos(self.phases(n), self.phase_count as int);
        lemma_div_is_ordered_by_denominator(self.phases(n), 1, self.phase_count as int);
        lemma_div_basics(self.phases(n));
    }

    pub(crate) proof fn lemma_keeps_phase(self, n: int)
        requires
            self.wf(),
            self.keeps_phase(),
        ensures
            self.frac_at(n) == 0,
    {
        let u = self.src_incr as int;
        let q = self.dst_incr as int / u;
        lemma_fundamental_div_mod(self.dst_incr as int, u);
        assert(self.ticks(n) == (self.index + n * q) * u) by (nonlinear_arith)
            requires
                self.ticks(n) == self.index * u + n * self.dst_incr,
                self.dst_incr == u * q,
        ;
        lemma_mod_multiples_basic(self.index + n * q, u);
    }

    proof fn lemma_advance(self, j: int, pos: int, index: int, frac: int, i: int, f: int, carry: int)
        requires
            self.wf(),
            self.running(),
            self.ticks(j) == (pos * self.phase_count + index) * self.src_incr + frac,
            i == index + self.dst_incr_div + carry,
            f == frac + self.dst_incr_mod - carry * self.src_incr,
        ensures
            self.ticks(j + 1) == (pos * self.phase_count + i) * self.src_incr + f,
    {
        lemma_fundamental_div_mod(self.dst_incr as int, self.src_incr as int);
        let s = self.src_incr as int;
        let d = self.dst_incr as int;
        let q = self.dst_incr_div as int;
        let p = pos * self.phase_count;
        assert((j + 1) * d == j * d + d) by (nonlinear_arith);
        assert((p + (index + q + carry)) * s == (p + index) * s + s * q + carry * s)
            by (nonlinear_arith);
    }

    /// Repeats input samples as output when the filter is trivial.
    fn resample_one(&self, dst: &mut AudioData, src: &AudioData, ch: usize, n: usize) -> (r: Result<
        (),
        Error,
    >)
        requires
            self.wf(),
            self.running(),
            self.index >= 0,
            self.is_trivial(),
            1 <= n <= i32::MAX,
            old(dst).wf(),
            src.wf(),
            old(dst).bps == self.felem_size,
            src.bps == self.felem_size,
            ch < old(dst).ch_count,
        ensures
            final(dst).wf(),
            final(dst).same_shape(*old(dst)),
            final(dst).count == old(dst).count,
            r.is_ok() == (ch < src.ch_count && n <= old(dst).count && self.reach(n - 1)
                <= src.count),
            r matches Err(e) ==> e == Error::BufferTooSmall,
            r is Ok ==> final(dst).chans() == old(dst).chans().update(
                ch as int,
                self.out_row(old(dst).chans()[ch as int], src.chans()[ch as int], n as int),
            ),
    {
        if ch >= src.ch_count {
            return Err(Error::BufferTooSmall);
        }
        let ghost o = *dst;
        let ghost d0 = dst.chans();
        let ghost s0 = src.chans()[ch as int];
        let start: i128 = 0x1_0000_0000i128 * self.frac as i128 / self.src_incr as i128
            + 0x1_0000_0000i128 * self.index as i128 + 1;
        let step: i128 = 0x1_0000_0000i128 * self.dst_incr as i128 / self.src_incr as i128 + 1;
        proof {
            lemma_div_pos_is_pos(0x1_0000_0000 * self.dst_incr, self.src_incr as int);
            lemma_div_pos_is_pos(0x1_0000_0000 * self.frac, self.src_incr as int);
            lemma_div_is_ordered_by_denominator(0x1_0000_0000 * self.dst_incr, 1, self.src_incr as int);
            lemma_div_is_ordered_by_denominator(0x1_0000_0000 * self.frac, 1, self.src_incr as int);
            lemma_div_basics(0x1_0000_0000 * self.dst_incr);
            lemma_div_basics(0x1_0000_0000 * self.frac);
        }
        let mut at: i128 = start;
        let mut j: usize = 0;
        while j < n
            invariant
                self.wf(),
                self.running(),
                self.index >= 0,
                self.is_trivial(),
                1 <= n <= i32::MAX,
                j <= n,
                dst.wf(),
                dst.same_shape(o),
                dst.count == o.count,
                src.wf(),
                o.bps == self.felem_size,
                src.bps == self.felem_size,
                ch < o.ch_count,
                ch < src.ch_count,
                o == *old(dst),
                d0 == o.chans(),
                s0 == src.chans()[ch as int],
                start == 0x1_0000_0000 * self.frac as int / self.src_incr as int + 0x1_0000_0000
                    * self.index as int + 1,
                step == 0x1_0000_0000 * self.dst_incr as int / self.src_incr as int + 1,
                0 <= start <= 0x1_0000_0000_0000_0000,
                1 <= step <= 0x8000_0000_0000_0000,
                at == start + j * step,
                0 <= at <= 0x1_0000_0000_0000_0000 + j * 0x8000_0000_0000_0000,
                j > 0 ==> j <= o.count && self.reach(j - 1) <= src.count,
                forall|c: int| 0 <= c < o.ch_count && c != ch ==> #[trigger] dst.chans()[c] == d0[c],
                forall|i: int|
                    0 <= i < o.count ==> #[trigger] dst.chans()[ch as int][i] == if i < j {
                        self.out_sample(s0, i)
                    } else {
                        d0[ch as int][i]
                    },
            decreases n - j,
        {
            proof {
                self.lemma_forward(j as int, n - 1);
                assert((j + 1) * step == j * step + step) by (nonlinear_arith);
            }
            let k: i128 = at / 0x1_0000_0000;
            assert(k == self.pick(j as int));
            if k >= src.count as i128 || j >= dst.count {
                return Err(Error::BufferTooSmall);
            }
            let v: u64 = src.load(ch, k as usize);
            dst.store(ch, j, v);
            at = at + step;
            j = j + 1;
        }
        proof {
            let want = d0.update(ch as int, self.out_row(d0[ch as int], s0, n as int));
            assert forall|c: int| 0 <= c < o.ch_count implies dst.chans()[c] == #[trigger] want[c] by {
                assert(dst.chans()[c] =~= want[c]);
            }
            assert(dst.chans() =~= want);
        }
        Ok(())
    }

    /// Input samples that one call looks at.
    pub open spec fn usable(self, src_size: int) -> int {
        let most = 0x3fff_ffff_ffff_ffffint / (self.phase_count as int) / (self.src_incr as int);
        if src_size <= most {
            src_size
        } else {
            most
        }
    }

    /// Ticks until the clock runs past the last output that `src_size` input
    /// samples allow.
    pub open spec fn ticks_left(self, src_size: int) -> int {
        ((1 + src_size - self.filter_length) * self.phase_count - self.index) * self.src_incr
            - self.frac
    }

    /// Number of outputs that start before the clock has run out.
    pub open spec fn room(self, src_size: int) -> int {
        mathematics::tdiv(
            self.ticks_left(self.usable(src_size)) + self.dst_incr - 1,
            self.dst_incr as int,
        )
    }

    /// Outputs of one call.
    pub open spec fn produced(self, dst_size: int, src_size: int) -> int {
        let wanted = if self.compensation_distance != 0 && self.compensation_distance < dst_size {
            self.compensation_distance as int
        } else {
            dst_size
        };
        let room = arith::wrap32(self.room(src_size));
        let n = if wanted < room {
            wanted
        } else {
            room
        };
        if n < 0 {
            0
        } else {
            n
        }
    }

    /// Input samples used up by `n` outputs.
    pub open spec fn used_up(self, n: int) -> int {
        self.pos_at(n)
    }

    /// Whether `n` outputs of every channel of `dst` can be made.
    pub open spec fn serves(self, dst: AudioData, src: AudioData, n: int) -> bool {
        n == 0 || dst.ch_count == 0 || (dst.ch_count <= src.ch_count && n <= dst.count
            && self.reach(n - 1) <= src.count)
    }

    /// The clock moved on by `n` outputs.
    pub open spec fn moved(self, n: int) -> ResampleContext {
        if n == 0 {
            self
        } else {
            ResampleContext {
                index: self.index_at(n) as i32,
                frac: self.frac_at(n) as i32,
                ..self
            }
        }
    }

    /// A rate change counted down by `n` outputs; at its end the clock returns
    /// to its usual speed.
    pub open spec fn counted(self, n: int) -> ResampleContext {
        if self.compensation_distance == 0 {
            self
        } else if self.compensation_distance == n {
            ResampleContext { compensation_distance: 0, ..self.at_speed(self.ideal_dst_incr) }
        } else {
            ResampleContext {
                compensation_distance: (self.compensation_distance - n) as i32,
                ..self
            }
        }
    }

    /// The clock at another speed.
    pub open spec fn at_speed(self, dst_incr: i32) -> ResampleContext {
        ResampleContext {
            dst_incr,
            dst_incr_div: mathematics::tdiv(dst_incr as int, self.src_incr as int) as i32,
            dst_incr_mod: mathematics::trem(dst_incr as int, self.src_incr as int) as i32,
            ..self
        }
    }

    fn set_speed(&mut self, dst_incr: i32)
        requires
            old(self).src_incr >= 1,
        ensures
            *final(self) == old(self).at_speed(dst_incr),
    {
        let unit: i128 = self.src_incr as i128;
        let q: i128 = tdiv_i128(dst_incr as i128, unit);
        proof {
            let a: int = if dst_incr >= 0 {
                dst_incr as int
            } else {
                -dst_incr
            };
            lemma_fundamental_div_mod(a, unit as int);
            lemma_mod_bound(a, unit as int);
            assert((-(a / unit as int)) * unit == -(a / unit as int * unit)) by (nonlinear_arith);
            lemma_mul_is_commutative(unit as int, a / unit as int);
            lemma_mul_nonnegative(a / unit as int, unit as int);
        }
        self.dst_incr = dst_incr;
        self.dst_incr_div = q as i32;
        self.dst_incr_mod = (dst_incr as i128 - q * unit) as i32;
    }

    /// Outputs that begin within the input, as far as it is looked at.
    pub(crate) fn room_exec(&self, src_size: i32) -> (r: i128)
        requires
            self.wf(),
            self.running(),
            self.index >= 0,
        ensures
            r == self.room(src_size as int),
            -0x4000_0000_0000_0000_0000_0000_0000_0000 <= r
                <= 0x3fff_ffff_ffff_ffff_ffff_ffff_ffff_ffff,
    {
        let pc: i128 = self.phase_count as i128;
        let unit: i128 = self.src_incr as i128;
        let most: i64 = 0x3fff_ffff_ffff_ffffi64 / self.phase_count as i64 / self.src_incr as i64;
        proof {
            lemma_div_pos_is_pos(0x3fff_ffff_ffff_ffff, pc as int);
            lemma_div_pos_is_pos(0x3fff_ffff_ffff_ffffint / pc as int, unit as int);
        }
        let ss: i128 = if src_size as i64 <= most {
            src_size as i128
        } else {
            most as i128
        };
        proof {
            arith::lemma_mul_bound(ss as int, unit as int, 0x8000_0000, 0x4000_0000);
            let len = 1 + ss - self.filter_length;
            arith::lemma_mul_bound(len, pc as int, 0x1_0000_0000, 0x4000_0000);
            arith::lemma_mul_bound(
                len * pc - self.index,
                unit as int,
                0x4000_0000_8000_0000,
                0x4000_0000,
            );
        }
        let left: i128 = ((1 + ss - self.filter_length as i128) * pc - self.index as i128) * unit
            - self.frac as i128;
        tdiv_i128(left + self.dst_incr as i128 - 1, self.dst_incr as i128)
    }

    /// Resamples up to `dst_size` samples of each channel of `src`, of which
    /// `src_size` are there, into `dst`. Returns how many it made; `consumed`
    /// tells how many input samples are done with.
    pub fn multiple_resample(
        &mut self,
        dst: &mut AudioData,
        dst_size: i32,
        src: &AudioData,
        src_size: i32,
        consumed: &mut i32,
    ) -> (r: Result<i32, Error>)
        requires
            old(self).wf(),
            old(self).running(),
            old(dst).wf(),
            src.wf(),
            old(dst).bps == old(self).felem_size,
            src.bps == old(self).felem_size,
        ensures
            final(dst).wf(),
            final(dst).same_shape(*old(dst)),
            final(dst).count == old(dst).count,
            r.is_ok() == (old(self).index >= 0 && old(self).serves(
                *old(dst),
                *src,
                old(self).produced(dst_size as int, src_size as int),
            )),
            r matches Err(e) ==> {
                &&& *final(self) == *old(self)
                &&& old(self).index < 0 ==> *final(consumed) == 0 && e.is_invalid(
                    "resample called with unprimed filter (index < 0)"@,
                )
                &&& old(self).index >= 0 ==> e == Error::BufferTooSmall
            },
            r matches Ok(n) ==> {
                let moves = n > 0 && old(dst).ch_count > 0;
                &&& n == old(self).produced(dst_size as int, src_size as int)
                &&& *final(consumed) == (if moves {
                    arith::wrap32(old(self).used_up(n as int))
                } else {
                    0
                })
                &&& *final(self) == old(self).moved(if moves {
                    n as int
                } else {
                    0
                }).counted(n as int)
                &&& final(self).wf()
                &&& final(self).running()
                &&& final(dst).chans() == old(self).out_planes(
                    old(dst).chans(),
                    src.chans(),
                    n as int,
                )
            },
    {
        *consumed = 0;
        if self.index < 0 {
            return Err(invalid("resample called with unprimed filter (index < 0)"));
        }
        let mut n: i32 = dst_size;
        if self.compensation_distance != 0 && self.compensation_distance < n {
            n = self.compensation_distance;
        }
        let room: i32 = arith::wrap_i128(self.room_exec(src_size), 32) as i32;
        if room < n {
            n = room;
        }
        if n < 0 {
            n = 0;
        }
        let ghost s0 = *self;
        let ghost o = *dst;
        let ghost d0 = dst.chans();
        let chs: usize = dst.ch_count;
        if n > 0 {
            let trivial: bool = self.filter_length == 1 && self.phase_count == 1;
            let interp: bool = self.linear != 0 && (self.frac != 0 || self.dst_incr_mod != 0);
            let mut index: i64 = 0;
            let mut frac: i64 = 0;
            let mut pos: i64 = 0;
            if trivial {
                proof {
                    self.lemma_pos_bound(n as int);
                    self.lemma_ticks(n as int);
                    arith::lemma_mul_bound(self.index as int, self.src_incr as int, 0x8000_0000, 0x4000_0000);
                    arith::lemma_mul_bound(n as int, self.dst_incr as int, 0x8000_0000, 0x8000_0000);
                }
                let ticks: i64 = self.index as i64 * self.src_incr as i64 + self.frac as i64
                    + n as i64 * self.dst_incr as i64;
                frac = ticks % self.src_incr as i64;
                pos = ticks / self.src_incr as i64;
                proof {
                    self.lemma_one_phase(n as int);
                }
            }
            let mut c: usize = 0;
            while c < chs
                invariant
                    *self == s0,
                    s0 == *old(self),
                    s0.wf(),
                    s0.running(),
                    s0.index >= 0,
                    o == *old(dst),
                    d0 == o.chans(),
                    chs == o.ch_count,
                    c <= chs,
                    1 <= n <= i32::MAX,
                    n == s0.produced(dst_size as int, src_size as int),
                    trivial == s0.is_trivial(),
                    interp == s0.interpolates(),
                    dst.wf(),
                    dst.same_shape(o),
                    dst.count == o.count,
                    src.wf(),
                    o.bps == s0.felem_size,
                    src.bps == s0.felem_size,
                    trivial || c > 0 ==> index == s0.index_at(n as int) && frac == s0.frac_at(
                        n as int,
                    ) && pos == s0.pos_at(n as int),
                    c > 0 ==> c <= src.ch_count && n <= o.count && s0.reach(n - 1) <= src.count,
                    forall|k: int|
                        0 <= k < chs ==> #[trigger] dst.chans()[k] == if k < c {
                            s0.out_row(d0[k], src.chans()[k], n as int)
                        } else {
                            d0[k]
                        },
                decreases chs - c,
            {
                if trivial {
                    match self.resample_one(dst, src, c, n as usize) {
                        Ok(_) => {},
                        Err(e) => {
                            return Err(e);
                        },
                    }
                } else {
                    match self.resample_kernel(interp, dst, src, c, n as usize) {
                        Ok((i, f, p)) => {
                            index = i;
                            frac = f;
                            pos = p;
                        },
                        Err(e) => {
                            return Err(e);
                        },
                    }
                }
                c = c + 1;
            }
            assert(dst.chans() =~= s0.out_planes(d0, src.chans(), n as int));
            if chs > 0 {
                proof {
                    self.lemma_ticks(n as int);
                    assert(-self.phase_count * ((self.filter_length - 1) / 2) <= 0)
                        by (nonlinear_arith)
                        requires
                            self.phase_count >= 0,
                            (self.filter_length - 1) / 2 >= 0,
                    ;
                }
                proof {
                    if self.keeps_phase() {
                        self.lemma_keeps_phase(n as int);
                    }
                }
                self.index = index as i32;
                self.frac = frac as i32;
                *consumed = arith::wrap32_i64(pos);
                assert(*self == s0.moved(n as int));
            }
        } else {
            proof {
                let want = s0.out_planes(d0, src.chans(), 0);
                assert forall|k: int| 0 <= k < d0.len() implies d0[k] == #[trigger] want[k] by {
                    assert(d0[k] =~= want[k]);
                }
                assert(dst.chans() =~= want);
            }
        }
        if self.compensation_distance != 0 {
            let left: i32 = self.compensation_distance - n;
            self.compensation_distance = left;
            if left == 0 {
                proof {
                    lemma_fundamental_div_mod(self.ideal_dst_incr as int, self.src_incr as int);
                    lemma_mul_is_commutative(self.src_incr as int, self.ideal_dst_incr as int / self.src_incr as int);
                    lemma_div_pos_is_pos(self.ideal_dst_incr as int, self.src_incr as int);
                    lemma_div_is_ordered_by_denominator(self.ideal_dst_incr as int, 1, self.src_incr as int);
                    lemma_div_basics(self.ideal_dst_incr as int);
                }
                self.set_speed(self.ideal_dst_incr);
            }
        }
        Ok(n)
    }

    /// Ticks of input that lie before the filter's centre.
    pub open spec fn pending(self, in_buffer_count: int) -> int {
        ((in_buffer_count - (self.filter_length - 1) / 2) * self.phase_count - self.index)
            * self.src_incr - self.frac
    }

    /// Time by which the output lags behind the input, in units of which `base`
    /// make a second.
    pub fn get_delay(&self, base: i64, in_buffer_count: i64, in_sample_rate: i32) -> (r: i64)
        requires
            self.wf(),
            0 <= in_buffer_count <= 0x7fff_ffff,
            i64::MIN <= self.pending(in_buffer_count as int) <= i64::MAX,
            in_sample_rate * self.src_incr * self.phase_count <= i64::MAX,
            in_sample_rate >= 0,
        ensures
            r == mathematics::rescale_spec(
                self.pending(in_buffer_count as int),
                base as int,
                in_sample_rate * self.src_incr * self.phase_count,
                Rounding::NearInf,
            ),
    {
        let k: i128 = in_buffer_count as i128 - ((self.filter_length as i128 - 1) / 2);
        let pc: i128 = self.phase_count as i128;
        let unit: i128 = self.src_incr as i128;
        proof {
            arith::lemma_mul_bound(k as int, pc as int, 0x8000_0000, 0x4000_0000);
            arith::lemma_mul_bound(
                k * pc - self.index,
                unit as int,
                0x4000_0000_8000_0000,
                0x4000_0000,
            );
            arith::lemma_mul_bound(in_sample_rate as int, unit as int, 0x8000_0000, 0x4000_0000);
            assert(0 <= in_sample_rate * unit) by (nonlinear_arith)
                requires
                    in_sample_rate >= 0,
                    unit >= 0,
            ;
            assert(0 <= in_sample_rate * unit * pc) by (nonlinear_arith)
                requires
                    in_sample_rate * unit >= 0,
                    pc >= 0,
            ;
        }
        let num: i128 = (k * pc - self.index as i128) * unit - self.frac as i128;
        rescale(num as i64, base, in_sample_rate as i64 * self.src_incr as i64 * self.phase_count as i64)
    }

    /// Phases of input that further `in_samples` samples leave to be walked.
    pub open spec fn phases_ahead(self, in_samples: int, in_buffer_count: int) -> int {
        (in_buffer_count + 2 + in_samples) * self.phase_count - self.index
    }

    /// Upper bound of the outputs at the usual speed.
    pub open spec fn out_bound(
        self,
        in_samples: int,
        in_buffer_count: int,
        in_sample_rate: int,
        out_sample_rate: int,
    ) -> int {
        mathematics::rescale_spec(
            self.phases_ahead(in_samples, in_buffer_count),
            out_sample_rate,
            in_sample_rate * self.phase_count,
            Rounding::Up,
        ) + 2
    }

    /// Upper bound on the number of output samples that `in_samples` more input
    /// samples can give.
    pub fn get_out_samples(
        &self,
        in_samples: i32,
        in_buffer_count: i64,
        in_sample_rate: i32,
        out_sample_rate: i32,
    ) -> (r: Result<i64, Error>)
        requires
            self.wf(),
            self.compensation_distance != 0 ==> self.dst_incr != 0,
            0 <= in_buffer_count <= 0x7fff_ffff,
            in_sample_rate > 0,
            out_sample_rate > 0,
            self.out_bound(
                in_samples as int,
                in_buffer_count as int,
                in_sample_rate as int,
                out_sample_rate as int,
            ) <= i64::MAX,
            self.compensation_distance != 0 ==> self.out_bound(
                in_samples as int,
                in_buffer_count as int,
                in_sample_rate as int,
                out_sample_rate as int,
            ) * self.ideal_dst_incr > -i64::MAX + 1,
        ensures
            ({
                let n = self.out_bound(
                    in_samples as int,
                    in_buffer_count as int,
                    in_sample_rate as int,
                    out_sample_rate as int,
                );
                let slow = mathematics::tquot(n * self.ideal_dst_incr - 1, self.dst_incr as int) + 1;
                match r {
                    Err(e) => self.compensation_distance != 0 && n > i32::MAX && e.is_invalid(
                        "out sample count overflow"@,
                    ),
                    Ok(v) => {
                        &&& self.compensation_distance == 0 || n <= i32::MAX
                        &&& v == if self.compensation_distance != 0 && slow > n {
                            slow
                        } else {
                            n
                        }
                    },
                }
            }),
    {
        let k: i128 = in_buffer_count as i128 + 2 + in_samples as i128;
        let pc: i128 = self.phase_count as i128;
        proof {
            arith::lemma_mul_bound(k as int, pc as int, 0x1_0000_0001, 0x4000_0000);
            arith::lemma_mul_bound(in_sample_rate as int, pc as int, 0x8000_0000, 0x4000_0000);
            assert(in_sample_rate * pc > 0) by (nonlinear_arith)
                requires
                    in_sample_rate > 0,
                    pc > 0,
            ;
        }
        let num: i64 = (k * pc - self.index as i128) as i64;
        let n: i64 = rescale_rnd(
            num,
            out_sample_rate as i64,
            in_sample_rate as i64 * self.phase_count as i64,
            Rounding::Up,
        ) + 2;
        if self.compensation_distance != 0 {
            if n > 0x7fff_ffff {
                return Err(invalid("out sample count overflow"));
            }
            proof {
                arith::lemma_mul_bound(n as int, self.ideal_dst_incr as int, 0x8000_0000_0000_0000, 0x4000_0000);
                assert(n > 0 ==> n * self.ideal_dst_incr <= 0x7fff_ffff * 0x4000_0000)
                    by (nonlinear_arith)
                    requires
                        n <= 0x7fff_ffff,
                        0 < self.ideal_dst_incr <= 0x4000_0000,
                ;
                assert(n <= 0 ==> n * self.ideal_dst_incr <= 0) by (nonlinear_arith)
                    requires
                        0 < self.ideal_dst_incr,
                ;
            }
            let slow: i128 = tquot_i128(
                n as i128 * self.ideal_dst_incr as i128 - 1,
                self.dst_incr as i128,
            ) + 1;
            if slow > n as i128 {
                return Ok(slow as i64);
            }
        }
        Ok(n)
    }

    /// Number of samples that are mirrored behind the end of the input.
    pub open spec fn reflection(self, count: int) -> int {
        ((if count < self.filter_length {
            count
        } else {
            self.filter_length as int
        }) + 1) / 2
    }

    /// Extends the input at its end with its own mirror image, so that the
    /// filter can run past the end.
    pub fn resample_flush(
        &self,
        in_buffer: &mut AudioData,
        in_buffer_index: usize,
        in_buffer_count: &mut usize,
    ) -> (r: Result<(), Error>)
        requires
            self.wf(),
            old(in_buffer).wf(),
            in_buffer_index + *old(in_buffer_count) <= old(in_buffer).count,
            ({
                let need = in_buffer_index + *old(in_buffer_count) + self.reflection(
                    *old(in_buffer_count) as int,
                );
                2 * need <= usize::MAX && old(in_buffer).ch_count * (2 * need) * old(in_buffer).bps
                    <= usize::MAX
            }),
        ensures
            r is Ok,
            final(in_buffer).wf(),
            final(in_buffer).same_shape(*old(in_buffer)),
            ({
                let n = *old(in_buffer_count) as int;
                let m = self.reflection(n);
                &&& *final(in_buffer_count) == n + m
                &&& final(in_buffer).count == old(in_buffer).grown_count(
                    (in_buffer_index + n + m) as nat,
                )
                &&& final(in_buffer).chans() == planes_reflect(
                    audio::planes_grow(old(in_buffer).chans(), final(in_buffer).count as nat),
                    in_buffer_index + n,
                    m,
                )
            }),
    {
        let n: usize = *in_buffer_count;
        let fl: usize = self.filter_length as usize;
        let m: usize = (if n < fl {
            n
        } else {
            fl
        } + 1) / 2;
        let end: usize = in_buffer_index + n;
        in_buffer.grow(end + m);
        mirror(in_buffer, end, m);
        *in_buffer_count = n + m;
        Ok(())
    }
}

/// Every channel with the `m` samples at `end` replaced by the mirror image of
/// those before `end`.
pub open spec fn planes_reflect(p: Planes, end: int, m: int) -> Planes {
    Seq::new(
        p.len(),
        |c: int|
            Seq::new(
                p[c].len(),
                |i: int|
                    if end <= i < end + m {
                        p[c][2 * end - 1 - i]
                    } else {
                        p[c][i]
                    },
            ),
    )
}

fn mirror(a: &mut AudioData, end: usize, m: usize)
    requires
        old(a).wf(),
        end + m <= old(a).count,
        m <= end,
    ensures
        final(a).wf(),
        final(a).same_shape(*old(a)),
        final(a).count == old(a).count,
        final(a).chans() == planes_reflect(old(a).chans(), end as int, m as int),
{
    let ghost o = *a;
    let ghost p0 = a.chans();
    let n: usize = a.ch_count;
    let mut c: usize = 0;
    while c < n
        invariant
            c <= n,
            n == o.ch_count,
            p0 == o.chans(),
            end + m <= o.count,
            m <= end,
            a.wf(),
            a.same_shape(o),
            a.count == o.count,
            forall|k: int, i: int|
                0 <= k < n && 0 <= i < o.count ==> #[trigger] a.chans()[k][i] == if k < c && end <= i
                    < end + m {
                    p0[k][2 * end - 1 - i]
                } else {
                    p0[k][i]
                },
        decreases n - c,
    {
        let mut j: usize = 0;
        while j < m
            invariant
                c < n,
                j <= m,
                n == o.ch_count,
                p0 == o.chans(),
                end + m <= o.count,
                m <= end,
                a.wf(),
                a.same_shape(o),
                a.count == o.count,
                forall|k: int, i: int|
                    0 <= k < n && 0 <= i < o.count ==> #[trigger] a.chans()[k][i] == if (k < c && end
                        <= i < end + m) || (k == c && end <= i < end + j) {
                        p0[k][2 * end - 1 - i]
                    } else {
                        p0[k][i]
                    },
            decreases m - j,
        {
            let v: u64 = a.load(c, end - j - 1);
            a.store(c, end + j, v);
            j = j + 1;
        }
        c = c + 1;
    }
    proof {
        let want = planes_reflect(p0, end as int, m as int);
        assert forall|k: int| 0 <= k < n implies a.chans()[k] == #[trigger] want[k] by {
            assert(a.chans()[k] =~= want[k]);
        }
        assert(a.chans() =~= want);
    }
}

/// Every channel with the samples before `fl` replaced by the mirror image of
/// those behind it.
pub open spec fn planes_invert(p: Planes, fl: int) -> Planes {
    Seq::new(
        p.len(),
        |c: int|
            Seq::new(
                p[c].len(),
                |i: int|
                    if 0 <= i < fl {
                        p[c][2 * fl - i]
                    } else {
                        p[c][i]
                    },
            ),
    )
}

fn invert(a: &mut AudioData, fl: usize)
    requires
        old(a).wf(),
        2 * fl + 1 <= old(a).count,
    ensures
        final(a).wf(),
        final(a).same_shape(*old(a)),
        final(a).count == old(a).count,
        final(a).chans() == planes_invert(old(a).chans(), fl as int),
{
    let ghost o = *a;
    let ghost p0 = a.chans();
    let n: usize = a.ch_count;
    let mut c: usize = 0;
    while c < n
        invariant
            c <= n,
            n == o.ch_count,
            p0 == o.chans(),
            2 * fl + 1 <= o.count,
            a.wf(),
            a.same_shape(o),
            a.count == o.count,
            forall|k: int, i: int|
                0 <= k < n && 0 <= i < o.count ==> #[trigger] a.chans()[k][i] == if k < c && i < fl {
                    p0[k][2 * fl - i]
                } else {
                    p0[k][i]
                },
        decreases n - c,
    {
        let mut j: usize = 1;
        while j <= fl
            invariant
                c < n,
                1 <= j <= fl + 1,
                n == o.ch_count,
                p0 == o.chans(),
                2 * fl + 1 <= o.count,
                a.wf(),
                a.same_shape(o),
                a.count == o.count,
                forall|k: int, i: int|
                    0 <= k < n && 0 <= i < o.count ==> #[trigger] a.chans()[k][i] == if (k < c && i
                        < fl) || (k == c && fl - j < i < fl) {
                        p0[k][2 * fl - i]
                    } else {
                        p0[k][i]
                    },
            decreases fl + 1 - j,
        {
            let v: u64 = a.load(c, fl + j);
            a.store(c, fl - j, v);
            j = j + 1;
        }
        c = c + 1;
    }
    proof {
        let want = planes_invert(p0, fl as int);
        assert forall|k: int| 0 <= k < n implies a.chans()[k] == #[trigger] want[k] by {
            assert(a.chans()[k] =~= want[k]);
        }
        assert(a.chans() =~= want);
    }
}

impl ResampleContext {
    /// Whole samples by which the first output precedes the input.
    pub open spec fn lead(self) -> int {
        if self.index >= 0 {
            0
        } else {
            (-self.index + self.phase_count - 1) / (self.phase_count as int)
        }
    }

    /// Starts the filter: gathers `filter_length + 1` samples in `dst` and puts
    /// their mirror image in front of them, so that the first output has input
    /// on both sides. `out_sz` samples are there already. Returns the number of
    /// samples taken from `src`, `i32::MAX` while there are too few, or zero
    /// when the filter has been started before.
    pub fn invert_initial_buffer(
        &mut self,
        dst: &mut AudioData,
        src: &AudioData,
        in_count: usize,
        out_idx: &mut usize,
        out_sz: &mut usize,
    ) -> (r: Result<i32, Error>)
        requires
            old(self).wf(),
            old(dst).wf(),
            src.wf(),
            old(dst).bps == old(self).felem_size,
            src.bps == old(self).felem_size,
            old(dst).ch_count == src.ch_count,
            in_count <= src.count,
            *old(out_sz) <= 0x7fff_ffff,
            in_count + *old(out_sz) <= usize::MAX,
            old(dst).ch_count * (2 * (2 * old(self).filter_length + 1)) * old(dst).bps
                <= usize::MAX,
        ensures
            final(dst).wf(),
            final(dst).same_shape(*old(dst)),
            ({
                let fl = old(self).filter_length as int;
                let sz = *old(out_sz) as int;
                let num = if in_count + sz < fl + 1 {
                    in_count + sz
                } else {
                    fl + 1
                };
                let staged = audio::planes_splice(
                    audio::planes_grow(old(dst).chans(), final(dst).count as nat),
                    fl + sz,
                    src.chans(),
                    num - sz,
                );
                if old(self).index >= 0 {
                    &&& r matches Ok(v) && v == 0
                    &&& *final(self) == *old(self)
                    &&& *final(dst) == *old(dst)
                    &&& *final(out_idx) == *old(out_idx)
                    &&& *final(out_sz) == sz
                } else {
                    &&& final(dst).count == old(dst).grown_count((2 * fl + 1) as nat)
                    &&& if num < fl + 1 {
                        &&& r matches Ok(v) && v == i32::MAX
                        &&& *final(self) == *old(self)
                        &&& final(dst).chans() == staged
                        &&& *final(out_idx) == fl
                        &&& *final(out_sz) == num
                    } else {
                        &&& r matches Ok(v) && v == (if num > sz {
                            num - sz
                        } else {
                            0
                        })
                        &&& *final(self) == (ResampleContext {
                            index: (old(self).index + old(self).lead() * old(self).phase_count) as i32,
                            ..*old(self)
                        })
                        &&& 0 <= final(self).index < final(self).phase_count
                        &&& final(self).wf()
                        &&& final(dst).chans() == planes_invert(staged, fl)
                        &&& *final(out_idx) == fl - old(self).lead()
                        &&& *final(out_sz) == (if sz + fl > 1 + 2 * fl {
                            sz + fl
                        } else {
                            1 + 2 * fl
                        }) - *final(out_idx)
                    }
                }
            }),
    {
        if self.index >= 0 {
            return Ok(0);
        }
        let fl: usize = self.filter_length as usize;
        let sz: usize = *out_sz;
        let num: usize = if in_count + sz < fl + 1 {
            in_count + sz
        } else {
            fl + 1
        };
        dst.grow(fl * 2 + 1);
        let ghost g = dst.chans();
        if num > sz {
            audio::splice(dst, fl + sz, src, num - sz);
        } else {
            proof {
                let want = audio::planes_splice(g, fl + sz, src.chans(), num - sz);
                assert forall|k: int| 0 <= k < g.len() implies g[k] == #[trigger] want[k] by {
                    assert(g[k] =~= want[k]);
                }
                assert(g =~= want);
            }
        }
        if num < fl + 1 {
            *out_sz = num;
            *out_idx = fl;
            return Ok(i32::MAX);
        }
        invert(dst, fl);
        let pc: i64 = self.phase_count as i64;
        proof {
            self.lemma_lead();
        }
        let lead: i64 = (-(self.index as i64) + pc - 1) / pc;
        self.index = (self.index as i64 + lead * pc) as i32;
        *out_idx = fl - lead as usize;
        *out_sz = (if sz + fl > 1 + fl * 2 {
            sz + fl
        } else {
            1 + fl * 2
        }) - *out_idx;
        if num > sz {
            Ok((num - sz) as i32)
        } else {
            Ok(0)
        }
    }

    pub(crate) proof fn lemma_lead(self)
        requires
            self.wf(),
            self.index < 0,
        ensures
            1 <= self.lead() <= (self.filter_length - 1) / 2,
            0 <= self.index + self.lead() * self.phase_count < self.phase_count,
            0 <= self.lead() * self.phase_count <= 0x1_0000_0000,
            -self.phase_count * ((self.filter_length - 1) / 2) <= 0,
    {
        let pc = self.phase_count as int;
        let h = (self.filter_length - 1) / 2;
        let x = -self.index + pc - 1;
        let k = x / pc;
        lemma_fundamental_div_mod(x, pc);
        lemma_mod_bound(x, pc);
        lemma_mul_is_commutative(pc, k);
        assert(k >= 1) by (nonlinear_arith)
            requires
                x == k * pc + x % pc,
                x >= pc,
                x % pc < pc,
                pc >= 1,
        ;
        assert(-pc * h == -(pc * h)) by (nonlinear_arith);
        assert(k <= h) by (nonlinear_arith)
            requires
                x == k * pc + x % pc,
                x % pc >= 0,
                x <= pc * h + pc - 1,
                pc >= 1,
        ;
        assert(pc * h >= 0) by (nonlinear_arith)
            requires
                pc >= 0,
                h >= 0,
        ;
    }
}

// --- the filter bank -----------------------------------------------------------------

/// What the values of a low-pass filter depend on.
#[derive(Clone, Copy, Debug, PartialEq, Eq, Structural)]
pub struct FilterShape {
    /// Cutoff frequency relative to half the input rate.
    pub factor: F64,
    /// Taps of each phase.
    pub tap_count: i32,
    /// Phases per input sample.
    pub phase_count: i32,
    pub filter_type: FilterType,
    /// Steepness of a Kaiser window.
    pub kaiser_beta: F64,
}

/// The values of a low-pass filter, phase by phase, before normalization. The
/// second half of an even number of phases is left out: it mirrors the first.
#[derive(Clone, Debug)]
pub struct FilterTable {
    pub shape: FilterShape,
    pub taps: Vec<F64>,
}

/// Phases that a table lists.
pub open spec fn listed(phase_count: int) -> int {
    if phase_count % 2 == 1 {
        phase_count
    } else {
        phase_count / 2 + 1
    }
}

impl FilterTable {
    /// The table lists the filter of a shape.
    pub open spec fn describes(self, shape: FilterShape) -> bool {
        self.shape == shape && self.taps@.len() == listed(shape.phase_count as int)
            * shape.tap_count
    }
}

/// Sum of the first `n` values: the gain of the first phase.
pub open spec fn gain_sum(taps: Seq<F64>, n: nat) -> F64
    decreases n,
{
    if n == 0 {
        F64 { bits: 0 }
    } else {
        gain_sum(taps, (n - 1) as nat).s_plus(taps[n - 1])
    }
}

/// A value as a coefficient of the sample format.
pub open spec fn coefficient(f: SampleFormat, y: F64, norm: F64) -> int {
    let v = y.s_times(F64::s_from_int(pow2(coeff_bits(f)) as int)).s_over(norm);
    match f {
        SampleFormat::S16p => float::saturate(
            arith::wrap32(
                float::to_int(Format::Binary32, ToInt::Nearest, v.s_narrow().bits as u64, 0),
            ),
            -32768,
            32767,
        ),
        SampleFormat::S32p => float::saturate(
            float::to_int(Format::Binary64, ToInt::Nearest, v.bits, 0),
            i32::MIN as int,
            i32::MAX as int,
        ),
        SampleFormat::Fltp => v.s_narrow().bits as int,
        _ => v.bits as int,
    }
}

/// Position in the table of tap `i` of phase `ph`.
pub open spec fn listing(tap_count: int, phase_count: int, ph: int, i: int) -> int {
    if phase_count % 2 == 0 && (2 * ph > phase_count || (2 * ph == phase_count && 2 * i
        >= tap_count)) {
        (phase_count - ph) * tap_count + (tap_count - 1 - i)
    } else {
        ph * tap_count + i
    }
}

/// Tap `i` of phase `ph`; there are zeros behind the last tap.
pub open spec fn phase_tap(f: SampleFormat, taps: Seq<F64>, tc: int, pc: int, ph: int, i: int) -> int {
    if i < tc {
        coefficient(f, taps[listing(tc, pc, ph, i)], gain_sum(taps, tc as nat))
    } else {
        0
    }
}

/// Entry `i` of row `ph` of a bank. The row behind the last phase is the first
/// one, moved on by one tap.
pub open spec fn bank_entry(
    f: SampleFormat,
    taps: Seq<F64>,
    tc: int,
    alloc: int,
    pc: int,
    ph: int,
    i: int,
) -> int {
    if ph < pc {
        phase_tap(f, taps, tc, pc, ph, i)
    } else if i == 0 {
        phase_tap(f, taps, tc, pc, 0, alloc - 1)
    } else {
        phase_tap(f, taps, tc, pc, 0, i - 1)
    }
}

/// A filter bank holds the entries that a table gives.
pub open spec fn bank_of(
    bank: Seq<i128>,
    f: SampleFormat,
    taps: Seq<F64>,
    tc: int,
    alloc: int,
    pc: int,
) -> bool {
    &&& bank.len() == alloc * (pc + 1)
    &&& forall|ph: int, i: int|
        0 <= ph <= pc && 0 <= i < alloc ==> #[trigger] row_entry(bank, alloc, ph, i) == bank_entry(
            f,
            taps,
            tc,
            alloc,
            pc,
            ph,
            i,
        )
}

pub open spec fn row_entry(bank: Seq<i128>, alloc: int, ph: int, i: int) -> int {
    bank[ph * alloc + i] as int
}

fn coefficient_exec(f: SampleFormat, y: F64, norm: F64) -> (r: i128)
    requires
        resamplable(f),
    ensures
        r == coefficient(f, y, norm),
        arith::gain_ok(filter_arith(f), r as int),
{
    proof {
        lemma2_to64();
    }
    let scale: i64 = match f {
        SampleFormat::S16p => 0x8000,
        SampleFormat::S32p => 0x4000_0000,
        _ => 1,
    };
    let v: F64 = y.times(F64::from_int(scale)).over(norm);
    match f {
        SampleFormat::S16p => {
            let t: i64 = to_int_f(Format::Binary32, ToInt::Nearest, v.narrow().bits as u64, 0);
            clip(arith::wrap_i128(t as i128, 32), -32768, 32767)
        },
        SampleFormat::S32p => {
            let t: i64 = to_int_f(Format::Binary64, ToInt::Nearest, v.bits, 0);
            clip(t as i128, i32::MIN as i128, i32::MAX as i128)
        },
        SampleFormat::Fltp => v.narrow().bits as i128,
        _ => v.bits as i128,
    }
}

pub(crate) proof fn lemma_listing(tc: int, pc: int, ph: int, i: int)
    requires
        1 <= tc,
        1 <= pc,
        0 <= ph < pc,
        0 <= i < tc,
    ensures
        0 <= listing(tc, pc, ph, i) < listed(pc) * tc,
{
    let q = if pc % 2 == 0 && (2 * ph > pc || (2 * ph == pc && 2 * i >= tc)) {
        pc - ph
    } else {
        ph
    };
    assert(0 <= q < listed(pc));
    assert(0 <= q * tc && q * tc + tc <= listed(pc) * tc) by (nonlinear_arith)
        requires
            0 <= q,
            q + 1 <= listed(pc),
            tc >= 0,
    ;
}

fn phase_tap_exec(f: SampleFormat, taps: &Vec<F64>, norm: F64, tc: usize, pc: usize, ph: usize, i: usize) -> (r: i128)
    requires
        resamplable(f),
        1 <= tc,
        1 <= pc,
        ph < pc,
        taps@.len() == listed(pc as int) * tc,
        norm == gain_sum(taps@, tc as nat),
        tc <= 0x100_0000,
        pc <= 0x4000_0000,
    ensures
        r == phase_tap(f, taps@, tc as int, pc as int, ph as int, i as int),
        arith::gain_ok(filter_arith(f), r as int),
{
    if i >= tc {
        return 0;
    }
    let n: usize = taps.len();
    proof {
        lemma_listing(tc as int, pc as int, ph as int, i as int);
    }
    let mirrored: bool = pc % 2 == 0 && (ph as u64 * 2 > pc as u64 || (ph as u64 * 2 == pc as u64
        && i as u64 * 2 >= tc as u64));
    let q: usize = if mirrored {
        pc - ph
    } else {
        ph
    };
    let k: usize = if mirrored {
        tc - 1 - i
    } else {
        i
    };
    assert(q * tc >= 0) by (nonlinear_arith)
        requires
            q >= 0,
            tc >= 0,
    ;
    coefficient_exec(f, taps[q * tc + k], norm)
}

/// Builds a filter bank from the values of its filter.
fn build_filter(f: SampleFormat, taps: &Vec<F64>, tc: usize, alloc: usize, pc: usize) -> (bank: Vec<
    i128,
>)
    requires
        resamplable(f),
        1 <= tc <= alloc,
        1 <= pc,
        taps@.len() == listed(pc as int) * tc,
        alloc <= 0x100_0000,
        pc <= 0x4000_0000,
    ensures
        bank_of(bank@, f, taps@, tc as int, alloc as int, pc as int),
        forall|t: int|
            0 <= t < bank@.len() ==> #[trigger] arith::gain_ok(filter_arith(f), bank@[t] as int),
{
    let mut norm: F64 = F64 { bits: 0 };
    let mut k: usize = 0;
    proof {
        assert(listed(pc as int) * tc >= tc) by (nonlinear_arith)
            requires
                listed(pc as int) >= 1,
                tc >= 0,
        ;
    }
    while k < tc
        invariant
            k <= tc <= taps@.len(),
            norm == gain_sum(taps@, k as nat),
        decreases tc - k,
    {
        norm = norm.plus(taps[k]);
        k = k + 1;
    }
    let mut bank: Vec<i128> = Vec::new();
    let mut ph: usize = 0;
    while ph <= pc
        invariant
            resamplable(f),
            1 <= tc <= alloc,
            1 <= pc,
            taps@.len() == listed(pc as int) * tc,
            norm == gain_sum(taps@, tc as nat),
            alloc <= 0x100_0000,
            pc <= 0x4000_0000,
            ph <= pc + 1,
            bank@.len() == ph * alloc,
            forall|p: int, i: int|
                0 <= p < ph && 0 <= i < alloc ==> #[trigger] row_entry(
                    bank@,
                    alloc as int,
                    p,
                    i,
                ) == bank_entry(f, taps@, tc as int, alloc as int, pc as int, p, i),
            forall|t: int|
                0 <= t < bank@.len() ==> #[trigger] arith::gain_ok(filter_arith(f), bank@[t] as int),
        decreases pc + 1 - ph,
    {
        let mut i: usize = 0;
        proof {
            assert((ph + 1) * alloc == ph * alloc + alloc) by (nonlinear_arith);
        }
        while i < alloc
            invariant
                resamplable(f),
                1 <= tc <= alloc,
                1 <= pc,
                taps@.len() == listed(pc as int) * tc,
                norm == gain_sum(taps@, tc as nat),
                alloc <= 0x100_0000,
                pc <= 0x4000_0000,
                ph <= pc,
                i <= alloc,
                bank@.len() == ph * alloc + i,
                forall|p: int, j: int|
                    0 <= p <= ph && 0 <= j < alloc && (p < ph || j < i) ==> #[trigger] row_entry(
                        bank@,
                        alloc as int,
                        p,
                        j,
                    ) == bank_entry(f, taps@, tc as int, alloc as int, pc as int, p, j),
                forall|t: int|
                    0 <= t < bank@.len() ==> #[trigger] arith::gain_ok(
                        filter_arith(f),
                        bank@[t] as int,
                    ),
            decreases alloc - i,
        {
            let v: i128 = if ph < pc {
                phase_tap_exec(f, taps, norm, tc, pc, ph, i)
            } else if i == 0 {
                phase_tap_exec(f, taps, norm, tc, pc, 0, alloc - 1)
            } else {
                phase_tap_exec(f, taps, norm, tc, pc, 0, i - 1)
            };
            let ghost before = bank@;
            bank.push(v);
            proof {
                assert forall|p: int, j: int|
                    0 <= p <= ph && 0 <= j < alloc && (p < ph || j < i + 1) implies #[trigger] row_entry(
                    bank@,
                    alloc as int,
                    p,
                    j,
                ) == bank_entry(f, taps@, tc as int, alloc as int, pc as int, p, j) by {
                    lemma_rows(ph as int, alloc as int, p, j);
                    if p < ph || j < i {
                        assert(row_entry(before, alloc as int, p, j) == row_entry(
                            bank@,
                            alloc as int,
                            p,
                            j,
                        ));
                    }
                }
                assert forall|t: int| 0 <= t < bank@.len() implies #[trigger] arith::gain_ok(
                    filter_arith(f),
                    bank@[t] as int,
                ) by {
                    if t < before.len() {
                        assert(bank@[t] == before[t]);
                        assert(arith::gain_ok(filter_arith(f), before[t] as int));
                    }
                }
            }
            i = i + 1;
        }
        ph = ph + 1;
    }
    proof {
        lemma_mul_is_commutative(alloc as int, pc + 1);
    }
    bank
}

proof fn lemma_rows(rows: int, n: int, p: int, j: int)
    requires
        0 <= p <= rows,
        0 <= j < n,
    ensures
        0 <= p * n + j,
        p < rows ==> p * n + j < rows * n,
{
    assert(0 <= p * n) by (nonlinear_arith)
        requires
            0 <= p,
            0 <= n,
    ;
    assert(p < rows ==> p * n + n <= rows * n) by (nonlinear_arith)
        requires
            0 <= n,
    ;
}

// --- planning ------------------------------------------------------------------------

/// The usual cutoff frequency, 0.97 of half the rate.
pub const DEFAULT_CUTOFF: u64 = 0x3fef_0a3d_70a3_d70a;

/// Longest filter, in taps.
pub const MAX_TAPS: i64 = 8388607;

/// Cutoff relative to half the input rate: lower when the rate is reduced.
pub open spec fn low_pass(out_rate: int, in_rate: int, cutoff: F64) -> F64 {
    let c = if cutoff.s_same(F64 { bits: 0 }) {
        F64 { bits: DEFAULT_CUTOFF }
    } else {
        cutoff
    };
    F64::s_from_int(out_rate).s_times(c).s_over(F64::s_from_int(in_rate)).s_min(F64 { bits: ONE })
}

/// Taps that a filter would need, as a fraction.
pub open spec fn wanted_taps(filter_size: int, factor: F64) -> F64 {
    F64::s_from_int(filter_size).s_over(factor)
}

/// Taps of a filter: one, or an even number.
pub open spec fn taps_for(filter_size: int, factor: F64) -> int {
    let n = wanted_taps(filter_size, factor).s_to_i32(ToInt::Ceil);
    if n <= 1 {
        1
    } else {
        (n + 1) / 2 * 2
    }
}

/// A filter longer than the clock can handle.
pub open spec fn too_long(filter_size: int, factor: F64, phase_count: int) -> bool {
    let len = taps_for(filter_size, factor);
    ||| F64::s_from_int(MAX_TAPS as int).s_less(wanted_taps(filter_size, factor))
    ||| len > MAX_TAPS + 1
    ||| phase_count * ((len - 1) / 2) > i32::MAX
}

/// Phases of a bank: as many as the ratio of the rates needs, if that many will
/// do, and otherwise `2^phase_shift`.
pub open spec fn phases_for(out_rate: int, in_rate: int, phase_shift: int, exact: bool) -> int {
    let most = pow2(phase_shift as nat) as int;
    let needed = mathematics::lowest(out_rate as nat, in_rate as nat).0 as int;
    if exact && needed <= most {
        needed
    } else {
        most
    }
}

/// Phases to change to when the rate is to be adjusted: the largest multiple
/// up to `2^phase_shift`.
pub open spec fn phases_reserved(out_rate: int, in_rate: int, phase_shift: int, exact: bool) -> int {
    let most = pow2(phase_shift as nat) as int;
    let n = phases_for(out_rate, in_rate, phase_shift, exact);
    n * (most / n)
}

/// Both numbers doubled until one of them is at least `2^20`.
pub open spec fn doubled(a: int, b: int) -> (int, int)
    decreases 0x20_0000 - a,
{
    if 1 <= a < 0x10_0000 && b < 0x10_0000 {
        doubled(2 * a, 2 * b)
    } else {
        (a, b)
    }
}

/// Ticks per phase and per output sample: the ratio `a / b` in lowest terms,
/// scaled up.
pub open spec fn increments(a: int, b: int) -> (int, int) {
    let r = mathematics::lowest(a as nat, b as nat);
    doubled(r.0 as int, r.1 as int)
}

/// The ratio `a / b` can be represented.
pub open spec fn ratio_fits(a: int, b: int) -> bool {
    let r = mathematics::lowest(a as nat, b as nat);
    r.0 <= MAX_INCR && r.1 <= MAX_INCR
}

/// Scaling up does not change the ratio.
pub proof fn lemma_doubled(a: int, b: int)
    requires
        1 <= a,
        1 <= b,
    ensures
        a <= doubled(a, b).0,
        b <= doubled(a, b).1,
        doubled(a, b).0 * b == doubled(a, b).1 * a,
    decreases 0x20_0000 - a,
{
    if 1 <= a < 0x10_0000 && b < 0x10_0000 {
        lemma_doubled(2 * a, 2 * b);
        let r = doubled(2 * a, 2 * b);
        assert(r.0 * b == r.1 * a) by (nonlinear_arith)
            requires
                r.0 * (2 * b) == r.1 * (2 * a),
        ;
    } else {
        assert(a * b == b * a) by (nonlinear_arith);
    }
}

fn increments_exec(a: u64, b: u64) -> (r: Option<(i32, i32)>)
    requires
        a > 0,
        b > 0,
    ensures
        r.is_some() == ratio_fits(a as int, b as int),
        r matches Some((x, y)) ==> {
            &&& (x as int, y as int) == increments(a as int, b as int)
            &&& 1 <= x <= 0x4000_0000
            &&& 1 <= y <= 0x4000_0000
        },
{
    match reduce_exact(a, b, MAX_INCR as u64) {
        None => None,
        Some((n, d)) => {
            let mut x: i32 = n as i32;
            let mut y: i32 = d as i32;
            let ghost want = doubled(n as int, d as int);
            while y < 0x10_0000 && x < 0x10_0000
                invariant
                    1 <= x <= 0x4000_0000,
                    1 <= y <= 0x4000_0000,
                    doubled(x as int, y as int) == want,
                decreases 0x20_0000 - x,
            {
                x = x * 2;
                y = y * 2;
            }
            Some((x, y))
        },
    }
}

fn low_pass_exec(out_rate: i32, in_rate: i32, cutoff: F64) -> (r: F64)
    ensures
        r == low_pass(out_rate as int, in_rate as int, cutoff),
{
    let c: F64 = if cutoff.same(F64 { bits: 0 }) {
        F64 { bits: DEFAULT_CUTOFF }
    } else {
        cutoff
    };
    F64::from_int(out_rate as i64).times(c).over(F64::from_int(in_rate as i64)).smaller(
        F64 { bits: ONE },
    )
}

fn power_of_two(n: i32) -> (r: i32)
    requires
        0 <= n <= 30,
    ensures
        r == pow2(n as nat),
        1 <= r <= 0x4000_0000,
{
    let mut r: i32 = 1;
    let mut k: i32 = 0;
    proof {
        lemma2_to64();
    }
    while k < n
        invariant
            0 <= k <= n <= 30,
            r == pow2(k as nat),
            1 <= r <= 0x4000_0000,
            pow2(30) == 0x4000_0000,
        decreases n - k,
    {
        proof {
            lemma_pow2_unfold((k + 1) as nat);
            lemma_pow2_pos((k + 1) as nat);
            if k + 1 < 30 {
                lemma_pow2_strictly_increases((k + 1) as nat, 30);
            }
        }
        r = r * 2;
        k = k + 1;
    }
    r
}

/// The shape of the filter that a resampler needs, the phases it reserves, and
/// its increments.
#[derive(Clone, Copy, Debug)]
pub struct Plan {
    pub shape: FilterShape,
    pub phase_count_compensation: i32,
    pub src_incr: i32,
    pub dst_incr: i32,
}

/// The request cannot be served: why.
pub open spec fn plan_refused(
    e: Error,
    out_rate: int,
    in_rate: int,
    filter_size: int,
    phase_shift: int,
    cutoff: F64,
    format: SampleFormat,
    exact: bool,
) -> bool {
    let factor = low_pass(out_rate, in_rate, cutoff);
    let pc = phases_for(out_rate, in_rate, phase_shift, exact);
    if !resamplable(format) {
        e.is_unsupported("sample format "@ + format.spec_name() + " for resampling"@)
    } else if too_long(filter_size, factor, pc) {
        e.is_invalid("filter length too large"@)
    } else {
        e.is_invalid(
            "resampling ratio "@ + text::signed_decimal(out_rate) + "/"@ + text::signed_decimal(
                in_rate,
            ) + " not exact in int32"@,
        )
    }
}

/// The request can be served, given the filter's values.
pub open spec fn plannable(
    out_rate: int,
    in_rate: int,
    filter_size: int,
    phase_shift: int,
    cutoff: F64,
    format: SampleFormat,
    exact: bool,
) -> bool {
    let pc = phases_for(out_rate, in_rate, phase_shift, exact);
    &&& resamplable(format)
    &&& !too_long(filter_size, low_pass(out_rate, in_rate, cutoff), pc)
    &&& ratio_fits(out_rate, in_rate * pc)
}

/// The shape of the filter for a request.
pub open spec fn shape_for(
    out_rate: int,
    in_rate: int,
    filter_size: int,
    phase_shift: int,
    cutoff: F64,
    filter_type: FilterType,
    kaiser_beta: F64,
    exact: bool,
) -> FilterShape {
    let factor = low_pass(out_rate, in_rate, cutoff);
    FilterShape {
        factor,
        tap_count: taps_for(filter_size, factor) as i32,
        phase_count: phases_for(out_rate, in_rate, phase_shift, exact) as i32,
        filter_type,
        kaiser_beta,
    }
}

proof fn lemma_phases(out_rate: int, in_rate: int, phase_shift: int, exact: bool)
    requires
        1 <= out_rate <= i32::MAX,
        1 <= in_rate <= i32::MAX,
        0 <= phase_shift <= 30,
    ensures
        ({
            let n = phases_for(out_rate, in_rate, phase_shift, exact);
            let m = phases_reserved(out_rate, in_rate, phase_shift, exact);
            1 <= n <= m <= pow2(phase_shift as nat) && m % n == 0 && pow2(phase_shift as nat)
                <= 0x4000_0000
        }),
{
    mathematics::lemma_lowest_pos(out_rate as nat, in_rate as nat);
    let most = pow2(phase_shift as nat) as int;
    lemma2_to64();
    lemma_pow2_pos(phase_shift as nat);
    if phase_shift < 30 {
        lemma_pow2_strictly_increases(phase_shift as nat, 30);
    }
    let n = phases_for(out_rate, in_rate, phase_shift, exact);
    lemma_fundamental_div_mod(most, n);
    lemma_mod_bound(most, n);
    let q = most / n;
    assert(q >= 1) by (nonlinear_arith)
        requires
            most == n * q + most % n,
            most % n < n,
            most >= n,
            n >= 1,
    ;
    assert(n * q >= n) by (nonlinear_arith)
        requires
            q >= 1,
            n >= 1,
    ;
    lemma_mod_multiples_basic(q, n);
    lemma_mul_is_commutative(q, n);
}

/// Plans a resampler.
pub fn plan_resampler(
    out_rate: i32,
    in_rate: i32,
    filter_size: i32,
    phase_shift: i32,
    cutoff: F64,
    format: SampleFormat,
    filter_type: FilterType,
    kaiser_beta: F64,
    exact_rational: i32,
) -> (r: Result<Plan, Error>)
    requires
        out_rate >= 1,
        in_rate >= 1,
        0 <= phase_shift <= 30,
    ensures
        r.is_ok() == plannable(
            out_rate as int,
            in_rate as int,
            filter_size as int,
            phase_shift as int,
            cutoff,
            format,
            exact_rational != 0,
        ),
        r matches Err(e) ==> plan_refused(
            e,
            out_rate as int,
            in_rate as int,
            filter_size as int,
            phase_shift as int,
            cutoff,
            format,
            exact_rational != 0,
        ),
        r matches Ok(p) ==> {
            &&& p.shape == shape_for(
                out_rate as int,
                in_rate as int,
                filter_size as int,
                phase_shift as int,
                cutoff,
                filter_type,
                kaiser_beta,
                exact_rational != 0,
            )
            &&& p.shape.tap_count == taps_for(filter_size as int, p.shape.factor)
            &&& 1 <= p.shape.tap_count <= MAX_TAPS + 1
            &&& p.shape.phase_count == phases_for(
                out_rate as int,
                in_rate as int,
                phase_shift as int,
                exact_rational != 0,
            )
            &&& p.phase_count_compensation == phases_reserved(
                out_rate as int,
                in_rate as int,
                phase_shift as int,
                exact_rational != 0,
            )
            &&& 1 <= p.shape.phase_count <= p.phase_count_compensation <= 0x4000_0000
            &&& p.phase_count_compensation as int % p.shape.phase_count as int == 0
            &&& p.shape.phase_count * ((p.shape.tap_count - 1) / 2) <= i32::MAX
            &&& (p.src_incr as int, p.dst_incr as int) == increments(
                out_rate as int,
                in_rate * p.shape.phase_count,
            )
            &&& 1 <= p.src_incr <= 0x4000_0000
            &&& 1 <= p.dst_incr <= 0x4000_0000
        },
{
    let factor: F64 = low_pass_exec(out_rate, in_rate, cutoff);
    let most: i32 = power_of_two(phase_shift);
    let mut pc: i32 = most;
    let mut pcc: i32 = most;
    proof {
        mathematics::lemma_lowest_pos(out_rate as nat, in_rate as nat);
        lemma_phases(out_rate as int, in_rate as int, phase_shift as int, exact_rational != 0);
        lemma_div_by_self(most as int);
    }
    if exact_rational != 0 {
        match reduce_exact(out_rate as u64, in_rate as u64, 0x7fff_ffff) {
            Some((needed, _)) => {
                if needed <= most as u64 {
                    pc = needed as i32;
                    pcc = (needed * (most as u64 / needed)) as i32;
                }
            },
            None => {},
        }
    }
    assert(pc == phases_for(out_rate as int, in_rate as int, phase_shift as int, exact_rational != 0));
    let known: bool = match format {
        SampleFormat::S16p | SampleFormat::S32p | SampleFormat::Fltp | SampleFormat::Dblp => true,
        _ => false,
    };
    if !known {
        let mut t: String = "sample format ".to_owned();
        t.append(format.name());
        t.append(" for resampling");
        return Err(Error::Unsupported(t));
    }
    let wanted: F64 = F64::from_int(filter_size as i64).over(factor);
    let n: i32 = wanted.to_i32(ToInt::Ceil);
    let len: i64 = if n <= 1 {
        1
    } else {
        (n as i64 + 1) / 2 * 2
    };
    assert(len == taps_for(filter_size as int, factor));
    proof {
        arith::lemma_mul_bound(pc as int, (len - 1) / 2, 0x4000_0000, 0x1_0000_0000);
    }
    if F64::from_int(MAX_TAPS).less(wanted) || len > MAX_TAPS + 1 || pc as i64 * ((len - 1) / 2)
        > 0x7fff_ffff {
        return Err(invalid("filter length too large"));
    }
    proof {
        arith::lemma_mul_bound(in_rate as int, pc as int, 0x8000_0000, 0x4000_0000);
        assert(in_rate * pc > 0) by (nonlinear_arith)
            requires
                in_rate > 0,
                pc > 0,
        ;
    }
    match increments_exec(out_rate as u64, in_rate as u64 * pc as u64) {
        None => {
            let mut t: String = "resampling ratio ".to_owned();
            push_signed(&mut t, out_rate);
            t.append("/");
            push_signed(&mut t, in_rate);
            t.append(" not exact in int32");
            Err(Error::InvalidArgument(t))
        },
        Some((src_incr, dst_incr)) => Ok(
            Plan {
                shape: FilterShape {
                    factor,
                    tap_count: len as i32,
                    phase_count: pc,
                    filter_type,
                    kaiser_beta,
                },
                phase_count_compensation: pcc,
                src_incr,
                dst_incr,
            },
        ),
    }
}

proof fn lemma_gcd_multiple(a: nat, k: nat)
    requires
        a > 0,
    ensures
        mathematics::gcd(a, a * k) == a,
{
    let g = mathematics::gcd(a, a * k);
    mathematics::lemma_gcd(a, a * k);
    assert(a == a * 1);
    assert(mathematics::divides(a, a));
    assert(mathematics::divides(a, a * k));
    assert(mathematics::divides(a, g));
    let x = choose|x: nat| g == #[trigger] (a * x);
    let y = choose|y: nat| a == #[trigger] (g * y);
    assert(x >= 1 && y >= 1) by (nonlinear_arith)
        requires
            g == a * x,
            a == g * y,
            a > 0,
    ;
    assert(g >= a) by (nonlinear_arith)
        requires
            g == a * x,
            x >= 1,
            a >= 0,
    ;
    assert(a >= g) by (nonlinear_arith)
        requires
            a == g * y,
            y >= 1,
            g >= 0,
    ;
}

/// With as many phases as the ratio needs, an output sample lasts a whole
/// number of phases.
pub proof fn lemma_exact_phases(out_rate: int, in_rate: int, phase_shift: int)
    requires
        1 <= out_rate <= i32::MAX,
        1 <= in_rate <= i32::MAX,
        0 <= phase_shift <= 30,
        phases_for(out_rate, in_rate, phase_shift, true) != phases_reserved(
            out_rate,
            in_rate,
            phase_shift,
            true,
        ),
    ensures
        ({
            let pc = phases_for(out_rate, in_rate, phase_shift, true);
            let r = increments(out_rate, in_rate * pc);
            r.1 % r.0 == 0
        }),
{
    let pc = phases_for(out_rate, in_rate, phase_shift, true);
    let most = pow2(phase_shift as nat) as int;
    lemma_phases(out_rate, in_rate, phase_shift, true);
    lemma_div_by_self(most);
    let o = out_rate as nat;
    let i = in_rate as nat;
    let g = mathematics::gcd(o, i);
    mathematics::lemma_lowest_pos(o, i);
    let m = mathematics::lowest(o, i).1;
    let p = mathematics::lowest(o, i).0;
    assert(pc == p);
    assert(in_rate * pc == o * m) by (nonlinear_arith)
        requires
            p * i == m * o,
            pc == p,
            in_rate == i,
    ;
    lemma_gcd_multiple(o, m);
    assert(mathematics::lowest(o, o * m) == (1nat, m)) by {
        lemma_div_by_self(o as int);
        lemma_div_multiples_vanish(m as int, o as int);
    }
    assert(mathematics::lowest(out_rate as nat, (in_rate * pc) as nat) == (1nat, m));
    lemma_doubled(1, m as int);
    let r = increments(out_rate, in_rate * pc);
    assert(r.1 == m * r.0) by (nonlinear_arith)
        requires
            r.0 * m == r.1 * 1,
    ;
    lemma_mod_multiples_basic(m as int, r.0);
}

pub(crate) fn table_describes(table: Option<&FilterTable>, shape: FilterShape) -> (r: bool)
    requires
        1 <= shape.tap_count,
        1 <= shape.phase_count <= 0x4000_0000,
    ensures
        r == (table matches Some(t) && t.describes(shape)),
{
    match table {
        None => false,
        Some(t) => {
            let pc: u64 = shape.phase_count as u64;
            let n: u64 = if pc % 2 == 1 {
                pc
            } else {
                pc / 2 + 1
            };
            proof {
                arith::lemma_mul_bound(n as int, shape.tap_count as int, 0x4000_0000, 0x8000_0000);
            }
            t.shape == shape && t.taps.len() as u64 == n * shape.tap_count as u64
        },
    }
}

impl ResampleContext {
    /// A resampler as it is made for a request.
    pub open spec fn made_for(
        self,
        out_rate: int,
        in_rate: int,
        filter_size: int,
        phase_shift: int,
        linear: i32,
        cutoff: F64,
        format: SampleFormat,
        filter_type: FilterType,
        kaiser_beta: F64,
        exact: bool,
        taps: Seq<F64>,
    ) -> bool {
        let factor = low_pass(out_rate, in_rate, cutoff);
        let pc = phases_for(out_rate, in_rate, phase_shift, exact);
        &&& self.filter_length == taps_for(filter_size, factor)
        &&& self.filter_alloc == (self.filter_length + 7) / 8 * 8
        &&& self.phase_count == pc
        &&& self.phase_count_compensation == phases_reserved(out_rate, in_rate, phase_shift, exact)
        &&& (self.src_incr as int, self.ideal_dst_incr as int) == increments(out_rate, in_rate * pc)
        &&& self.dst_incr == self.ideal_dst_incr
        &&& self.index == -(pc * ((self.filter_length - 1) / 2))
        &&& self.frac == 0
        &&& self.compensation_distance == 0
        &&& self.linear == linear
        &&& self.filter_type == filter_type
        &&& self.kaiser_beta == kaiser_beta
        &&& self.factor == factor
        &&& self.format == format
        &&& bank_of(
            self.bank@,
            format,
            taps,
            self.filter_length as int,
            self.filter_alloc as int,
            pc,
        )
    }

    /// A resampler that was just made reports no delay while nothing is
    /// buffered, in whatever unit: it starts half a window early.
    pub proof fn lemma_fresh_delay(
        self,
        out_rate: int,
        in_rate: int,
        filter_size: int,
        phase_shift: int,
        linear: i32,
        cutoff: F64,
        format: SampleFormat,
        filter_type: FilterType,
        kaiser_beta: F64,
        exact: bool,
        taps: Seq<F64>,
        base: int,
        in_sample_rate: int,
    )
        requires
            self.wf(),
            self.made_for(
                out_rate,
                in_rate,
                filter_size,
                phase_shift,
                linear,
                cutoff,
                format,
                filter_type,
                kaiser_beta,
                exact,
                taps,
            ),
            base >= 0,
            in_sample_rate > 0,
        ensures
            self.pending(0) == 0,
            mathematics::rescale_spec(
                self.pending(0),
                base,
                in_sample_rate * self.src_incr * self.phase_count,
                Rounding::NearInf,
            ) == 0,
    {
        let pc = self.phase_count as int;
        let h = (self.filter_length - 1) / 2;
        assert((0 - h) * pc == -(pc * h)) by (nonlinear_arith);
        assert(self.pending(0) == 0) by (nonlinear_arith)
            requires
                self.pending(0) == 0 * self.src_incr - 0,
        ;
        let c = in_sample_rate * self.src_incr * pc;
        assert(c > 0) by (nonlinear_arith)
            requires
                c == in_sample_rate * self.src_incr * pc,
                in_sample_rate > 0,
                self.src_incr > 0,
                pc > 0,
        ;
        assert((0 * base + c / 2) / c == 0) by (nonlinear_arith)
            requires
                c > 0,
        ;
    }

    /// A resampler from `in_rate` to `out_rate`. `table` holds the values of the
    /// filter that [`plan_resampler`] asks for.
    pub fn new(
        out_rate: i32,
        in_rate: i32,
        filter_size: i32,
        phase_shift: i32,
        linear: i32,
        cutoff0: F64,
        format: SampleFormat,
        filter_type: FilterType,
        kaiser_beta: F64,
        _precision: F64,
        _cheby: i32,
        exact_rational: i32,
        table: Option<&FilterTable>,
    ) -> (r: Result<ResampleContext, Error>)
        requires
            out_rate >= 1,
            in_rate >= 1,
            0 <= phase_shift <= 30,
        ensures
            ({
                let o = out_rate as int;
                let i = in_rate as int;
                let fs = filter_size as int;
                let ps = phase_shift as int;
                let ex = exact_rational != 0;
                let shape = shape_for(o, i, fs, ps, cutoff0, filter_type, kaiser_beta, ex);
                let known = table matches Some(t) && t.describes(shape);
                match r {
                    Err(e) => if plannable(o, i, fs, ps, cutoff0, format, ex) {
                        !known && e.is_invalid("no filter table for this ratio"@)
                    } else {
                        plan_refused(e, o, i, fs, ps, cutoff0, format, ex)
                    },
                    Ok(c) => {
                        &&& plannable(o, i, fs, ps, cutoff0, format, ex) && known
                        &&& c.wf()
                        &&& c.running()
                        &&& c.made_for(
                            o,
                            i,
                            fs,
                            ps,
                            linear,
                            cutoff0,
                            format,
                            filter_type,
                            kaiser_beta,
                            ex,
                            table.unwrap().taps@,
                        )
                    },
                }
            }),
    {
        let p: Plan = match plan_resampler(
            out_rate,
            in_rate,
            filter_size,
            phase_shift,
            cutoff0,
            format,
            filter_type,
            kaiser_beta,
            exact_rational,
        ) {
            Ok(p) => p,
            Err(e) => {
                return Err(e);
            },
        };
        if !table_describes(table, p.shape) {
            return Err(invalid("no filter table for this ratio"));
        }
        let len: i32 = p.shape.tap_count;
        let alloc: i32 = (len + 7) / 8 * 8;
        let pc: i32 = p.shape.phase_count;
        let bank: Vec<i128> = match table {
            Some(t) => build_filter(format, &t.taps, len as usize, alloc as usize, pc as usize),
            None => Vec::new(),
        };
        proof {
            lemma_phases(out_rate as int, in_rate as int, phase_shift as int, exact_rational != 0);
            if p.phase_count_compensation != pc {
                if exact_rational != 0 {
                    lemma_exact_phases(out_rate as int, in_rate as int, phase_shift as int);
                } else {
                    lemma_div_by_self(pow2(phase_shift as nat) as int);
                }
            }
            lemma_fundamental_div_mod(p.dst_incr as int, p.src_incr as int);
            lemma_mod_bound(p.dst_incr as int, p.src_incr as int);
            lemma_div_pos_is_pos(p.dst_incr as int, p.src_incr as int);
            assert(-pc * ((len - 1) / 2) == -(pc * ((len - 1) / 2))) by (nonlinear_arith);
            assert(pc * ((len - 1) / 2) >= 0) by (nonlinear_arith)
                requires
                    pc >= 0,
                    (len - 1) / 2 >= 0,
            ;
            assert(len == 1 ==> pc * ((len - 1) / 2) == 0) by (nonlinear_arith);
        }
        Ok(
            ResampleContext {
                bank,
                filter_length: len,
                filter_alloc: alloc,
                ideal_dst_incr: p.dst_incr,
                dst_incr: p.dst_incr,
                dst_incr_div: p.dst_incr / p.src_incr,
                dst_incr_mod: p.dst_incr % p.src_incr,
                index: -(pc * ((len - 1) / 2)),
                frac: 0,
                src_incr: p.src_incr,
                compensation_distance: 0,
                phase_count: pc,
                linear,
                filter_type,
                kaiser_beta,
                factor: p.shape.factor,
                format,
                felem_size: format.bytes_per_sample() as i32,
                filter_shift: match format {
                    SampleFormat::S16p => 15,
                    SampleFormat::S32p => 30,
                    _ => 0,
                },
                phase_count_compensation: p.phase_count_compensation,
            },
        )
    }

    /// The filter that adjusting the rate needs.
    pub open spec fn compensation_shape_spec(self) -> FilterShape {
        FilterShape {
            factor: self.factor,
            tap_count: self.filter_length,
            phase_count: self.phase_count_compensation,
            filter_type: self.filter_type,
            kaiser_beta: self.kaiser_beta,
        }
    }

    /// The filter that adjusting the rate needs.
    pub fn compensation_shape(&self) -> (r: FilterShape)
        ensures
            r == self.compensation_shape_spec(),
    {
        FilterShape {
            factor: self.factor,
            tap_count: self.filter_length,
            phase_count: self.phase_count_compensation,
            filter_type: self.filter_type,
            kaiser_beta: self.kaiser_beta,
        }
    }

    /// How many reserved phases there are to one that is in use.
    pub open spec fn refinement(self) -> int {
        self.phase_count_compensation as int / self.phase_count as int
    }

    /// The clock can be refined to the reserved phases.
    pub open spec fn refinable(self) -> bool {
        &&& ratio_fits(self.src_incr as int, self.dst_incr * self.refinement())
        &&& i32::MIN <= self.index * self.refinement() <= i32::MAX
    }

    /// The resampler with the reserved phases in use, apart from its bank.
    pub open spec fn refined(self) -> ResampleContext {
        if self.phase_count == self.phase_count_compensation {
            self
        } else {
            let r = increments(self.src_incr as int, self.dst_incr * self.refinement());
            ResampleContext {
                src_incr: r.0 as i32,
                ideal_dst_incr: r.1 as i32,
                index: (self.index * self.refinement()) as i32,
                phase_count: self.phase_count_compensation,
                ..self
            }
        }
    }

    /// Changes to the reserved phases, so that the clock can run at speeds
    /// beside the usual one.
    fn rebuild_filter_bank_with_compensation(&mut self, table: Option<&FilterTable>) -> (r: Result<
        (),
        Error,
    >)
        requires
            old(self).wf(),
            old(self).phase_count != old(self).phase_count_compensation,
        ensures
            r.is_ok() == (old(self).refinable() && (table matches Some(t) && t.describes(
                old(self).compensation_shape_spec(),
            ))),
            r matches Err(e) ==> {
                &&& *final(self) == *old(self)
                &&& e.is_invalid(
                    if old(self).refinable() {
                        "no filter table for this ratio"@
                    } else {
                        "compensation phase count ratio not exact"@
                    },
                )
            },
            r is Ok ==> {
                let s = old(self).refined();
                &&& *final(self) == (ResampleContext {
                    bank: final(self).bank,
                    dst_incr: s.ideal_dst_incr,
                    dst_incr_div: final(self).dst_incr_div,
                    dst_incr_mod: final(self).dst_incr_mod,
                    ..s
                })
                &&& bank_of(
                    final(self).bank@,
                    s.format,
                    table.unwrap().taps@,
                    s.filter_length as int,
                    s.filter_alloc as int,
                    s.phase_count as int,
                )
                &&& final(self).running()
                &&& final(self).wf()
            },
    {
        let pcc: i32 = self.phase_count_compensation;
        let k: i32 = pcc / self.phase_count;
        proof {
            lemma_fundamental_div_mod(pcc as int, self.phase_count as int);
            assert(k >= 1) by (nonlinear_arith)
                requires
                    pcc == self.phase_count * k,
                    pcc >= 1,
                    self.phase_count >= 1,
            ;
            assert(k <= pcc) by (nonlinear_arith)
                requires
                    pcc == self.phase_count * k,
                    k >= 0,
                    self.phase_count >= 1,
            ;
            arith::lemma_mul_bound(self.dst_incr as int, k as int, 0x4000_0000, 0x4000_0000);
            arith::lemma_mul_bound(self.index as int, k as int, 0x8000_0000, 0x4000_0000);
            assert(self.dst_incr * k >= 1) by (nonlinear_arith)
                requires
                    self.dst_incr >= 1,
                    k >= 1,
            ;
        }
        let index: i64 = self.index as i64 * k as i64;
        let (src_incr, dst_incr) = match increments_exec(
            self.src_incr as u64,
            self.dst_incr as u64 * k as u64,
        ) {
            Some(x) => x,
            None => {
                return Err(invalid("compensation phase count ratio not exact"));
            },
        };
        if index < -0x8000_0000 || index > 0x7fff_ffff {
            return Err(invalid("compensation phase count ratio not exact"));
        }
        let shape: FilterShape = self.compensation_shape();
        if !table_describes(table, shape) {
            return Err(invalid("no filter table for this ratio"));
        }
        let bank: Vec<i128> = match table {
            Some(t) => build_filter(
                self.format,
                &t.taps,
                self.filter_length as usize,
                self.filter_alloc as usize,
                pcc as usize,
            ),
            None => Vec::new(),
        };
        proof {
            let h = (self.filter_length - 1) / 2;
            assert(index >= -pcc * h) by (nonlinear_arith)
                requires
                    index == self.index * k,
                    self.index >= -self.phase_count * h,
                    pcc == self.phase_count * k,
                    k >= 1,
            ;
            assert(index < pcc) by (nonlinear_arith)
                requires
                    index == self.index * k,
                    self.index <= self.phase_count - 1,
                    pcc == self.phase_count * k,
                    k >= 1,
            ;
            lemma_fundamental_div_mod(dst_incr as int, src_incr as int);
            lemma_mod_bound(dst_incr as int, src_incr as int);
            lemma_div_pos_is_pos(dst_incr as int, src_incr as int);
        }
        self.bank = bank;
        self.src_incr = src_incr;
        self.dst_incr = dst_incr;
        self.ideal_dst_incr = dst_incr;
        self.dst_incr_div = dst_incr / src_incr;
        self.dst_incr_mod = dst_incr % src_incr;
        self.index = index as i32;
        self.phase_count = pcc;
        Ok(())
    }

    /// Ticks per output sample for a rate change.
    pub open spec fn skewed(self, sample_delta: int, distance: int) -> int {
        if distance == 0 {
            self.ideal_dst_incr as int
        } else {
            arith::wrap32(
                self.ideal_dst_incr - mathematics::tquot(
                    self.ideal_dst_incr * sample_delta,
                    distance,
                ),
            )
        }
    }

    /// A rate change calls for the reserved phases.
    pub open spec fn must_refine(self, sample_delta: int, distance: int) -> bool {
        distance != 0 && sample_delta != 0 && self.phase_count != self.phase_count_compensation
    }

    /// Makes `sample_delta` samples more (fewer, when negative) than usual over
    /// the next `compensation_distance` output samples. `table` holds the values
    /// of the filter that [`ResampleContext::compensation_shape`] tells.
    pub fn set_compensation(
        &mut self,
        sample_delta: i32,
        compensation_distance: i32,
        table: Option<&FilterTable>,
    ) -> (r: Result<(), Error>)
        requires
            old(self).wf(),
        ensures
            ({
                let must = old(self).must_refine(sample_delta as int, compensation_distance as int);
                let known = table matches Some(t) && t.describes(
                    old(self).compensation_shape_spec(),
                );
                let s = if must {
                    old(self).refined()
                } else {
                    *old(self)
                };
                match r {
                    Err(e) => {
                        &&& *final(self) == *old(self)
                        &&& must && !(old(self).refinable() && known)
                        &&& e.is_invalid(
                            if old(self).refinable() {
                                "no filter table for this ratio"@
                            } else {
                                "compensation phase count ratio not exact"@
                            },
                        )
                    },
                    Ok(_) => {
                        let speed = s.skewed(sample_delta as int, compensation_distance as int);
                        &&& must ==> old(self).refinable() && known
                        &&& *final(self) == (ResampleContext {
                            bank: final(self).bank,
                            compensation_distance,
                            ..s.at_speed(speed as i32)
                        })
                        &&& !must ==> final(self).bank == old(self).bank
                        &&& must ==> bank_of(
                            final(self).bank@,
                            s.format,
                            table.unwrap().taps@,
                            s.filter_length as int,
                            s.filter_alloc as int,
                            s.phase_count as int,
                        )
                        &&& final(self).wf()
                        &&& speed >= 1 ==> final(self).running()
                    },
                }
            }),
    {
        if compensation_distance != 0 && sample_delta != 0 && self.phase_count
            != self.phase_count_compensation {
            match self.rebuild_filter_bank_with_compensation(table) {
                Ok(_) => {},
                Err(e) => {
                    return Err(e);
                },
            }
        }
        let ideal: i32 = self.ideal_dst_incr;
        proof {
            arith::lemma_mul_bound(ideal as int, sample_delta as int, 0x4000_0000, 0x8000_0000);
        }
        let speed: i32 = if compensation_distance != 0 {
            arith::wrap_i128(
                ideal as i128 - tquot_i128(
                    ideal as i128 * sample_delta as i128,
                    compensation_distance as i128,
                ),
                32,
            ) as i32
        } else {
            ideal
        };
        self.compensation_distance = compensation_distance;
        self.set_speed(speed);
        proof {
            if speed >= 1 {
                lemma_fundamental_div_mod(speed as int, self.src_incr as int);
                lemma_mod_bound(speed as int, self.src_incr as int);
                lemma_div_pos_is_pos(speed as int, self.src_incr as int);
                lemma_mul_is_commutative(self.src_incr as int, speed as int / self.src_incr as int);
                lemma_div_is_ordered_by_denominator(speed as int, 1, self.src_incr as int);
                lemma_div_basics(speed as int);
            }
        }
        Ok(())
    }

    /// Coefficient `tap` of phase `phase`, as a number.
    pub open spec fn coeff_value(self, phase: int, tap: int) -> F64 {
        let v = row_entry(self.bank@, self.filter_alloc as int, phase, tap);
        match self.format {
            SampleFormat::S16p | SampleFormat::S32p => F64::s_from_int(v),
            SampleFormat::Fltp => F32 { bits: v as u32 }.s_widen(),
            _ => F64 { bits: v as u64 },
        }
    }

    /// Coefficient `tap` of phase `phase`, as a number.
    pub fn filter_coeff(&self, phase: usize, tap: usize) -> (r: F64)
        requires
            self.wf(),
            phase * self.filter_alloc + tap < self.bank@.len(),
        ensures
            r == self.coeff_value(phase as int, tap as int),
    {
        let n: usize = self.bank.len();
        proof {
            assert(0 <= phase * self.filter_alloc) by (nonlinear_arith)
                requires
                    phase >= 0,
                    self.filter_alloc >= 0,
            ;
            assert(arith::gain_ok(
                self.arith(),
                self.bank@[phase * self.filter_alloc + tap] as int,
            ));
        }
        let v: i128 = self.bank[phase * self.filter_alloc as usize + tap];
        match self.format {
            SampleFormat::S16p | SampleFormat::S32p => F64::from_int(v as i64),
            SampleFormat::Fltp => F32 { bits: v as u32 }.widen(),
            _ => F64 { bits: v as u64 },
        }
    }
}

// --- laws ----------------------------------------------------------------------------

proof fn lemma_tap_sum_shift(
    a: Arith,
    bank: Seq<i128>,
    base: int,
    src: Seq<u64>,
    off: int,
    pos: int,
    start: int,
    first: int,
    step: int,
    n: nat,
)
    requires
        0 <= off <= src.len(),
        0 <= pos,
        0 <= first,
        1 <= step,
        n > 0 ==> off + pos + first + (n - 1) * step < src.len(),
    ensures
        tap_sum(a, bank, base, src.subrange(off, src.len() as int), pos, start, first, step, n)
            == tap_sum(a, bank, base, src, off + pos, start, first, step, n),
    decreases n,
{
    if n > 0 {
        assert(0 <= (n - 1) * step) by (nonlinear_arith)
            requires
                n >= 1,
                step >= 1,
        ;
        assert(n >= 2 ==> (n - 2) * step <= (n - 1) * step) by (nonlinear_arith)
            requires
                step >= 1,
        ;
        lemma_tap_sum_shift(a, bank, base, src, off, pos, start, first, step, (n - 1) as nat);
    }
}

impl ResampleContext {
    /// The clock has no memory but its state: `b` outputs after `a` outputs are
    /// where `a + b` outputs are.
    pub proof fn lemma_clock_adds(self, a: int, b: int)
        requires
            self.wf(),
            self.index >= 0,
            self.dst_incr >= 0,
            0 < a <= i32::MAX,
            0 <= b,
        ensures
            self.moved(a).wf(),
            self.moved(a).pos_at(b) + self.pos_at(a) == self.pos_at(a + b),
            self.moved(a).index_at(b) == self.index_at(a + b),
            self.moved(a).frac_at(b) == self.frac_at(a + b),
    {
        let s = self.moved(a);
        let u = self.src_incr as int;
        let pc = self.phase_count as int;
        self.lemma_ticks(a);
        if self.is_trivial() {
            self.lemma_one_phase(a);
        }
        assert(-pc * ((self.filter_length - 1) / 2) <= 0) by (nonlinear_arith)
            requires
                pc >= 0,
                (self.filter_length - 1) / 2 >= 0,
        ;
        if self.keeps_phase() {
            self.lemma_keeps_phase(a);
        }
        s.lemma_ticks(b);
        let p = self.pos_at(a);
        let q = s.pos_at(b);
        let i = s.index_at(b);
        let f = s.frac_at(b);
        let d = self.dst_incr as int;
        assert((a + b) * d == a * d + b * d) by (nonlinear_arith);
        assert((p * pc + s.index) * u == p * pc * u + s.index * u) by (nonlinear_arith);
        assert(((p + q) * pc + i) * u == p * pc * u + (q * pc + i) * u) by (nonlinear_arith);
        self.lemma_clock(a + b, p + q, i, f);
    }

    /// Without a filter an output repeats the input sample before it, unless it is
    /// so far away that the fixed-point position is off.
    pub proof fn lemma_pick(self, n: int)
        requires
            self.wf(),
            self.index >= 0,
            self.dst_incr >= 0,
            self.is_trivial(),
            0 <= n,
            (n + 1) * self.src_incr < 0x1_0000_0000,
        ensures
            self.pick(n) == self.pos_at(n),
    {
        let u = self.src_incr as int;
        let d = self.dst_incr as int;
        let f = self.frac as int;
        let one = 0x1_0000_0000int;
        self.lemma_one_phase(n);
        self.lemma_ticks(n);
        let a = one * f / u;
        let b = one * d / u;
        lemma_fundamental_div_mod(one * f, u);
        lemma_mod_bound(one * f, u);
        lemma_fundamental_div_mod(one * d, u);
        lemma_mod_bound(one * d, u);
        let at = a + 1 + n * (b + 1);
        let t = self.ticks(n);
        let q = self.pos_at(n);
        let g = self.frac_at(n);
        assert(t == q * u + g);
        assert(one * t == one * f + n * (one * d)) by (nonlinear_arith)
            requires
                t == f + n * d,
        ;
        assert(at * u == a * u + n * (b * u) + (n + 1) * u) by (nonlinear_arith)
            requires
                at == a + 1 + n * (b + 1),
        ;
        assert(n * (b * u) <= n * (one * d)) by (nonlinear_arith)
            requires
                n >= 0,
                b * u <= one * d,
                b * u == u * b,
        ;
        assert(n * (b * u) + n * u >= n * (one * d)) by (nonlinear_arith)
            requires
                n >= 0,
                u * b + u >= one * d,
        ;
        assert((n + 1) * u == n * u + u) by (nonlinear_arith);
        assert(a * u == u * a && b * u == u * b) by (nonlinear_arith);
        assert(one * t <= at * u <= one * t + (n + 1) * u);
        assert(one * q <= at < one * (q + 1)) by (nonlinear_arith)
            requires
                one * t <= at * u,
                at * u <= one * t + (n + 1) * u,
                (n + 1) * u < one,
                t == q * u + g,
                0 <= g < u,
                one == 0x1_0000_0000,
        {
            assert(one * (q * u) == (one * q) * u) by (nonlinear_arith);
            assert((one * q) * u <= at * u);
            assert(one * g + one <= one * u);
            assert((one * (q + 1)) * u == (one * q) * u + one * u) by (nonlinear_arith);
            assert(at * u < (one * (q + 1)) * u);
        }
        lemma_fundamental_div_mod_converse(at, one, q, at - one * q);
    }

    /// Resampling in pieces gives what resampling in one go does: the outputs
    /// that follow the first `a` are those that the resampler makes from the
    /// rest of the input once the first `a` are made.
    pub proof fn lemma_pieces(self, src: Seq<u64>, a: int, j: int)
        requires
            self.wf(),
            self.running(),
            self.index >= 0,
            self.faithful(a + j + 1),
            0 < a <= i32::MAX,
            0 <= j,
            self.reach(a + j) <= src.len(),
        ensures
            self.moved(a).out_sample(src.subrange(self.pos_at(a), src.len() as int), j)
                == self.out_sample(src, a + j),
    {
        let s = self.moved(a);
        self.lemma_clock_adds(a, j);
        self.lemma_forward(a, a + j);
        self.lemma_pos_bound(a);
        s.lemma_forward(0, j);
        s.lemma_pos_bound(0);
        if self.dst_incr_mod == 0 {
            self.lemma_steady_frac(a);
        }
        assert(s.interpolates() == self.interpolates());
        let off = self.pos_at(a);
        if self.is_trivial() {
            self.lemma_pick(a + j);
            lemma_mul_inequality(j + 1, a + j + 1, self.src_incr as int);
            s.lemma_pick(j);
        }
        let ar = self.arith();
        let base = s.index_at(j) * s.filter_alloc;
        let fl = self.filter_length as nat;
        let p = s.pos_at(j);
        if s.interpolates() {
            lemma_tap_sum_shift(ar, self.bank@, base, src, off, p, acc_start(ar), 0, 1, fl);
            lemma_tap_sum_shift(
                ar,
                self.bank@,
                base + self.filter_alloc,
                src,
                off,
                p,
                acc_start(ar),
                0,
                1,
                fl,
            );
        } else {
            lemma_tap_sum_shift(ar, self.bank@, base, src, off, p, acc_start(ar), 0, 2, (fl + 1) / 2);
            lemma_tap_sum_shift(ar, self.bank@, base, src, off, p, 0, 1, 2, fl / 2);
        }
    }

    proof fn lemma_steady_frac(self, n: int)
        requires
            self.wf(),
            self.running(),
            self.dst_incr_mod == 0,
        ensures
            self.frac_at(n) == self.frac,
    {
        let u = self.src_incr as int;
        let q = self.dst_incr as int / u;
        lemma_fundamental_div_mod(self.dst_incr as int, u);
        assert(self.ticks(n) == (self.index + n * q) * u + self.frac) by (nonlinear_arith)
            requires
                self.ticks(n) == self.index * u + self.frac + n * self.dst_incr,
                self.dst_incr == u * q,
        ;
        lemma_fundamental_div_mod_converse(self.ticks(n), u, self.index + n * q, self.frac as int);
    }

    /// The outputs of a call need no input beyond what the call was given.
    pub proof fn lemma_within_input(self, dst_size: int, src_size: int)
        requires
            self.wf(),
            self.running(),
            self.index >= 0,
            self.room(src_size) >= i32::MIN,
            self.produced(dst_size, src_size) > 0,
        ensures
            ({
                let n = self.produced(dst_size, src_size);
                &&& self.pos_at(n - 1) + self.filter_length <= src_size
                &&& self.faithful(n) ==> self.reach(n - 1) <= src_size
            }),
    {
        let n = self.produced(dst_size, src_size);
        let ss = self.usable(src_size);
        let d = self.dst_incr as int;
        let u = self.src_incr as int;
        let pc = self.phase_count as int;
        let room = self.room(src_size);
        let left = self.ticks_left(ss);
        assert(n <= room);
        let x = left + d - 1;
        lemma_fundamental_div_mod(x, d);
        lemma_mod_bound(x, d);
        assert(x >= 0) by {
            if x < 0 {
                lemma_div_pos_is_pos(-x, d);
            }
        }
        assert(n * d <= x) by (nonlinear_arith)
            requires
                n <= room,
                x == d * room + x % d,
                x % d >= 0,
                d >= 1,
        ;
        assert((n - 1) * d == n * d - d) by (nonlinear_arith);
        let m = 1 + ss - self.filter_length;
        assert((m * pc - self.index) * u == m * pc * u - self.index * u) by (nonlinear_arith);
        assert(self.ticks(n - 1) < m * pc * u);
        self.lemma_ticks(n - 1);
        let t = self.phases(n - 1);
        lemma_fundamental_div_mod(self.ticks(n - 1), u);
        assert(t < m * pc) by (nonlinear_arith)
            requires
                u * t <= self.ticks(n - 1),
                self.ticks(n - 1) < m * pc * u,
                u >= 1,
        ;
        lemma_fundamental_div_mod(t, pc);
        assert(self.pos_at(n - 1) < m) by (nonlinear_arith)
            requires
                pc * self.pos_at(n - 1) <= t,
                t < m * pc,
                pc >= 1,
        ;
        if self.is_trivial() && self.faithful(n) {
            self.lemma_pick(n - 1);
        }
    }

    /// The next output begins no further behind the input than a step is long.
    pub(crate) proof fn lemma_pos_near(self, dst_size: int, src_size: int)
        requires
            self.wf(),
            self.running(),
            self.index >= 0,
            0 <= src_size <= i32::MAX,
            self.room(src_size) >= i32::MIN,
            self.produced(dst_size, src_size) > 0,
            self.produced(dst_size, src_size) <= i32::MAX,
        ensures
            0 <= self.used_up(self.produced(dst_size, src_size)) < 0x1_0000_0000,
    {
        let n = self.produced(dst_size, src_size);
        self.lemma_within_input(dst_size, src_size);
        self.lemma_pos_bound(n);
        self.lemma_ticks(n - 1);
        self.lemma_ticks(n);
        let d = self.dst_incr as int;
        let u = self.src_incr as int;
        let pc = self.phase_count as int;
        let p = self.pos_at(n - 1);
        let q = self.pos_at(n);
        let i = self.index_at(n - 1);
        let k = self.index_at(n);
        let f = self.frac_at(n - 1);
        let g = self.frac_at(n);
        assert(n * d == (n - 1) * d + d) by (nonlinear_arith);
        assert((p * pc + i) * u + f < (p + 1) * pc * u) by (nonlinear_arith)
            requires
                i <= pc - 1,
                f < u,
                u >= 1,
        ;
        assert((q * pc + k) * u + g >= q * pc * u) by (nonlinear_arith)
            requires
                k >= 0,
                g >= 0,
                u >= 1,
        ;
        assert(d <= 0x7fff_ffff * pc * u) by (nonlinear_arith)
            requires
                d <= 0x7fff_ffff,
                pc >= 1,
                u >= 1,
        ;
        assert(0x7fff_ffff * pc * u + (p + 1) * pc * u == (p + 1 + 0x7fff_ffff) * pc * u)
            by (nonlinear_arith);
        assert(q < p + 1 + 0x7fff_ffff) by (nonlinear_arith)
            requires
                q * pc * u < (p + 1 + 0x7fff_ffff) * pc * u,
                pc >= 1,
                u >= 1,
        ;
    }

    /// With a filter at least as long as the step between outputs, a call never
    /// uses up more input than it was given.
    pub proof fn lemma_uses_input(self, dst_size: int, src_size: int)
        requires
            self.wf(),
            self.running(),
            self.index >= 0,
            self.room(src_size) >= i32::MIN,
            self.produced(dst_size, src_size) > 0,
            self.dst_incr <= self.filter_length * self.phase_count * self.src_incr,
        ensures
            0 <= self.used_up(self.produced(dst_size, src_size)) <= src_size,
    {
        let n = self.produced(dst_size, src_size);
        self.lemma_within_input(dst_size, src_size);
        self.lemma_pos_bound(n);
        self.lemma_ticks(n - 1);
        self.lemma_ticks(n);
        let d = self.dst_incr as int;
        let u = self.src_incr as int;
        let pc = self.phase_count as int;
        let fl = self.filter_length as int;
        let p = self.pos_at(n - 1);
        let q = self.pos_at(n);
        let i = self.index_at(n - 1);
        let k = self.index_at(n);
        let f = self.frac_at(n - 1);
        let g = self.frac_at(n);
        assert(n * d == (n - 1) * d + d) by (nonlinear_arith);
        assert((p * pc + i) * u + f < (p + 1) * pc * u) by (nonlinear_arith)
            requires
                i <= pc - 1,
                f < u,
                u >= 1,
        ;
        assert((q * pc + k) * u + g >= q * pc * u) by (nonlinear_arith)
            requires
                k >= 0,
                g >= 0,
                u >= 1,
        ;
        assert(fl * pc * u + (p + 1) * pc * u == (p + 1 + fl) * pc * u) by (nonlinear_arith);
        assert(q < p + 1 + fl) by (nonlinear_arith)
            requires
                q * pc * u < (p + 1 + fl) * pc * u,
                pc >= 1,
                u >= 1,
        ;
    }
}

} // verus!
