//! Delays, sample counts and rate compensation of a context.
use crate::arith;
use crate::calls;
use crate::error::{invalid, Error};
use crate::float::{F32, F64, ToInt};
use crate::mathematics;
use crate::mathematics::{tdiv_i128, Rounding};
use crate::options::{SwrFlags, SwrOptions, F32_MAX, NOPTS};
use crate::resample;
use crate::resample::{FilterShape, FilterTable, ResampleContext};
use crate::swr;
use crate::swr::{at_least_exec, SwrContext};
use vstd::arithmetic::div_mod::*;
use vstd::prelude::*;

verus! {

impl SwrContext {
    /// The numbers of the delay, in units of which `base` make a second, stay in
    /// their range.
    pub open spec fn delay_known(self, base: int) -> bool {
        let rate = self.options.in_sample_rate as int;
        let n = self.in_buffer_count as int;
        &&& rate > 0
        &&& n <= 0x7fff_ffff
        &&& match self.resample {
            Some(r) => {
                &&& r.wf()
                &&& i64::MIN <= r.pending(n) <= i64::MAX
                &&& rate * r.src_incr * r.phase_count <= i64::MAX
            },
            None => {
                &&& i64::MIN <= n * base <= i64::MAX
                &&& n * base + rate / 2 <= i64::MAX
            },
        }
    }

    /// Time by which the output lags behind the input, in units of which `base`
    /// make a second.
    pub open spec fn delay(self, base: int) -> int {
        let rate = self.options.in_sample_rate as int;
        let n = self.in_buffer_count as int;
        match self.resample {
            Some(r) => mathematics::rescale_spec(
                r.pending(n),
                base,
                rate * r.src_incr * r.phase_count,
                Rounding::NearInf,
            ),
            None => mathematics::tdiv(n * base + rate / 2, rate),
        }
    }

    /// Time by which the output lags behind the input, in units of which `base`
    /// make a second.
    pub fn get_delay(&self, base: i64) -> (r: i64)
        requires
            self.delay_known(base as int),
        ensures
            r == self.delay(base as int),
    {
        let rate: i32 = self.options.in_sample_rate;
        match &self.resample {
            Some(r) => r.get_delay(base, self.in_buffer_count as i64, rate),
            None => {
                let t: i128 = self.in_buffer_count as i128 * base as i128 + (rate / 2) as i128;
                let q: i128 = tdiv_i128(t, rate as i128);
                q as i64
            },
        }
    }

    /// [`SwrContext::get_delay`], or nothing where its numbers leave their range.
    pub(crate) fn checked_delay(&self, base: i64) -> (r: Option<i64>)
        requires
            self.resample matches Some(s) ==> s.wf(),
        ensures
            r.is_some() == self.delay_known(base as int),
            r matches Some(d) ==> d == self.delay(base as int),
    {
        let rate: i32 = self.options.in_sample_rate;
        if rate <= 0 || self.in_buffer_count > 0x7fff_ffff {
            return None;
        }
        let n: i128 = self.in_buffer_count as i128;
        match &self.resample {
            Some(r) => {
                let k: i128 = n - ((r.filter_length as i128 - 1) / 2);
                let pc: i128 = r.phase_count as i128;
                let unit: i128 = r.src_incr as i128;
                proof {
                    arith::lemma_mul_bound(k as int, pc as int, 0x8000_0000, 0x4000_0000);
                    arith::lemma_mul_bound(
                        k * pc - r.index,
                        unit as int,
                        0x4000_0000_8000_0000,
                        0x4000_0000,
                    );
                    arith::lemma_mul_bound(rate as int, unit as int, 0x8000_0000, 0x4000_0000);
                    arith::lemma_mul_bound(
                        rate * unit,
                        pc as int,
                        0x2000_0000_0000_0000,
                        0x4000_0000,
                    );
                }
                let num: i128 = (k * pc - r.index as i128) * unit - r.frac as i128;
                let den: i128 = rate as i128 * unit * pc;
                if num < -0x8000_0000_0000_0000 || num > 0x7fff_ffff_ffff_ffff || den
                    > 0x7fff_ffff_ffff_ffff {
                    return None;
                }
            },
            None => {
                proof {
                    arith::lemma_mul_bound(n as int, base as int, 0x7fff_ffff, 0x8000_0000_0000_0000);
                }
                let t: i128 = n * base as i128;
                if t < -0x8000_0000_0000_0000 || t > 0x7fff_ffff_ffff_ffff || t + (rate / 2) as i128
                    > 0x7fff_ffff_ffff_ffff {
                    return None;
                }
            },
        }
        Some(self.get_delay(base))
    }

    /// Samples that are inside the context, at the input rate.
    pub fn get_in_samples(&self) -> (r: usize)
        requires
            self.delay_known(self.options.in_sample_rate as int),
            self.delay(self.options.in_sample_rate as int) <= usize::MAX,
        ensures
            r == if self.delay(self.options.in_sample_rate as int) < 0 {
                0
            } else {
                self.delay(self.options.in_sample_rate as int)
            },
    {
        let d: i64 = self.get_delay(self.options.in_sample_rate as i64);
        if d < 0 {
            0
        } else {
            d as usize
        }
    }

    /// Upper bound on the outputs that `n` more input samples can give.
    pub open spec fn out_samples(self, n: int) -> int {
        match self.resample {
            Some(r) => {
                let k = r.out_bound(
                    n,
                    self.in_buffer_count as int,
                    self.options.in_sample_rate as int,
                    self.options.out_sample_rate as int,
                );
                let slow = mathematics::tquot(k * r.ideal_dst_incr - 1, r.dst_incr as int) + 1;
                if r.compensation_distance != 0 && slow > k {
                    slow
                } else {
                    k
                }
            },
            None => self.in_buffer_count + n,
        }
    }

    /// The numbers of the upper bound stay in their range.
    pub open spec fn out_samples_known(self, n: int) -> bool {
        &&& self.in_buffer_count <= 0x7fff_ffff
        &&& self.resample matches Some(r) ==> {
            let k = r.out_bound(
                n,
                self.in_buffer_count as int,
                self.options.in_sample_rate as int,
                self.options.out_sample_rate as int,
            );
            &&& r.wf()
            &&& self.options.in_sample_rate > 0
            &&& self.options.out_sample_rate > 0
            &&& r.compensation_distance != 0 ==> r.dst_incr != 0
            &&& 0 <= k <= i64::MAX
        }
    }

    /// Upper bound on the number of outputs that `in_samples` more input samples
    /// can give.
    pub fn get_out_samples(&self, in_samples: i32) -> (r: Result<usize, Error>)
        requires
            self.out_samples_known(in_samples as int),
        ensures
            in_samples < 0 ==> (r matches Err(e) && e.is_invalid(
                "swr_get_out_samples: negative in_samples"@,
            )),
            in_samples >= 0 ==> {
                let k = self.resample->0.out_bound(
                    in_samples as int,
                    self.in_buffer_count as int,
                    self.options.in_sample_rate as int,
                    self.options.out_sample_rate as int,
                );
                match r {
                    Ok(n) => n == self.out_samples(in_samples as int) && n <= i32::MAX,
                    Err(e) => if self.resample is Some && self.resample->0.compensation_distance != 0
                        && k > i32::MAX {
                        e.is_invalid("out sample count overflow"@)
                    } else {
                        &&& self.out_samples(in_samples as int) > i32::MAX
                        &&& e.is_invalid("swr_get_out_samples: count overflow"@)
                    },
                }
            },
    {
        if in_samples < 0 {
            return Err(invalid("swr_get_out_samples: negative in_samples"));
        }
        let n: i64 = match &self.resample {
            Some(r) => {
                proof {
                    let k = r.out_bound(
                        in_samples as int,
                        self.in_buffer_count as int,
                        self.options.in_sample_rate as int,
                        self.options.out_sample_rate as int,
                    );
                    assert(0 <= k * r.ideal_dst_incr) by (nonlinear_arith)
                        requires
                            k >= 0,
                            r.ideal_dst_incr >= 0,
                    ;
                }
                match r.get_out_samples(
                    in_samples,
                    self.in_buffer_count as i64,
                    self.options.in_sample_rate,
                    self.options.out_sample_rate,
                ) {
                    Ok(n) => n,
                    Err(e) => {
                        return Err(e);
                    },
                }
            },
            None => self.in_buffer_count as i64 + in_samples as i64,
        };
        if n > 0x7fff_ffff {
            return Err(invalid("swr_get_out_samples: count overflow"));
        }
        Ok(n as usize)
    }
}

/// The resampler `q` is `r` with `delta` samples more than usual over the next
/// `distance` outputs.
pub open spec fn compensated(
    r: ResampleContext,
    q: ResampleContext,
    delta: int,
    distance: int,
    tables: Seq<FilterTable>,
) -> bool {
    let must = r.must_refine(delta, distance);
    let s = if must {
        r.refined()
    } else {
        r
    };
    &&& q == (ResampleContext {
        bank: q.bank,
        compensation_distance: distance as i32,
        ..s.at_speed(s.skewed(delta, distance) as i32)
    })
    &&& !must ==> q.bank == r.bank
    &&& must ==> exists|k: int|
        0 <= k < tables.len() && (#[trigger] tables[k]).describes(r.compensation_shape_spec())
            && resample::bank_of(
            q.bank@,
            s.format,
            tables[k].taps@,
            s.filter_length as int,
            s.filter_alloc as int,
            s.phase_count as int,
        )
}

/// A change of the rate is possible.
pub open spec fn compensable(
    r: ResampleContext,
    delta: int,
    distance: int,
    tables: Seq<FilterTable>,
) -> bool {
    r.must_refine(delta, distance) ==> r.refinable() && swr::has_table(
        tables,
        r.compensation_shape_spec(),
    )
}

pub open spec fn compensation_error(r: ResampleContext, e: Error) -> bool {
    e.is_invalid(
        if r.refinable() {
            "no filter table for this ratio"@
        } else {
            "compensation phase count ratio not exact"@
        },
    )
}

impl SwrContext {
    /// The context with resampling asked for.
    pub open spec fn resampling_forced(self) -> SwrContext {
        SwrContext {
            options: SwrOptions {
                flags: SwrFlags(self.options.flags.0 | 1),
                ..self.options
            },
            ..self
        }
    }

    /// The filter that a change of the rate asks for.
    pub fn wanted_compensation_filter(&self) -> (r: Option<FilterShape>)
        ensures
            r.is_some() == self.resample.is_some(),
            r matches Some(f) ==> f == self.resample->0.compensation_shape_spec(),
    {
        match &self.resample {
            Some(r) => Some(r.compensation_shape()),
            None => None,
        }
    }

    /// The resampler changes its rate.
    fn compensate(&mut self, sample_delta: i32, compensation_distance: i32) -> (res: Result<
        (),
        Error,
    >)
        requires
            old(self).wf(),
            old(self).resample matches Some(r) && r.wf(),
        ensures
            final(self).wf(),
            ({
                let r = old(self).resample->0;
                let t = old(self).tables@;
                let ok = compensable(r, sample_delta as int, compensation_distance as int, t);
                &&& res.is_ok() == ok
                &&& res matches Err(e) ==> compensation_error(r, e) && *final(self) == *old(self)
                &&& res is Ok ==> {
                    &&& *final(self) == (SwrContext {
                        resample: final(self).resample,
                        ..*old(self)
                    })
                    &&& final(self).resample matches Some(q) && q.wf() && compensated(
                        r,
                        q,
                        sample_delta as int,
                        compensation_distance as int,
                        t,
                    )
                }
            }),
    {
        let ghost c0 = *self;
        let mut r: ResampleContext = match self.resample.take() {
            Some(r) => r,
            None => {
                return Ok(());
            },
        };
        let found: Option<usize> = self.find_table(r.compensation_shape());
        let res: Result<(), Error> = match found {
            Some(k) => r.set_compensation(
                sample_delta,
                compensation_distance,
                Some(&self.tables[k]),
            ),
            None => r.set_compensation(sample_delta, compensation_distance, None),
        };
        proof {
            if found is None {
                assert forall|k: int| 0 <= k < self.tables@.len() implies !(
                #[trigger] self.tables@[k].describes(c0.resample->0.compensation_shape_spec())) by {
                }
            }
            if res is Ok {
                let r0 = c0.resample->0;
                let k = r0.refinement();
                lemma_div_is_ordered(
                    r0.phase_count as int,
                    r0.phase_count_compensation as int,
                    r0.phase_count as int,
                );
                lemma_div_by_self(r0.phase_count as int);
                assert(r0.index < 0 ==> r0.index * k < 0) by (nonlinear_arith)
                    requires
                        k >= 1,
                ;
                assert(r0.index >= 0 ==> r0.index * k >= 0) by (nonlinear_arith)
                    requires
                        k >= 1,
                ;
            }
        }
        self.resample = Some(r);
        proof {
            reveal(swr::rate_stage);
            if res is Err {
                assert(*self == c0);
            }
        }
        res
    }

    /// Makes `sample_delta` samples more (fewer, when negative) than usual over
    /// the next `compensation_distance` outputs. A context without a resampler is
    /// initialized again with one, and forgets its samples.
    pub fn set_compensation(&mut self, sample_delta: i32, compensation_distance: i32) -> (res: Result<
        (),
        Error,
    >)
        requires
            old(self).wf(),
            old(self).resample matches Some(r) ==> r.wf(),
            old(self).resample is None && (compensation_distance > 0 || compensation_distance == 0
                && sample_delta == 0) ==> old(self).resampling_forced().well_posed(),
        ensures
            final(self).wf(),
            compensation_distance < 0 ==> {
                &&& *final(self) == *old(self)
                &&& res matches Err(e) && e.is_invalid(
                    "swr_set_compensation: negative compensation_distance"@,
                )
            },
            compensation_distance == 0 && sample_delta != 0 ==> {
                &&& *final(self) == *old(self)
                &&& res matches Err(e) && e.is_invalid(
                    "swr_set_compensation: sample_delta without compensation_distance"@,
                )
            },
            compensation_distance > 0 || compensation_distance == 0 && sample_delta == 0
                ==> old(self).compensates(
                *final(self),
                sample_delta as int,
                compensation_distance as int,
                res,
            ),
    {
        if compensation_distance < 0 {
            return Err(invalid("swr_set_compensation: negative compensation_distance"));
        }
        if compensation_distance == 0 && sample_delta != 0 {
            return Err(
                invalid("swr_set_compensation: sample_delta without compensation_distance"),
            );
        }
        let ghost c0 = *self;
        if self.resample.is_none() {
            self.options.flags = self.options.flags.union(SwrFlags::resample());
            proof {
                assert(*self == c0.resampling_forced());
                lemma_forced(c0);
            }
            match self.init() {
                Ok(_) => {},
                Err(e) => {
                    return Err(e);
                },
            }
            proof {
                reveal(swr::rate_stage);
            }
        }
        let ghost c1 = *self;
        let res: Result<(), Error> = self.compensate(sample_delta, compensation_distance);
        proof {
            if c0.resample is None {
                assert(c0.resampling_forced().started(c1));
            }
        }
        res
    }

    /// The outcome of a change of the rate.
    pub open spec fn compensates(
        self,
        new: SwrContext,
        delta: int,
        distance: int,
        res: Result<(), Error>,
    ) -> bool {
        if self.resample is Some {
            self.compensates_now(new, delta, distance, res)
        } else {
            let f = self.resampling_forced();
            if !f.startable() {
                res matches Err(e) && f.start_error(e) && f.failed(new)
            } else {
                exists|mid: SwrContext| #[trigger]
                    f.started(mid) && mid.compensates_now(new, delta, distance, res)
            }
        }
    }

    pub open spec fn compensates_now(
        self,
        new: SwrContext,
        delta: int,
        distance: int,
        res: Result<(), Error>,
    ) -> bool {
        let r = self.resample->0;
        &&& res.is_ok() == compensable(r, delta, distance, self.tables@)
        &&& res matches Err(e) ==> compensation_error(r, e) && new == self
        &&& res is Ok ==> {
            &&& new == (SwrContext { resample: new.resample, ..self })
            &&& new.resample matches Some(q) && compensated(r, q, delta, distance, self.tables@)
        }
    }
}

proof fn lemma_forced(c: SwrContext)
    requires
        c.wf(),
        c.resample is None,
    ensures
        c.resampling_forced().wf(),
        swr::resamples(c.resampling_forced().options),
{
    let a = c.options.flags.0;
    assert((a | 1) & 1 == 1) by (bit_vector);
}

// --- timestamps ---------------------------------------------------------------------------

pub open spec fn clamp32(x: F32, m: F32) -> F32 {
    if x.s_less(m.s_neg()) {
        m.s_neg()
    } else if m.s_less(x) {
        m
    } else {
        x
    }
}

/// `x`, but no further from zero than `m`.
fn clamp32_exec(x: F32, m: F32) -> (r: F32)
    ensures
        r == clamp32(x, m),
{
    let lo: F32 = m.negated();
    if x.less(lo) {
        lo
    } else if m.less(x) {
        m
    } else {
        x
    }
}

impl SwrContext {
    /// Ticks of timestamps in a second.
    pub open spec fn pts_base(self) -> int {
        self.options.in_sample_rate * self.options.out_sample_rate
    }

    /// The context after it has seen its first timestamp.
    pub open spec fn latched(self, pts: i64) -> SwrContext {
        if self.firstpts == NOPTS {
            SwrContext { outpts: pts, firstpts: pts, ..self }
        } else {
            self
        }
    }

    /// Timestamps pass through.
    pub open spec fn passes_pts(self) -> bool {
        swr::at_least(self.options.min_compensation, (F32 { bits: F32_MAX }))
    }

    /// Ticks by which the output is late.
    pub open spec fn drift(self, pts: int) -> int {
        pts - self.delay(self.pts_base()) - self.outpts + self.drop_output
            * self.options.in_sample_rate
    }

    /// The same in seconds.
    pub open spec fn drift_seconds(self, pts: int) -> F64 {
        F64::s_from_int(self.drift(pts)).s_over(F64::s_from_int(self.pts_base()))
    }

    /// The drift calls for compensation.
    pub open spec fn drifts(self, pts: int) -> bool {
        self.options.min_compensation.s_widen().s_less(self.drift_seconds(pts).s_abs())
    }

    /// The drift is corrected at once.
    pub open spec fn drifts_hard(self, pts: int) -> bool {
        self.outpts == self.firstpts || self.options.min_hard_compensation.s_widen().s_less(
            self.drift_seconds(pts).s_abs(),
        )
    }

    /// Soft compensation is switched on.
    pub open spec fn corrects_softly(self) -> bool {
        &&& !self.options.soft_compensation_duration.s_same(F32 { bits: 0 })
        &&& !self.options.max_soft_compensation.s_same(F32 { bits: 0 })
    }

    /// Outputs over which soft compensation extends.
    pub open spec fn soft_distance(self) -> int {
        F32::s_from_int(self.options.out_sample_rate as int).s_times(
            self.options.soft_compensation_duration,
        ).s_to_i32(ToInt::Truncate)
    }

    /// The largest soft compensation, as a part of the rate.
    pub open spec fn soft_limit(self) -> F32 {
        let m = self.options.max_soft_compensation;
        m.s_over(
            if m.s_less(F32 { bits: 0 }) {
                F32::s_from_int(self.options.in_sample_rate as int).s_neg()
            } else {
                F32 { bits: 0x3f80_0000 }
            },
        )
    }

    /// Samples by which soft compensation changes the number of outputs.
    pub open spec fn soft_delta(self, pts: int) -> int {
        self.soft_delta_for(self.drift_seconds(pts))
    }

    pub open spec fn soft_delta_for(self, seconds: F64) -> int {
        clamp32(seconds.s_narrow(), self.soft_limit()).s_times(
            F32::s_from_int(self.soft_distance()),
        ).s_to_i32(ToInt::Truncate)
    }

    /// Samples of silence that make up for the drift.
    pub open spec fn silence_for(self, pts: int) -> int {
        arith::wrap32(mathematics::tdiv(self.drift(pts), self.options.out_sample_rate as int))
    }

    /// Outputs whose dropping makes up for the drift.
    pub open spec fn drop_for(self, pts: int) -> int {
        arith::wrap32(mathematics::tdiv(-self.drift(pts), self.options.in_sample_rate as int))
    }

    /// The numbers of a timestamp stay in their range.
    pub open spec fn pts_known(self, pts: i64) -> bool {
        let c = self.latched(pts);
        let d = c.delay(c.pts_base());
        &&& self.options.in_sample_rate > 0
        &&& self.options.out_sample_rate > 0
        &&& c.delay_known(c.pts_base())
        &&& i64::MIN <= pts - d <= i64::MAX
        &&& !self.passes_pts() ==> {
            &&& i64::MIN <= pts - d - c.outpts <= i64::MAX
            &&& i64::MIN < c.drift(pts as int) <= i64::MAX
            &&& i32::MIN <= c.drop_output + c.drop_for(pts as int) <= i32::MAX
        }
    }

    /// A request for `n` samples of silence, whatever comes of it.
    #[verifier::opaque]
    pub open spec fn tries_silence(self, new: SwrContext, n: int) -> bool {
        if n <= 0 || !self.spec_is_initialized() {
            new == self
        } else {
            ||| self.injected(new, n)
            ||| self.inject_refused(n) && exists|e: Error| #[trigger]
                self.inject_failed(new, n, e)
        }
    }

    /// A request to drop `n` outputs, whatever comes of it.
    #[verifier::opaque]
    pub open spec fn tries_drop(self, new: SwrContext, n: int) -> bool {
        let c = SwrContext { drop_output: (self.drop_output + n) as i32, ..self };
        if c.drop_output <= 0 || !c.spec_is_initialized() {
            new == c
        } else {
            let none = Some(calls::no_planes(c.in_));
            ||| c.swallowed(new, calls::no_planes(c.in_), 0)
            ||| c.call_refused(none, 0, 0, None) && exists|e: Error| #[trigger]
                c.call_failed(none, 0, 0, None, new, e)
        }
    }

    /// A request for a change of the rate, whatever comes of it.
    #[verifier::opaque]
    pub open spec fn tries_compensation(self, new: SwrContext, delta: int, distance: int) -> bool {
        if distance < 0 || distance == 0 && delta != 0 {
            new == self
        } else {
            exists|res: Result<(), Error>| #[trigger] self.compensates(new, delta, distance, res)
        }
    }

    /// What a timestamp makes of a context that compensates.
    pub open spec fn corrected(self, new: SwrContext, pts: int) -> bool {
        if !self.drifts(pts) {
            new == self
        } else if self.drifts_hard(pts) {
            if self.drift(pts) > 0 {
                self.tries_silence(new, self.silence_for(pts))
            } else {
                self.tries_drop(new, self.drop_for(pts))
            }
        } else if self.corrects_softly() {
            self.tries_compensation(new, self.soft_delta(pts), self.soft_distance())
        } else {
            new == self
        }
    }

    /// A timestamp may have a resampler started.
    pub open spec fn may_force(self, pts: int) -> bool {
        &&& self.resample is None
        &&& self.drifts(pts)
        &&& !self.drifts_hard(pts)
        &&& self.corrects_softly()
    }

    fn try_silence(&mut self, n: i32)
        requires
            old(self).wf(),
        ensures
            final(self).wf(),
            old(self).tries_silence(*final(self), n as int),
    {
        proof {
            reveal(SwrContext::tries_silence);
        }
        let ghost c = *self;
        let res: Result<usize, Error> = self.inject_silence(n);
        proof {
            if n > 0 && c.spec_is_initialized() && res is Err {
                assert(c.inject_failed(*self, n as int, res->Err_0));
            }
        }
    }

    fn try_drop(&mut self, n: i32)
        requires
            old(self).wf(),
            i32::MIN <= old(self).drop_output + n <= i32::MAX,
        ensures
            final(self).wf(),
            old(self).tries_drop(*final(self), n as int),
    {
        proof {
            reveal(SwrContext::tries_drop);
        }
        let ghost c = SwrContext { drop_output: (self.drop_output + n) as i32, ..*self };
        let res: Result<usize, Error> = self.drop_output(n);
        proof {
            if c.drop_output > 0 && c.spec_is_initialized() && res is Err {
                assert(c.call_failed(
                    Some(calls::no_planes(c.in_)),
                    0,
                    0,
                    None,
                    *self,
                    res->Err_0,
                ));
            }
        }
    }

    fn try_compensation(&mut self, seconds: F64)
        requires
            old(self).wf(),
            old(self).resample matches Some(s) ==> s.wf(),
            old(self).resample is None ==> old(self).resampling_forced().well_posed(),
        ensures
            final(self).wf(),
            old(self).tries_compensation(
                *final(self),
                old(self).soft_delta_for(seconds),
                old(self).soft_distance(),
            ),
    {
        proof {
            reveal(SwrContext::tries_compensation);
        }
        let ghost c = *self;
        let out_rate: i64 = self.options.out_sample_rate as i64;
        let in_rate: i64 = self.options.in_sample_rate as i64;
        let distance: i32 = F32::from_int(out_rate).times(
            self.options.soft_compensation_duration,
        ).to_i32(ToInt::Truncate);
        let m: F32 = self.options.max_soft_compensation;
        let limit: F32 = m.over(
            if m.less(F32 { bits: 0 }) {
                F32::from_int(in_rate).negated()
            } else {
                F32 { bits: 0x3f80_0000 }
            },
        );
        let sample_delta: i32 = clamp32_exec(seconds.narrow(), limit).times(
            F32::from_int(distance as i64),
        ).to_i32(ToInt::Truncate);
        let res: Result<(), Error> = self.set_compensation(sample_delta, distance);
        proof {
            if distance > 0 || distance == 0 && sample_delta == 0 {
                assert(c.compensates(*self, sample_delta as int, distance as int, res));
            }
        }
    }

    fn latch(&mut self, pts: i64)
        requires
            old(self).wf(),
        ensures
            final(self).wf(),
            *final(self) == old(self).latched(pts),
    {
        if self.firstpts == NOPTS {
            self.outpts = pts;
            self.firstpts = pts;
        }
    }

    /// Corrects a drift.
    fn correct(&mut self, Ghost(pts): Ghost<int>, delta: i64, seconds: F64)
        requires
            old(self).wf(),
            old(self).resample matches Some(s) ==> s.wf(),
            old(self).may_force(pts) ==> old(self).resampling_forced().well_posed(),
            old(self).options.in_sample_rate > 0,
            old(self).options.out_sample_rate > 0,
            delta == old(self).drift(pts),
            delta > i64::MIN,
            seconds == old(self).drift_seconds(pts),
            i32::MIN <= old(self).drop_output + old(self).drop_for(pts) <= i32::MAX,
        ensures
            final(self).wf(),
            old(self).corrected(*final(self), pts),
    {
        let in_rate: i64 = self.options.in_sample_rate as i64;
        let out_rate: i64 = self.options.out_sample_rate as i64;
        if self.options.min_compensation.widen().less(seconds.absolute()) {
            if self.outpts == self.firstpts || self.options.min_hard_compensation.widen().less(
                seconds.absolute(),
            ) {
                if delta > 0 {
                    let q: i128 = tdiv_i128(delta as i128, out_rate as i128);
                    let n: i32 = arith::wrap_i128(q, 32) as i32;
                    self.try_silence(n);
                } else {
                    let q: i128 = tdiv_i128(-(delta as i128), in_rate as i128);
                    let n: i32 = arith::wrap_i128(q, 32) as i32;
                    self.try_drop(n);
                }
            } else if !self.options.soft_compensation_duration.same(F32 { bits: 0 })
                && !self.options.max_soft_compensation.same(F32 { bits: 0 }) {
                self.try_compensation(seconds);
            }
        }
    }

    /// Tells the timestamp of the input that comes next, and returns that of the
    /// output that comes next, both in ticks of which the product of the rates
    /// makes a second. Without a timestamp (`i64::MIN`) the output's is unchanged.
    /// If compensation is switched on, the context corrects the drift.
    pub fn next_pts(&mut self, pts: i64) -> (r: i64)
        requires
            old(self).wf(),
            pts != i64::MIN ==> old(self).pts_known(pts),
            old(self).resample matches Some(s) ==> s.wf(),
            pts != i64::MIN && !old(self).passes_pts() && old(self).latched(pts).may_force(pts as int)
                ==> old(self).latched(pts).resampling_forced().well_posed(),
        ensures
            final(self).wf(),
            r == final(self).outpts,
            pts == i64::MIN ==> *final(self) == *old(self),
            pts != i64::MIN ==> {
                let c = old(self).latched(pts);
                if c.passes_pts() {
                    *final(self) == (SwrContext {
                        outpts: (pts - c.delay(c.pts_base())) as i64,
                        ..c
                    })
                } else {
                    c.corrected(*final(self), pts as int)
                }
            },
    {
        if pts == i64::MIN {
            return self.outpts;
        }
        self.latch(pts);
        let ghost c = *self;
        let in_rate: i64 = self.options.in_sample_rate as i64;
        let out_rate: i64 = self.options.out_sample_rate as i64;
        proof {
            arith::lemma_mul_bound(in_rate as int, out_rate as int, 0x7fff_ffff, 0x7fff_ffff);
            arith::lemma_mul_bound(self.drop_output as int, in_rate as int, 0x8000_0000, 0x7fff_ffff);
        }
        let base: i64 = in_rate * out_rate;
        let d: i64 = self.get_delay(base);
        if at_least_exec(self.options.min_compensation, F32 { bits: F32_MAX }) {
            self.outpts = pts - d;
            return self.outpts;
        }
        let delta: i64 = ((pts - d - self.outpts) as i128 + (self.drop_output as i64 * in_rate) as i128)
            as i64;
        let seconds: F64 = F64::from_int(delta).over(F64::from_int(base));
        proof {
            assert(delta == c.drift(pts as int));
        }
        self.correct(Ghost(pts as int), delta, seconds);
        self.outpts
    }
}

} // verus!
