//! How many outputs a resampler can give.
use crate::audio::Planes;
use crate::float::F64;
use crate::mathematics;
use crate::mathematics::Rounding;
use crate::resample;
use crate::resample::{FilterType, ResampleContext};
use crate::samplefmt::SampleFormat;
use crate::stream;
use crate::swr;
use crate::swr::SwrContext;
use vstd::arithmetic::div_mod::*;
use vstd::prelude::*;

verus! {

impl ResampleContext {
    /// The usual speed of the clock is that of the rates: in the time of
    /// `in_rate` inputs come `out_rate` outputs.
    pub open spec fn paced(self, out_rate: int, in_rate: int) -> bool {
        out_rate * self.ideal_dst_incr == in_rate * self.phase_count * self.src_incr
    }

    /// A rate change is under way, or the clock has its usual speed.
    pub open spec fn usual(self) -> bool {
        self.compensation_distance == 0 ==> self.dst_incr == self.ideal_dst_incr
    }

    /// A new resampler has the speed of its rates.
    pub proof fn lemma_made_paced(
        self,
        out_rate: int,
        in_rate: int,
        filter_size: int,
        phase_shift: int,
        linear: i32,
        cutoff: F64,
        format: SampleFormat,
        filter_type: FilterType,
        kaiser_beta: F64,
        exact: bool,
        taps: Seq<F64>,
    )
        requires
            self.wf(),
            1 <= out_rate,
            1 <= in_rate,
            self.made_for(
                out_rate,
                in_rate,
                filter_size,
                phase_shift,
                linear,
                cutoff,
                format,
                filter_type,
                kaiser_beta,
                exact,
                taps,
            ),
        ensures
            self.paced(out_rate, in_rate),
            self.usual(),
    {
        let pc = self.phase_count as int;
        let b = in_rate * pc;
        assert(b >= 1) by (nonlinear_arith)
            requires
                in_rate >= 1,
                pc >= 1,
                b == in_rate * pc,
        ;
        lemma_increments(out_rate, b);
        assert(in_rate * pc * self.src_incr == self.src_incr * b) by (nonlinear_arith)
            requires
                b == in_rate * pc,
        ;
        assert(out_rate * self.ideal_dst_incr == self.ideal_dst_incr * out_rate)
            by (nonlinear_arith);
    }

    /// Changing to the reserved phases keeps the speed.
    pub proof fn lemma_refined_paced(self, out_rate: int, in_rate: int)
        requires
            self.wf(),
            self.dst_incr == self.ideal_dst_incr,
            self.paced(out_rate, in_rate),
            self.refinable(),
        ensures
            self.refined().paced(out_rate, in_rate),
    {
        if self.phase_count != self.phase_count_compensation {
            let k = self.refinement();
            let q = self.refined();
            let s = self.src_incr as int;
            let d = self.ideal_dst_incr as int;
            let pc = self.phase_count as int;
            lemma_fundamental_div_mod(self.phase_count_compensation as int, pc);
            assert(q.phase_count == pc * k);
            assert(k >= 1) by (nonlinear_arith)
                requires
                    pc * k >= 1,
                    pc >= 1,
            ;
            assert(d * k >= 1) by (nonlinear_arith)
                requires
                    d >= 1,
                    k >= 1,
            ;
            lemma_increments(s, d * k);
            mathematics::lemma_lowest_pos(s as nat, (d * k) as nat);
            let (x, y) = mathematics::lowest(s as nat, (d * k) as nat);
            lemma_doubled_small(x as int, y as int);
            let s2 = q.src_incr as int;
            let d2 = q.ideal_dst_incr as int;
            assert(s2 * (d * k) == d2 * s);
            let w = in_rate * pc;
            assert((out_rate * d2) * s == out_rate * (d2 * s)) by (nonlinear_arith);
            assert(out_rate * (s2 * (d * k)) == (out_rate * d) * (s2 * k)) by (nonlinear_arith);
            assert((w * s) * (s2 * k) == ((w * k) * s2) * s) by (nonlinear_arith);
            assert(w * k == in_rate * (pc * k)) by (nonlinear_arith)
                requires
                    w == in_rate * pc,
            ;
            assert(out_rate * d2 == in_rate * (pc * k) * s2) by (nonlinear_arith)
                requires
                    (out_rate * d2) * s == (in_rate * (pc * k) * s2) * s,
                    s >= 1,
            ;
        }
    }

    /// Making outputs keeps the speed.
    pub proof fn lemma_run_paced(self, out_rate: int, in_rate: int, n: nat)
        requires
            self.paced(out_rate, in_rate),
            self.usual(),
            self.compensation_distance >= 0,
        ensures
            self.run(n).compensation_distance >= 0,
            self.run(n).paced(out_rate, in_rate),
            self.run(n).usual(),
            self.run(n).ideal_dst_incr == self.ideal_dst_incr,
            self.run(n).src_incr == self.src_incr,
            self.run(n).phase_count == self.phase_count,
        decreases n,
    {
        if n > 0 {
            self.lemma_run_paced(out_rate, in_rate, (n - 1) as nat);
        }
    }

    /// Ticks for which `len` samples last, the mirrored start included, are no more
    /// than those of two samples more.
    proof fn lemma_ticks_bound(self, len: int)
        requires
            self.wf(),
            len >= 0,
        ensures
            self.begun().ticks_left(self.stream_len(len)) <= ((len + 2) * self.phase_count
                - self.index) * self.src_incr,
    {
        let s = self.begun();
        let pc = self.phase_count as int;
        let fl = self.filter_length as int;
        let u = self.src_incr as int;
        let ix = self.index as int;
        let far = (len + 2) * pc - ix;
        let lead = self.lead();
        if ix < 0 {
            self.lemma_lead_fits();
        }
        let near = (1 + self.stream_len(len) - fl) * pc - s.index;
        assert(near == (1 + len - fl) * pc - ix) by {
            if ix < 0 {
                assert((1 + (len + lead) - fl) * pc == (1 + len - fl) * pc + lead * pc)
                    by (nonlinear_arith);
            }
        }
        assert((1 + len - fl) * pc <= (len + 2) * pc) by (nonlinear_arith)
            requires
                fl >= 1,
                pc >= 1,
        ;
        assert(near * u <= far * u) by (nonlinear_arith)
            requires
                near <= far,
                u >= 1,
        ;
    }

    proof fn lemma_lead_fits(self)
        requires
            self.wf(),
            self.index < 0,
        ensures
            0 <= self.index + self.lead() * self.phase_count < self.phase_count,
    {
        let pc = self.phase_count as int;
        let t = -self.index + pc - 1;
        lemma_fundamental_div_mod(t, pc);
        lemma_mod_bound(t, pc);
        assert(pc * (t / pc) == (t / pc) * pc) by (nonlinear_arith);
    }
}

proof fn lemma_doubled_small(a: int, b: int)
    requires
        1 <= a <= 0x4000_0000,
        1 <= b <= 0x4000_0000,
    ensures
        1 <= resample::doubled(a, b).0 <= 0x4000_0000,
        1 <= resample::doubled(a, b).1 <= 0x4000_0000,
    decreases 0x20_0000 - a,
{
    if 1 <= a < 0x10_0000 && b < 0x10_0000 {
        lemma_doubled_small(2 * a, 2 * b);
    }
}

proof fn lemma_increments(a: int, b: int)
    requires
        1 <= a,
        1 <= b,
    ensures
        resample::increments(a, b).0 * b == resample::increments(a, b).1 * a,
{
    mathematics::lemma_lowest_pos(a as nat, b as nat);
    let (x, y) = mathematics::lowest(a as nat, b as nat);
    resample::lemma_doubled(x as int, y as int);
    let (u, v) = resample::doubled(x as int, y as int);
    assert(u * b == v * a) by (nonlinear_arith)
        requires
            u * y == v * x,
            x * b == y * a,
            y >= 1,
            x >= 1,
    {
        assert((u * b) * x == (v * a) * x) by (nonlinear_arith)
            requires
                u * y == v * x,
                x * b == y * a,
        ;
        assert(u * b == v * a) by (nonlinear_arith)
            requires
                (u * b) * x == (v * a) * x,
                x >= 1,
        ;
    }
}

/// In the time of `k` outputs no more than `k` begin.
proof fn lemma_avail_bound(left: int, d: int, k: int)
    requires
        d >= 1,
        k >= 0,
        left <= k * d,
    ensures
        stream::avail(left, d) <= k,
{
    if left > 0 {
        let q = (left + d - 1) / d;
        lemma_fundamental_div_mod(left + d - 1, d);
        lemma_mod_bound(left + d - 1, d);
        assert(q <= k) by (nonlinear_arith)
            requires
                d * q <= left + d - 1,
                left <= k * d,
                d >= 1,
        ;
    }
}

impl SwrContext {
    /// The resampler has the speed of the rates.
    pub open spec fn paced(self) -> bool {
        self.resample matches Some(r) ==> {
            &&& r.steady()
            &&& r.usual()
            &&& r.paced(
                self.options.out_sample_rate as int,
                self.options.in_sample_rate as int,
            )
        }
    }

    /// Initialization gives the resampler the speed of the rates.
    pub proof fn lemma_started_paced(self, new: SwrContext)
        requires
            self.started(new),
            1 <= self.options.out_sample_rate,
            1 <= self.options.in_sample_rate,
            new.resample matches Some(r) ==> r.steady(),
        ensures
            new.paced(),
    {
        if let Some(r) = new.resample {
            reveal(swr::resampler_for);
            let o = self.options;
            let f = self.will_be();
            let k = choose|k: int|
                {
                    &&& 0 <= k < self.tables@.len()
                    &&& #[trigger] self.tables@[k].describes(swr::needed_shape(o))
                    &&& r.made_for(
                        o.out_sample_rate as int,
                        o.in_sample_rate as int,
                        o.filter_size as int,
                        o.phase_shift as int,
                        if o.linear_interp {
                            1
                        } else {
                            0
                        },
                        o.cutoff,
                        f,
                        o.filter_type,
                        o.kaiser_beta,
                        o.exact_rational,
                        self.tables@[k].taps@,
                    )
                };
            r.lemma_made_paced(
                o.out_sample_rate as int,
                o.in_sample_rate as int,
                o.filter_size as int,
                o.phase_shift as int,
                if o.linear_interp {
                    1
                } else {
                    0
                },
                o.cutoff,
                f,
                o.filter_type,
                o.kaiser_beta,
                o.exact_rational,
                self.tables@[k].taps@,
            );
            reveal(swr::written_out);
        }
    }

    /// A call keeps the speed.
    pub proof fn lemma_passed_paced(
        self,
        new: SwrContext,
        in_: Option<Seq<Seq<u8>>>,
        n: int,
        m: int,
        k: int,
        o: Planes,
    )
        requires
            self.paced(),
            new.same_setup(self),
            self.passed(new, in_, n, m, k, o),
            new.resample matches Some(r) ==> r.steady(),
        ensures
            new.paced(),
    {
        if let Some(r) = self.resample {
            let a = self.options.out_sample_rate as int;
            let b = self.options.in_sample_rate as int;
            if !r.starved(self.upcoming_len(in_, n)) {
                r.begun().lemma_run_paced(a, b, k as nat);
            }
        }
    }

    /// Room for as many outputs as the upper bound tells is room for all outputs
    /// that there are: without a resampler nothing stays in the buffer, and with one
    /// no more outputs begin in the time of the buffered and `n` new samples, at
    /// the usual speed as at that of a rate change.
    pub proof fn lemma_room_enough(self, n: int)
        requires
            self.paced(),
            self.out_samples_known(n),
            n >= 0,
        ensures
            self.resample is None ==> self.fifo_count(n, self.out_samples(n))
                == self.in_buffer_count + n,
            self.resample matches Some(r) ==> {
                let left = r.begun().ticks_left(r.stream_len(self.in_buffer_count + n));
                &&& stream::avail(left, r.ideal_dst_incr as int) <= self.out_samples(n)
                &&& stream::avail(left, r.dst_incr as int) <= self.out_samples(n)
            },
    {
        if let Some(r) = self.resample {
            let len = self.in_buffer_count + n;
            let a = self.options.out_sample_rate as int;
            let i = self.options.in_sample_rate as int;
            let pc = r.phase_count as int;
            let u = r.src_incr as int;
            let d = r.ideal_dst_incr as int;
            let left = r.begun().ticks_left(r.stream_len(len));
            r.lemma_ticks_bound(len);
            let p = r.phases_ahead(n, self.in_buffer_count as int);
            let far = (len + 2) * pc - r.index;
            assert(p == far);
            assert((len + 2) * pc >= 2 * pc) by (nonlinear_arith)
                requires
                    len >= 0,
                    pc >= 1,
            ;
            assert(p >= 0);
            let c = i * pc;
            assert(c >= 1) by (nonlinear_arith)
                requires
                    c == i * pc,
                    i >= 1,
                    pc >= 1,
            ;
            let q = mathematics::rescaled(p, a, c, Rounding::Up);
            assert(p * a >= 0) by (nonlinear_arith)
                requires
                    p >= 0,
                    a >= 1,
            ;
            lemma_fundamental_div_mod(p * a + c - 1, c);
            lemma_mod_bound(p * a + c - 1, c);
            assert(q >= 0) by {
                lemma_div_pos_is_pos(p * a + c - 1, c);
            }
            let k = r.out_bound(n, self.in_buffer_count as int, i, a);
            assert(0 <= k);
            assert(p != i64::MIN);
            assert(k == q + 2);
            assert(c * q >= p * a);
            assert(p * u <= q * d) by (nonlinear_arith)
                requires
                    c * q >= p * a,
                    a * d == i * pc * u,
                    c == i * pc,
                    c >= 1,
                    a >= 1,
                    d >= 1,
                    u >= 1,
            {
                assert((c * q) * u >= (p * a) * u) by (nonlinear_arith)
                    requires
                        c * q >= p * a,
                        u >= 1,
                ;
                assert((c * u) * q == (c * q) * u) by (nonlinear_arith);
                assert(c * u == a * d);
                assert((a * d) * q >= (p * a) * u);
                assert((a * d) * q == a * (q * d)) by (nonlinear_arith);
                assert((p * a) * u == a * (p * u)) by (nonlinear_arith);
                assert(p * u <= q * d) by (nonlinear_arith)
                    requires
                        a * (p * u) <= a * (q * d),
                        a >= 1,
                ;
            }
            assert(q * d <= k * d) by (nonlinear_arith)
                requires
                    q <= k,
                    d >= 1,
            ;
            lemma_avail_bound(left, d, k);
            if r.compensation_distance != 0 {
                let v = r.dst_incr as int;
                let t = k * d - 1;
                assert(k * d >= 1) by (nonlinear_arith)
                    requires
                        k >= 2,
                        d >= 1,
                ;
                let slow = mathematics::tquot(t, v) + 1;
                lemma_fundamental_div_mod(t, v);
                lemma_mod_bound(t, v);
                assert(slow * v >= k * d) by (nonlinear_arith)
                    requires
                        slow == t / v + 1,
                        t == v * (t / v) + t % v,
                        t % v < v,
                        t == k * d - 1,
                ;
                assert(slow >= 1) by {
                    lemma_div_pos_is_pos(t, v);
                }
                lemma_avail_bound(left, v, slow);
            }
        }
    }

    /// With that room a call with `n` new samples makes all outputs that there are:
    /// at the usual speed, nothing more can come before there is more input.
    pub proof fn lemma_room_used(
        self,
        new: SwrContext,
        in_: Option<Seq<Seq<u8>>>,
        n: int,
        k: int,
        o: Planes,
    )
        requires
            self.paced(),
            self.out_samples_known(n),
            n > 0,
            in_ is Some,
            self.passed(new, in_, n, self.out_samples(n), k, o),
            self.resample matches Some(r) ==> {
                &&& r.begun().calm()
                &&& r.begun().plain(r.stream_len(self.in_buffer_count + n))
                &&& r.compensation_distance == 0
            },
        ensures
            match self.resample {
                None => new.in_buffer_count == 0,
                Some(r) => r.starved(self.in_buffer_count + n) || stream::avail(
                    new.resample->0.ticks_left(new.in_buffer_count as int),
                    new.resample->0.dst_incr as int,
                ) == 0,
            },
    {
        self.lemma_room_enough(n);
        if let Some(r) = self.resample {
            if !r.starved(self.in_buffer_count + n) {
                let s = r.begun();
                let total = r.stream_len(self.in_buffer_count + n);
                let a = stream::avail(s.ticks_left(total), s.dst_incr as int);
                assert(k == a);
                s.lemma_left(total, k as nat);
                stream::lemma_avail_less(s.ticks_left(total), s.dst_incr as int, k);
            }
        }
    }
}

} // verus!
