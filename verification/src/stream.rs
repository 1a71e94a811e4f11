//! Resampling a stream: what the resampler makes of its input, however the
//! input is cut into pieces.
use crate::arith;
use crate::arith::Arith;
use crate::audio;
use crate::audio::{scratch_like, splice, AudioData, Planes};
use crate::error::{invalid, Error};
use crate::resample;
use crate::resample::ResampleContext;
use vstd::arithmetic::div_mod::*;
use vstd::arithmetic::mul::*;
use vstd::prelude::*;

verus! {

// --- output by output ------------------------------------------------------------------

impl ResampleContext {
    /// A speed at which outputs neither skip input nor all but stand still.
    pub open spec fn bearable(self, d: int) -> bool {
        let span = self.phase_count * self.src_incr;
        &&& 1 <= d <= self.filter_length * span
        &&& (self.filter_length + 1) * span <= 0x7fff_ffff * d
    }

    /// The clock moves forward.
    pub open spec fn steady(self) -> bool {
        &&& self.wf()
        &&& self.running()
        &&& self.compensation_distance >= 0
    }

    /// The speed of the clock, now and after a rate change, is bearable.
    pub open spec fn gentle(self) -> bool {
        &&& self.steady()
        &&& self.bearable(self.dst_incr as int)
        &&& self.bearable(self.ideal_dst_incr as int)
    }

    /// Steady, and past the start of the input.
    pub open spec fn calm(self) -> bool {
        &&& self.steady()
        &&& self.index >= 0
    }

    /// The same filter, format and ratio.
    pub open spec fn alike(self, o: ResampleContext) -> bool {
        &&& self.format == o.format
        &&& self.felem_size == o.felem_size
        &&& self.filter_length == o.filter_length
        &&& self.phase_count == o.phase_count
        &&& self.src_incr == o.src_incr
    }

    /// The resampler after one more output.
    pub open spec fn step(self) -> ResampleContext {
        self.moved(1).counted(1)
    }

    /// The resampler after `n` more outputs.
    pub open spec fn run(self, n: nat) -> ResampleContext
        decreases n,
    {
        if n == 0 {
            self
        } else {
            self.run((n - 1) as nat).step()
        }
    }

    /// Input samples that `n` more outputs use up.
    pub open spec fn spent(self, n: nat) -> int
        decreases n,
    {
        if n == 0 {
            0
        } else {
            self.spent((n - 1) as nat) + self.run((n - 1) as nat).used_up(1)
        }
    }

    /// Output `n` of the stream `x`.
    pub open spec fn nth(self, x: Seq<u64>, n: nat) -> u64 {
        self.run(n).out_sample(x.subrange(self.spent(n), x.len() as int), 0)
    }
}

/// The first `n` outputs of every channel of the stream `x`.
pub open spec fn outputs(s: ResampleContext, x: Planes, n: nat) -> Planes {
    Seq::new(x.len(), |c: int| Seq::new(n, |j: int| s.nth(x[c], j as nat)))
}

impl ResampleContext {
    proof fn lemma_moved(self, n: int)
        requires
            self.calm(),
            0 <= n <= i32::MAX,
        ensures
            self.moved(n).calm(),
            self.moved(n).is_trivial() == self.is_trivial(),
    {
        if n > 0 {
            self.lemma_ticks(n);
            if self.keeps_phase() {
                self.lemma_keeps_phase(n);
            }
            assert(-self.phase_count * ((self.filter_length - 1) / 2) <= 0) by (nonlinear_arith)
                requires
                    self.phase_count >= 0,
                    (self.filter_length - 1) / 2 >= 0,
            ;
        }
    }

    proof fn lemma_counted(self, n: int)
        requires
            self.calm(),
            0 <= n,
            self.compensation_distance == 0 || n <= self.compensation_distance,
        ensures
            self.counted(n).calm(),
            self.counted(n).is_trivial() == self.is_trivial(),
    {
        let d = self.ideal_dst_incr as int;
        let u = self.src_incr as int;
        lemma_fundamental_div_mod(d, u);
        lemma_mod_bound(d, u);
        lemma_div_pos_is_pos(d, u);
        lemma_mul_is_commutative(u, d / u);
        lemma_div_is_ordered_by_denominator(d, 1, u);
        lemma_div_basics(d);
    }

    /// One call for `n` outputs is `n` steps.
    proof fn lemma_call(self, n: nat)
        requires
            self.calm(),
            n <= i32::MAX,
            self.compensation_distance == 0 || n <= self.compensation_distance,
        ensures
            self.run(n) == self.moved(n as int).counted(n as int),
            self.run(n).calm(),
            self.spent(n) == (if n == 0 {
                0
            } else {
                self.pos_at(n as int)
            }),
            0 <= self.spent(n),
        decreases n,
    {
        self.lemma_moved(n as int);
        self.moved(n as int).lemma_counted(n as int);
        if n > 0 {
            let m = (n - 1) as nat;
            self.lemma_call(m);
            self.lemma_moved(m as int);
            self.lemma_pos_bound(n as int);
            if m > 0 {
                self.lemma_clock_adds(m as int, 1);
            }
            let a = self.moved(m as int);
            let b = a.counted(m as int);
            assert(b.moved(1).counted(1) == self.moved(n as int).counted(n as int)) by {
                assert(b.ticks(1) == a.ticks(1));
                if m == 0 {
                    assert(a == self);
                }
            }
            assert(b.pos_at(1) == a.pos_at(1));
        }
    }

    /// Output `j` of a call is output `j` of the stream.
    proof fn lemma_call_output(self, x: Seq<u64>, j: nat)
        requires
            self.calm(),
            self.faithful(j + 1int),
            j < i32::MAX,
            self.compensation_distance == 0 || j < self.compensation_distance,
            self.reach(j as int) <= x.len(),
        ensures
            self.nth(x, j) == self.out_sample(x, j as int),
    {
        self.lemma_call(j);
        if j == 0 {
            assert(x.subrange(0, x.len() as int) =~= x);
        } else {
            self.lemma_pieces(x, j as int, 0);
            let a = self.moved(j as int);
            let b = a.counted(j as int);
            let y = x.subrange(self.pos_at(j as int), x.len() as int);
            assert(b.ticks(0) == a.ticks(0));
            assert(b.out_sample(y, 0) == a.out_sample(y, 0));
        }
    }

    /// Steps add up.
    pub proof fn lemma_adds(self, a: nat, b: nat)
        ensures
            self.run(a).run(b) == self.run(a + b),
            self.spent(a + b) == self.spent(a) + self.run(a).spent(b),
    {
        self.lemma_run_adds(a, b);
    }

    proof fn lemma_run_adds(self, a: nat, b: nat)
        ensures
            self.run(a).run(b) == self.run(a + b),
            self.spent(a + b) == self.spent(a) + self.run(a).spent(b),
        decreases b,
    {
        if b > 0 {
            self.lemma_run_adds(a, (b - 1) as nat);
            assert((a + b - 1) as nat == a + (b - 1) as nat);
        }
    }

    /// The rest of a stream gives the rest of the outputs.
    proof fn lemma_nth_adds(self, x: Seq<u64>, a: nat, b: nat)
        requires
            0 <= self.spent(a) <= x.len(),
            0 <= self.run(a).spent(b),
            self.spent(a + b) <= x.len(),
        ensures
            self.run(a).nth(x.subrange(self.spent(a), x.len() as int), b) == self.nth(x, a + b),
    {
        self.lemma_run_adds(a, b);
        let y = x.subrange(self.spent(a), x.len() as int);
        let k = self.run(a).spent(b);
        assert(y.subrange(k, y.len() as int) =~= x.subrange(self.spent(a + b), x.len() as int));
    }

    /// A calm resampler stays calm, and time does not run backwards.
    pub proof fn lemma_run_calm(self, n: nat)
        requires
            self.calm(),
        ensures
            self.run(n).calm(),
            self.run(n).alike(self),
            0 <= self.spent(n),
        decreases n,
    {
        if n > 0 {
            self.lemma_run_calm((n - 1) as nat);
            let r = self.run((n - 1) as nat);
            r.lemma_call(1);
            assert(r.moved(1).counted(1).alike(r));
            assert(r.run(0) == r);
            assert(r.spent(0) == 0);
            reveal_with_fuel(ResampleContext::run, 2);
            reveal_with_fuel(ResampleContext::spent, 2);
        }
    }

    /// A stream can be left after `k` outputs and taken up again: what is left of
    /// it gives the outputs that are left.
    pub proof fn lemma_resumed(self, x: Planes, total: int, k: nat, n: nat)
        requires
            self.calm(),
            forall|c: int| 0 <= c < x.len() ==> (#[trigger] x[c]).len() == total,
            self.spent(k + n) <= total,
        ensures
            self.run(k).run(n) == self.run(k + n),
            self.spent(k + n) == self.spent(k) + self.run(k).spent(n),
            0 <= self.spent(k) <= total,
            outputs(
                self.run(k),
                audio::planes_window(x, self.spent(k), total - self.spent(k)),
                n,
            ) == audio::planes_window(outputs(self, x, k + n), k as int, n as int),
    {
        self.lemma_run_calm(k);
        self.run(k).lemma_run_calm(n);
        self.lemma_run_adds(k, n);
        let y = audio::planes_window(x, self.spent(k), total - self.spent(k));
        let a = outputs(self.run(k), y, n);
        let b = audio::planes_window(outputs(self, x, k + n), k as int, n as int);
        assert forall|c: int| 0 <= c < x.len() implies a[c] == #[trigger] b[c] by {
            assert(x[c].len() == total);
            assert(y[c] == x[c].subrange(self.spent(k), total));
            assert forall|j: int| 0 <= j < n implies a[c][j] == #[trigger] b[c][j] by {
                self.run(k).lemma_run_calm(j as nat);
                self.run(k).run(j as nat).lemma_run_calm((n - j) as nat);
                self.run(k).lemma_run_adds(j as nat, (n - j) as nat);
                self.lemma_run_adds(k, j as nat);
                self.lemma_nth_adds(x[c], k, j as nat);
                assert(a[c][j] == self.run(k).nth(y[c], j as nat));
                assert(b[c][j] == self.nth(x[c], (k + j) as nat));
                assert((k + j) as nat == k + j as nat);
            }
            assert(a[c] =~= b[c]);
        }
        assert(a =~= b);
    }

    /// An output depends on the input it reaches only.
    proof fn lemma_local(self, x: Seq<u64>, y: Seq<u64>, n: int)
        requires
            self.wf(),
            0 <= self.pos_at(n),
            self.is_trivial() ==> 0 <= self.pick(n),
            self.reach(n) <= x.len(),
            self.reach(n) <= y.len(),
            forall|i: int| 0 <= i < self.reach(n) ==> x[i] == y[i],
        ensures
            self.out_sample(x, n) == self.out_sample(y, n),
    {
        let a = self.arith();
        let base = self.index_at(n) * self.filter_alloc;
        let fl = self.filter_length as nat;
        let p = self.pos_at(n);
        let r = self.reach(n);
        let s = resample::acc_start(a);
        if !self.is_trivial() {
            lemma_tap_local(a, self.bank@, base, x, y, p, s, 0, 1, fl, r);
            lemma_tap_local(a, self.bank@, base + self.filter_alloc, x, y, p, s, 0, 1, fl, r);
            lemma_tap_local(a, self.bank@, base, x, y, p, s, 0, 2, (fl + 1) / 2, r);
            lemma_tap_local(a, self.bank@, base, x, y, p, 0, 1, 2, fl / 2, r);
        }
    }

    pub(crate) proof fn lemma_less_faithful(self, n: int, m: int)
        requires
            self.faithful(m),
            n <= m,
            self.src_incr >= 0,
        ensures
            self.faithful(n),
    {
        lemma_mul_inequality(n, m, self.src_incr as int);
    }

    proof fn lemma_usable(self, k: int)
        requires
            self.wf(),
            0 <= k,
        ensures
            0 <= self.usable(k) <= k,
    {
        lemma_div_pos_is_pos(0x3fff_ffff_ffff_ffff, self.phase_count as int);
        lemma_div_pos_is_pos(
            0x3fff_ffff_ffff_ffffint / self.phase_count as int,
            self.src_incr as int,
        );
    }

    /// A gentle resampler stays gentle.
    pub(crate) proof fn lemma_run_gentle(self, n: nat)
        requires
            self.calm(),
            self.gentle(),
        ensures
            self.run(n).calm(),
            self.run(n).gentle(),
        decreases n,
    {
        self.lemma_run_calm(n);
        if n > 0 {
            self.lemma_run_gentle((n - 1) as nat);
            let r = self.run((n - 1) as nat);
            let q = self.run(n);
            assert(q == r.moved(1).counted(1));
            assert(q.ideal_dst_incr == r.ideal_dst_incr);
            assert(q.dst_incr == r.dst_incr || q.dst_incr == r.ideal_dst_incr);
        }
    }

    /// A bearable clock never runs so far back that the count wraps.
    proof fn lemma_room(self, k: int)
        requires
            self.calm(),
            self.bearable(self.dst_incr as int),
            0 <= k <= i32::MAX,
        ensures
            self.room(k) >= i32::MIN,
    {
        self.lemma_usable(k);
        let d = self.dst_incr as int;
        let u = self.src_incr as int;
        let pc = self.phase_count as int;
        let fl = self.filter_length as int;
        let span = pc * u;
        let ss = self.usable(k);
        let left = self.ticks_left(ss);
        assert(left >= -((fl + 1) * span)) by {
            let i = self.index as int;
            assert(((1 + ss - fl) * pc - i) * u - u >= -((fl + 1) * span)) by (nonlinear_arith)
                requires
                    ss >= 0,
                    i <= pc - 1,
                    span == pc * u,
                    u >= 1,
                    pc >= 1,
                    fl >= 1,
            ;
        }
        let x = left + d - 1;
        if x < 0 {
            assert(-x <= 0x7fff_ffff * d);
            lemma_div_is_ordered(-x, 0x7fff_ffff * d, d);
            lemma_div_multiples_vanish(0x7fff_ffff, d);
            lemma_mul_is_commutative(d, 0x7fff_ffff);
        } else {
            lemma_div_pos_is_pos(x, d);
        }
    }
}

proof fn lemma_tap_local(
    a: Arith,
    bank: Seq<i128>,
    base: int,
    x: Seq<u64>,
    y: Seq<u64>,
    pos: int,
    start: int,
    first: int,
    step: int,
    n: nat,
    lim: int,
)
    requires
        0 <= pos,
        0 <= first,
        1 <= step,
        n > 0 ==> pos + first + (n - 1) * step < lim,
        forall|i: int| 0 <= i < lim ==> x[i] == y[i],
    ensures
        resample::tap_sum(a, bank, base, x, pos, start, first, step, n) == resample::tap_sum(
            a,
            bank,
            base,
            y,
            pos,
            start,
            first,
            step,
            n,
        ),
    decreases n,
{
    if n > 0 {
        assert(0 <= (n - 1) * step) by (nonlinear_arith)
            requires
                n >= 1,
                step >= 1,
        ;
        assert(n >= 2 ==> (n - 2) * step <= (n - 1) * step) by (nonlinear_arith)
            requires
                step >= 1,
        ;
        lemma_tap_local(a, bank, base, x, y, pos, start, first, step, (n - 1) as nat, lim);
    }
}

// --- pulling output from a buffer -------------------------------------------------------

/// Whether two buffers have the same number of channels and sample width.
pub open spec fn alike(a: AudioData, b: AudioData) -> bool {
    a.ch_count == b.ch_count && a.bps == b.bps
}

proof fn lemma_buffer_size(ch: int, n: int, m: int, b: int)
    requires
        0 <= ch,
        0 <= n <= m,
        0 <= b,
    ensures
        0 <= ch * n * b <= ch * m * b,
{
    assert(0 <= ch * n <= ch * m) by (nonlinear_arith)
        requires
            0 <= ch,
            0 <= n <= m,
    ;
    assert(0 <= ch * n * b <= ch * m * b) by (nonlinear_arith)
        requires
            0 <= ch * n <= ch * m,
            0 <= b,
    ;
}

/// What can stop the resampling of a stream.
pub enum Halt {
    /// The next output lies too far from the input.
    Stray,
    /// An output needs a sample that is not there.
    Short,
    /// The buffer cannot grow.
    Full,
}

/// The error that tells of it.
pub open spec fn halt_error(h: Halt, e: Error) -> bool {
    match h {
        Halt::Stray => e.is_invalid("resampling step exceeds the filter"@),
        Halt::Short => e == Error::BufferTooSmall,
        Halt::Full => e.is_invalid("swri_realloc_audio: sample count out of range"@),
    }
}

/// The first `n` outputs from the samples `v`, of every channel.
pub open spec fn raw_outputs(s: ResampleContext, v: Planes, n: nat) -> Planes {
    Seq::new(v.len(), |c: int| Seq::new(n, |j: int| s.out_sample(v[c], j)))
}

impl ResampleContext {
    /// What stops a call for `room` outputs from `k` samples. `most` samples may be
    /// used up, and `there` are in memory.
    pub open spec fn snag(self, room: int, k: int, most: int, there: int) -> Option<Halt> {
        let m = self.produced(room, k);
        if self.room(k) < i32::MIN {
            Some(Halt::Stray)
        } else if m > 0 && self.reach(m - 1) > there {
            Some(Halt::Short)
        } else if self.spent(m as nat) > most {
            Some(Halt::Stray)
        } else {
            None
        }
    }

    /// Nothing stops a gentle resampler that keeps its place.
    proof fn lemma_no_snag(self, room: int, k: int, most: int, there: int)
        requires
            self.calm(),
            self.gentle(),
            self.faithful(room),
            0 <= room <= i32::MAX,
            0 <= k <= i32::MAX,
            k <= most,
            k <= there,
        ensures
            self.snag(room, k, most, there) is None,
    {
        let m = self.produced(room, k);
        self.lemma_room(k);
        self.lemma_short(room, k);
        self.lemma_call(m as nat);
        if m > 0 {
            self.lemma_less_faithful(m, room);
            self.lemma_within_input(room, k);
            lemma_mul_is_associative(
                self.filter_length as int,
                self.phase_count as int,
                self.src_incr as int,
            );
            self.lemma_uses_input(room, k);
        }
    }
}

/// Makes up to `room` outputs from the `k` samples of `from` at `off` and puts
/// them into `dst` at `done`. Returns how many it made, and how many samples
/// they used up, which are `most` at most.
#[verifier::rlimit(40)]
fn pull(
    r: &mut ResampleContext,
    dst: &mut AudioData,
    done: usize,
    room: usize,
    from: &AudioData,
    off: usize,
    k: usize,
    most: usize,
) -> (res: Result<(usize, usize), Error>)
    requires
        old(r).calm(),
        old(dst).wf(),
        from.wf(),
        alike(*old(dst), *from),
        from.ch_count > 0,
        k <= most <= i32::MAX,
        from.bps == old(r).felem_size,
        off + k <= from.count,
        done + room <= old(dst).count,
        k <= i32::MAX,
        room <= i32::MAX,
    ensures
        final(dst).wf(),
        final(dst).same_shape(*old(dst)),
        final(dst).count == old(dst).count,
        final(r).calm(),
        final(r).alike(*old(r)),
        res.is_ok() == (old(r).snag(room as int, k as int, most as int, from.count - off) is None),
        res matches Err(e) ==> {
            let h = old(r).snag(room as int, k as int, most as int, from.count - off)->0;
            &&& halt_error(h, e)
            &&& h is Short ==> *final(r) == *old(r) && *final(dst) == *old(dst)
        },
        res matches Ok((m, c)) ==> {
            let w = audio::planes_window(from.chans(), off as int, k as int);
            &&& m <= room
            &&& c <= most
            &&& k == 0 ==> m == 0
            &&& old(r).room(k as int) >= i32::MIN
            &&& m == old(r).produced(room as int, k as int)
            &&& *final(r) == old(r).run(m as nat)
            &&& c == old(r).spent(m as nat)
            &&& final(dst).chans() == audio::planes_splice(
                old(dst).chans(),
                done as int,
                raw_outputs(*old(r), audio::planes_from(from.chans(), off as int), m as nat),
                m as int,
            )
            &&& old(r).faithful(room as int) ==> {
                &&& forall|j: int| 0 <= j < m ==> #[trigger] old(r).reach(j) <= k
                &&& final(dst).chans() == audio::planes_splice(
                    old(dst).chans(),
                    done as int,
                    outputs(*old(r), w, m as nat),
                    m as int,
                )
            }
        },
{
    let ghost s = *r;
    let ghost d0 = *dst;
    let len: usize = dst.data.len();
    proof {
        lemma_buffer_size(dst.ch_count as int, room as int, dst.count as int, dst.bps as int);
        s.lemma_usable(k as int);
        s.lemma_moved(0);
    }
    if r.room_exec(k as i32) < i32::MIN as i128 {
        return Err(invalid("resampling step exceeds the filter"));
    }
    proof {
        if k == 0 {
            s.lemma_nothing(room as int);
        }
        s.lemma_short(room as int, k as int);
    }
    let view: AudioData = audio::view(from, off);
    let mut part: AudioData = scratch_like(dst, room);
    let ghost p0 = part.chans();
    let mut consumed: i32 = 0;
    let made: i32 = match r.multiple_resample(&mut part, room as i32, &view, k as i32, &mut consumed) {
        Ok(n) => n,
        Err(e) => {
            return Err(e);
        },
    };
    proof {
        let n = made as int;
        s.lemma_moved(n);
        s.moved(n).lemma_counted(n);
        s.lemma_call(n as nat);
        if n > 0 {
            s.lemma_pos_near(room as int, k as int);
        }
    }
    if consumed < 0 || consumed as usize > most {
        return Err(invalid("resampling step exceeds the filter"));
    }
    let c: usize = consumed as usize;
    splice(dst, done, &part, made as usize);
    proof {
        let n = made as nat;
        let raw = raw_outputs(s, view.chans(), n);
        let a = dst.chans();
        let b = audio::planes_splice(d0.chans(), done as int, raw, n as int);
        assert forall|ch: int| 0 <= ch < d0.ch_count implies a[ch] == #[trigger] b[ch] by {
            assert forall|i: int| 0 <= i < d0.count implies #[trigger] a[ch][i] == b[ch][i] by {
                if done <= i < done + n {
                    assert(part.chans()[ch][i - done] == s.out_sample(view.chans()[ch], i - done));
                }
            }
            assert(a[ch] =~= b[ch]);
        }
        assert(a =~= b);
        if s.faithful(room as int) {
            let w = audio::planes_window(from.chans(), off as int, k as int);
            s.lemma_less_faithful(n as int, room as int);
            if n > 0 {
                s.lemma_within_input(room as int, k as int);
            }
            assert forall|j: int| 0 <= j < n implies #[trigger] s.reach(j) <= k by {
                s.lemma_forward(j, n - 1);
            }
            let a = dst.chans();
            let b = audio::planes_splice(d0.chans(), done as int, outputs(s, w, n), n as int);
            assert forall|ch: int| 0 <= ch < d0.ch_count implies a[ch] == #[trigger] b[ch] by {
                assert forall|i: int| 0 <= i < d0.count implies #[trigger] a[ch][i] == b[ch][i] by {
                    if done <= i < done + n {
                        let j = i - done;
                        let v = view.chans()[ch];
                        assert(part.chans()[ch][j] == s.out_sample(v, j));
                        assert(s.reach(j) <= k);
                        s.lemma_pos_bound(j);
                        s.lemma_less_faithful(j + 1, n as int);
                        if s.is_trivial() {
                            s.lemma_pick(j);
                        }
                        s.lemma_local(v, w[ch], j);
                        s.lemma_call_output(w[ch], j as nat);
                    }
                }
                assert(a[ch] =~= b[ch]);
            }
            assert(a =~= b);
        }
    }
    Ok((made as usize, c))
}

// --- the stream that a buffer and new input make ----------------------------------------

/// Buffered samples followed by new ones.
pub open spec fn waiting(buf: Planes, index: int, count: int, src: Planes, n: int) -> Planes {
    audio::planes_join(audio::planes_window(buf, index, count), audio::planes_first(src, n))
}

/// Every channel with the mirror image of its start, `lead` samples long, in
/// front.
pub open spec fn planes_primed(p: Planes, lead: int) -> Planes {
    Seq::new(
        p.len(),
        |c: int|
            Seq::new(
                (lead + p[c].len()) as nat,
                |k: int|
                    if k < lead {
                        p[c][lead - k]
                    } else {
                        p[c][k - lead]
                    },
            ),
    )
}

/// Outputs that begin within `left` ticks.
pub open spec fn avail(left: int, d: int) -> int {
    if left <= 0 {
        0
    } else {
        (left + d - 1) / d
    }
}

impl ResampleContext {
    /// There is too little input to start with.
    pub open spec fn starved(self, total: int) -> bool {
        self.index < 0 && total < self.filter_length + 1
    }

    /// The resampler at the start of the input.
    pub open spec fn begun(self) -> ResampleContext {
        if self.index < 0 {
            ResampleContext {
                index: (self.index + self.lead() * self.phase_count) as i32,
                ..self
            }
        } else {
            self
        }
    }

    /// The stream that the resampler sees.
    pub open spec fn stream(self, p: Planes) -> Planes {
        if self.index < 0 {
            planes_primed(p, self.lead())
        } else {
            p
        }
    }

    /// Samples in each channel of the stream that comes of `len` samples.
    pub open spec fn stream_len(self, len: int) -> int {
        if self.index < 0 {
            len + self.lead()
        } else {
            len
        }
    }

    /// The numbers are not too large for one call to look at all of the input.
    pub open spec fn plain(self, total: int) -> bool {
        &&& self.usable(total) == total
        &&& avail(self.ticks_left(total), self.dst_incr as int) <= i32::MAX
    }

    /// Those of `n` outputs that come before a rate change is over.
    pub open spec fn early(self, n: int) -> int {
        if self.compensation_distance == 0 || n < self.compensation_distance {
            n
        } else {
            self.compensation_distance as int
        }
    }

    /// Of `m` outputs `n` come: before a rate change is over, all that begin in
    /// time; after it, only such as begin in time.
    pub open spec fn punctual(self, total: int, m: int, n: int) -> bool {
        let cd = self.compensation_distance;
        let a = avail(self.ticks_left(total), self.dst_incr as int);
        &&& self.early(n) == (if self.early(m) < a {
            self.early(m)
        } else {
            a
        })
        &&& cd > 0 && n > cd ==> {
            let t = self.run(cd as nat);
            let rest = total - self.spent(cd as nat);
            t.plain(rest) ==> n - cd <= avail(t.ticks_left(rest), t.dst_incr as int)
        }
    }

    /// After `n` outputs so many fewer ticks are left.
    pub(crate) proof fn lemma_left(self, total: int, n: nat)
        requires
            self.calm(),
            self.compensation_distance == 0 || n < self.compensation_distance,
            n <= i32::MAX,
        ensures
            ({
                let s = self.run(n);
                &&& s.ticks_left(total - self.spent(n)) == self.ticks_left(total) - n * self.dst_incr
                &&& s.dst_incr == self.dst_incr
                &&& s.phase_count == self.phase_count
                &&& s.src_incr == self.src_incr
                &&& s.compensation_distance == (if self.compensation_distance == 0 {
                    0
                } else {
                    self.compensation_distance - n
                })
            }),
    {
        self.lemma_call(n);
        if n > 0 {
            self.lemma_ticks(n as int);
            let pc = self.phase_count as int;
            let u = self.src_incr as int;
            let p = self.pos_at(n as int);
            let i = self.index_at(n as int);
            let a = 1 + total - self.filter_length;
            assert(((a - p) * pc - i) * u == a * pc * u - (p * pc + i) * u) by (nonlinear_arith);
            assert((a * pc - self.index) * u == a * pc * u - self.index * u) by (nonlinear_arith);
        } else {
            assert(n * self.dst_incr == 0) by (nonlinear_arith)
                requires
                    n == 0,
            ;
        }
    }

    /// What one call makes: outputs that begin in time, and all of them if there
    /// is room.
    proof fn lemma_yield(self, room: int, k: int)
        requires
            self.calm(),
            0 <= k <= i32::MAX,
            0 <= room,
            self.usable(k) == k,
            self.room(k) >= i32::MIN,
            avail(self.ticks_left(k), self.dst_incr as int) <= i32::MAX,
        ensures
            ({
                let m = self.produced(room, k);
                let d = self.dst_incr as int;
                &&& m > 0 ==> self.ticks_left(k) - (m - 1) * d > 0
                &&& self.early(m) == m
                &&& m < self.early(room) ==> self.ticks_left(k) - m * d <= 0
            }),
    {
        let m = self.produced(room, k);
        let d = self.dst_incr as int;
        let left = self.ticks_left(k);
        let x = left + d - 1;
        let q = self.room(k);
        lemma_fundamental_div_mod(x, d);
        lemma_mod_bound(x, d);
        if left > 0 {
            lemma_div_pos_is_pos(x, d);
            assert((m - 1) * d < left) by (nonlinear_arith)
                requires
                    m <= q,
                    x == d * q + x % d,
                    0 <= x % d,
                    x == left + d - 1,
                    d >= 1,
            ;
            if m < self.early(room) {
                assert(m == q);
                assert(m * d >= left) by (nonlinear_arith)
                    requires
                        m == q,
                        x == d * q + x % d,
                        x % d < d,
                        x == left + d - 1,
                ;
            }
        } else {
            if x >= 0 {
                lemma_small_div(x, d);
            } else {
                lemma_div_pos_is_pos(-x, d);
            }
            assert(q <= 0);
            assert(m == 0);
            assert(m * d == 0) by (nonlinear_arith)
                requires
                    m == 0,
            ;
        }
    }

    /// No call goes on beyond a rate change.
    proof fn lemma_short(self, room: int, k: int)
        requires
            self.compensation_distance >= 0,
            0 <= room,
        ensures
            self.early(self.produced(room, k)) == self.produced(room, k),
            0 <= self.produced(room, k) <= room,
    {
    }

    proof fn lemma_left_monotone(self, k: int, total: int)
        requires
            self.wf(),
            k <= total,
        ensures
            self.ticks_left(k) <= self.ticks_left(total),
            0 <= k && self.usable(total) == total ==> self.usable(k) == k,
    {
        let pc = self.phase_count as int;
        let u = self.src_incr as int;
        let a = 1 + k - self.filter_length;
        let b = 1 + total - self.filter_length;
        assert((a * pc - self.index) * u <= (b * pc - self.index) * u) by (nonlinear_arith)
            requires
                a <= b,
                pc >= 0,
                u >= 0,
        ;
    }

    proof fn lemma_left_of_nothing(self)
        requires
            self.calm(),
        ensures
            self.ticks_left(0) <= 0,
    {
        let pc = self.phase_count as int;
        let u = self.src_incr as int;
        let a = 1 - self.filter_length;
        assert((a * pc - self.index) * u <= 0) by (nonlinear_arith)
            requires
                a <= 0,
                pc >= 0,
                u >= 0,
                self.index >= 0,
        ;
    }

    /// Nothing comes of nothing.
    proof fn lemma_nothing(self, room: int)
        requires
            self.calm(),
            0 <= room,
            self.room(0) >= i32::MIN,
        ensures
            self.produced(room, 0) == 0,
    {
        self.lemma_usable(0);
        self.lemma_left_of_nothing();
        let d = self.dst_incr as int;
        let x = self.ticks_left(0) + d - 1;
        if x >= 0 {
            lemma_small_div(x, d);
        } else {
            lemma_div_pos_is_pos(-x, d);
        }
    }

    /// Whether the clock moves forward.
    pub fn is_steady(&self) -> (b: bool)
        requires
            self.wf(),
        ensures
            b == self.steady(),
    {
        self.compensation_distance >= 0 && self.dst_incr >= 1 && self.dst_incr_div == self.dst_incr
            / self.src_incr && self.dst_incr_mod == self.dst_incr % self.src_incr
    }
}

proof fn lemma_small_div(x: int, d: int)
    requires
        0 <= x < d,
    ensures
        x / d == 0,
{
    lemma_basic_div(x, d);
}

/// Samples that the buffer of a resampler may come to hold at the start.
pub open spec fn start_end(r: ResampleContext, index: int, count: int) -> int {
    if r.index >= 0 {
        index + count
    } else if count + r.filter_length > 2 * r.filter_length + 1 {
        count + r.filter_length
    } else {
        2 * r.filter_length + 1
    }
}

/// Memory of the buffer at the start, where it had memory for `cap` samples.
pub open spec fn start_cap(r: ResampleContext, cap: int) -> int {
    if r.index < 0 && cap < 2 * r.filter_length + 1 {
        2 * (2 * r.filter_length + 1)
    } else {
        cap
    }
}

/// Starts the resampler, if it is not started, with buffered and new samples.
/// Tells how many new ones it took, or that there are too few.
fn prime(
    r: &mut ResampleContext,
    buf: &mut AudioData,
    index: &mut usize,
    count: &mut usize,
    src: &AudioData,
    in_count: usize,
) -> (res: Result<Option<usize>, Error>)
    requires
        old(r).wf(),
        old(buf).wf(),
        src.wf(),
        alike(*old(buf), *src),
        src.bps == old(r).felem_size,
        in_count <= src.count,
        *old(index) + *old(count) <= old(buf).count,
        old(r).index < 0 ==> *old(count) == 0 || *old(index) == old(r).filter_length,
        *old(count) + in_count <= i32::MAX,
        src.ch_count * (2 * (2 * old(r).filter_length + 1)) * src.bps <= usize::MAX,
    ensures
        res is Ok,
        final(buf).wf(),
        final(buf).same_shape(*old(buf)),
        *final(index) + *final(count) <= final(buf).count,
        final(buf).count == start_cap(*old(r), old(buf).count as int),
        old(r).index < 0 && !old(r).starved(*old(count) + in_count) ==> *final(index) == old(
            r,
        ).filter_length - old(r).lead(),
        ({
            let total = *old(count) + in_count;
            let st = waiting(
                old(buf).chans(),
                *old(index) as int,
                *old(count) as int,
                src.chans(),
                in_count as int,
            );
            let w = audio::planes_window(
                final(buf).chans(),
                *final(index) as int,
                *final(count) as int,
            );
            if old(r).index >= 0 {
                &&& res matches Ok(Some(b)) && b == 0
                &&& *final(r) == *old(r)
                &&& *final(buf) == *old(buf)
                &&& *final(index) == *old(index)
                &&& *final(count) == *old(count)
            } else if old(r).starved(total) {
                &&& res matches Ok(None)
                &&& *final(r) == *old(r)
                &&& *final(index) == old(r).filter_length
                &&& *final(count) == total
                &&& w == st
            } else {
                &&& res matches Ok(Some(b)) && b <= in_count && *final(count) == old(r).lead()
                    + *old(count) + b && b == (if *old(count) < old(r).filter_length + 1 {
                    old(r).filter_length + 1 - *old(count)
                } else {
                    0
                })
                &&& *final(r) == old(r).begun()
                &&& final(r).wf()
                &&& final(r).index >= 0
                &&& 0 <= old(r).lead() <= old(r).filter_length
                &&& *final(index) + *final(count) == start_end(
                    *old(r),
                    *old(index) as int,
                    *old(count) as int,
                )
                &&& w == audio::planes_window(old(r).stream(st), 0, *final(count) as int)
            }
        }),
{
    let ghost r0 = *r;
    let ghost b0 = *buf;
    let ghost ix = *index as int;
    let ghost sz = *count as int;
    let fl: usize = r.filter_length as usize;
    if r.index >= 0 {
        return Ok(Some(0));
    }
    let before: usize = *count;
    let res: Result<i32, Error> = r.invert_initial_buffer(buf, src, in_count, index, count);
    proof {
        let st = waiting(b0.chans(), ix, sz, src.chans(), in_count as int);
        let num = if in_count + sz < fl + 1 {
            in_count + sz
        } else {
            fl + 1
        };
        let g = audio::planes_grow(b0.chans(), buf.count as nat);
        let staged = audio::planes_splice(g, fl + sz, src.chans(), num - sz);
        let top = if sz < num {
            num
        } else {
            sz
        };
        assert forall|c: int, m: int| 0 <= c < b0.ch_count && 0 <= m < top implies #[trigger] staged[c][fl
            + m] == st[c][m] by {
            if m < sz {
                assert(g[c][fl + m] == b0.chans()[c][fl + m]);
                assert(st[c][m] == b0.chans()[c][ix + m]);
            } else {
                assert(st[c][m] == src.chans()[c][m - sz]);
            }
        }
        let w = audio::planes_window(buf.chans(), *index as int, *count as int);
        if in_count + sz < fl + 1 {
            assert forall|c: int| 0 <= c < b0.ch_count implies w[c] == #[trigger] st[c] by {
                assert forall|k: int| 0 <= k < *count implies w[c][k] == #[trigger] st[c][k] by {
                    assert(staged[c][fl + k] == st[c][k]);
                }
                assert(w[c] =~= st[c]);
            }
            assert(w =~= st);
        } else {
            r0.lemma_lead();
            let lead = r0.lead();
            let x = r0.stream(st);
            let v = audio::planes_window(x, 0, *count as int);
            assert forall|c: int| 0 <= c < b0.ch_count implies w[c] == #[trigger] v[c] by {
                assert forall|k: int| 0 <= k < *count implies #[trigger] w[c][k] == v[c][k] by {
                    let p = *index + k;
                    if k < lead {
                        assert(buf.chans()[c][p] == staged[c][2 * fl - p]);
                        assert(staged[c][fl + (lead - k)] == st[c][lead - k]);
                    } else {
                        assert(buf.chans()[c][p] == staged[c][p]);
                        assert(staged[c][fl + (k - lead)] == st[c][k - lead]);
                    }
                }
                assert(w[c] =~= v[c]);
            }
            assert(w =~= v);
        }
    }
    match res {
        Ok(n) => if n == i32::MAX {
            proof {
                assert(r0.starved(sz + in_count));
            }
            Ok(None)
        } else {
            Ok(Some(n as usize))
        },
        Err(e) => Err(e),
    }
}

// --- a stage of the pipeline -----------------------------------------------------------

/// Every channel of `p` has `n` samples.
#[verifier::opaque]
pub open spec fn even_planes(p: Planes, ch: int, n: int) -> bool {
    p.len() == ch && forall|c: int| 0 <= c < ch ==> (#[trigger] p[c]).len() == n
}

/// Where the resampling of the stream `x` stands after `done` outputs: the
/// resampler, the samples that are still in the buffer, and the output.
#[verifier::opaque]
pub open spec fn stands(
    s: ResampleContext,
    exact: bool,
    x: Planes,
    total: int,
    before: Planes,
    done: nat,
    r: ResampleContext,
    w: Planes,
    count: int,
    now: Planes,
) -> bool {
    &&& even_planes(x, x.len() as int, total)
    &&& r == s.run(done)
    &&& 0 <= s.spent(done)
    &&& s.spent(done) + count <= total
    &&& w == audio::planes_window(x, s.spent(done), count)
    &&& exact ==> now == audio::planes_splice(before, 0, outputs(s, x, done), done as int)
}

proof fn lemma_stands_facts(
    s: ResampleContext,
    exact: bool,
    x: Planes,
    total: int,
    before: Planes,
    done: nat,
    r: ResampleContext,
    w: Planes,
    count: int,
    now: Planes,
)
    requires
        stands(s, exact, x, total, before, done, r, w, count, now),
    ensures
        r == s.run(done),
        0 <= s.spent(done),
        s.spent(done) + count <= total,
{
    reveal(stands);
}

/// More outputs from the samples that come next in the stream.
proof fn lemma_pulled(
    s: ResampleContext,
    exact: bool,
    x: Planes,
    total: int,
    before: Planes,
    done: nat,
    r: ResampleContext,
    w: Planes,
    count: int,
    now: Planes,
    k: int,
    m: nat,
    room: int,
    then: Planes,
)
    requires
        stands(s, exact, x, total, before, done, r, w, count, now),
        r.calm(),
        0 <= k <= i32::MAX,
        s.spent(done) + k <= total,
        m == r.produced(room, k),
        m <= room <= i32::MAX,
        s.spent(done) + r.spent(m) <= total,
        exact ==> {
            &&& r.faithful(m as int)
            &&& forall|j: int| 0 <= j < m ==> #[trigger] r.reach(j) <= k
            &&& then == audio::planes_splice(
                now,
                done as int,
                outputs(r, audio::planes_window(x, s.spent(done), k), m),
                m as int,
            )
        },
        before.len() == x.len(),
    ensures
        s.run(done + m) == r.run(m),
        s.spent(done + m) == s.spent(done) + r.spent(m),
        0 <= r.spent(m),
        exact ==> then == audio::planes_splice(
            before,
            0,
            outputs(s, x, done + m),
            (done + m) as int,
        ),
{
    reveal(even_planes);
    reveal(stands);
    s.lemma_run_adds(done, m);
    if m > 0 {
        r.lemma_call(m);
    }
    if exact {
        let v = audio::planes_window(x, s.spent(done), k);
        let b = audio::planes_splice(before, 0, outputs(s, x, done + m), (done + m) as int);
        assert forall|c: int| 0 <= c < before.len() implies then[c] == #[trigger] b[c] by {
            let y = x[c].subrange(s.spent(done), total);
            assert forall|i: int| 0 <= i < before[c].len() implies #[trigger] then[c][i] == b[c][i] by {
                if done <= i < done + m {
                    let j = (i - done) as nat;
                    assert(r.reach(j as int) <= k);
                    r.lemma_pos_bound(j as int);
                    r.lemma_less_faithful(j + 1int, m as int);
                    if r.is_trivial() {
                        r.lemma_pick(j as int);
                    }
                    r.lemma_call(j);
                    r.lemma_call_output(v[c], j);
                    r.lemma_local(v[c], y, j as int);
                    r.lemma_call_output(y, j);
                    r.lemma_forward(j as int, m as int);
                    s.lemma_run_adds(done, j);
                    assert(x[c].subrange(s.spent(done), x[c].len() as int) == y);
                    s.lemma_nth_adds(x[c], done, j);
                    assert(done + j == i);
                }
            }
            assert(then[c] =~= b[c]);
        }
        assert(then =~= b);
    }
}

/// Makes room in the buffer and appends new samples to it: all of them, or, when
/// it is not empty and output is still wanted, only a few at a time. Tells how
/// many it took.
fn take_in(
    buf: &mut AudioData,
    index: &mut usize,
    count: &mut usize,
    src: &AudioData,
    off: usize,
    n: usize,
    wanted: bool,
) -> (res: Result<usize, Error>)
    requires
        old(buf).wf(),
        src.wf(),
        alike(*old(buf), *src),
        old(buf).ch_count > 0,
        *old(index) + *old(count) <= old(buf).count,
        off + n <= src.count,
        *old(index) + *old(count) + n + 2 <= usize::MAX,
    ensures
        final(buf).wf(),
        final(buf).same_shape(*old(buf)),
        *final(index) + *final(count) <= final(buf).count,
        ({
            let size = *old(index) + *old(count) + n;
            let shifts = size > old(buf).count && *old(count) + n <= *old(index);
            &&& res.is_ok() == (shifts || old(buf).may_hold(size as nat))
            &&& res is Ok ==> *final(index) == if shifts {
                0
            } else {
                *old(index) as int
            }
            &&& res is Ok ==> final(buf).count == if shifts {
                old(buf).count as nat
            } else {
                old(buf).grown_count(size as nat)
            }
        }),
        res matches Err(e) ==> {
            &&& e.is_invalid("swri_realloc_audio: sample count out of range"@)
            &&& *final(index) == *old(index)
            &&& *final(count) == *old(count)
            &&& *final(buf) == *old(buf)
        },
        res matches Ok(k) ==> {
            &&& k == (if *old(count) > 0 && *old(count) + 2 < n && wanted {
                *old(count) + 2
            } else {
                n as int
            })
            &&& *final(count) == *old(count) + k
            &&& *final(index) <= *old(index)
            &&& audio::planes_window(
                final(buf).chans(),
                *final(index) as int,
                *final(count) as int,
            ) == audio::planes_join(
                audio::planes_window(old(buf).chans(), *old(index) as int, *old(count) as int),
                audio::planes_window(src.chans(), off as int, k as int),
            )
        },
{
    let ghost b0 = *buf;
    let ghost ix = *index as int;
    let ghost sz = *count as int;
    let size: usize = *index + *count + n;
    if size > buf.count && *count + n <= *index {
        audio::compact(buf, *index, *count);
        *index = 0;
    } else {
        match buf.realloc_audio(size) {
            Ok(_) => {},
            Err(e) => {
                return Err(e);
            },
        }
    }
    let mut k: usize = n;
    if *count > 0 && *count + 2 < n && wanted {
        k = *count + 2;
    }
    let ghost w0 = audio::planes_window(b0.chans(), ix, sz);
    let ghost mid = buf.chans();
    proof {
        let w = audio::planes_window(mid, *index as int, sz);
        assert forall|c: int| 0 <= c < b0.ch_count implies w[c] == #[trigger] w0[c] by {
            assert(w[c] =~= w0[c]);
        }
        assert(w =~= w0);
    }
    let part: AudioData = audio::view(src, off);
    splice(buf, *index + *count, &part, k);
    *count = *count + k;
    proof {
        let a = audio::planes_window(buf.chans(), *index as int, *count as int);
        let b = audio::planes_join(w0, audio::planes_window(src.chans(), off as int, k as int));
        assert forall|c: int| 0 <= c < b0.ch_count implies a[c] == #[trigger] b[c] by {
            assert forall|i: int| 0 <= i < *count implies #[trigger] a[c][i] == b[c][i] by {
                if i < sz {
                    assert(w0[c][i] == audio::planes_window(mid, *index as int, sz)[c][i]);
                }
            }
            assert(a[c] =~= b[c]);
        }
        assert(a =~= b);
    }
    Ok(k)
}

proof fn lemma_stands_start(s: ResampleContext, exact: bool, x: Planes, total: int, before: Planes, w: Planes, count: int)
    requires
        even_planes(x, x.len() as int, total),
        0 <= count <= total,
        w == audio::planes_window(x, 0, count),
    ensures
        stands(s, exact, x, total, before, 0, s, w, count, before),
{
    reveal(stands);
    reveal(even_planes);
    let b = audio::planes_splice(before, 0, outputs(s, x, 0), 0);
    assert forall|c: int| 0 <= c < before.len() implies before[c] == #[trigger] b[c] by {
        assert(before[c] =~= b[c]);
    }
    assert(before =~= b);
}

/// The same stand with another part of the stream in the buffer.
proof fn lemma_stands_with(
    s: ResampleContext,
    exact: bool,
    x: Planes,
    total: int,
    before: Planes,
    done: nat,
    r: ResampleContext,
    w: Planes,
    count: int,
    now: Planes,
    w2: Planes,
    count2: int,
)
    requires
        stands(s, exact, x, total, before, done, r, w, count, now),
        0 <= count2,
        s.spent(done) + count2 <= total,
        w2 == audio::planes_window(x, s.spent(done), count2),
    ensures
        stands(s, exact, x, total, before, done, r, w2, count2, now),
{
    reveal(stands);
}

/// Outputs up to `n` begin in time.
pub open spec fn in_time(s: ResampleContext, total: int, n: int) -> bool {
    s.plain(total) && n > 0 ==> s.ticks_left(total) - (n - 1) * s.dst_incr > 0
}

/// A call on the next `k` samples of the stream, as far as the time that is left
/// is concerned; it comes before a rate change is over.
proof fn lemma_time(s: ResampleContext, total: int, done: nat, r: ResampleContext, k: int, room: int)
    requires
        s.calm(),
        s.plain(total),
        s.compensation_distance == 0 || done < s.compensation_distance,
        r == s.run(done),
        r.calm(),
        0 <= s.spent(done),
        0 <= k,
        s.spent(done) + k <= total <= i32::MAX,
        0 <= room,
        done + room <= i32::MAX,
        in_time(s, total, done as int),
        r.room(k) >= i32::MIN,
    ensures
        ({
            let m = r.produced(room, k);
            let d = s.dst_incr as int;
            &&& in_time(s, total, done + m)
            &&& s.early(done + m) == done + m
            &&& m < r.early(room) && s.spent(done) + k == total ==> s.ticks_left(total) - (done + m)
                * d <= 0
        }),
{
    s.lemma_left(total, done);
    let m = r.produced(room, k);
    let d = s.dst_incr as int;
    let rest = total - s.spent(done);
    r.lemma_left_monotone(k, rest);
    s.lemma_left_monotone(k, total);
    assert(r.usable(k) == s.usable(k));
    let a = r.ticks_left(k);
    let b = s.ticks_left(total);
    assert(done * d >= 0) by (nonlinear_arith)
        requires
            done >= 0,
            d >= 0,
    ;
    assert(avail(a, d) <= i32::MAX) by {
        if a > 0 {
            lemma_div_is_ordered(a + d - 1, b + d - 1, d);
        }
    }
    r.lemma_yield(room, k);
    assert((done + m) * d == done * d + m * d) by (nonlinear_arith);
    assert((done + m - 1) * d == done * d + (m - 1) * d) by (nonlinear_arith);
}

/// With all of the stream used up, no output begins in time.
proof fn lemma_used_up(s: ResampleContext, total: int, done: nat, r: ResampleContext, room: int)
    requires
        s.calm(),
        r == s.run(done),
        r.calm(),
        s.spent(done) == total,
        done + room <= i32::MAX,
        0 <= room,
    ensures
        exhausted(s, total, done as int, room),
{
    if s.compensation_distance == 0 || done < s.compensation_distance {
        s.lemma_left(total, done);
        r.lemma_left_of_nothing();
    }
}

/// Every output so far began in time.
pub open spec fn timely(s: ResampleContext, total: int, done: int) -> bool {
    let cd = s.compensation_distance as nat;
    &&& in_time(s, total, s.early(done))
    &&& 0 < cd < done ==> in_time(s.run(cd), total - s.spent(cd), done - cd)
}

/// There is no room for more output, or no time, or a rate change is over.
pub open spec fn exhausted(s: ResampleContext, total: int, done: int, room: int) -> bool {
    s.plain(total) && s.early(done + 1) == done + 1 ==> room == 0 || s.ticks_left(total) - done
        * s.dst_incr <= 0
}

/// A call on the next `k` samples of the stream leaves it timely.
proof fn lemma_stays_timely(
    s: ResampleContext,
    total: int,
    done: nat,
    r: ResampleContext,
    k: int,
    room: int,
)
    requires
        s.calm(),
        r == s.run(done),
        r.calm(),
        0 <= s.spent(done),
        0 <= k,
        s.spent(done) + k <= total <= i32::MAX,
        0 <= room,
        done + room <= i32::MAX,
        timely(s, total, done as int),
        r.room(k) >= i32::MIN,
    ensures
        timely(s, total, done + r.produced(room, k)),
        s.spent(done) + k == total ==> exhausted(
            s,
            total,
            done + r.produced(room, k),
            room - r.produced(room, k),
        ),
{
    let cd = s.compensation_distance as nat;
    let m = r.produced(room, k);
    if cd == 0 || done < cd {
        s.lemma_left(0, done);
        r.lemma_short(room, k);
        if s.plain(total) {
            lemma_time(s, total, done, r, k, room);
        }
    } else {
        s.lemma_call(cd);
        let t = s.run(cd);
        let rest = total - s.spent(cd);
        let e = (done - cd) as nat;
        s.lemma_run_adds(cd, e);
        t.lemma_run_calm(e);
        assert(cd + e == done);
        if t.plain(rest) {
            lemma_time(t, rest, e, r, k, room);
        }
    }
}

/// Makes output from the buffer.
#[verifier::rlimit(40)]
fn from_buffer(
    r: &mut ResampleContext,
    buf: &AudioData,
    index: &mut usize,
    count: &mut usize,
    dst: &mut AudioData,
    done: &mut usize,
    room: &mut usize,
    Ghost(s): Ghost<ResampleContext>,
    Ghost(exact): Ghost<bool>,
    Ghost(x): Ghost<Planes>,
    Ghost(total): Ghost<int>,
    Ghost(before): Ghost<Planes>,
) -> (res: Result<(), Error>)
    requires
        s.calm(),
        old(r).calm(),
        old(r).alike(s),
        exact == s.faithful(*old(done) + *old(room)),
        buf.wf(),
        old(dst).wf(),
        alike(*old(dst), *buf),
        buf.bps == old(r).felem_size,
        buf.ch_count > 0,
        x.len() == buf.ch_count,
        before.len() == buf.ch_count,
        *old(index) + *old(count) <= buf.count,
        *old(done) + *old(room) <= old(dst).count,
        *old(done) + *old(room) <= i32::MAX,
        *old(count) <= i32::MAX,
        0 <= total <= i32::MAX,
        ({
            &&& stands(
                s,
                exact,
                x,
                total,
                before,
                *old(done) as nat,
                *old(r),
                audio::planes_window(buf.chans(), *old(index) as int, *old(count) as int),
                *old(count) as int,
                old(dst).chans(),
            )
            &&& timely(s, total, *old(done) as int)
        }),
    ensures
        final(r).calm(),
        final(r).alike(s),
        final(dst).wf(),
        final(dst).same_shape(*old(dst)),
        final(dst).count == old(dst).count,
        *final(index) + *final(count) == *old(index) + *old(count),
        *final(count) <= *old(count),
        *final(done) + *final(room) == *old(done) + *old(room),
        *final(room) <= *old(room),
        ({
            let h = old(r).snag(
                *old(room) as int,
                *old(count) as int,
                *old(count) as int,
                buf.count - *old(index),
            );
            &&& res.is_ok() == (h is None)
            &&& res matches Err(e) ==> {
                &&& halt_error(h->0, e)
                &&& *final(index) == *old(index)
                &&& *final(count) == *old(count)
                &&& h->0 is Short ==> *final(r) == *old(r)
            }
        }),
        res is Ok ==> {
            let m = old(r).produced(*old(room) as int, *old(count) as int);
            &&& *final(done) == *old(done) + m
            &&& *final(r) == old(r).run(m as nat)
            &&& *final(count) == *old(count) - old(r).spent(m as nat)
            &&& final(dst).chans() == audio::planes_splice(
                old(dst).chans(),
                *old(done) as int,
                raw_outputs(*old(r), audio::planes_from(buf.chans(), *old(index) as int), m as nat),
                m,
            )
            &&& stands(
                s,
                exact,
                x,
                total,
                before,
                *final(done) as nat,
                *final(r),
                audio::planes_window(buf.chans(), *final(index) as int, *final(count) as int),
                *final(count) as int,
                final(dst).chans(),
            )
            &&& timely(s, total, *final(done) as int)
            &&& s.spent(*final(done) as nat) + *final(count) == s.spent(*old(done) as nat)
                + *old(count)
            &&& s.spent(*old(done) as nat) + *old(count) == total ==> exhausted(
                s,
                total,
                *final(done) as int,
                *final(room) as int,
            )
        },
{
    let ghost rr = *r;
    let ghost now = dst.chans();
    let ghost w = audio::planes_window(buf.chans(), *index as int, *count as int);
    let ghost cnt0 = *count as int;
    let ghost d0 = *done as nat;
    let ghost rm0 = *room as int;
    proof {
        reveal(stands);
        if exact {
            rr.lemma_less_faithful(rm0, d0 + rm0);
        }
    }
    let (made, used) = match pull(r, dst, *done, *room, buf, *index, *count, *count) {
        Ok(p) => p,
        Err(e) => {
            return Err(e);
        },
    };
    proof {
        if exact {
            rr.lemma_less_faithful(made as int, rm0);
        }
        lemma_pulled(
            s,
            exact,
            x,
            total,
            before,
            d0,
            rr,
            w,
            cnt0,
            now,
            cnt0,
            made as nat,
            rm0,
            dst.chans(),
        );
        lemma_stays_timely(s, total, d0, rr, cnt0, rm0);
    }
    *room = *room - made;
    *done = *done + made;
    *count = *count - used;
    *index = *index + used;
    proof {
        reveal(even_planes);
        let w2 = audio::planes_window(buf.chans(), *index as int, *count as int);
        let v = audio::planes_window(x, s.spent(*done as nat), *count as int);
        assert forall|c: int| 0 <= c < x.len() implies w2[c] == #[trigger] v[c] by {
            assert(w[c] == x[c].subrange(s.spent(d0), s.spent(d0) + cnt0));
            assert(w2[c] =~= w[c].subrange(used as int, cnt0));
            assert(w2[c] =~= v[c]);
        }
        assert(w2 =~= v);
        reveal(stands);
    }
    Ok(())
}

/// Makes output from `direct` of `left` new samples; the buffer is empty. Tells how
/// many are used up.
#[verifier::rlimit(40)]
fn from_source(
    r: &mut ResampleContext,
    src: &AudioData,
    off: usize,
    direct: usize,
    left: usize,
    dst: &mut AudioData,
    done: &mut usize,
    room: &mut usize,
    Ghost(s): Ghost<ResampleContext>,
    Ghost(exact): Ghost<bool>,
    Ghost(x): Ghost<Planes>,
    Ghost(total): Ghost<int>,
    Ghost(before): Ghost<Planes>,
) -> (res: Result<usize, Error>)
    requires
        s.calm(),
        old(r).calm(),
        old(r).alike(s),
        exact == s.faithful(*old(done) + *old(room)),
        src.wf(),
        old(dst).wf(),
        alike(*old(dst), *src),
        src.bps == old(r).felem_size,
        src.ch_count > 0,
        x.len() == src.ch_count,
        before.len() == src.ch_count,
        off + left <= src.count,
        direct <= left <= i32::MAX,
        *old(done) + *old(room) <= old(dst).count,
        *old(done) + *old(room) <= i32::MAX,
        0 <= total <= i32::MAX,
        ({
            &&& stands(
                s,
                exact,
                x,
                total,
                before,
                *old(done) as nat,
                *old(r),
                audio::planes_window(x, s.spent(*old(done) as nat), 0),
                0,
                old(dst).chans(),
            )
            &&& timely(s, total, *old(done) as int)
            &&& s.spent(*old(done) as nat) + left <= total
            &&& audio::planes_window(src.chans(), off as int, direct as int)
                == audio::planes_window(x, s.spent(*old(done) as nat), direct as int)
        }),
    ensures
        final(r).calm(),
        final(r).alike(s),
        final(dst).wf(),
        final(dst).same_shape(*old(dst)),
        final(dst).count == old(dst).count,
        *final(done) + *final(room) == *old(done) + *old(room),
        *final(room) <= *old(room),
        ({
            let h = old(r).snag(
                *old(room) as int,
                direct as int,
                left as int,
                src.count - off,
            );
            &&& res.is_ok() == (h is None)
            &&& res matches Err(e) ==> {
                &&& halt_error(h->0, e)
                &&& h->0 is Short ==> *final(r) == *old(r)
            }
        }),
        res matches Ok(used) ==> used <= left,
        res is Ok && direct == 0 ==> *final(done) == *old(done),
        res matches Ok(used) ==> {
            let m = old(r).produced(*old(room) as int, direct as int);
            &&& *final(done) == *old(done) + m
            &&& *final(r) == old(r).run(m as nat)
            &&& used == old(r).spent(m as nat)
            &&& final(dst).chans() == audio::planes_splice(
                old(dst).chans(),
                *old(done) as int,
                raw_outputs(*old(r), audio::planes_from(src.chans(), off as int), m as nat),
                m,
            )
        },
        res matches Ok(used) ==> {
            &&& stands(
                s,
                exact,
                x,
                total,
                before,
                *final(done) as nat,
                *final(r),
                audio::planes_window(x, s.spent(*final(done) as nat), 0),
                0,
                final(dst).chans(),
            )
            &&& timely(s, total, *final(done) as int)
            &&& s.spent(*final(done) as nat) == s.spent(*old(done) as nat) + used
            &&& s.spent(*old(done) as nat) + direct == total ==> exhausted(
                s,
                total,
                *final(done) as int,
                *final(room) as int,
            )
        },
{
    let ghost rr = *r;
    let ghost now = dst.chans();
    let ghost d0 = *done as nat;
    let ghost rm0 = *room as int;
    proof {
        reveal(stands);
        if exact {
            rr.lemma_less_faithful(rm0, d0 + rm0);
        }
    }
    let (made, used) = match pull(r, dst, *done, *room, src, off, direct, left) {
        Ok(p) => p,
        Err(e) => {
            return Err(e);
        },
    };
    proof {
        if exact {
            rr.lemma_less_faithful(made as int, rm0);
        }
        lemma_pulled(
            s,
            exact,
            x,
            total,
            before,
            d0,
            rr,
            audio::planes_window(x, s.spent(d0), 0),
            0,
            now,
            direct as int,
            made as nat,
            rm0,
            dst.chans(),
        );
        lemma_stays_timely(s, total, d0, rr, direct as int, rm0);
    }
    *room = *room - made;
    *done = *done + made;
    proof {
        reveal(stands);
    }
    Ok(used)
}

/// Nothing of a buffer is nothing of a stream.
proof fn lemma_empty_windows(buf: AudioData, x: Planes, total: int, i: int, j: int)
    requires
        even_planes(x, buf.ch_count as int, total),
        0 <= i <= buf.count,
        0 <= j <= total,
    ensures
        audio::planes_window(buf.chans(), i, 0) == audio::planes_window(x, j, 0),
{
    reveal(even_planes);
    let a = audio::planes_window(buf.chans(), i, 0);
    let b = audio::planes_window(x, j, 0);
    assert forall|c: int| 0 <= c < x.len() implies a[c] == #[trigger] b[c] by {
        assert(a[c] =~= b[c]);
    }
    assert(a =~= b);
}

/// What a call of the stage works on: the resampler at its start, the stream that
/// buffered and new samples make, and the shapes of the buffers.
pub struct Course {
    pub s: ResampleContext,
    /// The outputs are where the clock says.
    pub exact: bool,
    pub x: Planes,
    pub total: int,
    /// Where the new samples begin in the stream.
    pub base: int,
    pub src: AudioData,
    pub n: int,
    pub buf: AudioData,
    pub dst: AudioData,
    pub out: int,
    /// The buffer never reaches beyond this.
    pub lim: int,
    /// Samples that the buffer may hold.
    pub most: int,
}

impl Course {
    /// Samples in memory behind the new ones.
    pub open spec fn spare(self) -> int {
        self.src.count - self.n
    }

    /// The stream and those samples.
    pub open spec fn memory(self) -> Planes {
        followed(self.x, self.src.chans(), self.n, self.spare())
    }

    pub open spec fn wf(self) -> bool {
        &&& self.s.calm()
        &&& self.src.wf()
        &&& alike(self.buf, self.src)
        &&& alike(self.dst, self.src)
        &&& self.src.ch_count > 0
        &&& self.s.felem_size == self.src.bps
        &&& 0 <= self.n <= self.src.count
        &&& self.total == self.base + self.n <= i32::MAX
        &&& 0 <= self.base
        &&& self.x.len() == self.src.ch_count
        &&& even_planes(self.x, self.src.ch_count as int, self.total)
        &&& self.exact == self.s.faithful(self.out)
        &&& self.out <= self.dst.count
        &&& self.out <= i32::MAX
        &&& self.lim + 4 <= usize::MAX
        &&& self.most == buffer_most(self.buf)
        &&& forall|off: int, k: int|
            0 <= off && 0 <= k && off + k <= self.n ==> #[trigger] audio::planes_window(
                self.src.chans(),
                off,
                k,
            ) == audio::planes_window(self.x, self.base + off, k)
    }
}

/// Samples per channel that a buffer of this shape may hold.
pub open spec fn buffer_most(a: AudioData) -> int {
    audio::MAX_BUFFER as int / a.bps as int / a.ch_count as int
}

/// A call of the stage in numbers. It runs in passes: output from the buffer, output
/// from new samples if the buffer is empty, and new samples into the buffer.
pub struct Pass {
    pub r: ResampleContext,
    /// Samples in the buffer.
    pub count: int,
    /// New ones among them.
    pub border: int,
    /// New samples that are not in the buffer.
    pub left: int,
    pub room: int,
    pub done: int,
    /// New samples that are kept back.
    pub padless: int,
    /// The buffer waits for input.
    pub blocked: bool,
}

/// A call with `count` samples in the buffer, `n` new ones and room for `m`
/// outputs, at its start.
#[verifier::opaque]
pub open spec fn opening(r: ResampleContext, count: int, n: int, m: int, blocked: bool) -> Pass {
    let b = if r.index < 0 && count < r.filter_length + 1 {
        r.filter_length + 1 - count
    } else {
        0
    };
    Pass {
        r: r.begun(),
        count: r.stream_len(count) + b,
        border: b,
        left: n - b,
        room: m,
        done: 0,
        padless: 7,
        blocked: blocked && b == 0,
    }
}

impl Pass {
    /// The buffer is looked at.
    pub open spec fn opens(self) -> bool {
        !self.blocked && self.count > 0
    }

    /// It is all that there is.
    pub open spec fn ends(self) -> bool {
        self.opens() && self.left == 0
    }

    /// After output from the buffer.
    pub open spec fn drawn(self) -> Pass {
        let m = self.r.produced(self.room, self.count);
        Pass {
            r: self.r.run(m as nat),
            count: self.count - self.r.spent(m as nat),
            room: self.room - m,
            done: self.done + m,
            ..self
        }
    }

    /// New samples leave the buffer again once it holds no others.
    pub open spec fn returned(self) -> Pass {
        if self.count <= self.border {
            Pass { count: 0, border: 0, left: self.left + self.count, ..self }
        } else {
            self
        }
    }

    /// New samples that output is made from.
    pub open spec fn direct(self) -> int {
        if self.left > self.padless {
            self.left - self.padless
        } else {
            0
        }
    }

    /// After output from new samples.
    pub open spec fn poured(self, flushed: bool) -> Pass {
        let m = self.r.produced(self.room, self.direct());
        if (flushed || self.left > self.padless) && self.count == 0 {
            Pass {
                r: self.r.run(m as nat),
                left: self.left - self.r.spent(m as nat),
                room: self.room - m,
                done: self.done + m,
                ..self
            }
        } else {
            self
        }
    }

    /// After all output of a pass that does not end early.
    pub open spec fn through(self, flushed: bool) -> Pass {
        (if self.opens() {
            self.drawn().returned()
        } else {
            self
        }).poured(flushed)
    }

    /// New samples that the buffer takes: only a few as long as there is room.
    pub open spec fn intake(self) -> int {
        if self.count > 0 && self.count + 2 < self.left && self.room > 0 {
            self.count + 2
        } else {
            self.left
        }
    }

    /// Another pass is due.
    pub open spec fn again(self) -> bool {
        self.left > 0 && (self.count > 0 || self.intake() < self.left || self.padless != 0)
    }

    /// After new samples have gone into the buffer.
    pub open spec fn stored(self) -> Pass {
        let k = self.intake();
        if self.left == 0 {
            self
        } else {
            Pass {
                count: self.count + k,
                border: self.border + k,
                left: self.left - k,
                blocked: false,
                padless: if self.count > 0 || k < self.left {
                    self.padless
                } else {
                    0
                },
                ..self
            }
        }
    }

    /// Outputs of the whole call.
    #[verifier::opaque]
    pub open spec fn made(self, flushed: bool) -> int
        decreases self.left,
    {
        if self.ends() {
            self.drawn().done
        } else {
            let p = self.through(flushed);
            if p.again() && 0 <= p.stored().left < self.left {
                p.stored().made(flushed)
            } else {
                p.done
            }
        }
    }
}

/// A pass, and where the samples are.
pub struct Trip {
    pub p: Pass,
    /// Where the samples begin in the buffer.
    pub index: int,
    /// Samples that the buffer has memory for.
    pub cap: int,
    /// Samples that it may ever have memory for.
    pub most: int,
    /// Samples in memory behind the new ones.
    pub spare: int,
    /// Length of the stream.
    pub total: int,
    /// The sample that each output repeats if the filter is the identity, of the
    /// stream and what is in memory behind the new samples; negative for one behind
    /// the samples in the buffer.
    pub at: Seq<int>,
}

/// The samples that the first `n` outputs of a call repeat. The first of `there`
/// samples is at `place` in the stream.
pub open spec fn positions(r: ResampleContext, n: nat, place: int, there: int) -> Seq<int> {
    Seq::new(
        n,
        |j: int|
            if 0 <= r.pick(j) < there {
                place + r.pick(j)
            } else {
                -1
            },
    )
}

/// A call with `count` samples at `index` of the buffer, `n` new ones and room for
/// `m` outputs, at its start. The buffer has memory for `cap` samples and may have
/// for `most`; `spare` samples are in memory behind the new ones.
#[verifier::opaque]
pub open spec fn setting_out(
    r: ResampleContext,
    cap: int,
    most: int,
    index: int,
    count: int,
    n: int,
    spare: int,
    m: int,
    blocked: bool,
) -> Trip {
    Trip {
        p: opening(r, count, n, m, blocked),
        index: if r.index < 0 {
            r.filter_length - r.lead()
        } else {
            index
        },
        cap: start_cap(r, cap),
        most,
        spare,
        total: r.stream_len(count + n),
        at: Seq::empty(),
    }
}

impl Trip {
    /// Where the samples begin in the stream.
    pub open spec fn place(self) -> int {
        self.total - self.p.count - self.p.left
    }

    /// What stops output from the buffer.
    pub open spec fn draw_snag(self) -> Option<Halt> {
        self.p.r.snag(self.p.room, self.p.count, self.p.count, self.cap - self.index)
    }

    /// After output from the buffer.
    pub open spec fn drawn(self) -> Trip {
        let m = self.p.r.produced(self.p.room, self.p.count) as nat;
        Trip {
            p: self.p.drawn(),
            index: self.index + self.p.r.spent(m),
            at: self.at + positions(self.p.r, m, self.place(), self.p.count),
            ..self
        }
    }

    pub open spec fn returned(self) -> Trip {
        Trip {
            p: self.p.returned(),
            index: if self.p.count <= self.p.border {
                0
            } else {
                self.index
            },
            ..self
        }
    }

    /// Before output from new samples.
    pub open spec fn fronted(self) -> Trip {
        if self.p.opens() {
            self.drawn().returned()
        } else {
            self
        }
    }

    /// There is to be output from new samples.
    pub open spec fn pours(self, flushed: bool) -> bool {
        (flushed || self.p.left > self.p.padless) && self.p.count == 0
    }

    /// What stops it.
    pub open spec fn pour_snag(self) -> Option<Halt> {
        self.p.r.snag(self.p.room, self.p.direct(), self.p.left, self.p.left + self.spare)
    }

    /// After output from new samples.
    pub open spec fn poured(self, flushed: bool) -> Trip {
        let m = self.p.r.produced(self.p.room, self.p.direct()) as nat;
        if self.pours(flushed) {
            Trip {
                p: self.p.poured(flushed),
                index: 0,
                at: self.at + positions(self.p.r, m, self.place(), self.p.left + self.spare),
                ..self
            }
        } else {
            self
        }
    }

    /// What stops the output of a pass, and where.
    pub open spec fn halted(self, flushed: bool) -> Option<(Trip, Halt)> {
        if self.p.opens() && self.draw_snag() is Some {
            Some((self, self.draw_snag()->0))
        } else if self.p.ends() {
            None
        } else if self.fronted().pours(flushed) && self.fronted().pour_snag() is Some {
            Some((Trip { index: 0, ..self.fronted() }, self.fronted().pour_snag()->0))
        } else {
            None
        }
    }

    /// After all output of a pass that does not end early.
    pub open spec fn through(self, flushed: bool) -> Trip {
        self.fronted().poured(flushed)
    }

    /// Where the buffer would have to end.
    pub open spec fn size(self) -> int {
        self.index + self.p.count + self.p.left
    }

    /// The samples in the buffer move to its front.
    pub open spec fn shifts(self) -> bool {
        self.size() > self.cap && self.p.count + self.p.left <= self.index
    }

    /// The buffer would have to become too large.
    pub open spec fn overflows(self) -> bool {
        !self.shifts() && self.size() > self.most
    }

    /// After new samples have gone into the buffer.
    pub open spec fn stored(self) -> Trip {
        Trip {
            p: self.p.stored(),
            index: if self.shifts() {
                0
            } else {
                self.index
            },
            cap: if !self.shifts() && self.size() > self.cap {
                2 * self.size()
            } else {
                self.cap
            },
            ..self
        }
    }

    /// Where the call ends, and what stops it, if it does not come to its end.
    #[verifier::opaque]
    pub open spec fn ending(self, flushed: bool) -> (Trip, Option<Halt>)
        decreases self.p.left,
    {
        match self.halted(flushed) {
            Some((t, h)) => (t, Some(h)),
            None => if self.p.ends() {
                (self.drawn(), None)
            } else {
                let q = self.through(flushed);
                if q.overflows() {
                    (q, Some(Halt::Full))
                } else if q.p.again() && 0 <= q.stored().p.left < self.p.left {
                    q.stored().ending(flushed)
                } else {
                    (q.stored(), None)
                }
            },
        }
    }

    /// The call stands here.
    pub open spec fn is_at(self, r: ResampleContext, buf: AudioData, index: int, count: int) -> bool {
        &&& self.p.r == r
        &&& self.cap == buf.count
        &&& self.index == index
        &&& self.p.count == count
    }

    spec fn sane(self) -> bool {
        &&& self.p.r.calm()
        &&& 0 <= self.p.count
        &&& 0 <= self.p.left
        &&& 0 <= self.p.border
        &&& self.p.count + self.p.left <= i32::MAX
        &&& 0 <= self.p.room <= i32::MAX
        &&& 0 <= self.p.padless
        &&& 0 <= self.index
        &&& self.index + self.p.count <= self.cap
        &&& 0 <= self.spare
    }

    spec fn easy(self) -> bool {
        &&& self.sane()
        &&& self.p.r.gentle()
        &&& self.p.r.faithful(self.p.room)
        &&& self.size() <= self.most
    }

    proof fn lemma_easy_front(self)
        requires
            self.easy(),
        ensures
            self.p.opens() ==> self.draw_snag() is None,
            self.fronted().easy(),
    {
        let r = self.p.r;
        let m = r.produced(self.p.room, self.p.count);
        r.lemma_short(self.p.room, self.p.count);
        if self.p.opens() {
            r.lemma_no_snag(
                self.p.room,
                self.p.count,
                self.p.count,
                self.cap - self.index,
            );
            r.lemma_run_gentle(m as nat);
            r.lemma_run_calm(m as nat);
            r.lemma_less_faithful(self.p.room - m, self.p.room);
            assert(self.drawn().easy());
        }
    }

    proof fn lemma_easy_pour(self, flushed: bool)
        requires
            self.easy(),
        ensures
            self.pours(flushed) ==> self.pour_snag() is None,
            self.poured(flushed).easy(),
            self.poured(flushed).p.left <= self.p.left,
    {
        if self.pours(flushed) {
            let r = self.p.r;
            let k = r.produced(self.p.room, self.p.direct());
            r.lemma_short(self.p.room, self.p.direct());
            r.lemma_no_snag(
                self.p.room,
                self.p.direct(),
                self.p.left,
                self.p.left + self.spare,
            );
            r.lemma_run_gentle(k as nat);
            r.lemma_run_calm(k as nat);
            r.lemma_less_faithful(self.p.room - k, self.p.room);
        }
    }

    /// Nothing stops a gentle resampler that keeps its place, if the buffer may hold
    /// all samples.
    proof fn lemma_smooth(self, flushed: bool)
        requires
            self.easy(),
        ensures
            self.ending(flushed).1 is None,
        decreases self.p.left,
    {
        reveal_with_fuel(Trip::ending, 1);
        self.lemma_easy_front();
        self.fronted().lemma_easy_pour(flushed);
        let q = self.through(flushed);
        if !self.p.ends() && q.p.again() && 0 <= q.stored().p.left < self.p.left {
            assert(q.stored().easy());
            q.stored().lemma_smooth(flushed);
        }
    }
}

/// The stream `x` and what is in memory behind the first `n` samples of `src`.
pub open spec fn followed(x: Planes, src: Planes, n: int, spare: int) -> Planes {
    audio::planes_join(x, audio::planes_window(src, n, spare))
}

/// Outputs repeat samples of `x`, and what is behind them is as before.
#[verifier::opaque]
pub open spec fn repeats(x: Planes, total: int, before: Planes, at: Seq<int>, now: Planes) -> bool {
    &&& now.len() == before.len()
    &&& forall|c: int| 0 <= c < now.len() ==> (#[trigger] now[c]).len() == before[c].len()
    &&& forall|j: int| 0 <= j < at.len() ==> #[trigger] at[j] < total
    &&& forall|c: int, i: int|
        0 <= c < now.len() && 0 <= i < now[c].len() ==> #[trigger] now[c][i] == (if i >= at.len() {
            before[c][i]
        } else if at[i] >= 0 {
            x[c][at[i]]
        } else {
            now[c][i]
        })
}

proof fn lemma_repeats_start(x: Planes, total: int, before: Planes)
    ensures
        repeats(x, total, before, Seq::empty(), before),
{
    reveal(repeats);
}

/// More outputs that repeat samples.
proof fn lemma_repeats(
    x: Planes,
    total: int,
    before: Planes,
    at: Seq<int>,
    now: Planes,
    r: ResampleContext,
    v: Planes,
    place: int,
    there: int,
    m: nat,
    then: Planes,
)
    requires
        repeats(x, total, before, at, now),
        r.is_trivial(),
        v.len() == now.len(),
        0 <= place,
        0 <= there,
        place + there <= total,
        forall|c: int, i: int|
            0 <= c < v.len() && 0 <= i < there ==> #[trigger] v[c][i] == x[c][place + i],
        then == audio::planes_splice(now, at.len() as int, raw_outputs(r, v, m), m as int),
    ensures
        repeats(x, total, before, at + positions(r, m, place, there), then),
{
    reveal(repeats);
    let more = at + positions(r, m, place, there);
    assert forall|j: int| 0 <= j < more.len() implies #[trigger] more[j] < total by {
        if j < at.len() {
            assert(more[j] == at[j]);
        }
    }
    assert forall|c: int, i: int|
        0 <= c < then.len() && 0 <= i < then[c].len() implies #[trigger] then[c][i] == (if i
        >= more.len() {
        before[c][i]
    } else if more[i] >= 0 {
        x[c][more[i]]
    } else {
        then[c][i]
    }) by {
        assert(now[c].len() == before[c].len());
        if at.len() <= i < more.len() {
            let j = i - at.len();
            assert(then[c][i] == r.out_sample(v[c], j));
            if more[i] >= 0 {
                assert(v[c][r.pick(j)] == x[c][place + r.pick(j)]);
            }
        } else {
            assert(then[c][i] == now[c][i]);
        }
    }
}

/// The outputs `y` are the samples at `at` of `x`, as far as they are known.
pub open spec fn taken_from(y: Planes, x: Planes, at: Seq<int>) -> bool {
    &&& y.len() == x.len()
    &&& forall|c: int| 0 <= c < y.len() ==> (#[trigger] y[c]).len() == at.len()
    &&& forall|c: int, j: int|
        0 <= c < y.len() && 0 <= j < at.len() && at[j] >= 0 ==> #[trigger] y[c][j] == x[c][at[j]]
}

pub(crate) proof fn lemma_taken_from(x: Planes, total: int, before: Planes, at: Seq<int>, now: Planes)
    requires
        repeats(x, total, before, at, now),
        x.len() == now.len(),
        forall|c: int| 0 <= c < now.len() ==> at.len() <= (#[trigger] now[c]).len(),
    ensures
        taken_from(audio::planes_first(now, at.len() as int), x, at),
{
    reveal(repeats);
    let y = audio::planes_first(now, at.len() as int);
    assert forall|c: int, j: int|
        0 <= c < y.len() && 0 <= j < at.len() && at[j] >= 0 implies #[trigger] y[c][j]
        == x[c][at[j]] by {
        assert(y[c][j] == now[c][j]);
    }
}

/// Where a call of the stage stands.
struct Feed {
    /// New samples in the buffer.
    border: usize,
    /// New samples that have been taken.
    off: usize,
    /// New samples that have not.
    left: usize,
    /// Room for output.
    room: usize,
    /// Outputs.
    done: usize,
    /// New samples that are kept back in the first pass.
    padless: usize,
    /// The samples that the outputs repeat.
    at: Ghost<Seq<int>>,
}

impl Feed {
    spec fn pass(self, r: ResampleContext, count: int, blocked: bool) -> Pass {
        Pass {
            r,
            count,
            border: self.border as int,
            left: self.left as int,
            room: self.room as int,
            done: self.done as int,
            padless: self.padless as int,
            blocked,
        }
    }

    spec fn trip(
        self,
        g: Course,
        r: ResampleContext,
        buf: AudioData,
        index: int,
        count: int,
        blocked: bool,
    ) -> Trip {
        Trip {
            p: self.pass(r, count, blocked),
            index,
            cap: buf.count as int,
            most: g.most,
            spare: g.spare(),
            total: g.total,
            at: self.at@,
        }
    }

    spec fn sound(
        self,
        g: Course,
        r: ResampleContext,
        buf: AudioData,
        index: int,
        count: int,
        dst: AudioData,
    ) -> bool {
        &&& r.calm()
        &&& r.alike(g.s)
        &&& buf.wf()
        &&& buf.same_shape(g.buf)
        &&& dst.wf()
        &&& dst.same_shape(g.dst)
        &&& dst.count == g.dst.count
        &&& self.off + self.left == g.n
        &&& self.border <= self.off
        &&& self.done + self.room == g.out
        &&& 0 <= index
        &&& 0 <= count
        &&& index + count <= buf.count
        &&& index + count + self.left <= g.lim
        &&& count + self.left <= g.total
        &&& self.padless == 7 || self.padless == 0
        &&& stands(
            g.s,
            g.exact,
            g.x,
            g.total,
            g.dst.chans(),
            self.done as nat,
            r,
            audio::planes_window(buf.chans(), index, count),
            count,
            dst.chans(),
        )
        &&& timely(g.s, g.total, self.done as int)
        &&& g.s.spent(self.done as nat) + count + self.left == g.total
        &&& self.at@.len() == self.done
        &&& g.s.is_trivial() ==> repeats(
            g.memory(),
            g.total + g.spare(),
            g.dst.chans(),
            self.at@,
            dst.chans(),
        )
    }

    spec fn at_end(self, g: Course) -> bool {
        exhausted(g.s, g.total, self.done as int, self.room as int)
    }
}

/// What a pass has come to.
enum Progress {
    /// All input is used.
    Finished,
    /// There may be more input; `whole` tells that all of it was looked at.
    Going { whole: bool },
}

/// Makes output from the buffer. Tells whether that was all.
#[verifier::rlimit(60)]
fn drain(
    r: &mut ResampleContext,
    buf: &AudioData,
    index: &mut usize,
    count: &mut usize,
    dst: &mut AudioData,
    f: &mut Feed,
    Ghost(g): Ghost<Course>,
) -> (res: Result<bool, Error>)
    requires
        g.wf(),
        old(f).sound(g, *old(r), *buf, *old(index) as int, *old(count) as int, *old(dst)),
    ensures
        ({
            let t = old(f).trip(g, *old(r), *buf, *old(index) as int, *old(count) as int, false);
            &&& res.is_ok() == (t.draw_snag() is None)
            &&& res matches Err(e) ==> {
                &&& halt_error(t.draw_snag()->0, e)
                &&& *final(index) == *old(index)
                &&& *final(count) == *old(count)
                &&& t.draw_snag()->0 is Short ==> *final(r) == *old(r)
            }
            &&& res matches Ok(end) ==> final(f).trip(
                g,
                *final(r),
                *buf,
                *final(index) as int,
                *final(count) as int,
                false,
            ) == (if end {
                t.drawn()
            } else {
                t.drawn().returned()
            })
        }),
        final(dst).wf(),
        final(dst).same_shape(*old(dst)),
        final(dst).count == old(dst).count,
        final(r).wf(),
        final(r).index >= 0,
        final(r).format == old(r).format,
        *final(index) + *final(count) <= *old(index) + *old(count),
        res matches Ok(end) ==> {
            &&& final(f).sound(g, *final(r), *buf, *final(index) as int, *final(count) as int, *final(dst))
            &&& final(f).padless == old(f).padless
            &&& end == (old(f).left == 0)
            &&& end ==> final(f).left == 0 && final(f).at_end(g)
            &&& !end ==> final(f).left > 0
            &&& *final(count) > 0 ==> final(f).left == old(f).left
        },
{
    let ghost a = f.trip(g, *r, *buf, *index as int, *count as int, false);
    let ghost now = dst.chans();
    let ghost w = audio::planes_window(buf.chans(), *index as int, *count as int);
    let ghost at0 = f.at@;
    let mut done: usize = f.done;
    let mut room: usize = f.room;
    match from_buffer(
        r,
        buf,
        index,
        count,
        dst,
        &mut done,
        &mut room,
        Ghost(g.s),
        Ghost(g.exact),
        Ghost(g.x),
        Ghost(g.total),
        Ghost(g.dst.chans()),
    ) {
        Ok(_) => {},
        Err(e) => {
            return Err(e);
        },
    }
    f.done = done;
    f.room = room;
    proof {
        let m = a.p.r.produced(a.p.room, a.p.count) as nat;
        f.at@ = at0 + positions(a.p.r, m, a.place(), a.p.count);
        if g.s.is_trivial() {
            reveal(stands);
            reveal(even_planes);
            let v = audio::planes_from(buf.chans(), a.index);
            let y = g.memory();
            assert forall|c: int, i: int|
                0 <= c < v.len() && 0 <= i < a.p.count implies #[trigger] v[c][i] == y[c][a.place()
                + i] by {
                assert(w[c][i] == audio::planes_window(g.x, a.place(), a.p.count)[c][i]);
                assert(g.x[c].len() == g.total);
                assert(y[c][a.place() + i] == g.x[c][a.place() + i]);
            }
            lemma_repeats(
                y,
                g.total + g.spare(),
                g.dst.chans(),
                at0,
                now,
                a.p.r,
                v,
                a.place(),
                a.p.count,
                m,
                dst.chans(),
            );
        }
    }
    assert(f.trip(g, *r, *buf, *index as int, *count as int, false) == a.drawn());
    if f.left == 0 {
        return Ok(true);
    }
    if *count <= f.border {
        proof {
            lemma_emptied(
                g,
                f.done as nat,
                *r,
                *buf,
                *index as int,
                *count as int,
                dst.chans(),
                0,
            );
        }
        f.off = f.off - *count;
        f.left = f.left + *count;
        *count = 0;
        *index = 0;
        f.border = 0;
    }
    Ok(false)
}

/// Makes output from new samples if the buffer is empty. Tells whether it looked at
/// all of them.
#[verifier::rlimit(60)]
fn pour(
    r: &mut ResampleContext,
    buf: &AudioData,
    index: &mut usize,
    count: &usize,
    flushed: bool,
    dst: &mut AudioData,
    src: &AudioData,
    f: &mut Feed,
    Ghost(g): Ghost<Course>,
    Ghost(blocked): Ghost<bool>,
) -> (res: Result<bool, Error>)
    requires
        g.wf(),
        g.src == *src,
        old(f).sound(g, *old(r), *buf, *old(index) as int, *count as int, *old(dst)),
    ensures
        ({
            let t = old(f).trip(g, *old(r), *buf, *old(index) as int, *count as int, blocked);
            &&& res.is_ok() == !(t.pours(flushed) && t.pour_snag() is Some)
            &&& res matches Err(e) ==> {
                &&& halt_error(t.pour_snag()->0, e)
                &&& *final(index) == 0
                &&& t.pour_snag()->0 is Short ==> *final(r) == *old(r)
            }
            &&& res is Ok ==> final(f).trip(
                g,
                *final(r),
                *buf,
                *final(index) as int,
                *count as int,
                blocked,
            ) == t.poured(flushed)
        }),
        final(dst).wf(),
        final(dst).same_shape(*old(dst)),
        final(dst).count == old(dst).count,
        final(r).wf(),
        final(r).index >= 0,
        final(r).format == old(r).format,
        *final(index) <= *old(index),
        res matches Ok(whole) ==> {
            &&& final(f).sound(g, *final(r), *buf, *final(index) as int, *count as int, *final(dst))
            &&& final(f).padless == old(f).padless
            &&& whole ==> final(f).at_end(g)
            &&& final(f).left <= old(f).left
            &&& *count > 0 ==> final(f).left == old(f).left
            &&& *count == 0 && final(f).padless == 0 && final(f).left > 0 ==> whole
            &&& old(f).left == 0 ==> final(f).done == old(f).done
        },
{
    let ghost mid = f.trip(g, *r, *buf, *index as int, *count as int, blocked);
    let ghost now = dst.chans();
    let ghost at0 = f.at@;
    let ghost off0 = f.off as int;
    let mut whole: bool = false;
    if (flushed || f.left > f.padless) && *count == 0 {
        let direct: usize = if f.left > f.padless {
            f.left - f.padless
        } else {
            0
        };
        whole = direct == f.left;
        proof {
            lemma_stands_facts(
                g.s,
                g.exact,
                g.x,
                g.total,
                g.dst.chans(),
                f.done as nat,
                *r,
                audio::planes_window(buf.chans(), *index as int, 0),
                0,
                dst.chans(),
            );
            lemma_empty_windows(*buf, g.x, g.total, *index as int, g.s.spent(f.done as nat));
            assert(audio::planes_window(src.chans(), f.off as int, direct as int)
                == audio::planes_window(g.x, g.base + f.off, direct as int));
        }
        *index = 0;
        let mut done: usize = f.done;
        let mut room: usize = f.room;
        let used: usize = match from_source(
            r,
            src,
            f.off,
            direct,
            f.left,
            dst,
            &mut done,
            &mut room,
            Ghost(g.s),
            Ghost(g.exact),
            Ghost(g.x),
            Ghost(g.total),
            Ghost(g.dst.chans()),
        ) {
            Ok(u) => u,
            Err(e) => {
                return Err(e);
            },
        };
        f.done = done;
        f.room = room;
        f.left = f.left - used;
        f.off = f.off + used;
        proof {
            lemma_stands_facts(
                g.s,
                g.exact,
                g.x,
                g.total,
                g.dst.chans(),
                f.done as nat,
                *r,
                audio::planes_window(g.x, g.s.spent(f.done as nat), 0),
                0,
                dst.chans(),
            );
            lemma_empty_windows(*buf, g.x, g.total, 0, g.s.spent(f.done as nat));
            let m = mid.p.r.produced(mid.p.room, mid.p.direct()) as nat;
            f.at@ = at0 + positions(mid.p.r, m, mid.place(), mid.p.left + g.spare());
            if g.s.is_trivial() {
                reveal(even_planes);
                let v = audio::planes_from(src.chans(), off0);
                let y = g.memory();
                assert forall|c: int, i: int|
                    0 <= c < v.len() && 0 <= i < mid.p.left + g.spare() implies #[trigger] v[c][i]
                    == y[c][mid.place() + i] by {
                    let a = audio::planes_window(src.chans(), off0, mid.p.left);
                    assert(a == audio::planes_window(g.x, g.base + off0, mid.p.left));
                    assert(g.x[c].len() == g.total);
                    if i < mid.p.left {
                        assert(a[c][i] == v[c][i]);
                    } else {
                        let b = audio::planes_window(src.chans(), g.n, g.spare());
                        assert(b[c][i - mid.p.left] == v[c][i]);
                    }
                }
                lemma_repeats(
                    y,
                    g.total + g.spare(),
                    g.dst.chans(),
                    at0,
                    now,
                    mid.p.r,
                    v,
                    mid.place(),
                    mid.p.left + g.spare(),
                    m,
                    dst.chans(),
                );
            }
        }
    }
    assert(f.trip(g, *r, *buf, *index as int, *count as int, blocked) == mid.poured(flushed));
    Ok(whole)
}

/// Makes output from the buffer and then, if that is empty, from new samples.
#[verifier::rlimit(60)]
fn make_output(
    r: &mut ResampleContext,
    buf: &AudioData,
    index: &mut usize,
    count: &mut usize,
    blocked: bool,
    flushed: bool,
    dst: &mut AudioData,
    src: &AudioData,
    f: &mut Feed,
    Ghost(g): Ghost<Course>,
) -> (res: Result<Progress, Error>)
    requires
        g.wf(),
        g.src == *src,
        old(f).sound(g, *old(r), *buf, *old(index) as int, *old(count) as int, *old(dst)),
    ensures
        ({
            let t = old(f).trip(g, *old(r), *buf, *old(index) as int, *old(count) as int, blocked);
            &&& res.is_ok() == (t.halted(flushed) is None)
            &&& res matches Err(e) ==> {
                let (q, h) = t.halted(flushed)->0;
                &&& halt_error(h, e)
                &&& h is Short ==> {
                    &&& q.is_at(*final(r), *buf, *final(index) as int, *final(count) as int)
                    &&& q.p.blocked == blocked
                    &&& stands_at(g, q, *buf)
                }
            }
            &&& res matches Ok(p) ==> if p is Finished {
                &&& t.p.ends()
                &&& final(f).trip(
                    g,
                    *final(r),
                    *buf,
                    *final(index) as int,
                    *final(count) as int,
                    blocked,
                ) == t.drawn()
            } else {
                &&& !t.p.ends()
                &&& final(f).trip(
                    g,
                    *final(r),
                    *buf,
                    *final(index) as int,
                    *final(count) as int,
                    blocked,
                ) == t.through(flushed)
            }
        }),
        final(dst).wf(),
        final(dst).same_shape(*old(dst)),
        final(dst).count == old(dst).count,
        final(r).wf(),
        final(r).index >= 0,
        final(r).format == old(r).format,
        *final(index) + *final(count) <= *old(index) + *old(count),
        res matches Ok(p) ==> {
            &&& final(f).sound(g, *final(r), *buf, *final(index) as int, *final(count) as int, *final(dst))
            &&& final(f).padless == old(f).padless
            &&& p is Finished ==> final(f).left == 0 && final(f).at_end(g)
            &&& p matches Progress::Going { whole } ==> {
                &&& whole ==> final(f).at_end(g)
                &&& final(f).left == 0 && *final(count) > 0 ==> blocked && old(f).left == 0
                &&& *final(count) == 0 && final(f).padless == 0 && final(f).left > 0 ==> whole
                &&& *final(count) > 0 ==> final(f).left <= old(f).left
                &&& final(f).left > 0 ==> old(f).left > 0
            }
            &&& blocked && old(f).left == 0 ==> final(f).done == old(f).done && p is Going
        },
{
    let ghost a = f.trip(g, *r, *buf, *index as int, *count as int, blocked);
    proof {
        lemma_stands_at(g, *f, *r, *buf, *index as int, *count as int, *dst, blocked);
    }
    if !blocked && *count > 0 {
        match drain(r, buf, index, count, dst, f, Ghost(g)) {
            Ok(true) => {
                return Ok(Progress::Finished);
            },
            Ok(false) => {},
            Err(e) => {
                return Err(e);
            },
        }
    }
    let ghost mid = f.trip(g, *r, *buf, *index as int, *count as int, blocked);
    proof {
        assert(mid == a.fronted());
        lemma_stands_at(g, *f, *r, *buf, *index as int, *count as int, *dst, blocked);
        if mid.p.count == 0 {
            lemma_empty_windows(*buf, g.x, g.total, 0, mid.place());
        }
    }
    match pour(r, buf, index, count, flushed, dst, src, f, Ghost(g), Ghost(blocked)) {
        Ok(whole) => Ok(Progress::Going { whole }),
        Err(e) => Err(e),
    }
}

/// The samples in the buffer are those of the stream.
spec fn stands_at(g: Course, q: Trip, buf: AudioData) -> bool {
    &&& 0 <= q.p.count
    &&& 0 <= q.place()
    &&& q.place() + q.p.count <= g.total
    &&& audio::planes_window(buf.chans(), q.index, q.p.count) == audio::planes_window(
        g.x,
        q.place(),
        q.p.count,
    )
}

proof fn lemma_stands_at(
    g: Course,
    f: Feed,
    r: ResampleContext,
    buf: AudioData,
    index: int,
    count: int,
    dst: AudioData,
    blocked: bool,
)
    requires
        f.sound(g, r, buf, index, count, dst),
    ensures
        stands_at(g, f.trip(g, r, buf, index, count, blocked), buf),
{
    reveal(stands);
}

/// The samples in the buffer are given back: the buffer is empty.
proof fn lemma_emptied(
    g: Course,
    done: nat,
    r: ResampleContext,
    buf: AudioData,
    index: int,
    count: int,
    now: Planes,
    to: int,
)
    requires
        g.wf(),
        buf.ch_count == g.src.ch_count,
        stands(
            g.s,
            g.exact,
            g.x,
            g.total,
            g.dst.chans(),
            done,
            r,
            audio::planes_window(buf.chans(), index, count),
            count,
            now,
        ),
        0 <= to <= buf.count,
        0 <= count,
    ensures
        stands(
            g.s,
            g.exact,
            g.x,
            g.total,
            g.dst.chans(),
            done,
            r,
            audio::planes_window(buf.chans(), to, 0),
            0,
            now,
        ),
        0 <= g.s.spent(done),
{
    lemma_stands_facts(
        g.s,
        g.exact,
        g.x,
        g.total,
        g.dst.chans(),
        done,
        r,
        audio::planes_window(buf.chans(), index, count),
        count,
        now,
    );
    lemma_empty_windows(buf, g.x, g.total, to, g.s.spent(done));
    lemma_stands_with(
        g.s,
        g.exact,
        g.x,
        g.total,
        g.dst.chans(),
        done,
        r,
        audio::planes_window(buf.chans(), index, count),
        count,
        now,
        audio::planes_window(buf.chans(), to, 0),
        0,
    );
}

/// Puts new samples into the buffer. Tells whether another pass is due.
#[verifier::rlimit(60)]
fn keep_input(
    r: &ResampleContext,
    buf: &mut AudioData,
    index: &mut usize,
    count: &mut usize,
    constraint: &mut bool,
    dst: &AudioData,
    src: &AudioData,
    f: &mut Feed,
    whole: bool,
    Ghost(g): Ghost<Course>,
    Ghost(idle): Ghost<bool>,
    Ghost(top): Ghost<int>,
) -> (res: Result<bool, Error>)
    requires
        g.wf(),
        g.src == *src,
        old(f).sound(g, *r, *old(buf), *old(index) as int, *old(count) as int, *dst),
        whole ==> old(f).at_end(g),
        old(f).left == 0 && *old(count) > 0 ==> idle,
        *old(count) == 0 && old(f).padless == 0 && old(f).left > 0 ==> whole,
        *old(count) > 0 ==> old(f).left <= top,
        old(f).left > 0 ==> top > 0,
    ensures
        final(buf).wf(),
        final(buf).same_shape(*old(buf)),
        *final(index) + *final(count) <= final(buf).count,
        ({
            let t = old(f).trip(
                g,
                *r,
                *old(buf),
                *old(index) as int,
                *old(count) as int,
                *old(constraint),
            );
            &&& res.is_ok() == !t.overflows()
            &&& res matches Err(e) ==> {
                &&& halt_error(Halt::Full, e)
                &&& !g.buf.may_hold(g.lim as nat)
                &&& *final(buf) == *old(buf)
                &&& *final(index) == *old(index)
                &&& *final(count) == *old(count)
                &&& *final(constraint) == *old(constraint)
            }
            &&& res matches Ok(more) ==> {
                &&& more == t.p.again()
                &&& final(f).trip(
                    g,
                    *r,
                    *final(buf),
                    *final(index) as int,
                    *final(count) as int,
                    *final(constraint),
                ) == t.stored()
            }
        }),
        res matches Ok(more) ==> {
            &&& final(f).sound(g, *r, *final(buf), *final(index) as int, *final(count) as int, *dst)
            &&& final(f).done == old(f).done
            &&& old(f).left == 0 ==> !more
            &&& more ==> final(f).left < top && !*final(constraint)
            &&& !more ==> final(f).left == 0 && (!idle ==> final(f).at_end(g))
        },
{
    let ghost w = audio::planes_window(buf.chans(), *index as int, *count as int);
    let ghost cnt0 = *count as int;
    let k: usize = match take_in(buf, index, count, src, f.off, f.left, f.room > 0) {
        Ok(k) => k,
        Err(e) => {
            proof {
                lemma_may_hold(g.buf, *index + *count + f.left, g.lim);
            }
            return Err(e);
        },
    };
    proof {
        assert(audio::planes_window(src.chans(), f.off as int, k as int)
            == audio::planes_window(g.x, g.base + f.off, k as int));
        lemma_taken(
            g.s,
            g.exact,
            g.x,
            g.total,
            g.dst.chans(),
            f.done as nat,
            *r,
            w,
            cnt0,
            dst.chans(),
            audio::planes_window(src.chans(), f.off as int, k as int),
            k as int,
        );
    }
    if f.left == 0 {
        proof {
            if !idle && !whole {
                lemma_used_up(g.s, g.total, f.done as nat, *r, f.room as int);
            }
        }
        return Ok(false);
    }
    f.left = f.left - k;
    f.border = f.border + k;
    f.off = f.off + k;
    *constraint = false;
    if *count != k || f.left > 0 {
        return Ok(true);
    }
    if f.padless != 0 {
        f.padless = 0;
        return Ok(true);
    }
    Ok(false)
}

/// Feeds `in_count0` samples of `src`, behind those in the buffer, to the
/// resampler and puts up to `out_count` outputs into `dst`. Samples that are not
/// used up yet stay in the buffer.
#[verifier::rlimit(100)]
pub(crate) fn resample_stage(
    r: &mut ResampleContext,
    buf: &mut AudioData,
    index: &mut usize,
    count: &mut usize,
    constraint: &mut bool,
    flushed: bool,
    dst: &mut AudioData,
    out_count: usize,
    src: &AudioData,
    in_count0: usize,
) -> (res: Result<usize, Error>)
    requires
        old(r).wf(),
        old(buf).wf(),
        src.wf(),
        old(dst).wf(),
        alike(*old(buf), *src),
        alike(*old(dst), *src),
        src.ch_count > 0,
        src.bps == old(r).felem_size,
        in_count0 <= src.count,
        out_count <= old(dst).count,
        out_count <= i32::MAX,
        *old(index) + *old(count) <= old(buf).count,
        old(r).index < 0 ==> *old(count) == 0 || *old(index) == old(r).filter_length,
        *old(count) + in_count0 + old(r).filter_length <= i32::MAX,
        *old(index) + *old(count) + in_count0 + 2 * old(r).filter_length + 4 <= usize::MAX,
        src.ch_count * (2 * (2 * old(r).filter_length + 1)) * src.bps <= usize::MAX,
    ensures
        final(buf).wf(),
        final(buf).same_shape(*old(buf)),
        *final(index) + *final(count) <= final(buf).count,
        final(dst).wf(),
        final(dst).same_shape(*old(dst)),
        final(dst).count == old(dst).count,
        final(r).wf(),
        final(r).format == old(r).format,
        final(r).index < 0 ==> *final(count) == 0 || *final(index) == final(r).filter_length,
        ({
            let fl = old(r).filter_length as int;
            let st = waiting(
                old(buf).chans(),
                *old(index) as int,
                *old(count) as int,
                src.chans(),
                in_count0 as int,
            );
            let s = old(r).begun();
            let exact = s.faithful(out_count as int);
            let x = old(r).stream(st);
            let total = *old(count) + in_count0 + (if old(r).index < 0 {
                old(r).lead()
            } else {
                0
            });
            let w = audio::planes_window(
                final(buf).chans(),
                *final(index) as int,
                *final(count) as int,
            );
            let t = setting_out(
                *old(r),
                old(buf).count as int,
                buffer_most(*old(buf)),
                *old(index) as int,
                *old(count) as int,
                in_count0 as int,
                src.count - in_count0,
                out_count as int,
                *old(constraint),
            ).ending(flushed);
            if !old(r).steady() {
                &&& res matches Err(e) && halt_error(Halt::Stray, e)
                &&& *final(r) == *old(r)
                &&& *final(buf) == *old(buf)
                &&& *final(index) == *old(index)
                &&& *final(count) == *old(count)
                &&& *final(constraint) == *old(constraint)
            } else if old(r).starved(*old(count) + in_count0) {
                &&& res matches Ok(n) && n == 0
                &&& *final(r) == *old(r)
                &&& *final(dst) == *old(dst)
                &&& *final(constraint) == *old(constraint)
                &&& *final(count) == *old(count) + in_count0
                &&& *final(index) == fl
                &&& final(buf).count == start_cap(*old(r), old(buf).count as int)
                &&& w == st
                &&& *final(index) + *final(count) <= start_end(
                    *old(r),
                    *old(index) as int,
                    *old(count) as int,
                ) + in_count0
            } else {
                &&& res.is_ok() == (t.1 is None)
                &&& res matches Err(e) ==> {
                    &&& halt_error(t.1->0, e)
                    &&& t.1->0 !is Stray ==> *final(constraint) == t.0.p.blocked
                }
                &&& t.1 != Some(Halt::Stray) ==> {
                    &&& t.0.is_at(*final(r), *final(buf), *final(index) as int, *final(count) as int)
                    &&& w == audio::planes_window(x, t.0.place(), t.0.p.count)
                }
                &&& res is Ok && s.is_trivial() ==> repeats(
                    followed(x, src.chans(), in_count0 as int, src.count - in_count0),
                    total + src.count - in_count0,
                    old(dst).chans(),
                    t.0.at,
                    final(dst).chans(),
                )
                &&& res matches Ok(n) ==> {
                    &&& n == t.0.p.done
                    &&& n == t.0.at.len()
                    &&& n == opening(
                        *old(r),
                        *old(count) as int,
                        in_count0 as int,
                        out_count as int,
                        *old(constraint),
                    ).made(flushed)
                    &&& n <= out_count
                    &&& *old(constraint) && in_count0 == 0 ==> n == 0
                    &&& *final(constraint) == (n != out_count)
                    &&& *final(index) + *final(count) <= start_end(
                        *old(r),
                        *old(index) as int,
                        *old(count) as int,
                    ) + in_count0
                    &&& final(r).steady()
                    &&& final(r).index >= 0
                    &&& final(r).alike(*old(r))
                }
                &&& res matches Ok(n) ==> {
                    &&& stands(
                        s,
                        exact,
                        x,
                        total,
                        old(dst).chans(),
                        n as nat,
                        *final(r),
                        w,
                        *final(count) as int,
                        final(dst).chans(),
                    )
                    &&& s.spent(n as nat) + *final(count) == total
                    &&& s.plain(total) && !(*old(constraint) && in_count0 == 0) ==> s.punctual(
                        total,
                        out_count as int,
                        n as int,
                    )
                }
            }
        }),
{
    let ghost r0 = *r;
    let ghost b0 = *buf;
    let ghost d0 = *dst;
    let ghost ix0 = *index as int;
    let ghost sz0 = *count as int;
    let ghost st = waiting(b0.chans(), ix0, sz0, src.chans(), in_count0 as int);
    let ghost s = r0.begun();
    let ghost exact = s.faithful(out_count as int);
    let ghost x = r0.stream(st);
    let ghost lead: int = if r0.index < 0 {
        r0.lead()
    } else {
        0
    };
    let ghost total = sz0 + in_count0 + lead;
    let ghost lim = start_end(r0, ix0, sz0) + in_count0;
    let ghost idle = *constraint && in_count0 == 0;
    let ch: usize = src.ch_count;
    if !r.is_steady() {
        return Err(invalid("resampling step exceeds the filter"));
    }
    proof {
        if r0.index < 0 {
            r0.lemma_lead();
        }
    }
    let taken: usize = match prime(r, buf, index, count, src, in_count0) {
        Ok(Some(b)) => b,
        Ok(None) => {
            return Ok(0);
        },
        Err(e) => {
            return Err(e);
        },
    };
    if taken > 0 {
        *constraint = false;
    }
    let mut f: Feed = Feed {
        border: taken,
        off: taken,
        left: in_count0 - taken,
        room: out_count,
        done: 0,
        padless: 7,
        at: Ghost(Seq::empty()),
    };
    let ghost g = Course {
        s,
        exact,
        x,
        total,
        base: lead + sz0,
        src: *src,
        n: in_count0 as int,
        buf: b0,
        dst: d0,
        out: out_count as int,
        lim,
        most: buffer_most(b0),
    };
    proof {
        reveal(even_planes);
        assert(even_planes(x, ch as int, total));
        let w = audio::planes_window(buf.chans(), *index as int, *count as int);
        if r0.index >= 0 {
            let v = audio::planes_window(x, 0, *count as int);
            assert forall|c: int| 0 <= c < ch implies w[c] == #[trigger] v[c] by {
                assert(w[c] =~= v[c]);
            }
            assert(w =~= v);
        }
        lemma_stands_start(s, exact, x, total, d0.chans(), w, *count as int);
        lemma_repeats_start(g.memory(), total + g.spare(), d0.chans());
        assert forall|o: int, k: int| 0 <= o && 0 <= k && o + k <= in_count0 implies
            #[trigger] audio::planes_window(src.chans(), o, k) == audio::planes_window(
            x,
            lead + sz0 + o,
            k,
        ) by {
            lemma_source(r0, st, b0, *src, ix0, sz0, in_count0 as int, o, k, lead + sz0 + o, lead, total);
        }
    }
    let ghost goal = opening(
        r0,
        sz0,
        in_count0 as int,
        out_count as int,
        *old(constraint),
    ).made(flushed);
    let ghost end = setting_out(
        r0,
        b0.count as int,
        buffer_most(b0),
        ix0,
        sz0,
        in_count0 as int,
        src.count - in_count0,
        out_count as int,
        *old(constraint),
    ).ending(flushed);
    proof {
        reveal(opening);
        reveal(setting_out);
    }
    let mut more: bool = true;
    while more
        invariant
            more ==> f.pass(*r, *count as int, *constraint).made(flushed) == goal,
            !more ==> f.done == goal,
            more ==> f.trip(g, *r, *buf, *index as int, *count as int, *constraint).ending(flushed)
                == end,
            !more ==> end.1 is None && end.0 == f.trip(
                g,
                *r,
                *buf,
                *index as int,
                *count as int,
                *constraint,
            ),
            end == setting_out(
                r0,
                b0.count as int,
                buffer_most(b0),
                ix0,
                sz0,
                in_count0 as int,
                src.count - in_count0,
                out_count as int,
                *old(constraint),
            ).ending(flushed),
            goal == opening(r0, sz0, in_count0 as int, out_count as int, *old(constraint)).made(
                flushed,
            ),
            g.wf(),
            g.src == *src,
            g.s == s,
            g.exact == exact,
            exact == s.faithful(out_count as int),
            g.buf == b0,
            g.dst == d0,
            g.total == total,
            g.x == x,
            g.out == out_count,
            g.lim == lim,
            s == r0.begun(),
            x == r0.stream(st),
            st == waiting(b0.chans(), ix0, sz0, src.chans(), in_count0 as int),
            total == sz0 + in_count0 + lead,
            lead == (if r0.index < 0 {
                r0.lead()
            } else {
                0
            }),
            r0 == *old(r),
            b0 == *old(buf),
            d0 == *old(dst),
            ix0 == *old(index),
            sz0 == *old(count),
            r0.steady(),
            !r0.starved(sz0 + in_count0),
            lim == start_end(r0, ix0, sz0) + in_count0,
            idle == (*old(constraint) && in_count0 == 0),
            s.format == r0.format,
            f.sound(g, *r, *buf, *index as int, *count as int, *dst),
            more ==> *constraint && f.left == 0 ==> idle,
            idle ==> f.left == 0 && f.done == 0,
            more && idle ==> *constraint,
            !more ==> f.left == 0 && (!idle ==> f.at_end(g)),
        decreases (if more { f.left + 1 } else { 0 }),
    {
        let ghost top = f.left as int;
        let blocked: bool = *constraint;
        proof {
            reveal_with_fuel(Pass::made, 1);
            reveal_with_fuel(Trip::ending, 1);
        }
        match make_output(r, buf, index, count, blocked, flushed, dst, src, &mut f, Ghost(g)) {
            Err(e) => {
                return Err(e);
            },
            Ok(Progress::Finished) => {
                more = false;
            },
            Ok(Progress::Going { whole }) => {
                proof {
                    lemma_stands_at(
                        g,
                        f,
                        *r,
                        *buf,
                        *index as int,
                        *count as int,
                        *dst,
                        *constraint,
                    );
                }
                match keep_input(
                    r,
                    buf,
                    index,
                    count,
                    constraint,
                    dst,
                    src,
                    &mut f,
                    whole,
                    Ghost(g),
                    Ghost(idle),
                    Ghost(top),
                ) {
                    Ok(m) => {
                        more = m;
                    },
                    Err(e) => {
                        return Err(e);
                    },
                }
            },
        }
    }
    let room: usize = f.room;
    let done: usize = f.done;
    proof {
        lemma_stands_at(g, f, *r, *buf, *index as int, *count as int, *dst, *constraint);
    }
    *constraint = room != 0;
    proof {
        if s.plain(total) && !idle {
            lemma_punctual(s, total, out_count as int, done as int);
        }
    }
    Ok(done)
}

/// Nothing stops a call of a gentle resampler that keeps its place, if the buffer
/// may hold all samples.
pub proof fn lemma_smooth_call(
    r: ResampleContext,
    cap: int,
    most: int,
    index: int,
    count: int,
    n: int,
    spare: int,
    m: int,
    blocked: bool,
    flushed: bool,
)
    requires
        r.gentle(),
        r.faithful(m),
        !r.starved(count + n),
        0 <= index,
        0 <= count,
        0 <= n,
        0 <= spare,
        0 <= m <= i32::MAX,
        index + count <= cap,
        r.index < 0 ==> count == 0 || index == r.filter_length,
        count + n + r.filter_length <= i32::MAX,
        start_end(r, index, count) + n <= most,
    ensures
        setting_out(r, cap, most, index, count, n, spare, m, blocked).ending(flushed).1 is None,
{
    reveal(setting_out);
    reveal(opening);
    if r.index < 0 {
        r.lemma_lead();
    }
    setting_out(r, cap, most, index, count, n, spare, m, blocked).lemma_smooth(flushed);
}

proof fn lemma_punctual(s: ResampleContext, total: int, m: int, n: int)
    requires
        s.calm(),
        s.plain(total),
        0 <= n <= m,
        timely(s, total, n),
        exhausted(s, total, n, m - n),
    ensures
        s.punctual(total, m, n),
{
    let cd = s.compensation_distance;
    lemma_avail(s.ticks_left(total), s.dst_incr as int, s.early(n), s.early(m));
    if 0 < cd < n {
        let t = s.run(cd as nat);
        let rest = total - s.spent(cd as nat);
        s.lemma_run_calm(cd as nat);
        if t.plain(rest) {
            lemma_avail_bounds(t.ticks_left(rest), t.dst_incr as int, n - cd);
        }
    }
}

impl ResampleContext {
    /// Outputs that come after `k` of `m` outputs, in terms of the stream at the
    /// start: if all `m` have come, `step` more are asked for; otherwise the rest is.
    pub(crate) proof fn lemma_punctual_adds(self, total: int, m: int, k: nat, step: int, j: int)
        requires
            self.calm(),
            self.plain(total),
            k <= m,
            k <= i32::MAX,
            0 <= j <= step,
            self.punctual(total, m, k as int),
            self.run(k).plain(total - self.spent(k)) ==> self.run(k).punctual(
                total - self.spent(k),
                step,
                j,
            ),
        ensures
            k == m ==> self.punctual(total, k + step, k + j),
            k + j <= m && k < m ==> self.punctual(total, m, k + j),
    {
        let cd = self.compensation_distance as nat;
        let q = self.run(k);
        let d = self.dst_incr as int;
        let left = self.ticks_left(total);
        if cd == 0 || k < cd {
            self.lemma_left(total, k);
            self.lemma_call(k);
            lemma_avail_less(left, d, k as int);
            assert(q.plain(total - self.spent(k)));
            if cd > 0 && k + j > cd {
                self.lemma_run_adds(k, (cd - k) as nat);
            }
        } else {
            self.lemma_call(cd);
            let t = self.run(cd);
            let rest = total - self.spent(cd);
            let e = (k - cd) as nat;
            self.lemma_run_adds(cd, e);
            assert(cd + e == k);
            if t.plain(rest) {
                t.lemma_left(rest, e);
                t.lemma_call(e);
                assert(e <= avail(t.ticks_left(rest), t.dst_incr as int)) by {
                    if e == 0 && t.ticks_left(rest) > 0 {
                        lemma_div_pos_is_pos(
                            t.ticks_left(rest) + t.dst_incr - 1,
                            t.dst_incr as int,
                        );
                    }
                }
                lemma_avail_less(t.ticks_left(rest), t.dst_incr as int, e as int);
            }
        }
    }

    /// Outputs that stop short of a request stop short of a larger one.
    pub(crate) proof fn lemma_punctual_short(self, total: int, m: int, n: int, more: int)
        requires
            self.compensation_distance >= 0,
            self.punctual(total, m, n),
            0 <= n <= m,
        ensures
            n < m <= more ==> self.punctual(total, more, n),
            self.punctual(total, n, n),
    {
    }
}

pub(crate) proof fn lemma_avail_less(left: int, d: int, k: int)
    requires
        d >= 1,
        0 <= k <= avail(left, d),
    ensures
        avail(left - k * d, d) == avail(left, d) - k,
{
    if left > 0 {
        let x = left + d - 1;
        let a = x / d;
        lemma_fundamental_div_mod(x, d);
        lemma_mod_bound(x, d);
        assert((a - k) * d == d * a - k * d) by (nonlinear_arith);
        lemma_fundamental_div_mod_converse(x - k * d, d, a - k, x % d);
        if left - k * d <= 0 {
            assert(a <= k) by (nonlinear_arith)
                requires
                    left - k * d <= 0,
                    x == left + d - 1,
                    x == d * a + x % d,
                    x % d >= 0,
                    d >= 1,
            ;
        }
    } else {
        assert(k * d == 0) by (nonlinear_arith)
            requires
                k == 0,
        ;
    }
}

proof fn lemma_avail_bounds(left: int, d: int, n: int)
    requires
        d >= 1,
        n > 0,
        left - (n - 1) * d > 0,
    ensures
        n <= avail(left, d),
{
    assert((n - 1) * d >= 0) by (nonlinear_arith)
        requires
            n >= 1,
            d >= 1,
    ;
    let x = left + d - 1;
    lemma_fundamental_div_mod(x, d);
    lemma_mod_bound(x, d);
    assert(n <= x / d) by (nonlinear_arith)
        requires
            left - (n - 1) * d > 0,
            x == d * (x / d) + x % d,
            x % d < d,
            x == left + d - 1,
            d >= 1,
    ;
}

proof fn lemma_avail(left: int, d: int, n: int, out: int)
    requires
        d >= 1,
        0 <= n <= out,
        n > 0 ==> left - (n - 1) * d > 0,
        n == out || left - n * d <= 0,
    ensures
        n == (if out < avail(left, d) {
            out
        } else {
            avail(left, d)
        }),
{
    if left <= 0 {
        assert(n > 1 ==> (n - 1) * d >= 0) by (nonlinear_arith)
            requires
                d >= 1,
        ;
        assert(n == 1 ==> (n - 1) * d == 0) by (nonlinear_arith);
    } else {
        let x = left + d - 1;
        let q = x / d;
        lemma_fundamental_div_mod(x, d);
        lemma_mod_bound(x, d);
        assert(n <= q) by (nonlinear_arith)
            requires
                n > 0 ==> left - (n - 1) * d > 0,
                x == d * q + x % d,
                x % d < d,
                x == left + d - 1,
                d >= 1,
                left > 0,
        ;
        if n != out {
            assert(n >= q) by (nonlinear_arith)
                requires
                    left - n * d <= 0,
                    x == d * q + x % d,
                    0 <= x % d,
                    x == left + d - 1,
                    d >= 1,
            ;
        }
    }
}

/// The next samples of the stream have been put behind those in the buffer.
proof fn lemma_taken(
    s: ResampleContext,
    exact: bool,
    x: Planes,
    total: int,
    before: Planes,
    done: nat,
    r: ResampleContext,
    w: Planes,
    count: int,
    now: Planes,
    more: Planes,
    k: int,
)
    requires
        stands(s, exact, x, total, before, done, r, w, count, now),
        0 <= count,
        0 <= k,
        s.spent(done) + count + k <= total,
        more == audio::planes_window(x, s.spent(done) + count, k),
    ensures
        stands(s, exact, x, total, before, done, r, audio::planes_join(w, more), count + k, now),
        r == s.run(done),
        0 <= s.spent(done),
{
    reveal(even_planes);
    reveal(stands);
    let a = audio::planes_join(w, more);
    let b = audio::planes_window(x, s.spent(done), count + k);
    assert forall|c: int| 0 <= c < x.len() implies a[c] == #[trigger] b[c] by {
        assert(a[c] =~= b[c]);
    }
    assert(a =~= b);
}

/// What fits for a larger number fits for a smaller one.
proof fn lemma_may_hold(a: AudioData, n: int, lim: int)
    requires
        0 <= n <= lim,
    ensures
        !a.may_hold(n as nat) ==> !a.may_hold(lim as nat),
{
}

/// New samples are where the stream goes on behind the buffered ones.
proof fn lemma_source(
    r: ResampleContext,
    st: Planes,
    b: AudioData,
    src: AudioData,
    ix: int,
    sz: int,
    n: int,
    off: int,
    k: int,
    at: int,
    lead: int,
    total: int,
)
    requires
        st == waiting(b.chans(), ix, sz, src.chans(), n),
        alike(b, src),
        0 <= ix,
        0 <= sz,
        ix + sz <= b.count,
        0 <= off,
        0 <= k,
        off + k <= n <= src.count,
        lead == (if r.index < 0 {
            r.lead()
        } else {
            0
        }),
        0 <= lead,
        at == lead + sz + off,
        total == sz + n + lead,
    ensures
        audio::planes_window(src.chans(), off, k) == audio::planes_window(r.stream(st), at, k),
{
    let x = r.stream(st);
    let p = audio::planes_window(src.chans(), off, k);
    let q = audio::planes_window(x, at, k);
    assert forall|c: int| 0 <= c < b.ch_count implies p[c] == #[trigger] q[c] by {
        assert(p[c] =~= q[c]);
    }
    assert(p =~= q);
}

} // verus!
