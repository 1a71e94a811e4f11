//! The calls that run samples through a context.
use crate::arith;
use crate::audio;
use crate::audio::{scratch_like, AudioData, Planes};
use crate::convert;
use crate::convert::{may_hold_exec, put_planes};
use crate::error::{invalid, Error};
use crate::options::{MAX_DROP_STEP, MAX_SILENCE_STEP};
use crate::resample::ResampleContext;
use crate::samplefmt::SampleFormat;
use crate::stream;
use crate::swr;
use crate::swr::SwrContext;
use vstd::arithmetic::div_mod::*;
use vstd::prelude::*;

verus! {

// --- dropping output --------------------------------------------------------------------

/// Outputs of one step of dropping, at most.
pub open spec fn drop_step(drop: int) -> int {
    if drop < MAX_DROP_STEP {
        drop
    } else {
        MAX_DROP_STEP as int
    }
}

/// Outputs that are dropped step by step without new samples, of `drop`; `fed`
/// tells that there could have been some.
#[verifier::opaque]
pub open spec fn dropped_on(
    r: ResampleContext,
    count: int,
    blocked: bool,
    fed: bool,
    flushed: bool,
    drop: int,
) -> int
    decreases drop,
{
    let step = drop_step(drop);
    let n = stream::opening(r, count, 0, step, blocked && fed).made(flushed);
    if drop <= 0 || n <= 0 || n > step {
        0
    } else {
        n + dropped_on(
            r.run(n as nat),
            count - r.spent(n as nat),
            n != step,
            fed,
            flushed,
            drop - n,
        )
    }
}

impl SwrContext {
    /// The larger of a step of dropping and `m` outputs.
    pub open spec fn largest_piece(self, m: int) -> int {
        if m < MAX_DROP_STEP {
            MAX_DROP_STEP as int
        } else {
            m
        }
    }

    /// A call that drops output first may fail.
    #[verifier::opaque]
    pub open spec fn skip_refused(self, in_: Option<Seq<Seq<u8>>>, n: int, m: int) -> bool {
        let k = self.largest_piece(m);
        ||| !self.supplied(in_, n)
        ||| match self.resample {
            None => self.in_buffer_count + n > 0 && (!self.runs(k as nat)
                || !self.in_buffer.may_hold(
                (self.in_buffer_index + self.in_buffer_count + n) as nat,
            )),
            Some(_) => {
                ||| in_ is None && !self.end_room()
                ||| self.rate_refused(
                    if in_ is None {
                        self.in_buffer_count + self.end_extra()
                    } else {
                        self.in_buffer_count as int
                    },
                    n,
                    k,
                )
            },
        }
    }

    /// What the context is after `k` outputs have been dropped, the first call
    /// with `n` input samples.
    pub open spec fn skipping(
        self,
        c: SwrContext,
        in_: Option<Seq<Seq<u8>>>,
        n: int,
        k: int,
    ) -> bool {
        &&& c.outpts == self.outpts
        &&& c.drop_output == self.drop_output - k
        &&& match self.resample {
            None => {
                let total = self.in_buffer_count + n;
                &&& c.resample is None
                &&& c.flushed == self.flushed
                &&& c.resample_in_constraint == self.resample_in_constraint
                &&& 0 <= k <= total
                &&& c.in_buffer_count == total - k
                &&& c.held() == audio::planes_window(self.queued(in_, n), k, total - k)
            },
            Some(r) => {
                let up = self.upcoming(in_, n);
                let len = self.upcoming_len(in_, n);
                let s = r.begun();
                let x = r.stream(up);
                let total = r.stream_len(len);
                &&& c.flushed == (self.flushed || in_ is None)
                &&& if r.starved(len) {
                    &&& k == 0
                    &&& c.resample == self.resample
                    &&& c.in_buffer_count == len
                    &&& c.held() == up
                } else {
                    &&& c.resample == Some(s.run(k as nat))
                    &&& c.in_buffer_count == total - s.spent(k as nat)
                    &&& c.held() == audio::planes_window(
                        x,
                        s.spent(k as nat),
                        total - s.spent(k as nat),
                    )
                }
            },
        }
    }

    /// Outputs that a call with `n` new samples drops.
    pub open spec fn dropped(self, in_: Option<Seq<Seq<u8>>>, n: int) -> int {
        let r = self.resample->0;
        let len = self.upcoming_len(in_, n);
        let flushed = self.flushed || in_ is None;
        let drop = self.drop_output as int;
        let k = stream::opening(
            r,
            len - n,
            n,
            drop_step(drop),
            self.resample_in_constraint && in_ is Some,
        ).made(flushed);
        if r.starved(len) || k <= 0 {
            0
        } else {
            k + dropped_on(
                r.begun().run(k as nat),
                r.stream_len(len) - r.begun().spent(k as nat),
                k != drop_step(drop),
                in_ is Some,
                flushed,
                drop - k,
            )
        }
    }

    /// How many outputs are dropped and come behind, of a stream that nothing
    /// blocks: `k` and `j` of `m`.
    pub open spec fn drops_in_time(
        self,
        in_: Option<Seq<Seq<u8>>>,
        n: int,
        m: int,
        wants: bool,
        k: int,
        j: int,
    ) -> bool {
        let r = self.resample->0;
        let s = r.begun();
        let total = r.stream_len(self.upcoming_len(in_, n));
        !r.starved(self.upcoming_len(in_, n)) ==> if self.resample_in_constraint && in_ is Some && n
            == 0 {
            k == 0
        } else {
            s.plain(total) ==> s.punctual(
                total,
                if k == self.drop_output && wants {
                    k + m
                } else {
                    self.drop_output as int
                },
                k + j,
            )
        }
    }

    /// The dropping has come as far as there was time: all outputs that were asked
    /// for have come, or fewer and the context waits for input.
    spec fn on_course(self, c: SwrContext, in_: Option<Seq<Seq<u8>>>, n: int, k: int) -> bool {
        let r = self.resample->0;
        let s = r.begun();
        let total = r.stream_len(self.upcoming_len(in_, n));
        &&& !(self.resample_in_constraint && in_ is Some && n == 0)
        &&& c.resample_in_constraint ==> k < self.drop_output
        &&& s.plain(total) ==> s.punctual(
            total,
            if c.resample_in_constraint {
                self.drop_output as int
            } else {
                k
            },
            k,
        )
    }

    /// What a call that drops output first makes of the context, and its `j`
    /// outputs `o`. They come behind the dropped ones.
    #[verifier::opaque]
    pub open spec fn skipped(
        self,
        new: SwrContext,
        in_: Option<Seq<Seq<u8>>>,
        n: int,
        m: int,
        wants: bool,
        j: int,
        o: Planes,
    ) -> bool {
        let k = self.drop_output - new.drop_output;
        &&& self.supplied(in_, n)
        &&& 0 <= k <= self.drop_output
        &&& self.resample is None ==> k == (if self.drop_output < self.in_buffer_count + n {
            self.drop_output as int
        } else {
            self.in_buffer_count + n
        })
        &&& self.resample is Some ==> k == self.dropped(in_, n)
        &&& self.resample is Some ==> self.drops_in_time(in_, n, m, wants, k, j)
        &&& if k < self.drop_output || !wants {
            j == 0 && self.skipping(new, in_, n, k)
        } else {
            &&& new.outpts == (if j > 0 {
                arith::wrap64(self.outpts + j * self.options.in_sample_rate)
            } else {
                self.outpts as int
            })
            &&& match self.resample {
                None => {
                    let total = self.in_buffer_count + n;
                    let all = self.queued(in_, n);
                    &&& new.resample is None
                    &&& j == (if m < total - k {
                        m
                    } else {
                        total - k
                    })
                    &&& new.in_buffer_count == total - k - j
                    &&& new.held() == audio::planes_window(all, k + j, total - k - j)
                    &&& self.matched() ==> o == self.piped(
                        audio::planes_window(all, k, j),
                        j as nat,
                    )
                },
                Some(r) => {
                    let up = self.upcoming(in_, n);
                    let s = r.begun();
                    let x = r.stream(up);
                    let total = r.stream_len(self.upcoming_len(in_, n));
                    let done = (k + j) as nat;
                    &&& 0 <= j <= m
                    &&& j == stream::opening(
                        s.run(k as nat),
                        total - s.spent(k as nat),
                        0,
                        m,
                        false,
                    ).made(new.flushed)
                    &&& new.flushed == (self.flushed || in_ is None)
                    &&& new.resample == Some(s.run(done))
                    &&& new.in_buffer_count == total - s.spent(done)
                    &&& new.held() == audio::planes_window(
                        x,
                        s.spent(done),
                        total - s.spent(done),
                    )
                    &&& r.faithful(m) ==> o == self.finished(
                        audio::planes_window(stream::outputs(s, x, done), k, j),
                        j as nat,
                    )
                    &&& exists|c: SwrContext| #[trigger]
                        self.between(c, in_, n) && c.passed(new, in_, 0, m, j, o)
                },
            }
        }
    }

    /// The context between two steps of dropping.
    #[verifier::opaque]
    spec fn underway(self, c: SwrContext, in_: Option<Seq<Seq<u8>>>, n: int, k: int) -> bool {
        &&& c.live()
        &&& c.same_setup(self)
        &&& self.supplied(in_, n)
        &&& self.skipping(c, in_, n, k)
        &&& 0 < k
        &&& c.resample.is_some() == self.resample.is_some()
        &&& self.resample is Some ==> {
            &&& self.matched()
            &&& self.resample->0.steady()
            &&& !self.resample->0.starved(self.upcoming_len(in_, n))
            &&& self.onward(c, in_, n)
            &&& self.on_course(c, in_, n, k)
            &&& self.dropped(in_, n) == k + dropped_on(
                c.resample->0,
                c.in_buffer_count as int,
                c.resample_in_constraint,
                in_ is Some,
                c.flushed,
                c.drop_output as int,
            )
        }
    }
}

proof fn lemma_window_window(p: Planes, total: int, a: int, b: int)
    requires
        0 <= a,
        0 <= b,
        a + b <= total,
        forall|c: int| 0 <= c < p.len() ==> (#[trigger] p[c]).len() == total,
    ensures
        audio::planes_window(audio::planes_window(p, a, total - a), b, total - a - b)
            == audio::planes_window(p, a + b, total - a - b),
        audio::planes_first(audio::planes_window(p, a, total - a), b) == audio::planes_window(
            p,
            a,
            b,
        ),
{
    let w = audio::planes_window(p, a, total - a);
    let x = audio::planes_window(w, b, total - a - b);
    let y = audio::planes_window(p, a + b, total - a - b);
    assert forall|c: int| 0 <= c < p.len() implies x[c] == #[trigger] y[c] by {
        assert(x[c] =~= y[c]);
    }
    assert(x =~= y);
    let u = audio::planes_first(w, b);
    let v = audio::planes_window(p, a, b);
    assert forall|c: int| 0 <= c < p.len() implies u[c] == #[trigger] v[c] by {
        assert(u[c] =~= v[c]);
    }
    assert(u =~= v);
}

impl SwrContext {
    /// The stream has equally many samples in every channel.
    proof fn lemma_stream_even(self, in_: Option<Seq<Seq<u8>>>, n: nat)
        requires
            self.staged_live(),
            self.resample is Some,
        ensures
            ({
                let up = self.upcoming(in_, n as int);
                let len = self.upcoming_len(in_, n as int);
                let r = self.resample->0;
                &&& up.len() == self.in_buffer.ch_count
                &&& forall|c: int| 0 <= c < up.len() ==> (#[trigger] up[c]).len() == len
                &&& r.stream(up).len() == up.len()
                &&& forall|c: int|
                    0 <= c < up.len() ==> (#[trigger] r.stream(up)[c]).len() == r.stream_len(len)
            }),
    {
        reveal(swr::rate_stage);
        if let Some(b) = in_ {
            self.lemma_fed_shape(convert::samples_of(self.in_, b, n), n);
        }
        let r = self.resample->0;
        if r.index < 0 {
            assert(r.lead() >= 0) by {
                r.lemma_lead();
            }
        }
        if !self.flushed {
            assert(self.end_extra() >= 0);
        }
    }

    /// A call without new samples sees what is held.
    proof fn lemma_still(self, in_: Option<Seq<Seq<u8>>>)
        requires
            self.staged_live(),
            self.resample is Some,
            in_ is None ==> self.flushed,
            self.resample->0.index >= 0,
        ensures
            self.upcoming(in_, 0) == self.held(),
            self.upcoming_len(in_, 0) == self.in_buffer_count,
            self.resample->0.begun() == self.resample->0,
            self.resample->0.stream(self.held()) == self.held(),
            self.resample->0.stream_len(self.in_buffer_count as int) == self.in_buffer_count,
    {
        if let Some(b) = in_ {
            let p = convert::samples_of(self.in_, b, 0);
            self.lemma_fed_shape(p, 0);
            convert::lemma_join_nothing(self.held(), self.fed(p, 0));
        }
    }

    proof fn lemma_still_queued(self, in_: Option<Seq<Seq<u8>>>)
        requires
            self.live(),
            self.resample is None,
        ensures
            self.queued(in_, 0) == self.held(),
    {
        if let Some(b) = in_ {
            let p = convert::samples_of(self.in_, b, 0);
            convert::lemma_join_nothing(self.held(), p);
        }
    }

    proof fn lemma_queued_even(self, in_: Option<Seq<Seq<u8>>>, n: nat)
        requires
            self.live(),
            self.resample is None,
            in_ is None ==> n == 0,
        ensures
            self.queued(in_, n as int).len() == self.in_.ch_count,
            forall|c: int|
                0 <= c < self.in_.ch_count ==> (#[trigger] self.queued(in_, n as int)[c]).len()
                    == self.in_buffer_count + n,
    {
    }
}

/// The first step of dropping.
proof fn lemma_first_step(
    c0: SwrContext,
    c1: SwrContext,
    in_: Option<Seq<Seq<u8>>>,
    n: nat,
    step: int,
    k: int,
)
    requires
        c0.live(),
        c1.live(),
        c1.same_setup(c0),
        in_ is None ==> n == 0,
        0 < k <= step <= c0.drop_output,
        step == drop_step(c0.drop_output as int),
        c0.moved_by(c1, in_, n as int, step, k),
    ensures
        c0.underway(
            (SwrContext { drop_output: (c1.drop_output - k) as i32, ..c1 }),
            in_,
            n as int,
            k,
        ),
{
    reveal(SwrContext::moved_by);
    let o = choose|o: Planes| #[trigger] c0.passed(c1, in_, n as int, step, k, o);
    reveal(SwrContext::underway);
    let c2 = SwrContext { drop_output: (c1.drop_output - k) as i32, ..c1 };
    assert(c2.held() == c1.held());
    assert(c2.live());
    if let Some(r) = c0.resample {
        let s = r.begun();
        let total = r.stream_len(c0.upcoming_len(in_, n as int));
        if s.plain(total) {
            s.lemma_punctual_short(total, step, k, c0.drop_output as int);
        }
    }
}

proof fn lemma_next_step(
    c0: SwrContext,
    c: SwrContext,
    c1: SwrContext,
    in_: Option<Seq<Seq<u8>>>,
    n: nat,
    k: int,
    step: int,
    j: int,
)
    requires
        c0.live(),
        in_ is None ==> n == 0,
        c0.underway(c, in_, n as int, k),
        c1.live(),
        c1.same_setup(c),
        0 < j <= step <= c.drop_output,
        step == drop_step(c.drop_output as int),
        c.moved_by(c1, in_, 0, step, j),
    ensures
        c0.underway(
            (SwrContext { drop_output: (c1.drop_output - j) as i32, ..c1 }),
            in_,
            n as int,
            k + j,
        ),
{
    reveal(SwrContext::moved_by);
    let o = choose|o: Planes| #[trigger] c.passed(c1, in_, 0, step, j, o);
    reveal(SwrContext::underway);
    let c2 = SwrContext { drop_output: (c1.drop_output - j) as i32, ..c1 };
    assert(c2.held() == c1.held());
    assert(c2.live());
    assert(c2.same_setup(c0));
    match c0.resample {
        None => {
            c.lemma_still_queued(in_);
            c0.lemma_queued_even(in_, n);
            lemma_window_window(c0.queued(in_, n as int), c0.in_buffer_count + n, k, j);
        },
        Some(r) => {
            c.lemma_still(in_);
            lemma_moved_on(c0, c, in_, n, k, j);
            lemma_course(c0, c, in_, n, k, step, j);
            reveal_with_fuel(dropped_on, 1);
        },
    }
}

/// `j` more outputs of `step` when `k` have been dropped.
proof fn lemma_course(
    c0: SwrContext,
    c: SwrContext,
    in_: Option<Seq<Seq<u8>>>,
    n: nat,
    k: int,
    step: int,
    j: int,
)
    requires
        c0.staged_live(),
        c0.underway(c, in_, n as int, k),
        c0.resample is Some,
        c.drop_output >= 0,
        0 <= j <= step,
        c.resample_in_constraint && in_ is Some ==> j == 0,
        !(c.resample_in_constraint && in_ is Some) && c.resample->0.plain(
            c.in_buffer_count as int,
        ) ==> c.resample->0.punctual(c.in_buffer_count as int, step, j),
        c.resample_in_constraint ==> step <= c.drop_output,
    ensures
        ({
            let r = c0.resample->0;
            let s = r.begun();
            let total = r.stream_len(c0.upcoming_len(in_, n as int));
            let drop = c0.drop_output as int;
            s.plain(total) ==> {
                &&& c.resample_in_constraint ==> s.punctual(total, drop, k + j)
                &&& !c.resample_in_constraint ==> s.punctual(total, k + step, k + j)
                &&& !c.resample_in_constraint && j < step && k + step <= drop ==> s.punctual(
                    total,
                    drop,
                    k + j,
                )
                &&& s.punctual(total, k + j, k + j)
            }
        }),
{
    reveal(SwrContext::underway);
    let r = c0.resample->0;
    let s = r.begun();
    let total = r.stream_len(c0.upcoming_len(in_, n as int));
    let drop = c0.drop_output as int;
    lemma_begun_calm(c0, c, in_, n, k);
    if s.plain(total) {
        if c.resample_in_constraint {
            if in_ is None {
                s.lemma_punctual_adds(total, drop, k as nat, step, j);
            }
            s.lemma_punctual_short(total, drop, k + j, drop);
        } else {
            s.lemma_punctual_adds(total, k, k as nat, step, j);
            s.lemma_punctual_short(total, k + step, k + j, drop);
        }
    }
}

/// Outputs behind dropped ones, in terms of the stream at the start.
proof fn lemma_moved_on(
    c0: SwrContext,
    c: SwrContext,
    in_: Option<Seq<Seq<u8>>>,
    n: nat,
    k: int,
    j: int,
)
    requires
        c0.staged_live(),
        c0.underway(c, in_, n as int, k),
        c0.resample is Some,
        0 <= j,
        c.in_buffer_count >= c.resample->0.spent(j as nat),
    ensures
        ({
            let r = c0.resample->0;
            let s = r.begun();
            let x = r.stream(c0.upcoming(in_, n as int));
            let total = r.stream_len(c0.upcoming_len(in_, n as int));
            let q = c.resample->0;
            let done = (k + j) as nat;
            &&& q.run(j as nat) == s.run(done)
            &&& c.in_buffer_count - q.spent(j as nat) == total - s.spent(done)
            &&& audio::planes_window(
                c.held(),
                q.spent(j as nat),
                c.in_buffer_count - q.spent(j as nat),
            ) == audio::planes_window(x, s.spent(done), total - s.spent(done))
            &&& stream::outputs(q, c.held(), j as nat) == audio::planes_window(
                stream::outputs(s, x, done),
                k,
                j,
            )
        }),
{
    reveal(SwrContext::underway);
    let r = c0.resample->0;
    let s = r.begun();
    let x = r.stream(c0.upcoming(in_, n as int));
    let total = r.stream_len(c0.upcoming_len(in_, n as int));
    c0.lemma_stream_even(in_, n);
    let q = c.resample->0;
    lemma_begun_calm(c0, c, in_, n, k);
    s.lemma_run_calm(k as nat);
    q.lemma_run_calm(j as nat);
    s.lemma_adds(k as nat, j as nat);
    assert((k + j) as nat == k as nat + j as nat);
    s.lemma_resumed(x, total, k as nat, j as nat);
    lemma_window_window(x, total, s.spent(k as nat), q.spent(j as nat));
}

proof fn lemma_begun_calm(
    c0: SwrContext,
    c: SwrContext,
    in_: Option<Seq<Seq<u8>>>,
    n: nat,
    k: int,
)
    requires
        c0.staged_live(),
        c0.underway(c, in_, n as int, k),
        c0.resample is Some,
    ensures
        c0.resample->0.begun().calm(),
{
    reveal(SwrContext::underway);
    reveal(swr::rate_stage);
    let r = c0.resample->0;
    if r.index < 0 {
        r.lemma_lead();
    }
}

/// The outputs behind the dropped ones.
proof fn lemma_last_step(
    c0: SwrContext,
    c: SwrContext,
    c1: SwrContext,
    in_: Option<Seq<Seq<u8>>>,
    n: nat,
    k: int,
    m: int,
    j: int,
    o: Planes,
)
    requires
        c0.live(),
        in_ is None ==> n == 0,
        c0.underway(c, in_, n as int, k),
        c.drop_output == 0,
        c1.same_setup(c),
        c.passed(c1, in_, 0, m, j, o),
        0 <= j <= m,
    ensures
        c0.skipped(c1, in_, n as int, m, true, j, o),
{
    reveal(SwrContext::underway);
    reveal(SwrContext::skipped);
    match c0.resample {
        None => {
            c.lemma_still_queued(in_);
            c0.lemma_queued_even(in_, n);
            lemma_window_window(c0.queued(in_, n as int), c0.in_buffer_count + n, k, j);
            convert::lemma_same_pipe(c, c0);
        },
        Some(r) => {
            c.lemma_still(in_);
            lemma_moved_on(c0, c, in_, n, k, j);
            lemma_course(c0, c, in_, n, k, m, j);
            lemma_between(c0, c, in_, n as int, k);
            reveal_with_fuel(dropped_on, 1);
        },
    }
}

/// What is enough for the whole call is enough for its first step.
proof fn lemma_first_allowed(c: SwrContext, in_: Option<Seq<Seq<u8>>>, n: nat, m: int, step: int)
    requires
        c.live(),
        0 <= step <= MAX_DROP_STEP,
        !c.skip_refused(in_, n as int, m),
    ensures
        !c.refused(in_, n as int, step),
{
    reveal(SwrContext::skip_refused);
    let k = c.largest_piece(m);
    match c.resample {
        None => {
            if c.in_buffer_count + n > 0 {
                lemma_piece_runs(c, k);
            }
        },
        Some(r) => {
            r.lemma_less_faithful(step, k);
        },
    }
}

proof fn lemma_piece_runs(c: SwrContext, k: int)
    requires
        c.runs(k as nat),
        0 <= k,
    ensures
        forall|j: nat| j <= k ==> #[trigger] c.runs(j),
{
}

/// What is enough for the whole call is enough for a later step.
proof fn lemma_next_allowed(
    c0: SwrContext,
    c: SwrContext,
    in_: Option<Seq<Seq<u8>>>,
    n: nat,
    m: int,
    k: int,
    step: int,
)
    requires
        c0.live(),
        c0.underway(c, in_, n as int, k),
        0 <= step <= c0.largest_piece(m),
        !c0.skip_refused(in_, n as int, m),
        in_ is None ==> n == 0,
    ensures
        !c.refused(in_, 0, step),
{
    reveal(SwrContext::underway);
    reveal(SwrContext::skip_refused);
    assert(c.supplied(in_, 0)) by {
        if let Some(b) = in_ {
            let a = c0.in_;
            let big = convert::bytes_needed(a, n as int);
            assert(0 <= big) by (nonlinear_arith)
                requires
                    big == n * a.bps || big == n * a.ch_count * a.bps,
            ;
            assert(convert::bytes_needed(a, 0) == 0) by (nonlinear_arith)
                requires
                    convert::bytes_needed(a, 0) == 0 * a.bps || convert::bytes_needed(a, 0) == 0
                        * a.ch_count * a.bps,
            ;
        }
    }
    match c0.resample {
        None => {
            if c0.in_buffer_count + n > 0 {
                lemma_piece_runs(c0, c0.largest_piece(m));
                convert::lemma_same_pipe(c, c0);
            }
        },
        Some(r) => {
            r.lemma_less_faithful(step, c0.largest_piece(m));
            reveal(swr::rate_stage);
            lemma_begun_calm(c0, c, in_, n, k);
            r.begun().lemma_run_gentle(k as nat);
            let end = c0.reach_of(in_, n as int) as nat;
            convert::lemma_may_hold_size(c0.in_buffer, end);
            assert(c.in_buffer.may_hold((c.in_buffer_index + c.in_buffer_count) as nat));
        },
    }
}

proof fn lemma_underway_facts(
    c0: SwrContext,
    c: SwrContext,
    in_: Option<Seq<Seq<u8>>>,
    n: int,
    k: int,
)
    requires
        c0.underway(c, in_, n, k),
    ensures
        c.live(),
        c.same_setup(c0),
        c.drop_output == c0.drop_output - k,
        0 < k,
{
    reveal(SwrContext::underway);
}

proof fn lemma_between(c0: SwrContext, c: SwrContext, in_: Option<Seq<Seq<u8>>>, n: int, k: int)
    requires
        c0.underway(c, in_, n, k),
        0 <= c.drop_output,
    ensures
        c0.between(c, in_, n),
{
    reveal(SwrContext::underway);
}

/// All output that was to be dropped is dropped, and none is wanted.
proof fn lemma_all_dropped(
    c0: SwrContext,
    c: SwrContext,
    in_: Option<Seq<Seq<u8>>>,
    n: nat,
    k: int,
    m: int,
)
    requires
        c0.underway(c, in_, n as int, k),
        c.drop_output == 0,
    ensures
        c0.skipped(
            c,
            in_,
            n as int,
            m,
            false,
            0,
            audio::planes_zero(c0.out.ch_count as nat, 0),
        ),
{
    reveal(SwrContext::underway);
    reveal(SwrContext::skipped);
    reveal_with_fuel(dropped_on, 1);
}

/// There is room for the output of a step of dropping.
proof fn lemma_step_room(c: SwrContext, step: nat)
    requires
        c.live(),
        step <= MAX_DROP_STEP,
    ensures
        c.drop_temp.may_hold(step),
{
    let b = c.drop_temp.bps as int;
    let n = c.drop_temp.ch_count as int;
    lemma_div_is_ordered_by_denominator(audio::MAX_BUFFER as int, b, 8);
    lemma_div_is_ordered(audio::MAX_BUFFER as int / 8, audio::MAX_BUFFER as int / b, n);
    lemma_div_is_ordered_by_denominator(audio::MAX_BUFFER as int / 8, n, 64);
}

impl SwrContext {
    /// Some outputs have been made and thrown away.
    #[verifier::opaque]
    spec fn moved_by(
        self,
        new: SwrContext,
        in_: Option<Seq<Seq<u8>>>,
        n: int,
        m: int,
        k: int,
    ) -> bool {
        &&& exists|o: Planes| #[trigger] self.passed(new, in_, n, m, k, o)
        &&& self.resample is Some ==> self.onward(new, in_, n)
        &&& new.resample.is_some() == self.resample.is_some()
    }

    #[verifier::opaque]
    spec fn unsure(self, in_: Option<Seq<Seq<u8>>>, n: int, m: int) -> bool {
        self.refused(in_, n, m)
    }

    /// Makes up to `step` outputs and throws them away.
    fn skip_step(&mut self, in_: Option<&[&[u8]]>, in_count: usize, step: usize) -> (res: Result<
        usize,
        Error,
    >)
        requires
            old(self).live(),
            in_ is None ==> in_count == 0,
            old(self).in_.ch_count * in_count * old(self).in_.bps <= usize::MAX,
            step <= i32::MAX,
        ensures
            final(self).live(),
            final(self).same_setup(*old(self)),
            final(self).drop_output == old(self).drop_output,
            res matches Err(e) ==> !old(self).drop_temp.may_hold(step as nat) || old(self).unsure(
                convert::input_view(in_),
                in_count as int,
                step as int,
            ) && old(self).step_failed(
                convert::input_view(in_),
                in_count as int,
                step as int,
                *final(self),
                e,
            ),
            res matches Ok(n) ==> n <= step && old(self).moved_by(
                *final(self),
                convert::input_view(in_),
                in_count as int,
                step as int,
                n as int,
            ),
    {
        proof {
            reveal(SwrContext::moved_by);
            reveal(SwrContext::unsure);
            reveal(SwrContext::step_failed);
        }
        if !may_hold_exec(&self.drop_temp, step) {
            return Err(invalid("swri_realloc_audio: sample count out of range"));
        }
        proof {
            convert::lemma_may_hold_size(self.drop_temp, step as nat);
        }
        let mut temp: AudioData = scratch_like(&self.drop_temp, step);
        self.convert_body(&mut temp, step, in_, in_count)
    }

    /// Drops the output that is to be dropped. Tells whether the call goes on:
    /// all of it is dropped and output is wanted.
    fn skip(&mut self, in_: Option<&[&[u8]]>, in_count: usize, wants: bool, Ghost(m): Ghost<int>) -> (res:
        Result<bool, Error>)
        requires
            old(self).live(),
            old(self).drop_output > 0,
            in_ is None ==> in_count == 0,
            old(self).in_.ch_count * in_count * old(self).in_.bps <= usize::MAX,
        ensures
            final(self).live(),
            final(self).same_setup(*old(self)),
            res is Err ==> old(self).skip_refused(convert::input_view(in_), in_count as int, m),
            res matches Err(e) ==> forall|out: Option<Seq<Seq<u8>>>| #[trigger]
                old(self).drop_failed(
                    convert::input_view(in_),
                    in_count as int,
                    m,
                    out,
                    *final(self),
                    e,
                ),
            res matches Ok(on) ==> {
                &&& on ==> wants && final(self).drop_output == 0 && old(self).underway(
                    *final(self),
                    convert::input_view(in_),
                    in_count as int,
                    old(self).drop_output as int,
                )
                &&& !on ==> old(self).skipped(
                    *final(self),
                    convert::input_view(in_),
                    in_count as int,
                    m,
                    wants,
                    0,
                    audio::planes_zero(old(self).out.ch_count as nat, 0),
                )
            },
    {
        let ghost c0 = *self;
        let ghost iv = convert::input_view(in_);
        let mut left: usize = in_count;
        let ghost mut k: int = 0;
        while self.drop_output > 0
            invariant
                c0 == *old(self),
                c0.live(),
                self.live(),
                self.same_setup(c0),
                iv == convert::input_view(in_),
                in_ is None ==> in_count == 0,
                c0.in_.ch_count * in_count * c0.in_.bps <= usize::MAX,
                c0.in_.ch_count * left * c0.in_.bps <= usize::MAX,
                in_ is None ==> left == 0,
                c0.drop_output > 0,
                self.drop_output == c0.drop_output - k,
                self.drop_output >= 0,
                k == 0 ==> *self == c0 && left == in_count,
                k != 0 ==> left == 0 && c0.underway(*self, iv, in_count as int, k),
            decreases self.drop_output,
        {
            let ghost c = *self;
            let step: usize = if self.drop_output < MAX_DROP_STEP {
                self.drop_output as usize
            } else {
                MAX_DROP_STEP as usize
            };
            let ret: usize = match self.skip_step(in_, left, step) {
                Ok(n) => n,
                Err(e) => {
                    proof {
                        lemma_step_room(c, step as nat);
                        if k != 0 {
                            lemma_between(c0, c, iv, in_count as int, k);
                        }
                        reveal(SwrContext::unsure);
                        if !c0.skip_refused(iv, in_count as int, m) {
                            if k == 0 {
                                lemma_first_allowed(c0, iv, in_count as nat, m, step as int);
                            } else {
                                lemma_next_allowed(c0, c, iv, in_count as nat, m, k, step as int);
                            }
                        }
                    }
                    return Err(e);
                },
            };
            if ret == 0 {
                proof {
                    if k == 0 {
                        lemma_no_step(c0, *self, iv, in_count as nat, step as int, m, wants);
                    } else {
                        lemma_no_more(c0, c, *self, iv, in_count as nat, k, step as int, m, wants);
                    }
                }
                return Ok(false);
            }
            let ghost c1 = *self;
            self.drop_output = self.drop_output - ret as i32;
            left = 0;
            proof {
                if k == 0 {
                    lemma_first_step(c0, c1, iv, in_count as nat, step as int, ret as int);
                } else {
                    lemma_next_step(c0, c, c1, iv, in_count as nat, k, step as int, ret as int);
                }
                k = k + ret;
                lemma_underway_facts(c0, *self, iv, in_count as int, k);
                assert(c0.in_.ch_count * 0 * c0.in_.bps == 0) by (nonlinear_arith);
            }
        }
        proof {
            if !wants {
                lemma_all_dropped(c0, *self, iv, in_count as nat, k, m);
            }
        }
        Ok(wants)
    }
}

/// Nothing comes at the first step of dropping.
proof fn lemma_no_step(
    c0: SwrContext,
    c1: SwrContext,
    in_: Option<Seq<Seq<u8>>>,
    n: nat,
    step: int,
    m: int,
    wants: bool,
)
    requires
        c0.live(),
        c1.same_setup(c0),
        in_ is None ==> n == 0,
        0 < step <= c0.drop_output,
        step == drop_step(c0.drop_output as int),
        c0.moved_by(c1, in_, n as int, step, 0),
    ensures
        c0.skipped(
            c1,
            in_,
            n as int,
            m,
            wants,
            0,
            audio::planes_zero(c0.out.ch_count as nat, 0),
        ),
{
    reveal(SwrContext::moved_by);
    let o = choose|o: Planes| #[trigger] c0.passed(c1, in_, n as int, step, 0, o);
    reveal(SwrContext::skipped);
    if let Some(r) = c0.resample {
        let s = r.begun();
        let total = r.stream_len(c0.upcoming_len(in_, n as int));
        if !r.starved(c0.upcoming_len(in_, n as int)) && s.plain(total) && !(
        c0.resample_in_constraint && in_ is Some && n == 0) {
            s.lemma_punctual_short(total, step, 0, c0.drop_output as int);
        }
    }
}

/// Nothing comes at a later step.
proof fn lemma_no_more(
    c0: SwrContext,
    c: SwrContext,
    c1: SwrContext,
    in_: Option<Seq<Seq<u8>>>,
    n: nat,
    k: int,
    step: int,
    m: int,
    wants: bool,
)
    requires
        c0.live(),
        in_ is None ==> n == 0,
        c0.underway(c, in_, n as int, k),
        c1.same_setup(c),
        0 < step <= c.drop_output,
        step == drop_step(c.drop_output as int),
        c.moved_by(c1, in_, 0, step, 0),
    ensures
        c0.skipped(
            c1,
            in_,
            n as int,
            m,
            wants,
            0,
            audio::planes_zero(c0.out.ch_count as nat, 0),
        ),
{
    reveal(SwrContext::moved_by);
    let o = choose|o: Planes| #[trigger] c.passed(c1, in_, 0, step, 0, o);
    reveal(SwrContext::underway);
    reveal(SwrContext::skipped);
    match c0.resample {
        None => {
            c.lemma_still_queued(in_);
            c0.lemma_queued_even(in_, n);
            lemma_window_window(c0.queued(in_, n as int), c0.in_buffer_count + n, k, 0);
        },
        Some(r) => {
            c.lemma_still(in_);
            assert(c.resample->0.spent(0) == 0);
            lemma_moved_on(c0, c, in_, n, k, 0);
            lemma_course(c0, c, in_, n, k, step, 0);
            reveal_with_fuel(dropped_on, 1);
        },
    }
}

// --- calls --------------------------------------------------------------------------------

pub open spec fn output_view(out: Option<&mut Vec<Vec<u8>>>) -> Option<Seq<Seq<u8>>> {
    match out {
        Some(p) => Some(convert::vec_views(p@)),
        None => None,
    }
}

/// Bytes behind the first `n` samples, and further planes, are left alone.
pub open spec fn planes_kept(
    a: AudioData,
    n: int,
    before: Seq<Seq<u8>>,
    now: Seq<Seq<u8>>,
) -> bool {
    &&& now.len() == before.len()
    &&& forall|k: int| 0 <= k < now.len() ==> (#[trigger] now[k]).len() == before[k].len()
    &&& forall|k: int, j: int|
        0 <= k < now.len() && (k < convert::planes_needed(a) ==> convert::bytes_needed(a, n) <= j)
            && 0 <= j < now[k].len() ==> #[trigger] now[k][j] == before[k][j]
}

impl SwrContext {
    /// A call with `n` input samples and room for `m` outputs has made `new` of
    /// the context and given the `j` outputs `o`.
    pub open spec fn called(
        self,
        new: SwrContext,
        in_: Option<Seq<Seq<u8>>>,
        n: int,
        m: int,
        wants: bool,
        j: int,
        o: Planes,
    ) -> bool {
        if self.drop_output > 0 {
            self.skipped(new, in_, n, m, wants, j, o)
        } else {
            self.passed(new, in_, n, m, j, o)
        }
    }

    /// Such a call may fail.
    pub open spec fn call_refused(
        self,
        in_: Option<Seq<Seq<u8>>>,
        n: int,
        m: int,
        out: Option<Seq<Seq<u8>>>,
    ) -> bool {
        ||| out matches Some(p) && !convert::enough(self.out, p, m)
        ||| if self.drop_output > 0 {
            self.skip_refused(in_, n, m)
        } else {
            self.refused(in_, n, m)
        }
    }

    /// Runs `in_count` samples from the byte planes `in_` through the context and
    /// puts up to `out_count` outputs into the byte planes `out`. Packed samples
    /// are in one plane, planar ones in one for each channel. Without `in_` the
    /// input has ended. Returns the number of outputs.
    #[verifier::rlimit(100)]
    pub fn convert(
        &mut self,
        out: Option<&mut Vec<Vec<u8>>>,
        out_count: usize,
        in_: Option<&[&[u8]]>,
        in_count: usize,
    ) -> (res: Result<usize, Error>)
        requires
            old(self).wf(),
            out_count <= i32::MAX,
            in_ is None ==> in_count == 0,
            old(self).in_.ch_count * in_count * old(self).in_.bps <= usize::MAX,
            old(self).out.ch_count * out_count * old(self).out.bps <= usize::MAX,
        ensures
            final(self).wf(),
            final(self).same_setup(*old(self)),
            final(self).spec_is_initialized() == old(self).spec_is_initialized(),
            !old(self).spec_is_initialized() ==> {
                &&& *final(self) == *old(self)
                &&& res matches Err(e) && e.is_invalid("Context has not been initialized"@)
            },
            res is Err && old(self).spec_is_initialized() ==> old(self).call_refused(
                convert::input_view(in_),
                in_count as int,
                if out is Some {
                    out_count as int
                } else {
                    0
                },
                output_view(out),
            ),
            res matches Ok(n) ==> match out {
                Some(p) => {
                    &&& n <= out_count
                    &&& old(self).called(
                        *final(self),
                        convert::input_view(in_),
                        in_count as int,
                        out_count as int,
                        true,
                        n as int,
                        convert::samples_of(old(self).out, convert::vec_views(final(p)@), n as nat),
                    )
                    &&& planes_kept(
                        old(self).out,
                        n as int,
                        convert::vec_views(p@),
                        convert::vec_views(final(p)@),
                    )
                },
                None => {
                    &&& n == 0
                    &&& old(self).called(
                        *final(self),
                        convert::input_view(in_),
                        in_count as int,
                        0,
                        false,
                        0,
                        audio::planes_zero(old(self).out.ch_count as nat, 0),
                    )
                },
            },
            old(self).spec_is_initialized() && old(self).resample is None && old(self).drop_output <= 0
                ==> old(self).straight_result(
                convert::input_view(in_),
                in_count as int,
                if out is Some {
                    out_count as int
                } else {
                    0
                },
                output_view(out),
                *final(self),
                res,
            ),
            old(self).spec_is_initialized() && old(self).resample is Some && old(self).drop_output <= 0
                ==> old(self).rated_result(
                convert::input_view(in_),
                in_count as int,
                if out is Some {
                    out_count as int
                } else {
                    0
                },
                output_view(out),
                *final(self),
                res,
            ),
            old(self).spec_is_initialized() && old(self).drop_output > 0 ==> (res matches Err(e)
                ==> old(self).drop_failed(
                convert::input_view(in_),
                in_count as int,
                if out is Some {
                    out_count as int
                } else {
                    0
                },
                output_view(out),
                *final(self),
                e,
            )),
            res is Err ==> (out matches Some(p) ==> final(p)@ == p@),
    {
        if !self.is_initialized() {
            return Err(invalid("Context has not been initialized"));
        }
        let ghost c0 = *self;
        let ghost iv = convert::input_view(in_);
        let mut left: usize = in_count;
        if self.drop_output > 0 {
            let wants: bool = out.is_some();
            match self.skip(
                in_,
                in_count,
                wants,
                Ghost(
                    if out is Some {
                        out_count as int
                    } else {
                        0
                    },
                ),
            ) {
                Ok(on) => {
                    if !on {
                        proof {
                            if let Some(p) = out {
                                lemma_no_samples(c0.out, convert::vec_views(p@));
                            }
                        }
                        return Ok(0);
                    }
                },
                Err(e) => {
                    return Err(e);
                },
            }
            left = 0;
            proof {
                lemma_between(c0, *self, iv, in_count as int, c0.drop_output as int);
                lemma_underway_facts(c0, *self, iv, in_count as int, c0.drop_output as int);
                assert(c0.in_.ch_count * 0 * c0.in_.bps == 0) by (nonlinear_arith);
            }
        }
        let ghost c = *self;
        match out {
            Some(planes) => {
                match self.deliver(planes, out_count, in_, left) {
                    Ok(n) => {
                        proof {
                            lemma_called(
                                c0,
                                c,
                                *self,
                                iv,
                                in_count as nat,
                                left as nat,
                                out_count as int,
                                true,
                                n as int,
                                convert::samples_of(
                                    c0.out,
                                    convert::vec_views(planes@),
                                    n as nat,
                                ),
                            );
                        }
                        Ok(n)
                    },
                    Err(e) => {
                        proof {
                            if c.unsure(iv, left as int, out_count as int) {
                                lemma_call_allowed(
                                    c0,
                                    c,
                                    iv,
                                    in_count as nat,
                                    left as nat,
                                    out_count as int,
                                );
                            }
                        }
                        Err(e)
                    },
                }
            },
            None => {
                match self.swallow(in_, left) {
                    Ok(n) => {
                        proof {
                            lemma_called(
                                c0,
                                c,
                                *self,
                                iv,
                                in_count as nat,
                                left as nat,
                                0,
                                false,
                                0,
                                audio::planes_zero(c0.out.ch_count as nat, 0),
                            );
                        }
                        Ok(n)
                    },
                    Err(e) => {
                        proof {
                            lemma_call_allowed(c0, c, iv, in_count as nat, left as nat, 0);
                        }
                        Err(e)
                    },
                }
            },
        }
    }

    /// When a call without a resampler succeeds, and why it fails otherwise and what
    /// it leaves of the context.
    #[verifier::opaque]
    pub open spec fn straight_result(
        self,
        in_: Option<Seq<Seq<u8>>>,
        n: int,
        m: int,
        out: Option<Seq<Seq<u8>>>,
        new: SwrContext,
        res: Result<usize, Error>,
    ) -> bool {
        let roomy = out matches Some(p) ==> convert::enough(self.out, p, self.fifo_count(n, m));
        &&& res.is_ok() == (self.supplied(in_, n) && self.fifo_ok(n, m) && roomy)
        &&& res matches Err(e) ==> if !self.supplied(in_, n) {
            e == Error::BufferTooSmall && new == self
        } else if !self.fifo_ok(n, m) {
            self.fifo_error(n, m, e) && self.fifo_failed(new, m)
        } else {
            &&& e == Error::BufferTooSmall
            &&& exists|o: Planes| #[trigger]
                self.passed(new, in_, n, m, self.fifo_count(n, m), o)
        }
    }

    /// When a call with a resampler succeeds, why it fails otherwise, and what it
    /// leaves of the context: the planes have to hold the outputs that come, which
    /// are lost otherwise.
    #[verifier::opaque]
    pub open spec fn rated_result(
        self,
        in_: Option<Seq<Seq<u8>>>,
        n: int,
        m: int,
        out: Option<Seq<Seq<u8>>>,
        new: SwrContext,
        res: Result<usize, Error>,
    ) -> bool {
        exists|body: Result<usize, Error>|
            {
                &&& #[trigger] self.body_outcome(new, in_, n, m, body)
                &&& res == match body {
                    Ok(k) => if out is Some && !convert::enough(self.out, out->0, k as int) {
                        Err(Error::BufferTooSmall)
                    } else {
                        Ok(k)
                    },
                    Err(e) => Err(e),
                }
            }
    }

    /// What comes of a call that has nothing to drop.
    pub open spec fn delivered(
        self,
        in_: Option<Seq<Seq<u8>>>,
        n: int,
        m: int,
        out: Option<Seq<Seq<u8>>>,
        new: SwrContext,
        res: Result<usize, Error>,
    ) -> bool {
        match self.resample {
            None => self.straight_result(in_, n, m, out, new, res),
            Some(_) => self.rated_result(in_, n, m, out, new, res),
        }
    }

    /// A request for `m` outputs with `n` input samples fails.
    #[verifier::opaque]
    pub open spec fn step_failed(
        self,
        in_: Option<Seq<Seq<u8>>>,
        n: int,
        m: int,
        new: SwrContext,
        e: Error,
    ) -> bool {
        match self.resample {
            None => if self.supplied(in_, n) {
                !self.fifo_ok(n, m) && self.fifo_error(n, m, e) && self.fifo_failed(new, m)
            } else {
                e == Error::BufferTooSmall && new == self
            },
            Some(_) => self.body_outcome(new, in_, n, m, Err(e)),
        }
    }

    /// The context between two steps of a call that drops output first.
    pub open spec fn between(self, c: SwrContext, in_: Option<Seq<Seq<u8>>>, n: int) -> bool {
        &&& 0 <= c.drop_output < self.drop_output
        &&& c.same_setup(self)
        &&& self.skipping(c, in_, n, self.drop_output - c.drop_output)
    }

    /// A call fails.
    pub open spec fn call_failed(
        self,
        in_: Option<Seq<Seq<u8>>>,
        n: int,
        m: int,
        out: Option<Seq<Seq<u8>>>,
        new: SwrContext,
        e: Error,
    ) -> bool {
        if self.drop_output > 0 {
            self.drop_failed(in_, n, m, out, new, e)
        } else {
            self.delivered(in_, n, m, out, new, Err(e))
        }
    }

    /// A call that drops output first fails at one of its steps, or at the output
    /// behind.
    pub open spec fn drop_failed(
        self,
        in_: Option<Seq<Seq<u8>>>,
        n: int,
        m: int,
        out: Option<Seq<Seq<u8>>>,
        new: SwrContext,
        e: Error,
    ) -> bool {
        ||| self.step_failed(in_, n, drop_step(self.drop_output as int), new, e)
        ||| exists|c: SwrContext| #[trigger]
            self.between(c, in_, n) && if c.drop_output > 0 {
                c.step_failed(in_, 0, drop_step(c.drop_output as int), new, e)
            } else {
                c.delivered(in_, 0, m, out, new, Err(e))
            }
    }

    #[verifier::opaque]
    spec fn gave(
        self,
        new: SwrContext,
        in_: Option<Seq<Seq<u8>>>,
        n: int,
        m: int,
        k: int,
        o: Planes,
    ) -> bool {
        self.passed(new, in_, n, m, k, o)
    }

    /// Runs samples through the context into byte planes.
    fn deliver(
        &mut self,
        planes: &mut Vec<Vec<u8>>,
        out_count: usize,
        in_: Option<&[&[u8]]>,
        in_count: usize,
    ) -> (res: Result<usize, Error>)
        requires
            old(self).live(),
            out_count <= i32::MAX,
            in_ is None ==> in_count == 0,
            old(self).in_.ch_count * in_count * old(self).in_.bps <= usize::MAX,
            old(self).out.ch_count * out_count * old(self).out.bps <= usize::MAX,
        ensures
            final(self).live(),
            final(self).same_setup(*old(self)),
            res matches Ok(n) ==> {
                &&& n <= out_count
                &&& old(self).gave(
                    *final(self),
                    convert::input_view(in_),
                    in_count as int,
                    out_count as int,
                    n as int,
                    convert::samples_of(
                        old(self).out,
                        convert::vec_views(final(planes)@),
                        n as nat,
                    ),
                )
                &&& planes_kept(
                    old(self).out,
                    n as int,
                    convert::vec_views(old(planes)@),
                    convert::vec_views(final(planes)@),
                )
            },
            old(self).resample is None ==> old(self).straight_result(
                convert::input_view(in_),
                in_count as int,
                out_count as int,
                Some(convert::vec_views(old(planes)@)),
                *final(self),
                res,
            ),
            old(self).resample is Some ==> old(self).rated_result(
                convert::input_view(in_),
                in_count as int,
                out_count as int,
                Some(convert::vec_views(old(planes)@)),
                *final(self),
                res,
            ),
            res is Err ==> {
                &&& final(planes)@ == old(planes)@
                &&& old(self).unsure(convert::input_view(in_), in_count as int, out_count as int)
                    || !convert::enough(
                    old(self).out,
                    convert::vec_views(old(planes)@),
                    out_count as int,
                )
            },
    {
        let ghost c0 = *self;
        proof {
            reveal(SwrContext::gave);
            reveal(SwrContext::unsure);
            reveal(SwrContext::straight_result);
            reveal(SwrContext::rated_result);
        }
        let mut buf: AudioData = scratch_like(&self.out, out_count);
        let ret: usize = match self.convert_body(&mut buf, out_count, in_, in_count) {
            Ok(n) => n,
            Err(e) => {
                proof {
                    if c0.resample is Some {
                        assert(c0.body_outcome(
                            *self,
                            convert::input_view(in_),
                            in_count as int,
                            out_count as int,
                            Err(e),
                        ));
                    }
                }
                return Err(e);
            },
        };
        proof {
            if c0.resample is Some {
                assert(c0.body_outcome(
                    *self,
                    convert::input_view(in_),
                    in_count as int,
                    out_count as int,
                    Ok(ret),
                ));
            }
        }
        let ghost before = planes@;
        match put_planes(&buf, ret, planes) {
            Ok(_) => {
                proof {
                    lemma_same_samples(buf, c0.out, convert::vec_views(planes@), ret as nat);
                }
                Ok(ret)
            },
            Err(e) => {
                proof {
                    lemma_enough_less(
                        buf,
                        c0.out,
                        convert::vec_views(before),
                        ret as int,
                        out_count as int,
                    );
                }
                Err(e)
            },
        }
    }

    /// Runs samples into the context without asking for output.
    fn swallow(&mut self, in_: Option<&[&[u8]]>, in_count: usize) -> (res: Result<usize, Error>)
        requires
            old(self).live(),
            in_ is None ==> in_count == 0,
            old(self).in_.ch_count * in_count * old(self).in_.bps <= usize::MAX,
        ensures
            final(self).live(),
            final(self).same_setup(*old(self)),
            res matches Ok(n) ==> n == 0 && old(self).gave(
                *final(self),
                convert::input_view(in_),
                in_count as int,
                0,
                0,
                audio::planes_zero(old(self).out.ch_count as nat, 0),
            ),
            old(self).resample is None ==> old(self).straight_result(
                convert::input_view(in_),
                in_count as int,
                0,
                None,
                *final(self),
                res,
            ),
            old(self).resample is Some ==> old(self).rated_result(
                convert::input_view(in_),
                in_count as int,
                0,
                None,
                *final(self),
                res,
            ),
            res is Err ==> old(self).unsure(convert::input_view(in_), in_count as int, 0),
    {
        let ghost c0 = *self;
        proof {
            reveal(SwrContext::gave);
            reveal(SwrContext::unsure);
            reveal(SwrContext::straight_result);
            reveal(SwrContext::rated_result);
            assert(self.out.ch_count * 0 * self.out.bps == 0) by (nonlinear_arith);
        }
        let mut buf: AudioData = scratch_like(&self.out, 0);
        let res: Result<usize, Error> = self.convert_body(&mut buf, 0, in_, in_count);
        proof {
            let o = audio::planes_first(buf.chans(), 0);
            let z = audio::planes_zero(c0.out.ch_count as nat, 0);
            assert forall|k: int| 0 <= k < c0.out.ch_count implies o[k] == #[trigger] z[k] by {
                assert(o[k] =~= z[k]);
            }
            assert(o =~= z);
        }
        res
    }
}

/// The last part of a call, seen from its start.
proof fn lemma_called(
    c0: SwrContext,
    c: SwrContext,
    c1: SwrContext,
    in_: Option<Seq<Seq<u8>>>,
    n: nat,
    left: nat,
    m: int,
    wants: bool,
    j: int,
    o: Planes,
)
    requires
        c0.live(),
        in_ is None ==> n == 0,
        c0.drop_output > 0 ==> {
            &&& wants
            &&& left == 0
            &&& c.drop_output == 0
            &&& c0.underway(c, in_, n as int, c0.drop_output as int)
        },
        c0.drop_output <= 0 ==> c == c0 && left == n,
        c1.same_setup(c),
        c.gave(c1, in_, left as int, m, j, o),
        0 <= j <= m,
    ensures
        c0.called(c1, in_, n as int, m, wants, j, o),
{
    reveal(SwrContext::gave);
    if c0.drop_output > 0 {
        lemma_last_step(c0, c, c1, in_, n, c0.drop_output as int, m, j, o);
    }
}

proof fn lemma_no_samples(a: AudioData, planes: Seq<Seq<u8>>)
    ensures
        convert::samples_of(a, planes, 0) == audio::planes_zero(a.ch_count as nat, 0),
{
    let x = convert::samples_of(a, planes, 0);
    let y = audio::planes_zero(a.ch_count as nat, 0);
    assert forall|c: int| 0 <= c < a.ch_count implies x[c] == #[trigger] y[c] by {
        assert(x[c] =~= y[c]);
    }
    assert(x =~= y);
}

/// Samples in byte planes depend on the shape of the buffer only.
proof fn lemma_same_samples(a: AudioData, b: AudioData, planes: Seq<Seq<u8>>, n: nat)
    requires
        a.same_shape(b),
    ensures
        convert::samples_of(a, planes, n) == convert::samples_of(b, planes, n),
        convert::planes_needed(a) == convert::planes_needed(b),
        convert::bytes_needed(a, n as int) == convert::bytes_needed(b, n as int),
{
    let x = convert::samples_of(a, planes, n);
    let y = convert::samples_of(b, planes, n);
    assert forall|c: int| 0 <= c < a.ch_count implies x[c] == #[trigger] y[c] by {
        assert forall|i: int| 0 <= i < n implies x[c][i] == #[trigger] y[c][i] by {
            assert(convert::byte_of(a, c, i) == convert::byte_of(b, c, i));
        }
        assert(x[c] =~= y[c]);
    }
    assert(x =~= y);
}

proof fn lemma_enough_less(a: AudioData, b: AudioData, planes: Seq<Seq<u8>>, n: int, m: int)
    requires
        a.same_shape(b),
        0 <= n <= m,
        !convert::enough(a, planes, n),
    ensures
        !convert::enough(b, planes, m),
{
    assert(convert::bytes_needed(a, n) <= convert::bytes_needed(b, m)) by {
        let p = a.bps as int;
        let q = a.ch_count as int;
        assert(n * p <= m * p) by (nonlinear_arith)
            requires
                n <= m,
                p >= 0,
        ;
        assert(n * q * p <= m * q * p) by (nonlinear_arith)
            requires
                n <= m,
                p >= 0,
                q >= 0,
        ;
    }
}

proof fn lemma_call_allowed(
    c0: SwrContext,
    c: SwrContext,
    in_: Option<Seq<Seq<u8>>>,
    n: nat,
    left: nat,
    m: int,
)
    requires
        c0.live(),
        0 <= m,
        in_ is None ==> n == 0,
        c0.drop_output > 0 ==> left == 0 && c0.underway(c, in_, n as int, c0.drop_output as int),
        c0.drop_output <= 0 ==> c == c0 && left == n,
        c.unsure(in_, left as int, m),
    ensures
        if c0.drop_output > 0 {
            c0.skip_refused(in_, n as int, m)
        } else {
            c0.refused(in_, n as int, m)
        },
{
    reveal(SwrContext::unsure);
    if c0.drop_output > 0 && !c0.skip_refused(in_, n as int, m) {
        lemma_next_allowed(c0, c, in_, n, m, c0.drop_output as int, m);
    }
}

// --- silence and dropping on demand -----------------------------------------------------

/// The byte that silence is made of.
pub open spec fn silent_byte(fmt: SampleFormat) -> u8 {
    if fmt == SampleFormat::Dsd {
        0x69
    } else if fmt.spec_bytes() == 1 {
        0x80
    } else {
        0
    }
}

/// Byte planes with `n` samples of silence.
pub open spec fn silence_planes(a: AudioData, n: int) -> Seq<Seq<u8>> {
    Seq::new(
        convert::planes_needed(a) as nat,
        |k: int|
            Seq::new(convert::bytes_needed(a, n) as nat, |j: int| silent_byte(a.fmt)),
    )
}

/// Byte planes without samples.
pub open spec fn no_planes(a: AudioData) -> Seq<Seq<u8>> {
    Seq::new(a.ch_count as nat, |k: int| Seq::<u8>::empty())
}

impl SwrContext {
    /// A call without output, with `n` samples from the byte planes `b`.
    pub open spec fn swallowed(self, new: SwrContext, b: Seq<Seq<u8>>, n: int) -> bool {
        self.called(
            new,
            Some(b),
            n,
            0,
            false,
            0,
            audio::planes_zero(self.out.ch_count as nat, 0),
        )
    }

    /// `n` samples of silence, in steps, have made `new` of the context.
    pub open spec fn injected(self, new: SwrContext, n: int) -> bool
        decreases n,
    {
        if n <= MAX_SILENCE_STEP {
            self.swallowed(new, silence_planes(self.in_, n), n)
        } else {
            exists|mid: SwrContext|
                {
                    &&& #[trigger] self.swallowed(
                        mid,
                        silence_planes(self.in_, MAX_SILENCE_STEP as int),
                        MAX_SILENCE_STEP as int,
                    )
                    &&& mid.same_setup(self)
                    &&& mid.injected(new, n - MAX_SILENCE_STEP)
                }
        }
    }

    /// One of the steps may fail.
    pub open spec fn inject_refused(self, n: int) -> bool
        decreases n,
    {
        if n <= MAX_SILENCE_STEP {
            self.call_refused(Some(silence_planes(self.in_, n)), n, 0, None)
        } else {
            ||| self.call_refused(
                Some(silence_planes(self.in_, MAX_SILENCE_STEP as int)),
                MAX_SILENCE_STEP as int,
                0,
                None,
            )
            ||| exists|mid: SwrContext|
                {
                    &&& #[trigger] self.swallowed(
                        mid,
                        silence_planes(self.in_, MAX_SILENCE_STEP as int),
                        MAX_SILENCE_STEP as int,
                    )
                    &&& mid.same_setup(self)
                    &&& mid.inject_refused(n - MAX_SILENCE_STEP)
                }
        }
    }

    /// One of the steps fails.
    pub open spec fn inject_failed(self, new: SwrContext, n: int, e: Error) -> bool
        decreases n,
    {
        if n <= MAX_SILENCE_STEP {
            self.call_failed(Some(silence_planes(self.in_, n)), n, 0, None, new, e)
        } else {
            ||| self.call_failed(
                Some(silence_planes(self.in_, MAX_SILENCE_STEP as int)),
                MAX_SILENCE_STEP as int,
                0,
                None,
                new,
                e,
            )
            ||| exists|mid: SwrContext|
                {
                    &&& #[trigger] self.swallowed(
                        mid,
                        silence_planes(self.in_, MAX_SILENCE_STEP as int),
                        MAX_SILENCE_STEP as int,
                    )
                    &&& mid.same_setup(self)
                    &&& mid.inject_failed(new, n - MAX_SILENCE_STEP, e)
                }
        }
    }

    /// One step of [`SwrContext::inject_silence`].
    fn inject_step(&mut self, count: usize) -> (res: Result<usize, Error>)
        requires
            old(self).wf(),
            old(self).spec_is_initialized(),
            0 < count <= MAX_SILENCE_STEP,
        ensures
            final(self).wf(),
            final(self).same_setup(*old(self)),
            final(self).spec_is_initialized(),
            res matches Ok(n) ==> n == 0 && old(self).swallowed(
                *final(self),
                silence_planes(old(self).in_, count as int),
                count as int,
            ),
            res is Err ==> old(self).call_refused(
                Some(silence_planes(old(self).in_, count as int)),
                count as int,
                0,
                None,
            ),
            res matches Err(e) ==> old(self).call_failed(
                Some(silence_planes(old(self).in_, count as int)),
                count as int,
                0,
                None,
                *final(self),
                e,
            ),
    {
        let need: usize = {
            proof {
                let a = self.in_;
                assert(0 <= count * a.ch_count <= 0x4000 * 64) by (nonlinear_arith)
                    requires
                        0 < count <= 0x4000,
                        1 <= a.ch_count <= 64,
                ;
                assert(0 <= count * a.bps <= 0x4000 * 8) by (nonlinear_arith)
                    requires
                        0 < count <= 0x4000,
                        1 <= a.bps <= 8,
                ;
                assert(0 <= count * a.ch_count * a.bps <= 0x4000 * 64 * 8) by (nonlinear_arith)
                    requires
                        0 <= count * a.ch_count <= 0x4000 * 64,
                        1 <= a.bps <= 8,
                ;
                assert(a.ch_count * count * a.bps == count * a.ch_count * a.bps)
                    by (nonlinear_arith);
                assert(self.out.ch_count * 0 * self.out.bps == 0) by (nonlinear_arith);
            }
            if self.in_.planar {
                count * self.in_.bps
            } else {
                count * self.in_.ch_count * self.in_.bps
            }
        };
        let fill: u8 = if self.in_.fmt == SampleFormat::Dsd {
            0x69
        } else if self.in_.bps == 1 {
            0x80
        } else {
            0
        };
        let plane: Vec<u8> = vec![fill; need];
        let m: usize = if self.in_.planar {
            self.in_.ch_count
        } else {
            1
        };
        let mut planes: Vec<&[u8]> = Vec::new();
        let mut i: usize = 0;
        while i < m
            invariant
                i <= m,
                planes@.len() == i,
                forall|k: int| 0 <= k < i ==> (#[trigger] planes@[k])@ == plane@,
            decreases m - i,
        {
            planes.push(plane.as_slice());
            i = i + 1;
        }
        proof {
            let got = convert::slice_views(planes@);
            let want = silence_planes(self.in_, count as int);
            assert forall|k: int| 0 <= k < m implies got[k] == #[trigger] want[k] by {
                assert(planes@[k]@ == plane@);
                assert(got[k] =~= want[k]);
            }
            assert(got =~= want);
        }
        self.convert(None, 0, Some(planes.as_slice()), count)
    }

    /// Injects `count` samples of silence behind the input so far.
    pub fn inject_silence(&mut self, count: i32) -> (res: Result<usize, Error>)
        requires
            old(self).wf(),
        ensures
            final(self).wf(),
            final(self).same_setup(*old(self)),
            count <= 0 ==> *final(self) == *old(self) && (res matches Ok(n) && n == 0),
            count > 0 && !old(self).spec_is_initialized() ==> {
                &&& *final(self) == *old(self)
                &&& res matches Err(e) && e.is_invalid("Context has not been initialized"@)
            },
            count > 0 ==> (res matches Ok(n) ==> n == 0 && old(self).injected(
                *final(self),
                count as int,
            )),
            count > 0 && old(self).spec_is_initialized() && res is Err ==> old(self).inject_refused(
                count as int,
            ),
            count > 0 && old(self).spec_is_initialized() ==> (res matches Err(e) ==> old(
                self,
            ).inject_failed(*final(self), count as int, e)),
        decreases count,
    {
        if count <= 0 {
            return Ok(0);
        }
        if !self.is_initialized() {
            return Err(invalid("Context has not been initialized"));
        }
        if count <= MAX_SILENCE_STEP {
            return self.inject_step(count as usize);
        }
        let ghost c0 = *self;
        match self.inject_step(MAX_SILENCE_STEP as usize) {
            Ok(_) => {},
            Err(e) => {
                return Err(e);
            },
        }
        let ghost c1 = *self;
        let res: Result<usize, Error> = self.inject_silence(count - MAX_SILENCE_STEP);
        proof {
            assert(c0.swallowed(
                c1,
                silence_planes(c0.in_, MAX_SILENCE_STEP as int),
                MAX_SILENCE_STEP as int,
            ));
            assert(c1.same_setup(c0));
            if res is Ok {
                assert(c1.injected(*self, count - MAX_SILENCE_STEP));
            } else {
                assert(c1.inject_refused(count - MAX_SILENCE_STEP));
                assert(c1.inject_failed(*self, count - MAX_SILENCE_STEP, res->Err_0));
            }
        }
        res
    }

    /// Asks for `count` more outputs to be dropped, and drops what there is.
    pub fn drop_output(&mut self, count: i32) -> (res: Result<usize, Error>)
        requires
            old(self).wf(),
            i32::MIN <= old(self).drop_output + count <= i32::MAX,
        ensures
            final(self).wf(),
            ({
                let c = SwrContext {
                    drop_output: (old(self).drop_output + count) as i32,
                    ..*old(self)
                };
                &&& final(self).same_setup(*old(self))
                &&& c.drop_output <= 0 ==> *final(self) == c && (res matches Ok(n) && n == 0)
                &&& c.drop_output > 0 && !c.spec_is_initialized() ==> {
                    &&& *final(self) == c
                    &&& res matches Err(e) && e.is_invalid("Context has not been initialized"@)
                }
                &&& c.drop_output > 0 ==> (res matches Ok(n) ==> n == 0 && c.swallowed(
                    *final(self),
                    no_planes(c.in_),
                    0,
                ))
                &&& c.drop_output > 0 && c.spec_is_initialized() && res is Err ==> c.call_refused(
                    Some(no_planes(c.in_)),
                    0,
                    0,
                    None,
                )
                &&& c.drop_output > 0 && c.spec_is_initialized() ==> (res matches Err(e)
                    ==> c.call_failed(Some(no_planes(c.in_)), 0, 0, None, *final(self), e))
                &&& c.drop_output > 0 && c.spec_is_initialized() && c.resample is None
                    && c.in_buffer_count == 0 ==> {
                    &&& res matches Ok(n) && n == 0
                    &&& final(self).drop_output == c.drop_output
                    &&& final(self).in_buffer_count == 0
                }
            }),
    {
        self.drop_output = self.drop_output + count;
        if self.drop_output <= 0 {
            return Ok(0);
        }
        let none: Vec<u8> = Vec::new();
        let mut planes: Vec<&[u8]> = Vec::new();
        let m: usize = self.in_.ch_count;
        let mut i: usize = 0;
        while i < m
            invariant
                i <= m,
                none@.len() == 0,
                planes@.len() == i,
                forall|k: int| 0 <= k < i ==> (#[trigger] planes@[k])@ == none@,
            decreases m - i,
        {
            planes.push(none.as_slice());
            i = i + 1;
        }
        proof {
            let got = convert::slice_views(planes@);
            let want = no_planes(self.in_);
            assert forall|k: int| 0 <= k < m implies got[k] == #[trigger] want[k] by {
                assert(planes@[k]@ == none@);
                assert(got[k] =~= want[k]);
            }
            assert(got =~= want);
            assert(self.in_.ch_count * 0 * self.in_.bps == 0) by (nonlinear_arith);
            assert(self.out.ch_count * 0 * self.out.bps == 0) by (nonlinear_arith);
        }
        let ghost c = *self;
        let res: Result<usize, Error> = self.convert(None, 0, Some(planes.as_slice()), 0);
        proof {
            if c.spec_is_initialized() && c.resample is None && c.in_buffer_count == 0 {
                lemma_nothing_to_drop(c, *self);
            }
        }
        res
    }
}

/// Where nothing is held there is nothing to drop, and nothing to fail.
proof fn lemma_nothing_to_drop(c: SwrContext, new: SwrContext)
    requires
        c.live(),
        c.resample is None,
        c.in_buffer_count == 0,
        c.drop_output > 0,
    ensures
        !c.call_refused(Some(no_planes(c.in_)), 0, 0, None),
        c.swallowed(new, no_planes(c.in_), 0) ==> new.drop_output == c.drop_output
            && new.in_buffer_count == 0,
{
    reveal(SwrContext::skip_refused);
    reveal(SwrContext::skipped);
    let a = c.in_;
    assert(convert::bytes_needed(a, 0) == 0) by (nonlinear_arith)
        requires
            convert::bytes_needed(a, 0) == 0 * a.bps || convert::bytes_needed(a, 0) == 0 * a.ch_count
                * a.bps,
    ;
    assert forall|k: int| 0 <= k < convert::planes_needed(a) implies (#[trigger] no_planes(
        a,
    )[k]).len() >= convert::bytes_needed(a, 0) by {}
    assert(convert::enough(a, no_planes(a), 0));
}

} // verus!
