//! The order of samples over several calls.
use crate::audio;
use crate::audio::Planes;
use crate::convert;
use crate::swr::SwrContext;
use vstd::prelude::*;

verus! {

/// Planes with `ch` channels of `n` samples.
pub open spec fn sized(p: Planes, ch: int, n: int) -> bool {
    p.len() == ch && forall|c: int| 0 <= c < ch ==> (#[trigger] p[c]).len() == n
}

proof fn lemma_window_of_join(a: Planes, b: Planes, ch: int, la: int, lb: int, off: int)
    requires
        sized(a, ch, la),
        sized(b, ch, lb),
        0 <= off <= la,
    ensures
        audio::planes_join(audio::planes_window(a, off, la - off), b) == audio::planes_window(
            audio::planes_join(a, b),
            off,
            la - off + lb,
        ),
{
    let x = audio::planes_join(audio::planes_window(a, off, la - off), b);
    let y = audio::planes_window(audio::planes_join(a, b), off, la - off + lb);
    assert forall|c: int| 0 <= c < ch implies #[trigger] x[c] == y[c] by {
        assert(a[c].len() == la);
        assert(b[c].len() == lb);
        assert(x[c] =~= y[c]);
    }
    assert(x =~= y);
}

proof fn lemma_window_of_window(p: Planes, ch: int, len: int, a: int, n: int, b: int, m: int)
    requires
        sized(p, ch, len),
        0 <= a,
        a + n <= len,
        0 <= b,
        0 <= m,
        b + m <= n,
    ensures
        audio::planes_window(audio::planes_window(p, a, n), b, m) == audio::planes_window(
            p,
            a + b,
            m,
        ),
{
    let x = audio::planes_window(audio::planes_window(p, a, n), b, m);
    let y = audio::planes_window(p, a + b, m);
    assert forall|c: int| 0 <= c < ch implies #[trigger] x[c] == y[c] by {
        assert(p[c].len() == len);
        assert(x[c] =~= y[c]);
    }
    assert(x =~= y);
}

proof fn lemma_joined_windows(p: Planes, ch: int, len: int, a: int, b: int)
    requires
        sized(p, ch, len),
        0 <= a,
        0 <= b,
        a + b <= len,
    ensures
        audio::planes_join(audio::planes_window(p, 0, a), audio::planes_window(p, a, b))
            == audio::planes_window(p, 0, a + b),
{
    let x = audio::planes_join(audio::planes_window(p, 0, a), audio::planes_window(p, a, b));
    let y = audio::planes_window(p, 0, a + b);
    assert forall|c: int| 0 <= c < ch implies #[trigger] x[c] == y[c] by {
        assert(p[c].len() == len);
        assert(x[c] =~= y[c]);
    }
    assert(x =~= y);
}

proof fn lemma_first_of_join(a: Planes, b: Planes, ch: int, la: int, lb: int, n: int)
    requires
        sized(a, ch, la),
        sized(b, ch, lb),
        0 <= n <= la,
    ensures
        audio::planes_first(a, n) == audio::planes_window(audio::planes_join(a, b), 0, n),
{
    let x = audio::planes_first(a, n);
    let y = audio::planes_window(audio::planes_join(a, b), 0, n);
    assert forall|c: int| 0 <= c < ch implies #[trigger] x[c] == y[c] by {
        assert(a[c].len() == la);
        assert(b[c].len() == lb);
        assert(x[c] =~= y[c]);
    }
    assert(x =~= y);
}

/// What goes into and comes out of a call without a resampler.
pub struct Call {
    /// The planes of input.
    pub in_: Option<Seq<Seq<u8>>>,
    /// Samples of input.
    pub n: int,
    /// Room for outputs.
    pub m: int,
    /// Outputs.
    pub k: int,
    pub o: Planes,
}

/// Samples that go into the first `i` calls.
pub open spec fn taken(calls: Seq<Call>, i: nat) -> int
    decreases i,
{
    if i == 0 {
        0
    } else {
        taken(calls, (i - 1) as nat) + calls[i - 1].n
    }
}

/// Outputs of the first `i` calls.
pub open spec fn given(calls: Seq<Call>, i: nat) -> int
    decreases i,
{
    if i == 0 {
        0
    } else {
        given(calls, (i - 1) as nat) + calls[i - 1].k
    }
}

impl SwrContext {
    /// The samples that come with a call.
    pub open spec fn arrivals(self, in_: Option<Seq<Seq<u8>>>, n: int) -> Planes {
        match in_ {
            Some(b) => convert::samples_of(self.in_, b, n as nat),
            None => Seq::new(self.in_.ch_count as nat, |c: int| Seq::empty()),
        }
    }

    /// An initialized context without a resampler.
    pub open spec fn queues(self) -> bool {
        self.wf() && self.spec_is_initialized() && self.resample is None
    }

    /// What is held, followed by the input of the first `i` calls.
    pub open spec fn stream(self, calls: Seq<Call>, i: nat) -> Planes
        decreases i,
    {
        if i == 0 {
            self.held()
        } else {
            audio::planes_join(
                self.stream(calls, (i - 1) as nat),
                self.arrivals(calls[i - 1].in_, calls[i - 1].n),
            )
        }
    }

    /// The outputs of the first `i` calls, one behind the other.
    pub open spec fn emitted(self, calls: Seq<Call>, i: nat) -> Planes
        decreases i,
    {
        if i == 0 {
            audio::planes_zero(self.out.ch_count as nat, 0)
        } else {
            audio::planes_join(self.emitted(calls, (i - 1) as nat), calls[i - 1].o)
        }
    }

    proof fn lemma_queued(self, in_: Option<Seq<Seq<u8>>>, n: int)
        requires
            self.queues(),
            0 <= n,
            in_ is None ==> n == 0,
        ensures
            sized(self.held(), self.in_.ch_count as int, self.in_buffer_count as int),
            sized(self.arrivals(in_, n), self.in_.ch_count as int, n),
            self.queued(in_, n) == audio::planes_join(self.held(), self.arrivals(in_, n)),
    {
        let ch = self.in_.ch_count as int;
        assert forall|c: int| 0 <= c < ch implies (#[trigger] self.held()[c]).len()
            == self.in_buffer_count by {
            assert(self.in_buffer.chans()[c].len() == self.in_buffer.count);
        }
        let q = audio::planes_join(self.held(), self.arrivals(in_, n));
        if in_ is None {
            assert forall|c: int| 0 <= c < ch implies #[trigger] q[c] == self.held()[c] by {
                assert(q[c] =~= self.held()[c]);
            }
            assert(q =~= self.held());
        }
    }

    /// Without a resampler and without outputs to drop, a call on an initialized
    /// context with room for `m` outputs gives as many as there are samples, up to
    /// `m`: the oldest, of those held and then of those that came. The others are
    /// held.
    pub proof fn lemma_oldest_first(
        self,
        new: SwrContext,
        in_: Option<Seq<Seq<u8>>>,
        n: int,
        m: int,
        k: int,
        o: Planes,
    )
        requires
            self.queues(),
            self.drop_output <= 0,
            0 <= n,
            0 <= m,
            in_ is None ==> n == 0,
            self.called(new, in_, n, m, true, k, o),
        ensures
            ({
                let all = audio::planes_join(self.held(), self.arrivals(in_, n));
                let total = self.in_buffer_count + n;
                &&& k == if m < total {
                    m
                } else {
                    total
                }
                &&& new.in_buffer_count == total - k
                &&& new.held() == audio::planes_window(all, k, total - k)
                &&& k > 0 ==> o == self.piped(audio::planes_first(all, k), k as nat)
            }),
    {
        self.lemma_queued(in_, n);
    }

    /// One call more: what is held moves along the stream.
    proof fn lemma_step(
        self,
        all: Planes,
        total: int,
        gone: int,
        s: SwrContext,
        t: SwrContext,
        c: Call,
    )
        requires
            s.queues(),
            s.same_setup(self),
            sized(all, self.in_.ch_count as int, total),
            0 <= gone <= total,
            s.in_buffer_count == total - gone,
            s.held() == audio::planes_window(all, gone, total - gone),
            0 <= c.n,
            0 <= c.m,
            c.in_ is None ==> c.n == 0,
            s.passed_fifo(t, c.in_, c.n, c.m, c.k, c.o),
        ensures
            ({
                let now = audio::planes_join(all, self.arrivals(c.in_, c.n));
                &&& 0 <= c.k <= total + c.n - gone
                &&& sized(now, self.in_.ch_count as int, total + c.n)
                &&& t.in_buffer_count == total + c.n - gone - c.k
                &&& t.held() == audio::planes_window(now, gone + c.k, total + c.n - gone - c.k)
                &&& c.k > 0 ==> c.o == self.piped(
                    audio::planes_window(now, gone, c.k),
                    c.k as nat,
                )
                &&& c.k > 0 ==> self.matched() && self.mapped() && self.mixes_well()
            }),
    {
        let ch = self.in_.ch_count as int;
        let a = self.arrivals(c.in_, c.n);
        let now = audio::planes_join(all, a);
        let len = total + c.n;
        s.lemma_queued(c.in_, c.n);
        assert(s.in_ == self.in_);
        assert(s.arrivals(c.in_, c.n) == a);
        assert forall|q: int| 0 <= q < ch implies (#[trigger] now[q]).len() == len by {
            assert(all[q].len() == total);
            assert(a[q].len() == c.n);
        }
        lemma_window_of_join(all, a, ch, total, c.n, gone);
        let queue = s.queued(c.in_, c.n);
        assert(queue == audio::planes_window(now, gone, len - gone));
        lemma_window_of_window(now, ch, len, gone, len - gone, c.k, len - gone - c.k);
        lemma_window_of_window(now, ch, len, gone, len - gone, 0, c.k);
        assert(audio::planes_first(queue, c.k) =~= audio::planes_window(queue, 0, c.k));
        assert(s.piped(audio::planes_first(queue, c.k), c.k as nat) == self.piped(
            audio::planes_first(queue, c.k),
            c.k as nat,
        ));
    }

    /// Samples leave a context without a resampler in the order in which they
    /// came, none lost and none twice, whatever the number and the sizes of the
    /// calls: these give the first outputs of what was held followed by all their
    /// input, and leave the rest.
    pub proof fn lemma_in_order(self, states: Seq<SwrContext>, calls: Seq<Call>, i: nat)
        requires
            self.queues(),
            states.len() == calls.len() + 1,
            states[0] == self,
            i <= calls.len(),
            forall|j: int|
                0 <= j < calls.len() ==> {
                    let c = #[trigger] calls[j];
                    &&& states[j].queues()
                    &&& states[j].same_setup(self)
                    &&& 0 <= c.n
                    &&& 0 <= c.m
                    &&& c.in_ is None ==> c.n == 0
                    &&& states[j].passed_fifo(states[j + 1], c.in_, c.n, c.m, c.k, c.o)
                    &&& sized(c.o, self.out.ch_count as int, c.k)
                },
        ensures
            ({
                let all = self.stream(calls, i);
                let total = self.in_buffer_count + taken(calls, i);
                let gone = given(calls, i);
                &&& 0 <= gone <= total
                &&& sized(all, self.in_.ch_count as int, total)
                &&& sized(self.emitted(calls, i), self.out.ch_count as int, gone)
                &&& gone > 0 ==> self.emitted(calls, i) == self.piped(
                    audio::planes_window(all, 0, gone),
                    gone as nat,
                )
                &&& states[i as int].in_buffer_count == total - gone
                &&& states[i as int].held() == audio::planes_window(all, gone, total - gone)
            }),
        decreases i,
    {
        let ch = self.in_.ch_count as int;
        let och = self.out.ch_count as int;
        if i == 0 {
            self.lemma_queued(None, 0);
            assert forall|c: int| 0 <= c < ch implies #[trigger] audio::planes_window(
                self.held(),
                0,
                self.in_buffer_count as int,
            )[c] == self.held()[c] by {
                assert(self.held()[c].len() == self.in_buffer_count);
            }
            assert(audio::planes_window(self.held(), 0, self.in_buffer_count as int)
                =~= self.held());
        } else {
            let p = (i - 1) as nat;
            let c = calls[i - 1];
            self.lemma_in_order(states, calls, p);
            let old_all = self.stream(calls, p);
            let old_total = self.in_buffer_count + taken(calls, p);
            let gone = given(calls, p);
            self.lemma_step(old_all, old_total, gone, states[i - 1], states[i as int], c);
            let all = self.stream(calls, i);
            let total = old_total + c.n;
            let before = self.emitted(calls, p);
            let after = self.emitted(calls, i);
            assert forall|q: int| 0 <= q < och implies (#[trigger] after[q]).len() == gone + c.k by {
                assert(before[q].len() == gone);
                assert(c.o[q].len() == c.k);
            }
            lemma_first_of_join(
                old_all,
                self.arrivals(c.in_, c.n),
                ch,
                old_total,
                c.n,
                gone,
            );
            assert(audio::planes_first(old_all, gone) =~= audio::planes_window(old_all, 0, gone));
            if c.k == 0 {
                assert forall|q: int| 0 <= q < och implies #[trigger] after[q] == before[q] by {
                    assert(c.o[q].len() == 0);
                    assert(after[q] =~= before[q]);
                }
                assert(after =~= before);
            } else if gone == 0 {
                assert forall|q: int| 0 <= q < och implies #[trigger] after[q] == c.o[q] by {
                    assert(before[q].len() == 0);
                    assert(after[q] =~= c.o[q]);
                }
                assert(after =~= c.o);
            } else {
                self.lemma_piece(all, total as nat, 0, gone as nat);
                self.lemma_piece(all, total as nat, gone, c.k as nat);
                self.lemma_piece(all, total as nat, 0, (gone + c.k) as nat);
                let big = self.piped(all, total as nat);
                assert(sized(big, och, total)) by {
                    assert forall|q: int| 0 <= q < och implies (#[trigger] big[q]).len()
                        == total by {
                        self.lemma_piped_shape(all, total as nat, q);
                    }
                    self.lemma_piped_shape(all, total as nat, 0);
                }
                lemma_joined_windows(big, och, total, gone, c.k);
            }
        }
    }
}

} // verus!
