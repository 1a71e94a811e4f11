//! Sample buffers: the memory layout of packed and planar audio, and the
//! buffer operations that every stage of the resampler is built from.
use crate::bytes;
use crate::error::{invalid, Error};
use crate::samplefmt::SampleFormat;
use vstd::arithmetic::div_mod::*;
use vstd::arithmetic::mul::*;
use vstd::arithmetic::power2::*;
use vstd::prelude::*;

verus! {

/// Largest number of channels.
pub const SWR_CH_MAX: usize = 64;

/// Half of the largest 32-bit signed integer: no buffer grows past it.
pub const MAX_BUFFER: usize = 1073741823;

/// A buffer of `count` samples for each of `ch_count` channels. In a planar
/// buffer the samples of a channel are contiguous; in a packed one the samples
/// of all channels at one instant are.
#[derive(Debug)]
pub struct AudioData {
    /// Backing bytes of all channels.
    pub data: Vec<u8>,
    /// Number of channels.
    pub ch_count: usize,
    /// Bytes per sample.
    pub bps: usize,
    /// Capacity in samples per channel.
    pub count: usize,
    /// Whether each channel has a plane of its own.
    pub planar: bool,
    /// Sample format.
    pub fmt: SampleFormat,
}

/// The samples of a buffer, channel by channel, as raw bit patterns.
pub type Planes = Seq<Seq<u64>>;

pub open spec fn planes_zero(ch: nat, n: nat) -> Planes {
    Seq::new(ch, |c: int| Seq::new(n, |i: int| 0u64))
}

/// Every channel without its first `off` samples.
pub open spec fn planes_from(p: Planes, off: int) -> Planes {
    Seq::new(p.len(), |c: int| p[c].subrange(off, p[c].len() as int))
}

/// The first `n` samples of every channel.
pub open spec fn planes_first(p: Planes, n: int) -> Planes {
    Seq::new(p.len(), |c: int| p[c].subrange(0, n))
}

/// The `n` samples of every channel from `off` on.
pub open spec fn planes_window(p: Planes, off: int, n: int) -> Planes {
    Seq::new(p.len(), |c: int| p[c].subrange(off, off + n))
}

/// The samples of `a` followed by those of `b`, channel by channel.
pub open spec fn planes_join(a: Planes, b: Planes) -> Planes {
    Seq::new(a.len(), |c: int| a[c] + b[c])
}

/// `d` with the first `n` samples of `s` written at `off`.
pub open spec fn planes_splice(d: Planes, off: int, s: Planes, n: int) -> Planes {
    Seq::new(
        d.len(),
        |c: int|
            Seq::new(
                d[c].len(),
                |i: int|
                    if off <= i < off + n {
                        s[c][i - off]
                    } else {
                        d[c][i]
                    },
            ),
    )
}

/// `p` with the `n` samples at `idx` moved to the front.
pub open spec fn planes_compact(p: Planes, idx: int, n: int) -> Planes {
    Seq::new(
        p.len(),
        |c: int|
            Seq::new(
                p[c].len(),
                |i: int|
                    if 0 <= i < n {
                        p[c][idx + i]
                    } else {
                        p[c][i]
                    },
            ),
    )
}

/// `p` extended with silence to `n` samples per channel.
pub open spec fn planes_grow(p: Planes, n: nat) -> Planes {
    Seq::new(
        p.len(),
        |c: int|
            Seq::new(
                n,
                |i: int|
                    if i < p[c].len() {
                        p[c][i]
                    } else {
                        0u64
                    },
            ),
    )
}

pub open spec fn planes_set(p: Planes, c: int, i: int, v: u64) -> Planes {
    p.update(c, p[c].update(i, v))
}

proof fn lemma_slot_inj(n: int, c: int, i: int, c2: int, i2: int)
    requires
        0 <= i < n,
        0 <= i2 < n,
        c * n + i == c2 * n + i2,
    ensures
        c == c2,
        i == i2,
{
    lemma_fundamental_div_mod_converse(c * n + i, n, c, i);
    lemma_fundamental_div_mod_converse(c2 * n + i2, n, c2, i2);
}

proof fn lemma_slot_bound(n: int, m: int, c: int, i: int)
    requires
        0 <= i < n,
        0 <= c < m,
    ensures
        0 <= c * n + i < m * n,
{
    assert(c * n + n <= m * n) by (nonlinear_arith)
        requires
            c + 1 <= m,
            0 <= n,
    ;
    assert(0 <= c * n) by (nonlinear_arith)
        requires
            0 <= c,
            0 <= n,
    ;
}

proof fn lemma_windows_apart(a: int, b: int, w: int)
    requires
        a != b,
        w >= 0,
    ensures
        a * w + w <= b * w || b * w + w <= a * w,
{
    assert(a < b ==> a * w + w <= b * w) by (nonlinear_arith)
        requires
            w >= 0,
    ;
    assert(b < a ==> b * w + w <= a * w) by (nonlinear_arith)
        requires
            w >= 0,
    ;
}

impl AudioData {
    /// Number of the sample `i` of channel `ch` in memory order.
    pub open spec fn slot(self, ch: int, i: int) -> int {
        if self.planar {
            ch * self.count + i
        } else {
            i * self.ch_count + ch
        }
    }

    /// The bit pattern of sample `i` of channel `ch`.
    pub open spec fn raw(self, ch: int, i: int) -> u64 {
        bytes::le_value(self.data@, self.slot(ch, i) * self.bps, self.bps as nat) as u64
    }

    /// The backing bytes are exactly those of the samples.
    pub open spec fn wf(self) -> bool {
        &&& 1 <= self.bps <= 8
        &&& self.data@.len() == self.ch_count * self.count * self.bps
    }

    /// The buffer is well formed and its sample width is that of its format.
    pub open spec fn typed(self) -> bool {
        self.wf() && self.bps == self.fmt.spec_bytes()
    }

    /// The samples, channel by channel.
    pub open spec fn chans(self) -> Planes {
        Seq::new(
            self.ch_count as nat,
            |c: int| Seq::new(self.count as nat, |i: int| self.raw(c, i)),
        )
    }

    /// Everything but the samples and their number.
    pub open spec fn same_shape(self, o: AudioData) -> bool {
        &&& self.ch_count == o.ch_count
        &&& self.bps == o.bps
        &&& self.planar == o.planar
        &&& self.fmt == o.fmt
    }

    /// All samples are bit patterns of the buffer's width.
    pub proof fn lemma_raw_bound(self, ch: int, i: int)
        requires
            self.bps <= 8,
        ensures
            self.raw(ch, i) < pow2(8 * self.bps as nat),
            self.raw(ch, i) == bytes::le_value(
                self.data@,
                self.slot(ch, i) * self.bps,
                self.bps as nat,
            ),
    {
        bytes::lemma_le_bound(self.data@, self.slot(ch, i) * self.bps, self.bps as nat);
        bytes::lemma_byte_width(self.bps as nat);
    }

    pub(crate) proof fn lemma_in_range(self, ch: int, i: int)
        requires
            self.wf(),
            0 <= ch < self.ch_count,
            0 <= i < self.count,
        ensures
            0 <= self.slot(ch, i),
            0 <= self.slot(ch, i) * self.bps,
            self.slot(ch, i) * self.bps + self.bps <= self.data@.len(),
            self.slot(ch, i) <= self.data@.len(),
            ch * self.count <= self.data@.len(),
            i * self.ch_count <= self.data@.len(),
            0 <= ch * self.count,
            0 <= i * self.ch_count,
    {
        let n = self.ch_count as int;
        let m = self.count as int;
        let b = self.bps as int;
        lemma_slot_bound(m, n, ch, i);
        lemma_slot_bound(n, m, i, ch);
        lemma_mul_is_commutative(n, m);
        let s = self.slot(ch, i);
        assert(s * b + b <= n * m * b) by (nonlinear_arith)
            requires
                s + 1 <= n * m,
                b >= 0,
        ;
        assert(s <= s * b) by (nonlinear_arith)
            requires
                s >= 0,
                b >= 1,
        ;
        assert(n * m <= n * m * b) by (nonlinear_arith)
            requires
                n * m >= 0,
                b >= 1,
        ;
        assert(0 <= ch * m) by (nonlinear_arith)
            requires
                ch >= 0,
                m >= 0,
        ;
        assert(0 <= i * n) by (nonlinear_arith)
            requires
                i >= 0,
                n >= 0,
        ;
    }

    /// Distinct samples do not overlap.
    pub(crate) proof fn lemma_apart(self, c: int, i: int, c2: int, i2: int)
        requires
            0 <= c < self.ch_count,
            0 <= c2 < self.ch_count,
            self.planar ==> 0 <= i < self.count && 0 <= i2 < self.count,
            c != c2 || i != i2,
        ensures
            self.slot(c, i) * self.bps + self.bps <= self.slot(c2, i2) * self.bps || self.slot(
                c2,
                i2,
            ) * self.bps + self.bps <= self.slot(c, i) * self.bps,
    {
        if self.slot(c, i) == self.slot(c2, i2) {
            if self.planar {
                lemma_slot_inj(self.count as int, c, i, c2, i2);
            } else {
                lemma_slot_inj(self.ch_count as int, i, c, i2, c2);
            }
        }
        lemma_windows_apart(self.slot(c, i), self.slot(c2, i2), self.bps as int);
    }

    /// A buffer of silence.
    pub fn new(fmt: SampleFormat, ch_count: usize, count: usize) -> (r: AudioData)
        requires
            ch_count * count * fmt.spec_bytes() <= isize::MAX,
        ensures
            r.typed(),
            r.fmt == fmt,
            r.ch_count == ch_count,
            r.count == count,
            r.planar == fmt.spec_is_planar(),
            r.chans() == planes_zero(ch_count as nat, count as nat),
            forall|k: int| 0 <= k < r.data@.len() ==> r.data@[k] == 0,
    {
        zeroed(fmt, fmt.bytes_per_sample(), fmt.is_planar(), ch_count, count)
    }

    /// The descriptor of no buffer at all.
    pub fn empty() -> (r: AudioData)
        ensures
            r.ch_count == 0,
            r.bps == 0,
            r.count == 0,
            !r.planar,
            r.fmt == SampleFormat::U8,
            r.data@.len() == 0,
    {
        AudioData {
            data: Vec::new(),
            ch_count: 0,
            bps: 0,
            count: 0,
            planar: false,
            fmt: SampleFormat::U8,
        }
    }

    /// First byte of channel `ch`.
    pub open spec fn plane_start(self, ch: int) -> int {
        if self.planar {
            ch * self.count * self.bps
        } else {
            ch * self.bps
        }
    }

    /// End of the bytes that channel `ch` can reach: its plane, or in a packed
    /// buffer everything from its first sample on.
    pub open spec fn plane_end(self, ch: int) -> int {
        if self.planar {
            ch * self.count * self.bps + self.count * self.bps
        } else {
            self.data@.len() as int
        }
    }

    /// Whether channel `ch` lies within the backing bytes.
    pub open spec fn has_plane(self, ch: int) -> bool {
        self.plane_start(ch) <= self.plane_end(ch) <= self.data@.len()
    }

    pub(crate) fn plane_bounds(&self, ch: usize) -> (r: Option<(usize, usize)>)
        ensures
            r.is_some() == self.has_plane(ch as int),
            r matches Some((s, e)) ==> s == self.plane_start(ch as int) && e == self.plane_end(
                ch as int,
            ),
    {
        let len: usize = self.data.len();
        if self.planar {
            let n: Option<usize> = self.count.checked_mul(self.bps);
            match n {
                None => {
                    proof {
                        let p = self.count * self.bps;
                        assert(0 <= ch * self.count * self.bps) by (nonlinear_arith);
                    }
                    None
                },
                Some(n) => {
                    proof {
                        lemma_mul_is_associative(ch as int, self.count as int, self.bps as int);
                        assert(0 <= ch * n) by (nonlinear_arith);
                    }
                    match ch.checked_mul(n) {
                        None => None,
                        Some(s) => match s.checked_add(n) {
                            None => None,
                            Some(e) => if e <= len {
                                Some((s, e))
                            } else {
                                None
                            },
                        },
                    }
                },
            }
        } else {
            match ch.checked_mul(self.bps) {
                None => None,
                Some(s) => if s <= len {
                    Some((s, len))
                } else {
                    None
                },
            }
        }
    }

    /// The bytes that channel `ch` can reach, or `None` when they lie outside
    /// the backing buffer.
    pub fn plane(&self, ch: usize) -> (r: Option<&[u8]>)
        ensures
            r.is_some() == self.has_plane(ch as int),
            r matches Some(p) ==> p@ == self.data@.subrange(
                self.plane_start(ch as int),
                self.plane_end(ch as int),
            ),
    {
        match self.plane_bounds(ch) {
            None => None,
            Some((s, e)) => Some(vstd::slice::slice_subrange(self.data.as_slice(), s, e)),
        }
    }

    /// Mutable form of [`AudioData::plane`].
    pub fn plane_bytes_mut(&mut self, ch: usize) -> (r: Option<&mut [u8]>)
        ensures
            r.is_some() == old(self).has_plane(ch as int),
            r.is_none() ==> *final(self) == *old(self),
            r matches Some(p) ==> {
                let s = old(self).plane_start(ch as int);
                let e = old(self).plane_end(ch as int);
                &&& p@ == old(self).data@.subrange(s, e)
                &&& final(self).data@ == old(self).data@.subrange(0, s) + final(p)@ + old(
                    self,
                ).data@.subrange(e, old(self).data@.len() as int)
                &&& final(self).same_shape(*old(self))
                &&& final(self).count == old(self).count
            },
    {
        match self.plane_bounds(ch) {
            None => None,
            Some((s, e)) => {
                let all: &mut [u8] = self.data.as_mut_slice();
                let (_, tail) = all.split_at_mut(s);
                let (mid, _) = tail.split_at_mut(e - s);
                Some(mid)
            },
        }
    }

    /// The whole backing buffer, mutable.
    pub fn data_mut(&mut self) -> (r: &mut [u8])
        ensures
            r@ == old(self).data@,
            final(self).data@ == final(r)@,
            final(self).same_shape(*old(self)),
            final(self).count == old(self).count,
    {
        self.data.as_mut_slice()
    }

    /// Sample `i` of channel `ch`.
    pub fn load(&self, ch: usize, i: usize) -> (r: u64)
        requires
            self.wf(),
            ch < self.ch_count,
            i < self.count,
        ensures
            r == self.chans()[ch as int][i as int],
            r < pow2(8 * self.bps as nat),
    {
        proof {
            self.lemma_in_range(ch as int, i as int);
            self.lemma_raw_bound(ch as int, i as int);
        }
        let n: usize = self.data.len();
        let slot: usize = if self.planar {
            ch * self.count + i
        } else {
            i * self.ch_count + ch
        };
        bytes::load_le(self.data.as_slice(), slot * self.bps, self.bps)
    }

    /// Overwrites sample `i` of channel `ch`.
    pub fn store(&mut self, ch: usize, i: usize, v: u64)
        requires
            old(self).wf(),
            ch < old(self).ch_count,
            i < old(self).count,
            v < pow2(8 * old(self).bps as nat),
        ensures
            final(self).wf(),
            final(self).same_shape(*old(self)),
            final(self).count == old(self).count,
            final(self).chans() == planes_set(old(self).chans(), ch as int, i as int, v),
    {
        proof {
            self.lemma_in_range(ch as int, i as int);
        }
        let n: usize = self.data.len();
        let slot: usize = if self.planar {
            ch * self.count + i
        } else {
            i * self.ch_count + ch
        };
        let bps: usize = self.bps;
        bytes::store_le(self.data.as_mut_slice(), slot * bps, bps, v);
        proof {
            let o = *old(self);
            let f = *self;
            assert forall|c2: int, i2: int|
                0 <= c2 < o.ch_count && 0 <= i2 < o.count implies #[trigger] f.raw(c2, i2)
                == planes_set(o.chans(), ch as int, i as int, v)[c2][i2] by {
                if c2 != ch || i2 != i {
                    o.lemma_apart(ch as int, i as int, c2, i2);
                    o.lemma_in_range(c2, i2);
                    bytes::lemma_le_frame(
                        o.data@,
                        f.data@,
                        o.slot(c2, i2) * o.bps,
                        o.bps as nat,
                    );
                }
            }
            let want = planes_set(o.chans(), ch as int, i as int, v);
            assert forall|c2: int| 0 <= c2 < o.ch_count implies f.chans()[c2] == #[trigger] want[c2] by {
                assert(f.chans()[c2] =~= want[c2]);
            }
            assert(f.chans() =~= want);
        }
    }
}

proof fn lemma_le_zero(s: Seq<u8>, off: int, n: nat)
    requires
        forall|k: int| off <= k < off + n ==> #[trigger] s[k] == 0,
    ensures
        bytes::le_value(s, off, n) == 0,
    decreases n,
{
    if n > 0 {
        lemma_le_zero(s, off + 1, (n - 1) as nat);
    }
}

fn zeroed(
    fmt: SampleFormat,
    bps: usize,
    planar: bool,
    ch_count: usize,
    count: usize,
) -> (r: AudioData)
    requires
        1 <= bps <= 8,
        ch_count * count * bps <= usize::MAX,
    ensures
        r.wf(),
        r.fmt == fmt,
        r.bps == bps,
        r.planar == planar,
        r.ch_count == ch_count,
        r.count == count,
        r.chans() == planes_zero(ch_count as nat, count as nat),
        forall|k: int| 0 <= k < r.data@.len() ==> r.data@[k] == 0,
{
    proof {
        let m = ch_count * count;
        assert(0 <= m <= m * bps) by (nonlinear_arith)
            requires
                m == ch_count * count,
                bps >= 1,
        ;
    }
    let r = AudioData {
        data: vec![0u8; ch_count * count * bps],
        ch_count,
        bps,
        count,
        planar,
        fmt,
    };
    proof {
        assert forall|c: int, i: int| 0 <= c < ch_count && 0 <= i < count implies #[trigger] r.raw(
            c,
            i,
        ) == 0 by {
            r.lemma_in_range(c, i);
            lemma_le_zero(r.data@, r.slot(c, i) * r.bps, r.bps as nat);
        }
        let want = planes_zero(ch_count as nat, count as nat);
        assert forall|c: int| 0 <= c < ch_count implies r.chans()[c] == #[trigger] want[c] by {
            assert(r.chans()[c] =~= want[c]);
        }
        assert(r.chans() =~= want);
    }
    r
}

/// A buffer of silence with `a`'s shape.
pub fn scratch_like(a: &AudioData, count: usize) -> (r: AudioData)
    requires
        1 <= a.bps <= 8,
        a.ch_count * count * a.bps <= usize::MAX,
    ensures
        r.wf(),
        r.same_shape(*a),
        r.count == count,
        r.chans() == planes_zero(a.ch_count as nat, count as nat),
{
    zeroed(a.fmt, a.bps, a.planar, a.ch_count, count)
}


/// `a` with format `fmt`. One channel is always planar: interleaving changes
/// nothing there.
pub open spec fn with_format(a: AudioData, fmt: SampleFormat) -> AudioData {
    AudioData {
        fmt,
        bps: fmt.spec_bytes() as usize,
        planar: fmt.spec_is_planar() || a.ch_count == 1,
        ..a
    }
}

/// Gives a descriptor the sample format `fmt`.
pub fn set_audiodata_fmt(a: &mut AudioData, fmt: SampleFormat)
    ensures
        *final(a) == with_format(*old(a), fmt),
{
    a.fmt = fmt;
    a.bps = fmt.bytes_per_sample();
    a.planar = fmt.is_planar();
    if a.ch_count == 1 {
        a.planar = true;
    }
}

proof fn lemma_size_le(ch: int, n: int, m: int, b: int)
    requires
        0 <= ch,
        0 <= n <= m,
        0 <= b,
    ensures
        ch * n * b <= ch * m * b,
{
    assert(ch * n <= ch * m) by (nonlinear_arith)
        requires
            0 <= ch,
            0 <= n <= m,
    ;
    assert(ch * n * b <= ch * m * b) by (nonlinear_arith)
        requires
            ch * n <= ch * m,
            0 <= b,
    ;
}

/// Writes the first `count` samples of `src` into `dst` at sample `off`.
pub fn splice(dst: &mut AudioData, off: usize, src: &AudioData, count: usize)
    requires
        old(dst).wf(),
        src.wf(),
        old(dst).bps == src.bps,
        old(dst).ch_count == src.ch_count,
        off + count <= old(dst).count,
        count <= src.count,
    ensures
        final(dst).wf(),
        final(dst).same_shape(*old(dst)),
        final(dst).count == old(dst).count,
        final(dst).chans() == planes_splice(
            old(dst).chans(),
            off as int,
            src.chans(),
            count as int,
        ),
{
    let ghost old_p = dst.chans();
    let ghost src_p = src.chans();
    let ghost o = *dst;
    let n: usize = dst.ch_count;
    let mut c: usize = 0;
    while c < n
        invariant
            n == o.ch_count,
            c <= n,
            dst.wf(),
            dst.same_shape(o),
            dst.count == o.count,
            src.wf(),
            src.bps == o.bps,
            src.ch_count == n,
            src_p == src.chans(),
            old_p == o.chans(),
            off + count <= o.count,
            count <= src.count,
            forall|cc: int, ii: int|
                0 <= cc < n && 0 <= ii < o.count ==> #[trigger] dst.chans()[cc][ii] == if cc < c
                    && off <= ii < off + count {
                    src_p[cc][ii - off]
                } else {
                    old_p[cc][ii]
                },
        decreases n - c,
    {
        let mut i: usize = 0;
        while i < count
            invariant
                n == o.ch_count,
                c < n,
                i <= count,
                dst.wf(),
                dst.same_shape(o),
                dst.count == o.count,
                src.wf(),
                src.bps == o.bps,
                src.ch_count == n,
                src_p == src.chans(),
                old_p == o.chans(),
                off + count <= o.count,
                count <= src.count,
                forall|cc: int, ii: int|
                    0 <= cc < n && 0 <= ii < o.count ==> #[trigger] dst.chans()[cc][ii] == if (cc
                        < c && off <= ii < off + count) || (cc == c && off <= ii < off + i) {
                        src_p[cc][ii - off]
                    } else {
                        old_p[cc][ii]
                    },
            decreases count - i,
        {
            let v: u64 = src.load(c, i);
            dst.store(c, off + i, v);
            i = i + 1;
        }
        c = c + 1;
    }
    proof {
        let want = planes_splice(old_p, off as int, src_p, count as int);
        assert forall|cc: int| 0 <= cc < n implies dst.chans()[cc] == #[trigger] want[cc] by {
            assert(dst.chans()[cc] =~= want[cc]);
        }
        assert(dst.chans() =~= want);
    }
}

/// The samples of `a` from `off` to the end of its capacity.
pub fn view(a: &AudioData, off: usize) -> (r: AudioData)
    requires
        a.wf(),
        off <= a.count,
    ensures
        r.wf(),
        r.same_shape(*a),
        r.count == a.count - off,
        r.chans() == planes_from(a.chans(), off as int),
{
    let m: usize = a.count - off;
    let len: usize = a.data.len();
    proof {
        lemma_size_le(a.ch_count as int, m as int, a.count as int, a.bps as int);
    }
    let mut r = scratch_like(a, m);
    let n: usize = a.ch_count;
    let ghost src_p = a.chans();
    let mut c: usize = 0;
    while c < n
        invariant
            n == a.ch_count,
            c <= n,
            m == a.count - off,
            off <= a.count,
            a.wf(),
            src_p == a.chans(),
            r.wf(),
            r.same_shape(*a),
            r.count == m,
            forall|cc: int, ii: int|
                0 <= cc < c && 0 <= ii < m ==> #[trigger] r.chans()[cc][ii] == src_p[cc][ii + off],
        decreases n - c,
    {
        let mut i: usize = 0;
        while i < m
            invariant
                n == a.ch_count,
                c < n,
                i <= m,
                m == a.count - off,
                off <= a.count,
                a.wf(),
                src_p == a.chans(),
                r.wf(),
                r.same_shape(*a),
                r.count == m,
                forall|cc: int, ii: int|
                    0 <= cc < n && 0 <= ii < m && (cc < c || cc == c && ii < i)
                        ==> #[trigger] r.chans()[cc][ii] == src_p[cc][ii + off],
            decreases m - i,
        {
            let v: u64 = a.load(c, i + off);
            r.store(c, i, v);
            i = i + 1;
        }
        c = c + 1;
    }
    proof {
        let want = planes_from(src_p, off as int);
        assert forall|cc: int| 0 <= cc < n implies r.chans()[cc] == #[trigger] want[cc] by {
            assert(r.chans()[cc] =~= want[cc]);
        }
        assert(r.chans() =~= want);
    }
    r
}

/// Moves the `count` samples at `idx` to the front of each channel.
pub fn compact(a: &mut AudioData, idx: usize, count: usize)
    requires
        old(a).wf(),
        idx + count <= old(a).count,
    ensures
        final(a).wf(),
        final(a).same_shape(*old(a)),
        final(a).count == old(a).count,
        final(a).chans() == planes_compact(old(a).chans(), idx as int, count as int),
{
    let ghost old_p = a.chans();
    let ghost o = *a;
    let n: usize = a.ch_count;
    let mut c: usize = 0;
    while c < n
        invariant
            n == o.ch_count,
            c <= n,
            idx + count <= o.count,
            a.wf(),
            a.same_shape(o),
            a.count == o.count,
            old_p == o.chans(),
            forall|cc: int, ii: int|
                0 <= cc < n && 0 <= ii < o.count ==> #[trigger] a.chans()[cc][ii] == if cc < c
                    && ii < count {
                    old_p[cc][ii + idx]
                } else {
                    old_p[cc][ii]
                },
        decreases n - c,
    {
        let mut i: usize = 0;
        while i < count
            invariant
                n == o.ch_count,
                c < n,
                i <= count,
                idx + count <= o.count,
                a.wf(),
                a.same_shape(o),
                a.count == o.count,
                old_p == o.chans(),
                forall|cc: int, ii: int|
                    0 <= cc < n && 0 <= ii < o.count ==> #[trigger] a.chans()[cc][ii] == if (cc < c
                        && ii < count) || (cc == c && ii < i) {
                        old_p[cc][ii + idx]
                    } else {
                        old_p[cc][ii]
                    },
            decreases count - i,
        {
            let v: u64 = a.load(c, idx + i);
            a.store(c, i, v);
            i = i + 1;
        }
        c = c + 1;
    }
    proof {
        let want = planes_compact(old_p, idx as int, count as int);
        assert forall|cc: int| 0 <= cc < n implies a.chans()[cc] == #[trigger] want[cc] by {
            assert(a.chans()[cc] =~= want[cc]);
        }
        assert(a.chans() =~= want);
    }
}

/// Copies the first `count` samples.
pub fn copy_views(out: &mut AudioData, src: &AudioData, count: usize)
    requires
        old(out).wf(),
        src.wf(),
        old(out).bps == src.bps,
        old(out).ch_count == src.ch_count,
        count <= old(out).count,
        count <= src.count,
    ensures
        final(out).wf(),
        final(out).same_shape(*old(out)),
        final(out).count == old(out).count,
        final(out).chans() == planes_splice(old(out).chans(), 0, src.chans(), count as int),
{
    splice(out, 0, src, count)
}

/// A copy of a buffer.
pub fn duplicate(a: &AudioData) -> (r: AudioData)
    ensures
        r.data@ == a.data@,
        r.same_shape(*a),
        r.count == a.count,
        r.chans() == a.chans(),
{
    let r = AudioData {
        data: a.data.clone(),
        ch_count: a.ch_count,
        bps: a.bps,
        count: a.count,
        planar: a.planar,
        fmt: a.fmt,
    };
    proof {
        assert(r.data@ =~= a.data@);
        lemma_same_bytes(r, *a);
    }
    r
}

/// The samples are a function of the bytes and the layout.
pub proof fn lemma_same_bytes(a: AudioData, b: AudioData)
    requires
        a.data@ == b.data@,
        a.same_shape(b),
        a.count == b.count,
    ensures
        a.chans() == b.chans(),
{
    assert forall|cc: int| 0 <= cc < a.ch_count implies a.chans()[cc] == #[trigger] b.chans()[cc] by {
        assert(a.chans()[cc] =~= b.chans()[cc]);
    }
    assert(a.chans() =~= b.chans());
}

impl AudioData {
    /// Capacity after a request for `count` samples: an unmet request is
    /// doubled.
    pub open spec fn grown_count(self, count: nat) -> nat {
        if self.count >= count {
            self.count as nat
        } else {
            2 * count
        }
    }

    /// Raises the capacity to `2 * count` samples when it is below `count`; the
    /// samples stay and silence follows them.
    pub fn grow(&mut self, count: usize) -> (grew: bool)
        requires
            old(self).wf(),
            old(self).ch_count * (2 * count) * old(self).bps <= usize::MAX,
            2 * count <= usize::MAX,
        ensures
            final(self).wf(),
            final(self).same_shape(*old(self)),
            grew == (old(self).count < count),
            final(self).count == old(self).grown_count(count as nat),
            !grew ==> *final(self) == *old(self),
            final(self).chans() == planes_grow(old(self).chans(), final(self).count as nat),
    {
        if self.count >= count {
            proof {
                let p = self.chans();
                let want = planes_grow(p, self.count as nat);
                assert forall|cc: int| 0 <= cc < p.len() implies p[cc] == #[trigger] want[cc] by {
                    assert(p[cc] =~= want[cc]);
                }
                assert(p =~= want);
            }
            return false;
        }
        let ghost o = *self;
        let mut r = scratch_like(self, count * 2);
        let ghost z = r.chans();
        splice(&mut r, 0, self, self.count);
        proof {
            let want = planes_grow(o.chans(), r.count as nat);
            assert forall|cc: int| 0 <= cc < o.ch_count implies r.chans()[cc] == #[trigger] want[cc] by {
                assert(r.chans()[cc] =~= want[cc]);
            }
            assert(r.chans() =~= want);
        }
        self.data = r.data;
        self.count = r.count;
        proof {
            lemma_same_bytes(*self, r);
        }
        true
    }

    /// Whether a buffer of this shape may hold `count` samples per channel.
    pub open spec fn may_hold(self, count: nat) -> bool {
        &&& self.bps != 0
        &&& self.ch_count != 0
        &&& count <= MAX_BUFFER as nat / self.bps as nat / self.ch_count as nat
    }

    /// [`AudioData::grow`] with a limit on the size.
    pub fn realloc_audio(&mut self, count: usize) -> (r: Result<bool, Error>)
        requires
            old(self).bps != 0 && old(self).ch_count != 0 ==> old(self).wf(),
        ensures
            r.is_ok() == old(self).may_hold(count as nat),
            r matches Err(e) ==> {
                &&& *final(self) == *old(self)
                &&& old(self).bps == 0 || old(self).ch_count == 0 ==> e.is_invalid(
                    "swri_realloc_audio on a channel-less AudioData"@,
                )
                &&& old(self).bps != 0 && old(self).ch_count != 0 ==> e.is_invalid(
                    "swri_realloc_audio: sample count out of range"@,
                )
            },
            r matches Ok(grew) ==> {
                &&& grew == (old(self).count < count)
                &&& final(self).wf()
                &&& final(self).same_shape(*old(self))
                &&& final(self).count == old(self).grown_count(count as nat)
                &&& !grew ==> *final(self) == *old(self)
                &&& final(self).chans() == planes_grow(
                    old(self).chans(),
                    final(self).count as nat,
                )
            },
    {
        if self.bps == 0 || self.ch_count == 0 {
            return Err(invalid("swri_realloc_audio on a channel-less AudioData"));
        }
        if count > MAX_BUFFER / self.bps / self.ch_count {
            return Err(invalid("swri_realloc_audio: sample count out of range"));
        }
        proof {
            let n = self.ch_count as int;
            let b = self.bps as int;
            let k = MAX_BUFFER as int / b;
            lemma_fundamental_div_mod(MAX_BUFFER as int, b);
            lemma_fundamental_div_mod(k, n);
            assert(count * n <= k) by (nonlinear_arith)
                requires
                    count <= k / n,
                    k == n * (k / n) + k % n,
                    0 <= k % n,
                    n > 0,
            ;
            assert(count * n * b <= MAX_BUFFER) by (nonlinear_arith)
                requires
                    count * n <= k,
                    MAX_BUFFER == b * k + MAX_BUFFER as int % b,
                    0 <= MAX_BUFFER as int % b,
                    b > 0,
            ;
            assert(n * (2 * count) * b == 2 * (count * n * b)) by (nonlinear_arith);
            assert(count <= count * n * b) by (nonlinear_arith)
                requires
                    n >= 1,
                    b >= 1,
                    count >= 0,
            ;
        }
        Ok(self.grow(count))
    }
}

} // verus!
