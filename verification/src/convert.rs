//! Running samples through an initialized context.
use crate::arith;
use crate::audio;
use crate::audio::{compact, scratch_like, splice, view, AudioData, Planes};
use crate::audioconvert;
use crate::audioconvert::convert_block;
use crate::bytes;
use crate::error::{invalid, Error};
use crate::rematrix;
use crate::rematrix::mix_into;
use crate::resample::ResampleContext;
use crate::stream;
use crate::stream::{resample_stage, Halt, Trip};
use crate::swr;
use crate::swr::SwrContext;
use vstd::arithmetic::div_mod::*;
use vstd::prelude::*;

verus! {

/// Samples of silence behind the input of the resampler.
pub const INPUT_TAIL: usize = 2;

// --- byte planes ------------------------------------------------------------------------

/// Position of sample `i` of channel `c` in byte planes that are laid out like
/// `a`: the plane, and the byte in it.
pub open spec fn plane_of(a: AudioData, c: int) -> int {
    if a.planar {
        c
    } else {
        0
    }
}

pub open spec fn byte_of(a: AudioData, c: int, i: int) -> int {
    if a.planar {
        i * a.bps
    } else {
        (i * a.ch_count + c) * a.bps
    }
}

/// The first `n` samples of every channel that the byte planes hold.
pub open spec fn samples_of(a: AudioData, planes: Seq<Seq<u8>>, n: nat) -> Planes {
    Seq::new(
        a.ch_count as nat,
        |c: int|
            Seq::new(
                n,
                |i: int|
                    bytes::le_value(planes[plane_of(a, c)], byte_of(a, c, i), a.bps as nat) as u64,
            ),
    )
}

/// Planes that `n` samples of every channel take.
pub open spec fn planes_needed(a: AudioData) -> int {
    if a.planar {
        a.ch_count as int
    } else {
        1
    }
}

/// Bytes that `n` samples take in one plane.
pub open spec fn bytes_needed(a: AudioData, n: int) -> int {
    if a.planar {
        n * a.bps
    } else {
        n * a.ch_count * a.bps
    }
}

/// The byte planes hold `n` samples of every channel.
pub open spec fn enough(a: AudioData, planes: Seq<Seq<u8>>, n: int) -> bool {
    &&& planes.len() >= planes_needed(a)
    &&& forall|k: int|
        0 <= k < planes_needed(a) ==> (#[trigger] planes[k]).len() >= bytes_needed(a, n)
}

pub open spec fn slice_views(p: Seq<&[u8]>) -> Seq<Seq<u8>> {
    Seq::new(p.len(), |i: int| p[i]@)
}

pub open spec fn vec_views(p: Seq<Vec<u8>>) -> Seq<Seq<u8>> {
    Seq::new(p.len(), |i: int| p[i]@)
}

proof fn lemma_sample_bytes(a: AudioData, c: int, i: int, n: int)
    requires
        1 <= a.bps <= 8,
        0 <= c < a.ch_count,
        0 <= i < n,
    ensures
        0 <= byte_of(a, c, i),
        byte_of(a, c, i) + a.bps <= bytes_needed(a, n),
        0 <= i * a.ch_count + c <= byte_of(a, c, i) || a.planar,
{
    let b = a.bps as int;
    let m = a.ch_count as int;
    if a.planar {
        assert(0 <= i * b && i * b + b <= n * b) by (nonlinear_arith)
            requires
                0 <= i,
                i + 1 <= n,
                b >= 1,
        ;
    } else {
        let t = i * m + c;
        assert(0 <= t && t + 1 <= n * m) by (nonlinear_arith)
            requires
                t == i * m + c,
                0 <= c < m,
                0 <= i,
                i + 1 <= n,
        ;
        assert(0 <= t <= t * b && t * b + b <= n * m * b) by (nonlinear_arith)
            requires
                0 <= t,
                t + 1 <= n * m,
                b >= 1,
        ;
    }
}

/// Bytes that `n` samples take in one plane, if that is a number.
fn bytes_needed_exec(a: &AudioData, n: usize) -> (r: Option<usize>)
    ensures
        r matches Some(v) ==> v == bytes_needed(*a, n as int),
        r is None ==> bytes_needed(*a, n as int) > usize::MAX,
{
    if a.planar {
        n.checked_mul(a.bps)
    } else {
        match n.checked_mul(a.ch_count) {
            Some(t) => t.checked_mul(a.bps),
            None => {
                if a.bps == 0 {
                    assert(n * a.ch_count * a.bps == 0) by (nonlinear_arith)
                        requires
                            a.bps == 0,
                    ;
                    Some(0)
                } else {
                    assert(n * a.ch_count * a.bps >= n * a.ch_count) by (nonlinear_arith)
                        requires
                            a.bps >= 1,
                    ;
                    None
                }
            },
        }
    }
}

/// A buffer with the first `n` samples of the byte planes.
fn take_planes(a: &AudioData, planes: &[&[u8]], n: usize) -> (r: Result<AudioData, Error>)
    requires
        1 <= a.bps <= 8,
        1 <= a.ch_count,
        a.ch_count * n * a.bps <= usize::MAX,
    ensures
        r.is_ok() == enough(*a, slice_views(planes@), n as int),
        r matches Err(e) ==> e == Error::BufferTooSmall,
        r matches Ok(d) ==> {
            &&& d.wf()
            &&& d.same_shape(*a)
            &&& d.count == n
            &&& d.chans() == samples_of(
                *a,
                slice_views(planes@),
                n as nat,
            )
        },
{
    let ghost all = slice_views(planes@);
    let m: usize = if a.planar {
        a.ch_count
    } else {
        1
    };
    if planes.len() < m {
        return Err(Error::BufferTooSmall);
    }
    let need: usize = match bytes_needed_exec(a, n) {
        Some(v) => v,
        None => {
            proof {
                assert(n * a.bps <= a.ch_count * n * a.bps) by (nonlinear_arith)
                    requires
                        a.ch_count >= 1,
                ;
                assert(n * a.ch_count * a.bps <= a.ch_count * n * a.bps) by (nonlinear_arith);
            }
            return Err(Error::BufferTooSmall);
        },
    };
    let mut k: usize = 0;
    while k < m
        invariant
            k <= m <= planes@.len(),
            m == planes_needed(*a),
            need == bytes_needed(*a, n as int),
            all == slice_views(planes@),
            forall|j: int| 0 <= j < k ==> (#[trigger] all[j]).len() >= need,
        decreases m - k,
    {
        let p: &[u8] = planes[k];
        assert(all[k as int] == p@);
        if p.len() < need {
            return Err(Error::BufferTooSmall);
        }
        k = k + 1;
    }
    let mut d = scratch_like(a, n);
    let ghost want = samples_of(*a, all, n as nat);
    let mut c: usize = 0;
    while c < a.ch_count
        invariant
            c <= a.ch_count,
            1 <= a.bps <= 8,
            all == slice_views(planes@),
            want == samples_of(*a, all, n as nat),
            enough(*a, all, n as int),
            d.wf(),
            d.same_shape(*a),
            d.count == n,
            forall|cc: int, ii: int|
                0 <= cc < c && 0 <= ii < n ==> #[trigger] d.chans()[cc][ii] == want[cc][ii],
        decreases a.ch_count - c,
    {
        let j: usize = if a.planar {
            c
        } else {
            0
        };
        let p: &[u8] = planes[j];
        assert(all[j as int] == p@);
        let len: usize = p.len();
        let mut i: usize = 0;
        while i < n
            invariant
                c < a.ch_count,
                i <= n,
                1 <= a.bps <= 8,
                all == slice_views(planes@),
                want == samples_of(*a, all, n as nat),
                j == plane_of(*a, c as int),
                j < planes@.len(),
                p@ == all[j as int],
                len == p@.len(),
                len >= bytes_needed(*a, n as int),
                d.wf(),
                d.same_shape(*a),
                d.count == n,
                forall|cc: int, ii: int|
                    0 <= cc <= c && 0 <= ii < n && (cc < c || ii < i) ==> #[trigger] d.chans()[cc][ii]
                        == want[cc][ii],
            decreases n - i,
        {
            proof {
                lemma_sample_bytes(*a, c as int, i as int, n as int);
            }
            let at: usize = if a.planar {
                i * a.bps
            } else {
                (i * a.ch_count + c) * a.bps
            };
            let v: u64 = bytes::load_le(p, at, a.bps);
            d.store(c, i, v);
            assert(want[c as int][i as int] == v);
            i = i + 1;
        }
        c = c + 1;
    }
    proof {
        let got = d.chans();
        assert forall|cc: int| 0 <= cc < a.ch_count implies got[cc] == #[trigger] want[cc] by {
            assert(got[cc] =~= want[cc]);
        }
        assert(got =~= want);
    }
    Ok(d)
}

/// No sample of channel `c` among the first `n` lies on byte `k` of its plane.
pub open spec fn spared(a: AudioData, c: int, n: int, k: int) -> bool {
    forall|i: int| 0 <= i < n ==> !(#[trigger] byte_of(a, c, i) <= k < byte_of(a, c, i) + a.bps)
}

proof fn lemma_samples_apart(a: AudioData, c: int, i: int, c2: int, i2: int)
    requires
        1 <= a.bps <= 8,
        0 <= c < a.ch_count,
        0 <= c2 < a.ch_count,
        a.planar ==> c == c2,
        c != c2 || i != i2,
    ensures
        byte_of(a, c, i) + a.bps <= byte_of(a, c2, i2) || byte_of(a, c2, i2) + a.bps <= byte_of(
            a,
            c,
            i,
        ),
{
    let b = a.bps as int;
    if a.planar {
        assert(i < i2 ==> i * b + b <= i2 * b) by (nonlinear_arith)
            requires
                b >= 0,
        ;
        assert(i2 < i ==> i2 * b + b <= i * b) by (nonlinear_arith)
            requires
                b >= 0,
        ;
    } else {
        a.lemma_apart(c, i, c2, i2);
    }
}

/// Writes the first `n` samples of channel `c` into its plane.
fn put_channel(a: &AudioData, c: usize, n: usize, p: &mut Vec<u8>)
    requires
        a.wf(),
        c < a.ch_count,
        n <= a.count,
        old(p)@.len() >= bytes_needed(*a, n as int),
    ensures
        final(p)@.len() == old(p)@.len(),
        forall|i: int|
            0 <= i < n ==> bytes::le_value(
                final(p)@,
                #[trigger] byte_of(*a, c as int, i),
                a.bps as nat,
            ) as u64 == a.chans()[c as int][i],
        forall|k: int|
            0 <= k < old(p)@.len() && spared(*a, c as int, n as int, k) ==> #[trigger] final(p)@[k]
                == old(p)@[k],
{
    let ghost p0 = p@;
    let len: usize = p.len();
    let mut i: usize = 0;
    while i < n
        invariant
            a.wf(),
            c < a.ch_count,
            i <= n <= a.count,
            len == p0.len(),
            p@.len() == len,
            len >= bytes_needed(*a, n as int),
            forall|j: int|
                0 <= j < i ==> bytes::le_value(
                    p@,
                    #[trigger] byte_of(*a, c as int, j),
                    a.bps as nat,
                ) as u64 == a.chans()[c as int][j],
            forall|k: int|
                0 <= k < len && spared(*a, c as int, n as int, k) ==> #[trigger] p@[k] == p0[k],
        decreases n - i,
    {
        proof {
            lemma_sample_bytes(*a, c as int, i as int, n as int);
        }
        let at: usize = if a.planar {
            i * a.bps
        } else {
            (i * a.ch_count + c) * a.bps
        };
        let v: u64 = a.load(c, i);
        let ghost before = p@;
        bytes::store_le(p.as_mut_slice(), at, a.bps, v);
        proof {
            assert forall|j: int| 0 <= j < i implies bytes::le_value(
                p@,
                #[trigger] byte_of(*a, c as int, j),
                a.bps as nat,
            ) as u64 == a.chans()[c as int][j] by {
                lemma_samples_apart(*a, c as int, i as int, c as int, j);
                lemma_sample_bytes(*a, c as int, j, n as int);
                bytes::lemma_le_frame(before, p@, byte_of(*a, c as int, j), a.bps as nat);
            }
            assert forall|k: int|
                0 <= k < len && spared(*a, c as int, n as int, k) implies #[trigger] p@[k]
                == p0[k] by {
                assert(byte_of(*a, c as int, i as int) == at);
                assert(p@[k] == before[k]);
            }
        }
        i = i + 1;
    }
}

/// The byte planes with the first `n` samples of the buffer in them.
pub open spec fn planes_written(
    a: AudioData,
    n: int,
    before: Seq<Seq<u8>>,
    now: Seq<Seq<u8>>,
) -> bool {
    &&& now.len() == before.len()
    &&& samples_of(a, now, n as nat) == audio::planes_first(a.chans(), n)
    &&& forall|k: int| 0 <= k < now.len() ==> (#[trigger] now[k]).len() == before[k].len()
    &&& forall|k: int, j: int|
        0 <= k < now.len() && (k < planes_needed(a) ==> bytes_needed(a, n) <= j) && 0 <= j
            < now[k].len() ==> #[trigger] now[k][j] == before[k][j]
}

/// Writes the first `n` samples of the buffer into byte planes.
pub(crate) fn put_planes(a: &AudioData, n: usize, planes: &mut Vec<Vec<u8>>) -> (r: Result<(), Error>)
    requires
        a.wf(),
        1 <= a.ch_count,
        n <= a.count,
    ensures
        r.is_ok() == enough(*a, vec_views(old(planes)@), n as int),
        r matches Err(e) ==> e == Error::BufferTooSmall && final(planes)@ == old(planes)@,
        r is Ok ==> planes_written(
            *a,
            n as int,
            vec_views(old(planes)@),
            vec_views(final(planes)@),
        ),
{
    let ghost all = vec_views(planes@);
    let m: usize = if a.planar {
        a.ch_count
    } else {
        1
    };
    if planes.len() < m {
        return Err(Error::BufferTooSmall);
    }
    let need: usize = match bytes_needed_exec(a, n) {
        Some(v) => v,
        None => {
            let _len: usize = planes[0].len();
            assert(all[0] == planes@[0]@);
            return Err(Error::BufferTooSmall);
        },
    };
    let mut k: usize = 0;
    while k < m
        invariant
            k <= m <= planes@.len(),
            m == planes_needed(*a),
            need == bytes_needed(*a, n as int),
            planes@ == old(planes)@,
            all == vec_views(planes@),
            forall|j: int| 0 <= j < k ==> (#[trigger] all[j]).len() >= need,
        decreases m - k,
    {
        assert(all[k as int] == planes@[k as int]@);
        if planes[k].len() < need {
            return Err(Error::BufferTooSmall);
        }
        k = k + 1;
    }
    let mut j: usize = 0;
    while j < m
        invariant
            j <= m <= planes@.len(),
            m == planes_needed(*a),
            a.wf(),
            1 <= a.ch_count,
            n <= a.count,
            all == vec_views(old(planes)@),
            planes@.len() == all.len(),
            forall|k: int| 0 <= k < planes@.len() ==> (#[trigger] planes@[k])@.len() == all[k].len(),
            forall|k: int| 0 <= k < m ==> (#[trigger] all[k]).len() >= bytes_needed(*a, n as int),
            forall|k: int, t: int|
                0 <= k < planes@.len() && (k < j ==> bytes_needed(*a, n as int) <= t) && 0 <= t
                    < all[k].len() ==> #[trigger] planes@[k]@[t] == all[k][t],
            forall|c: int, i: int|
                0 <= c < a.ch_count && 0 <= i < n && plane_of(*a, c) < j ==> #[trigger] bytes::le_value(
                    planes@[plane_of(*a, c)]@,
                    byte_of(*a, c, i),
                    a.bps as nat,
                ) as u64 == a.chans()[c][i],
        decreases m - j,
    {
        let ghost planes0 = planes@;
        let mut p: Vec<u8> = Vec::new();
        std::mem::swap(&mut p, &mut planes[j]);
        let ghost p0 = p@;
        let mut c: usize = if a.planar {
            j
        } else {
            0
        };
        let end: usize = if a.planar {
            j + 1
        } else {
            a.ch_count
        };
        let ghost first = c as int;
        while c < end
            invariant
                first <= c <= end <= a.ch_count,
                a.planar ==> first == j && end == j + 1,
                !a.planar ==> first == 0 && j == 0,
                a.wf(),
                n <= a.count,
                p@.len() == p0.len(),
                p@.len() >= bytes_needed(*a, n as int),
                forall|t: int|
                    bytes_needed(*a, n as int) <= t < p0.len() ==> #[trigger] p@[t] == p0[t],
                forall|cc: int, i: int|
                    first <= cc < c && 0 <= i < n ==> #[trigger] bytes::le_value(
                        p@,
                        byte_of(*a, cc, i),
                        a.bps as nat,
                    ) as u64 == a.chans()[cc][i],
            decreases end - c,
        {
            let ghost before = p@;
            put_channel(a, c, n, &mut p);
            proof {
                assert forall|t: int|
                    bytes_needed(*a, n as int) <= t < p0.len() implies #[trigger] p@[t] == p0[t] by {
                    assert forall|i: int| 0 <= i < n implies !(#[trigger] byte_of(*a, c as int, i)
                        <= t < byte_of(*a, c as int, i) + a.bps) by {
                        lemma_sample_bytes(*a, c as int, i, n as int);
                    }
                    assert(spared(*a, c as int, n as int, t));
                    assert(before[t] == p0[t]);
                }
                assert forall|cc: int, i: int|
                    first <= cc < c + 1 && 0 <= i < n implies #[trigger] bytes::le_value(
                    p@,
                    byte_of(*a, cc, i),
                    a.bps as nat,
                ) as u64 == a.chans()[cc][i] by {
                    if cc < c {
                        let at = byte_of(*a, cc, i);
                        lemma_sample_bytes(*a, cc, i, n as int);
                        assert forall|t: int| at <= t < at + a.bps implies #[trigger] before[t]
                            == p@[t] by {
                            assert forall|i2: int| 0 <= i2 < n implies !(#[trigger] byte_of(
                                *a,
                                c as int,
                                i2,
                            ) <= t < byte_of(*a, c as int, i2) + a.bps) by {
                                lemma_samples_apart(*a, c as int, i2, cc, i);
                            }
                            assert(spared(*a, c as int, n as int, t));
                        }
                        bytes::lemma_le_frame(before, p@, at, a.bps as nat);
                    } else {
                        assert(byte_of(*a, c as int, i) == byte_of(*a, cc, i));
                    }
                }
            }
            c = c + 1;
        }
        std::mem::swap(&mut p, &mut planes[j]);
        assert(planes@ =~= planes0.update(j as int, planes@[j as int]));
        j = j + 1;
    }
    proof {
        let now = vec_views(planes@);
        let got = samples_of(*a, now, n as nat);
        let want = audio::planes_first(a.chans(), n as int);
        assert forall|c: int| 0 <= c < a.ch_count implies got[c] == #[trigger] want[c] by {
            assert forall|i: int| 0 <= i < n implies got[c][i] == #[trigger] want[c][i] by {
                assert(bytes::le_value(
                    planes@[plane_of(*a, c)]@,
                    byte_of(*a, c, i),
                    a.bps as nat,
                ) as u64 == a.chans()[c][i]);
            }
            assert(got[c] =~= want[c]);
        }
        assert(got =~= want);
    }
    Ok(())
}

// --- the stages -------------------------------------------------------------------------

impl SwrContext {
    /// Every used channel is made from an input channel that is there.
    pub open spec fn mapped(self) -> bool {
        self.full_convert is None ==> (self.channel_map matches Some(m) ==> {
            &&& m@.len() >= self.used_channels()
            &&& forall|ch: int|
                0 <= ch < self.used_channels() ==> #[trigger] m@[ch] < self.in_.ch_count
        })
    }

    /// The stages agree about the number of channels.
    pub open spec fn matched(self) -> bool {
        if self.full_convert is Some {
            self.in_.ch_count == self.out.ch_count
        } else {
            self.channel_map is None ==> self.used_channels() == self.in_.ch_count
        }
    }

    /// Tells whether the stages agree about the number of channels.
    fn is_matched(&self) -> (r: bool)
        ensures
            r == self.matched(),
    {
        if self.full_convert.is_some() {
            self.in_.ch_count == self.out.ch_count
        } else {
            self.channel_map.is_some() || self.used_ch_layout.nb_channels == self.in_.ch_count
        }
    }

    /// Tells whether every used channel has its input channel.
    fn is_mapped(&self) -> (r: bool)
        requires
            self.in_.ch_count <= 64,
        ensures
            r == self.mapped(),
    {
        if self.full_convert.is_some() {
            return true;
        }
        match &self.channel_map {
            Some(m) => {
                let used: usize = self.used_ch_layout.nb_channels;
                if m.len() < used {
                    return false;
                }
                let mut i: usize = 0;
                while i < used
                    invariant
                        i <= used <= m@.len(),
                        used == self.used_channels(),
                        self.in_.ch_count <= 64,
                        self.channel_map == Some(*m),
                        self.full_convert is None,
                        forall|k: int| 0 <= k < i ==> #[trigger] m@[k] < self.in_.ch_count,
                    decreases used - i,
                {
                    if m[i] >= self.in_.ch_count as i32 {
                        assert(!(self.channel_map->0@[i as int] < self.in_.ch_count));
                        return false;
                    }
                    i = i + 1;
                }
                true
            },
            None => true,
        }
    }

    /// The mixer finds all its input channels.
    pub open spec fn mixes_well(self) -> bool {
        self.rematrix_needed ==> rematrix::mix_reaches(self.rematrix_ctx->0)
    }

    /// The channels after mixing, if there is mixing.
    pub open spec fn mixed(self, q: Planes, n: nat) -> Planes {
        if self.rematrix_needed {
            rematrix::mix_block(self.rematrix_ctx->0, q, n)
        } else {
            audio::planes_first(q, n as int)
        }
    }

    /// What comes before resampling: `n` samples of the input in the format
    /// between the stages, mixed if mixing comes first.
    pub open spec fn fed(self, p: Planes, n: nat) -> Planes {
        let q = audioconvert::conv_block(self.in_convert->0, p, n);
        if self.resample_first {
            q
        } else {
            self.mixed(q, n)
        }
    }

    /// What comes after resampling: mixed if mixing comes last, and in the output
    /// format.
    pub open spec fn finished(self, q: Planes, n: nat) -> Planes {
        audioconvert::conv_block(
            self.out_convert->0,
            if self.resample_first {
                self.mixed(q, n)
            } else {
                q
            },
            n,
        )
    }

    /// Everything that happens to `n` samples without resampling.
    pub open spec fn piped(self, p: Planes, n: nat) -> Planes {
        match self.full_convert {
            Some(c) => audioconvert::conv_block(c, p, n),
            None => self.finished(self.fed(p, n), n),
        }
    }

    /// The buffers between the stages may hold `n` input and `m` output samples.
    pub open spec fn stageable(self, n: nat, m: nat) -> bool {
        &&& self.postin.may_hold(n)
        &&& self.midbuf.may_hold(
            if self.resample_first {
                m
            } else {
                n
            },
        )
        &&& self.preout.may_hold(m)
    }

    /// Channels that the resampler, if there is one, would see.
    pub open spec fn between_channels(self) -> int {
        if self.resample_first {
            self.used_channels()
        } else {
            self.out.ch_count as int
        }
    }
}

pub(crate) fn may_hold_exec(a: &AudioData, n: usize) -> (r: bool)
    ensures
        r == a.may_hold(n as nat),
{
    a.bps != 0 && a.ch_count != 0 && n <= audio::MAX_BUFFER / a.bps / a.ch_count
}

pub(crate) proof fn lemma_may_hold_size(a: AudioData, n: nat)
    requires
        a.may_hold(n),
        1 <= a.bps <= 8,
        1 <= a.ch_count <= 64,
    ensures
        n <= audio::MAX_BUFFER,
        0 <= a.ch_count * n * a.bps <= audio::MAX_BUFFER,
        0 <= a.ch_count * (n + 2) * a.bps <= audio::MAX_BUFFER + 1024,
{
    let m = a.ch_count as int;
    let b = a.bps as int;
    let k = audio::MAX_BUFFER as int / b;
    lemma_fundamental_div_mod(audio::MAX_BUFFER as int, b);
    lemma_mod_bound(audio::MAX_BUFFER as int, b);
    lemma_fundamental_div_mod(k, m);
    lemma_mod_bound(k, m);
    assert(n * m <= k) by (nonlinear_arith)
        requires
            n <= k / m,
            k == m * (k / m) + k % m,
            0 <= k % m,
            m > 0,
    ;
    assert(n * m * b <= audio::MAX_BUFFER) by (nonlinear_arith)
        requires
            n * m <= k,
            audio::MAX_BUFFER == b * k + audio::MAX_BUFFER as int % b,
            0 <= audio::MAX_BUFFER as int % b,
            b > 0,
    ;
    assert(m * (n + 2) * b == n * m * b + 2 * (m * b)) by (nonlinear_arith);
    assert(m * n * b == n * m * b) by (nonlinear_arith);
    assert(0 <= m * b <= 512) by (nonlinear_arith)
        requires
            1 <= m <= 64,
            1 <= b <= 8,
    ;
    assert(0 <= n <= n * m * b) by (nonlinear_arith)
        requires
            n >= 0,
            m >= 1,
            b >= 1,
    ;
}

proof fn lemma_spliced(z: Planes, p: Planes, ch: int, n: int, m: int)
    requires
        z.len() == ch,
        p.len() == ch,
        0 <= n <= m,
        forall|c: int| 0 <= c < ch ==> (#[trigger] z[c]).len() == m,
        forall|c: int| 0 <= c < ch ==> (#[trigger] p[c]).len() == n,
    ensures
        audio::planes_first(audio::planes_splice(z, 0, p, n), n) == p,
{
    let got = audio::planes_first(audio::planes_splice(z, 0, p, n), n);
    assert forall|c: int| 0 <= c < ch implies got[c] == #[trigger] p[c] by {
        assert(got[c] =~= p[c]);
    }
    assert(got =~= p);
}

/// The first `n` samples of a buffer.
fn head(a: &AudioData, n: usize) -> (r: AudioData)
    requires
        a.wf(),
        n <= a.count,
    ensures
        r.wf(),
        r.same_shape(*a),
        r.count == n,
        r.chans() == audio::planes_first(a.chans(), n as int),
{
    let len: usize = a.data.len();
    assert(a.ch_count * n * a.bps <= a.ch_count * a.count * a.bps) by (nonlinear_arith)
        requires
            n <= a.count,
    ;
    let mut r = scratch_like(a, n);
    let ghost z = r.chans();
    splice(&mut r, 0, a, n);
    proof {
        let want = audio::planes_first(a.chans(), n as int);
        assert forall|c: int| 0 <= c < a.ch_count implies r.chans()[c] == #[trigger] want[c] by {
            assert(r.chans()[c] =~= want[c]);
        }
        assert(r.chans() =~= want);
    }
    r
}

impl SwrContext {
    /// The state of the context but for what running samples through it changes.
    pub open spec fn same_setup(self, o: SwrContext) -> bool {
        self == (SwrContext {
            in_buffer: self.in_buffer,
            in_buffer_index: self.in_buffer_index,
            in_buffer_count: self.in_buffer_count,
            resample_in_constraint: self.resample_in_constraint,
            flushed: self.flushed,
            outpts: self.outpts,
            drop_output: self.drop_output,
            resample: self.resample,
            ..o
        })
    }

    /// Prepares `n` input samples for the resampler.
    fn feed(&self, in_: &AudioData, n: usize) -> (r: Result<AudioData, Error>)
        requires
            self.staged_live(),
            n > 0 ==> self.mapped(),
            in_.wf(),
            in_.same_shape(self.in_),
            in_.count == n,
            self.postin.may_hold(n as nat),
            self.resample_first || self.midbuf.may_hold(n as nat),
        ensures
            r.is_ok() == (self.resample_first || self.mixes_well() || n == 0),
            r matches Err(e) ==> e == Error::BufferTooSmall,
            r matches Ok(a) ==> {
                &&& a.wf()
                &&& swr::shaped(a, self.between_channels(), self.int_sample_fmt)
                &&& a.count == n
                &&& a.chans() == self.fed(in_.chans(), n as nat)
            },
    {
        proof {
            reveal(swr::in_stage);
            reveal(swr::mix_stage);
            lemma_may_hold_size(self.postin, n as nat);
        }
        let mut post = scratch_like(&self.postin, n);
        match &self.in_convert {
            Some(c) => {
                proof {
                    if n > 0 {
                        assert forall|ch: int| 0 <= ch < c.channels implies #[trigger] c.source(ch)
                            < in_.ch_count by {
                            if self.channel_map is Some {
                                assert(c.ch_map->0@ == self.channel_map->0@);
                                assert(self.channel_map->0@[ch] < self.in_.ch_count);
                            }
                        }
                        assert(c.feeds_on(in_.ch_count as int));
                    }
                }
                let ghost z = post.chans();
                let _ = convert_block(c, &mut post, in_, n);
                proof {
                    let q = audioconvert::conv_block(*c, in_.chans(), n as nat);
                    lemma_spliced(z, q, c.channels as int, n as int, n as int);
                    lemma_whole(post.chans(), n as int);
                }
            },
            None => {},
        }
        if self.resample_first {
            return Ok(post);
        }
        if !self.rematrix_needed {
            proof {
                lemma_whole(post.chans(), n as int);
            }
            return Ok(post);
        }
        proof {
            lemma_may_hold_size(self.midbuf, n as nat);
        }
        let mut mid = scratch_like(&self.midbuf, n);
        match &self.rematrix_ctx {
            Some(m) => {
                let ghost z = mid.chans();
                match mix_into(m, &mut mid, &post, n) {
                    Ok(_) => {},
                    Err(e) => {
                        return Err(e);
                    },
                }
                proof {
                    let q = rematrix::mix_block(*m, post.chans(), n as nat);
                    lemma_spliced(z, q, m.out_nb as int, n as int, n as int);
                    lemma_whole(mid.chans(), n as int);
                }
            },
            None => {},
        }
        Ok(mid)
    }

    /// A context with stages that fit together.
    pub open spec fn staged_live(self) -> bool {
        &&& self.live()
        &&& self.full_convert is None
        &&& self.matched()
    }

    /// Turns `n` samples from behind the resampler into output.
    fn finish(&self, out: &mut AudioData, q: &AudioData, n: usize) -> (r: Result<(), Error>)
        requires
            self.staged_live(),
            old(out).wf(),
            old(out).same_shape(self.out),
            n <= old(out).count,
            q.wf(),
            swr::shaped(*q, self.between_channels(), self.int_sample_fmt),
            q.count == n,
            self.preout.may_hold(n as nat),
        ensures
            r.is_ok() == (self.resample_first && n > 0 ==> self.mixes_well()),
            r matches Err(e) ==> e == Error::BufferTooSmall,
            final(out).wf(),
            final(out).same_shape(*old(out)),
            final(out).count == old(out).count,
            r is Ok ==> final(out).chans() == audio::planes_splice(
                old(out).chans(),
                0,
                self.finished(q.chans(), n as nat),
                n as int,
            ),
    {
        proof {
            reveal(swr::out_stage);
            reveal(swr::mix_stage);
            lemma_may_hold_size(self.preout, n as nat);
            lemma_whole(q.chans(), n as int);
        }
        match &self.out_convert {
            Some(c) => {
                if self.resample_first && self.rematrix_needed {
                    let mut pre = scratch_like(&self.preout, n);
                    match &self.rematrix_ctx {
                        Some(m) => {
                            let ghost z = pre.chans();
                            match mix_into(m, &mut pre, q, n) {
                                Ok(_) => {},
                                Err(e) => {
                                    return Err(e);
                                },
                            }
                            proof {
                                let t = rematrix::mix_block(*m, q.chans(), n as nat);
                                lemma_spliced(z, t, m.out_nb as int, n as int, n as int);
                                lemma_whole(pre.chans(), n as int);
                            }
                        },
                        None => {},
                    }
                    convert_block(c, out, &pre, n)
                } else {
                    convert_block(c, out, q, n)
                }
            },
            None => Ok(()),
        }
    }

    /// Runs `n` samples through a context without a resampler.
    fn convert_straight(&self, out: &mut AudioData, in_: &AudioData, n: usize) -> (r: Result<(), Error>)
        requires
            self.live(),
            self.resample is None,
            n > 0,
            old(out).wf(),
            old(out).same_shape(self.out),
            n <= old(out).count,
            in_.wf(),
            in_.same_shape(self.in_),
            in_.count == n,
        ensures
            r.is_ok() == self.runs(n as nat),
            r matches Err(e) ==> self.run_error(n as nat, e),
            final(out).wf(),
            final(out).same_shape(*old(out)),
            final(out).count == old(out).count,
            r is Ok ==> final(out).chans() == audio::planes_splice(
                old(out).chans(),
                0,
                self.piped(in_.chans(), n as nat),
                n as int,
            ),
    {
        let matched: bool = self.is_matched();
        match &self.full_convert {
            Some(c) => {
                proof {
                    reveal(swr::only_stage);
                }
                if !matched {
                    return Err(invalid(
                        "swri_audioconvert: out channel count does not match the converter context",
                    ));
                }
                return convert_block(c, out, in_, n);
            },
            None => {},
        }
        if !may_hold_exec(&self.postin, n) || !may_hold_exec(&self.midbuf, n) || !may_hold_exec(
            &self.preout,
            n,
        ) {
            return Err(invalid("swri_realloc_audio: sample count out of range"));
        }
        if !matched {
            return Err(invalid(
                        "swri_audioconvert: out channel count does not match the converter context",
                    ));
        }
        if !self.is_mapped() {
            return Err(Error::BufferTooSmall);
        }
        match self.feed(in_, n) {
            Ok(q) => self.finish(out, &q, n),
            Err(e) => Err(e),
        }
    }

    /// `n` samples can be run through a context without a resampler.
    pub open spec fn runs(self, n: nat) -> bool {
        &&& self.matched()
        &&& self.mapped()
        &&& self.full_convert is Some || self.stageable(n, n) && self.mixes_well()
    }

    pub open spec fn run_error(self, n: nat, e: Error) -> bool {
        if self.full_convert is None && !self.stageable(n, n) {
            e.is_invalid("swri_realloc_audio: sample count out of range"@)
        } else if !self.matched() {
            e.is_invalid(
                "swri_audioconvert: out channel count does not match the converter context"@,
            )
        } else {
            e == Error::BufferTooSmall
        }
    }
}

// --- resampling -------------------------------------------------------------------------

impl SwrContext {
    /// The samples that are not used up yet.
    pub open spec fn held(self) -> Planes {
        audio::planes_window(
            self.in_buffer.chans(),
            self.in_buffer_index as int,
            self.in_buffer_count as int,
        )
    }

    /// `n` samples behind `count` leave the numbers of the resampler and the size
    /// of its buffer within their limits.
    pub open spec fn rate_room(self, count: int, n: int) -> bool {
        &&& self.rate_numbers(count, n)
        &&& self.in_buffer.may_hold(
            (stream::start_end(self.resample->0, self.in_buffer_index as int, count) + n) as nat,
        )
    }

    pub open spec fn rate_numbers(self, count: int, n: int) -> bool {
        let fl = self.resample->0.filter_length as int;
        &&& count + n + fl <= i32::MAX
        &&& self.in_buffer_index + count + n + 2 * fl + 4 <= usize::MAX
        &&& self.in_buffer.ch_count * (2 * (2 * fl + 1)) * self.in_buffer.bps <= usize::MAX
    }

    fn rate_numbers_exec(&self, r: &ResampleContext, n: usize) -> (b: bool)
        requires
            self.in_buffer.ch_count <= 64,
            self.in_buffer.bps <= 8,
            1 <= r.filter_length <= 0x100_0000,
        ensures
            b == (SwrContext { resample: Some(*r), ..*self }).rate_numbers(
                self.in_buffer_count as int,
                n as int,
            ),
    {
        let fl: u128 = r.filter_length as u128;
        let c: u128 = self.in_buffer_count as u128;
        let i: u128 = self.in_buffer_index as u128;
        assert(0 <= self.in_buffer.ch_count * (2 * (2 * fl + 1)) <= 64 * (2 * (2 * fl + 1)))
            by (nonlinear_arith)
            requires
                0 <= self.in_buffer.ch_count <= 64,
                fl >= 0,
        ;
        let t: u128 = self.in_buffer.ch_count as u128 * (2 * (2 * fl + 1));
        assert(0 <= t * self.in_buffer.bps <= t * 8) by (nonlinear_arith)
            requires
                0 <= self.in_buffer.bps <= 8,
                t >= 0,
        ;
        c + n as u128 + fl <= i32::MAX as u128 && i + c + n as u128 + 2 * fl + 4 <= usize::MAX as u128
            && t * self.in_buffer.bps as u128 <= usize::MAX as u128
    }

    /// The resampler may refuse `n` samples behind `count` for `m` outputs.
    pub open spec fn rate_refused(self, count: int, n: int, m: int) -> bool {
        ||| !self.stageable(n as nat, m as nat)
        ||| !self.matched()
        ||| n > 0 && !self.mapped()
        ||| !self.mixes_well()
        ||| !self.rate_room(count, n)
        ||| !self.resample->0.gentle()
        ||| !self.resample->0.faithful(m)
    }

    /// `n` samples do not get as far as the resampler.
    pub open spec fn unfed(self, n: int, m: int) -> bool {
        ||| !self.stageable(n as nat, m as nat)
        ||| !self.matched()
        ||| n > 0 && !self.mapped()
        ||| n > 0 && !self.resample_first && !self.mixes_well()
    }

    /// Why they do not.
    pub open spec fn unfed_error(self, n: int, m: int, e: Error) -> bool {
        if !self.stageable(n as nat, m as nat) {
            e.is_invalid("swri_realloc_audio: sample count out of range"@)
        } else if !self.matched() {
            e.is_invalid(
                "swri_audioconvert: out channel count does not match the converter context"@,
            )
        } else {
            e == Error::BufferTooSmall
        }
    }

    /// The resampling of `n` samples behind `count` to `m` outputs, at its start. The
    /// buffer has memory for `cap` samples.
    pub open spec fn trip(self, cap: int, count: int, n: int, m: int, blocked: bool) -> Trip {
        stream::setting_out(
            self.resample->0,
            cap,
            stream::buffer_most(self.in_buffer),
            self.in_buffer_index as int,
            count,
            n,
            INPUT_TAIL as int,
            m,
            blocked,
        )
    }

    /// The resampling of the stream `x` has come as far as `t` and left `new` of the
    /// context.
    pub open spec fn left_at(self, new: SwrContext, t: Trip, x: Planes) -> bool {
        &&& new == (SwrContext {
            in_buffer: new.in_buffer,
            in_buffer_index: new.in_buffer_index,
            in_buffer_count: new.in_buffer_count,
            resample_in_constraint: new.resample_in_constraint,
            resample: Some(t.p.r),
            ..self
        })
        &&& new.in_buffer.same_shape(self.in_buffer)
        &&& new.in_buffer.count == t.cap
        &&& new.in_buffer_index == t.index
        &&& new.in_buffer_count == t.p.count
        &&& new.held() == audio::planes_window(x, t.place(), t.p.count)
    }

    /// What the resampler makes of `n` samples, which make the stream `up` with those
    /// that are held, and of a request for `m` outputs.
    pub open spec fn stage_outcome(
        self,
        new: SwrContext,
        up: Planes,
        n: int,
        m: int,
        res: Result<usize, Error>,
    ) -> bool {
        let r = self.resample->0;
        let count = self.in_buffer_count as int;
        if !self.rate_numbers(count, n) {
            new == self && (res matches Err(e) && stream::halt_error(Halt::Full, e))
        } else if !r.steady() {
            new == self && (res matches Err(e) && stream::halt_error(Halt::Stray, e))
        } else if r.starved(count + n) {
            &&& res == Ok::<usize, Error>(0)
            &&& new == (SwrContext {
                in_buffer: new.in_buffer,
                in_buffer_index: r.filter_length as usize,
                in_buffer_count: (count + n) as usize,
                ..self
            })
            &&& new.in_buffer.same_shape(self.in_buffer)
            &&& new.in_buffer.count == stream::start_cap(r, self.in_buffer.count as int)
            &&& new.held() == up
        } else {
            let (t, halt) = self.trip(
                self.in_buffer.count as int,
                count,
                n,
                m,
                self.resample_in_constraint,
            ).ending(self.flushed);
            &&& halt != Some(Halt::Stray) ==> self.left_at(new, t, r.stream(up))
            &&& match halt {
                Some(h) => {
                    &&& res matches Err(e) && stream::halt_error(h, e)
                    &&& h !is Stray ==> new.resample_in_constraint == t.p.blocked
                },
                None => {
                    &&& res matches Ok(k) && k == t.p.done
                    &&& new.resample_in_constraint == (t.p.done != m)
                },
            }
        }
    }

    /// The outputs of the resampler can be mixed, if they still have to be.
    pub open spec fn mixes_last(self, res: Result<usize, Error>) -> Result<usize, Error> {
        match res {
            Ok(k) => if k > 0 && self.resample_first && !self.mixes_well() {
                Err(Error::BufferTooSmall)
            } else {
                Ok(k)
            },
            Err(e) => Err(e),
        }
    }

    /// What comes of `n` samples, which make the stream `up` with those that are held,
    /// and of a request for `m` outputs.
    pub open spec fn rate_outcome(
        self,
        new: SwrContext,
        up: Planes,
        n: int,
        m: int,
        res: Result<usize, Error>,
    ) -> bool {
        if self.unfed(n, m) {
            new == self && (res matches Err(e) && self.unfed_error(n, m, e))
        } else {
            exists|got: Result<usize, Error>| #[trigger]
                self.stage_outcome(new, up, n, m, got) && res == self.mixes_last(got)
        }
    }

    /// What a request for `m` outputs from the stream `up` makes of the context. The
    /// stream has `len` samples in each channel, the first `count` of them in the
    /// buffer, and after it nothing more if it is `flushed`. `n` outputs come. A
    /// `blocked` context waits for input; without it, it is `idle`.
    pub open spec fn rated(
        self,
        new: SwrContext,
        up: Planes,
        len: int,
        count: int,
        blocked: bool,
        idle: bool,
        flushed: bool,
        m: int,
        n: int,
    ) -> bool {
        &&& self.matched()
        &&& len > count ==> self.mapped()
        &&& self.mixes_well() || if self.resample_first {
            n == 0
        } else {
            len == count
        }
        &&& self.resampled(new, up, len, count, blocked, idle, flushed, m, n)
    }

    /// What the resampler makes of the context then.
    pub open spec fn resampled(
        self,
        new: SwrContext,
        up: Planes,
        len: int,
        count: int,
        blocked: bool,
        idle: bool,
        flushed: bool,
        m: int,
        n: int,
    ) -> bool {
        let r = self.resample->0;
        let s = r.begun();
        let x = r.stream(up);
        let total = r.stream_len(len);
        &&& r.steady()
        &&& if r.starved(len) {
            &&& n == 0
            &&& new.resample == self.resample
            &&& new.resample_in_constraint == blocked
            &&& new.in_buffer_count == len
            &&& new.held() == up
        } else {
            &&& 0 <= n <= m
            &&& n == stream::opening(r, count, len - count, m, blocked).made(flushed)
            &&& idle ==> n == 0
            &&& new.resample_in_constraint == (n != m)
            &&& new.resample == Some(s.run(n as nat))
            &&& new.in_buffer_count == total - s.spent(n as nat)
            &&& new.held() == audio::planes_window(
                x,
                s.spent(n as nat),
                total - s.spent(n as nat),
            )
            &&& s.plain(total) && !idle ==> s.punctual(total, m, n)
        }
    }

    /// The first `n` outputs from the stream `up` that come out of the context.
    pub open spec fn rated_output(self, up: Planes, n: nat) -> Planes {
        let r = self.resample->0;
        self.finished(stream::outputs(r.begun(), r.stream(up), n), n)
    }

    /// The `n` outputs repeat the samples at `at` of the stream that `up` makes; they
    /// have come into `now`, which was `before`.
    pub open spec fn repeated(
        self,
        up: Planes,
        at: Seq<int>,
        n: nat,
        before: Planes,
        now: Planes,
    ) -> bool {
        exists|y: Planes|
            {
                &&& #[trigger] stream::taken_from(y, silent_behind(self.resample->0.stream(up)), at)
                &&& now == audio::planes_splice(before, 0, self.finished(y, n), n as int)
            }
    }

    /// Up to `m` outputs are those of the stream.
    pub open spec fn rate_known(self, len: int, m: int) -> bool {
        let r = self.resample->0;
        r.starved(len) || r.faithful(m)
    }

    /// Where the outputs of a call lie in the stream, if the filter is the identity.
    pub open spec fn places(self, n: int, m: int) -> Seq<int> {
        self.trip(
            self.in_buffer.count as int,
            self.in_buffer_count as int,
            n,
            m,
            self.resample_in_constraint,
        ).ending(self.flushed).0.at
    }

    /// Resamples `in_count` samples that have been prepared.
    #[verifier::rlimit(80)]
    fn run_stage(&mut self, q: &AudioData, in_count: usize, out_count: usize) -> (res: Result<
        AudioData,
        Error,
    >)
        requires
            old(self).staged_live(),
            old(self).resample is Some,
            out_count <= i32::MAX,
            q.wf(),
            swr::shaped(*q, old(self).between_channels(), old(self).int_sample_fmt),
            q.count == in_count,
            old(self).stageable(in_count as nat, out_count as nat),
        ensures
            final(self).live(),
            final(self).same_setup(*old(self)),
            final(self).resample is Some,
            final(self).flushed == old(self).flushed,
            final(self).outpts == old(self).outpts,
            final(self).drop_output == old(self).drop_output,
            res is Err ==> {
                ||| !old(self).rate_room(old(self).in_buffer_count as int, in_count as int)
                ||| !old(self).resample->0.gentle()
                ||| !old(self).resample->0.faithful(out_count as int)
            },
            old(self).stage_outcome(
                *final(self),
                audio::planes_join(old(self).held(), q.chans()),
                in_count as int,
                out_count as int,
                match res {
                    Ok(a) => Ok(a.count),
                    Err(e) => Err(e),
                },
            ),
            res is Ok ==> old(self).rate_numbers(
                old(self).in_buffer_count as int,
                in_count as int,
            ),
            ({
                let up = audio::planes_join(old(self).held(), q.chans());
                let len = old(self).in_buffer_count + in_count;
                let r = old(self).resample->0;
                res matches Ok(a) ==> {
                    &&& a.wf()
                    &&& swr::shaped(a, old(self).between_channels(), old(self).int_sample_fmt)
                    &&& a.count <= out_count
                    &&& old(self).resampled(
                        *final(self),
                        up,
                        len,
                        old(self).in_buffer_count as int,
                        old(self).resample_in_constraint,
                        old(self).resample_in_constraint && in_count == 0,
                        old(self).flushed,
                        out_count as int,
                        a.count as int,
                    )
                    &&& old(self).rate_known(len, out_count as int) && a.count > 0 ==> a.chans()
                        == stream::outputs(r.begun(), r.stream(up), a.count as nat)
                    &&& r.is_trivial() && !r.starved(len) ==> stream::taken_from(
                        a.chans(),
                        silent_behind(r.stream(up)),
                        old(self).places(in_count as int, out_count as int),
                    )
                    &&& final(self).in_buffer_index + final(self).in_buffer_count
                        <= stream::start_end(
                        r,
                        old(self).in_buffer_index as int,
                        old(self).in_buffer_count as int,
                    ) + in_count
                    &&& !r.starved(len) ==> {
                        let t = final(self).resample->0;
                        &&& t.steady()
                        &&& t.index >= 0
                        &&& t.alike(r)
                    }
                }
            }),
    {
        let ghost c0 = *self;
        let ghost fed = q.chans();
        proof {
            reveal(swr::rate_stage);
            lemma_may_hold_size(
                if self.resample_first {
                    self.midbuf
                } else {
                    self.preout
                },
                out_count as nat,
            );
            lemma_may_hold_size(self.postin, in_count as nat);
            if !self.resample_first {
                lemma_may_hold_size(self.midbuf, in_count as nat);
            }
            lemma_whole(fed, in_count as int);
        }
        let mut r: ResampleContext = match self.resample.take() {
            Some(r) => r,
            None => {
                return Err(Error::BufferTooSmall);
            },
        };
        if !self.rate_numbers_exec(&r, in_count) {
            self.resample = Some(r);
            assert(*self == c0);
            return Err(invalid("swri_realloc_audio: sample count out of range"));
        }
        let mut src = scratch_like(q, in_count + INPUT_TAIL);
        let ghost zs = src.chans();
        splice(&mut src, 0, q, in_count);
        proof {
            lemma_spliced(zs, fed, self.between_channels(), in_count as int, in_count + 2);
        }
        let mut dst = scratch_like(q, out_count);
        let ghost zd = dst.chans();
        let flushed: bool = self.flushed;
        let res: Result<usize, Error> = resample_stage(
            &mut r,
            &mut self.in_buffer,
            &mut self.in_buffer_index,
            &mut self.in_buffer_count,
            &mut self.resample_in_constraint,
            flushed,
            &mut dst,
            out_count,
            &src,
            in_count,
        );
        self.resample = Some(r);
        let n: usize = match res {
            Ok(n) => n,
            Err(e) => {
                proof {
                    let t = c0.resample->0;
                    if c0.rate_room(c0.in_buffer_count as int, in_count as int) && t.gentle()
                        && t.faithful(out_count as int) {
                        stream::lemma_smooth_call(
                            t,
                            c0.in_buffer.count as int,
                            stream::buffer_most(c0.in_buffer),
                            c0.in_buffer_index as int,
                            c0.in_buffer_count as int,
                            in_count as int,
                            INPUT_TAIL as int,
                            out_count as int,
                            c0.resample_in_constraint,
                            flushed,
                        );
                    }
                }
                return Err(e);
            },
        };
        let got: AudioData = head(&dst, n);
        proof {
            let r0 = c0.resample->0;
            let s = r0.begun();
            let x = r0.stream(audio::planes_join(c0.held(), fed));
            if !r0.starved(c0.in_buffer_count + in_count) {
                reveal(stream::stands);
                if s.faithful(out_count as int) {
                    let y = stream::outputs(s, x, n as nat);
                    lemma_spliced(zd, y, self.between_channels(), n as int, out_count as int);
                }
                if r0.is_trivial() {
                    let total = r0.stream_len(c0.in_buffer_count + in_count);
                    lemma_silent_behind(x, src, fed, in_count as int);
                    stream::lemma_taken_from(
                        silent_behind(x),
                        total + INPUT_TAIL,
                        zd,
                        c0.places(in_count as int, out_count as int),
                        dst.chans(),
                    );
                }
            }
        }
        Ok(got)
    }

    /// Resamples `in_count` input samples, behind those that are held, to up to
    /// `out_count` outputs.
    #[verifier::rlimit(60)]
    fn convert_rated(
        &mut self,
        out: &mut AudioData,
        out_count: usize,
        in_: &AudioData,
        in_count: usize,
    ) -> (res: Result<usize, Error>)
        requires
            old(self).live(),
            old(self).resample is Some,
            old(out).wf(),
            old(out).same_shape(old(self).out),
            out_count <= old(out).count,
            out_count <= i32::MAX,
            in_.wf(),
            in_.same_shape(old(self).in_),
            in_.count == in_count,
        ensures
            final(self).live(),
            final(self).same_setup(*old(self)),
            final(self).resample is Some,
            final(self).flushed == old(self).flushed,
            final(self).outpts == old(self).outpts,
            final(self).drop_output == old(self).drop_output,
            final(out).wf(),
            final(out).same_shape(*old(out)),
            final(out).count == old(out).count,
            res is Err ==> old(self).rate_refused(
                old(self).in_buffer_count as int,
                in_count as int,
                out_count as int,
            ),
            old(self).rate_outcome(
                *final(self),
                audio::planes_join(old(self).held(), old(self).fed(in_.chans(), in_count as nat)),
                in_count as int,
                out_count as int,
                res,
            ),
            res is Ok ==> old(self).stageable(in_count as nat, out_count as nat),
            res is Ok ==> old(self).rate_numbers(
                old(self).in_buffer_count as int,
                in_count as int,
            ),
            ({
                let up = audio::planes_join(
                    old(self).held(),
                    old(self).fed(in_.chans(), in_count as nat),
                );
                let len = old(self).in_buffer_count + in_count;
                res matches Ok(n) ==> {
                    &&& old(self).rated(
                        *final(self),
                        up,
                        len,
                        old(self).in_buffer_count as int,
                        old(self).resample_in_constraint,
                        old(self).resample_in_constraint && in_count == 0,
                        old(self).flushed,
                        out_count as int,
                        n as int,
                    )
                    &&& old(self).rate_known(len, out_count as int) ==> final(out).chans() == audio::planes_splice(
                        old(out).chans(),
                        0,
                        old(self).rated_output(up, n as nat),
                        n as int,
                    )
                    &&& old(self).resample->0.is_trivial() && !old(self).resample->0.starved(len)
                        ==> old(self).repeated(
                        up,
                        old(self).places(in_count as int, out_count as int),
                        n as nat,
                        old(out).chans(),
                        final(out).chans(),
                    )
                    &&& final(self).in_buffer_index + final(self).in_buffer_count
                        <= stream::start_end(
                        old(self).resample->0,
                        old(self).in_buffer_index as int,
                        old(self).in_buffer_count as int,
                    ) + in_count
                    &&& !old(self).resample->0.starved(len) ==> {
                        let r = final(self).resample->0;
                        &&& r.steady()
                        &&& r.index >= 0
                        &&& r.alike(old(self).resample->0)
                    }
                }
            }),
    {
        let ghost c0 = *self;
        let ghost fed = self.fed(in_.chans(), in_count as nat);
        proof {
            lemma_no_output(out.chans(), c0.rated_output(audio::planes_join(c0.held(), fed), 0), self.out.ch_count as int);
        }
        let ok: bool = may_hold_exec(
            &self.midbuf,
            if self.resample_first {
                out_count
            } else {
                in_count
            },
        );
        if !ok || !may_hold_exec(&self.postin, in_count) || !may_hold_exec(&self.preout, out_count) {
            return Err(invalid("swri_realloc_audio: sample count out of range"));
        }
        if !self.is_matched() {
            return Err(
                invalid(
                    "swri_audioconvert: out channel count does not match the converter context",
                ),
            );
        }
        if in_count > 0 && !self.is_mapped() {
            return Err(Error::BufferTooSmall);
        }
        let q: AudioData = match self.feed(in_, in_count) {
            Ok(q) => q,
            Err(e) => {
                return Err(e);
            },
        };
        let ghost up = audio::planes_join(c0.held(), fed);
        let got: AudioData = match self.run_stage(&q, in_count, out_count) {
            Ok(a) => a,
            Err(e) => {
                assert(c0.stage_outcome(*self, up, in_count as int, out_count as int, Err(e)));
                return Err(e);
            },
        };
        let n: usize = got.count;
        assert(c0.stage_outcome(*self, up, in_count as int, out_count as int, Ok(n)));
        if n == 0 {
            proof {
                lemma_no_output(out.chans(), c0.finished(got.chans(), 0), self.out.ch_count as int);
            }
            return Ok(0);
        }
        proof {
            assert(self.preout.may_hold(n as nat));
        }
        match self.finish(out, &got, n) {
            Ok(_) => Ok(n),
            Err(e) => Err(e),
        }
    }
}

/// The stream `x` with silence behind it.
pub open spec fn silent_behind(x: Planes) -> Planes {
    audio::planes_join(x, audio::planes_zero(x.len(), INPUT_TAIL as nat))
}

proof fn lemma_silent_behind(x: Planes, src: AudioData, fed: Planes, n: int)
    requires
        src.wf(),
        x.len() == src.ch_count,
        src.count == n + INPUT_TAIL,
        0 <= n,
        src.chans() == audio::planes_splice(
            audio::planes_zero(src.ch_count as nat, (n + INPUT_TAIL) as nat),
            0,
            fed,
            n,
        ),
    ensures
        stream::followed(x, src.chans(), n, INPUT_TAIL as int) == silent_behind(x),
{
    let a = audio::planes_window(src.chans(), n, INPUT_TAIL as int);
    let b = audio::planes_zero(x.len(), INPUT_TAIL as nat);
    assert forall|c: int| 0 <= c < x.len() implies a[c] == #[trigger] b[c] by {
        assert(a[c] =~= b[c]);
    }
    assert(a =~= b);
}

proof fn lemma_no_output(p: Planes, q: Planes, ch: int)
    requires
        p.len() == ch,
    ensures
        audio::planes_splice(p, 0, q, 0) == p,
{
    lemma_no_splice(p, 0, q, ch);
}

proof fn lemma_no_splice(p: Planes, off: int, q: Planes, ch: int)
    requires
        p.len() == ch,
    ensures
        audio::planes_splice(p, off, q, 0) == p,
{
    let got = audio::planes_splice(p, off, q, 0);
    assert forall|c: int| 0 <= c < ch implies got[c] == #[trigger] p[c] by {
        assert(got[c] =~= p[c]);
    }
    assert(got =~= p);
}

/// Planes of `n` samples are their own first `n` samples.
pub(crate) proof fn lemma_whole(p: Planes, n: int)
    requires
        forall|c: int| 0 <= c < p.len() ==> (#[trigger] p[c]).len() == n,
    ensures
        audio::planes_first(p, n) == p,
{
    let got = audio::planes_first(p, n);
    assert forall|c: int| 0 <= c < p.len() implies got[c] == #[trigger] p[c] by {
        assert(got[c] =~= p[c]);
    }
    assert(got =~= p);
}

// --- without resampling -----------------------------------------------------------------

impl SwrContext {
    /// Without resampling every instant is treated alone: the outputs of a piece
    /// are a piece of the outputs.
    pub proof fn lemma_piece(self, p: Planes, m: nat, off: int, n: nat)
        requires
            self.live(),
            self.matched(),
            self.mapped(),
            self.mixes_well(),
            0 <= off,
            off + n <= m,
            p.len() == self.in_.ch_count,
            forall|c: int| 0 <= c < p.len() ==> (#[trigger] p[c]).len() >= m,
        ensures
            self.piped(audio::planes_window(p, off, n as int), n) == audio::planes_window(
                self.piped(p, m),
                off,
                n as int,
            ),
    {
        let w = audio::planes_window(p, off, n as int);
        let a = self.piped(w, n);
        let b = audio::planes_window(self.piped(p, m), off, n as int);
        assert forall|c: int| 0 <= c < self.out.ch_count implies a[c] == #[trigger] b[c] by {
            self.lemma_piped_shape(w, n, c);
            self.lemma_piped_shape(p, m, c);
            assert forall|i: int| 0 <= i < n implies a[c][i] == #[trigger] b[c][i] by {
                self.lemma_instant(w, n, i, p, m, off + i, c);
            }
            assert(a[c] =~= b[c]);
        }
        self.lemma_piped_shape(w, n, 0);
        self.lemma_piped_shape(p, m, 0);
        assert(a =~= b);
    }

    pub(crate) proof fn lemma_piped_shape(self, p: Planes, n: nat, c: int)
        requires
            self.live(),
            self.matched(),
            0 <= c < self.out.ch_count,
        ensures
            self.piped(p, n).len() == self.out.ch_count,
            self.piped(p, n)[c].len() == n,
    {
        reveal(swr::only_stage);
        reveal(swr::out_stage);
    }

    pub(crate) proof fn lemma_fed_shape(self, p: Planes, n: nat)
        requires
            self.staged_live(),
            self.resample is Some,
        ensures
            self.fed(p, n).len() == self.in_buffer.ch_count,
            forall|c: int|
                0 <= c < self.in_buffer.ch_count ==> (#[trigger] self.fed(p, n)[c]).len() == n,
    {
        reveal(swr::in_stage);
        reveal(swr::mix_stage);
    }

    pub(crate) proof fn lemma_finished_shape(self, q: Planes, n: nat)
        requires
            self.staged_live(),
        ensures
            self.finished(q, n).len() == self.out.ch_count,
            forall|c: int|
                0 <= c < self.out.ch_count ==> (#[trigger] self.finished(q, n)[c]).len() == n,
    {
        reveal(swr::out_stage);
    }

    proof fn lemma_instant(self, p: Planes, n: nat, i: int, p2: Planes, n2: nat, i2: int, c: int)
        requires
            self.live(),
            self.matched(),
            self.mapped(),
            self.mixes_well(),
            0 <= c < self.out.ch_count,
            0 <= i < n,
            0 <= i2 < n2,
            forall|t: int| 0 <= t < self.in_.ch_count ==> p[t][i] == #[trigger] p2[t][i2],
        ensures
            self.piped(p, n)[c][i] == self.piped(p2, n2)[c][i2],
    {
        reveal(swr::only_stage);
        match self.full_convert {
            Some(f) => {
                assert(p[c][i] == p2[c][i2]);
            },
            None => {
                reveal(swr::in_stage);
                reveal(swr::out_stage);
                reveal(swr::mix_stage);
                let f = self.in_convert->0;
                let q = audioconvert::conv_block(f, p, n);
                let q2 = audioconvert::conv_block(f, p2, n2);
                assert forall|t: int| 0 <= t < f.channels implies q[t][i] == #[trigger] q2[t][i2] by {
                    if self.channel_map is Some {
                        assert(f.ch_map->0@ == self.channel_map->0@);
                        assert(self.channel_map->0@[t] < self.in_.ch_count);
                    }
                    if f.source(t) >= 0 {
                        assert(p[f.source(t)][i] == p2[f.source(t)][i2]);
                    }
                }
                let u = self.mixed(q, n);
                let u2 = self.mixed(q2, n2);
                assert(u[c][i] == u2[c][i2]) by {
                    if self.rematrix_needed {
                        rematrix::lemma_mix_instant(self.rematrix_ctx->0, c, q, i, q2, i2);
                    } else {
                        assert(q[c][i] == q2[c][i2]);
                    }
                }
            },
        }
    }
}

/// A buffer takes `extra` more samples behind the `count` ones at `index`, if
/// need be after these have been moved to the front.
pub open spec fn fifo_room(b: AudioData, index: int, count: int, extra: int) -> bool {
    let size = index + count + extra;
    size > b.count && count + extra <= index || b.may_hold(size as nat)
}

/// Makes room for `extra` more samples.
fn make_room(b: &mut AudioData, index: &mut usize, count: usize, extra: usize) -> (r: Result<
    (),
    Error,
>)
    requires
        old(b).wf(),
        1 <= old(b).ch_count <= 64,
        *old(index) + count <= old(b).count,
    ensures
        r.is_ok() == fifo_room(*old(b), *old(index) as int, count as int, extra as int),
        r matches Err(e) ==> {
            &&& e.is_invalid("swri_realloc_audio: sample count out of range"@)
            &&& *final(b) == *old(b)
            &&& *final(index) == *old(index)
        },
        r is Ok ==> {
            &&& final(b).wf()
            &&& final(b).same_shape(*old(b))
            &&& *final(index) + count + extra <= final(b).count
            &&& audio::planes_window(final(b).chans(), *final(index) as int, count as int)
                == audio::planes_window(old(b).chans(), *old(index) as int, count as int)
        },
{
    let ghost w = audio::planes_window(b.chans(), *index as int, count as int);
    let size: u128 = *index as u128 + count as u128 + extra as u128;
    if size > b.count as u128 && count as u128 + extra as u128 <= *index as u128 {
        compact(b, *index, count);
        *index = 0;
        proof {
            let got = audio::planes_window(b.chans(), 0, count as int);
            assert forall|c: int| 0 <= c < w.len() implies got[c] == #[trigger] w[c] by {
                assert(got[c] =~= w[c]);
            }
            assert(got =~= w);
        }
        Ok(())
    } else if size > audio::MAX_BUFFER as u128 {
        proof {
            let k = audio::MAX_BUFFER as int / b.bps as int;
            lemma_div_is_ordered_by_denominator(audio::MAX_BUFFER as int, 1, b.bps as int);
            lemma_div_pos_is_pos(audio::MAX_BUFFER as int, b.bps as int);
            lemma_div_is_ordered_by_denominator(k, 1, b.ch_count as int);
        }
        Err(invalid("swri_realloc_audio: sample count out of range"))
    } else {
        match b.realloc_audio(size as usize) {
            Ok(_) => {
                proof {
                    let got = audio::planes_window(b.chans(), *index as int, count as int);
                    assert forall|c: int| 0 <= c < w.len() implies got[c] == #[trigger] w[c] by {
                        assert(got[c] =~= w[c]);
                    }
                    assert(got =~= w);
                }
                Ok(())
            },
            Err(e) => Err(e),
        }
    }
}

impl SwrContext {
    /// Outputs that come at once from buffered samples.
    pub open spec fn drained(self, m: int) -> int {
        if m < self.in_buffer_count {
            m
        } else {
            self.in_buffer_count as int
        }
    }

    /// `n` input and `m` output samples can pass through a context without a
    /// resampler.
    pub open spec fn fifo_ok(self, n: int, m: int) -> bool {
        let k = self.drained(m);
        let rest = m - k;
        &&& k > 0 ==> self.runs(k as nat)
        &&& n > rest ==> fifo_room(
            self.in_buffer,
            if k > 0 && k == self.in_buffer_count {
                0
            } else {
                self.in_buffer_index + k
            },
            self.in_buffer_count - k,
            n - rest,
        )
        &&& n > 0 && rest > 0 ==> self.runs(
            if n < rest {
                n as nat
            } else {
                rest as nat
            },
        )
    }

    /// Why they cannot.
    pub open spec fn fifo_error(self, n: int, m: int, e: Error) -> bool {
        let k = self.drained(m);
        let rest = m - k;
        if k > 0 && !self.runs(k as nat) {
            self.run_error(k as nat, e)
        } else if n > rest && !fifo_room(
            self.in_buffer,
            if k > 0 && k == self.in_buffer_count {
                0
            } else {
                self.in_buffer_index + k
            },
            self.in_buffer_count - k,
            n - rest,
        ) {
            e.is_invalid("swri_realloc_audio: sample count out of range"@)
        } else {
            self.run_error(
                if n < rest {
                    n as nat
                } else {
                    rest as nat
                },
                e,
            )
        }
    }

    /// What is left of the context: the samples that had come out by then are gone.
    pub open spec fn fifo_failed(self, new: SwrContext, m: int) -> bool {
        let k = if self.runs(self.drained(m) as nat) {
            self.drained(m)
        } else {
            0
        };
        &&& new == (SwrContext {
            in_buffer: new.in_buffer,
            in_buffer_index: new.in_buffer_index,
            in_buffer_count: (self.in_buffer_count - k) as usize,
            ..self
        })
        &&& new.held() == audio::planes_window(self.held(), k, self.in_buffer_count - k)
    }

    /// Buffered samples followed by new ones.
    pub open spec fn queue(self, p: Planes) -> Planes {
        audio::planes_join(self.held(), p)
    }

    /// Outputs that come from `n` more samples when there is room for `m`.
    pub open spec fn fifo_count(self, n: int, m: int) -> int {
        if m < self.in_buffer_count + n {
            m
        } else {
            self.in_buffer_count + n
        }
    }

    /// Turns buffered samples into output.
    fn drain(&mut self, out: &mut AudioData, size: usize) -> (r: Result<(), Error>)
        requires
            old(self).live(),
            old(self).resample is None,
            old(out).wf(),
            old(out).same_shape(old(self).out),
            0 < size <= old(out).count,
            size <= old(self).in_buffer_count,
        ensures
            r.is_ok() == old(self).runs(size as nat),
            r matches Err(e) ==> old(self).run_error(size as nat, e) && *final(self) == *old(self),
            final(out).wf(),
            final(out).same_shape(*old(out)),
            final(out).count == old(out).count,
            r is Ok ==> {
                &&& *final(self) == (SwrContext {
                    in_buffer_index: if size == old(self).in_buffer_count {
                        0
                    } else {
                        (old(self).in_buffer_index + size) as usize
                    },
                    in_buffer_count: (old(self).in_buffer_count - size) as usize,
                    ..*old(self)
                })
                &&& final(self).live()
                &&& final(self).held() == audio::planes_window(
                    old(self).held(),
                    size as int,
                    old(self).in_buffer_count - size,
                )
                &&& final(out).chans() == audio::planes_splice(
                    old(out).chans(),
                    0,
                    old(self).piped(audio::planes_window(old(self).held(), 0, size as int), size as nat),
                    size as int,
                )
            },
    {
        let ghost c0 = *self;
        let tail = view(&self.in_buffer, self.in_buffer_index);
        let tmp = head(&tail, size);
        proof {
            let want = audio::planes_window(c0.held(), 0, size as int);
            assert forall|c: int| 0 <= c < want.len() implies tmp.chans()[c] == #[trigger] want[c] by {
                assert(tmp.chans()[c] =~= want[c]);
            }
            assert(tmp.chans() =~= want);
        }
        match self.convert_straight(out, &tmp, size) {
            Ok(_) => {},
            Err(e) => {
                return Err(e);
            },
        }
        self.in_buffer_count = self.in_buffer_count - size;
        self.in_buffer_index = self.in_buffer_index + size;
        if self.in_buffer_count == 0 {
            self.in_buffer_index = 0;
        }
        proof {
            let got = self.held();
            let want = audio::planes_window(c0.held(), size as int, c0.in_buffer_count - size);
            assert forall|c: int| 0 <= c < want.len() implies got[c] == #[trigger] want[c] by {
                assert(got[c] =~= want[c]);
            }
            assert(got =~= want);
        }
        Ok(())
    }

    /// Keeps the samples of `in_` from `from` on. There is room.
    fn stow(&mut self, in_: &AudioData, from: usize)
        requires
            old(self).live(),
            old(self).resample is None,
            in_.wf(),
            in_.same_shape(old(self).in_),
            from <= in_.count,
            old(self).in_buffer_index + old(self).in_buffer_count + in_.count - from <= old(
                self,
            ).in_buffer.count,
        ensures
            final(self).live(),
            *final(self) == (SwrContext {
                in_buffer: final(self).in_buffer,
                in_buffer_count: (old(self).in_buffer_count + in_.count - from) as usize,
                ..*old(self)
            }),
            final(self).held() == audio::planes_join(
                old(self).held(),
                audio::planes_window(in_.chans(), from as int, in_.count - from),
            ),
    {
        let ghost c0 = *self;
        let n: usize = in_.count - from;
        let tail = view(in_, from);
        let at: usize = self.in_buffer_index + self.in_buffer_count;
        splice(&mut self.in_buffer, at, &tail, n);
        self.in_buffer_count = self.in_buffer_count + n;
        proof {
            let got = self.held();
            let want = audio::planes_join(
                c0.held(),
                audio::planes_window(in_.chans(), from as int, n as int),
            );
            assert forall|c: int| 0 <= c < want.len() implies got[c] == #[trigger] want[c] by {
                assert(got[c] =~= want[c]);
            }
            assert(got =~= want);
        }
    }
}

impl SwrContext {
    /// Passes `in_count` new samples through a context without a resampler, to
    /// `rest` outputs behind the first `size`. The other samples are buffered.
    #[verifier::rlimit(80)]
    fn pass_new(
        &mut self,
        out: &mut AudioData,
        size: usize,
        rest: usize,
        in_: &AudioData,
        in_count: usize,
    ) -> (res: Result<usize, Error>)
        requires
            old(self).live(),
            old(self).resample is None,
            old(out).wf(),
            old(out).same_shape(old(self).out),
            size + rest <= old(out).count,
            in_.wf(),
            in_.same_shape(old(self).in_),
            in_.count == in_count,
        ensures
            final(self).live(),
            *final(self) == (SwrContext {
                in_buffer: final(self).in_buffer,
                in_buffer_index: final(self).in_buffer_index,
                in_buffer_count: final(self).in_buffer_count,
                ..*old(self)
            }),
            final(out).wf(),
            final(out).same_shape(*old(out)),
            final(out).count == old(out).count,
            ({
                let used = if in_count < rest {
                    in_count as int
                } else {
                    rest as int
                };
                &&& res.is_ok() == {
                    &&& in_count > rest ==> fifo_room(
                        old(self).in_buffer,
                        old(self).in_buffer_index as int,
                        old(self).in_buffer_count as int,
                        in_count - rest,
                    )
                    &&& used > 0 ==> old(self).runs(used as nat)
                }
                &&& res matches Err(e) ==> if in_count > rest && !fifo_room(
                    old(self).in_buffer,
                    old(self).in_buffer_index as int,
                    old(self).in_buffer_count as int,
                    in_count - rest,
                ) {
                    e.is_invalid("swri_realloc_audio: sample count out of range"@)
                } else {
                    old(self).run_error(used as nat, e)
                }
                &&& res is Err ==> {
                    &&& final(self).in_buffer_count == old(self).in_buffer_count
                    &&& final(self).held() == old(self).held()
                }
                &&& res matches Ok(n) ==> {
                    &&& n == used
                    &&& final(self).in_buffer_count == old(self).in_buffer_count + in_count - used
                    &&& final(self).held() == audio::planes_join(
                        old(self).held(),
                        audio::planes_window(in_.chans(), used, in_count - used),
                    )
                    &&& final(out).chans() == audio::planes_splice(
                        old(out).chans(),
                        size as int,
                        old(self).piped(audio::planes_first(in_.chans(), used), used as nat),
                        used,
                    )
                }
            }),
    {
        let ghost c0 = *self;
        let ghost o1 = out.chans();
        if in_count > rest {
            match make_room(
                &mut self.in_buffer,
                &mut self.in_buffer_index,
                self.in_buffer_count,
                in_count - rest,
            ) {
                Ok(_) => {},
                Err(e) => {
                    return Err(e);
                },
            }
        }
        let used: usize = if in_count < rest {
            in_count
        } else {
            rest
        };
        if used > 0 {
            let first = head(in_, used);
            let mut o2 = scratch_of(&self.out, out, used);
            let ghost z = o2.chans();
            match self.convert_straight(&mut o2, &first, used) {
                Ok(_) => {},
                Err(e) => {
                    return Err(e);
                },
            }
            splice(out, size, &o2, used);
            proof {
                let q = c0.piped(first.chans(), used as nat);
                assert forall|c: int| 0 <= c < c0.out.ch_count implies (#[trigger] q[c]).len()
                    == used by {
                    c0.lemma_piped_shape(first.chans(), used as nat, c);
                }
                c0.lemma_piped_shape(first.chans(), used as nat, 0);
                lemma_spliced(z, q, c0.out.ch_count as int, used as int, used as int);
                lemma_whole(o2.chans(), used as int);
            }
        } else {
            proof {
                let b = audio::planes_first(in_.chans(), 0);
                lemma_no_splice(o1, size as int, c0.piped(b, 0), c0.out.ch_count as int);
            }
        }
        if in_count > used {
            self.stow(in_, used);
        } else {
            proof {
                let got = self.held();
                let want = audio::planes_join(
                    got,
                    audio::planes_window(in_.chans(), used as int, in_count - used),
                );
                assert forall|c: int| 0 <= c < want.len() implies got[c] == #[trigger] want[c] by {
                    assert(got[c] =~= want[c]);
                }
                assert(got =~= want);
            }
        }
        Ok(used)
    }

    /// Passes `in_count` samples through a context without a resampler, behind
    /// those that are buffered; what does not fit into the output is buffered.
    #[verifier::rlimit(90)]
    fn convert_fifo(
        &mut self,
        out: &mut AudioData,
        out_count: usize,
        in_: &AudioData,
        in_count: usize,
    ) -> (res: Result<usize, Error>)
        requires
            old(self).live(),
            old(self).resample is None,
            old(out).wf(),
            old(out).same_shape(old(self).out),
            out_count <= old(out).count,
            in_.wf(),
            in_.same_shape(old(self).in_),
            in_.count == in_count,
        ensures
            final(self).live(),
            *final(self) == (SwrContext {
                in_buffer: final(self).in_buffer,
                in_buffer_index: final(self).in_buffer_index,
                in_buffer_count: final(self).in_buffer_count,
                ..*old(self)
            }),
            final(out).wf(),
            final(out).same_shape(*old(out)),
            final(out).count == old(out).count,
            res.is_ok() == old(self).fifo_ok(in_count as int, out_count as int),
            res matches Err(e) ==> old(self).fifo_error(in_count as int, out_count as int, e),
            res is Err ==> old(self).fifo_failed(*final(self), out_count as int),
            ({
                let k = old(self).fifo_count(in_count as int, out_count as int);
                let all = old(self).queue(in_.chans());
                let total = old(self).in_buffer_count + in_count;
                res matches Ok(n) ==> {
                    &&& n == k
                    &&& final(self).in_buffer_count == total - k
                    &&& final(self).held() == audio::planes_window(all, k, total - k)
                    &&& final(out).chans() == audio::planes_splice(
                        old(out).chans(),
                        0,
                        old(self).piped(audio::planes_first(all, k), k as nat),
                        k,
                    )
                }
            }),
    {
        let ghost c0 = *self;
        let ghost o0 = out.chans();
        let ghost all = self.queue(in_.chans());
        let ghost total = self.in_buffer_count + in_count;
        let size: usize = if out_count < self.in_buffer_count {
            out_count
        } else {
            self.in_buffer_count
        };
        proof {
            lemma_nothing_drained(c0, o0);
        }
        if size > 0 {
            match self.drain(out, size) {
                Ok(_) => {},
                Err(e) => {
                    return Err(e);
                },
            }
        }
        let ghost c1 = *self;
        let ghost o1 = out.chans();
        proof {
            if size == 0 {
                lemma_nothing_drained(c0, o0);
            }
            assert(c1.same_setup(c0));
            lemma_same_pipe(c1, c0);
        }
        let rest: usize = out_count - size;
        let used: usize = match self.pass_new(out, size, rest, in_, in_count) {
            Ok(n) => n,
            Err(e) => {
                return Err(e);
            },
        };
        proof {
            lemma_fifo_output(
                c0,
                o0,
                o1,
                out.chans(),
                in_.chans(),
                size as int,
                used as int,
            );
            lemma_fifo_held(
                c0.held(),
                c1.held(),
                self.held(),
                in_.chans(),
                c0.in_.ch_count as int,
                c0.in_buffer_count as int,
                in_count as int,
                size as int,
                used as int,
            );
        }
        Ok(size + used)
    }
}

/// A buffer of silence like `a`, no larger than the buffer `out`.
fn scratch_of(a: &AudioData, out: &AudioData, n: usize) -> (r: AudioData)
    requires
        1 <= a.bps <= 8,
        out.wf(),
        out.same_shape(*a),
        n <= out.count,
    ensures
        r.wf(),
        r.same_shape(*a),
        r.count == n,
        r.chans() == audio::planes_zero(a.ch_count as nat, n as nat),
{
    let len: usize = out.data.len();
    assert(a.ch_count * n * a.bps <= a.ch_count * out.count * a.bps) by (nonlinear_arith)
        requires
            n <= out.count,
    ;
    scratch_like(a, n)
}

pub(crate) proof fn lemma_same_pipe(a: SwrContext, b: SwrContext)
    requires
        a.same_setup(b),
    ensures
        forall|p: Planes, n: nat| #[trigger] a.piped(p, n) == b.piped(p, n),
        forall|n: nat| #[trigger] a.runs(n) == b.runs(n),
        forall|n: nat, e: Error| #[trigger] a.run_error(n, e) == b.run_error(n, e),
{
}

proof fn lemma_nothing_drained(c: SwrContext, o: Planes)
    requires
        o.len() == c.out.ch_count,
        c.live(),
    ensures
        audio::planes_splice(o, 0, c.piped(audio::planes_window(c.held(), 0, 0), 0), 0) == o,
        audio::planes_window(c.held(), 0, c.in_buffer_count as int) == c.held(),
{
    let none = c.piped(audio::planes_window(c.held(), 0, 0), 0);
    lemma_no_output(o, none, c.out.ch_count as int);
    let w = audio::planes_window(c.held(), 0, c.in_buffer_count as int);
    assert forall|ch: int| 0 <= ch < w.len() implies c.held()[ch] == #[trigger] w[ch] by {
        assert(c.held()[ch] =~= w[ch]);
    }
    assert(c.held() =~= w);
}

/// What is left of a queue whose first samples have been used.
proof fn lemma_fifo_held(
    h: Planes,
    h1: Planes,
    h2: Planes,
    new: Planes,
    ch: int,
    count: int,
    n: int,
    size: int,
    used: int,
)
    requires
        h.len() == ch,
        new.len() == ch,
        forall|c: int| 0 <= c < ch ==> (#[trigger] h[c]).len() == count,
        forall|c: int| 0 <= c < ch ==> (#[trigger] new[c]).len() == n,
        0 <= size <= count,
        0 <= used <= n,
        used > 0 ==> size == count,
        h1 == audio::planes_window(h, size, count - size),
        h2 == audio::planes_join(h1, audio::planes_window(new, used, n - used)),
    ensures
        h2 == audio::planes_window(
            audio::planes_join(h, new),
            size + used,
            count + n - size - used,
        ),
{
    let want = audio::planes_window(
        audio::planes_join(h, new),
        size + used,
        count + n - size - used,
    );
    assert forall|c: int| 0 <= c < ch implies h2[c] == #[trigger] want[c] by {
        assert(h2[c] =~= want[c]);
    }
    assert(h2 =~= want);
}

/// Output made in two pieces is the output of both.
proof fn lemma_fifo_output(
    ctx: SwrContext,
    o0: Planes,
    o1: Planes,
    o2: Planes,
    new: Planes,
    m: int,
    n: int,
)
    requires
        ctx.live(),
        0 <= m <= ctx.in_buffer_count,
        0 <= n,
        m > 0 ==> ctx.runs(m as nat),
        n > 0 ==> ctx.runs(n as nat) && m == ctx.in_buffer_count,
        ctx.resample is None,
        new.len() == ctx.in_.ch_count,
        forall|c: int| 0 <= c < new.len() ==> (#[trigger] new[c]).len() >= n,
        o0.len() == ctx.out.ch_count,
        forall|c: int| 0 <= c < o0.len() ==> (#[trigger] o0[c]).len() >= m + n,
        o1 == audio::planes_splice(
            o0,
            0,
            ctx.piped(audio::planes_window(ctx.held(), 0, m), m as nat),
            m,
        ),
        o2 == audio::planes_splice(
            o1,
            m,
            ctx.piped(audio::planes_first(new, n), n as nat),
            n,
        ),
    ensures
        o2 == audio::planes_splice(
            o0,
            0,
            ctx.piped(audio::planes_first(ctx.queue(new), m + n), (m + n) as nat),
            m + n,
        ),
{
    let a = audio::planes_window(ctx.held(), 0, m);
    let b = audio::planes_first(new, n);
    let all = ctx.queue(new);
    if m + n == 0 {
        lemma_no_output(o0, ctx.piped(a, 0), ctx.out.ch_count as int);
        lemma_no_splice(o1, m, ctx.piped(b, 0), ctx.out.ch_count as int);
        lemma_no_output(
            o0,
            ctx.piped(audio::planes_first(all, 0), 0),
            ctx.out.ch_count as int,
        );
    } else {
        let k = (m + n) as nat;
        let p = audio::planes_first(all, m + n);
        let q = ctx.piped(p, k);
        assert(ctx.in_buffer.ch_count == ctx.in_.ch_count);
        let u = audio::planes_window(p, 0, m);
        let v = audio::planes_window(p, m, n);
        assert forall|c: int| 0 <= c < ctx.in_.ch_count implies u[c] == #[trigger] a[c] by {
            assert(u[c] =~= a[c]);
        }
        assert(u =~= a);
        assert forall|c: int| 0 <= c < ctx.in_.ch_count implies v[c] == #[trigger] b[c] by {
            assert(v[c] =~= b[c]);
        }
        assert(v =~= b);
        ctx.lemma_piece(p, k, 0, m as nat);
        ctx.lemma_piece(p, k, m, n as nat);
        let want = audio::planes_splice(o0, 0, q, m + n);
        assert forall|c: int| 0 <= c < o0.len() implies o2[c] == #[trigger] want[c] by {
            ctx.lemma_piped_shape(p, k, c);
            ctx.lemma_piped_shape(a, m as nat, c);
            ctx.lemma_piped_shape(b, n as nat, c);
            assert forall|i: int| 0 <= i < o0[c].len() implies o2[c][i] == #[trigger] want[c][i] by {
                if i < m {
                    assert(ctx.piped(a, m as nat)[c][i] == audio::planes_window(q, 0, m)[c][i]);
                } else if i < m + n {
                    assert(ctx.piped(b, n as nat)[c][i - m] == audio::planes_window(q, m, n)[c][i - m]);
                }
            }
            assert(o2[c] =~= want[c]);
        }
        assert(o2 =~= want);
    }
}

// --- a call -------------------------------------------------------------------------------

/// Every channel with the mirror image of its end, `m` samples long, behind it.
pub open spec fn planes_ended(p: Planes, m: int) -> Planes {
    Seq::new(
        p.len(),
        |c: int|
            Seq::new(
                (p[c].len() + m) as nat,
                |k: int|
                    if k < p[c].len() {
                        p[c][k]
                    } else {
                        p[c][2 * p[c].len() - 1 - k]
                    },
            ),
    )
}

impl SwrContext {
    /// Samples that the end of the input adds for the resampler.
    pub open spec fn end_extra(self) -> int {
        if self.flushed {
            0
        } else {
            self.resample->0.reflection(self.in_buffer_count as int)
        }
    }

    /// The samples that are held when the end of the input has been reached.
    pub open spec fn ending(self) -> Planes {
        if self.flushed {
            self.held()
        } else {
            planes_ended(self.held(), self.end_extra())
        }
    }

    /// Samples that the buffer has memory for then.
    pub open spec fn end_cap(self) -> int {
        if self.flushed {
            self.in_buffer.count as int
        } else {
            self.in_buffer.grown_count(
                (self.in_buffer_index + self.in_buffer_count + self.end_extra()) as nat,
            ) as int
        }
    }

    /// The buffer can grow by what the end of the input adds.
    pub open spec fn end_room(self) -> bool {
        let need = self.in_buffer_index + self.in_buffer_count + self.end_extra();
        self.flushed || 2 * need <= usize::MAX && self.in_buffer.ch_count * (2 * need)
            * self.in_buffer.bps <= usize::MAX
    }

    /// Takes note of the end of the input.
    fn reach_end(&mut self) -> (r: Result<(), Error>)
        requires
            old(self).live(),
            old(self).resample is Some,
        ensures
            r.is_ok() == old(self).end_room(),
            r matches Err(e) ==> {
                &&& e.is_invalid("swri_realloc_audio: sample count out of range"@)
                &&& *final(self) == *old(self)
            },
            final(self).live(),
            r is Ok ==> {
                &&& *final(self) == (SwrContext {
                    in_buffer: final(self).in_buffer,
                    in_buffer_count: (old(self).in_buffer_count + old(self).end_extra()) as usize,
                    resample_in_constraint: false,
                    flushed: true,
                    ..*old(self)
                })
                &&& final(self).in_buffer_count == old(self).in_buffer_count + old(
                    self,
                ).end_extra()
                &&& final(self).held() == old(self).ending()
                &&& final(self).in_buffer.same_shape(old(self).in_buffer)
                &&& final(self).in_buffer.count == old(self).end_cap()
            },
    {
        let ghost c0 = *self;
        if !self.flushed {
            match &self.resample {
                Some(r) => {
                    proof {
                        reveal(swr::rate_stage);
                    }
                    let fl: usize = r.filter_length as usize;
                    let n: usize = self.in_buffer_count;
                    let m: usize = (if n < fl {
                        n
                    } else {
                        fl
                    } + 1) / 2;
                    let need: u128 = self.in_buffer_index as u128 + n as u128 + m as u128;
                    assert(0 <= self.in_buffer.ch_count * (2 * need) <= 64 * (2 * need))
                        by (nonlinear_arith)
                        requires
                            0 <= self.in_buffer.ch_count <= 64,
                            need >= 0,
                    ;
                    let t: u128 = self.in_buffer.ch_count as u128 * (2 * need);
                    assert(0 <= t * self.in_buffer.bps <= t * 8) by (nonlinear_arith)
                        requires
                            0 <= self.in_buffer.bps <= 8,
                            t >= 0,
                    ;
                    if 2 * need > usize::MAX as u128 || t * self.in_buffer.bps as u128 > usize::MAX
                        as u128 {
                        return Err(invalid("swri_realloc_audio: sample count out of range"));
                    }
                    let index: usize = self.in_buffer_index;
                    let _ = r.resample_flush(&mut self.in_buffer, index, &mut self.in_buffer_count);
                    proof {
                        let got = self.held();
                        let want = planes_ended(c0.held(), m as int);
                        assert forall|c: int| 0 <= c < want.len() implies got[c]
                            == #[trigger] want[c] by {
                            assert(got[c] =~= want[c]);
                        }
                        assert(got =~= want);
                    }
                },
                None => {},
            }
        }
        self.resample_in_constraint = false;
        self.flushed = true;
        Ok(())
    }
}

pub open spec fn input_view(in_: Option<&[&[u8]]>) -> Option<Seq<Seq<u8>>> {
    match in_ {
        Some(p) => Some(slice_views(p@)),
        None => None,
    }
}

impl SwrContext {
    /// The input planes hold `n` samples.
    pub open spec fn supplied(self, in_: Option<Seq<Seq<u8>>>, n: int) -> bool {
        in_ matches Some(b) ==> enough(self.in_, b, n)
    }

    /// The stream for the resampler: what is held, and `n` new samples or the
    /// mirror image of the end.
    pub open spec fn upcoming(self, in_: Option<Seq<Seq<u8>>>, n: int) -> Planes {
        match in_ {
            Some(b) => audio::planes_join(
                self.held(),
                self.fed(samples_of(self.in_, b, n as nat), n as nat),
            ),
            None => self.ending(),
        }
    }

    pub open spec fn upcoming_len(self, in_: Option<Seq<Seq<u8>>>, n: int) -> int {
        match in_ {
            Some(_) => self.in_buffer_count + n,
            None => self.in_buffer_count + self.end_extra(),
        }
    }

    /// The queue of a context without a resampler.
    pub open spec fn queued(self, in_: Option<Seq<Seq<u8>>>, n: int) -> Planes {
        match in_ {
            Some(b) => self.queue(samples_of(self.in_, b, n as nat)),
            None => self.held(),
        }
    }

    /// Timestamp after `n` more outputs.
    pub open spec fn pts_after(self, n: int) -> int {
        if n > 0 && self.drop_output == 0 {
            arith::wrap64(self.outpts + n * self.options.in_sample_rate)
        } else {
            self.outpts as int
        }
    }

    /// `n` input samples and room for `m` outputs have made `new` of the context
    /// and given the `k` outputs `o`.
    pub open spec fn passed(
        self,
        new: SwrContext,
        in_: Option<Seq<Seq<u8>>>,
        n: int,
        m: int,
        k: int,
        o: Planes,
    ) -> bool {
        &&& self.supplied(in_, n)
        &&& new.drop_output == self.drop_output
        &&& new.outpts == self.pts_after(k)
        &&& match self.resample {
            None => self.passed_fifo(new, in_, n, m, k, o),
            Some(_) => self.passed_rated(new, in_, n, m, k, o),
        }
    }

    pub open spec fn passed_fifo(
        self,
        new: SwrContext,
        in_: Option<Seq<Seq<u8>>>,
        n: int,
        m: int,
        k: int,
        o: Planes,
    ) -> bool {
        let total = self.in_buffer_count + n;
        &&& new.resample is None
        &&& new.flushed == self.flushed
        &&& new.resample_in_constraint == self.resample_in_constraint
        &&& k == self.fifo_count(n, m)
        &&& new.in_buffer_count == total - k
        &&& new.held() == audio::planes_window(self.queued(in_, n), k, total - k)
        &&& k > 0 ==> self.matched() && self.mapped() && self.mixes_well()
        &&& self.matched() ==> o == self.piped(
            audio::planes_first(self.queued(in_, n), k),
            k as nat,
        )
    }

    pub open spec fn passed_rated(
        self,
        new: SwrContext,
        in_: Option<Seq<Seq<u8>>>,
        n: int,
        m: int,
        k: int,
        o: Planes,
    ) -> bool {
        let up = self.upcoming(in_, n);
        let len = self.upcoming_len(in_, n);
        let blocked = self.resample_in_constraint && in_ is Some;
        &&& new.flushed == (self.flushed || in_ is None)
        &&& self.rated(new, up, len, len - n, blocked, blocked && n == 0, new.flushed, m, k)
        &&& self.rate_known(len, m) ==> o == self.rated_output(up, k as nat)
        &&& self.resample->0.is_trivial() && !self.resample->0.starved(len) ==> exists|y: Planes|
            {
                &&& #[trigger] stream::taken_from(
                    y,
                    silent_behind(self.resample->0.stream(up)),
                    self.call_trip(in_, n, m).ending(new.flushed).0.at,
                )
                &&& o == self.finished(y, k as nat)
            }
    }

    /// The resampling that a call with `n` input samples and room for `m` outputs asks
    /// for.
    pub open spec fn call_trip(self, in_: Option<Seq<Seq<u8>>>, n: int, m: int) -> Trip {
        self.trip(
            if in_ is None {
                self.end_cap()
            } else {
                self.in_buffer.count as int
            },
            self.upcoming_len(in_, n) - n,
            n,
            m,
            self.resample_in_constraint && in_ is Some,
        )
    }

    /// The context when it has taken note of the end of the input, if that has come.
    pub open spec fn entered(self, mid: SwrContext, in_: Option<Seq<Seq<u8>>>) -> bool {
        if in_ is None {
            &&& mid == (SwrContext {
                in_buffer: mid.in_buffer,
                in_buffer_count: (self.in_buffer_count + self.end_extra()) as usize,
                resample_in_constraint: false,
                flushed: true,
                ..self
            })
            &&& mid.in_buffer.same_shape(self.in_buffer)
            &&& mid.in_buffer.count == self.end_cap()
            &&& mid.held() == self.ending()
        } else {
            mid == self
        }
    }

    /// What comes of a call of a context with a resampler, with `n` input samples and
    /// a request for `m` outputs.
    pub open spec fn body_outcome(
        self,
        new: SwrContext,
        in_: Option<Seq<Seq<u8>>>,
        n: int,
        m: int,
        res: Result<usize, Error>,
    ) -> bool {
        if !self.supplied(in_, n) {
            new == self && res == Err::<usize, Error>(Error::BufferTooSmall)
        } else if in_ is None && !self.end_room() {
            &&& new == self
            &&& res matches Err(e) && e.is_invalid("swri_realloc_audio: sample count out of range"@)
        } else {
            &&& new.outpts == match res {
                Ok(k) => self.pts_after(k as int),
                Err(_) => self.outpts as int,
            }
            &&& exists|mid: SwrContext| #[trigger]
                self.entered(mid, in_) && mid.rate_outcome(
                    SwrContext { outpts: self.outpts, ..new },
                    self.upcoming(in_, n),
                    n,
                    m,
                    res,
                )
        }
    }

    /// A call with `n` input samples and room for `m` outputs may fail.
    pub open spec fn refused(self, in_: Option<Seq<Seq<u8>>>, n: int, m: int) -> bool {
        ||| !self.supplied(in_, n)
        ||| match self.resample {
            None => !self.fifo_ok(n, m),
            Some(_) => {
                ||| in_ is None && !self.end_room()
                ||| self.rate_refused(
                    if in_ is None {
                        self.in_buffer_count + self.end_extra()
                    } else {
                        self.in_buffer_count as int
                    },
                    n,
                    m,
                )
            },
        }
    }

    /// After a call that got past the start of the input, the resampler runs on
    /// and the buffer reaches no further than it had to.
    pub open spec fn onward(self, new: SwrContext, in_: Option<Seq<Seq<u8>>>, n: int) -> bool {
        let r = self.resample->0;
        let q = new.resample->0;
        !r.starved(self.upcoming_len(in_, n)) ==> {
            &&& q.steady()
            &&& q.index >= 0
            &&& q.alike(r)
            &&& new.in_buffer_index + new.in_buffer_count <= self.reach_of(in_, n)
        }
    }

    /// Where the buffer ends at most.
    pub open spec fn reach_of(self, in_: Option<Seq<Seq<u8>>>, n: int) -> int {
        stream::start_end(
            self.resample->0,
            self.in_buffer_index as int,
            if in_ is None {
                self.in_buffer_count + self.end_extra()
            } else {
                self.in_buffer_count as int
            },
        ) + n
    }

    /// The new samples, as a buffer.
    fn take_input(&self, in_: Option<&[&[u8]]>, n: usize) -> (r: Result<AudioData, Error>)
        requires
            self.live(),
            in_ is None ==> n == 0,
            self.in_.ch_count * n * self.in_.bps <= usize::MAX,
        ensures
            r.is_ok() == self.supplied(input_view(in_), n as int),
            r matches Err(e) ==> e == Error::BufferTooSmall,
            r matches Ok(a) ==> {
                &&& a.wf()
                &&& a.same_shape(self.in_)
                &&& a.count == n
                &&& in_ matches Some(p) ==> a.chans() == samples_of(
                    self.in_,
                    slice_views(p@),
                    n as nat,
                )
            },
    {
        match in_ {
            Some(planes) => take_planes(&self.in_, planes, n),
            None => Ok(scratch_like(&self.in_, 0)),
        }
    }

    /// [`SwrContext::convert_body`] with a resampler.
    #[verifier::rlimit(100)]
    fn rated_body(
        &mut self,
        out: &mut AudioData,
        out_count: usize,
        in_: Option<&[&[u8]]>,
        in_count: usize,
    ) -> (res: Result<usize, Error>)
        requires
            old(self).live(),
            old(self).resample is Some,
            old(out).wf(),
            old(out).same_shape(old(self).out),
            out_count <= old(out).count,
            out_count <= i32::MAX,
            in_ is None ==> in_count == 0,
            old(self).in_.ch_count * in_count * old(self).in_.bps <= usize::MAX,
        ensures
            final(self).live(),
            final(self).same_setup(*old(self)),
            final(self).drop_output == old(self).drop_output,
            final(self).resample.is_some() == old(self).resample.is_some(),
            final(out).wf(),
            final(out).same_shape(*old(out)),
            final(out).count == old(out).count,
            !old(self).supplied(input_view(in_), in_count as int) ==> (res matches Err(
                e,
            ) && e == Error::BufferTooSmall),
            old(self).body_outcome(
                *final(self),
                input_view(in_),
                in_count as int,
                out_count as int,
                res,
            ),
            res is Err ==> old(self).refused(input_view(in_), in_count as int, out_count as int),
            res matches Ok(n) ==> n <= out_count && final(self).outpts == old(self).pts_after(
                n as int,
            ),
            res matches Ok(n) ==> n <= out_count && old(self).passed_rated(
                *final(self),
                input_view(in_),
                in_count as int,
                out_count as int,
                n as int,
                audio::planes_first(final(out).chans(), n as int),
            ),
            res is Ok && old(self).resample is Some ==> old(self).onward(
                *final(self),
                input_view(in_),
                in_count as int,
            ),
    {
        let ghost c0 = *self;
        let ghost iv = input_view(in_);
        let in_ad: AudioData = match self.take_input(in_, in_count) {
            Ok(a) => a,
            Err(e) => {
                return Err(e);
            },
        };
        if in_.is_none() {
            match self.reach_end() {
                Ok(_) => {},
                Err(e) => {
                    return Err(e);
                },
            }
        }
        let ghost c1 = *self;
        let ghost o0 = out.chans();
        let n: usize = match self.convert_rated(out, out_count, &in_ad, in_count) {
            Ok(n) => n,
            Err(e) => {
                proof {
                    if c1.matched() {
                        lemma_entered(c0, c1, iv, in_ad, in_count as int);
                    }
                    assert(c0.entered(c1, iv));
                }
                return Err(e);
            },
        };
        let ghost c2 = *self;
        let ghost o2 = out.chans();
        self.advance_pts(n);
        proof {
            let fed = c1.fed(in_ad.chans(), in_count as nat);
            let up = audio::planes_join(c1.held(), fed);
            lemma_entered(c0, c1, iv, in_ad, in_count as int);
            assert(c0.entered(c1, iv));
            assert((SwrContext { outpts: c0.outpts, ..*self }) == c2);
            c1.lemma_fed_shape(in_ad.chans(), in_count as nat);
            c1.lemma_finished_shape(
                stream::outputs(c0.resample->0.begun(), c0.resample->0.stream(up), n as nat),
                n as nat,
            );
            assert(up == c0.upcoming(iv, in_count as int));
            assert(c1.in_buffer_count + in_count == c0.upcoming_len(iv, in_count as int));
            lemma_output(o0, c0.rated_output(up, n as nat), n as int, out_count as int);
            let r = c0.resample->0;
            if r.is_trivial() && !r.starved(c1.in_buffer_count + in_count) {
                let t = c0.call_trip(iv, in_count as int, out_count as int);
                let at = t.ending(self.flushed).0.at;
                assert(at == c1.places(in_count as int, out_count as int));
                assert(c1.repeated(up, at, n as nat, o0, o2));
                let y = choose|y: Planes|
                    {
                        &&& #[trigger] stream::taken_from(y, silent_behind(r.stream(up)), at)
                        &&& o2 == audio::planes_splice(o0, 0, c1.finished(y, n as nat), n as int)
                    };
                assert(stream::taken_from(y, silent_behind(r.stream(up)), at));
                c1.lemma_finished_shape(y, n as nat);
                lemma_output(o0, c0.finished(y, n as nat), n as int, out_count as int);
            }
        }
        Ok(n)
    }

    /// [`SwrContext::convert_body`] without a resampler.
    #[verifier::rlimit(90)]
    fn fifo_body(
        &mut self,
        out: &mut AudioData,
        out_count: usize,
        in_: Option<&[&[u8]]>,
        in_count: usize,
    ) -> (res: Result<usize, Error>)
        requires
            old(self).live(),
            old(self).resample is None,
            old(out).wf(),
            old(out).same_shape(old(self).out),
            out_count <= old(out).count,
            out_count <= i32::MAX,
            in_ is None ==> in_count == 0,
            old(self).in_.ch_count * in_count * old(self).in_.bps <= usize::MAX,
        ensures
            final(self).live(),
            final(self).same_setup(*old(self)),
            final(self).drop_output == old(self).drop_output,
            final(self).resample.is_some() == old(self).resample.is_some(),
            final(out).wf(),
            final(out).same_shape(*old(out)),
            final(out).count == old(out).count,
            !old(self).supplied(input_view(in_), in_count as int) ==> (res matches Err(
                e,
            ) && e == Error::BufferTooSmall),
            res is Err ==> old(self).refused(input_view(in_), in_count as int, out_count as int),
            res is Err ==> if old(self).supplied(input_view(in_), in_count as int) {
                old(self).fifo_failed(*final(self), out_count as int)
            } else {
                *final(self) == *old(self)
            },
            old(self).resample is None && !old(self).fifo_ok(in_count as int, out_count as int)
                ==> res is Err,
            old(self).resample is None && old(self).supplied(input_view(in_), in_count as int) ==> (
            res matches Err(e) ==> old(self).fifo_error(in_count as int, out_count as int, e)),
            res matches Ok(n) ==> n <= out_count && final(self).outpts == old(self).pts_after(
                n as int,
            ),
            res matches Ok(n) ==> n <= out_count && old(self).passed_fifo(
                *final(self),
                input_view(in_),
                in_count as int,
                out_count as int,
                n as int,
                audio::planes_first(final(out).chans(), n as int),
            ),
    {
        let ghost c0 = *self;
        let in_ad: AudioData = match self.take_input(in_, in_count) {
            Ok(a) => a,
            Err(e) => {
                return Err(e);
            },
        };
        let ghost o0 = out.chans();
        match self.convert_fifo(out, out_count, &in_ad, in_count) {
            Ok(n) => {
                self.advance_pts(n);
                proof {
                    if in_ is None {
                        lemma_join_nothing(c0.held(), in_ad.chans());
                    }
                    let all = c0.queue(in_ad.chans());
                    let first = audio::planes_first(all, n as int);
                    if c0.matched() {
                        assert forall|c: int| 0 <= c < c0.out.ch_count implies (#[trigger] c0.piped(
                            first,
                            n as nat,
                        )[c]).len() == n by {
                            c0.lemma_piped_shape(first, n as nat, c);
                        }
                        c0.lemma_piped_shape(first, n as nat, 0);
                        lemma_output(o0, c0.piped(first, n as nat), n as int, out_count as int);
                    }
                }
                Ok(n)
            },
            Err(e) => Err(e),
        }
    }

    /// Runs samples through the context into a buffer for output.
    pub(crate) fn convert_body(
        &mut self,
        out: &mut AudioData,
        out_count: usize,
        in_: Option<&[&[u8]]>,
        in_count: usize,
    ) -> (res: Result<usize, Error>)
        requires
            old(self).live(),
            old(out).wf(),
            old(out).same_shape(old(self).out),
            out_count <= old(out).count,
            out_count <= i32::MAX,
            in_ is None ==> in_count == 0,
            old(self).in_.ch_count * in_count * old(self).in_.bps <= usize::MAX,
        ensures
            final(self).live(),
            final(self).same_setup(*old(self)),
            final(self).drop_output == old(self).drop_output,
            final(self).resample.is_some() == old(self).resample.is_some(),
            final(out).wf(),
            final(out).same_shape(*old(out)),
            final(out).count == old(out).count,
            !old(self).supplied(input_view(in_), in_count as int) ==> (res matches Err(
                e,
            ) && e == Error::BufferTooSmall),
            old(self).resample is Some ==> old(self).body_outcome(
                *final(self),
                input_view(in_),
                in_count as int,
                out_count as int,
                res,
            ),
            old(self).resample is None && res is Err ==> if old(self).supplied(
                input_view(in_),
                in_count as int,
            ) {
                old(self).fifo_failed(*final(self), out_count as int)
            } else {
                *final(self) == *old(self)
            },
            res is Err ==> old(self).refused(input_view(in_), in_count as int, out_count as int),
            old(self).resample is None && !old(self).fifo_ok(in_count as int, out_count as int)
                ==> res is Err,
            old(self).resample is None && old(self).supplied(input_view(in_), in_count as int) ==> (
            res matches Err(e) ==> old(self).fifo_error(in_count as int, out_count as int, e)),
            res matches Ok(n) ==> n <= out_count && old(self).passed(
                *final(self),
                input_view(in_),
                in_count as int,
                out_count as int,
                n as int,
                audio::planes_first(final(out).chans(), n as int),
            ),
            res is Ok && old(self).resample is Some ==> old(self).onward(
                *final(self),
                input_view(in_),
                in_count as int,
            ),
    {
        if self.resample.is_some() {
            self.rated_body(out, out_count, in_, in_count)
        } else {
            self.fifo_body(out, out_count, in_, in_count)
        }
    }

    /// Moves the timestamp past `n` outputs, unless output is being dropped.
    fn advance_pts(&mut self, n: usize)
        requires
            n <= i32::MAX,
        ensures
            *final(self) == (SwrContext { outpts: final(self).outpts, ..*old(self) }),
            final(self).outpts == old(self).pts_after(n as int),
    {
        if n > 0 && self.drop_output == 0 {
            let rate: i64 = self.options.in_sample_rate as i64;
            let k: i64 = n as i64;
            assert(-0x4000_0000_0000_0000 <= k * rate <= 0x4000_0000_0000_0000) by (nonlinear_arith)
                requires
                    0 <= k <= 0x7fff_ffff,
                    -0x8000_0000 <= rate <= 0x7fff_ffff,
            ;
            self.outpts = self.outpts.wrapping_add(k * rate);
        }
    }
}

pub(crate) proof fn lemma_join_nothing(p: Planes, q: Planes)
    requires
        q.len() >= p.len(),
        forall|c: int| 0 <= c < q.len() ==> (#[trigger] q[c]).len() == 0,
    ensures
        audio::planes_join(p, q) == p,
{
    let got = audio::planes_join(p, q);
    assert forall|c: int| 0 <= c < p.len() implies got[c] == #[trigger] p[c] by {
        assert(q[c].len() == 0);
        assert(got[c] =~= p[c]);
    }
    assert(got =~= p);
}

/// The samples behind those that are held when the end of the input, if it has come,
/// has been taken note of.
proof fn lemma_entered(
    c0: SwrContext,
    c1: SwrContext,
    in_: Option<Seq<Seq<u8>>>,
    a: AudioData,
    n: int,
)
    requires
        c0.entered(c1, in_),
        c1.staged_live(),
        c1.resample is Some,
        a.count == n,
        0 <= n,
        in_ is None ==> n == 0,
        in_ matches Some(b) ==> a.chans() == samples_of(c0.in_, b, n as nat),
    ensures
        audio::planes_join(c1.held(), c1.fed(a.chans(), n as nat)) == c0.upcoming(in_, n),
{
    let fed = c1.fed(a.chans(), n as nat);
    c1.lemma_fed_shape(a.chans(), n as nat);
    if in_ is None {
        lemma_join_nothing(c1.held(), fed);
    }
}

/// The first samples of a buffer after `n` of them have been written.
proof fn lemma_output(before: Planes, q: Planes, n: int, m: int)
    requires
        0 <= n <= m,
        forall|c: int| 0 <= c < before.len() ==> (#[trigger] before[c]).len() >= m,
        q.len() == before.len(),
        forall|c: int| 0 <= c < q.len() ==> (#[trigger] q[c]).len() == n,
    ensures
        audio::planes_first(audio::planes_splice(before, 0, q, n), n) == q,
{
    let got = audio::planes_first(audio::planes_splice(before, 0, q, n), n);
    assert forall|c: int| 0 <= c < q.len() implies got[c] == #[trigger] q[c] by {
        assert(before[c].len() >= m);
        assert(got[c] =~= q[c]);
    }
    assert(got =~= q);
}

} // verus!
