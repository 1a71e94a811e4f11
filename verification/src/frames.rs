//! Converting whole frames of audio.
use crate::arith;
use crate::audio;
use crate::audio::AudioData;
use crate::calls;
use crate::channel_layout::ChannelLayout;
use crate::convert;
use crate::error::{invalid, Error};
use crate::mathematics;
use crate::mathematics::tdiv_i128;
use crate::options::{SwrOptions, NOPTS};
use crate::samplefmt::SampleFormat;
use crate::swr;
use crate::swr::SwrContext;
use vstd::prelude::*;

verus! {

/// A frame of audio: samples and what they are.
#[derive(Debug)]
pub struct AudioFrame {
    pub format: SampleFormat,
    pub ch_layout: ChannelLayout,
    /// Samples per channel.
    pub nb_samples: usize,
    pub sample_rate: i32,
    pub pts: i64,
    /// Numerator and denominator of the unit of `pts`.
    pub time_base: (i32, i32),
    /// One plane for packed samples, one for each channel otherwise.
    pub planes: Vec<Vec<u8>>,
}

impl Default for AudioFrame {
    /// A frame without samples.
    fn default() -> (r: AudioFrame)
        ensures
            r.format == SampleFormat::U8,
            r.ch_layout == ChannelLayout::unset(),
            r.nb_samples == 0,
            r.sample_rate == 0,
            r.pts == NOPTS,
            r.time_base == (0i32, 1i32),
            r.planes@.len() == 0,
    {
        AudioFrame {
            format: SampleFormat::U8,
            ch_layout: ChannelLayout::default(),
            nb_samples: 0,
            sample_rate: 0,
            pts: NOPTS,
            time_base: (0, 1),
            planes: Vec::new(),
        }
    }
}

/// Planes of a frame.
pub open spec fn plane_count(format: SampleFormat, channels: int) -> int {
    if format.spec_is_planar() {
        channels
    } else {
        1
    }
}

/// Bytes in each plane of a frame with `n` samples per channel.
pub open spec fn plane_bytes(format: SampleFormat, channels: int, n: int) -> int {
    if format.spec_is_planar() {
        n * format.spec_bytes()
    } else {
        n * channels * format.spec_bytes()
    }
}

/// A frame of silence: every byte is zero.
pub open spec fn zeroed_planes(p: Seq<Vec<u8>>, format: SampleFormat, channels: int, n: int) -> bool {
    &&& p.len() == plane_count(format, channels)
    &&& forall|k: int|
        0 <= k < p.len() ==> (#[trigger] p[k])@ == Seq::new(
            plane_bytes(format, channels, n) as nat,
            |j: int| 0u8,
        )
}

impl AudioFrame {
    /// A frame with `nb_samples` samples per channel can be made.
    pub open spec fn allocatable(format: SampleFormat, channels: int, nb_samples: int) -> bool {
        &&& 1 <= channels
        &&& nb_samples * channels * format.spec_bytes() <= i32::MAX
    }

    /// A frame with room for `nb_samples` samples per channel.
    pub fn allocate(format: SampleFormat, ch_layout: ChannelLayout, nb_samples: usize) -> (r: Result<
        AudioFrame,
        Error,
    >)
        ensures
            r.is_ok() == AudioFrame::allocatable(
                format,
                ch_layout.nb_channels as int,
                nb_samples as int,
            ),
            r matches Err(e) ==> e.is_invalid("audio frame size out of range"@),
            r matches Ok(f) ==> {
                &&& f.format == format
                &&& f.ch_layout == ch_layout
                &&& f.nb_samples == nb_samples
                &&& f.sample_rate == 0
                &&& f.pts == NOPTS
                &&& f.time_base == (0i32, 1i32)
                &&& zeroed_planes(
                    f.planes@,
                    format,
                    ch_layout.nb_channels as int,
                    nb_samples as int,
                )
            },
    {
        let ch: usize = ch_layout.nb_channels;
        let bps: usize = format.bytes_per_sample();
        let total: Option<usize> = match nb_samples.checked_mul(ch) {
            Some(t) => t.checked_mul(bps),
            None => {
                assert(nb_samples * ch * bps >= nb_samples * ch) by (nonlinear_arith)
                    requires
                        bps >= 1,
                ;
                None
            },
        };
        let size: usize = match total {
            Some(t) => t,
            None => {
                return Err(invalid("audio frame size out of range"));
            },
        };
        if ch == 0 || size > 0x7fff_ffff {
            return Err(invalid("audio frame size out of range"));
        }
        proof {
            assert(0 <= nb_samples * ch <= nb_samples * ch * bps) by (nonlinear_arith)
                requires
                    bps >= 1,
            ;
            assert(0 <= nb_samples * bps <= nb_samples * ch * bps) by (nonlinear_arith)
                requires
                    ch >= 1,
            ;
        }
        let planar: bool = format.is_planar();
        let m: usize = if planar {
            ch
        } else {
            1
        };
        let need: usize = if planar {
            nb_samples * bps
        } else {
            nb_samples * ch * bps
        };
        let mut planes: Vec<Vec<u8>> = Vec::new();
        let ghost want = Seq::new(need as nat, |j: int| 0u8);
        let mut i: usize = 0;
        while i < m
            invariant
                i <= m,
                planes@.len() == i,
                want == Seq::new(need as nat, |j: int| 0u8),
                forall|k: int| 0 <= k < i ==> (#[trigger] planes@[k])@ == want,
            decreases m - i,
        {
            let p: Vec<u8> = vec![0u8; need];
            assert(p@ =~= want);
            planes.push(p);
            i = i + 1;
        }
        Ok(
            AudioFrame {
                format,
                ch_layout,
                nb_samples,
                sample_rate: 0,
                pts: NOPTS,
                time_base: (0, 1),
                planes,
            },
        )
    }

    /// Number of planes.
    pub fn nb_planes(&self) -> (r: usize)
        ensures
            r == self.planes@.len(),
    {
        self.planes.len()
    }

    /// The bytes of plane `i`.
    pub fn plane(&self, i: usize) -> (r: &[u8])
        requires
            i < self.planes@.len(),
        ensures
            r@ == self.planes@[i as int]@,
    {
        self.planes[i].as_slice()
    }

    /// The bytes of all planes.
    fn plane_slices(&self) -> (r: Vec<&[u8]>)
        ensures
            convert::slice_views(r@) == convert::vec_views(self.planes@),
    {
        let mut v: Vec<&[u8]> = Vec::new();
        let n: usize = self.planes.len();
        let mut i: usize = 0;
        while i < n
            invariant
                i <= n,
                n == self.planes@.len(),
                v@.len() == i,
                forall|k: int| 0 <= k < i ==> (#[trigger] v@[k])@ == self.planes@[k]@,
            decreases n - i,
        {
            v.push(self.planes[i].as_slice());
            i = i + 1;
        }
        proof {
            let a = convert::slice_views(v@);
            let b = convert::vec_views(self.planes@);
            assert forall|k: int| 0 <= k < n implies a[k] == #[trigger] b[k] by {
                assert(v@[k]@ == self.planes@[k]@);
            }
            assert(a =~= b);
        }
        v
    }
}

/// The options that a pair of frames tells.
pub open spec fn frame_options(
    o: SwrOptions,
    out: Option<AudioFrame>,
    in_: Option<AudioFrame>,
) -> SwrOptions {
    let a = match in_ {
        Some(f) => SwrOptions {
            in_chlayout: f.ch_layout,
            in_sample_fmt: Some(f.format),
            in_sample_rate: f.sample_rate,
            ..o
        },
        None => o,
    };
    match out {
        Some(f) => SwrOptions {
            out_chlayout: f.ch_layout,
            out_sample_fmt: Some(f.format),
            out_sample_rate: f.sample_rate,
            ..a
        },
        None => a,
    }
}

pub open spec fn frame_value(f: Option<&AudioFrame>) -> Option<AudioFrame> {
    match f {
        Some(x) => Some(*x),
        None => None,
    }
}

pub open spec fn format_or_first(f: Option<SampleFormat>) -> SampleFormat {
    match f {
        Some(x) => x,
        None => SampleFormat::U8,
    }
}

fn format_or_first_exec(f: Option<SampleFormat>) -> (r: SampleFormat)
    ensures
        r == format_or_first(f),
{
    match f {
        Some(x) => x,
        None => SampleFormat::U8,
    }
}

impl SwrContext {
    /// Ends the use of the context and takes its options from the frames.
    pub fn config_frame(&mut self, out: Option<&AudioFrame>, in_: Option<&AudioFrame>) -> (r: Result<
        (),
        Error,
    >)
        ensures
            r is Ok,
            old(self).wf() ==> final(self).wf(),
            old(self).configured(*final(self), frame_value(out), frame_value(in_)),
    {
        self.close();
        if let Some(f) = in_ {
            self.options.in_chlayout = f.ch_layout;
            self.options.in_sample_fmt = Some(f.format);
            self.options.in_sample_rate = f.sample_rate;
        }
        if let Some(f) = out {
            self.options.out_chlayout = f.ch_layout;
            self.options.out_sample_fmt = Some(f.format);
            self.options.out_sample_rate = f.sample_rate;
        }
        Ok(())
    }

    /// The context `new` is closed and has the frames' options.
    pub open spec fn configured(
        self,
        new: SwrContext,
        out: Option<AudioFrame>,
        in_: Option<AudioFrame>,
    ) -> bool {
        &&& new.options == frame_options(self.options, out, in_)
        &&& (SwrContext { options: self.options, ..new }).is_cleared(self)
    }

    /// An input frame does not fit the context.
    pub open spec fn input_changed(self, in_: Option<AudioFrame>) -> bool {
        in_ matches Some(f) && (self.in_ch_layout != f.ch_layout || self.options.in_sample_rate
            != f.sample_rate || format_or_first(
            self.options.in_sample_fmt,
        ) != f.format)
    }

    /// An output frame does not fit the context.
    pub open spec fn output_changed(self, out: Option<AudioFrame>) -> bool {
        out matches Some(f) && (self.out_ch_layout != f.ch_layout || self.options.out_sample_rate
            != f.sample_rate || format_or_first(
            self.options.out_sample_fmt,
        ) != f.format)
    }

    pub open spec fn change_error(
        self,
        out: Option<AudioFrame>,
        in_: Option<AudioFrame>,
        e: Error,
    ) -> bool {
        e.is_invalid(
            if !self.input_changed(in_) {
                "output configuration changed"@
            } else if !self.output_changed(out) {
                "input configuration changed"@
            } else {
                "input and output configuration changed"@
            },
        )
    }

    /// Checks that the frames fit the context.
    pub fn config_changed(&self, out: Option<&AudioFrame>, in_: Option<&AudioFrame>) -> (r: Result<
        (),
        Error,
    >)
        ensures
            r.is_ok() == (!self.input_changed(frame_value(in_)) && !self.output_changed(
                frame_value(out),
            )),
            r matches Err(e) ==> self.change_error(frame_value(out), frame_value(in_), e),
    {
        let a: bool = match in_ {
            Some(f) => !(self.in_ch_layout == f.ch_layout) || self.options.in_sample_rate
                != f.sample_rate || !(format_or_first_exec(self.options.in_sample_fmt) == f.format),
            None => false,
        };
        let b: bool = match out {
            Some(f) => !(self.out_ch_layout == f.ch_layout) || self.options.out_sample_rate
                != f.sample_rate || !(format_or_first_exec(self.options.out_sample_fmt) == f.format),
            None => false,
        };
        if a && b {
            Err(invalid("input and output configuration changed"))
        } else if a {
            Err(invalid("input configuration changed"))
        } else if b {
            Err(invalid("output configuration changed"))
        } else {
            Ok(())
        }
    }
}

impl SwrContext {
    /// The context `new` is `self` made ready for the frames.
    pub open spec fn prepared(
        self,
        new: SwrContext,
        out: Option<AudioFrame>,
        in_: Option<AudioFrame>,
    ) -> bool {
        if self.spec_is_initialized() {
            new == self && !self.input_changed(in_) && !self.output_changed(out)
        } else {
            exists|mid: SwrContext| #[trigger] self.configured(mid, out, in_) && mid.started(new)
        }
    }

    /// Why the context cannot be made ready for the frames, and what it is then.
    pub open spec fn unprepared(
        self,
        new: SwrContext,
        out: Option<AudioFrame>,
        in_: Option<AudioFrame>,
        e: Error,
    ) -> bool {
        if self.spec_is_initialized() {
            &&& self.input_changed(in_) || self.output_changed(out)
            &&& self.change_error(out, in_, e)
            &&& new == self
        } else {
            exists|mid: SwrContext| #[trigger]
                self.configured(mid, out, in_) && !mid.startable() && mid.start_error(e)
                    && mid.failed(new)
        }
    }

    /// Makes the context ready for the frames. Tells whether it was initialized
    /// for them.
    fn prepare(&mut self, out: Option<&AudioFrame>, in_: Option<&AudioFrame>) -> (r: Result<
        bool,
        Error,
    >)
        requires
            old(self).wf(),
            !old(self).spec_is_initialized() ==> (SwrContext {
                options: frame_options(old(self).options, frame_value(out), frame_value(in_)),
                ..*old(self)
            }).well_posed(),
        ensures
            final(self).wf(),
            r matches Ok(setup) ==> {
                &&& setup == !old(self).spec_is_initialized()
                &&& final(self).spec_is_initialized()
                &&& old(self).prepared(*final(self), frame_value(out), frame_value(in_))
            },
            r matches Err(e) ==> old(self).unprepared(
                *final(self),
                frame_value(out),
                frame_value(in_),
                e,
            ),
    {
        let ghost c0 = *self;
        if self.is_initialized() {
            match self.config_changed(out, in_) {
                Ok(_) => Ok(false),
                Err(e) => Err(e),
            }
        } else {
            let _ = self.config_frame(out, in_);
            let ghost mid = *self;
            proof {
                assert(c0.configured(mid, frame_value(out), frame_value(in_)));
                assert(mid.well_posed());
            }
            match self.init() {
                Ok(_) => Ok(true),
                Err(e) => Err(e),
            }
        }
    }

    /// Samples that an output frame is to have room for.
    pub open spec fn frame_room(self, in_: Option<AudioFrame>) -> int {
        self.delay(self.options.out_sample_rate as int) + 3 + match in_ {
            Some(f) => mathematics::tdiv(
                f.nb_samples * self.options.out_sample_rate,
                self.options.in_sample_rate as int,
            ),
            None => 0,
        }
    }

    /// The frame has no memory yet.
    pub open spec fn unallocated(f: AudioFrame) -> bool {
        f.planes@.len() == 0 || f.planes@[0]@.len() == 0
    }

    /// An output frame can be given memory.
    pub open spec fn sizeable(self, f: AudioFrame, in_: Option<AudioFrame>) -> bool {
        SwrContext::unallocated(f) ==> {
            &&& self.delay_known(self.options.out_sample_rate as int)
            &&& self.frame_room(in_) >= 0
            &&& AudioFrame::allocatable(
                f.format,
                f.ch_layout.nb_channels as int,
                self.frame_room(in_),
            )
        }
    }

    /// Samples for which a frame's memory is enough.
    pub open spec fn frame_capacity(f: AudioFrame) -> int {
        let n = f.planes@[0]@.len() as int / f.format.spec_bytes() as int;
        if f.format.spec_is_planar() {
            n
        } else if f.ch_layout.nb_channels == 0 {
            0
        } else {
            n / f.ch_layout.nb_channels as int
        }
    }

    /// The frame `new` is `f` with memory and a number of samples.
    pub open spec fn sized(self, f: AudioFrame, new: AudioFrame, in_: Option<AudioFrame>) -> bool {
        if SwrContext::unallocated(f) {
            &&& new == (AudioFrame {
                nb_samples: self.frame_room(in_) as usize,
                sample_rate: 0,
                planes: new.planes,
                ..f
            })
            &&& zeroed_planes(
                new.planes@,
                f.format,
                f.ch_layout.nb_channels as int,
                self.frame_room(in_),
            )
        } else {
            new == (AudioFrame {
                nb_samples: if f.nb_samples == 0 {
                    SwrContext::frame_capacity(f) as usize
                } else {
                    f.nb_samples
                },
                ..f
            })
        }
    }

    /// A frame that cannot be given memory. It tells how many samples it was to
    /// have room for.
    pub open spec fn unsized_frame(self, f: AudioFrame, in_: Option<AudioFrame>) -> AudioFrame {
        let room = self.frame_room(in_);
        if self.delay_known(self.options.out_sample_rate as int) && i64::MIN <= room <= i64::MAX {
            AudioFrame { nb_samples: (room as i64) as usize, ..f }
        } else {
            f
        }
    }

    /// Gives an output frame memory, or counts the samples that it has room for.
    fn size_frame(&self, f: &mut AudioFrame, in_: Option<&AudioFrame>) -> (r: Result<(), Error>)
        requires
            self.resample matches Some(s) ==> s.wf(),
        ensures
            r.is_ok() == self.sizeable(*old(f), frame_value(in_)),
            r matches Err(e) ==> {
                &&& e.is_invalid("audio frame size out of range"@)
                &&& *final(f) == self.unsized_frame(*old(f), frame_value(in_))
            },
            r is Ok ==> self.sized(*old(f), *final(f), frame_value(in_)),
    {
        let empty: bool = f.planes.len() == 0 || f.planes[0].len() == 0;
        if empty {
            let d: i64 = match self.checked_delay(self.options.out_sample_rate as i64) {
                Some(d) => d,
                None => {
                    return Err(invalid("audio frame size out of range"));
                },
            };
            let more: i128 = match in_ {
                Some(g) => {
                    proof {
                        arith::lemma_mul_bound(
                            g.nb_samples as int,
                            self.options.out_sample_rate as int,
                            0x1_0000_0000_0000_0000,
                            0x8000_0000,
                        );
                    }
                    tdiv_i128(
                        g.nb_samples as i128 * self.options.out_sample_rate as i128,
                        self.options.in_sample_rate as i128,
                    )
                },
                None => 0,
            };
            let room: i128 = d as i128 + 3 + more;
            proof {
                let ch = f.ch_layout.nb_channels as int;
                let b = f.format.spec_bytes() as int;
                assert(room > 0x7fff_ffff && ch >= 1 ==> room * ch * b > 0x7fff_ffff)
                    by (nonlinear_arith)
                    requires
                        b >= 1,
                ;
            }
            if room < i64::MIN as i128 || room > i64::MAX as i128 {
                return Err(invalid("audio frame size out of range"));
            }
            f.nb_samples = room as i64 as usize;
            if room < 0 || room > 0x7fff_ffff {
                return Err(invalid("audio frame size out of range"));
            }
            match AudioFrame::allocate(f.format, f.ch_layout, room as usize) {
                Ok(g) => {
                    f.sample_rate = g.sample_rate;
                    f.planes = g.planes;
                    Ok(())
                },
                Err(e) => Err(e),
            }
        } else {
            if f.nb_samples == 0 {
                let n: usize = f.planes[0].len() / f.format.bytes_per_sample();
                let ch: usize = f.ch_layout.nb_channels;
                f.nb_samples = if f.format.is_planar() {
                    n
                } else if ch == 0 {
                    0
                } else {
                    n / ch
                };
            }
            Ok(())
        }
    }
}

/// Memory for `n` samples of every channel can be addressed.
pub open spec fn addressable(a: AudioData, n: int) -> bool {
    a.ch_count * n * a.bps <= usize::MAX
}

fn addressable_exec(a: &AudioData, n: usize) -> (r: bool)
    requires
        a.ch_count <= 64,
        a.bps <= 8,
    ensures
        r == addressable(*a, n as int),
{
    proof {
        arith::lemma_mul_bound(a.ch_count as int, n as int, 64, 0x1_0000_0000_0000_0000);
        arith::lemma_mul_bound(
            a.ch_count * n,
            a.bps as int,
            0x40_0000_0000_0000_0000,
            8,
        );
        assert(0 <= a.ch_count * n) by (nonlinear_arith);
        assert(0 <= a.ch_count * n * a.bps) by (nonlinear_arith)
            requires
                0 <= a.ch_count * n,
        ;
    }
    a.ch_count as u128 * n as u128 * a.bps as u128 <= usize::MAX as u128
}

pub open spec fn frame_input(in_: Option<AudioFrame>) -> Option<Seq<Seq<u8>>> {
    match in_ {
        Some(f) => Some(convert::vec_views(f.planes@)),
        None => None,
    }
}

pub open spec fn frame_count(in_: Option<AudioFrame>) -> int {
    match in_ {
        Some(f) => f.nb_samples as int,
        None => 0,
    }
}

impl SwrContext {
    /// The numbers of samples are too large for a call.
    pub open spec fn oversized(self, n: int, m: int) -> bool {
        !addressable(self.in_, n) || !addressable(self.out, m) || m > i32::MAX
    }

    /// What a conversion into a frame makes of a context that is ready for it.
    pub open spec fn framed(
        self,
        new: SwrContext,
        f: AudioFrame,
        g: AudioFrame,
        in_: Option<AudioFrame>,
        res: Result<usize, Error>,
    ) -> bool {
        exists|h: AudioFrame| #[trigger] self.sized(f, h, in_) && self.filled(new, h, g, in_, res)
    }

    pub open spec fn filled(
        self,
        new: SwrContext,
        h: AudioFrame,
        g: AudioFrame,
        in_: Option<AudioFrame>,
        res: Result<usize, Error>,
    ) -> bool {
        let n = frame_count(in_);
        let m = h.nb_samples as int;
        match res {
            Ok(k) => {
                &&& k <= m
                &&& g == (AudioFrame { nb_samples: k, planes: g.planes, ..h })
                &&& self.called(
                    new,
                    frame_input(in_),
                    n,
                    m,
                    true,
                    k as int,
                    convert::samples_of(self.out, convert::vec_views(g.planes@), k as nat),
                )
                &&& calls::planes_kept(
                    self.out,
                    k as int,
                    convert::vec_views(h.planes@),
                    convert::vec_views(g.planes@),
                )
            },
            Err(e) => {
                &&& g == (AudioFrame { nb_samples: 0, planes: g.planes, ..h })
                &&& g.planes@ == h.planes@
                &&& if self.oversized(n, m) {
                    e == Error::BufferTooSmall && new == self
                } else if !self.spec_is_initialized() {
                    e.is_invalid("Context has not been initialized"@) && new == self
                } else {
                    let room = Some(convert::vec_views(h.planes@));
                    &&& self.call_refused(frame_input(in_), n, m, room)
                    &&& self.call_failed(frame_input(in_), n, m, room, new, e)
                }
            },
        }
    }

    /// Runs an input frame through the context into an output frame.
    fn fill_frame(&mut self, f: &mut AudioFrame, in_: Option<&AudioFrame>) -> (res: Result<
        usize,
        Error,
    >)
        requires
            old(self).wf(),
            old(self).spec_is_initialized(),
        ensures
            final(self).wf(),
            old(self).filled(*final(self), *old(f), *final(f), frame_value(in_), res),
    {
        let n: usize = match in_ {
            Some(g) => g.nb_samples,
            None => 0,
        };
        let m: usize = f.nb_samples;
        if !addressable_exec(&self.in_, n) || !addressable_exec(&self.out, m) || m > 0x7fff_ffff {
            f.nb_samples = 0;
            return Err(Error::BufferTooSmall);
        }
        let res: Result<usize, Error> = match in_ {
            Some(g) => {
                let planes: Vec<&[u8]> = g.plane_slices();
                self.convert(Some(&mut f.planes), m, Some(planes.as_slice()), n)
            },
            None => self.convert(Some(&mut f.planes), m, None, 0),
        };
        match res {
            Ok(k) => {
                f.nb_samples = k;
                Ok(k)
            },
            Err(e) => {
                f.nb_samples = 0;
                Err(e)
            },
        }
    }

    /// Converts into an output frame.
    fn convert_into(&mut self, f: &mut AudioFrame, in_: Option<&AudioFrame>) -> (res: Result<
        usize,
        Error,
    >)
        requires
            old(self).wf(),
            !old(self).spec_is_initialized() ==> (SwrContext {
                options: frame_options(old(self).options, Some(*old(f)), frame_value(in_)),
                ..*old(self)
            }).well_posed(),
        ensures
            final(self).wf(),
            old(self).frame_result(*final(self), *old(f), *final(f), frame_value(in_), res),
    {
        let ghost c0 = *self;
        let ghost f0 = *f;
        let ghost iv = frame_value(in_);
        let setup: bool = match self.prepare(Some(&*f), in_) {
            Ok(s) => s,
            Err(e) => {
                return Err(e);
            },
        };
        let ghost c1 = *self;
        proof {
            assert(c0.prepared(c1, Some(f0), iv));
            reveal(swr::rate_stage);
        }
        match self.size_frame(f, in_) {
            Ok(_) => {},
            Err(e) => {
                if setup {
                    self.close();
                }
                return Err(e);
            },
        }
        let ghost h = *f;
        let res: Result<usize, Error> = self.fill_frame(f, in_);
        proof {
            assert(c1.sized(f0, h, iv));
            assert(c1.framed(*self, f0, *f, iv, res));
        }
        res
    }

    /// The outcome of a conversion into a frame.
    pub open spec fn frame_result(
        self,
        new: SwrContext,
        f: AudioFrame,
        g: AudioFrame,
        in_: Option<AudioFrame>,
        res: Result<usize, Error>,
    ) -> bool {
        ||| res matches Err(e) && g == f && self.unprepared(new, Some(f), in_, e)
        ||| exists|c: SwrContext| #[trigger]
            self.prepared(c, Some(f), in_) && if c.sizeable(f, in_) {
                c.framed(new, f, g, in_, res)
            } else {
                &&& res matches Err(e) && e.is_invalid("audio frame size out of range"@)
                &&& g == c.unsized_frame(f, in_)
                &&& if self.spec_is_initialized() {
                    new == c
                } else {
                    new.is_cleared(c)
                }
            }
    }

    /// Starts the context for an input frame alone, and gives it no samples.
    fn convert_nowhere(&mut self, in_: Option<&AudioFrame>) -> (res: Result<usize, Error>)
        requires
            old(self).wf(),
            !old(self).spec_is_initialized() ==> (SwrContext {
                options: frame_options(old(self).options, None, frame_value(in_)),
                ..*old(self)
            }).well_posed(),
        ensures
            final(self).wf(),
            old(self).nowhere_result(*final(self), frame_value(in_), res),
    {
        let ghost c0 = *self;
        let ghost iv = frame_value(in_);
        match self.prepare(None, in_) {
            Ok(_) => {},
            Err(e) => {
                return Err(e);
            },
        }
        let ghost c1 = *self;
        proof {
            assert(c0.prepared(c1, None, iv));
            assert(self.in_.ch_count * 0 * self.in_.bps == 0) by (nonlinear_arith);
            assert(self.out.ch_count * 0 * self.out.bps == 0) by (nonlinear_arith);
        }
        match in_ {
            Some(g) => {
                let planes: Vec<&[u8]> = g.plane_slices();
                self.convert(None, 0, Some(planes.as_slice()), 0)
            },
            None => self.convert(None, 0, None, 0),
        }
    }

    /// The outcome of a call without an output frame.
    pub open spec fn nowhere_result(
        self,
        new: SwrContext,
        in_: Option<AudioFrame>,
        res: Result<usize, Error>,
    ) -> bool {
        ||| res matches Err(e) && self.unprepared(new, None, in_, e)
        ||| exists|c: SwrContext| #[trigger]
            self.prepared(c, None, in_) && match res {
                Ok(k) => k == 0 && c.called(
                    new,
                    frame_input(in_),
                    0,
                    0,
                    false,
                    0,
                    audio::planes_zero(c.out.ch_count as nat, 0),
                ),
                Err(e) => if !c.spec_is_initialized() {
                    e.is_invalid("Context has not been initialized"@) && new == c
                } else {
                    &&& c.call_refused(frame_input(in_), 0, 0, None)
                    &&& c.call_failed(frame_input(in_), 0, 0, None, new, e)
                },
            }
    }

    /// Converts an input frame into an output frame. A context that is not
    /// initialized takes its options from the frames; otherwise these must fit
    /// it. An output frame without memory is given some. Without an input frame
    /// the input has ended; without an output frame the context is only made
    /// ready.
    pub fn convert_frame(&mut self, out: Option<&mut AudioFrame>, in_: Option<&AudioFrame>) -> (res:
        Result<usize, Error>)
        requires
            old(self).wf(),
            !old(self).spec_is_initialized() ==> (SwrContext {
                options: frame_options(
                    old(self).options,
                    match out {
                        Some(f) => Some(*f),
                        None => None,
                    },
                    frame_value(in_),
                ),
                ..*old(self)
            }).well_posed(),
        ensures
            final(self).wf(),
            out matches Some(f) ==> old(self).frame_result(
                *final(self),
                *f,
                *final(f),
                frame_value(in_),
                res,
            ),
            out is None ==> old(self).nowhere_result(*final(self), frame_value(in_), res),
    {
        match out {
            Some(f) => self.convert_into(f, in_),
            None => self.convert_nowhere(in_),
        }
    }
}

} // verus!
