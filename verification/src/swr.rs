//! The resampling context: options, initialization and state.
use crate::audio::{set_audiodata_fmt, AudioData, SWR_CH_MAX};
use crate::audioconvert;
use crate::audioconvert::AudioConvert;
use crate::channel_layout;
use crate::channel_layout::{ChannelLayout, Order};
use crate::error::{invalid, Error};
use crate::float::{F32, F64};
use crate::options::{
    SwrDitherType, SwrEngine, SwrFlags, SwrOptions, F32_HALF_MAX, NOPTS,
};
use crate::rematrix;
use crate::rematrix::{check_chlayout, swr_set_matrix, CustomRematrix, RematrixContext, RematrixOptions};
use crate::resample;
use crate::resample::{plan_resampler, FilterShape, FilterTable, ResampleContext};
use crate::samplefmt::SampleFormat;
use crate::text;
use crate::text::{push_decimal, push_signed};
use vstd::arithmetic::power2::*;
use vstd::prelude::*;

verus! {

/// A buffer descriptor for `ch` channels of format `fmt`, without samples.
pub open spec fn blank(a: AudioData, ch: int, fmt: SampleFormat) -> bool {
    &&& shaped(a, ch, fmt)
    &&& a.count == 0
    &&& a.data@.len() == 0
}

/// A buffer for `ch` channels of format `fmt`. One channel is always planar.
pub open spec fn shaped(a: AudioData, ch: int, fmt: SampleFormat) -> bool {
    &&& a.ch_count == ch
    &&& a.fmt == fmt
    &&& a.bps == fmt.spec_bytes()
    &&& a.planar == (fmt.spec_is_planar() || ch == 1)
}

/// The descriptor of no buffer at all.
pub open spec fn absent(a: AudioData) -> bool {
    &&& a.ch_count == 0
    &&& a.bps == 0
    &&& a.count == 0
    &&& !a.planar
    &&& a.fmt == SampleFormat::U8
    &&& a.data@.len() == 0
}

pub open spec fn map_view(m: Option<Vec<i32>>) -> Option<Seq<i32>> {
    match m {
        Some(v) => Some(v@),
        None => None,
    }
}

/// A converter from input of the shape `i` to the format between the stages.
#[verifier::opaque]
pub open spec fn in_stage(
    c: AudioConvert,
    i: AudioData,
    f: SampleFormat,
    used: int,
    map: Option<Seq<i32>>,
) -> bool {
    &&& c.wf()
    &&& c.channels == used
    &&& c.from == i.fmt.spec_packed()
    &&& c.to == f.spec_packed()
    &&& map_view(c.ch_map) == map
    &&& c.simd_bps is Some && used == i.ch_count ==> i.planar
}

/// A converter from the format between the stages to output of the shape `o`.
#[verifier::opaque]
pub open spec fn out_stage(c: AudioConvert, o: AudioData, f: SampleFormat) -> bool {
    &&& c.wf()
    &&& c.channels == o.ch_count
    &&& c.from == f.spec_packed()
    &&& c.to == o.fmt.spec_packed()
    &&& c.ch_map is None
    &&& c.simd_bps is Some ==> o.planar
}

/// A converter from input of the shape `i` to output of the shape `o`.
#[verifier::opaque]
pub open spec fn only_stage(c: AudioConvert, i: AudioData, o: AudioData) -> bool {
    &&& c.wf()
    &&& c.ch_map is None
    &&& c.channels == i.ch_count
    &&& c.from == i.fmt.spec_packed()
    &&& c.to == o.fmt.spec_packed()
    &&& c.simd_bps is Some && c.channels == o.ch_count ==> i.planar == o.planar
}

/// A resampler in the format between the stages.
#[verifier::opaque]
pub open spec fn rate_stage(r: ResampleContext, f: SampleFormat) -> bool {
    r.wf() && r.format == f
}

/// A mixer in the format between the stages.
#[verifier::opaque]
pub open spec fn mix_stage(m: RematrixContext, f: SampleFormat, used: int, out: int) -> bool {
    &&& m.ready()
    &&& m.int_fmt == f
    &&& m.in_nb == used
    &&& m.out_nb == out
}

fn make_blank(ch: usize, fmt: SampleFormat) -> (a: AudioData)
    ensures
        blank(a, ch as int, fmt),
        a.wf(),
{
    let mut a = AudioData::empty();
    a.ch_count = ch;
    set_audiodata_fmt(&mut a, fmt);
    assert(a.ch_count * a.count * a.bps == 0) by (nonlinear_arith)
        requires
            a.count == 0,
    ;
    a
}

/// A resampling context. It is configured through its options, initialized,
/// and then fed with samples; closing it brings it back to the first state.
pub struct SwrContext {
    pub options: SwrOptions,
    /// Format between the stages.
    pub int_sample_fmt: SampleFormat,
    pub used_ch_layout: ChannelLayout,
    pub in_ch_layout: ChannelLayout,
    pub out_ch_layout: ChannelLayout,
    pub dither_method: SwrDitherType,
    /// The channels are mixed.
    pub rematrix_needed: bool,
    /// Resampling comes before mixing.
    pub resample_first: bool,
    /// Input channel of each used channel; negative entries are muted.
    pub channel_map: Option<Vec<i32>>,
    /// A user's mixing matrix.
    pub custom: Option<CustomRematrix>,
    /// Shape of the input.
    pub in_: AudioData,
    /// Shape of the converted input.
    pub postin: AudioData,
    /// Shape of what lies between mixing and resampling.
    pub midbuf: AudioData,
    /// Shape of what is converted to output.
    pub preout: AudioData,
    /// Shape of the output.
    pub out: AudioData,
    /// Samples that are not used up yet: input, or what the resampler reads.
    pub in_buffer: AudioData,
    /// Shape of injected silence.
    pub silence: AudioData,
    /// Shape of dropped output.
    pub drop_temp: AudioData,
    pub in_buffer_index: usize,
    pub in_buffer_count: usize,
    /// The buffered samples give no output before more input comes.
    pub resample_in_constraint: bool,
    /// The end of the input has been reached.
    pub flushed: bool,
    /// Timestamp of the next output sample, in units of
    /// `1 / (in_sample_rate * out_sample_rate)`.
    pub outpts: i64,
    pub firstpts: i64,
    /// Output samples that are still to be dropped.
    pub drop_output: i32,
    pub in_convert: Option<AudioConvert>,
    pub out_convert: Option<AudioConvert>,
    /// Converts input to output when nothing else is to be done.
    pub full_convert: Option<AudioConvert>,
    pub rematrix_ctx: Option<RematrixContext>,
    pub resample: Option<ResampleContext>,
    /// Filters that the resampler may use.
    pub tables: Vec<FilterTable>,
}

impl SwrContext {
    /// The channels that the input is converted to.
    pub open spec fn used_channels(self) -> int {
        self.used_ch_layout.nb_channels as int
    }

    /// Channels of the resampler, or of the input where there is none.
    pub open spec fn buffered_channels(self) -> int {
        if self.resample is None {
            self.in_.ch_count as int
        } else if !self.resample_first {
            self.out.ch_count as int
        } else if self.channel_map is Some {
            self.used_channels()
        } else {
            self.in_.ch_count as int
        }
    }

    /// An initialized context whose stages fit together.
    pub open spec fn live(self) -> bool {
        &&& 1 <= self.in_.ch_count <= SWR_CH_MAX
        &&& 1 <= self.out.ch_count <= SWR_CH_MAX
        &&& 1 <= self.used_channels() <= SWR_CH_MAX
        &&& blank(self.in_, self.in_.ch_count as int, self.in_.fmt)
        &&& blank(self.out, self.out.ch_count as int, self.out.fmt)
        &&& blank(self.silence, self.in_.ch_count as int, self.in_.fmt)
        &&& blank(self.drop_temp, self.out.ch_count as int, self.out.fmt)
        &&& self.in_buffer.wf()
        &&& shaped(
            self.in_buffer,
            self.buffered_channels(),
            if self.resample is None {
                self.in_.fmt
            } else {
                self.int_sample_fmt
            },
        )
        &&& self.in_buffer_index + self.in_buffer_count <= self.in_buffer.count
        &&& self.resample matches Some(r) ==> r.index < 0 ==> self.in_buffer_count == 0
            || self.in_buffer_index == r.filter_length
        &&& match self.full_convert {
            Some(c) => {
                &&& self.resample is None
                &&& !self.rematrix_needed
                &&& only_stage(c, self.in_, self.out)
            },
            None => self.staged(),
        }
    }

    /// The stages of a context that does more than convert formats.
    pub open spec fn staged(self) -> bool {
        &&& self.int_sample_fmt.spec_is_planar()
        &&& blank(
            self.postin,
            if self.channel_map is Some {
                self.used_channels()
            } else {
                self.in_.ch_count as int
            },
            self.int_sample_fmt,
        )
        &&& blank(
            self.midbuf,
            if !self.resample_first {
                self.out.ch_count as int
            } else if self.channel_map is Some {
                self.used_channels()
            } else {
                self.in_.ch_count as int
            },
            self.int_sample_fmt,
        )
        &&& blank(self.preout, self.out.ch_count as int, self.int_sample_fmt)
        &&& self.in_convert matches Some(c) && in_stage(
            c,
            self.in_,
            self.int_sample_fmt,
            self.used_channels(),
            map_view(self.channel_map),
        )
        &&& self.out_convert matches Some(c) && out_stage(c, self.out, self.int_sample_fmt)
        &&& self.rematrix_needed ==> (self.rematrix_ctx matches Some(m) && mix_stage(
            m,
            self.int_sample_fmt,
            self.used_channels(),
            self.out.ch_count as int,
        ))
        &&& !self.rematrix_needed ==> self.used_channels() == self.out.ch_count
        &&& self.resample matches Some(r) ==> rate_stage(r, self.int_sample_fmt)
    }

    /// The state between calls.
    pub open spec fn wf(self) -> bool {
        &&& self.custom matches Some(c) ==> c.wf()
        &&& if self.in_buffer.ch_count == 0 {
            &&& absent(self.in_buffer)
            &&& self.in_buffer_count == 0
            &&& self.in_buffer_index == 0
        } else {
            self.live()
        }
    }

    /// The state that closing leads to.
    pub open spec fn is_cleared(self, o: SwrContext) -> bool {
        &&& self.in_buffer_index == 0
        &&& self.in_buffer_count == 0
        &&& !self.resample_in_constraint
        &&& absent(self.postin)
        &&& absent(self.midbuf)
        &&& absent(self.preout)
        &&& absent(self.in_buffer)
        &&& absent(self.silence)
        &&& absent(self.drop_temp)
        &&& self.in_ch_layout == ChannelLayout::unset()
        &&& self.out_ch_layout == ChannelLayout::unset()
        &&& self.used_ch_layout == ChannelLayout::unset()
        &&& self.in_convert is None
        &&& self.out_convert is None
        &&& self.full_convert is None
        &&& self.rematrix_ctx is None
        &&& !self.flushed
        &&& self.keeps(o)
        &&& self.resample == o.resample
        &&& self.in_ == o.in_
        &&& self.out == o.out
        &&& self.options == o.options
        &&& self.int_sample_fmt == o.int_sample_fmt
        &&& self.dither_method == o.dither_method
        &&& self.rematrix_needed == o.rematrix_needed
        &&& self.resample_first == o.resample_first
        &&& self.outpts == o.outpts
        &&& self.firstpts == o.firstpts
    }

    /// What neither closing nor initializing changes.
    pub open spec fn keeps(self, o: SwrContext) -> bool {
        &&& self.channel_map == o.channel_map
        &&& self.custom == o.custom
        &&& self.drop_output == o.drop_output
        &&& self.tables == o.tables
    }

    /// But for its options, a context that nothing has happened to.
    pub open spec fn is_new(self) -> bool {
        &&& self.wf()
        &&& self.int_sample_fmt == SampleFormat::U8
        &&& self.used_ch_layout == ChannelLayout::unset()
        &&& self.in_ch_layout == ChannelLayout::unset()
        &&& self.out_ch_layout == ChannelLayout::unset()
        &&& self.dither_method == SwrDitherType::Off
        &&& !self.rematrix_needed
        &&& !self.resample_first
        &&& self.channel_map is None
        &&& self.custom is None
        &&& absent(self.in_)
        &&& absent(self.postin)
        &&& absent(self.midbuf)
        &&& absent(self.preout)
        &&& absent(self.out)
        &&& absent(self.in_buffer)
        &&& absent(self.silence)
        &&& absent(self.drop_temp)
        &&& self.in_buffer_index == 0
        &&& self.in_buffer_count == 0
        &&& !self.resample_in_constraint
        &&& !self.flushed
        &&& self.outpts == 0
        &&& self.firstpts == NOPTS
        &&& self.drop_output == 0
        &&& self.in_convert is None
        &&& self.out_convert is None
        &&& self.full_convert is None
        &&& self.rematrix_ctx is None
        &&& self.resample is None
        &&& self.tables@.len() == 0
    }

    /// A context with the usual options.
    pub fn allocate() -> (r: SwrContext)
        ensures
            r.is_new(),
            r.options == SwrOptions::initial(),
    {
        SwrContext {
            options: SwrOptions::default(),
            int_sample_fmt: SampleFormat::U8,
            used_ch_layout: ChannelLayout::none(),
            in_ch_layout: ChannelLayout::none(),
            out_ch_layout: ChannelLayout::none(),
            dither_method: SwrDitherType::Off,
            rematrix_needed: false,
            resample_first: false,
            channel_map: None,
            custom: None,
            in_: AudioData::empty(),
            postin: AudioData::empty(),
            midbuf: AudioData::empty(),
            preout: AudioData::empty(),
            out: AudioData::empty(),
            in_buffer: AudioData::empty(),
            silence: AudioData::empty(),
            drop_temp: AudioData::empty(),
            in_buffer_index: 0,
            in_buffer_count: 0,
            resample_in_constraint: false,
            flushed: false,
            outpts: 0,
            firstpts: NOPTS,
            drop_output: 0,
            in_convert: None,
            out_convert: None,
            full_convert: None,
            rematrix_ctx: None,
            resample: None,
            tables: Vec::new(),
        }
    }

    /// A context, new or the given one, with formats, rates and layouts set.
    pub fn alloc_set_opts2(
        s: Option<SwrContext>,
        out_ch_layout: &ChannelLayout,
        out_sample_fmt: SampleFormat,
        out_sample_rate: i32,
        in_ch_layout: &ChannelLayout,
        in_sample_fmt: SampleFormat,
        in_sample_rate: i32,
    ) -> (r: Result<SwrContext, Error>)
        ensures
            r.is_ok() == (rematrix::chlayout_ok(*out_ch_layout) && rematrix::chlayout_ok(
                *in_ch_layout,
            )),
            r matches Err(e) ==> e.is_invalid(
                if !rematrix::chlayout_ok(*out_ch_layout) {
                    rematrix::chlayout_text(*out_ch_layout, "ochl"@)
                } else {
                    rematrix::chlayout_text(*in_ch_layout, "ichl"@)
                },
            ),
            r matches Ok(c) ==> {
                let o = match s {
                    Some(x) => x.options,
                    None => SwrOptions::initial(),
                };
                &&& c.options == (SwrOptions {
                    out_chlayout: *out_ch_layout,
                    out_sample_fmt: Some(out_sample_fmt),
                    out_sample_rate,
                    in_chlayout: *in_ch_layout,
                    in_sample_fmt: Some(in_sample_fmt),
                    in_sample_rate,
                    ..o
                })
                &&& s matches Some(x) ==> c == (SwrContext { options: c.options, ..x })
                &&& s is None ==> c.is_new()
            },
    {
        let mut c: SwrContext = match s {
            Some(x) => x,
            None => SwrContext::allocate(),
        };
        match check_chlayout(out_ch_layout, "ochl") {
            Ok(_) => {},
            Err(e) => {
                return Err(e);
            },
        }
        match check_chlayout(in_ch_layout, "ichl") {
            Ok(_) => {},
            Err(e) => {
                return Err(e);
            },
        }
        c.options.out_chlayout = *out_ch_layout;
        c.options.out_sample_fmt = Some(out_sample_fmt);
        c.options.out_sample_rate = out_sample_rate;
        c.options.in_chlayout = *in_ch_layout;
        c.options.in_sample_fmt = Some(in_sample_fmt);
        c.options.in_sample_rate = in_sample_rate;
        Ok(c)
    }

    /// Chooses the input channels; only before the context is initialized.
    pub fn set_channel_mapping(&mut self, channel_map: Option<&[i32]>) -> (r: Result<(), Error>)
        ensures
            r.is_ok() == !old(self).spec_is_initialized(),
            r matches Err(e) ==> *final(self) == *old(self) && e.is_invalid(
                "swr_set_channel_mapping: the context must be allocated but not initialized"@,
            ),
            r is Ok ==> {
                &&& *final(self) == (SwrContext {
                    channel_map: final(self).channel_map,
                    ..*old(self)
                })
                &&& final(self).channel_map.is_some() == channel_map.is_some()
                &&& channel_map matches Some(m) ==> final(self).channel_map->0@ == m@
            },
    {
        if self.is_initialized() {
            return Err(
                invalid(
                    "swr_set_channel_mapping: the context must be allocated but not initialized",
                ),
            );
        }
        self.channel_map = match channel_map {
            Some(m) => Some(vstd::slice::slice_to_vec(m)),
            None => None,
        };
        Ok(())
    }

    /// Takes a mixing matrix from the user; only before the context is
    /// initialized. Row `o` of the matrix starts at `o * stride`.
    pub fn set_matrix(&mut self, matrix: &[F64], stride: usize) -> (r: Result<(), Error>)
        ensures
            ({
                let i = old(self).options.in_chlayout;
                let o = old(self).options.out_chlayout;
                &&& r.is_ok() == (!old(self).spec_is_initialized() && rematrix::chlayout_ok(i)
                    && rematrix::chlayout_ok(o) && matrix@.len() >= (o.nb_channels - 1) * stride
                    + i.nb_channels)
                &&& r matches Err(e) ==> *final(self) == *old(self) && if old(
                    self,
                ).spec_is_initialized() {
                    e.is_invalid(
                        "swr_set_matrix: the context must be allocated but not initialized"@,
                    )
                } else if !rematrix::chlayout_ok(i) {
                    e.is_invalid(rematrix::chlayout_text(i, "input"@))
                } else if !rematrix::chlayout_ok(o) {
                    e.is_invalid(rematrix::chlayout_text(o, "output"@))
                } else {
                    e == Error::BufferTooSmall
                }
                &&& r is Ok ==> {
                    &&& *final(self) == (SwrContext { custom: final(self).custom, ..*old(self) })
                    &&& final(self).custom matches Some(c) && c.wf() && c.matrix@
                        == rematrix::user_matrix(
                        matrix@,
                        stride as int,
                        i.nb_channels as int,
                        o.nb_channels as int,
                    )
                }
            }),
    {
        match swr_set_matrix(
            &self.options.in_chlayout,
            &self.options.out_chlayout,
            matrix,
            stride,
            self.is_initialized(),
        ) {
            Ok(c) => {
                self.custom = Some(c);
                Ok(())
            },
            Err(e) => Err(e),
        }
    }

    fn clear_context(&mut self)
        ensures
            final(self).is_cleared(*old(self)),
            old(self).wf() ==> final(self).wf(),
    {
        self.in_buffer_index = 0;
        self.in_buffer_count = 0;
        self.resample_in_constraint = false;
        self.postin = AudioData::empty();
        self.midbuf = AudioData::empty();
        self.preout = AudioData::empty();
        self.in_buffer = AudioData::empty();
        self.silence = AudioData::empty();
        self.drop_temp = AudioData::empty();
        self.in_ch_layout = ChannelLayout::none();
        self.out_ch_layout = ChannelLayout::none();
        self.used_ch_layout = ChannelLayout::none();
        self.in_convert = None;
        self.out_convert = None;
        self.full_convert = None;
        self.rematrix_ctx = None;
        self.flushed = false;
    }

    /// Ends the use of the context; its options stay, and so do the timestamps
    /// and a pending drop.
    pub fn close(&mut self)
        ensures
            final(self).is_cleared(*old(self)),
            old(self).wf() ==> final(self).wf(),
    {
        self.clear_context();
    }

    pub open spec fn spec_is_initialized(self) -> bool {
        self.in_buffer.ch_count != 0
    }

    /// Whether the context can be fed.
    pub fn is_initialized(&self) -> (r: bool)
        ensures
            r == self.spec_is_initialized(),
    {
        self.in_buffer.ch_count != 0
    }

    /// Adds a filter to those that the resampler may use.
    pub fn install_table(&mut self, table: FilterTable)
        ensures
            *final(self) == (SwrContext { tables: final(self).tables, ..*old(self) }),
            final(self).tables@ == old(self).tables@.push(table),
    {
        self.tables.push(table);
    }
}

/// A filter of a shape is among the installed ones.
pub open spec fn has_table(tables: Seq<FilterTable>, shape: FilterShape) -> bool {
    exists|k: int| 0 <= k < tables.len() && #[trigger] tables[k].describes(shape)
}

// --- what the options amount to ------------------------------------------------------

/// The layout of the used channels, as asked for.
pub open spec fn asked_layout(o: SwrOptions) -> ChannelLayout {
    if o.used_chlayout.valid() {
        o.used_chlayout
    } else {
        ChannelLayout::usual(o.in_chlayout.nb_channels as nat)
    }
}

/// The layout of the used channels, with speakers where their number tells them.
#[verifier::opaque]
pub open spec fn used_layout(o: SwrOptions) -> ChannelLayout {
    let a = asked_layout(o);
    if a.order == Order::Unspecified {
        ChannelLayout::usual(a.nb_channels as nat)
    } else {
        a
    }
}

/// The layout that is mixed from.
#[verifier::opaque]
pub open spec fn in_layout(o: SwrOptions) -> ChannelLayout {
    if asked_layout(o).nb_channels != o.in_chlayout.nb_channels || o.in_chlayout.order
        == Order::Unspecified {
        used_layout(o)
    } else {
        o.in_chlayout
    }
}

/// The layout that is mixed to.
#[verifier::opaque]
pub open spec fn out_layout(o: SwrOptions) -> ChannelLayout {
    if o.out_chlayout.order == Order::Unspecified {
        ChannelLayout::usual(o.out_chlayout.nb_channels as nat)
    } else {
        o.out_chlayout
    }
}

/// The channels are to be mixed.
#[verifier::opaque]
pub open spec fn mixes(o: SwrOptions, custom: bool) -> bool {
    out_layout(o) != in_layout(o) || !o.rematrix_volume.s_same(F32 { bits: 0x3f80_0000 }) || custom
}

/// The rate is to be changed, or resampling is forced.
pub open spec fn resamples(o: SwrOptions) -> bool {
    o.out_sample_rate != o.in_sample_rate || o.flags.holds(SwrFlags(1))
}

/// The format between the stages that suits two formats.
#[verifier::opaque]
pub open spec fn suited_format(o: SwrOptions, i: SampleFormat, f: SampleFormat, mix: bool) -> SampleFormat {
    let plain = !mix && !resamples(o);
    if i == SampleFormat::Dsd && f != SampleFormat::Dsd {
        SampleFormat::Fltp
    } else if i.spec_bytes() <= 2 && f.spec_bytes() <= 2 && o.out_sample_rate == o.in_sample_rate {
        SampleFormat::S16p
    } else if i.spec_bytes() + f.spec_bytes() <= 3 {
        SampleFormat::S16p
    } else if i.spec_bytes() <= 2 && plain {
        SampleFormat::S16p
    } else if i.spec_planar() == SampleFormat::S32p && f.spec_planar() == SampleFormat::S32p && plain
        && o.engine != SwrEngine::Soxr {
        SampleFormat::S32p
    } else if i.spec_bytes() <= 4 {
        SampleFormat::Fltp
    } else {
        SampleFormat::Dblp
    }
}

/// The format between the stages.
#[verifier::opaque]
pub open spec fn internal_format(o: SwrOptions, mix: bool) -> SampleFormat {
    match o.internal_sample_fmt {
        Some(f) => f,
        None => suited_format(o, o.in_sample_fmt->0, o.out_sample_fmt->0, mix),
    }
}

/// Formats that are possible between the stages.
pub open spec fn possible_inside(f: SampleFormat) -> bool {
    f == SampleFormat::S16p || f == SampleFormat::S32p || f == SampleFormat::S64p || f
        == SampleFormat::Fltp || f == SampleFormat::Dblp
}

/// Conversion to one-bit audio, which is only possible as a copy.
pub open spec fn makes_dsd(o: SwrOptions) -> bool {
    o.out_sample_fmt == Some(SampleFormat::Dsd) && !(o.in_sample_fmt == Some(SampleFormat::Dsd)
        && !resamples(o))
}

/// Why the options are refused at once, if they are.
#[verifier::opaque]
pub open spec fn refusal(o: SwrOptions, custom: bool) -> Option<Seq<char>> {
    let f = internal_format(o, mixes(o, custom));
    if o.in_sample_fmt is None {
        Some("Requested input sample format -1 is invalid"@)
    } else if o.out_sample_fmt is None {
        Some("Requested output sample format -1 is invalid"@)
    } else if o.in_sample_rate <= 0 {
        Some(
            "Requested input sample rate "@ + text::signed_decimal(o.in_sample_rate as int)
                + " is invalid"@,
        )
    } else if o.out_sample_rate <= 0 {
        Some(
            "Requested output sample rate "@ + text::signed_decimal(o.out_sample_rate as int)
                + " is invalid"@,
        )
    } else if makes_dsd(o) {
        Some("Conversion to DSD is not supported"@)
    } else if !rematrix::chlayout_ok(o.in_chlayout) {
        Some(rematrix::chlayout_text(o.in_chlayout, "input"@))
    } else if !rematrix::chlayout_ok(o.out_chlayout) {
        Some(rematrix::chlayout_text(o.out_chlayout, "output"@))
    } else if o.engine == SwrEngine::Soxr {
        Some("Requested resampling engine is unavailable"@)
    } else if !possible_inside(f) {
        Some(
            "Requested sample format "@ + f.spec_name()
                + " is not supported internally, s16p/s32p/s64p/fltp/dblp are supported"@,
        )
    } else {
        None
    }
}

/// `a >= b`.
pub open spec fn at_least(a: F32, b: F32) -> bool {
    b.s_less(a) || a.s_same(b)
}

pub(crate) fn at_least_exec(a: F32, b: F32) -> (r: bool)
    ensures
        r == at_least(a, b),
{
    b.less(a) || a.same(b)
}

/// The options with the simplified timestamp options written out.
#[verifier::opaque]
pub open spec fn written_out(o: SwrOptions) -> SwrOptions {
    let one = F32 { bits: 0x3f80_0000 };
    let idle = at_least(o.min_compensation, F32 { bits: F32_HALF_MAX });
    let a = if o.first_pts != NOPTS && o.async_.s_same(F32 { bits: 0 }) && idle {
        one
    } else {
        o.async_
    };
    if a.s_same(F32 { bits: 0 }) {
        SwrOptions { async_: a, ..o }
    } else {
        SwrOptions {
            async_: a,
            min_compensation: if idle {
                F32 { bits: 0x3a83_126f }
            } else {
                o.min_compensation
            },
            max_soft_compensation: if (F32 { bits: 0x3f80_0347 }).s_less(a) {
                a.s_widen().s_over(F64::s_from_int(o.in_sample_rate as int)).s_narrow()
            } else {
                o.max_soft_compensation
            },
            ..o
        }
    }
}

/// The first timestamp in the context's units; it wraps.
pub open spec fn scaled_pts(o: SwrOptions) -> int {
    crate::arith::wrap64(o.first_pts * o.out_sample_rate)
}

/// Whether resampling comes before mixing: it does where that is less work.
#[verifier::opaque]
pub open spec fn resampling_first(out_ch: int, used_ch: int, out_rate: int, in_rate: int) -> bool {
    F64::s_from_int(out_ch / used_ch - 1).s_less(
        F32::s_from_int(out_rate).s_over(F32::s_from_int(in_rate)).s_widen().s_minus(
            F64 { bits: resample::ONE },
        ),
    )
}

/// Loss of precision that a dither would hide, in units of the output.
pub open spec fn dither_step(o: SwrOptions, i: SampleFormat, f: SampleFormat) -> F64 {
    let fi = i == SampleFormat::Flt || i == SampleFormat::Dbl;
    let base: u64 = if fi && f == SampleFormat::S32 {
        0x3e00_0000_0000_0000
    } else if fi && f == SampleFormat::S16 {
        0x3f00_0000_0000_0000
    } else if fi && f == SampleFormat::U8 {
        0x3f80_0000_0000_0000
    } else if i == SampleFormat::S32 && f == SampleFormat::S32 && o.output_sample_bits as int % 32
        != 0 {
        0x3ff0_0000_0000_0000
    } else if i == SampleFormat::S32 && f == SampleFormat::S16 {
        0x40f0_0000_0000_0000
    } else if i == SampleFormat::S32 && f == SampleFormat::U8 {
        0x4170_0000_0000_0000
    } else if i == SampleFormat::S16 && f == SampleFormat::U8 {
        0x4070_0000_0000_0000
    } else {
        0
    };
    let scaled = F64 { bits: base }.s_times(o.dither_scale.s_widen());
    if f == SampleFormat::S32 && o.output_sample_bits != 0 {
        scaled.s_times(F64::s_from_int(pow2(((32 - o.output_sample_bits) % 32) as nat) as int))
    } else {
        scaled
    }
}

/// A dither is asked for and there is something to hide.
#[verifier::opaque]
pub open spec fn dithers(o: SwrOptions) -> bool {
    o.dither_method != SwrDitherType::Off && !dither_step(
        o,
        o.in_sample_fmt->0.spec_packed(),
        o.out_sample_fmt->0.spec_packed(),
    ).s_same(F64 { bits: 0 })
}

fn shifted(bits: i32) -> (r: i64)
    ensures
        r == pow2(((32 - bits) % 32) as nat),
{
    let n: i64 = (32 - bits as i64) % 32;
    let k: i64 = if n < 0 {
        n + 32
    } else {
        n
    };
    let mut r: i64 = 1;
    let mut j: i64 = 0;
    proof {
        lemma2_to64();
    }
    assert(k == (32 - bits) % 32);
    while j < k
        invariant
            0 <= j <= k < 32,
            r == pow2(j as nat),
            1 <= r <= 0x8000_0000,
            pow2(31) == 0x8000_0000,
        decreases k - j,
    {
        proof {
            lemma_pow2_unfold((j + 1) as nat);
            if j + 1 < 31 {
                lemma_pow2_strictly_increases((j + 1) as nat, 31);
            }
        }
        r = r * 2;
        j = j + 1;
    }
    r
}

fn dithers_exec(o: &SwrOptions, i: SampleFormat, f: SampleFormat) -> (r: bool)
    requires
        o.in_sample_fmt == Some(i),
        o.out_sample_fmt == Some(f),
    ensures
        r == dithers(*o),
{
    proof {
        reveal(dithers);
    }
    let i: SampleFormat = i.packed();
    let f: SampleFormat = f.packed();
    let fi: bool = i == SampleFormat::Flt || i == SampleFormat::Dbl;
    let odd: bool = o.output_sample_bits % 32 != 0;
    let base: u64 = if fi && f == SampleFormat::S32 {
        0x3e00_0000_0000_0000
    } else if fi && f == SampleFormat::S16 {
        0x3f00_0000_0000_0000
    } else if fi && f == SampleFormat::U8 {
        0x3f80_0000_0000_0000
    } else if i == SampleFormat::S32 && f == SampleFormat::S32 && odd {
        0x3ff0_0000_0000_0000
    } else if i == SampleFormat::S32 && f == SampleFormat::S16 {
        0x40f0_0000_0000_0000
    } else if i == SampleFormat::S32 && f == SampleFormat::U8 {
        0x4170_0000_0000_0000
    } else if i == SampleFormat::S16 && f == SampleFormat::U8 {
        0x4070_0000_0000_0000
    } else {
        0
    };
    let mut scale: F64 = F64 { bits: base }.times(o.dither_scale.widen());
    if f == SampleFormat::S32 && o.output_sample_bits != 0 {
        scale = scale.times(F64::from_int(shifted(o.output_sample_bits)));
    }
    o.dither_method != SwrDitherType::Off && !scale.same(F64 { bits: 0 })
}

fn asked_layout_exec(o: &SwrOptions) -> (r: ChannelLayout)
    ensures
        r == asked_layout(*o),
{
    if o.used_chlayout.check() {
        o.used_chlayout
    } else {
        ChannelLayout::default_for(o.in_chlayout.nb_channels)
    }
}

fn used_layout_exec(o: &SwrOptions) -> (r: ChannelLayout)
    ensures
        r == used_layout(*o),
{
    proof {
        reveal(used_layout);
    }
    let a: ChannelLayout = asked_layout_exec(o);
    if a.order == Order::Unspecified {
        ChannelLayout::default_for(a.nb_channels)
    } else {
        a
    }
}

fn in_layout_exec(o: &SwrOptions) -> (r: ChannelLayout)
    ensures
        r == in_layout(*o),
{
    proof {
        reveal(in_layout);
    }
    if asked_layout_exec(o).nb_channels != o.in_chlayout.nb_channels || o.in_chlayout.order
        == Order::Unspecified {
        used_layout_exec(o)
    } else {
        o.in_chlayout
    }
}

fn out_layout_exec(o: &SwrOptions) -> (r: ChannelLayout)
    ensures
        r == out_layout(*o),
{
    proof {
        reveal(out_layout);
    }
    if o.out_chlayout.order == Order::Unspecified {
        ChannelLayout::default_for(o.out_chlayout.nb_channels)
    } else {
        o.out_chlayout
    }
}

fn resamples_exec(o: &SwrOptions) -> (r: bool)
    ensures
        r == resamples(*o),
{
    o.out_sample_rate != o.in_sample_rate || o.flags.contains(SwrFlags::resample())
}

fn suited_format_exec(o: &SwrOptions, i: SampleFormat, f: SampleFormat, mix: bool) -> (r: SampleFormat)
    ensures
        r == suited_format(*o, i, f, mix),
{
    proof {
        reveal(suited_format);
    }
    let plain: bool = !mix && !resamples_exec(o);
    let ib: usize = i.bytes_per_sample();
    let fb: usize = f.bytes_per_sample();
    if i == SampleFormat::Dsd && f != SampleFormat::Dsd {
        SampleFormat::Fltp
    } else if ib <= 2 && fb <= 2 && o.out_sample_rate == o.in_sample_rate {
        SampleFormat::S16p
    } else if ib + fb <= 3 {
        SampleFormat::S16p
    } else if ib <= 2 && plain {
        SampleFormat::S16p
    } else if i.planar() == SampleFormat::S32p && f.planar() == SampleFormat::S32p && plain
        && o.engine != SwrEngine::Soxr {
        SampleFormat::S32p
    } else if ib <= 4 {
        SampleFormat::Fltp
    } else {
        SampleFormat::Dblp
    }
}

fn mixes_exec(o: &SwrOptions, custom: bool) -> (r: bool)
    ensures
        r == mixes(*o, custom),
{
    proof {
        reveal(mixes);
    }
    out_layout_exec(o) != in_layout_exec(o) || !o.rematrix_volume.same(F32 { bits: 0x3f80_0000 })
        || custom
}

/// Checks the options; tells the two formats and the one between the stages.
fn examine(o: &SwrOptions, custom: bool) -> (r: Result<(SampleFormat, SampleFormat, SampleFormat), Error>)
    ensures
        r.is_ok() == refusal(*o, custom).is_none(),
        r matches Err(e) ==> e.is_invalid(refusal(*o, custom)->0),
        r matches Ok((i, f, t)) ==> o.in_sample_fmt == Some(i) && o.out_sample_fmt == Some(f) && t
            == internal_format(*o, mixes(*o, custom)),
{
    proof {
        reveal(refusal);
        reveal(internal_format);
    }
    let i: SampleFormat = match o.in_sample_fmt {
        Some(i) => i,
        None => {
            return Err(invalid("Requested input sample format -1 is invalid"));
        },
    };
    let f: SampleFormat = match o.out_sample_fmt {
        Some(f) => f,
        None => {
            return Err(invalid("Requested output sample format -1 is invalid"));
        },
    };
    if o.in_sample_rate <= 0 {
        let mut t: String = "Requested input sample rate ".to_owned();
        push_signed(&mut t, o.in_sample_rate);
        t.append(" is invalid");
        return Err(Error::InvalidArgument(t));
    }
    if o.out_sample_rate <= 0 {
        let mut t: String = "Requested output sample rate ".to_owned();
        push_signed(&mut t, o.out_sample_rate);
        t.append(" is invalid");
        return Err(Error::InvalidArgument(t));
    }
    if f == SampleFormat::Dsd && !(i == SampleFormat::Dsd && !resamples_exec(o)) {
        return Err(invalid("Conversion to DSD is not supported"));
    }
    match check_chlayout(&o.in_chlayout, "input") {
        Ok(_) => {},
        Err(e) => {
            return Err(e);
        },
    }
    match check_chlayout(&o.out_chlayout, "output") {
        Ok(_) => {},
        Err(e) => {
            return Err(e);
        },
    }
    if o.engine == SwrEngine::Soxr {
        return Err(invalid("Requested resampling engine is unavailable"));
    }
    let inside: SampleFormat = match o.internal_sample_fmt {
        Some(t) => t,
        None => suited_format_exec(o, i, f, mixes_exec(o, custom)),
    };
    match inside {
        SampleFormat::S16p
        | SampleFormat::S32p
        | SampleFormat::S64p
        | SampleFormat::Fltp
        | SampleFormat::Dblp => {},
        _ => {
            let mut t: String = "Requested sample format ".to_owned();
            t.append(inside.name());
            t.append(" is not supported internally, s16p/s32p/s64p/fltp/dblp are supported");
            return Err(Error::InvalidArgument(t));
        },
    }
    Ok((i, f, inside))
}

fn written_out_exec(o: &SwrOptions) -> (r: SwrOptions)
    ensures
        r == written_out(*o),
{
    proof {
        reveal(written_out);
    }
    let mut r: SwrOptions = *o;
    let idle: bool = at_least_exec(o.min_compensation, F32 { bits: F32_HALF_MAX });
    if o.first_pts != NOPTS && o.async_.same(F32 { bits: 0 }) && idle {
        r.async_ = F32 { bits: 0x3f80_0000 };
    }
    if !r.async_.same(F32 { bits: 0 }) {
        if idle {
            r.min_compensation = F32 { bits: 0x3a83_126f };
        }
        if (F32 { bits: 0x3f80_0347 }).less(r.async_) {
            r.max_soft_compensation = r.async_.widen().over(
                F64::from_int(o.in_sample_rate as i64),
            ).narrow();
        }
    }
    r
}

// --- initialization ------------------------------------------------------------------

/// The mixing options as double precision numbers.
pub open spec fn mixing_options(o: SwrOptions) -> RematrixOptions {
    RematrixOptions {
        clev: o.clev.s_widen(),
        slev: o.slev.s_widen(),
        lfe_mix_level: o.lfe_mix_level.s_widen(),
        rematrix_volume: o.rematrix_volume.s_widen(),
        rematrix_maxval: o.rematrix_maxval.s_widen(),
        matrix_encoding: o.matrix_encoding,
    }
}

/// The filter that the options call for.
pub open spec fn needed_shape(o: SwrOptions) -> FilterShape {
    resample::shape_for(
        o.out_sample_rate as int,
        o.in_sample_rate as int,
        o.filter_size as int,
        o.phase_shift as int,
        o.cutoff,
        o.filter_type,
        o.kaiser_beta,
        o.exact_rational,
    )
}

/// The layouts do not tell how to mix.
pub open spec fn uninformed(o: SwrOptions, custom: bool) -> bool {
    (out_layout(o).order == Order::Unspecified || in_layout(o).order == Order::Unspecified)
        && used_layout(o).nb_channels != o.out_chlayout.nb_channels && !custom
}

pub open spec fn unconvertible(a: SampleFormat, b: SampleFormat) -> Seq<char> {
    "Cannot convert "@ + a.spec_name() + " sample format to "@ + b.spec_name() + " sample format"@
}

/// The resampler that the options call for can be made.
#[verifier::opaque]
pub open spec fn resampler_known(o: SwrOptions, custom: bool, tables: Seq<FilterTable>) -> bool {
    &&& resample::plannable(
        o.out_sample_rate as int,
        o.in_sample_rate as int,
        o.filter_size as int,
        o.phase_shift as int,
        o.cutoff,
        internal_format(o, mixes(o, custom)),
        o.exact_rational,
    )
    &&& has_table(tables, needed_shape(o))
}

/// The mixer that the options call for, if any, can be made.
#[verifier::opaque]
pub open spec fn mixer_known(o: SwrOptions, custom: bool) -> bool {
    mixes(o, custom) ==> (custom || rematrix::mixable(in_layout(o), out_layout(o)))
        && rematrix::mixing_format(internal_format(o, mixes(o, custom)))
}

/// A resampler as the options call for it, with one of the installed filters.
#[verifier::opaque]
pub open spec fn resampler_for(
    r: ResampleContext,
    o: SwrOptions,
    f: SampleFormat,
    tables: Seq<FilterTable>,
) -> bool {
    &&& r.wf()
    &&& r.format == f
    &&& r.running()
    &&& exists|k: int|
        {
            &&& 0 <= k < tables.len()
            &&& #[trigger] tables[k].describes(needed_shape(o))
            &&& r.made_for(
                o.out_sample_rate as int,
                o.in_sample_rate as int,
                o.filter_size as int,
                o.phase_shift as int,
                if o.linear_interp {
                    1
                } else {
                    0
                },
                o.cutoff,
                f,
                o.filter_type,
                o.kaiser_beta,
                o.exact_rational,
                tables[k].taps@,
            )
        }
}

impl SwrContext {
    /// A user's matrix is there.
    pub open spec fn has_custom(self) -> bool {
        self.custom is Some
    }

    pub open spec fn will_mix(self) -> bool {
        mixes(self.options, self.has_custom())
    }

    pub open spec fn will_be(self) -> SampleFormat {
        internal_format(self.options, self.will_mix())
    }

    /// One conversion does everything.
    pub open spec fn converts_only(self) -> bool {
        let o = self.options;
        &&& !resamples(o)
        &&& !self.will_mix()
        &&& self.channel_map is None
        &&& audioconvert::convertible(
            o.in_sample_fmt->0.spec_packed(),
            o.out_sample_fmt->0.spec_packed(),
        )
    }

    /// Initialization succeeds.
    pub open spec fn startable(self) -> bool {
        let o = self.options;
        let f = self.will_be();
        &&& refusal(o, self.has_custom()) is None
        &&& resamples(o) ==> resampler_known(o, self.has_custom(), self.tables@)
        &&& !uninformed(o, self.has_custom())
        &&& !dithers(o)
        &&& self.converts_only() || {
            &&& audioconvert::convertible(o.in_sample_fmt->0.spec_packed(), f.spec_packed())
            &&& audioconvert::convertible(f.spec_packed(), o.out_sample_fmt->0.spec_packed())
            &&& mixer_known(o, self.has_custom())
        }
    }

    /// Why initialization fails.
    pub open spec fn start_error(self, e: Error) -> bool {
        let o = self.options;
        let f = self.will_be();
        let fi = o.in_sample_fmt->0;
        let fo = o.out_sample_fmt->0;
        match refusal(o, self.has_custom()) {
            Some(t) => e.is_invalid(t),
            None => if resamples(o) && !resampler_known(o, self.has_custom(), self.tables@) {
                e.is_invalid("Failed to initialize resampler"@)
            } else if uninformed(o, self.has_custom()) {
                e.is_invalid(
                    "Rematrix is needed between "@ + in_layout(o).description() + " and "@
                        + out_layout(o).description()
                        + " but there is not enough information to do it"@,
                )
            } else if dithers(o) {
                e.is_unsupported(
                    "dither method "@ + text::decimal(o.dither_method.spec_number())
                        + " requires dither.c (not ported)"@,
                )
            } else if !audioconvert::convertible(fi.spec_packed(), f.spec_packed()) {
                e.is_invalid(unconvertible(fi, f))
            } else if !audioconvert::convertible(f.spec_packed(), fo.spec_packed()) {
                e.is_invalid(unconvertible(f, fo))
            } else if !self.has_custom() && !rematrix::mixable(in_layout(o), out_layout(o)) {
                e.is_invalid(rematrix::mix_refusal(in_layout(o), out_layout(o)))
            } else {
                e.is_unsupported("rematrixing with internal sample format "@ + f.spec_name()
                        + " (C: av_assert0(0), rematrix.c:766)"@,
                )
            },
        }
    }

    /// The timestamps after initialization.
    pub open spec fn started_pts(self) -> (i64, i64) {
        let o = self.options;
        if o.first_pts == NOPTS {
            (NOPTS, self.outpts)
        } else if self.firstpts == NOPTS {
            (scaled_pts(o) as i64, scaled_pts(o) as i64)
        } else {
            (self.firstpts, self.outpts)
        }
    }

    /// The context that initialization makes of `self`.
    pub open spec fn started(self, n: SwrContext) -> bool {
        let o = self.options;
        let f = self.will_be();
        let fi = o.in_sample_fmt->0;
        let fo = o.out_sample_fmt->0;
        &&& n.keeps(self)
        &&& n.live()
        &&& n.options == written_out(o)
        &&& n.int_sample_fmt == f
        &&& n.used_ch_layout == used_layout(o)
        &&& n.in_ch_layout == in_layout(o)
        &&& n.out_ch_layout == out_layout(o)
        &&& n.dither_method == SwrDitherType::Off
        &&& n.rematrix_needed == self.will_mix()
        &&& n.resample_first == resampling_first(
            o.out_chlayout.nb_channels as int,
            used_layout(o).nb_channels as int,
            o.out_sample_rate as int,
            o.in_sample_rate as int,
        )
        &&& blank(n.in_, o.in_chlayout.nb_channels as int, fi)
        &&& blank(n.out, o.out_chlayout.nb_channels as int, fo)
        &&& n.in_buffer.count == 0
        &&& n.in_buffer_index == 0
        &&& n.in_buffer_count == 0
        &&& !n.resample_in_constraint
        &&& !n.flushed
        &&& (n.firstpts, n.outpts) == self.started_pts()
        &&& n.resample.is_some() == resamples(o)
        &&& n.resample matches Some(r) ==> resampler_for(r, o, f, self.tables@)
        &&& n.full_convert.is_some() == self.converts_only()
        &&& n.in_convert.is_some() == !self.converts_only()
        &&& n.rematrix_ctx.is_some() == self.will_mix()
        &&& n.rematrix_ctx matches Some(m) ==> {
            &&& m.matrix@ == rematrix::context_matrix(
                in_layout(o),
                out_layout(o),
                fo,
                f,
                mixing_options(o),
                match self.custom {
                    Some(c) => Some(&c),
                    None => None,
                },
            )
            &&& m.mix_any == rematrix::fast_path(m.matrix@, in_layout(o), out_layout(o))
        }
    }

    /// The timestamps and the resampler after a failure. A failure of the resampler
    /// to start leaves the one that was there.
    #[verifier::opaque]
    pub open spec fn stopped(self, n: SwrContext) -> bool {
        let o = self.options;
        let known = resampler_known(o, self.has_custom(), self.tables@);
        if refusal(o, self.has_custom()) is Some {
            &&& n.firstpts == self.firstpts
            &&& n.outpts == self.outpts
            &&& n.resample == self.resample
        } else {
            &&& (n.firstpts, n.outpts) == self.started_pts()
            &&& if resamples(o) && !known {
                n.resample == self.resample
            } else {
                &&& n.resample.is_some() == resamples(o)
                &&& n.resample matches Some(r) ==> resampler_for(
                    r,
                    o,
                    self.will_be(),
                    self.tables@,
                )
            }
        }
    }

    /// The context `n` is what a failure to start leaves.
    pub open spec fn failed(self, n: SwrContext) -> bool {
        &&& !n.spec_is_initialized()
        &&& n.keeps(self)
        &&& n.options == if refusal(self.options, self.has_custom()) is Some {
            self.options
        } else {
            written_out(self.options)
        }
        &&& self.stopped(n)
    }

    /// What initialization asks of its caller, unless it refuses the options
    /// anyway: a number of phases within the range of its option, if it is to
    /// resample, and no more used channels than a matrix of the user has.
    pub open spec fn well_posed(self) -> bool {
        let o = self.options;
        refusal(o, self.has_custom()) is None ==> {
            &&& resamples(o) ==> 0 <= o.phase_shift <= 30
            &&& self.has_custom() ==> used_layout(o).nb_channels <= SWR_CH_MAX
        }
    }

    /// The first installed filter of a shape.
    pub(crate) fn find_table(&self, shape: FilterShape) -> (r: Option<usize>)
        requires
            1 <= shape.tap_count,
            1 <= shape.phase_count <= 0x4000_0000,
        ensures
            r.is_some() == has_table(self.tables@, shape),
            r matches Some(k) ==> k < self.tables@.len() && self.tables@[k as int].describes(shape),
    {
        let n: usize = self.tables.len();
        let mut k: usize = 0;
        while k < n
            invariant
                n == self.tables@.len(),
                k <= n,
                1 <= shape.tap_count,
                1 <= shape.phase_count <= 0x4000_0000,
                forall|j: int| 0 <= j < k ==> !(#[trigger] self.tables@[j].describes(shape)),
            decreases n - k,
        {
            if resample::table_describes(Some(&self.tables[k]), shape) {
                return Some(k);
            }
            k = k + 1;
        }
        None
    }

    /// Tells whether the options are such as [`SwrContext::init`] can work with or
    /// refuse.
    pub fn is_well_posed(&self) -> (r: bool)
        ensures
            r == self.well_posed(),
    {
        match examine(&self.options, self.custom.is_some()) {
            Err(_) => true,
            Ok(_) => {
                (!resamples_exec(&self.options) || 0 <= self.options.phase_shift
                    && self.options.phase_shift <= 30) && (self.custom.is_none()
                    || used_layout_exec(&self.options).nb_channels <= SWR_CH_MAX)
            },
        }
    }

    /// The filter that initialization will ask for, if it is to resample.
    pub fn wanted_filter(&self) -> (r: Option<FilterShape>)
        requires
            self.well_posed(),
        ensures
            ({
                let o = self.options;
                &&& r.is_some() == (refusal(o, self.has_custom()) is None && resamples(o)
                    && resample::plannable(
                    o.out_sample_rate as int,
                    o.in_sample_rate as int,
                    o.filter_size as int,
                    o.phase_shift as int,
                    o.cutoff,
                    self.will_be(),
                    o.exact_rational,
                ))
                &&& r matches Some(s) ==> s == needed_shape(o)
            }),
    {
        let o: SwrOptions = self.options;
        match examine(&o, self.custom.is_some()) {
            Err(_) => None,
            Ok((_, _, inside)) => {
                proof {
                    lemma_layout_counts(o, self.has_custom());
                }
                if !resamples_exec(&o) {
                    return None;
                }
                match plan_resampler(
                    o.out_sample_rate,
                    o.in_sample_rate,
                    o.filter_size,
                    o.phase_shift,
                    o.cutoff,
                    inside,
                    o.filter_type,
                    o.kaiser_beta,
                    if o.exact_rational {
                        1
                    } else {
                        0
                    },
                ) {
                    Ok(p) => Some(p.shape),
                    Err(_) => None,
                }
            },
        }
    }

    /// The resampler for the options.
    fn make_resampler(&self) -> (r: Option<ResampleContext>)
        requires
            self.well_posed(),
            refusal(self.options, self.has_custom()) is None,
            resamples(self.options),
        ensures
            r.is_some() == resampler_known(self.options, self.has_custom(), self.tables@),
            r matches Some(c) ==> resampler_for(c, self.options, self.will_be(), self.tables@),
    {
        proof {
            reveal(resampler_known);
        }
        let o: SwrOptions = self.options;
        let inside: SampleFormat = match examine(&o, self.custom.is_some()) {
            Err(_) => {
                return None;
            },
            Ok((_, _, f)) => f,
        };
        proof {
            lemma_layout_counts(o, self.has_custom());
        }
        let exact: i32 = if o.exact_rational {
            1
        } else {
            0
        };
        match plan_resampler(
            o.out_sample_rate,
            o.in_sample_rate,
            o.filter_size,
            o.phase_shift,
            o.cutoff,
            inside,
            o.filter_type,
            o.kaiser_beta,
            exact,
        ) {
            Err(_) => None,
            Ok(p) => match self.find_table(p.shape) {
                None => None,
                Some(k) => {
                    let linear: i32 = if o.linear_interp {
                        1
                    } else {
                        0
                    };
                    match ResampleContext::new(
                        o.out_sample_rate,
                        o.in_sample_rate,
                        o.filter_size,
                        o.phase_shift,
                        linear,
                        o.cutoff,
                        inside,
                        o.filter_type,
                        o.kaiser_beta,
                        o.precision,
                        if o.cheby {
                            1
                        } else {
                            0
                        },
                        exact,
                        Some(&self.tables[k]),
                    ) {
                        Ok(c) => {
                            assert(self.tables@[k as int].describes(needed_shape(o)));
                            proof {
                                reveal(resampler_for);
                            }
                            Some(c)
                        },
                        Err(_) => None,
                    }
                },
            },
        }
    }
}

proof fn lemma_layout_counts(o: SwrOptions, custom: bool)
    requires
        refusal(o, custom) is None,
    ensures
        in_layout(o).nb_channels == used_layout(o).nb_channels,
        out_layout(o).nb_channels == o.out_chlayout.nb_channels,
        1 <= used_layout(o).nb_channels,
        !custom && !uninformed(o, custom) ==> used_layout(o).nb_channels <= SWR_CH_MAX,
        1 <= o.in_chlayout.nb_channels <= SWR_CH_MAX,
        1 <= o.out_chlayout.nb_channels <= SWR_CH_MAX,
        o.in_sample_rate > 0,
        o.out_sample_rate > 0,
        possible_inside(internal_format(o, mixes(o, custom))),
        !mixes(o, custom) ==> used_layout(o).nb_channels == o.out_chlayout.nb_channels,
{
    reveal(refusal);
    reveal(used_layout);
    reveal(in_layout);
    reveal(out_layout);
    reveal(mixes);
    let used = o.used_chlayout;
    if used.valid() && used.nb_channels > SWR_CH_MAX {
        channel_layout::lemma_count_bound(used.mask, 64);
        assert(used.order == Order::Unspecified);
        assert(used_layout(o).order == Order::Unspecified);
        assert(in_layout(o) == used_layout(o));
    }
}

fn cannot_convert(a: SampleFormat, b: SampleFormat) -> (e: Error)
    ensures
        e.is_invalid(unconvertible(a, b)),
{
    let mut t: String = "Cannot convert ".to_owned();
    t.append(a.name());
    t.append(" sample format to ");
    t.append(b.name());
    t.append(" sample format");
    Error::InvalidArgument(t)
}

impl SwrContext {
    fn make_in_stage(&self, fi: SampleFormat, inside: SampleFormat) -> (r: Option<AudioConvert>)
        requires
            shaped(self.in_, self.in_.ch_count as int, fi),
            inside.spec_is_planar(),
        ensures
            r.is_some() == audioconvert::convertible(fi.spec_packed(), inside.spec_packed()),
            r matches Some(c) ==> in_stage(
                c,
                self.in_,
                inside,
                self.used_channels(),
                map_view(self.channel_map),
            ),
    {
        proof {
            reveal(in_stage);
        }
        let map: Option<&[i32]> = match &self.channel_map {
            Some(m) => Some(m.as_slice()),
            None => None,
        };
        match AudioConvert::new(inside, fi, self.used_ch_layout.nb_channels, map) {
            Ok(c) => Some(c),
            Err(_) => None,
        }
    }

    fn make_out_stage(&self, fo: SampleFormat, inside: SampleFormat) -> (r: Option<AudioConvert>)
        requires
            shaped(self.out, self.out.ch_count as int, fo),
            inside.spec_is_planar(),
        ensures
            r.is_some() == audioconvert::convertible(inside.spec_packed(), fo.spec_packed()),
            r matches Some(c) ==> out_stage(c, self.out, inside),
    {
        proof {
            reveal(out_stage);
        }
        match AudioConvert::new(fo, inside, self.out.ch_count, None) {
            Ok(c) => Some(c),
            Err(_) => None,
        }
    }

    fn make_mix_stage(&self, fo: SampleFormat, inside: SampleFormat) -> (r: Result<
        RematrixContext,
        Error,
    >)
        requires
            self.custom matches Some(c) ==> c.wf(),
            self.in_ch_layout.nb_channels == self.used_ch_layout.nb_channels,
            self.out_ch_layout.nb_channels == self.out.ch_count,
            self.used_channels() <= SWR_CH_MAX,
            self.out.ch_count <= SWR_CH_MAX,
        ensures
            r.is_ok() == ((self.has_custom() || rematrix::mixable(
                self.in_ch_layout,
                self.out_ch_layout,
            )) && rematrix::mixing_format(inside)),
            r matches Err(e) ==> if !self.has_custom() && !rematrix::mixable(
                self.in_ch_layout,
                self.out_ch_layout,
            ) {
                e.is_invalid(rematrix::mix_refusal(self.in_ch_layout, self.out_ch_layout))
            } else {
                e.is_unsupported("rematrixing with internal sample format "@ + inside.spec_name()
                        + " (C: av_assert0(0), rematrix.c:766)"@,
                )
            },
            r matches Ok(m) ==> {
                &&& mix_stage(m, inside, self.used_channels(), self.out.ch_count as int)
                &&& m.matrix@ == rematrix::context_matrix(
                    self.in_ch_layout,
                    self.out_ch_layout,
                    fo,
                    inside,
                    mixing_options(self.options),
                    match self.custom {
                        Some(c) => Some(&c),
                        None => None,
                    },
                )
                &&& m.mix_any == rematrix::fast_path(
                    m.matrix@,
                    self.in_ch_layout,
                    self.out_ch_layout,
                )
            },
    {
        proof {
            reveal(mix_stage);
        }
        let opts = RematrixOptions {
            clev: self.options.clev.widen(),
            slev: self.options.slev.widen(),
            lfe_mix_level: self.options.lfe_mix_level.widen(),
            rematrix_volume: self.options.rematrix_volume.widen(),
            rematrix_maxval: self.options.rematrix_maxval.widen(),
            matrix_encoding: self.options.matrix_encoding,
        };
        let custom: Option<&CustomRematrix> = match &self.custom {
            Some(c) => Some(c),
            None => None,
        };
        RematrixContext::init(
            &self.in_ch_layout,
            self.used_ch_layout.nb_channels,
            &self.out_ch_layout,
            self.out.ch_count,
            fo,
            inside,
            &opts,
            custom,
        )
    }

    /// Puts the context into the state for the stages; the resampler is there.
    fn start_stages(&mut self, fi: SampleFormat, fo: SampleFormat, inside: SampleFormat) -> (r: Result<
        (),
        Error,
    >)
        requires
            old(self).in_convert is None,
            old(self).rematrix_ctx is None,
            old(self).well_posed(),
            old(self).options.in_sample_fmt == Some(fi),
            old(self).options.out_sample_fmt == Some(fo),
            old(self).custom matches Some(c) ==> c.wf(),
            refusal(old(self).options, old(self).has_custom()) is None,
            !uninformed(old(self).options, old(self).has_custom()),
            inside == old(self).will_be(),
            old(self).rematrix_needed == old(self).will_mix(),
            old(self).used_ch_layout == used_layout(old(self).options),
            old(self).in_ch_layout == in_layout(old(self).options),
            old(self).out_ch_layout == out_layout(old(self).options),
            blank(old(self).in_, old(self).options.in_chlayout.nb_channels as int, fi),
            blank(old(self).out, old(self).options.out_chlayout.nb_channels as int, fo),
        ensures
            r.is_ok() == ({
                &&& audioconvert::convertible(fi.spec_packed(), inside.spec_packed())
                &&& audioconvert::convertible(inside.spec_packed(), fo.spec_packed())
                &&& mixer_known(old(self).options, old(self).has_custom())
            }),
            r matches Err(e) ==> *final(self) == *old(self) && if !audioconvert::convertible(
                fi.spec_packed(),
                inside.spec_packed(),
            ) {
                e.is_invalid(unconvertible(fi, inside))
            } else if !audioconvert::convertible(inside.spec_packed(), fo.spec_packed()) {
                e.is_invalid(unconvertible(inside, fo))
            } else if !old(self).has_custom() && !rematrix::mixable(
                old(self).in_ch_layout,
                old(self).out_ch_layout,
            ) {
                e.is_invalid(
                    rematrix::mix_refusal(old(self).in_ch_layout, old(self).out_ch_layout),
                )
            } else {
                e.is_unsupported("rematrixing with internal sample format "@ + inside.spec_name()
                        + " (C: av_assert0(0), rematrix.c:766)"@,
                )
            },
            r is Ok ==> {
                let n = *final(self);
                &&& n == (SwrContext {
                    postin: n.postin,
                    midbuf: n.midbuf,
                    preout: n.preout,
                    in_convert: n.in_convert,
                    out_convert: n.out_convert,
                    rematrix_ctx: n.rematrix_ctx,
                    ..*old(self)
                })
                &&& n.int_sample_fmt == inside && (n.resample matches Some(c) ==> rate_stage(
                    c,
                    inside,
                )) ==> n.staged()
                &&& n.in_convert is Some
                &&& n.rematrix_ctx.is_some() == n.rematrix_needed
                &&& n.rematrix_ctx matches Some(m) ==> {
                    &&& m.matrix@ == rematrix::context_matrix(
                        n.in_ch_layout,
                        n.out_ch_layout,
                        fo,
                        inside,
                        mixing_options(n.options),
                        match n.custom {
                            Some(c) => Some(&c),
                            None => None,
                        },
                    )
                    &&& m.mix_any == rematrix::fast_path(m.matrix@, n.in_ch_layout, n.out_ch_layout)
                }
            },
    {
        proof {
            lemma_layout_counts(self.options, self.has_custom());
            reveal(mixer_known);
        }
        let used: usize = self.used_ch_layout.nb_channels;
        let nin: usize = self.in_.ch_count;
        let nout: usize = self.out.ch_count;
        let in_convert: AudioConvert = match self.make_in_stage(fi, inside) {
            Some(c) => c,
            None => {
                return Err(cannot_convert(fi, inside));
            },
        };
        let out_convert: AudioConvert = match self.make_out_stage(fo, inside) {
            Some(c) => c,
            None => {
                return Err(cannot_convert(inside, fo));
            },
        };
        let mut mixer: Option<RematrixContext> = None;
        if self.rematrix_needed {
            match self.make_mix_stage(fo, inside) {
                Ok(m) => {
                    mixer = Some(m);
                },
                Err(e) => {
                    return Err(e);
                },
            }
        }
        let first: usize = if self.channel_map.is_some() {
            used
        } else {
            nin
        };
        self.postin = make_blank(first, inside);
        self.midbuf = make_blank(
            if self.resample_first {
                first
            } else {
                nout
            },
            inside,
        );
        self.preout = make_blank(nout, inside);
        self.in_convert = Some(in_convert);
        self.out_convert = Some(out_convert);
        self.rematrix_ctx = mixer;
        Ok(())
    }

    /// Writes down the layouts and shapes.
    fn lay_out(&mut self, o: &SwrOptions, fi: SampleFormat, fo: SampleFormat, inside: SampleFormat)
        requires
            refusal(*o, old(self).has_custom()) is None,
        ensures
            ({
                let n = *final(self);
                let mix = mixes(*o, old(self).has_custom());
                &&& n == (SwrContext {
                    in_: n.in_,
                    out: n.out,
                    int_sample_fmt: inside,
                    used_ch_layout: used_layout(*o),
                    in_ch_layout: in_layout(*o),
                    out_ch_layout: out_layout(*o),
                    dither_method: SwrDitherType::Off,
                    rematrix_needed: mix,
                    resample_first: resampling_first(
                        o.out_chlayout.nb_channels as int,
                        used_layout(*o).nb_channels as int,
                        o.out_sample_rate as int,
                        o.in_sample_rate as int,
                    ),
                    firstpts: n.firstpts,
                    outpts: n.outpts,
                    ..*old(self)
                })
                &&& blank(n.in_, o.in_chlayout.nb_channels as int, fi)
                &&& blank(n.out, o.out_chlayout.nb_channels as int, fo)
                &&& (n.firstpts, n.outpts) == (SwrContext { options: *o, ..*old(self) }).started_pts()
            }),
    {
        proof {
            lemma_layout_counts(*o, self.has_custom());
            reveal(resampling_first);
        }
        let nout: usize = o.out_chlayout.nb_channels;
        let used: ChannelLayout = used_layout_exec(o);
        let left: i64 = (nout / used.nb_channels) as i64 - 1;
        self.in_ = make_blank(o.in_chlayout.nb_channels, fi);
        self.out = make_blank(nout, fo);
        self.int_sample_fmt = inside;
        self.used_ch_layout = used;
        self.in_ch_layout = in_layout_exec(o);
        self.out_ch_layout = out_layout_exec(o);
        self.dither_method = SwrDitherType::Off;
        self.rematrix_needed = mixes_exec(o, self.custom.is_some());
        self.resample_first = F64::from_int(left).less(
            F32::from_int(o.out_sample_rate as i64).over(
                F32::from_int(o.in_sample_rate as i64),
            ).widen().minus(F64 { bits: resample::ONE }),
        );
        if o.first_pts == NOPTS {
            self.firstpts = NOPTS;
        } else if self.firstpts == NOPTS {
            proof {
                crate::arith::lemma_mul_bound(
                    o.first_pts as int,
                    o.out_sample_rate as int,
                    0x8000_0000_0000_0000,
                    0x7fff_ffff,
                );
            }
            self.firstpts = crate::arith::wrap_i128(
                o.first_pts as i128 * o.out_sample_rate as i128,
                64,
            ) as i64;
            self.outpts = self.firstpts;
        }
    }

    /// Makes the empty buffers.
    fn open_buffers(&mut self)
        requires
            shaped(old(self).in_, old(self).in_.ch_count as int, old(self).in_.fmt),
            shaped(old(self).out, old(self).out.ch_count as int, old(self).out.fmt),
        ensures
            ({
                let n = *final(self);
                &&& n == (SwrContext {
                    silence: n.silence,
                    drop_temp: n.drop_temp,
                    in_buffer: n.in_buffer,
                    ..*old(self)
                })
                &&& blank(n.silence, n.in_.ch_count as int, n.in_.fmt)
                &&& blank(n.drop_temp, n.out.ch_count as int, n.out.fmt)
                &&& n.in_buffer.wf()
                &&& blank(
                    n.in_buffer,
                    n.buffered_channels(),
                    if n.resample is None {
                        n.in_.fmt
                    } else {
                        n.int_sample_fmt
                    },
                )
            }),
    {
        let nin: usize = self.in_.ch_count;
        let nout: usize = self.out.ch_count;
        self.silence = make_blank(nin, self.in_.fmt);
        self.drop_temp = make_blank(nout, self.out.fmt);
        self.in_buffer = if self.resample.is_none() {
            make_blank(nin, self.in_.fmt)
        } else {
            make_blank(
                if !self.resample_first {
                    nout
                } else if self.channel_map.is_some() {
                    self.used_ch_layout.nb_channels
                } else {
                    nin
                },
                self.int_sample_fmt,
            )
        };
    }

    /// Tries to do with one conversion.
    fn start_conversion(&mut self, fi: SampleFormat, fo: SampleFormat) -> (r: bool)
        requires
            shaped(old(self).in_, old(self).in_.ch_count as int, fi),
            shaped(old(self).out, old(self).out.ch_count as int, fo),
        ensures
            r == (old(self).resample is None && !old(self).rematrix_needed && old(
                self,
            ).channel_map is None && audioconvert::convertible(fi.spec_packed(), fo.spec_packed())),
            !r ==> *final(self) == *old(self),
            r ==> {
                let n = *final(self);
                &&& n == (SwrContext { full_convert: n.full_convert, ..*old(self) })
                &&& n.full_convert matches Some(c) && only_stage(c, n.in_, n.out)
            },
    {
        if self.resample.is_some() || self.rematrix_needed || self.channel_map.is_some() {
            return false;
        }
        match AudioConvert::new(fo, fi, self.in_.ch_count, None) {
            Ok(c) => {
                proof {
                    reveal(only_stage);
                }
                self.full_convert = Some(c);
                true
            },
            Err(_) => false,
        }
    }

    /// Makes the context ready for samples, as its options tell.
    #[verifier::rlimit(90)]
    pub fn init(&mut self) -> (r: Result<(), Error>)
        requires
            old(self).wf(),
            old(self).well_posed(),
        ensures
            r.is_ok() == old(self).startable(),
            final(self).wf(),
            r matches Err(e) ==> old(self).start_error(e) && old(self).failed(*final(self)),
            r is Ok ==> old(self).started(*final(self)),
    {
        self.clear_context();
        let o: SwrOptions = self.options;
        let has_custom: bool = self.custom.is_some();
        let (fi, fo, inside) = match examine(&o, has_custom) {
            Ok(t) => t,
            Err(e) => {
                proof {
                    reveal(SwrContext::stopped);
                }
                return Err(e);
            },
        };
        proof {
            lemma_layout_counts(o, has_custom);
        }
        let mut resampler: Option<ResampleContext> = None;
        let resampling: bool = resamples_exec(&o);
        if resampling {
            resampler = self.make_resampler();
        }
        let failed: bool = resampling && resampler.is_none();
        if !failed {
            self.resample = resampler;
        }
        let objection: Option<Error> = if failed {
            Some(invalid("Failed to initialize resampler"))
        } else {
            objections(&o, has_custom, fi, fo)
        };
        match objection {
            Some(e) => {
                self.lay_out(&o, fi, fo, inside);
                self.options = written_out_exec(&o);
                self.close();
                proof {
                    reveal(SwrContext::stopped);
                }
                return Err(e);
            },
            None => {},
        }
        self.lay_out(&o, fi, fo, inside);
        if !self.start_conversion(fi, fo) {
            match self.start_stages(fi, fo, inside) {
                Ok(_) => {},
                Err(e) => {
                    self.options = written_out_exec(&o);
                    self.close();
                    proof {
                        reveal(SwrContext::stopped);
                    }
                    return Err(e);
                },
            }
        }
        self.options = written_out_exec(&o);
        self.open_buffers();
        proof {
            if resampling {
                lemma_rate_stage(self.resample->0, o, inside, self.tables@);
            }
        }
        Ok(())
    }
}

proof fn lemma_rate_stage(r: ResampleContext, o: SwrOptions, f: SampleFormat, tables: Seq<FilterTable>)
    requires
        resampler_for(r, o, f, tables),
    ensures
        rate_stage(r, f),
{
    reveal(resampler_for);
    reveal(rate_stage);
}

/// What speaks against the options once the resampler is there.
fn objections(o: &SwrOptions, custom: bool, fi: SampleFormat, fo: SampleFormat) -> (r: Option<Error>)
    requires
        o.in_sample_fmt == Some(fi),
        o.out_sample_fmt == Some(fo),
    ensures
        r.is_some() == (uninformed(*o, custom) || dithers(*o)),
        r matches Some(e) ==> if uninformed(*o, custom) {
            e.is_invalid(
                "Rematrix is needed between "@ + in_layout(*o).description() + " and "@
                    + out_layout(*o).description()
                    + " but there is not enough information to do it"@,
            )
        } else {
            e.is_unsupported(
                "dither method "@ + text::decimal(o.dither_method.spec_number())
                    + " requires dither.c (not ported)"@,
            )
        },
{
    let used: ChannelLayout = used_layout_exec(o);
    let inl: ChannelLayout = in_layout_exec(o);
    let outl: ChannelLayout = out_layout_exec(o);
    if (outl.order == Order::Unspecified || inl.order == Order::Unspecified) && used.nb_channels
        != o.out_chlayout.nb_channels && !custom {
        let mut t: String = "Rematrix is needed between ".to_owned();
        let l1: String = inl.describe();
        let l2: String = outl.describe();
        t.append(l1.as_str());
        t.append(" and ");
        t.append(l2.as_str());
        t.append(" but there is not enough information to do it");
        return Some(Error::InvalidArgument(t));
    }
    if dithers_exec(o, fi, fo) {
        let mut t: String = "dither method ".to_owned();
        push_decimal(&mut t, o.dither_method.number());
        t.append(" requires dither.c (not ported)");
        return Some(Error::Unsupported(t));
    }
    None
}

} // verus!
