//! What a resampling context can be asked to do.
use crate::channel_layout::ChannelLayout;
use crate::float::{F32, F64};
use crate::mixtable::MatrixEncoding;
use crate::resample::FilterType;
use crate::samplefmt::SampleFormat;
use vstd::prelude::*;

verus! {

/// "No timestamp".
pub const NOPTS: i64 = i64::MIN;

/// Most samples that are dropped at a time.
pub const MAX_DROP_STEP: i32 = 16384;

/// Most samples of silence that are injected at a time.
pub const MAX_SILENCE_STEP: i32 = 16384;

/// Largest single precision number.
pub const F32_MAX: u32 = 0x7f7f_ffff;

/// Half of [`F32_MAX`].
pub const F32_HALF_MAX: u32 = 0x7eff_ffff;

/// Set of flags.
#[derive(Clone, Copy, Debug, PartialEq, Eq, Structural)]
pub struct SwrFlags(pub u32);

impl SwrFlags {
    pub open spec fn holds(self, other: SwrFlags) -> bool {
        self.0 & other.0 == other.0
    }

    /// No flag.
    pub fn empty() -> (r: SwrFlags)
        ensures
            r == SwrFlags(0),
    {
        SwrFlags(0)
    }

    /// Resample even when the rates are equal.
    pub fn resample() -> (r: SwrFlags)
        ensures
            r == SwrFlags(1),
    {
        SwrFlags(1)
    }

    /// Whether all flags of `other` are set.
    pub fn contains(self, other: SwrFlags) -> (r: bool)
        ensures
            r == self.holds(other),
    {
        self.0 & other.0 == other.0
    }

    /// The flags of both sets.
    pub fn union(self, other: SwrFlags) -> (r: SwrFlags)
        ensures
            r == SwrFlags(self.0 | other.0),
            r.holds(self),
            r.holds(other),
    {
        let a: u32 = self.0;
        let b: u32 = other.0;
        assert((a | b) & a == a && (a | b) & b == b) by (bit_vector);
        SwrFlags(a | b)
    }
}

impl Default for SwrFlags {
    fn default() -> (r: SwrFlags)
        ensures
            r == SwrFlags(0),
    {
        SwrFlags(0)
    }
}

/// Resampling engines.
#[derive(Clone, Copy, Debug, PartialEq, Eq, Structural)]
pub enum SwrEngine {
    /// The built-in resampler.
    Swr,
    /// An external one, which is not available.
    Soxr,
}

impl Default for SwrEngine {
    fn default() -> (r: SwrEngine)
        ensures
            r == SwrEngine::Swr,
    {
        SwrEngine::Swr
    }
}

/// Dither methods.
#[derive(Clone, Copy, Debug, PartialEq, Eq, Structural)]
pub enum SwrDitherType {
    /// No dither.
    Off,
    Rectangular,
    Triangular,
    /// Triangular with a high-pass.
    TriangularHighpass,
}

impl Default for SwrDitherType {
    fn default() -> (r: SwrDitherType)
        ensures
            r == SwrDitherType::Off,
    {
        SwrDitherType::Off
    }
}

impl SwrDitherType {
    pub open spec fn spec_number(self) -> nat {
        match self {
            SwrDitherType::Off => 0,
            SwrDitherType::Rectangular => 1,
            SwrDitherType::Triangular => 2,
            SwrDitherType::TriangularHighpass => 3,
        }
    }

    /// The number that messages name the method by.
    pub fn number(self) -> (r: u64)
        ensures
            r == self.spec_number(),
    {
        match self {
            SwrDitherType::Off => 0,
            SwrDitherType::Rectangular => 1,
            SwrDitherType::Triangular => 2,
            SwrDitherType::TriangularHighpass => 3,
        }
    }
}

/// The options of a context.
#[derive(Clone, Copy, Debug, PartialEq, Eq, Structural)]
pub struct SwrOptions {
    pub in_sample_rate: i32,
    pub out_sample_rate: i32,
    pub in_sample_fmt: Option<SampleFormat>,
    pub out_sample_fmt: Option<SampleFormat>,
    /// Format between the stages; chosen by the context when not set.
    pub internal_sample_fmt: Option<SampleFormat>,
    pub in_chlayout: ChannelLayout,
    pub out_chlayout: ChannelLayout,
    /// Layout of the input channels that are used.
    pub used_chlayout: ChannelLayout,
    /// Mixing level of the centre.
    pub clev: F32,
    /// Mixing level of the surround channels.
    pub slev: F32,
    pub lfe_mix_level: F32,
    pub rematrix_volume: F32,
    /// Limit of the weight of a mixed channel; zero chooses it.
    pub rematrix_maxval: F32,
    pub flags: SwrFlags,
    pub dither_scale: F32,
    pub dither_method: SwrDitherType,
    /// Taps of the resampling filter at full bandwidth.
    pub filter_size: i32,
    /// Binary logarithm of the number of phases.
    pub phase_shift: i32,
    /// Interpolate between phases.
    pub linear_interp: bool,
    /// Use as many phases as the ratio of the rates needs.
    pub exact_rational: bool,
    /// Cutoff frequency; zero chooses it.
    pub cutoff: F64,
    pub engine: SwrEngine,
    /// For the external engine only.
    pub precision: F64,
    /// For the external engine only.
    pub cheby: bool,
    /// Drift in seconds up to which timestamps are left alone.
    pub min_compensation: F32,
    /// Drift in seconds above which samples are dropped or injected.
    pub min_hard_compensation: F32,
    /// Seconds over which the rate is changed.
    pub soft_compensation_duration: F32,
    /// Largest change of the rate.
    pub max_soft_compensation: F32,
    /// Simplified form of the four above.
    pub async_: F32,
    /// Timestamp of the first sample, in samples.
    pub first_pts: i64,
    pub matrix_encoding: MatrixEncoding,
    pub filter_type: FilterType,
    pub kaiser_beta: F64,
    /// Used bits of an output sample; zero means all.
    pub output_sample_bits: i32,
}

impl SwrOptions {
    /// The options that a context starts with.
    pub open spec fn initial() -> SwrOptions {
        SwrOptions {
            in_sample_rate: 0,
            out_sample_rate: 0,
            in_sample_fmt: None,
            out_sample_fmt: None,
            internal_sample_fmt: None,
            in_chlayout: ChannelLayout::unset(),
            out_chlayout: ChannelLayout::unset(),
            used_chlayout: ChannelLayout::unset(),
            clev: F32 { bits: 0x3f35_04f3 },
            slev: F32 { bits: 0x3f35_04f3 },
            lfe_mix_level: F32 { bits: 0 },
            rematrix_volume: F32 { bits: 0x3f80_0000 },
            rematrix_maxval: F32 { bits: 0 },
            flags: SwrFlags(0),
            dither_scale: F32 { bits: 0x3f80_0000 },
            dither_method: SwrDitherType::Off,
            filter_size: 32,
            phase_shift: 10,
            linear_interp: true,
            exact_rational: true,
            cutoff: F64 { bits: 0 },
            engine: SwrEngine::Swr,
            precision: F64 { bits: 0x4034_0000_0000_0000 },
            cheby: false,
            min_compensation: F32 { bits: F32_MAX },
            min_hard_compensation: F32 { bits: 0x3dcc_cccd },
            soft_compensation_duration: F32 { bits: 0x3f80_0000 },
            max_soft_compensation: F32 { bits: 0 },
            async_: F32 { bits: 0 },
            first_pts: NOPTS,
            matrix_encoding: MatrixEncoding::Off,
            filter_type: FilterType::Kaiser,
            kaiser_beta: F64 { bits: 0x4022_0000_0000_0000 },
            output_sample_bits: 0,
        }
    }
}

impl Default for SwrOptions {
    fn default() -> (r: SwrOptions)
        ensures
            r == SwrOptions::initial(),
    {
        SwrOptions {
            in_sample_rate: 0,
            out_sample_rate: 0,
            in_sample_fmt: None,
            out_sample_fmt: None,
            internal_sample_fmt: None,
            in_chlayout: ChannelLayout::none(),
            out_chlayout: ChannelLayout::none(),
            used_chlayout: ChannelLayout::none(),
            clev: F32 { bits: 0x3f35_04f3 },
            slev: F32 { bits: 0x3f35_04f3 },
            lfe_mix_level: F32 { bits: 0 },
            rematrix_volume: F32 { bits: 0x3f80_0000 },
            rematrix_maxval: F32 { bits: 0 },
            flags: SwrFlags(0),
            dither_scale: F32 { bits: 0x3f80_0000 },
            dither_method: SwrDitherType::Off,
            filter_size: 32,
            phase_shift: 10,
            linear_interp: true,
            exact_rational: true,
            cutoff: F64 { bits: 0 },
            engine: SwrEngine::Swr,
            precision: F64 { bits: 0x4034_0000_0000_0000 },
            cheby: false,
            min_compensation: F32 { bits: F32_MAX },
            min_hard_compensation: F32 { bits: 0x3dcc_cccd },
            soft_compensation_duration: F32 { bits: 0x3f80_0000 },
            max_soft_compensation: F32 { bits: 0 },
            async_: F32 { bits: 0 },
            first_pts: NOPTS,
            matrix_encoding: MatrixEncoding::Off,
            filter_type: FilterType::Kaiser,
            kaiser_beta: F64 { bits: 0x4022_0000_0000_0000 },
            output_sample_bits: 0,
        }
    }
}

} // verus!
