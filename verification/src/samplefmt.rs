//! Audio sample formats.
use vstd::prelude::*;

verus! {

/// Sample formats. The packed formats interleave the channels in one plane;
/// their `p` counterparts keep one plane per channel.
#[derive(Clone, Copy, Debug, PartialEq, Eq, Structural, Hash)]
pub enum SampleFormat {
    U8,
    S16,
    S32,
    Flt,
    Dbl,
    U8p,
    S16p,
    S32p,
    Fltp,
    Dblp,
    S64,
    S64p,
    /// One-bit audio, eight samples to a byte.
    Dsd,
}

impl SampleFormat {
    pub open spec fn spec_bytes(self) -> nat {
        match self {
            SampleFormat::U8 | SampleFormat::U8p | SampleFormat::Dsd => 1,
            SampleFormat::S16 | SampleFormat::S16p => 2,
            SampleFormat::S32 | SampleFormat::S32p | SampleFormat::Flt | SampleFormat::Fltp => 4,
            SampleFormat::S64 | SampleFormat::S64p | SampleFormat::Dbl | SampleFormat::Dblp => 8,
        }
    }

    pub open spec fn spec_packed(self) -> SampleFormat {
        match self {
            SampleFormat::U8p => SampleFormat::U8,
            SampleFormat::S16p => SampleFormat::S16,
            SampleFormat::S32p => SampleFormat::S32,
            SampleFormat::Fltp => SampleFormat::Flt,
            SampleFormat::Dblp => SampleFormat::Dbl,
            SampleFormat::S64p => SampleFormat::S64,
            f => f,
        }
    }

    pub open spec fn spec_planar(self) -> SampleFormat {
        match self {
            SampleFormat::U8 => SampleFormat::U8p,
            SampleFormat::S16 => SampleFormat::S16p,
            SampleFormat::S32 => SampleFormat::S32p,
            SampleFormat::Flt => SampleFormat::Fltp,
            SampleFormat::Dbl => SampleFormat::Dblp,
            SampleFormat::S64 => SampleFormat::S64p,
            f => f,
        }
    }

    pub open spec fn spec_is_planar(self) -> bool {
        self.spec_packed() != self
    }

    pub open spec fn spec_name(self) -> Seq<char> {
        match self {
            SampleFormat::U8 => "u8"@,
            SampleFormat::S16 => "s16"@,
            SampleFormat::S32 => "s32"@,
            SampleFormat::Flt => "flt"@,
            SampleFormat::Dbl => "dbl"@,
            SampleFormat::U8p => "u8p"@,
            SampleFormat::S16p => "s16p"@,
            SampleFormat::S32p => "s32p"@,
            SampleFormat::Fltp => "fltp"@,
            SampleFormat::Dblp => "dblp"@,
            SampleFormat::S64 => "s64"@,
            SampleFormat::S64p => "s64p"@,
            SampleFormat::Dsd => "dsd"@,
        }
    }

    /// Integer formats of at most 32 bits.
    pub open spec fn is_small_int(self) -> bool {
        let p = self.spec_packed();
        p == SampleFormat::U8 || p == SampleFormat::S16 || p == SampleFormat::S32
    }

    /// Bytes of one sample of one channel.
    pub fn bytes_per_sample(self) -> (r: usize)
        ensures
            r == self.spec_bytes(),
    {
        match self {
            SampleFormat::U8 | SampleFormat::U8p | SampleFormat::Dsd => 1,
            SampleFormat::S16 | SampleFormat::S16p => 2,
            SampleFormat::S32 | SampleFormat::S32p | SampleFormat::Flt | SampleFormat::Fltp => 4,
            SampleFormat::S64 | SampleFormat::S64p | SampleFormat::Dbl | SampleFormat::Dblp => 8,
        }
    }

    /// The interleaved counterpart.
    pub fn packed(self) -> (r: SampleFormat)
        ensures
            r == self.spec_packed(),
    {
        match self {
            SampleFormat::U8p => SampleFormat::U8,
            SampleFormat::S16p => SampleFormat::S16,
            SampleFormat::S32p => SampleFormat::S32,
            SampleFormat::Fltp => SampleFormat::Flt,
            SampleFormat::Dblp => SampleFormat::Dbl,
            SampleFormat::S64p => SampleFormat::S64,
            f => f,
        }
    }

    /// The counterpart with one plane per channel; `Dsd` has none and stays.
    pub fn planar(self) -> (r: SampleFormat)
        ensures
            r == self.spec_planar(),
    {
        match self {
            SampleFormat::U8 => SampleFormat::U8p,
            SampleFormat::S16 => SampleFormat::S16p,
            SampleFormat::S32 => SampleFormat::S32p,
            SampleFormat::Flt => SampleFormat::Fltp,
            SampleFormat::Dbl => SampleFormat::Dblp,
            SampleFormat::S64 => SampleFormat::S64p,
            f => f,
        }
    }

    pub fn is_planar(self) -> (r: bool)
        ensures
            r == self.spec_is_planar(),
    {
        self.packed() != self
    }

    /// Short name, as used in messages.
    pub fn name(self) -> (r: &'static str)
        ensures
            r@ == self.spec_name(),
    {
        match self {
            SampleFormat::U8 => "u8",
            SampleFormat::S16 => "s16",
            SampleFormat::S32 => "s32",
            SampleFormat::Flt => "flt",
            SampleFormat::Dbl => "dbl",
            SampleFormat::U8p => "u8p",
            SampleFormat::S16p => "s16p",
            SampleFormat::S32p => "s32p",
            SampleFormat::Fltp => "fltp",
            SampleFormat::Dblp => "dblp",
            SampleFormat::S64 => "s64",
            SampleFormat::S64p => "s64p",
            SampleFormat::Dsd => "dsd",
        }
    }
}

} // verus!
