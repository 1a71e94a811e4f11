//! Which input speaker goes to which output speaker, and how loud.
use crate::channel_layout;
use crate::channel_layout::{
    has_channel, FRONT_LEFT, FRONT_RIGHT, FRONT_CENTER, LOW_FREQUENCY, BACK_LEFT, BACK_RIGHT, FRONT_LEFT_OF_CENTER, FRONT_RIGHT_OF_CENTER, BACK_CENTER, SIDE_LEFT, SIDE_RIGHT, TOP_CENTER, TOP_FRONT_LEFT, TOP_FRONT_CENTER, TOP_FRONT_RIGHT, TOP_BACK_LEFT, TOP_BACK_CENTER, TOP_BACK_RIGHT, LOW_FREQUENCY_2, TOP_SIDE_LEFT, TOP_SIDE_RIGHT, BOTTOM_FRONT_CENTER, BOTTOM_FRONT_LEFT, BOTTOM_FRONT_RIGHT,
};
use crate::float::F64;
use vstd::prelude::*;

verus! {

/// Matrix encodings of a stereo mix.
#[derive(Clone, Copy, Debug, PartialEq, Eq, Structural, Hash)]
pub enum MatrixEncoding {
    /// No encoding.
    Off,
    Dolby,
    /// Dolby Pro Logic II.
    Dplii,
    /// Dolby Pro Logic IIx.
    Dpliix,
    /// Dolby Pro Logic IIz.
    Dpliiz,
    DolbyEx,
    DolbyHeadphone,
}

impl Default for MatrixEncoding {
    fn default() -> (r: MatrixEncoding)
        ensures
            r == MatrixEncoding::Off,
    {
        MatrixEncoding::Off
    }
}

/// A mixing gain: a constant, or one of the user's levels with a fixed factor.
#[derive(Clone, Copy, Debug, PartialEq, Eq, Structural, Hash)]
pub enum Gain {
    Zero,
    One,
    Half,
    Sqrt1_2,
    Sqrt1_3,
    Sqrt2_3,
    Clev,
    ClevSqrt2,
    Slev,
    NegSlev,
    SlevSqrt1_2,
    NegSlevSqrt1_2,
    SlevSqrt3_2,
    NegSlevSqrt3_2,
    Lfe,
    LfeSqrt1_2,
}

pub open spec fn in_mask(mask: u64, id: u32) -> bool {
    channel_layout::in_mask(mask, id)
}

/// A speaker of the input that the output does not have.
pub open spec fn lost(inm: u64, outm: u64, id: u32) -> bool {
    in_mask(inm, id) && !in_mask(outm, id)
}

pub open spec fn side(right: bool, l: u32, r: u32) -> u32 {
    if right {
        r
    } else {
        l
    }
}

fn lost_exec(inm: u64, outm: u64, id: u32) -> (r: bool)
    requires
        id < 64,
    ensures
        r == lost(inm, outm, id),
{
    has_channel(inm, id) && !has_channel(outm, id)
}

fn side_exec(right: bool, l: u32, r: u32) -> (x: u32)
    ensures
        x == side(right, l, r),
{
    if right {
        r
    } else {
        l
    }
}

/// The front center goes to both front speakers.
pub open spec fn from_front_center(inm: u64, outm: u64, o: u32) -> Gain {
    if !(in_mask(outm, FRONT_LEFT) && in_mask(outm, FRONT_RIGHT)) {
        Gain::Zero
    } else if o == FRONT_LEFT || o == FRONT_RIGHT {
        if in_mask(inm, FRONT_LEFT) || in_mask(inm, FRONT_RIGHT) {
            Gain::Clev
        } else {
            Gain::Sqrt1_2
        }
    } else {
        Gain::Zero
    }
}

/// The front pair goes to the front center.
pub open spec fn from_front_pair(outm: u64, o: u32) -> Gain {
    if in_mask(outm, FRONT_CENTER) && o == FRONT_CENTER {
        Gain::Sqrt1_2
    } else {
        Gain::Zero
    }
}

/// A surround channel in the front pair, matrix encoded where asked for.
pub open spec fn surround_to_front(enc: MatrixEncoding, o: u32, right: bool) -> Gain {
    match enc {
        MatrixEncoding::Dolby => {
            if o == FRONT_LEFT {
                Gain::NegSlevSqrt1_2
            } else if o == FRONT_RIGHT {
                Gain::SlevSqrt1_2
            } else {
                Gain::Zero
            }
        },
        MatrixEncoding::Dplii => {
            if o == FRONT_LEFT {
                if right {
                    Gain::NegSlevSqrt1_2
                } else {
                    Gain::NegSlevSqrt3_2
                }
            } else if o == FRONT_RIGHT {
                if right {
                    Gain::SlevSqrt3_2
                } else {
                    Gain::SlevSqrt1_2
                }
            } else {
                Gain::Zero
            }
        },
        _ => {
            if o == side(right, FRONT_LEFT, FRONT_RIGHT) {
                Gain::Slev
            } else {
                Gain::Zero
            }
        },
    }
}

/// Back center: to the back pair, the side pair or the front.
pub open spec fn from_back_center(inm: u64, outm: u64, enc: MatrixEncoding, o: u32) -> Gain {
    if in_mask(outm, BACK_LEFT) {
        if o == BACK_LEFT || o == BACK_RIGHT {
            Gain::Sqrt1_2
        } else {
            Gain::Zero
        }
    } else if in_mask(outm, SIDE_LEFT) {
        if o == SIDE_LEFT || o == SIDE_RIGHT {
            Gain::Sqrt1_2
        } else {
            Gain::Zero
        }
    } else if in_mask(outm, FRONT_LEFT) {
        if enc == MatrixEncoding::Dolby || enc == MatrixEncoding::Dplii {
            if lost(inm, outm, BACK_LEFT) || lost(inm, outm, SIDE_LEFT) {
                if o == FRONT_LEFT {
                    Gain::NegSlevSqrt1_2
                } else if o == FRONT_RIGHT {
                    Gain::SlevSqrt1_2
                } else {
                    Gain::Zero
                }
            } else {
                if o == FRONT_LEFT {
                    Gain::NegSlev
                } else if o == FRONT_RIGHT {
                    Gain::Slev
                } else {
                    Gain::Zero
                }
            }
        } else {
            if o == FRONT_LEFT || o == FRONT_RIGHT {
                Gain::SlevSqrt1_2
            } else {
                Gain::Zero
            }
        }
    } else if in_mask(outm, FRONT_CENTER) && o == FRONT_CENTER {
        Gain::SlevSqrt1_2
    } else {
        Gain::Zero
    }
}

/// A back speaker.
pub open spec fn from_back_pair(inm: u64, outm: u64, enc: MatrixEncoding, o: u32, right: bool) -> Gain {
    if in_mask(outm, BACK_CENTER) {
        if o == BACK_CENTER {
            Gain::Sqrt1_2
        } else {
            Gain::Zero
        }
    } else if in_mask(outm, SIDE_LEFT) {
        if o == side(right, SIDE_LEFT, SIDE_RIGHT) {
            if in_mask(inm, SIDE_LEFT) {
                Gain::Sqrt1_2
            } else {
                Gain::One
            }
        } else {
            Gain::Zero
        }
    } else if in_mask(outm, FRONT_LEFT) {
        surround_to_front(enc, o, right)
    } else if in_mask(outm, FRONT_CENTER) && o == FRONT_CENTER {
        Gain::SlevSqrt1_2
    } else {
        Gain::Zero
    }
}

/// A side speaker.
pub open spec fn from_side_pair(inm: u64, outm: u64, enc: MatrixEncoding, o: u32, right: bool) -> Gain {
    if in_mask(outm, BACK_LEFT) {
        if o == side(right, BACK_LEFT, BACK_RIGHT) {
            if in_mask(inm, BACK_LEFT) {
                Gain::Sqrt1_2
            } else {
                Gain::One
            }
        } else {
            Gain::Zero
        }
    } else if in_mask(outm, BACK_CENTER) {
        if o == BACK_CENTER {
            Gain::Sqrt1_2
        } else {
            Gain::Zero
        }
    } else if in_mask(outm, FRONT_LEFT) {
        surround_to_front(enc, o, right)
    } else if in_mask(outm, FRONT_CENTER) && o == FRONT_CENTER {
        Gain::SlevSqrt1_2
    } else {
        Gain::Zero
    }
}

/// A front speaker next to the center.
pub open spec fn from_front_of_center(outm: u64, o: u32, right: bool) -> Gain {
    if in_mask(outm, FRONT_LEFT) {
        if o == side(right, FRONT_LEFT, FRONT_RIGHT) {
            Gain::One
        } else {
            Gain::Zero
        }
    } else if in_mask(outm, FRONT_CENTER) && o == FRONT_CENTER {
        Gain::Sqrt1_2
    } else {
        Gain::Zero
    }
}

/// A top front speaker.
pub open spec fn from_top_front_pair(outm: u64, o: u32, right: bool) -> Gain {
    if in_mask(outm, TOP_FRONT_CENTER) {
        if o == TOP_FRONT_CENTER {
            Gain::Sqrt1_2
        } else {
            Gain::Zero
        }
    } else if in_mask(outm, FRONT_LEFT) {
        if o == side(right, FRONT_LEFT, FRONT_RIGHT) {
            Gain::One
        } else {
            Gain::Zero
        }
    } else if in_mask(outm, FRONT_CENTER) && o == FRONT_CENTER {
        Gain::Sqrt1_2
    } else {
        Gain::Zero
    }
}

/// The top front center.
pub open spec fn from_top_front_center(outm: u64, o: u32) -> Gain {
    if in_mask(outm, TOP_FRONT_LEFT) {
        if o == TOP_FRONT_LEFT || o == TOP_FRONT_RIGHT {
            Gain::Sqrt1_2
        } else {
            Gain::Zero
        }
    } else if in_mask(outm, FRONT_CENTER) {
        if o == FRONT_CENTER {
            Gain::One
        } else {
            Gain::Zero
        }
    } else if in_mask(outm, FRONT_LEFT) && (o == FRONT_LEFT || o == FRONT_RIGHT) {
        Gain::Clev
    } else {
        Gain::Zero
    }
}

/// A top back speaker.
pub open spec fn from_top_back_pair(outm: u64, o: u32, right: bool) -> Gain {
    if in_mask(outm, TOP_BACK_CENTER) {
        if o == TOP_BACK_CENTER {
            Gain::Sqrt1_2
        } else {
            Gain::Zero
        }
    } else if in_mask(outm, TOP_FRONT_LEFT) {
        if o == side(right, TOP_FRONT_LEFT, TOP_FRONT_RIGHT) {
            Gain::Sqrt1_2
        } else {
            Gain::Zero
        }
    } else if in_mask(outm, BACK_LEFT) {
        if o == side(right, BACK_LEFT, BACK_RIGHT) {
            Gain::One
        } else {
            Gain::Zero
        }
    } else if in_mask(outm, SIDE_LEFT) {
        if o == side(right, SIDE_LEFT, SIDE_RIGHT) {
            Gain::One
        } else {
            Gain::Zero
        }
    } else if in_mask(outm, FRONT_LEFT) {
        if o == side(right, FRONT_LEFT, FRONT_RIGHT) {
            Gain::Slev
        } else {
            Gain::Zero
        }
    } else if in_mask(outm, FRONT_CENTER) && o == FRONT_CENTER {
        Gain::SlevSqrt1_2
    } else {
        Gain::Zero
    }
}

/// The top back center: rear outputs come before front outputs.
pub open spec fn from_top_back_center(outm: u64, o: u32) -> Gain {
    if in_mask(outm, TOP_BACK_LEFT) {
        if o == TOP_BACK_LEFT || o == TOP_BACK_RIGHT {
            Gain::Sqrt1_2
        } else {
            Gain::Zero
        }
    } else if in_mask(outm, BACK_LEFT) {
        if o == BACK_LEFT || o == BACK_RIGHT {
            Gain::Sqrt1_2
        } else {
            Gain::Zero
        }
    } else if in_mask(outm, SIDE_LEFT) {
        if o == SIDE_LEFT || o == SIDE_RIGHT {
            Gain::Sqrt1_2
        } else {
            Gain::Zero
        }
    } else if in_mask(outm, FRONT_LEFT) {
        if o == FRONT_LEFT || o == FRONT_RIGHT {
            Gain::Half
        } else {
            Gain::Zero
        }
    } else if in_mask(outm, FRONT_CENTER) && o == FRONT_CENTER {
        Gain::Half
    } else {
        Gain::Zero
    }
}

/// A top side speaker.
pub open spec fn from_top_side_pair(outm: u64, o: u32, right: bool) -> Gain {
    if in_mask(outm, TOP_FRONT_LEFT) && in_mask(outm, TOP_BACK_CENTER) {
        if o == side(right, TOP_FRONT_LEFT, TOP_FRONT_RIGHT) {
            Gain::Sqrt2_3
        } else if o == TOP_BACK_CENTER {
            Gain::Sqrt1_3
        } else {
            Gain::Zero
        }
    } else if in_mask(outm, TOP_FRONT_LEFT) && in_mask(outm, TOP_BACK_LEFT) {
        if o == side(right, TOP_FRONT_LEFT, TOP_FRONT_RIGHT) || o == side(right, TOP_BACK_LEFT, TOP_BACK_RIGHT) {
            Gain::Sqrt1_2
        } else {
            Gain::Zero
        }
    } else if in_mask(outm, TOP_FRONT_LEFT) && (in_mask(outm, BACK_LEFT) || in_mask(outm, SIDE_LEFT)) {
        if o == side(right, TOP_FRONT_LEFT, TOP_FRONT_RIGHT) {
            Gain::Sqrt1_2
        } else if in_mask(outm, BACK_LEFT) {
            if o == side(right, BACK_LEFT, BACK_RIGHT) {
                Gain::Sqrt1_2
            } else {
                Gain::Zero
            }
        } else if o == side(right, SIDE_LEFT, SIDE_RIGHT) {
            Gain::Sqrt1_2
        } else {
            Gain::Zero
        }
    } else if in_mask(outm, SIDE_LEFT) {
        if o == side(right, SIDE_LEFT, SIDE_RIGHT) {
            Gain::One
        } else {
            Gain::Zero
        }
    } else if in_mask(outm, FRONT_LEFT) {
        if o == side(right, FRONT_LEFT, FRONT_RIGHT) {
            Gain::Slev
        } else if in_mask(outm, BACK_LEFT) && o == side(right, BACK_LEFT, BACK_RIGHT) {
            Gain::Sqrt1_2
        } else {
            Gain::Zero
        }
    } else if in_mask(outm, FRONT_CENTER) && o == FRONT_CENTER {
        Gain::SlevSqrt1_2
    } else {
        Gain::Zero
    }
}

/// The top center.
pub open spec fn from_top_center(outm: u64, o: u32) -> Gain {
    if in_mask(outm, TOP_FRONT_LEFT) && in_mask(outm, TOP_BACK_LEFT) {
        if o == TOP_FRONT_LEFT || o == TOP_FRONT_RIGHT || o == TOP_BACK_LEFT || o == TOP_BACK_RIGHT {
            Gain::Half
        } else {
            Gain::Zero
        }
    } else if in_mask(outm, TOP_FRONT_LEFT) && in_mask(outm, TOP_BACK_CENTER) {
        if o == TOP_FRONT_LEFT || o == TOP_FRONT_RIGHT || o == TOP_BACK_CENTER {
            Gain::Sqrt1_3
        } else {
            Gain::Zero
        }
    } else if in_mask(outm, TOP_FRONT_LEFT) && (in_mask(outm, BACK_LEFT) || in_mask(outm, SIDE_LEFT)) {
        if o == TOP_FRONT_LEFT || o == TOP_FRONT_RIGHT {
            Gain::Half
        } else if in_mask(outm, BACK_LEFT) {
            if o == BACK_LEFT || o == BACK_RIGHT {
                Gain::Half
            } else {
                Gain::Zero
            }
        } else if o == SIDE_LEFT || o == SIDE_RIGHT {
            Gain::Half
        } else {
            Gain::Zero
        }
    } else if in_mask(outm, FRONT_LEFT) {
        if o == FRONT_LEFT || o == FRONT_RIGHT {
            Gain::Half
        } else if in_mask(outm, BACK_LEFT) {
            if o == BACK_LEFT || o == BACK_RIGHT {
                Gain::Half
            } else {
                Gain::Zero
            }
        } else if in_mask(outm, SIDE_LEFT) && (o == SIDE_LEFT || o == SIDE_RIGHT) {
            Gain::Half
        } else {
            Gain::Zero
        }
    } else if in_mask(outm, FRONT_CENTER) && o == FRONT_CENTER {
        Gain::Half
    } else {
        Gain::Zero
    }
}

/// The bottom front center.
pub open spec fn from_bottom_front_center(outm: u64, o: u32) -> Gain {
    if in_mask(outm, FRONT_CENTER) {
        if o == FRONT_CENTER {
            Gain::One
        } else {
            Gain::Zero
        }
    } else if in_mask(outm, FRONT_LEFT) && (o == FRONT_LEFT || o == FRONT_RIGHT) {
        Gain::Clev
    } else {
        Gain::Zero
    }
}

/// A bottom front speaker.
pub open spec fn from_bottom_front_pair(outm: u64, o: u32, right: bool) -> Gain {
    if in_mask(outm, BOTTOM_FRONT_CENTER) {
        if o == BOTTOM_FRONT_CENTER {
            Gain::Sqrt1_2
        } else {
            Gain::Zero
        }
    } else if in_mask(outm, FRONT_LEFT) {
        if o == side(right, FRONT_LEFT, FRONT_RIGHT) {
            Gain::One
        } else {
            Gain::Zero
        }
    } else if in_mask(outm, FRONT_CENTER) && o == FRONT_CENTER {
        Gain::Sqrt1_2
    } else {
        Gain::Zero
    }
}

/// A low-frequency channel.
pub open spec fn from_low_frequency(outm: u64, o: u32) -> Gain {
    if in_mask(outm, FRONT_CENTER) {
        if o == FRONT_CENTER {
            Gain::Lfe
        } else {
            Gain::Zero
        }
    } else if in_mask(outm, FRONT_LEFT) && (o == FRONT_LEFT || o == FRONT_RIGHT) {
        Gain::LfeSqrt1_2
    } else {
        Gain::Zero
    }
}

/// The second low-frequency channel goes to the first where there is one.
pub open spec fn from_low_frequency_2(outm: u64, o: u32) -> Gain {
    if in_mask(outm, LOW_FREQUENCY) {
        if o == LOW_FREQUENCY {
            Gain::Sqrt1_2
        } else {
            Gain::Zero
        }
    } else {
        from_low_frequency(outm, o)
    }
}

/// What an input speaker that the output lacks adds to output speaker `o`.
pub open spec fn folded(inm: u64, outm: u64, enc: MatrixEncoding, o: u32, i: u32) -> Gain {
    if i == FRONT_CENTER {
        from_front_center(inm, outm, o)
    } else if i == FRONT_LEFT || i == FRONT_RIGHT {
        from_front_pair(outm, o)
    } else if i == BACK_CENTER {
        from_back_center(inm, outm, enc, o)
    } else if i == BACK_LEFT {
        from_back_pair(inm, outm, enc, o, false)
    } else if i == BACK_RIGHT {
        from_back_pair(inm, outm, enc, o, true)
    } else if i == SIDE_LEFT {
        from_side_pair(inm, outm, enc, o, false)
    } else if i == SIDE_RIGHT {
        from_side_pair(inm, outm, enc, o, true)
    } else if i == FRONT_LEFT_OF_CENTER {
        from_front_of_center(outm, o, false)
    } else if i == FRONT_RIGHT_OF_CENTER {
        from_front_of_center(outm, o, true)
    } else if i == TOP_FRONT_LEFT {
        from_top_front_pair(outm, o, false)
    } else if i == TOP_FRONT_RIGHT {
        from_top_front_pair(outm, o, true)
    } else if i == TOP_FRONT_CENTER {
        from_top_front_center(outm, o)
    } else if i == TOP_BACK_LEFT {
        from_top_back_pair(outm, o, false)
    } else if i == TOP_BACK_RIGHT {
        from_top_back_pair(outm, o, true)
    } else if i == TOP_BACK_CENTER {
        from_top_back_center(outm, o)
    } else if i == TOP_SIDE_LEFT {
        from_top_side_pair(outm, o, false)
    } else if i == TOP_SIDE_RIGHT {
        from_top_side_pair(outm, o, true)
    } else if i == TOP_CENTER {
        from_top_center(outm, o)
    } else if i == BOTTOM_FRONT_CENTER {
        from_bottom_front_center(outm, o)
    } else if i == BOTTOM_FRONT_LEFT {
        from_bottom_front_pair(outm, o, false)
    } else if i == BOTTOM_FRONT_RIGHT {
        from_bottom_front_pair(outm, o, true)
    } else if i == LOW_FREQUENCY {
        from_low_frequency(outm, o)
    } else if i == LOW_FREQUENCY_2 {
        from_low_frequency_2(outm, o)
    } else {
        Gain::Zero
    }
}

/// What an input speaker keeps of its own output speaker. A center that also takes in a pair is turned down.
pub open spec fn kept(inm: u64, outm: u64, o: u32) -> Gain {
    if o == FRONT_CENTER && (lost(inm, outm, FRONT_LEFT) || lost(inm, outm, FRONT_RIGHT)) {
        Gain::ClevSqrt2
    } else if o == TOP_FRONT_CENTER && lost(inm, outm, TOP_FRONT_LEFT) {
        Gain::ClevSqrt2
    } else if o == BOTTOM_FRONT_CENTER && lost(inm, outm, BOTTOM_FRONT_LEFT) {
        Gain::ClevSqrt2
    } else {
        Gain::One
    }
}

/// Gain of input speaker `i` in output speaker `o`.
pub open spec fn mix_gain(inm: u64, outm: u64, enc: MatrixEncoding, o: u32, i: u32) -> Gain {
    if !in_mask(inm, i) || !in_mask(outm, o) {
        Gain::Zero
    } else if in_mask(outm, i) {
        if o == i {
            kept(inm, outm, o)
        } else {
            Gain::Zero
        }
    } else {
        folded(inm, outm, enc, o, i)
    }
}


fn from_front_center_exec(inm: u64, outm: u64, o: u32) -> (r: Gain)
    ensures
        r == from_front_center(inm, outm, o),
{
    if !(has_channel(outm, FRONT_LEFT) && has_channel(outm, FRONT_RIGHT)) {
        Gain::Zero
    } else if o == FRONT_LEFT || o == FRONT_RIGHT {
        if has_channel(inm, FRONT_LEFT) || has_channel(inm, FRONT_RIGHT) {
            Gain::Clev
        } else {
            Gain::Sqrt1_2
        }
    } else {
        Gain::Zero
    }
}

fn from_front_pair_exec(outm: u64, o: u32) -> (r: Gain)
    ensures
        r == from_front_pair(outm, o),
{
    if has_channel(outm, FRONT_CENTER) && o == FRONT_CENTER {
        Gain::Sqrt1_2
    } else {
        Gain::Zero
    }
}

fn surround_to_front_exec(enc: MatrixEncoding, o: u32, right: bool) -> (r: Gain)
    ensures
        r == surround_to_front(enc, o, right),
{
    match enc {
        MatrixEncoding::Dolby => {
            if o == FRONT_LEFT {
                Gain::NegSlevSqrt1_2
            } else if o == FRONT_RIGHT {
                Gain::SlevSqrt1_2
            } else {
                Gain::Zero
            }
        },
        MatrixEncoding::Dplii => {
            if o == FRONT_LEFT {
                if right {
                    Gain::NegSlevSqrt1_2
                } else {
                    Gain::NegSlevSqrt3_2
                }
            } else if o == FRONT_RIGHT {
                if right {
                    Gain::SlevSqrt3_2
                } else {
                    Gain::SlevSqrt1_2
                }
            } else {
                Gain::Zero
            }
        },
        _ => {
            if o == side_exec(right, FRONT_LEFT, FRONT_RIGHT) {
                Gain::Slev
            } else {
                Gain::Zero
            }
        },
    }
}

fn from_back_center_exec(inm: u64, outm: u64, enc: MatrixEncoding, o: u32) -> (r: Gain)
    ensures
        r == from_back_center(inm, outm, enc, o),
{
    if has_channel(outm, BACK_LEFT) {
        if o == BACK_LEFT || o == BACK_RIGHT {
            Gain::Sqrt1_2
        } else {
            Gain::Zero
        }
    } else if has_channel(outm, SIDE_LEFT) {
        if o == SIDE_LEFT || o == SIDE_RIGHT {
            Gain::Sqrt1_2
        } else {
            Gain::Zero
        }
    } else if has_channel(outm, FRONT_LEFT) {
        if enc == MatrixEncoding::Dolby || enc == MatrixEncoding::Dplii {
            if lost_exec(inm, outm, BACK_LEFT) || lost_exec(inm, outm, SIDE_LEFT) {
                if o == FRONT_LEFT {
                    Gain::NegSlevSqrt1_2
                } else if o == FRONT_RIGHT {
                    Gain::SlevSqrt1_2
                } else {
                    Gain::Zero
                }
            } else {
                if o == FRONT_LEFT {
                    Gain::NegSlev
                } else if o == FRONT_RIGHT {
                    Gain::Slev
                } else {
                    Gain::Zero
                }
            }
        } else {
            if o == FRONT_LEFT || o == FRONT_RIGHT {
                Gain::SlevSqrt1_2
            } else {
                Gain::Zero
            }
        }
    } else if has_channel(outm, FRONT_CENTER) && o == FRONT_CENTER {
        Gain::SlevSqrt1_2
    } else {
        Gain::Zero
    }
}

fn from_back_pair_exec(inm: u64, outm: u64, enc: MatrixEncoding, o: u32, right: bool) -> (r: Gain)
    ensures
        r == from_back_pair(inm, outm, enc, o, right),
{
    if has_channel(outm, BACK_CENTER) {
        if o == BACK_CENTER {
            Gain::Sqrt1_2
        } else {
            Gain::Zero
        }
    } else if has_channel(outm, SIDE_LEFT) {
        if o == side_exec(right, SIDE_LEFT, SIDE_RIGHT) {
            if has_channel(inm, SIDE_LEFT) {
                Gain::Sqrt1_2
            } else {
                Gain::One
            }
        } else {
            Gain::Zero
        }
    } else if has_channel(outm, FRONT_LEFT) {
        surround_to_front_exec(enc, o, right)
    } else if has_channel(outm, FRONT_CENTER) && o == FRONT_CENTER {
        Gain::SlevSqrt1_2
    } else {
        Gain::Zero
    }
}

fn from_side_pair_exec(inm: u64, outm: u64, enc: MatrixEncoding, o: u32, right: bool) -> (r: Gain)
    ensures
        r == from_side_pair(inm, outm, enc, o, right),
{
    if has_channel(outm, BACK_LEFT) {
        if o == side_exec(right, BACK_LEFT, BACK_RIGHT) {
            if has_channel(inm, BACK_LEFT) {
                Gain::Sqrt1_2
            } else {
                Gain::One
            }
        } else {
            Gain::Zero
        }
    } else if has_channel(outm, BACK_CENTER) {
        if o == BACK_CENTER {
            Gain::Sqrt1_2
        } else {
            Gain::Zero
        }
    } else if has_channel(outm, FRONT_LEFT) {
        surround_to_front_exec(enc, o, right)
    } else if has_channel(outm, FRONT_CENTER) && o == FRONT_CENTER {
        Gain::SlevSqrt1_2
    } else {
        Gain::Zero
    }
}

fn from_front_of_center_exec(outm: u64, o: u32, right: bool) -> (r: Gain)
    ensures
        r == from_front_of_center(outm, o, right),
{
    if has_channel(outm, FRONT_LEFT) {
        if o == side_exec(right, FRONT_LEFT, FRONT_RIGHT) {
            Gain::One
        } else {
            Gain::Zero
        }
    } else if has_channel(outm, FRONT_CENTER) && o == FRONT_CENTER {
        Gain::Sqrt1_2
    } else {
        Gain::Zero
    }
}

fn from_top_front_pair_exec(outm: u64, o: u32, right: bool) -> (r: Gain)
    ensures
        r == from_top_front_pair(outm, o, right),
{
    if has_channel(outm, TOP_FRONT_CENTER) {
        if o == TOP_FRONT_CENTER {
            Gain::Sqrt1_2
        } else {
            Gain::Zero
        }
    } else if has_channel(outm, FRONT_LEFT) {
        if o == side_exec(right, FRONT_LEFT, FRONT_RIGHT) {
            Gain::One
        } else {
            Gain::Zero
        }
    } else if has_channel(outm, FRONT_CENTER) && o == FRONT_CENTER {
        Gain::Sqrt1_2
    } else {
        Gain::Zero
    }
}

fn from_top_front_center_exec(outm: u64, o: u32) -> (r: Gain)
    ensures
        r == from_top_front_center(outm, o),
{
    if has_channel(outm, TOP_FRONT_LEFT) {
        if o == TOP_FRONT_LEFT || o == TOP_FRONT_RIGHT {
            Gain::Sqrt1_2
        } else {
            Gain::Zero
        }
    } else if has_channel(outm, FRONT_CENTER) {
        if o == FRONT_CENTER {
            Gain::One
        } else {
            Gain::Zero
        }
    } else if has_channel(outm, FRONT_LEFT) && (o == FRONT_LEFT || o == FRONT_RIGHT) {
        Gain::Clev
    } else {
        Gain::Zero
    }
}

fn from_top_back_pair_exec(outm: u64, o: u32, right: bool) -> (r: Gain)
    ensures
        r == from_top_back_pair(outm, o, right),
{
    if has_channel(outm, TOP_BACK_CENTER) {
        if o == TOP_BACK_CENTER {
            Gain::Sqrt1_2
        } else {
            Gain::Zero
        }
    } else if has_channel(outm, TOP_FRONT_LEFT) {
        if o == side_exec(right, TOP_FRONT_LEFT, TOP_FRONT_RIGHT) {
            Gain::Sqrt1_2
        } else {
            Gain::Zero
        }
    } else if has_channel(outm, BACK_LEFT) {
        if o == side_exec(right, BACK_LEFT, BACK_RIGHT) {
            Gain::One
        } else {
            Gain::Zero
        }
    } else if has_channel(outm, SIDE_LEFT) {
        if o == side_exec(right, SIDE_LEFT, SIDE_RIGHT) {
            Gain::One
        } else {
            Gain::Zero
        }
    } else if has_channel(outm, FRONT_LEFT) {
        if o == side_exec(right, FRONT_LEFT, FRONT_RIGHT) {
            Gain::Slev
        } else {
            Gain::Zero
        }
    } else if has_channel(outm, FRONT_CENTER) && o == FRONT_CENTER {
        Gain::SlevSqrt1_2
    } else {
        Gain::Zero
    }
}

fn from_top_back_center_exec(outm: u64, o: u32) -> (r: Gain)
    ensures
        r == from_top_back_center(outm, o),
{
    if has_channel(outm, TOP_BACK_LEFT) {
        if o == TOP_BACK_LEFT || o == TOP_BACK_RIGHT {
            Gain::Sqrt1_2
        } else {
            Gain::Zero
        }
    } else if has_channel(outm, BACK_LEFT) {
        if o == BACK_LEFT || o == BACK_RIGHT {
            Gain::Sqrt1_2
        } else {
            Gain::Zero
        }
    } else if has_channel(outm, SIDE_LEFT) {
        if o == SIDE_LEFT || o == SIDE_RIGHT {
            Gain::Sqrt1_2
        } else {
            Gain::Zero
        }
    } else if has_channel(outm, FRONT_LEFT) {
        if o == FRONT_LEFT || o == FRONT_RIGHT {
            Gain::Half
        } else {
            Gain::Zero
        }
    } else if has_channel(outm, FRONT_CENTER) && o == FRONT_CENTER {
        Gain::Half
    } else {
        Gain::Zero
    }
}

fn from_top_side_pair_exec(outm: u64, o: u32, right: bool) -> (r: Gain)
    ensures
        r == from_top_side_pair(outm, o, right),
{
    if has_channel(outm, TOP_FRONT_LEFT) && has_channel(outm, TOP_BACK_CENTER) {
        if o == side_exec(right, TOP_FRONT_LEFT, TOP_FRONT_RIGHT) {
            Gain::Sqrt2_3
        } else if o == TOP_BACK_CENTER {
            Gain::Sqrt1_3
        } else {
            Gain::Zero
        }
    } else if has_channel(outm, TOP_FRONT_LEFT) && has_channel(outm, TOP_BACK_LEFT) {
        if o == side_exec(right, TOP_FRONT_LEFT, TOP_FRONT_RIGHT) || o == side_exec(right, TOP_BACK_LEFT, TOP_BACK_RIGHT) {
            Gain::Sqrt1_2
        } else {
            Gain::Zero
        }
    } else if has_channel(outm, TOP_FRONT_LEFT) && (has_channel(outm, BACK_LEFT) || has_channel(outm, SIDE_LEFT)) {
        if o == side_exec(right, TOP_FRONT_LEFT, TOP_FRONT_RIGHT) {
            Gain::Sqrt1_2
        } else if has_channel(outm, BACK_LEFT) {
            if o == side_exec(right, BACK_LEFT, BACK_RIGHT) {
                Gain::Sqrt1_2
            } else {
                Gain::Zero
            }
        } else if o == side_exec(right, SIDE_LEFT, SIDE_RIGHT) {
            Gain::Sqrt1_2
        } else {
            Gain::Zero
        }
    } else if has_channel(outm, SIDE_LEFT) {
        if o == side_exec(right, SIDE_LEFT, SIDE_RIGHT) {
            Gain::One
        } else {
            Gain::Zero
        }
    } else if has_channel(outm, FRONT_LEFT) {
        if o == side_exec(right, FRONT_LEFT, FRONT_RIGHT) {
            Gain::Slev
        } else if has_channel(outm, BACK_LEFT) && o == side_exec(right, BACK_LEFT, BACK_RIGHT) {
            Gain::Sqrt1_2
        } else {
            Gain::Zero
        }
    } else if has_channel(outm, FRONT_CENTER) && o == FRONT_CENTER {
        Gain::SlevSqrt1_2
    } else {
        Gain::Zero
    }
}

fn from_top_center_exec(outm: u64, o: u32) -> (r: Gain)
    ensures
        r == from_top_center(outm, o),
{
    if has_channel(outm, TOP_FRONT_LEFT) && has_channel(outm, TOP_BACK_LEFT) {
        if o == TOP_FRONT_LEFT || o == TOP_FRONT_RIGHT || o == TOP_BACK_LEFT || o == TOP_BACK_RIGHT {
            Gain::Half
        } else {
            Gain::Zero
        }
    } else if has_channel(outm, TOP_FRONT_LEFT) && has_channel(outm, TOP_BACK_CENTER) {
        if o == TOP_FRONT_LEFT || o == TOP_FRONT_RIGHT || o == TOP_BACK_CENTER {
            Gain::Sqrt1_3
        } else {
            Gain::Zero
        }
    } else if has_channel(outm, TOP_FRONT_LEFT) && (has_channel(outm, BACK_LEFT) || has_channel(outm, SIDE_LEFT)) {
        if o == TOP_FRONT_LEFT || o == TOP_FRONT_RIGHT {
            Gain::Half
        } else if has_channel(outm, BACK_LEFT) {
            if o == BACK_LEFT || o == BACK_RIGHT {
                Gain::Half
            } else {
                Gain::Zero
            }
        } else if o == SIDE_LEFT || o == SIDE_RIGHT {
            Gain::Half
        } else {
            Gain::Zero
        }
    } else if has_channel(outm, FRONT_LEFT) {
        if o == FRONT_LEFT || o == FRONT_RIGHT {
            Gain::Half
        } else if has_channel(outm, BACK_LEFT) {
            if o == BACK_LEFT || o == BACK_RIGHT {
                Gain::Half
            } else {
                Gain::Zero
            }
        } else if has_channel(outm, SIDE_LEFT) && (o == SIDE_LEFT || o == SIDE_RIGHT) {
            Gain::Half
        } else {
            Gain::Zero
        }
    } else if has_channel(outm, FRONT_CENTER) && o == FRONT_CENTER {
        Gain::Half
    } else {
        Gain::Zero
    }
}

fn from_bottom_front_center_exec(outm: u64, o: u32) -> (r: Gain)
    ensures
        r == from_bottom_front_center(outm, o),
{
    if has_channel(outm, FRONT_CENTER) {
        if o == FRONT_CENTER {
            Gain::One
        } else {
            Gain::Zero
        }
    } else if has_channel(outm, FRONT_LEFT) && (o == FRONT_LEFT || o == FRONT_RIGHT) {
        Gain::Clev
    } else {
        Gain::Zero
    }
}

fn from_bottom_front_pair_exec(outm: u64, o: u32, right: bool) -> (r: Gain)
    ensures
        r == from_bottom_front_pair(outm, o, right),
{
    if has_channel(outm, BOTTOM_FRONT_CENTER) {
        if o == BOTTOM_FRONT_CENTER {
            Gain::Sqrt1_2
        } else {
            Gain::Zero
        }
    } else if has_channel(outm, FRONT_LEFT) {
        if o == side_exec(right, FRONT_LEFT, FRONT_RIGHT) {
            Gain::One
        } else {
            Gain::Zero
        }
    } else if has_channel(outm, FRONT_CENTER) && o == FRONT_CENTER {
        Gain::Sqrt1_2
    } else {
        Gain::Zero
    }
}

fn from_low_frequency_exec(outm: u64, o: u32) -> (r: Gain)
    ensures
        r == from_low_frequency(outm, o),
{
    if has_channel(outm, FRONT_CENTER) {
        if o == FRONT_CENTER {
            Gain::Lfe
        } else {
            Gain::Zero
        }
    } else if has_channel(outm, FRONT_LEFT) && (o == FRONT_LEFT || o == FRONT_RIGHT) {
        Gain::LfeSqrt1_2
    } else {
        Gain::Zero
    }
}

fn from_low_frequency_2_exec(outm: u64, o: u32) -> (r: Gain)
    ensures
        r == from_low_frequency_2(outm, o),
{
    if has_channel(outm, LOW_FREQUENCY) {
        if o == LOW_FREQUENCY {
            Gain::Sqrt1_2
        } else {
            Gain::Zero
        }
    } else {
        from_low_frequency_exec(outm, o)
    }
}

fn folded_exec(inm: u64, outm: u64, enc: MatrixEncoding, o: u32, i: u32) -> (r: Gain)
    ensures
        r == folded(inm, outm, enc, o, i),
{
    if i == FRONT_CENTER {
        from_front_center_exec(inm, outm, o)
    } else if i == FRONT_LEFT || i == FRONT_RIGHT {
        from_front_pair_exec(outm, o)
    } else if i == BACK_CENTER {
        from_back_center_exec(inm, outm, enc, o)
    } else if i == BACK_LEFT {
        from_back_pair_exec(inm, outm, enc, o, false)
    } else if i == BACK_RIGHT {
        from_back_pair_exec(inm, outm, enc, o, true)
    } else if i == SIDE_LEFT {
        from_side_pair_exec(inm, outm, enc, o, false)
    } else if i == SIDE_RIGHT {
        from_side_pair_exec(inm, outm, enc, o, true)
    } else if i == FRONT_LEFT_OF_CENTER {
        from_front_of_center_exec(outm, o, false)
    } else if i == FRONT_RIGHT_OF_CENTER {
        from_front_of_center_exec(outm, o, true)
    } else if i == TOP_FRONT_LEFT {
        from_top_front_pair_exec(outm, o, false)
    } else if i == TOP_FRONT_RIGHT {
        from_top_front_pair_exec(outm, o, true)
    } else if i == TOP_FRONT_CENTER {
        from_top_front_center_exec(outm, o)
    } else if i == TOP_BACK_LEFT {
        from_top_back_pair_exec(outm, o, false)
    } else if i == TOP_BACK_RIGHT {
        from_top_back_pair_exec(outm, o, true)
    } else if i == TOP_BACK_CENTER {
        from_top_back_center_exec(outm, o)
    } else if i == TOP_SIDE_LEFT {
        from_top_side_pair_exec(outm, o, false)
    } else if i == TOP_SIDE_RIGHT {
        from_top_side_pair_exec(outm, o, true)
    } else if i == TOP_CENTER {
        from_top_center_exec(outm, o)
    } else if i == BOTTOM_FRONT_CENTER {
        from_bottom_front_center_exec(outm, o)
    } else if i == BOTTOM_FRONT_LEFT {
        from_bottom_front_pair_exec(outm, o, false)
    } else if i == BOTTOM_FRONT_RIGHT {
        from_bottom_front_pair_exec(outm, o, true)
    } else if i == LOW_FREQUENCY {
        from_low_frequency_exec(outm, o)
    } else if i == LOW_FREQUENCY_2 {
        from_low_frequency_2_exec(outm, o)
    } else {
        Gain::Zero
    }
}

fn kept_exec(inm: u64, outm: u64, o: u32) -> (r: Gain)
    ensures
        r == kept(inm, outm, o),
{
    if o == FRONT_CENTER && (lost_exec(inm, outm, FRONT_LEFT) || lost_exec(inm, outm, FRONT_RIGHT)) {
        Gain::ClevSqrt2
    } else if o == TOP_FRONT_CENTER && lost_exec(inm, outm, TOP_FRONT_LEFT) {
        Gain::ClevSqrt2
    } else if o == BOTTOM_FRONT_CENTER && lost_exec(inm, outm, BOTTOM_FRONT_LEFT) {
        Gain::ClevSqrt2
    } else {
        Gain::One
    }
}

pub fn mix_gain_exec(inm: u64, outm: u64, enc: MatrixEncoding, o: u32, i: u32) -> (r: Gain)
    requires
        o < 64,
        i < 64,
    ensures
        r == mix_gain(inm, outm, enc, o, i),
{
    if !has_channel(inm, i) || !has_channel(outm, o) {
        Gain::Zero
    } else if has_channel(outm, i) {
        if o == i {
            kept_exec(inm, outm, o)
        } else {
            Gain::Zero
        }
    } else {
        folded_exec(inm, outm, enc, o, i)
    }
}

/// The three user levels of a mix.
#[derive(Clone, Copy, Debug, PartialEq, Eq, Structural)]
pub struct Levels {
    pub clev: F64,
    pub slev: F64,
    pub lfe: F64,
}

/// `sqrt(1/2)`, nearest double.
pub const SQRT1_2_BITS: u64 = 0x3FE6A09E667F3BCD;

/// `sqrt(1/3)`, nearest double.
pub const SQRT1_3_BITS: u64 = 0x3FE279A74590331C;

/// `sqrt(2/3)`, nearest double.
pub const SQRT2_3_BITS: u64 = 0x3FEA20BD700C2C3E;

/// `sqrt(3/2)`, nearest double.
pub const SQRT3_2_BITS: u64 = 0x3FF3988E1409212E;

/// `sqrt(2)`, nearest double.
pub const SQRT_2_BITS: u64 = 0x3FF6A09E667F3BCD;

/// 1.
pub const ONE_BITS: u64 = 0x3FF0000000000000;

/// One half.
pub const HALF_BITS: u64 = 0x3FE0000000000000;

pub open spec fn num(bits: u64) -> F64 {
    F64 { bits }
}

/// The number that a gain stands for. Gains are accumulated onto zero, so none
/// of them is a negative zero.
pub open spec fn gain_value(g: Gain, l: Levels) -> F64 {
    let zero = num(0);
    let s12 = num(SQRT1_2_BITS);
    match g {
        Gain::Zero => zero,
        Gain::One => num(ONE_BITS),
        Gain::Half => num(HALF_BITS),
        Gain::Sqrt1_2 => s12,
        Gain::Sqrt1_3 => num(SQRT1_3_BITS),
        Gain::Sqrt2_3 => num(SQRT2_3_BITS),
        Gain::Clev => zero.s_plus(l.clev),
        Gain::ClevSqrt2 => l.clev.s_times(num(SQRT_2_BITS)),
        Gain::Slev => zero.s_plus(l.slev),
        Gain::NegSlev => zero.s_minus(l.slev),
        Gain::SlevSqrt1_2 => zero.s_plus(l.slev.s_times(s12)),
        Gain::NegSlevSqrt1_2 => zero.s_minus(l.slev.s_times(s12)),
        Gain::SlevSqrt3_2 => zero.s_plus(l.slev.s_times(num(SQRT3_2_BITS))),
        Gain::NegSlevSqrt3_2 => zero.s_minus(l.slev.s_times(num(SQRT3_2_BITS))),
        Gain::Lfe => zero.s_plus(l.lfe),
        Gain::LfeSqrt1_2 => zero.s_plus(l.lfe.s_times(s12)),
    }
}

pub fn gain_value_exec(g: Gain, l: Levels) -> (r: F64)
    ensures
        r == gain_value(g, l),
{
    let zero = F64 { bits: 0 };
    let s12 = F64 { bits: SQRT1_2_BITS };
    let s32 = F64 { bits: SQRT3_2_BITS };
    match g {
        Gain::Zero => zero,
        Gain::One => F64 { bits: ONE_BITS },
        Gain::Half => F64 { bits: HALF_BITS },
        Gain::Sqrt1_2 => s12,
        Gain::Sqrt1_3 => F64 { bits: SQRT1_3_BITS },
        Gain::Sqrt2_3 => F64 { bits: SQRT2_3_BITS },
        Gain::Clev => zero.plus(l.clev),
        Gain::ClevSqrt2 => l.clev.times(F64 { bits: SQRT_2_BITS }),
        Gain::Slev => zero.plus(l.slev),
        Gain::NegSlev => zero.minus(l.slev),
        Gain::SlevSqrt1_2 => zero.plus(l.slev.times(s12)),
        Gain::NegSlevSqrt1_2 => zero.minus(l.slev.times(s12)),
        Gain::SlevSqrt3_2 => zero.plus(l.slev.times(s32)),
        Gain::NegSlevSqrt3_2 => zero.minus(l.slev.times(s32)),
        Gain::Lfe => zero.plus(l.lfe),
        Gain::LfeSqrt1_2 => zero.plus(l.lfe.times(s12)),
    }
}

/// Between the same speakers every channel is passed on as it is, and to no other.
pub proof fn lemma_same_speakers(mask: u64, enc: MatrixEncoding, o: u32, i: u32)
    requires
        in_mask(mask, o),
        in_mask(mask, i),
    ensures
        mix_gain(mask, mask, enc, o, i) == (if o == i {
            Gain::One
        } else {
            Gain::Zero
        }),
{
}

} // verus!
