//! What holds of a mix whatever the speakers are: sides stay apart, and nothing
//! gets lost.
use crate::channel_layout;
use crate::channel_layout::{
    ChannelLayout, BACK_CENTER, BACK_LEFT, BACK_RIGHT, BOTTOM_FRONT_CENTER, BOTTOM_FRONT_LEFT,
    BOTTOM_FRONT_RIGHT, FRONT_CENTER, FRONT_LEFT, FRONT_LEFT_OF_CENTER, FRONT_RIGHT,
    FRONT_RIGHT_OF_CENTER, LOW_FREQUENCY, LOW_FREQUENCY_2, SIDE_LEFT, SIDE_RIGHT, TOP_BACK_CENTER,
    TOP_BACK_LEFT, TOP_BACK_RIGHT, TOP_CENTER, TOP_FRONT_CENTER, TOP_FRONT_LEFT, TOP_FRONT_RIGHT,
    TOP_SIDE_LEFT, TOP_SIDE_RIGHT,
};
use crate::mixtable::{in_mask, mix_gain, Gain, MatrixEncoding};
use crate::rematrix;
use vstd::prelude::*;

verus! {

/// A speaker on the left of the listener.
pub open spec fn on_left(id: u32) -> bool {
    id == FRONT_LEFT || id == BACK_LEFT || id == FRONT_LEFT_OF_CENTER || id == SIDE_LEFT || id
        == TOP_FRONT_LEFT || id == TOP_BACK_LEFT || id == TOP_SIDE_LEFT || id == BOTTOM_FRONT_LEFT
}

/// The speaker at the same place on the other side. One in the middle is its own.
pub open spec fn across(id: u32) -> u32 {
    if id == FRONT_LEFT {
        FRONT_RIGHT
    } else if id == FRONT_RIGHT {
        FRONT_LEFT
    } else if id == BACK_LEFT {
        BACK_RIGHT
    } else if id == BACK_RIGHT {
        BACK_LEFT
    } else if id == FRONT_LEFT_OF_CENTER {
        FRONT_RIGHT_OF_CENTER
    } else if id == FRONT_RIGHT_OF_CENTER {
        FRONT_LEFT_OF_CENTER
    } else if id == SIDE_LEFT {
        SIDE_RIGHT
    } else if id == SIDE_RIGHT {
        SIDE_LEFT
    } else if id == TOP_FRONT_LEFT {
        TOP_FRONT_RIGHT
    } else if id == TOP_FRONT_RIGHT {
        TOP_FRONT_LEFT
    } else if id == TOP_BACK_LEFT {
        TOP_BACK_RIGHT
    } else if id == TOP_BACK_RIGHT {
        TOP_BACK_LEFT
    } else if id == TOP_SIDE_LEFT {
        TOP_SIDE_RIGHT
    } else if id == TOP_SIDE_RIGHT {
        TOP_SIDE_LEFT
    } else if id == BOTTOM_FRONT_LEFT {
        BOTTOM_FRONT_RIGHT
    } else if id == BOTTOM_FRONT_RIGHT {
        BOTTOM_FRONT_LEFT
    } else {
        id
    }
}

/// A speaker on the right.
pub open spec fn on_right(id: u32) -> bool {
    on_left(across(id))
}

/// A speaker whose sound other speakers can take over.
pub open spec fn placed(id: u32) -> bool {
    ||| on_left(id)
    ||| on_right(id)
    ||| id == FRONT_CENTER
    ||| id == BACK_CENTER
    ||| id == TOP_CENTER
    ||| id == TOP_FRONT_CENTER
    ||| id == TOP_BACK_CENTER
    ||| id == BOTTOM_FRONT_CENTER
    ||| id == LOW_FREQUENCY
    ||| id == LOW_FREQUENCY_2
}

/// The mix carries a surround in the phase of the front pair.
pub open spec fn phased(enc: MatrixEncoding) -> bool {
    enc == MatrixEncoding::Dolby || enc == MatrixEncoding::Dplii
}

/// What is on the left stays out of the speakers on the right, and the other way
/// round.
pub proof fn lemma_sides_apart(inm: u64, outm: u64, enc: MatrixEncoding, o: u32, i: u32)
    requires
        !phased(enc),
        on_left(i) && on_right(o) || on_right(i) && on_left(o),
    ensures
        mix_gain(inm, outm, enc, o, i) == Gain::Zero,
{
}

/// With left and right exchanged in both layouts the mix is the same.
pub proof fn lemma_sides_alike(
    a: ChannelLayout,
    b: ChannelLayout,
    enc: MatrixEncoding,
    o: u32,
    i: u32,
)
    requires
        rematrix::sane(a),
        rematrix::sane(b),
        !phased(enc),
    ensures
        mix_gain(a.mask, b.mask, enc, across(o), across(i)) == mix_gain(a.mask, b.mask, enc, o, i),
{
    lemma_across(a, o);
    lemma_across(a, i);
    lemma_across(b, o);
    lemma_across(b, i);
}

proof fn lemma_across(l: ChannelLayout, id: u32)
    requires
        rematrix::sane(l),
    ensures
        in_mask(l.mask, across(id)) == in_mask(l.mask, id),
{
}

/// A speaker of the input is heard: at its own place, if the output has a speaker
/// there, and otherwise somewhere on its side or in the middle.
pub proof fn lemma_heard(a: ChannelLayout, b: ChannelLayout, enc: MatrixEncoding, i: u32) -> (o: u32)
    requires
        rematrix::sane(b),
        placed(i),
        in_mask(a.mask, i),
    ensures
        in_mask(b.mask, o),
        mix_gain(a.mask, b.mask, enc, o, i) != Gain::Zero,
        in_mask(b.mask, i) ==> o == i,
        !phased(enc) && on_left(i) ==> !on_right(o),
        !phased(enc) && on_right(i) ==> !on_left(o),
{
    let m = b.mask;
    let near = in_mask(m, FRONT_LEFT);
    let left = on_left(i) || !on_right(i);
    if in_mask(m, i) {
        i
    } else if i == LOW_FREQUENCY_2 && in_mask(m, LOW_FREQUENCY) {
        LOW_FREQUENCY
    } else if i == FRONT_LEFT || i == FRONT_RIGHT {
        FRONT_CENTER
    } else if i == FRONT_CENTER {
        FRONT_LEFT
    } else if i == LOW_FREQUENCY || i == LOW_FREQUENCY_2 || i == BOTTOM_FRONT_CENTER {
        if in_mask(m, FRONT_CENTER) {
            FRONT_CENTER
        } else {
            FRONT_LEFT
        }
    } else if i == TOP_FRONT_CENTER {
        if in_mask(m, TOP_FRONT_LEFT) {
            TOP_FRONT_LEFT
        } else if in_mask(m, FRONT_CENTER) {
            FRONT_CENTER
        } else {
            FRONT_LEFT
        }
    } else if i == BACK_CENTER {
        if in_mask(m, BACK_LEFT) {
            BACK_LEFT
        } else if in_mask(m, SIDE_LEFT) {
            SIDE_LEFT
        } else if near {
            FRONT_LEFT
        } else {
            FRONT_CENTER
        }
    } else if i == TOP_BACK_CENTER {
        if in_mask(m, TOP_BACK_LEFT) {
            TOP_BACK_LEFT
        } else if in_mask(m, BACK_LEFT) {
            BACK_LEFT
        } else if in_mask(m, SIDE_LEFT) {
            SIDE_LEFT
        } else if near {
            FRONT_LEFT
        } else {
            FRONT_CENTER
        }
    } else if i == TOP_CENTER {
        if in_mask(m, TOP_FRONT_LEFT) && (in_mask(m, TOP_BACK_LEFT) || in_mask(m, TOP_BACK_CENTER)
            || in_mask(m, BACK_LEFT) || in_mask(m, SIDE_LEFT)) {
            TOP_FRONT_LEFT
        } else if near {
            FRONT_LEFT
        } else {
            FRONT_CENTER
        }
    } else {
        let c = |l: u32| if left { l } else { across(l) };
        if i == BACK_LEFT || i == BACK_RIGHT {
            if in_mask(m, BACK_CENTER) {
                BACK_CENTER
            } else if in_mask(m, SIDE_LEFT) {
                c(SIDE_LEFT)
            } else if near {
                c(FRONT_LEFT)
            } else {
                FRONT_CENTER
            }
        } else if i == SIDE_LEFT || i == SIDE_RIGHT {
            if in_mask(m, BACK_LEFT) {
                c(BACK_LEFT)
            } else if in_mask(m, BACK_CENTER) {
                BACK_CENTER
            } else if near {
                c(FRONT_LEFT)
            } else {
                FRONT_CENTER
            }
        } else if i == TOP_FRONT_LEFT || i == TOP_FRONT_RIGHT {
            if in_mask(m, TOP_FRONT_CENTER) {
                TOP_FRONT_CENTER
            } else if near {
                c(FRONT_LEFT)
            } else {
                FRONT_CENTER
            }
        } else if i == TOP_BACK_LEFT || i == TOP_BACK_RIGHT {
            if in_mask(m, TOP_BACK_CENTER) {
                TOP_BACK_CENTER
            } else if in_mask(m, TOP_FRONT_LEFT) {
                c(TOP_FRONT_LEFT)
            } else if in_mask(m, BACK_LEFT) {
                c(BACK_LEFT)
            } else if in_mask(m, SIDE_LEFT) {
                c(SIDE_LEFT)
            } else if near {
                c(FRONT_LEFT)
            } else {
                FRONT_CENTER
            }
        } else if i == TOP_SIDE_LEFT || i == TOP_SIDE_RIGHT {
            if in_mask(m, TOP_FRONT_LEFT) && (in_mask(m, TOP_BACK_LEFT) || in_mask(
                m,
                TOP_BACK_CENTER,
            ) || in_mask(m, BACK_LEFT) || in_mask(m, SIDE_LEFT)) {
                c(TOP_FRONT_LEFT)
            } else if in_mask(m, SIDE_LEFT) {
                c(SIDE_LEFT)
            } else if near {
                c(FRONT_LEFT)
            } else {
                FRONT_CENTER
            }
        } else if i == BOTTOM_FRONT_LEFT || i == BOTTOM_FRONT_RIGHT {
            if in_mask(m, BOTTOM_FRONT_CENTER) {
                BOTTOM_FRONT_CENTER
            } else if near {
                c(FRONT_LEFT)
            } else {
                FRONT_CENTER
            }
        } else {
            if near {
                c(FRONT_LEFT)
            } else {
                FRONT_CENTER
            }
        }
    }
}

/// How high a speaker is: above the listener, level, or below.
pub open spec fn height(id: u32) -> int {
    if id == TOP_CENTER || id == TOP_FRONT_LEFT || id == TOP_FRONT_CENTER || id == TOP_FRONT_RIGHT
        || id == TOP_BACK_LEFT || id == TOP_BACK_CENTER || id == TOP_BACK_RIGHT || id
        == TOP_SIDE_LEFT || id == TOP_SIDE_RIGHT {
        1
    } else if id == BOTTOM_FRONT_CENTER || id == BOTTOM_FRONT_LEFT || id == BOTTOM_FRONT_RIGHT {
        -1
    } else {
        0
    }
}

/// How far behind the front a speaker is.
pub open spec fn depth(id: u32) -> int {
    if id == BACK_LEFT || id == BACK_RIGHT || id == BACK_CENTER || id == TOP_BACK_LEFT || id
        == TOP_BACK_RIGHT || id == TOP_BACK_CENTER {
        2
    } else if id == SIDE_LEFT || id == SIDE_RIGHT || id == TOP_SIDE_LEFT || id == TOP_SIDE_RIGHT
        || id == TOP_CENTER {
        1
    } else {
        0
    }
}

/// What comes from behind or from the side goes to the front only where the output
/// has nothing behind or at the side.
pub proof fn lemma_front_is_last(
    inm: u64,
    b: ChannelLayout,
    enc: MatrixEncoding,
    o: u32,
    i: u32,
    other: u32,
)
    requires
        rematrix::sane(b),
        placed(i),
        height(i) == 0,
        depth(i) > 0,
        in_mask(b.mask, other),
        height(other) == 0,
        depth(other) > 0,
        depth(o) == 0,
    ensures
        mix_gain(inm, b.mask, enc, o, i) == Gain::Zero,
{
}

/// The gain is one of the user's surround level.
pub open spec fn is_surround(g: Gain) -> bool {
    ||| g == Gain::Slev
    ||| g == Gain::NegSlev
    ||| g == Gain::SlevSqrt1_2
    ||| g == Gain::NegSlevSqrt1_2
    ||| g == Gain::SlevSqrt3_2
    ||| g == Gain::NegSlevSqrt3_2
}

/// The gain is one of the user's center level.
pub open spec fn is_center(g: Gain) -> bool {
    g == Gain::Clev || g == Gain::ClevSqrt2
}

/// The gain is one of the user's low-frequency level.
pub open spec fn is_low(g: Gain) -> bool {
    g == Gain::Lfe || g == Gain::LfeSqrt1_2
}

/// Which of the user's levels a sound is mixed with: that of the surround, where it
/// comes from behind or from the side and goes to the front; that of the center,
/// where it comes from the front center; that of the low frequencies, where it is
/// one and goes to another speaker. Signs change in the left front speaker of a
/// phased mix alone.
pub proof fn lemma_levels(inm: u64, outm: u64, enc: MatrixEncoding, o: u32, i: u32)
    requires
        placed(i),
    ensures
        ({
            let g = mix_gain(inm, outm, enc, o, i);
            let low = i == LOW_FREQUENCY || i == LOW_FREQUENCY_2;
            &&& is_surround(g) ==> depth(i) > 0 && depth(o) == 0
            &&& g != Gain::Zero && height(i) == 0 && depth(i) > 0 && depth(o) == 0 ==> is_surround(g)
            &&& is_center(g) ==> across(i) == i && depth(i) == 0 && !low
            &&& is_low(g) ==> low
            &&& low && o != i && o != LOW_FREQUENCY && g != Gain::Zero ==> is_low(g)
            &&& g == Gain::NegSlev || g == Gain::NegSlevSqrt1_2 || g == Gain::NegSlevSqrt3_2
                ==> phased(enc) && o == FRONT_LEFT
            &&& phased(enc) && o == FRONT_LEFT && height(i) == 0 && is_surround(g) ==> g
                == Gain::NegSlev || g == Gain::NegSlevSqrt1_2 || g == Gain::NegSlevSqrt3_2
        }),
{
}

/// Power of a gain, of which 12 are the power of one; those of the user's levels are
/// not known.
pub open spec fn power(g: Gain) -> Option<int> {
    match g {
        Gain::Zero => Some(0),
        Gain::One => Some(12),
        Gain::Half => Some(3),
        Gain::Sqrt1_2 => Some(6),
        Gain::Sqrt1_3 => Some(4),
        Gain::Sqrt2_3 => Some(8),
        _ => None,
    }
}

/// No sound gets louder than it was by going to two speakers.
pub proof fn lemma_no_louder(inm: u64, outm: u64, enc: MatrixEncoding, o: u32, p: u32, i: u32)
    requires
        o != p,
    ensures
        ({
            let a = power(mix_gain(inm, outm, enc, o, i));
            let b = power(mix_gain(inm, outm, enc, p, i));
            a is Some && b is Some ==> a->0 + b->0 <= 12
        }),
{
}

/// What goes from behind to the side or from the side behind keeps all of its power,
/// or half of it where it meets a channel of the input there.
pub proof fn lemma_meets(a: ChannelLayout, b: ChannelLayout, enc: MatrixEncoding, o: u32, i: u32)
    requires
        rematrix::sane(a),
        rematrix::sane(b),
        height(i) == 0,
        height(o) == 0,
        depth(i) > 0,
        depth(o) > 0,
        on_left(i) || on_right(i),
        on_left(o) || on_right(o),
        i != o,
        mix_gain(a.mask, b.mask, enc, o, i) != Gain::Zero,
    ensures
        power(mix_gain(a.mask, b.mask, enc, o, i)) == Some(if in_mask(a.mask, o) {
            6int
        } else {
            12
        }),
{
}

/// The names of two speakers across from each other differ in their side alone.
pub proof fn lemma_sides_named(id: u32)
    requires
        on_left(id),
    ensures
        ({
            let a = channel_layout::channel_name(id);
            let b = channel_layout::channel_name(across(id));
            &&& a.len() == b.len()
            &&& exists|k: int| 0 <= k < a.len() && #[trigger] a[k] == 'L'
            &&& forall|k: int| 0 <= k < a.len() ==> #[trigger] b[k] == (if a[k] == 'L' {
                'R'
            } else {
                a[k]
            })
        }),
{
    reveal_strlit("FL");
    reveal_strlit("FR");
    reveal_strlit("BL");
    reveal_strlit("BR");
    reveal_strlit("FLC");
    reveal_strlit("FRC");
    reveal_strlit("SL");
    reveal_strlit("SR");
    reveal_strlit("TFL");
    reveal_strlit("TFR");
    reveal_strlit("TBL");
    reveal_strlit("TBR");
    reveal_strlit("TSL");
    reveal_strlit("TSR");
    reveal_strlit("BFL");
    reveal_strlit("BFR");
    let a = channel_layout::channel_name(id);
    if id == FRONT_LEFT || id == BACK_LEFT || id == SIDE_LEFT || id == FRONT_LEFT_OF_CENTER {
        assert(a[1] == 'L');
    } else {
        assert(a[2] == 'L');
    }
}

} // verus!
