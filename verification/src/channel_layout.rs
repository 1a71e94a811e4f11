//! Channel layouts: which speakers the channels of a stream belong to.
use crate::text;
use vstd::prelude::*;

verus! {

// Speaker positions; a layout's mask has the bit of each speaker it has.
pub const FRONT_LEFT: u32 = 0;
pub const FRONT_RIGHT: u32 = 1;
pub const FRONT_CENTER: u32 = 2;
pub const LOW_FREQUENCY: u32 = 3;
pub const BACK_LEFT: u32 = 4;
pub const BACK_RIGHT: u32 = 5;
pub const FRONT_LEFT_OF_CENTER: u32 = 6;
pub const FRONT_RIGHT_OF_CENTER: u32 = 7;
pub const BACK_CENTER: u32 = 8;
pub const SIDE_LEFT: u32 = 9;
pub const SIDE_RIGHT: u32 = 10;
pub const TOP_CENTER: u32 = 11;
pub const TOP_FRONT_LEFT: u32 = 12;
pub const TOP_FRONT_CENTER: u32 = 13;
pub const TOP_FRONT_RIGHT: u32 = 14;
pub const TOP_BACK_LEFT: u32 = 15;
pub const TOP_BACK_CENTER: u32 = 16;
pub const TOP_BACK_RIGHT: u32 = 17;
pub const STEREO_LEFT: u32 = 29;
pub const STEREO_RIGHT: u32 = 30;
pub const LOW_FREQUENCY_2: u32 = 35;
pub const TOP_SIDE_LEFT: u32 = 36;
pub const TOP_SIDE_RIGHT: u32 = 37;
pub const BOTTOM_FRONT_CENTER: u32 = 38;
pub const BOTTOM_FRONT_LEFT: u32 = 39;
pub const BOTTOM_FRONT_RIGHT: u32 = 40;

/// The front pair.
pub const MASK_STEREO: u64 = 0x3;
/// The front pair and the center.
pub const MASK_SURROUND: u64 = 0x7;
/// A stereo downmix.
pub const MASK_STEREO_DOWNMIX: u64 = 0x60000000;
/// 5.1 with side speakers.
pub const MASK_5POINT1: u64 = 0x60f;
/// 5.1 with back speakers.
pub const MASK_5POINT1_BACK: u64 = 0x3f;
/// 7.1.
pub const MASK_7POINT1: u64 = 0x63f;
/// 5.0 with back speakers.
pub const MASK_5POINT0_BACK: u64 = 0x37;
/// Quadraphonic.
pub const MASK_QUAD: u64 = 0x33;
/// 22.2.
pub const MASK_22POINT2: u64 = 0x1f80003ffff;
/// Front center alone.
pub const MASK_MONO: u64 = 0x4;

/// How the channels of a layout are identified.
#[derive(Clone, Copy, Debug, PartialEq, Eq, Structural, Hash)]
pub enum Order {
    /// Only their number is known.
    Unspecified,
    /// Each is one of the known speakers, in the order of their positions.
    Native,
}

/// The channels of a stream.
#[derive(Clone, Copy, Debug, PartialEq, Eq, Structural, Hash)]
pub struct ChannelLayout {
    pub order: Order,
    pub nb_channels: usize,
    /// The speakers, for the native order.
    pub mask: u64,
}

/// Whether speaker `id` is in the mask.
pub open spec fn in_mask(mask: u64, id: u32) -> bool {
    (mask >> id) & 1 == 1
}

/// Number of speakers in the mask with a position below `n`.
pub open spec fn count_below(mask: u64, n: nat) -> nat
    decreases n,
{
    if n == 0 {
        0
    } else {
        count_below(mask, (n - 1) as nat) + if in_mask(mask, (n - 1) as u32) {
            1nat
        } else {
            0nat
        }
    }
}

/// Positions that are not in a mask do not count.
pub(crate) proof fn lemma_count_rest(mask: u64, a: nat, b: nat)
    requires
        a <= b <= 64,
        forall|i: u32| a <= i < b ==> !#[trigger] in_mask(mask, i),
    ensures
        count_below(mask, b) == count_below(mask, a),
    decreases b,
{
    if a < b {
        lemma_count_rest(mask, a, (b - 1) as nat);
        assert(!in_mask(mask, (b - 1) as u32));
    }
}

/// The common masks hold one and two speakers.
proof fn lemma_common_masks()
    ensures
        count_below(MASK_MONO, 64) == 1,
        count_below(MASK_STEREO, 64) == 2,
        count_below(MASK_STEREO_DOWNMIX, 64) == 2,
{
    assert forall|i: u32| i < 64 implies (#[trigger] in_mask(MASK_MONO, i) <==> i == 2) by {
        assert(i < 64 ==> ((4u64 >> i) & 1 == 1) == (i == 2)) by (bit_vector);
    }
    assert forall|i: u32| i < 64 implies (#[trigger] in_mask(MASK_STEREO, i) <==> i < 2) by {
        assert(i < 64 ==> ((3u64 >> i) & 1 == 1) == (i < 2)) by (bit_vector);
    }
    assert forall|i: u32| i < 64 implies (#[trigger] in_mask(MASK_STEREO_DOWNMIX, i) <==> i == 29
        || i == 30) by {
        assert(i < 64 ==> ((0x6000_0000u64 >> i) & 1 == 1) == (i == 29 || i == 30))
            by (bit_vector);
    }
    lemma_count_rest(MASK_MONO, 0, 2);
    lemma_count_rest(MASK_MONO, 3, 64);
    lemma_count_rest(MASK_STEREO, 2, 64);
    lemma_count_rest(MASK_STEREO_DOWNMIX, 0, 29);
    lemma_count_rest(MASK_STEREO_DOWNMIX, 31, 64);
    reveal_with_fuel(count_below, 3);
}

/// No more positions are in a mask than there are.
pub(crate) proof fn lemma_count_bound(mask: u64, n: nat)
    ensures
        count_below(mask, n) <= n,
    decreases n,
{
    if n > 0 {
        lemma_count_bound(mask, (n - 1) as nat);
    }
}

pub fn has_channel(mask: u64, id: u32) -> (r: bool)
    requires
        id < 64,
    ensures
        r == in_mask(mask, id),
{
    (mask >> id) & 1 == 1
}

/// Number of speakers below position `n`.
pub fn count_channels(mask: u64, n: u32) -> (r: usize)
    requires
        n <= 64,
    ensures
        r == count_below(mask, n as nat),
        r <= n,
{
    let mut i: u32 = 0;
    let mut c: usize = 0;
    while i < n
        invariant
            i <= n <= 64,
            c == count_below(mask, i as nat),
            c <= i,
        decreases n - i,
    {
        if has_channel(mask, i) {
            c = c + 1;
        }
        i = i + 1;
    }
    c
}

/// Name of a well-known layout.
pub open spec fn layout_name(mask: u64) -> Option<Seq<char>> {
    if mask == 0x4 {
        Some("mono"@)
    } else if mask == 0x3 {
        Some("stereo"@)
    } else if mask == 0xb {
        Some("2.1"@)
    } else if mask == 0x7 {
        Some("3.0"@)
    } else if mask == 0x103 {
        Some("3.0(back)"@)
    } else if mask == 0x107 {
        Some("4.0"@)
    } else if mask == 0x33 {
        Some("quad"@)
    } else if mask == 0x603 {
        Some("quad(side)"@)
    } else if mask == 0xf {
        Some("3.1"@)
    } else if mask == 0x37 {
        Some("5.0"@)
    } else if mask == 0x607 {
        Some("5.0(side)"@)
    } else if mask == 0x10f {
        Some("4.1"@)
    } else if mask == 0x3f {
        Some("5.1"@)
    } else if mask == 0x60f {
        Some("5.1(side)"@)
    } else if mask == 0x707 {
        Some("6.0"@)
    } else if mask == 0x6c3 {
        Some("6.0(front)"@)
    } else if mask == 0x500f {
        Some("3.1.2"@)
    } else if mask == 0x137 {
        Some("hexagonal"@)
    } else if mask == 0x70f {
        Some("6.1"@)
    } else if mask == 0x13f {
        Some("6.1(back)"@)
    } else if mask == 0x6cb {
        Some("6.1(front)"@)
    } else if mask == 0x637 {
        Some("7.0"@)
    } else if mask == 0x6c7 {
        Some("7.0(front)"@)
    } else if mask == 0x63f {
        Some("7.1"@)
    } else if mask == 0xff {
        Some("7.1(wide)"@)
    } else if mask == 0x6cf {
        Some("7.1(wide-side)"@)
    } else if mask == 0x560f {
        Some("5.1.2"@)
    } else if mask == 0x503f {
        Some("5.1.2(back)"@)
    } else if mask == 0x737 {
        Some("octagonal"@)
    } else if mask == 0x2d033 {
        Some("cube"@)
    } else if mask == 0x2d03f {
        Some("5.1.4"@)
    } else if mask == 0x563f {
        Some("7.1.2"@)
    } else if mask == 0x2d63f {
        Some("7.1.4"@)
    } else if mask == 0x80001563f {
        Some("7.2.3"@)
    } else if mask == 0x2d6ff {
        Some("9.1.4"@)
    } else if mask == 0x300002d6ff {
        Some("9.1.6"@)
    } else if mask == 0x18003f737 {
        Some("hexadecagonal"@)
    } else if mask == 0x6000000000000000 {
        Some("binaural"@)
    } else if mask == 0x60000000 {
        Some("downmix"@)
    } else if mask == 0x1f80003ffff {
        Some("22.2"@)
    } else {
        None
    }
}

/// Speakers of the usual layout with `n` channels, 0 where there is none.
pub open spec fn usual_mask(n: nat) -> u64 {
    if n == 1 {
        0x4
    } else if n == 2 {
        0x3
    } else if n == 3 {
        0xb
    } else if n == 4 {
        0x107
    } else if n == 5 {
        0x37
    } else if n == 6 {
        0x3f
    } else if n == 7 {
        0x70f
    } else if n == 8 {
        0x63f
    } else if n == 10 {
        0x2d03f
    } else if n == 12 {
        0x2d63f
    } else if n == 14 {
        0x2d6ff
    } else if n == 16 {
        0x300002d6ff
    } else if n == 24 {
        0x1f80003ffff
    } else {
        0
    }
}

/// Abbreviation of a speaker position.
pub open spec fn channel_name(id: u32) -> Seq<char> {
    if id == 0 {
        "FL"@
    } else if id == 1 {
        "FR"@
    } else if id == 2 {
        "FC"@
    } else if id == 3 {
        "LFE"@
    } else if id == 4 {
        "BL"@
    } else if id == 5 {
        "BR"@
    } else if id == 6 {
        "FLC"@
    } else if id == 7 {
        "FRC"@
    } else if id == 8 {
        "BC"@
    } else if id == 9 {
        "SL"@
    } else if id == 10 {
        "SR"@
    } else if id == 11 {
        "TC"@
    } else if id == 12 {
        "TFL"@
    } else if id == 13 {
        "TFC"@
    } else if id == 14 {
        "TFR"@
    } else if id == 15 {
        "TBL"@
    } else if id == 16 {
        "TBC"@
    } else if id == 17 {
        "TBR"@
    } else if id == 29 {
        "DL"@
    } else if id == 30 {
        "DR"@
    } else if id == 31 {
        "WL"@
    } else if id == 32 {
        "WR"@
    } else if id == 33 {
        "SDL"@
    } else if id == 34 {
        "SDR"@
    } else if id == 35 {
        "LFE2"@
    } else if id == 36 {
        "TSL"@
    } else if id == 37 {
        "TSR"@
    } else if id == 38 {
        "BFC"@
    } else if id == 39 {
        "BFL"@
    } else if id == 40 {
        "BFR"@
    } else if id == 41 {
        "SSL"@
    } else if id == 42 {
        "SSR"@
    } else if id == 43 {
        "TTL"@
    } else if id == 44 {
        "TTR"@
    } else if id == 61 {
        "BIL"@
    } else if id == 62 {
        "BIR"@
    } else {
        "?"@
    }
}

fn layout_name_exec(mask: u64) -> (r: Option<&'static str>)
    ensures
        r.is_some() == layout_name(mask).is_some(),
        r matches Some(s) ==> s@ == layout_name(mask)->0,
{
    if mask == 0x4 {
        Some("mono")
    } else if mask == 0x3 {
        Some("stereo")
    } else if mask == 0xb {
        Some("2.1")
    } else if mask == 0x7 {
        Some("3.0")
    } else if mask == 0x103 {
        Some("3.0(back)")
    } else if mask == 0x107 {
        Some("4.0")
    } else if mask == 0x33 {
        Some("quad")
    } else if mask == 0x603 {
        Some("quad(side)")
    } else if mask == 0xf {
        Some("3.1")
    } else if mask == 0x37 {
        Some("5.0")
    } else if mask == 0x607 {
        Some("5.0(side)")
    } else if mask == 0x10f {
        Some("4.1")
    } else if mask == 0x3f {
        Some("5.1")
    } else if mask == 0x60f {
        Some("5.1(side)")
    } else if mask == 0x707 {
        Some("6.0")
    } else if mask == 0x6c3 {
        Some("6.0(front)")
    } else if mask == 0x500f {
        Some("3.1.2")
    } else if mask == 0x137 {
        Some("hexagonal")
    } else if mask == 0x70f {
        Some("6.1")
    } else if mask == 0x13f {
        Some("6.1(back)")
    } else if mask == 0x6cb {
        Some("6.1(front)")
    } else if mask == 0x637 {
        Some("7.0")
    } else if mask == 0x6c7 {
        Some("7.0(front)")
    } else if mask == 0x63f {
        Some("7.1")
    } else if mask == 0xff {
        Some("7.1(wide)")
    } else if mask == 0x6cf {
        Some("7.1(wide-side)")
    } else if mask == 0x560f {
        Some("5.1.2")
    } else if mask == 0x503f {
        Some("5.1.2(back)")
    } else if mask == 0x737 {
        Some("octagonal")
    } else if mask == 0x2d033 {
        Some("cube")
    } else if mask == 0x2d03f {
        Some("5.1.4")
    } else if mask == 0x563f {
        Some("7.1.2")
    } else if mask == 0x2d63f {
        Some("7.1.4")
    } else if mask == 0x80001563f {
        Some("7.2.3")
    } else if mask == 0x2d6ff {
        Some("9.1.4")
    } else if mask == 0x300002d6ff {
        Some("9.1.6")
    } else if mask == 0x18003f737 {
        Some("hexadecagonal")
    } else if mask == 0x6000000000000000 {
        Some("binaural")
    } else if mask == 0x60000000 {
        Some("downmix")
    } else if mask == 0x1f80003ffff {
        Some("22.2")
    } else {
        None
    }
}

fn usual_mask_exec(n: usize) -> (r: u64)
    ensures
        r == usual_mask(n as nat),
{
    if n == 1 {
        0x4
    } else if n == 2 {
        0x3
    } else if n == 3 {
        0xb
    } else if n == 4 {
        0x107
    } else if n == 5 {
        0x37
    } else if n == 6 {
        0x3f
    } else if n == 7 {
        0x70f
    } else if n == 8 {
        0x63f
    } else if n == 10 {
        0x2d03f
    } else if n == 12 {
        0x2d63f
    } else if n == 14 {
        0x2d6ff
    } else if n == 16 {
        0x300002d6ff
    } else if n == 24 {
        0x1f80003ffff
    } else {
        0
    }
}

fn channel_name_exec(id: u32) -> (r: &'static str)
    ensures
        r@ == channel_name(id),
{
    if id == 0 {
        "FL"
    } else if id == 1 {
        "FR"
    } else if id == 2 {
        "FC"
    } else if id == 3 {
        "LFE"
    } else if id == 4 {
        "BL"
    } else if id == 5 {
        "BR"
    } else if id == 6 {
        "FLC"
    } else if id == 7 {
        "FRC"
    } else if id == 8 {
        "BC"
    } else if id == 9 {
        "SL"
    } else if id == 10 {
        "SR"
    } else if id == 11 {
        "TC"
    } else if id == 12 {
        "TFL"
    } else if id == 13 {
        "TFC"
    } else if id == 14 {
        "TFR"
    } else if id == 15 {
        "TBL"
    } else if id == 16 {
        "TBC"
    } else if id == 17 {
        "TBR"
    } else if id == 29 {
        "DL"
    } else if id == 30 {
        "DR"
    } else if id == 31 {
        "WL"
    } else if id == 32 {
        "WR"
    } else if id == 33 {
        "SDL"
    } else if id == 34 {
        "SDR"
    } else if id == 35 {
        "LFE2"
    } else if id == 36 {
        "TSL"
    } else if id == 37 {
        "TSR"
    } else if id == 38 {
        "BFC"
    } else if id == 39 {
        "BFL"
    } else if id == 40 {
        "BFR"
    } else if id == 41 {
        "SSL"
    } else if id == 42 {
        "SSR"
    } else if id == 43 {
        "TTL"
    } else if id == 44 {
        "TTR"
    } else if id == 61 {
        "BIL"
    } else if id == 62 {
        "BIR"
    } else {
        "?"
    }
}

/// The names of the speakers below position `n`, joined by plus signs.
pub open spec fn joined_names(mask: u64, n: nat) -> Seq<char>
    decreases n,
{
    if n == 0 {
        ""@
    } else {
        let rest = joined_names(mask, (n - 1) as nat);
        if !in_mask(mask, (n - 1) as u32) {
            rest
        } else if count_below(mask, (n - 1) as nat) == 0 {
            rest + channel_name((n - 1) as u32)
        } else {
            rest + "+"@ + channel_name((n - 1) as u32)
        }
    }
}

impl ChannelLayout {
    pub open spec fn native(mask: u64) -> ChannelLayout {
        ChannelLayout { order: Order::Native, nb_channels: count_below(mask, 64) as usize, mask }
    }

    pub open spec fn unset() -> ChannelLayout {
        ChannelLayout { order: Order::Unspecified, nb_channels: 0, mask: 0 }
    }

    pub open spec fn spec_mono() -> ChannelLayout {
        ChannelLayout { order: Order::Native, nb_channels: 1, mask: MASK_MONO }
    }

    pub open spec fn spec_stereo() -> ChannelLayout {
        ChannelLayout { order: Order::Native, nb_channels: 2, mask: MASK_STEREO }
    }

    pub open spec fn spec_stereo_downmix() -> ChannelLayout {
        ChannelLayout { order: Order::Native, nb_channels: 2, mask: MASK_STEREO_DOWNMIX }
    }

    /// There is a channel, and a native layout has one channel per speaker.
    pub open spec fn valid(self) -> bool {
        &&& self.nb_channels > 0
        &&& self.order == Order::Native ==> count_below(self.mask, 64) == self.nb_channels
    }

    /// The speakers that the layout names.
    pub open spec fn speakers(self) -> u64 {
        match self.order {
            Order::Native => self.mask,
            Order::Unspecified => 0,
        }
    }

    /// The usual layout for a number of channels.
    pub open spec fn usual(n: nat) -> ChannelLayout {
        if usual_mask(n) != 0 {
            ChannelLayout { order: Order::Native, nb_channels: n as usize, mask: usual_mask(n) }
        } else {
            ChannelLayout { order: Order::Unspecified, nb_channels: n as usize, mask: 0 }
        }
    }

    /// What the layout is called.
    pub open spec fn description(self) -> Seq<char> {
        let count = text::decimal(self.nb_channels as nat) + " channels"@;
        match self.order {
            Order::Unspecified => count,
            Order::Native => match layout_name(self.mask) {
                Some(n) => n,
                None => count + " ("@ + joined_names(self.mask, 64) + ")"@,
            },
        }
    }

    /// Place of speaker `id` among the channels.
    pub open spec fn index_of(self, id: u32) -> Option<nat> {
        if self.order == Order::Native && in_mask(self.mask, id) {
            Some(count_below(self.mask, id as nat))
        } else {
            None
        }
    }

    pub fn mono() -> (r: ChannelLayout)
        ensures
            r == ChannelLayout::spec_mono(),
            r.valid(),
    {
        proof {
            lemma_common_masks();
        }
        ChannelLayout { order: Order::Native, nb_channels: 1, mask: MASK_MONO }
    }

    pub fn stereo() -> (r: ChannelLayout)
        ensures
            r == ChannelLayout::spec_stereo(),
            r.valid(),
    {
        proof {
            lemma_common_masks();
        }
        ChannelLayout { order: Order::Native, nb_channels: 2, mask: MASK_STEREO }
    }

    pub fn stereo_downmix() -> (r: ChannelLayout)
        ensures
            r == ChannelLayout::spec_stereo_downmix(),
            r.valid(),
    {
        proof {
            lemma_common_masks();
        }
        ChannelLayout { order: Order::Native, nb_channels: 2, mask: MASK_STEREO_DOWNMIX }
    }

    /// A layout without channels.
    pub fn none() -> (r: ChannelLayout)
        ensures
            r == ChannelLayout::unset(),
    {
        ChannelLayout { order: Order::Unspecified, nb_channels: 0, mask: 0 }
    }

    /// `n` channels of unknown position.
    pub fn unspecified(n: usize) -> (r: ChannelLayout)
        ensures
            r.order == Order::Unspecified,
            r.nb_channels == n,
            r.mask == 0,
    {
        ChannelLayout { order: Order::Unspecified, nb_channels: n, mask: 0 }
    }

    /// The native layout with the given speakers; there must be one.
    pub fn from_mask(mask: u64) -> (r: Option<ChannelLayout>)
        ensures
            r.is_some() == (mask != 0),
            r matches Some(l) ==> l == ChannelLayout::native(mask),
    {
        if mask == 0 {
            None
        } else {
            Some(
                ChannelLayout {
                    order: Order::Native,
                    nb_channels: count_channels(mask, 64),
                    mask,
                },
            )
        }
    }

    /// The usual layout for a number of channels.
    pub fn default_for(n: usize) -> (r: ChannelLayout)
        ensures
            r == ChannelLayout::usual(n as nat),
    {
        let m: u64 = usual_mask_exec(n);
        if m != 0 {
            ChannelLayout { order: Order::Native, nb_channels: n, mask: m }
        } else {
            ChannelLayout { order: Order::Unspecified, nb_channels: n, mask: 0 }
        }
    }

    pub fn check(&self) -> (r: bool)
        ensures
            r == self.valid(),
    {
        if self.nb_channels == 0 {
            return false;
        }
        match self.order {
            Order::Unspecified => true,
            Order::Native => count_channels(self.mask, 64) == self.nb_channels,
        }
    }

    /// The named speakers among those of `mask`.
    pub fn subset(&self, mask: u64) -> (r: u64)
        ensures
            r == self.speakers() & mask,
    {
        match self.order {
            Order::Native => self.mask & mask,
            Order::Unspecified => {
                assert(0u64 & mask == 0) by (bit_vector);
                0
            },
        }
    }

    /// Place of speaker `id` among the channels.
    pub fn index_from_channel(&self, id: u32) -> (r: Option<usize>)
        requires
            id < 64,
        ensures
            r.is_some() == self.index_of(id).is_some(),
            r matches Some(i) ==> i == self.index_of(id)->0,
    {
        match self.order {
            Order::Unspecified => None,
            Order::Native => if has_channel(self.mask, id) {
                Some(count_channels(self.mask, id))
            } else {
                None
            },
        }
    }

    /// What the layout is called.
    pub fn describe(&self) -> (r: String)
        ensures
            r@ == self.description(),
    {
        match self.order {
            Order::Unspecified => {},
            Order::Native => {
                if let Some(n) = layout_name_exec(self.mask) {
                    return n.to_owned();
                }
            },
        }
        let mut s: String = "".to_owned();
        proof {
            reveal_strlit("");
        }
        text::push_decimal(&mut s, self.nb_channels as u64);
        s.append(" channels");
        assert(s@ =~= text::decimal(self.nb_channels as nat) + " channels"@);
        match self.order {
            Order::Unspecified => s,
            Order::Native => {
                s.append(" (");
                let ghost head = s@;
                let mut first: bool = true;
                let mut i: u32 = 0;
                while i < 64
                    invariant
                        i <= 64,
                        first == (count_below(self.mask, i as nat) == 0),
                        s@ == head + joined_names(self.mask, i as nat),
                    decreases 64 - i,
                {
                    if has_channel(self.mask, i) {
                        if !first {
                            s.append("+");
                        }
                        s.append(channel_name_exec(i));
                        first = false;
                    }
                    i = i + 1;
                }
                s.append(")");
                s
            },
        }
    }
}

impl Default for ChannelLayout {
    /// A layout without channels.
    fn default() -> (r: ChannelLayout)
        ensures
            r == ChannelLayout::unset(),
    {
        ChannelLayout::none()
    }
}

} // verus!
