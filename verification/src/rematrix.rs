//! Channel mixing: building the mixing matrix and applying it.
use crate::arith;
use crate::arith::Arith;
use crate::audio::{AudioData, Planes, SWR_CH_MAX};
use crate::channel_layout;
use crate::channel_layout::{
    count_channels, has_channel, ChannelLayout, Order, BACK_LEFT, BACK_RIGHT, BOTTOM_FRONT_LEFT,
    BOTTOM_FRONT_RIGHT, FRONT_CENTER, FRONT_LEFT, FRONT_LEFT_OF_CENTER, FRONT_RIGHT,
    FRONT_RIGHT_OF_CENTER, MASK_5POINT1, MASK_5POINT1_BACK, MASK_7POINT1, MASK_STEREO_DOWNMIX, SIDE_LEFT, SIDE_RIGHT, TOP_BACK_LEFT,
    TOP_BACK_RIGHT, TOP_FRONT_LEFT, TOP_FRONT_RIGHT, TOP_SIDE_LEFT, TOP_SIDE_RIGHT,
};
use crate::error::{invalid, Error};
use crate::float;
use crate::float::{F32, F64};
use crate::mixtable;
use crate::mixtable::{
    gain_value_exec, mix_gain_exec, Levels, MatrixEncoding, ONE_BITS, SQRT1_2_BITS,
};
use crate::samplefmt::SampleFormat;
use vstd::arithmetic::mul::*;
use vstd::arithmetic::power2::*;
use vstd::prelude::*;

verus! {

/// Cells of a full matrix.
pub const MATRIX_CELLS: usize = 4096;

// --- layouts that can be mixed ---------------------------------------------------

/// Whether the mask does not have exactly one bit.
pub fn even(layout_mask: u64) -> (r: bool)
    ensures
        r == (channel_layout::count_below(layout_mask, 64) != 1),
{
    count_channels(layout_mask, 64) != 1
}

pub open spec fn in_mask(mask: u64, id: u32) -> bool {
    channel_layout::in_mask(mask, id)
}

/// Both speakers of a pair or neither.
pub open spec fn balanced(mask: u64, l: u32, r: u32) -> bool {
    in_mask(mask, l) == in_mask(mask, r)
}

/// A layout that the mixer can handle: fewer than 64 known speakers, one of
/// them in front, and no half of a left/right pair.
pub open spec fn sane(l: ChannelLayout) -> bool {
    &&& l.nb_channels < 64
    &&& l.order == Order::Native
    &&& in_mask(l.mask, FRONT_LEFT) || in_mask(l.mask, FRONT_RIGHT) || in_mask(l.mask, FRONT_CENTER)
    &&& balanced(l.mask, FRONT_LEFT, FRONT_RIGHT)
    &&& balanced(l.mask, SIDE_LEFT, SIDE_RIGHT)
    &&& balanced(l.mask, BACK_LEFT, BACK_RIGHT)
    &&& balanced(l.mask, FRONT_LEFT_OF_CENTER, FRONT_RIGHT_OF_CENTER)
    &&& balanced(l.mask, TOP_FRONT_LEFT, TOP_FRONT_RIGHT)
    &&& balanced(l.mask, TOP_BACK_LEFT, TOP_BACK_RIGHT)
    &&& balanced(l.mask, TOP_SIDE_LEFT, TOP_SIDE_RIGHT)
    &&& balanced(l.mask, BOTTOM_FRONT_LEFT, BOTTOM_FRONT_RIGHT)
}

proof fn lemma_pair_bit(mask: u64, pair: u64, l: u32, r: u32, k: u32)
    by (bit_vector)
    requires
        l < 64,
        r < 64,
        k < 64,
        pair == (1u64 << l) | (1u64 << r),
    ensures
        ((mask & pair) >> k) & 1 == (if k == l || k == r {
            (mask >> k) & 1
        } else {
            0
        }),
{
}

proof fn lemma_pair_count(mask: u64, pair: u64, l: u32, r: u32, n: nat)
    requires
        l < 64,
        r < 64,
        l != r,
        n <= 64,
        pair == (1u64 << l) | (1u64 << r),
    ensures
        channel_layout::count_below(mask & pair, n) == (if l < n && in_mask(mask, l) {
            1nat
        } else {
            0nat
        }) + (if r < n && in_mask(mask, r) {
            1nat
        } else {
            0nat
        }),
    decreases n,
{
    if n > 0 {
        lemma_pair_count(mask, pair, l, r, (n - 1) as nat);
        lemma_pair_bit(mask, pair, l, r, (n - 1) as u32);
    }
}

fn pair_is_even(mask: u64, l: u32, r: u32) -> (b: bool)
    requires
        l < 64,
        r < 64,
        l != r,
    ensures
        b == balanced(mask, l, r),
{
    let pair: u64 = (1u64 << l) | (1u64 << r);
    proof {
        lemma_pair_count(mask, pair, l, r, 64);
    }
    even(mask & pair)
}

/// Whether the mixer can handle a layout.
pub fn sane_layout(ch_layout: &ChannelLayout) -> (r: bool)
    ensures
        r == sane(*ch_layout),
{
    if ch_layout.nb_channels >= SWR_CH_MAX {
        return false;
    }
    match ch_layout.order {
        Order::Unspecified => {
            return false;
        },
        Order::Native => {},
    }
    let mask: u64 = ch_layout.mask;
    if !has_channel(mask, FRONT_LEFT) && !has_channel(mask, FRONT_RIGHT) && !has_channel(
        mask,
        FRONT_CENTER,
    ) {
        return false;
    }
    pair_is_even(mask, FRONT_LEFT, FRONT_RIGHT) && pair_is_even(mask, SIDE_LEFT, SIDE_RIGHT)
        && pair_is_even(mask, BACK_LEFT, BACK_RIGHT) && pair_is_even(
        mask,
        FRONT_LEFT_OF_CENTER,
        FRONT_RIGHT_OF_CENTER,
    ) && pair_is_even(mask, TOP_FRONT_LEFT, TOP_FRONT_RIGHT) && pair_is_even(
        mask,
        TOP_BACK_LEFT,
        TOP_BACK_RIGHT,
    ) && pair_is_even(mask, TOP_SIDE_LEFT, TOP_SIDE_RIGHT) && pair_is_even(
        mask,
        BOTTOM_FRONT_LEFT,
        BOTTOM_FRONT_RIGHT,
    )
}

/// A single channel of whatever kind counts as mono.
pub open spec fn cleaned(l: ChannelLayout) -> ChannelLayout {
    if l.index_of(FRONT_CENTER) is None && l.nb_channels == 1 {
        ChannelLayout::spec_mono()
    } else {
        l
    }
}

fn clean_layout(l: &ChannelLayout) -> (r: ChannelLayout)
    ensures
        r == cleaned(*l),
{
    if l.index_from_channel(FRONT_CENTER).is_none() && l.nb_channels == 1 {
        ChannelLayout::mono()
    } else {
        *l
    }
}

/// No speaker of a stereo downmix.
pub open spec fn no_downmix(l: ChannelLayout) -> bool {
    l.speakers() & MASK_STEREO_DOWNMIX == 0
}

/// The output layout that is mixed for: a stereo downmix is plain stereo when
/// the input knows no downmix speakers.
pub open spec fn effective_out(i: ChannelLayout, o: ChannelLayout) -> ChannelLayout {
    if cleaned(o) == ChannelLayout::spec_stereo_downmix() && no_downmix(cleaned(i)) {
        ChannelLayout::spec_stereo()
    } else {
        cleaned(o)
    }
}

/// The input layout that is mixed from.
pub open spec fn effective_in(i: ChannelLayout, o: ChannelLayout) -> ChannelLayout {
    if cleaned(i) == ChannelLayout::spec_stereo_downmix() && no_downmix(effective_out(i, o)) {
        ChannelLayout::spec_stereo()
    } else {
        cleaned(i)
    }
}

// --- user layouts -----------------------------------------------------------------

pub open spec fn chlayout_ok(l: ChannelLayout) -> bool {
    l.valid() && l.nb_channels <= SWR_CH_MAX
}

pub open spec fn chlayout_text(l: ChannelLayout, name: Seq<char>) -> Seq<char> {
    name + " channel layout \""@ + (if l.valid() {
        l.description()
    } else {
        ""@
    }) + "\" is invalid or unsupported."@
}

/// Accepts valid layouts of at most 64 channels.
pub fn check_chlayout(chl: &ChannelLayout, name: &str) -> (r: Result<(), Error>)
    ensures
        r.is_ok() == chlayout_ok(*chl),
        r matches Err(e) ==> e.is_invalid(chlayout_text(*chl, name@)),
{
    let ok: bool = chl.check();
    if !ok || chl.nb_channels > SWR_CH_MAX {
        let mut t: String = name.to_owned();
        t.append(" channel layout \"");
        if ok {
            let d: String = chl.describe();
            t.append(d.as_str());
        } else {
            t.append("");
        }
        t.append("\" is invalid or unsupported.");
        return Err(Error::InvalidArgument(t));
    }
    Ok(())
}

/// A mixing matrix given by the user.
#[derive(Debug)]
pub struct CustomRematrix {
    /// 64 rows of 64 gains; all zero outside the user's channels.
    pub matrix: Vec<F64>,
    pub in_nb_channels: usize,
    pub out_nb_channels: usize,
}

impl CustomRematrix {
    pub open spec fn wf(self) -> bool {
        &&& self.matrix@.len() == MATRIX_CELLS
        &&& self.in_nb_channels <= SWR_CH_MAX
        &&& 0 < self.out_nb_channels <= SWR_CH_MAX
    }
}

/// The gains of a user matrix, whose rows lie `stride` apart.
pub open spec fn user_matrix(src: Seq<F64>, stride: int, nb_in: int, nb_out: int) -> Seq<F64> {
    Seq::new(
        MATRIX_CELLS as nat,
        |t: int|
            if t / 64 < nb_out && t % 64 < nb_in {
                src[(t / 64) * stride + t % 64]
            } else {
                F64 { bits: 0 }
            },
    )
}

/// Takes over a user matrix; only before the context is initialized.
pub fn swr_set_matrix(
    user_in_chlayout: &ChannelLayout,
    user_out_chlayout: &ChannelLayout,
    matrix: &[F64],
    stride: usize,
    ctx_already_initialized: bool,
) -> (r: Result<CustomRematrix, Error>)
    ensures
        r.is_ok() == (!ctx_already_initialized && chlayout_ok(*user_in_chlayout) && chlayout_ok(
            *user_out_chlayout,
        ) && matrix@.len() >= (user_out_chlayout.nb_channels - 1) * stride
            + user_in_chlayout.nb_channels),
        r matches Ok(c) ==> {
            &&& c.wf()
            &&& c.in_nb_channels == user_in_chlayout.nb_channels
            &&& c.out_nb_channels == user_out_chlayout.nb_channels
            &&& c.matrix@ == user_matrix(
                matrix@,
                stride as int,
                user_in_chlayout.nb_channels as int,
                user_out_chlayout.nb_channels as int,
            )
        },
        r matches Err(e) ==> if ctx_already_initialized {
            e.is_invalid("swr_set_matrix: the context must be allocated but not initialized"@)
        } else if !chlayout_ok(*user_in_chlayout) {
            e.is_invalid(chlayout_text(*user_in_chlayout, "input"@))
        } else if !chlayout_ok(*user_out_chlayout) {
            e.is_invalid(chlayout_text(*user_out_chlayout, "output"@))
        } else {
            e == Error::BufferTooSmall
        },
{
    if ctx_already_initialized {
        return Err(
            invalid("swr_set_matrix: the context must be allocated but not initialized"),
        );
    }
    match check_chlayout(user_in_chlayout, "input") {
        Ok(_) => {},
        Err(e) => {
            return Err(e);
        },
    }
    match check_chlayout(user_out_chlayout, "output") {
        Ok(_) => {},
        Err(e) => {
            return Err(e);
        },
    }
    let nb_in: usize = user_in_chlayout.nb_channels;
    let nb_out: usize = user_out_chlayout.nb_channels;
    proof {
        assert((nb_out - 1) * stride <= 64 * 0xffff_ffff_ffff_ffff) by (nonlinear_arith)
            requires
                0 <= nb_out - 1 <= 64,
                0 <= stride <= 0xffff_ffff_ffff_ffff,
        ;
    }
    let need: u128 = ((nb_out - 1) as u128) * (stride as u128) + nb_in as u128;
    if (matrix.len() as u128) < need {
        return Err(Error::BufferTooSmall);
    }
    let mut m: Vec<F64> = Vec::new();
    let mut t: usize = 0;
    while t < MATRIX_CELLS
        invariant
            t <= MATRIX_CELLS,
            0 < nb_out <= 64,
            0 < nb_in <= 64,
            matrix@.len() >= (nb_out - 1) * stride + nb_in,
            m@ == user_matrix(matrix@, stride as int, nb_in as int, nb_out as int).subrange(
                0,
                t as int,
            ),
        decreases MATRIX_CELLS - t,
    {
        let row: usize = t / 64;
        let col: usize = t % 64;
        let len: usize = matrix.len();
        let ghost want = user_matrix(matrix@, stride as int, nb_in as int, nb_out as int);
        if row < nb_out && col < nb_in {
            proof {
                assert(0 <= row * stride <= (nb_out - 1) * stride) by (nonlinear_arith)
                    requires
                        0 <= row <= nb_out - 1,
                        0 <= stride,
                ;
            }
            m.push(matrix[row * stride + col]);
        } else {
            m.push(F64 { bits: 0 });
        }
        assert(want.subrange(0, t as int + 1) =~= want.subrange(0, t as int).push(want[t as int]));
        t = t + 1;
    }
    assert(m@ =~= user_matrix(matrix@, stride as int, nb_in as int, nb_out as int));
    Ok(CustomRematrix { matrix: m, in_nb_channels: nb_in, out_nb_channels: nb_out })
}

// --- building the matrix ------------------------------------------------------------

/// Gain of input speaker `i` in output speaker `o`, before normalization.
pub open spec fn mixed(
    inm: u64,
    outm: u64,
    enc: MatrixEncoding,
    l: Levels,
    o: int,
    i: int,
) -> F64 {
    mixtable::gain_value(mixtable::mix_gain(inm, outm, enc, o as u32, i as u32), l)
}

/// Place of cell `t` of a 64 by 64 matrix whose rows lie `stride` apart.
pub open spec fn cell(stride: int, t: int) -> int {
    stride * (t / 64) + t % 64
}

/// Place of the gain of input speaker `i` in output speaker `o`.
pub open spec fn speaker_cell(inm: u64, outm: u64, stride: int, o: int, i: int) -> int {
    stride * channel_layout::count_below(outm, o as nat) + channel_layout::count_below(
        inm,
        i as nat,
    )
}

/// `m` with the gains of the first `n` speaker pairs, in the order of the output
/// and then of the input speakers.
pub open spec fn scattered(
    m: Seq<F64>,
    inm: u64,
    outm: u64,
    enc: MatrixEncoding,
    l: Levels,
    stride: int,
    n: nat,
) -> Seq<F64>
    decreases n,
{
    if n == 0 {
        m
    } else {
        let p = scattered(m, inm, outm, enc, l, stride, (n - 1) as nat);
        let o = (n - 1) / 64;
        let i = (n - 1) % 64;
        if in_mask(outm, o as u32) && in_mask(inm, i as u32) {
            p.update(speaker_cell(inm, outm, stride, o, i), mixed(inm, outm, enc, l, o, i))
        } else {
            p
        }
    }
}

/// Sum of the absolute gains of output speaker `o`, over the input speakers
/// below `n`.
pub open spec fn row_weight(
    inm: u64,
    outm: u64,
    enc: MatrixEncoding,
    l: Levels,
    o: int,
    n: nat,
) -> F64
    decreases n,
{
    if n == 0 {
        F64 { bits: 0 }
    } else {
        let p = row_weight(inm, outm, enc, l, o, (n - 1) as nat);
        if in_mask(inm, (n - 1) as u32) {
            p.s_plus(mixed(inm, outm, enc, l, o, n - 1).s_abs())
        } else {
            p
        }
    }
}

/// Largest row weight of the output speakers below `n`.
pub open spec fn max_weight(
    inm: u64,
    outm: u64,
    enc: MatrixEncoding,
    l: Levels,
    n: nat,
) -> F64
    decreases n,
{
    if n == 0 {
        F64 { bits: 0 }
    } else {
        let p = max_weight(inm, outm, enc, l, (n - 1) as nat);
        if in_mask(outm, (n - 1) as u32) {
            p.s_max(row_weight(inm, outm, enc, l, n - 1, 64))
        } else {
            p
        }
    }
}

/// `m` with its first `n` cells divided by `d`, one after the other.
pub open spec fn divided(m: Seq<F64>, stride: int, d: F64, n: nat) -> Seq<F64>
    decreases n,
{
    if n == 0 {
        m
    } else {
        let p = divided(m, stride, d, (n - 1) as nat);
        let k = cell(stride, n - 1);
        p.update(k, p[k].s_over(d))
    }
}

/// `m` with its first `n` cells multiplied by `d`, one after the other.
pub open spec fn multiplied(m: Seq<F64>, stride: int, d: F64, n: nat) -> Seq<F64>
    decreases n,
{
    if n == 0 {
        m
    } else {
        let p = multiplied(m, stride, d, (n - 1) as nat);
        let k = cell(stride, n - 1);
        p.update(k, p[k].s_times(d))
    }
}

/// How loud and how limited a mix is.
#[derive(Clone, Copy, Debug, PartialEq, Eq, Structural)]
pub struct Normalization {
    /// Largest sum of absolute gains of a row.
    pub maxval: F64,
    /// Overall volume; a negative one replaces the measured weight.
    pub volume: F64,
}

/// The weight that the matrix is normalized by.
pub open spec fn mix_weight(
    inm: u64,
    outm: u64,
    enc: MatrixEncoding,
    l: Levels,
    nz: Normalization,
) -> F64 {
    if nz.volume.s_less(F64 { bits: 0 }) {
        nz.volume.s_neg()
    } else {
        max_weight(inm, outm, enc, l, 64)
    }
}

/// The mixing matrix written over `m`.
pub open spec fn built_matrix(
    m: Seq<F64>,
    inm: u64,
    outm: u64,
    enc: MatrixEncoding,
    l: Levels,
    nz: Normalization,
    stride: int,
) -> Seq<F64> {
    let zero = F64 { bits: 0 };
    let w = mix_weight(inm, outm, enc, l, nz);
    let m1 = scattered(m, inm, outm, enc, l, stride, MATRIX_CELLS as nat);
    let m2 = if nz.maxval.s_less(w) || nz.volume.s_less(zero) {
        divided(m1, stride, w.s_over(nz.maxval), MATRIX_CELLS as nat)
    } else {
        m1
    };
    if zero.s_less(nz.volume) {
        multiplied(m2, stride, nz.volume, MATRIX_CELLS as nat)
    } else {
        m2
    }
}

proof fn lemma_cell_bound(stride: int, a: int, b: int, len: int)
    requires
        0 <= stride,
        0 <= a <= 63,
        0 <= b <= 63,
        stride * 63 + 64 <= len,
    ensures
        0 <= stride * a,
        0 <= stride * a + b < len,
{
    assert(0 <= stride * a <= stride * 63) by (nonlinear_arith)
        requires
            0 <= stride,
            0 <= a <= 63,
    ;
}

proof fn lemma_count_step(mask: u64, k: nat)
    requires
        k < 64,
    ensures
        channel_layout::count_below(mask, k) <= k,
    decreases k,
{
    if k > 0 {
        lemma_count_step(mask, (k - 1) as nat);
    }
}

/// Weight of one row.
fn row_weight_exec(inm: u64, outm: u64, enc: MatrixEncoding, l: Levels, o: u32) -> (r: F64)
    requires
        o < 64,
    ensures
        r == row_weight(inm, outm, enc, l, o as int, 64),
{
    let mut sum: F64 = F64 { bits: 0 };
    let mut i: u32 = 0;
    while i < 64
        invariant
            i <= 64,
            o < 64,
            sum == row_weight(inm, outm, enc, l, o as int, i as nat),
        decreases 64 - i,
    {
        if has_channel(inm, i) {
            let v: F64 = gain_value_exec(mix_gain_exec(inm, outm, enc, o, i), l);
            sum = sum.plus(v.absolute());
        }
        i = i + 1;
    }
    sum
}

/// Writes the mixing matrix of two sane layouts over `matrix_param`.
pub fn build_matrix(
    inm: u64,
    outm: u64,
    enc: MatrixEncoding,
    l: Levels,
    nz: Normalization,
    matrix_param: &mut [F64],
    stride: usize,
)
    requires
        old(matrix_param)@.len() >= stride * 63 + 64,
    ensures
        final(matrix_param)@ == built_matrix(
            old(matrix_param)@,
            inm,
            outm,
            enc,
            l,
            nz,
            stride as int,
        ),
{
    let ghost m0 = matrix_param@;
    let zero: F64 = F64 { bits: 0 };
    let mut maxcoef: F64 = zero;
    let mut o: u32 = 0;
    while o < 64
        invariant
            o <= 64,
            maxcoef == max_weight(inm, outm, enc, l, o as nat),
        decreases 64 - o,
    {
        if has_channel(outm, o) {
            maxcoef = maxcoef.larger(row_weight_exec(inm, outm, enc, l, o));
        }
        o = o + 1;
    }
    let mut t: usize = 0;
    while t < MATRIX_CELLS
        invariant
            t <= MATRIX_CELLS,
            m0.len() >= stride * 63 + 64,
            matrix_param@.len() == m0.len(),
            matrix_param@ == scattered(m0, inm, outm, enc, l, stride as int, t as nat),
        decreases MATRIX_CELLS - t,
    {
        let o: u32 = (t / 64) as u32;
        let i: u32 = (t % 64) as u32;
        if has_channel(outm, o) && has_channel(inm, i) {
            let len: usize = matrix_param.len();
            let a: usize = count_channels(outm, o);
            let b: usize = count_channels(inm, i);
            proof {
                lemma_count_step(outm, o as nat);
                lemma_count_step(inm, i as nat);
                lemma_cell_bound(stride as int, a as int, b as int, len as int);
            }
            let v: F64 = gain_value_exec(mix_gain_exec(inm, outm, enc, o, i), l);
            matrix_param[stride * a + b] = v;
        }
        t = t + 1;
    }
    let negative: bool = nz.volume.less(zero);
    if negative {
        maxcoef = nz.volume.negated();
    }
    let ghost m1 = matrix_param@;
    if nz.maxval.less(maxcoef) || negative {
        let d: F64 = maxcoef.over(nz.maxval);
        let mut t: usize = 0;
        while t < MATRIX_CELLS
            invariant
                t <= MATRIX_CELLS,
                m1.len() >= stride * 63 + 64,
                matrix_param@.len() == m1.len(),
                matrix_param@ == divided(m1, stride as int, d, t as nat),
            decreases MATRIX_CELLS - t,
        {
            let len: usize = matrix_param.len();
            proof {
                lemma_cell_bound(stride as int, t as int / 64, t as int % 64, len as int);
            }
            let k: usize = stride * (t / 64) + t % 64;
            let v: F64 = matrix_param[k];
            matrix_param[k] = v.over(d);
            t = t + 1;
        }
    }
    let ghost m2 = matrix_param@;
    if zero.less(nz.volume) {
        let mut t: usize = 0;
        while t < MATRIX_CELLS
            invariant
                t <= MATRIX_CELLS,
                m2.len() >= stride * 63 + 64,
                matrix_param@.len() == m2.len(),
                matrix_param@ == multiplied(m2, stride as int, nz.volume, t as nat),
            decreases MATRIX_CELLS - t,
        {
            let len: usize = matrix_param.len();
            proof {
                lemma_cell_bound(stride as int, t as int / 64, t as int % 64, len as int);
            }
            let k: usize = stride * (t / 64) + t % 64;
            let v: F64 = matrix_param[k];
            matrix_param[k] = v.times(nz.volume);
            t = t + 1;
        }
    }
}

/// Text of the refusal of a layout that is valid but cannot be mixed.
pub open spec fn not_mixable(side: Seq<char>, l: ChannelLayout) -> Seq<char> {
    side + " channel layout '"@ + l.description() + "' is not supported"@
}

fn refuse_layout(side: &str, l: &ChannelLayout) -> (e: Error)
    ensures
        e.is_invalid(not_mixable(side@, *l)),
{
    let mut t: String = side.to_owned();
    t.append(" channel layout '");
    let d: String = l.describe();
    t.append(d.as_str());
    t.append("' is not supported");
    Error::InvalidArgument(t)
}

/// Both layouts can be mixed.
pub open spec fn mixable(i: ChannelLayout, o: ChannelLayout) -> bool {
    &&& effective_in(i, o).valid()
    &&& sane(effective_in(i, o))
    &&& effective_out(i, o).valid()
    &&& sane(effective_out(i, o))
}

/// Why two layouts cannot be mixed.
pub open spec fn mix_refusal(i: ChannelLayout, o: ChannelLayout) -> Seq<char> {
    if !effective_in(i, o).valid() {
        "Input channel layout is invalid"@
    } else if !sane(effective_in(i, o)) {
        not_mixable("Input"@, effective_in(i, o))
    } else if !effective_out(i, o).valid() {
        "Output channel layout is invalid"@
    } else {
        not_mixable("Output"@, effective_out(i, o))
    }
}

/// Builds the mixing matrix between two layouts. Row `o` starts at cell
/// `o * stride`; cells of channels that the layouts do not have keep their
/// value, up to the normalization.
pub fn swr_build_matrix2(
    in_layout: &ChannelLayout,
    out_layout: &ChannelLayout,
    center_mix_level: F64,
    surround_mix_level: F64,
    lfe_mix_level: F64,
    maxval: F64,
    rematrix_volume: F64,
    matrix: &mut [F64],
    stride: usize,
    matrix_encoding: MatrixEncoding,
) -> (r: Result<(), Error>)
    ensures
        r.is_ok() == (old(matrix)@.len() >= stride * 63 + 64 && mixable(*in_layout, *out_layout)),
        r is Ok ==> final(matrix)@ == built_matrix(
            old(matrix)@,
            effective_in(*in_layout, *out_layout).mask,
            effective_out(*in_layout, *out_layout).mask,
            matrix_encoding,
            (Levels { clev: center_mix_level, slev: surround_mix_level, lfe: lfe_mix_level }),
            (Normalization { maxval, volume: rematrix_volume }),
            stride as int,
        ),
        r matches Err(e) ==> final(matrix)@ == old(matrix)@ && if old(matrix)@.len() < stride * 63
            + 64 {
            e == Error::BufferTooSmall
        } else {
            e.is_invalid(mix_refusal(*in_layout, *out_layout))
        },
{
    let len: usize = matrix.len();
    if (len as u128) < (stride as u128) * 63 + 64 {
        return Err(Error::BufferTooSmall);
    }
    let mut i: ChannelLayout = clean_layout(in_layout);
    let mut o: ChannelLayout = clean_layout(out_layout);
    if o == ChannelLayout::stereo_downmix() && i.subset(MASK_STEREO_DOWNMIX) == 0 {
        o = ChannelLayout::stereo();
    }
    if i == ChannelLayout::stereo_downmix() && o.subset(MASK_STEREO_DOWNMIX) == 0 {
        i = ChannelLayout::stereo();
    }
    assert(o == effective_out(*in_layout, *out_layout));
    assert(i == effective_in(*in_layout, *out_layout));
    if !i.check() {
        return Err(invalid("Input channel layout is invalid"));
    }
    if !sane_layout(&i) {
        return Err(refuse_layout("Input", &i));
    }
    if !o.check() {
        return Err(invalid("Output channel layout is invalid"));
    }
    if !sane_layout(&o) {
        return Err(refuse_layout("Output", &o));
    }
    let levels = Levels { clev: center_mix_level, slev: surround_mix_level, lfe: lfe_mix_level };
    let normalization = Normalization { maxval, volume: rematrix_volume };
    build_matrix(i.mask, o.mask, matrix_encoding, levels, normalization, matrix, stride);
    Ok(())
}


// --- quantization ------------------------------------------------------------------

/// Options of the mixer.
#[derive(Clone, Copy, Debug, PartialEq, Eq, Structural)]
pub struct RematrixOptions {
    /// Center mix level.
    pub clev: F64,
    /// Surround mix level.
    pub slev: F64,
    /// Low-frequency mix level.
    pub lfe_mix_level: F64,
    /// Overall volume.
    pub rematrix_volume: F64,
    /// Largest row weight; not above 0 means automatic.
    pub rematrix_maxval: F64,
    pub matrix_encoding: MatrixEncoding,
}

impl Default for RematrixOptions {
    /// -3 dB for the center and the surround channels, no low frequencies.
    fn default() -> (r: RematrixOptions)
        ensures
            r.clev.bits == SQRT1_2_BITS,
            r.slev.bits == SQRT1_2_BITS,
            r.lfe_mix_level.bits == 0,
            r.rematrix_volume.bits == ONE_BITS,
            r.rematrix_maxval.bits == 0,
            r.matrix_encoding == MatrixEncoding::Off,
    {
        RematrixOptions {
            clev: F64 { bits: SQRT1_2_BITS },
            slev: F64 { bits: SQRT1_2_BITS },
            lfe_mix_level: F64 { bits: 0 },
            rematrix_volume: F64 { bits: ONE_BITS },
            rematrix_maxval: F64 { bits: 0 },
            matrix_encoding: MatrixEncoding::Off,
        }
    }
}

/// 32768, the unit of the fixed-point gains.
pub const FIXED_ONE_BITS: u64 = 0x40E0000000000000;

/// The largest 32-bit signed integer.
pub const INT_MAX_BITS: u64 = 0x41DFFFFFFFC00000;

/// A gain in 17.15 fixed point.
pub open spec fn fixed(g: F64) -> int {
    g.s_times(F64 { bits: FIXED_ONE_BITS }).s_lrintf()
}

/// The remainder that the first `n` gains of a row hand on: each gain takes in
/// the remainder before it.
pub open spec fn diffused_rest(row: Seq<F64>, n: nat) -> F64
    decreases n,
{
    if n == 0 {
        F64 { bits: 0 }
    } else {
        let rest = diffused_rest(row, (n - 1) as nat);
        let target = row[n - 1].s_times(F64 { bits: FIXED_ONE_BITS }).s_plus(rest);
        rest.s_plus(target.s_minus(F64::s_from_int(target.s_lrintf())))
    }
}

/// Gain `n` of a row in 17.15 fixed point, with error diffusion.
pub open spec fn diffused(row: Seq<F64>, n: int) -> int {
    row[n].s_times(F64 { bits: FIXED_ONE_BITS }).s_plus(diffused_rest(row, n as nat)).s_lrintf()
}

/// Sum of the magnitudes of the first `n` diffused gains, modulo `2^32`.
pub open spec fn diffused_weight(row: Seq<F64>, n: nat) -> int
    decreases n,
{
    if n == 0 {
        0
    } else {
        let q = diffused(row, n - 1);
        arith::wrap32(
            diffused_weight(row, (n - 1) as nat) + (if q < 0 {
                -q
            } else {
                q
            }),
        )
    }
}

/// Largest weight of the first `n` rows, and at least 0.
pub open spec fn largest_weight(m: Seq<F64>, nb_in: nat, n: nat) -> int
    decreases n,
{
    if n == 0 {
        0
    } else {
        let p = largest_weight(m, nb_in, (n - 1) as nat);
        let w = diffused_weight(matrix_row(m, n - 1), nb_in);
        if w > p {
            w
        } else {
            p
        }
    }
}

pub open spec fn matrix_row(m: Seq<F64>, i: int) -> Seq<F64> {
    m.subrange(64 * i, 64 * i + 64)
}

/// The input channels below `n` that a row uses, in increasing order.
pub open spec fn used_inputs(row: Seq<F64>, n: nat) -> Seq<usize>
    decreases n,
{
    if n == 0 {
        Seq::empty()
    } else {
        let p = used_inputs(row, (n - 1) as nat);
        if row[n - 1].s_same(F64 { bits: 0 }) {
            p
        } else {
            p.push((n - 1) as usize)
        }
    }
}

/// The mixing matrix in the arithmetic of the internal sample format.
#[derive(Debug)]
#[allow(inconsistent_fields)]
pub enum NativeMatrix {
    /// 17.15 fixed point with error diffusion.
    Int { coeffs: Vec<i32>, one: i32 },
    Float { coeffs: Vec<F32>, one: F32 },
    Double { coeffs: Vec<F64>, one: F64 },
}

impl NativeMatrix {
    /// The fixed-point gains and their unit.
    pub fn as_int(&self) -> (r: Option<(&[i32], i32)>)
        ensures
            r.is_some() == (self is Int),
            r matches Some((c, one)) ==> c@ == self->Int_coeffs@ && one == self->Int_one,
    {
        match self {
            NativeMatrix::Int { coeffs, one } => Some((coeffs.as_slice(), *one)),
            _ => None,
        }
    }

    /// The single-precision gains and their unit.
    pub fn as_float(&self) -> (r: Option<(&[F32], F32)>)
        ensures
            r.is_some() == (self is Float),
            r matches Some((c, one)) ==> c@ == self->Float_coeffs@ && one == self->Float_one,
    {
        match self {
            NativeMatrix::Float { coeffs, one } => Some((coeffs.as_slice(), *one)),
            _ => None,
        }
    }

    /// The double-precision gains and their unit.
    pub fn as_double(&self) -> (r: Option<(&[F64], F64)>)
        ensures
            r.is_some() == (self is Double),
            r matches Some((c, one)) ==> c@ == self->Double_coeffs@ && one == self->Double_one,
    {
        match self {
            NativeMatrix::Double { coeffs, one } => Some((coeffs.as_slice(), *one)),
            _ => None,
        }
    }
}

/// Mixes with a kernel of their own.
#[derive(Clone, Copy, Debug, PartialEq, Eq, Structural)]
pub enum AnyFastPath {
    /// 5.1 to stereo.
    Mix6to2,
    /// 7.1 to stereo.
    Mix8to2,
}

/// Cell (`o`, `i`) of a matrix with rows of `n`.
pub open spec fn grid<T>(s: Seq<T>, n: int, o: int, i: int) -> T {
    s[o * n + i]
}

/// Cell (`o`, `i`) of a full matrix.
pub open spec fn entry(m: Seq<F64>, o: int, i: int) -> F64 {
    m[64 * o + i]
}

/// Both stereo rows share the center and low-frequency gains, and neither takes
/// in a channel of the other side.
pub open spec fn split_sides(m: Seq<F64>, wide: bool) -> bool {
    let zero = F64 { bits: 0 };
    &&& entry(m, 0, 2).s_same(entry(m, 1, 2))
    &&& entry(m, 0, 3).s_same(entry(m, 1, 3))
    &&& entry(m, 0, 1).s_same(zero)
    &&& entry(m, 0, 5).s_same(zero)
    &&& entry(m, 1, 0).s_same(zero)
    &&& entry(m, 1, 4).s_same(zero)
    &&& wide ==> entry(m, 0, 7).s_same(zero) && entry(m, 1, 6).s_same(zero)
}

pub open spec fn layout_of(nb_channels: usize, mask: u64) -> ChannelLayout {
    ChannelLayout { order: Order::Native, nb_channels, mask }
}

/// Which special kernel a mix can use.
pub open spec fn fast_path(m: Seq<F64>, i: ChannelLayout, o: ChannelLayout) -> Option<AnyFastPath> {
    if o != ChannelLayout::spec_stereo() {
        None
    } else if (i == layout_of(6, MASK_5POINT1) || i == layout_of(6, MASK_5POINT1_BACK))
        && split_sides(m, false) {
        Some(AnyFastPath::Mix6to2)
    } else if i == layout_of(8, MASK_7POINT1) && split_sides(m, true) {
        Some(AnyFastPath::Mix8to2)
    } else {
        None
    }
}

fn same_at(m: &Vec<F64>, a: usize, b: usize) -> (r: bool)
    requires
        a < m@.len(),
        b < m@.len(),
    ensures
        r == m@[a as int].s_same(m@[b as int]),
{
    m[a].same(m[b])
}

fn zero_at(m: &Vec<F64>, a: usize) -> (r: bool)
    requires
        a < m@.len(),
    ensures
        r == m@[a as int].s_same(F64 { bits: 0 }),
{
    m[a].same(F64 { bits: 0 })
}

fn get_mix_any_func(m: &Vec<F64>, i: &ChannelLayout, o: &ChannelLayout) -> (r: Option<AnyFastPath>)
    requires
        m@.len() == MATRIX_CELLS,
    ensures
        r == fast_path(m@, *i, *o),
{
    if *o != ChannelLayout::stereo() {
        return None;
    }
    let five: bool = *i == (ChannelLayout {
        order: Order::Native,
        nb_channels: 6,
        mask: MASK_5POINT1,
    }) || *i == (ChannelLayout { order: Order::Native, nb_channels: 6, mask: MASK_5POINT1_BACK });
    let seven: bool = *i == (ChannelLayout {
        order: Order::Native,
        nb_channels: 8,
        mask: MASK_7POINT1,
    });
    let sides: bool = same_at(m, 2, 66) && same_at(m, 3, 67) && zero_at(m, 1) && zero_at(m, 5)
        && zero_at(m, 64) && zero_at(m, 68);
    if five && sides {
        return Some(AnyFastPath::Mix6to2);
    }
    if seven && sides && zero_at(m, 7) && zero_at(m, 70) {
        return Some(AnyFastPath::Mix8to2);
    }
    None
}

/// A mixer: the matrix in every form that its kernels use.
#[derive(Debug)]
pub struct RematrixContext {
    /// 64 rows of 64 gains.
    pub matrix: Vec<F64>,
    /// The gains in single precision, for the float format.
    pub matrix_flt: Vec<F32>,
    /// The gains in 17.15 fixed point without diffusion, for the integer formats.
    pub matrix32: Vec<i32>,
    pub native_matrix: NativeMatrix,
    /// For each row the input channels with a non-zero gain.
    pub matrix_ch: Vec<Vec<usize>>,
    pub int_fmt: SampleFormat,
    /// Whether 16-bit results have to be clipped.
    pub clip_s16: bool,
    pub mix_any: Option<AnyFastPath>,
    /// Number of input channels.
    pub in_nb: usize,
    /// Number of output channels.
    pub out_nb: usize,
}

pub open spec fn mixing_format(f: SampleFormat) -> bool {
    f == SampleFormat::S16p || f == SampleFormat::S32p || f == SampleFormat::Fltp || f
        == SampleFormat::Dblp
}

impl RematrixContext {
    /// Every form of the matrix is derived from the double-precision one.
    pub open spec fn wf(self) -> bool {
        let m = self.matrix@;
        &&& m.len() == MATRIX_CELLS
        &&& mixing_format(self.int_fmt)
        &&& self.in_nb <= SWR_CH_MAX
        &&& self.out_nb <= SWR_CH_MAX
        &&& self.matrix_flt@.len() == MATRIX_CELLS
        &&& self.int_fmt == SampleFormat::Fltp ==> forall|t: int|
            0 <= t < MATRIX_CELLS ==> #[trigger] self.matrix_flt@[t] == m[t].s_narrow()
        &&& self.matrix32@.len() == MATRIX_CELLS
        &&& self.int_fmt == SampleFormat::S16p || self.int_fmt == SampleFormat::S32p ==> forall|
            t: int,
        |
            0 <= t < MATRIX_CELLS ==> #[trigger] self.matrix32@[t] == fixed(m[t])
        &&& self.matrix_ch@.len() == SWR_CH_MAX
        &&& forall|o: int|
            0 <= o < SWR_CH_MAX ==> #[trigger] self.matrix_ch@[o]@ == used_inputs(
                matrix_row(m, o),
                64,
            )
        &&& self.native_wf()
        &&& self.clip_s16 == (self.int_fmt == SampleFormat::S16p && largest_weight(
            m,
            self.in_nb as nat,
            self.out_nb as nat,
        ) > 32768)
    }

    /// The mixer can be used: a fast path finds the channels that it is made for.
    pub open spec fn ready(self) -> bool {
        &&& self.wf()
        &&& self.mix_any == Some(AnyFastPath::Mix6to2) ==> self.in_nb == 6 && self.out_nb == 2
        &&& self.mix_any == Some(AnyFastPath::Mix8to2) ==> self.in_nb == 8 && self.out_nb == 2
    }

    /// The native matrix holds the gains of the actual channels, row by row.
    pub open spec fn native_wf(self) -> bool {
        let m = self.matrix@;
        match self.native_matrix {
            NativeMatrix::Int { coeffs, one } => {
                &&& self.int_fmt == SampleFormat::S16p || self.int_fmt == SampleFormat::S32p
                &&& one == 32768
                &&& coeffs@.len() == self.in_nb * self.out_nb
                &&& forall|o: int, i: int|
                    0 <= o < self.out_nb && 0 <= i < self.in_nb ==> #[trigger] grid(coeffs@, self.in_nb as int, o as int, i) == diffused(matrix_row(m, o), i)
            },
            NativeMatrix::Float { coeffs, one } => {
                &&& self.int_fmt == SampleFormat::Fltp
                &&& one.bits == 0x3f800000
                &&& coeffs@.len() == self.in_nb * self.out_nb
                &&& forall|o: int, i: int|
                    0 <= o < self.out_nb && 0 <= i < self.in_nb ==> #[trigger] grid(coeffs@, self.in_nb as int, o as int, i) == entry(m, o, i).s_narrow()
            },
            NativeMatrix::Double { coeffs, one } => {
                &&& self.int_fmt == SampleFormat::Dblp
                &&& one.bits == ONE_BITS
                &&& coeffs@.len() == self.in_nb * self.out_nb
                &&& forall|o: int, i: int|
                    0 <= o < self.out_nb && 0 <= i < self.in_nb ==> #[trigger] grid(coeffs@, self.in_nb as int, o as int, i) == entry(m, o, i)
            },
        }
    }

    /// The internal sample format.
    pub fn int_fmt(&self) -> (r: SampleFormat)
        ensures
            r == self.int_fmt,
    {
        self.int_fmt
    }

    /// The matrix in the arithmetic of the internal sample format.
    pub fn native_matrix(&self) -> (r: &NativeMatrix)
        ensures
            *r == self.native_matrix,
    {
        &self.native_matrix
    }
}

/// Row weight limit of an automatic matrix.
pub open spec fn auto_maxval(opt: RematrixOptions, out: SampleFormat, internal: SampleFormat) -> F64 {
    if (F64 { bits: 0 }).s_less(opt.rematrix_maxval) {
        opt.rematrix_maxval
    } else if out.is_small_int() || internal.is_small_int() {
        F64 { bits: ONE_BITS }
    } else {
        F64 { bits: INT_MAX_BITS }
    }
}

/// The automatic matrix between two layouts.
pub open spec fn auto_matrix_of(
    i: ChannelLayout,
    o: ChannelLayout,
    out: SampleFormat,
    internal: SampleFormat,
    opt: RematrixOptions,
) -> Seq<F64> {
    built_matrix(
        Seq::new(MATRIX_CELLS as nat, |t: int| F64 { bits: 0 }),
        effective_in(i, o).mask,
        effective_out(i, o).mask,
        opt.matrix_encoding,
        Levels { clev: opt.clev, slev: opt.slev, lfe: opt.lfe_mix_level },
        Normalization { maxval: auto_maxval(opt, out, internal), volume: opt.rematrix_volume },
        64,
    )
}

fn small_int(f: SampleFormat) -> (r: bool)
    ensures
        r == f.is_small_int(),
{
    matches!(f.packed(), SampleFormat::U8 | SampleFormat::S16 | SampleFormat::S32)
}

proof fn lemma_built_len(
    m: Seq<F64>,
    inm: u64,
    outm: u64,
    enc: MatrixEncoding,
    l: Levels,
    nz: Normalization,
    stride: int,
)
    requires
        0 <= stride,
        m.len() >= stride * 63 + 64,
    ensures
        built_matrix(m, inm, outm, enc, l, nz, stride).len() == m.len(),
{
    let m1 = scattered(m, inm, outm, enc, l, stride, MATRIX_CELLS as nat);
    lemma_scattered_len(m, inm, outm, enc, l, stride, MATRIX_CELLS as nat);
    let d = mix_weight(inm, outm, enc, l, nz).s_over(nz.maxval);
    lemma_divided_len(m1, stride, d, MATRIX_CELLS as nat);
    lemma_multiplied_len(m1, stride, nz.volume, MATRIX_CELLS as nat);
    lemma_multiplied_len(
        divided(m1, stride, d, MATRIX_CELLS as nat),
        stride,
        nz.volume,
        MATRIX_CELLS as nat,
    );
}

proof fn lemma_scattered_len(
    m: Seq<F64>,
    inm: u64,
    outm: u64,
    enc: MatrixEncoding,
    l: Levels,
    stride: int,
    n: nat,
)
    requires
        0 <= stride,
        m.len() >= stride * 63 + 64,
        n <= MATRIX_CELLS,
    ensures
        scattered(m, inm, outm, enc, l, stride, n).len() == m.len(),
    decreases n,
{
    if n > 0 {
        let o = ((n - 1) / 64) as nat;
        let i = ((n - 1) % 64) as nat;
        lemma_count_step(outm, o);
        lemma_count_step(inm, i);
        lemma_cell_bound(
            stride,
            channel_layout::count_below(outm, o) as int,
            channel_layout::count_below(inm, i) as int,
            m.len() as int,
        );
        lemma_scattered_len(m, inm, outm, enc, l, stride, (n - 1) as nat);
    }
}

proof fn lemma_divided_len(m: Seq<F64>, stride: int, d: F64, n: nat)
    requires
        0 <= stride,
        m.len() >= stride * 63 + 64,
        n <= MATRIX_CELLS,
    ensures
        divided(m, stride, d, n).len() == m.len(),
    decreases n,
{
    if n > 0 {
        lemma_cell_bound(stride, (n - 1) / 64, (n - 1) % 64, m.len() as int);
        lemma_divided_len(m, stride, d, (n - 1) as nat);
    }
}

proof fn lemma_multiplied_len(m: Seq<F64>, stride: int, d: F64, n: nat)
    requires
        0 <= stride,
        m.len() >= stride * 63 + 64,
        n <= MATRIX_CELLS,
    ensures
        multiplied(m, stride, d, n).len() == m.len(),
    decreases n,
{
    if n > 0 {
        lemma_cell_bound(stride, (n - 1) / 64, (n - 1) % 64, m.len() as int);
        lemma_multiplied_len(m, stride, d, (n - 1) as nat);
    }
}

fn auto_matrix(
    i: &ChannelLayout,
    o: &ChannelLayout,
    out: SampleFormat,
    internal: SampleFormat,
    opt: &RematrixOptions,
) -> (r: Result<Vec<F64>, Error>)
    ensures
        r.is_ok() == mixable(*i, *o),
        r matches Ok(m) ==> m@.len() == MATRIX_CELLS && m@ == auto_matrix_of(
            *i,
            *o,
            out,
            internal,
            *opt,
        ),
        r matches Err(e) ==> e.is_invalid(mix_refusal(*i, *o)),
{
    let zero = F64 { bits: 0 };
    let maxval: F64 = if zero.less(opt.rematrix_maxval) {
        opt.rematrix_maxval
    } else if small_int(out) || small_int(internal) {
        F64 { bits: ONE_BITS }
    } else {
        F64 { bits: INT_MAX_BITS }
    };
    let mut m: Vec<F64> = Vec::new();
    let mut t: usize = 0;
    while t < MATRIX_CELLS
        invariant
            t <= MATRIX_CELLS,
            m@.len() == t,
            zero.bits == 0,
            forall|k: int| 0 <= k < t ==> #[trigger] m@[k] == zero,
        decreases MATRIX_CELLS - t,
    {
        m.push(zero);
        t = t + 1;
    }
    assert(m@ =~= Seq::new(MATRIX_CELLS as nat, |t: int| F64 { bits: 0 }));
    match swr_build_matrix2(
        i,
        o,
        opt.clev,
        opt.slev,
        opt.lfe_mix_level,
        maxval,
        opt.rematrix_volume,
        m.as_mut_slice(),
        64,
        opt.matrix_encoding,
    ) {
        Ok(_) => {
            proof {
                lemma_built_len(
                    Seq::new(MATRIX_CELLS as nat, |t: int| F64 { bits: 0 }),
                    effective_in(*i, *o).mask,
                    effective_out(*i, *o).mask,
                    opt.matrix_encoding,
                    Levels { clev: opt.clev, slev: opt.slev, lfe: opt.lfe_mix_level },
                    Normalization { maxval, volume: opt.rematrix_volume },
                    64,
                );
            }
            Ok(m)
        },
        Err(e) => Err(e),
    }
}

/// The fixed-point form of the first `nb_in` gains of row `o`, and their weight.
fn quantize_row(m: &Vec<F64>, o: usize, nb_in: usize) -> (r: (Vec<i32>, i32))
    requires
        m@.len() == MATRIX_CELLS,
        nb_in <= 64,
        o < 64,
    ensures
        r.0@.len() == nb_in,
        forall|i: int| 0 <= i < nb_in ==> #[trigger] r.0@[i] == diffused(matrix_row(m@, o as int), i),
        r.1 == diffused_weight(matrix_row(m@, o as int), nb_in as nat),
{
    let one = F64 { bits: FIXED_ONE_BITS };
    let ghost row = matrix_row(m@, o as int);
    let mut coeffs: Vec<i32> = Vec::new();
    let mut rem: F64 = F64 { bits: 0 };
    let mut sum: i32 = 0;
    let mut i: usize = 0;
    while i < nb_in
        invariant
            o < 64,
            i <= nb_in <= 64,
            m@.len() == MATRIX_CELLS,
            one.bits == FIXED_ONE_BITS,
            row == matrix_row(m@, o as int),
            rem == diffused_rest(row, i as nat),
            sum == diffused_weight(row, i as nat),
            coeffs@.len() == i,
            forall|k: int| 0 <= k < i ==> #[trigger] coeffs@[k] == diffused(row, k),
        decreases nb_in - i,
    {
        let g: F64 = m[64 * o + i];
        assert(g == row[i as int]);
        let target: F64 = g.times(one).plus(rem);
        let q: i32 = target.lrintf();
        coeffs.push(q);
        rem = rem.plus(target.minus(F64::from_int(q as i64)));
        let mag: i64 = if q < 0 {
            -(q as i64)
        } else {
            q as i64
        };
        sum = arith::wrap32_i64(sum as i64 + mag);
        i = i + 1;
    }
    (coeffs, sum)
}

/// The fixed-point form of a matrix and the largest row weight.
fn quantize_int(m: &Vec<F64>, nb_in: usize, nb_out: usize) -> (r: (Vec<i32>, i32))
    requires
        m@.len() == MATRIX_CELLS,
        nb_in <= 64,
        nb_out <= 64,
    ensures
        r.0@.len() == nb_in * nb_out,
        forall|o: int, i: int|
            0 <= o < nb_out && 0 <= i < nb_in ==> #[trigger] grid(r.0@, nb_in as int, o, i)
                == diffused(matrix_row(m@, o), i),
        r.1 == largest_weight(m@, nb_in as nat, nb_out as nat),
{
    let mut coeffs: Vec<i32> = Vec::new();
    let mut maxsum: i32 = 0;
    let mut o: usize = 0;
    while o < nb_out
        invariant
            o <= nb_out <= 64,
            nb_in <= 64,
            m@.len() == MATRIX_CELLS,
            coeffs@.len() == o * nb_in,
            maxsum == largest_weight(m@, nb_in as nat, o as nat),
            forall|p: int, i: int|
                0 <= p < o && 0 <= i < nb_in ==> #[trigger] grid(coeffs@, nb_in as int, p, i)
                    == diffused(matrix_row(m@, p), i),
        decreases nb_out - o,
    {
        let (mut row, sum) = quantize_row(m, o, nb_in);
        let ghost before = coeffs@;
        let ghost added = row@;
        coeffs.append(&mut row);
        if sum > maxsum {
            maxsum = sum;
        }
        proof {
            assert((o + 1) * nb_in == o * nb_in + nb_in) by (nonlinear_arith);
            assert forall|p: int, k: int| 0 <= p < o + 1 && 0 <= k < nb_in implies #[trigger] grid(
                coeffs@,
                nb_in as int,
                p,
                k,
            ) == diffused(matrix_row(m@, p), k) by {
                if p < o {
                    lemma_row_order(nb_in as int, p, k, o as int, 0);
                    assert(grid(before, nb_in as int, p, k) == diffused(matrix_row(m@, p), k));
                } else {
                    assert(added[k] == diffused(matrix_row(m@, o as int), k));
                }
            }
        }
        o = o + 1;
    }
    proof {
        lemma_mul_is_commutative(nb_out as int, nb_in as int);
    }
    (coeffs, maxsum)
}

proof fn lemma_row_order(n: int, p: int, k: int, o: int, i: int)
    requires
        0 <= p < o,
        0 <= k < n,
        0 <= i,
    ensures
        0 <= p * n + k < o * n + i,
{
    assert(p * n + n <= o * n) by (nonlinear_arith)
        requires
            p + 1 <= o,
            0 <= n,
    ;
    assert(0 <= p * n) by (nonlinear_arith)
        requires
            0 <= p,
            0 <= n,
    ;
}


/// The rectangle of actual channels of a matrix, row by row.
fn rectangle(m: &Vec<F64>, nb_in: usize, nb_out: usize) -> (r: Vec<F64>)
    requires
        m@.len() == MATRIX_CELLS,
        nb_in <= 64,
        nb_out <= 64,
    ensures
        r@.len() == nb_in * nb_out,
        forall|o: int, i: int|
            0 <= o < nb_out && 0 <= i < nb_in ==> #[trigger] grid(r@, nb_in as int, o as int, i) == entry(m@, o, i),
{
    let mut r: Vec<F64> = Vec::new();
    let mut o: usize = 0;
    while o < nb_out
        invariant
            o <= nb_out <= 64,
            nb_in <= 64,
            m@.len() == MATRIX_CELLS,
            r@.len() == o * nb_in,
            forall|p: int, k: int|
                0 <= p < o && 0 <= k < nb_in ==> #[trigger] grid(r@, nb_in as int, p as int, k) == entry(m@, p, k),
        decreases nb_out - o,
    {
        let mut i: usize = 0;
        while i < nb_in
            invariant
                o < nb_out <= 64,
                i <= nb_in <= 64,
                m@.len() == MATRIX_CELLS,
                r@.len() == o * nb_in + i,
                forall|p: int, k: int|
                    0 <= p < o && 0 <= k < nb_in ==> #[trigger] grid(r@, nb_in as int, p as int, k) == entry(m@, p, k),
                forall|k: int|
                    0 <= k < i ==> #[trigger] grid(r@, nb_in as int, o as int, k) == entry(m@, o as int, k),
            decreases nb_in - i,
        {
            let ghost before = r@;
            r.push(m[64 * o + i]);
            proof {
                assert forall|p: int, k: int| 0 <= p < o && 0 <= k < nb_in implies #[trigger] grid(r@, nb_in as int, p as int, k) == entry(m@, p, k) by {
                    lemma_row_order(nb_in as int, p, k, o as int, i as int);
                    assert(grid(before, nb_in as int, p as int, k) == entry(m@, p, k));
                }
                assert forall|k: int| 0 <= k < i + 1 implies #[trigger] grid(r@, nb_in as int, o as int, k) == entry(
                    m@,
                    o as int,
                    k,
                ) by {
                    if k < i {
                        assert(grid(before, nb_in as int, o as int, k) == entry(m@, o as int, k));
                    }
                }
            }
            i = i + 1;
        }
        proof {
            assert((o + 1) * nb_in == o * nb_in + nb_in) by (nonlinear_arith);
            assert forall|p: int, k: int| 0 <= p < o + 1 && 0 <= k < nb_in implies #[trigger] grid(r@, nb_in as int, p as int, k) == entry(m@, p, k) by {
                if p == o {
                    assert(grid(r@, nb_in as int, o as int, k) == entry(m@, o as int, k));
                }
            }
        }
        o = o + 1;
    }
    proof {
        lemma_mul_is_commutative(nb_out as int, nb_in as int);
    }
    r
}

/// All of `v` in single precision.
fn narrowed(v: &Vec<F64>) -> (r: Vec<F32>)
    ensures
        r@.len() == v@.len(),
        forall|t: int| 0 <= t < v@.len() ==> #[trigger] r@[t] == v@[t].s_narrow(),
{
    let mut r: Vec<F32> = Vec::new();
    let mut t: usize = 0;
    while t < v.len()
        invariant
            t <= v@.len(),
            r@.len() == t,
            forall|k: int| 0 <= k < t ==> #[trigger] r@[k] == v@[k].s_narrow(),
        decreases v@.len() - t,
    {
        r.push(v[t].narrow());
        t = t + 1;
    }
    r
}

/// The input channels that each row uses.
fn sparsity(m: &Vec<F64>) -> (r: Vec<Vec<usize>>)
    requires
        m@.len() == MATRIX_CELLS,
    ensures
        r@.len() == SWR_CH_MAX,
        forall|o: int|
            0 <= o < SWR_CH_MAX ==> #[trigger] r@[o]@ == used_inputs(matrix_row(m@, o), 64),
{
    let mut r: Vec<Vec<usize>> = Vec::new();
    let mut o: usize = 0;
    while o < SWR_CH_MAX
        invariant
            o <= SWR_CH_MAX,
            m@.len() == MATRIX_CELLS,
            r@.len() == o,
            forall|p: int| 0 <= p < o ==> #[trigger] r@[p]@ == used_inputs(matrix_row(m@, p), 64),
        decreases SWR_CH_MAX - o,
    {
        let ghost row = matrix_row(m@, o as int);
        let mut taps: Vec<usize> = Vec::new();
        let mut i: usize = 0;
        while i < 64
            invariant
                o < SWR_CH_MAX,
                i <= 64,
                m@.len() == MATRIX_CELLS,
                row == matrix_row(m@, o as int),
                taps@ == used_inputs(row, i as nat),
            decreases 64 - i,
        {
            let g: F64 = m[64 * o + i];
            assert(g == row[i as int]);
            if !g.same(F64 { bits: 0 }) {
                taps.push(i);
            }
            i = i + 1;
        }
        r.push(taps);
        o = o + 1;
    }
    r
}

/// The matrix that a mixer is made from.
pub open spec fn context_matrix(
    i: ChannelLayout,
    o: ChannelLayout,
    out: SampleFormat,
    internal: SampleFormat,
    opt: RematrixOptions,
    custom: Option<&CustomRematrix>,
) -> Seq<F64> {
    match custom {
        Some(c) => c.matrix@,
        None => auto_matrix_of(i, o, out, internal, opt),
    }
}

impl RematrixContext {
    /// A mixer between two layouts. A user matrix is taken as it is; otherwise
    /// the matrix is built from the layouts.
    pub fn init(
        in_ch_layout: &ChannelLayout,
        used_in_nb_channels: usize,
        out_ch_layout: &ChannelLayout,
        out_nb_channels: usize,
        out_sample_fmt: SampleFormat,
        int_sample_fmt: SampleFormat,
        options: &RematrixOptions,
        custom: Option<&CustomRematrix>,
    ) -> (r: Result<RematrixContext, Error>)
        requires
            used_in_nb_channels <= SWR_CH_MAX,
            out_nb_channels <= SWR_CH_MAX,
            custom matches Some(c) ==> c.wf(),
        ensures
            r.is_ok() == ((custom is Some || mixable(*in_ch_layout, *out_ch_layout))
                && mixing_format(int_sample_fmt)),
            r matches Ok(c) ==> {
                &&& c.wf()
                &&& used_in_nb_channels == in_ch_layout.nb_channels && out_nb_channels
                    == out_ch_layout.nb_channels ==> c.ready()
                &&& c.matrix@ == context_matrix(
                    *in_ch_layout,
                    *out_ch_layout,
                    out_sample_fmt,
                    int_sample_fmt,
                    *options,
                    custom,
                )
                &&& c.int_fmt == int_sample_fmt
                &&& c.in_nb == used_in_nb_channels
                &&& c.out_nb == out_nb_channels
                &&& c.mix_any == fast_path(c.matrix@, *in_ch_layout, *out_ch_layout)
            },
            r matches Err(e) ==> if custom is None && !mixable(*in_ch_layout, *out_ch_layout) {
                e.is_invalid(mix_refusal(*in_ch_layout, *out_ch_layout))
            } else {
                e.is_unsupported(
                    "rematrixing with internal sample format "@ + int_sample_fmt.spec_name()
                        + " (C: av_assert0(0), rematrix.c:766)"@,
                )
            },
    {
        let nb_in: usize = used_in_nb_channels;
        let nb_out: usize = out_nb_channels;
        let matrix: Vec<F64> = match custom {
            Some(c) => {
                let m: Vec<F64> = c.matrix.clone();
                assert(m@ =~= c.matrix@);
                m
            },
            None => match auto_matrix(
                in_ch_layout,
                out_ch_layout,
                out_sample_fmt,
                int_sample_fmt,
                options,
            ) {
                Ok(m) => m,
                Err(e) => {
                    return Err(e);
                },
            },
        };
        let mut clip_s16: bool = false;
        let native_matrix: NativeMatrix = match int_sample_fmt {
            SampleFormat::S16p => {
                let (coeffs, maxsum) = quantize_int(&matrix, nb_in, nb_out);
                clip_s16 = maxsum > 32768;
                NativeMatrix::Int { coeffs, one: 32768 }
            },
            SampleFormat::S32p => {
                let (coeffs, _) = quantize_int(&matrix, nb_in, nb_out);
                NativeMatrix::Int { coeffs, one: 32768 }
            },
            SampleFormat::Fltp => {
                let wide: Vec<F64> = rectangle(&matrix, nb_in, nb_out);
                let coeffs: Vec<F32> = narrowed(&wide);
                proof {
                    assert forall|o: int, i: int| 0 <= o < nb_out && 0 <= i < nb_in implies
                        #[trigger] grid(coeffs@, nb_in as int, o as int, i) == entry(matrix@, o, i).s_narrow() by {
                        lemma_row_order(nb_in as int, o, i, nb_out as int, 0);
                        lemma_mul_is_commutative(nb_out as int, nb_in as int);
                        assert(grid(wide@, nb_in as int, o as int, i) == entry(matrix@, o, i));
                    }
                }
                NativeMatrix::Float { coeffs, one: F32 { bits: 0x3f800000 } }
            },
            SampleFormat::Dblp => {
                let coeffs: Vec<F64> = rectangle(&matrix, nb_in, nb_out);
                NativeMatrix::Double { coeffs, one: F64 { bits: ONE_BITS } }
            },
            _ => {
                let mut t: String = "rematrixing with internal sample format ".to_owned();
                t.append(int_sample_fmt.name());
                t.append(" (C: av_assert0(0), rematrix.c:766)");
                return Err(Error::Unsupported(t));
            },
        };
        let mix_any: Option<AnyFastPath> = get_mix_any_func(&matrix, in_ch_layout, out_ch_layout);
        let matrix_ch: Vec<Vec<usize>> = sparsity(&matrix);
        let is_float: bool = int_sample_fmt == SampleFormat::Fltp;
        let is_int: bool = int_sample_fmt == SampleFormat::S16p || int_sample_fmt
            == SampleFormat::S32p;
        let mut matrix_flt: Vec<F32> = Vec::new();
        let mut matrix32: Vec<i32> = Vec::new();
        let mut t: usize = 0;
        while t < MATRIX_CELLS
            invariant
                t <= MATRIX_CELLS,
                matrix@.len() == MATRIX_CELLS,
                matrix_flt@.len() == t,
                matrix32@.len() == t,
                is_float ==> forall|k: int|
                    0 <= k < t ==> #[trigger] matrix_flt@[k] == matrix@[k].s_narrow(),
                is_int ==> forall|k: int|
                    0 <= k < t ==> #[trigger] matrix32@[k] == fixed(matrix@[k]),
            decreases MATRIX_CELLS - t,
        {
            if is_float {
                matrix_flt.push(matrix[t].narrow());
            } else {
                matrix_flt.push(F32 { bits: 0 });
            }
            if is_int {
                let q: i32 = matrix[t].times(F64 { bits: FIXED_ONE_BITS }).lrintf();
                matrix32.push(q);
            } else {
                matrix32.push(0);
            }
            t = t + 1;
        }
        Ok(
            RematrixContext {
                matrix,
                matrix_flt,
                matrix32,
                native_matrix,
                matrix_ch,
                int_fmt: int_sample_fmt,
                clip_s16,
                mix_any,
                in_nb: nb_in,
                out_nb: nb_out,
            },
        )
    }
}


// --- applying the matrix -------------------------------------------------------------

/// The sample that an accumulator is stored as. Fixed-point sums are rounded
/// back to integers.
pub open spec fn acc_sample(a: Arith, acc: int, bytes: nat) -> u64 {
    match a {
        Arith::S16 => arith::raw16(arith::wrap32(acc + 16384) / 32768),
        Arith::S16Clip => arith::raw16(
            float::saturate(arith::wrap32(acc + 16384) / 32768, -32768, 32767),
        ),
        Arith::S32 => arith::raw32(arith::wrap64(acc + 16384) / 32768),
        Arith::Low16 => if bytes == 2 {
            arith::raw16(arith::wrap32(acc + 16384) / 32768)
        } else {
            arith::raw32(arith::wrap16(arith::wrap32(acc + 16384) / 32768))
        },
        Arith::Flt | Arith::Dbl => acc as u64,
    }
}

/// Sum of the first `n` terms (gain, input channel) at instant `i`, left to
/// right. Generic kernels start from zero.
pub open spec fn mix_sum(
    a: Arith,
    terms: Seq<(int, int)>,
    from_zero: bool,
    s: Planes,
    i: int,
    n: nat,
) -> int
    decreases n,
{
    if n == 0 {
        0
    } else {
        let (c, ch) = terms[n - 1];
        let p = arith::product(a, c, s[ch][i]);
        if n == 1 && !from_zero {
            p
        } else {
            arith::acc_sum(a, mix_sum(a, terms, from_zero, s, i, (n - 1) as nat), p)
        }
    }
}

/// A mixed sample.
pub open spec fn mix_sample(
    a: Arith,
    terms: Seq<(int, int)>,
    from_zero: bool,
    s: Planes,
    i: int,
    bytes: nat,
) -> u64 {
    acc_sample(a, mix_sum(a, terms, from_zero, s, i, terms.len()), bytes)
}

impl RematrixContext {
    /// Gain of input `i` in output `o`, in the arithmetic of the format.
    pub open spec fn native_gain(self, o: int, i: int) -> int {
        match self.int_fmt {
            SampleFormat::S16p | SampleFormat::S32p => diffused(matrix_row(self.matrix@, o), i),
            SampleFormat::Fltp => entry(self.matrix@, o, i).s_narrow().bits as int,
            _ => entry(self.matrix@, o, i).bits as int,
        }
    }

    /// The same without error diffusion.
    pub open spec fn plain_gain(self, o: int, i: int) -> int {
        match self.int_fmt {
            SampleFormat::S16p | SampleFormat::S32p => fixed(entry(self.matrix@, o, i)),
            SampleFormat::Fltp => entry(self.matrix@, o, i).s_narrow().bits as int,
            _ => entry(self.matrix@, o, i).bits as int,
        }
    }

    pub open spec fn arith(self) -> Arith {
        match self.int_fmt {
            SampleFormat::S16p => if self.clip_s16 {
                Arith::S16Clip
            } else {
                Arith::S16
            },
            SampleFormat::S32p => Arith::S32,
            SampleFormat::Fltp => Arith::Flt,
            _ => Arith::Dbl,
        }
    }

    /// The integer kernel for three and more inputs reads 16 bits of each
    /// sample, whatever the format.
    pub open spec fn generic_arith(self) -> Arith {
        match self.int_fmt {
            SampleFormat::S16p | SampleFormat::S32p => Arith::Low16,
            SampleFormat::Fltp => Arith::Flt,
            _ => Arith::Dbl,
        }
    }

    /// The input channels that output `o` uses.
    pub open spec fn taps(self, o: int) -> Seq<usize> {
        used_inputs(matrix_row(self.matrix@, o), 64)
    }

    /// The terms of output `o` of a special kernel: both outputs share the
    /// center and low-frequency terms of the first row.
    pub open spec fn fast_terms(self, f: AnyFastPath, o: int) -> Seq<(int, int)> {
        let head = seq![
            (self.native_gain(0, 2), 2int),
            (self.native_gain(0, 3), 3int),
            (self.native_gain(o, o), o),
            (self.native_gain(o, 4 + o), 4 + o),
        ];
        match f {
            AnyFastPath::Mix6to2 => head,
            AnyFastPath::Mix8to2 => head.push((self.native_gain(o, 6 + o), 6 + o)),
        }
    }

    /// The terms of output `o` otherwise.
    pub open spec fn row_terms(self, o: int) -> Seq<(int, int)> {
        let t = self.taps(o);
        if t.len() <= 2 {
            Seq::new(t.len(), |k: int| (self.native_gain(o, t[k] as int), t[k] as int))
        } else {
            Seq::new(t.len(), |k: int| (self.plain_gain(o, t[k] as int), t[k] as int))
        }
    }

    /// Output `o` is one input unchanged.
    pub open spec fn is_copy(self, o: int) -> bool {
        let t = self.taps(o);
        t.len() == 1 && entry(self.matrix@, o, t[0] as int).s_same(F64 { bits: ONE_BITS })
    }

    /// Every output is the input of the same number.
    pub open spec fn is_identity(self, n: int) -> bool {
        forall|o: int| 0 <= o < n ==> #[trigger] self.is_copy(o) && self.taps(o)[0] == o
    }

    /// Sample `i` of output `o`; `old` is what is there before.
    pub open spec fn out_sample(self, o: int, s: Planes, i: int, old: u64, mustcopy: bool) -> u64 {
        let bytes = self.int_fmt.spec_bytes();
        match self.mix_any {
            Some(f) => mix_sample(self.arith(), self.fast_terms(f, o), false, s, i, bytes),
            None => if self.taps(o).len() == 0 {
                if mustcopy {
                    0
                } else {
                    old
                }
            } else if self.is_copy(o) {
                s[self.taps(o)[0] as int][i]
            } else if self.taps(o).len() <= 2 {
                mix_sample(self.arith(), self.row_terms(o), false, s, i, bytes)
            } else {
                mix_sample(self.generic_arith(), self.row_terms(o), true, s, i, bytes)
            },
        }
    }

    /// Channel `o` after the first `len` samples have been mixed.
    pub open spec fn out_row(
        self,
        o: int,
        s: Planes,
        old: Seq<u64>,
        len: int,
        mustcopy: bool,
    ) -> Seq<u64> {
        Seq::new(
            old.len(),
            |i: int|
                if i < len {
                    self.out_sample(o, s, i, old[i], mustcopy)
                } else {
                    old[i]
                },
        )
    }

    /// All channels after the mix.
    pub open spec fn out_planes(self, d: Planes, s: Planes, len: int, mustcopy: bool) -> Planes {
        Seq::new(d.len(), |o: int| self.out_row(o, s, d[o], len, mustcopy))
    }

    /// Whether output `o` can be mixed: its inputs exist and both buffers are
    /// long enough. An output without inputs asks for room only to be silenced.
    /// Nothing is missed in an empty input.
    pub open spec fn row_fits(
        self,
        o: int,
        out: AudioData,
        input: AudioData,
        len: int,
        mustcopy: bool,
    ) -> bool {
        if self.mix_any is None && self.taps(o).len() == 0 {
            mustcopy ==> len <= out.count
        } else {
            &&& len <= out.count
            &&& len <= input.count
            &&& self.mix_any is None && input.count > 0 ==> forall|k: int|
                0 <= k < self.taps(o).len() ==> #[trigger] self.taps(o)[k] < input.ch_count
        }
    }

    /// The first output from `o` on that cannot be mixed.
    pub open spec fn first_misfit(
        self,
        out: AudioData,
        input: AudioData,
        len: int,
        mustcopy: bool,
        o: int,
    ) -> int
        decreases out.ch_count - o,
    {
        if o >= out.ch_count || !self.row_fits(o, out, input, len, mustcopy) {
            o
        } else {
            self.first_misfit(out, input, len, mustcopy, o + 1)
        }
    }

    /// All channels after the first `m` of them have been mixed.
    pub open spec fn part_planes(
        self,
        d: Planes,
        s: Planes,
        len: int,
        mustcopy: bool,
        m: int,
    ) -> Planes {
        Seq::new(
            d.len(),
            |o: int|
                if o < m {
                    self.out_row(o, s, d[o], len, mustcopy)
                } else {
                    d[o]
                },
        )
    }

    /// The whole input can be taken over.
    pub open spec fn takes_over(self, out: AudioData, input: AudioData, mustcopy: bool) -> bool {
        &&& self.mix_any is None
        &&& !mustcopy
        &&& out.ch_count == input.ch_count
        &&& out.count == input.count
        &&& out.bps == input.bps
        &&& out.fmt == input.fmt
        &&& self.is_identity(out.ch_count as int)
    }
}

/// Bytes of the samples of an arithmetic.
pub open spec fn width_ok(a: Arith, bytes: nat) -> bool {
    match a {
        Arith::S16 | Arith::S16Clip => bytes == 2,
        Arith::Low16 => bytes == 2 || bytes == 4,
        Arith::S32 | Arith::Flt => bytes == 4,
        Arith::Dbl => bytes == 8,
    }
}

/// `t / 32768`, rounded towards negative infinity.
fn shift15(t: i128) -> (r: i128)
    requires
        -0x8000_0000_0000_0000 <= t <= 0x7fff_ffff_ffff_ffff,
    ensures
        r == t as int / 32768,
{
    let u: u128 = (t + 0x8000_0000_0000_0000) as u128;
    (u / 32768) as i128 - 0x1_0000_0000_0000
}

fn acc_sample_exec(a: Arith, acc: i128, bytes: usize) -> (r: u64)
    requires
        arith::acc_ok(a, acc as int),
        width_ok(a, bytes as nat),
    ensures
        r == acc_sample(a, acc as int, bytes as nat),
        r < pow2(8 * bytes as nat),
{
    proof {
        crate::bytes::lemma_byte_width(bytes as nat);
    }
    match a {
        Arith::S16 => arith::unsigned(shift15(arith::wrap_i128(acc + 16384, 32)), 0x1_0000),
        Arith::S16Clip => {
            let t: i128 = shift15(arith::wrap_i128(acc + 16384, 32));
            let c: i128 = if t < -32768 {
                -32768
            } else if t > 32767 {
                32767
            } else {
                t
            };
            arith::unsigned(c, 0x1_0000)
        },
        Arith::S32 => arith::unsigned(shift15(arith::wrap_i128(acc + 16384, 64)), 0x1_0000_0000),
        Arith::Low16 => {
            let t: i128 = shift15(arith::wrap_i128(acc + 16384, 32));
            if bytes == 2 {
                arith::unsigned(t, 0x1_0000)
            } else {
                arith::unsigned(arith::wrap_i128(t, 16), 0x1_0000_0000)
            }
        },
        Arith::Flt | Arith::Dbl => acc as u64,
    }
}

/// The terms of a kernel as mathematical numbers.
pub open spec fn terms_view(t: Seq<(i128, usize)>) -> Seq<(int, int)> {
    Seq::new(t.len(), |k: int| (t[k].0 as int, t[k].1 as int))
}

/// Mixes the first `len` samples of output channel `o`.
pub fn mix_row(
    a: Arith,
    out: &mut AudioData,
    o: usize,
    input: &AudioData,
    len: usize,
    terms: &Vec<(i128, usize)>,
    from_zero: bool,
)
    requires
        old(out).wf(),
        input.wf(),
        o < old(out).ch_count,
        len <= old(out).count,
        len <= input.count,
        width_ok(a, old(out).bps as nat),
        a == Arith::Flt ==> input.bps == 4,
        forall|k: int|
            0 <= k < terms@.len() ==> #[trigger] terms@[k].1 < input.ch_count && arith::gain_ok(
                a,
                terms@[k].0 as int,
            ),
    ensures
        final(out).wf(),
        final(out).same_shape(*old(out)),
        final(out).count == old(out).count,
        final(out).chans() == old(out).chans().update(
            o as int,
            Seq::new(
                old(out).count as nat,
                |i: int|
                    if i < len {
                        mix_sample(
                            a,
                            terms_view(terms@),
                            from_zero,
                            input.chans(),
                            i,
                            old(out).bps as nat,
                        )
                    } else {
                        old(out).chans()[o as int][i]
                    },
            ),
        ),
{
    let ghost before = *out;
    let ghost tv = terms_view(terms@);
    let bytes: usize = out.bps;
    let mut i: usize = 0;
    while i < len
        invariant
            i <= len,
            before == *old(out),
            out.wf(),
            out.same_shape(before),
            out.count == before.count,
            bytes == before.bps,
            input.wf(),
            o < before.ch_count,
            len <= before.count,
            len <= input.count,
            width_ok(a, before.bps as nat),
            a == Arith::Flt ==> input.bps == 4,
            tv == terms_view(terms@),
            forall|k: int|
                0 <= k < terms@.len() ==> #[trigger] terms@[k].1 < input.ch_count && arith::gain_ok(
                    a,
                    terms@[k].0 as int,
                ),
            forall|c: int, k: int|
                0 <= c < before.ch_count && 0 <= k < before.count ==> #[trigger] out.chans()[c][k]
                    == if c == o && k < i {
                    mix_sample(a, tv, from_zero, input.chans(), k, bytes as nat)
                } else {
                    before.chans()[c][k]
                },
        decreases len - i,
    {
        let mut acc: i128 = 0;
        let mut k: usize = 0;
        while k < terms.len()
            invariant
                k <= terms@.len(),
                i < len,
                input.wf(),
                len <= input.count,
                a == Arith::Flt ==> input.bps == 4,
                tv == terms_view(terms@),
                forall|j: int|
                    0 <= j < terms@.len() ==> #[trigger] terms@[j].1 < input.ch_count && arith::gain_ok(
                        a,
                        terms@[j].0 as int,
                    ),
                acc == mix_sum(a, tv, from_zero, input.chans(), i as int, k as nat),
                arith::acc_ok(a, acc as int),
            decreases terms@.len() - k,
        {
            let (c, ch): (i128, usize) = terms[k];
            assert(terms@[k as int].1 < input.ch_count);
            let x: u64 = input.load(ch, i);
            proof {
                crate::bytes::lemma_byte_width(input.bps as nat);
            }
            let p: i128 = arith::product_exec(a, c, x);
            if k == 0 && !from_zero {
                acc = p;
            } else {
                acc = arith::acc_sum_exec(a, acc, p);
            }
            k = k + 1;
        }
        let v: u64 = acc_sample_exec(a, acc, bytes);
        out.store(o, i, v);
        i = i + 1;
    }
    proof {
        let want = before.chans().update(
            o as int,
            Seq::new(
                before.count as nat,
                |k: int|
                    if k < len {
                        mix_sample(a, tv, from_zero, input.chans(), k, bytes as nat)
                    } else {
                        before.chans()[o as int][k]
                    },
            ),
        );
        assert forall|c: int| 0 <= c < before.ch_count implies out.chans()[c] == #[trigger] want[c] by {
            assert(out.chans()[c] =~= want[c]);
        }
        assert(out.chans() =~= want);
    }
}


proof fn lemma_used_bound(row: Seq<F64>, n: nat)
    requires
        n <= 64,
    ensures
        used_inputs(row, n).len() <= n,
        forall|k: int| 0 <= k < used_inputs(row, n).len() ==> #[trigger] used_inputs(row, n)[k] < n,
    decreases n,
{
    if n > 0 {
        lemma_used_bound(row, (n - 1) as nat);
    }
}

impl RematrixContext {
    fn arith_exec(&self) -> (r: Arith)
        ensures
            r == self.arith(),
    {
        match self.int_fmt {
            SampleFormat::S16p => if self.clip_s16 {
                Arith::S16Clip
            } else {
                Arith::S16
            },
            SampleFormat::S32p => Arith::S32,
            SampleFormat::Fltp => Arith::Flt,
            _ => Arith::Dbl,
        }
    }

    fn native_gain_exec(&self, o: usize, i: usize) -> (r: i128)
        requires
            self.ready(),
            o < self.out_nb,
            i < self.in_nb,
        ensures
            r == self.native_gain(o as int, i as int),
            arith::gain_ok(self.arith(), r as int),
    {
        let n: usize = self.in_nb;
        proof {
            lemma_row_order(n as int, o as int, i as int, self.out_nb as int, 0);
            lemma_mul_is_commutative(self.in_nb as int, self.out_nb as int);
            assert(o * n <= 64 * 64) by (nonlinear_arith)
                requires
                    0 <= o <= 64,
                    0 <= n <= 64,
            ;
        }
        match &self.native_matrix {
            NativeMatrix::Int { coeffs, .. } => {
                assert(grid(coeffs@, n as int, o as int, i as int) == diffused(
                    matrix_row(self.matrix@, o as int),
                    i as int,
                ));
                coeffs[o * n + i] as i128
            },
            NativeMatrix::Float { coeffs, .. } => {
                assert(grid(coeffs@, n as int, o as int, i as int) == entry(
                    self.matrix@,
                    o as int,
                    i as int,
                ).s_narrow());
                coeffs[o * n + i].bits as i128
            },
            NativeMatrix::Double { coeffs, .. } => {
                assert(grid(coeffs@, n as int, o as int, i as int) == entry(
                    self.matrix@,
                    o as int,
                    i as int,
                ));
                coeffs[o * n + i].bits as i128
            },
        }
    }

    fn plain_gain_exec(&self, o: usize, i: usize) -> (r: i128)
        requires
            self.ready(),
            o < 64,
            i < 64,
        ensures
            r == self.plain_gain(o as int, i as int),
            arith::gain_ok(self.generic_arith(), r as int),
    {
        let k: usize = 64 * o + i;
        match self.int_fmt {
            SampleFormat::S16p | SampleFormat::S32p => {
                assert(self.matrix32@[k as int] == fixed(self.matrix@[k as int]));
                self.matrix32[k] as i128
            },
            SampleFormat::Fltp => {
                assert(self.matrix_flt@[k as int] == self.matrix@[k as int].s_narrow());
                self.matrix_flt[k].bits as i128
            },
            _ => self.matrix[k].bits as i128,
        }
    }

    fn is_copy_exec(&self, o: usize) -> (r: bool)
        requires
            self.ready(),
            o < 64,
        ensures
            r == self.is_copy(o as int),
    {
        proof {
            lemma_used_bound(matrix_row(self.matrix@, o as int), 64);
        }
        assert(self.matrix_ch@[o as int]@ == self.taps(o as int));
        if self.matrix_ch[o].len() != 1 {
            return false;
        }
        let i: usize = self.matrix_ch[o][0];
        assert(self.taps(o as int)[0] < 64);
        self.matrix[64 * o + i].same(F64 { bits: ONE_BITS })
    }

    /// The terms of one output row.
    fn row_terms_exec(&self, o: usize) -> (r: Vec<(i128, usize)>)
        requires
            self.ready(),
            o < self.out_nb,
            forall|k: int|
                0 <= k < self.taps(o as int).len() ==> #[trigger] self.taps(o as int)[k]
                    < self.in_nb,
        ensures
            terms_view(r@) == self.row_terms(o as int),
            forall|k: int|
                0 <= k < r@.len() ==> #[trigger] r@[k].1 < self.in_nb && arith::gain_ok(
                    if self.taps(o as int).len() <= 2 {
                        self.arith()
                    } else {
                        self.generic_arith()
                    },
                    r@[k].0 as int,
                ),
    {
        let ghost taps = self.taps(o as int);
        assert(self.matrix_ch@[o as int]@ == taps);
        let n: usize = self.matrix_ch[o].len();
        let mut r: Vec<(i128, usize)> = Vec::new();
        let mut k: usize = 0;
        while k < n
            invariant
                k <= n,
                self.ready(),
                o < self.out_nb,
                taps == self.taps(o as int),
                self.matrix_ch@[o as int]@ == taps,
                n == taps.len(),
                forall|j: int| 0 <= j < taps.len() ==> #[trigger] taps[j] < self.in_nb,
                r@.len() == k,
                forall|j: int|
                    0 <= j < k ==> #[trigger] terms_view(r@)[j] == self.row_terms(o as int)[j],
                forall|j: int|
                    0 <= j < k ==> #[trigger] r@[j].1 < self.in_nb && arith::gain_ok(
                        if taps.len() <= 2 {
                            self.arith()
                        } else {
                            self.generic_arith()
                        },
                        r@[j].0 as int,
                    ),
            decreases n - k,
        {
            let i: usize = self.matrix_ch[o][k];
            assert(taps[k as int] < self.in_nb);
            let g: i128 = if n <= 2 {
                self.native_gain_exec(o, i)
            } else {
                self.plain_gain_exec(o, i)
            };
            let ghost before = r@;
            r.push((g, i));
            proof {
                assert forall|j: int| 0 <= j < k + 1 implies #[trigger] terms_view(r@)[j]
                    == self.row_terms(o as int)[j] by {
                    if j < k {
                        assert(terms_view(before)[j] == self.row_terms(o as int)[j]);
                    }
                }
                assert forall|j: int| 0 <= j < k + 1 implies #[trigger] r@[j].1 < self.in_nb
                    && arith::gain_ok(
                    if taps.len() <= 2 {
                        self.arith()
                    } else {
                        self.generic_arith()
                    },
                    r@[j].0 as int,
                ) by {
                    if j < k {
                        assert(r@[j] == before[j]);
                        assert(before[j].1 < self.in_nb);
                    }
                }
            }
            k = k + 1;
        }
        assert(terms_view(r@) =~= self.row_terms(o as int));
        r
    }

    /// The terms of one output of a special kernel.
    fn fast_terms_exec(&self, f: AnyFastPath, o: usize) -> (r: Vec<(i128, usize)>)
        requires
            self.ready(),
            self.mix_any == Some(f),
            o < 2,
        ensures
            terms_view(r@) == self.fast_terms(f, o as int),
            forall|k: int|
                0 <= k < r@.len() ==> #[trigger] r@[k].1 < self.in_nb && arith::gain_ok(
                    self.arith(),
                    r@[k].0 as int,
                ),
    {
        let mut r: Vec<(i128, usize)> = Vec::new();
        r.push((self.native_gain_exec(0, 2), 2));
        r.push((self.native_gain_exec(0, 3), 3));
        r.push((self.native_gain_exec(o, o), o));
        r.push((self.native_gain_exec(o, 4 + o), 4 + o));
        match f {
            AnyFastPath::Mix6to2 => {},
            AnyFastPath::Mix8to2 => {
                r.push((self.native_gain_exec(o, 6 + o), 6 + o));
            },
        }
        assert(terms_view(r@) =~= self.fast_terms(f, o as int));
        r
    }

    proof fn lemma_identity_step(self, n: int)
        requires
            self.is_identity(n),
            self.is_copy(n),
            self.taps(n)[0] == n,
        ensures
            self.is_identity(n + 1),
    {
    }

    fn takes_over_exec(&self, out: &AudioData, input: &AudioData, mustcopy: bool) -> (r: bool)
        requires
            self.ready(),
            out.ch_count <= 64,
        ensures
            r == self.takes_over(*out, *input, mustcopy),
    {
        if self.mix_any.is_some() || mustcopy || out.ch_count != input.ch_count || out.count
            != input.count || out.bps != input.bps || out.fmt != input.fmt {
            return false;
        }
        let n: usize = out.ch_count;
        let mut o: usize = 0;
        while o < n
            invariant
                o <= n <= 64,
                n == out.ch_count,
                self.ready(),
                self.is_identity(o as int),
            decreases n - o,
        {
            assert(self.matrix_ch@[o as int]@ == self.taps(o as int));
            let copies: bool = self.is_copy_exec(o);
            if !copies {
                assert(!self.is_copy(o as int));
                return false;
            }
            if self.matrix_ch[o][0] != o {
                assert(self.is_copy(o as int) && self.taps(o as int)[0] != o);
                return false;
            }
            proof {
                self.lemma_identity_step(o as int);
            }
            o = o + 1;
        }
        assert(self.mix_any is None);
        assert(out.fmt == input.fmt);
        true
    }

    fn row_fits_exec(
        &self,
        o: usize,
        out: &AudioData,
        input: &AudioData,
        len: usize,
        mustcopy: bool,
    ) -> (r: bool)
        requires
            self.ready(),
            o < 64,
        ensures
            r == self.row_fits(o as int, *out, *input, len as int, mustcopy),
    {
        assert(self.matrix_ch@[o as int]@ == self.taps(o as int));
        let n: usize = self.matrix_ch[o].len();
        let plain: bool = self.mix_any.is_none();
        if plain && n == 0 {
            return !mustcopy || len <= out.count;
        }
        if len > out.count || len > input.count {
            return false;
        }
        if !plain || input.count == 0 {
            return true;
        }
        let mut k: usize = 0;
        while k < n
            invariant
                k <= n,
                input.count > 0,
                self.ready(),
                o < 64,
                self.matrix_ch@[o as int]@ == self.taps(o as int),
                n == self.taps(o as int).len(),
                n > 0,
                self.mix_any is None,
                forall|j: int|
                    0 <= j < k ==> #[trigger] self.taps(o as int)[j] < input.ch_count,
            decreases n - k,
        {
            if self.matrix_ch[o][k] >= input.ch_count {
                assert(self.taps(o as int)[k as int] >= input.ch_count);
                return false;
            }
            k = k + 1;
        }
        true
    }

    /// Mixes the first `len` samples of one output channel.
    fn mix_channel(
        &self,
        o: usize,
        out: &mut AudioData,
        input: &AudioData,
        len: usize,
        mustcopy: bool,
    )
        requires
            self.ready(),
            old(out).wf(),
            input.wf(),
            o < old(out).ch_count,
            old(out).ch_count <= self.out_nb,
            self.mix_any is Some ==> old(out).ch_count == self.out_nb,
            input.ch_count == self.in_nb,
            old(out).bps == self.int_fmt.spec_bytes(),
            input.bps == self.int_fmt.spec_bytes(),
            self.row_fits(o as int, *old(out), *input, len as int, mustcopy),
        ensures
            final(out).wf(),
            final(out).same_shape(*old(out)),
            final(out).count == old(out).count,
            final(out).chans() == old(out).chans().update(
                o as int,
                self.out_row(
                    o as int,
                    input.chans(),
                    old(out).chans()[o as int],
                    len as int,
                    mustcopy,
                ),
            ),
    {
        let ghost before = *out;
        let ghost want = self.out_row(
            o as int,
            input.chans(),
            before.chans()[o as int],
            len as int,
            mustcopy,
        );
        match self.mix_any {
            Some(f) => {
                let terms: Vec<(i128, usize)> = self.fast_terms_exec(f, o);
                mix_row(self.arith_exec(), out, o, input, len, &terms, false);
                assert(out.chans()[o as int] =~= want);
                assert(out.chans() =~= before.chans().update(o as int, want));
            },
            None => {
                assert(self.matrix_ch@[o as int]@ == self.taps(o as int));
                let n: usize = self.matrix_ch[o].len();
                if n == 0 {
                    if mustcopy {
                        self.fill_channel(o, out, len);
                    }
                    assert(out.chans()[o as int] =~= want);
                    assert(out.chans() =~= before.chans().update(o as int, want));
                } else if input.count == 0 {
                    assert(out.chans()[o as int] =~= want);
                    assert(out.chans() =~= before.chans().update(o as int, want));
                } else if self.is_copy_exec(o) {
                    let i: usize = self.matrix_ch[o][0];
                    assert(self.taps(o as int)[0] < input.ch_count);
                    self.copy_channel(o, i, out, input, len);
                    assert(out.chans()[o as int] =~= want);
                    assert(out.chans() =~= before.chans().update(o as int, want));
                } else {
                    let terms: Vec<(i128, usize)> = self.row_terms_exec(o);
                    if n <= 2 {
                        mix_row(self.arith_exec(), out, o, input, len, &terms, false);
                    } else {
                        let a: Arith = match self.int_fmt {
                            SampleFormat::S16p | SampleFormat::S32p => Arith::Low16,
                            SampleFormat::Fltp => Arith::Flt,
                            _ => Arith::Dbl,
                        };
                        mix_row(a, out, o, input, len, &terms, true);
                    }
                    assert(out.chans()[o as int] =~= want);
                    assert(out.chans() =~= before.chans().update(o as int, want));
                }
            },
        }
    }

    /// Silences the first `len` samples of a channel.
    fn fill_channel(&self, o: usize, out: &mut AudioData, len: usize)
        requires
            old(out).wf(),
            o < old(out).ch_count,
            len <= old(out).count,
        ensures
            final(out).wf(),
            final(out).same_shape(*old(out)),
            final(out).count == old(out).count,
            final(out).chans() == old(out).chans().update(
                o as int,
                Seq::new(
                    old(out).count as nat,
                    |i: int|
                        if i < len {
                            0u64
                        } else {
                            old(out).chans()[o as int][i]
                        },
                ),
            ),
    {
        let ghost before = *out;
        let mut i: usize = 0;
        assert(Seq::new(
            before.count as nat,
            |k: int|
                if k < 0 {
                    0u64
                } else {
                    before.chans()[o as int][k]
                },
        ) =~= before.chans()[o as int]);
        assert(before.chans().update(o as int, before.chans()[o as int]) =~= before.chans());
        while i < len
            invariant
                i <= len <= before.count,
                o < before.ch_count,
                out.wf(),
                out.same_shape(before),
                out.count == before.count,
                out.chans() == before.chans().update(
                    o as int,
                    Seq::new(
                        before.count as nat,
                        |k: int|
                            if k < i {
                                0u64
                            } else {
                                before.chans()[o as int][k]
                            },
                    ),
                ),
            decreases len - i,
        {
            let ghost was = out.chans();
            proof {
                lemma_pow2_pos(8 * out.bps as nat);
            }
            out.store(o, i, 0);
            proof {
                let next = Seq::new(
                    before.count as nat,
                    |k: int|
                        if k < i + 1 {
                            0u64
                        } else {
                            before.chans()[o as int][k]
                        },
                );
                assert(was[o as int].update(i as int, 0u64) =~= next);
                assert(out.chans() =~= before.chans().update(o as int, next));
            }
            i = i + 1;
        }
    }

    /// Copies the first `len` samples of an input channel.
    fn copy_channel(&self, o: usize, i: usize, out: &mut AudioData, input: &AudioData, len: usize)
        requires
            old(out).wf(),
            input.wf(),
            o < old(out).ch_count,
            i < input.ch_count,
            len <= old(out).count,
            len <= input.count,
            old(out).bps == input.bps,
        ensures
            final(out).wf(),
            final(out).same_shape(*old(out)),
            final(out).count == old(out).count,
            final(out).chans() == old(out).chans().update(
                o as int,
                Seq::new(
                    old(out).count as nat,
                    |k: int|
                        if k < len {
                            input.chans()[i as int][k]
                        } else {
                            old(out).chans()[o as int][k]
                        },
                ),
            ),
    {
        let ghost before = *out;
        let mut k: usize = 0;
        assert(before.chans().update(o as int, before.chans()[o as int]) =~= before.chans());
        assert(Seq::new(
            before.count as nat,
            |j: int|
                if j < 0 {
                    input.chans()[i as int][j]
                } else {
                    before.chans()[o as int][j]
                },
        ) =~= before.chans()[o as int]);
        while k < len
            invariant
                k <= len <= before.count,
                len <= input.count,
                input.wf(),
                o < before.ch_count,
                i < input.ch_count,
                out.wf(),
                out.same_shape(before),
                out.count == before.count,
                before.bps == input.bps,
                out.chans() == before.chans().update(
                    o as int,
                    Seq::new(
                        before.count as nat,
                        |j: int|
                            if j < k {
                                input.chans()[i as int][j]
                            } else {
                                before.chans()[o as int][j]
                            },
                    ),
                ),
            decreases len - k,
        {
            let ghost was = out.chans();
            let v: u64 = input.load(i, k);
            out.store(o, k, v);
            proof {
                let next = Seq::new(
                    before.count as nat,
                    |j: int|
                        if j < k + 1 {
                            input.chans()[i as int][j]
                        } else {
                            before.chans()[o as int][j]
                        },
                );
                assert(was[o as int].update(k as int, v) =~= next);
                assert(out.chans() =~= before.chans().update(o as int, next));
            }
            k = k + 1;
        }
    }

    /// Mixes the first `len` samples of every channel. Without `mustcopy` the
    /// output may take over the input where nothing is mixed, and outputs
    /// without inputs keep what they hold.
    pub fn rematrix(
        &self,
        out: &mut AudioData,
        input: &AudioData,
        len: usize,
        mustcopy: bool,
    ) -> (r: Result<(), Error>)
        requires
            self.ready(),
            old(out).wf(),
            input.wf(),
            old(out).ch_count <= self.out_nb,
            self.mix_any is Some ==> old(out).ch_count == self.out_nb,
            input.ch_count == self.in_nb,
            old(out).bps == self.int_fmt.spec_bytes(),
            input.bps == self.int_fmt.spec_bytes(),
        ensures
            final(out).wf(),
            final(out).same_shape(*old(out)),
            final(out).count == old(out).count,
            ({
                let planar = input.planar && old(out).planar;
                let whole = self.takes_over(*old(out), *input, mustcopy);
                let fits = forall|o: int|
                    0 <= o < old(out).ch_count ==> #[trigger] self.row_fits(
                        o,
                        *old(out),
                        *input,
                        len as int,
                        mustcopy,
                    );
                &&& r.is_ok() == (planar && (whole || fits))
                &&& r matches Err(e) ==> if !planar {
                    &&& *final(out) == *old(out)
                    &&& e.is_invalid(
                        "swri_rematrix requires planar internal-format buffers (swresample.c:405-411)"@,
                    )
                } else {
                    &&& e == Error::BufferTooSmall
                    &&& final(out).chans() == self.part_planes(
                        old(out).chans(),
                        input.chans(),
                        len as int,
                        mustcopy,
                        self.first_misfit(*old(out), *input, len as int, mustcopy, 0),
                    )
                }
                &&& r is Ok ==> final(out).chans() == if whole {
                    input.chans()
                } else {
                    self.out_planes(old(out).chans(), input.chans(), len as int, mustcopy)
                }
            }),
    {
        if !input.planar || !out.planar {
            return Err(
                invalid(
                    "swri_rematrix requires planar internal-format buffers (swresample.c:405-411)",
                ),
            );
        }
        if self.takes_over_exec(out, input, mustcopy) {
            let ghost before = *out;
            out.data = input.data.clone();
            proof {
                assert(out.data@ =~= input.data@);
                crate::audio::lemma_same_bytes(*out, *input);
            }
            return Ok(());
        }
        let ghost before = *out;
        let n: usize = out.ch_count;
        let mut o: usize = 0;
        while o < n
            invariant
                o <= n,
                before == *old(out),
                n == before.ch_count,
                self.ready(),
                out.wf(),
                input.wf(),
                out.same_shape(before),
                out.count == before.count,
                input.planar && before.planar,
                !self.takes_over(before, *input, mustcopy),
                n <= self.out_nb,
                self.mix_any is Some ==> n == self.out_nb,
                self.first_misfit(before, *input, len as int, mustcopy, 0) == self.first_misfit(
                    before,
                    *input,
                    len as int,
                    mustcopy,
                    o as int,
                ),
                input.ch_count == self.in_nb,
                before.bps == self.int_fmt.spec_bytes(),
                input.bps == self.int_fmt.spec_bytes(),
                forall|p: int|
                    0 <= p < o ==> #[trigger] self.row_fits(p, before, *input, len as int, mustcopy),
                forall|p: int|
                    0 <= p < n ==> #[trigger] out.chans()[p] == if p < o {
                        self.out_row(p, input.chans(), before.chans()[p], len as int, mustcopy)
                    } else {
                        before.chans()[p]
                    },
            decreases n - o,
        {
            assert(self.row_fits(o as int, *out, *input, len as int, mustcopy) == self.row_fits(
                o as int,
                before,
                *input,
                len as int,
                mustcopy,
            ));
            if !self.row_fits_exec(o, out, input, len, mustcopy) {
                assert(out.chans() =~= self.part_planes(
                    before.chans(),
                    input.chans(),
                    len as int,
                    mustcopy,
                    o as int,
                ));
                return Err(Error::BufferTooSmall);
            }
            let ghost was = out.chans();
            assert(was[o as int] == before.chans()[o as int]);
            self.mix_channel(o, out, input, len, mustcopy);
            proof {
                assert forall|p: int| 0 <= p < n implies #[trigger] out.chans()[p] == if p < o + 1 {
                    self.out_row(p, input.chans(), before.chans()[p], len as int, mustcopy)
                } else {
                    before.chans()[p]
                } by {
                    if p != o {
                        assert(out.chans()[p] == was[p]);
                    }
                }
            }
            o = o + 1;
        }
        assert(out.chans() =~= self.out_planes(
            before.chans(),
            input.chans(),
            len as int,
            mustcopy,
        ));
        Ok(())
    }
}

// --- whole buffers --------------------------------------------------------------------

/// The first `n` instants of every output channel.
pub open spec fn mix_block(m: RematrixContext, p: Planes, n: nat) -> Planes {
    Seq::new(m.out_nb as nat, |o: int| Seq::new(n, |i: int| m.out_sample(o, p, i, 0, true)))
}

/// No output channel asks for an input channel that is not there.
pub open spec fn mix_reaches(m: RematrixContext) -> bool {
    m.mix_any is None ==> forall|o: int, k: int|
        0 <= o < m.out_nb && 0 <= k < m.taps(o).len() ==> #[trigger] m.taps(o)[k] < m.in_nb
}

/// Mixes the first `n` instants between whole buffers.
pub fn mix_into(m: &RematrixContext, out: &mut AudioData, input: &AudioData, n: usize) -> (r: Result<
    (),
    Error,
>)
    requires
        m.ready(),
        old(out).wf(),
        input.wf(),
        old(out).ch_count == m.out_nb,
        input.ch_count == m.in_nb,
        old(out).bps == m.int_fmt.spec_bytes(),
        input.bps == m.int_fmt.spec_bytes(),
        old(out).planar,
        input.planar,
        n <= old(out).count,
        n <= input.count,
    ensures
        final(out).wf(),
        final(out).same_shape(*old(out)),
        final(out).count == old(out).count,
        r.is_ok() == (mix_reaches(*m) || input.count == 0),
        r matches Err(e) ==> e == Error::BufferTooSmall,
        r is Ok ==> final(out).chans() == crate::audio::planes_splice(
            old(out).chans(),
            0,
            mix_block(*m, input.chans(), n as nat),
            n as int,
        ),
{
    let ghost o = *out;
    let r: Result<(), Error> = m.rematrix(out, input, n, true);
    proof {
        let fits = forall|c: int|
            0 <= c < o.ch_count ==> #[trigger] m.row_fits(c, o, *input, n as int, true);
        if mix_reaches(*m) || input.count == 0 {
            assert forall|c: int| 0 <= c < o.ch_count implies #[trigger] m.row_fits(
                c,
                o,
                *input,
                n as int,
                true,
            ) by {}
            assert(fits);
        } else {
            let (c, k) = choose|c: int, k: int|
                0 <= c < m.out_nb && 0 <= k < m.taps(c).len() && !(#[trigger] m.taps(c)[k] < m.in_nb);
            assert(!m.row_fits(c, o, *input, n as int, true));
            assert(!fits);
        }
        if r is Ok {
            let a = out.chans();
            let b = crate::audio::planes_splice(
                o.chans(),
                0,
                mix_block(*m, input.chans(), n as nat),
                n as int,
            );
            assert forall|c: int| 0 <= c < o.ch_count implies a[c] == #[trigger] b[c] by {
                assert forall|i: int| 0 <= i < o.count implies #[trigger] a[c][i] == b[c][i] by {
                    if i < n {
                        lemma_old_is_idle(*m, c, input.chans(), i, o.chans()[c][i]);
                    }
                }
                assert(a[c] =~= b[c]);
            }
            assert(a =~= b);
        }
    }
    r
}

proof fn lemma_old_is_idle(m: RematrixContext, o: int, p: Planes, i: int, old: u64)
    ensures
        m.out_sample(o, p, i, old, true) == m.out_sample(o, p, i, 0, true),
{
}

proof fn lemma_sum_shift(
    a: Arith,
    terms: Seq<(int, int)>,
    from_zero: bool,
    s1: Planes,
    i1: int,
    s2: Planes,
    i2: int,
    n: nat,
)
    requires
        n <= terms.len(),
        forall|k: int| 0 <= k < terms.len() ==> s1[(#[trigger] terms[k]).1][i1] == s2[terms[k].1][i2],
    ensures
        mix_sum(a, terms, from_zero, s1, i1, n) == mix_sum(a, terms, from_zero, s2, i2, n),
    decreases n,
{
    if n > 0 {
        lemma_sum_shift(a, terms, from_zero, s1, i1, s2, i2, (n - 1) as nat);
        assert(s1[terms[n - 1].1][i1] == s2[terms[n - 1].1][i2]);
    }
}

/// What a mixed sample is depends on the samples of its own instant alone.
pub proof fn lemma_mix_instant(m: RematrixContext, o: int, s1: Planes, i1: int, s2: Planes, i2: int)
    requires
        m.ready(),
        mix_reaches(m),
        0 <= o < m.out_nb,
        forall|t: int| 0 <= t < m.in_nb ==> s1[t][i1] == #[trigger] s2[t][i2],
    ensures
        m.out_sample(o, s1, i1, 0, true) == m.out_sample(o, s2, i2, 0, true),
{
    match m.mix_any {
        Some(f) => {
            let t = m.fast_terms(f, o);
            lemma_sum_shift(m.arith(), t, false, s1, i1, s2, i2, t.len());
        },
        None => {
            let t = m.row_terms(o);
            let u = m.taps(o);
            assert forall|k: int| 0 <= k < t.len() implies s1[(#[trigger] t[k]).1][i1]
                == s2[t[k].1][i2] by {
                assert(u[k] < m.in_nb);
            }
            if u.len() > 0 {
                assert(u[0] < m.in_nb);
            }
            lemma_sum_shift(m.arith(), t, false, s1, i1, s2, i2, t.len());
            lemma_sum_shift(m.generic_arith(), t, true, s1, i1, s2, i2, t.len());
        },
    }
}

/// One channel of unknown position is mixed like mono.
pub proof fn lemma_lone_channel(l: ChannelLayout, other: ChannelLayout)
    requires
        l.order == Order::Unspecified,
        l.nb_channels == 1,
    ensures
        effective_in(l, other) == effective_in(ChannelLayout::spec_mono(), other),
        effective_out(l, other) == effective_out(ChannelLayout::spec_mono(), other),
        effective_in(other, l) == effective_in(other, ChannelLayout::spec_mono()),
        effective_out(other, l) == effective_out(other, ChannelLayout::spec_mono()),
{
    assert((4u64 >> 2u32) & 1 == 1) by (bit_vector);
    assert(cleaned(ChannelLayout::spec_mono()) == ChannelLayout::spec_mono());
}

/// Where the input has no speakers of a stereo downmix, a stereo downmix is mixed
/// for like stereo.
pub proof fn lemma_downmix_is_stereo(i: ChannelLayout)
    requires
        no_downmix(cleaned(i)),
    ensures
        effective_out(i, ChannelLayout::spec_stereo_downmix()) == effective_out(
            i,
            ChannelLayout::spec_stereo(),
        ),
        effective_in(i, ChannelLayout::spec_stereo_downmix()) == effective_in(
            i,
            ChannelLayout::spec_stereo(),
        ),
{
}

} // verus!
