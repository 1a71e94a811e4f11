//! How a limit changes a mix.
use crate::channel_layout;
use crate::channel_layout::ChannelLayout;
use crate::float;
use crate::float::F64;
use crate::mixtable;
use crate::mixtable::{Levels, MatrixEncoding};
use crate::rematrix;
use crate::rematrix::{Normalization, MATRIX_CELLS};
use vstd::prelude::*;

verus! {

// --- cells --------------------------------------------------------------------------------

proof fn lemma_apart(stride: int, a: int, b: int, c: int, d: int)
    requires
        64 <= stride,
        0 <= b < 64,
        0 <= d < 64,
        stride * a + b == stride * c + d,
    ensures
        a == c,
        b == d,
{
    assert(a == c) by (nonlinear_arith)
        requires
            64 <= stride,
            0 <= b < 64,
            0 <= d < 64,
            stride * a + b == stride * c + d,
    ;
}

proof fn lemma_inside(stride: int, a: int, b: int, len: int)
    requires
        0 <= stride,
        0 <= a < 64,
        0 <= b < 64,
        stride * 63 + 64 <= len,
    ensures
        0 <= stride * a + b < len,
{
    assert(0 <= stride * a <= stride * 63) by (nonlinear_arith)
        requires
            0 <= stride,
            0 <= a <= 63,
    ;
}

/// Entry `k` of a matrix is the cell of a pair of channels.
pub open spec fn is_cell(stride: int, k: int) -> bool {
    exists|t: int| 0 <= t < MATRIX_CELLS && k == #[trigger] rematrix::cell(stride, t)
}

/// Dividing acts once on each of the first `n` cells, and on nothing else.
proof fn lemma_divided(m: Seq<F64>, stride: int, d: F64, n: nat)
    requires
        64 <= stride,
        stride * 63 + 64 <= m.len(),
        n <= MATRIX_CELLS,
    ensures
        ({
            let r = rematrix::divided(m, stride, d, n);
            &&& r.len() == m.len()
            &&& forall|t: int|
                0 <= t < MATRIX_CELLS ==> r[#[trigger] rematrix::cell(stride, t)] == if t < n {
                    m[rematrix::cell(stride, t)].s_over(d)
                } else {
                    m[rematrix::cell(stride, t)]
                }
            &&& forall|k: int| 0 <= k < m.len() && !is_cell(stride, k) ==> #[trigger] r[k] == m[k]
        }),
    decreases n,
{
    if n > 0 {
        lemma_divided(m, stride, d, (n - 1) as nat);
        let p = rematrix::divided(m, stride, d, (n - 1) as nat);
        let r = rematrix::divided(m, stride, d, n);
        let u = rematrix::cell(stride, n - 1);
        lemma_inside(stride, (n - 1) / 64, (n - 1) % 64, m.len() as int);
        assert forall|t: int| 0 <= t < MATRIX_CELLS implies r[#[trigger] rematrix::cell(stride, t)]
            == if t < n {
            m[rematrix::cell(stride, t)].s_over(d)
        } else {
            m[rematrix::cell(stride, t)]
        } by {
            lemma_inside(stride, t / 64, t % 64, m.len() as int);
            if rematrix::cell(stride, t) == u {
                lemma_apart(stride, t / 64, t % 64, (n - 1) / 64, (n - 1) % 64);
            }
        }
        assert(is_cell(stride, u));
    }
}

/// Multiplying acts once on each of the first `n` cells, and on nothing else.
proof fn lemma_multiplied(m: Seq<F64>, stride: int, d: F64, n: nat)
    requires
        64 <= stride,
        stride * 63 + 64 <= m.len(),
        n <= MATRIX_CELLS,
    ensures
        ({
            let r = rematrix::multiplied(m, stride, d, n);
            &&& r.len() == m.len()
            &&& forall|t: int|
                0 <= t < MATRIX_CELLS ==> r[#[trigger] rematrix::cell(stride, t)] == if t < n {
                    m[rematrix::cell(stride, t)].s_times(d)
                } else {
                    m[rematrix::cell(stride, t)]
                }
            &&& forall|k: int| 0 <= k < m.len() && !is_cell(stride, k) ==> #[trigger] r[k] == m[k]
        }),
    decreases n,
{
    if n > 0 {
        lemma_multiplied(m, stride, d, (n - 1) as nat);
        let p = rematrix::multiplied(m, stride, d, (n - 1) as nat);
        let r = rematrix::multiplied(m, stride, d, n);
        let u = rematrix::cell(stride, n - 1);
        lemma_inside(stride, (n - 1) / 64, (n - 1) % 64, m.len() as int);
        assert forall|t: int| 0 <= t < MATRIX_CELLS implies r[#[trigger] rematrix::cell(stride, t)]
            == if t < n {
            m[rematrix::cell(stride, t)].s_times(d)
        } else {
            m[rematrix::cell(stride, t)]
        } by {
            lemma_inside(stride, t / 64, t % 64, m.len() as int);
            if rematrix::cell(stride, t) == u {
                lemma_apart(stride, t / 64, t % 64, (n - 1) / 64, (n - 1) % 64);
            }
        }
        assert(is_cell(stride, u));
    }
}

// --- weights ------------------------------------------------------------------------------

/// Sum of the absolute gains of output speaker `o` in a matrix, over the input
/// speakers below `n`.
pub open spec fn row_sum(m: Seq<F64>, inm: u64, outm: u64, stride: int, o: int, n: nat) -> F64
    decreases n,
{
    if n == 0 {
        F64 { bits: 0 }
    } else {
        let p = row_sum(m, inm, outm, stride, o, (n - 1) as nat);
        if rematrix::in_mask(inm, (n - 1) as u32) {
            p.s_plus(m[rematrix::speaker_cell(inm, outm, stride, o, n - 1)].s_abs())
        } else {
            p
        }
    }
}

/// The largest such sum of the output speakers below `n`.
pub open spec fn heaviest(m: Seq<F64>, inm: u64, outm: u64, stride: int, n: nat) -> F64
    decreases n,
{
    if n == 0 {
        F64 { bits: 0 }
    } else {
        let p = heaviest(m, inm, outm, stride, (n - 1) as nat);
        if rematrix::in_mask(outm, (n - 1) as u32) {
            p.s_max(row_sum(m, inm, outm, stride, n - 1, 64))
        } else {
            p
        }
    }
}

proof fn lemma_count(mask: u64, a: nat, b: nat)
    requires
        a <= b,
    ensures
        channel_layout::count_below(mask, b) <= b,
        channel_layout::count_below(mask, a) <= channel_layout::count_below(mask, b),
        a < b && rematrix::in_mask(mask, a as u32) ==> channel_layout::count_below(mask, a)
            < channel_layout::count_below(mask, b),
    decreases b,
{
    if a < b {
        lemma_count(mask, a, (b - 1) as nat);
    } else if b > 0 {
        lemma_count(mask, (a - 1) as nat, (b - 1) as nat);
    }
}

/// Each pair of speakers has a cell of its own.
proof fn lemma_own_cell(inm: u64, outm: u64, stride: int, o: int, i: int, u: int, v: int)
    requires
        64 <= stride,
        0 <= o < 64,
        0 <= i < 64,
        0 <= u < 64,
        0 <= v < 64,
        rematrix::in_mask(outm, o as u32),
        rematrix::in_mask(inm, i as u32),
        rematrix::in_mask(outm, u as u32),
        rematrix::in_mask(inm, v as u32),
        rematrix::speaker_cell(inm, outm, stride, o, i) == rematrix::speaker_cell(
            inm,
            outm,
            stride,
            u,
            v,
        ),
    ensures
        o == u,
        i == v,
{
    lemma_count(outm, o as nat, o as nat);
    lemma_count(outm, u as nat, u as nat);
    lemma_count(inm, i as nat, i as nat);
    lemma_count(inm, v as nat, v as nat);
    lemma_apart(
        stride,
        channel_layout::count_below(outm, o as nat) as int,
        channel_layout::count_below(inm, i as nat) as int,
        channel_layout::count_below(outm, u as nat) as int,
        channel_layout::count_below(inm, v as nat) as int,
    );
    if o < u {
        lemma_count(outm, o as nat, u as nat);
    } else if u < o {
        lemma_count(outm, u as nat, o as nat);
    }
    if i < v {
        lemma_count(inm, i as nat, v as nat);
    } else if v < i {
        lemma_count(inm, v as nat, i as nat);
    }
}

proof fn lemma_speaker_inside(inm: u64, outm: u64, stride: int, o: int, i: int, len: int)
    requires
        0 <= stride,
        stride * 63 + 64 <= len,
        0 <= o < 64,
        0 <= i < 64,
    ensures
        0 <= rematrix::speaker_cell(inm, outm, stride, o, i) < len,
{
    lemma_count(outm, o as nat, o as nat);
    lemma_count(inm, i as nat, i as nat);
    lemma_inside(
        stride,
        channel_layout::count_below(outm, o as nat) as int,
        channel_layout::count_below(inm, i as nat) as int,
        len,
    );
}

/// The gain of a pair of speakers is in its cell.
proof fn lemma_scattered(
    m: Seq<F64>,
    inm: u64,
    outm: u64,
    enc: MatrixEncoding,
    l: Levels,
    stride: int,
    n: nat,
    o: int,
    i: int,
)
    requires
        64 <= stride,
        stride * 63 + 64 <= m.len(),
        n <= MATRIX_CELLS,
        0 <= o < 64,
        0 <= i < 64,
        rematrix::in_mask(outm, o as u32),
        rematrix::in_mask(inm, i as u32),
    ensures
        ({
            let r = rematrix::scattered(m, inm, outm, enc, l, stride, n);
            &&& r.len() == m.len()
            &&& 64 * o + i < n ==> r[rematrix::speaker_cell(inm, outm, stride, o, i)]
                == rematrix::mixed(inm, outm, enc, l, o, i)
        }),
    decreases n,
{
    if n > 0 {
        lemma_scattered(m, inm, outm, enc, l, stride, (n - 1) as nat, o, i);
        let u = (n - 1) / 64;
        let v = (n - 1) % 64;
        lemma_speaker_inside(inm, outm, stride, o, i, m.len() as int);
        lemma_speaker_inside(inm, outm, stride, u, v, m.len() as int);
        if rematrix::in_mask(outm, u as u32) && rematrix::in_mask(inm, v as u32)
            && rematrix::speaker_cell(inm, outm, stride, o, i) == rematrix::speaker_cell(
            inm,
            outm,
            stride,
            u,
            v,
        ) {
            lemma_own_cell(inm, outm, stride, o, i, u, v);
        }
    }
}

proof fn lemma_row_sum(
    m: Seq<F64>,
    inm: u64,
    outm: u64,
    enc: MatrixEncoding,
    l: Levels,
    stride: int,
    o: int,
    n: nat,
)
    requires
        64 <= stride,
        stride * 63 + 64 <= m.len(),
        0 <= o < 64,
        n <= 64,
        rematrix::in_mask(outm, o as u32),
    ensures
        row_sum(
            rematrix::scattered(m, inm, outm, enc, l, stride, MATRIX_CELLS as nat),
            inm,
            outm,
            stride,
            o,
            n,
        ) == rematrix::row_weight(inm, outm, enc, l, o, n),
    decreases n,
{
    if n > 0 {
        lemma_row_sum(m, inm, outm, enc, l, stride, o, (n - 1) as nat);
        if rematrix::in_mask(inm, (n - 1) as u32) {
            lemma_scattered(m, inm, outm, enc, l, stride, MATRIX_CELLS as nat, o, n - 1);
        }
    }
}

proof fn lemma_heaviest(
    m: Seq<F64>,
    inm: u64,
    outm: u64,
    enc: MatrixEncoding,
    l: Levels,
    stride: int,
    n: nat,
)
    requires
        64 <= stride,
        stride * 63 + 64 <= m.len(),
        n <= 64,
    ensures
        heaviest(
            rematrix::scattered(m, inm, outm, enc, l, stride, MATRIX_CELLS as nat),
            inm,
            outm,
            stride,
            n,
        ) == rematrix::max_weight(inm, outm, enc, l, n),
    decreases n,
{
    if n > 0 {
        lemma_heaviest(m, inm, outm, enc, l, stride, (n - 1) as nat);
        if rematrix::in_mask(outm, (n - 1) as u32) {
            lemma_row_sum(m, inm, outm, enc, l, stride, n - 1, 64);
        }
    }
}

// --- the law ------------------------------------------------------------------------------

/// A gain at a volume; a volume of zero changes nothing.
pub open spec fn amplified(x: F64, volume: F64) -> F64 {
    if (F64 { bits: 0 }).s_less(volume) {
        x.s_times(volume)
    } else {
        x
    }
}

proof fn lemma_scattered_len(
    m: Seq<F64>,
    inm: u64,
    outm: u64,
    enc: MatrixEncoding,
    l: Levels,
    stride: int,
    n: nat,
)
    requires
        0 <= stride,
        stride * 63 + 64 <= m.len(),
        n <= MATRIX_CELLS,
    ensures
        rematrix::scattered(m, inm, outm, enc, l, stride, n).len() == m.len(),
    decreases n,
{
    if n > 0 {
        lemma_scattered_len(m, inm, outm, enc, l, stride, (n - 1) as nat);
        lemma_speaker_inside(inm, outm, stride, (n - 1) / 64, (n - 1) % 64, m.len() as int);
    }
}

/// A mix under a limit is the mix without one, divided by the ratio of its
/// heaviest row to the limit where that row is heavier than the limit, and the
/// same otherwise: it is never scaled up. The limit comes before the volume.
/// `free` is a limit that the mix does not reach.
pub proof fn lemma_limited_mix(
    m: Seq<F64>,
    inm: u64,
    outm: u64,
    enc: MatrixEncoding,
    l: Levels,
    limit: F64,
    free: F64,
    volume: F64,
    stride: int,
)
    requires
        64 <= stride,
        stride * 63 + 64 <= m.len(),
        !volume.s_less(F64 { bits: 0 }),
        !free.s_less(rematrix::max_weight(inm, outm, enc, l, 64)),
    ensures
        ({
            let zero = F64 { bits: 0 };
            let whole = rematrix::built_matrix(
                m,
                inm,
                outm,
                enc,
                l,
                (Normalization { maxval: free, volume: zero }),
                stride,
            );
            let limited = rematrix::built_matrix(
                m,
                inm,
                outm,
                enc,
                l,
                (Normalization { maxval: limit, volume }),
                stride,
            );
            let s = heaviest(whole, inm, outm, stride, 64);
            &&& s == rematrix::max_weight(inm, outm, enc, l, 64)
            &&& whole.len() == m.len()
            &&& limited.len() == whole.len()
            &&& forall|t: int|
                0 <= t < MATRIX_CELLS ==> limited[#[trigger] rematrix::cell(stride, t)]
                    == amplified(
                    if limit.s_less(s) {
                        whole[rematrix::cell(stride, t)].s_over(s.s_over(limit))
                    } else {
                        whole[rematrix::cell(stride, t)]
                    },
                    volume,
                )
            &&& forall|k: int|
                0 <= k < m.len() && !is_cell(stride, k) ==> #[trigger] limited[k] == whole[k]
            &&& !limit.s_less(s) && !zero.s_less(volume) ==> limited == whole
        }),
{
    reveal(float::lt_bits);
    let zero = F64 { bits: 0 };
    assert(!zero.s_less(zero));
    let m1 = rematrix::scattered(m, inm, outm, enc, l, stride, MATRIX_CELLS as nat);
    lemma_scattered_len(m, inm, outm, enc, l, stride, MATRIX_CELLS as nat);
    lemma_heaviest(m, inm, outm, enc, l, stride, 64);
    let s = rematrix::max_weight(inm, outm, enc, l, 64);
    lemma_divided(m1, stride, s.s_over(limit), MATRIX_CELLS as nat);
    let m2 = if limit.s_less(s) {
        rematrix::divided(m1, stride, s.s_over(limit), MATRIX_CELLS as nat)
    } else {
        m1
    };
    lemma_multiplied(m2, stride, volume, MATRIX_CELLS as nat);
}

/// At the usual volume of one the same holds of the matrices themselves, as long
/// as their gains are numbers: the limited one is the whole one divided by the
/// ratio of its heaviest row to the limit, or the same.
pub proof fn lemma_limited_usual_mix(
    m: Seq<F64>,
    inm: u64,
    outm: u64,
    enc: MatrixEncoding,
    l: Levels,
    limit: F64,
    free: F64,
    stride: int,
)
    requires
        64 <= stride,
        stride * 63 + 64 <= m.len(),
        !free.s_less(rematrix::max_weight(inm, outm, enc, l, 64)),
        ({
            let whole = rematrix::built_matrix(
                m,
                inm,
                outm,
                enc,
                l,
                (Normalization { maxval: free, volume: F64 { bits: 0x3ff0_0000_0000_0000 } }),
                stride,
            );
            let s = heaviest(whole, inm, outm, stride, 64);
            forall|t: int|
                0 <= t < MATRIX_CELLS ==> {
                    let x = whole[#[trigger] rematrix::cell(stride, t)];
                    !x.nan() && (limit.s_less(s) ==> !x.s_over(s.s_over(limit)).nan())
                }
        }),
    ensures
        ({
            let one = F64 { bits: 0x3ff0_0000_0000_0000 };
            let whole = rematrix::built_matrix(
                m,
                inm,
                outm,
                enc,
                l,
                (Normalization { maxval: free, volume: one }),
                stride,
            );
            let limited = rematrix::built_matrix(
                m,
                inm,
                outm,
                enc,
                l,
                (Normalization { maxval: limit, volume: one }),
                stride,
            );
            let s = heaviest(whole, inm, outm, stride, 64);
            forall|t: int|
                0 <= t < MATRIX_CELLS ==> limited[#[trigger] rematrix::cell(stride, t)]
                    == if limit.s_less(s) {
                    whole[rematrix::cell(stride, t)].s_over(s.s_over(limit))
                } else {
                    whole[rematrix::cell(stride, t)]
                }
        }),
{
    reveal(float::lt_bits);
    let zero = F64 { bits: 0 };
    let one = F64 { bits: 0x3ff0_0000_0000_0000 };
    let plain = rematrix::built_matrix(
        m,
        inm,
        outm,
        enc,
        l,
        (Normalization { maxval: free, volume: zero }),
        stride,
    );
    let whole = rematrix::built_matrix(
        m,
        inm,
        outm,
        enc,
        l,
        (Normalization { maxval: free, volume: one }),
        stride,
    );
    lemma_limited_mix(m, inm, outm, enc, l, free, free, one, stride);
    lemma_limited_mix(m, inm, outm, enc, l, limit, free, one, stride);
    assert(zero.s_less(one));
    assert forall|k: int| 0 <= k < m.len() implies #[trigger] whole[k] == plain[k] by {
        if is_cell(stride, k) {
            let t = choose|t: int|
                0 <= t < MATRIX_CELLS && k == #[trigger] rematrix::cell(stride, t);
            assert(!whole[rematrix::cell(stride, t)].nan());
            assert(whole[k] == plain[k].s_times(one));
            if plain[k].nan() {
                plain[k].lemma_nan_times(one);
            }
            plain[k].lemma_times_one();
        }
    }
    assert(whole =~= plain);
    let s = heaviest(whole, inm, outm, stride, 64);
    let limited = rematrix::built_matrix(
        m,
        inm,
        outm,
        enc,
        l,
        (Normalization { maxval: limit, volume: one }),
        stride,
    );
    assert forall|t: int| 0 <= t < MATRIX_CELLS implies limited[#[trigger] rematrix::cell(
        stride,
        t,
    )] == if limit.s_less(s) {
        whole[rematrix::cell(stride, t)].s_over(s.s_over(limit))
    } else {
        whole[rematrix::cell(stride, t)]
    } by {
        let x = if limit.s_less(s) {
            whole[rematrix::cell(stride, t)].s_over(s.s_over(limit))
        } else {
            whole[rematrix::cell(stride, t)]
        };
        assert(!x.nan());
        x.lemma_times_one();
    }
}

/// The gain of a pair of speakers stands in the row of the one that plays and in the
/// column of the one that is played. (The mix is not limited.)
pub proof fn lemma_gains_in_place(
    m: Seq<F64>,
    a: ChannelLayout,
    b: ChannelLayout,
    enc: MatrixEncoding,
    l: Levels,
    free: F64,
    stride: int,
    o: u32,
    i: u32,
)
    requires
        64 <= stride,
        stride * 63 + 64 <= m.len(),
        o < 64,
        i < 64,
        a.index_of(i) is Some,
        b.index_of(o) is Some,
        !free.s_less(rematrix::max_weight(a.mask, b.mask, enc, l, 64)),
    ensures
        rematrix::built_matrix(
            m,
            a.mask,
            b.mask,
            enc,
            l,
            (Normalization { maxval: free, volume: F64 { bits: 0 } }),
            stride,
        )[stride * b.index_of(o)->0 + a.index_of(i)->0] == mixtable::gain_value(
            mixtable::mix_gain(a.mask, b.mask, enc, o, i),
            l,
        ),
{
    reveal(float::lt_bits);
    let zero = F64 { bits: 0 };
    assert(!zero.s_less(zero));
    lemma_scattered(
        m,
        a.mask,
        b.mask,
        enc,
        l,
        stride,
        MATRIX_CELLS as nat,
        o as int,
        i as int,
    );
}

} // verus!
