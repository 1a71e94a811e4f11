//! What scaling with tables keeps of a picture.
use crate::arith;
use crate::float;
use crate::float::{Format, F64};
use crate::nearness;
use crate::pixels::ChromaLocation;
use crate::scalefilter;
use crate::scalefilter::{Axis, SwsFilter, TableScaler, ONE_H, ONE_V};
use crate::scaleplan;
use crate::scaleplan::{FilterPlan, Grid, PlanWeights};
use vstd::arithmetic::div_mod::*;
use vstd::arithmetic::power2::*;
use vstd::prelude::*;

verus! {

// --- units --------------------------------------------------------------------------------

proof fn lemma_log(x: int)
    ensures
        0 <= scalefilter::log2_floor(x),
    decreases x,
{
    if x > 1 {
        lemma_log(x / 2);
    }
}

/// What a coefficient of one is: a power of two.
proof fn lemma_one(ax: Axis) -> (k: nat)
    ensures
        46 <= k <= 54,
        ax.one() == pow2(k),
        ax.one() == 2 * pow2((k - 1) as nat),
        ax.one() == 0x4000_0000_0000 * pow2((k - 46) as nat),
        ax.one() >= 0x4000_0000_0000,
{
    let l = scalefilter::log2_floor(ax.src_len as int / ax.dst_len as int);
    lemma_log(ax.src_len as int / ax.dst_len as int);
    let k: nat = if l < 8 {
        (54 - l) as nat
    } else {
        46
    };
    lemma_pow2_unfold(k);
    lemma_pow2_adds(46, (k - 46) as nat);
    lemma2_to64_rest();
    lemma_pow2_pos((k - 46) as nat);
    k
}

/// Half of one is no negligible weight.
proof fn lemma_matters(ax: Axis, c: int)
    requires
        2 * c >= ax.one(),
    ensures
        scalefilter::matters(c, ax.one()),
{
    let k = lemma_one(ax);
    if c <= i64::MAX {
        float::lemma_thousandths(k, c);
    }
}

// --- sums ---------------------------------------------------------------------------------

proof fn lemma_sum_of_weights(f: Seq<int>, a: int, b: int)
    requires
        0 <= a,
        b <= f.len(),
        forall|j: int| 0 <= j < f.len() ==> #[trigger] f[j] >= 0,
    ensures
        0 <= scalefilter::span_sum(f, a, b),
    decreases b - a,
{
    if a < b {
        lemma_sum_of_weights(f, a, b - 1);
    }
}

proof fn lemma_weight_in_sum(f: Seq<int>, n: int, j: int)
    requires
        0 <= j < n <= f.len(),
        forall|t: int| 0 <= t < f.len() ==> #[trigger] f[t] >= 0,
    ensures
        f[j] <= scalefilter::span_sum(f, 0, n),
    decreases n,
{
    if j + 1 < n {
        lemma_weight_in_sum(f, n - 1, j);
    } else {
        lemma_sum_of_weights(f, 0, j);
    }
}

// --- rows ---------------------------------------------------------------------------------

/// A row without negative weights that is heavy enough is sound.
proof fn lemma_sound(ax: Axis, w: Seq<F64>, one: int, i: int)
    requires
        ax.wf(),
        0 <= i < ax.dst_len,
        1 <= one <= 0x4000,
        forall|j: int| 0 <= j < ax.trimmed(w, i).0.len() ==> #[trigger] ax.trimmed(w, i).0[j] >= 0,
        one * (one + 1) <= scalefilter::span_sum(ax.trimmed(w, i).0, 0, ax.taps(w) as int),
    ensures
        scaleplan::sound_row(ax, w, one, i),
{
    let n = ax.taps(w) as int;
    let (r, p) = ax.trimmed(w, i);
    let len = ax.src_len as int;
    ax.lemma_trimmed(w, i);
    ax.lemma_trimmed(w, 0);
    scaleplan::lemma_widest(ax, w, 0);
    let cut = r.subrange(0, n);
    let g = ax.edged_row(w, i);
    let d = scalefilter::divisor(g, one);
    let s = scalefilter::span_sum(g, 0, n);
    scaleplan::lemma_same_span(r, cut, n as nat);
    scaleplan::lemma_edges_keep_weight(cut, p, len);
    assert forall|j: int| 0 <= j < g.len() implies #[trigger] g[j] >= 0 by {
        lemma_sum_of_weights(cut, 0, scalefilter::between(-p, 0, n));
        lemma_sum_of_weights(cut, scalefilter::between(len - p, 0, n), n);
    }
    lemma_fundamental_div_mod(s + one / 2, one);
    lemma_mod_bound(s + one / 2, one);
    let q = (s + one / 2) / one;
    assert(one * (one + 1) > 0 && q >= one + 1) by (nonlinear_arith)
        requires
            one * (one + 1) <= s,
            s + one / 2 == one * q + (s + one / 2) % one,
            0 <= (s + one / 2) % one < one,
            one >= 1,
    ;
    assert(d == q);
    assert forall|j: int| 0 <= j < ax.taps(w) implies -32768 <= #[trigger] ax.tap(w, one, i, j)
        <= 32767 by {
        let t = ax.tap(w, one, i, j);
        let v = g[j] + scalefilter::left_over(g, d, j as nat);
        scalefilter::lemma_left_over(g, d, j as nat);
        scalefilter::lemma_rounds_to_nearest(v, d);
        lemma_weight_in_sum(g, n, j);
        assert(t == scalefilter::nearest(v, d));
        assert(-2 <= t <= one + 2) by (nonlinear_arith)
            requires
                -d <= 2 * (v - t * d) <= d,
                -d <= 2 * (v - g[j]) <= d,
                0 <= g[j] <= s,
                s <= one * d + one,
                d >= one + 1,
                one >= 1,
        ;
    }
}

/// Every tap is zero or at least half of one.
spec fn crisp(r: Seq<int>, one: int) -> bool {
    forall|j: int| 0 <= j < r.len() ==> ((#[trigger] r[j]) == 0 || 2 * r[j] >= one)
}

proof fn lemma_crisp_left(ax: Axis, r: Seq<int>, p: int, next: Option<int>, n: nat)
    requires
        r.len() >= 1,
        crisp(r, ax.one()),
    ensures
        ({
            let t = scalefilter::trim_left(r, p, next, 0, ax.one(), n).0;
            &&& t.len() == r.len()
            &&& crisp(t, ax.one())
            &&& scalefilter::span_sum(t, 0, r.len() as int) == scalefilter::span_sum(
                r,
                0,
                r.len() as int,
            )
        }),
    decreases n,
{
    let one = ax.one();
    let _ = lemma_one(ax);
    if r[0] != 0 {
        lemma_matters(ax, r[0]);
    } else if n > 0 && !scalefilter::matters(0, one) && !(next matches Some(q) && p >= q) {
        let len = r.len() as int;
        let s = r.subrange(1, len).push(0);
        assert forall|j: int| 0 <= j < s.len() implies ((#[trigger] s[j]) == 0 || 2 * s[j] >= one) by {
            if j + 1 < len {
                assert(s[j] == r[j + 1]);
            }
        }
        lemma_crisp_left(ax, s, p + 1, next, (n - 1) as nat);
        scaleplan::lemma_moved_sum(r, s, 1, len as nat);
        scaleplan::lemma_span_split(r, 0, 1, len);
        reveal_with_fuel(scalefilter::span_sum, 2);
    }
}

proof fn lemma_crisp_right(ax: Axis, r: Seq<int>, n: nat)
    requires
        n <= r.len(),
        crisp(r, ax.one()),
    ensures
        forall|j: int|
            scalefilter::kept(r, n, 0, ax.one()) <= j < n ==> #[trigger] r[j] == 0,
    decreases n,
{
    let _ = lemma_one(ax);
    if n > 1 {
        if r[n - 1] != 0 {
            lemma_matters(ax, r[n - 1]);
        } else {
            lemma_crisp_right(ax, r, (n - 1) as nat);
        }
    }
}

proof fn lemma_widest_covers(ax: Axis, w: Seq<F64>, a: int, i: int)
    requires
        a <= i < ax.dst_len,
    ensures
        scalefilter::kept(ax.trimmed(w, i).0, ax.raw_size() as nat, 0, ax.one()) <= ax.widest(w, a),
    decreases i - a,
{
    if a < i {
        lemma_widest_covers(ax, w, a + 1, i);
    }
}

/// A crisp row loses nothing but zeros.
proof fn lemma_crisp_row(ax: Axis, w: Seq<F64>, i: int)
    requires
        ax.wf(),
        0 <= i < ax.dst_len,
        crisp(ax.raw_row(w, i), ax.one()),
    ensures
        crisp(ax.trimmed(w, i).0, ax.one()),
        scalefilter::span_sum(ax.trimmed(w, i).0, 0, ax.taps(w) as int) == scalefilter::span_sum(
            ax.raw_row(w, i),
            0,
            ax.raw_size(),
        ),
{
    let next = if i + 1 < ax.dst_len {
        Some(ax.trimmed(w, i + 1).1)
    } else {
        None
    };
    let n = ax.raw_size();
    lemma_crisp_left(ax, ax.raw_row(w, i), ax.raw_pos(i), next, n as nat);
    let r = ax.trimmed(w, i).0;
    lemma_crisp_right(ax, r, n as nat);
    lemma_widest_covers(ax, w, 0, i);
    scaleplan::lemma_widest(ax, w, 0);
    scaleplan::lemma_zeros(r, ax.taps(w) as int, n);
    scaleplan::lemma_span_split(r, 0, ax.taps(w) as int, n);
}

// --- where nothing is scaled --------------------------------------------------------------

proof fn lemma_still_row(ax: Axis, w: Seq<F64>, i: int)
    requires
        ax.wf(),
        ax.still(),
        0 <= i < ax.dst_len,
    ensures
        ax.trimmed(w, i).0 == seq![ax.one()],
        ax.trimmed(w, i).1 == i,
        ax.widest(w, i) == 1,
    decreases ax.dst_len - i,
{
    if i + 1 < ax.dst_len {
        lemma_still_row(ax, w, i + 1);
    }
    let _ = lemma_one(ax);
    lemma_matters(ax, ax.one());
    assert(ax.raw_row(w, i) =~= seq![ax.one()]);
    reveal_with_fuel(Axis::widest, 2);
}

proof fn lemma_still_sound(ax: Axis, w: Seq<F64>, one: int, i: int)
    requires
        ax.wf(),
        ax.still(),
        0 <= i < ax.dst_len,
        1 <= one <= 0x4000,
    ensures
        scaleplan::sound_row(ax, w, one, i),
{
    lemma_still_row(ax, w, i);
    lemma_still_row(ax, w, 0);
    let _ = lemma_one(ax);
    reveal_with_fuel(scalefilter::span_sum, 2);
    assert(one * (one + 1) <= 0x4000_0000_0000) by (nonlinear_arith)
        requires
            1 <= one <= 0x4000,
    ;
    lemma_sound(ax, w, one, i);
}

/// Where nothing is scaled or moved every pixel has one tap, of full weight.
proof fn lemma_still_filter(ax: Axis, w: Seq<F64>, one: int, f: SwsFilter, i: int)
    requires
        ax.wf(),
        ax.still(),
        ax.src_len == ax.dst_len,
        1 <= one <= 0x4000,
        ax.filtered(w, one, f),
        0 <= i < ax.dst_len,
    ensures
        f.size == 1,
        f.filter_pos@[i] == i,
        f.tap(i, 0) == one,
{
    lemma_still_row(ax, w, i);
    lemma_still_row(ax, w, 0);
    lemma_still_sound(ax, w, one, i);
    let r = ax.trimmed(w, i).0;
    let g = ax.edged_row(w, i);
    assert(r.subrange(0, 1) =~= r);
    reveal_with_fuel(scalefilter::span_sum, 2);
    assert(f.filter_pos@[i] == ax.pos(w, i));
    assert(g.len() == 1);
    scaleplan::lemma_edges_keep_weight(r, i, ax.src_len as int);
    let _ = lemma_one(ax);
    scaleplan::lemma_rows_add_up(g, one);
    reveal_with_fuel(scaleplan::rounded_sum, 2);
    assert(ax.tap(w, one, i, 0) == one);
    assert(f.tap(i, 0) == arith::wrap16(ax.tap(w, one, i, 0)));
}

// --- where the kernel is a trapezoid ------------------------------------------------------

/// The two taps of linear interpolation add up to one, and no less than half of
/// it is kept.
proof fn lemma_linear_row(ax: Axis, w: Seq<F64>, i: int)
    requires
        ax.wf(),
        ax.linear(),
        0 <= i < ax.dst_len,
    ensures
        forall|j: int| 0 <= j < ax.trimmed(w, i).0.len() ==> #[trigger] ax.trimmed(w, i).0[j] >= 0,
        2 * scalefilter::span_sum(ax.trimmed(w, i).0, 0, ax.taps(w) as int) >= ax.one(),
{
    let one = ax.one();
    let _ = lemma_one(ax);
    let u = one / 65536;
    assert(one == 65536 * u);
    let place = ax.place(i);
    let m = place % 65536;
    let pos = ax.raw_pos(i);
    assert(place == pos * 65536 + m);
    let c0 = ax.raw_tap(w, i, 0);
    let c1 = ax.raw_tap(w, i, 1);
    assert(m * u >= 0 && (65536 - m) * u >= 0 && one - m * u == (65536 - m) * u && one - (65536 - m)
        * u == m * u) by (nonlinear_arith)
        requires
            one == 65536 * u,
            u >= 0,
            0 <= m < 65536,
    ;
    assert(c0 == (65536 - m) * u);
    assert(c1 == m * u);
    let next = if i + 1 < ax.dst_len {
        Some(ax.trimmed(w, i + 1).1)
    } else {
        None
    };
    let raw = ax.raw_row(w, i);
    assert(raw =~= seq![c0, c1]);
    let moved = raw.subrange(1, 2).push(0);
    assert(moved =~= seq![c1, 0int]);
    if 2 * c0 >= one {
        lemma_matters(ax, c0);
    }
    if 2 * c1 >= one {
        lemma_matters(ax, c1);
    }
    lemma_matters(ax, one);
    let (r, p) = ax.trimmed(w, i);
    reveal_with_fuel(scalefilter::trim_left, 3);
    assert(r == raw || (r == moved && 2 * c1 > one));
    reveal_with_fuel(scalefilter::kept, 3);
    reveal_with_fuel(scalefilter::span_sum, 3);
    lemma_widest_covers(ax, w, 0, i);
    scaleplan::lemma_widest(ax, w, 0);
    ax.lemma_trimmed(w, 0);
    assert(ax.taps(w) == 1 || ax.taps(w) == 2);
}

/// A trapezoid has no small values but zero.
proof fn lemma_area_crisp(ax: Axis, w: Seq<F64>, i: int)
    requires
        ax.general(),
        ax.scaler == TableScaler::Area,
    ensures
        crisp(ax.raw_row(w, i), ax.one()),
{
    let k = lemma_one(ax);
    let one = ax.one();
    let u = pow2((k - 46) as nat) as int;
    assert(one / 0x4000_0000_0000 == u);
    let r = ax.raw_row(w, i);
    assert forall|j: int| 0 <= j < r.len() implies ((#[trigger] r[j]) == 0 || 2 * r[j] >= one) by {
        let p = arith::wrap64((ax.distance(i, j) - 0x2000_0000) * ax.x_inc);
        let c = if p < -0x2000_0000_0000 {
            0x4000_0000_0000
        } else if p < 0x2000_0000_0000 {
            0x4000_0000_0000 - p
        } else {
            0
        };
        assert(r[j] == c * u);
        assert(0 * u == 0) by (nonlinear_arith);
        if c != 0 {
            assert(2 * (c * u) >= 0x4000_0000_0000 * u) by (nonlinear_arith)
                requires
                    2 * c >= 0x4000_0000_0000,
                    u >= 0,
            ;
        }
    }
}

/// An axis as it is made for scaling a picture.
pub open spec fn usual(ax: Axis) -> bool {
    &&& ax.wf()
    &&& ax.x_inc == scalefilter::spec_x_inc(ax.src_len as int, ax.dst_len as int)
    &&& ax.src_pos <= 192
    &&& ax.dst_pos == 128
}

/// A tap of a row that lies no more than one pixel from its place.
proof fn lemma_near_tap(ax: Axis, i: int) -> (j: int)
    requires
        usual(ax),
        ax.general(),
        ax.scaler == TableScaler::Area,
        0 <= i,
    ensures
        0 <= j < ax.raw_size(),
        -131072 <= (ax.raw_pos(i) + j) * 131072 - ax.place(i) <= 131072,
{
    let size = ax.raw_size();
    let x = ax.x_inc as int;
    let place = ax.place(i);
    assert(2 * i * x >= 0) by (nonlinear_arith)
        requires
            i >= 0,
            x >= 0,
    ;
    assert(place >= x - 98304);
    let u = place - (size - 2) * 65536;
    let r = ax.raw_pos(i);
    assert(size >= 1);
    if u >= 0 {
        let e = r * 131072 - u;
        assert(-131072 < e <= 0);
        let j = if size % 2 == 0 {
            (size - 2) / 2
        } else {
            (size - 1) / 2
        };
        assert((r + j) * 131072 == r * 131072 + j * 131072);
        j
    } else {
        let e = r * 131072 - u;
        assert(0 <= e < 131072);
        let j = if size % 2 == 0 {
            (size - 2) / 2
        } else {
            (size - 3) / 2
        };
        assert((r + j) * 131072 == r * 131072 + j * 131072);
        j
    }
}

/// The nearest tap of a trapezoid weighs at least half of one.
proof fn lemma_area_weight(ax: Axis, w: Seq<F64>, i: int)
    requires
        usual(ax),
        ax.general(),
        ax.scaler == TableScaler::Area,
        ax.x_inc <= 0x4_0000_0000,
        0 <= i < ax.dst_len,
    ensures
        2 * scalefilter::span_sum(ax.raw_row(w, i), 0, ax.raw_size()) >= ax.one(),
{
    let src = ax.src_len as int;
    let dst = ax.dst_len as int;
    let x = ax.x_inc as int;
    let k = lemma_one(ax);
    let one = ax.one();
    let unit = pow2((k - 46) as nat) as int;
    assert(one / 0x4000_0000_0000 == unit);
    lemma_fundamental_div_mod(src * 65536 + dst / 2, dst);
    lemma_mod_bound(src * 65536 + dst / 2, dst);
    assert(x * dst <= src * 65536 + dst / 2) by (nonlinear_arith)
        requires
            src * 65536 + dst / 2 == dst * x + (src * 65536 + dst / 2) % dst,
            0 <= (src * 65536 + dst / 2) % dst,
    ;
    assert(dst < src) by (nonlinear_arith)
        requires
            x * dst <= src * 65536 + dst / 2,
            x >= 65537,
            dst >= 1,
    ;
    let j = lemma_near_tap(ax, i);
    let t = (ax.raw_pos(i) + j) * 131072 - ax.place(i);
    let d0 = (if t < 0 {
        -t
    } else {
        t
    }) * 8192;
    let d = d0 * dst / src;
    lemma_fundamental_div_mod(d0 * dst, src);
    lemma_mod_bound(d0 * dst, src);
    assert(0 <= d && d * src <= 0x4000_0000 * dst && d <= 0x4000_0000) by (nonlinear_arith)
        requires
            d0 * dst == src * d + (d0 * dst) % src,
            0 <= (d0 * dst) % src < src,
            0 <= d0 <= 0x4000_0000,
            1 <= dst < src,
    ;
    assert(ax.distance(i, j) == d);
    let v = (d - 0x2000_0000) * x;
    assert(d * x < 0x4000_2000_0000) by {
        assert(d * x * src * dst <= 0x4000_0000 * dst * (src * 65536 + dst / 2)) by (nonlinear_arith)
            requires
                0 <= d * src <= 0x4000_0000 * dst,
                0 <= x * dst <= src * 65536 + dst / 2,
        ;
        assert(d * x < 0x4000_2000_0000) by (nonlinear_arith)
            requires
                d * x * src * dst <= 0x4000_0000 * dst * (src * 65536 + dst / 2),
                1 <= dst < src,
        ;
    }
    assert(v < 0x2000_0000_0000 && v >= -0x8000_0000_0000_0000) by (nonlinear_arith)
        requires
            v == (d - 0x2000_0000) * x,
            d * x < 0x4000_2000_0000,
            65537 <= x <= 0x4_0000_0000,
            0 <= d,
    ;
    assert(arith::wrap64(v) == v);
    let c = ax.raw_tap(w, i, j);
    assert(2 * c >= one) by {
        let b = if v < -0x2000_0000_0000 {
            0x4000_0000_0000
        } else {
            0x4000_0000_0000 - v
        };
        assert(c == b * unit);
        assert(2 * (b * unit) >= 0x4000_0000_0000 * unit) by (nonlinear_arith)
            requires
                2 * b >= 0x4000_0000_0000,
                unit >= 0,
        ;
    }
    lemma_area_crisp(ax, w, i);
    let r = ax.raw_row(w, i);
    assert(r[j] == c);
    assert forall|q: int| 0 <= q < r.len() implies #[trigger] r[q] >= 0 by {}
    lemma_weight_in_sum(r, ax.raw_size(), j);
}

/// Every row of a trapezoid is sound, whether the picture grows or shrinks, as
/// long as it does not shrink so much that a distance times `x_inc` is no number
/// of 64 bits.
pub proof fn lemma_area_sound(ax: Axis, w: Seq<F64>, one: int, i: int)
    requires
        usual(ax),
        ax.scaler == TableScaler::Area || ax.still(),
        ax.x_inc <= 0x4_0000_0000,
        1 <= one <= 0x4000,
        0 <= i < ax.dst_len,
    ensures
        scaleplan::sound_row(ax, w, one, i),
{
    let _ = lemma_one(ax);
    if ax.still() {
        lemma_still_sound(ax, w, one, i);
    } else {
        if ax.linear() {
            lemma_linear_row(ax, w, i);
        } else {
            lemma_area_crisp(ax, w, i);
            lemma_crisp_row(ax, w, i);
            lemma_area_weight(ax, w, i);
        }
        assert(2 * (one * (one + 1)) <= 0x4000_0000_0000) by (nonlinear_arith)
            requires
                1 <= one <= 0x4000,
        ;
        lemma_sound(ax, w, one, i);
    }
}

// --- pictures -----------------------------------------------------------------------------

/// The tables of a trapezoid are balanced: every row adds up to one within the
/// picture, and is zero beyond it.
proof fn lemma_area_filter(ax: Axis, w: Seq<F64>, one: int, f: SwsFilter)
    requires
        usual(ax),
        ax.scaler == TableScaler::Area || ax.still(),
        ax.x_inc <= 0x4_0000_0000,
        1 <= one <= 0x4000,
        ax.filtered(w, one, f),
    ensures
        scaleplan::balanced(f, ax.src_len as int, one),
        forall|i: int, j: int|
            0 <= i < f.rows() && 0 <= j < f.size && f.filter_pos@[i] + j >= ax.src_len
                ==> #[trigger] f.tap(i, j) == 0,
{
    assert forall|i: int| 0 <= i < ax.dst_len implies #[trigger] scaleplan::sound_row(
        ax,
        w,
        one,
        i,
    ) by {
        lemma_area_sound(ax, w, one, i);
    }
    scaleplan::lemma_filter_balanced(ax, w, one, f);
}

proof fn lemma_usual(src: int, dst: int)
    requires
        1 <= src < i32::MAX,
        1 <= dst < i32::MAX,
    ensures
        0 <= scalefilter::spec_x_inc(src, dst) <= 0x1_0000_0000_0000,
{
    let t = src * 65536 + dst / 2;
    assert(0 <= t / dst <= t) by (nonlinear_arith)
        requires
            t >= 0,
            dst >= 1,
    ;
}

/// A picture shrinks no more than the trapezoid allows for.
pub open spec fn moderate(src: int, dst: int) -> bool {
    &&& 1 <= src < i32::MAX
    &&& 1 <= dst < i32::MAX
    &&& scalefilter::spec_x_inc(src, dst) <= 0x4_0000_0000
    &&& scalefilter::spec_x_inc((src + 1) / 2, (dst + 1) / 2) <= 0x4_0000_0000
}

/// Rows of the tables for area scaling add up to one, whatever the sizes, and are
/// zero beyond the picture.
pub proof fn lemma_area_balanced(
    src: (int, int),
    dst: (int, int),
    loc: ChromaLocation,
    w: PlanWeights,
    plan: FilterPlan,
)
    requires
        moderate(src.0, dst.0),
        moderate(src.1, dst.1),
        scaleplan::planned(scaleplan::spec_axes(TableScaler::Area, src, dst, loc), w, plan),
    ensures
        scaleplan::balanced(plan.h_lum, src.0, ONE_H as int),
        scaleplan::balanced(plan.v_lum, src.1, ONE_V as int),
        scaleplan::balanced(plan.h_chr, (src.0 + 1) / 2, ONE_H as int),
        scaleplan::balanced(plan.v_chr, (src.1 + 1) / 2, ONE_V as int),
        forall|i: int, j: int|
            0 <= i < dst.0 && 0 <= j < plan.h_lum.size && plan.h_lum.filter_pos@[i] + j >= src.0
                ==> #[trigger] plan.h_lum.tap(i, j) == 0,
        forall|i: int, j: int|
            0 <= i < dst.1 && 0 <= j < plan.v_lum.size && plan.v_lum.filter_pos@[i] + j >= src.1
                ==> #[trigger] plan.v_lum.tap(i, j) == 0,
        forall|i: int, j: int|
            0 <= i < (dst.0 + 1) / 2 && 0 <= j < plan.h_chr.size && plan.h_chr.filter_pos@[i] + j
                >= (src.0 + 1) / 2 ==> #[trigger] plan.h_chr.tap(i, j) == 0,
        forall|i: int, j: int|
            0 <= i < (dst.1 + 1) / 2 && 0 <= j < plan.v_chr.size && plan.v_chr.filter_pos@[i] + j
                >= (src.1 + 1) / 2 ==> #[trigger] plan.v_chr.tap(i, j) == 0,
{
    let a = scaleplan::spec_axes(TableScaler::Area, src, dst, loc);
    lemma_usual(src.0, dst.0);
    lemma_usual(src.1, dst.1);
    lemma_usual((src.0 + 1) / 2, (dst.0 + 1) / 2);
    lemma_usual((src.1 + 1) / 2, (dst.1 + 1) / 2);
    lemma_area_filter(a.h_lum, w.h_lum@, ONE_H as int, plan.h_lum);
    lemma_area_filter(a.v_lum, w.v_lum@, ONE_V as int, plan.v_lum);
    lemma_area_filter(a.h_chr, w.h_chr@, ONE_H as int, plan.h_chr);
    lemma_area_filter(a.v_chr, w.v_chr@, ONE_V as int, plan.v_chr);
}

/// Area scaling leaves a plane of one color its color, whatever the sizes.
pub proof fn lemma_area_keeps_color(
    src: (int, int),
    dst: (int, int),
    loc: ChromaLocation,
    w: PlanWeights,
    plan: FilterPlan,
    plane: Seq<u8>,
    g: Grid,
    c: u8,
    y: int,
    x: int,
)
    requires
        moderate(src.0, dst.0),
        moderate(src.1, dst.1),
        scaleplan::planned(scaleplan::spec_axes(TableScaler::Area, src, dst, loc), w, plan),
        g.w == src.0,
        g.h == src.1,
        g.inside(plane.len() as int),
        forall|b: int, a: int| 0 <= b < g.h && 0 <= a < g.w ==> plane[#[trigger] g.at(b, a)] == c,
        0 <= y < dst.1,
        0 <= x < dst.0,
    ensures
        scaleplan::plane_pixel(plan.h_lum, plan.v_lum, plane, g, y, x) == c,
{
    lemma_area_balanced(src, dst, loc, w, plan);
    scaleplan::lemma_constant_plane(plan.h_lum, plan.v_lum, plane, g, c, y, x);
}

/// The same holds of chroma.
pub proof fn lemma_area_keeps_chroma(
    src: (int, int),
    dst: (int, int),
    loc: ChromaLocation,
    w: PlanWeights,
    plan: FilterPlan,
    plane: Seq<u8>,
    g: Grid,
    c: u8,
    y: int,
    x: int,
)
    requires
        moderate(src.0, dst.0),
        moderate(src.1, dst.1),
        scaleplan::planned(scaleplan::spec_axes(TableScaler::Area, src, dst, loc), w, plan),
        g.w == (src.0 + 1) / 2,
        g.h == (src.1 + 1) / 2,
        g.inside(plane.len() as int),
        forall|b: int, a: int| 0 <= b < g.h && 0 <= a < g.w ==> plane[#[trigger] g.at(b, a)] == c,
        0 <= y < (dst.1 + 1) / 2,
        0 <= x < (dst.0 + 1) / 2,
    ensures
        scaleplan::plane_pixel(plan.h_chr, plan.v_chr, plane, g, y, x) == c,
{
    lemma_area_balanced(src, dst, loc, w, plan);
    scaleplan::lemma_constant_plane(plan.h_chr, plan.v_chr, plane, g, c, y, x);
}

/// Scaling luma with tables between equal sizes copies it, whatever the kernel.
pub proof fn lemma_same_size_copies(
    alg: TableScaler,
    size: (int, int),
    loc: ChromaLocation,
    w: PlanWeights,
    plan: FilterPlan,
    plane: Seq<u8>,
    g: Grid,
    y: int,
    x: int,
)
    requires
        1 <= size.0 < i32::MAX,
        1 <= size.1 < i32::MAX,
        scaleplan::planned(scaleplan::spec_axes(alg, size, size, loc), w, plan),
        g.w == size.0,
        g.h == size.1,
        g.inside(plane.len() as int),
        0 <= y < size.1,
        0 <= x < size.0,
    ensures
        scaleplan::plane_pixel(plan.h_lum, plan.v_lum, plane, g, y, x) == plane[g.at(y, x)],
{
    let a = scaleplan::spec_axes(alg, size, size, loc);
    let h = plan.h_lum;
    let v = plan.v_lum;
    lemma_fundamental_div_mod_converse(size.0 * 65536 + size.0 / 2, size.0, 65536, size.0 / 2);
    lemma_fundamental_div_mod_converse(size.1 * 65536 + size.1 / 2, size.1, 65536, size.1 / 2);
    assert(a.h_lum.x_inc == 65536);
    assert(a.v_lum.x_inc == 65536);
    lemma_still_filter(a.h_lum, w.h_lum@, ONE_H as int, h, x);
    lemma_still_filter(a.v_lum, w.v_lum@, ONE_V as int, v, y);
    lemma_alone(h, v, plane, g, y, x);
}

/// A pixel with one tap of full weight along each axis is copied.
proof fn lemma_alone(h: SwsFilter, v: SwsFilter, plane: Seq<u8>, g: Grid, y: int, x: int)
    requires
        h.size == 1,
        h.filter_pos@[x] == x,
        h.tap(x, 0) == 16384,
        v.size == 1,
        v.filter_pos@[y] == y,
        v.tap(y, 0) == 4096,
        g.inside(plane.len() as int),
        0 <= x < g.w,
        0 <= y < g.h,
    ensures
        scaleplan::plane_pixel(h, v, plane, g, y, x) == plane[g.at(y, x)],
{
    g.lemma_row(plane.len() as int, y);
    let row = scaleplan::plane_row(plane, g.ls as int, g.w as int, y);
    let p = plane[g.at(y, x)] as int;
    assert(row[x] == p);
    reveal_with_fuel(scalefilter::h_sum, 2);
    assert(scalefilter::h_sum(h, row, x, 1) == p * 16384);
    assert(scalefilter::h_value(h, row, x) == 128 * p);
    reveal_with_fuel(scaleplan::plane_sum, 2);
    assert(scaleplan::plane_sum(h, v, plane, g, y, x, 1) == 128 * p * 4096);
}

// --- pictures of half the size --------------------------------------------------------------

/// Nothing is negligible.
proof fn lemma_nothing(ax: Axis)
    ensures
        !scalefilter::matters(0, ax.one()),
{
    let k = lemma_one(ax);
    let f = Format::Binary64;
    reveal(float::lt_bits);
    reveal(float::mul_bits);
    reveal(float::int_bits);
    nearness::lemma_zero(f);
    let a = 0x3f60_624d_d2f1_a9fcu64;
    let b = float::int_bits(f, ax.one(), 0);
    float::lemma_format(f);
    assert(!float::is_neg(f, a));
    assert(!float::is_neg(f, b));
    assert(!float::is_neg(f, float::mul_bits(f, a, b)));
}

/// The axis of a picture that is halved.
spec fn halved(n: int) -> Axis {
    scaleplan::luma_axis(TableScaler::Area, 2 * n, n)
}

proof fn lemma_halved(n: int)
    requires
        2 <= n,
        2 * n < i32::MAX,
    ensures
        halved(n).x_inc == 131072,
        halved(n).src_len == 2 * n,
        halved(n).dst_len == n,
        halved(n).wf(),
        halved(n).general(),
        halved(n).one() == 0x20_0000_0000_0000,
        2 <= halved(n).raw_size() <= 3,
{
    let ax = halved(n);
    lemma_fundamental_div_mod_converse(2 * n * 65536 + n / 2, n, 131072, n / 2);
    lemma_fundamental_div_mod_converse(2 * n, n, 2, 0);
    reveal_with_fuel(scalefilter::log2_floor, 3);
    lemma2_to64_rest();
    lemma_fundamental_div_mod_converse(1 * (2 * n) + n - 1, n, 2, n - 1);
}

proof fn lemma_halved_tap(n: int, w: Seq<F64>, i: int, j: int)
    requires
        2 <= n,
        2 * n < i32::MAX,
        0 <= i < n,
        0 <= j < halved(n).raw_size(),
    ensures
        halved(n).raw_pos(i) == 2 * i,
        halved(n).raw_tap(w, i, j) == if j < 2 {
            0x30_0000_0000_0000int
        } else {
            0
        },
{
    let ax = halved(n);
    lemma_halved(n);
    assert(ax.place(i) == 65536 + 262144 * i) by {
        assert(2 * i * 131072 == 262144 * i);
    }
    assert(ax.raw_pos(i) == 2 * i);
    let t = (2 * i + j) * 131072 - ax.place(i);
    assert(t == j * 131072 - 65536);
    let d = (if t < 0 {
        -t
    } else {
        t
    }) * 8192;
    let half_d: int = if j < 2 {
        0x1000_0000
    } else {
        0x3000_0000
    };
    assert(d == 2 * half_d);
    assert(d * n == half_d * (2 * n) + 0) by (nonlinear_arith)
        requires
            d == 2 * half_d,
    ;
    lemma_fundamental_div_mod_converse(d * n, 2 * n, half_d, 0);
    assert(ax.distance(i, j) == half_d);
    let p = (half_d - 0x2000_0000) * 131072;
    assert(p == if j < 2 {
        -0x2000_0000_0000
    } else {
        0x2000_0000_0000int
    });
    assert(arith::wrap64(p) == p);
    let k = ax.one() / 0x4000_0000_0000;
    assert(k == 128);
    assert(ax.raw_tap(w, i, j) == scalefilter::kernel_value(
        TableScaler::Area,
        half_d,
        131072,
        ax.one(),
        w[i * ax.raw_size() + j],
    ));
    if j < 2 {
        assert((0x4000_0000_0000int + 0x2000_0000_0000) * 128 == 0x30_0000_0000_0000);
    } else {
        assert(0 * k == 0);
    }
}

proof fn lemma_halved_row(n: int, w: Seq<F64>, i: int)
    requires
        2 <= n,
        2 * n < i32::MAX,
        0 <= i < n,
    ensures
        halved(n).trimmed(w, i).1 == 2 * i,
        halved(n).trimmed(w, i).0 == halved(n).raw_row(w, i),
        halved(n).widest(w, i) == 2,
    decreases n - i,
{
    let ax = halved(n);
    lemma_halved(n);
    if i + 1 < n {
        lemma_halved_row(n, w, i + 1);
    } else {
        reveal_with_fuel(Axis::widest, 2);
    }
    let r = ax.raw_row(w, i);
    assert forall|j: int| 0 <= j < r.len() implies #[trigger] r[j] == (if j < 2 {
        0x30_0000_0000_0000int
    } else {
        0
    }) by {
        lemma_halved_tap(n, w, i, j);
    }
    lemma_halved_tap(n, w, i, 0);
    lemma_matters(ax, r[0]);
    lemma_matters(ax, r[1]);
    lemma_nothing(ax);
    reveal_with_fuel(scalefilter::kept, 3);
    assert(scalefilter::kept(r, ax.raw_size() as nat, 0, ax.one()) == 2);
}

/// A picture that is halved has two taps of half the weight for each pixel, over the
/// two pixels that it covers.
proof fn lemma_halved_filter(n: int, w: Seq<F64>, one: int, f: SwsFilter, i: int)
    requires
        2 <= n,
        2 * n < i32::MAX,
        one == 16384 || one == 4096,
        halved(n).filtered(w, one, f),
        0 <= i < n,
    ensures
        f.size == 2,
        f.filter_pos@[i] == 2 * i,
        f.tap(i, 0) == one / 2,
        f.tap(i, 1) == one / 2,
{
    let ax = halved(n);
    lemma_halved(n);
    lemma_halved_row(n, w, i);
    lemma_halved_row(n, w, 0);
    lemma_halved_tap(n, w, i, 0);
    lemma_halved_tap(n, w, i, 1);
    let r = ax.raw_row(w, i);
    let cut = r.subrange(0, 2);
    let g = ax.edged_row(w, i);
    let a = 0x30_0000_0000_0000int;
    reveal_with_fuel(scalefilter::span_sum, 3);
    assert(f.filter_pos@[i] == ax.pos(w, i));
    assert(g =~= seq![a, a]);
    assert(scalefilter::span_sum(g, 0, 2) == 2 * a);
    let d = scalefilter::divisor(g, one);
    if one == 16384 {
        assert(d == 0x180_0000_0000);
    } else {
        assert(d == 0x600_0000_0000);
    }
    assert(d * (one / 2) == a);
    assert(scalefilter::nearest(a, d) == one / 2) by {
        lemma_fundamental_div_mod_converse(a + d / 2, d, one / 2, d / 2);
    }
    reveal_with_fuel(scalefilter::left_over, 2);
    assert(ax.tap(w, one, i, 0) == one / 2);
    assert((one / 2) * d == a) by (nonlinear_arith)
        requires
            d * (one / 2) == a,
    ;
    assert(ax.tap(w, one, i, 1) == one / 2);
    assert(f.tap(i, 0) == arith::wrap16(ax.tap(w, one, i, 0)));
    assert(f.tap(i, 1) == arith::wrap16(ax.tap(w, one, i, 1)));
}

proof fn lemma_pair(h: SwsFilter, row: Seq<u8>, x: int)
    requires
        h.size == 2,
        h.filter_pos@[x] == 2 * x,
        h.tap(x, 0) == 8192,
        h.tap(x, 1) == 8192,
        0 <= x,
        2 * x + 1 < row.len(),
    ensures
        scalefilter::h_value(h, row, x) == 64 * (row[2 * x] + row[2 * x + 1]),
{
    reveal_with_fuel(scalefilter::h_sum, 3);
    assert(scalefilter::h_sum(h, row, x, 2) == 8192 * (row[2 * x] + row[2 * x + 1]));
}

proof fn lemma_paired(h: SwsFilter, v: SwsFilter, plane: Seq<u8>, g: Grid, y: int, x: int)
    requires
        h.size == 2,
        h.filter_pos@[x] == 2 * x,
        h.tap(x, 0) == 8192,
        h.tap(x, 1) == 8192,
        v.size == 2,
        v.filter_pos@[y] == 2 * y,
        v.tap(y, 0) == 2048,
        v.tap(y, 1) == 2048,
        g.inside(plane.len() as int),
        0 <= x,
        2 * x + 1 < g.w,
        0 <= y,
        2 * y + 1 < g.h,
    ensures
        scaleplan::plane_pixel(h, v, plane, g, y, x) == (plane[g.at(2 * y, 2 * x)] + plane[g.at(
            2 * y,
            2 * x + 1,
        )] + plane[g.at(2 * y + 1, 2 * x)] + plane[g.at(2 * y + 1, 2 * x + 1)] + 2) / 4,
{
    g.lemma_row(plane.len() as int, 2 * y);
    g.lemma_row(plane.len() as int, 2 * y + 1);
    let r0 = scaleplan::plane_row(plane, g.ls as int, g.w as int, 2 * y);
    let r1 = scaleplan::plane_row(plane, g.ls as int, g.w as int, 2 * y + 1);
    lemma_pair(h, r0, x);
    lemma_pair(h, r1, x);
    let s0 = r0[2 * x] + r0[2 * x + 1];
    let s1 = r1[2 * x] + r1[2 * x + 1];
    reveal_with_fuel(scaleplan::plane_sum, 3);
    assert(scaleplan::plane_sum(h, v, plane, g, y, x, 2) == 131072 * (s0 + s1));
}

/// A picture that is halved by area shows the mean of each square of four pixels,
/// rounded.
pub proof fn lemma_halves_to_means(
    size: (int, int),
    loc: ChromaLocation,
    w: PlanWeights,
    plan: FilterPlan,
    plane: Seq<u8>,
    g: Grid,
    y: int,
    x: int,
)
    requires
        2 <= size.0,
        2 <= size.1,
        2 * size.0 < i32::MAX,
        2 * size.1 < i32::MAX,
        scaleplan::planned(
            scaleplan::spec_axes(TableScaler::Area, (2 * size.0, 2 * size.1), size, loc),
            w,
            plan,
        ),
        g.w == 2 * size.0,
        g.h == 2 * size.1,
        g.inside(plane.len() as int),
        0 <= y < size.1,
        0 <= x < size.0,
    ensures
        scaleplan::plane_pixel(plan.h_lum, plan.v_lum, plane, g, y, x) == (plane[g.at(2 * y, 2 * x)]
            + plane[g.at(2 * y, 2 * x + 1)] + plane[g.at(2 * y + 1, 2 * x)] + plane[g.at(
            2 * y + 1,
            2 * x + 1,
        )] + 2) / 4,
{
    let h = plan.h_lum;
    let v = plan.v_lum;
    lemma_halved_filter(size.0, w.h_lum@, ONE_H as int, h, x);
    lemma_halved_filter(size.1, w.v_lum@, ONE_V as int, v, y);
    lemma_paired(h, v, plane, g, y, x);
}

} // verus!
