//! What scaling with tables makes of single pixels.
use crate::arith;
use crate::float::F64;
use crate::mathematics;
use crate::pixels::ChromaLocation;
use crate::scalefilter;
use crate::scalefilter::{Axis, SwsFilter, TableScaler};
use crate::scaleplan;
use crate::scaleplan::Grid;
use vstd::arithmetic::div_mod::*;
use vstd::prelude::*;

verus! {

/// The tap that destination pixel `i` has for source pixel `k`; zero for pixels that
/// it does not look at.
pub open spec fn weight(f: SwsFilter, i: int, k: int) -> int {
    let j = k - f.filter_pos@[i];
    if 0 <= j < f.size {
        f.tap(i, j)
    } else {
        0
    }
}

// --- rows -----------------------------------------------------------------------------

proof fn lemma_pixel_in_sum(f: SwsFilter, src: Seq<u8>, i: int, k: int, v: u8, n: nat)
    requires
        0 <= f.filter_pos@[i],
        0 <= k < src.len(),
        n <= f.size,
    ensures
        scalefilter::h_sum(f, src.update(k, v), i, n) - scalefilter::h_sum(f, src, i, n) == if 0 <= k
            - f.filter_pos@[i] < n {
            (v - src[k]) * weight(f, i, k)
        } else {
            0
        },
    decreases n,
{
    if n > 0 {
        lemma_pixel_in_sum(f, src, i, k, v, (n - 1) as nat);
        let s = f.filter_pos@[i] + n - 1;
        if s == k {
            let t = f.tap(i, n - 1);
            assert(v * t - src[k] * t == (v - src[k]) * t) by (nonlinear_arith);
        }
    }
}

/// Changing one pixel of a row changes the sum for a destination pixel by the
/// difference times the tap over that pixel, and by nothing where there is none.
pub proof fn lemma_pixel_changes(f: SwsFilter, src: Seq<u8>, i: int, k: int, v: u8)
    requires
        f.wf(),
        f.within(src.len() as int),
        0 <= i < f.rows(),
        0 <= k < src.len(),
    ensures
        scalefilter::h_sum(f, src.update(k, v), i, f.size as nat) - scalefilter::h_sum(
            f,
            src,
            i,
            f.size as nat,
        ) == (v - src[k]) * weight(f, i, k),
{
    lemma_pixel_in_sum(f, src, i, k, v, f.size as nat);
    assert((v - src[k]) * 0 == 0);
}

proof fn lemma_lone_sum(f: SwsFilter, src: Seq<u8>, i: int, k: int, n: nat)
    requires
        0 <= f.filter_pos@[i],
        0 <= k < src.len(),
        n <= f.size,
        forall|s: int| 0 <= s < src.len() && s != k ==> #[trigger] src[s] == 0,
    ensures
        scalefilter::h_sum(f, src, i, n) == if 0 <= k - f.filter_pos@[i] < n {
            src[k] * weight(f, i, k)
        } else {
            0
        },
    decreases n,
{
    if n > 0 {
        lemma_lone_sum(f, src, i, k, (n - 1) as nat);
        let s = f.filter_pos@[i] + n - 1;
        if s != k && s < src.len() {
            assert(0 * f.tap(i, n - 1) == 0);
        }
    }
}

/// A pixel as it stands between the two passes: times its tap, over 128, at most the
/// largest 16-bit number.
pub open spec fn scaled(p: int, tap: int) -> int {
    arith::wrap16(
        if p * tap < 128 * 32767 {
            p * tap / 128
        } else {
            32767
        },
    )
}

/// A row that is black but for one pixel gives that pixel times the tap over it.
pub proof fn lemma_lone_pixel_in_row(f: SwsFilter, src: Seq<u8>, i: int, k: int)
    requires
        f.wf(),
        f.within(src.len() as int),
        0 <= i < f.rows(),
        0 <= k < src.len(),
        forall|s: int| 0 <= s < src.len() && s != k ==> #[trigger] src[s] == 0,
    ensures
        scalefilter::h_value(f, src, i) == scaled(src[k] as int, weight(f, i, k)),
{
    lemma_lone_sum(f, src, i, k, f.size as nat);
    assert(src[k] * 0 == 0);
}

proof fn lemma_sums_add(f: SwsFilter, a: Seq<u8>, b: Seq<u8>, c: Seq<u8>, i: int, n: nat)
    requires
        0 <= f.filter_pos@[i],
        a.len() == c.len(),
        b.len() == c.len(),
        forall|s: int| 0 <= s < c.len() ==> #[trigger] c[s] == a[s] + b[s],
    ensures
        scalefilter::h_sum(f, c, i, n) == scalefilter::h_sum(f, a, i, n) + scalefilter::h_sum(
            f,
            b,
            i,
            n,
        ),
    decreases n,
{
    if n > 0 {
        lemma_sums_add(f, a, b, c, i, (n - 1) as nat);
        let s = f.filter_pos@[i] + n - 1;
        if s < c.len() {
            let t = f.tap(i, n - 1);
            assert((a[s] + b[s]) * t == a[s] * t + b[s] * t) by (nonlinear_arith);
        }
    }
}

/// A row that is the sum of two rows gives the sum of what they give, up to one in
/// the last place. (No sum is to be cut off.)
pub proof fn lemma_rows_add(f: SwsFilter, a: Seq<u8>, b: Seq<u8>, c: Seq<u8>, i: int)
    requires
        f.wf(),
        f.within(c.len() as int),
        0 <= i < f.rows(),
        a.len() == c.len(),
        b.len() == c.len(),
        forall|s: int| 0 <= s < c.len() ==> #[trigger] c[s] == a[s] + b[s],
        -0x40_0000 <= scalefilter::h_sum(f, a, i, f.size as nat) < 0x3f_ff80,
        -0x40_0000 <= scalefilter::h_sum(f, b, i, f.size as nat) < 0x3f_ff80,
        -0x40_0000 <= scalefilter::h_sum(f, c, i, f.size as nat) < 0x3f_ff80,
    ensures
        0 <= scalefilter::h_value(f, c, i) - scalefilter::h_value(f, a, i) - scalefilter::h_value(
            f,
            b,
            i,
        ) <= 1,
{
    lemma_sums_add(f, a, b, c, i, f.size as nat);
}

// --- columns --------------------------------------------------------------------------

/// Changing one line changes a vertical sum by the difference times the line's tap.
pub proof fn lemma_line_changes(
    lines: Seq<Seq<i16>>,
    row: Seq<i16>,
    x: int,
    k: int,
    line: Seq<i16>,
    n: nat,
)
    requires
        0 <= k < lines.len(),
        n <= lines.len(),
    ensures
        scalefilter::v_sum(lines.update(k, line), row, x, n) - scalefilter::v_sum(lines, row, x, n)
            == if k < n {
            (line[x] - lines[k][x]) * row[k]
        } else {
            0
        },
    decreases n,
{
    if n > 0 {
        lemma_line_changes(lines, row, x, k, line, (n - 1) as nat);
        if n - 1 == k {
            let t = row[k] as int;
            assert(line[x] * t - lines[k][x] * t == (line[x] - lines[k][x]) * t) by (nonlinear_arith);
        }
    }
}

// --- planes ---------------------------------------------------------------------------

proof fn lemma_dark_row(f: SwsFilter, src: Seq<u8>, i: int, n: nat)
    requires
        0 <= f.filter_pos@[i],
        forall|s: int| 0 <= s < src.len() ==> #[trigger] src[s] == 0,
    ensures
        scalefilter::h_sum(f, src, i, n) == 0,
    decreases n,
{
    if n > 0 {
        lemma_dark_row(f, src, i, (n - 1) as nat);
        assert(0 * f.tap(i, n - 1) == 0);
    }
}

proof fn lemma_lone_plane_sum(
    h: SwsFilter,
    v: SwsFilter,
    src: Seq<u8>,
    g: Grid,
    r: int,
    c: int,
    y: int,
    x: int,
    n: nat,
)
    requires
        h.wf(),
        h.within(g.w as int),
        0 <= x < h.rows(),
        0 <= v.filter_pos@[y],
        n <= v.size,
        g.inside(src.len() as int),
        0 <= r < g.h,
        0 <= c < g.w,
        forall|s: int, t: int|
            0 <= s < g.h && 0 <= t < g.w && (s != r || t != c) ==> src[#[trigger] g.at(s, t)] == 0,
    ensures
        scaleplan::plane_sum(h, v, src, g, y, x, n) == if 0 <= r - v.filter_pos@[y] < n {
            scaled(src[g.at(r, c)] as int, weight(h, x, c)) * weight(v, y, r)
        } else {
            0
        },
    decreases n,
{
    if n > 0 {
        lemma_lone_plane_sum(h, v, src, g, r, c, y, x, (n - 1) as nat);
        let s = v.filter_pos@[y] + n - 1;
        if s < g.h {
            let row = scaleplan::plane_row(src, g.ls as int, g.w as int, s);
            g.lemma_row(src.len() as int, s);
            assert(row.len() == g.w);
            assert forall|t: int| 0 <= t < row.len() implies #[trigger] row[t] == src[g.at(s, t)] by {}
            if s == r {
                assert(row[c] == src[g.at(r, c)]);
                lemma_lone_pixel_in_row(h, row, x, c);
            } else {
                lemma_dark_row(h, row, x, h.size as nat);
                assert(scalefilter::h_value(h, row, x) == 0);
                assert(0 * v.tap(y, n - 1) == 0);
            }
        }
    }
}

/// A plane that is black but for the pixel of row `r` and column `c` gives at
/// `(x, y)` that pixel times the tap of column `x` over `c` and the tap of row `y`
/// over `r`, rounded.
pub proof fn lemma_lone_pixel(
    h: SwsFilter,
    v: SwsFilter,
    src: Seq<u8>,
    g: Grid,
    r: int,
    c: int,
    y: int,
    x: int,
)
    requires
        h.wf(),
        v.wf(),
        h.within(g.w as int),
        v.within(g.h as int),
        0 <= x < h.rows(),
        0 <= y < v.rows(),
        g.inside(src.len() as int),
        0 <= r < g.h,
        0 <= c < g.w,
        forall|s: int, t: int|
            0 <= s < g.h && 0 <= t < g.w && (s != r || t != c) ==> src[#[trigger] g.at(s, t)] == 0,
    ensures
        scaleplan::plane_pixel(h, v, src, g, y, x) == scalefilter::between(
            (scaled(src[g.at(r, c)] as int, weight(h, x, c)) * weight(v, y, r) + 0x4_0000) / 0x8_0000,
            0,
            255,
        ),
{
    lemma_lone_plane_sum(h, v, src, g, r, c, y, x, v.size as nat);
    let p = scaled(src[g.at(r, c)] as int, weight(h, x, c));
    let t = weight(v, y, r);
    assert(-0x4000_0000 <= p * t <= 0x4000_0000) by (nonlinear_arith)
        requires
            -0x8000 <= p <= 0x8000,
            -0x8000 <= t <= 0x8000,
    ;
    assert(p * 0 == 0);
}


// --- where taps lie -----------------------------------------------------------------------

/// What a row of taps that begins at pixel `p` gives pixel `s`.
pub open spec fn given(r: Seq<int>, p: int, s: int) -> int {
    if 0 <= s - p < r.len() {
        r[s - p]
    } else {
        0
    }
}

/// Cutting off the first taps of a row leaves every other tap over its pixel. What is
/// cut off does not matter.
pub proof fn lemma_trim_keeps(r: Seq<int>, p: int, next: Option<int>, cut: int, one: int, n: nat)
    requires
        r.len() >= 1,
    ensures
        ({
            let t = scalefilter::trim_left(r, p, next, cut, one, n);
            &&& t.0.len() == r.len()
            &&& p <= t.1 <= p + n
            &&& forall|s: int| s >= t.1 ==> #[trigger] given(t.0, t.1, s) == given(r, p, s)
            &&& 0 < t.1 - p <= r.len() ==> !scalefilter::matters(
                cut + cut_off(r, (t.1 - p) as nat),
                one,
            )
        }),
    decreases n,
{
    let c = cut + scalefilter::magnitude(r[0]);
    if !(n == 0 || scalefilter::matters(c, one) || (next matches Some(q) && p >= q)) {
        let m = r.subrange(1, r.len() as int).push(0);
        lemma_trim_keeps(m, p + 1, next, c, one, (n - 1) as nat);
        let t = scalefilter::trim_left(r, p, next, cut, one, n);
        assert forall|s: int| s >= t.1 implies #[trigger] given(t.0, t.1, s) == given(r, p, s) by {
            assert(given(t.0, t.1, s) == given(m, p + 1, s));
        }
        reveal_with_fuel(cut_off, 2);
        if t.1 - p > 1 && t.1 - p <= r.len() {
            lemma_cut_off(r, m, (t.1 - p - 1) as nat);
        }
    }
}

/// The weight of the first `n` taps, whatever their signs.
pub open spec fn cut_off(r: Seq<int>, n: nat) -> int
    decreases n,
{
    if n == 0 {
        0
    } else {
        cut_off(r, (n - 1) as nat) + scalefilter::magnitude(r[n - 1])
    }
}

proof fn lemma_cut_off(r: Seq<int>, m: Seq<int>, n: nat)
    requires
        r.len() >= 1,
        m == r.subrange(1, r.len() as int).push(0),
        n < r.len(),
    ensures
        cut_off(r, n + 1) == scalefilter::magnitude(r[0]) + cut_off(m, n),
    decreases n,
{
    if n == 0 {
        reveal_with_fuel(cut_off, 2);
    } else {
        lemma_cut_off(r, m, (n - 1) as nat);
        assert(m[n - 1] == r[n as int]);
    }
}

/// The weight of the taps from `a` to `b`, whatever their signs.
pub open spec fn weight_between(r: Seq<int>, a: int, b: int) -> int
    decreases b - a,
{
    if a >= b {
        0
    } else {
        weight_between(r, a + 1, b) + scalefilter::magnitude(r[a])
    }
}

proof fn lemma_weight_last(r: Seq<int>, a: int, b: int)
    requires
        a < b,
    ensures
        weight_between(r, a, b) == weight_between(r, a, b - 1) + scalefilter::magnitude(r[b - 1]),
    decreases b - a,
{
    reveal_with_fuel(weight_between, 2);
    if a + 1 < b {
        lemma_weight_last(r, a + 1, b);
    }
}

/// Of the last taps of a row only such are cut off as do not matter, and no fewer.
pub proof fn lemma_kept_matters(r: Seq<int>, n: nat, cut: int, one: int)
    requires
        n >= 1,
    ensures
        ({
            let k = scalefilter::kept(r, n, cut, one) as int;
            &&& 1 <= k <= n
            &&& k < n ==> !scalefilter::matters(cut + weight_between(r, k, n as int), one)
            &&& k > 1 ==> scalefilter::matters(cut + weight_between(r, k - 1, n as int), one)
        }),
    decreases n,
{
    reveal_with_fuel(weight_between, 2);
    if n > 1 {
        let c = cut + scalefilter::magnitude(r[n - 1]);
        if !scalefilter::matters(c, one) {
            lemma_kept_matters(r, (n - 1) as nat, c, one);
            let k = scalefilter::kept(r, n, cut, one) as int;
            lemma_weight_last(r, k, n as int);
            lemma_weight_last(r, k - 1, n as int);
        }
    }
}

/// What the first `n` taps of a row that begins at `p` give pixel `s` of a picture of
/// `len` pixels whose edges go on outside of it.
pub open spec fn clamped_sum(f: Seq<int>, p: int, len: int, s: int, n: nat) -> int
    decreases n,
{
    if n == 0 {
        0
    } else {
        clamped_sum(f, p, len, s, (n - 1) as nat) + if scalefilter::between(p + n - 1, 0, len - 1)
            == s {
            f[n - 1]
        } else {
            0
        }
    }
}

proof fn lemma_clamped(f: Seq<int>, p: int, len: int, s: int, n: nat)
    requires
        len >= 1,
        0 <= s < len,
    ensures
        clamped_sum(f, p, len, s, n) == (if 0 <= s - p < n {
            f[s - p]
        } else {
            0
        }) + (if s == 0 {
            scalefilter::span_sum(f, 0, scalefilter::between(-p, 0, n as int))
        } else {
            0
        }) + (if s == len - 1 {
            scalefilter::span_sum(f, scalefilter::between(len - p, 0, n as int), n as int)
        } else {
            0
        }),
    decreases n,
{
    if n > 0 {
        lemma_clamped(f, p, len, s, (n - 1) as nat);
    }
}

/// Taps that miss the picture weigh the pixel at its edge that they are nearest to:
/// the picture goes on with its edges.
pub proof fn lemma_edges_go_on(f: Seq<int>, p: int, len: int, j: int)
    requires
        len >= 1,
        0 <= j < f.len(),
        scalefilter::edge_pos(p, f.len() as int, len) + j < len,
    ensures
        scalefilter::edged(f, p, len)[j] == clamped_sum(
            f,
            p,
            len,
            scalefilter::edge_pos(p, f.len() as int, len) + j,
            f.len(),
        ),
{
    lemma_clamped(f, p, len, scalefilter::edge_pos(p, f.len() as int, len) + j, f.len());
}

/// The taps of a finished filter follow the kernel: over each pixel that is not at the
/// edge of the picture stands what the kernel gives it, divided by what makes the row
/// add up, to within one.
pub proof fn lemma_taps_follow_kernel(ax: Axis, w: Seq<F64>, one: int, i: int, k: int)
    requires
        ax.wf(),
        0 <= i < ax.dst_len,
        0 < k < ax.src_len - 1,
        ax.trimmed(w, i).1 <= k,
        ax.pos(w, i) <= k < ax.pos(w, i) + ax.taps(w),
        k < ax.trimmed(w, i).1 + ax.taps(w),
        scalefilter::divisor(ax.edged_row(w, i), one) > 0,
    ensures
        ({
            let d = scalefilter::divisor(ax.edged_row(w, i), one);
            scalefilter::magnitude(
                ax.tap(w, one, i, k - ax.pos(w, i)) * d - given(ax.raw_row(w, i), ax.raw_pos(i), k),
            ) <= d
        }),
{
    let next = if i + 1 < ax.dst_len {
        Some(ax.trimmed(w, i + 1).1)
    } else {
        None
    };
    ax.lemma_trimmed(w, i);
    scaleplan::lemma_widest(ax, w, 0);
    let (r, p) = ax.trimmed(w, i);
    lemma_trim_keeps(ax.raw_row(w, i), ax.raw_pos(i), next, 0, ax.one(), ax.raw_size() as nat);
    assert(given(r, p, k) == given(ax.raw_row(w, i), ax.raw_pos(i), k));
    let cut = r.subrange(0, ax.taps(w) as int);
    let g = ax.edged_row(w, i);
    let j = k - ax.pos(w, i);
    assert(g[j] == cut[k - p]);
    let d = scalefilter::divisor(g, one);
    let o = scalefilter::left_over(g, d, j as nat);
    scalefilter::lemma_left_over(g, d, j as nat);
    scalefilter::lemma_rounds_to_nearest(g[j] + o, d);
}

// --- places -------------------------------------------------------------------------------

/// The middles of pictures coincide: destination pixel `i` lies `(2 i + 1) src / dst - 1`
/// half pixels behind the middle of the first source pixel, but for the rounding of the
/// step from pixel to pixel.
pub proof fn lemma_axis_place(alg: TableScaler, src: int, dst: int, i: int)
    requires
        1 <= src < i32::MAX,
        1 <= dst < i32::MAX,
        0 <= i < dst,
    ensures
        ({
            let ax = scaleplan::luma_axis(alg, src, dst);
            let half_pixel: int = if ax.linear() {
                32768
            } else {
                65536
            };
            scalefilter::magnitude(
                dst * ax.place(i) - half_pixel * ((2 * i + 1) * src - dst),
            ) <= (i + 2) * dst
        }),
{
    let ax = scaleplan::luma_axis(alg, src, dst);
    let x = lemma_step(src, dst);
    assert(ax.x_inc == x);
    let e = dst * x - src * 65536;
    if ax.linear() {
        let q = 128 * x / 256;
        let a = ax.place(i);
        assert(a == q - 32768 + i * x);
        assert(0 <= x - 2 * q <= 1);
        assert(2 * (dst * a) == 65536 * ((2 * i + 1) * src - dst) + (2 * i + 1) * e - dst * (x - 2
            * q)) by (nonlinear_arith)
            requires
                a == q - 32768 + i * x,
                e == dst * x - src * 65536,
        ;
        assert(scalefilter::magnitude((2 * i + 1) * e - dst * (x - 2 * q)) <= 2 * ((i + 2) * dst))
            by (nonlinear_arith)
            requires
                -dst <= 2 * e <= dst,
                0 <= x - 2 * q <= 1,
                i >= 0,
                dst >= 1,
        ;
    } else {
        let a = ax.place(i);
        assert(128 * x / 128 == x);
        assert(a == x - 65536 + 2 * i * x);
        assert(dst * a == 65536 * ((2 * i + 1) * src - dst) + (2 * i + 1) * e) by (nonlinear_arith)
            requires
                a == x - 65536 + 2 * i * x,
                e == dst * x - src * 65536,
        ;
        assert(scalefilter::magnitude((2 * i + 1) * e) <= (i + 2) * dst) by (nonlinear_arith)
            requires
                -dst <= 2 * e <= dst,
                i >= 0,
                dst >= 1,
        ;
    }
}

proof fn lemma_step(src: int, dst: int) -> (x: int)
    requires
        1 <= src < i32::MAX,
        1 <= dst < i32::MAX,
    ensures
        x == scalefilter::spec_x_inc(src, dst),
        0 <= x < i64::MAX,
        -dst <= 2 * (dst * x - src * 65536) <= dst,
{
    let n = src * 65536 + dst / 2;
    let x = n / dst;
    lemma_fundamental_div_mod(n, dst);
    lemma_mod_bound(n, dst);
    lemma_div_pos_is_pos(n, dst);
    lemma_div_is_ordered_by_denominator(n, 1, dst);
    x
}

/// Chroma that does not lie in the middle of its pixels is fetched from as much further
/// on as it lies earlier: a quarter of a sample for each side.
pub proof fn lemma_chroma_sited(
    alg: TableScaler,
    src: int,
    dst: int,
    loc: ChromaLocation,
    horizontal: bool,
    i: int,
)
    requires
        1 <= src < i32::MAX,
        1 <= dst < i32::MAX,
        0 <= i,
    ensures
        ({
            let ax = scaleplan::chroma_axis(alg, src, dst, loc, horizontal);
            let mid = scaleplan::luma_axis(alg, (src + 1) / 2, (dst + 1) / 2);
            let sample: int = if ax.linear() {
                65536
            } else {
                131072
            };
            let first = if horizontal {
                loc == ChromaLocation::Left || loc == ChromaLocation::TopLeft || loc
                    == ChromaLocation::BottomLeft
            } else {
                loc == ChromaLocation::TopLeft || loc == ChromaLocation::Top
            };
            let last = !horizontal && (loc == ChromaLocation::BottomLeft || loc
                == ChromaLocation::Bottom);
            &&& ax.linear() == mid.linear() ==> ax.place(i) - mid.place(i) == (if first {
                sample / 4
            } else if last {
                -(sample / 4)
            } else {
                0
            })
            &&& mid.linear() ==> ax.linear()
            &&& ax.x_inc == mid.x_inc
        }),
{
}

/// The taps of a row lie about the place of their pixel: the middle of the row is less
/// than three half pixels away.
pub proof fn lemma_row_about_place(ax: Axis, i: int)
    requires
        ax.wf(),
        ax.general(),
        0 <= i < ax.dst_len,
    ensures
        -131072 * 3 < 2 * ((2 * ax.raw_pos(i) + ax.raw_size() - 1) * 65536 - ax.place(i)) < 131072 * 3,
{
    let a = ax.place(i) - (ax.raw_size() - 2) * 65536;
    let q = mathematics::tdiv(a, 131072);
    assert(-131072 < a - q * 131072 < 131072);
}

/// Of the two pixels about its place a pixel takes the more of each the nearer it is.
pub proof fn lemma_linear_weights(ax: Axis, w: Seq<F64>, i: int)
    requires
        ax.wf(),
        ax.linear(),
        ax.one() >= 0,
    ensures
        ({
            let t = ax.place(i) - ax.raw_pos(i) * 65536;
            let k = ax.one() / 65536;
            &&& 0 <= t < 65536
            &&& ax.raw_tap(w, i, 1) == t * k + (ax.one() - 65536 * k)
            &&& ax.raw_tap(w, i, 0) == (65536 - t) * k + (ax.one() - 65536 * k)
        }),
{
    let t = ax.place(i) - ax.raw_pos(i) * 65536;
    let k = ax.one() / 65536;
    assert(ax.one() - t * k == (65536 - t) * k + (ax.one() - 65536 * k)) by (nonlinear_arith);
    assert(ax.one() - (65536 - t) * k == t * k + (ax.one() - 65536 * k)) by (nonlinear_arith);
    assert(t * k >= 0 && (65536 - t) * k >= 0) by (nonlinear_arith)
        requires
            0 <= t < 65536,
            k >= 0,
    ;
}

/// A pixel between two others is interpolated from these two.
pub proof fn lemma_linear_about_place(ax: Axis, i: int)
    requires
        ax.wf(),
        ax.linear(),
    ensures
        ax.raw_size() == 2,
        ax.raw_pos(i) * 65536 <= ax.place(i) < (ax.raw_pos(i) + 1) * 65536,
{
}

/// The distance of a tap is that of its pixel from the place, in pixels of the larger
/// picture.
pub proof fn lemma_distance_measured(ax: Axis, i: int, j: int)
    requires
        ax.wf(),
        ax.distance(i, j) < 0x2000_0000_0000_0000,
    ensures
        ({
            let far = scalefilter::magnitude((ax.raw_pos(i) + j) * 131072 - ax.place(i)) * 8192;
            &&& ax.x_inc <= 65536 ==> ax.distance(i, j) == far
            &&& ax.x_inc > 65536 ==> 0 <= far * ax.dst_len - ax.distance(i, j) * ax.src_len
                < ax.src_len
        }),
{
    let far = scalefilter::magnitude((ax.raw_pos(i) + j) * 131072 - ax.place(i)) * 8192;
    let n = ax.src_len as int;
    let x = far * ax.dst_len;
    lemma_fundamental_div_mod(x, n);
    lemma_mod_bound(x, n);
    assert(n * (x / n) == (x / n) * n) by (nonlinear_arith);
}

/// A row is as wide as the kernel, stretched where the picture shrinks, but no wider
/// than the picture lets it.
pub proof fn lemma_row_wide(ax: Axis)
    requires
        ax.wf(),
        ax.general(),
    ensures
        ({
            let n = ax.raw_size();
            let f = ax.scaler.spec_size_factor();
            &&& n >= 1
            &&& n > 1 ==> n <= ax.src_len - 2
            &&& n < ax.src_len - 2 ==> {
                &&& ax.x_inc <= 65536 ==> n == f + 1
                &&& ax.x_inc > 65536 ==> (n - 2) * ax.dst_len < f * ax.src_len <= (n - 1) * ax.dst_len
            }
        }),
{
    let (s, d) = (ax.src_len as int, ax.dst_len as int);
    let f = ax.scaler.spec_size_factor();
    let x = f * s + d - 1;
    lemma_fundamental_div_mod(x, d);
    lemma_mod_bound(x, d);
    let q = x / d;
    assert(d * q == q * d) by (nonlinear_arith);
    assert((q - 1) * d == q * d - d) by (nonlinear_arith);
    assert(f * s >= 1) by (nonlinear_arith)
        requires
            f >= 1,
            s >= 1,
    ;
    lemma_div_pos_is_pos(x, d);
}

} // verus!
