//! Scaling planes of pictures with tables of coefficients.
use crate::arith;
use crate::error::Error;
use crate::float::F64;
use crate::pixels::ChromaLocation;
use crate::scalefilter;
use crate::scalefilter::{
    chroma_pos, h_scale8_to15, init_filter, x_inc, yuv2plane_x_8, Axis, SwsFilter, TableScaler,
    MAX_FILTER_SIZE, ONE_H, ONE_V,
};
use vstd::arithmetic::div_mod::*;
use vstd::arithmetic::mul::*;
use vstd::prelude::*;

verus! {

/// Row `y` of a plane whose rows of `w` pixels are `ls` bytes apart.
pub open spec fn plane_row(plane: Seq<u8>, ls: int, w: int, y: int) -> Seq<u8> {
    plane.subrange(y * ls, y * ls + w)
}

/// A plane of `h` rows.
#[derive(Clone, Copy, Debug)]
pub struct Grid {
    /// Pixels of a row.
    pub w: usize,
    /// Rows.
    pub h: usize,
    /// Bytes from one row to the next.
    pub ls: usize,
}

impl Grid {
    /// A plane of `len` bytes holds the rows.
    pub open spec fn inside(self, len: int) -> bool {
        &&& self.w <= self.ls
        &&& self.h > 0 ==> (self.h - 1) * self.ls + self.w <= len
    }

    /// Byte `k` belongs to a row.
    pub open spec fn covers(self, k: int) -> bool {
        exists|y: int, x: int|
            0 <= y < self.h && 0 <= x < self.w && k == #[trigger] self.at(y, x)
    }

    pub open spec fn at(self, y: int, x: int) -> int {
        y * self.ls + x
    }

    proof fn lemma_at(self, len: int, y: int, x: int)
        requires
            self.inside(len),
            0 <= y < self.h,
            0 <= x < self.w,
        ensures
            0 <= self.at(y, x) < len,
            0 <= y * self.ls,
            y * self.ls + self.w <= len,
    {
        let ls = self.ls as int;
        assert(y * ls <= (self.h - 1) * ls) by (nonlinear_arith)
            requires
                0 <= y <= self.h - 1,
                ls >= 0,
        ;
        assert(0 <= y * ls) by (nonlinear_arith)
            requires
                0 <= y,
                ls >= 0,
        ;
    }

    pub(crate) proof fn lemma_row(self, len: int, y: int)
        requires
            self.inside(len),
            0 <= y < self.h,
        ensures
            0 <= y * self.ls,
            y * self.ls + self.w <= len,
    {
        let ls = self.ls as int;
        assert(y * ls <= (self.h - 1) * ls) by (nonlinear_arith)
            requires
                0 <= y <= self.h - 1,
                ls >= 0,
        ;
        assert(0 <= y * ls) by (nonlinear_arith)
            requires
                0 <= y,
                ls >= 0,
        ;
    }

    proof fn lemma_apart(self, y: int, x: int, y2: int, x2: int)
        requires
            0 <= x < self.w <= self.ls,
            0 <= x2 < self.w,
            self.at(y, x) == self.at(y2, x2),
        ensures
            y == y2,
            x == x2,
    {
        lemma_fundamental_div_mod_converse(self.at(y, x), self.ls as int, y, x);
        lemma_fundamental_div_mod_converse(self.at(y2, x2), self.ls as int, y2, x2);
    }
}

/// The first `n` terms of the sum for destination pixel `(x, y)`: horizontally
/// scaled source rows times vertical taps.
pub open spec fn plane_sum(
    h: SwsFilter,
    v: SwsFilter,
    src: Seq<u8>,
    g: Grid,
    y: int,
    x: int,
    n: nat,
) -> int
    decreases n,
{
    if n == 0 {
        0
    } else {
        let s = v.filter_pos@[y] + n - 1;
        plane_sum(h, v, src, g, y, x, (n - 1) as nat) + if s < g.h {
            scalefilter::h_value(h, plane_row(src, g.ls as int, g.w as int, s), x) * v.tap(y, n - 1)
        } else {
            0
        }
    }
}

/// Destination pixel `(x, y)`.
pub open spec fn plane_pixel(
    h: SwsFilter,
    v: SwsFilter,
    src: Seq<u8>,
    g: Grid,
    y: int,
    x: int,
) -> int {
    scalefilter::v_value(plane_sum(h, v, src, g, y, x, v.size as nat))
}

/// All source rows, scaled horizontally.
fn h_pass(src: &[u8], g: Grid, h: &SwsFilter) -> (inter: Vec<Vec<i16>>)
    requires
        h.wf(),
        h.within(g.w as int),
        g.inside(src@.len() as int),
    ensures
        inter@.len() == g.h,
        forall|y: int, x: int|
            0 <= y < g.h && 0 <= x < h.rows() ==> #[trigger] inter@[y]@[x] == scalefilter::h_value(
                *h,
                plane_row(src@, g.ls as int, g.w as int, y),
                x,
            ),
        forall|y: int| 0 <= y < g.h ==> (#[trigger] inter@[y])@.len() == h.rows(),
{
    let n: usize = h.filter_pos.len();
    let len: usize = src.len();
    let mut inter: Vec<Vec<i16>> = Vec::new();
    let mut y: usize = 0;
    while y < g.h
        invariant
            h.wf(),
            h.within(g.w as int),
            len == src@.len(),
            g.inside(len as int),
            n == h.rows(),
            y <= g.h,
            inter@.len() == y,
            forall|k: int, x: int|
                0 <= k < y && 0 <= x < n ==> #[trigger] inter@[k]@[x] == scalefilter::h_value(
                    *h,
                    plane_row(src@, g.ls as int, g.w as int, k),
                    x,
                ),
            forall|k: int| 0 <= k < y ==> (#[trigger] inter@[k])@.len() == n,
        decreases g.h - y,
    {
        proof {
            g.lemma_row(len as int, y as int);
        }
        let a: usize = y * g.ls;
        let row: &[u8] = vstd::slice::slice_subrange(src, a, a + g.w);
        let mut line: Vec<i16> = vec![0i16; n];
        h_scale8_to15(line.as_mut_slice(), row, h);
        inter.push(line);
        y = y + 1;
    }
    inter
}

proof fn lemma_lines(
    h: SwsFilter,
    v: SwsFilter,
    src: Seq<u8>,
    g: Grid,
    y: int,
    x: int,
    lines: Seq<Seq<i16>>,
    row: Seq<i16>,
    n: nat,
)
    requires
        n <= v.size,
        0 <= y < v.rows(),
        0 <= v.filter_pos@[y] < g.h,
        0 <= x < h.rows(),
        row.len() == v.size,
        forall|j: int| 0 <= j < v.size ==> #[trigger] row[j] == v.tap(y, j),
        lines.len() == (if v.size < g.h - v.filter_pos@[y] {
            v.size as int
        } else {
            g.h - v.filter_pos@[y]
        }),
        forall|j: int|
            0 <= j < lines.len() ==> (#[trigger] lines[j])[x] == scalefilter::h_value(
                h,
                plane_row(src, g.ls as int, g.w as int, v.filter_pos@[y] + j),
                x,
            ),
    ensures
        plane_sum(h, v, src, g, y, x, n) == scalefilter::v_sum(
            lines,
            row,
            x,
            if n < lines.len() {
                n
            } else {
                lines.len()
            },
        ),
    decreases n,
{
    if n > 0 {
        lemma_lines(h, v, src, g, y, x, lines, row, (n - 1) as nat);
        if n <= lines.len() {
            assert(lines[n - 1][x] == scalefilter::h_value(
                h,
                plane_row(src, g.ls as int, g.w as int, v.filter_pos@[y] + n - 1),
                x,
            ));
            assert(row[n - 1] == v.tap(y, n - 1));
        }
    }
}

/// A row of destination pixels.
fn v_row(inter: &Vec<Vec<i16>>, src_h: usize, v: &SwsFilter, y: usize, out: &mut Vec<u8>, Ghost(h): Ghost<
    SwsFilter,
>, Ghost(src): Ghost<Seq<u8>>, Ghost(g): Ghost<Grid>)
    requires
        v.wf(),
        v.within(src_h as int),
        y < v.rows(),
        g.h == src_h,
        inter@.len() == src_h,
        forall|k: int| 0 <= k < src_h ==> (#[trigger] inter@[k])@.len() == h.rows(),
        forall|k: int, x: int|
            0 <= k < src_h && 0 <= x < h.rows() ==> #[trigger] inter@[k]@[x]
                == scalefilter::h_value(h, plane_row(src, g.ls as int, g.w as int, k), x),
        old(out)@.len() == h.rows(),
    ensures
        final(out)@.len() == old(out)@.len(),
        forall|x: int|
            0 <= x < h.rows() ==> #[trigger] final(out)@[x] == plane_pixel(h, *v, src, g, y as int, x),
{
    let first: usize = v.filter_pos[y] as usize;
    let row: &[i16] = v.row(y);
    let mut lines: Vec<&[i16]> = Vec::new();
    let mut j: usize = 0;
    while j < v.size && first + j < src_h
        invariant
            v.wf(),
            first < src_h,
            first <= 0x7fff_ffff,
            j <= v.size,
            first + j <= src_h,
            inter@.len() == src_h,
            lines@.len() == j,
            forall|k: int| 0 <= k < j ==> (#[trigger] lines@[k])@ == inter@[first + k]@,
        decreases v.size - j,
    {
        let l: &Vec<i16> = &inter[first + j];
        lines.push(l.as_slice());
        j = j + 1;
    }
    let ghost lv = scalefilter::line_views(lines@);
    proof {
        assert forall|k: int| 0 <= k < lines@.len() implies (#[trigger] lines@[k])@.len()
            >= out@.len() by {
            assert(inter@[first + k]@.len() == h.rows());
        }
    }
    yuv2plane_x_8(out.as_mut_slice(), lines.as_slice(), row);
    proof {
        assert forall|x: int| 0 <= x < h.rows() implies #[trigger] out@[x] == plane_pixel(
            h,
            *v,
            src,
            g,
            y as int,
            x,
        ) by {
            assert forall|k: int| 0 <= k < lv.len() implies (#[trigger] lv[k])[x]
                == scalefilter::h_value(
                h,
                plane_row(src, g.ls as int, g.w as int, v.filter_pos@[y as int] + k),
                x,
            ) by {
                assert(lv[k] == lines@[k]@);
                assert(inter@[first + k]@[x] == scalefilter::h_value(
                    h,
                    plane_row(src, g.ls as int, g.w as int, first + k),
                    x,
                ));
            }
            lemma_lines(h, *v, src, g, y as int, x, lv, row@, v.size as nat);
        }
    }
}

/// Scales a plane: the rows of `src`, as `g` tells, to the rows of `dst`, which
/// are `dst_ls` bytes apart.
pub fn scale_plane(
    src: &[u8],
    g: Grid,
    dst: &mut [u8],
    dst_ls: usize,
    h: &SwsFilter,
    v: &SwsFilter,
)
    requires
        h.wf(),
        v.wf(),
        h.within(g.w as int),
        v.within(g.h as int),
        g.inside(src@.len() as int),
        (Grid { w: h.rows() as usize, h: v.rows() as usize, ls: dst_ls }).inside(
            old(dst)@.len() as int,
        ),
    ensures
        final(dst)@.len() == old(dst)@.len(),
        ({
            let d = Grid { w: h.rows() as usize, h: v.rows() as usize, ls: dst_ls };
            &&& forall|y: int, x: int|
                0 <= y < d.h && 0 <= x < d.w ==> final(dst)@[#[trigger] d.at(y, x)] == plane_pixel(
                    *h,
                    *v,
                    src@,
                    g,
                    y,
                    x,
                )
            &&& forall|k: int|
                0 <= k < old(dst)@.len() && !d.covers(k) ==> #[trigger] final(dst)@[k] == old(
                    dst,
                )@[k]
        }),
{
    let w: usize = h.filter_pos.len();
    let rows: usize = v.filter_pos.len();
    let len: usize = dst.len();
    let inter: Vec<Vec<i16>> = h_pass(src, g, h);
    let ghost d = Grid { w, h: rows, ls: dst_ls };
    let ghost d0 = dst@;
    let mut out: Vec<u8> = vec![0u8; w];
    let mut y: usize = 0;
    while y < rows
        invariant
            v.wf(),
            v.within(g.h as int),
            w == h.rows(),
            rows == v.rows(),
            d == (Grid { w, h: rows, ls: dst_ls }),
            d.inside(len as int),
            len == d0.len(),
            dst@.len() == len,
            out@.len() == w,
            inter@.len() == g.h,
            forall|k: int| 0 <= k < g.h ==> (#[trigger] inter@[k])@.len() == h.rows(),
            forall|k: int, x: int|
                0 <= k < g.h && 0 <= x < h.rows() ==> #[trigger] inter@[k]@[x]
                    == scalefilter::h_value(*h, plane_row(src@, g.ls as int, g.w as int, k), x),
            y <= rows,
            forall|yy: int, x: int|
                0 <= yy < y && 0 <= x < w ==> dst@[#[trigger] d.at(yy, x)] == plane_pixel(
                    *h,
                    *v,
                    src@,
                    g,
                    yy,
                    x,
                ),
            forall|k: int| 0 <= k < len && !d.covers(k) ==> #[trigger] dst@[k] == d0[k],
        decreases rows - y,
    {
        v_row(&inter, g.h, v, y, &mut out, Ghost(*h), Ghost(src@), Ghost(g));
        proof {
            d.lemma_row(len as int, y as int);
        }
        let base: usize = y * dst_ls;
        let mut x: usize = 0;
        while x < w
            invariant
                x <= w,
                y < rows,
                base == y * dst_ls,
                base + w <= len,
                d == (Grid { w, h: rows, ls: dst_ls }),
                d.inside(len as int),
                len == d0.len(),
                dst@.len() == len,
                out@.len() == w,
                w == h.rows(),
                forall|k: int|
                    0 <= k < w ==> #[trigger] out@[k] == plane_pixel(*h, *v, src@, g, y as int, k),
                forall|yy: int, k: int|
                    0 <= yy <= y && 0 <= k < w && (yy < y || k < x) ==> dst@[#[trigger] d.at(yy, k)]
                        == plane_pixel(*h, *v, src@, g, yy, k),
                forall|k: int| 0 <= k < len && !d.covers(k) ==> #[trigger] dst@[k] == d0[k],
            decreases w - x,
        {
            let ghost before = dst@;
            dst[base + x] = out[x];
            proof {
                assert(d.at(y as int, x as int) == base + x);
                assert forall|yy: int, k: int|
                    0 <= yy <= y && 0 <= k < w && (yy < y || k < x + 1) implies dst@[#[trigger] d.at(
                    yy,
                    k,
                )] == plane_pixel(*h, *v, src@, g, yy, k) by {
                    d.lemma_at(len as int, yy, k);
                    if d.at(yy, k) == base + x {
                        d.lemma_apart(yy, k, y as int, x as int);
                    } else {
                        assert(dst@[d.at(yy, k)] == before[d.at(yy, k)]);
                    }
                }
            }
            x = x + 1;
        }
        y = y + 1;
    }
}

// --- what scaling keeps ---------------------------------------------------------------------

/// The taps of row `i` that hit one of `len` pixels, up to tap `n`, added up.
pub open spec fn hit_sum(f: SwsFilter, len: int, i: int, n: nat) -> int
    decreases n,
{
    if n == 0 {
        0
    } else {
        hit_sum(f, len, i, (n - 1) as nat) + if f.filter_pos@[i] + n - 1 < len {
            f.tap(i, n - 1)
        } else {
            0
        }
    }
}

/// The taps of every row add up to `one`.
pub open spec fn balanced(f: SwsFilter, len: int, one: int) -> bool {
    forall|i: int| 0 <= i < f.rows() ==> #[trigger] hit_sum(f, len, i, f.size as nat) == one
}

proof fn lemma_constant_row(h: SwsFilter, row: Seq<u8>, c: u8, x: int, n: nat)
    requires
        n <= h.size,
        0 <= x < h.rows(),
        h.filter_pos@[x] >= 0,
        forall|k: int| 0 <= k < row.len() ==> #[trigger] row[k] == c,
    ensures
        scalefilter::h_sum(h, row, x, n) == c * hit_sum(h, row.len() as int, x, n),
    decreases n,
{
    if n > 0 {
        lemma_constant_row(h, row, c, x, (n - 1) as nat);
        let s = h.filter_pos@[x] + n - 1;
        let a = hit_sum(h, row.len() as int, x, (n - 1) as nat);
        let t = if s < row.len() {
            h.tap(x, n - 1)
        } else {
            0
        };
        if s < row.len() {
            assert(row[s] == c);
        }
        assert(c * (a + t) == c * a + c * t) by (nonlinear_arith);
        assert(c * 0 == 0) by (nonlinear_arith);
    }
}

proof fn lemma_constant_column(
    h: SwsFilter,
    v: SwsFilter,
    src: Seq<u8>,
    g: Grid,
    y: int,
    x: int,
    k: int,
    n: nat,
)
    requires
        n <= v.size,
        0 <= y < v.rows(),
        v.filter_pos@[y] >= 0,
        forall|s: int|
            0 <= s < g.h ==> #[trigger] scalefilter::h_value(
                h,
                plane_row(src, g.ls as int, g.w as int, s),
                x,
            ) == k,
    ensures
        plane_sum(h, v, src, g, y, x, n) == k * hit_sum(v, g.h as int, y, n),
    decreases n,
{
    if n > 0 {
        lemma_constant_column(h, v, src, g, y, x, k, (n - 1) as nat);
        let s = v.filter_pos@[y] + n - 1;
        let a = hit_sum(v, g.h as int, y, (n - 1) as nat);
        let t = if s < g.h {
            v.tap(y, n - 1)
        } else {
            0
        };
        assert(k * (a + t) == k * a + k * t) by (nonlinear_arith);
        assert(k * 0 == 0) by (nonlinear_arith);
    } else {
        assert(k * 0 == 0) by (nonlinear_arith);
    }
}

/// A plane of one color keeps its color, when the rows of the filters are
/// balanced.
pub proof fn lemma_constant_plane(
    h: SwsFilter,
    v: SwsFilter,
    src: Seq<u8>,
    g: Grid,
    c: u8,
    y: int,
    x: int,
)
    requires
        h.wf(),
        v.wf(),
        h.within(g.w as int),
        v.within(g.h as int),
        g.inside(src.len() as int),
        balanced(h, g.w as int, ONE_H as int),
        balanced(v, g.h as int, ONE_V as int),
        forall|b: int, a: int| 0 <= b < g.h && 0 <= a < g.w ==> src[#[trigger] g.at(b, a)] == c,
        0 <= y < v.rows(),
        0 <= x < h.rows(),
    ensures
        plane_pixel(h, v, src, g, y, x) == c,
{
    assert forall|s: int| 0 <= s < g.h implies #[trigger] scalefilter::h_value(
        h,
        plane_row(src, g.ls as int, g.w as int, s),
        x,
    ) == 128 * c by {
        g.lemma_row(src.len() as int, s);
        let row = plane_row(src, g.ls as int, g.w as int, s);
        assert forall|k: int| 0 <= k < row.len() implies #[trigger] row[k] == c by {
            assert(src[g.at(s, k)] == c);
        }
        lemma_constant_row(h, row, c, x, h.size as nat);
        let t = hit_sum(h, g.w as int, x, h.size as nat);
        assert(t == ONE_H);
        assert(c * t == 16384 * c) by (nonlinear_arith)
            requires
                t == 16384,
        ;
        assert(row.len() == g.w);
        assert(scalefilter::h_sum(h, row, x, h.size as nat) == 16384 * c);
    }
    lemma_constant_column(h, v, src, g, y, x, 128 * c, v.size as nat);
    let t = hit_sum(v, g.h as int, y, v.size as nat);
    assert(t == ONE_V);
    assert(128 * c * t == 0x8_0000 * c) by (nonlinear_arith)
        requires
            t == 4096,
    ;
}

proof fn lemma_rounded_sum(g: Seq<int>, d: int, n: nat)
    requires
        d > 0,
        n <= g.len(),
    ensures
        rounded_sum(g, d, n) * d == scalefilter::span_sum(g, 0, n as int) - scalefilter::left_over(
            g,
            d,
            n,
        ),
    decreases n,
{
    if n > 0 {
        lemma_rounded_sum(g, d, (n - 1) as nat);
        let a = rounded_sum(g, d, (n - 1) as nat);
        let t = scalefilter::rounded_tap(g, d, n - 1);
        assert((a + t) * d == a * d + t * d) by (nonlinear_arith);
    } else {
        assert(0 * d == 0) by (nonlinear_arith);
    }
}

/// The first `n` rounded taps, added up.
pub open spec fn rounded_sum(g: Seq<int>, d: int, n: nat) -> int
    decreases n,
{
    if n == 0 {
        0
    } else {
        rounded_sum(g, d, (n - 1) as nat) + scalefilter::rounded_tap(g, d, n - 1)
    }
}

/// Rounding with error diffusion makes a row add up to `one` exactly, unless the
/// row is so light that the steps of rounding are as coarse as the taps.
pub proof fn lemma_rows_add_up(g: Seq<int>, one: int)
    requires
        1 <= one,
        one * (one + 1) <= scalefilter::span_sum(g, 0, g.len() as int),
    ensures
        rounded_sum(g, scalefilter::divisor(g, one), g.len()) == one,
{
    let s = scalefilter::span_sum(g, 0, g.len() as int);
    let h = one / 2;
    let d = scalefilter::divisor(g, one);
    lemma_fundamental_div_mod(s + h, one);
    lemma_mod_bound(s + h, one);
    let q = (s + h) / one;
    assert(0 <= one * (one + 1)) by (nonlinear_arith)
        requires
            1 <= one,
    ;
    assert(q >= one + 1) by (nonlinear_arith)
        requires
            one * (one + 1) <= s + h,
            s + h == one * q + (s + h) % one,
            0 <= (s + h) % one < one,
            one >= 1,
    ;
    assert(d == q);
    lemma_rounded_sum(g, d, g.len());
    scalefilter::lemma_left_over(g, d, g.len());
    let t = rounded_sum(g, d, g.len());
    let e = scalefilter::left_over(g, d, g.len());
    lemma_mul_is_commutative(one, q);
    assert(t == one) by (nonlinear_arith)
        requires
            t * d == s - e,
            s + h == d * one + (s + h) % one,
            0 <= (s + h) % one < one,
            0 <= h,
            2 * h <= one,
            one <= 2 * h + 1,
            -d <= 2 * e <= d,
            d >= one + 1,
            one >= 1,
    ;
}

/// Sums add up.
pub(crate) proof fn lemma_span_split(f: Seq<int>, a: int, b: int, c: int)
    requires
        a <= b <= c,
    ensures
        scalefilter::span_sum(f, a, c) == scalefilter::span_sum(f, a, b) + scalefilter::span_sum(
            f,
            b,
            c,
        ),
    decreases c - b,
{
    if b < c {
        lemma_span_split(f, a, b, c - 1);
    }
}

/// The first `m` entries of `f` moved by `o`, with zeros around.
pub(crate) proof fn lemma_moved_sum(f: Seq<int>, e: Seq<int>, o: int, m: nat)
    requires
        m <= e.len(),
        forall|j: int|
            0 <= j < m ==> #[trigger] e[j] == (if 0 <= j + o < f.len() {
                f[j + o]
            } else {
                0
            }),
    ensures
        scalefilter::span_sum(e, 0, m as int) == scalefilter::span_sum(
            f,
            scalefilter::between(o, 0, f.len() as int),
            scalefilter::between(m + o, 0, f.len() as int),
        ),
    decreases m,
{
    if m > 0 {
        lemma_moved_sum(f, e, o, (m - 1) as nat);
        assert(e[m - 1] == (if 0 <= m - 1 + o < f.len() {
            f[m - 1 + o]
        } else {
            0
        }));
    }
}

/// One entry more by `x`.
proof fn lemma_bumped_sum(e: Seq<int>, g: Seq<int>, t: int, x: int, m: nat)
    requires
        m <= e.len(),
        m <= g.len(),
        forall|j: int|
            0 <= j < m ==> #[trigger] g[j] == e[j] + (if j == t {
                x
            } else {
                0
            }),
    ensures
        scalefilter::span_sum(g, 0, m as int) == scalefilter::span_sum(e, 0, m as int) + (if 0 <= t
            < m {
            x
        } else {
            0
        }),
    decreases m,
{
    if m > 0 {
        lemma_bumped_sum(e, g, t, x, (m - 1) as nat);
    }
}

pub(crate) proof fn lemma_zeros(g: Seq<int>, a: int, b: int)
    requires
        a <= b,
        forall|j: int| a <= j < b ==> #[trigger] g[j] == 0,
    ensures
        scalefilter::span_sum(g, a, b) == 0,
    decreases b - a,
{
    if a < b {
        lemma_zeros(g, a, b - 1);
    }
}

/// Taps that miss the picture lose no weight: the row adds up to the same.
pub proof fn lemma_edges_keep_weight(f: Seq<int>, p: int, len: int)
    requires
        1 <= f.len(),
        1 <= len,
    ensures
        scalefilter::span_sum(scalefilter::edged(f, p, len), 0, f.len() as int)
            == scalefilter::span_sum(f, 0, f.len() as int),
{
    let n = f.len() as int;
    let q = scalefilter::edge_pos(p, n, len);
    let g = scalefilter::edged(f, p, len);
    let lo = scalefilter::between(-p, 0, n);
    let hi = scalefilter::between(len - p, 0, n);
    let b = scalefilter::span_sum(f, 0, lo);
    let c = scalefilter::span_sum(f, hi, n);
    let m: nat = if n <= len {
        n as nat
    } else {
        len as nat
    };
    let e = Seq::new(
        f.len(),
        |j: int|
            if 0 <= j + (q - p) < n {
                f[j + (q - p)]
            } else {
                0
            },
    );
    let e1 = Seq::new(
        f.len(),
        |j: int|
            e[j] + (if j == -q {
                b
            } else {
                0
            }),
    );
    lemma_moved_sum(f, e, q - p, m);
    lemma_bumped_sum(e, e1, -q, b, m);
    assert forall|j: int| 0 <= j < m implies #[trigger] g[j] == e1[j] + (if j == len - 1 - q {
        c
    } else {
        0
    }) by {
        assert(q + j < len);
    }
    lemma_bumped_sum(e1, g, len - 1 - q, c, m);
    lemma_zeros(g, m as int, n);
    lemma_span_split(g, 0, m as int, n);
    lemma_span_split(f, 0, lo, n);
    lemma_span_split(f, 0, hi, n);
    if lo <= hi {
        lemma_span_split(f, lo, hi, n);
    }
}

proof fn lemma_kept(r: Seq<int>, n: nat, cut: int, one: int)
    ensures
        scalefilter::kept(r, n, cut, one) <= n,
    decreases n,
{
    if n > 1 {
        lemma_kept(r, (n - 1) as nat, cut + scalefilter::magnitude(r[n - 1]), one);
    }
}

pub(crate) proof fn lemma_widest(ax: Axis, w: Seq<F64>, i: int)
    requires
        ax.raw_size() >= 0,
    ensures
        ax.widest(w, i) <= ax.raw_size(),
    decreases ax.dst_len - i,
{
    if i < ax.dst_len {
        lemma_widest(ax, w, i + 1);
        lemma_kept(ax.trimmed(w, i).0, ax.raw_size() as nat, 0, ax.one());
    }
}

/// No row of a filter is longer than the picture, except where one pixel is
/// interpolated linearly.
pub proof fn lemma_no_overhang(ax: Axis, w: Seq<F64>)
    requires
        ax.wf(),
        !(ax.linear() && ax.src_len == 1),
    ensures
        ax.taps(w) <= ax.src_len,
{
    lemma_widest(ax, w, 0);
}

/// The first `n` taps of row `i` of a table.
pub open spec fn tap_sum(f: SwsFilter, i: int, n: nat) -> int
    decreases n,
{
    if n == 0 {
        0
    } else {
        tap_sum(f, i, (n - 1) as nat) + f.tap(i, n - 1)
    }
}

proof fn lemma_all_hit(f: SwsFilter, len: int, i: int, n: nat)
    requires
        f.filter_pos@[i] + n <= len,
    ensures
        hit_sum(f, len, i, n) == tap_sum(f, i, n),
    decreases n,
{
    if n > 0 {
        lemma_all_hit(f, len, i, (n - 1) as nat);
    }
}

proof fn lemma_tap_sum(ax: Axis, w: Seq<F64>, one: int, f: SwsFilter, i: int, n: nat)
    requires
        ax.filtered(w, one, f),
        0 <= i < ax.dst_len,
        n <= f.size,
        forall|j: int| 0 <= j < f.size ==> -32768 <= #[trigger] ax.tap(w, one, i, j) <= 32767,
    ensures
        tap_sum(f, i, n) == rounded_sum(
            ax.edged_row(w, i),
            scalefilter::divisor(ax.edged_row(w, i), one),
            n,
        ),
    decreases n,
{
    if n > 0 {
        lemma_tap_sum(ax, w, one, f, i, (n - 1) as nat);
        let t = ax.tap(w, one, i, n - 1);
        assert(-32768 <= t <= 32767);
        assert(f.tap(i, n - 1) == arith::wrap16(t));
    }
}

/// Row `i` of an axis is heavy enough for rounding, and its taps are numbers of 16
/// bits.
pub open spec fn sound_row(ax: Axis, w: Seq<F64>, one: int, i: int) -> bool {
    let r = ax.trimmed(w, i).0;
    &&& one * (one + 1) <= scalefilter::span_sum(r, 0, ax.taps(w) as int)
    &&& forall|j: int|
        0 <= j < ax.taps(w) ==> -32768 <= #[trigger] ax.tap(w, one, i, j) <= 32767
}

pub(crate) proof fn lemma_same_span(a: Seq<int>, b: Seq<int>, n: nat)
    requires
        forall|j: int| 0 <= j < n ==> #[trigger] a[j] == b[j],
    ensures
        scalefilter::span_sum(a, 0, n as int) == scalefilter::span_sum(b, 0, n as int),
    decreases n,
{
    if n > 0 {
        lemma_same_span(a, b, (n - 1) as nat);
    }
}

/// A row whose weight is all in its first tap gives that tap everything.
proof fn lemma_first_tap(g: Seq<int>, one: int)
    requires
        1 <= one,
        g.len() == 2,
        g[1] == 0,
        one * (one + 1) <= g[0],
    ensures
        scalefilter::rounded_tap(g, scalefilter::divisor(g, one), 0) == one,
{
    reveal_with_fuel(scalefilter::span_sum, 3);
    let h = seq![g[0]];
    assert(scalefilter::span_sum(h, 0, 1) == g[0]);
    lemma_rows_add_up(h, one);
    reveal_with_fuel(rounded_sum, 2);
    assert(scalefilter::divisor(h, one) == scalefilter::divisor(g, one));
}

/// The rows of a filter add up to `one` within the picture, and are zero beyond it.
pub proof fn lemma_filter_balanced(ax: Axis, w: Seq<F64>, one: int, f: SwsFilter)
    requires
        ax.wf(),
        1 <= one,
        ax.filtered(w, one, f),
        forall|i: int| 0 <= i < ax.dst_len ==> #[trigger] sound_row(ax, w, one, i),
    ensures
        balanced(f, ax.src_len as int, one),
        forall|i: int, j: int|
            0 <= i < f.rows() && 0 <= j < f.size && f.filter_pos@[i] + j >= ax.src_len
                ==> #[trigger] f.tap(i, j) == 0,
{
    let len = ax.src_len as int;
    if !(ax.linear() && ax.src_len == 1) {
        lemma_no_overhang(ax, w);
    }
    assert forall|i: int| 0 <= i < f.rows() implies #[trigger] hit_sum(f, len, i, f.size as nat)
        == one by {
        assert(sound_row(ax, w, one, i));
        let n = ax.taps(w) as int;
        let (r, p) = ax.trimmed(w, i);
        ax.lemma_trimmed(w, i);
        lemma_widest(ax, w, 0);
        let cut = r.subrange(0, n);
        let g = ax.edged_row(w, i);
        lemma_same_span(r, cut, n as nat);
        lemma_edges_keep_weight(cut, p, len);
        assert(f.filter_pos@[i] == ax.pos(w, i));
        if n <= len {
            lemma_rows_add_up(g, one);
            lemma_tap_sum(ax, w, one, f, i, f.size as nat);
            lemma_all_hit(f, len, i, f.size as nat);
        } else {
            reveal_with_fuel(scalefilter::span_sum, 3);
            lemma_first_tap(g, one);
            reveal_with_fuel(hit_sum, 3);
            let t = ax.tap(w, one, i, 0);
            assert(-32768 <= t <= 32767);
            assert(f.tap(i, 0) == arith::wrap16(t));
        }
    }
    assert forall|i: int, j: int|
        0 <= i < f.rows() && 0 <= j < f.size && f.filter_pos@[i] + j >= len implies #[trigger] f.tap(
        i,
        j,
    ) == 0 by {
        assert(sound_row(ax, w, one, i));
        assert(hit_sum(f, len, i, f.size as nat) == one);
        let n = ax.taps(w) as int;
        let (r, p) = ax.trimmed(w, i);
        ax.lemma_trimmed(w, i);
        lemma_widest(ax, w, 0);
        assert(f.filter_pos@[i] == ax.pos(w, i));
        assert(n == 2 && len == 1 && j == 1);
        let cut = r.subrange(0, n);
        let g = ax.edged_row(w, i);
        lemma_same_span(r, cut, n as nat);
        lemma_edges_keep_weight(cut, p, len);
        lemma_rows_add_up(g, one);
        lemma_tap_sum(ax, w, one, f, i, f.size as nat);
        reveal_with_fuel(hit_sum, 3);
        reveal_with_fuel(tap_sum, 3);
    }
}

// --- the tables of a context ------------------------------------------------------------------

/// The four axes of scaling a picture: luma and chroma, across and down.
#[derive(Clone, Copy, Debug)]
pub struct PlanAxes {
    pub h_lum: Axis,
    pub h_chr: Axis,
    pub v_lum: Axis,
    pub v_chr: Axis,
}

/// The kernel's values for four axes.
#[derive(Debug)]
pub struct PlanWeights {
    pub h_lum: Vec<F64>,
    pub h_chr: Vec<F64>,
    pub v_lum: Vec<F64>,
    pub v_chr: Vec<F64>,
}

/// The four tables of coefficients.
#[derive(Debug)]
pub struct FilterPlan {
    pub h_lum: SwsFilter,
    pub h_chr: SwsFilter,
    pub v_lum: SwsFilter,
    pub v_chr: SwsFilter,
}

pub open spec fn luma_axis(alg: TableScaler, src: int, dst: int) -> Axis {
    Axis {
        x_inc: scalefilter::spec_x_inc(src, dst) as i64,
        src_len: src as i32,
        dst_len: dst as i32,
        scaler: alg,
        src_pos: 128,
        dst_pos: 128,
    }
}

pub open spec fn chroma_axis(
    alg: TableScaler,
    src: int,
    dst: int,
    loc: ChromaLocation,
    horizontal: bool,
) -> Axis {
    let s = (src + 1) / 2;
    let d = (dst + 1) / 2;
    Axis {
        x_inc: scalefilter::spec_x_inc(s, d) as i64,
        src_len: s as i32,
        dst_len: d as i32,
        scaler: alg,
        src_pos: scalefilter::spec_chroma_pos(loc, horizontal) as i32,
        dst_pos: 128,
    }
}

pub open spec fn spec_axes(
    alg: TableScaler,
    src: (int, int),
    dst: (int, int),
    loc: ChromaLocation,
) -> PlanAxes {
    PlanAxes {
        h_lum: luma_axis(alg, src.0, dst.0),
        h_chr: chroma_axis(alg, src.0, dst.0, loc, true),
        v_lum: luma_axis(alg, src.1, dst.1),
        v_chr: chroma_axis(alg, src.1, dst.1, loc, false),
    }
}

/// The axes of scaling a picture of `src` pixels to `dst` pixels. Chroma has half
/// as many pixels, rounded up, and lies where `loc` tells in the source, and in
/// the middle in the destination.
pub fn plan_axes(alg: TableScaler, src: (i32, i32), dst: (i32, i32), loc: ChromaLocation) -> (r:
    PlanAxes)
    requires
        1 <= src.0 < i32::MAX,
        1 <= src.1 < i32::MAX,
        1 <= dst.0 < i32::MAX,
        1 <= dst.1 < i32::MAX,
    ensures
        r == spec_axes(alg, (src.0 as int, src.1 as int), (dst.0 as int, dst.1 as int), loc),
        r.h_lum.wf(),
        r.h_chr.wf(),
        r.v_lum.wf(),
        r.v_chr.wf(),
{
    let csw: i32 = (src.0 + 1) / 2;
    let csh: i32 = (src.1 + 1) / 2;
    let cdw: i32 = (dst.0 + 1) / 2;
    let cdh: i32 = (dst.1 + 1) / 2;
    PlanAxes {
        h_lum: Axis {
            x_inc: x_inc(src.0, dst.0),
            src_len: src.0,
            dst_len: dst.0,
            scaler: alg,
            src_pos: 128,
            dst_pos: 128,
        },
        h_chr: Axis {
            x_inc: x_inc(csw, cdw),
            src_len: csw,
            dst_len: cdw,
            scaler: alg,
            src_pos: chroma_pos(loc, true),
            dst_pos: 128,
        },
        v_lum: Axis {
            x_inc: x_inc(src.1, dst.1),
            src_len: src.1,
            dst_len: dst.1,
            scaler: alg,
            src_pos: 128,
            dst_pos: 128,
        },
        v_chr: Axis {
            x_inc: x_inc(csh, cdh),
            src_len: csh,
            dst_len: cdh,
            scaler: alg,
            src_pos: chroma_pos(loc, false),
            dst_pos: 128,
        },
    }
}

/// A table can be made for an axis.
pub open spec fn makeable(ax: Axis, w: Seq<F64>) -> bool {
    w.len() >= ax.weight_count() && ax.taps(w) < MAX_FILTER_SIZE
}

/// Why it cannot.
pub open spec fn make_error(ax: Axis, w: Seq<F64>, e: Error) -> bool {
    if w.len() < ax.weight_count() {
        e.is_invalid("no kernel weights for this filter"@)
    } else {
        e.is_unsupported(scalefilter::cascade_text(ax.taps(w)))
    }
}

fn make_filter(ax: &Axis, one: i64, w: &Vec<F64>) -> (r: Result<SwsFilter, Error>)
    requires
        ax.wf(),
        1 <= one <= 0x1_0000,
    ensures
        r.is_ok() == makeable(*ax, w@),
        r matches Err(e) ==> make_error(*ax, w@, e),
        r matches Ok(f) ==> ax.filtered(w@, one as int, f),
{
    init_filter(
        ax.x_inc,
        ax.src_len,
        ax.dst_len,
        one,
        ax.scaler,
        ax.src_pos,
        ax.dst_pos,
        w.as_slice(),
    )
}

/// The tables `p` are those of the axes.
pub open spec fn planned(a: PlanAxes, w: PlanWeights, p: FilterPlan) -> bool {
    &&& a.h_lum.filtered(w.h_lum@, ONE_H as int, p.h_lum)
    &&& a.h_chr.filtered(w.h_chr@, ONE_H as int, p.h_chr)
    &&& a.v_lum.filtered(w.v_lum@, ONE_V as int, p.v_lum)
    &&& a.v_chr.filtered(w.v_chr@, ONE_V as int, p.v_chr)
}

pub open spec fn plannable(a: PlanAxes, w: PlanWeights) -> bool {
    &&& makeable(a.h_lum, w.h_lum@)
    &&& makeable(a.h_chr, w.h_chr@)
    &&& makeable(a.v_lum, w.v_lum@)
    &&& makeable(a.v_chr, w.v_chr@)
}

/// Why the first table that cannot be made cannot be made.
pub open spec fn plan_error(a: PlanAxes, w: PlanWeights, e: Error) -> bool {
    if !makeable(a.h_lum, w.h_lum@) {
        make_error(a.h_lum, w.h_lum@, e)
    } else if !makeable(a.h_chr, w.h_chr@) {
        make_error(a.h_chr, w.h_chr@, e)
    } else if !makeable(a.v_lum, w.v_lum@) {
        make_error(a.v_lum, w.v_lum@, e)
    } else {
        make_error(a.v_chr, w.v_chr@, e)
    }
}

/// The tables of coefficients for scaling a picture. `weights` holds the values
/// of the kernel, for those that take them from outside.
pub fn build_plan(
    alg: TableScaler,
    src: (i32, i32),
    dst: (i32, i32),
    loc: ChromaLocation,
    weights: &PlanWeights,
) -> (r: Result<FilterPlan, Error>)
    requires
        1 <= src.0 < i32::MAX,
        1 <= src.1 < i32::MAX,
        1 <= dst.0 < i32::MAX,
        1 <= dst.1 < i32::MAX,
    ensures
        ({
            let a = spec_axes(
                alg,
                (src.0 as int, src.1 as int),
                (dst.0 as int, dst.1 as int),
                loc,
            );
            &&& r.is_ok() == plannable(a, *weights)
            &&& r matches Err(e) ==> plan_error(a, *weights, e)
            &&& r matches Ok(p) ==> planned(a, *weights, p)
        }),
{
    let a: PlanAxes = plan_axes(alg, src, dst, loc);
    let h_lum: SwsFilter = match make_filter(&a.h_lum, ONE_H, &weights.h_lum) {
        Ok(f) => f,
        Err(e) => {
            return Err(e);
        },
    };
    let h_chr: SwsFilter = match make_filter(&a.h_chr, ONE_H, &weights.h_chr) {
        Ok(f) => f,
        Err(e) => {
            return Err(e);
        },
    };
    let v_lum: SwsFilter = match make_filter(&a.v_lum, ONE_V, &weights.v_lum) {
        Ok(f) => f,
        Err(e) => {
            return Err(e);
        },
    };
    let v_chr: SwsFilter = match make_filter(&a.v_chr, ONE_V, &weights.v_chr) {
        Ok(f) => f,
        Err(e) => {
            return Err(e);
        },
    };
    Ok(FilterPlan { h_lum, h_chr, v_lum, v_chr })
}

} // verus!
