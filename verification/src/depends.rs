//! What the outcome of scaling a picture depends on.
use crate::error::Error;
use crate::float::F64;
use crate::pixels::{ChromaLocation, ColorRange, Frame};
use crate::scale;
use crate::scalecontext;
use crate::scalecontext::ScaleContext;
use crate::scalefilter;
use crate::scalefilter::{Axis, SwsFilter};
use crate::scaleplan;
use crate::scaleplan::Grid;
use vstd::prelude::*;

verus! {

// --- tables -------------------------------------------------------------------------------

/// Values of the kernel along an axis are the same, or not needed.
spec fn agreed(ax: Axis, v: Seq<F64>, w: Seq<F64>) -> bool {
    ax.weighed() ==> v == w
}

proof fn lemma_same_rows(ax: Axis, v: Seq<F64>, w: Seq<F64>, i: int)
    requires
        agreed(ax, v, w),
    ensures
        ax.trimmed(v, i) == ax.trimmed(w, i),
        ax.widest(v, i) == ax.widest(w, i),
    decreases ax.dst_len - i,
{
    if i < ax.dst_len {
        lemma_same_rows(ax, v, w, i + 1);
    }
    assert(ax.raw_row(v, i) =~= ax.raw_row(w, i)) by {
        assert forall|j: int| 0 <= j < ax.raw_size() implies #[trigger] ax.raw_tap(v, i, j)
            == ax.raw_tap(w, i, j) by {}
    }
}

/// The tables hold the same taps.
spec fn same_table(f: SwsFilter, g: SwsFilter) -> bool {
    &&& f.size == g.size
    &&& f.rows() == g.rows()
    &&& forall|i: int| 0 <= i < f.rows() ==> #[trigger] f.filter_pos@[i] == g.filter_pos@[i]
    &&& forall|i: int, j: int|
        0 <= i < f.rows() && 0 <= j < f.size ==> #[trigger] f.tap(i, j) == g.tap(i, j)
}

proof fn lemma_same_table(ax: Axis, v: Seq<F64>, w: Seq<F64>, one: int, f: SwsFilter, g: SwsFilter)
    requires
        agreed(ax, v, w),
        ax.filtered(v, one, f),
        ax.filtered(w, one, g),
    ensures
        same_table(f, g),
{
    lemma_same_rows(ax, v, w, 0);
    assert forall|i: int| 0 <= i < f.rows() implies #[trigger] f.filter_pos@[i]
        == g.filter_pos@[i] by {
        lemma_same_rows(ax, v, w, i);
        assert(f.filter_pos@[i] == ax.pos(v, i));
        assert(g.filter_pos@[i] == ax.pos(w, i));
    }
    assert forall|i: int, j: int| 0 <= i < f.rows() && 0 <= j < f.size implies #[trigger] f.tap(i, j)
        == g.tap(i, j) by {
        lemma_same_rows(ax, v, w, i);
        assert(ax.edged_row(v, i) == ax.edged_row(w, i));
        assert(ax.tap(v, one, i, j) == ax.tap(w, one, i, j));
        assert(g.tap(i, j) == crate::arith::wrap16(ax.tap(w, one, i, j)));
    }
}

proof fn lemma_same_row(h: SwsFilter, k: SwsFilter, row: Seq<u8>, x: int, n: nat)
    requires
        same_table(h, k),
        0 <= x < h.rows(),
        n <= h.size,
    ensures
        scalefilter::h_sum(h, row, x, n) == scalefilter::h_sum(k, row, x, n),
    decreases n,
{
    if n > 0 {
        lemma_same_row(h, k, row, x, (n - 1) as nat);
        assert(h.tap(x, n - 1) == k.tap(x, n - 1));
        assert(h.filter_pos@[x] == k.filter_pos@[x]);
    }
}

proof fn lemma_same_column(
    h: SwsFilter,
    v: SwsFilter,
    h2: SwsFilter,
    v2: SwsFilter,
    src: Seq<u8>,
    g: Grid,
    y: int,
    x: int,
    n: nat,
)
    requires
        same_table(h, h2),
        same_table(v, v2),
        0 <= y < v.rows(),
        0 <= x < h.rows(),
        n <= v.size,
    ensures
        scaleplan::plane_sum(h, v, src, g, y, x, n) == scaleplan::plane_sum(
            h2,
            v2,
            src,
            g,
            y,
            x,
            n,
        ),
    decreases n,
{
    if n > 0 {
        lemma_same_column(h, v, h2, v2, src, g, y, x, (n - 1) as nat);
        assert(v.tap(y, n - 1) == v2.tap(y, n - 1));
        assert(v.filter_pos@[y] == v2.filter_pos@[y]);
        let s = v.filter_pos@[y] + n - 1;
        lemma_same_row(
            h,
            h2,
            scaleplan::plane_row(src, g.ls as int, g.w as int, s),
            x,
            h.size as nat,
        );
    }
}

proof fn lemma_same_plane(
    h: SwsFilter,
    v: SwsFilter,
    h2: SwsFilter,
    v2: SwsFilter,
    plane: Seq<u8>,
    sw: int,
    sh: int,
    dw: int,
    dh: int,
)
    requires
        same_table(h, h2),
        same_table(v, v2),
        h.rows() == dw,
        v.rows() == dh,
        1 <= dw,
        0 <= dh,
    ensures
        scale::tabled(h, v, plane, sw, sh, dw, dh) == scale::tabled(h2, v2, plane, sw, sh, dw, dh),
{
    let a = scale::tabled(h, v, plane, sw, sh, dw, dh);
    let b = scale::tabled(h2, v2, plane, sw, sh, dw, dh);
    assert forall|k: int| 0 <= k < a.len() implies #[trigger] a[k] == b[k] by {
        assert(0 <= dw * dh) by (nonlinear_arith)
            requires
                1 <= dw,
                0 <= dh,
        ;
        scale::lemma_place(dw, dh, k);
        let g = Grid { w: sw as usize, h: sh as usize, ls: sw as usize };
        lemma_same_column(h, v, h2, v2, plane, g, k / dw, k % dw, v.size as nat);
    }
    assert(a =~= b);
}

// --- contexts -----------------------------------------------------------------------------

/// The contexts are for the same conversion and know the same values of the
/// kernel, as far as pictures whose chroma lies at `loc` need them.
pub open spec fn alike(a: ScaleContext, b: ScaleContext, loc: ChromaLocation) -> bool {
    &&& a.same_setup(b)
    &&& a.needs_weights(loc) ==> {
        &&& a.weights_loc == b.weights_loc
        &&& a.weights.h_lum@ == b.weights.h_lum@
        &&& a.weights.h_chr@ == b.weights.h_chr@
        &&& a.weights.v_lum@ == b.weights.v_lum@
        &&& a.weights.v_chr@ == b.weights.v_chr@
    }
}

/// Whether a picture can be scaled, and why it cannot, does not depend on the
/// pictures that were scaled before.
pub proof fn lemma_success_without_history(
    a: ScaleContext,
    b: ScaleContext,
    loc: ChromaLocation,
    e: Error,
)
    requires
        alike(a, b, loc),
    ensures
        a.tables_known(loc) == b.tables_known(loc),
        a.tables_error(loc, e) == b.tables_error(loc, e),
{
    let x = a.axes(loc);
    lemma_same_rows(x.h_lum, a.weights.h_lum@, b.weights.h_lum@, 0);
    lemma_same_rows(x.h_chr, a.weights.h_chr@, b.weights.h_chr@, 0);
    lemma_same_rows(x.v_lum, a.weights.v_lum@, b.weights.v_lum@, 0);
    lemma_same_rows(x.v_chr, a.weights.v_chr@, b.weights.v_chr@, 0);
}

/// What scaling a picture makes does not depend on the pictures that were scaled
/// before: no table that was made for another place of chroma is used.
pub proof fn lemma_outcome_without_history(
    a: ScaleContext,
    b: ScaleContext,
    f: Frame,
    before: Seq<Seq<u8>>,
)
    requires
        a.wf(),
        b.wf(),
        alike(a, b, f.chroma_location),
        !a.on_device(),
        1 <= a.dst.1 < i32::MAX,
        1 <= a.dst.2 < i32::MAX,
        a.tabled() ==> a.filters is Some && a.filters_loc == f.chroma_location,
        b.tabled() ==> b.filters is Some && b.filters_loc == f.chroma_location,
    ensures
        a.outcome(a.filters, f, before) == b.outcome(b.filters, f, before),
{
    if a.tabled() {
        let x = a.axes(f.chroma_location);
        let p = a.filters->0;
        let q = b.filters->0;
        let v = a.weights;
        let w = b.weights;
        let h = scalefilter::ONE_H as int;
        let u = scalefilter::ONE_V as int;
        lemma_same_table(x.h_lum, v.h_lum@, w.h_lum@, h, p.h_lum, q.h_lum);
        lemma_same_table(x.h_chr, v.h_chr@, w.h_chr@, h, p.h_chr, q.h_chr);
        lemma_same_table(x.v_lum, v.v_lum@, w.v_lum@, u, p.v_lum, q.v_lum);
        lemma_same_table(x.v_chr, v.v_chr@, w.v_chr@, u, p.v_chr, q.v_chr);
        let c = a.tabled_planes(p, f);
        let d = b.tabled_planes(q, f);
        assert forall|i: int| 0 <= i < c.len() implies #[trigger] c[i] == d[i] by {
            lemma_same_plane(
                scalecontext::h_of(p, i),
                scalecontext::v_of(p, i),
                scalecontext::h_of(q, i),
                scalecontext::v_of(q, i),
                scale::views(f)[i],
                scalecontext::part(a.src.1 as int, i),
                scalecontext::part(a.src.2 as int, i),
                scalecontext::part(a.dst.1 as int, i),
                scalecontext::part(a.dst.2 as int, i),
            );
        }
        assert(c =~= d);
    }
}

/// A byte of a packed pixel that is painted without scaling.
proof fn lemma_painted_byte(c: ScaleContext, f: Frame, before: Seq<Seq<u8>>, y: int, x: int, o: int)
    requires
        c.wf(),
        c.unscaled(),
        c.takes(f),
        before[0].len() == c.dst.1 * c.dst.2 * c.dst.0.spec_step(),
        0 <= y < f.height,
        0 <= x < f.width,
        0 <= o < c.dst.0.spec_step(),
    ensures
        ({
            let k = (y * f.width + x) * c.dst.0.spec_step() + o;
            c.outcome(c.filters, f, before)[0][k] == scale::channel(
                c.scene(f, None).color(scale::views(f), x, y),
                c.dst.0,
                o,
                before[0][k],
            )
        }),
{
    let w = f.width as int;
    let h = f.height as int;
    let step = c.dst.0.spec_step() as int;
    let i = y * w + x;
    let k = i * step + o;
    assert(0 <= i < w * h) by (nonlinear_arith)
        requires
            i == y * w + x,
            0 <= y < h,
            0 <= x < w,
    ;
    assert(0 <= k < w * h * step) by (nonlinear_arith)
        requires
            k == i * step + o,
            0 <= i < w * h,
            0 <= o < step,
    ;
    scale::lemma_packed(c.dst.0, i, k);
    assert(w * y == y * w) by (nonlinear_arith);
    vstd::arithmetic::div_mod::lemma_fundamental_div_mod_converse(i, w, y, x);
}

/// Without scaling, a packed pixel depends on nothing but luma at its place,
/// chroma at the half of it, and the range of colors: two pixels, of one picture
/// or of two, that agree in these get the same color.
pub proof fn lemma_unscaled_pixel(
    c: ScaleContext,
    f: Frame,
    g: Frame,
    before: Seq<Seq<u8>>,
    y: int,
    x: int,
    v: int,
    u: int,
    o: int,
)
    requires
        c.wf(),
        c.unscaled(),
        c.takes(f),
        c.takes(g),
        f.wf(),
        g.wf(),
        before[0].len() == c.dst.1 * c.dst.2 * c.dst.0.spec_step(),
        0 <= y < f.height,
        0 <= x < f.width,
        0 <= v < f.height,
        0 <= u < f.width,
        (f.color_range == ColorRange::Jpeg) == (g.color_range == ColorRange::Jpeg),
        scale::views(f)[0][y * f.width + x] == scale::views(g)[0][v * f.width + u],
        forall|p: int|
            1 <= p <= 2 ==> (#[trigger] scale::views(f)[p])[(y / 2) * f.columns(1) + x / 2]
                == scale::views(g)[p][(v / 2) * f.columns(1) + u / 2],
        0 <= o < c.dst.0.spec_step(),
        o == c.dst.0.spec_offsets().0 || o == c.dst.0.spec_offsets().1 || o
            == c.dst.0.spec_offsets().2,
    ensures
        ({
            let step = c.dst.0.spec_step();
            c.outcome(c.filters, f, before)[0][(y * f.width + x) * step + o] == c.outcome(
                c.filters,
                g,
                before,
            )[0][(v * f.width + u) * step + o]
        }),
{
    lemma_painted_byte(c, f, before, y, x, o);
    lemma_painted_byte(c, g, before, v, u, o);
    assert(scale::views(f)[1][(y / 2) * f.columns(1) + x / 2] == scale::views(g)[1][(v / 2)
        * f.columns(1) + u / 2]);
    assert(scale::views(f)[2][(y / 2) * f.columns(1) + x / 2] == scale::views(g)[2][(v / 2)
        * f.columns(1) + u / 2]);
}

} // verus!
