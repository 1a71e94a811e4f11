//! Contexts for scaling pictures.
use crate::error::{invalid, Error};
use crate::float::F32;
use crate::pixels::{ChromaLocation, ColorRange, Frame, PixelFormat};
use crate::sampler::ScaleAlgorithm;
use crate::scale;
use crate::scale::{
    paint, resample_plane, table_plane, ConversionMode, ScaleEngine, ScaleOptions, Scene,
};
use crate::scalefilter::{SwsFilter, TableScaler};
use crate::scaleplan;
use crate::scaleplan::{build_plan, plan_axes, FilterPlan, PlanAxes, PlanWeights};
use vstd::prelude::*;

verus! {

/// A conversion between two formats and sizes.
#[derive(Debug)]
pub struct ScaleContext {
    /// Format, width and height of the source.
    pub src: (PixelFormat, u32, u32),
    /// Format, width and height of the destination.
    pub dst: (PixelFormat, u32, u32),
    pub options: ScaleOptions,
    pub mode: ConversionMode,
    /// Pictures are scaled on the device.
    pub gpu: bool,
    /// The tables of coefficients, once they are known.
    pub filters: Option<FilterPlan>,
    /// The place of chroma that the tables are for.
    pub filters_loc: ChromaLocation,
    /// Values of the kernel, for algorithms that take them from outside.
    pub weights: PlanWeights,
    /// The place of chroma that the values are for.
    pub weights_loc: ChromaLocation,
}

/// The table for the rows of plane `p`.
pub open spec fn h_of(plan: FilterPlan, p: int) -> SwsFilter {
    if p == 0 {
        plan.h_lum
    } else {
        plan.h_chr
    }
}

/// The table for the columns of plane `p`.
pub open spec fn v_of(plan: FilterPlan, p: int) -> SwsFilter {
    if p == 0 {
        plan.v_lum
    } else {
        plan.v_chr
    }
}

/// Length of an axis in plane `p`, where chroma has half of it.
pub open spec fn part(n: int, p: int) -> int {
    if p == 0 {
        n
    } else {
        (n + 1) / 2
    }
}

impl ScaleContext {
    /// The algorithm has something to do.
    pub open spec fn algorithm_used(
        src: (PixelFormat, u32, u32),
        dst: (PixelFormat, u32, u32),
    ) -> bool {
        &&& src != dst
        &&& !(src.1 == dst.1 && src.2 == dst.2 && ConversionMode::between(src.0, dst.0) == Some(
            ConversionMode::Yuv420pToRgb,
        ))
    }

    /// Whether a device is asked for.
    pub open spec fn asks_device(
        src: (PixelFormat, u32, u32),
        dst: (PixelFormat, u32, u32),
        options: ScaleOptions,
    ) -> bool {
        &&& ConversionMode::between(src.0, dst.0) is Some
        &&& options.engine != ScaleEngine::Cpu
        &&& !(options.algorithm.table_driven() && ScaleContext::algorithm_used(src, dst))
    }

    pub open spec fn no_conversion(src: PixelFormat, dst: PixelFormat) -> Seq<char> {
        "cannot convert "@ + src.spec_name() + " to "@ + dst.spec_name()
    }

    pub open spec fn no_kernel(alg: ScaleAlgorithm) -> Seq<char> {
        "scaling algorithm '"@ + alg.spec_name()
            + "' is not available on the Vulkan engine (supported: nearest, bilinear, bicubic)"@
    }

    /// Whether a context for a conversion asks for a device.
    pub fn wants_device(
        src: (PixelFormat, u32, u32),
        dst: (PixelFormat, u32, u32),
        options: ScaleOptions,
    ) -> (r: bool)
        ensures
            r == ScaleContext::asks_device(src, dst, options),
    {
        match ConversionMode::choose_mode(src.0, dst.0) {
            Some(mode) => {
                options.engine != ScaleEngine::Cpu && !(options.algorithm.is_table_driven()
                    && is_algorithm_used(src, dst, mode))
            },
            None => false,
        }
    }

    /// A context for a conversion. `device` says what came of opening a device,
    /// where one is asked for.
    pub fn new(
        src: (PixelFormat, u32, u32),
        dst: (PixelFormat, u32, u32),
        options: ScaleOptions,
        device: Result<(), Error>,
    ) -> (r: Result<ScaleContext, Error>)
        ensures
            ConversionMode::between(src.0, dst.0) is None ==> (r matches Err(e) && e.is_unsupported(
                ScaleContext::no_conversion(src.0, dst.0),
            )),
            ConversionMode::between(src.0, dst.0) is Some && options.engine == ScaleEngine::Vulkan
                && !ScaleContext::asks_device(src, dst, options) ==> (r matches Err(e)
                && e.is_unsupported(ScaleContext::no_kernel(options.algorithm))),
            ScaleContext::asks_device(src, dst, options) && options.engine == ScaleEngine::Vulkan
                && device.is_err() ==> (r matches Err(e) && device == Err::<(), Error>(e)),
            r.is_ok() == (ConversionMode::between(src.0, dst.0) is Some && (options.engine
                == ScaleEngine::Vulkan ==> ScaleContext::asks_device(src, dst, options)
                && device.is_ok())),
            r matches Ok(c) ==> {
                &&& c.wf()
                &&& c.src == src
                &&& c.dst == dst
                &&& c.options == options
                &&& c.gpu == (ScaleContext::asks_device(src, dst, options) && device.is_ok())
                &&& c.filters is None
                &&& c.no_weights()
            },
    {
        let mode: ConversionMode = match ConversionMode::choose_mode(src.0, dst.0) {
            Some(m) => m,
            None => {
                let mut text: String = "cannot convert ".to_owned();
                text.append(src.0.name());
                text.append(" to ");
                text.append(dst.0.name());
                return Err(Error::Unsupported(text));
            },
        };
        let gpu: bool = if options.algorithm.is_table_driven() && is_algorithm_used(
            src,
            dst,
            mode,
        ) {
            if options.engine == ScaleEngine::Vulkan {
                let mut text: String = "scaling algorithm '".to_owned();
                text.append(options.algorithm.name());
                text.append(
                    "' is not available on the Vulkan engine (supported: nearest, bilinear, bicubic)",
                );
                return Err(Error::Unsupported(text));
            }
            false
        } else if options.engine == ScaleEngine::Cpu {
            false
        } else {
            match device {
                Ok(_) => true,
                Err(e) => {
                    if options.engine == ScaleEngine::Vulkan {
                        return Err(e);
                    }
                    false
                },
            }
        };
        Ok(
            ScaleContext {
                src,
                dst,
                options,
                mode,
                gpu,
                filters: None,
                filters_loc: ChromaLocation::Unspecified,
                weights: PlanWeights {
                    h_lum: Vec::new(),
                    h_chr: Vec::new(),
                    v_lum: Vec::new(),
                    v_chr: Vec::new(),
                },
                weights_loc: ChromaLocation::Unspecified,
            },
        )
    }

    pub open spec fn no_weights(self) -> bool {
        &&& self.weights.h_lum@.len() == 0
        &&& self.weights.h_chr@.len() == 0
        &&& self.weights.v_lum@.len() == 0
        &&& self.weights.v_chr@.len() == 0
    }

    /// Whether pictures are scaled on the device.
    pub fn uses_gpu(&self) -> (r: bool)
        ensures
            r == self.gpu,
    {
        self.gpu
    }

    /// The axes along which tables are made.
    pub open spec fn axes(self, loc: ChromaLocation) -> PlanAxes {
        scaleplan::spec_axes(
            TableScaler::of(self.options.algorithm),
            (self.src.1 as int, self.src.2 as int),
            (self.dst.1 as int, self.dst.2 as int),
            loc,
        )
    }

    pub open spec fn wf(self) -> bool {
        &&& ConversionMode::between(self.src.0, self.dst.0) == Some(self.mode)
        &&& self.filters matches Some(p) ==> {
            &&& self.options.algorithm.table_driven()
            &&& scaleplan::planned(self.axes(self.filters_loc), self.weights, p)
            &&& self.tables_known(self.filters_loc)
        }
    }

    /// The axes along which tables are made for pictures whose chroma lies at
    /// `loc`, where there are any. Their distances tell which values of the kernel
    /// are needed from outside.
    pub fn filter_axes(&self, loc: ChromaLocation) -> (r: Option<PlanAxes>)
        ensures
            r == if self.options.algorithm.table_driven() && self.measured() {
                Some(self.axes(loc))
            } else {
                None
            },
    {
        if self.options.algorithm.is_table_driven() && 1 <= self.src.1 && self.src.1 < 0x7fff_ffff
            && 1 <= self.src.2 && self.src.2 < 0x7fff_ffff && 1 <= self.dst.1 && self.dst.1
            < 0x7fff_ffff && 1 <= self.dst.2 && self.dst.2 < 0x7fff_ffff {
            let s: TableScaler = TableScaler::from_algorithm(self.options.algorithm);
            Some(
                plan_axes(
                    s,
                    (self.src.1 as i32, self.src.2 as i32),
                    (self.dst.1 as i32, self.dst.2 as i32),
                    loc,
                ),
            )
        } else {
            None
        }
    }

    /// The sizes can be scaled with tables.
    pub open spec fn measured(self) -> bool {
        &&& 1 <= self.src.1 < i32::MAX
        &&& 1 <= self.src.2 < i32::MAX
        &&& 1 <= self.dst.1 < i32::MAX
        &&& 1 <= self.dst.2 < i32::MAX
    }

    /// Sets the values of the kernel for pictures whose chroma lies at `loc`.
    pub fn install_weights(&mut self, loc: ChromaLocation, weights: PlanWeights)
        requires
            old(self).wf(),
        ensures
            final(self).wf(),
            final(self).same_setup(*old(self)),
            final(self).filters is None,
            final(self).weights == weights,
            final(self).weights_loc == loc,
    {
        self.filters = None;
        self.weights = weights;
        self.weights_loc = loc;
    }

    pub open spec fn same_setup(self, o: ScaleContext) -> bool {
        &&& self.src == o.src
        &&& self.dst == o.dst
        &&& self.options == o.options
        &&& self.mode == o.mode
        &&& self.gpu == o.gpu
    }

    // --- what comes out ---

    /// The picture is one that the context converts.
    pub open spec fn takes(self, f: Frame) -> bool {
        (f.format, f.width, f.height) == self.src
    }

    /// The picture is one that the context makes.
    pub open spec fn gives(self, f: Frame) -> bool {
        (f.format, f.width, f.height) == self.dst
    }

    /// Sizes are kept and chroma is doubled.
    pub open spec fn unscaled(self) -> bool {
        &&& self.src.1 == self.dst.1
        &&& self.src.2 == self.dst.2
        &&& self.mode == ConversionMode::Yuv420pToRgb
    }

    pub open spec fn scene(self, f: Frame, sampled: Option<ScaleAlgorithm>) -> Scene {
        Scene {
            sampled,
            gray: self.mode == ConversionMode::Gray8ToRgb,
            full: f.color_range == ColorRange::Jpeg,
            center: f.chroma_location == ChromaLocation::Center,
            src: if sampled is Some {
                (self.src.1, self.src.2)
            } else {
                (self.dst.1, self.dst.2)
            },
            dst: (self.dst.1, self.dst.2),
        }
    }

    /// How far plane `p` is moved: chroma in the middle of four pixels, by a
    /// quarter.
    pub open spec fn shift(self, f: Frame, p: int) -> Option<F32> {
        if self.mode == ConversionMode::Gray8ToGray8 {
            None
        } else if p > 0 && f.chroma_location == ChromaLocation::Center {
            Some(F32 { bits: 0xbe80_0000 })
        } else {
            Some(F32 { bits: 0 })
        }
    }

    /// Planes of the format that is read.
    pub open spec fn depth(self) -> nat {
        self.src.0.spec_planes()
    }

    pub open spec fn packs(self) -> bool {
        self.mode == ConversionMode::Yuv420pToRgb || self.mode == ConversionMode::Gray8ToRgb
    }

    pub open spec fn resampled_planes(self, f: Frame) -> Seq<Seq<u8>> {
        Seq::new(
            self.depth(),
            |p: int|
                scale::resampled(
                    self.options.algorithm,
                    scale::views(f)[p],
                    part(self.src.1 as int, p),
                    part(self.src.2 as int, p),
                    part(self.dst.1 as int, p),
                    part(self.dst.2 as int, p),
                    self.shift(f, p),
                ),
        )
    }

    pub open spec fn tabled_planes(self, plan: FilterPlan, f: Frame) -> Seq<Seq<u8>> {
        Seq::new(
            self.depth(),
            |p: int|
                scale::tabled(
                    h_of(plan, p),
                    v_of(plan, p),
                    scale::views(f)[p],
                    part(self.src.1 as int, p),
                    part(self.src.2 as int, p),
                    part(self.dst.1 as int, p),
                    part(self.dst.2 as int, p),
                ),
        )
    }

    pub open spec fn painting(
        self,
        f: Frame,
        sampled: Option<ScaleAlgorithm>,
        planes: Seq<Seq<u8>>,
        before: Seq<Seq<u8>>,
    ) -> Seq<Seq<u8>> {
        seq![scale::painted(self.scene(f, sampled), planes, self.dst.0, before[0])]
    }

    /// The planes that scaling `f` here makes of the planes `before`: a copy; the
    /// pixels painted one for one; the planes resampled, or scaled with tables; or
    /// these painted.
    pub open spec fn outcome(
        self,
        plan: Option<FilterPlan>,
        f: Frame,
        before: Seq<Seq<u8>>,
    ) -> Seq<Seq<u8>> {
        let alg = self.options.algorithm;
        if self.src == self.dst {
            scale::views(f)
        } else if self.unscaled() {
            self.painting(f, None, scale::views(f), before)
        } else if alg.table_driven() {
            if self.packs() {
                self.painting(f, None, self.tabled_planes(plan->0, f), before)
            } else {
                self.tabled_planes(plan->0, f)
            }
        } else if self.packs() {
            self.painting(f, Some(alg), scale::views(f), before)
        } else {
            self.resampled_planes(f)
        }
    }
}

// --- scaling ------------------------------------------------------------------------------

impl ScaleContext {
    /// Tables for pictures whose chroma lies at `loc` need values from outside.
    pub open spec fn needs_weights(self, loc: ChromaLocation) -> bool {
        let a = self.axes(loc);
        a.h_lum.weighed() || a.h_chr.weighed() || a.v_lum.weighed() || a.v_chr.weighed()
    }

    /// Tables for pictures whose chroma lies at `loc` can be made.
    pub open spec fn tables_known(self, loc: ChromaLocation) -> bool {
        &&& self.needs_weights(loc) ==> self.weights_loc == loc
        &&& scaleplan::plannable(self.axes(loc), self.weights)
    }

    /// Why they cannot.
    pub open spec fn tables_error(self, loc: ChromaLocation, e: Error) -> bool {
        if self.needs_weights(loc) && self.weights_loc != loc {
            e.is_invalid("no kernel weights for this filter"@)
        } else {
            scaleplan::plan_error(self.axes(loc), self.weights, e)
        }
    }

    /// Makes tables for pictures whose chroma lies at `loc`, where there are none.
    fn prepare(&mut self, loc: ChromaLocation) -> (r: Result<(), Error>)
        requires
            old(self).wf(),
            old(self).options.algorithm.table_driven(),
            old(self).measured(),
        ensures
            final(self).wf(),
            final(self).same_setup(*old(self)),
            final(self).weights == old(self).weights,
            final(self).weights_loc == old(self).weights_loc,
            r.is_ok() == old(self).tables_known(loc),
            r.is_ok() ==> final(self).filters is Some && final(self).filters_loc == loc,
            r matches Err(e) ==> *final(self) == *old(self) && old(self).tables_error(loc, e),
    {
        if self.filters.is_some() && self.filters_loc == loc {
            return Ok(());
        }
        let s: TableScaler = TableScaler::from_algorithm(self.options.algorithm);
        let src: (i32, i32) = (self.src.1 as i32, self.src.2 as i32);
        let dst: (i32, i32) = (self.dst.1 as i32, self.dst.2 as i32);
        if self.weights_loc != loc {
            let a: PlanAxes = plan_axes(s, src, dst, loc);
            if a.h_lum.is_weighed() || a.h_chr.is_weighed() || a.v_lum.is_weighed()
                || a.v_chr.is_weighed() {
                return Err(invalid("no kernel weights for this filter"));
            }
        }
        match build_plan(s, src, dst, loc, &self.weights) {
            Ok(p) => {
                self.filters = Some(p);
                self.filters_loc = loc;
                Ok(())
            },
            Err(e) => Err(e),
        }
    }
}

/// The tables scale the planes of `f` to those of `out`.
spec fn plan_fits(plan: FilterPlan, f: Frame, out: Frame) -> bool {
    forall|p: int|
        0 <= p < f.format.spec_planes() ==> {
            &&& (#[trigger] h_of(plan, p)).wf()
            &&& v_of(plan, p).wf()
            &&& h_of(plan, p).within(f.columns(p) as int)
            &&& v_of(plan, p).within(f.rows(p) as int)
            &&& h_of(plan, p).rows() == out.columns(p)
            &&& v_of(plan, p).rows() == out.rows(p)
        }
}

proof fn lemma_planar(f: Frame, p: int)
    requires
        f.format == PixelFormat::Yuv420p || f.format == PixelFormat::Gray8,
        0 <= p < f.format.spec_planes(),
    ensures
        f.spec_linesize(p) == f.columns(p),
        f.columns(p) == part(f.width as int, p),
        f.rows(p) == part(f.height as int, p),
{
    let c = f.columns(p);
    assert(c * 1 == c);
    assert(f.format.spec_step() == 1);
}

/// Scales every plane with tables.
fn table_planes(plan: &FilterPlan, f: &Frame, out: &mut Frame)
    requires
        f.wf(),
        old(out).wf(),
        f.format == PixelFormat::Yuv420p || f.format == PixelFormat::Gray8,
        old(out).format == f.format,
        plan_fits(*plan, *f, *old(out)),
    ensures
        final(out).wf(),
        scale::same_but_pixels(*final(out), *old(out)),
        forall|p: int|
            0 <= p < f.planes@.len() ==> #[trigger] scale::views(*final(out))[p] == scale::tabled(
                h_of(*plan, p),
                v_of(*plan, p),
                scale::views(*f)[p],
                part(f.width as int, p),
                part(f.height as int, p),
                part(old(out).width as int, p),
                part(old(out).height as int, p),
            ),
{
    let n: usize = f.planes.len();
    let ghost out0 = *out;
    let mut p: usize = 0;
    while p < n
        invariant
            f.wf(),
            out.wf(),
            out0.wf(),
            f.format == PixelFormat::Yuv420p || f.format == PixelFormat::Gray8,
            out0.format == f.format,
            scale::same_but_pixels(*out, out0),
            plan_fits(*plan, *f, out0),
            n == f.planes@.len(),
            p <= n,
            forall|q: int|
                0 <= q < p ==> #[trigger] scale::views(*out)[q] == scale::tabled(
                    h_of(*plan, q),
                    v_of(*plan, q),
                    scale::views(*f)[q],
                    part(f.width as int, q),
                    part(f.height as int, q),
                    part(out0.width as int, q),
                    part(out0.height as int, q),
                ),
        decreases n - p,
    {
        let ghost q = p as int;
        let ghost before = *out;
        proof {
            f.lemma_plane_size(q);
            out.lemma_plane_size(q);
            lemma_planar(*f, q);
            lemma_planar(*out, q);
            assert(h_of(*plan, q).wf());
            assert(f.planes@[q]@.len() == f.spec_linesize(q) * f.rows(q));
            assert(out.planes@[q]@.len() == out.spec_linesize(q) * out.rows(q));
        }
        let src: (usize, usize) = (f.linesize(p), f.row_count(p));
        let dst: (usize, usize) = (out.linesize(p), out.row_count(p));
        let (h, v) = if p == 0 {
            (&plan.h_lum, &plan.v_lum)
        } else {
            (&plan.h_chr, &plan.v_chr)
        };
        table_plane(f.plane(p), src, out.plane_mut(p), dst, h, v);
        proof {
            assert(scale::views(*out)[q] == out.planes@[q]@);
            assert forall|i: int| 0 <= i < n && i != q implies #[trigger] scale::views(*out)[i]
                == scale::views(before)[i] by {
                assert(out.planes@[i] == before.planes@[i]);
            }
            assert forall|i: int| 0 <= i < out.planes@.len() implies (
            #[trigger] out.planes@[i])@.len() == out.spec_linesize(i) * out.rows(i) by {
                if i != q {
                    assert(out.planes@[i] == before.planes@[i]);
                    assert(before.planes@[i]@.len() == before.spec_linesize(i) * before.rows(i));
                }
            }
        }
        p = p + 1;
    }
}

/// Resamples every plane.
fn resample_planes(alg: ScaleAlgorithm, shift: [Option<F32>; 3], f: &Frame, out: &mut Frame)
    requires
        !alg.table_driven(),
        f.wf(),
        old(out).wf(),
        f.format == PixelFormat::Yuv420p || f.format == PixelFormat::Gray8,
        old(out).format == f.format,
    ensures
        final(out).wf(),
        scale::same_but_pixels(*final(out), *old(out)),
        forall|p: int|
            0 <= p < f.planes@.len() ==> #[trigger] scale::views(*final(out))[p]
                == scale::resampled(
                alg,
                scale::views(*f)[p],
                part(f.width as int, p),
                part(f.height as int, p),
                part(old(out).width as int, p),
                part(old(out).height as int, p),
                shift@[p],
            ),
{
    let n: usize = f.planes.len();
    let ghost out0 = *out;
    let mut p: usize = 0;
    while p < n
        invariant
            !alg.table_driven(),
            f.wf(),
            out.wf(),
            out0.wf(),
            f.format == PixelFormat::Yuv420p || f.format == PixelFormat::Gray8,
            out0.format == f.format,
            scale::same_but_pixels(*out, out0),
            n == f.planes@.len(),
            p <= n,
            forall|q: int|
                0 <= q < p ==> #[trigger] scale::views(*out)[q] == scale::resampled(
                    alg,
                    scale::views(*f)[q],
                    part(f.width as int, q),
                    part(f.height as int, q),
                    part(out0.width as int, q),
                    part(out0.height as int, q),
                    shift@[q],
                ),
        decreases n - p,
    {
        let ghost q = p as int;
        let ghost before = *out;
        proof {
            f.lemma_plane_size(q);
            out.lemma_plane_size(q);
            lemma_planar(*f, q);
            lemma_planar(*out, q);
            assert(f.planes@[q]@.len() == f.spec_linesize(q) * f.rows(q));
            assert(out.planes@[q]@.len() == out.spec_linesize(q) * out.rows(q));
        }
        let src: (u32, u32) = (f.linesize(p) as u32, f.row_count(p) as u32);
        let dst: (u32, u32) = (out.linesize(p) as u32, out.row_count(p) as u32);
        resample_plane(f.plane(p), src, dst, shift[p], alg, out.plane_mut(p));
        proof {
            assert(scale::views(*out)[q] == out.planes@[q]@);
            assert forall|i: int| 0 <= i < n && i != q implies #[trigger] scale::views(*out)[i]
                == scale::views(before)[i] by {
                assert(out.planes@[i] == before.planes@[i]);
            }
            assert forall|i: int| 0 <= i < out.planes@.len() implies (
            #[trigger] out.planes@[i])@.len() == out.spec_linesize(i) * out.rows(i) by {
                if i != q {
                    assert(out.planes@[i] == before.planes@[i]);
                    assert(before.planes@[i]@.len() == before.spec_linesize(i) * before.rows(i));
                }
            }
        }
        p = p + 1;
    }
}

/// Copies every plane.
fn copy_planes(f: &Frame, out: &mut Frame)
    requires
        f.wf(),
        old(out).wf(),
        f.like(*old(out)),
    ensures
        final(out).wf(),
        scale::same_but_pixels(*final(out), *old(out)),
        scale::views(*final(out)) == scale::views(*f),
{
    let n: usize = f.planes.len();
    let ghost out0 = *out;
    let mut p: usize = 0;
    while p < n
        invariant
            f.wf(),
            out.wf(),
            f.like(out0),
            scale::same_but_pixels(*out, out0),
            n == f.planes@.len(),
            p <= n,
            forall|q: int|
                0 <= q < p ==> (#[trigger] out.planes@[q])@ == f.planes@[q]@,
        decreases n - p,
    {
        let ghost before = *out;
        let ghost q = p as int;
        assert(f.planes@[q]@.len() == f.spec_linesize(q) * f.rows(q));
        assert(out.planes@[q]@.len() == out.spec_linesize(q) * out.rows(q));
        copy_bytes(f.plane(p), out.plane_mut(p));
        proof {
            assert forall|i: int| 0 <= i < out.planes@.len() implies (
            #[trigger] out.planes@[i])@.len() == out.spec_linesize(i) * out.rows(i) by {
                if i != q {
                    assert(out.planes@[i] == before.planes@[i]);
                    assert(before.planes@[i]@.len() == before.spec_linesize(i) * before.rows(i));
                }
            }
        }
        p = p + 1;
    }
    assert(scale::views(*out) =~= scale::views(*f));
}

pub(crate) fn copy_bytes(from: &[u8], to: &mut [u8])
    requires
        from@.len() == old(to)@.len(),
    ensures
        final(to)@ == from@,
{
    let n: usize = from.len();
    let mut k: usize = 0;
    while k < n
        invariant
            k <= n,
            n == from@.len(),
            n == to@.len(),
            forall|i: int| 0 <= i < k ==> #[trigger] to@[i] == from@[i],
        decreases n - k,
    {
        to[k] = from[k];
        k = k + 1;
    }
    assert(to@ =~= from@);
}

/// Paints a scene on a picture.
fn paint_frame(scene: &Scene, f: &Frame, out: &mut Frame)
    requires
        scene.shows(*f),
        old(out).wf(),
        old(out).format.spec_is_rgb(),
        scene.dst == (old(out).width, old(out).height),
    ensures
        final(out).wf(),
        scale::same_but_pixels(*final(out), *old(out)),
        scale::views(*final(out)) == seq![
            scale::painted(
                *scene,
                scale::views(*f),
                old(out).format,
                scale::views(*old(out))[0],
            ),
        ],
{
    let fmt: PixelFormat = out.format;
    let ghost out0 = *out;
    assert(out.planes@[0]@.len() == out.spec_linesize(0) * out.rows(0));
    paint(scene, f, fmt, out.plane_mut(0));
    proof {
        assert(scale::views(out0)[0] == out0.planes@[0]@);
        assert(scale::views(*out) =~= seq![
            scale::painted(*scene, scale::views(*f), fmt, scale::views(out0)[0]),
        ]);
    }
}

impl ScaleContext {
    spec fn ready(self, f: Frame, out: Frame) -> bool {
        &&& self.wf()
        &&& f.wf()
        &&& out.wf()
        &&& self.takes(f)
        &&& self.gives(out)
    }

    fn make_scene(&self, f: &Frame, sampled: Option<ScaleAlgorithm>) -> (r: Scene)
        ensures
            r == self.scene(*f, sampled),
    {
        Scene {
            sampled,
            gray: self.mode == ConversionMode::Gray8ToRgb,
            full: f.color_range == ColorRange::Jpeg,
            center: f.chroma_location == ChromaLocation::Center,
            src: if sampled.is_some() {
                (self.src.1, self.src.2)
            } else {
                (self.dst.1, self.dst.2)
            },
            dst: (self.dst.1, self.dst.2),
        }
    }

    /// Resamples a picture.
    fn scale_sampled(&self, f: &Frame, out: &mut Frame)
        requires
            self.ready(*f, *old(out)),
            self.src != self.dst,
            !self.unscaled(),
            !self.options.algorithm.table_driven(),
        ensures
            final(out).wf(),
            scale::same_but_pixels(*final(out), *old(out)),
            scale::views(*final(out)) == self.outcome(None, *f, scale::views(*old(out))),
    {
        let alg: ScaleAlgorithm = self.options.algorithm;
        let ghost before = scale::views(*out);
        match self.mode {
            ConversionMode::Yuv420pToRgb | ConversionMode::Gray8ToRgb => {
                let scene: Scene = self.make_scene(f, Some(alg));
                paint_frame(&scene, f, out);
            },
            ConversionMode::Yuv420pToYuv420p => {
                let zero: F32 = F32 { bits: 0 };
                let chroma: F32 = if f.chroma_location == ChromaLocation::Center {
                    F32 { bits: 0xbe80_0000 }
                } else {
                    zero
                };
                resample_planes(alg, [Some(zero), Some(chroma), Some(chroma)], f, out);
                assert(scale::views(*out) =~= self.resampled_planes(*f));
            },
            ConversionMode::Gray8ToGray8 => {
                resample_planes(alg, [None, None, None], f, out);
                assert(scale::views(*out) =~= self.resampled_planes(*f));
            },
        }
    }

    /// Scales a picture with tables.
    fn scale_tabled(&mut self, f: &Frame, out: &mut Frame) -> (r: Result<(), Error>)
        requires
            old(self).ready(*f, *old(out)),
            old(self).src != old(self).dst,
            !old(self).unscaled(),
            old(self).options.algorithm.table_driven(),
        ensures
            final(self).wf(),
            final(self).same_setup(*old(self)),
            final(self).weights == old(self).weights,
            final(self).weights_loc == old(self).weights_loc,
            r.is_ok() == old(self).tables_known(f.chroma_location),
            r matches Err(e) ==> *final(self) == *old(self) && *final(out) == *old(out) && old(
                self,
            ).tables_error(f.chroma_location, e),
            r.is_ok() ==> {
                &&& final(self).filters is Some
                &&& final(self).filters_loc == f.chroma_location
                &&& final(out).wf()
                &&& scale::same_but_pixels(*final(out), *old(out))
                &&& scale::views(*final(out)) == final(self).outcome(
                    final(self).filters,
                    *f,
                    scale::views(*old(out)),
                )
            },
    {
        proof {
            lemma_lengths(*f);
            lemma_lengths(*out);
        }
        match self.prepare(f.chroma_location) {
            Ok(_) => {},
            Err(e) => {
                return Err(e);
            },
        }
        let plan: &FilterPlan = self.filters.as_ref().unwrap();
        proof {
            lemma_plan_fits(*self, *plan, *f);
        }
        let packs: bool = self.mode == ConversionMode::Yuv420pToRgb || self.mode
            == ConversionMode::Gray8ToRgb;
        if !packs {
            table_planes(plan, f, out);
            assert(scale::views(*out) =~= self.tabled_planes(*plan, *f));
            return Ok(());
        }
        let mut inter: Frame = match Frame::allocate(f.format, out.width, out.height) {
            Ok(i) => i,
            Err(e) => {
                assert(false);
                return Err(e);
            },
        };
        inter.color_range = f.color_range;
        table_planes(plan, f, &mut inter);
        assert(scale::views(inter) =~= self.tabled_planes(*plan, *f));
        let scene: Scene = self.make_scene(f, None);
        paint_frame(&scene, &inter, out);
        Ok(())
    }

    /// Scales a picture into another. Where it has to be done on the device, nothing
    /// is done and `false` is returned.
    pub fn scale(&mut self, src: &Frame, dst: &mut Frame) -> (r: Result<bool, Error>)
        requires
            old(self).wf(),
            src.wf(),
            old(dst).wf(),
        ensures
            final(self).wf(),
            final(self).same_setup(*old(self)),
            final(self).weights == old(self).weights,
            final(self).weights_loc == old(self).weights_loc,
            final(dst).wf(),
            scale::same_but_pixels(*final(dst), *old(dst)),
            !(old(self).takes(*src) && old(self).gives(*old(dst))) ==> (r matches Err(e)
                && e.is_invalid("frame geometry does not match ScaleContext"@)),
            r.is_ok() == (old(self).takes(*src) && old(self).gives(*old(dst)) && (old(
                self,
            ).tabled() ==> old(self).tables_known(src.chroma_location))),
            old(self).takes(*src) && old(self).gives(*old(dst)) && r.is_err() ==> (r matches Err(e)
                && old(self).tables_error(src.chroma_location, e)),
            r matches Ok(done) ==> done == !old(self).on_device(),
            r != Ok::<bool, Error>(true) ==> *final(self) == *old(self) && *final(dst) == *old(dst),
            r == Ok::<bool, Error>(true) ==> scale::views(*final(dst)) == final(self).outcome(
                final(self).filters,
                *src,
                scale::views(*old(dst)),
            ),
            r == Ok::<bool, Error>(true) && old(self).tabled() ==> final(self).filters is Some
                && final(self).filters_loc == src.chroma_location,
            !old(self).tabled() ==> *final(self) == *old(self),
    {
        if !(src.format == self.src.0 && src.width == self.src.1 && src.height == self.src.2
            && dst.format == self.dst.0 && dst.width == self.dst.1 && dst.height == self.dst.2) {
            return Err(invalid("frame geometry does not match ScaleContext"));
        }
        if src.format == dst.format && src.width == dst.width && src.height == dst.height {
            copy_planes(src, dst);
            return Ok(true);
        }
        if src.width == dst.width && src.height == dst.height && self.mode
            == ConversionMode::Yuv420pToRgb {
            let scene: Scene = self.make_scene(src, None);
            paint_frame(&scene, src, dst);
            return Ok(true);
        }
        if self.gpu {
            return Ok(false);
        }
        if self.options.algorithm.is_table_driven() {
            match self.scale_tabled(src, dst) {
                Ok(_) => Ok(true),
                Err(e) => Err(e),
            }
        } else {
            self.scale_sampled(src, dst);
            Ok(true)
        }
    }

    /// Pictures are scaled on the device, not here.
    pub open spec fn on_device(self) -> bool {
        self.gpu && self.src != self.dst && !self.unscaled()
    }

    /// Pictures are scaled here, with tables.
    pub open spec fn tabled(self) -> bool {
        !self.gpu && self.src != self.dst && !self.unscaled() && self.options.algorithm.table_driven()
    }
}

proof fn lemma_lengths(f: Frame)
    requires
        f.wf(),
    ensures
        f.width <= 0x1fff_ffff,
        f.height <= 0x1fff_ffff,
{
    let w = f.width as int;
    let h = f.height as int;
    assert(w <= w * h) by (nonlinear_arith)
        requires
            w >= 1,
            h >= 1,
    ;
    assert(h <= w * h) by (nonlinear_arith)
        requires
            w >= 1,
            h >= 1,
    ;
}

proof fn lemma_plan_fits(c: ScaleContext, plan: FilterPlan, f: Frame)
    requires
        f.wf(),
        c.takes(f),
        c.measured(),
        f.format == PixelFormat::Yuv420p || f.format == PixelFormat::Gray8,
        scaleplan::planned(c.axes(c.filters_loc), c.weights, plan),
    ensures
        forall|out: Frame|
            out.format == f.format && out.width == c.dst.1 && out.height == c.dst.2
                ==> #[trigger] plan_fits(plan, f, out),
{
    assert forall|out: Frame|
        out.format == f.format && out.width == c.dst.1 && out.height == c.dst.2 implies
        #[trigger] plan_fits(plan, f, out) by {
        assert forall|p: int| 0 <= p < f.format.spec_planes() implies {
            &&& (#[trigger] h_of(plan, p)).wf()
            &&& v_of(plan, p).wf()
            &&& h_of(plan, p).within(f.columns(p) as int)
            &&& v_of(plan, p).within(f.rows(p) as int)
            &&& h_of(plan, p).rows() == out.columns(p)
            &&& v_of(plan, p).rows() == out.rows(p)
        } by {
            lemma_planar(f, p);
            lemma_planar(out, p);
        }
    }
}

fn is_algorithm_used(
    src: (PixelFormat, u32, u32),
    dst: (PixelFormat, u32, u32),
    mode: ConversionMode,
) -> (r: bool)
    requires
        ConversionMode::between(src.0, dst.0) == Some(mode),
    ensures
        r == ScaleContext::algorithm_used(src, dst),
{
    !(src.0 == dst.0 && src.1 == dst.1 && src.2 == dst.2) && !(src.1 == dst.1 && src.2 == dst.2
        && mode == ConversionMode::Yuv420pToRgb)
}

} // verus!
