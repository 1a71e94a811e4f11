//! Scaling pictures and converting their formats.
use crate::float::F32;
use crate::pixels;
use crate::pixels::{Frame, PixelFormat};
use crate::sampler;
use crate::sampler::{gray_to_rgb, sample_plane, yuv_to_rgb, ScaleAlgorithm};
use crate::scalefilter::{SwsFilter, TableScaler};
use crate::scaleplan;
use crate::scaleplan::{scale_plane, Grid};
use vstd::prelude::*;

verus! {

/// Where pictures are scaled.
#[derive(Clone, Copy, Debug, PartialEq, Eq, Structural)]
pub enum ScaleEngine {
    /// On the device where there is one, else here.
    Auto,
    /// On the device.
    Vulkan,
    /// Here.
    Cpu,
}

impl Default for ScaleEngine {
    fn default() -> (r: ScaleEngine)
        ensures
            r == ScaleEngine::Auto,
    {
        ScaleEngine::Auto
    }
}

/// How and where to scale.
#[derive(Clone, Copy, Debug, PartialEq, Eq, Structural)]
pub struct ScaleOptions {
    pub algorithm: ScaleAlgorithm,
    pub engine: ScaleEngine,
}

impl Default for ScaleOptions {
    fn default() -> (r: ScaleOptions)
        ensures
            r.algorithm == ScaleAlgorithm::Bicubic,
            r.engine == ScaleEngine::Auto,
    {
        ScaleOptions { algorithm: ScaleAlgorithm::Bicubic, engine: ScaleEngine::Auto }
    }
}

/// The conversions there are.
#[derive(Clone, Copy, Debug, PartialEq, Eq, Structural)]
pub enum ConversionMode {
    Yuv420pToRgb,
    Gray8ToRgb,
    Yuv420pToYuv420p,
    Gray8ToGray8,
}

impl ConversionMode {
    /// The conversion from one format to another.
    pub open spec fn between(src: PixelFormat, dst: PixelFormat) -> Option<ConversionMode> {
        if src == dst && src == PixelFormat::Yuv420p {
            Some(ConversionMode::Yuv420pToYuv420p)
        } else if src == dst && src == PixelFormat::Gray8 {
            Some(ConversionMode::Gray8ToGray8)
        } else if src == PixelFormat::Yuv420p && dst.spec_is_rgb() {
            Some(ConversionMode::Yuv420pToRgb)
        } else if src == PixelFormat::Gray8 && dst.spec_is_rgb() {
            Some(ConversionMode::Gray8ToRgb)
        } else {
            None
        }
    }

    pub(crate) fn choose_mode(src: PixelFormat, dst: PixelFormat) -> (r: Option<ConversionMode>)
        ensures
            r == ConversionMode::between(src, dst),
    {
        if src == dst && src == PixelFormat::Yuv420p {
            Some(ConversionMode::Yuv420pToYuv420p)
        } else if src == dst && src == PixelFormat::Gray8 {
            Some(ConversionMode::Gray8ToGray8)
        } else if src == PixelFormat::Yuv420p && dst.is_rgb() {
            Some(ConversionMode::Yuv420pToRgb)
        } else if src == PixelFormat::Gray8 && dst.is_rgb() {
            Some(ConversionMode::Gray8ToRgb)
        } else {
            None
        }
    }
}

pub open spec fn can_read(fmt: PixelFormat) -> bool {
    fmt == PixelFormat::Yuv420p || fmt == PixelFormat::Gray8
}

pub open spec fn can_write(fmt: PixelFormat) -> bool {
    can_read(fmt) || fmt.spec_is_rgb()
}

/// Whether pictures of a format can be scaled.
pub fn supported_input(fmt: PixelFormat) -> (r: bool)
    ensures
        r == can_read(fmt),
{
    fmt == PixelFormat::Yuv420p || fmt == PixelFormat::Gray8
}

/// Whether pictures can be scaled to a format.
pub fn supported_output(fmt: PixelFormat) -> (r: bool)
    ensures
        r == can_write(fmt),
{
    fmt == PixelFormat::Yuv420p || fmt == PixelFormat::Gray8 || fmt.is_rgb()
}

/// A conversion reads a supported input and writes a supported output; every
/// supported input can be converted to every packed format and to itself.
pub proof fn lemma_conversions(src: PixelFormat, dst: PixelFormat)
    ensures
        ConversionMode::between(src, dst) is Some <==> can_read(src) && can_write(dst) && (src
            == dst || dst.spec_is_rgb()),
{
}

impl TableScaler {
    pub open spec fn of(alg: ScaleAlgorithm) -> TableScaler {
        match alg {
            ScaleAlgorithm::Area => TableScaler::Area,
            ScaleAlgorithm::Gauss => TableScaler::Gauss,
            ScaleAlgorithm::Sinc => TableScaler::Sinc,
            ScaleAlgorithm::Lanczos => TableScaler::Lanczos,
            _ => TableScaler::Spline,
        }
    }

    /// The kernel of a table-driven algorithm.
    pub fn from_algorithm(alg: ScaleAlgorithm) -> (r: TableScaler)
        requires
            alg.table_driven(),
        ensures
            r == TableScaler::of(alg),
    {
        match alg {
            ScaleAlgorithm::Area => TableScaler::Area,
            ScaleAlgorithm::Gauss => TableScaler::Gauss,
            ScaleAlgorithm::Sinc => TableScaler::Sinc,
            ScaleAlgorithm::Lanczos => TableScaler::Lanczos,
            _ => TableScaler::Spline,
        }
    }
}

// --- planes -------------------------------------------------------------------------------

/// The planes of a picture.
pub open spec fn views(f: Frame) -> Seq<Seq<u8>> {
    Seq::new(f.planes@.len(), |p: int| f.planes@[p]@)
}

/// The pictures differ in nothing but their pixels.
pub open spec fn same_but_pixels(a: Frame, b: Frame) -> bool {
    &&& a.like(b)
    &&& a.color_range == b.color_range
    &&& a.chroma_location == b.chroma_location
    &&& a.planes@.len() == b.planes@.len()
}

/// A place in the source, moved.
pub open spec fn moved(s: F32, shift: Option<F32>) -> F32 {
    match shift {
        Some(d) => s.s_plus(d),
        None => s,
    }
}

/// A plane, resampled from `sw` by `sh` to `dw` by `dh` pixels.
pub open spec fn resampled(
    alg: ScaleAlgorithm,
    plane: Seq<u8>,
    sw: int,
    sh: int,
    dw: int,
    dh: int,
    shift: Option<F32>,
) -> Seq<u8> {
    Seq::new(
        (dw * dh) as nat,
        |k: int|
            sampler::byte_of(
                sampler::sample(
                    alg,
                    plane,
                    sw,
                    sh,
                    moved(sampler::source_place(k % dw, sw, dw), shift),
                    moved(sampler::source_place(k / dw, sh, dh), shift),
                ),
            ) as u8,
    )
}

/// A plane, scaled with tables from `sw` by `sh` to `dw` by `dh` pixels.
pub open spec fn tabled(
    h: SwsFilter,
    v: SwsFilter,
    plane: Seq<u8>,
    sw: int,
    sh: int,
    dw: int,
    dh: int,
) -> Seq<u8> {
    Seq::new(
        (dw * dh) as nat,
        |k: int|
            scaleplan::plane_pixel(
                h,
                v,
                plane,
                Grid { w: sw as usize, h: sh as usize, ls: sw as usize },
                k / dw,
                k % dw,
            ) as u8,
    )
}

/// Column and row of byte `k` of a plane.
pub(crate) proof fn lemma_place(w: int, h: int, k: int)
    requires
        0 < w,
        0 <= k < w * h,
    ensures
        0 <= k % w < w,
        0 <= k / w < h,
        (k / w) * w + k % w == k,
{
    vstd::arithmetic::div_mod::lemma_fundamental_div_mod(k, w);
    vstd::arithmetic::div_mod::lemma_mod_bound(k, w);
    let q = k / w;
    assert(w * q == q * w) by (nonlinear_arith);
    assert(q >= 0) by {
        vstd::arithmetic::div_mod::lemma_div_pos_is_pos(k, w);
    }
    assert(q < h) by (nonlinear_arith)
        requires
            q * w <= k,
            k < w * h,
            0 < w,
    ;
}

fn moved_exec(s: F32, shift: Option<F32>) -> (r: F32)
    ensures
        r == moved(s, shift),
{
    match shift {
        Some(d) => s.plus(d),
        None => s,
    }
}

pub(crate) fn resample_plane(
    plane: &[u8],
    src: (u32, u32),
    dst: (u32, u32),
    shift: Option<F32>,
    alg: ScaleAlgorithm,
    out: &mut [u8],
)
    requires
        !alg.table_driven(),
        src.0 >= 1,
        src.1 >= 1,
        dst.0 >= 1,
        plane@.len() == src.0 * src.1,
        old(out)@.len() == dst.0 * dst.1,
    ensures
        final(out)@ == resampled(
            alg,
            plane@,
            src.0 as int,
            src.1 as int,
            dst.0 as int,
            dst.1 as int,
            shift,
        ),
{
    let n: usize = out.len();
    let w: usize = dst.0 as usize;
    let ghost want = resampled(
        alg,
        plane@,
        src.0 as int,
        src.1 as int,
        dst.0 as int,
        dst.1 as int,
        shift,
    );
    let mut k: usize = 0;
    while k < n
        invariant
            !alg.table_driven(),
            src.0 >= 1,
            src.1 >= 1,
            dst.0 >= 1,
            plane@.len() == src.0 * src.1,
            n == dst.0 * dst.1,
            w == dst.0,
            out@.len() == n,
            k <= n,
            want == resampled(
                alg,
                plane@,
                src.0 as int,
                src.1 as int,
                dst.0 as int,
                dst.1 as int,
                shift,
            ),
            forall|i: int| 0 <= i < k ==> #[trigger] out@[i] == want[i],
        decreases n - k,
    {
        proof {
            lemma_place(dst.0 as int, dst.1 as int, k as int);
        }
        let x: F32 = moved_exec(sampler::dst_to_src(k % w, src.0, dst.0), shift);
        let y: F32 = moved_exec(sampler::dst_to_src(k / w, src.1, dst.1), shift);
        let s: F32 = sample_plane(plane, src.0 as usize, src.1 as usize, x, y, alg);
        let b: u8 = sampler::byte_of_exec(s);
        out[k] = b;
        k = k + 1;
    }
    assert(out@ =~= want);
}

pub(crate) fn table_plane(
    plane: &[u8],
    src: (usize, usize),
    out: &mut [u8],
    dst: (usize, usize),
    h: &SwsFilter,
    v: &SwsFilter,
)
    requires
        h.wf(),
        v.wf(),
        h.within(src.0 as int),
        v.within(src.1 as int),
        h.rows() == dst.0,
        v.rows() == dst.1,
        dst.0 >= 1,
        plane@.len() == src.0 * src.1,
        old(out)@.len() == dst.0 * dst.1,
    ensures
        final(out)@ == tabled(
            *h,
            *v,
            plane@,
            src.0 as int,
            src.1 as int,
            dst.0 as int,
            dst.1 as int,
        ),
{
    let g: Grid = Grid { w: src.0, h: src.1, ls: src.0 };
    let ghost d = Grid { w: dst.0, h: dst.1, ls: dst.0 };
    proof {
        if src.1 > 0 {
            assert((src.1 - 1) * src.0 + src.0 == src.0 * src.1) by (nonlinear_arith);
        }
        if dst.1 > 0 {
            assert((dst.1 - 1) * dst.0 + dst.0 == dst.0 * dst.1) by (nonlinear_arith);
        }
    }
    scale_plane(plane, g, out, dst.0, h, v);
    proof {
        let want = tabled(
            *h,
            *v,
            plane@,
            src.0 as int,
            src.1 as int,
            dst.0 as int,
            dst.1 as int,
        );
        assert forall|k: int| 0 <= k < out@.len() implies #[trigger] out@[k] == want[k] by {
            lemma_place(dst.0 as int, dst.1 as int, k);
            assert(d.at(k / dst.0 as int, k % dst.0 as int) == k);
        }
        assert(out@ =~= want);
    }
}

// --- painting -----------------------------------------------------------------------------

/// How packed pixels come from planes.
#[derive(Clone, Copy, Debug)]
pub struct Scene {
    /// The source's pixels are resampled; otherwise each is taken as it is.
    pub sampled: Option<ScaleAlgorithm>,
    /// There is luma alone.
    pub gray: bool,
    /// Luma has the full range.
    pub full: bool,
    /// Chroma lies in the middle of four pixels.
    pub center: bool,
    pub src: (u32, u32),
    pub dst: (u32, u32),
}

/// Where a place of luma is in the planes of chroma.
pub open spec fn chroma_place(s: F32, center: bool) -> F32 {
    let two = F32 { bits: 0x4000_0000 };
    if center {
        s.s_minus(F32 { bits: 0x3f00_0000 }).s_over(two)
    } else {
        s.s_over(two)
    }
}

fn to_chroma(s: F32, center: bool) -> (r: F32)
    ensures
        r == chroma_place(s, center),
{
    let two: F32 = F32 { bits: 0x4000_0000 };
    if center {
        s.minus(F32 { bits: 0x3f00_0000 }).over(two)
    } else {
        s.over(two)
    }
}

impl Scene {
    pub open spec fn place(self, x: int, y: int) -> (F32, F32) {
        (
            sampler::source_place(x, self.src.0 as int, self.dst.0 as int),
            sampler::source_place(y, self.src.1 as int, self.dst.1 as int),
        )
    }

    pub open spec fn luma(self, planes: Seq<Seq<u8>>, x: int, y: int) -> F32 {
        match self.sampled {
            Some(alg) => sampler::sample(
                alg,
                planes[0],
                self.src.0 as int,
                self.src.1 as int,
                self.place(x, y).0,
                self.place(x, y).1,
            ),
            None => F32::s_from_int(planes[0][y * self.src.0 + x] as int),
        }
    }

    pub open spec fn chroma(self, planes: Seq<Seq<u8>>, p: int, x: int, y: int) -> F32 {
        let cw = pixels::half_up(self.src.0 as nat) as int;
        let ch = pixels::half_up(self.src.1 as nat) as int;
        match self.sampled {
            Some(alg) => sampler::sample(
                alg,
                planes[p],
                cw,
                ch,
                chroma_place(self.place(x, y).0, self.center),
                chroma_place(self.place(x, y).1, self.center),
            ),
            None => F32::s_from_int(planes[p][(y / 2) * cw + x / 2] as int),
        }
    }

    /// Red, green and blue of the pixel in column `x` of row `y`.
    pub open spec fn color(self, planes: Seq<Seq<u8>>, x: int, y: int) -> (int, int, int) {
        let l = self.luma(planes, x, y);
        if self.gray {
            sampler::gray(l, self.full)
        } else {
            sampler::color(
                l,
                self.chroma(planes, 1, x, y),
                self.chroma(planes, 2, x, y),
                self.full,
            )
        }
    }

    /// The picture has the planes that the scene is made of.
    pub open spec fn shows(self, f: Frame) -> bool {
        &&& f.wf()
        &&& f.width == self.src.0
        &&& f.height == self.src.1
        &&& f.format == if self.gray {
            PixelFormat::Gray8
        } else {
            PixelFormat::Yuv420p
        }
        &&& match self.sampled {
            Some(alg) => !alg.table_driven(),
            None => self.src == self.dst,
        }
    }

    fn luma_exec(&self, f: &Frame, x: usize, y: usize) -> (r: F32)
        requires
            self.shows(*f),
            x < self.dst.0,
            y < self.dst.1,
        ensures
            r == self.luma(views(*f), x as int, y as int),
    {
        let w: usize = self.src.0 as usize;
        let h: usize = self.src.1 as usize;
        proof {
            assert(f.planes@[0]@.len() == f.spec_linesize(0) * f.rows(0));
            assert(views(*f)[0] == f.planes@[0]@);
        }
        match self.sampled {
            Some(alg) => {
                let sx: F32 = sampler::dst_to_src(x, self.src.0, self.dst.0);
                let sy: F32 = sampler::dst_to_src(y, self.src.1, self.dst.1);
                sample_plane(f.plane(0), w, h, sx, sy, alg)
            },
            None => F32::from_int(sampler::pixel(f.plane(0), w, h, x, y) as i64),
        }
    }

    fn chroma_exec(&self, f: &Frame, p: usize, x: usize, y: usize) -> (r: F32)
        requires
            self.shows(*f),
            !self.gray,
            1 <= p <= 2,
            x < self.dst.0,
            y < self.dst.1,
        ensures
            r == self.chroma(views(*f), p as int, x as int, y as int),
    {
        let cw: usize = (self.src.0 / 2 + self.src.0 % 2) as usize;
        let ch: usize = (self.src.1 / 2 + self.src.1 % 2) as usize;
        proof {
            assert(f.planes@[p as int]@.len() == f.spec_linesize(p as int) * f.rows(p as int));
            assert(views(*f)[p as int] == f.planes@[p as int]@);
        }
        match self.sampled {
            Some(alg) => {
                let sx: F32 = sampler::dst_to_src(x, self.src.0, self.dst.0);
                let sy: F32 = sampler::dst_to_src(y, self.src.1, self.dst.1);
                let cx: F32 = to_chroma(sx, self.center);
                let cy: F32 = to_chroma(sy, self.center);
                sample_plane(f.plane(p), cw, ch, cx, cy, alg)
            },
            None => F32::from_int(sampler::pixel(f.plane(p), cw, ch, x / 2, y / 2) as i64),
        }
    }

    fn color_exec(&self, f: &Frame, x: usize, y: usize) -> (r: (u8, u8, u8))
        requires
            self.shows(*f),
            x < self.dst.0,
            y < self.dst.1,
        ensures
            (r.0 as int, r.1 as int, r.2 as int) == self.color(views(*f), x as int, y as int),
    {
        let l: F32 = self.luma_exec(f, x, y);
        if self.gray {
            gray_to_rgb(l, self.full)
        } else {
            let u: F32 = self.chroma_exec(f, 1, x, y);
            let v: F32 = self.chroma_exec(f, 2, x, y);
            yuv_to_rgb(l, u, v, self.full)
        }
    }
}

/// A byte of a packed pixel: red, green, blue, or one that stays as it is.
pub open spec fn channel(c: (int, int, int), fmt: PixelFormat, o: int, old_byte: u8) -> u8 {
    let off = fmt.spec_offsets();
    if o == off.0 {
        c.0 as u8
    } else if o == off.1 {
        c.1 as u8
    } else if o == off.2 {
        c.2 as u8
    } else {
        old_byte
    }
}

/// The packed plane `plane` with the scene painted on it.
pub open spec fn painted(
    scene: Scene,
    planes: Seq<Seq<u8>>,
    fmt: PixelFormat,
    plane: Seq<u8>,
) -> Seq<u8> {
    let step = fmt.spec_step() as int;
    let w = scene.dst.0 as int;
    Seq::new(
        plane.len(),
        |k: int|
            channel(
                scene.color(planes, (k / step) % w, (k / step) / w),
                fmt,
                k % step,
                plane[k],
            ),
    )
}

pub(crate) proof fn lemma_packed(fmt: PixelFormat, i: int, k: int)
    requires
        fmt.spec_is_rgb(),
        0 <= i,
        i * fmt.spec_step() <= k < i * fmt.spec_step() + fmt.spec_step(),
    ensures
        k / fmt.spec_step() as int == i,
        k % fmt.spec_step() as int == k - i * fmt.spec_step(),
{
    if fmt.spec_step() == 3 {
        assert(k / 3 == i);
    } else {
        assert(k / 4 == i);
    }
}

pub(crate) fn paint(scene: &Scene, f: &Frame, fmt: PixelFormat, out: &mut [u8])
    requires
        scene.shows(*f),
        fmt.spec_is_rgb(),
        scene.dst.0 >= 1,
        old(out)@.len() == scene.dst.0 * fmt.spec_step() * scene.dst.1,
    ensures
        final(out)@ == painted(*scene, views(*f), fmt, old(out)@),
{
    let step: usize = fmt.step();
    let (ro, go, bo) = fmt.offsets();
    let w: usize = scene.dst.0 as usize;
    let len: usize = out.len();
    let ghost n = scene.dst.0 * scene.dst.1;
    let ghost want = painted(*scene, views(*f), fmt, out@);
    let ghost before = out@;
    proof {
        let a = scene.dst.0 as int;
        let b = scene.dst.1 as int;
        let st = step as int;
        assert(a * st * b == (a * b) * st) by (nonlinear_arith);
    }
    let mut i: usize = 0;
    let mut at: usize = 0;
    while at < len
        invariant
            scene.shows(*f),
            fmt.spec_is_rgb(),
            scene.dst.0 >= 1,
            step == fmt.spec_step(),
            (ro as nat, go as nat, bo as nat) == fmt.spec_offsets(),
            w == scene.dst.0,
            n == scene.dst.0 * scene.dst.1,
            len == n * step,
            out@.len() == len,
            before.len() == len,
            at == i * step,
            at <= len,
            want == painted(*scene, views(*f), fmt, before),
            forall|k: int| 0 <= k < at ==> #[trigger] out@[k] == want[k],
            forall|k: int| at <= k < len ==> #[trigger] out@[k] == before[k],
        decreases len - at,
    {
        proof {
            if step == 3 {
                assert(i < n);
            } else {
                assert(step == 4);
                assert(i < n);
            }
            assert(at + step <= len);
            lemma_place(w as int, scene.dst.1 as int, i as int);
        }
        let c: (u8, u8, u8) = scene.color_exec(f, i % w, i / w);
        let ghost prior = out@;
        out[at + ro] = c.0;
        out[at + go] = c.1;
        out[at + bo] = c.2;
        proof {
            assert forall|k: int| 0 <= k < at + step implies #[trigger] out@[k] == want[k] by {
                if k < at {
                    assert(out@[k] == prior[k]);
                } else {
                    lemma_packed(fmt, i as int, k);
                }
            }
        }
        at = at + step;
        i = i + 1;
        proof {
            assert((i - 1) * step + step == i * step) by (nonlinear_arith);
        }
    }
    assert(out@ =~= want);
}

} // verus!
