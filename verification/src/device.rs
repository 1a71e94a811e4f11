//! What a device is told, and what becomes of its answer.
use crate::error::Error;
use crate::pixels;
use crate::pixels::{ChromaLocation, ColorRange, Frame, PixelFormat};
use crate::sampler::ScaleAlgorithm;
use crate::scale;
use crate::scale::ConversionMode;
use crate::scalecontext::{copy_bytes, ScaleContext};
use vstd::prelude::*;

verus! {

pub open spec fn mode_number(mode: ConversionMode) -> int {
    match mode {
        ConversionMode::Yuv420pToRgb => 0,
        ConversionMode::Gray8ToRgb => 1,
        ConversionMode::Yuv420pToYuv420p => 2,
        ConversionMode::Gray8ToGray8 => 3,
    }
}

/// The number by which the device knows a conversion.
pub fn shader_mode(mode: ConversionMode) -> (r: i32)
    ensures
        r == mode_number(mode),
{
    match mode {
        ConversionMode::Yuv420pToRgb => 0,
        ConversionMode::Gray8ToRgb => 1,
        ConversionMode::Yuv420pToYuv420p => 2,
        ConversionMode::Gray8ToGray8 => 3,
    }
}

pub open spec fn algorithm_number(alg: ScaleAlgorithm) -> int {
    match alg {
        ScaleAlgorithm::Nearest => 0,
        ScaleAlgorithm::Bilinear => 1,
        _ => 2,
    }
}

/// The number by which the device knows an algorithm.
pub fn shader_algorithm(alg: ScaleAlgorithm) -> (r: i32)
    requires
        !alg.table_driven(),
    ensures
        r == algorithm_number(alg),
{
    match alg {
        ScaleAlgorithm::Nearest => 0,
        ScaleAlgorithm::Bilinear => 1,
        _ => 2,
    }
}

/// What the device is told about a picture.
#[derive(Clone, Copy, Debug, PartialEq, Eq)]
pub struct DeviceRequest {
    pub src_size: (i32, i32),
    pub dst_size: (i32, i32),
    /// Size of the chroma planes of the source.
    pub chroma_size: (i32, i32),
    pub mode: i32,
    pub algorithm: i32,
    pub full_range: i32,
    pub center_siting: i32,
    /// Groups of 8 by 8 pixels.
    pub groups: (u32, u32),
    /// Source planes that are sent.
    pub inputs: usize,
    /// Planes that come back; one with four bytes to a pixel, where they are packed.
    pub outputs: usize,
}

/// `n` in groups of eight.
pub open spec fn eights(n: nat) -> nat {
    (n + 7) / 8
}

fn flag(b: bool) -> (r: i32)
    ensures
        r == (if b {
            1int
        } else {
            0
        }),
{
    if b {
        1
    } else {
        0
    }
}

impl ScaleContext {
    /// What the device is told about a picture.
    pub fn device_request(&self, src: &Frame) -> (r: DeviceRequest)
        requires
            self.wf(),
            src.wf(),
            self.takes(*src),
            self.dst.1 <= i32::MAX,
            self.dst.2 <= i32::MAX,
            !self.options.algorithm.table_driven(),
        ensures
            r.src_size == (self.src.1 as i32, self.src.2 as i32),
            r.dst_size == (self.dst.1 as i32, self.dst.2 as i32),
            r.chroma_size.0 == pixels::half_up(self.src.1 as nat),
            r.chroma_size.1 == pixels::half_up(self.src.2 as nat),
            r.mode == mode_number(self.mode),
            r.algorithm == algorithm_number(self.options.algorithm),
            r.full_range != 0 <==> src.color_range == ColorRange::Jpeg,
            r.full_range == 0 || r.full_range == 1,
            r.center_siting != 0 <==> src.chroma_location == ChromaLocation::Center,
            r.center_siting == 0 || r.center_siting == 1,
            r.groups.0 == eights(self.dst.1 as nat),
            r.groups.1 == eights(self.dst.2 as nat),
            r.inputs == self.src.0.spec_planes(),
            r.outputs == self.dst.0.spec_planes(),
    {
        proof {
            assert(src.width <= src.width * src.height) by (nonlinear_arith)
                requires
                    src.width >= 1,
                    src.height >= 1,
            ;
            assert(src.height <= src.width * src.height) by (nonlinear_arith)
                requires
                    src.width >= 1,
                    src.height >= 1,
            ;
        }
        let (w, h) = (self.src.1, self.src.2);
        DeviceRequest {
            src_size: (w as i32, h as i32),
            dst_size: (self.dst.1 as i32, self.dst.2 as i32),
            chroma_size: ((w / 2 + w % 2) as i32, (h / 2 + h % 2) as i32),
            mode: shader_mode(self.mode),
            algorithm: shader_algorithm(self.options.algorithm),
            full_range: flag(src.color_range == ColorRange::Jpeg),
            center_siting: flag(src.chroma_location == ChromaLocation::Center),
            groups: ((self.dst.1 + 7) / 8, (self.dst.2 + 7) / 8),
            inputs: self.src.0.planes(),
            outputs: self.dst.0.planes(),
        }
    }
}

/// The packed plane `plane` with the colors of `data`, four bytes to a pixel.
pub open spec fn repacked(data: Seq<u8>, fmt: PixelFormat, plane: Seq<u8>) -> Seq<u8> {
    let step = fmt.spec_step() as int;
    Seq::new(
        plane.len(),
        |k: int|
            scale::channel(
                (
                    data[4 * (k / step)] as int,
                    data[4 * (k / step) + 1] as int,
                    data[4 * (k / step) + 2] as int,
                ),
                fmt,
                k % step,
                plane[k],
            ),
    )
}

/// Takes over pixels of four bytes (red, green, blue and one that is left out) into
/// a packed picture.
pub fn pack_rgba_to_dst(data: &[u8], dst: &mut Frame) -> (r: Result<(), Error>)
    requires
        old(dst).wf(),
        old(dst).format.spec_is_rgb(),
    ensures
        r.is_ok() == (data@.len() >= 4 * old(dst).width * old(dst).height),
        r matches Err(e) ==> e == Error::BufferTooSmall && *final(dst) == *old(dst),
        r is Ok ==> {
            &&& final(dst).wf()
            &&& scale::same_but_pixels(*final(dst), *old(dst))
            &&& scale::views(*final(dst)) == seq![
                repacked(data@, old(dst).format, scale::views(*old(dst))[0]),
            ]
        },
{
    let fmt: PixelFormat = dst.format;
    let ghost d0 = *dst;
    let ghost n = dst.width * dst.height;
    proof {
        assert(4 * dst.width * dst.height == 4 * n) by (nonlinear_arith)
            requires
                n == dst.width * dst.height,
        ;
        assert(n >= 0) by (nonlinear_arith)
            requires
                n == dst.width * dst.height,
        ;
    }
    let pixels: u64 = dst.width as u64 * dst.height as u64;
    if (data.len() as u64) < 4 * pixels {
        return Err(Error::BufferTooSmall);
    }
    assert(dst.planes@[0]@.len() == dst.spec_linesize(0) * dst.rows(0));
    proof {
        let a = dst.width as int;
        let b = dst.height as int;
        let st = fmt.spec_step() as int;
        assert(a * st * b == (a * b) * st) by (nonlinear_arith);
    }
    let count: usize = pixels as usize;
    repack(data, fmt, count, dst.plane_mut(0));
    proof {
        assert(scale::views(d0)[0] == d0.planes@[0]@);
        assert(scale::views(*dst) =~= seq![repacked(data@, fmt, scale::views(d0)[0])]);
    }
    Ok(())
}

fn repack(data: &[u8], fmt: PixelFormat, n: usize, out: &mut [u8])
    requires
        fmt.spec_is_rgb(),
        n <= 0x1fff_ffff,
        data@.len() >= 4 * n,
        old(out)@.len() == n * fmt.spec_step(),
    ensures
        final(out)@ == repacked(data@, fmt, old(out)@),
{
    let step: usize = fmt.step();
    let (ro, go, bo) = fmt.offsets();
    let len: usize = out.len();
    let ghost before = out@;
    let ghost want = repacked(data@, fmt, out@);
    let mut i: usize = 0;
    let mut at: usize = 0;
    while i < n
        invariant
            fmt.spec_is_rgb(),
            n <= 0x1fff_ffff,
            data@.len() >= 4 * n,
            step == fmt.spec_step(),
            (ro as nat, go as nat, bo as nat) == fmt.spec_offsets(),
            len == n * step,
            out@.len() == len,
            before.len() == len,
            i <= n,
            at == i * step,
            want == repacked(data@, fmt, before),
            forall|k: int| 0 <= k < at ==> #[trigger] out@[k] == want[k],
            forall|k: int| at <= k < len ==> #[trigger] out@[k] == before[k],
        decreases n - i,
    {
        proof {
            assert(i * step + step <= n * step) by (nonlinear_arith)
                requires
                    i + 1 <= n,
                    step >= 0,
            ;
        }
        let ghost prior = out@;
        out[at + ro] = data[4 * i];
        out[at + go] = data[4 * i + 1];
        out[at + bo] = data[4 * i + 2];
        proof {
            assert forall|k: int| 0 <= k < at + step implies #[trigger] out@[k] == want[k] by {
                if k < at {
                    assert(out@[k] == prior[k]);
                } else {
                    scale::lemma_packed(fmt, i as int, k);
                }
            }
            assert(i * step + step == (i + 1) * step) by (nonlinear_arith);
        }
        at = at + step;
        i = i + 1;
    }
    assert(out@ =~= want);
}

/// Takes over the bytes of a plane.
pub fn store_plane(data: &[u8], dst: &mut Frame, p: usize) -> (r: Result<(), Error>)
    requires
        old(dst).wf(),
        p < old(dst).planes@.len(),
    ensures
        r.is_ok() == (data@.len() == old(dst).planes@[p as int]@.len()),
        r matches Err(e) ==> e == Error::BufferTooSmall && *final(dst) == *old(dst),
        r is Ok ==> {
            &&& final(dst).wf()
            &&& scale::same_but_pixels(*final(dst), *old(dst))
            &&& scale::views(*final(dst)) == scale::views(*old(dst)).update(p as int, data@)
        },
{
    let ghost d0 = *dst;
    if data.len() != dst.plane(p).len() {
        return Err(Error::BufferTooSmall);
    }
    copy_bytes(data, dst.plane_mut(p));
    proof {
        assert forall|i: int| 0 <= i < dst.planes@.len() implies (#[trigger] dst.planes@[i])@.len()
            == dst.spec_linesize(i) * dst.rows(i) by {
            assert(d0.planes@[i]@.len() == d0.spec_linesize(i) * d0.rows(i));
            if i != p {
                assert(dst.planes@[i] == d0.planes@[i]);
            }
        }
        let want = scale::views(d0).update(p as int, data@);
        assert forall|i: int| 0 <= i < want.len() implies #[trigger] scale::views(*dst)[i]
            == want[i] by {
            if i != p {
                assert(dst.planes@[i] == d0.planes@[i]);
            }
        }
        assert(scale::views(*dst) =~= want);
    }
    Ok(())
}

} // verus!
