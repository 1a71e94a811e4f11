//! Pictures: pixel formats, color properties and frames.
use crate::error::{invalid, Error};
use vstd::prelude::*;

verus! {

/// Formats of 8-bit pixels.
#[derive(Clone, Copy, Debug, PartialEq, Eq, Structural, Hash)]
pub enum PixelFormat {
    Yuv420p,
    Yuv422p,
    Yuv444p,
    Gray8,
    Rgb24,
    Bgr24,
    Rgba,
    Bgra,
    Argb,
    Abgr,
}

/// Where chroma samples lie in relation to luma samples.
#[derive(Clone, Copy, Debug, PartialEq, Eq, Structural, Hash)]
pub enum ChromaLocation {
    Unspecified,
    Left,
    Center,
    TopLeft,
    Top,
    BottomLeft,
    Bottom,
}

/// Which numbers stand for black and white.
#[derive(Clone, Copy, Debug, PartialEq, Eq, Structural, Hash)]
pub enum ColorRange {
    Unspecified,
    /// Luma from 16 to 235.
    Mpeg,
    /// All numbers.
    Jpeg,
}

impl PixelFormat {
    pub open spec fn spec_name(self) -> Seq<char> {
        match self {
            PixelFormat::Yuv420p => "yuv420p"@,
            PixelFormat::Yuv422p => "yuv422p"@,
            PixelFormat::Yuv444p => "yuv444p"@,
            PixelFormat::Gray8 => "gray"@,
            PixelFormat::Rgb24 => "rgb24"@,
            PixelFormat::Bgr24 => "bgr24"@,
            PixelFormat::Rgba => "rgba"@,
            PixelFormat::Bgra => "bgra"@,
            PixelFormat::Argb => "argb"@,
            PixelFormat::Abgr => "abgr"@,
        }
    }

    /// The format's name.
    pub fn name(self) -> (r: &'static str)
        ensures
            r@ == self.spec_name(),
    {
        match self {
            PixelFormat::Yuv420p => "yuv420p",
            PixelFormat::Yuv422p => "yuv422p",
            PixelFormat::Yuv444p => "yuv444p",
            PixelFormat::Gray8 => "gray",
            PixelFormat::Rgb24 => "rgb24",
            PixelFormat::Bgr24 => "bgr24",
            PixelFormat::Rgba => "rgba",
            PixelFormat::Bgra => "bgra",
            PixelFormat::Argb => "argb",
            PixelFormat::Abgr => "abgr",
        }
    }

    /// Packed red, green and blue.
    pub open spec fn spec_is_rgb(self) -> bool {
        match self {
            PixelFormat::Rgb24
            | PixelFormat::Bgr24
            | PixelFormat::Rgba
            | PixelFormat::Bgra
            | PixelFormat::Argb
            | PixelFormat::Abgr => true,
            _ => false,
        }
    }

    pub fn is_rgb(self) -> (r: bool)
        ensures
            r == self.spec_is_rgb(),
    {
        match self {
            PixelFormat::Rgb24
            | PixelFormat::Bgr24
            | PixelFormat::Rgba
            | PixelFormat::Bgra
            | PixelFormat::Argb
            | PixelFormat::Abgr => true,
            _ => false,
        }
    }

    /// Bytes from one pixel to the next in the first plane.
    pub open spec fn spec_step(self) -> nat {
        match self {
            PixelFormat::Rgb24 | PixelFormat::Bgr24 => 3,
            PixelFormat::Rgba | PixelFormat::Bgra | PixelFormat::Argb | PixelFormat::Abgr => 4,
            _ => 1,
        }
    }

    pub fn step(self) -> (r: usize)
        ensures
            r == self.spec_step(),
            1 <= r <= 4,
    {
        match self {
            PixelFormat::Rgb24 | PixelFormat::Bgr24 => 3,
            PixelFormat::Rgba | PixelFormat::Bgra | PixelFormat::Argb | PixelFormat::Abgr => 4,
            _ => 1,
        }
    }

    /// Bytes of red, green and blue within a packed pixel.
    pub open spec fn spec_offsets(self) -> (nat, nat, nat) {
        match self {
            PixelFormat::Bgr24 | PixelFormat::Bgra => (2, 1, 0),
            PixelFormat::Argb => (1, 2, 3),
            PixelFormat::Abgr => (3, 2, 1),
            _ => (0, 1, 2),
        }
    }

    pub fn offsets(self) -> (r: (usize, usize, usize))
        ensures
            (r.0 as nat, r.1 as nat, r.2 as nat) == self.spec_offsets(),
    {
        match self {
            PixelFormat::Bgr24 | PixelFormat::Bgra => (2, 1, 0),
            PixelFormat::Argb => (1, 2, 3),
            PixelFormat::Abgr => (3, 2, 1),
            _ => (0, 1, 2),
        }
    }

    pub open spec fn spec_planes(self) -> nat {
        match self {
            PixelFormat::Yuv420p | PixelFormat::Yuv422p | PixelFormat::Yuv444p => 3,
            _ => 1,
        }
    }

    /// Number of planes.
    pub fn planes(self) -> (r: usize)
        ensures
            r == self.spec_planes(),
    {
        match self {
            PixelFormat::Yuv420p | PixelFormat::Yuv422p | PixelFormat::Yuv444p => 3,
            _ => 1,
        }
    }

    /// Chroma planes have half as many columns.
    pub open spec fn halves_width(self) -> bool {
        self == PixelFormat::Yuv420p || self == PixelFormat::Yuv422p
    }

    /// Chroma planes have half as many rows.
    pub open spec fn halves_height(self) -> bool {
        self == PixelFormat::Yuv420p
    }
}

/// Half of `n`, rounded up.
pub open spec fn half_up(n: nat) -> nat {
    (n + 1) / 2
}

/// A picture. Rows lie one behind the other without gaps.
#[derive(Debug)]
pub struct Frame {
    pub format: PixelFormat,
    pub width: u32,
    pub height: u32,
    pub color_range: ColorRange,
    pub chroma_location: ChromaLocation,
    pub planes: Vec<Vec<u8>>,
}

impl Frame {
    /// Columns of plane `p`.
    pub open spec fn columns(self, p: int) -> nat {
        if p > 0 && self.format.halves_width() {
            half_up(self.width as nat)
        } else {
            self.width as nat
        }
    }

    /// Rows of plane `p`.
    pub open spec fn rows(self, p: int) -> nat {
        if p > 0 && self.format.halves_height() {
            half_up(self.height as nat)
        } else {
            self.height as nat
        }
    }

    /// Bytes of a row of plane `p`.
    pub open spec fn spec_linesize(self, p: int) -> nat {
        self.columns(p) * self.format.spec_step()
    }

    /// Neither too small nor too large.
    pub open spec fn sized(self) -> bool {
        self.width > 0 && self.height > 0 && self.width * self.height <= 0x1fff_ffff
    }

    /// Every plane holds its rows.
    pub open spec fn wf(self) -> bool {
        &&& self.sized()
        &&& self.planes@.len() == self.format.spec_planes()
        &&& forall|p: int|
            0 <= p < self.planes@.len() ==> (#[trigger] self.planes@[p])@.len() == self.spec_linesize(
                p,
            ) * self.rows(p)
    }

    /// Same format and size.
    pub open spec fn like(self, o: Frame) -> bool {
        &&& self.format == o.format
        &&& self.width == o.width
        &&& self.height == o.height
    }

    /// A picture whose bytes are all zero.
    pub fn allocate(format: PixelFormat, width: u32, height: u32) -> (r: Result<Frame, Error>)
        ensures
            r.is_ok() == (width > 0 && height > 0 && width * height * 4 <= i32::MAX),
            r matches Err(e) ==> e.is_invalid("picture size out of range"@),
            r matches Ok(f) ==> {
                &&& f.wf()
                &&& f.format == format
                &&& f.width == width
                &&& f.height == height
                &&& f.color_range == ColorRange::Unspecified
                &&& f.chroma_location == ChromaLocation::Unspecified
                &&& forall|p: int, k: int|
                    0 <= p < f.planes@.len() && 0 <= k < f.planes@[p]@.len()
                        ==> #[trigger] f.planes@[p]@[k] == 0
            },
    {
        proof {
            assert(0 <= width * height <= 0xffff_ffff * 0xffff_ffff) by (nonlinear_arith)
                requires
                    0 <= width <= 0xffff_ffff,
                    0 <= height <= 0xffff_ffff,
            ;
        }
        if width == 0 || height == 0 || width as u64 * height as u64 > 0x1fff_ffff {
            return Err(invalid("picture size out of range"));
        }
        let mut f = Frame {
            format,
            width,
            height,
            color_range: ColorRange::Unspecified,
            chroma_location: ChromaLocation::Unspecified,
            planes: Vec::new(),
        };
        let n: usize = format.planes();
        let mut p: usize = 0;
        while p < n
            invariant
                p <= n,
                n == f.format.spec_planes(),
                f.format == format,
                f.width == width,
                f.height == height,
                f.color_range == ColorRange::Unspecified,
                f.chroma_location == ChromaLocation::Unspecified,
                0 < width,
                0 < height,
                width * height <= 0x1fff_ffff,
                f.planes@.len() == p,
                forall|k: int|
                    0 <= k < p ==> (#[trigger] f.planes@[k])@.len() == f.spec_linesize(k) * f.rows(
                        k,
                    ),
                forall|q: int, k: int|
                    0 <= q < p && 0 <= k < f.planes@[q]@.len() ==> #[trigger] f.planes@[q]@[k] == 0,
            decreases n - p,
        {
            proof {
                f.lemma_plane_size(p as int);
            }
            let size: usize = f.linesize(p) * f.row_count(p);
            let plane: Vec<u8> = vec![0u8; size];
            f.planes.push(plane);
            p = p + 1;
        }
        Ok(f)
    }

    pub proof fn lemma_plane_size(self, p: int)
        requires
            self.width * self.height <= 0x1fff_ffff,
            0 < self.width,
            0 < self.height,
        ensures
            0 <= self.columns(p) * self.rows(p) <= self.width * self.height,
            0 <= self.spec_linesize(p) * self.rows(p) <= 0x7fff_fffc,
            self.spec_linesize(p) <= 0x7fff_fffc,
    {
        let c = self.columns(p) as int;
        let r = self.rows(p) as int;
        let s = self.format.spec_step() as int;
        assert(0 <= c * r <= self.width * self.height) by (nonlinear_arith)
            requires
                0 <= c <= self.width,
                0 <= r <= self.height,
        ;
        assert(c * s * r == (c * r) * s) by (nonlinear_arith);
        assert(0 <= (c * r) * s <= 0x1fff_ffff * 4) by (nonlinear_arith)
            requires
                0 <= c * r <= 0x1fff_ffff,
                1 <= s <= 4,
        ;
        assert(r >= 1);
        assert(c * s <= c * s * r) by (nonlinear_arith)
            requires
                c * s >= 0,
                r >= 1,
        ;
    }

    /// Bytes of a row of plane `p`.
    pub fn linesize(&self, p: usize) -> (r: usize)
        requires
            self.spec_linesize(p as int) <= usize::MAX,
        ensures
            r == self.spec_linesize(p as int),
    {
        let w: usize = if p > 0 && (self.format == PixelFormat::Yuv420p || self.format
            == PixelFormat::Yuv422p) {
            (self.width / 2 + self.width % 2) as usize
        } else {
            self.width as usize
        };
        w * self.format.step()
    }

    /// Rows of plane `p`.
    pub fn row_count(&self, p: usize) -> (r: usize)
        ensures
            r == self.rows(p as int),
    {
        if p > 0 && self.format == PixelFormat::Yuv420p {
            (self.height / 2 + self.height % 2) as usize
        } else {
            self.height as usize
        }
    }

    /// The bytes of plane `p`.
    pub fn plane(&self, p: usize) -> (r: &[u8])
        requires
            p < self.planes@.len(),
        ensures
            r@ == self.planes@[p as int]@,
    {
        self.planes[p].as_slice()
    }

    /// The bytes of plane `p`, to be written.
    pub fn plane_mut(&mut self, p: usize) -> (r: &mut [u8])
        requires
            p < old(self).planes@.len(),
        ensures
            r@ == old(self).planes@[p as int]@,
            final(self).like(*old(self)),
            final(self).color_range == old(self).color_range,
            final(self).chroma_location == old(self).chroma_location,
            final(self).planes@.len() == old(self).planes@.len(),
            final(self).planes@[p as int]@ == final(r)@,
            forall|k: int|
                0 <= k < old(self).planes@.len() && k != p ==> #[trigger] final(self).planes@[k]
                    == old(self).planes@[k],
    {
        self.planes[p].as_mut_slice()
    }
}

} // verus!
