//! Sampling pictures between pixels, and colors.
use crate::float;
use crate::float::{to_int_f, Format, F32, ToInt};
use crate::scalefilter;
use crate::text::same_text;
use vstd::prelude::*;

verus! {

/// How pictures are resampled.
#[derive(Clone, Copy, Debug, PartialEq, Eq, Structural, Hash)]
pub enum ScaleAlgorithm {
    /// The nearest pixel.
    Nearest,
    /// Two pixels along each axis.
    Bilinear,
    /// Four pixels along each axis.
    Bicubic,
    Area,
    Gauss,
    Sinc,
    Lanczos,
    Spline,
}

impl Default for ScaleAlgorithm {
    fn default() -> (r: ScaleAlgorithm)
        ensures
            r == ScaleAlgorithm::Bicubic,
    {
        ScaleAlgorithm::Bicubic
    }
}

impl ScaleAlgorithm {
    pub open spec fn spec_name(self) -> Seq<char> {
        match self {
            ScaleAlgorithm::Nearest => "nearest"@,
            ScaleAlgorithm::Bilinear => "bilinear"@,
            ScaleAlgorithm::Bicubic => "bicubic"@,
            ScaleAlgorithm::Area => "area"@,
            ScaleAlgorithm::Gauss => "gauss"@,
            ScaleAlgorithm::Sinc => "sinc"@,
            ScaleAlgorithm::Lanczos => "lanczos"@,
            ScaleAlgorithm::Spline => "spline"@,
        }
    }

    /// The algorithm with a name. The nearest pixel has two names.
    pub open spec fn named(s: Seq<char>) -> Option<ScaleAlgorithm> {
        if s == "nearest"@ || s == "point"@ {
            Some(ScaleAlgorithm::Nearest)
        } else if s == "bilinear"@ {
            Some(ScaleAlgorithm::Bilinear)
        } else if s == "bicubic"@ {
            Some(ScaleAlgorithm::Bicubic)
        } else if s == "area"@ {
            Some(ScaleAlgorithm::Area)
        } else if s == "gauss"@ {
            Some(ScaleAlgorithm::Gauss)
        } else if s == "sinc"@ {
            Some(ScaleAlgorithm::Sinc)
        } else if s == "lanczos"@ {
            Some(ScaleAlgorithm::Lanczos)
        } else if s == "spline"@ {
            Some(ScaleAlgorithm::Spline)
        } else {
            None
        }
    }

    /// The algorithm with a name.
    pub fn from_name(s: &str) -> (r: Option<ScaleAlgorithm>)
        ensures
            r == ScaleAlgorithm::named(s@),
    {
        if same_text(s, "nearest") || same_text(s, "point") {
            Some(ScaleAlgorithm::Nearest)
        } else if same_text(s, "bilinear") {
            Some(ScaleAlgorithm::Bilinear)
        } else if same_text(s, "bicubic") {
            Some(ScaleAlgorithm::Bicubic)
        } else if same_text(s, "area") {
            Some(ScaleAlgorithm::Area)
        } else if same_text(s, "gauss") {
            Some(ScaleAlgorithm::Gauss)
        } else if same_text(s, "sinc") {
            Some(ScaleAlgorithm::Sinc)
        } else if same_text(s, "lanczos") {
            Some(ScaleAlgorithm::Lanczos)
        } else if same_text(s, "spline") {
            Some(ScaleAlgorithm::Spline)
        } else {
            None
        }
    }

    /// The algorithm's name.
    pub fn name(self) -> (r: &'static str)
        ensures
            r@ == self.spec_name(),
    {
        match self {
            ScaleAlgorithm::Nearest => "nearest",
            ScaleAlgorithm::Bilinear => "bilinear",
            ScaleAlgorithm::Bicubic => "bicubic",
            ScaleAlgorithm::Area => "area",
            ScaleAlgorithm::Gauss => "gauss",
            ScaleAlgorithm::Sinc => "sinc",
            ScaleAlgorithm::Lanczos => "lanczos",
            ScaleAlgorithm::Spline => "spline",
        }
    }

    /// Every algorithm is found by its name.
    pub proof fn lemma_named(self)
        ensures
            ScaleAlgorithm::named(self.spec_name()) == Some(self),
    {
        reveal_strlit("nearest");
        reveal_strlit("point");
        reveal_strlit("bilinear");
        reveal_strlit("bicubic");
        reveal_strlit("area");
        reveal_strlit("gauss");
        reveal_strlit("sinc");
        reveal_strlit("lanczos");
        reveal_strlit("spline");
        let n = self.spec_name();
        assert("nearest"@[0] == 'n');
        assert("point"@[0] == 'p');
        assert("bilinear"@[2] == 'l');
        assert("bilinear"@[0] == 'b');
        assert("bicubic"@[2] == 'c');
        assert("bicubic"@[0] == 'b');
        assert("area"@[0] == 'a');
        assert("gauss"@[0] == 'g');
        assert("sinc"@[0] == 's');
        assert("sinc"@[1] == 'i');
        assert("lanczos"@[0] == 'l');
        assert("spline"@[0] == 's');
        assert("spline"@[1] == 'p');
    }

    pub open spec fn spec_taps(self) -> nat {
        match self {
            ScaleAlgorithm::Nearest => 1,
            ScaleAlgorithm::Bilinear => 2,
            ScaleAlgorithm::Bicubic => 4,
            ScaleAlgorithm::Area => 2,
            ScaleAlgorithm::Gauss => 9,
            ScaleAlgorithm::Sinc => 21,
            ScaleAlgorithm::Lanczos => 7,
            ScaleAlgorithm::Spline => 21,
        }
    }

    /// Pixels along each axis that an enlarged pixel is made of.
    pub fn taps(self) -> (r: usize)
        ensures
            r == self.spec_taps(),
    {
        match self {
            ScaleAlgorithm::Nearest => 1,
            ScaleAlgorithm::Bilinear => 2,
            ScaleAlgorithm::Bicubic => 4,
            ScaleAlgorithm::Area => 2,
            ScaleAlgorithm::Gauss => 9,
            ScaleAlgorithm::Sinc => 21,
            ScaleAlgorithm::Lanczos => 7,
            ScaleAlgorithm::Spline => 21,
        }
    }

    pub open spec fn spec_size_factor(self) -> int {
        match self {
            ScaleAlgorithm::Area => 1,
            ScaleAlgorithm::Gauss => 8,
            ScaleAlgorithm::Sinc => 20,
            ScaleAlgorithm::Lanczos => 6,
            ScaleAlgorithm::Spline => 20,
            _ => 0,
        }
    }

    /// Width of the kernel, for the table-driven algorithms.
    pub fn size_factor(self) -> (r: i32)
        ensures
            r == self.spec_size_factor(),
    {
        match self {
            ScaleAlgorithm::Area => 1,
            ScaleAlgorithm::Gauss => 8,
            ScaleAlgorithm::Sinc => 20,
            ScaleAlgorithm::Lanczos => 6,
            ScaleAlgorithm::Spline => 20,
            _ => 0,
        }
    }

    pub open spec fn table_driven(self) -> bool {
        match self {
            ScaleAlgorithm::Area
            | ScaleAlgorithm::Gauss
            | ScaleAlgorithm::Sinc
            | ScaleAlgorithm::Lanczos
            | ScaleAlgorithm::Spline => true,
            _ => false,
        }
    }

    /// Whether tables of coefficients are used.
    pub fn is_table_driven(self) -> (r: bool)
        ensures
            r == self.table_driven(),
    {
        match self {
            ScaleAlgorithm::Area
            | ScaleAlgorithm::Gauss
            | ScaleAlgorithm::Sinc
            | ScaleAlgorithm::Lanczos
            | ScaleAlgorithm::Spline => true,
            _ => false,
        }
    }

    /// Weight of a pixel at the distance `x`. The cubic kernel is one of the
    /// Mitchell-Netravali family, with the parameters 0 and 0.6.
    pub open spec fn spec_weight(self, x: F32) -> F32 {
        let zero = F32 { bits: 0 };
        let one = F32 { bits: 0x3f80_0000 };
        match self {
            ScaleAlgorithm::Nearest => if x.s_less(F32 { bits: 0x3f00_0000 }) {
                one
            } else {
                zero
            },
            ScaleAlgorithm::Bilinear => one.s_minus(x).s_max(zero),
            _ => {
                let six = F32 { bits: 0x40c0_0000 };
                let p2 = F32 { bits: 0xc166_6666 };
                let p3 = F32 { bits: 0x4106_6666 };
                let q0 = F32 { bits: 0x4166_6667 };
                let q1 = F32 { bits: 0xc1e6_6667 };
                let q2 = F32 { bits: 0x4190_0000 };
                let q3 = F32 { bits: 0xc066_6667 };
                if x.s_less(one) {
                    six.s_plus(x.s_times(x).s_times(p2.s_plus(x.s_times(p3)))).s_over(six)
                } else if x.s_less(F32 { bits: 0x4000_0000 }) {
                    q0.s_plus(
                        x.s_times(q1.s_plus(x.s_times(q2.s_plus(x.s_times(q3))))),
                    ).s_over(six)
                } else {
                    zero
                }
            },
        }
    }

    /// Weight of a pixel at the distance `x`.
    pub fn weight(self, x: F32) -> (r: F32)
        requires
            !self.table_driven(),
        ensures
            r == self.spec_weight(x),
    {
        let zero: F32 = F32 { bits: 0 };
        let one: F32 = F32 { bits: 0x3f80_0000 };
        match self {
            ScaleAlgorithm::Nearest => if x.less(F32 { bits: 0x3f00_0000 }) {
                one
            } else {
                zero
            },
            ScaleAlgorithm::Bilinear => one.minus(x).larger(zero),
            _ => {
                let six: F32 = F32 { bits: 0x40c0_0000 };
                let p2: F32 = F32 { bits: 0xc166_6666 };
                let p3: F32 = F32 { bits: 0x4106_6666 };
                let q0: F32 = F32 { bits: 0x4166_6667 };
                let q1: F32 = F32 { bits: 0xc1e6_6667 };
                let q2: F32 = F32 { bits: 0x4190_0000 };
                let q3: F32 = F32 { bits: 0xc066_6667 };
                if x.less(one) {
                    six.plus(x.times(x).times(p2.plus(x.times(p3)))).over(six)
                } else if x.less(F32 { bits: 0x4000_0000 }) {
                    q0.plus(x.times(q1.plus(x.times(q2.plus(x.times(q3)))))).over(six)
                } else {
                    zero
                }
            },
        }
    }
}

// --- numbers ------------------------------------------------------------------------------

/// The nearest integer, halves away from zero.
pub open spec fn rounded(v: F32) -> int {
    let t = float::to_int(Format::Binary32, ToInt::Truncate, v.bits as u64, 1);
    if t >= 0 {
        (t + 1) / 2
    } else {
        -((-t + 1) / 2)
    }
}

/// The largest integer that is not above the number, kept within 32 bits.
pub open spec fn floored(v: F32) -> int {
    scalefilter::between(
        -float::to_int(Format::Binary32, ToInt::Ceil, v.s_neg().bits as u64, 0),
        i32::MIN as int,
        i32::MAX as int,
    )
}

fn rounded_exec(v: F32) -> (r: i128)
    ensures
        r == rounded(v),
        -0x4000_0000_0000_0001 <= r <= 0x4000_0000_0000_0001,
{
    let t: i128 = to_int_f(Format::Binary32, ToInt::Truncate, v.bits as u64, 1) as i128;
    if t >= 0 {
        (t + 1) / 2
    } else {
        -((-t + 1) / 2)
    }
}

fn floored_exec(v: F32) -> (r: i64)
    ensures
        r == floored(v),
        i32::MIN <= r <= i32::MAX,
{
    let n: F32 = v.negated();
    let t: i128 = -(to_int_f(Format::Binary32, ToInt::Ceil, n.bits as u64, 0) as i128);
    if t < i32::MIN as i128 {
        i32::MIN as i64
    } else if t > i32::MAX as i128 {
        i32::MAX as i64
    } else {
        t as i64
    }
}

/// A number as a pixel.
pub open spec fn byte_of(v: F32) -> int {
    scalefilter::between(rounded(v), 0, 255)
}

pub(crate) fn byte_of_exec(v: F32) -> (r: u8)
    ensures
        r == byte_of(v),
{
    let t: i128 = rounded_exec(v);
    if t < 0 {
        0
    } else if t > 255 {
        255
    } else {
        t as u8
    }
}

/// Place in the source of destination pixel `d`: the middles of the pictures
/// coincide.
pub open spec fn source_place(d: int, src: int, dst: int) -> F32 {
    let half = F32 { bits: 0x3f00_0000 };
    F32::s_from_int(d).s_plus(half).s_times(F32::s_from_int(src)).s_over(
        F32::s_from_int(dst),
    ).s_minus(half)
}

pub(crate) fn dst_to_src(d: usize, src: u32, dst: u32) -> (r: F32)
    requires
        d <= u32::MAX,
    ensures
        r == source_place(d as int, src as int, dst as int),
{
    let half: F32 = F32 { bits: 0x3f00_0000 };
    F32::from_int(d as i64).plus(half).times(F32::from_int(src as i64)).over(
        F32::from_int(dst as i64),
    ).minus(half)
}

// --- samples ------------------------------------------------------------------------------

/// The pixel nearest to a place.
pub open spec fn nearest_pixel(plane: Seq<u8>, w: int, h: int, x: F32, y: F32) -> F32 {
    let cx = scalefilter::between(rounded(x), 0, w - 1);
    let cy = scalefilter::between(rounded(y), 0, h - 1);
    F32::s_from_int(plane[cy * w + cx] as int)
}

/// The first pixel along an axis that a sample is made of.
pub open spec fn first_tap(alg: ScaleAlgorithm, x: F32) -> int {
    floored(x) - (alg.spec_taps() / 2 - 1)
}

/// Weight of tap `i` along an axis, before all are made to add up to one.
pub open spec fn tap_weight(alg: ScaleAlgorithm, x: F32, i: int) -> F32 {
    alg.spec_weight(F32::s_from_int(first_tap(alg, x) + i).s_minus(x).s_abs())
}

/// The first `n` weights along an axis, added up.
pub open spec fn weight_sum(alg: ScaleAlgorithm, x: F32, n: nat) -> F32
    decreases n,
{
    if n == 0 {
        F32 { bits: 0 }
    } else {
        weight_sum(alg, x, (n - 1) as nat).s_plus(tap_weight(alg, x, n - 1))
    }
}

/// Weight of tap `i` along an axis.
pub open spec fn share(alg: ScaleAlgorithm, x: F32, i: int) -> F32 {
    tap_weight(alg, x, i).s_over(weight_sum(alg, x, alg.spec_taps()))
}

/// The weights vanish.
pub open spec fn weightless(alg: ScaleAlgorithm, x: F32) -> bool {
    let s = weight_sum(alg, x, alg.spec_taps());
    let e = F32 { bits: 0x3400_0000 };
    s.s_less(e) || s.s_same(e)
}

/// The first `n` terms of a row of pixels.
pub open spec fn row_sum(
    alg: ScaleAlgorithm,
    plane: Seq<u8>,
    w: int,
    row: int,
    x: F32,
    n: nat,
) -> F32
    decreases n,
{
    if n == 0 {
        F32 { bits: 0 }
    } else {
        let c = scalefilter::between(first_tap(alg, x) + n - 1, 0, w - 1);
        row_sum(alg, plane, w, row, x, (n - 1) as nat).s_plus(
            F32::s_from_int(plane[row * w + c] as int).s_times(share(alg, x, n - 1)),
        )
    }
}

/// The first `n` rows of a sample.
pub open spec fn column_sum(
    alg: ScaleAlgorithm,
    plane: Seq<u8>,
    w: int,
    h: int,
    x: F32,
    y: F32,
    n: nat,
) -> F32
    decreases n,
{
    if n == 0 {
        F32 { bits: 0 }
    } else {
        let r = scalefilter::between(first_tap(alg, y) + n - 1, 0, h - 1);
        column_sum(alg, plane, w, h, x, y, (n - 1) as nat).s_plus(
            row_sum(alg, plane, w, r, x, alg.spec_taps()).s_times(share(alg, y, n - 1)),
        )
    }
}

/// The picture at a place between pixels: pixels around it, weighed. Outside the
/// picture its edge goes on.
pub open spec fn sample(
    alg: ScaleAlgorithm,
    plane: Seq<u8>,
    w: int,
    h: int,
    x: F32,
    y: F32,
) -> F32 {
    if alg == ScaleAlgorithm::Nearest || weightless(alg, x) || weightless(alg, y) {
        nearest_pixel(plane, w, h, x, y)
    } else {
        column_sum(alg, plane, w, h, x, y, alg.spec_taps())
    }
}

/// `v`, but not outside `0..n`.
fn clamp_index(v: i128, n: usize) -> (r: usize)
    requires
        n >= 1,
    ensures
        r == scalefilter::between(v as int, 0, n - 1),
        r < n,
{
    if v < 0 {
        0
    } else if v > (n - 1) as i128 {
        n - 1
    } else {
        v as usize
    }
}

proof fn lemma_pixel(w: int, h: int, x: int, y: int)
    requires
        0 <= x < w,
        0 <= y < h,
    ensures
        0 <= y * w,
        y * w + x < w * h,
{
    assert(y * w + w <= h * w) by (nonlinear_arith)
        requires
            y + 1 <= h,
            w >= 0,
    ;
    assert(0 <= y * w) by (nonlinear_arith)
        requires
            0 <= y,
            0 <= w,
    ;
    assert(h * w == w * h) by (nonlinear_arith);
}

pub(crate) fn pixel(plane: &[u8], w: usize, h: usize, x: usize, y: usize) -> (r: u8)
    requires
        x < w,
        y < h,
        plane@.len() == w * h,
    ensures
        r == plane@[y * w + x],
{
    let n: usize = plane.len();
    proof {
        lemma_pixel(w as int, h as int, x as int, y as int);
    }
    plane[y * w + x]
}

fn nearest_exec(plane: &[u8], w: usize, h: usize, x: F32, y: F32) -> (r: F32)
    requires
        w >= 1,
        h >= 1,
        plane@.len() == w * h,
    ensures
        r == nearest_pixel(plane@, w as int, h as int, x, y),
{
    let cx: usize = clamp_index(rounded_exec(x), w);
    let cy: usize = clamp_index(rounded_exec(y), h);
    F32::from_int(pixel(plane, w, h, cx, cy) as i64)
}

/// The first tap and the weights along an axis, and whether these vanish.
fn axis_weights(alg: ScaleAlgorithm, x: F32) -> (r: (i64, Vec<F32>, bool))
    requires
        !alg.table_driven(),
        alg != ScaleAlgorithm::Nearest,
    ensures
        r.0 == first_tap(alg, x),
        -0x8000_0001 <= r.0 <= 0x7fff_ffff,
        r.1@.len() == alg.spec_taps(),
        r.2 == weightless(alg, x),
        forall|i: int| 0 <= i < alg.spec_taps() ==> #[trigger] r.1@[i] == share(alg, x, i),
{
    let n: usize = alg.taps();
    let base: i64 = floored_exec(x) - (n as i64 / 2 - 1);
    let mut w: Vec<F32> = Vec::new();
    let mut sum: F32 = F32 { bits: 0 };
    let mut i: usize = 0;
    while i < n
        invariant
            !alg.table_driven(),
            n == alg.spec_taps(),
            n <= 4,
            i <= n,
            base == first_tap(alg, x),
            -0x8000_0001 <= base <= 0x7fff_ffff,
            w@.len() == i,
            sum == weight_sum(alg, x, i as nat),
            forall|k: int| 0 <= k < i ==> #[trigger] w@[k] == tap_weight(alg, x, k),
        decreases n - i,
    {
        let t: F32 = alg.weight(F32::from_int(base + i as i64).minus(x).absolute());
        w.push(t);
        sum = sum.plus(t);
        i = i + 1;
    }
    let e: F32 = F32 { bits: 0x3400_0000 };
    let none: bool = sum.less(e) || sum.same(e);
    let mut out: Vec<F32> = Vec::new();
    let mut j: usize = 0;
    while j < n
        invariant
            n == alg.spec_taps(),
            j <= n,
            w@.len() == n,
            sum == weight_sum(alg, x, n as nat),
            forall|k: int| 0 <= k < n ==> #[trigger] w@[k] == tap_weight(alg, x, k),
            out@.len() == j,
            forall|k: int| 0 <= k < j ==> #[trigger] out@[k] == share(alg, x, k),
        decreases n - j,
    {
        out.push(w[j].over(sum));
        j = j + 1;
    }
    (base, out, none)
}

/// The picture at a place between pixels.
pub fn sample_plane(
    plane: &[u8],
    w: usize,
    h: usize,
    x: F32,
    y: F32,
    alg: ScaleAlgorithm,
) -> (r: F32)
    requires
        !alg.table_driven(),
        w >= 1,
        h >= 1,
        plane@.len() == w * h,
    ensures
        r == sample(alg, plane@, w as int, h as int, x, y),
{
    if alg == ScaleAlgorithm::Nearest {
        return nearest_exec(plane, w, h, x, y);
    }
    let (bx, wx, nx) = axis_weights(alg, x);
    let (by, wy, ny) = axis_weights(alg, y);
    if nx || ny {
        return nearest_exec(plane, w, h, x, y);
    }
    let n: usize = alg.taps();
    let mut acc: F32 = F32 { bits: 0 };
    let mut j: usize = 0;
    while j < n
        invariant
            n == alg.spec_taps(),
            j <= n <= 21,
            w >= 1,
            h >= 1,
            plane@.len() == w * h,
            bx == first_tap(alg, x),
            by == first_tap(alg, y),
            -0x8000_0001 <= bx <= 0x7fff_ffff,
            -0x8000_0001 <= by <= 0x7fff_ffff,
            wx@.len() == n,
            wy@.len() == n,
            forall|i: int| 0 <= i < n ==> #[trigger] wx@[i] == share(alg, x, i),
            forall|i: int| 0 <= i < n ==> #[trigger] wy@[i] == share(alg, y, i),
            acc == column_sum(alg, plane@, w as int, h as int, x, y, j as nat),
        decreases n - j,
    {
        let row: usize = clamp_index((by + j as i64) as i128, h);
        let mut sum: F32 = F32 { bits: 0 };
        let mut i: usize = 0;
        while i < n
            invariant
                n == alg.spec_taps(),
                i <= n <= 21,
                w >= 1,
                h >= 1,
                row < h,
                plane@.len() == w * h,
                bx == first_tap(alg, x),
                -0x8000_0001 <= bx <= 0x7fff_ffff,
                wx@.len() == n,
                forall|k: int| 0 <= k < n ==> #[trigger] wx@[k] == share(alg, x, k),
                sum == row_sum(alg, plane@, w as int, row as int, x, i as nat),
            decreases n - i,
        {
            let c: usize = clamp_index((bx + i as i64) as i128, w);
            let p: u8 = pixel(plane, w, h, c, row);
            sum = sum.plus(F32::from_int(p as i64).times(wx[i]));
            i = i + 1;
        }
        acc = acc.plus(sum.times(wy[j]));
        j = j + 1;
    }
    acc
}

// --- colors -------------------------------------------------------------------------------

/// Luma with the range `16..=235`, or `0..=255` where it is full, as brightness.
pub open spec fn brightness(y: F32, full: bool) -> F32 {
    if full {
        y
    } else {
        y.s_minus(F32 { bits: 0x4180_0000 }).s_times(F32 { bits: 0x3f95_0a85 })
    }
}

fn range_expand(y: F32, full: bool) -> (r: F32)
    ensures
        r == brightness(y, full),
{
    if full {
        y
    } else {
        y.minus(F32 { bits: 0x4180_0000 }).times(F32 { bits: 0x3f95_0a85 })
    }
}

/// How much of the chroma differences red, green (twice) and blue have, after
/// ITU-R BT.601: 1.402, 0.344136, 0.714136 and 1.772 for the full range;
/// 1.59603, 0.39176, 0.81297 and 2.01723 otherwise.
pub open spec fn gains(full: bool) -> (F32, F32, F32, F32) {
    if full {
        (
            F32 { bits: 0x3fb3_74bc },
            F32 { bits: 0x3eb0_3298 },
            F32 { bits: 0x3f36_d19e },
            F32 { bits: 0x3fe2_d0e5 },
        )
    } else {
        (
            F32 { bits: 0x3fcc_4ab6 },
            F32 { bits: 0x3ec8_94c4 },
            F32 { bits: 0x3f50_1ecd },
            F32 { bits: 0x4001_1a4c },
        )
    }
}

fn bt601_coeffs(full: bool) -> (r: (F32, F32, F32, F32))
    ensures
        r == gains(full),
{
    if full {
        (
            F32 { bits: 0x3fb3_74bc },
            F32 { bits: 0x3eb0_3298 },
            F32 { bits: 0x3f36_d19e },
            F32 { bits: 0x3fe2_d0e5 },
        )
    } else {
        (
            F32 { bits: 0x3fcc_4ab6 },
            F32 { bits: 0x3ec8_94c4 },
            F32 { bits: 0x3f50_1ecd },
            F32 { bits: 0x4001_1a4c },
        )
    }
}

/// Red, green and blue of a pixel.
pub open spec fn color(y: F32, cb: F32, cr: F32, full: bool) -> (int, int, int) {
    let mid = F32 { bits: 0x4300_0000 };
    let u = cb.s_minus(mid);
    let v = cr.s_minus(mid);
    let b = brightness(y, full);
    let (rv, gu, gv, bu) = gains(full);
    (
        byte_of(b.s_plus(rv.s_times(v))),
        byte_of(b.s_minus(gu.s_times(u)).s_minus(gv.s_times(v))),
        byte_of(b.s_plus(bu.s_times(u))),
    )
}

/// Red, green and blue of a pixel.
pub(crate) fn yuv_to_rgb(y: F32, cb: F32, cr: F32, full: bool) -> (r: (u8, u8, u8))
    ensures
        (r.0 as int, r.1 as int, r.2 as int) == color(y, cb, cr, full),
{
    let mid: F32 = F32 { bits: 0x4300_0000 };
    let u: F32 = cb.minus(mid);
    let v: F32 = cr.minus(mid);
    let b: F32 = range_expand(y, full);
    let (rv, gu, gv, bu) = bt601_coeffs(full);
    (
        byte_of_exec(b.plus(rv.times(v))),
        byte_of_exec(b.minus(gu.times(u)).minus(gv.times(v))),
        byte_of_exec(b.plus(bu.times(u))),
    )
}

/// Red, green and blue of a gray pixel.
pub open spec fn gray(y: F32, full: bool) -> (int, int, int) {
    let c = byte_of(brightness(y, full));
    (c, c, c)
}

pub(crate) fn gray_to_rgb(y: F32, full: bool) -> (r: (u8, u8, u8))
    ensures
        (r.0 as int, r.1 as int, r.2 as int) == gray(y, full),
{
    let c: u8 = byte_of_exec(range_expand(y, full));
    (c, c, c)
}

} // verus!
