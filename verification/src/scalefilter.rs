//! Filters for scaling pictures: tables of coefficients and their use.
use crate::arith;
use crate::error::{invalid, Error};
use crate::float::{to_int_f, F64, Format, ToInt};
use crate::float;
use crate::mathematics;
use crate::mathematics::{tdiv_i128, tquot_i128};
use crate::pixels::ChromaLocation;
use crate::text;
use crate::text::push_decimal;
use vstd::arithmetic::div_mod::*;
use vstd::arithmetic::mul::*;
use vstd::arithmetic::power2::*;
use vstd::prelude::*;

verus! {

/// What the coefficients of a horizontal filter add up to.
pub const ONE_H: i64 = 16384;

/// What the coefficients of a vertical filter add up to.
pub const ONE_V: i64 = 4096;

/// Filters are shorter than this.
pub const MAX_FILTER_SIZE: usize = 256;

/// The kernels of table-driven scaling.
#[derive(Clone, Copy, Debug, PartialEq, Eq, Structural, Hash)]
pub enum TableScaler {
    /// A trapezoid; linear interpolation where the picture grows.
    Area,
    /// `2^(-3 d^2)`.
    Gauss,
    /// `sin(pi d) / (pi d)`.
    Sinc,
    /// Three lobes of a windowed sine.
    Lanczos,
    /// A cubic spline.
    Spline,
}

impl TableScaler {
    pub open spec fn spec_size_factor(self) -> int {
        match self {
            TableScaler::Area => 1,
            TableScaler::Gauss => 8,
            TableScaler::Sinc => 20,
            TableScaler::Lanczos => 6,
            TableScaler::Spline => 20,
        }
    }

    /// Width of the kernel in pixels, where the picture grows.
    pub fn size_factor(self) -> (r: i32)
        ensures
            r == self.spec_size_factor(),
    {
        match self {
            TableScaler::Area => 1,
            TableScaler::Gauss => 8,
            TableScaler::Sinc => 20,
            TableScaler::Lanczos => 6,
            TableScaler::Spline => 20,
        }
    }

    /// The kernel's values are given from outside.
    pub open spec fn weighed(self) -> bool {
        self == TableScaler::Gauss || self == TableScaler::Sinc || self == TableScaler::Lanczos
    }
}

// --- units --------------------------------------------------------------------------------

/// The largest `k` with `2^k <= x`; 0 where there is none.
pub open spec fn log2_floor(x: int) -> int
    decreases x,
{
    if x <= 1 {
        0
    } else {
        1 + log2_floor(x / 2)
    }
}

/// What a coefficient of one is while a filter is built.
pub open spec fn unit(src_len: int, dst_len: int) -> int {
    let k = log2_floor(src_len / dst_len);
    pow2(
        if k < 8 {
            (54 - k) as nat
        } else {
            46
        },
    ) as int
}

fn log2_exec(x: i32) -> (r: i32)
    ensures
        r == log2_floor(x as int),
        0 <= r <= 31,
        x >= 0 ==> r <= x,
    decreases x,
{
    if x <= 1 {
        0
    } else {
        let h: i32 = x / 2;
        let k: i32 = log2_exec(h);
        proof {
            lemma2_to64();
            lemma_log2_bound(x as int, 31);
        }
        k + 1
    }
}

proof fn lemma_log2_bound(x: int, n: nat)
    requires
        x < pow2(n),
        n >= 1 || x < 1,
    ensures
        0 <= log2_floor(x) < n || x <= 1,
        0 <= log2_floor(x),
    decreases n,
{
    lemma2_to64();
    if x > 1 {
        assert(n >= 2);
        lemma_pow2_adds(1, (n - 1) as nat);
        lemma_log2_bound(x / 2, (n - 1) as nat);
    }
}

/// What a coefficient of one is while a filter is built.
pub fn fone(src_len: i32, dst_len: i32) -> (r: i64)
    requires
        src_len >= 0,
        dst_len >= 1,
    ensures
        r == unit(src_len as int, dst_len as int),
        0x4000_0000_0000 <= r <= 0x40_0000_0000_0000,
        r as int % 0x4000_0000_0000 == 0,
{
    let k: i32 = log2_exec(src_len / dst_len);
    let e: i32 = if k < 8 {
        8 - k
    } else {
        0
    };
    let mut v: i64 = 0x4000_0000_0000;
    let mut i: i32 = 0;
    proof {
        lemma2_to64();
        lemma2_to64_rest();
    }
    while i < e
        invariant
            0 <= i <= e <= 8,
            v == pow2((46 + i) as nat),
            0x4000_0000_0000 <= v <= 0x4000_0000_0000 * 256,
            v == 0x4000_0000_0000 * pow2(i as nat),
            pow2(i as nat) <= 256,
        decreases e - i,
    {
        proof {
            lemma_pow2_adds(1, (46 + i) as nat);
            lemma_pow2_adds(1, i as nat);
            lemma2_to64();
            lemma_small_pow(i as nat + 1);
        }
        v = v * 2;
        i = i + 1;
    }
    proof {
        let p = pow2(e as nat) as int;
        assert(0x4000_0000_0000 * p % 0x4000_0000_0000 == 0) by {
            lemma_mod_multiples_basic(p, 0x4000_0000_0000);
        }
    }
    v
}

proof fn lemma_small_pow(k: nat)
    requires
        k <= 8,
    ensures
        pow2(k) <= 256,
{
    lemma2_to64();
}

/// Source pixels per destination pixel, times 65536 and rounded.
pub open spec fn spec_x_inc(src: int, dst: int) -> int {
    (src * 65536 + dst / 2) / dst
}

/// Source pixels per destination pixel, times 65536 and rounded.
pub fn x_inc(src: i32, dst: i32) -> (r: i64)
    requires
        src >= 0,
        dst >= 1,
    ensures
        r == spec_x_inc(src as int, dst as int),
        0 <= r <= 0x1_0000_0000_0000,
{
    let t: i64 = src as i64 * 65536 + (dst / 2) as i64;
    proof {
        assert(0 <= t as int / dst as int <= t) by (nonlinear_arith)
            requires
                t >= 0,
                dst >= 1,
        ;
    }
    t / dst as i64
}

/// Where chroma lies along one axis: 64 stands for the first luma sample of a
/// pair, 192 for the second.
pub open spec fn spec_chroma_pos(loc: ChromaLocation, horizontal: bool) -> int {
    match loc {
        ChromaLocation::Unspecified | ChromaLocation::Center => 128,
        ChromaLocation::Left => if horizontal {
            64
        } else {
            128
        },
        ChromaLocation::TopLeft => 64,
        ChromaLocation::Top => if horizontal {
            128
        } else {
            64
        },
        ChromaLocation::BottomLeft => if horizontal {
            64
        } else {
            192
        },
        ChromaLocation::Bottom => if horizontal {
            128
        } else {
            192
        },
    }
}

/// Where chroma lies along one axis. Without a location it is centered.
pub fn chroma_pos(loc: ChromaLocation, horizontal: bool) -> (r: i32)
    ensures
        r == spec_chroma_pos(loc, horizontal),
{
    match loc {
        ChromaLocation::Unspecified | ChromaLocation::Center => 128,
        ChromaLocation::Left => if horizontal {
            64
        } else {
            128
        },
        ChromaLocation::TopLeft => 64,
        ChromaLocation::Top => if horizontal {
            128
        } else {
            64
        },
        ChromaLocation::BottomLeft => if horizontal {
            64
        } else {
            192
        },
        ChromaLocation::Bottom => if horizontal {
            128
        } else {
            192
        },
    }
}

/// Taps of a kernel before the negligible ones are cut off.
pub open spec fn spec_general_size(scaler: TableScaler, x_inc: int, src_len: int, dst_len: int) -> int {
    let f = scaler.spec_size_factor();
    let n = if x_inc <= 65536 {
        1 + f
    } else {
        1 + (f * src_len + dst_len - 1) / dst_len
    };
    let m = if n < src_len - 2 {
        n
    } else {
        src_len - 2
    };
    if m < 1 {
        1
    } else {
        m
    }
}

/// Taps of a kernel before the negligible ones are cut off: where the picture
/// shrinks the kernel widens.
pub fn general_branch_size(scaler: TableScaler, x_inc: i64, src_len: i32, dst_len: i32) -> (r: usize)
    requires
        src_len >= 1,
        dst_len >= 1,
    ensures
        r == spec_general_size(scaler, x_inc as int, src_len as int, dst_len as int),
        1 <= r,
        r <= src_len,
{
    let f: i64 = scaler.size_factor() as i64;
    let n: i64 = if x_inc <= 65536 {
        1 + f
    } else {
        proof {
            assert(0 <= f * src_len <= 20 * 0x7fff_ffff) by (nonlinear_arith)
                requires
                    0 <= f <= 20,
                    0 <= src_len <= 0x7fff_ffff,
            ;
        }
        let t: i64 = f * src_len as i64 + dst_len as i64 - 1;
        proof {
            assert(0 <= t as int / dst_len as int <= t) by (nonlinear_arith)
                requires
                    t >= 0,
                    dst_len >= 1,
            ;
        }
        1 + t / dst_len as i64
    };
    let m: i64 = if n < src_len as i64 - 2 {
        n
    } else {
        src_len as i64 - 2
    };
    if m < 1 {
        1
    } else {
        m as usize
    }
}

// --- kernels ------------------------------------------------------------------------------

/// 2 to the power of -30.
pub open spec fn tiny() -> F64 {
    F64 { bits: 0x3e10_0000_0000_0000 }
}

pub open spec fn f64_one() -> F64 {
    F64 { bits: 0x3ff0_0000_0000_0000 }
}

/// The parameter of the spline, about -2.196.
pub open spec fn spline_parameter() -> F64 {
    F64 { bits: 0xc001_91b8_5c84_7300 }
}

/// The value at `dist` of a spline that begins with the polynomial with the
/// coefficients `a`, `b`, `c` and `d`. Each piece is one unit long; no more than
/// `n` pieces are passed over.
pub open spec fn spline_value(a: F64, b: F64, c: F64, d: F64, dist: F64, n: nat) -> F64
    decreases n,
{
    if n == 0 || !f64_one().s_less(dist) {
        d.s_times(dist).s_plus(c).s_times(dist).s_plus(b).s_times(dist).s_plus(a)
    } else {
        let two = F64::s_from_int(2);
        let three = F64::s_from_int(3);
        let six = F64::s_from_int(6);
        spline_value(
            F64::s_from_int(0),
            b.s_plus(two.s_times(c)).s_plus(three.s_times(d)),
            c.s_plus(three.s_times(d)),
            b.s_neg().s_minus(three.s_times(c)).s_minus(six.s_times(d)),
            dist.s_minus(f64_one()),
            (n - 1) as nat,
        )
    }
}

/// The value at `dist` of a spline, with at most `n` pieces passed over.
pub fn get_spline_coeff(a: F64, b: F64, c: F64, d: F64, dist: F64, n: usize) -> (r: F64)
    ensures
        r == spline_value(a, b, c, d, dist, n as nat),
    decreases n,
{
    if n == 0 || !(F64 { bits: 0x3ff0_0000_0000_0000 }).less(dist) {
        d.times(dist).plus(c).times(dist).plus(b).times(dist).plus(a)
    } else {
        let two: F64 = F64::from_int(2);
        let three: F64 = F64::from_int(3);
        let six: F64 = F64::from_int(6);
        get_spline_coeff(
            F64::from_int(0),
            b.plus(two.times(c)).plus(three.times(d)),
            c.plus(three.times(d)),
            b.negated().minus(three.times(c)).minus(six.times(d)),
            dist.minus(F64 { bits: 0x3ff0_0000_0000_0000 }),
            n - 1,
        )
    }
}

/// A number in units, cut to a 64-bit integer.
pub open spec fn in_units(w: F64, one: int) -> int {
    float::to_int(
        Format::Binary64,
        ToInt::Truncate,
        w.s_times(F64::s_from_int(one)).bits,
        0,
    )
}

fn in_units_exec(w: F64, one: i64) -> (r: i64)
    ensures
        r == in_units(w, one as int),
{
    let p: F64 = w.times(F64::from_int(one));
    proof {
        lemma_holds64(p);
    }
    to_int_f(Format::Binary64, ToInt::Truncate, p.bits, 0)
}

proof fn lemma_holds64(a: F64)
    ensures
        Format::Binary64.holds(a.bits),
{
}

/// The distance `d`, of which `2^30` are a pixel, in pixels.
pub open spec fn in_pixels(d: int) -> F64 {
    F64::s_from_int(d).s_times(tiny())
}

pub open spec fn f64_pi() -> F64 {
    F64 { bits: 0x4009_21fb_5444_2d18 }
}

/// Where a kernel wants the elementary functions: Gauss the power of two at the
/// first number, Sinc the sine there, and Lanczos the sines at both.
pub open spec fn wanted_at(scaler: TableScaler, d: int) -> (F64, F64) {
    let x = in_pixels(d);
    let turn = x.s_times(f64_pi());
    match scaler {
        TableScaler::Gauss => (F64::s_from_int(-3).s_times(x).s_times(x), F64 { bits: 0 }),
        TableScaler::Sinc => (turn, F64 { bits: 0 }),
        TableScaler::Lanczos => (turn, turn.s_over(F64::s_from_int(3))),
        _ => (F64 { bits: 0 }, F64 { bits: 0 }),
    }
}

/// [`wanted_at`].
pub fn kernel_arguments(scaler: TableScaler, d: i64) -> (r: (F64, F64))
    ensures
        r == wanted_at(scaler, d as int),
{
    let x: F64 = F64::from_int(d).times(F64 { bits: 0x3e10_0000_0000_0000 });
    let turn: F64 = x.times(F64 { bits: 0x4009_21fb_5444_2d18 });
    match scaler {
        TableScaler::Gauss => (F64::from_int(-3).times(x).times(x), F64 { bits: 0 }),
        TableScaler::Sinc => (turn, F64 { bits: 0 }),
        TableScaler::Lanczos => (turn, turn.over(F64::from_int(3))),
        _ => (F64 { bits: 0 }, F64 { bits: 0 }),
    }
}

/// The value of a kernel at the distance `d`, made of the elementary functions
/// where it wants them. The other kernels have no use for it.
pub open spec fn weight_of(scaler: TableScaler, d: int, a: F64, b: F64) -> F64 {
    let x = in_pixels(d);
    match scaler {
        TableScaler::Gauss => a,
        TableScaler::Sinc if d != 0 => a.s_over(x.s_times(f64_pi())),
        TableScaler::Lanczos if d != 0 => a.s_times(b).s_over(
            x.s_times(x).s_times(f64_pi()).s_times(f64_pi()).s_over(F64::s_from_int(3)),
        ),
        _ => f64_one(),
    }
}

/// [`weight_of`].
pub fn kernel_weight(scaler: TableScaler, d: i64, a: F64, b: F64) -> (r: F64)
    ensures
        r == weight_of(scaler, d as int, a, b),
{
    let x: F64 = F64::from_int(d).times(F64 { bits: 0x3e10_0000_0000_0000 });
    let pi: F64 = F64 { bits: 0x4009_21fb_5444_2d18 };
    match scaler {
        TableScaler::Gauss => a,
        TableScaler::Sinc if d != 0 => a.over(x.times(pi)),
        TableScaler::Lanczos if d != 0 => a.times(b).over(
            x.times(x).times(pi).times(pi).over(F64::from_int(3)),
        ),
        _ => F64 { bits: 0x3ff0_0000_0000_0000 },
    }
}

/// The coefficient of a tap at the distance `d`, of which `2^30` are a pixel. `w`
/// is the kernel's value there, where it is given from outside.
pub open spec fn kernel_value(scaler: TableScaler, d: int, x_inc: int, one: int, w: F64) -> int {
    let dist = in_pixels(d);
    match scaler {
        TableScaler::Area => {
            let p = arith::wrap64((d - 0x2000_0000) * x_inc);
            let c = if p < -0x2000_0000_0000 {
                0x4000_0000_0000
            } else if p < 0x2000_0000_0000 {
                0x4000_0000_0000 - p
            } else {
                0
            };
            c * (one / 0x4000_0000_0000)
        },
        TableScaler::Gauss | TableScaler::Sinc => in_units(w, one),
        TableScaler::Lanczos => if F64::s_from_int(3).s_less(dist) {
            0
        } else {
            in_units(w, one)
        },
        TableScaler::Spline => {
            let p = spline_parameter();
            in_units(
                spline_value(
                    f64_one(),
                    F64::s_from_int(0),
                    p,
                    p.s_neg().s_minus(f64_one()),
                    dist,
                    (d / 0x4000_0000 + 2) as nat,
                ),
                one,
            )
        },
    }
}

/// The coefficient of a tap at the distance `d`, of which `2^30` are a pixel. `w`
/// is the kernel's value there, where it is given from outside.
pub fn kernel_coefficient(scaler: TableScaler, d: i64, x_inc: i64, one: i64, w: F64) -> (r: i64)
    requires
        d >= 0,
        0x4000_0000_0000 <= one <= 0x40_0000_0000_0000,
        d / 0x4000_0000 + 2 <= usize::MAX,
    ensures
        r == kernel_value(scaler, d as int, x_inc as int, one as int, w),
{
    match scaler {
        TableScaler::Area => {
            proof {
                arith::lemma_mul_bound(
                    d - 0x2000_0000,
                    x_inc as int,
                    0x7fff_ffff_ffff_ffff,
                    0x8000_0000_0000_0000,
                );
            }
            let p: i128 = arith::wrap_i128((d as i128 - 0x2000_0000) * x_inc as i128, 64);
            let c: i128 = if p < -0x2000_0000_0000 {
                0x4000_0000_0000
            } else if p < 0x2000_0000_0000 {
                0x4000_0000_0000 - p
            } else {
                0
            };
            let k: i128 = one as i128 / 0x4000_0000_0000;
            assert(0 <= c * k <= 0x6000_0000_0000 * 256) by (nonlinear_arith)
                requires
                    0 <= c <= 0x6000_0000_0000,
                    0 <= k <= 256,
            ;
            (c * k) as i64
        },
        TableScaler::Gauss | TableScaler::Sinc => in_units_exec(w, one),
        TableScaler::Lanczos => {
            let dist: F64 = F64::from_int(d).times(F64 { bits: 0x3e10_0000_0000_0000 });
            if F64::from_int(3).less(dist) {
                0
            } else {
                in_units_exec(w, one)
            }
        },
        TableScaler::Spline => {
            let dist: F64 = F64::from_int(d).times(F64 { bits: 0x3e10_0000_0000_0000 });
            let p: F64 = F64 { bits: 0xc001_91b8_5c84_7300 };
            let v: F64 = get_spline_coeff(
                F64 { bits: 0x3ff0_0000_0000_0000 },
                F64::from_int(0),
                p,
                p.negated().minus(F64 { bits: 0x3ff0_0000_0000_0000 }),
                dist,
                (d / 0x4000_0000 + 2) as usize,
            );
            in_units_exec(v, one)
        },
    }
}

// --- coefficients as the kernel gives them --------------------------------------------------

/// Scaling along one axis.
#[derive(Clone, Copy, Debug)]
pub struct Axis {
    /// Source pixels per destination pixel, times 65536.
    pub x_inc: i64,
    pub src_len: i32,
    pub dst_len: i32,
    pub scaler: TableScaler,
    /// Where the samples lie in the source; 128 is the middle.
    pub src_pos: i32,
    /// Where they lie in the destination.
    pub dst_pos: i32,
}

impl Axis {
    pub open spec fn wf(self) -> bool {
        &&& 1 <= self.src_len
        &&& 1 <= self.dst_len
        &&& 0 <= self.x_inc <= 0x1_0000_0000_0000
        &&& 0 <= self.src_pos <= 256
        &&& 0 <= self.dst_pos <= 256
    }

    pub open spec fn one(self) -> int {
        unit(self.src_len as int, self.dst_len as int)
    }

    /// Nothing is scaled or moved.
    pub open spec fn still(self) -> bool {
        -10 < self.x_inc - 65536 < 10 && self.src_pos == self.dst_pos
    }

    /// The picture grows by linear interpolation.
    pub open spec fn linear(self) -> bool {
        !self.still() && self.x_inc <= 65536 && self.scaler == TableScaler::Area
    }

    /// The kernel is evaluated.
    pub open spec fn general(self) -> bool {
        !self.still() && !self.linear()
    }

    /// Taps of a row before the negligible ones are cut off.
    pub open spec fn raw_size(self) -> int {
        if self.still() {
            1
        } else if self.linear() {
            2
        } else {
            spec_general_size(
                self.scaler,
                self.x_inc as int,
                self.src_len as int,
                self.dst_len as int,
            )
        }
    }

    /// Place of destination pixel `i` in the source: in pixels times 65536 for
    /// linear interpolation, times 131072 otherwise.
    pub open spec fn place(self, i: int) -> int {
        if self.linear() {
            self.dst_pos * self.x_inc / 256 - self.src_pos * 256 + i * self.x_inc
        } else {
            self.dst_pos * self.x_inc / 128 - self.src_pos * 512 + 2 * i * self.x_inc
        }
    }

    /// The first source pixel of row `i`.
    pub open spec fn raw_pos(self, i: int) -> int {
        if self.still() {
            i
        } else if self.linear() {
            self.place(i) / 65536
        } else {
            mathematics::tdiv(self.place(i) - (self.raw_size() - 2) * 65536, 131072)
        }
    }

    /// Distance of tap `j` of row `i`, of which `2^30` are a pixel of the larger
    /// of the two pictures.
    pub open spec fn distance(self, i: int, j: int) -> int {
        let t = (self.raw_pos(i) + j) * 131072 - self.place(i);
        let d = (if t < 0 {
            -t
        } else {
            t
        }) * 8192;
        let e = if self.x_inc > 65536 {
            d * self.dst_len / self.src_len as int
        } else {
            d
        };
        if e < 0x2000_0000_0000_0000 {
            e
        } else {
            0x2000_0000_0000_0000
        }
    }

    /// Tap `j` of row `i`. `w` holds the kernel's values, row by row, where these
    /// are given from outside.
    pub open spec fn raw_tap(self, w: Seq<F64>, i: int, j: int) -> int {
        if self.still() {
            self.one()
        } else if self.linear() {
            let t = (self.raw_pos(i) + j) * 65536 - self.place(i);
            let c = self.one() - (if t < 0 {
                -t
            } else {
                t
            }) * (self.one() / 65536);
            if c < 0 {
                0
            } else {
                c
            }
        } else {
            kernel_value(
                self.scaler,
                self.distance(i, j),
                self.x_inc as int,
                self.one(),
                w[i * self.raw_size() + j],
            )
        }
    }

    pub open spec fn raw_row(self, w: Seq<F64>, i: int) -> Seq<int> {
        Seq::new(self.raw_size() as nat, |j: int| self.raw_tap(w, i, j))
    }

    /// The kernel's values are needed.
    pub open spec fn weighed(self) -> bool {
        self.general() && self.scaler.weighed()
    }

    /// Kernel values that are needed.
    pub open spec fn weight_count(self) -> int {
        if self.weighed() {
            self.dst_len * self.raw_size()
        } else {
            0
        }
    }

    fn is_still(&self) -> (r: bool)
        requires
            self.wf(),
        ensures
            r == self.still(),
    {
        let d: i64 = self.x_inc - 65536;
        -10 < d && d < 10 && self.src_pos == self.dst_pos
    }

    fn is_linear(&self) -> (r: bool)
        requires
            self.wf(),
        ensures
            r == self.linear(),
    {
        !self.is_still() && self.x_inc <= 65536 && self.scaler == TableScaler::Area
    }

    fn size_exec(&self) -> (r: usize)
        requires
            self.wf(),
        ensures
            r == self.raw_size(),
            1 <= r,
            r <= 0x7fff_ffff,
    {
        if self.is_still() {
            1
        } else if self.is_linear() {
            2
        } else {
            general_branch_size(self.scaler, self.x_inc, self.src_len, self.dst_len)
        }
    }

    proof fn lemma_place(self, i: int)
        requires
            self.wf(),
            0 <= i < self.dst_len,
        ensures
            -0x1_0000_0000_0000_0000_0000 <= self.place(i) <= 0x1_0000_0000_0000_0000_0000,
            0 <= self.dst_pos * self.x_inc <= 0x100_0000_0000_0000,
            0 <= i * self.x_inc <= 0x8000_0000_0000_0000_0000,
            2 * i * self.x_inc == 2 * (i * self.x_inc),
    {
        assert(0 <= self.dst_pos * self.x_inc <= 0x100_0000_0000_0000) by (nonlinear_arith)
            requires
                0 <= self.dst_pos <= 256,
                0 <= self.x_inc <= 0x1_0000_0000_0000,
        ;
        assert(0 <= i * self.x_inc <= 0x7fff_ffff * 0x1_0000_0000_0000) by (nonlinear_arith)
            requires
                0 <= i <= 0x7fff_ffff,
                0 <= self.x_inc <= 0x1_0000_0000_0000,
        ;
        assert(2 * i * self.x_inc == 2 * (i * self.x_inc)) by (nonlinear_arith);
    }

    fn place_exec(&self, i: usize) -> (r: i128)
        requires
            self.wf(),
            i < self.dst_len,
        ensures
            r == self.place(i as int),
            -0x1_0000_0000_0000_0000_0000 <= r <= 0x1_0000_0000_0000_0000_0000,
    {
        proof {
            self.lemma_place(i as int);
        }
        let p: i128 = self.dst_pos as i128 * self.x_inc as i128;
        let s: i128 = self.src_pos as i128;
        let k: i128 = i as i128 * self.x_inc as i128;
        if self.is_linear() {
            p / 256 - s * 256 + k
        } else {
            p / 128 - s * 512 + 2 * k
        }
    }

    fn pos_exec(&self, i: usize) -> (r: i128)
        requires
            self.wf(),
            i < self.dst_len,
        ensures
            r == self.raw_pos(i as int),
            -0x1_0000_0000_0000_0000_0001 <= r <= 0x1_0000_0000_0000_0000_0000,
    {
        if self.is_still() {
            i as i128
        } else {
            let x: i128 = self.place_exec(i);
            if self.is_linear() {
                if x >= 0 {
                    x / 65536
                } else {
                    proof {
                        lemma_floor_negative(x as int, 65536);
                    }
                    -((-x + 65535) / 65536)
                }
            } else {
                let n: i128 = self.size_exec() as i128;
                tdiv_i128(x - (n - 2) * 65536, 131072)
            }
        }
    }

    /// Distance of tap `j` of row `i`.
    pub fn tap_distance(&self, i: usize, j: usize) -> (r: i64)
        requires
            self.wf(),
            i < self.dst_len,
            j < self.raw_size(),
            self.general(),
        ensures
            r == self.distance(i as int, j as int),
            0 <= r <= 0x2000_0000_0000_0000,
    {
        let x: i128 = self.place_exec(i);
        let p: i128 = self.pos_exec(i);
        let n: usize = self.size_exec();
        proof {
            lemma_tdiv_near(x - (n - 2) * 65536, 131072);
        }
        let t: i128 = (p + j as i128) * 131072 - x;
        let d: i128 = (if t < 0 {
            -t
        } else {
            t
        }) * 8192;
        let e: i128 = if self.x_inc > 65536 {
            proof {
                arith::lemma_mul_bound(d as int, self.dst_len as int, 0x10_0000_0000_0000_0000, 0x7fff_ffff);
                assert(0 <= d * self.dst_len) by (nonlinear_arith)
                    requires
                        d >= 0,
                        self.dst_len >= 0,
                ;
                assert(0 <= d * self.dst_len / self.src_len as int) by (nonlinear_arith)
                    requires
                        0 <= d * self.dst_len,
                        self.src_len >= 1,
                ;
            }
            d * self.dst_len as i128 / self.src_len as i128
        } else {
            d
        };
        if e < 0x2000_0000_0000_0000 {
            e as i64
        } else {
            0x2000_0000_0000_0000
        }
    }

    /// The coefficients of row `i`.
    fn row_exec(&self, w: &[F64], i: usize, one: i64) -> (r: Vec<i128>)
        requires
            self.wf(),
            i < self.dst_len,
            one == self.one(),
            0x4000_0000_0000 <= one <= 0x40_0000_0000_0000,
            w@.len() >= self.weight_count(),
        ensures
            ints(r@) == self.raw_row(w@, i as int),
            small(r@),
    {
        let n: usize = self.size_exec();
        let mut r: Vec<i128> = Vec::new();
        if self.is_still() {
            r.push(one as i128);
            assert(ints(r@) =~= self.raw_row(w@, i as int));
            return r;
        }
        let x: i128 = self.place_exec(i);
        let p: i128 = self.pos_exec(i);
        let linear: bool = self.is_linear();
        let weighed: bool = self.scaler == TableScaler::Gauss || self.scaler == TableScaler::Sinc
            || self.scaler == TableScaler::Lanczos;
        let mut j: usize = 0;
        while j < n
            invariant
                self.wf(),
                i < self.dst_len,
                j <= n,
                n == self.raw_size(),
                one == self.one(),
                0x4000_0000_0000 <= one <= 0x40_0000_0000_0000,
                w@.len() >= self.weight_count(),
                !self.still(),
                linear == self.linear(),
                weighed == self.scaler.weighed(),
                x == self.place(i as int),
                p == self.raw_pos(i as int),
                -0x1_0000_0000_0000_0000_0000 <= x <= 0x1_0000_0000_0000_0000_0000,
                -0x1_0000_0000_0000_0000_0001 <= p <= 0x1_0000_0000_0000_0000_0000,
                r@.len() == j,
                small(r@),
                forall|k: int| 0 <= k < j ==> #[trigger] r@[k] == self.raw_tap(w@, i as int, k),
            decreases n - j,
        {
            let c: i128 = if linear {
                let t: i128 = (p + j as i128) * 65536 - x;
                let a: i128 = if t < 0 {
                    -t
                } else {
                    t
                };
                let k: i128 = one as i128 / 65536;
                proof {
                    lemma_floor_near(x as int, 65536);
                    arith::lemma_mul_bound(a as int, k as int, 0x1_0000_0000, 0x40_0000_0000_0000);
                    assert(0 <= a * k) by (nonlinear_arith)
                        requires
                            a >= 0,
                            k >= 0,
                    ;
                }
                let v: i128 = one as i128 - a * k;
                if v < 0 {
                    0
                } else {
                    v
                }
            } else {
                let d: i64 = self.tap_distance(i, j);
                let v: F64 = if weighed {
                    proof {
                        lemma_cell(self.dst_len as int, n as int, i as int, j as int);
                        let len = w@.len();
                    }
                    w[cell(w.len(), i, n, j)]
                } else {
                    F64 { bits: 0 }
                };
                proof {
                    lemma_unweighed(self.scaler, d as int, self.x_inc as int, one as int, v, w@[i
                        * n + j]);
                }
                kernel_coefficient(self.scaler, d, self.x_inc, one, v) as i128
            };
            r.push(c);
            j = j + 1;
        }
        assert(ints(r@) =~= self.raw_row(w@, i as int));
        r
    }
}

/// A row of coefficients.
pub open spec fn ints(r: Seq<i128>) -> Seq<int> {
    Seq::new(r.len(), |j: int| r[j] as int)
}

/// Every coefficient is a 64-bit number.
pub open spec fn small(r: Seq<i128>) -> bool {
    forall|j: int|
        0 <= j < r.len() ==> -0x8000_0000_0000_0000 <= #[trigger] r[j] <= 0x8000_0000_0000_0000
}

/// Where the kernel's values do not come from outside they do not matter.
proof fn lemma_unweighed(scaler: TableScaler, d: int, x_inc: int, one: int, v: F64, w: F64)
    ensures
        !scaler.weighed() ==> kernel_value(scaler, d, x_inc, one, v) == kernel_value(
            scaler,
            d,
            x_inc,
            one,
            w,
        ),
{
}

proof fn lemma_floor_negative(x: int, d: int)
    requires
        x < 0,
        d > 0,
    ensures
        x / d == -((-x + d - 1) / d),
{
    let q = x / d;
    lemma_fundamental_div_mod(x, d);
    lemma_mod_bound(x, d);
    lemma_mul_is_commutative(d, q);
    assert(-q * d == -(q * d)) by (nonlinear_arith);
    lemma_fundamental_div_mod_converse(-x + d - 1, d, -q, d - 1 - x % d);
}

proof fn lemma_floor_near(x: int, d: int)
    requires
        d > 0,
    ensures
        0 <= x - x / d * d < d,
{
    lemma_fundamental_div_mod(x, d);
    lemma_mod_bound(x, d);
    lemma_mul_is_commutative(d, x / d);
}

proof fn lemma_tdiv_near(x: int, d: int)
    requires
        d > 0,
    ensures
        -d < x - mathematics::tdiv(x, d) * d < d,
{
    if x >= 0 {
        lemma_floor_near(x, d);
    } else {
        lemma_floor_near(-x, d);
        assert(-((-x) / d) * d == -((-x) / d * d)) by (nonlinear_arith);
    }
}

proof fn lemma_cell(rows: int, size: int, i: int, j: int)
    requires
        0 <= i < rows,
        0 <= j < size,
    ensures
        0 <= i * size,
        i * size + j < rows * size,
{
    assert(i * size + size <= rows * size) by (nonlinear_arith)
        requires
            i + 1 <= rows,
            size >= 0,
    ;
    assert(0 <= i * size) by (nonlinear_arith)
        requires
            0 <= i,
            0 <= size,
    ;
}

/// Index of entry `j` of row `i` in a table of `len` entries.
fn cell(len: usize, i: usize, size: usize, j: usize) -> (r: usize)
    requires
        i * size + j < len,
    ensures
        r == i * size + j,
{
    proof {
        assert(0 <= i * size) by (nonlinear_arith);
    }
    i * size + j
}

// --- cutting off negligible taps ------------------------------------------------------------

/// The taps have a weight that matters: more than 0.002.
pub open spec fn matters(cut: int, one: int) -> bool {
    cut > i64::MAX || F64 { bits: 0x3f60_624d_d2f1_a9fc }.s_times(F64::s_from_int(one)).s_less(
        F64::s_from_int(cut),
    )
}

fn matters_exec(cut: i128, one: i64) -> (r: bool)
    requires
        0 <= cut,
    ensures
        r == matters(cut as int, one as int),
{
    if cut > 0x7fff_ffff_ffff_ffff {
        true
    } else {
        (F64 { bits: 0x3f60_624d_d2f1_a9fc }).times(F64::from_int(one)).less(
            F64::from_int(cut as i64),
        )
    }
}

pub open spec fn magnitude(v: int) -> int {
    if v < 0 {
        -v
    } else {
        v
    }
}

/// A row that begins at `p` without its negligible first taps, and where it then
/// begins. It does not come to begin behind the next row, at `next`. `cut` is the
/// weight that is gone, and up to `n` taps may go.
pub open spec fn trim_left(r: Seq<int>, p: int, next: Option<int>, cut: int, one: int, n: nat) -> (
    Seq<int>,
    int,
)
    decreases n,
{
    let c = cut + magnitude(r[0]);
    if n == 0 || matters(c, one) || (next matches Some(q) && p >= q) {
        (r, p)
    } else {
        trim_left(r.subrange(1, r.len() as int).push(0), p + 1, next, c, one, (n - 1) as nat)
    }
}

/// How many of the first `n` taps of a row stay when the negligible last ones
/// are cut off. `cut` is the weight that is gone.
pub open spec fn kept(r: Seq<int>, n: nat, cut: int, one: int) -> nat
    decreases n,
{
    if n <= 1 {
        n
    } else {
        let c = cut + magnitude(r[n - 1]);
        if matters(c, one) {
            n
        } else {
            kept(r, (n - 1) as nat, c, one)
        }
    }
}

impl Axis {
    /// Row `i` without its negligible first taps, and where it begins.
    pub open spec fn trimmed(self, w: Seq<F64>, i: int) -> (Seq<int>, int)
        decreases self.dst_len - i,
    {
        let next = if i + 1 < self.dst_len {
            Some(self.trimmed(w, i + 1).1)
        } else {
            None
        };
        trim_left(
            self.raw_row(w, i),
            self.raw_pos(i),
            next,
            0,
            self.one(),
            self.raw_size() as nat,
        )
    }

    /// Taps that matter in the rows from `i` on, at most.
    pub open spec fn widest(self, w: Seq<F64>, i: int) -> nat
        decreases self.dst_len - i,
    {
        if i >= self.dst_len {
            0
        } else {
            let k = kept(self.trimmed(w, i).0, self.raw_size() as nat, 0, self.one());
            let m = self.widest(w, i + 1);
            if k > m {
                k
            } else {
                m
            }
        }
    }

    /// Taps of the finished filter.
    pub open spec fn taps(self, w: Seq<F64>) -> nat {
        self.widest(w, 0)
    }
}

fn magnitude_exec(v: i128) -> (r: i128)
    requires
        -0x8000_0000_0000_0000 <= v <= 0x8000_0000_0000_0000,
    ensures
        r == magnitude(v as int),
        0 <= r <= 0x8000_0000_0000_0000,
{
    if v < 0 {
        -v
    } else {
        v
    }
}

/// Cuts off the negligible first taps of a row.
fn trim_exec(r: &mut Vec<i128>, p: &mut i128, next: Option<i128>, one: i64)
    requires
        old(r)@.len() >= 1,
        old(r)@.len() <= 0x7fff_ffff,
        small(old(r)@),
        -0x1_0000_0000_0000_0000_0001 <= *old(p) <= 0x1_0000_0000_0000_0000_0000,
    ensures
        final(r)@.len() == old(r)@.len(),
        small(final(r)@),
        *old(p) <= *final(p) <= *old(p) + old(r)@.len(),
        (ints(final(r)@), *final(p) as int) == trim_left(
            ints(old(r)@),
            *old(p) as int,
            match next {
                Some(q) => Some(q as int),
                None => None,
            },
            0,
            one as int,
            old(r)@.len(),
        ),
{
    let n: usize = r.len();
    let ghost r0 = ints(r@);
    let ghost p0 = *p as int;
    let ghost nx = match next {
        Some(q) => Some(q as int),
        None => None,
    };
    let mut cut: i128 = 0;
    let mut k: usize = 0;
    let mut go: bool = true;
    while go && k < n
        invariant
            1 <= n <= 0x7fff_ffff,
            k <= n,
            r@.len() == n,
            small(r@),
            p0 <= *p <= p0 + k,
            p0 == *old(p),
            r0 == ints(old(r)@),
            r0.len() == n,
            -0x1_0000_0000_0000_0000_0001 <= p0 <= 0x1_0000_0000_0000_0000_0000,
            0 <= cut <= 0x8000_0000_0000_0000 * k,
            nx == (match next {
                Some(q) => Some(q as int),
                None => None::<int>,
            }),
            go ==> trim_left(r0, p0, nx, 0, one as int, n as nat) == trim_left(
                ints(r@),
                *p as int,
                nx,
                cut as int,
                one as int,
                (n - k) as nat,
            ),
            !go ==> trim_left(r0, p0, nx, 0, one as int, n as nat) == (ints(r@), *p as int),
        decreases n - k, (if go {
            1int
        } else {
            0int
        }),
    {
        let c: i128 = cut + magnitude_exec(r[0]);
        let stop: bool = matters_exec(c, one) || match next {
            Some(q) => *p >= q,
            None => false,
        };
        if stop {
            go = false;
        } else {
            let ghost before = r@;
            let _ = r.remove(0);
            r.push(0);
            proof {
                assert(ints(r@) =~= ints(before).subrange(1, n as int).push(0));
                assert forall|j: int| 0 <= j < n implies -0x8000_0000_0000_0000
                    <= #[trigger] r@[j] <= 0x8000_0000_0000_0000 by {
                    if j + 1 < n {
                        assert(r@[j] == before[j + 1]);
                    }
                }
            }
            *p = *p + 1;
            cut = c;
            k = k + 1;
        }
    }
}

/// Counts the taps of a row that stay when the negligible last ones are cut off.
fn kept_exec(r: &Vec<i128>, one: i64) -> (m: usize)
    requires
        1 <= r@.len() <= 0x7fff_ffff,
        small(r@),
    ensures
        m == kept(ints(r@), r@.len(), 0, one as int),
        1 <= m <= r@.len(),
{
    let n: usize = r.len();
    let mut m: usize = n;
    let mut cut: i128 = 0;
    let mut go: bool = true;
    while go && m > 1
        invariant
            n == r@.len(),
            1 <= m <= n <= 0x7fff_ffff,
            small(r@),
            0 <= cut <= 0x8000_0000_0000_0000 * (n - m),
            go ==> kept(ints(r@), n as nat, 0, one as int) == kept(
                ints(r@),
                m as nat,
                cut as int,
                one as int,
            ),
            !go ==> kept(ints(r@), n as nat, 0, one as int) == m,
        decreases m, (if go {
            1int
        } else {
            0int
        }),
    {
        let c: i128 = cut + magnitude_exec(r[m - 1]);
        if matters_exec(c, one) {
            go = false;
        } else {
            cut = c;
            m = m - 1;
        }
    }
    m
}

// --- borders --------------------------------------------------------------------------------

/// The sum of the entries from `a` up to `b`.
pub open spec fn span_sum(f: Seq<int>, a: int, b: int) -> int
    decreases b - a,
{
    if a >= b {
        0
    } else {
        span_sum(f, a, b - 1) + f[b - 1]
    }
}

pub open spec fn between(v: int, lo: int, hi: int) -> int {
    if v < lo {
        lo
    } else if v > hi {
        hi
    } else {
        v
    }
}

/// Where a row of `n` taps that was to begin at `p` begins within `len` pixels.
pub open spec fn edge_pos(p: int, n: int, len: int) -> int {
    let q = if p < 0 {
        0
    } else {
        p
    };
    if q + n > len {
        if len > n {
            len - n
        } else {
            0
        }
    } else {
        q
    }
}

/// What a row of taps that begins at `p` does with pixel `s` of `len`: taps that
/// miss the picture go to the pixel at its edge.
pub open spec fn edge_tap(f: Seq<int>, p: int, len: int, s: int) -> int {
    let n = f.len() as int;
    let a = if 0 <= s - p < n {
        f[s - p]
    } else {
        0
    };
    let b = if s == 0 {
        span_sum(f, 0, between(-p, 0, n))
    } else {
        0
    };
    let c = if s == len - 1 {
        span_sum(f, between(len - p, 0, n), n)
    } else {
        0
    };
    a + b + c
}

/// A row of taps that stays within the picture.
pub open spec fn edged(f: Seq<int>, p: int, len: int) -> Seq<int> {
    let q = edge_pos(p, f.len() as int, len);
    Seq::new(
        f.len(),
        |j: int|
            if q + j < len {
                edge_tap(f, p, len, q + j)
            } else {
                0
            },
    )
}

/// Every coefficient is a number of at most 73 bits.
pub open spec fn medium(r: Seq<i128>) -> bool {
    forall|j: int|
        0 <= j < r.len() ==> -0x200_0000_0000_0000_0000 <= #[trigger] r[j]
            <= 0x200_0000_0000_0000_0000
}

fn span_sum_exec(f: &Vec<i128>, a: usize, b: usize) -> (r: i128)
    requires
        a <= b <= f@.len(),
        f@.len() <= 256,
        small(f@),
    ensures
        r == span_sum(ints(f@), a as int, b as int),
        -0x80_0000_0000_0000_0000 <= r <= 0x80_0000_0000_0000_0000,
{
    let mut s: i128 = 0;
    let mut k: usize = a;
    while k < b
        invariant
            a <= k <= b <= f@.len(),
            f@.len() <= 256,
            small(f@),
            s == span_sum(ints(f@), a as int, k as int),
            -0x8000_0000_0000_0000 * (k - a) <= s <= 0x8000_0000_0000_0000 * (k - a),
        decreases b - k,
    {
        s = s + f[k];
        k = k + 1;
    }
    s
}

/// Keeps a row of taps within the picture.
fn edge_exec(f: &Vec<i128>, p: i128, len: i32) -> (r: (Vec<i128>, i32))
    requires
        1 <= f@.len() <= 256,
        small(f@),
        len >= 1,
        -0x1_0000_0000_0000_0000_0001 <= p <= 0x1_0000_0000_0000_0000_0000 + 0x8000_0000,
    ensures
        ints(r.0@) == edged(ints(f@), p as int, len as int),
        medium(r.0@),
        r.1 == edge_pos(p as int, f@.len() as int, len as int),
        0 <= r.1 < len,
{
    let n: usize = f.len();
    let nn: i128 = n as i128;
    let l: i128 = len as i128;
    let q0: i128 = if p < 0 {
        0
    } else {
        p
    };
    let q: i128 = if q0 + nn > l {
        if l > nn {
            l - nn
        } else {
            0
        }
    } else {
        q0
    };
    let lo: i128 = if -p < 0 {
        0
    } else if -p > nn {
        nn
    } else {
        -p
    };
    let hi: i128 = if l - p < 0 {
        0
    } else if l - p > nn {
        nn
    } else {
        l - p
    };
    let first: i128 = span_sum_exec(f, 0, lo as usize);
    let last: i128 = span_sum_exec(f, hi as usize, n);
    let ghost g = ints(f@);
    let mut r: Vec<i128> = Vec::new();
    let mut j: usize = 0;
    while j < n
        invariant
            n == f@.len(),
            1 <= n <= 256,
            nn == n,
            l == len,
            small(f@),
            g == ints(f@),
            q == edge_pos(p as int, n as int, len as int),
            0 <= q < len,
            -0x1_0000_0000_0000_0000_0001 <= p <= 0x1_0000_0000_0000_0000_0000 + 0x8000_0000,
            first == span_sum(g, 0, between(-p, 0, n as int)),
            last == span_sum(g, between(len - p, 0, n as int), n as int),
            -0x80_0000_0000_0000_0000 <= first <= 0x80_0000_0000_0000_0000,
            -0x80_0000_0000_0000_0000 <= last <= 0x80_0000_0000_0000_0000,
            j <= n,
            r@.len() == j,
            medium(r@),
            forall|k: int|
                0 <= k < j ==> #[trigger] r@[k] == edged(g, p as int, len as int)[k],
        decreases n - j,
    {
        let s: i128 = q + j as i128;
        let v: i128 = if s < l {
            let k: i128 = s - p;
            let a: i128 = if 0 <= k && k < nn {
                f[k as usize]
            } else {
                0
            };
            let b: i128 = if s == 0 {
                first
            } else {
                0
            };
            let c: i128 = if s == l - 1 {
                last
            } else {
                0
            };
            a + b + c
        } else {
            0
        };
        r.push(v);
        j = j + 1;
    }
    assert(ints(r@) =~= edged(g, p as int, len as int));
    (r, q as i32)
}

// --- rounding with error diffusion ------------------------------------------------------------

/// `a / b`, rounded to the nearest integer, halves away from zero.
pub open spec fn nearest(a: int, b: int) -> int {
    mathematics::tquot(
        if a >= 0 {
            a + b / 2
        } else {
            a - b / 2
        },
        b,
    )
}

/// What a row is divided by so that it adds up to `one`.
pub open spec fn divisor(g: Seq<int>, one: int) -> int {
    let d = mathematics::tdiv(span_sum(g, 0, g.len() as int) + one / 2, one);
    if d == 0 {
        1
    } else {
        d
    }
}

/// What rounding has left over before tap `j`.
pub open spec fn left_over(g: Seq<int>, d: int, j: nat) -> int
    decreases j,
{
    if j == 0 {
        0
    } else {
        let v = g[j - 1] + left_over(g, d, (j - 1) as nat);
        v - nearest(v, d) * d
    }
}

/// Tap `j`, rounded; what is left over goes to the next one.
pub open spec fn rounded_tap(g: Seq<int>, d: int, j: int) -> int {
    nearest(g[j] + left_over(g, d, j as nat), d)
}

proof fn lemma_nearest(a: int, b: int)
    requires
        b != 0,
    ensures
        -2 * magnitude(b) <= a - nearest(a, b) * b <= 2 * magnitude(b),
        b > 0 ==> -b <= 2 * (a - nearest(a, b) * b) <= b,
{
    let h = b / 2;
    let t = if a >= 0 {
        a + h
    } else {
        a - h
    };
    let q = mathematics::tquot(t, b);
    lemma_fundamental_div_mod(b, 2);
    lemma_mod_bound(b, 2);
    if b > 0 {
        lemma_tdiv_near(t, b);
        if t >= 0 {
            lemma_floor_near(t, b);
        } else {
            lemma_floor_near(-t, b);
            assert(-((-t) / b) * b == -((-t) / b * b)) by (nonlinear_arith);
        }
    } else {
        lemma_tdiv_near(t, -b);
        assert(q * b == mathematics::tdiv(t, -b) * (-b)) by (nonlinear_arith)
            requires
                q == -mathematics::tdiv(t, -b),
        ;
    }
}

pub(crate) proof fn lemma_left_over(g: Seq<int>, d: int, j: nat)
    requires
        d != 0,
    ensures
        -2 * magnitude(d) <= left_over(g, d, j) <= 2 * magnitude(d),
        d > 0 ==> -d <= 2 * left_over(g, d, j) <= d,
{
    if j > 0 {
        let v = g[j - 1] + left_over(g, d, (j - 1) as nat);
        lemma_nearest(v, d);
    }
}

/// Taps are rounded to the nearest integer, halves away from zero, and a number
/// and its negative to opposite integers.
pub proof fn lemma_rounds_to_nearest(a: int, b: int)
    requires
        b > 0,
    ensures
        2 * magnitude(a - nearest(a, b) * b) <= b,
        2 * magnitude(a - nearest(a, b) * b) == b ==> magnitude(nearest(a, b) * b) > magnitude(a),
        nearest(-a, b) == -nearest(a, b),
{
    let m = magnitude(a);
    let k = (m + b / 2) / b;
    lemma_fundamental_div_mod(m + b / 2, b);
    lemma_mod_bound(m + b / 2, b);
    assert(b * k == k * b) by (nonlinear_arith);
    assert((-k) * b == -(k * b)) by (nonlinear_arith);
    assert(nearest(m, b) == k);
    if m > 0 {
        assert(nearest(-m, b) == -k);
    } else {
        assert(k == 0) by (nonlinear_arith)
            requires
                k == (0 + b / 2) / b,
                b > 0,
        ;
    }
}

/// Rounds a row, diffusing the errors.
fn quantize(g: &Vec<i128>, one: i64, out: &mut Vec<i16>)
    requires
        1 <= g@.len() <= 256,
        medium(g@),
        1 <= one <= 0x1_0000,
    ensures
        final(out)@.len() == old(out)@.len() + g@.len(),
        forall|k: int| 0 <= k < old(out)@.len() ==> #[trigger] final(out)@[k] == old(out)@[k],
        forall|j: int|
            0 <= j < g@.len() ==> #[trigger] final(out)@[old(out)@.len() + j] == arith::wrap16(
                rounded_tap(ints(g@), divisor(ints(g@), one as int), j),
            ),
{
    let n: usize = g.len();
    let ghost gi = ints(g@);
    let ghost o0 = out@;
    let mut sum: i128 = 0;
    let mut k: usize = 0;
    while k < n
        invariant
            n == g@.len(),
            n <= 256,
            k <= n,
            medium(g@),
            gi == ints(g@),
            sum == span_sum(gi, 0, k as int),
            -0x200_0000_0000_0000_0000 * k <= sum <= 0x200_0000_0000_0000_0000 * k,
        decreases n - k,
    {
        sum = sum + g[k];
        k = k + 1;
    }
    let d0: i128 = tdiv_i128(sum + (one / 2) as i128, one as i128);
    let d: i128 = if d0 == 0 {
        1
    } else {
        d0
    };
    let mut err: i128 = 0;
    let mut j: usize = 0;
    while j < n
        invariant
            n == g@.len(),
            n <= 256,
            j <= n,
            medium(g@),
            gi == ints(g@),
            d == divisor(gi, one as int),
            d != 0,
            -0x2_0001_0000_0000_0000_0000 <= d <= 0x2_0001_0000_0000_0000_0000,
            err == left_over(gi, d as int, j as nat),
            out@.len() == o0.len() + j,
            forall|k: int| 0 <= k < o0.len() ==> #[trigger] out@[k] == o0[k],
            forall|k: int|
                0 <= k < j ==> #[trigger] out@[o0.len() + k] == arith::wrap16(
                    rounded_tap(gi, d as int, k),
                ),
        decreases n - j,
    {
        proof {
            lemma_left_over(gi, d as int, j as nat);
            lemma_left_over(gi, d as int, (j + 1) as nat);
        }
        let v: i128 = g[j] + err;
        let h: i128 = if d >= 0 {
            d / 2
        } else {
            -((-d + 1) / 2)
        };
        proof {
            if d < 0 {
                lemma_floor_negative(d as int, 2);
            }
        }
        let q: i128 = tquot_i128(
            if v >= 0 {
                v + h
            } else {
                v - h
            },
            d,
        );
        proof {
            assert(q == nearest(v as int, d as int));
            lemma_nearest(v as int, d as int);
        }
        err = v - q * d;
        out.push(arith::wrap_i128(q, 16) as i16);
        j = j + 1;
    }
}

// --- the filter -------------------------------------------------------------------------------

/// A table of coefficients: a row of taps for each destination pixel.
#[derive(Debug)]
pub struct SwsFilter {
    /// All taps, row by row.
    pub filter: Vec<i16>,
    /// The source pixel of the first tap of each row.
    pub filter_pos: Vec<i32>,
    /// Taps in a row.
    pub size: usize,
}

impl SwsFilter {
    pub open spec fn rows(self) -> nat {
        self.filter_pos@.len()
    }

    pub open spec fn wf(self) -> bool {
        &&& 1 <= self.size <= MAX_FILTER_SIZE
        &&& self.filter@.len() == self.rows() * self.size
    }

    /// Tap `j` of row `i`.
    pub open spec fn tap(self, i: int, j: int) -> int {
        self.filter@[i * self.size + j] as int
    }

    /// The filter reads pixels of a picture `len` pixels long.
    pub open spec fn within(self, len: int) -> bool {
        forall|i: int| 0 <= i < self.rows() ==> 0 <= #[trigger] self.filter_pos@[i] < len
    }

    /// Row `i` of taps.
    pub fn row(&self, i: usize) -> (r: &[i16])
        requires
            self.wf(),
            i < self.rows(),
        ensures
            r@.len() == self.size,
            forall|j: int| 0 <= j < self.size ==> #[trigger] r@[j] == self.tap(i as int, j),
    {
        let n: usize = self.filter.len();
        proof {
            lemma_cell(self.rows() as int, self.size as int, i as int, self.size - 1);
            assert(i * self.size + self.size == (i + 1) * self.size) by (nonlinear_arith);
        }
        let a: usize = i * self.size;
        vstd::slice::slice_subrange(self.filter.as_slice(), a, a + self.size)
    }
}

impl Axis {
    /// Row `i` of the finished filter, before it is rounded.
    pub open spec fn edged_row(self, w: Seq<F64>, i: int) -> Seq<int> {
        let (r, p) = self.trimmed(w, i);
        edged(r.subrange(0, self.taps(w) as int), p, self.src_len as int)
    }

    /// Tap `j` of row `i` of the finished filter, before it is cut to 16 bits.
    pub open spec fn tap(self, w: Seq<F64>, one: int, i: int, j: int) -> int {
        let g = self.edged_row(w, i);
        rounded_tap(g, divisor(g, one), j)
    }

    /// The source pixel of the first tap of row `i`.
    pub open spec fn pos(self, w: Seq<F64>, i: int) -> int {
        edge_pos(self.trimmed(w, i).1, self.taps(w) as int, self.src_len as int)
    }

    /// The table `f` is the filter of this axis.
    pub open spec fn filtered(self, w: Seq<F64>, one: int, f: SwsFilter) -> bool {
        &&& f.wf()
        &&& f.rows() == self.dst_len
        &&& f.size == self.taps(w)
        &&& f.within(self.src_len as int)
        &&& forall|i: int| 0 <= i < self.dst_len ==> #[trigger] f.filter_pos@[i] == self.pos(w, i)
        &&& forall|i: int, j: int|
            0 <= i < self.dst_len && 0 <= j < f.size ==> #[trigger] f.tap(i, j) == arith::wrap16(
                self.tap(w, one, i, j),
            )
    }

    pub(crate) proof fn lemma_trimmed(self, w: Seq<F64>, i: int)
        requires
            self.wf(),
            0 <= i < self.dst_len,
        ensures
            self.trimmed(w, i).0.len() == self.raw_size(),
            1 <= self.widest(w, i),
        decreases self.dst_len - i,
    {
        if i + 1 < self.dst_len {
            self.lemma_trimmed(w, i + 1);
        }
        let next = if i + 1 < self.dst_len {
            Some(self.trimmed(w, i + 1).1)
        } else {
            None
        };
        assert(self.raw_size() >= 1);
        lemma_trim_len(
            self.raw_row(w, i),
            self.raw_pos(i),
            next,
            0,
            self.one(),
            self.raw_size() as nat,
        );
        lemma_kept(self.trimmed(w, i).0, self.raw_size() as nat, 0, self.one());
    }
}

proof fn lemma_trim_len(r: Seq<int>, p: int, next: Option<int>, cut: int, one: int, n: nat)
    requires
        r.len() >= 1,
    ensures
        trim_left(r, p, next, cut, one, n).0.len() == r.len(),
    decreases n,
{
    if n > 0 {
        let c = cut + magnitude(r[0]);
        lemma_trim_len(
            r.subrange(1, r.len() as int).push(0),
            p + 1,
            next,
            c,
            one,
            (n - 1) as nat,
        );
    }
}

proof fn lemma_kept(r: Seq<int>, n: nat, cut: int, one: int)
    requires
        n >= 1,
    ensures
        1 <= kept(r, n, cut, one) <= n,
    decreases n,
{
    if n > 1 {
        lemma_kept(r, (n - 1) as nat, cut + magnitude(r[n - 1]), one);
    }
}

/// The first `n` taps of a row.
fn prefix(r: &Vec<i128>, n: usize) -> (v: Vec<i128>)
    requires
        n <= r@.len(),
        small(r@),
    ensures
        ints(v@) == ints(r@).subrange(0, n as int),
        v@.len() == n,
        small(v@),
{
    let mut v: Vec<i128> = Vec::new();
    let mut k: usize = 0;
    while k < n
        invariant
            k <= n <= r@.len(),
            small(r@),
            v@.len() == k,
            forall|j: int| 0 <= j < k ==> #[trigger] v@[j] == r@[j],
        decreases n - k,
    {
        v.push(r[k]);
        k = k + 1;
    }
    assert forall|j: int| 0 <= j < n implies -0x8000_0000_0000_0000 <= #[trigger] v@[j]
        <= 0x8000_0000_0000_0000 by {
        assert(v@[j] == r@[j]);
    }
    assert(ints(v@) =~= ints(r@).subrange(0, n as int));
    v
}

/// The trimmed rows of a filter, last row first.
struct Trimmed {
    rows: Vec<Vec<i128>>,
    pos: Vec<i128>,
    taps: usize,
}

impl Axis {
    spec fn trimmed_to(self, w: Seq<F64>, t: Trimmed, i: int) -> bool {
        &&& t.rows@.len() == self.dst_len - i
        &&& t.pos@.len() == self.dst_len - i
        &&& t.taps == self.widest(w, i)
        &&& forall|k: int|
            0 <= k < self.dst_len - i ==> {
                let r = self.trimmed(w, self.dst_len - 1 - k);
                &&& ints((#[trigger] t.rows@[k])@) == r.0
                &&& small(t.rows@[k]@)
                &&& t.pos@[k] == r.1
                &&& -0x1_0000_0000_0000_0000_0001 <= t.pos@[k] <= 0x1_0000_0000_0000_0000_0000
                    + 0x8000_0000
            }
    }

    /// Cuts the negligible first taps of all rows off.
    fn trim_rows(&self, w: &[F64], one: i64) -> (t: Trimmed)
        requires
            self.wf(),
            one == self.one(),
            0x4000_0000_0000 <= one <= 0x40_0000_0000_0000,
            w@.len() >= self.weight_count(),
        ensures
            self.trimmed_to(w@, t, 0),
    {
        let mut t = Trimmed { rows: Vec::new(), pos: Vec::new(), taps: 0 };
        let mut i: usize = self.dst_len as usize;
        let n: usize = self.size_exec();
        while i > 0
            invariant
                self.wf(),
                one == self.one(),
                0x4000_0000_0000 <= one <= 0x40_0000_0000_0000,
                w@.len() >= self.weight_count(),
                n == self.raw_size(),
                1 <= n <= 0x7fff_ffff,
                i <= self.dst_len,
                self.trimmed_to(w@, t, i as int),
            decreases i,
        {
            let ghost t0 = t;
            i = i - 1;
            let mut row: Vec<i128> = self.row_exec(w, i, one);
            let mut p: i128 = self.pos_exec(i);
            let m: usize = t.pos.len();
            let next: Option<i128> = if m > 0 {
                assert(t.rows@[m - 1]@ == t.rows@[m - 1]@);
                Some(t.pos[m - 1])
            } else {
                None
            };
            proof {
                assert(row@.len() == ints(row@).len());
                assert(ints(row@).len() == n);
            }
            trim_exec(&mut row, &mut p, next, one);
            let k: usize = kept_exec(&row, one);
            proof {
                let tr = self.trimmed(w@, i as int);
                assert(ints(row@) == tr.0);
                assert(p == tr.1);
            }
            t.rows.push(row);
            t.pos.push(p);
            if k > t.taps {
                t.taps = k;
            }
            proof {
                assert forall|k: int| 0 <= k < self.dst_len - i implies ({
                    let r = self.trimmed(w@, self.dst_len - 1 - k);
                    &&& ints((#[trigger] t.rows@[k])@) == r.0
                    &&& small(t.rows@[k]@)
                    &&& t.pos@[k] == r.1
                    &&& -0x1_0000_0000_0000_0000_0001 <= t.pos@[k]
                        <= 0x1_0000_0000_0000_0000_0000 + 0x8000_0000
                }) by {
                    if k < m {
                        assert(t.rows@[k] == t0.rows@[k]);
                        assert(t.pos@[k] == t0.pos@[k]);
                    }
                }
            }
        }
        t
    }
}

pub open spec fn cascade_text(n: nat) -> Seq<char> {
    "scaling ratio would need swscale's cascaded two-pass (filterSize "@ + text::decimal(n)
        + " >= 256, utils.c:1806-1834); unsupported in this phase"@
}

fn cascade_error(n: usize) -> (e: Error)
    ensures
        e.is_unsupported(cascade_text(n as nat)),
{
    let mut t: String = "scaling ratio would need swscale's cascaded two-pass (filterSize ".to_owned();
    push_decimal(&mut t, n as u64);
    t.append(" >= 256, utils.c:1806-1834); unsupported in this phase");
    Error::Unsupported(t)
}

/// The filter for scaling `src_len` pixels to `dst_len`. Its rows add up to
/// `one`. `weights` holds the kernel's values at the distances that
/// [`Axis::tap_distance`] tells, row by row, for the kernels that take them from
/// outside.
pub fn init_filter(
    x_inc: i64,
    src_len: i32,
    dst_len: i32,
    one: i64,
    scaler: TableScaler,
    src_pos: i32,
    dst_pos: i32,
    weights: &[F64],
) -> (r: Result<SwsFilter, Error>)
    requires
        (Axis { x_inc, src_len, dst_len, scaler, src_pos, dst_pos }).wf(),
        1 <= one <= 0x1_0000,
    ensures
        ({
            let ax = Axis { x_inc, src_len, dst_len, scaler, src_pos, dst_pos };
            let w = weights@;
            if w.len() < ax.weight_count() {
                r matches Err(e) && e.is_invalid("no kernel weights for this filter"@)
            } else if ax.taps(w) >= MAX_FILTER_SIZE {
                r matches Err(e) && e.is_unsupported(cascade_text(ax.taps(w)))
            } else {
                r matches Ok(f) && ax.filtered(w, one as int, f)
            }
        }),
{
    let ax = Axis { x_inc, src_len, dst_len, scaler, src_pos, dst_pos };
    let n: usize = ax.size_exec();
    let weighed: bool = !ax.is_still() && !ax.is_linear() && (scaler == TableScaler::Gauss || scaler
        == TableScaler::Sinc || scaler == TableScaler::Lanczos);
    if weighed {
        proof {
            assert(0 <= dst_len * n <= 0x7fff_ffff * 0x7fff_ffff) by (nonlinear_arith)
                requires
                    0 <= dst_len <= 0x7fff_ffff,
                    0 <= n <= 0x7fff_ffff,
            ;
        }
        if (weights.len() as u128) < dst_len as u128 * n as u128 {
            return Err(invalid("no kernel weights for this filter"));
        }
    }
    let unit: i64 = fone(src_len, dst_len);
    let t: Trimmed = ax.trim_rows(weights, unit);
    let size: usize = t.taps;
    if size >= MAX_FILTER_SIZE {
        return Err(cascade_error(size));
    }
    proof {
        ax.lemma_trimmed(weights@, 0);
    }
    let rows: usize = dst_len as usize;
    let mut filter: Vec<i16> = Vec::new();
    let mut filter_pos: Vec<i32> = Vec::new();
    let ghost w = weights@;
    let mut i: usize = 0;
    while i < rows
        invariant
            ax == (Axis { x_inc, src_len, dst_len, scaler, src_pos, dst_pos }),
            ax.wf(),
            w == weights@,
            1 <= one <= 0x1_0000,
            rows == dst_len,
            i <= rows,
            size == ax.taps(w),
            1 <= size < MAX_FILTER_SIZE,
            ax.trimmed_to(w, t, 0),
            filter@.len() == i * size,
            filter_pos@.len() == i,
            forall|k: int|
                0 <= k < i ==> #[trigger] filter_pos@[k] == ax.pos(w, k) && 0 <= filter_pos@[k]
                    < src_len,
            forall|k: int, j: int|
                0 <= k < i && 0 <= j < size ==> #[trigger] filter@[k * size + j] == arith::wrap16(
                    ax.tap(w, one as int, k, j),
                ),
        decreases rows - i,
    {
        let at: usize = rows - 1 - i;
        proof {
            ax.lemma_trimmed(w, i as int);
            ax.lemma_taps(w, i as int);
            assert(t.rows@[at as int]@ == t.rows@[at as int]@);
            assert(ints(t.rows@[at as int]@) == ax.trimmed(w, i as int).0);
        }
        let cut: Vec<i128> = prefix(&t.rows[at], size);
        let (row, p) = edge_exec(&cut, t.pos[at], src_len);
        let ghost f0 = filter@;
        let ghost g = ints(row@);
        proof {
            assert(row@.len() == g.len());
            assert(g == ax.edged_row(w, i as int));
        }
        quantize(&row, one, &mut filter);
        filter_pos.push(p);
        proof {
            assert(i * size + size == (i + 1) * size) by (nonlinear_arith);
            assert forall|k: int, j: int|
                0 <= k < i + 1 && 0 <= j < size implies #[trigger] filter@[k * size + j]
                == arith::wrap16(ax.tap(w, one as int, k, j)) by {
                if k < i {
                    lemma_cell(i as int, size as int, k, j);
                    assert(filter@[k * size + j] == f0[k * size + j]);
                } else {
                    assert(filter@[f0.len() + j] == arith::wrap16(
                        rounded_tap(g, divisor(g, one as int), j),
                    ));
                }
            }
        }
        i = i + 1;
    }
    Ok(SwsFilter { filter, filter_pos, size })
}

impl Axis {
    /// No row keeps more taps than it had.
    proof fn lemma_taps(self, w: Seq<F64>, i: int)
        requires
            self.wf(),
        ensures
            self.taps(w) <= self.raw_size(),
    {
        self.lemma_widest(w, 0);
    }

    proof fn lemma_widest(self, w: Seq<F64>, i: int)
        requires
            self.wf(),
            0 <= i <= self.dst_len,
        ensures
            self.widest(w, i) <= self.raw_size(),
        decreases self.dst_len - i,
    {
        if i < self.dst_len {
            self.lemma_widest(w, i + 1);
            assert(self.raw_size() >= 1);
            lemma_kept(self.trimmed(w, i).0, self.raw_size() as nat, 0, self.one());
        }
    }
}

// --- applying filters -------------------------------------------------------------------------

/// The first `n` terms of a horizontal sum: pixels times taps. Taps behind the
/// end of the row count for nothing.
pub open spec fn h_sum(f: SwsFilter, src: Seq<u8>, i: int, n: nat) -> int
    decreases n,
{
    if n == 0 {
        0
    } else {
        let s = f.filter_pos@[i] + n - 1;
        h_sum(f, src, i, (n - 1) as nat) + if s < src.len() {
            src[s] * f.tap(i, n - 1)
        } else {
            0
        }
    }
}

/// Pixel `i` of a row after horizontal scaling, with 7 more bits than before.
pub open spec fn h_value(f: SwsFilter, src: Seq<u8>, i: int) -> int {
    let v = h_sum(f, src, i, f.size as nat) / 128;
    arith::wrap16(
        if v < 32767 {
            v
        } else {
            32767
        },
    )
}

/// Scales a row of pixels horizontally.
pub fn h_scale8_to15(dst: &mut [i16], src_row: &[u8], f: &SwsFilter)
    requires
        f.wf(),
        old(dst)@.len() <= f.rows(),
        f.within(src_row@.len() as int),
    ensures
        final(dst)@.len() == old(dst)@.len(),
        forall|i: int|
            0 <= i < final(dst)@.len() ==> #[trigger] final(dst)@[i] == h_value(*f, src_row@, i),
{
    let n: usize = dst.len();
    let len: usize = src_row.len();
    let mut i: usize = 0;
    while i < n
        invariant
            f.wf(),
            i <= n <= f.rows(),
            dst@.len() == n,
            len == src_row@.len(),
            f.within(len as int),
            forall|k: int| 0 <= k < i ==> #[trigger] dst@[k] == h_value(*f, src_row@, k),
        decreases n - i,
    {
        let pos: usize = f.filter_pos[i] as usize;
        let row: &[i16] = f.row(i);
        let mut val: i64 = 0;
        let mut j: usize = 0;
        while j < f.size
            invariant
                f.wf(),
                i < f.rows(),
                j <= f.size,
                pos == f.filter_pos@[i as int],
                pos < len,
                pos <= 0x7fff_ffff,
                len == src_row@.len(),
                row@.len() == f.size,
                forall|k: int| 0 <= k < f.size ==> #[trigger] row@[k] == f.tap(i as int, k),
                val == h_sum(*f, src_row@, i as int, j as nat),
                -0x80_0000 * j <= val <= 0x80_0000 * j,
            decreases f.size - j,
        {
            if pos + j < len {
                let a: i64 = src_row[pos + j] as i64;
                let b: i64 = row[j] as i64;
                proof {
                    arith::lemma_mul_bound(a as int, b as int, 0xff, 0x8000);
                }
                val = val + a * b;
            }
            j = j + 1;
        }
        let q: i64 = floor_div(val, 128);
        let c: i64 = if q < 32767 {
            q
        } else {
            32767
        };
        dst[i] = arith::wrap_i128(c as i128, 16) as i16;
        i = i + 1;
    }
}

/// `a / d`, rounded down.
fn floor_div(a: i64, d: i64) -> (r: i64)
    requires
        d > 0,
        -0x4000_0000_0000_0000 < a < 0x4000_0000_0000_0000,
        d < 0x4000_0000_0000_0000,
    ensures
        r == a as int / d as int,
{
    if a >= 0 {
        a / d
    } else {
        proof {
            lemma_floor_negative(a as int, d as int);
        }
        -((-a + (d - 1)) / d)
    }
}

/// The first `n` terms of a vertical sum: pixels of lines times taps.
pub open spec fn v_sum(lines: Seq<Seq<i16>>, row: Seq<i16>, x: int, n: nat) -> int
    decreases n,
{
    if n == 0 {
        0
    } else {
        v_sum(lines, row, x, (n - 1) as nat) + lines[n - 1][x] * row[n - 1]
    }
}

/// A vertical sum as a pixel, rounded.
pub open spec fn v_value(sum: int) -> int {
    between(arith::wrap32(0x4_0000 + sum) / 0x8_0000, 0, 255)
}

pub open spec fn line_views(p: Seq<&[i16]>) -> Seq<Seq<i16>> {
    Seq::new(p.len(), |i: int| p[i]@)
}

/// Combines horizontally scaled lines to a row of pixels.
pub fn yuv2plane_x_8(dest_row: &mut [u8], lines: &[&[i16]], row: &[i16])
    requires
        lines@.len() <= row@.len(),
        lines@.len() <= MAX_FILTER_SIZE,
        forall|j: int| 0 <= j < lines@.len() ==> (#[trigger] lines@[j])@.len() >= old(dest_row)@.len(),
    ensures
        final(dest_row)@.len() == old(dest_row)@.len(),
        forall|x: int|
            0 <= x < final(dest_row)@.len() ==> #[trigger] final(dest_row)@[x] == v_value(
                v_sum(line_views(lines@), row@, x, lines@.len()),
            ),
{
    let n: usize = dest_row.len();
    let m: usize = lines.len();
    let ghost lv = line_views(lines@);
    let mut x: usize = 0;
    while x < n
        invariant
            x <= n,
            dest_row@.len() == n,
            m == lines@.len(),
            m <= row@.len(),
            m <= MAX_FILTER_SIZE,
            lv == line_views(lines@),
            forall|j: int| 0 <= j < m ==> (#[trigger] lines@[j])@.len() >= n,
            forall|k: int|
                0 <= k < x ==> #[trigger] dest_row@[k] == v_value(v_sum(lv, row@, k, m as nat)),
        decreases n - x,
    {
        let mut val: i64 = 0;
        let mut j: usize = 0;
        while j < m
            invariant
                x < n,
                j <= m,
                m == lines@.len(),
                m <= row@.len(),
                m <= MAX_FILTER_SIZE,
                lv == line_views(lines@),
                forall|k: int| 0 <= k < m ==> (#[trigger] lines@[k])@.len() >= n,
                val == v_sum(lv, row@, x as int, j as nat),
                -0x4000_0000 * j <= val <= 0x4000_0000 * j,
            decreases m - j,
        {
            let line: &[i16] = lines[j];
            assert(lv[j as int] == line@);
            let a: i64 = line[x] as i64;
            let b: i64 = row[j] as i64;
            proof {
                arith::lemma_mul_bound(a as int, b as int, 0x8000, 0x8000);
            }
            val = val + a * b;
            j = j + 1;
        }
        let t: i64 = arith::wrap_i128(val as i128 + 0x4_0000, 32) as i64;
        let q: i64 = floor_div(t, 0x8_0000);
        dest_row[x] = if q < 0 {
            0
        } else if q > 255 {
            255
        } else {
            q as u8
        };
        x = x + 1;
    }
}

impl Axis {
    /// Whether the kernel's values are needed from outside.
    pub fn is_weighed(&self) -> (r: bool)
        requires
            self.wf(),
        ensures
            r == self.weighed(),
    {
        !self.is_still() && !self.is_linear() && (self.scaler == TableScaler::Gauss || self.scaler
            == TableScaler::Sinc || self.scaler == TableScaler::Lanczos)
    }

    /// The distances at which the kernel's values are needed from outside, row by
    /// row; none, where they are not needed.
    pub fn distances(&self) -> (r: Vec<i64>)
        requires
            self.wf(),
            self.weight_count() <= usize::MAX,
        ensures
            r@.len() == self.weight_count(),
            self.weighed() ==> forall|i: int, j: int|
                0 <= i < self.dst_len && 0 <= j < self.raw_size() ==> #[trigger] r@[i
                    * self.raw_size() + j] == self.distance(i, j),
    {
        let mut r: Vec<i64> = Vec::new();
        if !self.is_weighed() {
            return r;
        }
        let n: usize = self.size_exec();
        let rows: usize = self.dst_len as usize;
        let mut i: usize = 0;
        while i < rows
            invariant
                self.wf(),
                self.general(),
                n == self.raw_size(),
                rows == self.dst_len,
                i <= rows,
                r@.len() == i * n,
                forall|k: int, j: int|
                    0 <= k < i && 0 <= j < n ==> #[trigger] r@[k * n + j] == self.distance(k, j),
            decreases rows - i,
        {
            let ghost r0 = r@;
            let mut j: usize = 0;
            while j < n
                invariant
                    self.wf(),
                    self.general(),
                    n == self.raw_size(),
                    rows == self.dst_len,
                    i < rows,
                    j <= n,
                    r0.len() == i * n,
                    r@.len() == i * n + j,
                    forall|k: int| 0 <= k < r0.len() ==> #[trigger] r@[k] == r0[k],
                    forall|k: int|
                        0 <= k < j ==> #[trigger] r@[i * n + k] == self.distance(i as int, k),
                decreases n - j,
            {
                r.push(self.tap_distance(i, j));
                j = j + 1;
            }
            proof {
                assert(i * n + n == (i + 1) * n) by (nonlinear_arith);
                assert forall|k: int, j: int| 0 <= k < i + 1 && 0 <= j < n implies #[trigger] r@[k * n
                    + j] == self.distance(k, j) by {
                    if k < i {
                        lemma_cell(i as int, n as int, k, j);
                        assert(r@[k * n + j] == r0[k * n + j]);
                    }
                }
            }
            i = i + 1;
        }
        r
    }
}

/// A single tap of full weight passes a line on, rounded to eight bits.
pub proof fn lemma_single_tap(lines: Seq<Seq<i16>>, row: Seq<i16>, x: int)
    requires
        row.len() == 1,
        row[0] == 4096,
        lines.len() == 1,
        0 <= x < lines[0].len(),
    ensures
        v_value(v_sum(lines, row, x, 1)) == between((lines[0][x] + 64) / 128, 0, 255),
{
    reveal_with_fuel(v_sum, 2);
    let v = lines[0][x] as int;
    assert(v_sum(lines, row, x, 1) == 4096 * v);
    assert((0x4_0000 + 4096 * v) / 0x8_0000 == (v + 64) / 128);
}

} // verus!
