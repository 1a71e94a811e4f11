//! The values of low-pass filters, from those of the elementary functions.
//!
//! A filter is a sine over its argument, under a window. Sines, cosines, square
//! roots and exponentials are given; at which arguments they are wanted, and what
//! is made of them, is told here.
use crate::float;
use crate::float::{Format, F64};
use crate::resample;
use crate::resample::{FilterShape, FilterTable, FilterType};
use vstd::arithmetic::div_mod::*;
use vstd::prelude::*;

verus! {

// --- the modified Bessel function -----------------------------------------------------

/// Numerator of the approximation up to 15, in the square of the argument.
pub open spec fn near_upper() -> Seq<F64> {
    seq![
        F64 { bits: 0xc31f_bda3_3ba1_82b6 },
        F64 { bits: 0xc2ff_4ae2_14a8_8484 },
        F64 { bits: 0xc2bd_f576_38ce_8fc0 },
        F64 { bits: 0xc268_b769_c1ee_e488 },
        F64 { bits: 0xc206_3070_a3c7_e1c4 },
        F64 { bits: 0xc198_9698_ac59_7a18 },
        F64 { bits: 0xc122_2c00_8538_bc2b },
        F64 { bits: 0xc0a2_d90a_0762_eece },
        F64 { bits: 0xc01c_5fc7_9279_e70c },
        F64 { bits: 0xbf8f_a655_c9ab_b197 },
        F64 { bits: 0xbefa_653a_f846_d843 },
        F64 { bits: 0xbe60_6241_7357_5d24 },
        F64 { bits: 0xbdbd_83c2_51e3_fb89 },
        F64 { bits: 0xbd11_fe90_2e4c_85f5 },
        F64 { bits: 0xbc58_34ac_6df8_a5d9 },
    ]
}

fn near_upper_exec() -> (r: Vec<F64>)
    ensures
        r@ == near_upper(),
{
    vec![
        F64 { bits: 0xc31f_bda3_3ba1_82b6 },
        F64 { bits: 0xc2ff_4ae2_14a8_8484 },
        F64 { bits: 0xc2bd_f576_38ce_8fc0 },
        F64 { bits: 0xc268_b769_c1ee_e488 },
        F64 { bits: 0xc206_3070_a3c7_e1c4 },
        F64 { bits: 0xc198_9698_ac59_7a18 },
        F64 { bits: 0xc122_2c00_8538_bc2b },
        F64 { bits: 0xc0a2_d90a_0762_eece },
        F64 { bits: 0xc01c_5fc7_9279_e70c },
        F64 { bits: 0xbf8f_a655_c9ab_b197 },
        F64 { bits: 0xbefa_653a_f846_d843 },
        F64 { bits: 0xbe60_6241_7357_5d24 },
        F64 { bits: 0xbdbd_83c2_51e3_fb89 },
        F64 { bits: 0xbd11_fe90_2e4c_85f5 },
        F64 { bits: 0xbc58_34ac_6df8_a5d9 },
    ]
}

/// Its denominator.
pub open spec fn near_lower() -> Seq<F64> {
    seq![
        F64 { bits: 0xc31f_bda3_3ba1_82b6 },
        F64 { bits: 0x429c_b049_be3f_8c67 },
        F64 { bits: 0xc206_bcc8_882e_78ca },
        F64 { bits: 0x4163_caef_21db_a530 },
        F64 { bits: 0xc0b2_f4c1_8a65_3933 },
        F64 { bits: 0x3ff0_0000_0000_0000 },
    ]
}

fn near_lower_exec() -> (r: Vec<F64>)
    ensures
        r@ == near_lower(),
{
    vec![
        F64 { bits: 0xc31f_bda3_3ba1_82b6 },
        F64 { bits: 0x429c_b049_be3f_8c67 },
        F64 { bits: 0xc206_bcc8_882e_78ca },
        F64 { bits: 0x4163_caef_21db_a530 },
        F64 { bits: 0xc0b2_f4c1_8a65_3933 },
        F64 { bits: 0x3ff0_0000_0000_0000 },
    ]
}

/// Numerator of the approximation beyond 15, in the distance of the reciprocals of
/// the argument and of 15.
pub open spec fn far_upper() -> Seq<F64> {
    seq![
        F64 { bits: 0xbf2d_1c86_ffa1_268e },
        F64 { bits: 0x3f8a_c313_ab94_d944 },
        F64 { bits: 0xbfdc_9bc7_aeb1_77d8 },
        F64 { bits: 0x4016_4512_182a_0319 },
        F64 { bits: 0xc037_8498_1689_7026 },
        F64 { bits: 0x403f_9c7f_a6f9_9eb1 },
        F64 { bits: 0xc023_37cf_22cd_75c0 },
    ]
}

fn far_upper_exec() -> (r: Vec<F64>)
    ensures
        r@ == far_upper(),
{
    vec![
        F64 { bits: 0xbf2d_1c86_ffa1_268e },
        F64 { bits: 0x3f8a_c313_ab94_d944 },
        F64 { bits: 0xbfdc_9bc7_aeb1_77d8 },
        F64 { bits: 0x4016_4512_182a_0319 },
        F64 { bits: 0xc037_8498_1689_7026 },
        F64 { bits: 0x403f_9c7f_a6f9_9eb1 },
        F64 { bits: 0xc023_37cf_22cd_75c0 },
    ]
}

/// Its denominator.
pub open spec fn far_lower() -> Seq<F64> {
    seq![
        F64 { bits: 0xbf42_1609_3761_a9a1 },
        F64 { bits: 0x3fa0_aa17_8175_aea7 },
        F64 { bits: 0xbff1_d7c2_b44d_9e48 },
        F64 { bits: 0x402b_f716_bcfc_57ba },
        F64 { bits: 0xc04e_1d2f_2bf6_0aa2 },
        F64 { bits: 0x4055_6288_3454_d27b },
        F64 { bits: 0xc03f_725a_4b3b_25ef },
        F64 { bits: 0x3ff0_0000_0000_0000 },
    ]
}

fn far_lower_exec() -> (r: Vec<F64>)
    ensures
        r@ == far_lower(),
{
    vec![
        F64 { bits: 0xbf42_1609_3761_a9a1 },
        F64 { bits: 0x3fa0_aa17_8175_aea7 },
        F64 { bits: 0xbff1_d7c2_b44d_9e48 },
        F64 { bits: 0x402b_f716_bcfc_57ba },
        F64 { bits: 0xc04e_1d2f_2bf6_0aa2 },
        F64 { bits: 0x4055_6288_3454_d27b },
        F64 { bits: 0xc03f_725a_4b3b_25ef },
        F64 { bits: 0x3ff0_0000_0000_0000 },
    ]
}

/// The polynomial with the coefficients from `k` on, evaluated from its end.
pub open spec fn horner(c: Seq<F64>, x: F64, k: nat) -> F64
    decreases c.len() - k,
{
    if k + 1 >= c.len() {
        c[c.len() - 1]
    } else {
        horner(c, x, k + 1).s_times(x).s_plus(c[k as int])
    }
}

fn polynomial(c: &Vec<F64>, x: F64) -> (r: F64)
    requires
        c@.len() > 0,
    ensures
        r == horner(c@, x, 0),
{
    let mut k: usize = c.len() - 1;
    let mut sum: F64 = c[k];
    while k > 0
        invariant
            k < c@.len(),
            sum == horner(c@, x, k as nat),
        decreases k,
    {
        k = k - 1;
        sum = sum.times(x).plus(c[k]);
    }
    sum
}

pub open spec fn zero() -> F64 {
    F64 { bits: 0 }
}

pub open spec fn one() -> F64 {
    F64 { bits: 0x3ff0_0000_0000_0000 }
}

pub open spec fn fifteen() -> F64 {
    F64 { bits: 0x402e_0000_0000_0000 }
}

/// The modified Bessel function of the first kind, of order zero. `growth` is
/// `exp(x) / sqrt(x)` at the absolute value of `x`; up to 15 it has no part in it.
pub open spec fn bessel_value(x: F64, growth: F64) -> F64 {
    let a = x.s_abs();
    if x.s_same(zero()) {
        one()
    } else if a.s_less(fifteen()) || a.s_same(fifteen()) {
        let y = a.s_times(a);
        horner(near_upper(), y, 0).s_over(horner(near_lower(), y, 0))
    } else {
        let y = one().s_over(a).s_minus(one().s_over(fifteen()));
        growth.s_times(horner(far_upper(), y, 0).s_over(horner(far_lower(), y, 0)))
    }
}

/// [`bessel_value`].
pub fn bessel_i0(x: F64, growth: F64) -> (r: F64)
    ensures
        r == bessel_value(x, growth),
{
    if x.same(F64 { bits: 0 }) {
        return F64 { bits: 0x3ff0_0000_0000_0000 };
    }
    let a: F64 = x.absolute();
    let limit: F64 = F64 { bits: 0x402e_0000_0000_0000 };
    if a.less(limit) || a.same(limit) {
        let y: F64 = a.times(a);
        polynomial(&near_upper_exec(), y).over(polynomial(&near_lower_exec(), y))
    } else {
        let unit: F64 = F64 { bits: 0x3ff0_0000_0000_0000 };
        let y: F64 = unit.over(a).minus(unit.over(limit));
        growth.times(polynomial(&far_upper_exec(), y).over(polynomial(&far_lower_exec(), y)))
    }
}

/// The Bessel function is even.
pub proof fn lemma_bessel_even(x: F64, growth: F64)
    ensures
        bessel_value(x.s_neg(), growth) == bessel_value(x, growth),
{
    let f = Format::Binary64;
    let y = x.s_neg();
    reveal(float::eq_bits);
    assert(float::magnitude(f, y.bits) == float::magnitude(f, x.bits));
    assert(y.s_abs() == x.s_abs());
    assert(y.s_same(zero()) == x.s_same(zero()));
}

// --- where the elementary functions are wanted ----------------------------------------------

impl FilterShape {
    /// The numbers of a filter that can be listed.
    pub open spec fn listable(self) -> bool {
        &&& self.tap_count >= 1
        &&& self.phase_count >= 1
        &&& self.values() <= usize::MAX
    }

    /// Number of values that a table lists.
    pub open spec fn values(self) -> int {
        resample::listed(self.phase_count as int) * self.tap_count
    }

    /// The cutoff frequency; upsampling needs none.
    pub open spec fn cut(self) -> F64 {
        if one().s_less(self.factor) {
            one()
        } else {
            self.factor
        }
    }

    /// Nothing is cut off.
    pub open spec fn whole_band(self) -> bool {
        self.cut().s_same(one())
    }

    pub open spec fn center(self) -> int {
        (self.tap_count - 1) / 2
    }

    /// How far value `t` lies from the middle of the filter, in input samples.
    pub open spec fn offset(self, t: int) -> F64 {
        let tc = self.tap_count as int;
        F64::s_from_int(t % tc).s_minus(F64::s_from_int(self.center())).s_minus(
            F64::s_from_int(t / tc).s_over(F64::s_from_int(self.phase_count as int)),
        )
    }

    /// The argument of the sine at value `t`.
    pub open spec fn angle(self, t: int) -> F64 {
        pi().s_times(self.offset(t)).s_times(self.cut())
    }

    /// The argument of the sine at the middle tap of a phase, up to its sign.
    pub open spec fn turn(self, ph: int) -> F64 {
        pi().s_times(F64::s_from_int(ph)).s_over(F64::s_from_int(self.phase_count as int))
    }

    /// The argument of the cosine of a window at value `t`.
    pub open spec fn window_angle(self, t: int) -> F64 {
        two().s_times(self.angle(t)).s_over(
            self.cut().s_times(F64::s_from_int(self.tap_count as int)),
        )
    }

    /// What the root of a Kaiser window is taken of at value `t`.
    pub open spec fn radicand(self, t: int) -> F64 {
        let w = two().s_times(self.angle(t)).s_over(
            self.cut().s_times(F64::s_from_int(self.tap_count as int)).s_times(pi()),
        );
        one().s_minus(w.s_times(w)).s_max(zero())
    }

    /// Arguments of the sine: one for each phase if nothing is cut off, since
    /// the sines of a phase differ in their sign only; otherwise one for each value.
    pub open spec fn sine_arguments(self) -> Seq<F64> {
        if self.filter_type == FilterType::Cubic {
            Seq::empty()
        } else if self.whole_band() {
            Seq::new(
                resample::listed(self.phase_count as int) as nat,
                |ph: int| self.turn(ph),
            )
        } else {
            Seq::new(self.values() as nat, |t: int| self.angle(t))
        }
    }

    /// Arguments of the cosine.
    pub open spec fn cosine_arguments(self) -> Seq<F64> {
        if self.filter_type == FilterType::BlackmanNuttall {
            Seq::new(self.values() as nat, |t: int| self.window_angle(t))
        } else {
            Seq::empty()
        }
    }

    /// Arguments of the square root.
    pub open spec fn root_arguments(self) -> Seq<F64> {
        if self.filter_type == FilterType::Kaiser {
            Seq::new(self.values() as nat, |t: int| self.radicand(t))
        } else {
            Seq::empty()
        }
    }

    /// The argument of the Bessel function for a root.
    pub open spec fn bessel_argument(self, root: F64) -> F64 {
        self.kaiser_beta.s_times(root)
    }

    fn cut_exec(&self) -> (r: F64)
        ensures
            r == self.cut(),
    {
        if (F64 { bits: 0x3ff0_0000_0000_0000 }).less(self.factor) {
            F64 { bits: 0x3ff0_0000_0000_0000 }
        } else {
            self.factor
        }
    }

    fn listed_exec(&self) -> (r: usize)
        requires
            self.listable(),
        ensures
            r == resample::listed(self.phase_count as int),
            1 <= r <= i32::MAX,
    {
        proof {
            assert(resample::listed(self.phase_count as int) <= self.values()) by (nonlinear_arith)
                requires
                    self.values() == resample::listed(self.phase_count as int) * self.tap_count,
                    self.tap_count >= 1,
                    resample::listed(self.phase_count as int) >= 0,
            ;
        }
        if self.phase_count % 2 == 1 {
            self.phase_count as usize
        } else {
            (self.phase_count / 2 + 1) as usize
        }
    }

    fn values_exec(&self) -> (r: usize)
        requires
            self.listable(),
        ensures
            r == self.values(),
    {
        self.listed_exec() * self.tap_count as usize
    }

    fn offset_exec(&self, t: usize) -> (r: F64)
        requires
            self.listable(),
            t < self.values(),
        ensures
            r == self.offset(t as int),
    {
        let tc: usize = self.tap_count as usize;
        let i: i64 = (t % tc) as i64;
        let ph: usize = t / tc;
        proof {
            lemma_phase(*self, t as int);
        }
        F64::from_int(i).minus(F64::from_int((self.tap_count as i64 - 1) / 2)).minus(
            F64::from_int(ph as i64).over(F64::from_int(self.phase_count as i64)),
        )
    }

    fn angle_exec(&self, t: usize) -> (r: F64)
        requires
            self.listable(),
            t < self.values(),
        ensures
            r == self.angle(t as int),
    {
        let offset: F64 = self.offset_exec(t);
        (F64 { bits: 0x4009_21fb_5444_2d18 }).times(offset).times(self.cut_exec())
    }

    fn turn_exec(&self, ph: usize) -> (r: F64)
        requires
            ph <= i32::MAX,
        ensures
            r == self.turn(ph as int),
    {
        (F64 { bits: 0x4009_21fb_5444_2d18 }).times(F64::from_int(ph as i64)).over(
            F64::from_int(self.phase_count as i64),
        )
    }

    fn window_angle_exec(&self, t: usize) -> (r: F64)
        requires
            self.listable(),
            t < self.values(),
        ensures
            r == self.window_angle(t as int),
    {
        let x: F64 = self.angle_exec(t);
        let span: F64 = self.cut_exec().times(F64::from_int(self.tap_count as i64));
        (F64 { bits: 0x4000_0000_0000_0000 }).times(x).over(span)
    }

    fn radicand_exec(&self, t: usize) -> (r: F64)
        requires
            self.listable(),
            t < self.values(),
        ensures
            r == self.radicand(t as int),
    {
        let x: F64 = self.angle_exec(t);
        let span: F64 = self.cut_exec().times(F64::from_int(self.tap_count as i64));
        let w: F64 = (F64 { bits: 0x4000_0000_0000_0000 }).times(x).over(span.times(F64 { bits: 0x4009_21fb_5444_2d18 }));
        (F64 { bits: 0x3ff0_0000_0000_0000 }).minus(w.times(w)).larger(F64 { bits: 0 })
    }
}

pub open spec fn pi() -> F64 {
    F64 { bits: 0x4009_21fb_5444_2d18 }
}

pub open spec fn two() -> F64 {
    F64 { bits: 0x4000_0000_0000_0000 }
}

/// A value belongs to a listed phase.
proof fn lemma_phase(s: FilterShape, t: int)
    requires
        s.listable(),
        0 <= t < s.values(),
    ensures
        0 <= t / (s.tap_count as int) < resample::listed(s.phase_count as int),
        0 <= t % (s.tap_count as int) < s.tap_count,
        resample::listed(s.phase_count as int) <= i32::MAX,
{
    let tc = s.tap_count as int;
    let n = resample::listed(s.phase_count as int);
    lemma_fundamental_div_mod(t, tc);
    lemma_mod_bound(t, tc);
    lemma_div_pos_is_pos(t, tc);
    assert(t / tc < n) by (nonlinear_arith)
        requires
            t == tc * (t / tc) + t % tc,
            t % tc >= 0,
            t < n * tc,
            tc >= 1,
    ;
}

/// Where the elementary functions are wanted.
#[derive(Debug)]
pub struct FilterArguments {
    pub sines: Vec<F64>,
    pub cosines: Vec<F64>,
    pub roots: Vec<F64>,
}

/// The arguments at which the values of a filter want sines, cosines and square
/// roots.
pub fn filter_arguments(shape: &FilterShape) -> (r: FilterArguments)
    requires
        shape.listable(),
    ensures
        r.sines@ == shape.sine_arguments(),
        r.cosines@ == shape.cosine_arguments(),
        r.roots@ == shape.root_arguments(),
{
    let n: usize = shape.values_exec();
    let mut sines: Vec<F64> = Vec::new();
    let mut cosines: Vec<F64> = Vec::new();
    let mut roots: Vec<F64> = Vec::new();
    let whole: bool = shape.cut_exec().same(F64 { bits: 0x3ff0_0000_0000_0000 });
    let cubic: bool = shape.filter_type == FilterType::Cubic;
    if !cubic && whole {
        let phases: usize = shape.listed_exec();
        let mut ph: usize = 0;
        while ph < phases
            invariant
                phases == resample::listed(shape.phase_count as int),
                phases <= i32::MAX,
                ph <= phases,
                sines@ == Seq::new(ph as nat, |k: int| shape.turn(k)),
            decreases phases - ph,
        {
            sines.push(shape.turn_exec(ph));
            ph = ph + 1;
            assert(sines@ =~= Seq::new(ph as nat, |k: int| shape.turn(k)));
        }
    }
    let each: bool = !cubic && !whole;
    let nuttall: bool = shape.filter_type == FilterType::BlackmanNuttall;
    let kaiser: bool = shape.filter_type == FilterType::Kaiser;
    let ghost before = sines@;
    let mut t: usize = 0;
    while t < n
        invariant
            shape.listable(),
            n == shape.values(),
            t <= n,
            each ==> sines@ == Seq::new(t as nat, |k: int| shape.angle(k)),
            !each ==> sines@ == before,
            cosines@ == (if nuttall {
                Seq::new(t as nat, |k: int| shape.window_angle(k))
            } else {
                Seq::empty()
            }),
            roots@ == (if kaiser {
                Seq::new(t as nat, |k: int| shape.radicand(k))
            } else {
                Seq::empty()
            }),
        decreases n - t,
    {
        if each {
            sines.push(shape.angle_exec(t));
        }
        if nuttall {
            cosines.push(shape.window_angle_exec(t));
        }
        if kaiser {
            roots.push(shape.radicand_exec(t));
        }
        t = t + 1;
        assert(each ==> sines@ =~= Seq::new(t as nat, |k: int| shape.angle(k)));
        assert(nuttall ==> cosines@ =~= Seq::new(t as nat, |k: int| shape.window_angle(k)));
        assert(kaiser ==> roots@ =~= Seq::new(t as nat, |k: int| shape.radicand(k)));
    }
    FilterArguments { sines, cosines, roots }
}

/// The arguments, for these roots, at which `exp(x) / sqrt(x)` is wanted.
pub fn growth_arguments(shape: &FilterShape, roots: &Vec<F64>) -> (r: Vec<F64>)
    ensures
        r@ == Seq::new(roots@.len(), |t: int| shape.bessel_argument(roots@[t]).s_abs()),
{
    let mut r: Vec<F64> = Vec::new();
    let mut t: usize = 0;
    while t < roots.len()
        invariant
            t <= roots@.len(),
            r@ == Seq::new(t as nat, |k: int| shape.bessel_argument(roots@[k]).s_abs()),
        decreases roots@.len() - t,
    {
        r.push(shape.kaiser_beta.times(roots[t]).absolute());
        t = t + 1;
        assert(r@ =~= Seq::new(t as nat, |k: int| shape.bessel_argument(roots@[k]).s_abs()));
    }
    assert(r@ =~= Seq::new(roots@.len(), |k: int| shape.bessel_argument(roots@[k]).s_abs()));
    r
}

// --- what is made of them --------------------------------------------------------------------

/// The elementary functions at the arguments where they are wanted.
#[derive(Debug)]
pub struct FilterValues {
    pub sines: Vec<F64>,
    pub cosines: Vec<F64>,
    pub roots: Vec<F64>,
    /// `exp(x) / sqrt(x)`.
    pub growths: Vec<F64>,
}

impl FilterValues {
    /// As many values as a filter wants.
    pub open spec fn suffice(self, shape: FilterShape) -> bool {
        &&& self.sines@.len() == shape.sine_arguments().len()
        &&& self.cosines@.len() == shape.cosine_arguments().len()
        &&& self.roots@.len() == shape.root_arguments().len()
        &&& self.growths@.len() == self.roots@.len()
    }

    /// The sine at value `t`.
    pub open spec fn sine(self, shape: FilterShape, t: int) -> F64 {
        if shape.whole_band() {
            let s = self.sines@[t / (shape.tap_count as int)].s_times(
                if shape.center() % 2 == 1 {
                    one()
                } else {
                    one().s_neg()
                },
            );
            if t % (shape.tap_count as int) % 2 == 1 {
                s.s_neg()
            } else {
                s
            }
        } else {
            self.sines@[t]
        }
    }

    /// The sine over its argument at value `t`.
    pub open spec fn sinc(self, shape: FilterShape, t: int) -> F64 {
        let x = shape.angle(t);
        if x.s_same(zero()) {
            one()
        } else {
            self.sine(shape, t).s_over(x)
        }
    }

    /// Value `t` of the filter.
    pub open spec fn tap(self, shape: FilterShape, t: int) -> F64 {
        match shape.filter_type {
            FilterType::Cubic => cubic(shape.offset(t).s_times(shape.cut()).s_abs()),
            FilterType::BlackmanNuttall => self.sinc(shape, t).s_times(
                nuttall(self.cosines@[t].s_neg()),
            ),
            FilterType::Kaiser => self.sinc(shape, t).s_times(
                bessel_value(shape.bessel_argument(self.roots@[t]), self.growths@[t]),
            ),
        }
    }

    fn sinc_exec(&self, shape: &FilterShape, whole: bool, t: usize) -> (r: F64)
        requires
            shape.listable(),
            self.suffice(*shape),
            shape.filter_type != FilterType::Cubic,
            whole == shape.whole_band(),
            t < shape.values(),
        ensures
            r == self.sinc(*shape, t as int),
    {
        let x: F64 = shape.angle_exec(t);
        if x.same(F64 { bits: 0 }) {
            return F64 { bits: 0x3ff0_0000_0000_0000 };
        }
        let tc: usize = shape.tap_count as usize;
        proof {
            lemma_phase(*shape, t as int);
        }
        let s: F64 = if whole {
            let sign: F64 = if (tc - 1) / 2 % 2 == 1 {
                F64 { bits: 0x3ff0_0000_0000_0000 }
            } else {
                (F64 { bits: 0x3ff0_0000_0000_0000 }).negated()
            };
            let s: F64 = self.sines[t / tc].times(sign);
            if t % tc % 2 == 1 {
                s.negated()
            } else {
                s
            }
        } else {
            self.sines[t]
        };
        s.over(x)
    }
}

/// A cubic spline through the samples; `x` is the distance from the middle.
pub open spec fn cubic(x: F64) -> F64 {
    let sq = x.s_times(x);
    let cube = sq.s_times(x);
    if x.s_less(one()) {
        one().s_minus(three().s_times(x).s_times(x)).s_plus(
            two().s_times(x).s_times(x).s_times(x),
        ).s_plus(minus_half().s_times(x.s_neg().s_times(x).s_plus(cube)))
    } else {
        minus_half().s_times(
            four().s_neg().s_plus(eight().s_times(x)).s_minus(five().s_times(x).s_times(x)).s_plus(
                cube,
            ),
        )
    }
}

fn cubic_exec(x: F64) -> (r: F64)
    ensures
        r == cubic(x),
{
    let cube: F64 = x.times(x).times(x);
    let d: F64 = F64 { bits: 0xbfe0_0000_0000_0000 };
    if x.less(F64 { bits: 0x3ff0_0000_0000_0000 }) {
        (F64 { bits: 0x3ff0_0000_0000_0000 }).minus((F64 { bits: 0x4008_0000_0000_0000 }).times(x).times(x)).plus(
            (F64 { bits: 0x4000_0000_0000_0000 }).times(x).times(x).times(x),
        ).plus(d.times(x.negated().times(x).plus(cube)))
    } else {
        d.times(
            (F64 { bits: 0x4010_0000_0000_0000 }).negated().plus((F64 { bits: 0x4020_0000_0000_0000 }).times(x)).minus(
                (F64 { bits: 0x4014_0000_0000_0000 }).times(x).times(x),
            ).plus(cube),
        )
    }
}

/// A Blackman-Nuttall window; `t` is the cosine with its sign changed.
pub open spec fn nuttall(t: F64) -> F64 {
    (F64 { bits: 0x3fd7_44ed_047a_b904 }).s_minus(
        (F64 { bits: 0x3fdf_4eaf_251c_193b }).s_times(t),
    ).s_plus(
        (F64 { bits: 0x3fc1_7c17_a893_31a1 }).s_times(two().s_times(t).s_times(t).s_minus(one())),
    ).s_minus(
        (F64 { bits: 0x3f85_cb00_43f2_9e18 }).s_times(
            four().s_times(t).s_times(t).s_times(t).s_minus(three().s_times(t)),
        ),
    )
}

fn nuttall_exec(t: F64) -> (r: F64)
    ensures
        r == nuttall(t),
{
    let first: F64 = (F64 { bits: 0x3fdf_4eaf_251c_193b }).times(t);
    let second: F64 = (F64 { bits: 0x3fc1_7c17_a893_31a1 }).times(
        (F64 { bits: 0x4000_0000_0000_0000 }).times(t).times(t).minus(F64 { bits: 0x3ff0_0000_0000_0000 }),
    );
    let third: F64 = (F64 { bits: 0x3f85_cb00_43f2_9e18 }).times(
        (F64 { bits: 0x4010_0000_0000_0000 }).times(t).times(t).times(t).minus(
            (F64 { bits: 0x4008_0000_0000_0000 }).times(t),
        ),
    );
    (F64 { bits: 0x3fd7_44ed_047a_b904 }).minus(first).plus(second).minus(third)
}

pub open spec fn three() -> F64 {
    F64 { bits: 0x4008_0000_0000_0000 }
}

pub open spec fn four() -> F64 {
    F64 { bits: 0x4010_0000_0000_0000 }
}

pub open spec fn five() -> F64 {
    F64 { bits: 0x4014_0000_0000_0000 }
}

pub open spec fn eight() -> F64 {
    F64 { bits: 0x4020_0000_0000_0000 }
}

pub open spec fn minus_half() -> F64 {
    F64 { bits: 0xbfe0_0000_0000_0000 }
}

/// The values of a filter. There have to be as many values of the elementary
/// functions as it wants.
pub fn filter_table(shape: FilterShape, values: &FilterValues) -> (r: Option<FilterTable>)
    requires
        shape.listable(),
    ensures
        r.is_some() == values.suffice(shape),
        r matches Some(table) ==> {
            &&& table.describes(shape)
            &&& table.taps@ == Seq::new(shape.values() as nat, |t: int| values.tap(shape, t))
        },
{
    let n: usize = shape.values_exec();
    let phases: usize = shape.listed_exec();
    let whole: bool = shape.cut_exec().same(F64 { bits: 0x3ff0_0000_0000_0000 });
    let (sines, cosines, roots): (usize, usize, usize) = match shape.filter_type {
        FilterType::Cubic => (0, 0, 0),
        FilterType::BlackmanNuttall => (
            if whole {
                phases
            } else {
                n
            },
            n,
            0,
        ),
        FilterType::Kaiser => (
            if whole {
                phases
            } else {
                n
            },
            0,
            n,
        ),
    };
    if values.sines.len() != sines || values.cosines.len() != cosines || values.roots.len() != roots
        || values.growths.len() != roots {
        return None;
    }
    assert(values.suffice(shape));
    let mut taps: Vec<F64> = Vec::new();
    let mut t: usize = 0;
    while t < n
        invariant
            shape.listable(),
            values.suffice(shape),
            whole == shape.whole_band(),
            n == shape.values(),
            t <= n,
            taps@ == Seq::new(t as nat, |k: int| values.tap(shape, k)),
        decreases n - t,
    {
        let y: F64 = match shape.filter_type {
            FilterType::Cubic => {
                let x: F64 = shape.offset_exec(t).times(shape.cut_exec());
                cubic_exec(x.absolute())
            },
            FilterType::BlackmanNuttall => {
                values.sinc_exec(&shape, whole, t).times(nuttall_exec(values.cosines[t].negated()))
            },
            FilterType::Kaiser => {
                let x: F64 = shape.kaiser_beta.times(values.roots[t]);
                values.sinc_exec(&shape, whole, t).times(bessel_i0(x, values.growths[t]))
            },
        };
        taps.push(y);
        t = t + 1;
        assert(taps@ =~= Seq::new(t as nat, |k: int| values.tap(shape, k)));
    }
    Some(FilterTable { shape, taps })
}

} // verus!
