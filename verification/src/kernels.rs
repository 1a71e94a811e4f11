//! What the kernels of scaling are made of.
use crate::float;
use crate::float::{Format, F64};
use crate::loudness;
use crate::loudness::{finite, tiny, worth};
use crate::nearness;
use crate::nearness::{one, size};
use crate::scalefilter;
use crate::scalefilter::TableScaler;
use vstd::arithmetic::power2::*;
use vstd::prelude::*;

verus! {

/// The unit of errors.
pub open spec fn speck() -> int {
    pow2(4051) as int
}

proof fn lemma_speck()
    ensures
        one() == 0x2000_0000_0000 * speck(),
        speck() > 0,
        0 < tiny(Format::Binary64) < one(),
        one() * 0x1_0000_0000_0000_0000 < pow2(4196),
        pow2(53) == 0x20_0000_0000_0000,
{
    loudness::lemma_tiny();
    lemma2_to64_rest();
    lemma_pow2_adds(45, 4051);
    lemma_pow2_pos(4051);
}

/// A product of at most `k`.
proof fn lemma_product_within(a: F64, b: F64, k: int)
    requires
        finite(a),
        finite(b),
        1 <= k <= 0x1000,
        size(worth(a) * worth(b)) <= k * (one() * one()),
    ensures
        finite(a.s_times(b)),
        256 * size(worth(a.s_times(b)) * one() - worth(a) * worth(b)) <= (k + 1) * (speck() * one()),
{
    lemma_speck();
    let f = Format::Binary64;
    let (u, e) = (one(), speck());
    let n = worth(a) * worth(b);
    let top = pow2(4196) as int;
    assert(k * (u * u) < u * top) by (nonlinear_arith)
        requires
            1 <= k <= 0x1000,
            u > 0,
            u * 0x1_0000_0000_0000_0000 < top,
    ;
    nearness::lemma_product(f, a.bits, b.bits);
    let r = worth(a.s_times(b));
    let t = tiny(f);
    assert(u * t <= u * u) by (nonlinear_arith)
        requires
            0 < t < u,
    ;
    let err = size(r * u - n);
    assert((k + 1) * (u * u) == k * (u * u) + u * u) by (nonlinear_arith);
    assert((k + 1) * (e * u) * 0x2000_0000_0000 == (k + 1) * (u * u)) by (nonlinear_arith)
        requires
            u == 0x2000_0000_0000 * e,
    ;
    assert(err * 0x20_0000_0000_0000 <= (k + 1) * (u * u));
}

/// A quotient of numbers of at most 400.
proof fn lemma_quotient_within(a: F64, b: F64)
    requires
        finite(a),
        finite(b),
        size(worth(a)) <= 400 * one(),
        one() <= 0x1_0000_0000 * worth(b),
        worth(b) <= 400 * one(),
    ensures
        finite(a.s_over(b)),
        size(worth(a.s_over(b)) * worth(b) - worth(a) * one()) <= 4 * (speck() * one()),
{
    lemma_speck();
    let f = Format::Binary64;
    let (u, e) = (one(), speck());
    let (x, y) = (worth(a), worth(b));
    let top = pow2(4196) as int;
    assert(size(x) * u < y * top) by (nonlinear_arith)
        requires
            0 <= size(x) <= 400 * u,
            u <= 0x1_0000_0000 * y,
            u > 0,
            u * 0x1_0000_0000_0000_0000 < top,
    ;
    nearness::lemma_quotient(f, a.bits, b.bits);
    let r = worth(a.s_over(b));
    let t = tiny(f);
    assert(size(x * u) <= 400 * (u * u)) by (nonlinear_arith)
        requires
            -400 * u <= x <= 400 * u,
            u > 0,
    ;
    assert(y * t <= 400 * (u * u)) by (nonlinear_arith)
        requires
            0 < y <= 400 * u,
            0 < t < u,
    ;
    let err = size(r * y - x * u);
    assert(err * 0x20_0000_0000_0000 <= 800 * (u * u));
    assert((e * u) * 0x2000_0000_0000 == u * u) by (nonlinear_arith)
        requires
            u == 0x2000_0000_0000 * e,
    ;
}

/// The number pi, to nine digits.
proof fn lemma_pi()
    ensures
        finite(scalefilter::f64_pi()),
        3141592653 * one() < 1000000000 * worth(scalefilter::f64_pi()) < 3141592654 * one(),
{
    let f = Format::Binary64;
    lemma2_to64_rest();
    lemma_pow2_adds(51, 4045);
    lemma_pow2_pos(4045);
    assert(nearness::mag_value(f, 0x4009_21fb_5444_2d18) == 0x19_21fb_5444_2d18 * pow2(4045)) by {
        assert(0x4009_21fb_5444_2d18int / 0x10_0000_0000_0000 == 1024 && 0x4009_21fb_5444_2d18int
            % 0x10_0000_0000_0000 == 0x9_21fb_5444_2d18);
        assert(float::mag_expo(f, 0x4009_21fb_5444_2d18) == -51);
        assert(float::mag_mant(f, 0x4009_21fb_5444_2d18) == 0x19_21fb_5444_2d18);
    }
}

/// Of a distance `2^30` units are a pixel.
pub proof fn lemma_in_pixels(d: int)
    requires
        0 <= d <= 0x2_0000_0000,
    ensures
        finite(scalefilter::in_pixels(d)),
        size(0x4000_0000 * worth(scalefilter::in_pixels(d)) - d * one()) * 0x1_0000 <= one(),
{
    lemma_speck();
    let f = Format::Binary64;
    let u = one();
    lemma2_to64();
    lemma2_to64_rest();
    lemma_pow2_adds(30, 4066);
    lemma_pow2_adds(52, 4014);
    let k = pow2(4066) as int;
    assert(worth(scalefilter::tiny()) == k && finite(scalefilter::tiny())) by {
        assert(0x3e10_0000_0000_0000int / 0x10_0000_0000_0000 == 993 && 0x3e10_0000_0000_0000int
            % 0x10_0000_0000_0000 == 0);
        assert(float::mag_expo(f, 0x3e10_0000_0000_0000) == -82);
        assert(float::mag_mant(f, 0x3e10_0000_0000_0000) == 0x10_0000_0000_0000);
    }
    assert(u == 0x4000_0000 * k);
    nearness::lemma_integer(f, d);
    let n = d * k;
    assert(d * u * k == n * u) by (nonlinear_arith)
        requires
            n == d * k,
    ;
    assert(0 <= n <= 8 * u && d * u == 0x4000_0000 * n) by (nonlinear_arith)
        requires
            n == d * k,
            0 <= d <= 0x2_0000_0000,
            u == 0x4000_0000 * k,
            u > 0,
    ;
    let top = pow2(4196) as int;
    assert(0 <= n * u < u * top) by (nonlinear_arith)
        requires
            0 <= n <= 8 * u,
            u > 0,
            u * 0x1_0000_0000_0000_0000 < top,
    ;
    nearness::lemma_product(f, F64::s_from_int(d).bits, scalefilter::tiny().bits);
    let x = worth(scalefilter::in_pixels(d));
    nearness::lemma_near_scaled(f, x, n, 1, u);
    let t = tiny(f);
    assert(1 * u == u && x * 1 == x && 1 * t == t);
    assert(size(x - n) * 0x20_0000_0000_0000 <= 9 * u);
}

/// The Gaussian kernel is two to the power of minus three times the square of the
/// distance.
pub proof fn lemma_gauss(d: int)
    requires
        0 <= d <= 0x1_c000_0000,
    ensures
        ({
            let x = worth(scalefilter::in_pixels(d));
            let a = scalefilter::wanted_at(TableScaler::Gauss, d).0;
            &&& finite(a)
            &&& size(worth(a) * one() + 3 * (x * x)) <= 10 * (speck() * one())
        }),
        forall|a: F64, b: F64| scalefilter::weight_of(TableScaler::Gauss, d, a, b) == a,
{
    lemma_speck();
    lemma_in_pixels(d);
    let f = Format::Binary64;
    let (u, e) = (one(), speck());
    let fx = scalefilter::in_pixels(d);
    let x = worth(fx);
    assert(d * u <= 0x1_c000_0000 * u && d * u >= 0) by (nonlinear_arith)
        requires
            0 <= d <= 0x1_c000_0000,
            u > 0,
    ;
    assert(-u <= x <= 8 * u);
    nearness::lemma_integer(f, -3);
    let three = F64::s_from_int(-3);
    let n = (-3 * u) * x;
    assert(n == -3 * (u * x) && size(u * x) <= 8 * (u * u)) by (nonlinear_arith)
        requires
            n == (-3 * u) * x,
            -u <= x <= 8 * u,
            u > 0,
    ;
    lemma_product_within(three, fx, 24);
    let fp = three.s_times(fx);
    let p = worth(fp);
    let g = p + 3 * x;
    assert(g * u == p * u - n) by (nonlinear_arith)
        requires
            g == p + 3 * x,
            n == -3 * (u * x),
    ;
    assert(e * u > 0) by (nonlinear_arith)
        requires
            e > 0,
            u > 0,
    ;
    assert(size(g * u) <= e * u);
    assert(size(g) <= e) by (nonlinear_arith)
        requires
            size(g * u) <= e * u,
            u > 0,
    ;
    assert(size(p * x) <= 200 * (u * u)) by (nonlinear_arith)
        requires
            -25 * u <= p <= 25 * u,
            -8 * u <= x <= 8 * u,
            u > 0,
    ;
    lemma_product_within(fp, fx, 200);
    assert(p * x + 3 * (x * x) == g * x) by (nonlinear_arith)
        requires
            g == p + 3 * x,
    ;
    assert(size(g * x) <= 8 * (e * u)) by (nonlinear_arith)
        requires
            -e <= g <= e,
            -8 * u <= x <= 8 * u,
            e > 0,
            u > 0,
    ;
}

/// The sinc kernel is the sine of pi times the distance, over that.
pub proof fn lemma_sinc(d: int, a: F64, b: F64)
    requires
        0x1_0000 <= d <= 0x1_c000_0000,
        finite(a),
        size(worth(a)) <= 2 * one(),
    ensures
        ({
            let x = worth(scalefilter::in_pixels(d));
            let t = scalefilter::wanted_at(TableScaler::Sinc, d).0;
            let w = scalefilter::weight_of(TableScaler::Sinc, d, a, b);
            &&& finite(t)
            &&& size(worth(t) * one() - x * worth(scalefilter::f64_pi())) <= speck() * one()
            &&& size(worth(w) * worth(t) - worth(a) * one()) <= 4 * (speck() * one())
        }),
{
    lemma_speck();
    lemma_turn(d);
    let t = scalefilter::in_pixels(d).s_times(scalefilter::f64_pi());
    lemma_quotient_within(a, t);
}

/// The distance times pi.
proof fn lemma_turn(d: int)
    requires
        0x1_0000 <= d <= 0x1_c000_0000,
    ensures
        ({
            let u = one();
            let x = worth(scalefilter::in_pixels(d));
            let t = scalefilter::in_pixels(d).s_times(scalefilter::f64_pi());
            &&& finite(scalefilter::in_pixels(d))
            &&& finite(scalefilter::f64_pi())
            &&& 3 * u <= worth(scalefilter::f64_pi()) <= 4 * u
            &&& u <= 0x8000 * x
            &&& x <= 8 * u
            &&& finite(t)
            &&& size(worth(t) * u - x * worth(scalefilter::f64_pi())) <= speck() * u
            &&& u <= 0x8000 * worth(t)
            &&& worth(t) <= 33 * u
        }),
{
    lemma_speck();
    lemma_in_pixels(d);
    lemma_pi();
    let (u, e) = (one(), speck());
    let x = worth(scalefilter::in_pixels(d));
    let p = worth(scalefilter::f64_pi());
    assert(0x1_0000 * u <= d * u <= 0x1_c000_0000 * u) by (nonlinear_arith)
        requires
            0x1_0000 <= d <= 0x1_c000_0000,
            u > 0,
    ;
    assert(u <= 0x8000 * x && x <= 8 * u);
    assert(0 <= x * p <= 32 * (u * u) && 3 * (x * u) <= x * p) by (nonlinear_arith)
        requires
            0 <= x <= 8 * u,
            3 * u <= p <= 4 * u,
            u > 0,
    ;
    lemma_product_within(scalefilter::in_pixels(d), scalefilter::f64_pi(), 32);
    let t = worth(scalefilter::in_pixels(d).s_times(scalefilter::f64_pi()));
    assert(e * u > 0) by (nonlinear_arith)
        requires
            e > 0,
            u > 0,
    ;
    assert((e * u) * 0x2000_0000_0000 == u * u) by (nonlinear_arith)
        requires
            u == 0x2000_0000_0000 * e,
    ;
    assert(x * u * 0x8000 >= u * u) by (nonlinear_arith)
        requires
            u <= 0x8000 * x,
            u > 0,
    ;
    assert(u <= 0x8000 * t) by (nonlinear_arith)
        requires
            0x8000 * (t * u) >= u * u,
            u > 0,
    ;
    assert(t <= 33 * u) by (nonlinear_arith)
        requires
            t * u <= 33 * (u * u),
            u > 0,
    ;
}

/// A number, three times which is another one.
proof fn lemma_third(a: F64)
    requires
        finite(a),
        size(worth(a)) <= 400 * one(),
    ensures
        finite(a.s_over(F64::s_from_int(3))),
        size(3 * worth(a.s_over(F64::s_from_int(3))) - worth(a)) <= 4 * speck(),
{
    lemma_speck();
    let f = Format::Binary64;
    let (u, e) = (one(), speck());
    nearness::lemma_integer(f, 3);
    let three = F64::s_from_int(3);
    lemma_quotient_within(a, three);
    let (r, x) = (worth(a.s_over(three)), worth(a));
    let g = 3 * r - x;
    assert(g * u == r * (3 * u) - x * u) by (nonlinear_arith)
        requires
            g == 3 * r - x,
    ;
    assert(size(g) <= 4 * e) by (nonlinear_arith)
        requires
            size(g * u) <= 4 * (e * u),
            u > 0,
    ;
}

/// A product, in units.
proof fn lemma_product_near(a: F64, b: F64, k: int) -> (g: int)
    requires
        finite(a),
        finite(b),
        1 <= k <= 255,
        size(worth(a) * worth(b)) <= k * (one() * one()),
    ensures
        finite(a.s_times(b)),
        g == worth(a.s_times(b)) * one() - worth(a) * worth(b),
        size(g) <= speck() * one(),
        size(worth(a.s_times(b))) <= (k + 1) * one(),
{
    lemma_speck();
    let (u, e) = (one(), speck());
    lemma_product_within(a, b, k);
    let r = worth(a.s_times(b));
    let g = r * u - worth(a) * worth(b);
    assert((k + 1) * (e * u) <= 256 * (e * u)) by (nonlinear_arith)
        requires
            k <= 255,
            e > 0,
            u > 0,
    ;
    assert(e * u <= u * u) by (nonlinear_arith)
        requires
            u == 0x2000_0000_0000 * e,
            e > 0,
    ;
    let bound = (k + 1) * u;
    assert(size(r) <= bound) by (nonlinear_arith)
        requires
            size(r * u) <= k * (u * u) + u * u,
            bound == (k + 1) * u,
            u > 0,
    ;
    g
}

/// The Lanczos kernel is the product of the sines of pi times the distance and of a
/// third of that, over the product of the two; it ends at three pixels.
pub proof fn lemma_lanczos(d: int, a: F64, b: F64)
    requires
        0x40_0000 <= d <= 0xc000_0000,
        finite(a),
        finite(b),
        size(worth(a)) <= one(),
        size(worth(b)) <= one(),
    ensures
        ({
            let u = one();
            let x = worth(scalefilter::in_pixels(d));
            let (s, t) = scalefilter::wanted_at(TableScaler::Lanczos, d);
            let under = lanczos_under(d);
            &&& finite(s) && finite(t) && finite(under)
            &&& size(worth(s) * u - x * worth(scalefilter::f64_pi())) <= speck() * u
            &&& size(3 * worth(t) - worth(s)) <= 4 * speck()
            &&& size(worth(under) * u - worth(s) * worth(t)) * 0x10_0000 <= u * u
            &&& scalefilter::weight_of(TableScaler::Lanczos, d, a, b) == a.s_times(b).s_over(under)
        }),
{
    lemma_speck();
    let f = Format::Binary64;
    let (u, e) = (one(), speck());
    lemma_turn(d);
    lemma_in_pixels(d);
    let fx = scalefilter::in_pixels(d);
    let pi = scalefilter::f64_pi();
    let (x, p) = (worth(fx), worth(pi));
    assert(d * u <= 0xc000_0000 * u) by (nonlinear_arith)
        requires
            d <= 0xc000_0000,
            u > 0,
    ;
    assert(0 < x && 0x1_0000 * x <= 0x3_0001 * u);
    let fs = fx.s_times(pi);
    let s = worth(fs);
    lemma_third(fs);
    let t = worth(fs.s_over(F64::s_from_int(3)));
    // x x
    assert(0 <= x * x <= 10 * (u * u)) by (nonlinear_arith)
        requires
            0 < x,
            0x1_0000 * x <= 0x3_0001 * u,
    ;
    let g1 = lemma_product_near(fx, fx, 10);
    let fq = fx.s_times(fx);
    let q = worth(fq);
    // x x pi
    assert(size(q * p) <= 44 * (u * u)) by (nonlinear_arith)
        requires
            -11 * u <= q <= 11 * u,
            3 * u <= p <= 4 * u,
            u > 0,
    ;
    let g2 = lemma_product_near(fq, pi, 44);
    let fr = fq.s_times(pi);
    let r = worth(fr);
    assert(size(r * p) <= 180 * (u * u)) by (nonlinear_arith)
        requires
            -45 * u <= r <= 45 * u,
            3 * u <= p <= 4 * u,
            u > 0,
    ;
    let g3 = lemma_product_near(fr, pi, 180);
    let fv = fr.s_times(pi);
    let v = worth(fv);
    lemma_third(fv);
    let w = worth(fv.s_over(F64::s_from_int(3)));
    lemma_lanczos_sum(u, e, x, p, s, t, q, r, v, w, g1, g2, g3);
}

/// What the sines of the Lanczos kernel are divided by.
pub open spec fn lanczos_under(d: int) -> F64 {
    let x = scalefilter::in_pixels(d);
    x.s_times(x).s_times(scalefilter::f64_pi()).s_times(scalefilter::f64_pi()).s_over(
        F64::s_from_int(3),
    )
}

proof fn lemma_lanczos_sum(
    u: int,
    e: int,
    x: int,
    p: int,
    s: int,
    t: int,
    q: int,
    r: int,
    v: int,
    w: int,
    g1: int,
    g2: int,
    g3: int,
)
    requires
        e > 0,
        u == 0x2000_0000_0000 * e,
        0 < x <= 4 * u,
        3 * u <= p <= 4 * u,
        g1 == q * u - x * x,
        g2 == r * u - q * p,
        g3 == v * u - r * p,
        size(g1) <= e * u,
        size(g2) <= e * u,
        size(g3) <= e * u,
        size(s * u - x * p) <= e * u,
        size(3 * t - s) <= 4 * e,
        size(3 * w - v) <= 4 * e,
    ensures
        size(w * u - s * t) * 0x10_0000 <= u * u,
{
    let (eu, uu, pp) = (e * u, u * u, p * p);
    assert(eu > 0 && uu == 0x2000_0000_0000 * eu && 0 < pp <= 16 * uu) by (nonlinear_arith)
        requires
            eu == e * u,
            uu == u * u,
            pp == p * p,
            u == 0x2000_0000_0000 * e,
            e > 0,
            3 * u <= p <= 4 * u,
    ;
    // v u u u = x x p p + g1 p p + g2 p u + g3 u u
    let xp = x * p;
    let (h1, h2, h3) = (g1 * pp, g2 * (p * u), g3 * uu);
    let (rp, ru, qp, qu, pu) = (r * p, r * u, q * p, q * u, p * u);
    let vu = v * u;
    assert(vu * uu == rp * uu + h3) by (nonlinear_arith)
        requires
            vu == rp + g3,
            h3 == g3 * uu,
    ;
    assert(rp * uu == ru * pu) by (nonlinear_arith)
        requires
            rp == r * p,
            ru == r * u,
            pu == p * u,
            uu == u * u,
    ;
    assert(ru * pu == qp * pu + h2) by (nonlinear_arith)
        requires
            ru == qp + g2,
            h2 == g2 * pu,
    ;
    assert(qp * pu == qu * pp) by (nonlinear_arith)
        requires
            qp == q * p,
            pu == p * u,
            qu == q * u,
            pp == p * p,
    ;
    let xx = x * x;
    assert(qu * pp == xx * pp + h1) by (nonlinear_arith)
        requires
            qu == xx + g1,
            h1 == g1 * pp,
    ;
    assert(xx * pp == xp * xp) by (nonlinear_arith)
        requires
            xx == x * x,
            pp == p * p,
            xp == x * p,
    ;
    assert(v * u * uu == xp * xp + h1 + h2 + h3);
    let n = eu * uu;
    assert(size(h1) <= 16 * n) by (nonlinear_arith)
        requires
            h1 == g1 * pp,
            -eu <= g1 <= eu,
            0 < pp <= 16 * uu,
            n == eu * uu,
            eu > 0,
    ;
    assert(0 < p * u <= 4 * uu) by (nonlinear_arith)
        requires
            3 * u <= p <= 4 * u,
            uu == u * u,
            u > 0,
    ;
    assert(size(h2) <= 4 * n) by (nonlinear_arith)
        requires
            h2 == g2 * (p * u),
            -eu <= g2 <= eu,
            0 < p * u <= 4 * uu,
            n == eu * uu,
            eu > 0,
    ;
    assert(size(h3) <= n) by (nonlinear_arith)
        requires
            h3 == g3 * uu,
            -eu <= g3 <= eu,
            n == eu * uu,
            uu > 0,
    ;
    // s s u u = x x p p + ...
    let k = s * u - xp;
    let su = s * u;
    assert(su * su == xp * xp + k * (su + xp)) by (nonlinear_arith)
        requires
            k == su - xp,
    ;
    assert(0 < xp <= 16 * uu) by (nonlinear_arith)
        requires
            xp == x * p,
            0 < x <= 4 * u,
            3 * u <= p <= 4 * u,
            uu == u * u,
            u > 0,
    ;
    assert(size(k * (su + xp)) <= 33 * n) by (nonlinear_arith)
        requires
            -eu <= k <= eu,
            su == xp + k,
            0 < xp <= 16 * uu,
            eu <= uu,
            eu > 0,
            n == eu * uu,
    ;
    assert(-17 * uu <= su <= 17 * uu);
    assert(size(s) <= 17 * u) by (nonlinear_arith)
        requires
            -17 * uu <= s * u <= 17 * uu,
            uu == u * u,
            u > 0,
    ;
    // 3 (w u - s t) u u
    let z = w * u - s * t;
    let (b1, b2) = (3 * w - v, 3 * t - s);
    let (j1, j2) = (b1 * (u * uu), b2 * (s * uu));
    assert(3 * (z * uu) == v * u * uu + j1 - su * su - j2) by (nonlinear_arith)
        requires
            z == w * u - s * t,
            b1 == 3 * w - v,
            b2 == 3 * t - s,
            j1 == b1 * (u * uu),
            j2 == b2 * (s * uu),
            su == s * u,
            uu == u * u,
    ;
    assert(size(j1) <= 4 * n) by (nonlinear_arith)
        requires
            j1 == b1 * (u * uu),
            -4 * e <= b1 <= 4 * e,
            n == eu * uu,
            eu == e * u,
            u > 0,
            uu > 0,
    ;
    assert(size(s * uu) <= 17 * (u * uu)) by (nonlinear_arith)
        requires
            -17 * u <= s <= 17 * u,
            uu > 0,
    ;
    assert(size(j2) <= 68 * n) by (nonlinear_arith)
        requires
            j2 == b2 * (s * uu),
            -4 * e <= b2 <= 4 * e,
            -(17 * (u * uu)) <= s * uu <= 17 * (u * uu),
            n == eu * uu,
            eu == e * u,
            e > 0,
    ;
    assert(size(z * uu) <= 126 * n);
    assert(size(z) <= 126 * eu) by (nonlinear_arith)
        requires
            size(z * uu) <= 126 * n,
            n == eu * uu,
            uu > 0,
    ;
}

/// Beyond three pixels the Lanczos kernel is nothing.
pub proof fn lemma_lanczos_ends(d: int, x_inc: int, unit: int, w: F64)
    requires
        0xc010_0000 <= d <= 0x2_0000_0000,
    ensures
        scalefilter::kernel_value(TableScaler::Lanczos, d, x_inc, unit, w) == 0,
{
    lemma_speck();
    lemma_in_pixels(d);
    let f = Format::Binary64;
    nearness::lemma_integer(f, 3);
    let u = one();
    assert(d * u >= 0xc010_0000 * u) by (nonlinear_arith)
        requires
            d >= 0xc010_0000,
            u > 0,
    ;
    nearness::lemma_order(f, F64::s_from_int(3).bits, scalefilter::in_pixels(d).bits);
}

} // verus!
