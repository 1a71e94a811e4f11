//! What the clock of a resampler and the corrections of a drift amount to.
use crate::audio::Planes;
use crate::convert;
use crate::mathematics;
use crate::resample;
use crate::resample::ResampleContext;
use crate::stream;
use crate::swr::SwrContext;
use vstd::arithmetic::div_mod::*;
use vstd::prelude::*;

verus! {

proof fn lemma_truncated(x: int, d: int)
    requires
        d > 0,
    ensures
        -d < mathematics::tdiv(x, d) * d - x < d,
        x >= 0 ==> mathematics::tdiv(x, d) * d <= x,
        x <= 0 ==> mathematics::tdiv(x, d) * d >= x,
{
    let m = if x >= 0 {
        x
    } else {
        -x
    };
    lemma_fundamental_div_mod(m, d);
    lemma_mod_bound(m, d);
    assert((m / d) * d == d * (m / d)) by (nonlinear_arith);
    assert((-(m / d)) * d == -(d * (m / d))) by (nonlinear_arith);
}

// --- the clock ------------------------------------------------------------------------

/// At its usual speed a resampler goes on by as many input samples as there are in a
/// second while it makes as many outputs as there are in a second.
pub proof fn lemma_second(r: ResampleContext, out_rate: int, in_rate: int, n: int)
    requires
        r.wf(),
        r.paced(out_rate, in_rate),
        r.dst_incr == r.ideal_dst_incr,
    ensures
        r.pos_at(n + out_rate) == r.pos_at(n) + in_rate,
        r.index_at(n + out_rate) == r.index_at(n),
        r.frac_at(n + out_rate) == r.frac_at(n),
{
    let (u, pc) = (r.src_incr as int, r.phase_count as int);
    let d = r.dst_incr as int;
    r.lemma_ticks(n);
    let p = in_rate * pc;
    assert((n + out_rate) * d == n * d + out_rate * d) by (nonlinear_arith);
    assert(r.ticks(n + out_rate) == r.ticks(n) + p * u) by (nonlinear_arith)
        requires
            r.ticks(n + out_rate) == r.ticks(n) + out_rate * d,
            out_rate * d == in_rate * pc * u,
            p == in_rate * pc,
    ;
    lemma_fundamental_div_mod(r.ticks(n), u);
    lemma_mod_bound(r.ticks(n), u);
    assert(r.ticks(n + out_rate) == (r.phases(n) + p) * u + r.frac_at(n)) by (nonlinear_arith)
        requires
            r.ticks(n + out_rate) == r.ticks(n) + p * u,
            r.ticks(n) == u * r.phases(n) + r.frac_at(n),
    ;
    lemma_fundamental_div_mod_converse(
        r.ticks(n + out_rate),
        u,
        r.phases(n) + p,
        r.frac_at(n),
    );
    lemma_fundamental_div_mod(r.phases(n), pc);
    lemma_mod_bound(r.phases(n), pc);
    assert(r.phases(n) + p == (r.pos_at(n) + in_rate) * pc + r.index_at(n)) by (nonlinear_arith)
        requires
            r.phases(n) == pc * r.pos_at(n) + r.index_at(n),
            p == in_rate * pc,
    ;
    lemma_fundamental_div_mod_converse(
        r.phases(n) + p,
        pc,
        r.pos_at(n) + in_rate,
        r.index_at(n),
    );
}

/// A change of the rate makes `delta` outputs more than usual of the same input: what
/// `distance` outputs use up is what usually makes `distance - delta` of them, to
/// within a tick for each.
pub proof fn lemma_skewed(r: ResampleContext, delta: int, distance: int)
    requires
        r.wf(),
        distance >= 1,
        -distance <= delta <= distance,
        delta >= 0 || 2 * r.ideal_dst_incr <= i32::MAX,
    ensures
        -distance < distance * r.skewed(delta, distance) - (distance - delta) * r.ideal_dst_incr
            < distance,
{
    let i = r.ideal_dst_incr as int;
    let x = i * delta;
    let q = mathematics::tquot(x, distance);
    lemma_truncated(x, distance);
    assert(q == mathematics::tdiv(x, distance));
    assert(-(i * distance) <= x <= i * distance) by (nonlinear_arith)
        requires
            x == i * delta,
            -distance <= delta <= distance,
            i >= 0,
    ;
    assert(delta >= 0 ==> x >= 0) by (nonlinear_arith)
        requires
            x == i * delta,
            i >= 0,
    ;
    assert(-i <= q <= i) by (nonlinear_arith)
        requires
            -(i * distance) <= x <= i * distance,
            x >= 0 ==> q * distance <= x,
            x <= 0 ==> q * distance >= x,
            -distance < q * distance - x < distance,
            distance >= 1,
            i >= 0,
    ;
    assert(delta >= 0 ==> q >= 0) by (nonlinear_arith)
        requires
            delta >= 0 ==> x >= 0,
            -distance < q * distance - x < distance,
            distance >= 1,
    ;
    let s = i - q;
    assert(distance * s == distance * i - q * distance) by (nonlinear_arith)
        requires
            s == i - q,
    ;
    assert((distance - delta) * i == distance * i - x) by (nonlinear_arith)
        requires
            x == i * delta,
    ;
}

/// Every output takes its time off what is pending.
pub proof fn lemma_pending_falls(r: ResampleContext, a: int, n: int)
    requires
        r.wf(),
        a >= 1,
    ensures
        r.moved(a).pending(n - r.pos_at(a)) == r.pending(n) - a * r.dst_incr,
{
    let (u, pc) = (r.src_incr as int, r.phase_count as int);
    let c = (r.filter_length - 1) / 2;
    r.lemma_ticks(a);
    let (p, i, f) = (r.pos_at(a), r.index_at(a), r.frac_at(a));
    assert(((n - p - c) * pc - i) * u - f == ((n - c) * pc) * u - ((p * pc + i) * u + f))
        by (nonlinear_arith);
    assert(((n - c) * pc - r.index) * u - r.frac == ((n - c) * pc) * u - (r.index * u + r.frac))
        by (nonlinear_arith);
}

// --- delays ---------------------------------------------------------------------------

/// Without a resampler the delay is the time that the waiting samples take, to the
/// nearest unit.
pub proof fn lemma_delay_waits(c: SwrContext, base: int)
    requires
        c.resample is None,
        c.options.in_sample_rate > 0,
        base >= 0,
    ensures
        ({
            let rate = c.options.in_sample_rate as int;
            -rate <= 2 * (c.delay(base) * rate - c.in_buffer_count * base) <= rate
        }),
{
    let rate = c.options.in_sample_rate as int;
    let n = c.in_buffer_count * base;
    assert(n >= 0) by (nonlinear_arith)
        requires
            n == c.in_buffer_count * base,
            base >= 0,
    ;
    let x = n + rate / 2;
    lemma_fundamental_div_mod(x, rate);
    lemma_mod_bound(x, rate);
    assert((x / rate) * rate == rate * (x / rate)) by (nonlinear_arith);
}

/// With a resampler it is the time that is pending in its clock, to the nearest unit.
pub proof fn lemma_delay_pends(c: SwrContext, base: int)
    requires
        c.resample is Some,
        c.delay_known(base),
        base >= 0,
        c.resample->0.pending(c.in_buffer_count as int) > i64::MIN,
        i64::MIN < c.delay(base),
    ensures
        ({
            let r = c.resample->0;
            let unit = c.options.in_sample_rate * r.src_incr * r.phase_count;
            -unit <= 2 * (c.delay(base) * unit - r.pending(c.in_buffer_count as int) * base) <= unit
        }),
{
    let r = c.resample->0;
    let rate = c.options.in_sample_rate as int;
    let unit = rate * r.src_incr * r.phase_count;
    assert(unit > 0) by (nonlinear_arith)
        requires
            unit == rate * r.src_incr * r.phase_count,
            rate > 0,
            r.src_incr > 0,
            r.phase_count > 0,
    ;
    mathematics::lemma_rescaled(r.pending(c.in_buffer_count as int), base, unit);
}

// --- drifts ---------------------------------------------------------------------------

/// Silence makes up for all of a drift but less than an input sample, which takes as
/// many ticks as there are outputs in a second; dropping, for all but less than an
/// output, which takes as many as there are inputs in a second.
pub proof fn lemma_drift_made_up(c: SwrContext, pts: int)
    requires
        c.options.in_sample_rate > 0,
        c.options.out_sample_rate > 0,
    ensures
        ({
            let (i, o) = (c.options.in_sample_rate as int, c.options.out_sample_rate as int);
            let d = c.drift(pts);
            &&& 0 <= d < 0x8000_0000 * o ==> 0 <= d - c.silence_for(pts) * o < o
            &&& 0 <= -d < 0x8000_0000 * i ==> 0 <= -d - c.drop_for(pts) * i < i
        }),
{
    let (i, o) = (c.options.in_sample_rate as int, c.options.out_sample_rate as int);
    let d = c.drift(pts);
    if 0 <= d < 0x8000_0000 * o {
        let q = d / o;
        lemma_fundamental_div_mod(d, o);
        lemma_mod_bound(d, o);
        lemma_div_pos_is_pos(d, o);
        assert(o * q == q * o) by (nonlinear_arith);
        assert(q < 0x8000_0000) by (nonlinear_arith)
            requires
                q * o <= d,
                d < 0x8000_0000 * o,
                o > 0,
        ;
    }
    if 0 <= -d < 0x8000_0000 * i {
        let q = (-d) / i;
        lemma_fundamental_div_mod(-d, i);
        lemma_mod_bound(-d, i);
        lemma_div_pos_is_pos(-d, i);
        assert(i * q == q * i) by (nonlinear_arith);
        assert(q < 0x8000_0000) by (nonlinear_arith)
            requires
                q * i <= -d,
                -d < 0x8000_0000 * i,
                i > 0,
        ;
    }
}

/// What is dropped counts for its time: the drift that `n` dropped outputs leave is the
/// one without them and `n` outputs' time.
pub proof fn lemma_dropped_counts(c: SwrContext, pts: int, n: int)
    requires
        i32::MIN <= c.drop_output + n <= i32::MAX,
    ensures
        ({
            let q = SwrContext { drop_output: (c.drop_output + n) as i32, ..c };
            q.drift(pts) == c.drift(pts) + n * c.options.in_sample_rate
        }),
{
    let q = SwrContext { drop_output: (c.drop_output + n) as i32, ..c };
    assert((c.drop_output + n) * c.options.in_sample_rate == c.drop_output
        * c.options.in_sample_rate + n * c.options.in_sample_rate) by (nonlinear_arith);
    assert(q.delay(q.pts_base()) == c.delay(c.pts_base()));
}

/// The outputs of a second take the timestamp on by a second.
pub proof fn lemma_pts_second(c: SwrContext)
    requires
        c.drop_output == 0,
        c.options.out_sample_rate > 0,
        i64::MIN <= c.outpts + c.pts_base() <= i64::MAX,
    ensures
        c.pts_after(c.options.out_sample_rate as int) == c.outpts + c.options.in_sample_rate
            * c.options.out_sample_rate,
{
    assert(c.options.out_sample_rate * c.options.in_sample_rate == c.options.in_sample_rate
        * c.options.out_sample_rate) by (nonlinear_arith);
}

// --- the ends of a sound --------------------------------------------------------------

/// Behind its end a sound goes on as its own mirror image, from its last sample on.
pub proof fn lemma_end_mirrored(p: Planes, m: int, c: int, j: int)
    requires
        0 <= c < p.len(),
        0 <= j < m <= p[c].len(),
    ensures
        ({
            let q = convert::planes_ended(p, m);
            let n = p[c].len() as int;
            &&& q[c].len() == n + m
            &&& q[c][n + j] == q[c][n - 1 - j]
            &&& forall|k: int| 0 <= k < n ==> #[trigger] q[c][k] == p[c][k]
        }),
{
}

/// The same in a buffer.
pub proof fn lemma_reflected(p: Planes, end: int, m: int, c: int, j: int)
    requires
        0 <= c < p.len(),
        0 <= j < m <= end,
        end + m <= p[c].len(),
    ensures
        ({
            let q = resample::planes_reflect(p, end, m);
            &&& q[c].len() == p[c].len()
            &&& q[c][end + j] == q[c][end - 1 - j]
            &&& forall|k: int| 0 <= k < end || end + m <= k < p[c].len() ==> #[trigger] q[c][k]
                == p[c][k]
        }),
{
}

/// Before its start it is its own mirror image about its first sample.
pub proof fn lemma_start_mirrored(p: Planes, lead: int, c: int, j: int)
    requires
        0 <= c < p.len(),
        0 <= j <= lead < p[c].len(),
    ensures
        ({
            let q = stream::planes_primed(p, lead);
            &&& q[c].len() == lead + p[c].len()
            &&& q[c][lead - j] == q[c][lead + j]
            &&& forall|k: int| 0 <= k < p[c].len() ==> p[c][k] == #[trigger] q[c][lead + k]
        }),
{
}

/// The same in a buffer.
pub proof fn lemma_inverted(p: Planes, fl: int, c: int, j: int)
    requires
        0 <= c < p.len(),
        0 <= j <= fl,
        2 * fl < p[c].len(),
    ensures
        ({
            let q = resample::planes_invert(p, fl);
            &&& q[c].len() == p[c].len()
            &&& q[c][fl - j] == q[c][fl + j]
            &&& forall|k: int| fl <= k < p[c].len() ==> #[trigger] q[c][k] == p[c][k]
        }),
{
}

/// The mirror image behind the end is half as long as the filter, or as the sound where
/// that is shorter, rounded up.
pub proof fn lemma_reflection(r: ResampleContext, n: int)
    requires
        n >= 0,
        r.filter_length >= 1,
    ensures
        ({
            let m = r.reflection(n);
            &&& n <= 2 * m <= n + 1 || r.filter_length <= 2 * m <= r.filter_length + 1
            &&& 2 * m <= n + 1
            &&& 2 * m <= r.filter_length + 1
        }),
{
}

} // verus!
