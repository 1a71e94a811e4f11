//! What mixing makes of single channels.
use crate::arith;
use crate::arith::Arith;
use crate::audio::Planes;
use crate::float;
use crate::float::{Format, F64};
use crate::loudness;
use crate::nearness;
use crate::rematrix;
use crate::rematrix::{AnyFastPath, RematrixContext};
use crate::samplefmt::SampleFormat;
use vstd::prelude::*;

verus! {

/// Integer arithmetic.
pub open spec fn whole_numbers(a: Arith) -> bool {
    a != Arith::Flt && a != Arith::Dbl
}

/// All channels but `ch` are silent at instant `i`.
pub open spec fn alone(s: Planes, n: int, i: int, ch: int) -> bool {
    forall|t: int| 0 <= t < n && t != ch ==> (#[trigger] s[t])[i] == 0
}

proof fn lemma_used(row: Seq<F64>, n: nat, ch: int)
    requires
        n <= 64,
        0 <= ch < 64,
    ensures
        row[ch].s_same(F64 { bits: 0 }) || ch >= n ==> forall|k: int|
            0 <= k < rematrix::used_inputs(row, n).len() ==> #[trigger] rematrix::used_inputs(
                row,
                n,
            )[k] != ch,
        !row[ch].s_same(F64 { bits: 0 }) && ch < n ==> exists|k: int|
            0 <= k < rematrix::used_inputs(row, n).len() && #[trigger] rematrix::used_inputs(
                row,
                n,
            )[k] == ch,
        forall|k: int|
            0 <= k < rematrix::used_inputs(row, n).len() ==> #[trigger] rematrix::used_inputs(
                row,
                n,
            )[k] < n,
        forall|k: int, l: int|
            0 <= k < l < rematrix::used_inputs(row, n).len() ==> #[trigger] rematrix::used_inputs(
                row,
                n,
            )[k] < #[trigger] rematrix::used_inputs(row, n)[l],
    decreases n,
{
    if n > 0 {
        lemma_used(row, (n - 1) as nat, ch);
        let p = rematrix::used_inputs(row, (n - 1) as nat);
        let u = rematrix::used_inputs(row, n);
        if !row[ch].s_same(F64 { bits: 0 }) && ch < n {
            if ch == n - 1 {
                assert(u[p.len() as int] == ch);
            } else {
                let k = choose|k: int| 0 <= k < p.len() && #[trigger] p[k] == ch;
                assert(u[k] == ch);
            }
        }
    }
}

proof fn lemma_silent(a: Arith, c: int, v: u64)
    requires
        whole_numbers(a),
    ensures
        arith::product(a, c, 0) == 0,
        arith::acc_sum(a, 0, arith::product(a, c, v)) == arith::product(a, c, v),
        arith::acc_sum(a, arith::product(a, c, v), 0) == arith::product(a, c, v),
        arith::acc_sum(a, 0, 0) == 0,
{
    assert(c * 0 == 0) by (nonlinear_arith);
    let q = c * arith::wrap16(v as int);
    let r = c * arith::wrap32(v as int);
    assert(-0x8000_0000 <= arith::wrap32(q) < 0x8000_0000);
    assert(-0x8000_0000_0000_0000 <= arith::wrap64(r) < 0x8000_0000_0000_0000);
}

proof fn lemma_lone_term(
    a: Arith,
    terms: Seq<(int, int)>,
    from_zero: bool,
    s: Planes,
    i: int,
    n: nat,
    ch: int,
    at: int,
)
    requires
        whole_numbers(a),
        n <= terms.len(),
        forall|k: int| 0 <= k < terms.len() && k != at ==> s[(#[trigger] terms[k]).1][i] == 0,
        0 <= at < terms.len() ==> terms[at].1 == ch,
    ensures
        rematrix::mix_sum(a, terms, from_zero, s, i, n) == if 0 <= at < n {
            arith::product(a, terms[at].0, s[ch][i])
        } else {
            0
        },
    decreases n,
{
    if n > 0 {
        lemma_lone_term(a, terms, from_zero, s, i, (n - 1) as nat, ch, at);
        let (c, t) = terms[n - 1];
        if n - 1 != at {
            assert(s[t][i] == 0);
            lemma_silent(a, c, 0);
            if 0 <= at < n {
                lemma_silent(a, terms[at].0, s[ch][i]);
            }
        } else {
            lemma_silent(a, c, s[ch][i]);
        }
    }
}

/// A sample times a gain in units of `1 / 32768`, rounded.
pub open spec fn amplified(gain: int, x: int) -> int {
    (gain * x + 0x4000) / 0x8000
}

/// Where every channel but one is silent, an output holds that channel times its gain
/// in the matrix, and nothing if it has none. (Products are to fit into 32 bits.)
pub proof fn lemma_lone_voice(m: RematrixContext, o: int, s: Planes, i: int, ch: int, old: u64)
    requires
        m.wf(),
        m.mix_any is None,
        m.int_fmt == SampleFormat::S16p,
        0 <= o < m.out_nb,
        0 <= ch < 64,
        alone(s, 64, i, ch),
    ensures
        ({
            let x = arith::wrap16(s[ch][i] as int);
            let y = m.out_sample(o, s, i, old, true);
            let used = !rematrix::entry(m.matrix@, o, ch).s_same(F64 { bits: 0 });
            let gain = if m.taps(o).len() <= 2 {
                m.native_gain(o, ch)
            } else {
                m.plain_gain(o, ch)
            };
            &&& !used ==> y == 0
            &&& used && m.is_copy(o) ==> y == s[ch][i]
            &&& used && !m.is_copy(o) && -0x7fff_0000 <= gain * x <= 0x7fff_0000 && -0x8000
                <= amplified(gain, x) <= 0x7fff ==> arith::wrap16(y as int) == amplified(gain, x)
        }),
{
    let row = rematrix::matrix_row(m.matrix@, o);
    let t = m.taps(o);
    let terms = m.row_terms(o);
    assert(64 * o + 64 <= m.matrix@.len());
    assert(row[ch] == rematrix::entry(m.matrix@, o, ch));
    lemma_used(row, 64, ch);
    let used = !row[ch].s_same(F64 { bits: 0 });
    let at = if used {
        choose|k: int| 0 <= k < t.len() && #[trigger] t[k] == ch
    } else {
        -1
    };
    assert(terms.len() == t.len());
    assert forall|k: int| 0 <= k < terms.len() && k != at implies s[(#[trigger] terms[k]).1][i]
        == 0 by {
        assert(terms[k].1 == t[k]);
        if used {
            if k < at {
                assert(t[k] < t[at]);
            } else {
                assert(t[at] < t[k]);
            }
        }
        assert(t[k] != ch);
        assert(t[k] < 64);
    }
    if used {
        assert(terms[at].1 == ch);
    }
    if t.len() > 0 {
        if m.is_copy(o) {
            if used {
                assert(at == 0);
            } else {
                assert(t[0] < 64);
                assert(t[0] != ch);
            }
        } else {
            lemma_lone_term(m.arith(), terms, false, s, i, terms.len(), ch, at);
            lemma_lone_term(m.generic_arith(), terms, true, s, i, terms.len(), ch, at);
        }
    }
}


proof fn lemma_amplified(a: Arith, gain: int, v: u64, bytes: nat)
    requires
        a == Arith::S16 || a == Arith::S16Clip,
    ensures
        ({
            let x = arith::wrap16(v as int);
            -0x7fff_0000 <= gain * x <= 0x7fff_0000 && -0x8000 <= amplified(gain, x) <= 0x7fff
                ==> arith::wrap16(
                rematrix::acc_sample(a, arith::product(a, gain, v), bytes) as int,
            ) == amplified(gain, x)
        }),
        rematrix::acc_sample(a, 0, bytes) == 0,
{
}

/// The matrix gain that a special kernel has for channel `ch` in output `o`: center and
/// low frequencies as in the first output, channels of its own side, none of the other.
pub open spec fn special_gain(m: RematrixContext, wide: bool, o: int, ch: int) -> Option<int> {
    if ch == 2 || ch == 3 {
        Some(m.native_gain(0, ch))
    } else if ch % 2 == o && ch < (if wide {
        8int
    } else {
        6
    }) {
        Some(m.native_gain(o, ch))
    } else {
        None
    }
}

/// The same with a kernel of its own: each channel comes with its gain to its side.
pub proof fn lemma_lone_voice_special(
    m: RematrixContext,
    f: AnyFastPath,
    o: int,
    s: Planes,
    i: int,
    ch: int,
    old: u64,
)
    requires
        m.mix_any == Some(f),
        m.int_fmt == SampleFormat::S16p,
        0 <= o < 2,
        0 <= ch < 8,
        alone(s, 8, i, ch),
    ensures
        ({
            let x = arith::wrap16(s[ch][i] as int);
            let y = m.out_sample(o, s, i, old, true);
            match special_gain(m, f == AnyFastPath::Mix8to2, o, ch) {
                Some(gain) => -0x7fff_0000 <= gain * x <= 0x7fff_0000 && -0x8000 <= amplified(gain, x)
                    <= 0x7fff ==> arith::wrap16(y as int) == amplified(gain, x),
                None => y == 0,
            }
        }),
{
    let terms = m.fast_terms(f, o);
    let wide = f == AnyFastPath::Mix8to2;
    let at: int = if ch == 2 {
        0
    } else if ch == 3 {
        1
    } else if ch == o {
        2
    } else if ch == 4 + o {
        3
    } else if wide && ch == 6 + o {
        4
    } else {
        -1
    };
    let n = terms.len();
    assert(terms[0].1 == 2 && terms[1].1 == 3 && terms[2].1 == o && terms[3].1 == 4 + o);
    assert(n == 4 || n == 5 && terms[4].1 == 6 + o);
    assert forall|k: int| 0 <= k < n && k != at implies s[(#[trigger] terms[k]).1][i] == 0 by {
        assert(k == 0 || k == 1 || k == 2 || k == 3 || k == 4);
        let t = terms[k].1;
        assert(s[t][i] == 0);
    }
    lemma_lone_term(m.arith(), terms, false, s, i, n, ch, at);
    let gain = special_gain(m, wide, o, ch);
    assert(gain is Some <==> at >= 0);
    assert(at >= 0 ==> terms[at].0 == gain->0);
    if at >= 0 {
        lemma_amplified(m.arith(), gain->0, s[ch][i], m.int_fmt.spec_bytes());
    } else {
        lemma_amplified(m.arith(), 0, 0, m.int_fmt.spec_bytes());
    }
}

/// The place of channel `ch` among the terms of an output, if it has one.
proof fn lemma_term_of(m: RematrixContext, o: int, ch: int) -> (at: int)
    requires
        m.wf(),
        0 <= o < m.out_nb,
        0 <= ch < 64,
    ensures
        ({
            let t = m.taps(o);
            let terms = m.row_terms(o);
            let used = !rematrix::entry(m.matrix@, o, ch).s_same(F64 { bits: 0 });
            &&& terms.len() == t.len()
            &&& used <==> 0 <= at < terms.len()
            &&& !used ==> at == -1
            &&& used ==> terms[at].1 == ch && t[at] == ch
            &&& forall|k: int| 0 <= k < terms.len() && k != at ==> 0 <= (#[trigger] terms[k]).1 < 64
                && terms[k].1 != ch && terms[k].1 == t[k]
        }),
{
    let row = rematrix::matrix_row(m.matrix@, o);
    let t = m.taps(o);
    let terms = m.row_terms(o);
    assert(64 * o + 64 <= m.matrix@.len());
    assert(row[ch] == rematrix::entry(m.matrix@, o, ch));
    lemma_used(row, 64, ch);
    let used = !row[ch].s_same(F64 { bits: 0 });
    let at = if used {
        choose|k: int| 0 <= k < t.len() && #[trigger] t[k] == ch
    } else {
        -1
    };
    assert forall|k: int| 0 <= k < terms.len() && k != at implies 0 <= (#[trigger] terms[k]).1 < 64
        && terms[k].1 != ch && terms[k].1 == t[k] by {
        assert(terms[k].1 == t[k]);
        if used {
            if k < at {
                assert(t[k] < t[at]);
            } else {
                assert(t[at] < t[k]);
            }
        }
        assert(t[k] != ch);
        assert(t[k] < 64);
    }
    at
}

/// The same with samples of 32 bits, for outputs of one or two channels.
pub proof fn lemma_lone_voice_wide(m: RematrixContext, o: int, s: Planes, i: int, ch: int, old: u64)
    requires
        m.wf(),
        m.mix_any is None,
        m.int_fmt == SampleFormat::S32p,
        0 <= o < m.out_nb,
        0 <= ch < 64,
        m.taps(o).len() <= 2,
        alone(s, 64, i, ch),
    ensures
        ({
            let x = arith::wrap32(s[ch][i] as int);
            let y = m.out_sample(o, s, i, old, true);
            let used = !rematrix::entry(m.matrix@, o, ch).s_same(F64 { bits: 0 });
            let gain = m.native_gain(o, ch);
            &&& !used ==> y == 0
            &&& used && m.is_copy(o) ==> y == s[ch][i]
            &&& used && !m.is_copy(o) && -0x4000_0000_0000_0000 <= gain * x <= 0x4000_0000_0000_0000
                && -0x8000_0000 <= amplified(gain, x) <= 0x7fff_ffff ==> arith::wrap32(y as int)
                == amplified(gain, x)
        }),
{
    let t = m.taps(o);
    let terms = m.row_terms(o);
    let at = lemma_term_of(m, o, ch);
    assert forall|k: int| 0 <= k < terms.len() && k != at implies s[(#[trigger] terms[k]).1][i]
        == 0 by {
        let c = terms[k].1;
        assert(s[c][i] == 0);
    }
    if t.len() > 0 {
        if m.is_copy(o) {
            assert(terms[0].1 == t[0]);
        } else {
            lemma_lone_term(Arith::S32, terms, false, s, i, terms.len(), ch, at);
        }
    }
}

/// The number format of a floating sample format.
pub open spec fn number_format(fmt: SampleFormat) -> Format {
    if fmt == SampleFormat::Fltp {
        Format::Binary32
    } else {
        Format::Binary64
    }
}

proof fn lemma_lone_number(
    a: Arith,
    f: Format,
    terms: Seq<(int, int)>,
    from_zero: bool,
    s: Planes,
    i: int,
    n: nat,
    ch: int,
    at: int,
)
    requires
        a == Arith::Flt && f == Format::Binary32 || a == Arith::Dbl && f == Format::Binary64,
        n <= terms.len(),
        forall|k: int|
            0 <= k < terms.len() ==> 0 <= (#[trigger] terms[k]).0 <= u64::MAX && nearness::finite(
                f,
                terms[k].0 as u64,
            ),
        forall|k: int| 0 <= k < terms.len() && k != at ==> s[(#[trigger] terms[k]).1][i] == 0,
        0 <= at < terms.len() ==> {
            let p = float::mul_bits(f, terms[at].0 as u64, s[ch][i]);
            terms[at].1 == ch && nearness::finite(f, p) && f.holds(p)
        },
    ensures
        ({
            let r = rematrix::mix_sum(a, terms, from_zero, s, i, n);
            &&& 0 <= r <= u64::MAX
            &&& f.holds(r as u64)
            &&& nearness::finite(f, r as u64)
            &&& nearness::value(f, r as u64) == if 0 <= at < n {
                nearness::value(f, float::mul_bits(f, terms[at].0 as u64, s[ch][i]))
            } else {
                0
            }
        }),
    decreases n,
{
    nearness::lemma_nothing(f);
    if n > 0 {
        lemma_lone_number(a, f, terms, from_zero, s, i, (n - 1) as nat, ch, at);
        let (c, t) = terms[n - 1];
        let p = float::mul_bits(f, c as u64, s[t][i]);
        let r = rematrix::mix_sum(a, terms, from_zero, s, i, (n - 1) as nat) as u64;
        if n - 1 != at {
            assert(s[t][i] == 0);
            nearness::lemma_times_nothing(f, c as u64, 0);
            nearness::lemma_plus_nothing(f, r, p);
        } else {
            nearness::lemma_plus_nothing(f, p, r);
        }
    }
}

/// In floating point, too, a lone channel comes out times its gain.
pub proof fn lemma_lone_voice_number(
    m: RematrixContext,
    o: int,
    s: Planes,
    i: int,
    ch: int,
    old: u64,
)
    requires
        m.wf(),
        m.mix_any is None,
        m.int_fmt == SampleFormat::Fltp || m.int_fmt == SampleFormat::Dblp,
        0 <= o < m.out_nb,
        0 <= ch < 64,
        alone(s, 64, i, ch),
        forall|t: int|
            0 <= t < 64 ==> nearness::finite(
                number_format(m.int_fmt),
                (#[trigger] m.native_gain(o, t)) as u64,
            ),
        ({
            let f = number_format(m.int_fmt);
            let p = float::mul_bits(f, m.native_gain(o, ch) as u64, s[ch][i]);
            nearness::finite(f, p) && f.holds(p)
        }),
    ensures
        ({
            let f = number_format(m.int_fmt);
            let y = m.out_sample(o, s, i, old, true);
            let used = !rematrix::entry(m.matrix@, o, ch).s_same(F64 { bits: 0 });
            &&& !used ==> nearness::value(f, y) == 0
            &&& used && m.is_copy(o) ==> y == s[ch][i]
            &&& used && !m.is_copy(o) ==> nearness::value(f, y) == nearness::value(
                f,
                float::mul_bits(f, m.native_gain(o, ch) as u64, s[ch][i]),
            )
        }),
{
    let f = number_format(m.int_fmt);
    let a = m.arith();
    let t = m.taps(o);
    let terms = m.row_terms(o);
    let at = lemma_term_of(m, o, ch);
    nearness::lemma_nothing(f);
    assert forall|k: int| 0 <= k < terms.len() && k != at implies s[(#[trigger] terms[k]).1][i]
        == 0 by {
        let c = terms[k].1;
        assert(s[c][i] == 0);
    }
    assert forall|k: int| 0 <= k < terms.len() implies 0 <= (#[trigger] terms[k]).0 <= u64::MAX
        && nearness::finite(f, terms[k].0 as u64) by {
        assert(terms[k].0 == m.native_gain(o, t[k] as int));
        assert(0 <= t[k] < 64) by {
            if k == at {
                assert(t[at] == ch);
            } else {
                assert(terms[k].1 == t[k]);
            }
        }
    }
    if t.len() > 0 {
        if m.is_copy(o) {
            assert(terms[0].1 == t[0]);
        } else {
            if 0 <= at < terms.len() {
                assert(terms[at].0 == m.native_gain(o, ch));
            }
            lemma_lone_number(a, f, terms, false, s, i, terms.len(), ch, at);
            lemma_lone_number(a, f, terms, true, s, i, terms.len(), ch, at);
        }
    }
}

/// The gains of the kernels are those of the matrix: cell `64 o + ch` tells what output
/// `o` takes of channel `ch`. (Gains of two or less.)
pub proof fn lemma_gain_of_matrix(m: RematrixContext, o: int, ch: int)
    requires
        m.wf(),
        0 <= o < 64,
        0 <= ch < 64,
        loudness::finite(m.matrix@[64 * o + ch]),
        nearness::size(loudness::worth(m.matrix@[64 * o + ch])) <= 2 * nearness::one(),
    ensures
        ({
            let x = loudness::worth(m.matrix@[64 * o + ch]);
            let u = nearness::one();
            &&& m.int_fmt == SampleFormat::S16p || m.int_fmt == SampleFormat::S32p ==> 100
                * nearness::size(m.plain_gain(o, ch) * u - 32768 * x) <= 53 * u
            &&& m.int_fmt == SampleFormat::Dblp ==> nearness::value(
                Format::Binary64,
                m.native_gain(o, ch) as u64,
            ) == x && m.plain_gain(o, ch) == m.native_gain(o, ch)
            &&& m.int_fmt == SampleFormat::Fltp ==> nearness::size(
                nearness::value(Format::Binary32, m.native_gain(o, ch) as u64) - x,
            ) * 0x40_0000 <= u && m.plain_gain(o, ch) == m.native_gain(o, ch)
        }),
{
    let g = m.matrix@[64 * o + ch];
    loudness::lemma_fixed(g);
    loudness::lemma_tiny();
    let f = Format::Binary32;
    nearness::lemma_converted(Format::Binary64, f, g.bits);
    let b = float::convert_bits(Format::Binary64, f, g.bits);
    let n = nearness::value(f, b);
    let t = loudness::tiny(f);
    assert(n * 1 == n && 1 * t == t);
    assert((b as u32) as u64 == b);
}

/// Errors diffused along a row stay small: what a gain is off by is at most half a unit
/// for it and for each gain before it, and a little.
pub proof fn lemma_diffused(row: Seq<F64>, n: int)
    requires
        0 <= n < row.len(),
        n < 64,
        forall|k: int|
            0 <= k <= n ==> loudness::finite(#[trigger] row[k]) && nearness::size(
                loudness::worth(row[k]),
            ) <= 2 * nearness::one(),
    ensures
        100 * nearness::size(
            rematrix::diffused(row, n) * nearness::one() - 32768 * loudness::worth(row[n]),
        ) <= 54 * ((n + 1) * nearness::one()),
{
    lemma_rest(row, n);
    let u = nearness::one();
    loudness::lemma_tiny();
    assert((n + 1) * u == n * u + u && n * u <= 64 * u && n * u >= 0) by (nonlinear_arith)
        requires
            0 <= n <= 64,
            u > 0,
    ;
    lemma_target(row[n], rematrix::diffused_rest(row, n as nat), 54 * (n * u));
}

/// A gain and a rest of `b` hundredths, rounded.
proof fn lemma_target(g: F64, rest: F64, b: int)
    requires
        b <= 3456 * nearness::one(),
        loudness::finite(g),
        loudness::finite(rest),
        nearness::size(loudness::worth(g)) <= 2 * nearness::one(),
        100 * nearness::size(loudness::worth(rest)) <= b,
    ensures
        ({
            let u = nearness::one();
            let t = g.s_times(F64 { bits: rematrix::FIXED_ONE_BITS }).s_plus(rest);
            &&& loudness::finite(t)
            &&& nearness::size(
                loudness::worth(t) - (32768 * loudness::worth(g) + loudness::worth(rest)),
            ) * 0x10_0000 <= u
            &&& 100 * nearness::size(t.s_lrintf() * u - loudness::worth(t)) <= 52 * u
            &&& nearness::size(t.s_lrintf()) <= 0x4_0001
        }),
{
    loudness::lemma_tiny();
    let f = Format::Binary64;
    let u = nearness::one();
    let p = g.s_times(F64 { bits: rematrix::FIXED_ONE_BITS });
    loudness::lemma_times_fixed(g);
    assert(nearness::size(loudness::worth(p)) <= 65537 * u);
    nearness::lemma_sum(f, p.bits, rest.bits);
    let t = p.s_plus(rest);
    let v = loudness::worth(t);
    assert(v * 1 == v && 1 * loudness::tiny(f) == loudness::tiny(f));
    loudness::lemma_integral(t);
}

proof fn lemma_rest(row: Seq<F64>, n: int)
    requires
        0 <= n <= row.len(),
        n < 64,
        forall|k: int|
            0 <= k < n ==> loudness::finite(#[trigger] row[k]) && nearness::size(
                loudness::worth(row[k]),
            ) <= 2 * nearness::one(),
    ensures
        loudness::finite(rematrix::diffused_rest(row, n as nat)),
        100 * nearness::size(loudness::worth(rematrix::diffused_rest(row, n as nat))) <= 54 * (n
            * nearness::one()),
    decreases n,
{
    let f = Format::Binary64;
    let u = nearness::one();
    nearness::lemma_nothing(f);
    loudness::lemma_tiny();
    if n > 0 {
        lemma_rest(row, n - 1);
        let rest = rematrix::diffused_rest(row, (n - 1) as nat);
        assert((n - 1) * u + u == n * u && n * u <= 64 * u && (n - 1) * u >= 0) by (nonlinear_arith)
            requires
                1 <= n <= 64,
                u > 0,
        ;
        lemma_target(row[n - 1], rest, 54 * ((n - 1) * u));
        let t = row[n - 1].s_times(F64 { bits: rematrix::FIXED_ONE_BITS }).s_plus(rest);
        let q = t.s_lrintf();
        nearness::lemma_integer(f, q);
        let fq = F64::s_from_int(q);
        nearness::lemma_opposite(f, fq.bits);
        nearness::lemma_sum(f, t.bits, fq.s_neg().bits);
        let d = t.s_minus(fq);
        let v = loudness::worth(d);
        assert(v * 1 == v && 1 * loudness::tiny(f) == loudness::tiny(f));
        assert(100 * nearness::size(v) <= 53 * u);
        nearness::lemma_sum(f, rest.bits, d.bits);
        let w = loudness::worth(rest.s_plus(d));
        assert(w * 1 == w);
    } else {
        assert(n * u == 0) by (nonlinear_arith)
            requires
                n == 0,
        ;
    }
}

/// A matrix of the user's is taken over row by row, and what it leaves open is zero.
pub proof fn lemma_user_gain(src: Seq<F64>, stride: int, nb_in: int, nb_out: int, o: int, ch: int)
    requires
        0 <= o < 64,
        0 <= ch < 64,
    ensures
        rematrix::user_matrix(src, stride, nb_in, nb_out)[64 * o + ch] == if o < nb_out && ch < nb_in {
            src[o * stride + ch]
        } else {
            F64 { bits: 0 }
        },
{
}

// --- clipping -------------------------------------------------------------------------

/// The gains of the first `n` channels of a row, whatever their signs, added up.
pub open spec fn loudest(row: Seq<F64>, n: nat) -> int
    decreases n,
{
    if n == 0 {
        0
    } else {
        loudest(row, (n - 1) as nat) + nearness::size(rematrix::diffused(row, n - 1))
    }
}

proof fn lemma_loudest(row: Seq<F64>, n: nat)
    ensures
        0 <= loudest(row, n),
        loudest(row, n) <= 0x7fff_ffff ==> rematrix::diffused_weight(row, n) == loudest(row, n),
    decreases n,
{
    if n > 0 {
        lemma_loudest(row, (n - 1) as nat);
    }
}

proof fn lemma_largest(m: Seq<F64>, nb_in: nat, n: nat, o: int)
    ensures
        0 <= o < n ==> rematrix::diffused_weight(rematrix::matrix_row(m, o), nb_in)
            <= rematrix::largest_weight(m, nb_in, n),
        rematrix::largest_weight(m, nb_in, n) > 0 ==> exists|k: int|
            0 <= k < n && #[trigger] rematrix::diffused_weight(rematrix::matrix_row(m, k), nb_in)
                == rematrix::largest_weight(m, nb_in, n),
        rematrix::largest_weight(m, nb_in, n) >= 0,
    decreases n,
{
    if n > 0 {
        lemma_largest(m, nb_in, (n - 1) as nat, o);
        let p = rematrix::largest_weight(m, nb_in, (n - 1) as nat);
        let w = rematrix::diffused_weight(rematrix::matrix_row(m, n - 1), nb_in);
        if w <= p && p > 0 {
            let k = choose|k: int|
                0 <= k < n - 1 && #[trigger] rematrix::diffused_weight(
                    rematrix::matrix_row(m, k),
                    nb_in,
                ) == p;
            assert(rematrix::diffused_weight(rematrix::matrix_row(m, k), nb_in) == p);
        }
    }
}

/// 16-bit results are clipped exactly where the gains of an output can add up to more
/// than one.
pub proof fn lemma_clips_when_needed(m: RematrixContext)
    requires
        m.wf(),
        m.int_fmt == SampleFormat::S16p,
        forall|o: int|
            0 <= o < m.out_nb ==> loudest(
                #[trigger] rematrix::matrix_row(m.matrix@, o),
                m.in_nb as nat,
            ) <= 0x7fff_ffff,
    ensures
        m.clip_s16 <==> exists|o: int|
            0 <= o < m.out_nb && loudest(
                #[trigger] rematrix::matrix_row(m.matrix@, o),
                m.in_nb as nat,
            ) > 32768,
{
    let (q, n, k) = (m.matrix@, m.in_nb as nat, m.out_nb as nat);
    assert forall|o: int| 0 <= o < k implies rematrix::diffused_weight(
        #[trigger] rematrix::matrix_row(q, o),
        n,
    ) == loudest(rematrix::matrix_row(q, o), n) && loudest(rematrix::matrix_row(q, o), n)
        <= rematrix::largest_weight(q, n, k) by {
        lemma_loudest(rematrix::matrix_row(q, o), n);
        lemma_largest(q, n, k, o);
    }
    lemma_largest(q, n, k, 0);
    if m.clip_s16 {
        let o = choose|o: int|
            0 <= o < k && #[trigger] rematrix::diffused_weight(rematrix::matrix_row(q, o), n)
                == rematrix::largest_weight(q, n, k);
        assert(loudest(rematrix::matrix_row(q, o), n) > 32768);
    }
}

} // verus!
