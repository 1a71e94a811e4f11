//! Conversion between sample formats.
//!
//! A conversion is a function of one sample at a time; packed and planar
//! buffers only differ in where the samples of a channel lie.
use crate::arith;
use crate::audio;
use crate::audio::{AudioData, Planes};
use crate::bytes;
use crate::error::{invalid, unsupported, Error};
use crate::float;
use crate::float::{Format, ToInt};
use crate::samplefmt::SampleFormat;
use vstd::arithmetic::div_mod::*;
use vstd::arithmetic::mul::*;
use vstd::arithmetic::power2::*;
use vstd::prelude::*;

verus! {

// --- what a conversion does to one sample --------------------------------------

/// Integer formats, packed.
pub open spec fn is_int(fmt: SampleFormat) -> bool {
    fmt == SampleFormat::U8 || fmt == SampleFormat::S16 || fmt == SampleFormat::S32 || fmt
        == SampleFormat::S64
}

/// Floating formats, packed.
pub open spec fn is_float(fmt: SampleFormat) -> bool {
    fmt == SampleFormat::Flt || fmt == SampleFormat::Dbl
}

pub open spec fn float_format(fmt: SampleFormat) -> Format {
    if fmt == SampleFormat::Flt {
        Format::Binary32
    } else {
        Format::Binary64
    }
}

/// Bits of one sample.
pub open spec fn width(fmt: SampleFormat) -> nat {
    8 * fmt.spec_bytes()
}

/// The number that a bit pattern of an integer format stands for; 0 is silence.
pub open spec fn int_value(fmt: SampleFormat, v: u64) -> int {
    if fmt == SampleFormat::U8 {
        v - 128
    } else if v >= pow2((width(fmt) - 1) as nat) {
        v - pow2(width(fmt))
    } else {
        v as int
    }
}

/// Inverse of [`int_value`].
pub open spec fn int_raw(fmt: SampleFormat, x: int) -> u64 {
    if fmt == SampleFormat::U8 {
        (x + 128) as u64
    } else if x < 0 {
        (x + pow2(width(fmt))) as u64
    } else {
        x as u64
    }
}

/// Integer to integer: scaled up, or down with rounding towards negative
/// infinity.
pub open spec fn rescaled_int(from: SampleFormat, to: SampleFormat, x: int) -> int {
    if width(to) >= width(from) {
        x * pow2((width(to) - width(from)) as nat)
    } else {
        x / pow2((width(from) - width(to)) as nat) as int
    }
}

/// What a rounded full-scale value is stored as. The two narrow formats keep
/// only the low 32 bits of the rounded value before they clip.
pub open spec fn clipped_int(to: SampleFormat, t: int) -> int {
    if to == SampleFormat::U8 {
        float::saturate(arith::wrap32(arith::wrap32(t) + 128), 0, 255) - 128
    } else if to == SampleFormat::S16 {
        float::saturate(arith::wrap32(t), -32768, 32767)
    } else if to == SampleFormat::S32 {
        float::saturate(t, i32::MIN as int, i32::MAX as int)
    } else {
        t
    }
}

/// One sample, from one packed format to another.
pub open spec fn conv_value(from: SampleFormat, to: SampleFormat, v: u64) -> u64 {
    if from == to {
        v
    } else if is_int(from) && is_int(to) {
        int_raw(to, rescaled_int(from, to, int_value(from, v)))
    } else if is_int(from) {
        float::int_bits(float_format(to), int_value(from, v), 1 - width(from))
    } else if is_int(to) {
        int_raw(
            to,
            clipped_int(
                to,
                float::to_int(float_format(from), ToInt::Nearest, v, width(to) - 1),
            ),
        )
    } else {
        float::convert_bits(float_format(from), float_format(to), v)
    }
}

/// Pairs of packed formats that can be converted: all numeric ones, and one-bit
/// audio to itself.
pub open spec fn convertible(from: SampleFormat, to: SampleFormat) -> bool {
    let numeric = |f: SampleFormat| is_int(f) || is_float(f);
    (numeric(from) && numeric(to)) || (from == SampleFormat::Dsd && to == SampleFormat::Dsd)
}

// --- the same, executable -------------------------------------------------------

fn is_int_exec(fmt: SampleFormat) -> (r: bool)
    ensures
        r == is_int(fmt),
{
    matches!(
        fmt,
        SampleFormat::U8 | SampleFormat::S16 | SampleFormat::S32 | SampleFormat::S64
    )
}

fn float_format_exec(fmt: SampleFormat) -> (r: Format)
    ensures
        r == float_format(fmt),
{
    match fmt {
        SampleFormat::Flt => Format::Binary32,
        _ => Format::Binary64,
    }
}

/// Weight of the sign bit.
fn sign_weight(fmt: SampleFormat) -> (r: u64)
    requires
        is_int(fmt),
    ensures
        r == pow2((width(fmt) - 1) as nat),
{
    proof {
        lemma2_to64();
        lemma2_to64_rest();
    }
    match fmt {
        SampleFormat::U8 => 0x80,
        SampleFormat::S16 => 0x8000,
        SampleFormat::S32 => 0x8000_0000,
        _ => 0x8000_0000_0000_0000,
    }
}

/// The number that a bit pattern stands for.
fn int_value_exec(fmt: SampleFormat, v: u64) -> (r: i64)
    requires
        is_int(fmt),
        v < pow2(width(fmt)),
    ensures
        r == int_value(fmt, v),
        -pow2((width(fmt) - 1) as nat) <= r < pow2((width(fmt) - 1) as nat),
{
    proof {
        lemma2_to64();
        lemma2_to64_rest();
    }
    if fmt == SampleFormat::U8 {
        return v as i64 - 128;
    }
    let s: u64 = sign_weight(fmt);
    if v >= s {
        let low: i128 = (v - s) as i128;
        (low - s as i128) as i64
    } else {
        v as i64
    }
}

fn int_raw_exec(fmt: SampleFormat, x: i64) -> (r: u64)
    requires
        is_int(fmt),
        -pow2((width(fmt) - 1) as nat) <= x < pow2((width(fmt) - 1) as nat),
    ensures
        r == int_raw(fmt, x as int),
        r < pow2(width(fmt)),
{
    proof {
        lemma2_to64();
        lemma2_to64_rest();
    }
    if fmt == SampleFormat::U8 {
        return (x + 128) as u64;
    }
    if x < 0 {
        let s: u64 = sign_weight(fmt);
        ((x as i128) + 2 * (s as i128)) as u64
    } else {
        x as u64
    }
}

fn rescale_int_exec(from: SampleFormat, to: SampleFormat, x: i64) -> (r: i64)
    requires
        is_int(from),
        is_int(to),
        from != to,
        -pow2((width(from) - 1) as nat) <= x < pow2((width(from) - 1) as nat),
    ensures
        r == rescaled_int(from, to, x as int),
        -pow2((width(to) - 1) as nat) <= r < pow2((width(to) - 1) as nat),
{
    proof {
        lemma2_to64();
        lemma2_to64_rest();
    }
    // Offset binary: the same shifts on non-negative numbers.
    let sf: u64 = sign_weight(from);
    let st: u64 = sign_weight(to);
    let u: u128 = (x as i128 + sf as i128) as u128;
    let w: u128 = match (from, to) {
        (SampleFormat::U8, SampleFormat::S16) => u * 0x100,
        (SampleFormat::U8, SampleFormat::S32) => u * 0x100_0000,
        (SampleFormat::U8, SampleFormat::S64) => u * 0x100_0000_0000_0000,
        (SampleFormat::S16, SampleFormat::S32) => u * 0x1_0000,
        (SampleFormat::S16, SampleFormat::S64) => u * 0x1_0000_0000_0000,
        (SampleFormat::S32, SampleFormat::S64) => u * 0x1_0000_0000,
        (SampleFormat::S16, SampleFormat::U8) => u / 0x100,
        (SampleFormat::S32, SampleFormat::U8) => u / 0x100_0000,
        (SampleFormat::S64, SampleFormat::U8) => u / 0x100_0000_0000_0000,
        (SampleFormat::S32, SampleFormat::S16) => u / 0x1_0000,
        (SampleFormat::S64, SampleFormat::S16) => u / 0x1_0000_0000_0000,
        _ => u / 0x1_0000_0000,
    };
    let r: i128 = w as i128 - st as i128;
    proof {
        if width(to) >= width(from) {
            let d = pow2((width(to) - width(from)) as nat) as int;
            assert(r == x * d) by {
                lemma_scaled_up(x as int, sf as int, st as int, d, w as int);
            }
        } else {
            let d = pow2((width(from) - width(to)) as nat) as int;
            lemma_scaled_down(x as int, sf as int, st as int, d, w as int);
        }
    }
    r as i64
}

proof fn lemma_scaled_up(x: int, sf: int, st: int, d: int, w: int)
    requires
        w == (x + sf) * d,
        st == sf * d,
    ensures
        w - st == x * d,
{
    assert((x + sf) * d == x * d + sf * d) by (nonlinear_arith);
}

proof fn lemma_scaled_down(x: int, sf: int, st: int, d: int, w: int)
    requires
        d > 0,
        w == (x + sf) / d,
        sf == st * d,
    ensures
        w - st == x / d,
{
    lemma_fundamental_div_mod(x + sf, d);
    let r = (x + sf) % d;
    assert(x == (w - st) * d + r) by (nonlinear_arith)
        requires
            x + sf == d * w + r,
            sf == st * d,
    ;
    lemma_fundamental_div_mod_converse(x, d, w - st, r);
}

fn wrap32_exec(t: i64) -> (r: i64)
    ensures
        r == arith::wrap32(t as int),
        -0x8000_0000 <= r <= 0x7fff_ffff,
{
    let u: u128 = (t as i128 + 0x1_0000_0000_0000_0000 + 0x8000_0000) as u128;
    (u % 0x1_0000_0000) as i64 - 0x8000_0000
}

/// `v` brought into `lo..=hi`.
pub(crate) fn clamp64(v: i64, lo: i64, hi: i64) -> (r: i64)
    requires
        lo <= hi,
    ensures
        r == float::saturate(v as int, lo as int, hi as int),
        lo <= r <= hi,
{
    if v < lo {
        lo
    } else if v > hi {
        hi
    } else {
        v
    }
}

fn clip_exec(to: SampleFormat, t: i64) -> (r: i64)
    requires
        is_int(to),
    ensures
        r == clipped_int(to, t as int),
        -pow2((width(to) - 1) as nat) <= r < pow2((width(to) - 1) as nat),
{
    proof {
        lemma2_to64();
        lemma2_to64_rest();
    }
    match to {
        SampleFormat::U8 => {
            let a: i64 = wrap32_exec(wrap32_exec(t) + 128);
            clamp64(a, 0, 255) - 128
        },
        SampleFormat::S16 => clamp64(wrap32_exec(t), -32768, 32767),
        SampleFormat::S32 => clamp64(t, -0x8000_0000, 0x7fff_ffff),
        _ => t,
    }
}

/// One sample, from one packed format to another.
pub fn convert_sample(from: SampleFormat, to: SampleFormat, v: u64) -> (r: u64)
    requires
        convertible(from, to),
        v < pow2(width(from)),
    ensures
        r == conv_value(from, to, v),
        r < pow2(width(to)),
{
    proof {
        lemma2_to64();
        lemma2_to64_rest();
    }
    if from == to {
        return v;
    }
    let fi: bool = is_int_exec(from);
    let ti: bool = is_int_exec(to);
    if fi && ti {
        int_raw_exec(to, rescale_int_exec(from, to, int_value_exec(from, v)))
    } else if fi {
        let bits: i32 = 8 * from.bytes_per_sample() as i32;
        float::from_int_f(float_format_exec(to), int_value_exec(from, v), 1 - bits)
    } else if ti {
        let bits: i32 = 8 * to.bytes_per_sample() as i32;
        let t: i64 = float::to_int_f(float_format_exec(from), ToInt::Nearest, v, bits - 1);
        int_raw_exec(to, clip_exec(to, t))
    } else {
        float::convert_f(float_format_exec(from), float_format_exec(to), v)
    }
}

/// Whether the packed pair can be converted.
pub fn conv_pair(from: SampleFormat, to: SampleFormat) -> (r: bool)
    ensures
        r == convertible(from, to),
{
    let fd: bool = from == SampleFormat::Dsd;
    let td: bool = to == SampleFormat::Dsd;
    let fnum: bool = is_int_exec(from) || from == SampleFormat::Flt || from == SampleFormat::Dbl;
    let tnum: bool = is_int_exec(to) || to == SampleFormat::Flt || to == SampleFormat::Dbl;
    (fnum && tnum) || (fd && td)
}


// --- runs of samples ------------------------------------------------------------

/// Position of the `i`-th sample of a run.
pub open spec fn at(off: int, i: int, step: int) -> int {
    off + i * step
}

proof fn lemma_run(off: int, i: int, n: int, step: int, w: int, end: int)
    requires
        0 <= i < n,
        0 <= step,
        0 <= off,
        off + (n - 1) * step + w <= end,
    ensures
        0 <= i * step,
        off <= at(off, i, step),
        at(off, i, step) + w <= end,
{
    assert(0 <= i * step <= (n - 1) * step) by (nonlinear_arith)
        requires
            0 <= i <= n - 1,
            0 <= step,
    ;
}

proof fn lemma_run_apart(off: int, i: int, j: int, step: int)
    requires
        i < j,
        0 <= step,
    ensures
        at(off, i, step) + step <= at(off, j, step),
{
    assert(i * step + step <= j * step) by (nonlinear_arith)
        requires
            i + 1 <= j,
            0 <= step,
    ;
}

/// Converts `len` samples: the `i`-th is read at `pi_off + i * is` and written
/// at `po_off + i * os`.
pub fn conv_run(
    from: SampleFormat,
    to: SampleFormat,
    po: &mut [u8],
    po_off: usize,
    os: usize,
    pi: &[u8],
    pi_off: usize,
    is: usize,
    len: usize,
)
    requires
        convertible(from, to),
        os >= to.spec_bytes(),
        len > 0 ==> po_off + (len - 1) * os + to.spec_bytes() <= old(po)@.len(),
        len > 0 ==> pi_off + (len - 1) * is + from.spec_bytes() <= pi@.len(),
    ensures
        final(po)@.len() == old(po)@.len(),
        forall|i: int|
            0 <= i < len ==> bytes::le_value(
                final(po)@,
                #[trigger] at(po_off as int, i, os as int),
                to.spec_bytes(),
            ) == conv_value(
                from,
                to,
                bytes::le_value(pi@, at(pi_off as int, i, is as int), from.spec_bytes()) as u64,
            ),
        forall|k: int|
            0 <= k < old(po)@.len() && (forall|i: int|
                0 <= i < len ==> !(#[trigger] at(po_off as int, i, os as int) <= k < at(
                    po_off as int,
                    i,
                    os as int,
                ) + to.spec_bytes())) ==> #[trigger] final(po)@[k] == old(po)@[k],
{
    let ghost start = po@;
    let in_bytes: usize = from.bytes_per_sample();
    let out_bytes: usize = to.bytes_per_sample();
    let mut i: usize = 0;
    while i < len
        invariant
            i <= len,
            convertible(from, to),
            in_bytes == from.spec_bytes(),
            out_bytes == to.spec_bytes(),
            os >= out_bytes,
            po@.len() == start.len(),
            len > 0 ==> po_off + (len - 1) * os + to.spec_bytes() <= start.len(),
            len > 0 ==> pi_off + (len - 1) * is + from.spec_bytes() <= pi@.len(),
            forall|j: int|
                0 <= j < i ==> bytes::le_value(
                    po@,
                    #[trigger] at(po_off as int, j, os as int),
                    to.spec_bytes(),
                ) == conv_value(
                    from,
                    to,
                    bytes::le_value(pi@, at(pi_off as int, j, is as int), from.spec_bytes()) as u64,
                ),
            forall|k: int|
                0 <= k < start.len() && (forall|j: int|
                    0 <= j < len ==> !(#[trigger] at(po_off as int, j, os as int) <= k < at(
                        po_off as int,
                        j,
                        os as int,
                    ) + to.spec_bytes())) ==> #[trigger] po@[k] == start[k],
        decreases len - i,
    {
        let pl: usize = po.len();
        let il: usize = pi.len();
        proof {
            lemma_run(po_off as int, i as int, len as int, os as int, out_bytes as int, pl as int);
            lemma_run(pi_off as int, i as int, len as int, is as int, in_bytes as int, il as int);
        }
        let v: u64 = bytes::load_le(pi, pi_off + i * is, in_bytes);
        let w: u64 = convert_sample(from, to, v);
        let ghost before = po@;
        bytes::store_le(po, po_off + i * os, out_bytes, w);
        proof {
            assert forall|j: int| 0 <= j < i + 1 implies bytes::le_value(
                po@,
                #[trigger] at(po_off as int, j, os as int),
                to.spec_bytes(),
            ) == conv_value(
                from,
                to,
                bytes::le_value(pi@, at(pi_off as int, j, is as int), from.spec_bytes()) as u64,
            ) by {
                if j < i {
                    lemma_run_apart(po_off as int, j, i as int, os as int);
                    lemma_run(po_off as int, j, len as int, os as int, out_bytes as int, pl as int);
                    bytes::lemma_le_frame(
                        before,
                        po@,
                        at(po_off as int, j, os as int),
                        to.spec_bytes(),
                    );
                }
            }
            assert forall|k: int|
                0 <= k < start.len() && (forall|j: int|
                    0 <= j < len ==> !(#[trigger] at(po_off as int, j, os as int) <= k < at(
                        po_off as int,
                        j,
                        os as int,
                    ) + to.spec_bytes())) implies #[trigger] po@[k] == start[k] by {
                let here = at(po_off as int, i as int, os as int);
                assert(!(here <= k < here + to.spec_bytes()));
                assert(before[k] == start[k]);
            }
        }
        i = i + 1;
    }
}

// --- converters -------------------------------------------------------------------

/// A conversion between two formats for a fixed number of channels.
#[derive(Debug)]
pub struct AudioConvert {
    /// Number of output channels.
    pub channels: usize,
    /// Packed form of the input format.
    pub from: SampleFormat,
    /// Packed form of the output format.
    pub to: SampleFormat,
    /// Sample width when the conversion is a plain copy.
    pub simd_bps: Option<usize>,
    /// Input channel of each output channel; negative entries are muted.
    pub ch_map: Option<Vec<i32>>,
    /// What a muted channel reads.
    pub silence: [u8; 8],
}

/// The byte that silence is made of in an input format.
pub open spec fn silence_byte(fmt: SampleFormat) -> u8 {
    if fmt == SampleFormat::U8 || fmt == SampleFormat::U8p {
        0x80
    } else if fmt == SampleFormat::Dsd {
        0x69
    } else {
        0
    }
}

/// A muted input sample.
pub open spec fn silence_value(b: u8, n: nat) -> u64 {
    bytes::le_value(Seq::new(8, |i: int| b), 0, n) as u64
}

impl AudioConvert {
    pub open spec fn wf(self) -> bool {
        &&& convertible(self.from, self.to)
        &&& forall|i: int| 0 <= i < 8 ==> self.silence@[i] == silence_byte(self.from)
        &&& self.simd_bps matches Some(n) ==> {
            &&& n == self.from.spec_bytes()
            &&& self.from == self.to
            &&& self.ch_map is None
        }
    }

    /// Every output channel is muted or made from one of the first `n` channels.
    pub open spec fn feeds_on(self, n: int) -> bool {
        &&& self.ch_map matches Some(m) ==> m@.len() >= self.channels
        &&& forall|ch: int| 0 <= ch < self.channels ==> #[trigger] self.source(ch) < n
    }

    /// Input channel that output channel `ch` is made from, negative for none.
    pub open spec fn source(self, ch: int) -> int {
        match self.ch_map {
            Some(m) => m@[ch] as int,
            None => ch,
        }
    }

    /// A converter from `in_fmt` to `out_fmt`. With one channel the packed and
    /// the planar form of a format are the same.
    pub fn new(
        out_fmt: SampleFormat,
        in_fmt: SampleFormat,
        channels: usize,
        ch_map: Option<&[i32]>,
    ) -> (r: Result<AudioConvert, Error>)
        ensures
            r.is_ok() == convertible(in_fmt.spec_packed(), out_fmt.spec_packed()),
            r matches Ok(c) ==> {
                &&& c.wf()
                &&& c.channels == channels
                &&& c.from == in_fmt.spec_packed()
                &&& c.to == out_fmt.spec_packed()
                &&& c.simd_bps.is_some() == (ch_map is None && (out_fmt == in_fmt || (channels == 1
                    && out_fmt.spec_packed() == in_fmt.spec_packed())))
                &&& c.ch_map.is_some() == ch_map.is_some()
                &&& ch_map matches Some(m) ==> c.ch_map->0@ == m@
            },
            r matches Err(e) ==> if in_fmt == SampleFormat::Dsd && out_fmt.spec_packed()
                == SampleFormat::Flt {
                e.is_unsupported(
                    "DSD to float conversion requires dsd2pcm (libswresample/dsd2pcm.c), which is not ported"@,
                )
            } else {
                e.is_unsupported(
                    "cannot convert sample format "@ + in_fmt.spec_name() + " to "@
                        + out_fmt.spec_name(),
                )
            },
    {
        let from: SampleFormat = in_fmt.packed();
        let to: SampleFormat = out_fmt.packed();
        if from == SampleFormat::Dsd && to == SampleFormat::Flt {
            return Err(
                unsupported(
                    "DSD to float conversion requires dsd2pcm (libswresample/dsd2pcm.c), which is not ported",
                ),
            );
        }
        if !conv_pair(from, to) {
            let mut t: String = "cannot convert sample format ".to_owned();
            t.append(in_fmt.name());
            t.append(" to ");
            t.append(out_fmt.name());
            return Err(Error::Unsupported(t));
        }
        let same: bool = out_fmt == in_fmt || (channels == 1 && from == to);
        let map: Option<Vec<i32>> = match ch_map {
            Some(m) => Some(vstd::slice::slice_to_vec(m)),
            None => None,
        };
        let silence: [u8; 8] = match from {
            SampleFormat::U8 => [0x80u8; 8],
            SampleFormat::Dsd => [0x69u8; 8],
            _ => [0u8; 8],
        };
        let simd_bps: Option<usize> = match &map {
            None => if same {
                Some(from.bytes_per_sample())
            } else {
                None
            },
            Some(_) => None,
        };
        Ok(AudioConvert { channels, from, to, simd_bps, ch_map: map, silence })
    }
}

/// Bytes from one sample of a channel to the next.
pub open spec fn stride(a: AudioData) -> int {
    if a.planar {
        a.bps as int
    } else {
        a.ch_count * a.bps
    }
}

/// Whether `len` samples of channel `ch` lie in the bytes that it can reach.
pub open spec fn reaches(a: AudioData, ch: int, len: int) -> bool {
    a.has_plane(ch) && a.plane_start(ch) + (len - 1) * stride(a) + a.bps <= a.plane_end(ch)
}

/// Channel `ch` can be converted: its source is there, and so is room for the
/// result. A converter that is no plain copy skips output channels that lie
/// outside the output buffer.
pub open spec fn channel_fits(
    ctx: AudioConvert,
    out: AudioData,
    input: AudioData,
    ch: int,
    len: int,
) -> bool {
    &&& ctx.source(ch) < 0 || reaches(input, ctx.source(ch), len)
    &&& if out.has_plane(ch) {
        reaches(out, ch, len)
    } else {
        ctx.simd_bps is None
    }
}

/// What sample `i` of output channel `ch` becomes.
pub open spec fn converted(ctx: AudioConvert, input: AudioData, ch: int, i: int) -> u64 {
    conv_value(
        ctx.from,
        ctx.to,
        if ctx.source(ch) < 0 {
            silence_value(silence_byte(ctx.from), ctx.from.spec_bytes())
        } else {
            input.raw(ctx.source(ch), i)
        },
    )
}

proof fn lemma_position(a: AudioData, ch: int, i: int)
    ensures
        at(a.plane_start(ch), i, stride(a)) == a.slot(ch, i) * a.bps,
{
    let b = a.bps as int;
    let n = a.count as int;
    let m = a.ch_count as int;
    if a.planar {
        assert((ch * n + i) * b == ch * n * b + i * b) by (nonlinear_arith);
    } else {
        assert((i * m + ch) * b == ch * b + i * (m * b)) by (nonlinear_arith);
    }
}

/// Where `len` samples of channel `ch` start and how far they lie apart, if the
/// buffer holds them.
fn locate(a: &AudioData, ch: usize, len: usize) -> (r: Option<(usize, usize)>)
    requires
        len > 0,
        1 <= a.bps <= 8,
        ch < a.ch_count,
    ensures
        r.is_some() == reaches(*a, ch as int, len as int),
        r matches Some((off, step)) ==> off == a.plane_start(ch as int) && step >= a.bps && (len > 1
            ==> step == stride(*a)) && step <= stride(*a),
{
    match a.plane_bounds(ch) {
        None => None,
        Some((s, e)) => {
            let step: u128 = if a.planar {
                a.bps as u128
            } else {
                proof {
                    assert(a.ch_count * a.bps <= 0xffff_ffff_ffff_ffff * 8) by (nonlinear_arith)
                        requires
                            0 <= a.ch_count <= 0xffff_ffff_ffff_ffff,
                            0 <= a.bps <= 8,
                    ;
                    assert(a.ch_count * a.bps >= a.bps) by (nonlinear_arith)
                        requires
                            a.ch_count >= 1,
                            a.bps >= 0,
                    ;
                }
                (a.ch_count as u128) * (a.bps as u128)
            };
            assert(step == stride(*a));
            let room: usize = e - s;
            if len == 1 {
                proof {
                    lemma_mul_basics(stride(*a));
                }
                return if room >= a.bps {
                    Some((s, a.bps))
                } else {
                    None
                };
            }
            if step > room as u128 {
                proof {
                    assert((len - 1) * step >= step) by (nonlinear_arith)
                        requires
                            len - 1 >= 1,
                            step >= 0,
                    ;
                }
                return None;
            }
            proof {
                assert((len - 1) * step <= 0xffff_ffff_ffff_ffff * 0xffff_ffff_ffff_ffff) by (nonlinear_arith)
                    requires
                        0 <= len - 1 <= 0xffff_ffff_ffff_ffff,
                        0 <= step <= 0xffff_ffff_ffff_ffff,
                ;
            }
            let need: u128 = ((len - 1) as u128) * step + a.bps as u128;
            if need <= room as u128 {
                Some((s, step as usize))
            } else {
                None
            }
        },
    }
}

/// Everything the converter leaves alone: bytes outside the first `len` samples
/// of the first `upto` channels, as far as those lie in the buffer.
pub open spec fn untouched(out: AudioData, upto: int, len: int, k: int) -> bool {
    forall|ch: int, i: int|
        0 <= ch < upto && 0 <= i < len && out.has_plane(ch) ==> !(#[trigger] out.slot(ch, i)
            * out.bps <= k < out.slot(ch, i) * out.bps + out.bps)
}

/// Converts `len` samples of every channel.
#[verifier::rlimit(60)]
pub fn swri_audio_convert(
    ctx: &AudioConvert,
    out: &mut AudioData,
    input: &AudioData,
    len: usize,
) -> (r: Result<(), Error>)
    requires
        ctx.wf(),
        old(out).bps == ctx.to.spec_bytes(),
        input.bps == ctx.from.spec_bytes(),
        len > 0 ==> ctx.feeds_on(input.ch_count as int),
        ctx.simd_bps is Some ==> input.ch_count == ctx.channels && (old(out).planar == input.planar
            || ctx.channels == 1),
    ensures
        final(out).same_shape(*old(out)),
        final(out).count == old(out).count,
        final(out).data@.len() == old(out).data@.len(),
        ctx.channels != old(out).ch_count ==> *final(out) == *old(out) && (r matches Err(e)
            && e.is_invalid(
            "swri_audioconvert: out channel count does not match the converter context"@,
        )),
        ctx.channels == old(out).ch_count && len == 0 ==> *final(out) == *old(out) && r is Ok,
        ctx.channels == old(out).ch_count && len > 0 ==> {
            &&& r.is_ok() == forall|ch: int|
                0 <= ch < ctx.channels ==> #[trigger] channel_fits(
                    *ctx,
                    *old(out),
                    *input,
                    ch,
                    len as int,
                )
            &&& r matches Err(e) ==> e == Error::BufferTooSmall
            &&& r is Ok ==> forall|ch: int, i: int|
                0 <= ch < ctx.channels && 0 <= i < len && old(out).has_plane(ch)
                    ==> #[trigger] final(out).raw(ch, i) == converted(*ctx, *input, ch, i)
            &&& r is Ok ==> forall|k: int|
                0 <= k < old(out).data@.len() && untouched(
                    *old(out),
                    ctx.channels as int,
                    len as int,
                    k,
                ) ==> #[trigger] final(out).data@[k] == old(out).data@[k]
        },
{
    if ctx.channels != out.ch_count {
        return Err(
            invalid("swri_audioconvert: out channel count does not match the converter context"),
        );
    }
    if len == 0 {
        return Ok(());
    }
    let ghost o = *out;
    let n: usize = ctx.channels;
    let mut ch: usize = 0;
    while ch < n
        invariant
            ch <= n,
            o == *old(out),
            n == ctx.channels,
            n == o.ch_count,
            len > 0,
            ctx.wf(),
            o.bps == ctx.to.spec_bytes(),
            input.bps == ctx.from.spec_bytes(),
            ctx.feeds_on(input.ch_count as int),
            out.same_shape(o),
            out.count == o.count,
            out.data@.len() == o.data@.len(),
            forall|c: int|
                0 <= c < ch ==> #[trigger] channel_fits(*ctx, o, *input, c, len as int),
            forall|c: int, i: int|
                0 <= c < ch && 0 <= i < len && o.has_plane(c) ==> #[trigger] out.raw(c, i)
                    == converted(*ctx, *input, c, i),
            forall|k: int|
                0 <= k < o.data@.len() && untouched(o, n as int, len as int, k)
                    ==> #[trigger] out.data@[k] == o.data@[k],
        decreases n - ch,
    {
        let ich: i32 = match &ctx.ch_map {
            Some(m) => m[ch],
            None => 0,
        };
        let muted: bool = ctx.ch_map.is_some() && ich < 0;
        let src: usize = if ctx.ch_map.is_some() && !muted {
            ich as usize
        } else if muted {
            0
        } else {
            ch
        };
        assert(muted == (ctx.source(ch as int) < 0));
        assert(!muted ==> src == ctx.source(ch as int));
        let (pi_off, is): (usize, usize) = if muted {
            (0, 0)
        } else {
            match locate(input, src, len) {
                Some(p) => p,
                None => {
                    assert(!channel_fits(*ctx, o, *input, ch as int, len as int));
                    return Err(Error::BufferTooSmall);
                },
            }
        };
        let present: bool = out.plane_bounds(ch).is_some();
        assert(present == o.has_plane(ch as int));
        if !present {
            if ctx.simd_bps.is_some() {
                assert(!channel_fits(*ctx, o, *input, ch as int, len as int));
                return Err(Error::BufferTooSmall);
            }
        } else {
            let (po_off, os): (usize, usize) = match locate(out, ch, len) {
                Some(p) => p,
                None => {
                    assert(!reaches(o, ch as int, len as int));
                    assert(!channel_fits(*ctx, o, *input, ch as int, len as int));
                    return Err(Error::BufferTooSmall);
                },
            };
            let pi: &[u8] = if muted {
                ctx.silence.as_slice()
            } else {
                input.data.as_slice()
            };
            let ghost before = *out;
            proof {
                assert(reaches(o, ch as int, len as int));
                lemma_mul_basics(os as int);
                lemma_mul_basics(is as int);
                lemma_mul_basics(stride(o));
                lemma_mul_basics(stride(*input));
                if muted {
                    assert((len - 1) * is == 0) by (nonlinear_arith)
                        requires
                            is == 0,
                    ;
                }
            }
            conv_run(ctx.from, ctx.to, out.data.as_mut_slice(), po_off, os, pi, pi_off, is, len);
            proof {
                lemma_channel_done(
                    *ctx,
                    o,
                    before,
                    *out,
                    *input,
                    pi@,
                    ch as int,
                    len as int,
                    po_off as int,
                    os as int,
                    pi_off as int,
                    is as int,
                );
            }
        }
        ch = ch + 1;
    }
    Ok(())
}

/// One finished channel: its samples are converted, the others stand.
proof fn lemma_channel_done(
    ctx: AudioConvert,
    o: AudioData,
    before: AudioData,
    after: AudioData,
    input: AudioData,
    pi: Seq<u8>,
    ch: int,
    len: int,
    po_off: int,
    os: int,
    pi_off: int,
    is: int,
)
    requires
        ctx.wf(),
        0 <= ch < o.ch_count,
        len > 0,
        o.bps == ctx.to.spec_bytes(),
        input.bps == ctx.from.spec_bytes(),
        before.same_shape(o),
        before.count == o.count,
        before.data@.len() == o.data@.len(),
        after.same_shape(o),
        after.count == o.count,
        after.data@.len() == o.data@.len(),
        reaches(o, ch, len),
        po_off == o.plane_start(ch),
        len > 1 ==> os == stride(o),
        ctx.source(ch) < 0 ==> pi == ctx.silence@ && pi_off == 0 && is == 0,
        ctx.source(ch) >= 0 ==> pi == input.data@ && pi_off == input.plane_start(ctx.source(ch)) && (
        len > 1 ==> is == stride(input)),
        forall|i: int|
            0 <= i < len ==> bytes::le_value(after.data@, #[trigger] at(po_off, i, os), ctx.to.spec_bytes())
                == conv_value(
                ctx.from,
                ctx.to,
                bytes::le_value(pi, at(pi_off, i, is), ctx.from.spec_bytes()) as u64,
            ),
        forall|k: int|
            0 <= k < o.data@.len() && (forall|i: int|
                0 <= i < len ==> !(#[trigger] at(po_off, i, os) <= k < at(po_off, i, os)
                    + ctx.to.spec_bytes())) ==> #[trigger] after.data@[k] == before.data@[k],
        forall|c: int, i: int|
            0 <= c < ch && 0 <= i < len && o.has_plane(c) ==> #[trigger] before.raw(c, i)
                == converted(ctx, input, c, i),
        forall|c: int| 0 <= c < ch ==> #[trigger] channel_fits(ctx, o, input, c, len),
        forall|k: int|
            0 <= k < o.data@.len() && untouched(o, o.ch_count as int, len, k)
                ==> #[trigger] before.data@[k] == o.data@[k],
    ensures
        forall|c: int, i: int|
            0 <= c < ch + 1 && 0 <= i < len && o.has_plane(c) ==> #[trigger] after.raw(c, i)
                == converted(ctx, input, c, i),
        forall|k: int|
            0 <= k < o.data@.len() && untouched(o, o.ch_count as int, len, k)
                ==> #[trigger] after.data@[k] == o.data@[k],
{
    let w = o.bps as int;
    assert forall|i: int| 0 <= i < len implies #[trigger] at(po_off, i, os) == o.slot(ch, i) * o.bps by {
        lemma_position(o, ch, i);
        if len == 1 {
            assert(i * os == 0 && i * stride(o) == 0) by (nonlinear_arith)
                requires
                    i == 0,
            ;
        }
    }
    assert forall|c: int, i: int| 0 <= c < ch + 1 && 0 <= i < len && o.has_plane(c) implies
        #[trigger] after.raw(c, i) == converted(ctx, input, c, i) by {
        if c == ch {
            assert(at(po_off, i, os) == o.slot(ch, i) * o.bps);
            if ctx.source(ch) < 0 {
                assert(at(pi_off, i, is) == 0) by (nonlinear_arith)
                    requires
                        at(pi_off, i, is) == pi_off + i * is,
                        pi_off == 0,
                        is == 0,
                ;
                bytes::lemma_le_frame(
                    pi,
                    Seq::new(8, |j: int| silence_byte(ctx.from)),
                    0,
                    ctx.from.spec_bytes(),
                );
            } else {
                lemma_position(input, ctx.source(ch), i);
                if len == 1 {
                    assert(i * is == 0 && i * stride(input) == 0) by (nonlinear_arith)
                        requires
                            i == 0,
                    ;
                }
            }
        } else {
            assert(channel_fits(ctx, o, input, c, len));
            lemma_in_plane(o, c, i, len);
            assert(before.raw(c, i) == converted(ctx, input, c, i));
            assert forall|k: int|
                o.slot(c, i) * w <= k < o.slot(c, i) * w + w implies #[trigger] before.data@[k]
                == after.data@[k] by {
                assert forall|j: int| 0 <= j < len implies !(#[trigger] at(po_off, j, os) <= k < at(
                    po_off,
                    j,
                    os,
                ) + ctx.to.spec_bytes()) by {
                    lemma_in_plane(o, ch, j, len);
                    o.lemma_apart(c, i, ch, j);
                }
            }
            bytes::lemma_le_frame(before.data@, after.data@, o.slot(c, i) * w, o.bps as nat);
        }
    }
    assert forall|k: int|
        0 <= k < o.data@.len() && untouched(o, o.ch_count as int, len, k) implies
        #[trigger] after.data@[k] == o.data@[k] by {
        assert forall|j: int| 0 <= j < len implies !(#[trigger] at(po_off, j, os) <= k < at(
            po_off,
            j,
            os,
        ) + ctx.to.spec_bytes()) by {
            assert(!(o.slot(ch, j) * o.bps <= k < o.slot(ch, j) * o.bps + o.bps));
        }
        assert(before.data@[k] == o.data@[k]);
    }
}

/// A sample that a channel reaches lies inside the buffer, and in a planar one
/// inside the channel's plane.
proof fn lemma_in_plane(a: AudioData, ch: int, i: int, len: int)
    requires
        1 <= a.bps <= 8,
        0 <= ch < a.ch_count,
        0 <= i < len,
        reaches(a, ch, len),
    ensures
        0 <= a.slot(ch, i) * a.bps,
        a.slot(ch, i) * a.bps + a.bps <= a.data@.len(),
        a.planar ==> i < a.count,
{
    let b = a.bps as int;
    lemma_position(a, ch, i);
    assert(0 <= a.plane_start(ch)) by (nonlinear_arith)
        requires
            ch >= 0,
            a.plane_start(ch) == ch * a.count * a.bps || a.plane_start(ch) == ch * a.bps,
    ;
    assert(0 <= stride(a)) by (nonlinear_arith)
        requires
            stride(a) == a.bps || stride(a) == a.ch_count * a.bps,
    ;
    lemma_run(a.plane_start(ch), i, len, stride(a), b, a.plane_end(ch));
    if a.planar {
        assert(i * b + b <= a.count * b);
        assert(i < a.count) by (nonlinear_arith)
            requires
                i * b + b <= a.count * b,
                b >= 1,
        ;
    }
}

// --- whole buffers --------------------------------------------------------------------

/// The first `n` samples of every channel, converted.
pub open spec fn conv_block(ctx: AudioConvert, p: Planes, n: nat) -> Planes {
    Seq::new(
        ctx.channels as nat,
        |ch: int| Seq::new(n, |i: int| conv_sample(ctx, p, ch, i)),
    )
}

/// Sample `i` of channel `ch`, converted.
pub open spec fn conv_sample(ctx: AudioConvert, p: Planes, ch: int, i: int) -> u64 {
    conv_value(
        ctx.from,
        ctx.to,
        if ctx.source(ch) < 0 {
            silence_value(silence_byte(ctx.from), ctx.from.spec_bytes())
        } else {
            p[ctx.source(ch)][i]
        },
    )
}

proof fn lemma_reaches(a: AudioData, ch: int, len: int)
    requires
        a.wf(),
        0 <= ch < a.ch_count,
        0 < len <= a.count,
    ensures
        reaches(a, ch, len),
{
    let b = a.bps as int;
    let n = a.count as int;
    let m = a.ch_count as int;
    a.lemma_in_range(ch, len - 1);
    lemma_position(a, ch, len - 1);
    if a.planar {
        assert((len - 1) * b + b <= n * b) by (nonlinear_arith)
            requires
                len <= n,
                b >= 0,
        ;
        assert(ch * n * b + n * b <= m * n * b) by (nonlinear_arith)
            requires
                ch + 1 <= m,
                n >= 0,
                b >= 0,
        ;
        assert(0 <= n * b) by (nonlinear_arith)
            requires
                n >= 0,
                b >= 0,
        ;
    } else {
        assert((len - 1) * (m * b) >= 0) by (nonlinear_arith)
            requires
                len >= 1,
                m >= 0,
                b >= 0,
        ;
    }
}

/// Converts the first `n` samples of every channel between whole buffers.
pub fn convert_block(ctx: &AudioConvert, out: &mut AudioData, input: &AudioData, n: usize) -> (r: Result<
    (),
    Error,
>)
    requires
        ctx.wf(),
        old(out).wf(),
        input.wf(),
        ctx.channels == old(out).ch_count,
        old(out).bps == ctx.to.spec_bytes(),
        input.bps == ctx.from.spec_bytes(),
        n <= old(out).count,
        n <= input.count,
        n > 0 ==> ctx.feeds_on(input.ch_count as int),
        ctx.simd_bps is Some ==> input.ch_count == ctx.channels && (old(out).planar == input.planar
            || ctx.channels == 1),
    ensures
        r is Ok,
        final(out).wf(),
        final(out).same_shape(*old(out)),
        final(out).count == old(out).count,
        final(out).chans() == audio::planes_splice(
            old(out).chans(),
            0,
            conv_block(*ctx, input.chans(), n as nat),
            n as int,
        ),
{
    let ghost o = *out;
    proof {
        if n > 0 {
            assert forall|ch: int| 0 <= ch < ctx.channels implies #[trigger] channel_fits(
                *ctx,
                o,
                *input,
                ch,
                n as int,
            ) by {
                lemma_reaches(o, ch, n as int);
                if ctx.source(ch) >= 0 {
                    lemma_reaches(*input, ctx.source(ch), n as int);
                }
            }
        }
    }
    let r: Result<(), Error> = swri_audio_convert(ctx, out, input, n);
    proof {
        let want = audio::planes_splice(
            o.chans(),
            0,
            conv_block(*ctx, input.chans(), n as nat),
            n as int,
        );
        assert forall|ch: int, i: int| 0 <= ch < o.ch_count && 0 <= i < o.count implies
            #[trigger] out.raw(ch, i) == want[ch][i] by {
            if i < n {
                lemma_reaches(o, ch, n as int);
                assert(out.raw(ch, i) == converted(*ctx, *input, ch, i));
            } else {
                o.lemma_in_range(ch, i);
                let w = o.bps as int;
                assert forall|k: int| o.slot(ch, i) * w <= k < o.slot(ch, i) * w + w implies
                    #[trigger] out.data@[k] == o.data@[k] by {
                    if n > 0 {
                        assert forall|c2: int, i2: int|
                            0 <= c2 < ctx.channels && 0 <= i2 < n && o.has_plane(c2) implies !(
                        #[trigger] o.slot(c2, i2) * o.bps <= k < o.slot(c2, i2) * o.bps + o.bps) by {
                            o.lemma_apart(ch, i, c2, i2);
                        }
                        assert(untouched(o, ctx.channels as int, n as int, k));
                    }
                }
                bytes::lemma_le_frame(o.data@, out.data@, o.slot(ch, i) * w, o.bps as nat);
            }
        }
        assert forall|ch: int| 0 <= ch < o.ch_count implies out.chans()[ch] == #[trigger] want[ch] by {
            assert(out.chans()[ch] =~= want[ch]);
        }
        assert(out.chans() =~= want);
    }
    r
}

/// A conversion between equal formats, without a channel map, changes nothing.
pub proof fn lemma_conv_same(ctx: AudioConvert, p: Planes, n: nat)
    requires
        ctx.from == ctx.to,
        ctx.ch_map is None,
        p.len() == ctx.channels,
        forall|c: int| 0 <= c < p.len() ==> (#[trigger] p[c]).len() >= n,
    ensures
        conv_block(ctx, p, n) == audio::planes_first(p, n as int),
{
    let a = conv_block(ctx, p, n);
    let b = audio::planes_first(p, n as int);
    assert forall|c: int| 0 <= c < p.len() implies a[c] == #[trigger] b[c] by {
        assert(a[c] =~= b[c]);
    }
    assert(a =~= b);
}

/// The number of a bit pattern, and the pattern of that number.
pub(crate) proof fn lemma_int_there_and_back(fmt: SampleFormat, v: u64)
    requires
        is_int(fmt),
        v < pow2(width(fmt)),
    ensures
        int_raw(fmt, int_value(fmt, v)) == v,
        -pow2((width(fmt) - 1) as nat) <= int_value(fmt, v) < pow2((width(fmt) - 1) as nat),
{
    lemma2_to64();
    lemma2_to64_rest();
}

/// The number of the pattern of a number.
pub(crate) proof fn lemma_raw_value(fmt: SampleFormat, x: int)
    requires
        is_int(fmt),
        -pow2((width(fmt) - 1) as nat) <= x < pow2((width(fmt) - 1) as nat),
    ensures
        int_value(fmt, int_raw(fmt, x)) == x,
{
    lemma2_to64();
    lemma2_to64_rest();
}

/// Samples survive a conversion to an integer format that is not narrower, and
/// back.
pub proof fn lemma_widened_and_back(from: SampleFormat, to: SampleFormat, v: u64)
    requires
        is_int(from),
        is_int(to),
        width(from) <= width(to),
        v < pow2(width(from)),
    ensures
        conv_value(to, from, conv_value(from, to, v)) == v,
{
    if from != to {
        lemma_int_there_and_back(from, v);
        let x = int_value(from, v);
        let d = pow2((width(to) - width(from)) as nat) as int;
        let y = x * d;
        let s = pow2((width(from) - 1) as nat) as int;
        lemma_pow2_adds((width(from) - 1) as nat, (width(to) - width(from)) as nat);
        lemma_pow2_pos((width(to) - width(from)) as nat);
        assert(-(s * d) <= y < s * d) by (nonlinear_arith)
            requires
                -s <= x < s,
                y == x * d,
                d > 0,
        ;
        lemma_raw_value(to, y);
        lemma_div_multiples_vanish(x, d);
        assert(y == d * x) by (nonlinear_arith)
            requires
                y == x * d,
        ;
        assert(width(from) != width(to)) by {
            lemma2_to64();
        }
    }
}

/// Samples survive a conversion to a floating-point format whose significand has
/// room for them, and back: 8 and 16 bits in either, 32 bits in double precision.
pub proof fn lemma_floated_and_back(from: SampleFormat, to: SampleFormat, v: u64)
    requires
        is_int(from),
        is_float(to),
        width(from) <= float_format(to).p(),
        v < pow2(width(from)),
    ensures
        conv_value(to, from, conv_value(from, to, v)) == v,
{
    lemma_int_there_and_back(from, v);
    let x = int_value(from, v);
    let f = float_format(to);
    lemma2_to64();
    lemma2_to64_rest();
    lemma_pow2_strictly_increases((width(from) - 1) as nat, f.p());
    float::lemma_int_exact(f, x, 1 - width(from));
    assert(clipped_int(from, x) == x);
}

/// Silence stays silence.
pub proof fn lemma_silence_kept(from: SampleFormat, to: SampleFormat)
    requires
        is_int(from),
        is_int(to),
    ensures
        conv_value(from, to, int_raw(from, 0)) == int_raw(to, 0),
{
    lemma2_to64();
    lemma2_to64_rest();
    lemma_raw_value(from, 0);
    if width(to) < width(from) {
        let d = pow2((width(from) - width(to)) as nat) as int;
        lemma_pow2_pos((width(from) - width(to)) as nat);
        lemma_div_multiples_vanish(0, d);
        assert(d * 0 == 0);
    }
}

} // verus!
