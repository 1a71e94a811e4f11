//! Where things lie: the bytes of pixels, the channels of layouts, the taps of filters.
use crate::audio::{AudioData, Planes};
use crate::audioconvert;
use crate::audioconvert::AudioConvert;
use crate::bytes;
use crate::calls;
use crate::channel_layout;
use crate::channel_layout::{ChannelLayout, Order};
use crate::convert;
use crate::device;
use crate::pixels::{Frame, PixelFormat};
use crate::samplefmt::SampleFormat;
use crate::rematrix;
use crate::scale;
use crate::scale::Scene;
use crate::text;
use vstd::arithmetic::div_mod::*;
use vstd::arithmetic::power2::*;
use vstd::prelude::*;

verus! {

// --- pixels ---------------------------------------------------------------------------

/// The name of a packed format spells the bytes of its pixels.
pub proof fn lemma_spelled(fmt: PixelFormat)
    requires
        fmt.spec_is_rgb(),
    ensures
        ({
            let (r, g, b) = fmt.spec_offsets();
            let name = fmt.spec_name();
            &&& r < fmt.spec_step() && g < fmt.spec_step() && b < fmt.spec_step()
            &&& r < name.len() && g < name.len() && b < name.len()
            &&& name[r as int] == 'r' && name[g as int] == 'g' && name[b as int] == 'b'
            &&& fmt.spec_step() == 4 <==> name.contains('a')
        }),
{
    reveal_strlit("rgb24");
    reveal_strlit("bgr24");
    reveal_strlit("rgba");
    reveal_strlit("bgra");
    reveal_strlit("argb");
    reveal_strlit("abgr");
    let name = fmt.spec_name();
    match fmt {
        PixelFormat::Rgba | PixelFormat::Bgra => {
            assert(name[3] == 'a');
        },
        PixelFormat::Argb | PixelFormat::Abgr => {
            assert(name[0] == 'a');
        },
        _ => {
            assert(name.len() == 5);
            assert forall|k: int| 0 <= k < name.len() implies name[k] != 'a' by {
                assert(k == 0 || k == 1 || k == 2 || k == 3 || k == 4);
            }
        },
    }
}

/// A pixel of a painted picture shows its color, byte by byte.
pub proof fn lemma_painted_pixel(
    scene: Scene,
    planes: Seq<Seq<u8>>,
    fmt: PixelFormat,
    plane: Seq<u8>,
    x: int,
    y: int,
)
    requires
        fmt.spec_is_rgb(),
        0 <= x < scene.dst.0,
        0 <= y < scene.dst.1,
        plane.len() == scene.dst.0 * scene.dst.1 * fmt.spec_step(),
    ensures
        ({
            let p = scale::painted(scene, planes, fmt, plane);
            let at = (y * scene.dst.0 + x) * fmt.spec_step();
            let (r, g, b) = fmt.spec_offsets();
            let c = scene.color(planes, x, y);
            &&& p[at + r] == c.0 as u8
            &&& p[at + g] == c.1 as u8
            &&& p[at + b] == c.2 as u8
            &&& forall|k: int|
                0 <= k < fmt.spec_step() && k != r && k != g && k != b ==> #[trigger] p[at + k]
                    == plane[at + k]
        }),
{
    let step = fmt.spec_step() as int;
    let (w, h) = (scene.dst.0 as int, scene.dst.1 as int);
    let i = y * w + x;
    let at = i * step;
    assert(0 <= i < w * h) by (nonlinear_arith)
        requires
            i == y * w + x,
            0 <= x < w,
            0 <= y <= h - 1,
    ;
    assert(0 <= at && at + step <= w * h * step) by (nonlinear_arith)
        requires
            at == i * step,
            0 <= i <= w * h - 1,
            step >= 3,
    ;
    lemma_fundamental_div_mod_converse(i, w, y, x);
    assert forall|k: int| 0 <= k < step implies (#[trigger] (at + k)) / step == i && (at + k) % step == k by {
        lemma_fundamental_div_mod_converse(at + k, step, i, k);
    }
    let (r, g, b) = fmt.spec_offsets();
    assert((at + r) / step == i && (at + g) / step == i && (at + b) / step == i);
    let p = scale::painted(scene, planes, fmt, plane);
    assert forall|k: int| 0 <= k < step && k != r && k != g && k != b implies #[trigger] p[at + k]
        == plane[at + k] by {
        assert((at + k) % step == k);
    }
}

/// A pixel that a device gives shows in every packed format the same color.
pub proof fn lemma_repacked_pixel(data: Seq<u8>, fmt: PixelFormat, plane: Seq<u8>, i: int)
    requires
        fmt.spec_is_rgb(),
        0 <= i,
        (i + 1) * fmt.spec_step() <= plane.len(),
    ensures
        ({
            let p = device::repacked(data, fmt, plane);
            let at = i * fmt.spec_step();
            let (r, g, b) = fmt.spec_offsets();
            &&& p[at + r] == data[4 * i]
            &&& p[at + g] == data[4 * i + 1]
            &&& p[at + b] == data[4 * i + 2]
            &&& forall|k: int|
                0 <= k < fmt.spec_step() && k != r && k != g && k != b ==> #[trigger] p[at + k]
                    == plane[at + k]
        }),
{
    let step = fmt.spec_step() as int;
    let at = i * step;
    assert((i + 1) * step == at + step && at >= 0) by (nonlinear_arith)
        requires
            at == i * step,
            i >= 0,
            step >= 0,
    ;
    assert forall|k: int| 0 <= k < step implies (#[trigger] (at + k)) / step == i && (at + k) % step == k by {
        lemma_fundamental_div_mod_converse(at + k, step, i, k);
    }
    let (r, g, b) = fmt.spec_offsets();
    assert((at + r) / step == i && (at + g) / step == i && (at + b) / step == i);
    let p = device::repacked(data, fmt, plane);
    assert forall|k: int| 0 <= k < step && k != r && k != g && k != b implies #[trigger] p[at + k]
        == plane[at + k] by {
        assert((at + k) % step == k);
    }
}

/// The digits of a format's name tell how many chroma samples there are to four luma
/// pixels of a row and of the row below it.
pub proof fn lemma_subsampled(f: Frame, p: int)
    requires
        f.format.spec_planes() == 3,
        1 <= p < 3,
        f.width % 2 == 0,
        f.height % 2 == 0,
    ensures
        ({
            let name = f.format.spec_name();
            let (a, b) = (name[4] as int - '0' as int, name[5] as int - '0' as int);
            let chroma = f.columns(p) * f.rows(p);
            &&& name.len() == 7
            &&& name[3] == '4'
            &&& 8 * chroma == (a + b) * (f.columns(0) * f.rows(0))
            &&& f.columns(0) == f.width && f.rows(0) == f.height
            &&& 4 * f.columns(p) == a * f.width
        }),
{
    reveal_strlit("yuv420p");
    reveal_strlit("yuv422p");
    reveal_strlit("yuv444p");
    let (w, h) = (f.width as int, f.height as int);
    let (x, y) = (w / 2, h / 2);
    assert(w == 2 * x && h == 2 * y);
    assert(8 * (x * y) == 2 * (w * h)) by (nonlinear_arith)
        requires
            w == 2 * x,
            h == 2 * y,
    ;
    assert(8 * (x * h) == 4 * (w * h)) by (nonlinear_arith)
        requires
            w == 2 * x,
    ;
}

// --- channels -------------------------------------------------------------------------

proof fn lemma_counted(mask: u64, a: nat, b: nat)
    requires
        a <= b,
    ensures
        channel_layout::count_below(mask, a) <= channel_layout::count_below(mask, b),
    decreases b - a,
{
    if a < b {
        lemma_counted(mask, a, (b - 1) as nat);
    }
}

/// Channels are in the order of their speakers, one behind the other from the first on.
pub proof fn lemma_channel_order(l: ChannelLayout, a: u32, b: u32)
    requires
        l.order == Order::Native,
        l.valid(),
        a < b < 64,
        l.index_of(a) is Some,
        l.index_of(b) is Some,
    ensures
        l.index_of(a)->0 < l.index_of(b)->0 < l.nb_channels,
        (forall|c: u32| a < c < b ==> l.index_of(c) is None) ==> l.index_of(b)->0 == l.index_of(a)->0
            + 1,
        (forall|c: u32| c < a ==> l.index_of(c) is None) ==> l.index_of(a)->0 == 0,
{
    lemma_counted(l.mask, (a + 1) as nat, b as nat);
    lemma_counted(l.mask, (b + 1) as nat, 64);
    if forall|c: u32| a < c < b ==> l.index_of(c) is None {
        lemma_gap(l, (a + 1) as nat, b as nat);
    }
    if forall|c: u32| c < a ==> l.index_of(c) is None {
        lemma_gap(l, 0, a as nat);
    }
}

proof fn lemma_gap(l: ChannelLayout, a: nat, b: nat)
    requires
        l.order == Order::Native,
        a <= b <= 64,
        forall|c: u32| a <= c < b ==> l.index_of(c) is None,
    ensures
        channel_layout::count_below(l.mask, a) == channel_layout::count_below(l.mask, b),
    decreases b - a,
{
    if a < b {
        lemma_gap(l, a, (b - 1) as nat);
        assert(l.index_of((b - 1) as u32) is None);
    }
}

/// With a channel map every channel is made of the one that the map tells, and one
/// without a source is silent.
pub proof fn lemma_mapped(ctx: AudioConvert, p: Planes, m: Vec<i32>, ch: int, i: int, n: nat)
    requires
        ctx.ch_map == Some(m),
        0 <= ch < ctx.channels,
        0 <= i < n,
    ensures
        m@[ch] >= 0 ==> audioconvert::conv_block(ctx, p, n)[ch][i] == audioconvert::conv_value(
            ctx.from,
            ctx.to,
            p[m@[ch] as int][i],
        ),
        m@[ch] < 0 && audioconvert::is_int(ctx.from) && audioconvert::is_int(ctx.to)
            ==> audioconvert::int_value(ctx.to, audioconvert::conv_block(ctx, p, n)[ch][i]) == 0,
{
    if m@[ch] < 0 && audioconvert::is_int(ctx.from) && audioconvert::is_int(ctx.to) {
        let b = audioconvert::silence_byte(ctx.from);
        let q = Seq::new(8, |k: int| b);
        let v = audioconvert::silence_value(b, ctx.from.spec_bytes());
        reveal_with_fuel(bytes::le_value, 9);
        assert(v == audioconvert::int_raw(ctx.from, 0));
        audioconvert::lemma_silence_kept(ctx.from, ctx.to);
        lemma2_to64();
        lemma2_to64_rest();
        audioconvert::lemma_raw_value(ctx.to, 0);
    }
}

/// Silence is silent: the bytes that are put in for it stand for the number zero.
pub proof fn lemma_silence(fmt: SampleFormat)
    requires
        audioconvert::is_int(fmt) || audioconvert::is_float(fmt),
    ensures
        ({
            let b = Seq::new(8, |k: int| calls::silent_byte(fmt));
            let v = bytes::le_value(b, 0, fmt.spec_bytes()) as u64;
            &&& audioconvert::is_int(fmt) ==> audioconvert::int_value(fmt, v) == 0
            &&& audioconvert::is_float(fmt) ==> v == 0
            &&& calls::silent_byte(fmt) == audioconvert::silence_byte(fmt)
        }),
{
    reveal_with_fuel(bytes::le_value, 9);
    lemma2_to64();
    lemma2_to64_rest();
}

// --- samples --------------------------------------------------------------------------

/// Packed samples lie instant by instant and within an instant channel by channel,
/// planar ones each channel on its own; and there are no gaps.
pub proof fn lemma_interleaved(a: AudioData, c: int, i: int)
    requires
        a.ch_count >= 1,
        0 <= c < a.ch_count,
        0 <= i,
    ensures
        convert::byte_of(a, 0, 0) == 0,
        a.planar ==> {
            &&& convert::plane_of(a, c) == c
            &&& convert::byte_of(a, c, 0) == 0
            &&& convert::byte_of(a, c, i + 1) == convert::byte_of(a, c, i) + a.bps
            &&& convert::bytes_needed(a, i) == convert::byte_of(a, c, i)
        },
        !a.planar ==> {
            &&& convert::plane_of(a, c) == 0
            &&& convert::byte_of(a, c + 1, i) == convert::byte_of(a, c, i) + a.bps
            &&& convert::byte_of(a, 0, i + 1) == convert::byte_of(a, a.ch_count - 1, i) + a.bps
            &&& convert::bytes_needed(a, i) == convert::byte_of(a, 0, i)
        },
{
    let (n, b) = (a.ch_count as int, a.bps as int);
    assert(0 * b == 0 && (0 * n + 0) * b == 0) by (nonlinear_arith);
    assert((i + 1) * b == i * b + b) by (nonlinear_arith);
    assert((i * n + (c + 1)) * b == (i * n + c) * b + b) by (nonlinear_arith);
    assert(((i + 1) * n + 0) * b == (i * n + (n - 1)) * b + b) by (nonlinear_arith);
    assert(i * n * b == (i * n + 0) * b) by (nonlinear_arith);
}

proof fn lemma_usual_pairs()
    by (bit_vector)
    ensures
        ((0x4u64 >> 0u32) & 1) == ((0x4u64 >> 1u32) & 1),
        ((0x4u64 >> 4u32) & 1) == ((0x4u64 >> 5u32) & 1),
        ((0x4u64 >> 6u32) & 1) == ((0x4u64 >> 7u32) & 1),
        ((0x4u64 >> 9u32) & 1) == ((0x4u64 >> 10u32) & 1),
        ((0x4u64 >> 12u32) & 1) == ((0x4u64 >> 14u32) & 1),
        ((0x4u64 >> 15u32) & 1) == ((0x4u64 >> 17u32) & 1),
        ((0x4u64 >> 36u32) & 1) == ((0x4u64 >> 37u32) & 1),
        ((0x4u64 >> 39u32) & 1) == ((0x4u64 >> 40u32) & 1),
        ((0x4u64 >> 2u32) & 1) == 1,
        ((0x3u64 >> 0u32) & 1) == ((0x3u64 >> 1u32) & 1),
        ((0x3u64 >> 4u32) & 1) == ((0x3u64 >> 5u32) & 1),
        ((0x3u64 >> 6u32) & 1) == ((0x3u64 >> 7u32) & 1),
        ((0x3u64 >> 9u32) & 1) == ((0x3u64 >> 10u32) & 1),
        ((0x3u64 >> 12u32) & 1) == ((0x3u64 >> 14u32) & 1),
        ((0x3u64 >> 15u32) & 1) == ((0x3u64 >> 17u32) & 1),
        ((0x3u64 >> 36u32) & 1) == ((0x3u64 >> 37u32) & 1),
        ((0x3u64 >> 39u32) & 1) == ((0x3u64 >> 40u32) & 1),
        ((0x3u64 >> 0u32) & 1) == 1,
        ((0xbu64 >> 0u32) & 1) == ((0xbu64 >> 1u32) & 1),
        ((0xbu64 >> 4u32) & 1) == ((0xbu64 >> 5u32) & 1),
        ((0xbu64 >> 6u32) & 1) == ((0xbu64 >> 7u32) & 1),
        ((0xbu64 >> 9u32) & 1) == ((0xbu64 >> 10u32) & 1),
        ((0xbu64 >> 12u32) & 1) == ((0xbu64 >> 14u32) & 1),
        ((0xbu64 >> 15u32) & 1) == ((0xbu64 >> 17u32) & 1),
        ((0xbu64 >> 36u32) & 1) == ((0xbu64 >> 37u32) & 1),
        ((0xbu64 >> 39u32) & 1) == ((0xbu64 >> 40u32) & 1),
        ((0xbu64 >> 0u32) & 1) == 1,
        ((0x107u64 >> 0u32) & 1) == ((0x107u64 >> 1u32) & 1),
        ((0x107u64 >> 4u32) & 1) == ((0x107u64 >> 5u32) & 1),
        ((0x107u64 >> 6u32) & 1) == ((0x107u64 >> 7u32) & 1),
        ((0x107u64 >> 9u32) & 1) == ((0x107u64 >> 10u32) & 1),
        ((0x107u64 >> 12u32) & 1) == ((0x107u64 >> 14u32) & 1),
        ((0x107u64 >> 15u32) & 1) == ((0x107u64 >> 17u32) & 1),
        ((0x107u64 >> 36u32) & 1) == ((0x107u64 >> 37u32) & 1),
        ((0x107u64 >> 39u32) & 1) == ((0x107u64 >> 40u32) & 1),
        ((0x107u64 >> 0u32) & 1) == 1,
        ((0x37u64 >> 0u32) & 1) == ((0x37u64 >> 1u32) & 1),
        ((0x37u64 >> 4u32) & 1) == ((0x37u64 >> 5u32) & 1),
        ((0x37u64 >> 6u32) & 1) == ((0x37u64 >> 7u32) & 1),
        ((0x37u64 >> 9u32) & 1) == ((0x37u64 >> 10u32) & 1),
        ((0x37u64 >> 12u32) & 1) == ((0x37u64 >> 14u32) & 1),
        ((0x37u64 >> 15u32) & 1) == ((0x37u64 >> 17u32) & 1),
        ((0x37u64 >> 36u32) & 1) == ((0x37u64 >> 37u32) & 1),
        ((0x37u64 >> 39u32) & 1) == ((0x37u64 >> 40u32) & 1),
        ((0x37u64 >> 0u32) & 1) == 1,
        ((0x3fu64 >> 0u32) & 1) == ((0x3fu64 >> 1u32) & 1),
        ((0x3fu64 >> 4u32) & 1) == ((0x3fu64 >> 5u32) & 1),
        ((0x3fu64 >> 6u32) & 1) == ((0x3fu64 >> 7u32) & 1),
        ((0x3fu64 >> 9u32) & 1) == ((0x3fu64 >> 10u32) & 1),
        ((0x3fu64 >> 12u32) & 1) == ((0x3fu64 >> 14u32) & 1),
        ((0x3fu64 >> 15u32) & 1) == ((0x3fu64 >> 17u32) & 1),
        ((0x3fu64 >> 36u32) & 1) == ((0x3fu64 >> 37u32) & 1),
        ((0x3fu64 >> 39u32) & 1) == ((0x3fu64 >> 40u32) & 1),
        ((0x3fu64 >> 0u32) & 1) == 1,
        ((0x70fu64 >> 0u32) & 1) == ((0x70fu64 >> 1u32) & 1),
        ((0x70fu64 >> 4u32) & 1) == ((0x70fu64 >> 5u32) & 1),
        ((0x70fu64 >> 6u32) & 1) == ((0x70fu64 >> 7u32) & 1),
        ((0x70fu64 >> 9u32) & 1) == ((0x70fu64 >> 10u32) & 1),
        ((0x70fu64 >> 12u32) & 1) == ((0x70fu64 >> 14u32) & 1),
        ((0x70fu64 >> 15u32) & 1) == ((0x70fu64 >> 17u32) & 1),
        ((0x70fu64 >> 36u32) & 1) == ((0x70fu64 >> 37u32) & 1),
        ((0x70fu64 >> 39u32) & 1) == ((0x70fu64 >> 40u32) & 1),
        ((0x70fu64 >> 0u32) & 1) == 1,
        ((0x63fu64 >> 0u32) & 1) == ((0x63fu64 >> 1u32) & 1),
        ((0x63fu64 >> 4u32) & 1) == ((0x63fu64 >> 5u32) & 1),
        ((0x63fu64 >> 6u32) & 1) == ((0x63fu64 >> 7u32) & 1),
        ((0x63fu64 >> 9u32) & 1) == ((0x63fu64 >> 10u32) & 1),
        ((0x63fu64 >> 12u32) & 1) == ((0x63fu64 >> 14u32) & 1),
        ((0x63fu64 >> 15u32) & 1) == ((0x63fu64 >> 17u32) & 1),
        ((0x63fu64 >> 36u32) & 1) == ((0x63fu64 >> 37u32) & 1),
        ((0x63fu64 >> 39u32) & 1) == ((0x63fu64 >> 40u32) & 1),
        ((0x63fu64 >> 0u32) & 1) == 1,
        ((0x2d03fu64 >> 0u32) & 1) == ((0x2d03fu64 >> 1u32) & 1),
        ((0x2d03fu64 >> 4u32) & 1) == ((0x2d03fu64 >> 5u32) & 1),
        ((0x2d03fu64 >> 6u32) & 1) == ((0x2d03fu64 >> 7u32) & 1),
        ((0x2d03fu64 >> 9u32) & 1) == ((0x2d03fu64 >> 10u32) & 1),
        ((0x2d03fu64 >> 12u32) & 1) == ((0x2d03fu64 >> 14u32) & 1),
        ((0x2d03fu64 >> 15u32) & 1) == ((0x2d03fu64 >> 17u32) & 1),
        ((0x2d03fu64 >> 36u32) & 1) == ((0x2d03fu64 >> 37u32) & 1),
        ((0x2d03fu64 >> 39u32) & 1) == ((0x2d03fu64 >> 40u32) & 1),
        ((0x2d03fu64 >> 0u32) & 1) == 1,
        ((0x2d63fu64 >> 0u32) & 1) == ((0x2d63fu64 >> 1u32) & 1),
        ((0x2d63fu64 >> 4u32) & 1) == ((0x2d63fu64 >> 5u32) & 1),
        ((0x2d63fu64 >> 6u32) & 1) == ((0x2d63fu64 >> 7u32) & 1),
        ((0x2d63fu64 >> 9u32) & 1) == ((0x2d63fu64 >> 10u32) & 1),
        ((0x2d63fu64 >> 12u32) & 1) == ((0x2d63fu64 >> 14u32) & 1),
        ((0x2d63fu64 >> 15u32) & 1) == ((0x2d63fu64 >> 17u32) & 1),
        ((0x2d63fu64 >> 36u32) & 1) == ((0x2d63fu64 >> 37u32) & 1),
        ((0x2d63fu64 >> 39u32) & 1) == ((0x2d63fu64 >> 40u32) & 1),
        ((0x2d63fu64 >> 0u32) & 1) == 1,
        ((0x2d6ffu64 >> 0u32) & 1) == ((0x2d6ffu64 >> 1u32) & 1),
        ((0x2d6ffu64 >> 4u32) & 1) == ((0x2d6ffu64 >> 5u32) & 1),
        ((0x2d6ffu64 >> 6u32) & 1) == ((0x2d6ffu64 >> 7u32) & 1),
        ((0x2d6ffu64 >> 9u32) & 1) == ((0x2d6ffu64 >> 10u32) & 1),
        ((0x2d6ffu64 >> 12u32) & 1) == ((0x2d6ffu64 >> 14u32) & 1),
        ((0x2d6ffu64 >> 15u32) & 1) == ((0x2d6ffu64 >> 17u32) & 1),
        ((0x2d6ffu64 >> 36u32) & 1) == ((0x2d6ffu64 >> 37u32) & 1),
        ((0x2d6ffu64 >> 39u32) & 1) == ((0x2d6ffu64 >> 40u32) & 1),
        ((0x2d6ffu64 >> 0u32) & 1) == 1,
        ((0x300002d6ffu64 >> 0u32) & 1) == ((0x300002d6ffu64 >> 1u32) & 1),
        ((0x300002d6ffu64 >> 4u32) & 1) == ((0x300002d6ffu64 >> 5u32) & 1),
        ((0x300002d6ffu64 >> 6u32) & 1) == ((0x300002d6ffu64 >> 7u32) & 1),
        ((0x300002d6ffu64 >> 9u32) & 1) == ((0x300002d6ffu64 >> 10u32) & 1),
        ((0x300002d6ffu64 >> 12u32) & 1) == ((0x300002d6ffu64 >> 14u32) & 1),
        ((0x300002d6ffu64 >> 15u32) & 1) == ((0x300002d6ffu64 >> 17u32) & 1),
        ((0x300002d6ffu64 >> 36u32) & 1) == ((0x300002d6ffu64 >> 37u32) & 1),
        ((0x300002d6ffu64 >> 39u32) & 1) == ((0x300002d6ffu64 >> 40u32) & 1),
        ((0x300002d6ffu64 >> 0u32) & 1) == 1,
        ((0x1f80003ffffu64 >> 0u32) & 1) == ((0x1f80003ffffu64 >> 1u32) & 1),
        ((0x1f80003ffffu64 >> 4u32) & 1) == ((0x1f80003ffffu64 >> 5u32) & 1),
        ((0x1f80003ffffu64 >> 6u32) & 1) == ((0x1f80003ffffu64 >> 7u32) & 1),
        ((0x1f80003ffffu64 >> 9u32) & 1) == ((0x1f80003ffffu64 >> 10u32) & 1),
        ((0x1f80003ffffu64 >> 12u32) & 1) == ((0x1f80003ffffu64 >> 14u32) & 1),
        ((0x1f80003ffffu64 >> 15u32) & 1) == ((0x1f80003ffffu64 >> 17u32) & 1),
        ((0x1f80003ffffu64 >> 36u32) & 1) == ((0x1f80003ffffu64 >> 37u32) & 1),
        ((0x1f80003ffffu64 >> 39u32) & 1) == ((0x1f80003ffffu64 >> 40u32) & 1),
        ((0x1f80003ffffu64 >> 0u32) & 1) == 1,
{
}

proof fn lemma_count_run(mask: u64, a: nat, b: nat)
    requires
        a <= b <= 64,
        forall|i: u32| a <= i < b ==> #[trigger] channel_layout::in_mask(mask, i),
    ensures
        channel_layout::count_below(mask, b) == channel_layout::count_below(mask, a) + (b - a),
    decreases b,
{
    if a < b {
        lemma_count_run(mask, a, (b - 1) as nat);
        assert(channel_layout::in_mask(mask, (b - 1) as u32));
    }
}

proof fn lemma_count_1()
    ensures
        channel_layout::count_below(0x4, 64) == 1,
{
    let m: u64 = 0x4;
    assert forall|i: u32| i < 64 implies (#[trigger] channel_layout::in_mask(m, i) <==> (i == 2)) by {
        assert(i < 64 ==> ((0x4u64 >> i) & 1 == 1) == (i == 2)) by (bit_vector);
    }
    channel_layout::lemma_count_rest(m, 0, 2);
    lemma_count_run(m, 2, 3);
    channel_layout::lemma_count_rest(m, 3, 64);
}

proof fn lemma_count_2()
    ensures
        channel_layout::count_below(0x3, 64) == 2,
{
    let m: u64 = 0x3;
    assert forall|i: u32| i < 64 implies (#[trigger] channel_layout::in_mask(m, i) <==> (i < 2)) by {
        assert(i < 64 ==> ((0x3u64 >> i) & 1 == 1) == (i < 2)) by (bit_vector);
    }
    lemma_count_run(m, 0, 2);
    channel_layout::lemma_count_rest(m, 2, 64);
}

proof fn lemma_count_3()
    ensures
        channel_layout::count_below(0xb, 64) == 3,
{
    let m: u64 = 0xb;
    assert forall|i: u32| i < 64 implies (#[trigger] channel_layout::in_mask(m, i) <==> (i < 2 || i == 3)) by {
        assert(i < 64 ==> ((0xbu64 >> i) & 1 == 1) == (i < 2 || i == 3)) by (bit_vector);
    }
    lemma_count_run(m, 0, 2);
    channel_layout::lemma_count_rest(m, 2, 3);
    lemma_count_run(m, 3, 4);
    channel_layout::lemma_count_rest(m, 4, 64);
}

proof fn lemma_count_4()
    ensures
        channel_layout::count_below(0x107, 64) == 4,
{
    let m: u64 = 0x107;
    assert forall|i: u32| i < 64 implies (#[trigger] channel_layout::in_mask(m, i) <==> (i < 3 || i == 8)) by {
        assert(i < 64 ==> ((0x107u64 >> i) & 1 == 1) == (i < 3 || i == 8)) by (bit_vector);
    }
    lemma_count_run(m, 0, 3);
    channel_layout::lemma_count_rest(m, 3, 8);
    lemma_count_run(m, 8, 9);
    channel_layout::lemma_count_rest(m, 9, 64);
}

proof fn lemma_count_5()
    ensures
        channel_layout::count_below(0x37, 64) == 5,
{
    let m: u64 = 0x37;
    assert forall|i: u32| i < 64 implies (#[trigger] channel_layout::in_mask(m, i) <==> (i < 3 || 4 <= i && i < 6)) by {
        assert(i < 64 ==> ((0x37u64 >> i) & 1 == 1) == (i < 3 || 4 <= i && i < 6)) by (bit_vector);
    }
    lemma_count_run(m, 0, 3);
    channel_layout::lemma_count_rest(m, 3, 4);
    lemma_count_run(m, 4, 6);
    channel_layout::lemma_count_rest(m, 6, 64);
}

proof fn lemma_count_6()
    ensures
        channel_layout::count_below(0x3f, 64) == 6,
{
    let m: u64 = 0x3f;
    assert forall|i: u32| i < 64 implies (#[trigger] channel_layout::in_mask(m, i) <==> (i < 6)) by {
        assert(i < 64 ==> ((0x3fu64 >> i) & 1 == 1) == (i < 6)) by (bit_vector);
    }
    lemma_count_run(m, 0, 6);
    channel_layout::lemma_count_rest(m, 6, 64);
}

proof fn lemma_count_7()
    ensures
        channel_layout::count_below(0x70f, 64) == 7,
{
    let m: u64 = 0x70f;
    assert forall|i: u32| i < 64 implies (#[trigger] channel_layout::in_mask(m, i) <==> (i < 4 || 8 <= i && i < 11)) by {
        assert(i < 64 ==> ((0x70fu64 >> i) & 1 == 1) == (i < 4 || 8 <= i && i < 11)) by (bit_vector);
    }
    lemma_count_run(m, 0, 4);
    channel_layout::lemma_count_rest(m, 4, 8);
    lemma_count_run(m, 8, 11);
    channel_layout::lemma_count_rest(m, 11, 64);
}

proof fn lemma_count_8()
    ensures
        channel_layout::count_below(0x63f, 64) == 8,
{
    let m: u64 = 0x63f;
    assert forall|i: u32| i < 64 implies (#[trigger] channel_layout::in_mask(m, i) <==> (i < 6 || 9 <= i && i < 11)) by {
        assert(i < 64 ==> ((0x63fu64 >> i) & 1 == 1) == (i < 6 || 9 <= i && i < 11)) by (bit_vector);
    }
    lemma_count_run(m, 0, 6);
    channel_layout::lemma_count_rest(m, 6, 9);
    lemma_count_run(m, 9, 11);
    channel_layout::lemma_count_rest(m, 11, 64);
}

proof fn lemma_count_10()
    ensures
        channel_layout::count_below(0x2d03f, 64) == 10,
{
    let m: u64 = 0x2d03f;
    assert forall|i: u32| i < 64 implies (#[trigger] channel_layout::in_mask(m, i) <==> (i < 6 || i == 12 || 14 <= i && i < 16 || i == 17)) by {
        assert(i < 64 ==> ((0x2d03fu64 >> i) & 1 == 1) == (i < 6 || i == 12 || 14 <= i && i < 16 || i == 17)) by (bit_vector);
    }
    lemma_count_run(m, 0, 6);
    channel_layout::lemma_count_rest(m, 6, 12);
    lemma_count_run(m, 12, 13);
    channel_layout::lemma_count_rest(m, 13, 14);
    lemma_count_run(m, 14, 16);
    channel_layout::lemma_count_rest(m, 16, 17);
    lemma_count_run(m, 17, 18);
    channel_layout::lemma_count_rest(m, 18, 64);
}

proof fn lemma_count_12()
    ensures
        channel_layout::count_below(0x2d63f, 64) == 12,
{
    let m: u64 = 0x2d63f;
    assert forall|i: u32| i < 64 implies (#[trigger] channel_layout::in_mask(m, i) <==> (i < 6 || 9 <= i && i < 11 || i == 12 || 14 <= i && i < 16 || i == 17)) by {
        assert(i < 64 ==> ((0x2d63fu64 >> i) & 1 == 1) == (i < 6 || 9 <= i && i < 11 || i == 12 || 14 <= i && i < 16 || i == 17)) by (bit_vector);
    }
    lemma_count_run(m, 0, 6);
    channel_layout::lemma_count_rest(m, 6, 9);
    lemma_count_run(m, 9, 11);
    channel_layout::lemma_count_rest(m, 11, 12);
    lemma_count_run(m, 12, 13);
    channel_layout::lemma_count_rest(m, 13, 14);
    lemma_count_run(m, 14, 16);
    channel_layout::lemma_count_rest(m, 16, 17);
    lemma_count_run(m, 17, 18);
    channel_layout::lemma_count_rest(m, 18, 64);
}

proof fn lemma_count_14()
    ensures
        channel_layout::count_below(0x2d6ff, 64) == 14,
{
    let m: u64 = 0x2d6ff;
    assert forall|i: u32| i < 64 implies (#[trigger] channel_layout::in_mask(m, i) <==> (i < 8 || 9 <= i && i < 11 || i == 12 || 14 <= i && i < 16 || i == 17)) by {
        assert(i < 64 ==> ((0x2d6ffu64 >> i) & 1 == 1) == (i < 8 || 9 <= i && i < 11 || i == 12 || 14 <= i && i < 16 || i == 17)) by (bit_vector);
    }
    lemma_count_run(m, 0, 8);
    channel_layout::lemma_count_rest(m, 8, 9);
    lemma_count_run(m, 9, 11);
    channel_layout::lemma_count_rest(m, 11, 12);
    lemma_count_run(m, 12, 13);
    channel_layout::lemma_count_rest(m, 13, 14);
    lemma_count_run(m, 14, 16);
    channel_layout::lemma_count_rest(m, 16, 17);
    lemma_count_run(m, 17, 18);
    channel_layout::lemma_count_rest(m, 18, 64);
}

proof fn lemma_count_16()
    ensures
        channel_layout::count_below(0x300002d6ff, 64) == 16,
{
    let m: u64 = 0x300002d6ff;
    assert forall|i: u32| i < 64 implies (#[trigger] channel_layout::in_mask(m, i) <==> (i < 8 || 9 <= i && i < 11 || i == 12 || 14 <= i && i < 16 || i == 17 || 36 <= i && i < 38)) by {
        assert(i < 64 ==> ((0x300002d6ffu64 >> i) & 1 == 1) == (i < 8 || 9 <= i && i < 11 || i == 12 || 14 <= i && i < 16 || i == 17 || 36 <= i && i < 38)) by (bit_vector);
    }
    lemma_count_run(m, 0, 8);
    channel_layout::lemma_count_rest(m, 8, 9);
    lemma_count_run(m, 9, 11);
    channel_layout::lemma_count_rest(m, 11, 12);
    lemma_count_run(m, 12, 13);
    channel_layout::lemma_count_rest(m, 13, 14);
    lemma_count_run(m, 14, 16);
    channel_layout::lemma_count_rest(m, 16, 17);
    lemma_count_run(m, 17, 18);
    channel_layout::lemma_count_rest(m, 18, 36);
    lemma_count_run(m, 36, 38);
    channel_layout::lemma_count_rest(m, 38, 64);
}

proof fn lemma_count_24()
    ensures
        channel_layout::count_below(0x1f80003ffff, 64) == 24,
{
    let m: u64 = 0x1f80003ffff;
    assert forall|i: u32| i < 64 implies (#[trigger] channel_layout::in_mask(m, i) <==> (i < 18 || 35 <= i && i < 41)) by {
        assert(i < 64 ==> ((0x1f80003ffffu64 >> i) & 1 == 1) == (i < 18 || 35 <= i && i < 41)) by (bit_vector);
    }
    lemma_count_run(m, 0, 18);
    channel_layout::lemma_count_rest(m, 18, 35);
    lemma_count_run(m, 35, 41);
    channel_layout::lemma_count_rest(m, 41, 64);
}

/// The usual layout of so many channels has so many speakers, one of them in front, and
/// no half of a left and right pair.
pub proof fn lemma_usual_layout(n: nat)
    requires
        channel_layout::usual_mask(n) != 0,
    ensures
        rematrix::sane(ChannelLayout::usual(n)),
        ChannelLayout::usual(n).valid(),
        ChannelLayout::usual(n).nb_channels == n,
{
    lemma_usual_pairs();
    lemma_count_1();
    lemma_count_2();
    lemma_count_3();
    lemma_count_4();
    lemma_count_5();
    lemma_count_6();
    lemma_count_7();
    lemma_count_8();
    lemma_count_10();
    lemma_count_12();
    lemma_count_14();
    lemma_count_16();
    lemma_count_24();
}

/// A planar format is named like the packed one, with a letter more, and takes as many
/// bytes; the number in the name of an integer format is that of its bits.
pub proof fn lemma_formats_named(f: SampleFormat)
    requires
        f != SampleFormat::Dsd,
    ensures
        f.spec_planar().spec_name() == f.spec_packed().spec_name().push('p'),
        f.spec_planar().spec_is_planar() && !f.spec_packed().spec_is_planar(),
        f.spec_planar().spec_bytes() == f.spec_bytes(),
        f.spec_packed().spec_bytes() == f.spec_bytes(),
        f.spec_packed().spec_planar() == f.spec_planar(),
        f.spec_planar().spec_packed() == f.spec_packed(),
        audioconvert::is_int(f.spec_packed()) ==> {
            let name = f.spec_packed().spec_name();
            text::read(name.subrange(1, name.len() as int)) == 8 * f.spec_bytes()
        },
{
    reveal_strlit("u8");
    reveal_strlit("s16");
    reveal_strlit("s32");
    reveal_strlit("s64");
    reveal_strlit("flt");
    reveal_strlit("dbl");
    reveal_strlit("u8p");
    reveal_strlit("s16p");
    reveal_strlit("s32p");
    reveal_strlit("s64p");
    reveal_strlit("fltp");
    reveal_strlit("dblp");
    assert(f.spec_planar().spec_name() =~= f.spec_packed().spec_name().push('p'));
    let name = f.spec_packed().spec_name();
    let d = name.subrange(1, name.len() as int);
    reveal_with_fuel(text::read, 4);
    if audioconvert::is_int(f.spec_packed()) {
        if d.len() == 2 {
            assert(d.drop_last().drop_last() =~= Seq::<char>::empty());
            assert(d.last() == name[2] && d.drop_last().last() == name[1]);
        } else {
            assert(d.drop_last() =~= Seq::<char>::empty());
            assert(d.last() == name[1]);
        }
    }
}

} // verus!
