use ffmpeg_rs::audioconvert::convert_sample;
use ffmpeg_rs::channel_layout::{ChannelLayout, MASK_5POINT1};
use ffmpeg_rs::float::{ToInt, F32, F64};
use ffmpeg_rs::mathematics::{reduce_exact, rescale, rescale_rnd, Rounding};
use ffmpeg_rs::samplefmt::SampleFormat;

/// Bit patterns of all kinds, and some that follow no pattern.
fn patterns32() -> Vec<u32> {
    let mut v = vec![
        0,
        0x8000_0000,
        1,
        0x8000_0001,
        0x007f_ffff,
        0x0080_0000,
        0x3f80_0000,
        0xbf80_0000,
        0x3f00_0000,
        0x7f7f_ffff,
        0xff7f_ffff,
        0x7f80_0000,
        0xff80_0000,
        0x4b00_0001,
        0x4b80_0000,
        0x3eaa_aaab,
    ];
    let mut x: u32 = 12345;
    for _ in 0..120 {
        x = x.wrapping_mul(1664525).wrapping_add(1013904223);
        if !f32::from_bits(x).is_nan() {
            v.push(x);
        }
    }
    v
}

fn patterns64() -> Vec<u64> {
    let mut v: Vec<u64> = patterns32()
        .into_iter()
        .map(|b| (f32::from_bits(b) as f64 * 1.000000001).to_bits())
        .collect();
    v.extend([1, 0x000f_ffff_ffff_ffff, 0x0010_0000_0000_0000, 0x7fef_ffff_ffff_ffff]);
    let mut x: u64 = 99;
    for _ in 0..60 {
        x = x.wrapping_mul(6364136223846793005).wrapping_add(1442695040888963407);
        if !f64::from_bits(x).is_nan() {
            v.push(x);
        }
    }
    v
}

fn same32(got: F32, want: f32) -> bool {
    f32::from_bits(got.to_bits()).is_nan() && want.is_nan() || got.to_bits() == want.to_bits()
}

fn same64(got: F64, want: f64) -> bool {
    f64::from_bits(got.to_bits()).is_nan() && want.is_nan() || got.to_bits() == want.to_bits()
}

#[test]
fn single_precision_agrees_with_the_machine() {
    for &a in &patterns32() {
        for &b in &patterns32() {
            let (x, y) = (f32::from_bits(a), f32::from_bits(b));
            let (p, q) = (F32::from_bits(a), F32::from_bits(b));
            assert!(same32(p.plus(q), x + y), "{x} + {y}");
            assert!(same32(p.minus(q), x - y), "{x} - {y}");
            assert!(same32(p.times(q), x * y), "{x} * {y}");
            assert!(same32(p.over(q), x / y), "{x} / {y}");
            assert_eq!(p.less(q), x < y);
            assert_eq!(p.same(q), x == y);
        }
        let x = f32::from_bits(a);
        let p = F32::from_bits(a);
        assert!(same64(p.widen(), x as f64));
        assert!(same32(p.negated(), -x));
        assert!(same32(p.absolute(), x.abs()));
        assert_eq!(p.to_i32(ToInt::Truncate), x as i32);
        assert_eq!(p.to_i32(ToInt::Nearest), x.round_ties_even() as i32);
        assert_eq!(p.to_i32(ToInt::Ceil), x.ceil() as i32);
    }
}

#[test]
fn double_precision_agrees_with_the_machine() {
    for &a in &patterns64() {
        for &b in &patterns64() {
            let (x, y) = (f64::from_bits(a), f64::from_bits(b));
            let (p, q) = (F64::from_bits(a), F64::from_bits(b));
            assert!(same64(p.plus(q), x + y), "{x} + {y}");
            assert!(same64(p.minus(q), x - y), "{x} - {y}");
            assert!(same64(p.times(q), x * y), "{x} * {y}");
            assert!(same64(p.over(q), x / y), "{x} / {y}");
            assert_eq!(p.less(q), x < y);
        }
        let x = f64::from_bits(a);
        let p = F64::from_bits(a);
        assert!(same32(p.narrow(), x as f32), "{x}");
        assert_eq!(p.to_i32(ToInt::Truncate), x as i32);
    }
}

#[test]
fn integers_become_the_nearest_numbers() {
    for v in [0i64, 1, -1, 16777216, 16777217, 16777219, i64::MAX, i64::MIN, 9007199254740993] {
        assert!(same32(F32::from_int(v), v as f32), "{v}");
        assert!(same64(F64::from_int(v), v as f64), "{v}");
    }
}

#[test]
fn wider_integers_lose_nothing() {
    let ints = [SampleFormat::U8, SampleFormat::S16, SampleFormat::S32, SampleFormat::S64];
    for (i, &from) in ints.iter().enumerate() {
        for &to in &ints[i..] {
            for v in [0u64, 1, 0x7f, 0x80, 0xff] {
                let there = convert_sample(from, to, v);
                assert_eq!(convert_sample(to, from, there), v, "{from:?} {to:?} {v}");
            }
        }
    }
    assert_eq!(convert_sample(SampleFormat::S16, SampleFormat::U8, 0xffff), 127);
}

#[test]
fn numbers_with_room_lose_nothing() {
    for v in 0..=255u64 {
        for to in [SampleFormat::Flt, SampleFormat::Dbl] {
            let there = convert_sample(SampleFormat::U8, to, v);
            assert_eq!(convert_sample(to, SampleFormat::U8, there), v);
        }
    }
    for v in (0..=65535u64).step_by(77).chain([0x7fff, 0x8000, 0xffff]) {
        for to in [SampleFormat::Flt, SampleFormat::Dbl] {
            let there = convert_sample(SampleFormat::S16, to, v);
            assert_eq!(convert_sample(to, SampleFormat::S16, there), v);
        }
    }
    for v in [0u64, 1, 0x7fff_ffff, 0x8000_0000, 0xffff_ffff, 123_456_789] {
        let there = convert_sample(SampleFormat::S32, SampleFormat::Dbl, v);
        assert_eq!(convert_sample(SampleFormat::Dbl, SampleFormat::S32, there), v);
    }
    // The largest 32-bit sample has no room in single precision.
    let there = convert_sample(SampleFormat::S32, SampleFormat::Flt, 0x7fff_fffe);
    assert_eq!(convert_sample(SampleFormat::Flt, SampleFormat::S32, there), 0x7fff_ffff);
}

#[test]
fn silence_stays_silence() {
    assert_eq!(convert_sample(SampleFormat::U8, SampleFormat::S16, 0x80), 0);
    assert_eq!(convert_sample(SampleFormat::S64, SampleFormat::U8, 0), 0x80);
    assert_eq!(convert_sample(SampleFormat::S32, SampleFormat::Flt, 0), 0);
}

#[test]
fn rescaling_rounds_as_told() {
    assert_eq!(rescale(100, 1000, 48000), 2);
    assert_eq!(rescale(3, 1, 2), 2);
    assert_eq!(rescale(-3, 1, 2), -2);
    assert_eq!(rescale_rnd(3, 1, 2, Rounding::Up), 2);
    assert_eq!(rescale_rnd(-3, 1, 2, Rounding::Up), -1);
    assert_eq!(rescale_rnd(1, 1, 0, Rounding::Up), i64::MIN);
    assert_eq!(rescale_rnd(i64::MAX, i64::MAX, 1, Rounding::Up), i64::MIN);
    assert_eq!(reduce_exact(44100, 48000, 1024), Some((147, 160)));
    assert_eq!(reduce_exact(44101, 48000, 1024), None);
}

#[test]
fn layouts_are_named() {
    assert_eq!(ChannelLayout::stereo().describe(), "stereo");
    assert_eq!(ChannelLayout::mono().describe(), "mono");
    assert_eq!(ChannelLayout::unspecified(3).describe(), "3 channels");
    assert_eq!(ChannelLayout::from_mask(0), None);
    let five = ChannelLayout::from_mask(MASK_5POINT1).unwrap();
    assert_eq!(five.nb_channels, 6);
    assert_eq!(five.index_from_channel(9), Some(4));
    assert_eq!(five.index_from_channel(4), None);
    assert!(ChannelLayout::default_for(2) == ChannelLayout::stereo());
    assert!(!ChannelLayout::none().check());
}
