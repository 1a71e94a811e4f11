use ffmpeg_rs::channel_layout::ChannelLayout;
use ffmpeg_rs::error::Error;
use ffmpeg_rs::float::F64;
use ffmpeg_rs::frames::AudioFrame;
use ffmpeg_rs::lowpass;
use ffmpeg_rs::lowpass::FilterValues;
use ffmpeg_rs::mixtable::{mix_gain_exec, Gain, MatrixEncoding};
use ffmpeg_rs::options::SwrFlags;
use ffmpeg_rs::rematrix::{RematrixContext, RematrixOptions};
use ffmpeg_rs::resample::{
    plan_resampler, FilterShape, FilterTable, FilterType, ResampleContext,
};
use ffmpeg_rs::samplefmt::SampleFormat;
use ffmpeg_rs::swr::SwrContext;

/// The values of a low-pass filter.
fn filter_table(shape: FilterShape) -> FilterTable {
    fn at(x: &[F64], f: fn(f64) -> f64) -> Vec<F64> {
        x.iter().map(|v| F64::from_bits(f(f64::from_bits(v.to_bits())).to_bits())).collect()
    }
    let wanted = lowpass::filter_arguments(&shape);
    let roots = at(&wanted.roots, f64::sqrt);
    let growths = at(&lowpass::growth_arguments(&shape, &roots), |x| x.exp() / x.sqrt());
    let values = FilterValues {
        sines: at(&wanted.sines, f64::sin),
        cosines: at(&wanted.cosines, f64::cos),
        roots,
        growths,
    };
    lowpass::filter_table(shape, &values).unwrap()
}

/// Initializes a context, with the filter that it asks for.
fn init(s: &mut SwrContext) -> Result<(), Error> {
    if let Some(shape) = s.wanted_filter() {
        s.install_table(filter_table(shape));
    }
    s.init()
}

fn context(isr: i32, osr: i32, isf: SampleFormat, osf: SampleFormat) -> SwrContext {
    let mut s = SwrContext::allocate();
    s.options.in_sample_rate = isr;
    s.options.out_sample_rate = osr;
    s.options.in_sample_fmt = Some(isf);
    s.options.out_sample_fmt = Some(osf);
    s.options.in_chlayout = ChannelLayout::mono();
    s.options.out_chlayout = ChannelLayout::mono();
    s
}

fn bytes(v: &[i16]) -> Vec<u8> {
    v.iter().flat_map(|s| s.to_le_bytes()).collect()
}

/// Feeds `v` in pieces and asks for outputs in pieces; then the end.
fn run(s: &mut SwrContext, v: &[i16], piece: usize, room: usize) -> Vec<u8> {
    let mut all = Vec::new();
    let mut planes = vec![vec![0u8; 2 * room]];
    for part in v.chunks(piece) {
        let b = bytes(part);
        let n = s.convert(Some(&mut planes), room, Some(&[&b[..]]), part.len()).unwrap();
        all.extend_from_slice(&planes[0][..2 * n]);
    }
    loop {
        let n = s.convert(Some(&mut planes), room, None, 0).unwrap();
        if n == 0 {
            return all;
        }
        all.extend_from_slice(&planes[0][..2 * n]);
    }
}

#[test]
fn samples_leave_in_the_order_in_which_they_came() {
    let v: Vec<i16> = (0..300).map(|i| (i * 97 % 1000) as i16 - 500).collect();
    for (piece, room) in [(300, 300), (7, 300), (300, 11), (13, 5), (1, 1)] {
        let mut s = context(8000, 8000, SampleFormat::S16, SampleFormat::S16);
        init(&mut s).unwrap();
        assert_eq!(run(&mut s, &v, piece, room), bytes(&v), "{piece} {room}");
    }
}

#[test]
fn a_stream_may_be_cut_anywhere() {
    let v: Vec<i16> = (0..900).map(|i| (i * i % 2001) as i16 - 1000).collect();
    let whole = {
        let mut s = context(48000, 44100, SampleFormat::S16, SampleFormat::S16);
        init(&mut s).unwrap();
        run(&mut s, &v, 900, 2000)
    };
    for (piece, room) in [(450, 2000), (61, 2000), (900, 37), (100, 90)] {
        let mut s = context(48000, 44100, SampleFormat::S16, SampleFormat::S16);
        init(&mut s).unwrap();
        assert_eq!(run(&mut s, &v, piece, room), whole, "{piece} {room}");
    }
}

#[test]
fn the_bound_is_room_for_everything() {
    for (a, b) in [(48000, 44100), (44100, 48000), (8000, 48000), (48000, 8000)] {
        let mut s = context(a, b, SampleFormat::S16, SampleFormat::S16);
        init(&mut s).unwrap();
        for n in [400usize, 1, 33, 250] {
            let bound = s.get_out_samples(n as i32).unwrap();
            let mut planes = vec![vec![0u8; 2 * bound]];
            let input = bytes(&vec![55i16; n]);
            let got = s.convert(Some(&mut planes), bound, Some(&[&input[..]]), n).unwrap();
            assert!(got < bound);
            // Nothing was left behind for want of room.
            let more = s.convert(Some(&mut planes), bound, Some(&[&[][..]]), 0).unwrap();
            assert_eq!(more, 0, "{a} {b} {n}");
        }
    }
}

#[test]
fn closing_keeps_options_and_timestamps() {
    let mut s = context(8000, 8000, SampleFormat::S16, SampleFormat::S16);
    init(&mut s).unwrap();
    run(&mut s, &[1, 2, 3], 3, 10);
    assert_eq!(s.outpts, 3 * 8000);
    let o = s.options;
    s.close();
    assert!(!s.is_initialized());
    assert!(s.options == o);
    assert_eq!(s.outpts, 3 * 8000);
    let mut planes = vec![vec![0u8; 8]];
    assert!(s.convert(Some(&mut planes), 4, None, 0).is_err());
    init(&mut s).unwrap();
    assert!(s.is_initialized());
}

#[test]
fn planes_must_hold_what_is_asked() {
    let mut s = context(8000, 8000, SampleFormat::S16, SampleFormat::S16);
    init(&mut s).unwrap();
    let input = bytes(&[1, 2, 3]);
    let mut planes = vec![vec![0u8; 6]];
    let short = s.convert(Some(&mut planes), 3, Some(&[&input[..5]]), 3);
    assert_eq!(short, Err(Error::BufferTooSmall));
    let mut small = vec![vec![0u8; 5]];
    let r = s.convert(Some(&mut small), 3, Some(&[&input[..]]), 3);
    assert_eq!(r, Err(Error::BufferTooSmall));
    assert_eq!(small, vec![vec![0u8; 5]]);
}

#[test]
fn resamplers_need_their_filter() {
    let mut s = context(8000, 16000, SampleFormat::S16, SampleFormat::S16);
    assert_eq!(
        s.init(),
        Err(Error::InvalidArgument("Failed to initialize resampler".to_string()))
    );
    let d = |x: f64| F64::from_bits(x.to_bits());
    let make = |fmt, size| {
        ResampleContext::new(
            16000,
            8000,
            size,
            10,
            0,
            d(0.0),
            fmt,
            FilterType::Kaiser,
            d(9.0),
            d(20.0),
            0,
            1,
            None,
        )
    };
    let text = |r: Result<ResampleContext, Error>| match r {
        Err(Error::InvalidArgument(t)) | Err(Error::Unsupported(t)) => t,
        _ => panic!("no text"),
    };
    assert_eq!(text(make(SampleFormat::S16p, 16)), "no filter table for this ratio");
    assert_eq!(text(make(SampleFormat::U8p, 16)), "sample format u8p for resampling");
    assert_eq!(text(make(SampleFormat::S16p, i32::MAX)), "filter length too large");
    let plan =
        plan_resampler(16000, 8000, 16, 10, d(0.0), SampleFormat::S16p, FilterType::Cubic, d(9.0), 1)
            .unwrap();
    assert_eq!((plan.shape.phase_count, plan.shape.tap_count), (2, 16));
}

#[test]
fn compensation_is_checked() {
    let mut s = context(8000, 8000, SampleFormat::S16, SampleFormat::S16);
    init(&mut s).unwrap();
    let text = |t: &str| Err(Error::InvalidArgument(t.to_string()));
    assert_eq!(
        s.set_compensation(1, -1),
        text("swr_set_compensation: negative compensation_distance")
    );
    assert_eq!(
        s.set_compensation(1, 0),
        text("swr_set_compensation: sample_delta without compensation_distance")
    );
    assert_eq!(s.get_out_samples(-1), text("swr_get_out_samples: negative in_samples").map(|()| 0));
}

#[test]
fn frames_have_sizes() {
    let f = AudioFrame::allocate(SampleFormat::S16p, ChannelLayout::stereo(), 10).unwrap();
    assert_eq!(f.nb_planes(), 2);
    assert_eq!(f.plane(1), &[0u8; 20]);
    let e = AudioFrame::allocate(SampleFormat::Dbl, ChannelLayout::none(), 10).unwrap_err();
    assert_eq!(e, Error::InvalidArgument("audio frame size out of range".to_string()));
}

#[test]
fn the_same_speakers_are_passed_on() {
    for mask in [0x3u64, 0x3f, 0x60f, 0x63f, 0x37] {
        for o in 0..20u32 {
            for i in 0..20u32 {
                if mask >> o & 1 == 1 && mask >> i & 1 == 1 {
                    let want = if o == i { Gain::One } else { Gain::Zero };
                    assert_eq!(mix_gain_exec(mask, mask, MatrixEncoding::Off, o, i), want);
                }
            }
        }
    }
    assert_eq!(mix_gain_exec(0x7, 0x3, MatrixEncoding::Off, 0, 2), Gain::Clev);
}

#[test]
fn one_unknown_channel_is_mono() {
    let mix = |l: &ChannelLayout| {
        let o = RematrixOptions::default();
        let c = RematrixContext::init(
            l,
            1,
            &ChannelLayout::stereo(),
            2,
            SampleFormat::S16,
            SampleFormat::S16p,
            &o,
            None,
        )
        .unwrap();
        c.matrix.iter().map(|g| g.to_bits()).collect::<Vec<u64>>()
    };
    assert_eq!(mix(&ChannelLayout::unspecified(1)), mix(&ChannelLayout::mono()));
}

#[test]
fn dropping_takes_the_first_outputs() {
    let v: Vec<i16> = (0..900).map(|i| (i * i % 2001) as i16 - 1000).collect();
    for (osr, dropped) in [(44100, 100usize), (44100, 1), (48000, 300)] {
        let whole = {
            let mut s = context(48000, osr, SampleFormat::S16, SampleFormat::S16);
            init(&mut s).unwrap();
            run(&mut s, &v, 900, 2000)
        };
        for (piece, room) in [(900, 2000), (61, 2000), (100, 90)] {
            let mut s = context(48000, osr, SampleFormat::S16, SampleFormat::S16);
            init(&mut s).unwrap();
            s.drop_output = dropped as i32;
            assert_eq!(run(&mut s, &v, piece, room), whole[2 * dropped..], "{piece} {room}");
            assert_eq!(s.drop_output, 0);
        }
    }
}

#[test]
fn a_filter_of_one_tap_repeats_its_input() {
    let mut s = context(8000, 8000, SampleFormat::S16, SampleFormat::S16);
    s.options.flags = SwrFlags::resample();
    s.options.filter_size = 0;
    init(&mut s).unwrap();
    let v: Vec<i16> = (0..100).map(|i| (i * 331 % 5003) as i16 - 2500).collect();
    let mut planes = vec![vec![0u8; 400]];
    let n = s.convert(Some(&mut planes), 200, Some(&[&bytes(&v)[..]]), 100).unwrap();
    assert_eq!(n, 100);
    assert_eq!(planes[0][..200], bytes(&v)[..]);
}

#[test]
fn a_rate_change_lasts_for_its_distance() {
    let mut s = context(8000, 8000, SampleFormat::S16, SampleFormat::S16);
    s.options.flags = SwrFlags::resample();
    s.options.exact_rational = false;
    init(&mut s).unwrap();
    s.set_compensation(10, 100).unwrap();
    let left = |s: &SwrContext| s.resample.as_ref().unwrap().compensation_distance;
    assert_eq!(left(&s), 100);
    let input = bytes(&[7i16; 400]);
    let mut planes = vec![vec![0u8; 2000]];
    let n = s.convert(Some(&mut planes), 60, Some(&[&input[..]]), 400).unwrap();
    assert_eq!((n, left(&s)), (60, 40));
    // A call without new samples does not go on beyond the rate change.
    let n = s.convert(Some(&mut planes), 1000, Some(&[&[][..]]), 0).unwrap();
    assert_eq!((n, left(&s)), (40, 0));
    // It waits for input now.
    let n = s.convert(Some(&mut planes), 1000, Some(&[&[][..]]), 0).unwrap();
    assert_eq!(n, 0);
}

#[test]
fn planes_need_room_for_what_comes() {
    let v: Vec<i16> = (0..200).map(|i| (i * 37 % 501) as i16).collect();
    let fresh = || {
        let mut s = context(8000, 16000, SampleFormat::S16, SampleFormat::S16);
        init(&mut s).unwrap();
        s
    };
    let mut a = fresh();
    let mut roomy = vec![vec![0u8; 2000]];
    let n = a.convert(Some(&mut roomy), 1000, Some(&[&bytes(&v)[..]]), 200).unwrap();
    assert!(0 < n && n < 400, "{n}");
    // Room for the outputs that come is enough.
    let mut b = fresh();
    let mut tight = vec![vec![0u8; 2 * n]];
    assert_eq!(b.convert(Some(&mut tight), 1000, Some(&[&bytes(&v)[..]]), 200).unwrap(), n);
    assert_eq!(tight[0], roomy[0][..2 * n]);
    // Without it they are lost.
    let mut c = fresh();
    let mut small = vec![vec![9u8; 2 * n - 1]];
    let r = c.convert(Some(&mut small), 1000, Some(&[&bytes(&v)[..]]), 200);
    assert_eq!(r, Err(Error::BufferTooSmall));
    assert!(small[0].iter().all(|&x| x == 9));
    assert_eq!(c.get_in_samples(), a.get_in_samples());
    assert_eq!(c.outpts, a.outpts);
    let rest = |s: &mut SwrContext| {
        let mut planes = vec![vec![0u8; 2000]];
        let n = s.convert(Some(&mut planes), 1000, None, 0).unwrap();
        planes[0][..2 * n].to_vec()
    };
    assert_eq!(rest(&mut c), rest(&mut a));
}

/// A context that makes an output of the sample before it.
fn repeating(isr: i32, osr: i32) -> SwrContext {
    let mut s = context(isr, osr, SampleFormat::S16, SampleFormat::S16);
    s.options.flags = SwrFlags::resample();
    s.options.filter_size = 0;
    s.options.phase_shift = 0;
    init(&mut s).unwrap();
    let r = s.resample.as_ref().unwrap();
    assert_eq!((r.filter_length, r.phase_count), (1, 1));
    s
}

#[test]
fn outputs_may_skip_input_as_long_as_there_is_any() {
    let v: Vec<i16> = (0..101).collect();
    let mut s = repeating(16000, 8000);
    let mut planes = vec![vec![0u8; 400]];
    let n = s.convert(Some(&mut planes), 200, Some(&[&bytes(&v[..100])[..]]), 100).unwrap();
    let every_other: Vec<i16> = v[..100].iter().copied().step_by(2).collect();
    assert_eq!(planes[0][..2 * n], bytes(&every_other)[..]);
    assert_eq!(s.get_in_samples(), 0);
    // Here the next output would begin behind the input.
    let mut s = repeating(16000, 8000);
    let r = s.convert(Some(&mut planes), 200, Some(&[&bytes(&v)[..]]), 101);
    assert_eq!(r, Err(Error::InvalidArgument("resampling step exceeds the filter".to_string())));
}

#[test]
fn the_fixed_point_position_runs_ahead() {
    let v: Vec<i16> = (0..4000).collect();
    let mut s = repeating(685057, 1000003);
    let (u, d) = (1000003u64, 685057u64);
    let r = s.resample.as_ref().unwrap();
    assert_eq!((r.src_incr as u64, r.dst_incr as u64), (2 * u, 2 * d));
    let mut planes = vec![vec![0u8; 16000]];
    let n = s.convert(Some(&mut planes), 8000, Some(&[&bytes(&v)[..]]), 4000).unwrap();
    let out: Vec<i16> =
        planes[0][..2 * n].chunks(2).map(|b| i16::from_le_bytes([b[0], b[1]])).collect();
    for j in 0..5800 {
        let at = (1 + j as u64 * ((d << 32) / u + 1)) >> 32;
        assert_eq!(out[j] as u64, at, "{j}");
    }
    assert_eq!(out[4550], 3117);
    assert_eq!(4550 * d / u, 3116);
}

#[test]
fn a_frame_without_memory_tells_what_it_was_to_hold() {
    let mut s = context(8000, 8000, SampleFormat::S16, SampleFormat::S16);
    init(&mut s).unwrap();
    let frame = || {
        let mut f = AudioFrame::allocate(SampleFormat::S16, ChannelLayout::mono(), 4).unwrap();
        f.sample_rate = 8000;
        f
    };
    let mut input = frame();
    input.nb_samples = 3_000_000_000;
    let mut out = frame();
    out.planes = Vec::new();
    assert_eq!(
        s.convert_frame(Some(&mut out), Some(&input)),
        Err(Error::InvalidArgument("audio frame size out of range".to_string()))
    );
    assert_eq!(out.nb_samples, 3_000_000_003);
    assert!(out.planes.is_empty());
    assert!(s.is_initialized());
}

#[test]
fn frames_that_cannot_be_converted_leave_their_options() {
    let mut s = SwrContext::allocate();
    let mut input = AudioFrame::allocate(SampleFormat::S16, ChannelLayout::mono(), 4).unwrap();
    input.sample_rate = 8000;
    let mut out = AudioFrame::allocate(SampleFormat::S16, ChannelLayout::mono(), 4).unwrap();
    out.sample_rate = 16000;
    let before = out.planes.clone();
    assert_eq!(
        s.convert_frame(Some(&mut out), Some(&input)),
        Err(Error::InvalidArgument("Failed to initialize resampler".to_string()))
    );
    assert!(!s.is_initialized());
    assert!(s.resample.is_none());
    assert_eq!((s.options.in_sample_rate, s.options.out_sample_rate), (8000, 16000));
    assert_eq!((out.nb_samples, out.planes), (4, before));
}

#[test]
fn a_resampler_that_cannot_start_stays_asked_for() {
    let mut s = context(8000, 8000, SampleFormat::S16, SampleFormat::S16);
    init(&mut s).unwrap();
    assert_eq!(
        s.set_compensation(1, 100),
        Err(Error::InvalidArgument("Failed to initialize resampler".to_string()))
    );
    assert!(!s.is_initialized());
    assert!(s.resample.is_none());
    assert_eq!(s.options.flags.0 & SwrFlags::resample().0, SwrFlags::resample().0);
    assert_eq!(s.options.in_sample_rate, 8000);
}

#[test]
fn timestamps_pass_whatever_the_number_of_phases() {
    let mut s = context(8000, 8000, SampleFormat::S16, SampleFormat::S16);
    s.options.phase_shift = 77;
    init(&mut s).unwrap();
    assert_eq!(s.next_pts(i64::MIN), 0);
    assert_eq!(s.next_pts(123), 123);
    assert_eq!((s.firstpts, s.outpts), (123, 123));
    assert_eq!(s.next_pts(5000), 5000);
}
