use ffmpeg_rs::audio::SWR_CH_MAX;
use ffmpeg_rs::channel_layout::{ChannelLayout, Order, MASK_5POINT1_BACK};
use ffmpeg_rs::error::Error;
use ffmpeg_rs::float::F64;
use ffmpeg_rs::lowpass;
use ffmpeg_rs::lowpass::FilterValues;
use ffmpeg_rs::mixtable::MatrixEncoding;
use ffmpeg_rs::pixels::{ChromaLocation, ColorRange, Frame, PixelFormat};
use ffmpeg_rs::rematrix::swr_build_matrix2;
use ffmpeg_rs::resample::{plan_resampler, FilterShape, FilterTable, FilterType, ResampleContext};
use ffmpeg_rs::samplefmt::SampleFormat;
use ffmpeg_rs::sampler::ScaleAlgorithm;
use ffmpeg_rs::scale::{ScaleEngine, ScaleOptions};
use ffmpeg_rs::scalecontext::ScaleContext;
use ffmpeg_rs::scalefilter::{init_filter, x_inc, TableScaler};
use ffmpeg_rs::scaleplan::{build_plan, scale_plane, Grid, PlanWeights};
use ffmpeg_rs::swr::SwrContext;

fn d(x: f64) -> F64 {
    F64::from_bits(x.to_bits())
}
fn f(x: F64) -> f64 {
    f64::from_bits(x.to_bits())
}

/// The values of a low-pass filter.
fn filter_table(shape: FilterShape) -> FilterTable {
    fn at(x: &[F64], f: fn(f64) -> f64) -> Vec<F64> {
        x.iter().map(|v| F64::from_bits(f(f64::from_bits(v.to_bits())).to_bits())).collect()
    }
    let wanted = lowpass::filter_arguments(&shape);
    let roots = at(&wanted.roots, f64::sqrt);
    let growths = at(&lowpass::growth_arguments(&shape, &roots), |x| x.exp() / x.sqrt());
    let values = FilterValues {
        sines: at(&wanted.sines, f64::sin),
        cosines: at(&wanted.cosines, f64::cos),
        roots,
        growths,
    };
    lowpass::filter_table(shape, &values).unwrap()
}

/// A stereo context made by the constructor, at one rate.
fn stereo(fmt: SampleFormat) -> SwrContext {
    let l = ChannelLayout::stereo();
    SwrContext::alloc_set_opts2(None, &l, fmt, 44100, &l, fmt, 44100).unwrap()
}

fn bytes(v: &[i16]) -> Vec<u8> {
    v.iter().flat_map(|s| s.to_le_bytes()).collect()
}

fn text<T: std::fmt::Debug>(r: Result<T, Error>) -> String {
    match r {
        Err(Error::InvalidArgument(t)) => t,
        other => panic!("expected InvalidArgument, got {other:?}"),
    }
}

// --- contexts -----------------------------------------------------------------

#[test]
fn maps_and_matrices_come_before_initialization() {
    let mut s = stereo(SampleFormat::S16);
    s.init().unwrap();
    assert_eq!(
        text(s.set_channel_mapping(Some(&[1, 0]))),
        "swr_set_channel_mapping: the context must be allocated but not initialized"
    );
    assert!(s.channel_map.is_none());
    assert!(s.set_matrix(&[d(0.0); 4], 2).is_err());
    assert!(s.custom.is_none());
    let mut out = vec![vec![0u8; 8]];
    let input = bytes(&[1, 2, 3, 4]);
    assert_eq!(s.convert(Some(&mut out), 2, Some(&[&input[..]]), 2).unwrap(), 2);
    assert_eq!(out[0], input);
}

#[test]
fn new_contexts_have_nothing_to_drop() {
    let mut s = stereo(SampleFormat::S16p);
    assert_eq!(s.drop_output, 0);
    assert!(s.channel_map.is_none() && s.custom.is_none() && s.resample.is_none());
    s.init().unwrap();
    assert_eq!(s.drop_output(50).unwrap(), 0);
    assert_eq!(s.drop_output, 50);
}

#[test]
fn phases_matter_to_resamplers_alone() {
    for shift in [-1, 31, 77] {
        let mut s = stereo(SampleFormat::S16);
        s.options.phase_shift = shift;
        assert!(s.is_well_posed());
        s.init().unwrap();
        assert!(s.is_initialized());
        s.options.out_sample_rate = 48000;
        assert!(!s.is_well_posed());
        s.options.in_sample_fmt = None;
        assert!(s.is_well_posed());
        assert_eq!(text(s.init()), "Requested input sample format -1 is invalid");
        assert!(!s.is_initialized());
    }
}

#[test]
fn too_many_used_channels_are_refused() {
    let mut s = stereo(SampleFormat::S16);
    s.options.used_chlayout = ChannelLayout { order: Order::Unspecified, nb_channels: 65, mask: 0 };
    assert!(s.is_well_posed());
    let t = text(s.init());
    assert!(t.starts_with("Rematrix is needed between "), "{t}");
    assert!(!s.is_initialized());
}

#[test]
fn maps_are_looked_at_when_samples_are_converted() {
    for map in [&[0][..], &[0, 2][..]] {
        let mut s = stereo(SampleFormat::S16);
        s.set_channel_mapping(Some(map)).unwrap();
        s.init().unwrap();
        let input = bytes(&[1, 2, 3, 4]);
        assert_eq!(s.convert(None, 0, Some(&[&input[..]]), 2).unwrap(), 0);
        assert_eq!(s.get_in_samples(), 2);
        let mut out = vec![vec![7u8; 8]];
        assert_eq!(s.convert(Some(&mut out), 2, None, 0), Err(Error::BufferTooSmall));
        assert_eq!(out[0], vec![7u8; 8]);
        assert_eq!(s.get_in_samples(), 2);
    }
}

#[test]
fn stages_that_do_not_match_are_found_when_samples_are_converted() {
    let mut s = stereo(SampleFormat::S16);
    s.options.used_chlayout = ChannelLayout::mono();
    s.init().unwrap();
    let input = bytes(&[1, 2, 3, 4]);
    assert_eq!(s.convert(None, 0, Some(&[&input[..]]), 2).unwrap(), 0);
    assert_eq!(s.get_in_samples(), 2);
    let mut out = vec![vec![7u8; 8]];
    assert_eq!(
        text(s.convert(Some(&mut out), 2, None, 0)),
        "swri_audioconvert: out channel count does not match the converter context"
    );
    assert_eq!(s.get_in_samples(), 2);
}

#[test]
fn a_resampler_outlives_a_failed_start() {
    let mut s = stereo(SampleFormat::S16);
    s.options.out_sample_rate = 48000;
    let shape = s.wanted_filter().unwrap();
    s.install_table(filter_table(shape));
    s.init().unwrap();
    let before = s.resample.as_ref().unwrap().phase_count;
    s.options.out_sample_rate = 8000;
    assert_eq!(text(s.init()), "Failed to initialize resampler");
    assert!(!s.is_initialized());
    assert_eq!(s.resample.as_ref().unwrap().phase_count, before);
}

#[test]
fn calls_give_the_oldest_samples() {
    let mut s = stereo(SampleFormat::S16p);
    s.init().unwrap();
    let left: Vec<i16> = (0..12).collect();
    let right: Vec<i16> = (100..112).collect();
    let mut at = 0;
    let mut gone = 0;
    for (n, m) in [(5, 2), (0, 1), (4, 9), (3, 1), (0, 0), (0, 8)] {
        let l = bytes(&left[at..at + n]);
        let r = bytes(&right[at..at + n]);
        let mut out = vec![vec![0xaau8; 20]; 2];
        let k = s.convert(Some(&mut out), m, Some(&[&l[..], &r[..]]), n).unwrap();
        let held = at - gone;
        assert_eq!(k, m.min(held + n));
        at += n;
        assert_eq!(out[0][..2 * k], bytes(&left[gone..gone + k])[..]);
        assert_eq!(out[1][..2 * k], bytes(&right[gone..gone + k])[..]);
        assert!(out.iter().all(|p| p[2 * k..].iter().all(|&b| b == 0xaa)));
        gone += k;
        assert_eq!(s.get_in_samples(), at - gone);
    }
    assert_eq!((at, gone), (12, 12));
}

#[test]
fn fresh_resamplers_have_no_delay() {
    for (out_rate, in_rate) in [(48000, 44100), (44100, 48000), (8000, 96000)] {
        let fmt = SampleFormat::Fltp;
        let plan =
            plan_resampler(out_rate, in_rate, 32, 10, d(0.97), fmt, FilterType::Kaiser, d(9.0), 1)
                .unwrap();
        let table = filter_table(plan.shape);
        let r = ResampleContext::new(
            out_rate,
            in_rate,
            32,
            10,
            0,
            d(0.97),
            fmt,
            FilterType::Kaiser,
            d(9.0),
            d(20.0),
            0,
            1,
            Some(&table),
        )
        .unwrap();
        assert!(r.index < 0);
        for base in [0, 1, 1000, in_rate as i64, 1 << 40] {
            assert_eq!(r.get_delay(base, 0, in_rate), 0);
        }
    }
}

// --- mixes ------------------------------------------------------------------------

fn mix(limit: f64, volume: f64) -> Vec<f64> {
    let mut m = vec![d(0.0); SWR_CH_MAX * SWR_CH_MAX];
    swr_build_matrix2(
        &ChannelLayout::from_mask(MASK_5POINT1_BACK).unwrap(),
        &ChannelLayout::stereo(),
        d(0.5f64.sqrt()),
        d(0.5f64.sqrt()),
        d(0.25),
        d(limit),
        d(volume),
        &mut m,
        SWR_CH_MAX,
        MatrixEncoding::Off,
    )
    .unwrap();
    m.iter().map(|&x| f(x)).collect()
}

#[test]
fn limits_divide_mixes() {
    let whole = mix(i32::MAX as f64, 0.0);
    let heaviest = (0..2)
        .map(|o| whole[o * SWR_CH_MAX..][..6].iter().fold(0.0, |s, x| s + x.abs()))
        .fold(0.0, f64::max);
    assert!(heaviest > 2.0);
    for limit in [0.5, 1.0, 2.0] {
        let want: Vec<f64> = whole.iter().map(|x| x / (heaviest / limit)).collect();
        assert_eq!(mix(limit, 0.0), want);
        assert_eq!(mix(limit, 3.0), want.iter().map(|x| x * 3.0).collect::<Vec<f64>>());
    }
    assert_eq!(mix(i32::MAX as f64, 1.0), whole);
    assert_eq!(mix(1.0, 1.0), mix(1.0, 0.0));
    assert_eq!(mix(heaviest, 0.0), whole);
    assert_eq!(mix(100.0, 0.0), whole);
}

// --- pictures ---------------------------------------------------------------------

fn no_weights() -> PlanWeights {
    PlanWeights { h_lum: Vec::new(), h_chr: Vec::new(), v_lum: Vec::new(), v_chr: Vec::new() }
}

#[test]
fn halves_are_rounded_away_from_zero() {
    let half = init_filter(x_inc(4, 2), 4, 2, 1, TableScaler::Area, 128, 128, &[]).unwrap();
    assert_eq!(half.row(0), &[1, 0]);
    assert_eq!(half.row(1), &[1, 0]);
    let odd = init_filter(x_inc(4, 2), 4, 2, 5, TableScaler::Area, 128, 128, &[]).unwrap();
    assert_eq!(odd.row(0), &[3, 2]);
}

#[test]
fn area_scaling_keeps_a_color() {
    for (src, dst) in [((7, 5), (3, 11)), ((64, 3), (1, 1)), ((1, 1), (9, 2)), ((33, 20), (32, 19))] {
        let p = build_plan(TableScaler::Area, src, dst, ChromaLocation::Left, &no_weights()).unwrap();
        for f in [&p.h_lum, &p.h_chr] {
            for i in 0..f.filter_pos.len() {
                assert_eq!(f.row(i).iter().map(|&t| t as i32).sum::<i32>(), 16384);
            }
        }
        let ls = src.0 as usize + 3;
        for color in [0u8, 1, 127, 254, 255] {
            let mut plane = vec![!color; ls * src.1 as usize];
            for row in plane.chunks_exact_mut(ls) {
                row[..src.0 as usize].fill(color);
            }
            let mut out = vec![!color; (dst.0 * dst.1) as usize];
            let g = Grid { w: src.0 as usize, h: src.1 as usize, ls };
            scale_plane(&plane, g, &mut out, dst.0 as usize, &p.h_lum, &p.v_lum);
            assert!(out.iter().all(|&b| b == color), "{src:?} {dst:?} {color}");
        }
    }
}

#[test]
fn tables_between_equal_sizes_copy() {
    let (w, h, ls) = (9usize, 4usize, 12usize);
    let src: Vec<u8> = (0..ls * h).map(|i| (i * 37 % 256) as u8).collect();
    for alg in [
        TableScaler::Area,
        TableScaler::Gauss,
        TableScaler::Sinc,
        TableScaler::Lanczos,
        TableScaler::Spline,
    ] {
        let size = (w as i32, h as i32);
        let p = build_plan(alg, size, size, ChromaLocation::Center, &no_weights()).unwrap();
        let mut out = vec![0x5au8; ls * h + 5];
        scale_plane(&src, Grid { w, h, ls }, &mut out, ls, &p.h_lum, &p.v_lum);
        for (k, &b) in out.iter().enumerate() {
            let inside = k < ls * h && k % ls < w;
            assert_eq!(b, if inside { src[k] } else { 0x5a }, "{alg:?} {k}");
        }
    }
}

fn picture(w: u32, h: u32, seed: u32) -> Frame {
    let mut f = Frame::allocate(PixelFormat::Yuv420p, w, h).unwrap();
    for p in 0..3 {
        for (k, b) in f.plane_mut(p).iter_mut().enumerate() {
            *b = ((k as u32 + 1) * (41 + seed) * (p as u32 + 3) % 256) as u8;
        }
    }
    f
}

#[test]
fn earlier_places_of_chroma_are_forgotten() {
    let options = ScaleOptions { algorithm: ScaleAlgorithm::Area, engine: ScaleEngine::Cpu };
    let make = || {
        let no_device = Err(Error::Unsupported("no device".to_string()));
        ScaleContext::new(
            (PixelFormat::Yuv420p, 8, 6),
            (PixelFormat::Yuv420p, 5, 9),
            options,
            no_device,
        )
        .unwrap()
    };
    let mut used = make();
    for loc in [
        ChromaLocation::Left,
        ChromaLocation::TopLeft,
        ChromaLocation::Center,
        ChromaLocation::Bottom,
        ChromaLocation::Left,
    ] {
        let mut src = picture(8, 6, 3);
        src.chroma_location = loc;
        let mut a = picture(5, 9, 1);
        let mut b = picture(5, 9, 1);
        assert_eq!(used.scale(&src, &mut a), Ok(true));
        assert_eq!(make().scale(&src, &mut b), Ok(true));
        assert_eq!(a.planes, b.planes, "{loc:?}");
    }
}

#[test]
fn unscaled_pixels_depend_on_their_own_samples() {
    let options = ScaleOptions { algorithm: ScaleAlgorithm::Bicubic, engine: ScaleEngine::Cpu };
    let paint = |src: &Frame| {
        let no_device = Err(Error::Unsupported("no device".to_string()));
        let mut c = ScaleContext::new(
            (PixelFormat::Yuv420p, 6, 4),
            (PixelFormat::Rgb24, 6, 4),
            options,
            no_device,
        )
        .unwrap();
        let mut dst = Frame::allocate(PixelFormat::Rgb24, 6, 4).unwrap();
        assert_eq!(c.scale(src, &mut dst), Ok(true));
        dst.plane(0).to_vec()
    };
    let a = picture(6, 4, 5);
    let mut b = picture(6, 4, 90);
    b.chroma_location = ChromaLocation::Center;
    // the samples of column 3 in row 2 of `a` go to column 4 in row 1 of `b`
    let y = a.plane(0)[2 * 6 + 3];
    b.plane_mut(0)[6 + 4] = y;
    for p in 1..3 {
        let c = a.plane(p)[3 + 1];
        b.plane_mut(p)[2] = c;
    }
    let (x, z) = (paint(&a), paint(&b));
    assert_eq!(x[3 * (2 * 6 + 3)..][..3], z[3 * (6 + 4)..][..3]);
    let mut wide = picture(6, 4, 5);
    wide.color_range = ColorRange::Jpeg;
    assert_ne!(paint(&wide), x);
}
