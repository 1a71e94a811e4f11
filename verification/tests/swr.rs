use ffmpeg_rs::channel_layout::{ChannelLayout, MASK_5POINT0_BACK, MASK_5POINT1_BACK};
use ffmpeg_rs::error::Error;
use ffmpeg_rs::float::F64;
use ffmpeg_rs::frames::AudioFrame;
use ffmpeg_rs::mathematics::{rescale_rnd, Rounding};
use ffmpeg_rs::lowpass;
use ffmpeg_rs::lowpass::FilterValues;
use ffmpeg_rs::mixtable::MatrixEncoding;
use ffmpeg_rs::options::{SwrDitherType, SwrEngine, SwrFlags, SwrOptions, NOPTS};
use ffmpeg_rs::resample::{FilterShape, FilterTable, FilterType};
use ffmpeg_rs::samplefmt::SampleFormat;
use ffmpeg_rs::swr::SwrContext;
use ffmpeg_rs::version::{swresample_license, swresample_version, LIBSWRESAMPLE_VERSION_INT};

fn d(x: f64) -> F64 {
    F64::from_bits(x.to_bits())
}
fn five_one_back() -> ChannelLayout {
    ChannelLayout::from_mask(MASK_5POINT1_BACK).unwrap()
}
fn five_zero_back() -> ChannelLayout {
    ChannelLayout::from_mask(MASK_5POINT0_BACK).unwrap()
}

/// The values of a low-pass filter.
fn filter_table(shape: FilterShape) -> FilterTable {
    fn at(x: &[F64], f: fn(f64) -> f64) -> Vec<F64> {
        x.iter().map(|v| F64::from_bits(f(f64::from_bits(v.to_bits())).to_bits())).collect()
    }
    let wanted = lowpass::filter_arguments(&shape);
    let roots = at(&wanted.roots, f64::sqrt);
    let growths = at(&lowpass::growth_arguments(&shape, &roots), |x| x.exp() / x.sqrt());
    let values = FilterValues {
        sines: at(&wanted.sines, f64::sin),
        cosines: at(&wanted.cosines, f64::cos),
        roots,
        growths,
    };
    lowpass::filter_table(shape, &values).unwrap()
}

/// Initializes a context, with the filter that it asks for.
fn init(s: &mut SwrContext) -> Result<(), Error> {
    if let Some(shape) = s.wanted_filter() {
        s.install_table(filter_table(shape));
    }
    s.init()
}

/// Changes the rate, with the filters that this asks for.
fn compensate(s: &mut SwrContext, delta: i32, distance: i32) -> Result<(), Error> {
    let flags = s.options.flags;
    s.options.flags = flags.union(SwrFlags::resample());
    if let Some(shape) = s.wanted_filter() {
        s.install_table(filter_table(shape));
    }
    s.options.flags = flags;
    match s.set_compensation(delta, distance) {
        Ok(()) => Ok(()),
        Err(_) => {
            let shape = s.wanted_compensation_filter().unwrap();
            s.install_table(filter_table(shape));
            s.set_compensation(delta, distance)
        }
    }
}

/// One call on borrowed planes.
fn conv(
    s: &mut SwrContext,
    out: &mut [&mut [u8]],
    out_count: usize,
    input: Option<&[&[u8]]>,
    in_count: usize,
) -> Result<usize, Error> {
    let mut planes: Vec<Vec<u8>> = out.iter().map(|p| p.to_vec()).collect();
    let n = s.convert(Some(&mut planes), out_count, input, in_count)?;
    for (to, from) in out.iter_mut().zip(&planes) {
        to.copy_from_slice(from);
    }
    Ok(n)
}

fn swr_ctx(
    isr: i32,
    osr: i32,
    isf: SampleFormat,
    osf: SampleFormat,
    ichl: ChannelLayout,
    ochl: ChannelLayout,
) -> SwrContext {
    let mut s = SwrContext::allocate();
    s.options.in_sample_rate = isr;
    s.options.out_sample_rate = osr;
    s.options.in_sample_fmt = Some(isf);
    s.options.out_sample_fmt = Some(osf);
    s.options.in_chlayout = ichl;
    s.options.out_chlayout = ochl;
    s
}

fn err_text<T: std::fmt::Debug>(r: Result<T, Error>) -> String {
    match r {
        Err(Error::InvalidArgument(t)) => t,
        Err(Error::Unsupported(t)) => t,
        other => panic!("expected InvalidArgument/Unsupported, got {other:?}"),
    }
}

fn err_str(e: Error) -> String {
    match e {
        Error::InvalidArgument(t) | Error::Unsupported(t) => t,
        other => panic!("expected InvalidArgument/Unsupported, got {other:?}"),
    }
}

fn s16_bytes(v: &[i16]) -> Vec<u8> {
    v.iter().flat_map(|s| s.to_le_bytes()).collect()
}
fn as_i16(b: &[u8]) -> Vec<i16> {
    b.chunks_exact(2)
        .map(|c| i16::from_le_bytes(c.try_into().unwrap()))
        .collect()
}
fn f32_bytes(v: &[f32]) -> Vec<u8> {
    v.iter().flat_map(|f| f.to_le_bytes()).collect()
}

fn conv_packed(
    s: &mut SwrContext,
    out: &mut [u8],
    out_count: usize,
    input: &[u8],
    in_count: usize,
) -> Result<usize, Error> {
    conv(s, &mut [out], out_count, Some(&[input]), in_count)
}

#[test]
fn alloc_defaults() {
    let o = SwrOptions::default();
    assert_eq!(o.in_sample_rate, 0);
    assert_eq!(o.out_sample_rate, 0);
    assert_eq!(o.in_sample_fmt, None);
    assert_eq!(o.out_sample_fmt, None);
    assert_eq!(o.internal_sample_fmt, None);
    assert_eq!(o.in_chlayout, ChannelLayout::default());
    assert_eq!(o.out_chlayout, ChannelLayout::default());
    assert_eq!(o.used_chlayout, ChannelLayout::default());
    assert_eq!(o.clev.to_bits(), 0.7071067811865476f32.to_bits());
    assert_eq!(o.slev.to_bits(), 0.7071067811865476f32.to_bits());
    assert_eq!(f32::from_bits(o.lfe_mix_level.to_bits()), 0.0);
    assert_eq!(f32::from_bits(o.rematrix_volume.to_bits()), 1.0);
    assert_eq!(f32::from_bits(o.rematrix_maxval.to_bits()), 0.0);
    assert_eq!(o.flags, SwrFlags::default());
    assert_eq!(f32::from_bits(o.dither_scale.to_bits()), 1.0);
    assert_eq!(o.dither_method, SwrDitherType::Off);
    assert_eq!(o.filter_size, 32);
    assert_eq!(o.phase_shift, 10);
    assert!(o.linear_interp);
    assert!(o.exact_rational);
    assert_eq!(f64::from_bits(o.cutoff.to_bits()), 0.0);
    assert_eq!(o.engine, SwrEngine::Swr);
    assert_eq!(f64::from_bits(o.precision.to_bits()), 20.0);
    assert!(!o.cheby);
    assert_eq!(f32::from_bits(o.min_compensation.to_bits()), f32::MAX);
    assert_eq!(f32::from_bits(o.min_hard_compensation.to_bits()), 0.1);
    assert_eq!(f32::from_bits(o.soft_compensation_duration.to_bits()), 1.0);
    assert_eq!(f32::from_bits(o.max_soft_compensation.to_bits()), 0.0);
    assert_eq!(f32::from_bits(o.async_.to_bits()), 0.0);
    assert_eq!(o.first_pts, NOPTS);
    assert_eq!(o.matrix_encoding, MatrixEncoding::Off);
    assert_eq!(o.filter_type, FilterType::Kaiser);
    assert_eq!(f64::from_bits(o.kaiser_beta.to_bits()), 9.0);
    assert_eq!(o.output_sample_bits, 0);
    let s = SwrContext::allocate();
    assert_eq!(s.firstpts, NOPTS);
    assert_eq!(s.outpts, 0);
    assert!(!s.is_initialized());
}

#[test]
fn version_accessors() {
    assert_eq!(LIBSWRESAMPLE_VERSION_INT, 7 << 16 | 3 << 8 | 100);
    assert_eq!(LIBSWRESAMPLE_VERSION_INT, 459620);
    assert_eq!(swresample_version(), 459620);
    assert_eq!(swresample_license(), "LGPL version 2.1 or later");
}

#[test]
fn init_error_order() {
    let mut s = SwrContext::allocate();
    assert_eq!(
        err_text(init(&mut s)),
        "Requested input sample format -1 is invalid"
    );
    s.options.in_sample_fmt = Some(SampleFormat::S16);
    assert_eq!(
        err_text(init(&mut s)),
        "Requested output sample format -1 is invalid"
    );
    s.options.out_sample_fmt = Some(SampleFormat::S16);
    assert_eq!(
        err_text(init(&mut s)),
        "Requested input sample rate 0 is invalid"
    );
    s.options.in_sample_rate = 48000;
    assert_eq!(
        err_text(init(&mut s)),
        "Requested output sample rate 0 is invalid"
    );
    s.options.out_sample_rate = 48000;
    assert_eq!(
        err_text(init(&mut s)),
        "input channel layout \"\" is invalid or unsupported."
    );
    s.options.in_chlayout = ChannelLayout::stereo();
    assert_eq!(
        err_text(init(&mut s)),
        "output channel layout \"\" is invalid or unsupported."
    );
    s.options.out_chlayout = ChannelLayout::unspecified(65);
    assert_eq!(
        err_text(init(&mut s)),
        "output channel layout \"65 channels\" is invalid or unsupported."
    );
    s.options.out_chlayout = ChannelLayout::stereo();
    assert!(init(&mut s).is_ok(), "minimal stereo ctx inits");
}

#[test]
fn init_dsd_gate() {
    let mut s = swr_ctx(
        44100,
        44100,
        SampleFormat::S16,
        SampleFormat::Dsd,
        ChannelLayout::stereo(),
        ChannelLayout::stereo(),
    );
    assert_eq!(err_text(init(&mut s)), "Conversion to DSD is not supported");
    let mut s = swr_ctx(
        44100,
        44100,
        SampleFormat::Dsd,
        SampleFormat::Dsd,
        ChannelLayout::stereo(),
        ChannelLayout::stereo(),
    );
    assert!(init(&mut s).is_ok());
}

#[test]
fn engine_soxr_unavailable() {
    let mut s = swr_ctx(
        48000,
        44100,
        SampleFormat::S16,
        SampleFormat::S16,
        ChannelLayout::stereo(),
        ChannelLayout::stereo(),
    );
    s.options.engine = SwrEngine::Soxr;
    assert_eq!(
        err_text(init(&mut s)),
        "Requested resampling engine is unavailable"
    );
}

#[test]
fn internal_fmt_whitelist() {
    let mut s = swr_ctx(
        48000,
        48000,
        SampleFormat::S16,
        SampleFormat::S16,
        ChannelLayout::stereo(),
        ChannelLayout::stereo(),
    );
    s.options.internal_sample_fmt = Some(SampleFormat::S16);
    assert_eq!(
        err_text(init(&mut s)),
        "Requested sample format s16 is not supported internally, \
         s16p/s32p/s64p/fltp/dblp are supported"
    );
    let mut s = swr_ctx(
        48000,
        48000,
        SampleFormat::S64p,
        SampleFormat::S64p,
        ChannelLayout::stereo(),
        ChannelLayout::stereo(),
    );
    s.options.internal_sample_fmt = Some(SampleFormat::S64p);
    assert!(init(&mut s).is_ok());
}

#[test]
fn rematrix_needed_information_error() {
    let mut s = SwrContext::allocate();
    s.options.in_sample_rate = 48000;
    s.options.out_sample_rate = 48000;
    s.options.in_sample_fmt = Some(SampleFormat::S16);
    s.options.out_sample_fmt = Some(SampleFormat::S16);
    s.options.in_chlayout = ChannelLayout::unspecified(2);
    s.options.out_chlayout = ChannelLayout::unspecified(9);
    assert_eq!(
        err_text(init(&mut s)),
        "Rematrix is needed between stereo and 9 channels but there is not enough information to do it"
    );
}

#[test]
fn cannot_convert_pair_error() {
    let mut s = swr_ctx(
        48000,
        44100,
        SampleFormat::Dsd,
        SampleFormat::S16,
        ChannelLayout::stereo(),
        ChannelLayout::stereo(),
    );
    assert_eq!(
        err_text(init(&mut s)),
        "Cannot convert dsd sample format to fltp sample format"
    );
}

#[test]
fn dither_scale_zero_disables_unsupported_rejects() {
    let mut s = swr_ctx(
        48000,
        48000,
        SampleFormat::S16,
        SampleFormat::Fltp,
        ChannelLayout::stereo(),
        ChannelLayout::stereo(),
    );
    s.options.dither_method = SwrDitherType::Rectangular;
    assert!(init(&mut s).is_ok(), "s16->fltp loses no bits: disabled");
    assert_eq!(s.dither_method, SwrDitherType::Off);

    let mut s = swr_ctx(
        48000,
        48000,
        SampleFormat::Fltp,
        SampleFormat::S16,
        ChannelLayout::stereo(),
        ChannelLayout::stereo(),
    );
    s.options.dither_method = SwrDitherType::Triangular;
    match init(&mut s) {
        Err(Error::Unsupported(m)) => assert!(m.contains("dither.c"), "{m}"),
        other => panic!("expected Unsupported, got {other:?}"),
    }
}

#[test]
fn int_fmt_ladder() {
    let stereo = ChannelLayout::stereo();
    let cases: Vec<(i32, i32, SampleFormat, SampleFormat, ChannelLayout, ChannelLayout, SampleFormat)> = vec![
        (48000, 48000, SampleFormat::U8,  SampleFormat::U8,  stereo, stereo, SampleFormat::S16p),
        (48000, 48000, SampleFormat::U8,  SampleFormat::S16, stereo, stereo, SampleFormat::S16p),
        (48000, 48000, SampleFormat::S16, SampleFormat::Fltp, stereo, stereo, SampleFormat::S16p),
        (48000, 48000, SampleFormat::S16, SampleFormat::S16p, stereo, stereo, SampleFormat::S16p),
        (48000, 48000, SampleFormat::S32p, SampleFormat::S32p, stereo, stereo, SampleFormat::S32p),
        (48000, 48000, SampleFormat::S16, SampleFormat::S16, stereo, ChannelLayout::mono(), SampleFormat::S16p),
        (48000, 48000, SampleFormat::Flt, SampleFormat::Dbl, stereo, stereo, SampleFormat::Fltp),
        (44100, 48000, SampleFormat::S16, SampleFormat::S16, stereo, stereo, SampleFormat::Fltp),
        (48000, 48000, SampleFormat::Dbl, SampleFormat::Dblp, stereo, stereo, SampleFormat::Dblp),
    ];
    for (isr, osr, isf, osf, ichl, ochl, want) in cases {
        let mut s = swr_ctx(isr, osr, isf, osf, ichl, ochl);
        init(&mut s)
            .unwrap_or_else(|e| panic!("{isf:?}->{osf:?}: {e:?}"));
        assert_eq!(s.int_sample_fmt, want, "{isf:?}->{osf:?} @{isr}->{osr}");
    }
}

#[test]
fn resample_first_formula() {
    let stereo = ChannelLayout::stereo();
    let cases = vec![
        (stereo, five_one_back(), 48000, 48000, false),
        (five_one_back(), stereo, 48000, 48000, true),
        (stereo, stereo, 24000, 48000, true),
        (
            stereo,
            five_zero_back(),
            48000,
            48000,
            false,
        ),
    ];
    for (ichl, ochl, isr, osr, want) in cases {
        let mut s = swr_ctx(isr, osr, SampleFormat::S16, SampleFormat::S16, ichl, ochl);
        init(&mut s).unwrap();
        assert_eq!(s.resample_first, want, "{ichl:?} -> {ochl:?} @{isr}->{osr}");
    }
}

#[test]
fn is_initialized_lifecycle() {
    let mut s = swr_ctx(
        48000,
        48000,
        SampleFormat::S16,
        SampleFormat::S16,
        ChannelLayout::stereo(),
        ChannelLayout::stereo(),
    );
    assert!(!s.is_initialized());
    init(&mut s).unwrap();
    assert!(s.is_initialized());
    s.close();
    assert!(!s.is_initialized());
    s.options.out_sample_fmt = Some(SampleFormat::Fltp);
    init(&mut s).unwrap();
    assert!(s.is_initialized());
    s.close();
    assert_eq!(s.outpts, 0, "outpts survives close (C keeps it)");
}

#[test]
fn alloc_set_opts2_paths() {
    let s = SwrContext::alloc_set_opts2(
        None,
        &ChannelLayout::stereo(),
        SampleFormat::S16,
        44100,
        &five_one_back(),
        SampleFormat::Fltp,
        48000,
    )
    .unwrap();
    assert_eq!(s.options.out_chlayout, ChannelLayout::stereo());
    assert_eq!(s.options.out_sample_fmt, Some(SampleFormat::S16));
    assert_eq!(s.options.out_sample_rate, 44100);
    assert_eq!(s.options.in_chlayout, five_one_back());
    assert_eq!(s.options.in_sample_fmt, Some(SampleFormat::Fltp));
    assert_eq!(s.options.in_sample_rate, 48000);
    let e = match SwrContext::alloc_set_opts2(
        None,
        &ChannelLayout::unspecified(65),
        SampleFormat::S16,
        44100,
        &ChannelLayout::stereo(),
        SampleFormat::S16,
        48000,
    ) {
        Err(e) => e,
        Ok(_) => panic!("expected the over-wide layout to fail"),
    };
    assert_eq!(
        err_str(e),
        "ochl channel layout \"65 channels\" is invalid or unsupported."
    );
}

#[test]
fn identity_full_convert() {
    let mut s = swr_ctx(
        44100,
        44100,
        SampleFormat::S16,
        SampleFormat::S16,
        ChannelLayout::stereo(),
        ChannelLayout::stereo(),
    );
    init(&mut s).unwrap();
    assert!(s.full_convert.is_some());
    let input: Vec<i16> = (0..200).map(|i| (i as i16).wrapping_mul(73)).collect();
    let mut out = vec![0u8; 400];
    let ret = conv_packed(&mut s, &mut out, 100, &s16_bytes(&input), 100).unwrap();
    assert_eq!(ret, 100);
    assert_eq!(out, s16_bytes(&input));
}

#[test]
fn fmt_conversion_eq_rate() {
    let mut s = swr_ctx(
        44100,
        44100,
        SampleFormat::Fltp,
        SampleFormat::S16,
        ChannelLayout::stereo(),
        ChannelLayout::stereo(),
    );
    init(&mut s).unwrap();
    assert!(s.full_convert.is_some(), "the fast path covers the pair");
    let ramp = [-1.0f32, -0.5, 0.0, 0.5, 0.9, -0.9, 1.0, -1.0, 0.25, -0.25];
    let (mut l, mut r) = (Vec::new(), Vec::new());
    for &v in &ramp {
        l.extend_from_slice(&v.to_le_bytes());
        r.extend_from_slice(&(-v / 2.0).to_le_bytes());
    }
    let mut out = vec![0u8; 40];
    let mut o = [&mut out[..]];
    let i = [&l[..], &r[..]];
    let ret = conv(&mut s, &mut o, 10, Some(&i), 10).unwrap();
    assert_eq!(ret, 10);
    let want_l: Vec<i16> = ramp
        .iter()
        .map(|&v| (v * 32768.0f32).round_ties_even().clamp(-32768.0, 32767.0) as i16)
        .collect();
    let want_r: Vec<i16> = ramp
        .iter()
        .map(|&v| {
            (-v / 2.0 * 32768.0f32)
                .round_ties_even()
                .clamp(-32768.0, 32767.0) as i16
        })
        .collect();
    let got = as_i16(&out);
    for i in 0..10 {
        assert_eq!(got[2 * i], want_l[i], "L[{i}]");
        assert_eq!(got[2 * i + 1], want_r[i], "R[{i}]");
    }
}

#[test]
fn mono_u8_passthrough() {
    let mut s = swr_ctx(
        44100,
        44100,
        SampleFormat::U8,
        SampleFormat::S16,
        ChannelLayout::mono(),
        ChannelLayout::mono(),
    );
    init(&mut s).unwrap();
    let mut out = vec![0u8; 6];
    let ret = conv_packed(&mut s, &mut out, 3, &[0x00, 0x80, 0xFF], 3).unwrap();
    assert_eq!(ret, 3);
    assert_eq!(as_i16(&out[..6]), vec![-32768i16, 0, 32512]);
}

#[test]
fn fifo_buffering() {
    let mut s = swr_ctx(
        44100,
        44100,
        SampleFormat::S16,
        SampleFormat::S16,
        ChannelLayout::stereo(),
        ChannelLayout::stereo(),
    );
    init(&mut s).unwrap();
    let input: Vec<i16> = (0..200).map(|i| (i as i16).wrapping_mul(11)).collect();
    let inb = s16_bytes(&input);
    let mut collected = Vec::<u8>::new();
    let mut out = vec![0u8; 160];

    let ret = conv_packed(&mut s, &mut out, 40, &inb, 100).unwrap();
    assert_eq!(ret, 40);
    collected.extend_from_slice(&out[..160]);
    let empty: Vec<u8> = Vec::new();
    for expect in [40usize, 20] {
        out.iter_mut().for_each(|b| *b = 0);
        let ret = conv_packed(&mut s, &mut out, 40, &empty, 0).unwrap();
        assert_eq!(ret, expect);
        collected.extend_from_slice(&out[..expect * 4]);
    }
    let n = conv(&mut s, &mut [&mut out[..]], 40, None, 0).unwrap();
    assert_eq!(n, 0);
    assert_eq!(collected, inb, "FIFO is order-preserving");
    assert_eq!(s.outpts, 100 * 44100);
}

#[test]
fn get_delay_fifo() {
    let mut s = swr_ctx(
        48000,
        48000,
        SampleFormat::S16,
        SampleFormat::S16,
        ChannelLayout::stereo(),
        ChannelLayout::stereo(),
    );
    init(&mut s).unwrap();
    let input = vec![0u8; 400];
    let mut out = vec![0u8; 0];
    let ret = conv_packed(&mut s, &mut out, 0, &input, 100).unwrap();
    assert_eq!(ret, 0);
    assert_eq!(s.in_buffer_count, 100);
    assert_eq!(s.get_delay(48000), 100);
    assert_eq!(s.get_delay(1000), 2);
    assert_eq!(s.get_delay(1), 0);
    assert_eq!(s.get_in_samples(), 100);
}

#[test]
fn custom_matrix_through_driver() {
    let mut s = SwrContext::allocate();
    s.options.in_sample_rate = 44100;
    s.options.out_sample_rate = 44100;
    s.options.in_sample_fmt = Some(SampleFormat::S16);
    s.options.out_sample_fmt = Some(SampleFormat::S16);
    s.options.in_chlayout = ChannelLayout::stereo();
    s.options.out_chlayout = ChannelLayout::stereo();
    s.set_matrix(&[d(0.5), d(0.0), d(0.0), d(0.5)], 2).unwrap();
    init(&mut s).unwrap();
    assert!(s.rematrix_needed, "rematrix_custom forces rematrixing");
    assert!(s.rematrix_ctx.is_some());
    assert!(s.full_convert.is_none());
    let input = s16_bytes(&[1000i16, -1000, 1000, -1000]);
    let mut out = vec![0u8; 8];
    let ret = conv_packed(&mut s, &mut out, 2, &input, 2).unwrap();
    assert_eq!(ret, 2);
    assert_eq!(as_i16(&out), vec![500i16, -500, 500, -500]);
    let e = s.set_matrix(&[d(1.0), d(0.0), d(0.0), d(1.0)], 2).unwrap_err();
    assert!(err_str(e).contains("allocated but not initialized"));
}

#[test]
fn rematrix_5p1_to_stereo() {
    let mut s = swr_ctx(
        44100,
        44100,
        SampleFormat::S16,
        SampleFormat::S16,
        five_one_back(),
        ChannelLayout::stereo(),
    );
    init(&mut s).unwrap();
    assert!(s.rematrix_needed);
    assert!(s.rematrix_ctx.is_some());
    assert_eq!(s.int_sample_fmt, SampleFormat::S16p);
    let mut frame = [0i16; 6];
    frame[2] = 1000;
    let mut input = Vec::new();
    for _ in 0..10 {
        input.extend_from_slice(&s16_bytes(&frame));
    }
    let mut out = vec![0u8; 40];
    let ret = conv_packed(&mut s, &mut out, 10, &input, 10).unwrap();
    assert_eq!(ret, 10, "rematrix does not change the count");
    let vals = as_i16(&out);
    for i in 0..10 {
        let (l, r) = (vals[2 * i], vals[2 * i + 1]);
        assert_eq!(l, r, "symmetric downmix");
        assert!((250..=340).contains(&l), "FC downmix ~293, got {l}");
    }
}

#[test]
fn drop_output_consumes_without_emitting() {
    let mut s = swr_ctx(
        44100,
        44100,
        SampleFormat::S16,
        SampleFormat::S16,
        ChannelLayout::stereo(),
        ChannelLayout::stereo(),
    );
    init(&mut s).unwrap();
    let r = s.drop_output(50).unwrap();
    assert_eq!(r, 0);
    assert_eq!(s.drop_output, 50);
    let input: Vec<i16> = (0..200).map(|i| (i as i16).wrapping_mul(3)).collect();
    let inb = s16_bytes(&input);
    let mut out = vec![0u8; 400];
    let ret = conv_packed(&mut s, &mut out, 100, &inb, 100).unwrap();
    assert_eq!(ret, 50);
    assert_eq!(as_i16(&out[..200]), input[100..200].to_vec());
    assert_eq!(s.drop_output, 0);
    let empty: Vec<u8> = Vec::new();
    let ret = conv_packed(&mut s, &mut out, 50, &empty, 0).unwrap();
    assert_eq!(ret, 0);
    assert_eq!(s.outpts, 50 * 44100);
    s.drop_output(10).unwrap();
    s.drop_output(-10).unwrap();
    assert_eq!(s.drop_output, 0);
}

#[test]
fn inject_silence_traverses_pipeline() {
    let mut s = swr_ctx(
        44100,
        44100,
        SampleFormat::S16,
        SampleFormat::S16,
        ChannelLayout::stereo(),
        ChannelLayout::stereo(),
    );
    init(&mut s).unwrap();
    let r = s.inject_silence(100).unwrap();
    assert_eq!(r, 0);
    assert_eq!(s.in_buffer_count, 100);
    let mut out = vec![0xEEu8; 400];
    let ret = conv_packed(&mut s, &mut out, 100, &[], 0).unwrap();
    assert_eq!(ret, 100);
    assert!(out[..400].iter().all(|&b| b == 0), "s16 silence is zeros");
    assert_eq!(s.outpts, 100 * 44100);
}

#[test]
fn next_pts_passthrough_mode1() {
    let mut s = swr_ctx(
        44100,
        44100,
        SampleFormat::S16,
        SampleFormat::S16,
        ChannelLayout::stereo(),
        ChannelLayout::stereo(),
    );
    init(&mut s).unwrap();
    let input = vec![0u8; 800];
    let mut out = vec![0u8; 800];
    conv_packed(&mut s, &mut out, 200, &input, 200).unwrap();
    assert_eq!(s.outpts, 200 * 44100);
    let p = 1000 * 44100;
    assert_eq!(s.next_pts(p), p);
    assert_eq!(s.firstpts, p);
    assert_eq!(s.outpts, p);
    assert_eq!(s.next_pts(i64::MIN), p);
    conv_packed(&mut s, &mut out, 0, &input, 200).unwrap();
    let p2 = 5000 * 44100;
    let got = s.next_pts(p2);
    assert_eq!(got, p2 - s.get_delay((44100 * 44100) as i64));
}

#[test]
fn next_pts_firstpts_and_hard_compensation() {
    let mut s = swr_ctx(
        44100,
        44100,
        SampleFormat::S16,
        SampleFormat::S16,
        ChannelLayout::stereo(),
        ChannelLayout::stereo(),
    );
    s.options.first_pts = 1000;
    init(&mut s).unwrap();
    assert_eq!(s.firstpts, 1000 * 44100);
    assert_eq!(s.outpts, 1000 * 44100);
    assert_eq!(f32::from_bits(s.options.async_.to_bits()), 1.0);
    assert_eq!(f32::from_bits(s.options.min_compensation.to_bits()), 0.001);

    let input = vec![0u8; 400];
    let mut out = vec![0u8; 400];
    conv_packed(&mut s, &mut out, 100, &input, 100).unwrap();
    let ret = s.next_pts(11_000 * 44100);
    assert_eq!(ret, 1100 * 44100, "next_pts returns outpts");
    assert!(
        s.in_buffer_count >= 9900 - 2,
        "injected {}",
        s.in_buffer_count
    );
}

#[test]
fn next_pts_hard_drop() {
    let mut s = swr_ctx(
        44100,
        44100,
        SampleFormat::S16,
        SampleFormat::S16,
        ChannelLayout::stereo(),
        ChannelLayout::stereo(),
    );
    s.options.first_pts = 0;
    init(&mut s).unwrap();
    let input = vec![0u8; 80_000];
    let mut out = vec![0u8; 80_000];
    conv_packed(&mut s, &mut out, 20_000, &input, 20_000).unwrap();
    assert_eq!(s.outpts, 20_000 * 44100);
    let ret = s.next_pts(100 * 44100);
    assert_eq!(ret, 20_000 * 44100);
    assert_eq!(s.drop_output, 19_900);
}

#[test]
fn constant_through_2x_upsample() {
    let mut s = swr_ctx(
        24000,
        48000,
        SampleFormat::Fltp,
        SampleFormat::Fltp,
        ChannelLayout::stereo(),
        ChannelLayout::stereo(),
    );
    init(&mut s).unwrap();
    assert!(s.resample.is_some());
    assert!(s.resample_first);
    const N: usize = 256;
    let l = f32_bytes(&vec![0.25f32; N]);
    let r = f32_bytes(&vec![-0.25f32; N]);
    let mut outl = vec![0u8; 16 * N];
    let mut outr = vec![0u8; 16 * N];
    let mut got = 0usize;
    let bound = s.get_out_samples(N as i32).unwrap();
    assert!(bound >= 2 * N);
    {
        let mut o = [&mut outl[..], &mut outr[..]];
        let i = [&l[..], &r[..]];
        let ret = conv(&mut s, &mut o, bound, Some(&i), N).unwrap();
        assert!(ret <= bound, "convert respects the out bound");
        got += ret;
    }
    loop {
        let room = (outl.len() / 4) - got;
        let mut o = [&mut outl[got * 4..], &mut outr[got * 4..]];
        let ret = conv(&mut s, &mut o, room, None, 0).unwrap();
        if ret == 0 {
            break;
        }
        got += ret;
    }
    assert!(
        (got as i64 - 2 * N as i64).abs() <= 2,
        "total {got} vs {}",
        2 * N
    );
    let lv: Vec<f32> = outl[..got * 4]
        .chunks_exact(4)
        .map(|c| f32::from_le_bytes(c.try_into().unwrap()))
        .collect();
    let rv: Vec<f32> = outr[..got * 4]
        .chunks_exact(4)
        .map(|c| f32::from_le_bytes(c.try_into().unwrap()))
        .collect();
    for (i, (&a, &b)) in lv.iter().zip(rv.iter()).enumerate() {
        assert!(
            (a - 0.25).abs() < 1e-4 && (b + 0.25).abs() < 1e-4,
            "sample {i}: {a} {b}"
        );
    }
}

#[test]
fn count_bookkeeping_at_rate_change() {
    let (inr, outr) = (48000u64, 44100u64);
    let mut s = swr_ctx(
        inr as i32,
        outr as i32,
        SampleFormat::S16,
        SampleFormat::S16,
        ChannelLayout::stereo(),
        ChannelLayout::stereo(),
    );
    init(&mut s).unwrap();
    assert_eq!(s.int_sample_fmt, SampleFormat::Fltp);
    assert!(s.get_delay(inr as i64) >= 0);

    const CHUNK: usize = 1024;
    const NCHUNKS: usize = 10;
    let input = s16_bytes(&vec![1234i16; 2 * CHUNK]);
    let mut out = vec![0u8; 8 * CHUNK + 64];
    let mut total = 0usize;
    for _ in 0..NCHUNKS {
        let bound = s.get_out_samples(CHUNK as i32).unwrap();
        assert!(bound > 0);
        let ret = conv_packed(&mut s, &mut out, bound, &input, CHUNK).unwrap();
        assert!(ret <= bound, "the get_out_samples contract");
        total += ret;
    }
    let delayed = s.get_delay(inr as i64);
    assert!(delayed > 0, "pre-flush delay {delayed}");
    loop {
        let oc = out.len() / 4;
        let mut o = [&mut out[..]];
        let ret = conv(&mut s, &mut o, oc, None, 0).unwrap();
        if ret == 0 {
            break;
        }
        total += ret;
    }
    let expect = rescale_rnd(
        (NCHUNKS * CHUNK) as i64,
        outr as i64,
        inr as i64,
        Rounding::Up,
    );
    assert!(
        (total as i64 - expect).abs() <= 4,
        "total {total} vs {expect}"
    );
    assert!(
        s.get_delay(inr as i64) <= 36,
        "post-drain delay {}",
        s.get_delay(inr as i64)
    );
    assert_eq!(conv_packed(&mut s, &mut out, 64, &[], 0).unwrap(), 0);
    assert_eq!(conv(&mut s, &mut [&mut out[..]], 64, None, 0).unwrap(), 0);
    assert_eq!(s.outpts, total as i64 * inr as i64);
}

#[test]
fn get_out_samples_upper_bound() {
    let mut s = swr_ctx(
        48000,
        44100,
        SampleFormat::S16,
        SampleFormat::S16,
        ChannelLayout::stereo(),
        ChannelLayout::stereo(),
    );
    init(&mut s).unwrap();
    let input = vec![0u8; 2 * 2 * 512];
    let mut out = vec![0u8; 8192];
    for chunk in [7usize, 512, 1, 100] {
        let bound = s.get_out_samples(chunk as i32).unwrap();
        let ret = conv_packed(&mut s, &mut out, bound, &input, chunk).unwrap();
        assert!(ret <= bound, "chunk {chunk}: {ret} > {bound}");
    }
    let mut s = swr_ctx(
        48000,
        48000,
        SampleFormat::S16,
        SampleFormat::S16,
        ChannelLayout::stereo(),
        ChannelLayout::stereo(),
    );
    init(&mut s).unwrap();
    let input = vec![0u8; 400];
    let mut out = vec![0u8; 0];
    conv_packed(&mut s, &mut out, 0, &input, 100).unwrap();
    assert_eq!(s.get_out_samples(32).unwrap(), 132);
    assert!(s.get_out_samples(-1).is_err());
}

#[test]
fn roundtrip_48k_44k1_48k() {
    let mut fwd = swr_ctx(
        48000,
        44100,
        SampleFormat::Fltp,
        SampleFormat::Fltp,
        ChannelLayout::stereo(),
        ChannelLayout::stereo(),
    );
    init(&mut fwd).unwrap();
    let mut bwd = swr_ctx(
        44100,
        48000,
        SampleFormat::Fltp,
        SampleFormat::Fltp,
        ChannelLayout::stereo(),
        ChannelLayout::stereo(),
    );
    init(&mut bwd).unwrap();

    const N: usize = 9600;
    let (mut l, mut r) = (Vec::new(), Vec::new());
    for i in 0..N {
        let t = i as f32 / 48000.0;
        let v = 0.5 * (2.0 * std::f32::consts::PI * 220.0 * t).sin();
        l.extend_from_slice(&v.to_le_bytes());
        r.extend_from_slice(&(-v).to_le_bytes());
    }

    fn run(
        ctx: &mut SwrContext,
        il: &[u8],
        ir: &[u8],
        in_count: usize,
    ) -> (Vec<f32>, Vec<f32>) {
        let (mut outl, mut outr) = (Vec::new(), Vec::new());
        let cap = 2 * in_count + 8192;
        let mut bl = vec![0u8; 4 * cap];
        let mut br = vec![0u8; 4 * cap];
        let ret = {
            let mut o = [&mut bl[..], &mut br[..]];
            let i = [il, ir];
            conv(ctx, &mut o, cap, Some(&i), in_count).unwrap()
        };
        outl.extend_from_slice(&bl[..ret * 4]);
        outr.extend_from_slice(&br[..ret * 4]);
        loop {
            let mut o = [&mut bl[..], &mut br[..]];
            let ret = conv(ctx, &mut o, cap, None, 0).unwrap();
            if ret == 0 {
                break;
            }
            outl.extend_from_slice(&bl[..ret * 4]);
            outr.extend_from_slice(&br[..ret * 4]);
        }
        (
            outl.chunks_exact(4)
                .map(|c| f32::from_le_bytes(c.try_into().unwrap()))
                .collect(),
            outr.chunks_exact(4)
                .map(|c| f32::from_le_bytes(c.try_into().unwrap()))
                .collect(),
        )
    }

    let (midl, midr) = run(&mut fwd, &l, &r, N);
    let (backl, backr) = run(&mut bwd, &f32_bytes(&midl), &f32_bytes(&midr), midl.len());
    assert_eq!(backl.len(), backr.len());
    assert!(
        (backl.len() as i64 - N as i64).abs() <= 4,
        "length {} vs {N}",
        backl.len()
    );
    let src: Vec<f32> = l
        .chunks_exact(4)
        .map(|c| f32::from_le_bytes(c.try_into().unwrap()))
        .collect();
    let mut best = (f32::INFINITY, 0i64);
    for lag in -64i64..=64i64 {
        let mut maxd = 0f32;
        for i in 100..(N - 100) {
            let j = i as i64 + lag;
            if j < 0 || j >= backl.len() as i64 {
                continue;
            }
            maxd = maxd.max((src[i] - backl[j as usize]).abs());
        }
        if maxd < best.0 {
            best = (maxd, lag);
        }
    }
    assert!(best.0 < 0.05, "maxdiff {} at lag {}", best.0, best.1);
    let lag = best.1 as usize;
    let (mut sa, mut sb, mut saa, mut sbb, mut sab) = (0f64, 0f64, 0f64, 0f64, 0f64);
    let n = (N - 200) as f64;
    for i in 100..(N - 100) {
        let a = src[i] as f64;
        let b = backl[i + lag] as f64;
        sa += a;
        sb += b;
        saa += a * a;
        sbb += b * b;
        sab += a * b;
    }
    let cov = sab - sa * sb / n;
    let var = ((saa - sa * sa / n) * (sbb - sb * sb / n)).sqrt();
    assert!(cov / var > 0.99, "correlation {}", cov / var);
}

#[test]
fn convert_frame_lifecycle() {
    let mut s = SwrContext::allocate();
    s.options.out_sample_rate = 48000;
    s.options.out_sample_fmt = Some(SampleFormat::S16);
    s.options.out_chlayout = ChannelLayout::stereo();
    let in_f = AudioFrame::allocate(SampleFormat::Fltp, ChannelLayout::stereo(), 100).unwrap();
    let mut in_f = in_f;
    in_f.sample_rate = 48000;
    assert_eq!(in_f.nb_samples, 100);
    let ret = s.convert_frame(None, Some(&in_f)).unwrap();
    assert_eq!(ret, 0, "no out frame: nothing emitted");
    assert!(s.is_initialized());

    let other =
        AudioFrame::allocate(SampleFormat::Fltp, five_one_back(), 100).unwrap();
    let e = s.convert_frame(None, Some(&other)).unwrap_err();
    assert_eq!(err_str(e), "input configuration changed");

    let mut out_f = AudioFrame::default();
    out_f.format = SampleFormat::S16;
    out_f.ch_layout = ChannelLayout::stereo();
    out_f.sample_rate = 48000;
    let ret = s.convert_frame(Some(&mut out_f), Some(&in_f)).unwrap();
    assert_eq!(ret, 100);
    assert_eq!(out_f.nb_samples, 100);
    assert_eq!(out_f.nb_planes(), 1, "packed s16 out");
    assert!(out_f.plane(0).len() >= 100 * 2 * 2);
    let mut sized = AudioFrame::allocate(SampleFormat::S16, ChannelLayout::stereo(), 50).unwrap();
    sized.sample_rate = 48000;
    sized.nb_samples = 0;
    let ret = s.convert_frame(Some(&mut sized), None).unwrap();
    assert!(ret <= 50);
}

#[test]
fn channel_mapping_routes() {
    let base = || {
        let mut s = SwrContext::allocate();
        s.options.in_sample_rate = 44100;
        s.options.out_sample_rate = 44100;
        s.options.in_sample_fmt = Some(SampleFormat::S16);
        s.options.out_sample_fmt = Some(SampleFormat::S16);
        s.options.in_chlayout = ChannelLayout::stereo();
        s.options.out_chlayout = ChannelLayout::stereo();
        s
    };
    let mut s = base();
    s.set_channel_mapping(Some(&[1, 0])).unwrap();
    init(&mut s).unwrap();
    assert!(s.in_convert.is_some());
    assert_eq!(s.postin.ch_count, 2);
    assert!(s.full_convert.is_none(), "channel_map blocks the fast path");
    let input = s16_bytes(&[100i16, -100, 200, -200]);
    let mut out = vec![0u8; 8];
    let ret = conv_packed(&mut s, &mut out, 2, &input, 2).unwrap();
    assert_eq!(ret, 2);
    assert_eq!(as_i16(&out), vec![-100i16, 100, -200, 200]);
    let e = s.set_channel_mapping(None).unwrap_err();
    assert!(err_str(e).contains("allocated but not initialized"));
    let mut s = base();
    s.set_channel_mapping(Some(&[-1, 0])).unwrap();
    init(&mut s).unwrap();
    let mut out = vec![0u8; 8];
    conv_packed(&mut s, &mut out, 2, &input, 2).unwrap();
    assert_eq!(as_i16(&out), vec![0i16, 100, 0, 200]);
}

#[test]
fn set_compensation_forces_resampler() {
    let mut s = swr_ctx(
        48000,
        48000,
        SampleFormat::S16,
        SampleFormat::S16,
        ChannelLayout::stereo(),
        ChannelLayout::stereo(),
    );
    init(&mut s).unwrap();
    assert!(s.resample.is_none());
    let input = vec![0u8; 400];
    let mut out = vec![0u8; 0];
    conv_packed(&mut s, &mut out, 0, &input, 100).unwrap();
    assert_eq!(s.in_buffer_count, 100);
    compensate(&mut s, 10, 1000).unwrap();
    assert!(s.resample.is_some());
    assert_eq!(s.in_buffer_count, 0, "re-init cleared the buffer");
    assert!(s.options.flags.contains(SwrFlags::resample()));
    assert!(s.set_compensation(1, -1).is_err());
    assert!(s.set_compensation(1, 0).is_err());
    assert!(s.set_compensation(0, 0).is_ok());
}
