use ffmpeg_rs::audio::AudioData;
use ffmpeg_rs::float::F64;
use ffmpeg_rs::lowpass;
use ffmpeg_rs::lowpass::FilterValues;
use ffmpeg_rs::resample::{
    plan_resampler, FilterShape, FilterTable, FilterType, ResampleContext,
};
use ffmpeg_rs::samplefmt::SampleFormat;

fn d(x: f64) -> F64 {
    F64::from_bits(x.to_bits())
}
fn f(x: F64) -> f64 {
    f64::from_bits(x.to_bits())
}

/// The modified Bessel function of order zero.
fn bessel_i0(x: f64) -> f64 {
    let growth = x.abs().exp() / x.abs().sqrt();
    let d = |v: f64| F64::from_bits(v.to_bits());
    f64::from_bits(lowpass::bessel_i0(d(x), d(growth)).to_bits())
}

/// The values of a low-pass filter.
fn filter_table(shape: FilterShape) -> FilterTable {
    fn at(x: &[F64], f: fn(f64) -> f64) -> Vec<F64> {
        x.iter().map(|v| F64::from_bits(f(f64::from_bits(v.to_bits())).to_bits())).collect()
    }
    let wanted = lowpass::filter_arguments(&shape);
    let roots = at(&wanted.roots, f64::sqrt);
    let growths = at(&lowpass::growth_arguments(&shape, &roots), |x| x.exp() / x.sqrt());
    let values = FilterValues {
        sines: at(&wanted.sines, f64::sin),
        cosines: at(&wanted.cosines, f64::cos),
        roots,
        growths,
    };
    lowpass::filter_table(shape, &values).unwrap()
}

/// A resampler with 16 taps, 1024 phases and a Kaiser window.
fn resampler(out_rate: i32, in_rate: i32, fmt: SampleFormat) -> ResampleContext {
    let plan =
        plan_resampler(out_rate, in_rate, 16, 10, d(0.0), fmt, FilterType::Kaiser, d(10.0), 1)
            .unwrap();
    let table = filter_table(plan.shape);
    ResampleContext::new(
        out_rate,
        in_rate,
        16,
        10,
        0,
        d(0.0),
        fmt,
        FilterType::Kaiser,
        d(10.0),
        d(0.0),
        0,
        1,
        Some(&table),
    )
    .unwrap()
}

fn mono(count: usize, fmt: SampleFormat, bytes: Vec<u8>) -> AudioData {
    AudioData {
        bps: fmt.bytes_per_sample(),
        data: bytes,
        ch_count: 1,
        count,
        planar: true,
        fmt,
    }
}

fn s16_plane(v: &[i16]) -> Vec<u8> {
    v.iter().flat_map(|s| s.to_le_bytes()).collect()
}

fn stage(c: &mut ResampleContext, src: &AudioData, in_count: usize) -> (AudioData, usize) {
    let mut staging = AudioData::new(c.format, 1, 0);
    let mut out_idx = 0usize;
    let mut out_sz = 0usize;
    let r = c
        .invert_initial_buffer(&mut staging, src, in_count, &mut out_idx, &mut out_sz)
        .unwrap();
    assert!(
        r != i32::MAX,
        "enough input staged (feed >= filter_length+1)"
    );
    (staging, out_sz)
}

fn ctx_44100_48000() -> ResampleContext {
    resampler(44100, 48000, SampleFormat::S16p)
}

#[test]
fn bessel_i0_values() {
    assert_eq!(bessel_i0(0.0), 1.0);
    assert!((bessel_i0(1.0) - 1.2660658777520084).abs() < 1e-14);
    assert!((bessel_i0(2.0) - 2.2795853023360673).abs() < 1e-13);
    assert_eq!(bessel_i0(-1.5), bessel_i0(1.5), "I0 is even");
}

#[test]
fn init_geometry_anchors() {
    let c = ctx_44100_48000();
    assert!((f(c.factor) - (44100.0 * 0.97 / 48000.0)).abs() < 1e-12);
    assert_eq!(c.filter_length, 18);
    assert_eq!(c.filter_alloc, 24);
    assert_eq!(c.phase_count, 147);
    assert_eq!(c.phase_count_compensation, 882);
    assert_eq!(c.index, -1176);
    assert_eq!(c.frac, 0);
    assert_eq!(c.src_incr, 8192);
    assert_eq!(c.dst_incr, 1310720);
    assert_eq!(c.dst_incr_div, 160);
    assert_eq!(c.dst_incr_mod, 0);
    assert_eq!(c.filter_shift, 15, "shift of 16-bit filters");
}

#[test]
fn phase0_dc_gain_s16() {
    let c = ctx_44100_48000();
    let sum: f64 = (0..c.filter_length as usize)
        .map(|t| f(c.filter_coeff(0, t)))
        .sum();
    assert!(
        (sum - (1i64 << 15) as f64).abs() <= c.filter_length as f64,
        "phase-0 DC gain {sum} vs 32768 (±{len} rounding)",
        len = c.filter_length
    );
}

#[test]
fn downsample_staged_window() {
    let mut c = resampler(24000, 48000, SampleFormat::S16p);
    const IN: usize = 256;
    let src = mono(IN, SampleFormat::S16p, s16_plane(&vec![1000i16; IN]));
    let (staging, staged) = stage(&mut c, &src, IN);
    let expect = (staged - c.filter_length as usize) as f64 / 2.0;
    let mut dst = mono(IN, SampleFormat::S16p, vec![0; IN * 2]);
    let mut consumed = 0;
    let n = c
        .multiple_resample(&mut dst, IN as i32, &staging, staged as i32, &mut consumed)
        .unwrap();
    assert!(
        ((n as f64) - expect).abs() <= 4.0,
        "≈(staged−filter_length)/2 out, got {n} for staged {staged} fl {}",
        c.filter_length
    );
}

#[test]
fn upsample_staged_constant() {
    let mut c = resampler(48000, 24000, SampleFormat::Fltp);
    const IN: usize = 256;
    let src = mono(
        IN,
        SampleFormat::Fltp,
        vec![0.5f32; IN]
            .iter()
            .flat_map(|f| f.to_le_bytes())
            .collect(),
    );
    let (staging, staged) = stage(&mut c, &src, IN);
    let mut dst = mono(IN * 2, SampleFormat::Fltp, vec![0; IN * 2 * 4]);
    let mut consumed = 0;
    let n = c
        .multiple_resample(
            &mut dst,
            (IN * 2) as i32,
            &staging,
            staged as i32,
            &mut consumed,
        )
        .unwrap();
    let expect = ((staged - c.filter_length as usize) * 2) as i32;
    assert!(
        (n - expect).abs() <= 4,
        "2× up: n={n} expect≈{expect} (staged {staged} fl {})",
        c.filter_length
    );
    let out: Vec<f32> = dst.data[..n as usize * 4]
        .chunks_exact(4)
        .map(|b| f32::from_le_bytes([b[0], b[1], b[2], b[3]]))
        .collect();
    for &v in &out {
        assert!((v - 0.5).abs() < 1e-4, "constant through 2× upsample: {v}");
    }
}

#[test]
fn delay_shapes() {
    let c = ctx_44100_48000();
    let d = c.get_delay(48000, 0, 48000);
    assert!(d >= 0);
}
