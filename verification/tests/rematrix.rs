use ffmpeg_rs::arith::Arith;
use ffmpeg_rs::audio::{AudioData, SWR_CH_MAX};
use ffmpeg_rs::channel_layout::{
    ChannelLayout as CL, Order, BACK_LEFT, BACK_RIGHT, BOTTOM_FRONT_RIGHT, FRONT_LEFT, FRONT_RIGHT,
    MASK_22POINT2, MASK_5POINT1, MASK_5POINT1_BACK, MASK_7POINT1, MASK_QUAD, MASK_SURROUND,
    SIDE_LEFT, TOP_BACK_CENTER, TOP_BACK_LEFT, TOP_BACK_RIGHT, TOP_CENTER, TOP_FRONT_LEFT,
    TOP_FRONT_RIGHT, TOP_SIDE_LEFT, TOP_SIDE_RIGHT,
};
use ffmpeg_rs::error::Error;
use ffmpeg_rs::float::F64;
use ffmpeg_rs::mixtable::{
    MatrixEncoding, SQRT1_2_BITS, SQRT1_3_BITS, SQRT2_3_BITS, SQRT3_2_BITS,
};
use ffmpeg_rs::rematrix::{
    even, mix_row, sane_layout, swr_build_matrix2, swr_set_matrix, AnyFastPath, CustomRematrix,
    RematrixContext, RematrixOptions,
};
use ffmpeg_rs::samplefmt::SampleFormat;

const SQRT1_2: f64 = f64::from_bits(SQRT1_2_BITS);
const SQRT1_3: f64 = f64::from_bits(SQRT1_3_BITS);
const SQRT2_3: f64 = f64::from_bits(SQRT2_3_BITS);
const SQRT3_2: f64 = f64::from_bits(SQRT3_2_BITS);
const INT_MAX: f64 = i32::MAX as f64;

fn d(x: f64) -> F64 {
    F64::from_bits(x.to_bits())
}
fn f(x: F64) -> f64 {
    f64::from_bits(x.to_bits())
}
fn ch_bit(id: u32) -> u64 {
    1 << id
}
fn surround() -> CL {
    CL::from_mask(MASK_SURROUND).unwrap()
}
fn quad() -> CL {
    CL::from_mask(MASK_QUAD).unwrap()
}
fn five_one() -> CL {
    CL::from_mask(MASK_5POINT1).unwrap()
}
fn five_one_back() -> CL {
    CL::from_mask(MASK_5POINT1_BACK).unwrap()
}
fn seven_one() -> CL {
    CL::from_mask(MASK_7POINT1).unwrap()
}
fn twentytwo_two() -> CL {
    CL::from_mask(MASK_22POINT2).unwrap()
}
/// The first two gains of a row.
fn row(m: &[F64], o: usize) -> [f64; 2] {
    [f(m[o * SWR_CH_MAX]), f(m[o * SWR_CH_MAX + 1])]
}

/// A mixing matrix of ordinary numbers.
fn build2(
    in_l: &CL,
    out_l: &CL,
    clev: f64,
    slev: f64,
    lfe: f64,
    maxval: f64,
    volume: f64,
    matrix: &mut Vec<f64>,
    stride: usize,
    encoding: MatrixEncoding,
) -> Result<(), Error> {
    let mut m: Vec<F64> = matrix.iter().map(|&x| d(x)).collect();
    let r = swr_build_matrix2(
        in_l,
        out_l,
        d(clev),
        d(slev),
        d(lfe),
        d(maxval),
        d(volume),
        &mut m,
        stride,
        encoding,
    );
    *matrix = m.iter().map(|&x| f(x)).collect();
    r
}

/// A user matrix of ordinary numbers.
fn set_matrix(
    in_l: &CL,
    out_l: &CL,
    matrix: &[f64],
    stride: usize,
    initialized: bool,
) -> Result<CustomRematrix, Error> {
    let m: Vec<F64> = matrix.iter().map(|&x| d(x)).collect();
    swr_set_matrix(in_l, out_l, &m, stride, initialized)
}

fn b(x: f64) -> u64 {
    x.to_bits()
}
fn b32(x: f32) -> u32 {
    x.to_bits()
}

fn build(in_l: &CL, out_l: &CL, maxval: f64) -> Vec<f64> {
    build_opts(in_l, out_l, maxval, 1.0, &RematrixOptions::default())
}

fn build_opts(
    in_l: &CL,
    out_l: &CL,
    maxval: f64,
    rematrix_volume: f64,
    opts: &RematrixOptions,
) -> Vec<f64> {
    let mut m = vec![0.0; SWR_CH_MAX * SWR_CH_MAX];
    build2(
        in_l,
        out_l,
        f(opts.clev),
        f(opts.slev),
        f(opts.lfe_mix_level),
        maxval,
        rematrix_volume,
        &mut m,
        SWR_CH_MAX,
        opts.matrix_encoding,
    )
    .unwrap();
    m
}

fn init_ctx(
    in_l: &CL,
    out_l: &CL,
    out_fmt: SampleFormat,
    int_fmt: SampleFormat,
    opts: &RematrixOptions,
) -> RematrixContext {
    RematrixContext::init(
        in_l,
        in_l.nb_channels,
        out_l,
        out_l.nb_channels,
        out_fmt,
        int_fmt,
        opts,
        None,
    )
    .unwrap()
}

fn put_i16(ad: &mut AudioData, ch: usize, samples: &[i16]) {
    let plane = ad.plane_bytes_mut(ch).unwrap();
    for (i, s) in samples.iter().enumerate() {
        plane[2 * i..2 * i + 2].copy_from_slice(&s.to_le_bytes());
    }
}
fn get_i16(ad: &AudioData, ch: usize, i: usize) -> i16 {
    let plane = ad.plane(ch).unwrap();
    i16::from_le_bytes(plane[2 * i..2 * i + 2].try_into().unwrap())
}
fn put_i32(ad: &mut AudioData, ch: usize, samples: &[i32]) {
    let plane = ad.plane_bytes_mut(ch).unwrap();
    for (i, s) in samples.iter().enumerate() {
        plane[4 * i..4 * i + 4].copy_from_slice(&s.to_le_bytes());
    }
}
fn get_i32(ad: &AudioData, ch: usize, i: usize) -> i32 {
    let plane = ad.plane(ch).unwrap();
    i32::from_le_bytes(plane[4 * i..4 * i + 4].try_into().unwrap())
}
fn put_f32(ad: &mut AudioData, ch: usize, samples: &[f32]) {
    let plane = ad.plane_bytes_mut(ch).unwrap();
    for (i, s) in samples.iter().enumerate() {
        plane[4 * i..4 * i + 4].copy_from_slice(&s.to_le_bytes());
    }
}
fn get_f32(ad: &AudioData, ch: usize, i: usize) -> f32 {
    let plane = ad.plane(ch).unwrap();
    f32::from_le_bytes(plane[4 * i..4 * i + 4].try_into().unwrap())
}

#[test]
fn constants_match_c_literals() {
    assert_eq!(b(SQRT1_2), 0x3FE6A09E667F3BCD);
    assert_eq!(b(SQRT1_3), 0x3FE279A74590331C);
    assert_eq!(b(SQRT2_3), 0x3FEA20BD700C2C3E);
    assert_eq!(b(SQRT3_2), 0x3FF3988E1409212E);
    assert_ne!(b(1.0 / std::f64::consts::SQRT_2), b(SQRT1_2));
    assert_eq!(BOTTOM_FRONT_RIGHT + 1, 41);
}

#[test]
fn matrix_identity_stereo_to_stereo() {
    let m = build(&CL::stereo(), &CL::stereo(), 1.0);
    assert_eq!(m[0], 1.0);
    assert_eq!(m[1], 0.0);
    assert_eq!(m[SWR_CH_MAX + 0], 0.0);
    assert_eq!(m[SWR_CH_MAX + 1], 1.0);
    assert_eq!(m[2 * SWR_CH_MAX + 2], 0.0);
}

#[test]
fn stereo_to_mono_exact_halves() {
    let m = build(&CL::stereo(), &CL::mono(), 1.0);
    assert_eq!(b(m[0]), 0x3FE0_0000_0000_0000);
    assert_eq!(b(m[1]), 0x3FE0_0000_0000_0000);
    let m = build(&CL::stereo(), &CL::mono(), INT_MAX);
    assert_eq!(b(m[0]), 0x3FE6A09E667F3BCD);
    assert_eq!(b(m[1]), 0x3FE6A09E667F3BCD);
}

#[test]
fn mono_to_stereo_unnormalized() {
    for maxval in [1.0, INT_MAX] {
        let m = build(&CL::mono(), &CL::stereo(), maxval);
        assert_eq!(b(m[0]), 0x3FE6A09E667F3BCD, "maxval {maxval}");
        assert_eq!(b(m[SWR_CH_MAX]), 0x3FE6A09E667F3BCD);
    }
}

#[test]
fn five_point_one_to_stereo_exact() {
    for in_l in [&five_one(), &five_one_back()] {
        let m = build(in_l, &CL::stereo(), 1.0);
        assert_eq!(b(m[0]), 0x3FDA827999FCEF33, "{:?}", in_l.describe());
        assert_eq!(m[1], 0.0);
        assert_eq!(b(m[2]), 0x3FD2BEC333018868);
        assert_eq!(m[3], 0.0);
        assert_eq!(b(m[4]), 0x3FD2BEC333018868);
        assert_eq!(m[5], 0.0);
        assert_eq!(m[SWR_CH_MAX + 0], 0.0);
        assert_eq!(b(m[SWR_CH_MAX + 1]), 0x3FDA827999FCEF33);
        assert_eq!(b(m[SWR_CH_MAX + 2]), 0x3FD2BEC333018868);
        assert_eq!(b(m[SWR_CH_MAX + 5]), 0x3FD2BEC333018868);
        let m = build(in_l, &CL::stereo(), INT_MAX);
        assert_eq!(m[0], 1.0);
        assert_eq!(b(m[2]), 0x3FE6A09E667F3BCD);
        assert_eq!(b(m[4]), 0x3FE6A09E667F3BCD);
    }
}

#[test]
fn lfe_mix_level_one() {
    let opts = RematrixOptions {
        lfe_mix_level: d(1.0),
        ..RematrixOptions::default()
    };
    let m = build_opts(&five_one(), &CL::stereo(), INT_MAX, 1.0, &opts);
    assert_eq!(b(m[3]), 0x3FE6A09E667F3BCD);
    assert_eq!(b(m[SWR_CH_MAX + 3]), 0x3FE6A09E667F3BCD);
    let m = build_opts(&five_one(), &CL::stereo(), 1.0, 1.0, &opts);
    assert_eq!(b(m[0]), b(1.0 / 3.121_320_343_559_642_4));
    assert_eq!(b(m[3]), b(SQRT1_2 / 3.121_320_343_559_642_4));
    assert_eq!(b(m[3]), 0x3FCCFF4AF8932960);
}

#[test]
fn stereo_to_mono_volume_and_maxval() {
    let m = build_opts(
        &CL::stereo(),
        &CL::mono(),
        1.0,
        0.5,
        &RematrixOptions::default(),
    );
    assert_eq!(b(m[0]), 0x3FD0_0000_0000_0000);
    assert_eq!(b(m[1]), 0x3FD0_0000_0000_0000);
    let m = build_opts(
        &CL::stereo(),
        &CL::mono(),
        1.0,
        -1.0,
        &RematrixOptions::default(),
    );
    assert_eq!(b(m[0]), 0x3FE6A09E667F3BCD);
    assert_eq!(b(m[1]), 0x3FE6A09E667F3BCD);
    let opts = RematrixOptions {
        rematrix_maxval: d(0.5),
        ..RematrixOptions::default()
    };
    let m = build_opts(&CL::stereo(), &CL::mono(), 0.5, 1.0, &opts);
    assert_eq!(b(m[0]), 0x3FD0_0000_0000_0000);
    assert_eq!(b(m[1]), 0x3FD0_0000_0000_0000);
}

#[test]
fn dolby_dplii_surround() {
    let dolby = RematrixOptions {
        matrix_encoding: MatrixEncoding::Dolby,
        ..RematrixOptions::default()
    };
    let m = build_opts(&five_one_back(), &CL::stereo(), INT_MAX, 1.0, &dolby);
    assert_eq!(b(m[4]), b(-SQRT1_2 * SQRT1_2));
    assert_eq!(b(m[SWR_CH_MAX + 4]), b(SQRT1_2 * SQRT1_2));
    assert_eq!(b(m[5]), b(-SQRT1_2 * SQRT1_2));
    assert_eq!(b(m[SWR_CH_MAX + 5]), b(SQRT1_2 * SQRT1_2));
    assert_eq!(b(m[2]), b(SQRT1_2));
    assert_eq!(m[3], 0.0);

    let dplii = RematrixOptions {
        matrix_encoding: MatrixEncoding::Dplii,
        ..RematrixOptions::default()
    };
    let m = build_opts(&five_one_back(), &CL::stereo(), INT_MAX, 1.0, &dplii);
    assert_eq!(b(m[4]), b(-SQRT1_2 * SQRT3_2));
    assert_eq!(b(m[5]), b(-SQRT1_2 * SQRT1_2));
    assert_eq!(b(m[SWR_CH_MAX + 4]), b(SQRT1_2 * SQRT1_2));
    assert_eq!(b(m[SWR_CH_MAX + 5]), b(SQRT1_2 * SQRT3_2));
}

#[test]
fn top_channel_constants() {
    let in_l = CL::from_mask(
        ch_bit(FRONT_LEFT)
            | ch_bit(FRONT_RIGHT)
            | ch_bit(TOP_SIDE_LEFT)
            | ch_bit(TOP_SIDE_RIGHT),
    )
    .unwrap();
    let out_l = CL::from_mask(
        ch_bit(FRONT_LEFT)
            | ch_bit(FRONT_RIGHT)
            | ch_bit(TOP_FRONT_LEFT)
            | ch_bit(TOP_FRONT_RIGHT)
            | ch_bit(TOP_BACK_CENTER),
    )
    .unwrap();
    let m = build(&in_l, &out_l, INT_MAX);
    assert_eq!(m[2 * SWR_CH_MAX + 2], SQRT2_3);
    assert_eq!(m[3 * SWR_CH_MAX + 3], SQRT2_3);
    assert_eq!(m[4 * SWR_CH_MAX + 2], SQRT1_3);
    assert_eq!(m[4 * SWR_CH_MAX + 3], SQRT1_3);

    let in_l = CL::from_mask(CL::stereo().mask | ch_bit(TOP_CENTER)).unwrap();
    let out_l = CL::from_mask(
        CL::stereo().mask
            | ch_bit(TOP_FRONT_LEFT)
            | ch_bit(TOP_FRONT_RIGHT)
            | ch_bit(TOP_BACK_LEFT)
            | ch_bit(TOP_BACK_RIGHT),
    )
    .unwrap();
    let m = build(&in_l, &out_l, INT_MAX);
    assert_eq!(m[2 * SWR_CH_MAX + 2], 0.5);
    assert_eq!(m[3 * SWR_CH_MAX + 2], 0.5);
    assert_eq!(m[4 * SWR_CH_MAX + 2], 0.5);
    assert_eq!(m[5 * SWR_CH_MAX + 2], 0.5);
}

#[test]
fn stereo_downmix_translation() {
    let a = build(&surround(), &CL::stereo_downmix(), 1.0);
    let c = build(&surround(), &CL::stereo(), 1.0);
    assert_eq!(a, c);
    let m = build(&CL::stereo_downmix(), &CL::stereo(), 1.0);
    assert_eq!(m[0], 1.0);
    assert_eq!(m[1], 0.0);
    assert_eq!(m[SWR_CH_MAX + 1], 1.0);
    let err = build2(
        &CL::stereo_downmix(),
        &CL::stereo_downmix(),
        SQRT1_2,
        SQRT1_2,
        0.0,
        1.0,
        1.0,
        &mut vec![0.0; SWR_CH_MAX * SWR_CH_MAX],
        SWR_CH_MAX,
        MatrixEncoding::Off,
    )
    .unwrap_err();
    assert_eq!(
        err,
        Error::InvalidArgument("Input channel layout 'downmix' is not supported".into())
    );
}

#[test]
fn sane_layout_rejections() {
    let asym = CL::from_mask(CL::stereo().mask | ch_bit(SIDE_LEFT)).unwrap();
    let err = build2(
        &asym,
        &CL::stereo(),
        SQRT1_2,
        SQRT1_2,
        0.0,
        1.0,
        1.0,
        &mut vec![0.0; SWR_CH_MAX * SWR_CH_MAX],
        SWR_CH_MAX,
        MatrixEncoding::Off,
    )
    .unwrap_err();
    assert_eq!(
        err,
        Error::InvalidArgument(
            "Input channel layout '3 channels (FL+FR+SL)' is not supported".into()
        )
    );

    build2(
        &CL::from_mask(ch_bit(FRONT_LEFT)).unwrap(),
        &CL::stereo(),
        SQRT1_2,
        SQRT1_2,
        0.0,
        1.0,
        1.0,
        &mut vec![0.0; SWR_CH_MAX * SWR_CH_MAX],
        SWR_CH_MAX,
        MatrixEncoding::Off,
    )
    .unwrap();

    let back_only =
        CL::from_mask(ch_bit(BACK_LEFT) | ch_bit(BACK_RIGHT)).unwrap();
    let err = build2(
        &back_only,
        &CL::stereo(),
        SQRT1_2,
        SQRT1_2,
        0.0,
        1.0,
        1.0,
        &mut vec![0.0; SWR_CH_MAX * SWR_CH_MAX],
        SWR_CH_MAX,
        MatrixEncoding::Off,
    )
    .unwrap_err();
    assert_eq!(
        err,
        Error::InvalidArgument(
            "Input channel layout '2 channels (BL+BR)' is not supported".into()
        )
    );

    let err = build2(
        &CL::unspecified(2),
        &CL::stereo(),
        SQRT1_2,
        SQRT1_2,
        0.0,
        1.0,
        1.0,
        &mut vec![0.0; SWR_CH_MAX * SWR_CH_MAX],
        SWR_CH_MAX,
        MatrixEncoding::Off,
    )
    .unwrap_err();
    assert_eq!(
        err,
        Error::InvalidArgument("Input channel layout '2 channels' is not supported".into())
    );

    let err = build2(
        &CL::unspecified(64),
        &CL::stereo(),
        SQRT1_2,
        SQRT1_2,
        0.0,
        1.0,
        1.0,
        &mut vec![0.0; SWR_CH_MAX * SWR_CH_MAX],
        SWR_CH_MAX,
        MatrixEncoding::Off,
    )
    .unwrap_err();
    assert_eq!(
        err,
        Error::InvalidArgument("Input channel layout '64 channels' is not supported".into())
    );

    let err = build2(
        &CL::stereo(),
        &asym,
        SQRT1_2,
        SQRT1_2,
        0.0,
        1.0,
        1.0,
        &mut vec![0.0; SWR_CH_MAX * SWR_CH_MAX],
        SWR_CH_MAX,
        MatrixEncoding::Off,
    )
    .unwrap_err();
    assert_eq!(
        err,
        Error::InvalidArgument(
            "Output channel layout '3 channels (FL+FR+SL)' is not supported".into()
        )
    );
}

#[test]
fn invalid_layout_is_invalid() {
    let bad = CL {
        order: Order::Native,
        nb_channels: 3,
        mask: CL::stereo().mask,
    };
    let mut m = vec![0.0; SWR_CH_MAX * SWR_CH_MAX];
    let err = build2(
        &bad,
        &CL::stereo(),
        SQRT1_2,
        SQRT1_2,
        0.0,
        1.0,
        1.0,
        &mut m,
        SWR_CH_MAX,
        MatrixEncoding::Off,
    )
    .unwrap_err();
    assert_eq!(
        err,
        Error::InvalidArgument("Input channel layout is invalid".into())
    );
    let err = build2(
        &CL::stereo(),
        &bad,
        SQRT1_2,
        SQRT1_2,
        0.0,
        1.0,
        1.0,
        &mut m,
        SWR_CH_MAX,
        MatrixEncoding::Off,
    )
    .unwrap_err();
    assert_eq!(
        err,
        Error::InvalidArgument("Output channel layout is invalid".into())
    );
}

#[test]
fn unspecified_mono_treated_as_mono() {
    let a = build(&CL::unspecified(1), &CL::stereo(), 1.0);
    let c = build(&CL::mono(), &CL::stereo(), 1.0);
    assert_eq!(a, c);
}

#[test]
fn sane_layout_direct() {
    assert!(sane_layout(&CL::mono()));
    assert!(sane_layout(&CL::stereo()));
    assert!(sane_layout(&surround()));
    assert!(sane_layout(&five_one()));
    assert!(sane_layout(&five_one_back()));
    assert!(sane_layout(&seven_one()));
    assert!(sane_layout(&quad()));
    assert!(sane_layout(&twentytwo_two()));
    assert!(!sane_layout(&CL::stereo_downmix()));
    assert!(!sane_layout(
        &CL::from_mask(CL::stereo().mask | ch_bit(SIDE_LEFT)).unwrap()
    ));
    assert!(!sane_layout(&CL::unspecified(64)));
    assert!(!sane_layout(&CL::unspecified(2)));
    assert!(even(0));
    assert!(!even(1));
    assert!(even(3));
    assert!(even(0b111));
}

#[test]
fn matrix_buffer_too_small() {
    let mut m = vec![0.0; 10];
    let err = build2(
        &CL::stereo(),
        &CL::stereo(),
        SQRT1_2,
        SQRT1_2,
        0.0,
        1.0,
        1.0,
        &mut m,
        SWR_CH_MAX,
        MatrixEncoding::Off,
    )
    .unwrap_err();
    assert_eq!(err, Error::BufferTooSmall);
}

#[test]
fn swr_set_matrix_guards_and_copy() {
    let err = set_matrix(&CL::stereo(), &CL::stereo(), &[1.0; 4], 2, true).unwrap_err();
    assert!(matches!(err, Error::InvalidArgument(_)));
    let err =
        set_matrix(&CL::default(), &CL::stereo(), &[1.0; 4], 2, false).unwrap_err();
    assert_eq!(
        err,
        Error::InvalidArgument("input channel layout \"\" is invalid or unsupported.".into())
    );
    let c = set_matrix(
        &CL::stereo(),
        &CL::stereo(),
        &[0.25, 0.75, 0.75, 0.25],
        2,
        false,
    )
    .unwrap();
    assert_eq!(c.in_nb_channels, 2);
    assert_eq!(c.out_nb_channels, 2);
    assert_eq!(row(&c.matrix, 0), [0.25, 0.75]);
    assert_eq!(row(&c.matrix, 1), [0.75, 0.25]);
    assert_eq!(f(c.matrix[0 * SWR_CH_MAX + 2]), 0.0);
    assert_eq!(f(c.matrix[2 * SWR_CH_MAX + 0]), 0.0);
}

#[test]
fn native_s16_error_diffusion() {
    let ctx = init_ctx(
        &five_one(),
        &CL::stereo(),
        SampleFormat::S16,
        SampleFormat::S16p,
        &RematrixOptions::default(),
    );
    let (coeffs, one) = ctx.native_matrix().as_int().unwrap();
    assert_eq!(one, 32768);
    assert_eq!(&coeffs[0..6], &[13573, 0, 9597, 0, 9598, 1]);
    assert_eq!(&coeffs[6..12], &[0, 13573, 9597, 0, 1, 9598]);
    assert!(ctx.clip_s16);
    assert_eq!(ctx.mix_any, Some(AnyFastPath::Mix6to2));
}

#[test]
fn matrix32_no_diffusion_and_sparsity() {
    let ctx = init_ctx(
        &five_one(),
        &CL::stereo(),
        SampleFormat::S16,
        SampleFormat::S16p,
        &RematrixOptions::default(),
    );
    assert_eq!(&ctx.matrix32[0 * SWR_CH_MAX..0 * SWR_CH_MAX + 6], &[13573, 0, 9598, 0, 9598, 0]);
    assert_eq!(&ctx.matrix32[1 * SWR_CH_MAX..1 * SWR_CH_MAX + 6], &[0, 13573, 9598, 0, 0, 9598]);
    assert_eq!(ctx.matrix_ch[0].len(), 3);
    assert_eq!(ctx.matrix_ch[0][0], 0);
    assert_eq!(ctx.matrix_ch[0][1], 2);
    assert_eq!(ctx.matrix_ch[0][2], 4);
    assert_eq!(ctx.matrix_ch[1].len(), 3);
    assert_eq!(ctx.matrix_ch[1][0], 1);
    assert_eq!(ctx.matrix_ch[1][1], 2);
    assert_eq!(ctx.matrix_ch[1][2], 5);
}

#[test]
fn custom_matrix_no_normalization() {
    let custom = set_matrix(
        &CL::stereo(),
        &CL::stereo(),
        &[0.25, 0.75, 0.75, 0.25],
        2,
        false,
    )
    .unwrap();
    let ctx = RematrixContext::init(
        &CL::stereo(),
        2,
        &CL::stereo(),
        2,
        SampleFormat::S16,
        SampleFormat::S16p,
        &RematrixOptions::default(),
        Some(&custom),
    )
    .unwrap();
    assert_eq!(row(&ctx.matrix, 0), [0.25, 0.75]);
    let (coeffs, _) = ctx.native_matrix().as_int().unwrap();
    assert_eq!(&coeffs[0..2], &[8192, 24576]);
    assert_eq!(&coeffs[2..4], &[24576, 8192]);
    assert_eq!(ctx.matrix_ch[0].len(), 2);
    assert_eq!(ctx.mix_any, None);
}

#[test]
fn lrintf_ties_to_even() {
    assert_eq!(d(0.5).lrintf(), 0);
    assert_eq!(d(1.5).lrintf(), 2);
    assert_eq!(d(2.5).lrintf(), 2);
    assert_eq!(d(3.5).lrintf(), 4);
    assert_eq!(d(-2.5).lrintf(), -2);
    assert_eq!(d(2.5000001).lrintf(), 2);
    assert_eq!(d(2.5000001e0).lrintf(), 2);
    for (coeff, want) in [
        (3.0 / 65536.0, 2i32),
        (5.0 / 65536.0, 2),
        (7.0 / 65536.0, 4),
        (2.5000001 / 32768.0, 2),
    ] {
        let custom = set_matrix(&CL::mono(), &CL::mono(), &[coeff], 1, false).unwrap();
        let ctx = RematrixContext::init(
            &CL::mono(),
            1,
            &CL::mono(),
            1,
            SampleFormat::S16,
            SampleFormat::S16p,
            &RematrixOptions::default(),
            Some(&custom),
        )
        .unwrap();
        let (c, _) = ctx.native_matrix().as_int().unwrap();
        assert_eq!(c[0], want, "coeff {coeff}");
        assert_eq!(ctx.matrix32[0], want);
    }
}

#[test]
fn s64p_unsupported() {
    let err = RematrixContext::init(
        &CL::mono(),
        1,
        &CL::mono(),
        1,
        SampleFormat::S64,
        SampleFormat::S64p,
        &RematrixOptions::default(),
        None,
    )
    .unwrap_err();
    match err {
        Error::Unsupported(msg) => {
            assert!(msg.contains("rematrix.c:766"), "{msg}");
            assert!(msg.contains("s64p"), "{msg}");
        }
        other => panic!("{other:?}"),
    }
}

#[test]
fn mix8to2_selection_and_quantization() {
    let ctx = init_ctx(
        &seven_one(),
        &CL::stereo(),
        SampleFormat::S16,
        SampleFormat::S16p,
        &RematrixOptions::default(),
    );
    assert_eq!(ctx.mix_any, Some(AnyFastPath::Mix8to2));
    let (coeffs, _) = ctx.native_matrix().as_int().unwrap();
    assert_eq!(&coeffs[0..8], &[10498, 0, 7424, 0, 7423, -1, 7423, 0]);
    assert_eq!(&coeffs[8..16], &[0, 10498, 7423, 1, 0, 7423, 1, 7423]);
    assert!(ctx.clip_s16);
    let mut in_ad = AudioData::new(SampleFormat::S16p, 8, 1);
    for (ch, s) in [
        (0, 10000i16),
        (1, -20000),
        (2, 3000),
        (3, 4000),
        (4, -5000),
        (5, 6000),
        (6, -7000),
        (7, 8000),
    ] {
        put_i16(&mut in_ad, ch, &[s]);
    }
    let mut out_ad = AudioData::new(SampleFormat::S16p, 2, 1);
    ctx.rematrix(&mut out_ad, &in_ad, 1, false).unwrap();
    assert_eq!(get_i16(&out_ad, 0, 0), 1165);
    assert_eq!(get_i16(&out_ad, 1, 0), -2556);
}

#[test]
fn fltp_quantization() {
    let ctx = init_ctx(
        &five_one(),
        &CL::stereo(),
        SampleFormat::Flt,
        SampleFormat::Fltp,
        &RematrixOptions::default(),
    );
    let (coeffs, one) = ctx.native_matrix().as_float().unwrap();
    assert_eq!(f32::from_bits(one.bits), 1.0);
    assert_eq!(coeffs[0].bits, 0x3F800000);
    assert_eq!(coeffs[2].bits, 0x3F3504F3);
    assert_eq!(coeffs[4].bits, 0x3F3504F3);
    assert_eq!(ctx.matrix_flt[4].bits, 0x3F3504F3);
    assert_eq!(ctx.mix_any, Some(AnyFastPath::Mix6to2));
    assert!(!ctx.clip_s16);
}

#[test]
fn apply_s16_mix6to2_clip_matches_ffmpeg() {
    let ctx = init_ctx(
        &five_one(),
        &CL::stereo(),
        SampleFormat::S16,
        SampleFormat::S16p,
        &RematrixOptions::default(),
    );
    let mut in_ad = AudioData::new(SampleFormat::S16p, 6, 1);
    for (ch, s) in [
        (0, 10000i16),
        (1, -20000),
        (2, 3000),
        (3, 4000),
        (4, -5000),
        (5, 6000),
    ] {
        put_i16(&mut in_ad, ch, &[s]);
    }
    let mut out_ad = AudioData::new(SampleFormat::S16p, 2, 1);
    ctx.rematrix(&mut out_ad, &in_ad, 1, false).unwrap();
    assert_eq!(get_i16(&out_ad, 0, 0), 3556);
    assert_eq!(get_i16(&out_ad, 1, 0), -5648);
}

#[test]
fn apply_fltp_mix6to2() {
    let ctx = init_ctx(
        &five_one(),
        &CL::stereo(),
        SampleFormat::Flt,
        SampleFormat::Fltp,
        &RematrixOptions::default(),
    );
    let mut in_ad = AudioData::new(SampleFormat::Fltp, 6, 1);
    for (ch, s) in [
        (0, 0.5f32),
        (1, -0.25),
        (2, 0.125),
        (3, 10.0),
        (4, -0.75),
        (5, 0.375),
    ] {
        put_f32(&mut in_ad, ch, &[s]);
    }
    let mut out_ad = AudioData::new(SampleFormat::Fltp, 2, 1);
    ctx.rematrix(&mut out_ad, &in_ad, 1, false).unwrap();
    assert_eq!(b32(get_f32(&out_ad, 0, 0)), 0x3D6DCE80);
    assert_eq!(b32(get_f32(&out_ad, 1, 0)), 0x3DD413CC);
}

#[test]
fn apply_generic_mono_s16() {
    let ctx = init_ctx(
        &five_one(),
        &CL::mono(),
        SampleFormat::S16,
        SampleFormat::S16p,
        &RematrixOptions::default(),
    );
    assert_eq!(ctx.mix_any, None);
    assert_eq!(ctx.matrix_ch[0].len(), 5);
    assert_eq!(&ctx.matrix32[0 * SWR_CH_MAX..0 * SWR_CH_MAX + 6], &[6786, 6786, 9598, 0, 4799, 4799]);
    let mut in_ad = AudioData::new(SampleFormat::S16p, 6, 1);
    for (ch, s) in [
        (0, 10000i16),
        (1, -20000),
        (2, 3000),
        (3, 4000),
        (4, -5000),
        (5, 6000),
    ] {
        put_i16(&mut in_ad, ch, &[s]);
    }
    let mut out_ad = AudioData::new(SampleFormat::S16p, 1, 1);
    ctx.rematrix(&mut out_ad, &in_ad, 1, false).unwrap();
    assert_eq!(get_i16(&out_ad, 0, 0), -1046);
}

#[test]
fn apply_generic_mono_fltp() {
    let ctx = init_ctx(
        &five_one(),
        &CL::mono(),
        SampleFormat::Flt,
        SampleFormat::Fltp,
        &RematrixOptions::default(),
    );
    assert_eq!(ctx.matrix_flt[0].bits, 0x3F3504F3);
    assert_eq!(ctx.matrix_flt[2].bits, 0x3F800000);
    assert_eq!(ctx.matrix_flt[4].bits, 0x3F000000);
    let mut in_ad = AudioData::new(SampleFormat::Fltp, 6, 1);
    for (ch, s) in [
        (0, 10000f32),
        (1, -20000.0),
        (2, 3000.0),
        (3, 4000.0),
        (4, -5000.0),
        (5, 6000.0),
    ] {
        put_f32(&mut in_ad, ch, &[s]);
    }
    let mut out_ad = AudioData::new(SampleFormat::Fltp, 1, 1);
    ctx.rematrix(&mut out_ad, &in_ad, 1, false).unwrap();
    assert_eq!(b32(get_f32(&out_ad, 0, 0)), 0xC55F3116);
}

#[test]
fn apply_generic_s32p_upstream_bug() {
    let ctx = init_ctx(
        &five_one(),
        &CL::mono(),
        SampleFormat::S32,
        SampleFormat::S32p,
        &RematrixOptions::default(),
    );
    assert_eq!(ctx.matrix_ch[0].len(), 5);
    let mut in_ad = AudioData::new(SampleFormat::S32p, 6, 1);
    for (ch, s) in [
        (0, 100000i32),
        (1, -200000),
        (2, 30000),
        (3, 40000),
        (4, -50000),
        (5, 60000),
    ] {
        put_i32(&mut in_ad, ch, &[s]);
    }
    let mut out_ad = AudioData::new(SampleFormat::S32p, 1, 1);
    ctx.rematrix(&mut out_ad, &in_ad, 1, false).unwrap();
    assert_eq!(get_i32(&out_ad, 0, 0), 3115);
}

#[test]
fn apply_quad_sum2_two_tap() {
    let ctx = init_ctx(
        &five_one(),
        &quad(),
        SampleFormat::S16,
        SampleFormat::S16p,
        &RematrixOptions::default(),
    );
    assert_eq!(ctx.mix_any, None);
    assert_eq!(ctx.matrix_ch[0].len(), 2);
    assert_eq!(&ctx.matrix32[0 * SWR_CH_MAX..0 * SWR_CH_MAX + 6], &[19195, 0, 13573, 0, 0, 0]);
    assert_eq!(&ctx.matrix32[2 * SWR_CH_MAX..2 * SWR_CH_MAX + 6], &[0, 0, 0, 0, 19195, 0]);
    let mut in_ad = AudioData::new(SampleFormat::S16p, 6, 1);
    for (ch, s) in [
        (0, 10000i16),
        (1, -20000),
        (2, 3000),
        (3, 4000),
        (4, -5000),
        (5, 6000),
    ] {
        put_i16(&mut in_ad, ch, &[s]);
    }
    let mut out_ad = AudioData::new(SampleFormat::S16p, 4, 1);
    ctx.rematrix(&mut out_ad, &in_ad, 1, false).unwrap();
    assert_eq!(get_i16(&out_ad, 0, 0), 7100);
    assert_eq!(get_i16(&out_ad, 1, 0), -10473);
    assert_eq!(get_i16(&out_ad, 2, 0), -2929);
    assert_eq!(get_i16(&out_ad, 3, 0), 3515);
}

#[test]
fn mustcopy_zero_and_steal() {
    let custom = set_matrix(
        &CL::stereo(),
        &CL::stereo(),
        &[0.0, 0.0, 1.0, 1.0],
        2,
        false,
    )
    .unwrap();
    let ctx = RematrixContext::init(
        &CL::stereo(),
        2,
        &CL::stereo(),
        2,
        SampleFormat::S16,
        SampleFormat::S16p,
        &RematrixOptions::default(),
        Some(&custom),
    )
    .unwrap();
    assert_eq!(ctx.matrix_ch[0].len(), 0);
    assert_eq!(ctx.matrix_ch[1].len(), 2);
    let mut in_ad = AudioData::new(SampleFormat::S16p, 2, 1);
    put_i16(&mut in_ad, 0, &[100]);
    put_i16(&mut in_ad, 1, &[-60]);

    let mut out_ad = AudioData::new(SampleFormat::S16p, 2, 1);
    out_ad.data_mut().iter_mut().for_each(|x| *x = 0xAA);
    ctx.rematrix(&mut out_ad, &in_ad, 1, true).unwrap();
    assert_eq!(get_i16(&out_ad, 0, 0), 0);
    assert_eq!(get_i16(&out_ad, 1, 0), 40);

    let mut out_ad = AudioData::new(SampleFormat::S16p, 2, 1);
    out_ad.data_mut().iter_mut().for_each(|x| *x = 0xAA);
    ctx.rematrix(&mut out_ad, &in_ad, 1, false).unwrap();
    assert_eq!(get_i16(&out_ad, 0, 0), i16::from_le_bytes([0xAA, 0xAA]));
    assert_eq!(get_i16(&out_ad, 1, 0), 40);

    let ctx = init_ctx(
        &five_one(),
        &five_one(),
        SampleFormat::S16,
        SampleFormat::S16p,
        &RematrixOptions::default(),
    );
    let mut in_ad = AudioData::new(SampleFormat::S16p, 6, 1);
    put_i16(&mut in_ad, 0, &[42]);
    let mut out_ad = AudioData::new(SampleFormat::S16p, 6, 1);
    ctx.rematrix(&mut out_ad, &in_ad, 1, false).unwrap();
    assert_eq!(out_ad.data, in_ad.data);
    assert_eq!(get_i16(&out_ad, 0, 0), 42);
    let mut out_ad = AudioData::new(SampleFormat::S16p, 6, 1);
    ctx.rematrix(&mut out_ad, &in_ad, 1, true).unwrap();
    assert_eq!(out_ad.data, in_ad.data);
    assert_eq!(get_i16(&out_ad, 0, 0), 42);

    let ctx = init_ctx(
        &CL::mono(),
        &CL::stereo(),
        SampleFormat::S16,
        SampleFormat::S16p,
        &RematrixOptions::default(),
    );
    let (coeffs, _) = ctx.native_matrix().as_int().unwrap();
    assert_eq!(coeffs, [23170, 23170]);
    let mut in_ad = AudioData::new(SampleFormat::S16p, 1, 2);
    put_i16(&mut in_ad, 0, &[1000, -3]);
    let mut out_ad = AudioData::new(SampleFormat::S16p, 2, 2);
    ctx.rematrix(&mut out_ad, &in_ad, 2, false).unwrap();
    assert_eq!(get_i16(&out_ad, 0, 0), 707);
    assert_eq!(get_i16(&out_ad, 0, 1), -2);
    assert_eq!(get_i16(&out_ad, 1, 0), 707);
}

#[test]
fn case2_sum2_rounding() {
    assert_eq!(sum2(Arith::S16, SampleFormat::S16p, 1, 2, 16384), 2);
    assert_eq!(sum2(Arith::S16, SampleFormat::S16p, 1, 0, 16384), 1);
    assert_eq!(sum2(Arith::S16, SampleFormat::S16p, -3, 0, 16384), -1);
    assert_eq!(sum2(Arith::S16, SampleFormat::S16p, 32767, 32767, 16384), 32767);
    assert_eq!(sum2(Arith::S16Clip, SampleFormat::S16p, 32767, 32767, 32768), 32767);
    assert_eq!(sum2(Arith::S16Clip, SampleFormat::S16p, -32768, -32768, 32768), -32768);
    assert_eq!(sum2(Arith::S32, SampleFormat::S32p, 1, 2, 16384), 2);
}

/// Two samples with the same gain, mixed into one.
fn sum2(a: Arith, fmt: SampleFormat, x: i32, y: i32, gain: i128) -> i32 {
    let mut input = AudioData::new(fmt, 2, 1);
    let mut out = AudioData::new(fmt, 1, 1);
    if fmt == SampleFormat::S16p {
        put_i16(&mut input, 0, &[x as i16]);
        put_i16(&mut input, 1, &[y as i16]);
    } else {
        put_i32(&mut input, 0, &[x]);
        put_i32(&mut input, 1, &[y]);
    }
    mix_row(a, &mut out, 0, &input, 1, &vec![(gain, 0), (gain, 1)], false);
    if fmt == SampleFormat::S16p {
        get_i16(&out, 0, 0) as i32
    } else {
        get_i32(&out, 0, 0)
    }
}

#[test]
fn apply_buffer_too_small() {
    let ctx = init_ctx(
        &five_one(),
        &CL::stereo(),
        SampleFormat::S16,
        SampleFormat::S16p,
        &RematrixOptions::default(),
    );
    let in_ad = AudioData::new(SampleFormat::S16p, 6, 1);
    let mut out_ad = AudioData::new(SampleFormat::S16p, 2, 1);
    assert_eq!(
        ctx.rematrix(&mut out_ad, &in_ad, 2, false),
        Err(Error::BufferTooSmall)
    );
    let mut packed = AudioData::new(SampleFormat::S16, 2, 4);
    assert!(matches!(
        ctx.rematrix(&mut packed, &in_ad, 1, false),
        Err(Error::InvalidArgument(_))
    ));
}

#[test]
fn a_mix_stops_at_the_first_row_that_does_not_fit() {
    let mut ctx = init_ctx(
        &five_one(),
        &quad(),
        SampleFormat::S16,
        SampleFormat::S16p,
        &RematrixOptions::default(),
    );
    let mut in_ad = AudioData::new(SampleFormat::S16p, 6, 1);
    for c in 0..6 {
        put_i16(&mut in_ad, c, &[1000 * (c as i16 + 1)]);
    }
    let mut whole = AudioData::new(SampleFormat::S16p, 4, 1);
    ctx.rematrix(&mut whole, &in_ad, 1, true).unwrap();
    // Fewer channels than the matrix has rows.
    let mut two = AudioData::new(SampleFormat::S16p, 2, 1);
    ctx.rematrix(&mut two, &in_ad, 1, true).unwrap();
    for c in 0..2 {
        assert_eq!(get_i16(&two, c, 0), get_i16(&whole, c, 0));
        assert_ne!(get_i16(&two, c, 0), 0);
    }
    ctx.matrix_ch[1] = vec![0, 1, 9];
    let mut part = AudioData::new(SampleFormat::S16p, 4, 1);
    for c in 0..4 {
        put_i16(&mut part, c, &[-7]);
    }
    assert_eq!(ctx.rematrix(&mut part, &in_ad, 1, true), Err(Error::BufferTooSmall));
    assert_eq!(get_i16(&part, 0, 0), get_i16(&whole, 0, 0));
    for c in 1..4 {
        assert_eq!(get_i16(&part, c, 0), -7);
    }
    // Of nothing nothing is missed.
    let none = AudioData::new(SampleFormat::S16p, 6, 0);
    assert_eq!(ctx.rematrix(&mut part, &none, 0, true), Ok(()));
    assert_eq!(get_i16(&part, 0, 0), get_i16(&whole, 0, 0));
}
