use ffmpeg_rs::device::{pack_rgba_to_dst, shader_algorithm, shader_mode, store_plane};
use ffmpeg_rs::error::Error;
use ffmpeg_rs::float::F32;
use ffmpeg_rs::pixels::{ChromaLocation, ColorRange, Frame, PixelFormat};
use ffmpeg_rs::sampler::{sample_plane, ScaleAlgorithm};
use ffmpeg_rs::scale::{supported_input, supported_output, ConversionMode, ScaleEngine, ScaleOptions};
use ffmpeg_rs::scalecontext::ScaleContext;
use ffmpeg_rs::scalefilter::{init_filter, x_inc, TableScaler, ONE_H};
use ffmpeg_rs::scaleplan::PlanWeights;

fn options(algorithm: ScaleAlgorithm, engine: ScaleEngine) -> ScaleOptions {
    ScaleOptions { algorithm, engine }
}

fn no_device() -> Result<(), Error> {
    Err(Error::Unsupported("no device".to_string()))
}

fn gray(w: u32, h: u32, bytes: &[u8]) -> Frame {
    let mut f = Frame::allocate(PixelFormat::Gray8, w, h).unwrap();
    f.plane_mut(0).copy_from_slice(bytes);
    f
}

const ALL: [PixelFormat; 10] = [
    PixelFormat::Yuv420p,
    PixelFormat::Yuv422p,
    PixelFormat::Yuv444p,
    PixelFormat::Gray8,
    PixelFormat::Rgb24,
    PixelFormat::Bgr24,
    PixelFormat::Rgba,
    PixelFormat::Bgra,
    PixelFormat::Argb,
    PixelFormat::Abgr,
];

#[test]
fn conversions_go_between_supported_formats() {
    for src in ALL {
        for dst in ALL {
            let made = ScaleContext::new(
                (src, 4, 4),
                (dst, 8, 8),
                options(ScaleAlgorithm::Bilinear, ScaleEngine::Cpu),
                no_device(),
            );
            let want =
                supported_input(src) && supported_output(dst) && (src == dst || dst.is_rgb());
            assert_eq!(made.is_ok(), want, "{src:?} {dst:?}");
            if !want {
                let text = format!("cannot convert {} to {}", src.name(), dst.name());
                assert_eq!(made.unwrap_err(), Error::Unsupported(text));
            }
        }
    }
}

#[test]
fn every_algorithm_is_found_by_its_name() {
    for alg in [
        ScaleAlgorithm::Nearest,
        ScaleAlgorithm::Bilinear,
        ScaleAlgorithm::Bicubic,
        ScaleAlgorithm::Area,
        ScaleAlgorithm::Gauss,
        ScaleAlgorithm::Sinc,
        ScaleAlgorithm::Lanczos,
        ScaleAlgorithm::Spline,
    ] {
        assert_eq!(ScaleAlgorithm::from_name(alg.name()), Some(alg));
    }
    assert_eq!(ScaleAlgorithm::from_name("point"), Some(ScaleAlgorithm::Nearest));
    assert_eq!(ScaleAlgorithm::from_name("Area"), None);
    assert_eq!(ScaleAlgorithm::from_name(""), None);
    assert_eq!(ScaleAlgorithm::default(), ScaleAlgorithm::Bicubic);
    assert_eq!(ScaleAlgorithm::Lanczos.taps(), 7);
}

#[test]
fn pictures_have_sizes() {
    let text = "picture size out of range".to_string();
    assert_eq!(
        Frame::allocate(PixelFormat::Gray8, 0, 4).unwrap_err(),
        Error::InvalidArgument(text.clone())
    );
    assert_eq!(
        Frame::allocate(PixelFormat::Gray8, 40000, 40000).unwrap_err(),
        Error::InvalidArgument(text)
    );
    let f = Frame::allocate(PixelFormat::Yuv420p, 5, 3).unwrap();
    assert_eq!((f.linesize(0), f.row_count(0)), (5, 3));
    assert_eq!((f.linesize(1), f.row_count(1)), (3, 2));
    assert_eq!(f.plane(2).len(), 6);
    let f = Frame::allocate(PixelFormat::Argb, 5, 3).unwrap();
    assert_eq!(f.linesize(0), 20);
}

#[test]
fn geometry_must_match() {
    let opts = options(ScaleAlgorithm::Bilinear, ScaleEngine::Cpu);
    let mut c = ScaleContext::new(
        (PixelFormat::Gray8, 2, 2),
        (PixelFormat::Gray8, 4, 4),
        opts,
        no_device(),
    )
    .unwrap();
    let src = gray(3, 2, &[0; 6]);
    let mut dst = gray(4, 4, &[9; 16]);
    assert_eq!(
        c.scale(&src, &mut dst),
        Err(Error::InvalidArgument("frame geometry does not match ScaleContext".to_string()))
    );
    assert!(dst.plane(0).iter().all(|&b| b == 9));
}

#[test]
fn kernels_need_their_values() {
    let mut c = ScaleContext::new(
        (PixelFormat::Gray8, 4, 4),
        (PixelFormat::Gray8, 8, 8),
        options(ScaleAlgorithm::Lanczos, ScaleEngine::Cpu),
        no_device(),
    )
    .unwrap();
    let mut src = gray(4, 4, &[7; 16]);
    let mut dst = gray(8, 8, &[0; 64]);
    let missing = Error::InvalidArgument("no kernel weights for this filter".to_string());
    assert_eq!(c.scale(&src, &mut dst), Err(missing.clone()));
    // Values for another place of chroma do not count.
    src.chroma_location = ChromaLocation::Left;
    let none = PlanWeights { h_lum: vec![], h_chr: vec![], v_lum: vec![], v_chr: vec![] };
    c.install_weights(ChromaLocation::Center, none);
    assert_eq!(c.scale(&src, &mut dst), Err(missing));
}

#[test]
fn area_needs_no_values_and_keeps_colors() {
    for (w, h) in [(9u32, 5u32), (2, 2), (1, 1), (4, 3)] {
        let mut c = ScaleContext::new(
            (PixelFormat::Gray8, w, h),
            (PixelFormat::Gray8, 7, 6),
            options(ScaleAlgorithm::Area, ScaleEngine::Cpu),
            no_device(),
        )
        .unwrap();
        let src = gray(w, h, &vec![201; (w * h) as usize]);
        let mut dst = gray(7, 6, &[0; 42]);
        assert_eq!(c.scale(&src, &mut dst), Ok(true));
        assert!(dst.plane(0).iter().all(|&b| b == 201), "{w}x{h}");
    }
}

#[test]
fn rows_reach_no_further_than_the_picture() {
    // One pixel, interpolated linearly: two taps, the second of which is nothing.
    let f = init_filter(x_inc(1, 5), 1, 5, ONE_H, TableScaler::Area, 128, 128, &[]).unwrap();
    assert_eq!(f.size, 2);
    for i in 0..5 {
        assert_eq!(f.row(i), &[16384, 0]);
        assert_eq!(f.filter_pos[i], 0);
    }
    // The edges take over what misses the picture.
    let f = init_filter(x_inc(4, 8), 4, 8, ONE_H, TableScaler::Area, 128, 128, &[]).unwrap();
    for i in 0..8 {
        assert!(f.filter_pos[i] as usize + f.size <= 4);
        assert_eq!(f.row(i).iter().map(|&t| t as i32).sum::<i32>(), 16384);
    }
    assert_eq!(f.row(0), &[16384, 0]);
}

#[test]
fn long_filters_are_refused() {
    let e = init_filter(x_inc(2000, 2), 2000, 2, ONE_H, TableScaler::Area, 128, 128, &[]);
    match e {
        Err(Error::Unsupported(t)) => assert_eq!(
            t,
            "scaling ratio would need swscale's cascaded two-pass (filterSize 1001 >= 256, \
             utils.c:1806-1834); unsupported in this phase"
        ),
        other => panic!("{other:?}"),
    }
    let e = init_filter(x_inc(64, 32), 64, 32, ONE_H, TableScaler::Sinc, 128, 128, &[]);
    assert_eq!(
        e.unwrap_err(),
        Error::InvalidArgument("no kernel weights for this filter".to_string())
    );
}

#[test]
fn devices_are_asked_for_as_told() {
    let yuv = (PixelFormat::Yuv420p, 8, 8);
    let rgb = (PixelFormat::Rgb24, 16, 16);
    let bicubic = ScaleAlgorithm::Bicubic;
    assert!(ScaleContext::wants_device(yuv, rgb, options(bicubic, ScaleEngine::Auto)));
    assert!(!ScaleContext::wants_device(yuv, rgb, options(bicubic, ScaleEngine::Cpu)));
    let spline = ScaleAlgorithm::Spline;
    assert!(!ScaleContext::wants_device(yuv, rgb, options(spline, ScaleEngine::Auto)));
    assert!(ScaleContext::wants_device(yuv, yuv, options(spline, ScaleEngine::Auto)));
    // A device that fails is no reason to fail, unless it was required.
    let c = ScaleContext::new(yuv, rgb, options(bicubic, ScaleEngine::Auto), no_device()).unwrap();
    assert!(!c.uses_gpu());
    let e = ScaleContext::new(yuv, rgb, options(bicubic, ScaleEngine::Vulkan), no_device());
    assert_eq!(e.unwrap_err(), Error::Unsupported("no device".to_string()));
    let c = ScaleContext::new(yuv, rgb, options(bicubic, ScaleEngine::Vulkan), Ok(())).unwrap();
    assert!(c.uses_gpu());
}

#[test]
fn the_device_is_told_about_the_picture() {
    let mut c = ScaleContext::new(
        (PixelFormat::Yuv420p, 5, 3),
        (PixelFormat::Bgr24, 17, 8),
        options(ScaleAlgorithm::Bilinear, ScaleEngine::Auto),
        Ok(()),
    )
    .unwrap();
    let mut src = Frame::allocate(PixelFormat::Yuv420p, 5, 3).unwrap();
    src.color_range = ColorRange::Jpeg;
    let mut dst = Frame::allocate(PixelFormat::Bgr24, 17, 8).unwrap();
    assert_eq!(c.scale(&src, &mut dst), Ok(false));
    let r = c.device_request(&src);
    assert_eq!(r.src_size, (5, 3));
    assert_eq!(r.dst_size, (17, 8));
    assert_eq!(r.chroma_size, (3, 2));
    assert_eq!((r.mode, r.algorithm), (0, 1));
    assert_eq!((r.full_range, r.center_siting), (1, 0));
    assert_eq!(r.groups, (3, 1));
    assert_eq!((r.inputs, r.outputs), (3, 1));
    assert_eq!(shader_mode(ConversionMode::Gray8ToGray8), 3);
    assert_eq!(shader_algorithm(ScaleAlgorithm::Nearest), 0);
}

#[test]
fn answers_of_the_device_are_taken_over() {
    let mut dst = Frame::allocate(PixelFormat::Abgr, 2, 1).unwrap();
    dst.plane_mut(0).copy_from_slice(&[50, 0, 0, 0, 60, 0, 0, 0]);
    assert_eq!(pack_rgba_to_dst(&[1, 2, 3, 9, 4, 5, 6], &mut dst), Err(Error::BufferTooSmall));
    assert_eq!(pack_rgba_to_dst(&[1, 2, 3, 9, 4, 5, 6, 9], &mut dst), Ok(()));
    assert_eq!(dst.plane(0), &[50, 3, 2, 1, 60, 6, 5, 4]);
    let mut dst = Frame::allocate(PixelFormat::Bgr24, 2, 1).unwrap();
    assert_eq!(pack_rgba_to_dst(&[1, 2, 3, 9, 4, 5, 6, 9], &mut dst), Ok(()));
    assert_eq!(dst.plane(0), &[3, 2, 1, 6, 5, 4]);
    let mut dst = Frame::allocate(PixelFormat::Yuv420p, 2, 2).unwrap();
    assert_eq!(store_plane(&[7], &mut dst, 1), Ok(()));
    assert_eq!(store_plane(&[7, 8], &mut dst, 2), Err(Error::BufferTooSmall));
    assert_eq!(dst.plane(1), &[7]);
    assert_eq!(dst.plane(2), &[0]);
}

#[test]
fn unscaled_pictures_stay_on_this_side() {
    let mut c = ScaleContext::new(
        (PixelFormat::Yuv420p, 2, 2),
        (PixelFormat::Argb, 2, 2),
        options(ScaleAlgorithm::Bicubic, ScaleEngine::Auto),
        Ok(()),
    )
    .unwrap();
    let mut src = Frame::allocate(PixelFormat::Yuv420p, 2, 2).unwrap();
    src.color_range = ColorRange::Jpeg;
    src.plane_mut(0).copy_from_slice(&[10, 20, 30, 40]);
    src.plane_mut(1)[0] = 128;
    src.plane_mut(2)[0] = 128;
    let mut dst = Frame::allocate(PixelFormat::Argb, 2, 2).unwrap();
    dst.plane_mut(0).iter_mut().for_each(|b| *b = 77);
    assert_eq!(c.scale(&src, &mut dst), Ok(true));
    let want = [77, 10, 10, 10, 77, 20, 20, 20, 77, 30, 30, 30, 77, 40, 40, 40];
    assert_eq!(dst.plane(0), &want);
}

#[test]
fn samples_between_pixels() {
    let plane = [0u8, 100, 200, 0];
    let at = |x: f32, y: f32, alg| {
        let (x, y) = (F32::from_bits(x.to_bits()), F32::from_bits(y.to_bits()));
        f32::from_bits(sample_plane(&plane, 2, 2, x, y, alg).to_bits())
    };
    assert_eq!(at(0.5, 0.0, ScaleAlgorithm::Bilinear), 50.0);
    assert_eq!(at(0.25, 0.5, ScaleAlgorithm::Bilinear), 87.5);
    assert_eq!(at(-3.0, 9.0, ScaleAlgorithm::Nearest), 200.0);
    assert_eq!(at(0.5, 0.0, ScaleAlgorithm::Nearest), 100.0);
    // The kernel is not quite zero at a distance of one pixel, in single precision.
    assert!(at(1.0, 1.0, ScaleAlgorithm::Bicubic).abs() < 1e-3);
}
