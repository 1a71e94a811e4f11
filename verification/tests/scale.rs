use ffmpeg_rs::error::Error;
use ffmpeg_rs::float::{F32, F64};
use ffmpeg_rs::pixels::{ChromaLocation, ColorRange, Frame, PixelFormat};
use ffmpeg_rs::sampler::ScaleAlgorithm;
use ffmpeg_rs::scale::{ScaleEngine, ScaleOptions};
use ffmpeg_rs::scalecontext::ScaleContext;
use ffmpeg_rs::scalefilter::{kernel_arguments, kernel_weight, Axis, TableScaler};
use ffmpeg_rs::scaleplan::PlanWeights;

/// The value of a kernel at a distance, of which `2^30` are a pixel.
fn kernel(scaler: TableScaler, d: i64) -> F64 {
    let at = |x: F64| {
        let x = f64::from_bits(x.to_bits());
        let y = if scaler == TableScaler::Gauss { x.exp2() } else { x.sin() };
        F64::from_bits(y.to_bits())
    };
    let (a, b) = kernel_arguments(scaler, d);
    kernel_weight(scaler, d, at(a), at(b))
}

fn weights(ax: &Axis) -> Vec<F64> {
    ax.distances().iter().map(|&d| kernel(ax.scaler, d)).collect()
}

/// A context without a device, with the kernels' values.
#[derive(Debug)]
struct Scaler(ScaleContext);

impl Scaler {
    fn new(
        src: (PixelFormat, u32, u32),
        dst: (PixelFormat, u32, u32),
        options: ScaleOptions,
    ) -> Result<Scaler, Error> {
        let device = Err(Error::Unsupported("no device".to_string()));
        Ok(Scaler(ScaleContext::new(src, dst, options, device)?))
    }

    fn uses_gpu(&self) -> bool {
        self.0.uses_gpu()
    }

    fn scale(&mut self, src: &Frame, dst: &mut Frame) -> Result<(), Error> {
        if let Some(a) = self.0.filter_axes(src.chroma_location) {
            let w = PlanWeights {
                h_lum: weights(&a.h_lum),
                h_chr: weights(&a.h_chr),
                v_lum: weights(&a.v_lum),
                v_chr: weights(&a.v_chr),
            };
            self.0.install_weights(src.chroma_location, w);
        }
        assert_eq!(self.0.scale(src, dst)?, true);
        Ok(())
    }
}

fn cpu_opts(alg: ScaleAlgorithm) -> ScaleOptions {
    ScaleOptions {
        algorithm: alg,
        engine: ScaleEngine::Cpu,
    }
}

#[test]
fn bt601_limited_range_endpoints() {
    let mut src = Frame::allocate(PixelFormat::Yuv420p, 2, 1).unwrap();
    src.color_range = ColorRange::Mpeg;
    src.plane_mut(0)[..2].copy_from_slice(&[16, 235]);
    src.plane_mut(1)[..1].copy_from_slice(&[128]);
    src.plane_mut(2)[..1].copy_from_slice(&[128]);

    for alg in [
        ScaleAlgorithm::Nearest,
        ScaleAlgorithm::Bilinear,
        ScaleAlgorithm::Bicubic,
    ] {
        let mut dst = Frame::allocate(PixelFormat::Rgb24, 2, 1).unwrap();
        Scaler::new(
            (PixelFormat::Yuv420p, 2, 1),
            (PixelFormat::Rgb24, 2, 1),
            cpu_opts(alg),
        )
        .unwrap()
        .scale(&src, &mut dst)
        .unwrap();
        let out = dst.plane(0);
        assert_eq!(&out[..3], &[0, 0, 0], "{alg:?} black");
        assert_eq!(&out[3..6], &[255, 255, 255], "{alg:?} white");
    }
}

#[test]
fn bt601_full_range_endpoints() {
    let mut src = Frame::allocate(PixelFormat::Yuv420p, 2, 1).unwrap();
    src.color_range = ColorRange::Jpeg;
    src.plane_mut(0)[..2].copy_from_slice(&[0, 255]);
    src.plane_mut(1)[..1].copy_from_slice(&[128]);
    src.plane_mut(2)[..1].copy_from_slice(&[128]);

    let mut dst = Frame::allocate(PixelFormat::Rgb24, 2, 1).unwrap();
    Scaler::new(
        (PixelFormat::Yuv420p, 2, 1),
        (PixelFormat::Rgb24, 2, 1),
        cpu_opts(ScaleAlgorithm::Bicubic),
    )
    .unwrap()
    .scale(&src, &mut dst)
    .unwrap();
    let out = dst.plane(0);
    assert_eq!(&out[..3], &[0, 0, 0]);
    assert_eq!(&out[3..6], &[255, 255, 255]);
}

#[test]
fn bt601_full_range_chroma_gains() {
    let mut src = Frame::allocate(PixelFormat::Yuv420p, 2, 2).unwrap();
    src.color_range = ColorRange::Jpeg;
    for row in src.plane_mut(0).chunks_exact_mut(2) {
        row.copy_from_slice(&[90, 90]);
    }
    src.plane_mut(1)[..1].copy_from_slice(&[240]);
    src.plane_mut(2)[..1].copy_from_slice(&[90]);

    let mut dst = Frame::allocate(PixelFormat::Rgb24, 2, 2).unwrap();
    Scaler::new(
        (PixelFormat::Yuv420p, 2, 2),
        (PixelFormat::Rgb24, 2, 2),
        cpu_opts(ScaleAlgorithm::Bicubic),
    )
    .unwrap()
    .scale(&src, &mut dst)
    .unwrap();
    let out = dst.plane(0);
    for px in out.chunks_exact(3) {
        assert_eq!(px, &[37, 79, 255]);
    }
}

#[test]
fn unscaled_yuv420p_to_rgb_replicates_chroma() {
    let mut src = Frame::allocate(PixelFormat::Yuv420p, 4, 2).unwrap();
    src.color_range = ColorRange::Jpeg;
    src.plane_mut(0).copy_from_slice(&[100; 8]);
    src.plane_mut(1).copy_from_slice(&[80, 200]);
    src.plane_mut(2).copy_from_slice(&[128, 128]);

    let mut dst = Frame::allocate(PixelFormat::Rgb24, 4, 2).unwrap();
    Scaler::new(
        (PixelFormat::Yuv420p, 4, 2),
        (PixelFormat::Rgb24, 4, 2),
        cpu_opts(ScaleAlgorithm::Bicubic),
    )
    .unwrap()
    .scale(&src, &mut dst)
    .unwrap();
    let out = dst.plane(0);
    let px = |i: usize| &out[i * 3..i * 3 + 3];
    assert_eq!(px(0), px(1));
    assert_eq!(px(2), px(3));
    assert_ne!(px(1), px(2), "chroma columns differ");
    let b_col0 = out[2] as i32;
    let b_col1 = out[8] as i32;
    let expected_col0 = (100.0f32 + 1.772 * (80.0 - 128.0))
        .round()
        .clamp(0.0, 255.0) as i32;
    let expected_col1 = (100.0f32 + 1.772 * (200.0 - 128.0))
        .round()
        .clamp(0.0, 255.0) as i32;
    assert_eq!((b_col0, b_col1), (expected_col0, expected_col1));
}

#[test]
fn bt601_colored_pixel_hand_computed() {
    let mut src = Frame::allocate(PixelFormat::Yuv420p, 2, 2).unwrap();
    src.color_range = ColorRange::Mpeg;
    for row in src.plane_mut(0).chunks_exact_mut(2) {
        row.copy_from_slice(&[126, 126]);
    }
    src.plane_mut(1)[..1].copy_from_slice(&[64]);
    src.plane_mut(2)[..1].copy_from_slice(&[128]);

    let mut dst = Frame::allocate(PixelFormat::Rgb24, 2, 2).unwrap();
    Scaler::new(
        (PixelFormat::Yuv420p, 2, 2),
        (PixelFormat::Rgb24, 2, 2),
        cpu_opts(ScaleAlgorithm::Bicubic),
    )
    .unwrap()
    .scale(&src, &mut dst)
    .unwrap();
    let out = dst.plane(0);
    for px in out.chunks_exact(3) {
        assert_eq!(px[0], 128, "R");
        assert_eq!(px[1], 153, "G");
        assert_eq!(px[2], 0, "B");
    }
}

#[test]
fn bgr24_swaps_component_order() {
    let mut src = Frame::allocate(PixelFormat::Yuv420p, 2, 1).unwrap();
    src.plane_mut(0)[..2].copy_from_slice(&[16, 235]);
    src.plane_mut(1)[..1].copy_from_slice(&[255]);
    src.plane_mut(2)[..1].copy_from_slice(&[128]);
    let mut dst = Frame::allocate(PixelFormat::Bgr24, 2, 1).unwrap();
    Scaler::new(
        (PixelFormat::Yuv420p, 2, 1),
        (PixelFormat::Bgr24, 2, 1),
        cpu_opts(ScaleAlgorithm::Bicubic),
    )
    .unwrap()
    .scale(&src, &mut dst)
    .unwrap();
    let out = dst.plane(0);
    assert_eq!(out[0], 255, "B first in bgr24");
}

#[test]
fn identity_copies_planes() {
    let mut src = Frame::allocate(PixelFormat::Yuv420p, 4, 2).unwrap();
    src.plane_mut(0)
        .iter_mut()
        .enumerate()
        .for_each(|(i, b)| *b = i as u8);
    let mut dst = Frame::allocate(PixelFormat::Yuv420p, 4, 2).unwrap();
    Scaler::new(
        (PixelFormat::Yuv420p, 4, 2),
        (PixelFormat::Yuv420p, 4, 2),
        cpu_opts(ScaleAlgorithm::Bicubic),
    )
    .unwrap()
    .scale(&src, &mut dst)
    .unwrap();
    assert_eq!(src.plane(0), dst.plane(0));
}

#[test]
fn gray8_to_rgb_replicates() {
    let mut src = Frame::allocate(PixelFormat::Gray8, 2, 1).unwrap();
    src.color_range = ColorRange::Jpeg;
    src.plane_mut(0)[..2].copy_from_slice(&[0, 200]);
    let mut dst = Frame::allocate(PixelFormat::Rgba, 2, 1).unwrap();
    Scaler::new(
        (PixelFormat::Gray8, 2, 1),
        (PixelFormat::Rgba, 2, 1),
        cpu_opts(ScaleAlgorithm::Bicubic),
    )
    .unwrap()
    .scale(&src, &mut dst)
    .unwrap();
    let out = dst.plane(0);
    assert_eq!(&out[..4], &[0, 0, 0, 0]);
    assert_eq!(&out[4..8], &[200, 200, 200, 0]);
}

#[test]
fn nearest_upscale_is_exact_replication() {
    let mut src = Frame::allocate(PixelFormat::Gray8, 2, 2).unwrap();
    src.color_range = ColorRange::Jpeg;
    src.plane_mut(0).copy_from_slice(&[10, 20, 30, 40]);
    let mut dst = Frame::allocate(PixelFormat::Gray8, 4, 4).unwrap();
    Scaler::new(
        (PixelFormat::Gray8, 2, 2),
        (PixelFormat::Gray8, 4, 4),
        cpu_opts(ScaleAlgorithm::Nearest),
    )
    .unwrap()
    .scale(&src, &mut dst)
    .unwrap();
    let expect = [
        10, 10, 20, 20, 10, 10, 20, 20, 30, 30, 40, 40, 30, 30, 40, 40,
    ];
    assert_eq!(dst.plane(0), &expect);
}

#[test]
fn bilinear_upscale_interpolates() {
    let mut src = Frame::allocate(PixelFormat::Gray8, 2, 2).unwrap();
    src.color_range = ColorRange::Jpeg;
    src.plane_mut(0).copy_from_slice(&[0, 100, 200, 0]);
    let mut dst = Frame::allocate(PixelFormat::Gray8, 4, 4).unwrap();
    Scaler::new(
        (PixelFormat::Gray8, 2, 2),
        (PixelFormat::Gray8, 4, 4),
        cpu_opts(ScaleAlgorithm::Bilinear),
    )
    .unwrap()
    .scale(&src, &mut dst)
    .unwrap();
    assert_eq!(dst.plane(0)[0..4], [0, 25, 75, 100]);
}

#[test]
fn constant_color_is_preserved_by_resampling() {
    for alg in [
        ScaleAlgorithm::Nearest,
        ScaleAlgorithm::Bilinear,
        ScaleAlgorithm::Bicubic,
    ] {
        let mut src = Frame::allocate(PixelFormat::Yuv420p, 9, 7).unwrap();
        for p in 0..3 {
            for b in src.plane_mut(p).iter_mut() {
                *b = (77 + p * 11) as u8;
            }
        }
        let mut dst = Frame::allocate(PixelFormat::Rgb24, 17, 13).unwrap();
        Scaler::new(
            (PixelFormat::Yuv420p, 9, 7),
            (PixelFormat::Rgb24, 17, 13),
            cpu_opts(alg),
        )
        .unwrap()
        .scale(&src, &mut dst)
        .unwrap();
        let y = 77.0f32;
        let u = (77.0 + 11.0) - 128.0;
        let v = (77.0 + 22.0) - 128.0;
        let fy = (y - 16.0) * (255.0 / 219.0);
        let expected: [u8; 3] = [
            (fy + 1.59603 * v).round().clamp(0.0, 255.0) as u8,
            (fy - 0.39176 * u - 0.81297 * v).round().clamp(0.0, 255.0) as u8,
            (fy + 2.01723 * u).round().clamp(0.0, 255.0) as u8,
        ];
        for px in dst.plane(0).chunks_exact(3) {
            assert_eq!(px, &expected, "{alg:?}");
        }
    }
}

#[test]
fn planar_resample_geometry() {
    let mut src = Frame::allocate(PixelFormat::Yuv420p, 13, 7).unwrap();
    for p in 0..3 {
        for (i, b) in src.plane_mut(p).iter_mut().enumerate() {
            *b = ((i * (p + 1)) % 251) as u8;
        }
    }
    let mut dst = Frame::allocate(PixelFormat::Yuv420p, 32, 24).unwrap();
    Scaler::new(
        (PixelFormat::Yuv420p, 13, 7),
        (PixelFormat::Yuv420p, 32, 24),
        cpu_opts(ScaleAlgorithm::Bilinear),
    )
    .unwrap()
    .scale(&src, &mut dst)
    .unwrap();
    assert_eq!(dst.plane(1).len(), 16 * 12);
}

#[test]
fn unsupported_pairs_rejected() {
    assert!(
        Scaler::new(
            (PixelFormat::Yuv422p, 8, 8),
            (PixelFormat::Rgb24, 8, 8),
            cpu_opts(ScaleAlgorithm::Bicubic),
        )
        .is_err()
    );
}

#[test]
fn bicubic_kernel_shape() {
    let bic = |x: f32| {
        f32::from_bits(ScaleAlgorithm::Bicubic.weight(F32::from_bits(x.to_bits())).to_bits())
    };
    assert!((bic(0.0) - 1.0).abs() < 1e-6);
    assert!(bic(1.3) < 0.0, "negative lobe between taps");
    assert_eq!(bic(2.5), 0.0);
    let s: f32 = (0..4).map(|i| bic((i as f32 - 1.5).abs())).sum();
    assert!((s - 1.0).abs() < 1e-3, "sum {s}");
}

#[test]
fn table_algorithms_preserve_constant_color_planar() {
    for alg in [
        ScaleAlgorithm::Area,
        ScaleAlgorithm::Gauss,
        ScaleAlgorithm::Sinc,
        ScaleAlgorithm::Lanczos,
        ScaleAlgorithm::Spline,
    ] {
        let mut src = Frame::allocate(PixelFormat::Yuv420p, 9, 7).unwrap();
        for p in 0..3 {
            for b in src.plane_mut(p).iter_mut() {
                *b = (77 + p * 11) as u8;
            }
        }
        let mut dst = Frame::allocate(PixelFormat::Yuv420p, 17, 13).unwrap();
        Scaler::new(
            (PixelFormat::Yuv420p, 9, 7),
            (PixelFormat::Yuv420p, 17, 13),
            cpu_opts(alg),
        )
        .unwrap()
        .scale(&src, &mut dst)
        .unwrap_or_else(|e| panic!("{alg:?}: {e:?}"));
        for p in 0..3 {
            let want = (77 + p * 11) as u8;
            assert!(
                dst.plane(p).iter().all(|&b| b == want),
                "{alg:?} plane {p}: not constant {}",
                dst.plane(p).iter().min().unwrap()
            );
        }

        let mut dst = Frame::allocate(PixelFormat::Yuv420p, 5, 4).unwrap();
        Scaler::new(
            (PixelFormat::Yuv420p, 9, 7),
            (PixelFormat::Yuv420p, 5, 4),
            cpu_opts(alg),
        )
        .unwrap()
        .scale(&src, &mut dst)
        .unwrap_or_else(|e| panic!("{alg:?}: {e:?}"));
        for p in 0..3 {
            let want = (77 + p * 11) as u8;
            assert!(
                dst.plane(p).iter().all(|&b| b == want),
                "{alg:?} down plane {p}"
            );
        }
    }
}

#[test]
fn table_algorithm_rgb_compose_smoke() {
    let mut src = Frame::allocate(PixelFormat::Yuv420p, 16, 8).unwrap();
    for p in 0..3 {
        for (i, b) in src.plane_mut(p).iter_mut().enumerate() {
            *b = ((i * (p + 3)) % 191) as u8;
        }
    }
    for alg in [ScaleAlgorithm::Lanczos, ScaleAlgorithm::Area] {
        let mut dst = Frame::allocate(PixelFormat::Rgb24, 8, 4).unwrap();
        Scaler::new(
            (PixelFormat::Yuv420p, 16, 8),
            (PixelFormat::Rgb24, 8, 4),
            cpu_opts(alg),
        )
        .unwrap()
        .scale(&src, &mut dst)
        .unwrap_or_else(|e| panic!("{alg:?}: {e:?}"));
        assert_eq!(dst.plane(0).len(), 8 * 4 * 3);
        assert!(dst.plane(0).iter().any(|&b| b != 0));
    }
}

#[test]
fn table_filters_rebuild_on_chroma_location_change() {
    let mut ctx = Scaler::new(
        (PixelFormat::Yuv420p, 13, 7),
        (PixelFormat::Yuv420p, 26, 14),
        cpu_opts(ScaleAlgorithm::Lanczos),
    )
    .unwrap();
    let mut src = Frame::allocate(PixelFormat::Yuv420p, 13, 7).unwrap();
    for p in 0..3 {
        for (i, b) in src.plane_mut(p).iter_mut().enumerate() {
            *b = ((i * 7 * (p + 1)) % 181) as u8;
        }
    }
    let mut dst_center = Frame::allocate(PixelFormat::Yuv420p, 26, 14).unwrap();
    src.chroma_location = ChromaLocation::Center;
    ctx.scale(&src, &mut dst_center).unwrap();
    let mut dst_left = Frame::allocate(PixelFormat::Yuv420p, 26, 14).unwrap();
    src.chroma_location = ChromaLocation::Left;
    ctx.scale(&src, &mut dst_left).unwrap();
    assert_eq!(
        dst_center.plane(0),
        dst_left.plane(0),
        "luma independent of siting"
    );
    assert_ne!(
        dst_center.plane(1),
        dst_left.plane(1),
        "chroma siting must shift the resample"
    );
}

#[test]
fn engine_fallback_for_table_algorithms() {
    let table = ScaleAlgorithm::Lanczos;
    let err = Scaler::new(
        (PixelFormat::Yuv420p, 9, 7),
        (PixelFormat::Rgb24, 17, 13),
        ScaleOptions {
            algorithm: table,
            engine: ScaleEngine::Vulkan,
        },
    )
    .unwrap_err();
    match err {
        Error::Unsupported(msg) => {
            assert!(msg.contains("not available on the Vulkan engine"), "{msg}")
        }
        other => panic!("expected Unsupported, got {other:?}"),
    }
    let ctx = Scaler::new(
        (PixelFormat::Yuv420p, 9, 7),
        (PixelFormat::Rgb24, 17, 13),
        ScaleOptions {
            algorithm: table,
            engine: ScaleEngine::Auto,
        },
    )
    .unwrap();
    assert!(!ctx.uses_gpu());
    Scaler::new(
        (PixelFormat::Yuv420p, 9, 7),
        (PixelFormat::Rgb24, 9, 7),
        ScaleOptions {
            algorithm: table,
            engine: ScaleEngine::Auto,
        },
    )
    .unwrap();
    let err = Scaler::new(
        (PixelFormat::Gray8, 9, 7),
        (PixelFormat::Rgb24, 9, 7),
        ScaleOptions {
            algorithm: table,
            engine: ScaleEngine::Vulkan,
        },
    )
    .unwrap_err();
    assert!(matches!(err, Error::Unsupported(_)));
}

#[test]
fn algorithm_names_and_size_factors() {
    for (name, alg, sf) in [
        ("area", ScaleAlgorithm::Area, 1),
        ("gauss", ScaleAlgorithm::Gauss, 8),
        ("sinc", ScaleAlgorithm::Sinc, 20),
        ("lanczos", ScaleAlgorithm::Lanczos, 6),
        ("spline", ScaleAlgorithm::Spline, 20),
    ] {
        assert_eq!(ScaleAlgorithm::from_name(name), Some(alg));
        assert_eq!(alg.name(), name);
        assert_eq!(alg.size_factor(), sf);
        assert!(alg.is_table_driven());
    }
    assert_eq!(ScaleAlgorithm::Bicubic.size_factor(), 0);
    assert!(!ScaleAlgorithm::Bicubic.is_table_driven());
}
