use ffmpeg_rs::error::Error;
use ffmpeg_rs::float::F64;
use ffmpeg_rs::pixels::ChromaLocation;
use ffmpeg_rs::pixels::ChromaLocation as L;
use ffmpeg_rs::scalefilter::{
    chroma_pos, fone, general_branch_size, get_spline_coeff, init_filter, kernel_arguments,
    kernel_coefficient, kernel_weight, x_inc, yuv2plane_x_8, Axis, SwsFilter, TableScaler, ONE_H, ONE_V,
};
use ffmpeg_rs::scaleplan::{build_plan, plan_axes, scale_plane, FilterPlan, Grid, PlanWeights};

/// The value of a kernel at a distance, of which `2^30` are a pixel.
fn kernel(scaler: TableScaler, d: i64) -> F64 {
    let at = |x: F64| {
        let x = f64::from_bits(x.to_bits());
        let y = if scaler == TableScaler::Gauss { x.exp2() } else { x.sin() };
        F64::from_bits(y.to_bits())
    };
    let (a, b) = kernel_arguments(scaler, d);
    kernel_weight(scaler, d, at(a), at(b))
}

/// The kernel's values that an axis needs.
fn weights(ax: &Axis) -> Vec<F64> {
    ax.distances().iter().map(|&d| kernel(ax.scaler, d)).collect()
}

fn filter(
    x_inc: i64,
    src_len: i32,
    dst_len: i32,
    one: i64,
    scaler: TableScaler,
    src_pos: i32,
    dst_pos: i32,
) -> Result<SwsFilter, Error> {
    let ax = Axis { x_inc, src_len, dst_len, scaler, src_pos, dst_pos };
    init_filter(x_inc, src_len, dst_len, one, scaler, src_pos, dst_pos, &weights(&ax))
}

fn plan(
    scaler: TableScaler,
    src: (i32, i32),
    dst: (i32, i32),
    loc: ChromaLocation,
) -> Result<FilterPlan, Error> {
    let a = plan_axes(scaler, src, dst, loc);
    let w = PlanWeights {
        h_lum: weights(&a.h_lum),
        h_chr: weights(&a.h_chr),
        v_lum: weights(&a.v_lum),
        v_chr: weights(&a.v_chr),
    };
    build_plan(scaler, src, dst, loc, &w)
}

fn coefficient(scaler: TableScaler, d: i64, x: f64, x_inc: i64, one: i64) -> i64 {
    assert_eq!(d as f64 * (1.0 / (1 << 30) as f64), x);
    kernel_coefficient(scaler, d, x_inc, one, kernel(scaler, d))
}

fn spline(a: f64, b: f64, c: f64, d: f64, dist: f64) -> f64 {
    let bits = |x: f64| F64::from_bits(x.to_bits());
    f64::from_bits(
        get_spline_coeff(bits(a), bits(b), bits(c), bits(d), bits(dist), 64).to_bits(),
    )
}

fn all_scalers() -> [TableScaler; 5] {
    [
        TableScaler::Area,
        TableScaler::Gauss,
        TableScaler::Sinc,
        TableScaler::Lanczos,
        TableScaler::Spline,
    ]
}

#[test]
fn area_downscale_4_to2_hand_computed() {
    let f = filter(x_inc(4, 2), 4, 2, ONE_H, TableScaler::Area, 128, 128).unwrap();
    assert_eq!(f.size, 2);
    assert_eq!(f.filter_pos, vec![0, 2]);
    assert_eq!(f.row(0), &[8192, 8192]);
    assert_eq!(f.row(1), &[8192, 8192]);
}

#[test]
fn filter_sizes_match_c_formulas() {
    let size = |s, sw, dw| general_branch_size(s, x_inc(sw, dw), sw, dw);
    for sw in [64, 100, 1920] {
        let dw = sw / 2;
        assert_eq!(size(TableScaler::Lanczos, sw, dw), 13, "lanczos 2x down");
        assert_eq!(size(TableScaler::Gauss, sw, dw), 17, "gauss 2x down");
        assert_eq!(size(TableScaler::Sinc, sw, dw), 41, "sinc 2x down");
        assert_eq!(size(TableScaler::Spline, sw, dw), 41, "spline 2x down");
        assert_eq!(size(TableScaler::Area, sw, dw), 3, "area 2x down");
    }
    assert_eq!(size(TableScaler::Lanczos, 32, 64), 7);
    assert_eq!(size(TableScaler::Gauss, 32, 64), 9);
    assert_eq!(size(TableScaler::Sinc, 32, 64), 21);
    assert_eq!(size(TableScaler::Spline, 32, 64), 21);
    assert_eq!(size(TableScaler::Sinc, 1920, 1), 1918);
    assert_eq!(size(TableScaler::Sinc, 2, 4), 1);
}

#[test]
fn final_sizes_match_c_reference() {
    let size = |s, sw, dw| {
        filter(x_inc(sw, dw), sw, dw, ONE_H, s, 128, 128)
            .unwrap()
            .size
    };
    assert_eq!(size(TableScaler::Area, 64, 32), 2);
    assert_eq!(size(TableScaler::Gauss, 64, 32), 6);
    assert_eq!(size(TableScaler::Lanczos, 64, 32), 12);
    assert_eq!(size(TableScaler::Sinc, 64, 32), 41);
    assert_eq!(size(TableScaler::Spline, 64, 32), 20);
    assert_eq!(size(TableScaler::Area, 32, 64), 2);
    assert_eq!(size(TableScaler::Gauss, 32, 64), 3);
    assert_eq!(size(TableScaler::Lanczos, 32, 64), 6);
    assert_eq!(size(TableScaler::Sinc, 32, 64), 21);
    assert_eq!(size(TableScaler::Spline, 32, 64), 9);
}

#[test]
fn coefficient_rows_match_c_reference() {
    let f = filter(x_inc(5, 3), 5, 3, ONE_H, TableScaler::Sinc, 128, 128).unwrap();
    assert_eq!(f.size, 3);
    assert_eq!(f.filter_pos, vec![0, 1, 2]);
    assert_eq!(f.row(0), &[9057, 7327, 0]);
    assert_eq!(f.row(1), &[4115, 8154, 4115]);
    assert_eq!(f.row(2), &[0, 6437, 9947]);

    let f = filter(x_inc(13, 7), 13, 7, ONE_H, TableScaler::Gauss, 64, 128).unwrap();
    assert_eq!(f.size, 7);
    assert_eq!(f.filter_pos[..3], vec![0, 0, 2]);
    assert_eq!(f.row(0), &[6846, 6745, 2505, 279, 9, 0, 0]);
    assert_eq!(f.row(1), &[149, 1732, 6038, 6304, 1971, 185, 5]);
    assert_eq!(f.row(2), &[227, 2230, 6542, 5750, 1513, 119, 3]);

    let f = filter(x_inc(13, 7), 13, 7, ONE_H, TableScaler::Lanczos, 64, 128).unwrap();
    assert_eq!(f.size, 11);
    assert_eq!(
        f.row(0),
        &[6428, 8479, 2871, -1191, -501, 279, 19, 0, 0, 0, 0]
    );
    assert_eq!(
        f.row(1),
        &[-1527, 1574, 7686, 7997, 1991, -1305, -299, 264, 3, 0, 0]
    );
}

#[test]
fn filter_rows_sum_to_one() {
    for scaler in all_scalers() {
        for (sw, dw) in [(64, 32), (32, 64), (13, 7)] {
            for (one, name) in [(ONE_H, "H"), (ONE_V, "V")] {
                let f = filter(x_inc(sw, dw), sw, dw, one, scaler, 128, 128)
                    .unwrap_or_else(|e| panic!("{scaler:?} {sw}->{dw} {name}: {e:?}"));
                for i in 0..dw as usize {
                    let sum: i32 = f.row(i).iter().map(|&c| c as i32).sum();
                    assert_eq!(sum, one as i32, "{scaler:?} {sw}->{dw} {name} row {i}");
                    assert!(
                        (0..sw).contains(&f.filter_pos[i]),
                        "{scaler:?} pos in range"
                    );
                    for (j, &c) in f.row(i).iter().enumerate() {
                        if f.filter_pos[i] as usize + j >= sw as usize {
                            assert_eq!(c, 0, "{scaler:?} out-of-range tap must be zero");
                        }
                    }
                }
            }
        }
    }
}

#[test]
fn kernel_value_pins() {
    let f2 = fone(4, 2);

    let p = -2.196152422706632f64;
    let v = spline(1.0, 0.0, p, -p - 1.0, 0.5);
    assert!((v - 0.600480947161671).abs() < 1e-15, "{v}");
    let v2 = spline(1.0, 0.0, p, -p - 1.0, 1.25);
    let shifted = spline(
        0.0,
        0.0 + 2.0 * p + 3.0 * (-p - 1.0),
        p + 3.0 * (-p - 1.0),
        -0.0 - 3.0 * p - 6.0 * (-p - 1.0),
        0.25,
    );
    assert!((v2 - shifted).abs() < 1e-12);

    let g = coefficient(
        TableScaler::Gauss,
        (0.5 * (1 << 30) as f64) as i64,
        0.5,
        0x20000,
        f2,
    );
    assert_eq!(g, (2f64.powf(-0.75) * f2 as f64) as i64);
    assert!((2f64.powf(-0.75) - 0.5946035575013605).abs() < 1e-15);

    for scaler in all_scalers() {
        let c = coefficient(scaler, 0, 0.0, 0x20000, f2);
        assert_eq!(c, f2, "{scaler:?} at d=0");
    }

    let l = coefficient(
        TableScaler::Lanczos,
        (3.5 * (1 << 30) as f64) as i64,
        3.5,
        0x20000,
        f2,
    );
    assert_eq!(l, 0);
    let l = coefficient(
        TableScaler::Lanczos,
        (2.5 * (1 << 30) as f64) as i64,
        2.5,
        0x20000,
        f2,
    );
    assert!(l > 0 && l < f2 / 4, "{l}");

    let s = coefficient(TableScaler::Sinc, 8 << 30, 8.0, 0x20000, f2);
    assert_eq!(s, 0, "sin(8π) is ~1e-15 ⇒ truncates to 0");

    let a = coefficient(TableScaler::Area, 0, 0.0, 0x20000, f2);
    assert_eq!(a, (1i64 << 46) * (f2 >> 46));
    let a_far = coefficient(TableScaler::Area, 2 << 30, 2.0, 0x20000, f2);
    assert_eq!(a_far, 0);
}

#[test]
fn x_inc_rounding_pins() {
    assert_eq!(x_inc(128, 64), 131072);
    assert_eq!(x_inc(100, 64), 102400);
    assert_eq!(x_inc(4, 2), 131072);
    assert_eq!(fone(64, 32), 1 << 53);
    assert_eq!(fone(32, 64), 1 << 54);
    assert_eq!(fone(1, 1), 1 << 54);
    assert_eq!(fone(2048, 8), 1 << 46);
    assert_eq!(fone(4096, 8), 1 << 46);
}

#[test]
fn constant_plane_is_identity_under_table_resampling() {
    for scaler in all_scalers() {
        for (sw, sh, dw, dh) in [(9, 7, 17, 13), (32, 24, 16, 12)] {
            let src = vec![137u8; sw * sh];
            let mut dst = vec![0u8; dw * dh];
            let plan = plan(
                scaler,
                (sw as i32, sh as i32),
                (dw as i32, dh as i32),
                ChromaLocation::Unspecified,
            )
            .unwrap_or_else(|e| panic!("{scaler:?}: {e:?}"));
            scale_plane(
                &src,
                Grid { w: sw, h: sh, ls: sw },
                &mut dst,
                dw,
                &plan.h_lum,
                &plan.v_lum,
            );
            assert!(
                dst.iter().all(|&b| b == 137),
                "{scaler:?} {sw}x{sh}->{dw}x{dh}: {:?}",
                {
                    let min = *dst.iter().min().unwrap();
                    let max = *dst.iter().max().unwrap();
                    (min, max)
                }
            );
        }
    }
}

#[test]
fn yuv2plane_x_8_matches_plane1() {
    let vals = [0i16, 1, 64, 127, -1, -64, -128, 32767, -32768, 100, -100];
    let mut lines: Vec<&[i16]> = Vec::new();
    let mut line = vec![0i16; vals.len()];
    for (i, &v) in vals.iter().enumerate() {
        line[i] = v;
    }
    lines.push(&line[..]);
    let mut got = vec![0u8; vals.len()];
    yuv2plane_x_8(&mut got, &lines, &[4096]);
    for (i, &v) in vals.iter().enumerate() {
        let expect = ((v as i32 + 64) >> 7).clamp(0, 255) as u8;
        assert_eq!(got[i], expect, "v={v}");
    }
}

#[test]
fn cascade_ratio_errors() {
    let err = filter(
        x_inc(1920, 120),
        1920,
        120,
        ONE_H,
        TableScaler::Sinc,
        128,
        128,
    )
    .unwrap_err();
    match err {
        Error::Unsupported(msg) => assert!(msg.contains("cascaded"), "{msg}"),
        other => panic!("expected Unsupported, got {other:?}"),
    }
    assert!(
        filter(
            x_inc(1920, 480),
            1920,
            480,
            ONE_H,
            TableScaler::Sinc,
            128,
            128
        )
        .is_ok()
    );
}

#[test]
fn chroma_positions() {
    let h = |l| chroma_pos(l, true);
    let v = |l| chroma_pos(l, false);
    assert_eq!((h(L::Unspecified), v(L::Unspecified)), (128, 128));
    assert_eq!((h(L::Center), v(L::Center)), (128, 128));
    assert_eq!((h(L::Left), v(L::Left)), (64, 128));
    assert_eq!((h(L::TopLeft), v(L::TopLeft)), (64, 64));
    assert_eq!((h(L::Top), v(L::Top)), (128, 64));
    assert_eq!((h(L::BottomLeft), v(L::BottomLeft)), (64, 192));
    assert_eq!((h(L::Bottom), v(L::Bottom)), (128, 192));
}

#[test]
fn identity_geometry_is_special_a() {
    let f = filter(x_inc(9, 9), 9, 9, ONE_H, TableScaler::Spline, 128, 128).unwrap();
    assert_eq!(f.size, 1);
    assert_eq!(f.filter_pos, vec![0, 1, 2, 3, 4, 5, 6, 7, 8]);
    assert!(f.filter.iter().all(|&c| c == 16384));
    let f = filter(x_inc(9, 9), 9, 9, ONE_H, TableScaler::Area, 64, 128).unwrap();
    assert_eq!(f.size, 2, "area identity-size with differing siting");
    assert_eq!(f.row(0), &[12288, 4096]);
    let f = filter(x_inc(9, 9), 9, 9, ONE_H, TableScaler::Gauss, 64, 128).unwrap();
    assert_eq!(f.size, 3);
    assert_eq!(f.row(0), &[12240, 4144, 0]);
}

/// The value of a kernel, computed by the machine, at a distance, of which `2^30` are a pixel.
fn machine_kernel(scaler: TableScaler, d: i64) -> F64 {
    let x = d as f64 * (1.0 / (1 << 30) as f64);
    let pi = std::f64::consts::PI;
    let v = match scaler {
        TableScaler::Gauss => f64::exp2(-3.0 * x * x),
        TableScaler::Sinc if d != 0 => (x * pi).sin() / (x * pi),
        TableScaler::Lanczos if d != 0 => {
            (x * pi).sin() * (x * pi / 3.0).sin() / (x * x * pi * pi / 3.0)
        }
        _ => 1.0,
    };
    F64::from_bits(v.to_bits())
}

#[test]
fn kernels_are_those_of_the_machine() {
    for scaler in [TableScaler::Gauss, TableScaler::Sinc, TableScaler::Lanczos, TableScaler::Area] {
        for k in 0..400i64 {
            let d = k * 12_345_678;
            assert_eq!(kernel(scaler, d), machine_kernel(scaler, d), "{scaler:?} {d}");
        }
    }
}
