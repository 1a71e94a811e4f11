use ffmpeg_rs::float::F64;
use ffmpeg_rs::lowpass;
use ffmpeg_rs::lowpass::FilterValues;
use ffmpeg_rs::resample::{FilterShape, FilterType};

fn bessel_i0(x: f64) -> f64 {
    const P1: [f64; 15] = [
        -2.2335582639474375249e+15,
        -5.5050369673018427753e+14,
        -3.2940087627407749166e+13,
        -8.4925101247114157499e+11,
        -1.1912746104985237192e+10,
        -1.0313066708737980747e+08,
        -5.9545626019847898221e+05,
        -2.4125195876041896775e+03,
        -7.0935347449210549190e+00,
        -1.5453977791786851041e-02,
        -2.5172644670688975051e-05,
        -3.0517226450451067446e-08,
        -2.6843448573468483278e-11,
        -1.5982226675653184646e-14,
        -5.2487866627945699800e-18,
    ];
    const Q1: [f64; 6] = [
        -2.2335582639474375245e+15,
        7.8858692566751002988e+12,
        -1.2207067397808979846e+10,
        1.0377081058062166144e+07,
        -4.8527560179962773045e+03,
        1.0,
    ];
    const P2: [f64; 7] = [
        -2.2210262233306573296e-04,
        1.3067392038106924055e-02,
        -4.4700805721174453923e-01,
        5.5674518371240761397e+00,
        -2.3517945679239481621e+01,
        3.1611322818701131207e+01,
        -9.6090021968656180000e+00,
    ];
    const Q2: [f64; 8] = [
        -5.5194330231005480228e-04,
        3.2547697594819615062e-02,
        -1.1151759188741312645e+00,
        1.3982595353892851542e+01,
        -6.0228002066743340583e+01,
        8.5539563258012929600e+01,
        -3.1446690275135491500e+01,
        1.0,
    ];

    fn eval_poly(coeff: &[f64], x: f64) -> f64 {
        let mut sum = coeff[coeff.len() - 1];
        for &c in coeff.iter().rev().skip(1) {
            sum = sum * x + c;
        }
        sum
    }

    if x == 0.0 {
        return 1.0;
    }
    let x = x.abs();
    if x <= 15.0 {
        let y = x * x;
        eval_poly(&P1, y) / eval_poly(&Q1, y)
    } else {
        let y = 1.0 / x - 1.0 / 15.0;
        let r = eval_poly(&P2, y) / eval_poly(&Q2, y);
        let factor = x.exp() / x.sqrt();
        factor * r
    }
}

/// The values of a low-pass filter, computed by the machine.
fn machine_taps(shape: FilterShape) -> Vec<F64> {
    let phase_count = shape.phase_count as usize;
    let tap_count = shape.tap_count as usize;
    let listed = if phase_count % 2 == 1 { phase_count } else { phase_count / 2 + 1 };
    let center = (tap_count - 1) / 2;
    let factor = f64::from_bits(shape.factor.to_bits()).min(1.0);
    let beta = f64::from_bits(shape.kaiser_beta.to_bits());
    let pi = std::f64::consts::PI;
    let mut taps = Vec::new();
    for ph in 0..listed {
        let mut s = if factor == 1.0 {
            (pi * ph as f64 / phase_count as f64).sin() * (if center & 1 == 1 { 1.0 } else { -1.0 })
        } else {
            0.0
        };
        for i in 0..tap_count {
            let offset = (i as f64 - center as f64) - ph as f64 / phase_count as f64;
            let x = pi * offset * factor;
            let sinc = if x == 0.0 {
                1.0
            } else if factor == 1.0 {
                s / x
            } else {
                x.sin() / x
            };
            let y = match shape.filter_type {
                FilterType::Cubic => {
                    let d = -0.5f64;
                    let x = (offset * factor).abs();
                    if x < 1.0 {
                        1.0 - 3.0 * x * x + 2.0 * x * x * x + d * (-x * x + x * x * x)
                    } else {
                        d * (-4.0 + 8.0 * x - 5.0 * x * x + x * x * x)
                    }
                }
                FilterType::BlackmanNuttall => {
                    let w = 2.0 * x / (factor * tap_count as f64);
                    let t = -w.cos();
                    sinc * (0.3635819 - 0.4891775 * t + 0.1365995 * (2.0 * t * t - 1.0)
                        - 0.0106411 * (4.0 * t * t * t - 3.0 * t))
                }
                FilterType::Kaiser => {
                    let w = 2.0 * x / (factor * tap_count as f64 * pi);
                    sinc * bessel_i0(beta * (1.0 - w * w).max(0.0).sqrt())
                }
            };
            taps.push(F64::from_bits(y.to_bits()));
            s = -s;
        }
    }
    taps
}

fn d(x: f64) -> F64 {
    F64::from_bits(x.to_bits())
}

fn at(x: &[F64], f: fn(f64) -> f64) -> Vec<F64> {
    x.iter().map(|v| d(f(f64::from_bits(v.to_bits())))).collect()
}

fn values(shape: &FilterShape) -> FilterValues {
    let wanted = lowpass::filter_arguments(shape);
    let roots = at(&wanted.roots, f64::sqrt);
    let growths = at(&lowpass::growth_arguments(shape, &roots), |x| x.exp() / x.sqrt());
    FilterValues {
        sines: at(&wanted.sines, f64::sin),
        cosines: at(&wanted.cosines, f64::cos),
        roots,
        growths,
    }
}

#[test]
fn filters_are_those_of_the_machine() {
    for filter_type in [FilterType::Cubic, FilterType::BlackmanNuttall, FilterType::Kaiser] {
        for factor in [1.0, 2.0, 0.97 * 44100.0 / 48000.0, 0.1] {
            for (phase_count, tap_count) in [(1, 1), (2, 16), (147, 18), (160, 32)] {
                for kaiser_beta in [9.0, 40.0] {
                    let shape = FilterShape {
                        factor: d(factor),
                        tap_count,
                        phase_count,
                        filter_type,
                        kaiser_beta: d(kaiser_beta),
                    };
                    let table = lowpass::filter_table(shape, &values(&shape)).unwrap();
                    assert!(table.shape == shape);
                    assert!(table.taps == machine_taps(shape), "{shape:?}");
                }
            }
        }
    }
}

#[test]
fn filters_want_all_their_values() {
    let shape = FilterShape {
        factor: d(0.5),
        tap_count: 4,
        phase_count: 3,
        filter_type: FilterType::Kaiser,
        kaiser_beta: d(9.0),
    };
    let wanted = lowpass::filter_arguments(&shape);
    assert_eq!((wanted.sines.len(), wanted.cosines.len(), wanted.roots.len()), (12, 0, 12));
    let mut v = values(&shape);
    v.growths.pop();
    assert!(lowpass::filter_table(shape, &v).is_none());
    let full = FilterShape { factor: d(1.0), filter_type: FilterType::BlackmanNuttall, ..shape };
    let wanted = lowpass::filter_arguments(&full);
    assert_eq!((wanted.sines.len(), wanted.cosines.len(), wanted.roots.len()), (3, 12, 0));
    assert!(lowpass::filter_table(full, &values(&shape)).is_none());
}

#[test]
fn the_bessel_function_is_even() {
    for x in [0.0, 0.5, 3.0, 15.0, 15.5, 30.0] {
        let g = d(f64::exp(x) / f64::sqrt(x));
        let a = lowpass::bessel_i0(d(x), g);
        assert_eq!(a, lowpass::bessel_i0(d(-x), g));
        assert_eq!(a, d(bessel_i0(x)));
    }
}
