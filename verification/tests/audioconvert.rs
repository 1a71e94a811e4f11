use ffmpeg_rs::audio::{duplicate, AudioData};
use ffmpeg_rs::audioconvert::{conv_run, swri_audio_convert, AudioConvert};
use ffmpeg_rs::error::Error;
use ffmpeg_rs::samplefmt::SampleFormat;

fn s16_bytes(v: &[i16]) -> Vec<u8> {
    v.iter().flat_map(|s| s.to_le_bytes()).collect()
}
fn s32_bytes(v: &[i32]) -> Vec<u8> {
    v.iter().flat_map(|s| s.to_le_bytes()).collect()
}
fn s64_bytes(v: &[i64]) -> Vec<u8> {
    v.iter().flat_map(|s| s.to_le_bytes()).collect()
}
fn as_i16(b: &[u8]) -> Vec<i16> {
    b.chunks_exact(2)
        .map(|c| i16::from_le_bytes(c.try_into().unwrap()))
        .collect()
}
fn as_i32(b: &[u8]) -> Vec<i32> {
    b.chunks_exact(4)
        .map(|c| i32::from_le_bytes(c.try_into().unwrap()))
        .collect()
}
fn as_i64(b: &[u8]) -> Vec<i64> {
    b.chunks_exact(8)
        .map(|c| i64::from_le_bytes(c.try_into().unwrap()))
        .collect()
}
fn as_f32(b: &[u8]) -> Vec<f32> {
    b.chunks_exact(4)
        .map(|c| f32::from_le_bytes(c.try_into().unwrap()))
        .collect()
}
fn as_f64(b: &[u8]) -> Vec<f64> {
    b.chunks_exact(8)
        .map(|c| f64::from_le_bytes(c.try_into().unwrap()))
        .collect()
}
/// Converts `len` samples of one channel into a buffer of just the right size.
fn run(
    from: SampleFormat,
    to: SampleFormat,
    pi: &[u8],
    is: usize,
    os: usize,
    out_bps: usize,
    len: usize,
) -> Vec<u8> {
    let mut po = vec![0xEEu8; (len - 1) * os + out_bps];
    conv_run(from, to, &mut po, 0, os, pi, 0, is, len);
    po
}

const ALL: [SampleFormat; 13] = [
    SampleFormat::U8,
    SampleFormat::S16,
    SampleFormat::S32,
    SampleFormat::Flt,
    SampleFormat::Dbl,
    SampleFormat::U8p,
    SampleFormat::S16p,
    SampleFormat::S32p,
    SampleFormat::Fltp,
    SampleFormat::Dblp,
    SampleFormat::S64,
    SampleFormat::S64p,
    SampleFormat::Dsd,
];

fn ad(data: Vec<u8>, fmt: SampleFormat, ch_count: usize, count: usize) -> AudioData {
    AudioData {
        bps: fmt.bytes_per_sample(),
        data,
        ch_count,
        count,
        planar: fmt.is_planar(),
        fmt,
    }
}

#[test]
fn pair_table_completeness() {
    let six = [
        SampleFormat::U8,
        SampleFormat::S16,
        SampleFormat::S32,
        SampleFormat::Flt,
        SampleFormat::Dbl,
        SampleFormat::S64,
    ];
    let (mut ok, mut err) = (0, 0);
    for i in ALL {
        for o in ALL {
            let res = AudioConvert::new(o, i, 2, None);
            let legal = six.contains(&i.packed()) && six.contains(&o.packed())
                || (i == SampleFormat::Dsd && o == SampleFormat::Dsd);
            if legal {
                assert!(res.is_ok(), "expected ok: {} -> {}", i.name(), o.name());
                ok += 1;
            } else {
                let msg = match res {
                    Err(Error::Unsupported(m)) => m,
                    other => panic!(
                        "expected Err for {} -> {}, got {other:?}",
                        i.name(),
                        o.name()
                    ),
                };
                if i == SampleFormat::Dsd && matches!(o, SampleFormat::Flt | SampleFormat::Fltp)
                {
                    assert_eq!(
                        msg,
                        "DSD to float conversion requires dsd2pcm (libswresample/dsd2pcm.c), which is not ported"
                    );
                } else {
                    assert_eq!(
                        msg,
                        format!("cannot convert sample format {} to {}", i.name(), o.name())
                    );
                }
                err += 1;
            }
        }
    }
    assert_eq!(ok, 145);
    assert_eq!(err, 24);
}

#[test]
fn u8_source_kernels() {
    let pi = [0x00u8, 0x80, 0xFF];
    assert_eq!(run(SampleFormat::U8, SampleFormat::U8, &pi, 1, 1, 1, 3), pi.to_vec());
    assert_eq!(
        as_i16(&run(SampleFormat::U8, SampleFormat::S16, &pi, 1, 2, 2, 3)),
        vec![-32768, 0, 32512]
    );
    assert_eq!(
        as_i32(&run(SampleFormat::U8, SampleFormat::S32, &pi, 1, 4, 4, 3)),
        vec![-2147483648, 0, 2130706432]
    );
    assert_eq!(
        as_i64(&run(SampleFormat::U8, SampleFormat::S64, &pi, 1, 8, 8, 3)),
        vec![i64::MIN, 0, 127i64 << 56]
    );
    assert_eq!(
        as_f32(&run(SampleFormat::U8, SampleFormat::Flt, &pi, 1, 4, 4, 3)),
        vec![-1.0, 0.0, 127.0 / 128.0]
    );
    assert_eq!(
        as_f64(&run(SampleFormat::U8, SampleFormat::Dbl, &pi, 1, 8, 8, 3)),
        vec![-1.0, 0.0, 127.0 / 128.0]
    );
}

#[test]
fn s16_source_kernels() {
    let src = [-32768i16, 0, 32767];
    let pi = s16_bytes(&src);
    assert_eq!(run(SampleFormat::S16, SampleFormat::U8, &pi, 2, 1, 1, 3), vec![0, 128, 255]);
    assert_eq!(run(SampleFormat::S16, SampleFormat::S16, &pi, 2, 2, 2, 3), pi.clone());
    assert_eq!(
        as_i32(&run(SampleFormat::S16, SampleFormat::S32, &pi, 2, 4, 4, 3)),
        vec![-2147483648, 0, 2147418112]
    );
    let pi1 = s16_bytes(&[-32768i16, 1, 32767]);
    assert_eq!(
        as_i64(&run(SampleFormat::S16, SampleFormat::S64, &pi1, 2, 8, 8, 3)),
        vec![i64::MIN, 1i64 << 48, 32767i64 << 48]
    );
    assert_eq!(
        as_f32(&run(SampleFormat::S16, SampleFormat::Flt, &pi, 2, 4, 4, 3)),
        vec![-1.0, 0.0, 32767.0 / 32768.0]
    );
    assert_eq!(
        as_f64(&run(SampleFormat::S16, SampleFormat::Dbl, &pi, 2, 8, 8, 3)),
        vec![-1.0, 0.0, 32767.0 / 32768.0]
    );
}

#[test]
fn shift_truncation_s32_s64() {
    let pi = s32_bytes(&[i32::MIN, -1]);
    assert_eq!(
        as_i16(&run(SampleFormat::S32, SampleFormat::S16, &pi, 4, 2, 2, 2)),
        vec![-32768, -1]
    );
    assert_eq!(run(SampleFormat::S32, SampleFormat::U8, &pi, 4, 1, 1, 2), vec![0, 127]);
    let pi = s64_bytes(&[-1i64, i64::MIN]);
    assert_eq!(
        as_i32(&run(SampleFormat::S64, SampleFormat::S32, &pi, 8, 4, 4, 2)),
        vec![-1, -2147483648]
    );
    assert_eq!(
        as_i16(&run(SampleFormat::S64, SampleFormat::S16, &pi, 8, 2, 2, 2)),
        vec![-1, -32768]
    );
    assert_eq!(run(SampleFormat::S64, SampleFormat::U8, &pi, 8, 1, 1, 2), vec![127, 0]);
}

#[test]
fn float_clipping() {
    let src = [0.0f32, 0.5, 1.0, -1.0, 2.0];
    let pi = src.iter().flat_map(|f| f.to_le_bytes()).collect::<Vec<_>>();
    assert_eq!(
        as_i16(&run(SampleFormat::Flt, SampleFormat::S16, &pi, 4, 2, 2, 5)),
        vec![0, 16384, 32767, -32768, 32767]
    );
    assert_eq!(
        run(SampleFormat::Flt, SampleFormat::U8, &pi, 4, 1, 1, 5),
        vec![128, 192, 255, 0, 255]
    );
    assert_eq!(
        as_i32(&run(SampleFormat::Flt, SampleFormat::S32, &pi, 4, 4, 4, 5)),
        vec![0, 16384 * 65536, 2147483647, -2147483648, 2147483647]
    );
    assert_eq!(
        as_i64(&run(SampleFormat::Flt, SampleFormat::S64, &pi, 4, 8, 8, 5)),
        vec![0, 1i64 << 62, i64::MAX, i64::MIN, i64::MAX]
    );
    let src = [0.0f64, -1.0, 1e10];
    let pi = src.iter().flat_map(|d| d.to_le_bytes()).collect::<Vec<_>>();
    assert_eq!(
        as_i32(&run(SampleFormat::Dbl, SampleFormat::S32, &pi, 8, 4, 4, 3)),
        vec![0, -2147483648, 2147483647]
    );
}

#[test]
fn float_overdrive_i32_truncation_before_clip() {
    let pi = 2.0f32.powi(28).to_le_bytes();
    assert_eq!(run(SampleFormat::Flt, SampleFormat::U8, &pi, 4, 1, 1, 1), vec![128]);
    assert_eq!(as_i16(&run(SampleFormat::Flt, SampleFormat::S16, &pi, 4, 2, 2, 1)), vec![0]);
    let pi = (-2.0f32.powi(28)).to_le_bytes();
    assert_eq!(run(SampleFormat::Flt, SampleFormat::U8, &pi, 4, 1, 1, 1), vec![128]);
}

#[test]
fn ties_to_even_rounding() {
    let pi = (2.5f64 / 2147483648.0).to_le_bytes();
    assert_eq!(as_i32(&run(SampleFormat::Dbl, SampleFormat::S32, &pi, 8, 4, 4, 1)), vec![2]);
    let pi = (3.5f64 / 2147483648.0).to_le_bytes();
    assert_eq!(as_i32(&run(SampleFormat::Dbl, SampleFormat::S32, &pi, 8, 4, 4, 1)), vec![4]);
    let pi = [0.5f32 / 32768.0, 1.5 / 32768.0]
        .iter()
        .flat_map(|f| f.to_le_bytes())
        .collect::<Vec<_>>();
    assert_eq!(as_i16(&run(SampleFormat::Flt, SampleFormat::S16, &pi, 4, 2, 2, 2)), vec![0, 2]);
}

#[test]
fn int_to_float_scales() {
    let pi = s16_bytes(&[-32768i16]);
    assert_eq!(
        as_f32(&run(SampleFormat::S16, SampleFormat::Flt, &pi, 2, 4, 4, 1)),
        vec![-1.0f32]
    );
    let pi = s32_bytes(&[2147483647i32]);
    assert_eq!(
        as_f32(&run(SampleFormat::S32, SampleFormat::Flt, &pi, 4, 4, 4, 1)),
        vec![2147483647i32 as f32 * (1.0f32 / 2147483648.0)]
    );
    let pi = s64_bytes(&[1i64 << 62]);
    assert_eq!(as_f32(&run(SampleFormat::S64, SampleFormat::Flt, &pi, 8, 4, 4, 1)), vec![0.5f32]);
    assert_eq!(
        as_f32(&run(SampleFormat::U8, SampleFormat::Flt, &[0x00], 1, 4, 4, 1)),
        vec![-1.0f32]
    );
}

#[test]
fn identity_kernels_bitexact() {
    let pat: Vec<u8> = (0..40u8)
        .map(|i| i.wrapping_mul(7).wrapping_add(3))
        .collect();
    for (f, bps) in [
        (SampleFormat::U8, 1usize),
        (SampleFormat::S16, 2usize),
        (SampleFormat::S32, 4usize),
        (SampleFormat::S64, 8usize),
        (SampleFormat::Flt, 4usize),
        (SampleFormat::Dbl, 8usize),
        (SampleFormat::Dsd, 1usize),
    ] {
        let len = pat.len() / bps;
        assert_eq!(run(f, f, &pat, bps, bps, bps, len), pat[..len * bps].to_vec());
    }
    let pi = 0.5f32.to_le_bytes();
    assert_eq!(as_f64(&run(SampleFormat::Flt, SampleFormat::Dbl, &pi, 4, 8, 8, 1)), vec![0.5f64]);
    let pi = (1.0f64 + 2.0f64.powi(-25)).to_le_bytes();
    assert_eq!(as_f32(&run(SampleFormat::Dbl, SampleFormat::Flt, &pi, 8, 4, 4, 1)), vec![1.0f32]);
    assert_eq!(
        as_f32(&run(SampleFormat::Dbl, SampleFormat::Flt, &0.5f64.to_le_bytes(), 8, 4, 4, 1)),
        vec![0.5f32]
    );
}

#[test]
fn audio_data_plane_addressing() {
    let d = ad(vec![1, 2, 3, 4, 5, 6, 7, 8], SampleFormat::S16, 2, 2);
    assert_eq!(d.plane(0), Some(&[1u8, 2, 3, 4, 5, 6, 7, 8][..]));
    assert_eq!(d.plane(1), Some(&[3u8, 4, 5, 6, 7, 8][..]));
    let d = ad(vec![0; 16], SampleFormat::S16p, 2, 4);
    assert_eq!(d.plane(1).unwrap().len(), 8);
    assert_eq!(d.plane(1), Some(&d.data[8..16]));
    let d = AudioData::new(SampleFormat::S16p, 2, 4);
    assert!(d.data.iter().all(|&b| b == 0));
    assert_eq!(d.bps, 2);
    let mut a = AudioData::new(SampleFormat::S16, 1, 4);
    let b = duplicate(&a);
    assert_eq!(a.data, b.data);
    a.data_mut().copy_from_slice(&[9u8; 8]);
    assert!(b.data.iter().all(|&x| x == 0));
    assert_ne!(a.data, b.data);
}

#[test]
fn packed_interleaved_to_planar_and_back() {
    let l = [100i16, -200, 300];
    let r = [-400i16, 500, -600];
    let mut packed = Vec::new();
    for i in 0..3 {
        packed.extend_from_slice(&l[i].to_le_bytes());
        packed.extend_from_slice(&r[i].to_le_bytes());
    }
    let input = ad(packed.clone(), SampleFormat::S16, 2, 3);
    let mut out = AudioData::new(SampleFormat::S16p, 2, 3);
    let ctx = AudioConvert::new(SampleFormat::S16p, SampleFormat::S16, 2, None).unwrap();
    swri_audio_convert(&ctx, &mut out, &input, 3).unwrap();
    assert_eq!(as_i16(out.plane(0).unwrap()), l.to_vec());
    assert_eq!(as_i16(out.plane(1).unwrap()), r.to_vec());
    let mut back = AudioData::new(SampleFormat::S16, 2, 3);
    let ctx = AudioConvert::new(SampleFormat::S16, SampleFormat::S16p, 2, None).unwrap();
    swri_audio_convert(&ctx, &mut back, &out, 3).unwrap();
    assert_eq!(back.data.to_vec(), packed);
}

#[test]
fn packed_to_packed_channel_stride() {
    let input = ad(vec![0u8, 128, 255, 128], SampleFormat::U8, 2, 2);
    let mut out = AudioData::new(SampleFormat::S16, 2, 2);
    let ctx = AudioConvert::new(SampleFormat::S16, SampleFormat::U8, 2, None).unwrap();
    swri_audio_convert(&ctx, &mut out, &input, 2).unwrap();
    assert_eq!(out.data.to_vec(), s16_bytes(&[-32768i16, 0, 32512, 0]));
}

#[test]
fn ch_map_reorder_and_mute() {
    let packed = s16_bytes(&[100i16, -400, -200, 500]);
    let input = ad(packed.clone(), SampleFormat::S16, 2, 2);
    let mut out = AudioData::new(SampleFormat::S16, 2, 2);
    let ctx =
        AudioConvert::new(SampleFormat::S16, SampleFormat::S16, 2, Some(&[1, 0])).unwrap();
    assert_eq!(ctx.simd_bps, None);
    swri_audio_convert(&ctx, &mut out, &input, 2).unwrap();
    assert_eq!(out.data.to_vec(), s16_bytes(&[-400i16, 100, 500, -200]));
    let mut out = AudioData::new(SampleFormat::S16, 2, 2);
    let ctx =
        AudioConvert::new(SampleFormat::S16, SampleFormat::S16, 2, Some(&[-1, 0])).unwrap();
    assert_eq!(ctx.silence, [0u8; 8]);
    swri_audio_convert(&ctx, &mut out, &input, 2).unwrap();
    assert_eq!(out.data.to_vec(), s16_bytes(&[0i16, 100, 0, -200]));
    let input = ad(vec![10u8, 20, 30, 40], SampleFormat::U8, 2, 2);
    let mut out = AudioData::new(SampleFormat::U8, 2, 2);
    let ctx = AudioConvert::new(SampleFormat::U8, SampleFormat::U8, 2, Some(&[-1, 0])).unwrap();
    assert_eq!(ctx.silence, [0x80; 8]);
    swri_audio_convert(&ctx, &mut out, &input, 2).unwrap();
    assert_eq!(out.data.to_vec(), vec![0x80u8, 10, 0x80, 30]);
}

#[test]
fn silence_bytes_per_input_format() {
    let ctx = AudioConvert::new(SampleFormat::S16, SampleFormat::U8p, 2, None).unwrap();
    assert_eq!(ctx.silence, [0x80; 8]);
    let ctx = AudioConvert::new(SampleFormat::Dsd, SampleFormat::Dsd, 2, None).unwrap();
    assert_eq!(ctx.silence, [0x69; 8]);
    let ctx = AudioConvert::new(SampleFormat::S16, SampleFormat::Flt, 2, None).unwrap();
    assert_eq!(ctx.silence, [0u8; 8]);
}

#[test]
fn single_channel_planar_normalization() {
    let ctx = AudioConvert::new(SampleFormat::S16p, SampleFormat::S16, 1, None).unwrap();
    assert_eq!(ctx.simd_bps, Some(2));
    let input = ad(s16_bytes(&[111i16, -222]), SampleFormat::S16, 1, 2);
    let mut out = AudioData::new(SampleFormat::S16p, 1, 2);
    swri_audio_convert(&ctx, &mut out, &input, 2).unwrap();
    assert_eq!(out.data.to_vec(), s16_bytes(&[111i16, -222]));
    assert_eq!(
        AudioConvert::new(SampleFormat::S16, SampleFormat::S16, 2, None)
            .unwrap()
            .simd_bps,
        Some(2)
    );
    assert_eq!(
        AudioConvert::new(SampleFormat::S16, SampleFormat::S16, 2, Some(&[0, 1]))
            .unwrap()
            .simd_bps,
        None
    );
    assert_eq!(
        AudioConvert::new(SampleFormat::S16p, SampleFormat::S16, 2, None)
            .unwrap()
            .simd_bps,
        None
    );
}

#[test]
fn simd_copy_fast_path_len_split() {
    for len in [64usize, 5] {
        let pat: Vec<i16> = (0..(2 * len))
            .map(|i| (i as i16).wrapping_mul(2654435761u32 as i16))
            .collect();
        let mut data = Vec::new();
        for i in 0..len {
            data.extend_from_slice(&pat[i].to_le_bytes());
            data.extend_from_slice(&pat[len + i].to_le_bytes());
        }
        let input = ad(data.clone(), SampleFormat::S16p, 2, len);
        let mut out = AudioData::new(SampleFormat::S16p, 2, len);
        let ctx = AudioConvert::new(SampleFormat::S16p, SampleFormat::S16p, 2, None).unwrap();
        swri_audio_convert(&ctx, &mut out, &input, len).unwrap();
        assert_eq!(out.data.to_vec(), data, "s16p len={len}");
        let fpat: Vec<f32> = (0..len).map(|i| i as f32 * 0.25 - 8.5).collect();
        let bytes: Vec<u8> = fpat.iter().flat_map(|f| f.to_le_bytes()).collect();
        let input = ad(bytes.clone(), SampleFormat::Fltp, 1, len);
        let mut out = AudioData::new(SampleFormat::Fltp, 1, len);
        let ctx = AudioConvert::new(SampleFormat::Fltp, SampleFormat::Fltp, 1, None).unwrap();
        swri_audio_convert(&ctx, &mut out, &input, len).unwrap();
        assert_eq!(out.data.to_vec(), bytes, "fltp len={len}");
    }
    let data = s16_bytes(&(0..16i16).collect::<Vec<_>>());
    let input = ad(data.clone(), SampleFormat::S16, 2, 8);
    let mut out = AudioData::new(SampleFormat::S16, 2, 8);
    let ctx = AudioConvert::new(SampleFormat::S16, SampleFormat::S16, 2, None).unwrap();
    swri_audio_convert(&ctx, &mut out, &input, 8).unwrap();
    assert_eq!(out.data.to_vec(), data);
}

#[test]
fn dsd_to_dsd_passthrough() {
    let data = vec![0x69u8, 0x96, 0xAA, 0x55];
    let input = ad(data.clone(), SampleFormat::Dsd, 2, 2);
    let mut out = AudioData::new(SampleFormat::Dsd, 2, 2);
    let ctx = AudioConvert::new(SampleFormat::Dsd, SampleFormat::Dsd, 2, None).unwrap();
    swri_audio_convert(&ctx, &mut out, &input, 2).unwrap();
    assert_eq!(out.data.to_vec(), data);
}

#[test]
fn skipped_out_channel() {
    let input = ad(
        s16_bytes(&[100i16, -400, -200, 500]),
        SampleFormat::S16,
        2,
        2,
    );
    let mut out = ad(vec![0xEE; 4], SampleFormat::S16p, 2, 2);
    let ctx = AudioConvert::new(SampleFormat::S16p, SampleFormat::S16, 2, None).unwrap();
    swri_audio_convert(&ctx, &mut out, &input, 2).unwrap();
    assert_eq!(as_i16(&out.data), vec![100, -200]);
}

#[test]
fn bounds_guards() {
    let input = ad(s16_bytes(&[1i16, 2, 3, 4]), SampleFormat::S16, 2, 2);
    let mut out = AudioData::new(SampleFormat::S16p, 2, 1);
    let ctx = AudioConvert::new(SampleFormat::S16p, SampleFormat::S16, 2, None).unwrap();
    assert_eq!(
        swri_audio_convert(&ctx, &mut out, &input, 2),
        Err(Error::BufferTooSmall)
    );
    let input = ad(s16_bytes(&[1i16, 2]), SampleFormat::S16, 2, 1);
    let mut out = AudioData::new(SampleFormat::S16p, 2, 2);
    assert_eq!(
        swri_audio_convert(&ctx, &mut out, &input, 2),
        Err(Error::BufferTooSmall)
    );
}

#[test]
fn len_zero_no_op() {
    let input = ad(vec![], SampleFormat::S16, 2, 0);
    let mut out = AudioData::new(SampleFormat::S16p, 2, 0);
    let ctx = AudioConvert::new(SampleFormat::S16p, SampleFormat::S16, 2, None).unwrap();
    assert_eq!(swri_audio_convert(&ctx, &mut out, &input, 0), Ok(()));
    let input = ad(s16_bytes(&[7i16, 8]), SampleFormat::S16, 2, 1);
    let mut out = AudioData::new(SampleFormat::S16p, 2, 1);
    assert_eq!(swri_audio_convert(&ctx, &mut out, &input, 0), Ok(()));
    assert!(out.data.iter().all(|&b| b == 0));
}

#[test]
fn conversion_counts_exact_len() {
    let input = ad(
        s16_bytes(&[100i16, -400, -200, 500]),
        SampleFormat::S16,
        2,
        2,
    );
    let mut out = ad(vec![0xAA; 16], SampleFormat::S16p, 2, 4);
    let ctx = AudioConvert::new(SampleFormat::S16p, SampleFormat::S16, 2, None).unwrap();
    swri_audio_convert(&ctx, &mut out, &input, 2).unwrap();
    assert_eq!(as_i16(&out.data[0..4]), vec![100, -200]);
    assert_eq!(as_i16(&out.data[4..8]), vec![-21846, -21846]);
    assert_eq!(as_i16(&out.data[8..12]), vec![-400, 500]);
    assert_eq!(&out.data[12..16], &[0xAA, 0xAA, 0xAA, 0xAA]);
}
