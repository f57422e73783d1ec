use pltz::codec::{decode, encode, encode_chunked, encode_auto, decode_chunked};
use pltz::pattern::FloatTable;
use pltz::raw::{compress_raw_best, pick_raw, raw_decompress, RawCompressor};
use rustfft::{num_complex::Complex, FftPlanner};

fn ft_to_doubles(track: &[u8]) -> Option<Vec<f64>> {
    let n = track.len();
    if n < 16 || n % 8 != 0 {
        return None;
    }
    let count = n / 8;
    let doubles: Vec<f64> = (0..count)
        .map(|i| f64::from_le_bytes(track[i * 8..(i + 1) * 8].try_into().unwrap()))
        .collect();
    if doubles.iter().any(|&d| d.is_nan() || d.is_infinite()) {
        return None;
    }
    Some(doubles)
}

fn ft_linear_f64(track: &[u8]) -> Option<Vec<u8>> {
    let n = track.len();
    let doubles = ft_to_doubles(track)?;
    let count = doubles.len();
    let start = doubles[0];
    let step = doubles[1] - start;
    for i in 2..count {
        let expected_step = doubles[i] - doubles[i - 1];
        if (expected_step - step).abs() > step.abs() * 1e-12 + 1e-15 {
            return None;
        }
    }
    for i in 0..count {
        let reconstructed = start + (i as f64) * step;
        if track[i * 8..(i + 1) * 8] != reconstructed.to_le_bytes() {
            return None;
        }
    }
    if 18 < n {
        let mut p = Vec::new();
        p.extend_from_slice(&(count as u16).to_le_bytes());
        p.extend_from_slice(&start.to_le_bytes());
        p.extend_from_slice(&step.to_le_bytes());
        Some(p)
    } else {
        None
    }
}

fn ft_delta_f64(track: &[u8]) -> Option<Vec<u8>> {
    let n = track.len();
    let doubles = ft_to_doubles(track)?;
    let count = doubles.len();
    let mut deltas: Vec<f32> = Vec::with_capacity(count - 1);
    for i in 1..count {
        let d = doubles[i] - doubles[i - 1];
        if d.abs() > 3.4e38 {
            return None;
        }
        let f = d as f32;
        if ((f as f64) - d).abs() > d.abs() * 1e-6 + 1e-30 {
            return None;
        }
        deltas.push(f);
    }
    if 10 + (count - 1) * 4 >= n {
        return None;
    }
    let mut current = doubles[0];
    for i in 0..deltas.len() {
        current += deltas[i] as f64;
        if track[(i + 1) * 8..(i + 2) * 8] != current.to_le_bytes() {
            return None;
        }
    }
    let mut p = Vec::new();
    p.extend_from_slice(&(count as u16).to_le_bytes());
    p.extend_from_slice(&doubles[0].to_le_bytes());
    for d in &deltas {
        p.extend_from_slice(&d.to_le_bytes());
    }
    Some(p)
}

fn ft_rfft(data: &[u8]) -> (Vec<f64>, Vec<f64>) {
    let n = data.len();
    let fft_len = n / 2 + 1;
    let mut planner = FftPlanner::<f64>::new();
    let fft = planner.plan_fft_forward(n);
    let mut buffer: Vec<Complex<f64>> = data.iter().map(|&b| Complex { re: b as f64, im: 0.0 }).collect();
    fft.process(&mut buffer);
    let real = buffer[..fft_len].iter().map(|c| c.re).collect();
    let imag = buffer[..fft_len].iter().map(|c| c.im).collect();
    (real, imag)
}

fn ft_irfft(real: &[f64], imag: &[f64], n: usize) -> Vec<u8> {
    let mut planner = FftPlanner::<f64>::new();
    let ifft = planner.plan_fft_inverse(n);
    let fft_len = real.len();
    let mut buffer: Vec<Complex<f64>> = Vec::with_capacity(n);
    for k in 0..n {
        if k < fft_len {
            buffer.push(Complex { re: real[k], im: imag[k] });
        } else {
            let m = n - k;
            buffer.push(Complex { re: real[m], im: -imag[m] });
        }
    }
    ifft.process(&mut buffer);
    buffer.iter().map(|c| (c.re / n as f64).round() as u8).collect()
}

fn ft_periodic(track: &[u8]) -> Option<Vec<u8>> {
    let n = track.len();
    if n < 16 || n > 4096 {
        return None;
    }
    let (real, imag) = ft_rfft(track);
    let fft_len = real.len();
    let mut mags: Vec<(usize, f64)> =
        (0..fft_len).map(|k| (k, (real[k] * real[k] + imag[k] * imag[k]).sqrt())).collect();
    mags.sort_by(|a, b| b.1.partial_cmp(&a.1).unwrap());
    for keep in 1..std::cmp::min(fft_len, n / 4) {
        let kept: Vec<usize> = mags[..keep].iter().map(|&(k, _)| k).collect();
        let mut sr = vec![0.0f64; fft_len];
        let mut si = vec![0.0f64; fft_len];
        for &k in &kept {
            sr[k] = real[k];
            si[k] = imag[k];
        }
        if ft_irfft(&sr, &si, n) == track {
            if 4 + keep * 18 < n {
                let mut p = Vec::new();
                p.extend_from_slice(&(kept.len() as u16).to_le_bytes());
                p.extend_from_slice(&(n as u16).to_le_bytes());
                for &k in &kept {
                    p.extend_from_slice(&(k as u16).to_le_bytes());
                    p.extend_from_slice(&real[k].to_le_bytes());
                    p.extend_from_slice(&imag[k].to_le_bytes());
                }
                return Some(p);
            }
            return None;
        }
    }
    None
}

fn ft_polyfit(track: &[u8], degree: usize) -> Option<Vec<f64>> {
    let n = track.len();
    if degree >= n {
        return None;
    }
    let m = degree + 1;
    let mut ata = vec![0.0f64; m * m];
    let mut aty = vec![0.0f64; m];
    for i in 0..n {
        let x = i as f64;
        let y = track[i] as f64;
        let mut powers = vec![1.0f64; m];
        for j in 1..m {
            powers[j] = powers[j - 1] * x;
        }
        for col in 0..m {
            let bc = powers[degree - col];
            aty[col] += bc * y;
            for row in 0..m {
                ata[row * m + col] += powers[degree - row] * bc;
            }
        }
    }
    let mut aug = vec![0.0f64; m * (m + 1)];
    for i in 0..m {
        for j in 0..m {
            aug[i * (m + 1) + j] = ata[i * m + j];
        }
        aug[i * (m + 1) + m] = aty[i];
    }
    for col in 0..m {
        let mut max_row = col;
        let mut max_val = aug[col * (m + 1) + col].abs();
        for row in (col + 1)..m {
            let v = aug[row * (m + 1) + col].abs();
            if v > max_val {
                max_val = v;
                max_row = row;
            }
        }
        if max_val < 1e-12 {
            return None;
        }
        if max_row != col {
            for j in 0..=m {
                aug.swap(col * (m + 1) + j, max_row * (m + 1) + j);
            }
        }
        let pivot = aug[col * (m + 1) + col];
        for j in col..=m {
            aug[col * (m + 1) + j] /= pivot;
        }
        for row in 0..m {
            if row == col {
                continue;
            }
            let factor = aug[row * (m + 1) + col];
            for j in col..=m {
                aug[row * (m + 1) + j] -= factor * aug[col * (m + 1) + j];
            }
        }
    }
    let coeffs: Vec<f64> = (0..m).map(|i| aug[i * (m + 1) + m]).collect();
    for i in 0..n {
        let x = i as f64;
        let mut v = 0.0f64;
        for (j, &c) in coeffs.iter().enumerate() {
            v += c * x.powi((degree - j) as i32);
        }
        if v.round() as i64 != track[i] as i64 {
            return None;
        }
    }
    Some(coeffs)
}

fn ft_poly(track: &[u8]) -> Option<Vec<u8>> {
    let n = track.len();
    if n < 4 {
        return None;
    }
    for degree in 2..=std::cmp::min(8, n - 1) {
        if let Some(coeffs) = ft_polyfit(track, degree) {
            if 1 + (degree + 1) * 8 < n {
                let mut p = vec![degree as u8];
                for c in &coeffs {
                    p.extend_from_slice(&c.to_le_bytes());
                }
                return Some(p);
            }
        }
    }
    None
}

fn ft_exponential(track: &[u8]) -> Option<Vec<u8>> {
    let n = track.len();
    if n < 8 || track[0] == 0 || track[1] == 0 {
        return None;
    }
    let base = track[0] as f32;
    let ratio = track[1] as f32 / base;
    if ratio <= 0.0 || ratio == 1.0 {
        return None;
    }
    for i in 0..n {
        let e = (base * ratio.powi(i as i32)).round() as i32;
        if e < 0 || e > 255 || e as u8 != track[i] {
            return None;
        }
    }
    if 10 < n {
        let mut p = Vec::new();
        p.extend_from_slice(&(n as u16).to_le_bytes());
        p.extend_from_slice(&base.to_le_bytes());
        p.extend_from_slice(&ratio.to_le_bytes());
        Some(p)
    } else {
        None
    }
}

/// The floating-point findings for every track of every candidate layout.
fn float_table(data: &[u8]) -> FloatTable {
    let mut table = FloatTable::new();
    let mut seen = std::collections::HashSet::new();
    for &spt in &[8usize, 16, 32, 64, 128, 256, 512] {
        let tracks = (data.len() + spt - 1) / spt;
        for t in 0..tracks {
            let start = t * spt;
            let end = std::cmp::min(start + spt, data.len());
            let mut track = data[start..end].to_vec();
            track.resize(spt, 0);
            if !seen.insert(track.clone()) {
                continue;
            }
            let found = [
                (10u8, ft_linear_f64(&track)),
                (11u8, ft_delta_f64(&track)),
                (5u8, ft_periodic(&track)),
                (6u8, ft_poly(&track)),
                (18u8, ft_exponential(&track)),
            ];
            for (tag, payload) in found {
                if let Some(p) = payload {
                    table.push(tag, p, spt, track.clone());
                }
            }
        }
    }
    table
}

fn roundtrip(data: &[u8]) {
    let table = float_table(data);
    let compressed = encode(data, RawCompressor::Uncompressed, &table);
    let decompressed = decode(&compressed, &table).unwrap();
    assert_eq!(data, decompressed.as_slice(), "Mismatch (len {} vs {})", data.len(), decompressed.len());
}

fn roundtrip_zlib(data: &[u8]) {
    let table = float_table(data);
    let compressed = encode(data, RawCompressor::Zlib, &table);
    let decompressed = decode(&compressed, &table).unwrap();
    assert_eq!(data, decompressed.as_slice());
}

fn encoded(data: &[u8]) -> Vec<u8> {
    encode(data, RawCompressor::Uncompressed, &float_table(data))
}

#[test]
fn test_empty() {
    roundtrip(&[]);
}

#[test]
fn test_single() {
    roundtrip(&[0x42]);
}

#[test]
fn test_const() {
    roundtrip(&[0xFFu8; 1024]);
}

#[test]
fn test_linear_ramp() {
    roundtrip(&(0..=255u8).cycle().take(1024).collect::<Vec<_>>());
}

#[test]
fn test_repeat_2() {
    roundtrip(&[0xAB, 0xCD].iter().copied().cycle().take(1024).collect::<Vec<_>>());
}

#[test]
fn test_repeat_4() {
    roundtrip(&[1, 2, 3, 4].iter().copied().cycle().take(1024).collect::<Vec<_>>());
}

#[test]
fn test_rle() {
    let mut data = vec![0u8; 100];
    data.extend(vec![0xFF; 100]);
    data.extend(vec![0x42; 56]);
    roundtrip(&data);
}

#[test]
fn test_delta() {
    let data: Vec<u8> = (0..512).map(|i| 128u8.wrapping_add((i % 5) as u8).wrapping_sub(2)).collect();
    roundtrip(&data);
}

#[test]
fn test_random() {
    let mut data = vec![0u8; 1000];
    let mut state: u32 = 42;
    for b in data.iter_mut() {
        state = state.wrapping_mul(1103515245).wrapping_add(12345);
        *b = (state >> 16) as u8;
    }
    roundtrip(&data);
    roundtrip_zlib(&data);
}

#[test]
fn test_linear_wide_u32() {
    let mut data = Vec::new();
    for i in 0u32..64 {
        data.extend_from_slice(&(0x80000000u32.wrapping_add(i * 0x20)).to_le_bytes());
    }
    roundtrip(&data);
}

#[test]
fn test_linear_f64() {
    let mut data = Vec::new();
    for i in 0..128 {
        let val: f64 = 1_000_000.0 + (i as f64) * 60.0;
        data.extend_from_slice(&val.to_le_bytes());
    }
    roundtrip(&data);
    let compressed = encoded(&data);
    assert!(compressed.len() < data.len() / 2, "LINEAR_F64 should compress well");
}

#[test]
fn test_short_string() {
    roundtrip(b"Hello, Platter!");
}

#[test]
fn test_step2_ramp() {
    let data: Vec<u8> = (0..200).map(|i| ((i * 2) % 256) as u8).collect();
    let full: Vec<u8> = data.iter().copied().cycle().take(1000).collect();
    roundtrip(&full);
}

#[test]
fn test_cross_track_const() {
    let data = vec![0xFFu8; 65536];
    let table = FloatTable::new();
    let compressed = encode(&data, RawCompressor::Uncompressed, &table);
    let decompressed = decode(&compressed, &table).unwrap();
    assert_eq!(data, decompressed);
    println!("64KB const: {} -> {} bytes", data.len(), compressed.len());
    assert!(compressed.len() < 300, "Cross-track should compress 64KB const to <300B, got {}", compressed.len());
}

#[test]
fn test_cross_track_linear() {
    let data: Vec<u8> = (0..=255u8).cycle().take(16384).collect();
    let table = float_table(&data);
    let compressed = encode(&data, RawCompressor::Uncompressed, &table);
    let decompressed = decode(&compressed, &table).unwrap();
    assert_eq!(data, decompressed);
    println!("16KB linear ramps: {} -> {} bytes", data.len(), compressed.len());
}

#[test]
fn test_polynomial() {
    let data: Vec<u8> = (0..64u32).map(|x| ((x * x) as f64 * 0.05).round() as u8).collect();
    roundtrip(&data);
    let compressed = encoded(&data);
    println!("Poly 64B: {} -> {} bytes", data.len(), compressed.len());
}

#[test]
fn test_periodic_sine() {
    let n = 64usize;
    let data: Vec<u8> = (0..n)
        .map(|i| (128.0 + 50.0 * (2.0 * std::f64::consts::PI * 2.0 * i as f64 / n as f64).sin()).round() as u8)
        .collect();
    roundtrip(&data);
    let compressed = encoded(&data);
    println!("Periodic 64B: {} -> {} bytes", data.len(), compressed.len());
    assert!(compressed.len() < data.len(), "Periodic should compress, got {} >= {}", compressed.len(), data.len());
}

#[test]
fn test_chunked_roundtrip() {
    let mut data = Vec::new();
    data.extend(vec![0xFFu8; 16384]);
    data.extend((0..=255u8).cycle().take(16384));
    let mut state: u32 = 42;
    for _ in 0..32768 {
        state = state.wrapping_mul(1103515245).wrapping_add(12345);
        data.push((state >> 16) as u8);
    }
    let table = float_table(&data);
    let compressed = encode_chunked(&data, RawCompressor::Uncompressed, 16384, &table);
    let decompressed = decode(&compressed, &table).unwrap();
    assert_eq!(data, decompressed);
    println!("Chunked 64KB (16KB chunks): {} -> {} bytes", data.len(), compressed.len());
}

#[test]
fn test_chunked_with_zlib() {
    let mut data = vec![0u8; 1000];
    let mut state: u32 = 99;
    for b in data.iter_mut() {
        state = state.wrapping_mul(1103515245).wrapping_add(12345);
        *b = (state >> 16) as u8;
    }
    let table = float_table(&data);
    let compressed = encode_chunked(&data, RawCompressor::Zlib, 512, &table);
    let decompressed = decode(&compressed, &table).unwrap();
    assert_eq!(data, decompressed);
}

#[test]
fn test_format_version() {
    let data = vec![0xABu8; 1024];
    let compressed = encode_chunked(&data, RawCompressor::Uncompressed, 512, &FloatTable::new());
    assert_eq!(&compressed[0..4], b"PLTS");
    assert_eq!(compressed[4], 2);
}

#[test]
fn test_xor_mask() {
    let data: Vec<u8> = (0..64u8).map(|i| i ^ 0xFF).collect();
    roundtrip(&data);
    let compressed = encoded(&data);
    println!("XOR mask 64B: {} -> {} bytes", data.len(), compressed.len());
    assert!(compressed.len() < data.len());
}

#[test]
fn test_sparse() {
    let mut data = vec![0u8; 256];
    data[10] = 200;
    data[50] = 255;
    data[200] = 180;
    roundtrip(&data);
    let compressed = encoded(&data);
    println!("Sparse 256B: {} -> {} bytes", data.len(), compressed.len());
    assert!(compressed.len() < data.len() / 4);
}

#[test]
fn test_piecewise_linear() {
    let mut data = Vec::new();
    for i in 0..32u8 {
        data.push(i * 4);
    }
    for i in 0..32u8 {
        data.push(128u8.wrapping_sub(i * 4));
    }
    roundtrip(&data);
    let compressed = encoded(&data);
    println!("Piecewise 64B: {} -> {} bytes", data.len(), compressed.len());
    assert!(compressed.len() < data.len());
}

#[test]
fn test_mirror() {
    let half: Vec<u8> = (0..32).map(|i| (i * 8) as u8).collect();
    let mut data = half.clone();
    data.extend(half.iter().rev());
    roundtrip(&data);
    let compressed = encoded(&data);
    println!("Mirror 64B: {} -> {} bytes", data.len(), compressed.len());
    assert!(compressed.len() < data.len());
}

#[test]
fn test_interleaved_linear() {
    let data: Vec<u8> = (0..32).flat_map(|i| vec![i as u8, (100 + i) as u8]).collect();
    roundtrip(&data);
    let compressed = encoded(&data);
    println!("Interleaved 64B: {} -> {} bytes", data.len(), compressed.len());
    assert!(compressed.len() < data.len());
}

#[test]
fn test_exponential() {
    let data: Vec<u8> = (0..16).map(|i| (2.0f32 * 1.2f32.powi(i)).round() as u8).collect();
    roundtrip(&data);
}

#[test]
fn test_delta_rle() {
    let mut data = Vec::new();
    let mut val: u8 = 0;
    for _ in 0..4 {
        for _ in 0..16 {
            data.push(val);
        }
        val = val.wrapping_add(10);
    }
    roundtrip(&data);
    let compressed = encoded(&data);
    println!("DeltaRle 64B: {} -> {} bytes", data.len(), compressed.len());
    assert!(compressed.len() < data.len());
}

// ---------------------------------------------------------------- further cases

#[test]
fn empty_data_gives_the_empty_header() {
    let compressed = encode(&[], RawCompressor::Uncompressed, &FloatTable::new());
    assert_eq!(compressed, vec![0x50, 0x4C, 0x54, 0x5A, 0, 0, 0, 0, 0, 1, 0, 0]);
}

#[test]
fn header_holds_length_and_track_size() {
    let data = vec![7u8; 1000];
    let compressed = encode(&data, RawCompressor::Uncompressed, &FloatTable::new());
    assert_eq!(&compressed[0..4], b"PLTZ");
    assert_eq!(u32::from_le_bytes(compressed[4..8].try_into().unwrap()), 1000);
    let spt = u16::from_le_bytes(compressed[8..10].try_into().unwrap());
    assert!([8u16, 16, 32, 64, 128, 256, 512].contains(&spt));
}

#[test]
fn decode_refuses_short_and_foreign_input() {
    let table = FloatTable::new();
    assert_eq!(decode(b"PLTZ", &table), Err(pltz::pattern::DecodeError::TooShort));
    assert_eq!(decode(b"NOTPLTZDATA!", &table), Err(pltz::pattern::DecodeError::BadMagic));
    assert_eq!(decode_chunked(b"PLTZ0000000000000", &table), Err(pltz::pattern::DecodeError::BadStreamingMagic));
}

#[test]
fn chunked_rejects_newer_version() {
    let data = vec![1u8; 100];
    let mut compressed = encode_chunked(&data, RawCompressor::Uncompressed, 64, &FloatTable::new());
    compressed[4] = 3;
    assert_eq!(decode(&compressed, &FloatTable::new()), Err(pltz::pattern::DecodeError::UnsupportedVersion(3)));
}

#[test]
fn zstd_brotli_and_best_roundtrip_random_data() {
    let mut data = Vec::new();
    for i in 0..200u32 {
        data.extend_from_slice(format!("record {:05} value {:07}\n", i, i * i).as_bytes());
    }
    let table = FloatTable::new();
    for mode in [RawCompressor::Zstd, RawCompressor::Brotli, RawCompressor::Best, RawCompressor::Zlib] {
        let compressed = encode(&data, mode, &table);
        assert_eq!(decode(&compressed, &table).unwrap(), data);
        let plain = encode(&data, RawCompressor::Uncompressed, &table);
        assert!(compressed.len() < plain.len());
    }
}

#[test]
fn columnar_wrapper_roundtrips_records() {
    let mut data = Vec::new();
    for i in 0..300u32 {
        data.extend_from_slice(&[0xAA, (i % 256) as u8, 0x55, 7]);
    }
    let table = FloatTable::new();
    let packed = encode_auto(&data, RawCompressor::Uncompressed, &[2, 4, 8], &table);
    assert_eq!(decode(&packed, &table).unwrap(), data);
    let plain = encode(&data, RawCompressor::Uncompressed, &table);
    assert!(packed.len() <= plain.len());
}

#[test]
fn auto_without_strides_is_plain_encoding() {
    let data: Vec<u8> = (0..=255u8).cycle().take(777).collect();
    let table = FloatTable::new();
    assert_eq!(encode_auto(&data, RawCompressor::Uncompressed, &[], &table), encode(&data, RawCompressor::Uncompressed, &table));
    assert_eq!(encode_auto(&data, RawCompressor::Uncompressed, &[0, 777, 5000], &table), encode(&data, RawCompressor::Uncompressed, &table));
}

#[test]
fn chunked_empty_has_no_chunks() {
    let compressed = encode_chunked(&[], RawCompressor::Uncompressed, 0, &FloatTable::new());
    assert_eq!(compressed.len(), 15);
    assert_eq!(&compressed[13..15], &[0, 0]);
    assert_eq!(decode(&compressed, &FloatTable::new()).unwrap(), Vec::<u8>::new());
}

#[test]
fn pick_raw_keeps_first_strictly_smallest() {
    let r = pick_raw(RawCompressor::Best, Some(vec![1, 2, 3]), Some(vec![1, 2]), Some(vec![7, 8]));
    assert_eq!(r, Some((2, vec![1, 2])));
    assert_eq!(pick_raw(RawCompressor::Best, None, None, Some(vec![7])), Some((3, vec![7])));
    assert_eq!(pick_raw(RawCompressor::Zstd, Some(vec![1]), None, Some(vec![2])), None);
    assert_eq!(pick_raw(RawCompressor::Uncompressed, Some(vec![1]), Some(vec![1]), Some(vec![1])), None);
}

#[test]
fn compress_raw_best_gives_decodable_bytes() {
    let data: Vec<u8> = (0..2000u32).map(|i| (i * i % 251) as u8).collect();
    assert_eq!(compress_raw_best(&data, RawCompressor::Uncompressed), None);
    for mode in [RawCompressor::Zlib, RawCompressor::Zstd, RawCompressor::Brotli, RawCompressor::Best] {
        let (m, c) = compress_raw_best(&data, mode).unwrap();
        assert_ne!(c, data);
        assert_eq!(raw_decompress(&c, m).unwrap(), data);
    }
    let (m, _) = compress_raw_best(&data, RawCompressor::Zstd).unwrap();
    assert_eq!(m, 2);
}

#[test]
fn raw_tracks_that_hide_structure_round_trip() {
    let mut s = 42u32;
    let mut data: Vec<u8> = (0..=255u8).cycle().take(2048).collect();
    for _ in 0..32 {
        data.extend([0u8; 16]);
        for _ in 0..16 {
            s = s.wrapping_mul(1103515245).wrapping_add(12345);
            data.push((s >> 16) as u8);
        }
    }
    assert_eq!(data.len(), 3072);
    let table = FloatTable::new();
    let c = encode(&data, RawCompressor::Uncompressed, &table);
    assert_eq!(decode(&c, &table).unwrap(), data);
    let z = encode(&data, RawCompressor::Zlib, &table);
    assert_eq!(decode(&z, &table).unwrap(), data);
}

#[test]
fn encode_auto_is_never_longer_than_encode() {
    let data: Vec<u8> = (0..4096u32).map(|i| if i % 4 == 0 { (i / 4 % 256) as u8 } else { (i % 4) as u8 }).collect();
    let table = FloatTable::new();
    let plain = encode(&data, RawCompressor::Uncompressed, &table);
    let auto = encode_auto(&data, RawCompressor::Uncompressed, &[2, 4, 8], &table);
    assert!(auto.len() <= plain.len());
    assert_eq!(decode(&auto, &table).unwrap(), data);
}

fn const_tracks(n: u16, value: u8) -> Vec<pltz::pattern::TrackEncoding> {
    (0..n)
        .map(|i| pltz::pattern::TrackEncoding {
            pattern: pltz::pattern::PatternType::Const,
            params: pltz::pattern::TrackParams::Const { value },
            track_idx: i,
        })
        .collect()
}

#[test]
fn groups_form_only_when_smaller() {
    // four equal CONST tracks store 16 bytes alone, and 16 as a group: no group
    let (g, r) = pltz::cross_track::cross_track_optimize(const_tracks(4, 9));
    assert_eq!(g.len(), 0);
    assert_eq!(r.len(), 4);
    // five store 20 bytes alone and 18 as a group
    let (g, r) = pltz::cross_track::cross_track_optimize(const_tracks(5, 9));
    assert_eq!(g.len(), 1);
    assert_eq!(r.len(), 0);
    assert_eq!(g[0].track_indices, vec![0, 1, 2, 3, 4]);
}

#[test]
fn float_table_check() {
    let mut t = FloatTable::new();
    assert!(t.is_ok());
    t.push(10, vec![0u8; 18], 64, vec![1u8; 64]);
    assert!(t.is_ok());
    t.push(10, vec![0u8; 18], 64, vec![2u8; 64]);
    assert!(!t.is_ok());
    let mut u = FloatTable::new();
    u.push(10, vec![0u8; 17], 64, vec![1u8; 64]);
    assert!(!u.is_ok());
    let mut w = FloatTable::new();
    w.push(7, vec![0u8; 18], 64, vec![1u8; 64]);
    assert!(!w.is_ok());
    let data: Vec<u8> = (0..64u32).map(|x| ((x * x) as f64 * 0.05).round() as u8).collect();
    assert!(float_table(&data).is_ok());
}

#[test]
fn raw_tracks_are_stored_compressed_when_that_is_shorter() {
    let words: [&[u8]; 4] = [b"alpha ", b"beta ", b"gamma ", b"delta, "];
    let mut s = 3u32;
    let mut data: Vec<u8> = Vec::new();
    while data.len() < 8192 {
        s = s.wrapping_mul(1103515245).wrapping_add(12345);
        data.extend_from_slice(words[((s >> 16) % 4) as usize]);
    }
    let table = FloatTable::new();
    let plain = encode(&data, RawCompressor::Uncompressed, &table);
    for mode in [RawCompressor::Zlib, RawCompressor::Zstd, RawCompressor::Brotli, RawCompressor::Best] {
        let c = encode(&data, mode, &table);
        assert!(c.len() < plain.len(), "{:?}: {} vs {}", mode, c.len(), plain.len());
        assert_eq!(decode(&c, &table).unwrap(), data);
        assert_eq!(encode(&data, mode, &table), c);
    }
}
