#![allow(dead_code)]
use pltz::audio::{compress_audio, parse_audio, AudioError, AudioParams};
use pltz::codec::decode;
use pltz::image::{
    compress_image, image_header, image_rows, parse_lossy_entries, place_rows, reconstruct_row, ImageParams,
    LossyEncoding,
};
use pltz::pattern::{DecodeError, FloatTable};
use pltz::video::{assemble_video, parse_video, plan_video, reconstruct_video, FramePlan, Planes, VideoError, VideoParams};
use rustfft::{num_complex::Complex, FftPlanner};
use std::collections::HashSet;
use pltz::image::{cross_row_optimize, RowEncoding};
use pltz::video::{add_residual, apply_motion_compensation, find_motion_vector, residual};

fn ft_to_doubles(track: &[u8]) -> Option<Vec<f64>> {
    let n = track.len();
    if n < 16 || n % 8 != 0 {
        return None;
    }
    let count = n / 8;
    let doubles: Vec<f64> = (0..count)
        .map(|i| f64::from_le_bytes(track[i * 8..(i + 1) * 8].try_into().unwrap()))
        .collect();
    if doubles.iter().any(|&d| d.is_nan() || d.is_infinite()) {
        return None;
    }
    Some(doubles)
}

fn ft_linear_f64(track: &[u8]) -> Option<Vec<u8>> {
    let n = track.len();
    let doubles = ft_to_doubles(track)?;
    let count = doubles.len();
    let start = doubles[0];
    let step = doubles[1] - start;
    for i in 2..count {
        let expected_step = doubles[i] - doubles[i - 1];
        if (expected_step - step).abs() > step.abs() * 1e-12 + 1e-15 {
            return None;
        }
    }
    for i in 0..count {
        let reconstructed = start + (i as f64) * step;
        if track[i * 8..(i + 1) * 8] != reconstructed.to_le_bytes() {
            return None;
        }
    }
    if 18 < n {
        let mut p = Vec::new();
        p.extend_from_slice(&(count as u16).to_le_bytes());
        p.extend_from_slice(&start.to_le_bytes());
        p.extend_from_slice(&step.to_le_bytes());
        Some(p)
    } else {
        None
    }
}

fn ft_delta_f64(track: &[u8]) -> Option<Vec<u8>> {
    let n = track.len();
    let doubles = ft_to_doubles(track)?;
    let count = doubles.len();
    let mut deltas: Vec<f32> = Vec::with_capacity(count - 1);
    for i in 1..count {
        let d = doubles[i] - doubles[i - 1];
        if d.abs() > 3.4e38 {
            return None;
        }
        let f = d as f32;
        if ((f as f64) - d).abs() > d.abs() * 1e-6 + 1e-30 {
            return None;
        }
        deltas.push(f);
    }
    if 10 + (count - 1) * 4 >= n {
        return None;
    }
    let mut current = doubles[0];
    for i in 0..deltas.len() {
        current += deltas[i] as f64;
        if track[(i + 1) * 8..(i + 2) * 8] != current.to_le_bytes() {
            return None;
        }
    }
    let mut p = Vec::new();
    p.extend_from_slice(&(count as u16).to_le_bytes());
    p.extend_from_slice(&doubles[0].to_le_bytes());
    for d in &deltas {
        p.extend_from_slice(&d.to_le_bytes());
    }
    Some(p)
}

fn ft_rfft(data: &[u8]) -> (Vec<f64>, Vec<f64>) {
    let n = data.len();
    let fft_len = n / 2 + 1;
    let mut planner = FftPlanner::<f64>::new();
    let fft = planner.plan_fft_forward(n);
    let mut buffer: Vec<Complex<f64>> = data.iter().map(|&b| Complex { re: b as f64, im: 0.0 }).collect();
    fft.process(&mut buffer);
    let real = buffer[..fft_len].iter().map(|c| c.re).collect();
    let imag = buffer[..fft_len].iter().map(|c| c.im).collect();
    (real, imag)
}

fn ft_irfft(real: &[f64], imag: &[f64], n: usize) -> Vec<u8> {
    let mut planner = FftPlanner::<f64>::new();
    let ifft = planner.plan_fft_inverse(n);
    let fft_len = real.len();
    let mut buffer: Vec<Complex<f64>> = Vec::with_capacity(n);
    for k in 0..n {
        if k < fft_len {
            buffer.push(Complex { re: real[k], im: imag[k] });
        } else {
            let m = n - k;
            buffer.push(Complex { re: real[m], im: -imag[m] });
        }
    }
    ifft.process(&mut buffer);
    buffer.iter().map(|c| (c.re / n as f64).round() as u8).collect()
}

fn ft_periodic(track: &[u8]) -> Option<Vec<u8>> {
    let n = track.len();
    if n < 16 || n > 4096 {
        return None;
    }
    let (real, imag) = ft_rfft(track);
    let fft_len = real.len();
    let mut mags: Vec<(usize, f64)> =
        (0..fft_len).map(|k| (k, (real[k] * real[k] + imag[k] * imag[k]).sqrt())).collect();
    mags.sort_by(|a, b| b.1.partial_cmp(&a.1).unwrap());
    for keep in 1..std::cmp::min(fft_len, n / 4) {
        let kept: Vec<usize> = mags[..keep].iter().map(|&(k, _)| k).collect();
        let mut sr = vec![0.0f64; fft_len];
        let mut si = vec![0.0f64; fft_len];
        for &k in &kept {
            sr[k] = real[k];
            si[k] = imag[k];
        }
        if ft_irfft(&sr, &si, n) == track {
            if 4 + keep * 18 < n {
                let mut p = Vec::new();
                p.extend_from_slice(&(kept.len() as u16).to_le_bytes());
                p.extend_from_slice(&(n as u16).to_le_bytes());
                for &k in &kept {
                    p.extend_from_slice(&(k as u16).to_le_bytes());
                    p.extend_from_slice(&real[k].to_le_bytes());
                    p.extend_from_slice(&imag[k].to_le_bytes());
                }
                return Some(p);
            }
            return None;
        }
    }
    None
}

fn ft_polyfit(track: &[u8], degree: usize) -> Option<Vec<f64>> {
    let n = track.len();
    if degree >= n {
        return None;
    }
    let m = degree + 1;
    let mut ata = vec![0.0f64; m * m];
    let mut aty = vec![0.0f64; m];
    for i in 0..n {
        let x = i as f64;
        let y = track[i] as f64;
        let mut powers = vec![1.0f64; m];
        for j in 1..m {
            powers[j] = powers[j - 1] * x;
        }
        for col in 0..m {
            let bc = powers[degree - col];
            aty[col] += bc * y;
            for row in 0..m {
                ata[row * m + col] += powers[degree - row] * bc;
            }
        }
    }
    let mut aug = vec![0.0f64; m * (m + 1)];
    for i in 0..m {
        for j in 0..m {
            aug[i * (m + 1) + j] = ata[i * m + j];
        }
        aug[i * (m + 1) + m] = aty[i];
    }
    for col in 0..m {
        let mut max_row = col;
        let mut max_val = aug[col * (m + 1) + col].abs();
        for row in (col + 1)..m {
            let v = aug[row * (m + 1) + col].abs();
            if v > max_val {
                max_val = v;
                max_row = row;
            }
        }
        if max_val < 1e-12 {
            return None;
        }
        if max_row != col {
            for j in 0..=m {
                aug.swap(col * (m + 1) + j, max_row * (m + 1) + j);
            }
        }
        let pivot = aug[col * (m + 1) + col];
        for j in col..=m {
            aug[col * (m + 1) + j] /= pivot;
        }
        for row in 0..m {
            if row == col {
                continue;
            }
            let factor = aug[row * (m + 1) + col];
            for j in col..=m {
                aug[row * (m + 1) + j] -= factor * aug[col * (m + 1) + j];
            }
        }
    }
    let coeffs: Vec<f64> = (0..m).map(|i| aug[i * (m + 1) + m]).collect();
    for i in 0..n {
        let x = i as f64;
        let mut v = 0.0f64;
        for (j, &c) in coeffs.iter().enumerate() {
            v += c * x.powi((degree - j) as i32);
        }
        if v.round() as i64 != track[i] as i64 {
            return None;
        }
    }
    Some(coeffs)
}

fn ft_poly(track: &[u8]) -> Option<Vec<u8>> {
    let n = track.len();
    if n < 4 {
        return None;
    }
    for degree in 2..=std::cmp::min(8, n - 1) {
        if let Some(coeffs) = ft_polyfit(track, degree) {
            if 1 + (degree + 1) * 8 < n {
                let mut p = vec![degree as u8];
                for c in &coeffs {
                    p.extend_from_slice(&c.to_le_bytes());
                }
                return Some(p);
            }
        }
    }
    None
}

fn ft_exponential(track: &[u8]) -> Option<Vec<u8>> {
    let n = track.len();
    if n < 8 || track[0] == 0 || track[1] == 0 {
        return None;
    }
    let base = track[0] as f32;
    let ratio = track[1] as f32 / base;
    if ratio <= 0.0 || ratio == 1.0 {
        return None;
    }
    for i in 0..n {
        let e = (base * ratio.powi(i as i32)).round() as i32;
        if e < 0 || e > 255 || e as u8 != track[i] {
            return None;
        }
    }
    if 10 < n {
        let mut p = Vec::new();
        p.extend_from_slice(&(n as u16).to_le_bytes());
        p.extend_from_slice(&base.to_le_bytes());
        p.extend_from_slice(&ratio.to_le_bytes());
        Some(p)
    } else {
        None
    }
}

/// The floating-point findings for every track of every candidate layout.
fn float_table(data: &[u8]) -> FloatTable {
    let mut table = FloatTable::new();
    let mut seen = std::collections::HashSet::new();
    for &spt in &[8usize, 16, 32, 64, 128, 256, 512] {
        let tracks = (data.len() + spt - 1) / spt;
        for t in 0..tracks {
            let start = t * spt;
            let end = std::cmp::min(start + spt, data.len());
            let mut track = data[start..end].to_vec();
            track.resize(spt, 0);
            if !seen.insert(track.clone()) {
                continue;
            }
            let found = [
                (10u8, ft_linear_f64(&track)),
                (11u8, ft_delta_f64(&track)),
                (5u8, ft_periodic(&track)),
                (6u8, ft_poly(&track)),
                (18u8, ft_exponential(&track)),
            ];
            for (tag, payload) in found {
                if let Some(p) = payload {
                    table.push(tag, p, spt, track.clone());
                }
            }
        }
    }
    table
}


fn f64_at(b: &[u8], pos: usize) -> f64 {
    f64::from_le_bytes(b[pos..pos + 8].try_into().unwrap())
}

fn f32_at(b: &[u8], pos: usize) -> f32 {
    f32::from_le_bytes(b[pos..pos + 4].try_into().unwrap())
}

fn u16_at(b: &[u8], pos: usize) -> usize {
    u16::from_le_bytes([b[pos], b[pos + 1]]) as usize
}

/// Inverse real DFT of a half spectrum, rounded to bytes.
fn irfft(real: &[f64], imag: &[f64], n: usize) -> Vec<u8> {
    let mut result = Vec::with_capacity(n);
    for t in 0..n {
        let mut sum = real[0];
        for k in 1..real.len() - 1 {
            let angle = 2.0 * std::f64::consts::PI * (k as f64) * (t as f64) / (n as f64);
            sum += 2.0 * (real[k] * angle.cos() - imag[k] * angle.sin());
        }
        if n % 2 == 0 && real.len() > 1 {
            let k = real.len() - 1;
            let angle = 2.0 * std::f64::consts::PI * (k as f64) * (t as f64) / (n as f64);
            sum += real[k] * angle.cos() - imag[k] * angle.sin();
        }
        result.push((sum / n as f64).round() as u8);
    }
    result
}

/// The track that the parameters `p` of floating-point pattern `tag`
/// stand for, at `sectors` bytes per track.
fn render_float(tag: u8, p: &[u8], sectors: usize) -> Vec<u8> {
    match tag {
        5 => {
            let num_comps = u16_at(p, 0);
            let n = u16_at(p, 2);
            let fft_len = n / 2 + 1;
            let mut re = vec![0.0f64; fft_len];
            let mut im = vec![0.0f64; fft_len];
            let mut pos = 4;
            for _ in 0..num_comps {
                let idx = u16_at(p, pos);
                let real = f64_at(p, pos + 2);
                let imag = f64_at(p, pos + 10);
                pos += 18;
                if idx < fft_len {
                    re[idx] = real;
                    im[idx] = imag;
                }
            }
            irfft(&re, &im, n)
        }
        6 => {
            let degree = p[0] as usize;
            let coeffs: Vec<f64> = (0..=degree).map(|j| f64_at(p, 1 + 8 * j)).collect();
            (0..sectors)
                .map(|i| {
                    let x = i as f64;
                    let mut val = 0.0f64;
                    for (j, &c) in coeffs.iter().enumerate() {
                        val += c * x.powi((degree - j) as i32);
                    }
                    val.round() as u8
                })
                .collect()
        }
        10 => {
            let count = u16_at(p, 0);
            let start = f64_at(p, 2);
            let step = f64_at(p, 10);
            let mut track = Vec::with_capacity(count * 8);
            for i in 0..count {
                track.extend_from_slice(&(start + (i as f64) * step).to_le_bytes());
            }
            track.truncate(sectors);
            track
        }
        11 => {
            let count = u16_at(p, 0);
            let mut current = f64_at(p, 2);
            let mut track = Vec::with_capacity(count * 8);
            track.extend_from_slice(&current.to_le_bytes());
            for k in 0..count.saturating_sub(1) {
                current += f32_at(p, 10 + 4 * k) as f64;
                track.extend_from_slice(&current.to_le_bytes());
            }
            track.truncate(sectors);
            track
        }
        _ => {
            let count = u16_at(p, 0);
            let base = f32_at(p, 2);
            let ratio = f32_at(p, 6);
            (0..count).map(|i| (base * ratio.powi(i as i32)).round() as u8).collect()
        }
    }
}


const TAG_CONST: u8 = 0;
const TAG_LINEAR: u8 = 1;
const TAG_POLY2: u8 = 2;
const TAG_POLY3: u8 = 3;
const TAG_RAW: u8 = 7;

/// Fit a function to a row within `quality` per pixel: a constant, a line,
/// a quadratic, a cubic, or else the raw row.
fn fit_row_lossy(row: &[u8], quality: u8, bit_depth: u8) -> LossyEncoding {
    let threshold = quality as f64;
    if let Some(enc) = try_const_lossy(row, threshold, bit_depth) {
        return enc;
    }
    if let Some(enc) = try_linear_lossy(row, threshold, bit_depth) {
        return enc;
    }
    if let Some(enc) = try_poly_lossy(row, threshold, bit_depth, 2) {
        return enc;
    }
    if let Some(enc) = try_poly_lossy(row, threshold, bit_depth, 3) {
        return enc;
    }
    LossyEncoding { tag: TAG_RAW, params: row.to_vec() }
}

fn try_const_lossy(row: &[u8], threshold: f64, bit_depth: u8) -> Option<LossyEncoding> {
    if bit_depth == 16 {
        let n = row.len() / 2;
        let values: Vec<u16> = (0..n).map(|i| u16::from_le_bytes([row[i * 2], row[i * 2 + 1]])).collect();
        let mean = values.iter().map(|&v| v as f64).sum::<f64>() / n as f64;
        let max_err = values.iter().map(|&v| (v as f64 - mean).abs()).fold(0.0f64, f64::max);
        if max_err <= threshold {
            let val = mean.round() as u16;
            return Some(LossyEncoding { tag: TAG_CONST, params: val.to_le_bytes().to_vec() });
        }
    } else {
        let mean = row.iter().map(|&v| v as f64).sum::<f64>() / row.len() as f64;
        let max_err = row.iter().map(|&v| (v as f64 - mean).abs()).fold(0.0f64, f64::max);
        if max_err <= threshold {
            return Some(LossyEncoding { tag: TAG_CONST, params: vec![mean.round() as u8] });
        }
    }
    None
}

fn extract_values(row: &[u8], bit_depth: u8) -> (Vec<f64>, usize) {
    if bit_depth == 16 {
        let n = row.len() / 2;
        let values: Vec<f64> = (0..n).map(|i| u16::from_le_bytes([row[i * 2], row[i * 2 + 1]]) as f64).collect();
        (values, n)
    } else {
        let values: Vec<f64> = row.iter().map(|&v| v as f64).collect();
        let n = values.len();
        (values, n)
    }
}

fn try_linear_lossy(row: &[u8], threshold: f64, bit_depth: u8) -> Option<LossyEncoding> {
    let (values, n) = extract_values(row, bit_depth);
    let n_f = n as f64;
    let sx: f64 = (0..n).map(|i| i as f64).sum();
    let sy: f64 = values.iter().sum();
    let sxx: f64 = (0..n).map(|i| (i as f64) * (i as f64)).sum();
    let sxy: f64 = (0..n).map(|i| (i as f64) * values[i]).sum();
    let denom = n_f * sxx - sx * sx;
    if denom.abs() < 1e-10 {
        return None;
    }
    let b = (n_f * sxy - sx * sy) / denom;
    let a = (sy - b * sx) / n_f;
    let max_err = (0..n).map(|i| (values[i] - (a + b * i as f64)).abs()).fold(0.0f64, f64::max);
    if max_err <= threshold {
        let mut params = Vec::new();
        params.extend_from_slice(&a.to_le_bytes());
        params.extend_from_slice(&b.to_le_bytes());
        return Some(LossyEncoding { tag: TAG_LINEAR, params });
    }
    None
}

fn try_poly_lossy(row: &[u8], threshold: f64, bit_depth: u8, degree: usize) -> Option<LossyEncoding> {
    let (values, n) = extract_values(row, bit_depth);
    if n <= degree {
        return None;
    }
    let m = degree + 1;
    let mut ata = vec![0.0f64; m * m];
    let mut aty = vec![0.0f64; m];
    for i in 0..n {
        let x = i as f64 / n as f64;
        let y = values[i];
        let mut xpow = vec![1.0f64; m];
        for j in 1..m {
            xpow[j] = xpow[j - 1] * x;
        }
        for r in 0..m {
            aty[r] += xpow[r] * y;
            for c in 0..m {
                ata[r * m + c] += xpow[r] * xpow[c];
            }
        }
    }
    let coeffs = solve_linear_system(&ata, &aty, m)?;
    let max_err = (0..n)
        .map(|i| {
            let x = i as f64 / n as f64;
            let mut val = 0.0f64;
            let mut xpow = 1.0f64;
            for &c in &coeffs {
                val += c * xpow;
                xpow *= x;
            }
            (values[i] - val).abs()
        })
        .fold(0.0f64, f64::max);
    if max_err <= threshold {
        let tag = if degree == 2 { TAG_POLY2 } else { TAG_POLY3 };
        let mut params = Vec::new();
        for &c in &coeffs {
            params.extend_from_slice(&c.to_le_bytes());
        }
        return Some(LossyEncoding { tag, params });
    }
    None
}

fn solve_linear_system(ata: &[f64], aty: &[f64], m: usize) -> Option<Vec<f64>> {
    let mut aug = vec![0.0f64; m * (m + 1)];
    for i in 0..m {
        for j in 0..m {
            aug[i * (m + 1) + j] = ata[i * m + j];
        }
        aug[i * (m + 1) + m] = aty[i];
    }
    for col in 0..m {
        let mut max_row = col;
        let mut max_val = aug[col * (m + 1) + col].abs();
        for row in (col + 1)..m {
            let val = aug[row * (m + 1) + col].abs();
            if val > max_val {
                max_val = val;
                max_row = row;
            }
        }
        if max_val < 1e-12 {
            return None;
        }
        if max_row != col {
            for j in 0..=m {
                aug.swap(col * (m + 1) + j, max_row * (m + 1) + j);
            }
        }
        let pivot = aug[col * (m + 1) + col];
        for j in col..=m {
            aug[col * (m + 1) + j] /= pivot;
        }
        for row in 0..m {
            if row == col {
                continue;
            }
            let factor = aug[row * (m + 1) + col];
            for j in col..=m {
                aug[row * (m + 1) + j] -= factor * aug[col * (m + 1) + j];
            }
        }
    }
    Some((0..m).map(|i| aug[i * (m + 1) + m]).collect())
}

/// The row that a fitted line or polynomial (tags 1 to 3) stands for.
fn render_lossy_row(tag: u8, params: &[u8], row_bytes: usize, bit_depth: u8) -> Vec<u8> {
    let n = if bit_depth == 16 { row_bytes / 2 } else { row_bytes };
    let mut row = Vec::with_capacity(row_bytes);
    if tag == TAG_LINEAR {
        let a = f64::from_le_bytes(params[0..8].try_into().unwrap());
        let b = f64::from_le_bytes(params[8..16].try_into().unwrap());
        for i in 0..n {
            let val = (a + b * i as f64).round();
            if bit_depth == 16 {
                row.extend_from_slice(&(val.clamp(0.0, 65535.0) as u16).to_le_bytes());
            } else {
                row.push(val.clamp(0.0, 255.0) as u8);
            }
        }
        return row;
    }
    let degree = if tag == TAG_POLY2 { 2 } else { 3 };
    let coeffs: Vec<f64> =
        (0..degree + 1).map(|i| f64::from_le_bytes(params[i * 8..(i + 1) * 8].try_into().unwrap())).collect();
    for i in 0..n {
        let x = i as f64 / n as f64;
        let mut val = 0.0f64;
        let mut xpow = 1.0f64;
        for &c in &coeffs {
            val += c * xpow;
            xpow *= x;
        }
        if bit_depth == 16 {
            row.extend_from_slice(&(val.round().clamp(0.0, 65535.0) as u16).to_le_bytes());
        } else {
            row.push(val.round().clamp(0.0, 255.0) as u8);
        }
    }
    row
}


/// RGB24 to Y, Cb, Cr planes with 4:2:0 chroma subsampling.
fn rgb_to_ycbcr(rgb: &[u8], w: usize, h: usize) -> (Vec<u8>, Vec<u8>, Vec<u8>) {
    let mut y = Vec::with_capacity(w * h);
    let mut cb_full = Vec::with_capacity(w * h);
    let mut cr_full = Vec::with_capacity(w * h);
    for i in 0..(w * h) {
        let r = rgb[i * 3] as f32;
        let g = rgb[i * 3 + 1] as f32;
        let b = rgb[i * 3 + 2] as f32;
        y.push((0.299 * r + 0.587 * g + 0.114 * b).round().clamp(0.0, 255.0) as u8);
        cb_full.push((128.0 - 0.169 * r - 0.331 * g + 0.500 * b).round().clamp(0.0, 255.0) as u8);
        cr_full.push((128.0 + 0.500 * r - 0.419 * g - 0.081 * b).round().clamp(0.0, 255.0) as u8);
    }
    let cw = w / 2;
    let ch = h / 2;
    let mut cb = Vec::with_capacity(cw * ch);
    let mut cr = Vec::with_capacity(cw * ch);
    for row in 0..ch {
        for col in 0..cw {
            let idx = (row * 2) * w + col * 2;
            cb.push(cb_full[idx]);
            cr.push(cr_full[idx]);
        }
    }
    (y, cb, cr)
}

/// Y, Cb, Cr planes (4:2:0) back to RGB24.
fn ycbcr_to_rgb(y: &[u8], cb: &[u8], cr: &[u8], w: usize, h: usize) -> Vec<u8> {
    let cw = w / 2;
    let mut rgb = Vec::with_capacity(w * h * 3);
    for row in 0..h {
        for col in 0..w {
            let yi = y[row * w + col] as f32;
            let ci = (row / 2) * cw + col / 2;
            let cbi = cb[ci] as f32 - 128.0;
            let cri = cr[ci] as f32 - 128.0;
            rgb.push((yi + 1.402 * cri).round().clamp(0.0, 255.0) as u8);
            rgb.push((yi - 0.344 * cbi - 0.714 * cri).round().clamp(0.0, 255.0) as u8);
            rgb.push((yi + 1.772 * cbi).round().clamp(0.0, 255.0) as u8);
        }
    }
    rgb
}

/// Decode a PLTZ, PLTC or PLTS container, rendering each floating-point
/// track the decoder asks for and trying again.
fn decode_with_floats(data: &[u8]) -> Result<Vec<u8>, String> {
    let mut table = FloatTable::new();
    let mut asked: HashSet<(u8, usize, usize, usize)> = HashSet::new();
    loop {
        match decode(data, &table) {
            Ok(v) => return Ok(v),
            Err(DecodeError::FloatTrackNotRendered(tag, off, len, sectors))
                if off <= data.len() && len <= data.len() - off && asked.insert((tag, off, len, sectors)) =>
            {
                let payload = data[off..off + len].to_vec();
                let rendered = render_float(tag, &payload, sectors);
                table.push(tag, payload, sectors, rendered);
            }
            Err(e) => return Err(format!("{:?}", e)),
        }
    }
}

/// The floating-point findings of several inputs together.
fn merged_tables(parts: &[&[u8]]) -> FloatTable {
    let mut table = FloatTable::new();
    for p in parts {
        let t = float_table(p);
        for e in t.entries {
            table.push(e.tag, e.payload, e.sectors, e.rendered);
        }
    }
    table
}

/// Compress a grayscale image; lossy rows are fitted here.
fn compress_image_with(pixels: &[u8], params: ImageParams) -> Vec<u8> {
    if params.quality == 0 {
        let table = float_table(pixels);
        return compress_image(pixels, params, &Vec::new(), &table);
    }
    let rows = image_rows(pixels, params).expect("range end index out of range for slice");
    let encs: Vec<LossyEncoding> =
        rows.iter().map(|r| fit_row_lossy(r, params.quality, params.bit_depth)).collect();
    compress_image(pixels, params, &encs, &FloatTable::new())
}

/// Decompress an image; lossy rows fitted by a line or polynomial are
/// rendered here.
fn decompress_image_with(compressed: &[u8]) -> Result<(Vec<u8>, ImageParams), String> {
    let (params, original_len) = image_header(compressed).map_err(|_| "Bad image magic".to_string())?;
    if params.quality == 0 {
        let pixels = decode_with_floats(&compressed[16..])?;
        return Ok((pixels, params));
    }
    let row_bytes = params.width as usize * (params.bit_depth as usize / 8);
    let entries = parse_lossy_entries(compressed).expect("index out of bounds");
    let mut rendered: Vec<Vec<u8>> = Vec::new();
    for e in &entries {
        let row = if (1..=3).contains(&e.tag) {
            render_lossy_row(e.tag, &e.params, row_bytes, params.bit_depth)
        } else {
            reconstruct_row(e.tag, &e.params, row_bytes, params.bit_depth).expect("index out of bounds")
        };
        rendered.push(row);
    }
    let pixels = place_rows(original_len as usize, row_bytes, &entries, &rendered).expect("range end index out of range");
    Ok((pixels, params))
}

/// Compress PCM audio; lossy frames are fitted here.
fn compress_audio_with(samples: &[u8], params: AudioParams) -> Vec<u8> {
    let bps = params.bits_per_sample as usize / 8;
    let fb = params.frame_size as usize * bps * params.channels as usize;
    if samples.is_empty() {
        return compress_audio(samples, params, &Vec::new(), &FloatTable::new());
    }
    assert!(fb > 0, "attempt to divide by zero");
    let frames: Vec<&[u8]> = samples.chunks(fb).collect();
    let mut rows: Vec<LossyEncoding> = Vec::new();
    if params.quality != 0 {
        for f in &frames {
            let ip = if params.bits_per_sample == 16 {
                ImageParams { width: (f.len() / 2) as u16, height: 1, bit_depth: 16, quality: params.quality }
            } else {
                ImageParams { width: f.len() as u16, height: 1, bit_depth: 8, quality: params.quality }
            };
            let row = image_rows(f, ip).expect("range end index out of range for slice");
            rows.push(fit_row_lossy(&row[0], params.quality, ip.bit_depth));
        }
    }
    let table = if params.quality == 0 { merged_tables(&frames) } else { FloatTable::new() };
    compress_audio(samples, params, &rows, &table)
}

/// Decompress PLTA audio back to PCM samples.
fn decompress_audio_with(data: &[u8]) -> Result<(Vec<u8>, AudioParams), String> {
    match parse_audio(data).expect("range end index out of range for slice") {
        Err(AudioError::BadMagic) => Err("Bad audio magic".into()),
        Err(AudioError::TruncatedFrame) => Err("Truncated frame".into()),
        Ok((params, frames)) => {
            let mut samples = Vec::new();
            for f in &frames {
                let pcm = if params.quality == 0 { decode_with_floats(f)? } else { decompress_image_with(f)?.0 };
                samples.extend_from_slice(&pcm);
            }
            Ok((samples, params))
        }
    }
}

fn plane_params(w: usize, h: usize, quality: u8) -> ImageParams {
    ImageParams { width: w as u16, height: h as u16, bit_depth: 8, quality }
}

/// Encode RGB24 frames into PLTV.
fn encode_video_with(frames: &[Vec<u8>], params: VideoParams) -> Vec<u8> {
    let w = params.width as usize;
    let h = params.height as usize;
    assert!(frames.is_empty() || params.gop_size > 0, "attempt to calculate the remainder with a divisor of zero");
    let planes: Vec<Planes> = frames
        .iter()
        .map(|f| {
            let (y, cb, cr) = rgb_to_ycbcr(f, w, h);
            Planes { y, cb, cr }
        })
        .collect();
    let plans = if frames.is_empty() { Vec::new() } else { plan_video(&planes, w, h, params.gop_size) };
    let full = plane_params(w, h, params.quality);
    let half = plane_params(w / 2, h / 2, params.quality);
    let comps: Vec<Planes> = plans
        .iter()
        .map(|p| Planes {
            y: compress_image_with(&p.planes.y, full),
            cb: compress_image_with(&p.planes.cb, half),
            cr: compress_image_with(&p.planes.cr, half),
        })
        .collect();
    assemble_video(params, &plans, &comps)
}

/// Decode PLTV back to RGB24 frames.
fn decode_video_with(data: &[u8]) -> Result<(Vec<Vec<u8>>, VideoParams), String> {
    let (params, frames) = match parse_video(data).expect("index out of bounds") {
        Err(VideoError::BadMagic) => return Err("Bad video magic".into()),
        Err(VideoError::MissingFrame) => return Err("Missing frame".into()),
        Ok(v) => v,
    };
    let w = params.width as usize;
    let h = params.height as usize;
    let mut decoded: Vec<Planes> = Vec::new();
    for f in &frames {
        if f.kind <= 2 {
            decoded.push(Planes {
                y: decompress_image_with(&f.planes.y)?.0,
                cb: decompress_image_with(&f.planes.cb)?.0,
                cr: decompress_image_with(&f.planes.cr)?.0,
            });
        } else {
            decoded.push(Planes { y: Vec::new(), cb: Vec::new(), cr: Vec::new() });
        }
    }
    match reconstruct_video(&frames, &decoded, w, h).expect("called `Option::unwrap()` on a `None` value") {
        Err(_) => Err("Missing frame".into()),
        Ok(pictures) => Ok((pictures.iter().map(|p| ycbcr_to_rgb(&p.y, &p.cb, &p.cr, w, h)).collect(), params)),
    }
}

// ---------------------------------------------------------------- image

fn compress_img(pixels: &[u8], params: ImageParams) -> Vec<u8> {
    compress_image_with(pixels, params)
}

fn decompress_img(c: &[u8]) -> Result<(Vec<u8>, ImageParams), String> {
    decompress_image_with(c)
}

#[test]
fn test_lossless_roundtrip() {
    // 8x8 gradient image
    let mut pixels = Vec::new();
    for row in 0..8u8 {
        for col in 0..8u8 {
            pixels.push(row * 32 + col * 4);
        }
    }
    let params = ImageParams { width: 8, height: 8, bit_depth: 8, quality: 0 };
    let compressed = compress_img(&pixels, params);
    let (decompressed, _) = decompress_img(&compressed).unwrap();
    assert_eq!(pixels, decompressed);
}

#[test]
fn test_lossy_star_field() {
    // 256x64 star field: mostly black with a few bright pixels
    let width = 256u16;
    let height = 64u16;
    let mut pixels = vec![0u8; width as usize * height as usize];
    pixels[128] = 200;
    pixels[256 * 10 + 50] = 255;
    pixels[256 * 30 + 200] = 180;

    let params = ImageParams { width, height, bit_depth: 8, quality: 5 };
    let compressed = compress_img(&pixels, params);
    let (decompressed, _) = decompress_img(&compressed).unwrap();

    let max_err = pixels.iter().zip(decompressed.iter()).map(|(&a, &b)| (a as i16 - b as i16).unsigned_abs()).max().unwrap();
    assert!(max_err <= 5, "Max error {} > quality 5", max_err);

    let ratio = compressed.len() as f64 / pixels.len() as f64;
    println!("Star field 256x64: {} -> {} bytes (ratio {:.3})", pixels.len(), compressed.len(), ratio);
    assert!(compressed.len() < pixels.len() / 4, "Star field should compress >4:1, got {}", compressed.len());
}

#[test]
fn test_lossy_gradient() {
    // 512x16 smooth gradient (simulates illumination gradient)
    let width = 512u16;
    let height = 16u16;
    let mut pixels = Vec::with_capacity(width as usize * height as usize);
    for _row in 0..height {
        for col in 0..width {
            pixels.push((col / 2) as u8);
        }
    }

    let params = ImageParams { width, height, bit_depth: 8, quality: 2 };
    let compressed = compress_img(&pixels, params);
    let (decompressed, _) = decompress_img(&compressed).unwrap();

    let max_err = pixels.iter().zip(decompressed.iter()).map(|(&a, &b)| (a as i16 - b as i16).unsigned_abs()).max().unwrap();
    assert!(max_err <= 2);

    println!("Gradient 512x16: {} -> {} bytes (ratio {:.3})", pixels.len(), compressed.len(),
        compressed.len() as f64 / pixels.len() as f64);
}

#[test]
fn test_16bit_calibration() {
    // 128x32 dark frame (16-bit, values near 100 with ±3 noise)
    let width = 128u16;
    let height = 32u16;
    let mut pixels = Vec::new();
    let mut state: u32 = 99;
    for _ in 0..(width as usize * height as usize) {
        state = state.wrapping_mul(1103515245).wrapping_add(12345);
        let noise = ((state >> 16) % 7) as i16 - 3;
        let val = (100i16 + noise) as u16;
        pixels.extend_from_slice(&val.to_le_bytes());
    }

    let params = ImageParams { width, height, bit_depth: 16, quality: 4 };
    let compressed = compress_img(&pixels, params);
    let (decompressed, _) = decompress_img(&compressed).unwrap();

    let n = width as usize * height as usize;
    let max_err = (0..n)
        .map(|i| {
            let orig = u16::from_le_bytes([pixels[i * 2], pixels[i * 2 + 1]]);
            let recon = u16::from_le_bytes([decompressed[i * 2], decompressed[i * 2 + 1]]);
            (orig as i32 - recon as i32).unsigned_abs()
        })
        .max()
        .unwrap();
    assert!(max_err <= 4, "Max error {} > quality 4", max_err);

    println!("Dark frame 128x32 16-bit: {} -> {} bytes (ratio {:.3})", pixels.len(), compressed.len(),
        compressed.len() as f64 / pixels.len() as f64);
}

#[test]
fn identical_rows_share_one_entry() {
    let mut encs = Vec::new();
    for i in 0..6u16 {
        let tag = if i == 2 { 7 } else { 0 };
        let params = if i == 2 { vec![1, 2, 3] } else { vec![9] };
        encs.push(RowEncoding { row_idx: i, enc: LossyEncoding { tag, params } });
    }
    let (groups, lone) = cross_row_optimize(&encs);
    assert_eq!(groups.len(), 1);
    assert_eq!(groups[0].pattern_tag, 0);
    assert_eq!(groups[0].row_indices, vec![0, 1, 3, 4, 5]);
    assert_eq!(groups[0].params, vec![9]);
    assert_eq!(lone.len(), 1);
    assert_eq!(lone[0].row_idx, 2);
}

#[test]
fn image_header_refuses_other_magic() {
    assert_eq!(image_header(b"PLTZ0000000000000000").err(), Some(pltz::image::ImageError::BadMagic));
    assert!(decompress_img(b"short").is_err());
}

#[test]
fn constant_rows_render_without_floats() {
    assert_eq!(reconstruct_row(0, &[7], 4, 8), Some(vec![7, 7, 7, 7]));
    assert_eq!(reconstruct_row(0, &[1, 2], 4, 16), Some(vec![1, 2, 1, 2]));
    assert_eq!(reconstruct_row(0, &[], 4, 8), None);
    assert_eq!(reconstruct_row(7, &[5, 6], 4, 8), Some(vec![5, 6]));
}

// ---------------------------------------------------------------- audio

#[test]
fn test_silence_8bit() {
    // 1 second of 8-bit silence at 8kHz
    let samples = vec![128u8; 8000];
    let params = AudioParams { sample_rate: 8000, bits_per_sample: 8, channels: 1, quality: 0, frame_size: 256 };
    let compressed = compress_audio_with(&samples, params);
    let (decoded, _) = decompress_audio_with(&compressed).unwrap();
    assert_eq!(samples, decoded);

    let ratio = samples.len() as f64 / compressed.len() as f64;
    println!("Silence 8kHz 8-bit 1s: {}B → {}B ({:.1}:1)", samples.len(), compressed.len(), ratio);
    assert!(compressed.len() < samples.len() / 10);
}

#[test]
fn test_tone_16bit() {
    // 1 second of 440Hz sine at 16kHz sample rate, 16-bit
    let sample_rate = 16000;
    let freq = 440.0f64;
    let mut samples = Vec::new();
    for i in 0..sample_rate {
        let val = (16000.0 * (2.0 * std::f64::consts::PI * freq * i as f64 / sample_rate as f64).sin()) as i16;
        samples.extend_from_slice(&val.to_le_bytes());
    }
    let params = AudioParams { sample_rate: 16000, bits_per_sample: 16, channels: 1, quality: 0, frame_size: 256 };
    let compressed = compress_audio_with(&samples, params);
    let (decoded, _) = decompress_audio_with(&compressed).unwrap();
    assert_eq!(samples, decoded);

    println!("440Hz tone 16kHz 16-bit 1s: {}B → {}B ({:.1}:1)", samples.len(), compressed.len(),
        samples.len() as f64 / compressed.len() as f64);
}

#[test]
fn test_lossy_tone() {
    // Lossy compression of a tone
    let sample_rate = 8000;
    let freq = 1000.0f64;
    let samples: Vec<u8> = (0..sample_rate)
        .map(|i| (128.0 + 100.0 * (2.0 * std::f64::consts::PI * freq * i as f64 / sample_rate as f64).sin()) as u8)
        .collect();
    let params = AudioParams { sample_rate: 8000, bits_per_sample: 8, channels: 1, quality: 5, frame_size: 256 };
    let compressed = compress_audio_with(&samples, params);
    let (decoded, _) = decompress_audio_with(&compressed).unwrap();

    let max_err = samples.iter().zip(decoded.iter()).map(|(&a, &b)| (a as i16 - b as i16).unsigned_abs()).max().unwrap();
    assert!(max_err <= 5, "Max error {} > quality 5", max_err);

    println!("1kHz lossy q=5: {}B → {}B ({:.1}:1)", samples.len(), compressed.len(),
        samples.len() as f64 / compressed.len() as f64);
}

#[test]
fn test_dtmf() {
    // DTMF tone (two frequencies: 697Hz + 1209Hz) — common in telephony
    let sample_rate = 8000;
    let samples: Vec<u8> = (0..4000)
        .map(|i| {
            let t = i as f64 / sample_rate as f64;
            let val = 64.0 * (2.0 * std::f64::consts::PI * 697.0 * t).sin() + 64.0 * (2.0 * std::f64::consts::PI * 1209.0 * t).sin();
            (128.0 + val).clamp(0.0, 255.0) as u8
        })
        .collect();
    let params = AudioParams { sample_rate: 8000, bits_per_sample: 8, channels: 1, quality: 0, frame_size: 256 };
    let compressed = compress_audio_with(&samples, params);
    let (decoded, _) = decompress_audio_with(&compressed).unwrap();
    assert_eq!(samples, decoded);

    println!("DTMF 0.5s lossless: {}B → {}B ({:.1}:1)", samples.len(), compressed.len(),
        samples.len() as f64 / compressed.len() as f64);
}

#[test]
fn audio_header_records_settings() {
    let samples = vec![10u8; 600];
    let params = AudioParams { sample_rate: 44100, bits_per_sample: 8, channels: 1, quality: 0, frame_size: 256 };
    let c = compress_audio_with(&samples, params);
    assert_eq!(&c[0..4], b"PLTA");
    assert_eq!(u16::from_le_bytes([c[4], c[5]]), 441);
    assert_eq!(c[9], 16);
    assert_eq!(u16::from_le_bytes([c[10], c[11]]), 3);
    let (_, p) = decompress_audio_with(&c).unwrap();
    assert_eq!(p.sample_rate, 44100);
    assert_eq!(p.frame_size, 256);
    assert_eq!(decompress_audio_with(b"NOPE00000000").err(), Some("Bad audio magic".to_string()));
}

// ---------------------------------------------------------------- video

fn make_solid_frame(w: usize, h: usize, r: u8, g: u8, b: u8) -> Vec<u8> {
    vec![r, g, b].repeat(w * h)
}

#[test]
fn test_static_scene() {
    // 10 identical frames (surveillance camera, nothing moving)
    let w = 64;
    let h = 48;
    let frame = make_solid_frame(w, h, 100, 150, 200);
    let frames: Vec<Vec<u8>> = vec![frame; 10];

    let params = VideoParams { width: w as u16, height: h as u16, fps: 15, quality: 5, gop_size: 10 };
    let compressed = encode_video_with(&frames, params);
    let (decoded, _) = decode_video_with(&compressed).unwrap();

    assert_eq!(decoded.len(), 10);
    let max_err = frames[0].iter().zip(decoded[0].iter()).map(|(&a, &b)| (a as i16 - b as i16).unsigned_abs()).max().unwrap();
    assert!(max_err <= 10, "Max error {} too high", max_err);

    let raw_size = frames.len() * w * h * 3;
    println!("Static 64x48 10 frames: {}B raw → {}B compressed ({:.1}:1)", raw_size, compressed.len(),
        raw_size as f64 / compressed.len() as f64);
    assert!(compressed.len() < raw_size / 10, "Should compress >10:1 on static");
}

#[test]
fn test_motion() {
    // Frame with a moving bright spot
    let w = 64;
    let h = 48;
    let mut frames: Vec<Vec<u8>> = Vec::new();
    for f in 0..10 {
        let mut frame = vec![50u8; w * h * 3];
        let spot_x = 10 + f * 4;
        let spot_y = 24;
        for dy in 0..4 {
            for dx in 0..4 {
                let px = (spot_y + dy) * w + spot_x + dx;
                if px < w * h {
                    frame[px * 3] = 255;
                    frame[px * 3 + 1] = 255;
                    frame[px * 3 + 2] = 255;
                }
            }
        }
        frames.push(frame);
    }

    let params = VideoParams { width: w as u16, height: h as u16, fps: 15, quality: 5, gop_size: 10 };
    let compressed = encode_video_with(&frames, params);
    let (decoded, _) = decode_video_with(&compressed).unwrap();

    assert_eq!(decoded.len(), 10);
    let raw_size = frames.len() * w * h * 3;
    println!("Motion 64x48 10 frames: {}B raw → {}B compressed ({:.1}:1)", raw_size, compressed.len(),
        raw_size as f64 / compressed.len() as f64);
}

#[test]
fn motion_search_finds_a_shifted_block() {
    let w = 48;
    let h = 48;
    let mut reference = vec![0u8; w * h];
    let mut state: u32 = 7;
    for v in reference.iter_mut() {
        state = state.wrapping_mul(1103515245).wrapping_add(12345);
        *v = (state >> 16) as u8;
    }
    // current block (1, 1) is the reference moved by (+3, -2)
    let mut current = vec![0u8; w * h];
    for y in 0..h {
        for x in 0..w {
            let sx = x as i64 + 3;
            let sy = y as i64 - 2;
            if sx >= 0 && sy >= 0 && (sx as usize) < w && (sy as usize) < h {
                current[y * w + x] = reference[sy as usize * w + sx as usize];
            }
        }
    }
    assert_eq!(find_motion_vector(&current, &reference, w, h, 1, 1, 16, 16), (3, -2));
    // a block that cannot lie in the frame keeps (0, 0)
    assert_eq!(find_motion_vector(&current, &reference, w, h, 3, 0, 16, 16), (0, 0));
}

#[test]
fn residual_then_add_gives_the_plane_back() {
    let a: Vec<u8> = (0..=255u8).collect();
    let b: Vec<u8> = (0..=255u8).map(|v| v.wrapping_mul(3)).collect();
    let d = residual(&a, &b);
    assert_eq!(d.len(), 256);
    assert_eq!(d[0], 128);
    assert_eq!(d[1], 126);
    let back = add_residual(&d, &b);
    for i in 0..256 {
        let diff = a[i] as i16 - b[i] as i16;
        if (-128..=127).contains(&diff) {
            assert_eq!(back[i], a[i]);
        }
    }
}

#[test]
fn motion_compensation_moves_blocks() {
    let w = 4;
    let h = 2;
    let reference: Vec<u8> = (1..=8).collect();
    // one 2x2 block per 2 columns, 2 blocks per row
    let p = apply_motion_compensation(&reference, &[(1, 0), (0, 0)], w, h, 2, 2);
    assert_eq!(p, vec![2, 3, 3, 4, 6, 7, 7, 8]);
    let q = apply_motion_compensation(&reference, &[(-1, 0)], w, h, 2, 2);
    assert_eq!(q, vec![128, 1, 128, 128, 128, 5, 128, 128]);
}

#[test]
fn video_refuses_other_magic() {
    assert_eq!(decode_video_with(b"PLTZ00000000").err(), Some("Bad video magic".to_string()));
}

#[test]
fn video_container_reads_back_its_frames() {
    let params = VideoParams { width: 4, height: 4, fps: 30, quality: 0, gop_size: 3 };
    let none = || Planes { y: Vec::new(), cb: Vec::new(), cr: Vec::new() };
    let plans = vec![
        FramePlan { kind: 0, ref_dir: 0, mvs: Vec::new(), planes: none() },
        FramePlan { kind: 2, ref_dir: 1, mvs: vec![(-3, 4), (127, -128)], planes: none() },
        FramePlan { kind: 1, ref_dir: 0, mvs: vec![(0, -1)], planes: none() },
    ];
    let comps = vec![
        Planes { y: vec![9, 8, 7], cb: vec![6], cr: Vec::new() },
        Planes { y: vec![1, 2], cb: vec![3, 4], cr: vec![5] },
        Planes { y: Vec::new(), cb: vec![0], cr: vec![255, 254] },
    ];
    let data = assemble_video(params, &plans, &comps);
    let (p, frames) = parse_video(&data).unwrap().unwrap();
    assert_eq!((p.width, p.height, p.fps, p.quality, p.gop_size), (4, 4, 30, 0, 0));
    assert_eq!(frames.len(), 3);
    for i in 0..3 {
        assert_eq!(frames[i].kind, plans[i].kind);
        assert_eq!(frames[i].ref_dir, plans[i].ref_dir);
        assert_eq!(frames[i].mvs, plans[i].mvs);
        assert_eq!(frames[i].planes.y, comps[i].y);
        assert_eq!(frames[i].planes.cb, comps[i].cb);
        assert_eq!(frames[i].planes.cr, comps[i].cr);
    }
}

#[test]
fn audio_stream_reads_back_its_frames() {
    let params = AudioParams { sample_rate: 8000, bits_per_sample: 8, channels: 1, quality: 0, frame_size: 32 };
    let samples: Vec<u8> = (0..100u32).map(|i| (i * 7 % 256) as u8).collect();
    let data = compress_audio(&samples, params, &Vec::new(), &FloatTable::new());
    let (p, frames) = parse_audio(&data).unwrap().unwrap();
    assert_eq!(p, params);
    assert_eq!(frames.len(), 4);
    for (i, f) in frames.iter().enumerate() {
        let end = std::cmp::min(100, (i + 1) * 32);
        assert_eq!(decode(f, &FloatTable::new()).unwrap(), samples[i * 32..end].to_vec());
    }
}

#[test]
fn float_tracks_are_rebuilt_from_the_container_alone() {
    let data: Vec<u8> = (0..256u32).map(|x| ((x % 64) * (x % 64)) as f64 * 0.05).map(|v| v.round() as u8).collect();
    let table = float_table(&data);
    assert!(table.is_ok());
    let c = pltz::codec::encode(&data, pltz::raw::RawCompressor::Uncompressed, &table);
    assert_eq!(decode_with_floats(&c).unwrap(), data);
}
