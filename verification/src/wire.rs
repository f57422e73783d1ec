//! The wire form of one track entry: index, tag and payload.
use vstd::prelude::*;
use crate::bytes::{le16, le32, le64, read_u16, read_u32, read_u64, copy_range};
use crate::pattern::{PatternType, DecodeError, FloatTable, FloatTrack, spec_from_u8, spec_float_lookup, spec_tag};
use crate::render::{
    as_i8, as_i16, render_const, render_linear, render_rle, render_repeat, render_delta,
    render_linear_wide, xor_all, render_sparse, render_piecewise, render_mirror,
    render_interleaved, render_delta_rle, render_bit_packed, packed_len, render_diff_table,
    render_mod_arith, render_fibonacci, render_delta_wide, wide_count,
};
use crate::raw::spec_raw_decoded;

verus! {

/// `n` bytes from `pos` lie within `buf`.
pub open spec fn avail(buf: Seq<u8>, pos: int, n: int) -> bool {
    0 <= pos && 0 <= n && pos + n <= buf.len()
}

pub open spec fn as_i32(u: int) -> int {
    if u < 0x8000_0000 { u } else { u - 0x1_0000_0000 }
}

pub open spec fn as_i64(u: int) -> int {
    if u < 0x8000_0000_0000_0000 { u } else { u - 0x1_0000_0000_0000_0000 }
}

/// A byte read as a signed 8-bit value.
pub open spec fn byte_i8(b: u8) -> i8 {
    as_i8(b) as i8
}

/// The signed 16-bit little-endian value at `i`.
pub open spec fn sle16(s: Seq<u8>, i: int) -> int {
    as_i16(le16(s, i))
}

/// Result of reading one track entry or payload: `None` where the reader
/// cannot proceed (it would index past the input, divide by zero or
/// overflow), else the decoded bytes and the offset after the entry, or
/// the error the input is refused with.
pub type Decoded<T> = Option<Result<T, DecodeError>>;

pub open spec fn rle_runs_at(buf: Seq<u8>, pos: int, n: int) -> Seq<(u8, u8)> {
    Seq::new(n as nat, |k: int| (buf[pos + 2 * k], buf[pos + 2 * k + 1]))
}

pub open spec fn sparse_entries_at(buf: Seq<u8>, pos: int, n: int) -> Seq<(u16, u8)> {
    Seq::new(n as nat, |k: int| (le16(buf, pos + 3 * k) as u16, buf[pos + 3 * k + 2]))
}

pub open spec fn segments_at(buf: Seq<u8>, pos: int, n: int) -> Seq<(u16, i16, i16)> {
    Seq::new(n as nat, |k: int| (le16(buf, pos + 6 * k) as u16, sle16(buf, pos + 6 * k + 2) as i16, sle16(buf, pos + 6 * k + 4) as i16))
}

pub open spec fn delta_rle_runs_at(buf: Seq<u8>, pos: int, n: int) -> Seq<(i8, u8)> {
    Seq::new(n as nat, |k: int| (byte_i8(buf[pos + 2 * k]), buf[pos + 2 * k + 1]))
}

pub open spec fn deltas_at(buf: Seq<u8>, pos: int, n: int) -> Seq<i8> {
    Seq::new(n as nat, |k: int| byte_i8(buf[pos + k]))
}

/// Number of payload bytes of a floating-point pattern at `pos`, or `None`
/// when its length fields cannot be read (or a DELTA_F64 count is zero).
pub open spec fn float_payload_len(buf: Seq<u8>, pos: int, p: PatternType) -> Option<int> {
    match p {
        PatternType::Periodic => if avail(buf, pos, 2) { Some(4 + 18 * le16(buf, pos)) } else { None },
        PatternType::Poly => if avail(buf, pos, 1) { Some(1 + 8 * (buf[pos] + 1)) } else { None },
        PatternType::LinearF64 => Some(18),
        PatternType::DeltaF64 => if avail(buf, pos, 2) && le16(buf, pos) > 0 { Some(10 + 4 * (le16(buf, pos) - 1)) } else { None },
        _ => Some(10),
    }
}

pub open spec fn dec_const(buf: Seq<u8>, pos: int, sectors: int, table: Seq<FloatTrack>) -> Decoded<(Seq<u8>, int)> {
    if !avail(buf, pos, 1) { None } else { Some(Ok((render_const(buf[pos], sectors), pos + 1))) }
}

pub open spec fn dec_linear(buf: Seq<u8>, pos: int, sectors: int, table: Seq<FloatTrack>) -> Decoded<(Seq<u8>, int)> {
    if !avail(buf, pos, 4) { None } else {
        Some(Ok((render_linear(sle16(buf, pos), sle16(buf, pos + 2), sectors), pos + 4)))
    }
}

pub open spec fn dec_rle(buf: Seq<u8>, pos: int, sectors: int, table: Seq<FloatTrack>) -> Decoded<(Seq<u8>, int)> {
    if !avail(buf, pos, 2) || !avail(buf, pos + 2, 2 * le16(buf, pos)) { None } else {
        let n = le16(buf, pos);
        Some(Ok((render_rle(rle_runs_at(buf, pos + 2, n), sectors), pos + 2 + 2 * n)))
    }
}

pub open spec fn dec_repeat(buf: Seq<u8>, pos: int, sectors: int, table: Seq<FloatTrack>) -> Decoded<(Seq<u8>, int)> {
    if !avail(buf, pos, 2) || !avail(buf, pos + 2, le16(buf, pos)) { None }
    else if le16(buf, pos) == 0 && sectors > 0 { None }
    else {
        let n = le16(buf, pos);
        Some(Ok((render_repeat(buf.subrange(pos + 2, pos + 2 + n), sectors), pos + 2 + n)))
    }
}

pub open spec fn dec_delta(buf: Seq<u8>, pos: int, sectors: int, table: Seq<FloatTrack>) -> Decoded<(Seq<u8>, int)> {
    if !avail(buf, pos, 2) || sectors == 0 || !avail(buf, pos + 2, sectors - 1) { None } else {
        Some(Ok((render_delta(sle16(buf, pos), deltas_at(buf, pos + 2, sectors - 1)), pos + 1 + sectors)))
    }
}

pub open spec fn dec_raw(buf: Seq<u8>, pos: int, sectors: int, table: Seq<FloatTrack>) -> Decoded<(Seq<u8>, int)> {
    if !avail(buf, pos, sectors) { None } else { Some(Ok((buf.subrange(pos, pos + sectors), pos + sectors))) }
}

pub open spec fn dec_raw_compressed(buf: Seq<u8>, pos: int, sectors: int, table: Seq<FloatTrack>) -> Decoded<(Seq<u8>, int)> {
    if !avail(buf, pos, 3) || !avail(buf, pos + 3, le16(buf, pos + 1)) { None } else {
        let n = le16(buf, pos + 1);
        match spec_raw_decoded(buf.subrange(pos + 3, pos + 3 + n), buf[pos]) {
            Ok(v) => Some(Ok((v, pos + 3 + n))),
            Err(e) => Some(Err(e)),
        }
    }
}

pub open spec fn dec_linear_wide(buf: Seq<u8>, pos: int, sectors: int, table: Seq<FloatTrack>) -> Decoded<(Seq<u8>, int)> {
    if !avail(buf, pos, 19) { None } else {
        Some(Ok((render_linear_wide(buf[pos], le16(buf, pos + 1), as_i64(le64(buf, pos + 3)), as_i64(le64(buf, pos + 11)), sectors), pos + 19)))
    }
}

pub open spec fn dec_xor_mask(buf: Seq<u8>, pos: int, sectors: int, table: Seq<FloatTrack>) -> Decoded<(Seq<u8>, int)> {
    if !avail(buf, pos, 2) { None }
    else if buf[pos + 1] == 0 {
        if !avail(buf, pos + 2, 1) { None } else {
            Some(Ok((xor_all(render_const(buf[pos + 2], sectors), buf[pos]), pos + 3)))
        }
    } else if buf[pos + 1] == 1 {
        if !avail(buf, pos + 2, 4) { None } else {
            Some(Ok((xor_all(render_linear(sle16(buf, pos + 2), sle16(buf, pos + 4), sectors), buf[pos]), pos + 6)))
        }
    } else {
        Some(Err(DecodeError::UnsupportedXorInner(buf[pos + 1])))
    }
}

pub open spec fn dec_sparse(buf: Seq<u8>, pos: int, sectors: int, table: Seq<FloatTrack>) -> Decoded<(Seq<u8>, int)> {
    if !avail(buf, pos, 3) || !avail(buf, pos + 3, 3 * le16(buf, pos + 1)) { None } else {
        let n = le16(buf, pos + 1);
        Some(Ok((render_sparse(buf[pos], sparse_entries_at(buf, pos + 3, n), sectors), pos + 3 + 3 * n)))
    }
}

pub open spec fn dec_piecewise_linear(buf: Seq<u8>, pos: int, sectors: int, table: Seq<FloatTrack>) -> Decoded<(Seq<u8>, int)> {
    if !avail(buf, pos, 1) || !avail(buf, pos + 1, 6 * buf[pos]) { None } else {
        let n = buf[pos] as int;
        match render_piecewise(segments_at(buf, pos + 1, n), sectors) {
            None => None,
            Some(t) => Some(Ok((t, pos + 1 + 6 * n))),
        }
    }
}

pub open spec fn dec_mirror(buf: Seq<u8>, pos: int, sectors: int, table: Seq<FloatTrack>) -> Decoded<(Seq<u8>, int)> {
    if !avail(buf, pos, sectors / 2) { None } else {
        Some(Ok((render_mirror(buf.subrange(pos, pos + sectors / 2)), pos + sectors / 2)))
    }
}

pub open spec fn dec_interleaved_linear(buf: Seq<u8>, pos: int, sectors: int, table: Seq<FloatTrack>) -> Decoded<(Seq<u8>, int)> {
    if !avail(buf, pos, 10) { None } else {
        Some(Ok((render_interleaved(le16(buf, pos), sle16(buf, pos + 2), sle16(buf, pos + 4),
            sle16(buf, pos + 6), sle16(buf, pos + 8), sectors), pos + 10)))
    }
}

pub open spec fn dec_delta_rle(buf: Seq<u8>, pos: int, sectors: int, table: Seq<FloatTrack>) -> Decoded<(Seq<u8>, int)> {
    if !avail(buf, pos, 3) || !avail(buf, pos + 3, 2 * le16(buf, pos + 1)) { None } else {
        let n = le16(buf, pos + 1);
        Some(Ok((render_delta_rle(buf[pos], delta_rle_runs_at(buf, pos + 3, n), sectors), pos + 3 + 2 * n)))
    }
}

pub open spec fn dec_bit_packed(buf: Seq<u8>, pos: int, sectors: int, table: Seq<FloatTrack>) -> Decoded<(Seq<u8>, int)> {
    if !avail(buf, pos, 1) || !avail(buf, pos + 1, packed_len(sectors, buf[pos] as int)) { None } else {
        let n = packed_len(sectors, buf[pos] as int);
        Some(Ok((render_bit_packed(buf[pos], buf.subrange(pos + 1, pos + 1 + n), sectors), pos + 1 + n)))
    }
}

pub open spec fn dec_diff_table(buf: Seq<u8>, pos: int, sectors: int, table: Seq<FloatTrack>) -> Decoded<(Seq<u8>, int)> {
    if !avail(buf, pos, 1) || !avail(buf, pos + 1, buf[pos] + 5) { None } else {
        let order = buf[pos];
        let init = buf.subrange(pos + 1, pos + 2 + order);
        match render_diff_table(order, init, as_i32(le32(buf, pos + 2 + order)) as i32, sectors) {
            None => None,
            Some(t) => Some(Ok((t, pos + 6 + order))),
        }
    }
}

pub open spec fn dec_mod_arith(buf: Seq<u8>, pos: int, sectors: int, table: Seq<FloatTrack>) -> Decoded<(Seq<u8>, int)> {
    if !avail(buf, pos, 6) || (le16(buf, pos + 4) == 0 && sectors > 0) { None } else {
        Some(Ok((render_mod_arith(le16(buf, pos), le16(buf, pos + 2), le16(buf, pos + 4), sectors), pos + 6)))
    }
}

pub open spec fn dec_fibonacci(buf: Seq<u8>, pos: int, sectors: int, table: Seq<FloatTrack>) -> Decoded<(Seq<u8>, int)> {
    if !avail(buf, pos, 4) { None } else {
        match render_fibonacci(buf[pos], buf[pos + 1], buf[pos + 2], buf[pos + 3], sectors) {
            None => None,
            Some(t) => Some(Ok((t, pos + 4))),
        }
    }
}

pub open spec fn dec_delta_wide(buf: Seq<u8>, pos: int, sectors: int, table: Seq<FloatTrack>) -> Decoded<(Seq<u8>, int)> {
    if !avail(buf, pos, 6) || wide_count(buf[pos], sectors) == 0 { None } else {
        let width = buf[pos];
        let dw = buf[pos + 1];
        let count = wide_count(width, sectors);
        let nbytes = if dw == 1 { count - 1 } else { 2 * (count - 1) };
        if !avail(buf, pos + 6, nbytes) || pos + 6 + (count - 1) * dw > usize::MAX { None } else {
            Some(Ok((render_delta_wide(width, dw, le32(buf, pos + 2) as u32,
                buf.subrange(pos + 6, pos + 6 + nbytes), sectors), pos + 6 + (count - 1) * dw)))
        }
    }
}

/// Payload of a floating-point pattern: looked up in the table.
pub open spec fn dec_float(buf: Seq<u8>, pos: int, p: PatternType, sectors: int, table: Seq<FloatTrack>) -> Decoded<(Seq<u8>, int)> {
    // Periodic, Poly, LinearF64, DeltaF64, Exponential
    match float_payload_len(buf, pos, p) {
        None => None,
        Some(n) => if !avail(buf, pos, n) { None } else {
            match spec_float_lookup(table, spec_tag(p), buf.subrange(pos, pos + n), sectors) {
                Some(t) => Some(Ok((t, pos + n))),
                None => Some(Err(DecodeError::FloatTrackNotRendered(spec_tag(p), pos as usize, n as usize, sectors as usize))),
            }
        },
    }
}

/// Decode the payload of pattern `p` at `pos` into a track of `sectors` bytes.
pub open spec fn spec_decode_payload(buf: Seq<u8>, pos: int, p: PatternType, sectors: int, table: Seq<FloatTrack>) -> Decoded<(Seq<u8>, int)> {
    match p {
        PatternType::Const => dec_const(buf, pos, sectors, table),
        PatternType::Linear => dec_linear(buf, pos, sectors, table),
        PatternType::Rle => dec_rle(buf, pos, sectors, table),
        PatternType::Repeat => dec_repeat(buf, pos, sectors, table),
        PatternType::Delta => dec_delta(buf, pos, sectors, table),
        PatternType::Raw => dec_raw(buf, pos, sectors, table),
        PatternType::RawCompressed => dec_raw_compressed(buf, pos, sectors, table),
        PatternType::LinearWide => dec_linear_wide(buf, pos, sectors, table),
        PatternType::XorMask => dec_xor_mask(buf, pos, sectors, table),
        PatternType::Sparse => dec_sparse(buf, pos, sectors, table),
        PatternType::PiecewiseLinear => dec_piecewise_linear(buf, pos, sectors, table),
        PatternType::Mirror => dec_mirror(buf, pos, sectors, table),
        PatternType::InterleavedLinear => dec_interleaved_linear(buf, pos, sectors, table),
        PatternType::DeltaRle => dec_delta_rle(buf, pos, sectors, table),
        PatternType::BitPacked => dec_bit_packed(buf, pos, sectors, table),
        PatternType::DiffTable => dec_diff_table(buf, pos, sectors, table),
        PatternType::ModArith => dec_mod_arith(buf, pos, sectors, table),
        PatternType::Fibonacci => dec_fibonacci(buf, pos, sectors, table),
        PatternType::DeltaWide => dec_delta_wide(buf, pos, sectors, table),
        _ => dec_float(buf, pos, p, sectors, table),
    }
}

/// Decode the track entry at `offset`: `(track index, bytes, next offset)`.
pub open spec fn spec_decode_track(buf: Seq<u8>, offset: int, sectors: int, table: Seq<FloatTrack>) -> Decoded<(u16, Seq<u8>, int)> {
    if offset + 3 > buf.len() {
        Some(Err(DecodeError::TruncatedTrackHeader))
    } else {
        match spec_from_u8(buf[offset + 2]) {
            None => Some(Err(DecodeError::UnknownTag(buf[offset + 2]))),
            Some(p) => match spec_decode_payload(buf, offset + 3, p, sectors, table) {
                None => None,
                Some(Err(e)) => Some(Err(e)),
                Some(Ok((t, next))) => Some(Ok((le16(buf, offset) as u16, t, next))),
            },
        }
    }
}


fn to_i16(u: u16) -> (r: i16)
    ensures r as int == as_i16(u as int),
{
    if u < 32768 { u as i16 } else { (u as i32 - 65536) as i16 }
}

fn to_i8(b: u8) -> (r: i8)
    ensures r == byte_i8(b), r as int == as_i8(b),
{
    if b < 128 { b as i8 } else { (b as i16 - 256) as i8 }
}

fn to_i32(u: u32) -> (r: i32)
    ensures r as int == as_i32(u as int),
{
    if u < 0x8000_0000 { u as i32 } else { (u as i64 - 0x1_0000_0000) as i32 }
}

fn to_i64(u: u64) -> (r: i64)
    ensures r as int == as_i64(u as int),
{
    if u < 0x8000_0000_0000_0000 { u as i64 } else { (u as i128 - 0x1_0000_0000_0000_0000) as i64 }
}

fn read_i16(buf: &[u8], pos: usize) -> (r: i16)
    requires pos + 2 <= buf.len(),
    ensures r as int == sle16(buf@, pos as int),
{
    to_i16(read_u16(buf, pos))
}

fn read_rle_runs(buf: &[u8], pos: usize, n: usize) -> (v: Vec<(u8, u8)>)
    requires pos + 2 * n <= buf.len(),
    ensures v@ == rle_runs_at(buf@, pos as int, n as int),
{
    let mut v: Vec<(u8, u8)> = Vec::new();
    let mut k: usize = 0;
    while k < n
        invariant k <= n, pos + 2 * n <= buf.len(),
            v@ =~= rle_runs_at(buf@, pos as int, k as int),
        decreases n - k,
    {
        v.push((buf[pos + 2 * k], buf[pos + 2 * k + 1]));
        k += 1;
    }
    v
}

fn read_sparse_entries(buf: &[u8], pos: usize, n: usize) -> (v: Vec<(u16, u8)>)
    requires pos + 3 * n <= buf.len(),
    ensures v@ == sparse_entries_at(buf@, pos as int, n as int),
{
    let mut v: Vec<(u16, u8)> = Vec::new();
    let mut k: usize = 0;
    while k < n
        invariant k <= n, pos + 3 * n <= buf.len(),
            v@ =~= sparse_entries_at(buf@, pos as int, k as int),
        decreases n - k,
    {
        v.push((read_u16(buf, pos + 3 * k), buf[pos + 3 * k + 2]));
        k += 1;
    }
    v
}

fn read_segments(buf: &[u8], pos: usize, n: usize) -> (v: Vec<(u16, i16, i16)>)
    requires pos + 6 * n <= buf.len(),
    ensures v@ == segments_at(buf@, pos as int, n as int),
{
    let mut v: Vec<(u16, i16, i16)> = Vec::new();
    let mut k: usize = 0;
    while k < n
        invariant k <= n, pos + 6 * n <= buf.len(),
            v@ =~= segments_at(buf@, pos as int, k as int),
        decreases n - k,
    {
        v.push((read_u16(buf, pos + 6 * k), read_i16(buf, pos + 6 * k + 2), read_i16(buf, pos + 6 * k + 4)));
        k += 1;
    }
    v
}

fn read_delta_rle_runs(buf: &[u8], pos: usize, n: usize) -> (v: Vec<(i8, u8)>)
    requires pos + 2 * n <= buf.len(),
    ensures v@ == delta_rle_runs_at(buf@, pos as int, n as int),
{
    let mut v: Vec<(i8, u8)> = Vec::new();
    let mut k: usize = 0;
    while k < n
        invariant k <= n, pos + 2 * n <= buf.len(),
            v@ =~= delta_rle_runs_at(buf@, pos as int, k as int),
        decreases n - k,
    {
        v.push((to_i8(buf[pos + 2 * k]), buf[pos + 2 * k + 1]));
        k += 1;
    }
    v
}

fn read_deltas(buf: &[u8], pos: usize, n: usize) -> (v: Vec<i8>)
    requires pos + n <= buf.len(),
    ensures v@ == deltas_at(buf@, pos as int, n as int),
{
    let mut v: Vec<i8> = Vec::new();
    let mut k: usize = 0;
    while k < n
        invariant k <= n, pos + n <= buf.len(),
            v@ =~= deltas_at(buf@, pos as int, k as int),
        decreases n - k,
    {
        v.push(to_i8(buf[pos + k]));
        k += 1;
    }
    v
}

/// Decode the payload of pattern `p` at `pos` into a track of `sectors` bytes.
pub fn decode_payload(buf: &[u8], pos: usize, p: PatternType, sectors: usize, table: &FloatTable)
    -> (r: Result<(Vec<u8>, usize), DecodeError>)
    requires
        spec_decode_payload(buf@, pos as int, p, sectors as int, table.entries@) is Some,
        sectors <= 65535,
    ensures
        match r {
            Ok((t, next)) => spec_decode_payload(buf@, pos as int, p, sectors as int, table.entries@)
                == Some(Ok::<(Seq<u8>, int), DecodeError>((t@, next as int))),
            Err(e) => spec_decode_payload(buf@, pos as int, p, sectors as int, table.entries@)
                == Some(Err::<(Seq<u8>, int), DecodeError>(e)),
        },
{
    match p {
        PatternType::Const => Ok((crate::bytes::filled(buf[pos], sectors), pos + 1)),
        PatternType::Linear => {
            proof { assert(avail(buf@, pos as int, 4)); assert(pos + 4 <= buf.len()); }
            let start = read_i16(buf, pos);
            let step = read_i16(buf, pos + 2);
            Ok((crate::render::linear_track(start, step, sectors), pos + 4))
        }
        PatternType::Rle => {
            let n = read_u16(buf, pos) as usize;
            let runs = read_rle_runs(buf, pos + 2, n);
            Ok((crate::render::rle_track(&runs, sectors), pos + 2 + 2 * n))
        }
        PatternType::Repeat => {
            let n = read_u16(buf, pos) as usize;
            if n == 0 {
                // sectors == 0 here: an empty track
                proof { assert(render_repeat(buf@.subrange(pos + 2, pos + 2), 0) =~= Seq::<u8>::empty()); }
                return Ok((Vec::new(), pos + 2));
            }
            let pattern = copy_range(buf, pos + 2, pos + 2 + n);
            Ok((crate::render::repeat_track(pattern.as_slice(), sectors), pos + 2 + n))
        }
        PatternType::Delta => {
            let start = read_i16(buf, pos);
            let deltas = read_deltas(buf, pos + 2, sectors - 1);
            Ok((crate::render::delta_track(start, deltas.as_slice()), pos + 1 + sectors))
        }
        PatternType::Raw => Ok((copy_range(buf, pos, pos + sectors), pos + sectors)),
        PatternType::RawCompressed => {
            let method = buf[pos];
            let n = read_u16(buf, pos + 1) as usize;
            let c = copy_range(buf, pos + 3, pos + 3 + n);
            match crate::raw::raw_decompress(c.as_slice(), method) {
                Ok(v) => Ok((v, pos + 3 + n)),
                Err(e) => Err(e),
            }
        }
        PatternType::LinearWide => {
            let width = buf[pos];
            let count = read_u16(buf, pos + 1);
            let start = to_i64(read_u64(buf, pos + 3));
            let step = to_i64(read_u64(buf, pos + 11));
            Ok((crate::render::linear_wide_track(width, count, start, step, sectors), pos + 19))
        }
        PatternType::XorMask => {
            let mask = buf[pos];
            let inner = buf[pos + 1];
            if inner == 0 {
                let t = crate::bytes::filled(buf[pos + 2], sectors);
                Ok((crate::render::xor_track(t.as_slice(), mask), pos + 3))
            } else if inner == 1 {
                let start = read_i16(buf, pos + 2);
                let step = read_i16(buf, pos + 4);
                let t = crate::render::linear_track(start, step, sectors);
                Ok((crate::render::xor_track(t.as_slice(), mask), pos + 6))
            } else {
                Err(DecodeError::UnsupportedXorInner(inner))
            }
        }
        PatternType::Sparse => {
            let fill = buf[pos];
            let n = read_u16(buf, pos + 1) as usize;
            let entries = read_sparse_entries(buf, pos + 3, n);
            Ok((crate::render::sparse_track(fill, &entries, sectors), pos + 3 + 3 * n))
        }
        PatternType::PiecewiseLinear => {
            let n = buf[pos] as usize;
            let segs = read_segments(buf, pos + 1, n);
            Ok((crate::render::piecewise_track(&segs, sectors), pos + 1 + 6 * n))
        }
        PatternType::Mirror => {
            let half = copy_range(buf, pos, pos + sectors / 2);
            Ok((crate::render::mirror_track(half.as_slice()), pos + sectors / 2))
        }
        PatternType::InterleavedLinear => {
            let count = read_u16(buf, pos);
            let sa = read_i16(buf, pos + 2);
            let pa = read_i16(buf, pos + 4);
            let sb = read_i16(buf, pos + 6);
            let pb = read_i16(buf, pos + 8);
            Ok((crate::render::interleaved_track(count, sa, pa, sb, pb, sectors), pos + 10))
        }
        PatternType::DeltaRle => {
            let start = buf[pos];
            let n = read_u16(buf, pos + 1) as usize;
            let runs = read_delta_rle_runs(buf, pos + 3, n);
            Ok((crate::render::delta_rle_track(start, &runs, sectors), pos + 3 + 2 * n))
        }
        PatternType::BitPacked => {
            let bits = buf[pos];
            proof {
                assert(sectors * bits <= 65535 * 255) by (nonlinear_arith) requires sectors <= 65535, bits <= 255;
            }
            let n = (sectors * bits as usize + 7) / 8;
            let packed = copy_range(buf, pos + 1, pos + 1 + n);
            Ok((crate::render::bit_packed_track(bits, packed.as_slice(), sectors), pos + 1 + n))
        }
        PatternType::DiffTable => {
            let order = buf[pos];
            let init = copy_range(buf, pos + 1, pos + 2 + order as usize);
            let diff = to_i32(read_u32(buf, pos + 2 + order as usize));
            Ok((crate::render::diff_table_track(order, init.as_slice(), diff, sectors), pos + 6 + order as usize))
        }
        PatternType::ModArith => {
            let a = read_u16(buf, pos);
            let b = read_u16(buf, pos + 2);
            let m = read_u16(buf, pos + 4);
            if m == 0 {
                // sectors == 0 here: an empty track
                proof { assert(render_mod_arith(a as int, b as int, 0, 0) =~= Seq::<u8>::empty()); }
                return Ok((Vec::new(), pos + 6));
            }
            Ok((crate::render::mod_arith_track(a, b, m, sectors), pos + 6))
        }
        PatternType::Fibonacci => {
            Ok((crate::render::fibonacci_track(buf[pos], buf[pos + 1], buf[pos + 2], buf[pos + 3], sectors), pos + 4))
        }
        PatternType::DeltaWide => {
            let width = buf[pos];
            let dw = buf[pos + 1];
            let start = read_u32(buf, pos + 2);
            let count: usize = if width == 4 { sectors / 4 } else { sectors / 2 };
            let nbytes: usize = if dw == 1 { count - 1 } else { 2 * (count - 1) };
            let deltas = copy_range(buf, pos + 6, pos + 6 + nbytes);
            proof {
                assert((count - 1) * (dw as int) <= 255 * 65535) by (nonlinear_arith)
                    requires count <= 65535, dw <= 255, count >= 1;
            }
            Ok((crate::render::delta_wide_track(width, dw, start, deltas.as_slice(), sectors), pos + 6 + (count - 1) * dw as usize))
        }
        _ => {
            let n: usize = match p {
                PatternType::Periodic => 4 + 18 * read_u16(buf, pos) as usize,
                PatternType::Poly => 1 + 8 * (buf[pos] as usize + 1),
                PatternType::LinearF64 => 18,
                PatternType::DeltaF64 => 10 + 4 * (read_u16(buf, pos) as usize - 1),
                _ => 10,
            };
            let payload = copy_range(buf, pos, pos + n);
            let tag = p.tag();
            match table.lookup(tag, payload.as_slice(), sectors) {
                Some(t) => Ok((t, pos + n)),
                None => Err(DecodeError::FloatTrackNotRendered(tag, pos, n, sectors)),
            }
        }
    }
}

/// Decode the track entry at `offset`: `(track index, bytes, next offset)`.
pub fn decode_track(buf: &[u8], offset: usize, sectors: usize, table: &FloatTable)
    -> (r: Result<(u16, Vec<u8>, usize), DecodeError>)
    requires
        spec_decode_track(buf@, offset as int, sectors as int, table.entries@) is Some,
        sectors <= 65535,
    ensures
        match r {
            Ok((i, t, next)) => spec_decode_track(buf@, offset as int, sectors as int, table.entries@)
                == Some(Ok::<(u16, Seq<u8>, int), DecodeError>((i, t@, next as int))),
            Err(e) => spec_decode_track(buf@, offset as int, sectors as int, table.entries@)
                == Some(Err::<(u16, Seq<u8>, int), DecodeError>(e)),
        },
{
    if offset > buf.len() || buf.len() - offset < 3 {
        return Err(DecodeError::TruncatedTrackHeader);
    }
    let idx = read_u16(buf, offset);
    let tag = buf[offset + 2];
    match PatternType::from_u8(tag) {
        None => Err(DecodeError::UnknownTag(tag)),
        Some(p) => match decode_payload(buf, offset + 3, p, sectors, table) {
            Ok((t, next)) => Ok((idx, t, next)),
            Err(e) => Err(e),
        },
    }
}


/// The signed 16-bit value at `pos`.
pub fn read_i16_pub(buf: &[u8], pos: usize) -> (r: i16)
    requires pos + 2 <= buf.len(),
    ensures r as int == sle16(buf@, pos as int),
{
    read_i16(buf, pos)
}

/// A 64-bit unsigned value read as signed.
pub fn to_i64_pub(u: u64) -> (r: i64)
    ensures r as int == as_i64(u as int),
{
    to_i64(u)
}

/// `v mod 65536` of a 64-bit value in the 16-bit signed range or above.
pub fn wrap16_of(v: i64) -> (r: u16)
    requires -32768 <= v <= 32767,
    ensures r as int == (v as int) % 65536,
{
    if v >= 0 { v as u16 } else {
        let r = (v + 65536) as u16;
        proof { vstd::arithmetic::div_mod::lemma_fundamental_div_mod_converse(v as int, 65536, -1, r as int); }
        r
    }
}

/// A linear track depends on its start only modulo 256, so a start wrapped
/// to 16 bits reconstructs the same bytes.
pub proof fn lemma_linear_wrapped_start(x: int, s16: int, step: int, n: int)
    requires x % 65536 == s16 % 65536,
    ensures render_linear(s16, step, n) == render_linear(x, step, n),
{
    assert forall|i: int| 0 <= i < n implies #[trigger] crate::render::linear_byte(s16, step, i) == crate::render::linear_byte(x, step, i) by {
        vstd::arithmetic::div_mod::lemma_mod_mod(x, 256, 256);
        lemma_mod_256_of_65536(x, s16);
        vstd::arithmetic::div_mod::lemma_add_mod_noop(x, i * step, 256);
        vstd::arithmetic::div_mod::lemma_add_mod_noop(s16, i * step, 256);
    }
    assert(render_linear(s16, step, n) =~= render_linear(x, step, n));
}

proof fn lemma_mod_256_of_65536(x: int, y: int)
    requires x % 65536 == y % 65536,
    ensures x % 256 == y % 256,
{
    vstd::arithmetic::div_mod::lemma_fundamental_div_mod(x, 65536);
    vstd::arithmetic::div_mod::lemma_fundamental_div_mod(y, 65536);
    let a = x / 65536;
    let b = y / 65536;
    let r = x % 65536;
    assert(x == 256 * (256 * a) + r) by (nonlinear_arith) requires x == 65536 * a + r;
    assert(y == 256 * (256 * b) + r) by (nonlinear_arith) requires y == 65536 * b + r;
    vstd::arithmetic::div_mod::lemma_mod_multiples_vanish(256 * a, r, 256);
    vstd::arithmetic::div_mod::lemma_mod_multiples_vanish(256 * b, r, 256);
}

} // verus!
