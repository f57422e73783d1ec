//! Writing track entries: index, tag and the parameters of each pattern in
//! the byte layout the decoder reads.
use vstd::prelude::*;
use crate::bytes::{
    le16, le32, le64, u16_bytes, u32_bytes, u64_bytes, i16_bytes, i32_bytes, i64_bytes, bits16, bits64,
    push_u16, push_u32, push_i16, push_i32, push_i64, push_u64, push_bytes, lemma_u16_bytes, lemma_u64_bytes,
};
use crate::pattern::{PatternType, TrackParams, ParamsView, FloatTrack, spec_tag, spec_from_u8, view_pattern};
use crate::render::{as_i8, as_i16};
use crate::wire::{avail, sle16, as_i64, byte_i8, spec_decode_payload};
use crate::analyzer::renders_to;

verus! {

/// The byte of a signed 8-bit value.
pub open spec fn i8_byte(v: i8) -> u8 {
    if v >= 0 { v as u8 } else { (v + 256) as u8 }
}

/// RLE runs as `value, count` byte pairs.
pub open spec fn rle_body(runs: Seq<(u8, u8)>) -> Seq<u8> {
    Seq::new((2 * runs.len()) as nat, |k: int| if k % 2 == 0 { runs[k / 2].0 } else { runs[k / 2].1 })
}

/// DELTA steps, one byte each.
pub open spec fn delta_body(d: Seq<i8>) -> Seq<u8> {
    Seq::new(d.len(), |k: int| i8_byte(d[k]))
}

/// SPARSE exceptions as `index (u16), value` triples.
pub open spec fn sparse_body(e: Seq<(u16, u8)>) -> Seq<u8> {
    Seq::new((3 * e.len()) as nat, |k: int| {
        let x = e[k / 3];
        if k % 3 == 0 { (x.0 % 256) as u8 } else if k % 3 == 1 { (x.0 / 256) as u8 } else { x.1 }
    })
}

/// Byte `r` (0 to 5) of a segment written as `start (u16), value (i16), step (i16)`.
pub open spec fn seg_byte(x: (u16, i16, i16), r: int) -> u8 {
    let w: u16 = if r < 2 { x.0 } else if r < 4 { bits16(x.1) } else { bits16(x.2) };
    if r % 2 == 0 { (w % 256) as u8 } else { (w / 256) as u8 }
}

/// PIECEWISE_LINEAR segments, six bytes each.
pub open spec fn seg_body(s: Seq<(u16, i16, i16)>) -> Seq<u8> {
    Seq::new((6 * s.len()) as nat, |k: int| seg_byte(s[k / 6], k % 6))
}

/// DELTA_RLE runs as `step, count` byte pairs.
pub open spec fn delta_rle_body(runs: Seq<(i8, u8)>) -> Seq<u8> {
    Seq::new((2 * runs.len()) as nat, |k: int| if k % 2 == 0 { i8_byte(runs[k / 2].0) } else { runs[k / 2].1 })
}

/// The parameter bytes of a track entry.
pub open spec fn spec_payload(p: ParamsView) -> Seq<u8> {
    match p {
        ParamsView::Const { value } => seq![value],
        ParamsView::Linear { start, step } => i16_bytes(start) + i16_bytes(step),
        ParamsView::Rle { runs } => u16_bytes(runs.len() as u16) + rle_body(runs),
        ParamsView::Repeat { pattern } => u16_bytes(pattern.len() as u16) + pattern,
        ParamsView::Delta { start, deltas } => i16_bytes(start) + delta_body(deltas),
        ParamsView::Raw { data } => data,
        ParamsView::RawCompressed { method, data } => seq![method] + u16_bytes(data.len() as u16) + data,
        ParamsView::LinearWide { width, count, start, step } =>
            seq![width] + u16_bytes(count) + i64_bytes(start) + i64_bytes(step),
        ParamsView::XorMask { mask, inner_tag, inner_params } => seq![mask, inner_tag] + inner_params,
        ParamsView::Sparse { fill, entries } => seq![fill] + u16_bytes(entries.len() as u16) + sparse_body(entries),
        ParamsView::PiecewiseLinear { segments } => seq![segments.len() as u8] + seg_body(segments),
        ParamsView::Mirror { half } => half,
        ParamsView::InterleavedLinear { count, start_a, step_a, start_b, step_b } =>
            u16_bytes(count) + i16_bytes(start_a) + i16_bytes(step_a) + i16_bytes(start_b) + i16_bytes(step_b),
        ParamsView::DeltaRle { start, runs } => seq![start] + u16_bytes(runs.len() as u16) + delta_rle_body(runs),
        ParamsView::BitPacked { bits, packed } => seq![bits] + packed,
        ParamsView::DiffTable { order, initial, diff } => seq![order] + initial + i32_bytes(diff),
        ParamsView::ModArith { a, b, m } => u16_bytes(a) + u16_bytes(b) + u16_bytes(m),
        ParamsView::Fibonacci { seed0, seed1, c1, c2 } => seq![seed0, seed1, c1, c2],
        ParamsView::DeltaWide { width, delta_width, start, deltas } =>
            seq![width, delta_width] + u32_bytes(start) + deltas,
        ParamsView::Float { payload, .. } => payload,
    }
}

/// A whole track entry: index, tag, parameters.
pub open spec fn spec_entry(idx: u16, p: ParamsView) -> Seq<u8> {
    u16_bytes(idx) + seq![spec_tag(view_pattern(p))] + spec_payload(p)
}

// ---------------------------------------------------------------- reading back

/// Bytes of `pl` placed at `pos` in `buf`, one by one.
pub proof fn lemma_placed(buf: Seq<u8>, pos: int, pl: Seq<u8>)
    requires 0 <= pos, pos + pl.len() <= buf.len(), buf.subrange(pos, pos + pl.len()) == pl,
    ensures forall|j: int| pos <= j < pos + pl.len() ==> #[trigger] buf[j] == pl[j - pos],
{
    assert forall|j: int| pos <= j < pos + pl.len() implies #[trigger] buf[j] == pl[j - pos] by {
        assert(buf.subrange(pos, pos + pl.len())[j - pos] == buf[j]);
    }
}

pub proof fn lemma_le16_of(v: u16)
    ensures le16(u16_bytes(v), 0) == v,
{
}

pub proof fn lemma_sle16_of(v: i16)
    ensures sle16(i16_bytes(v), 0) == v,
{
    lemma_le16_of(bits16(v));
}

pub proof fn lemma_i8_byte(v: i8)
    ensures byte_i8(i8_byte(v)) == v, as_i8(i8_byte(v)) == v,
{
}

pub proof fn lemma_sle64_of(v: i64)
    ensures as_i64(le64(i64_bytes(v), 0)) == v,
{
    let s = i64_bytes(v);
    assert(s.subrange(0, 8) =~= s);
    lemma_u64_bytes(bits64(v), s, 0);
}

/// `pl` sits at `pos` in `buf`.
pub open spec fn placed(buf: Seq<u8>, pos: int, pl: Seq<u8>) -> bool {
    0 <= pos && pos + pl.len() <= buf.len() && buf.subrange(pos, pos + pl.len()) == pl
}

/// Decoding a payload written for `p` gives back the track it renders to.
#[verifier::spinoff_prover]
#[verifier::rlimit(80)]
pub proof fn lemma_payload_decodes(p: ParamsView, n: int, table: Seq<FloatTrack>, t: Seq<u8>, buf: Seq<u8>, pos: int)
    requires renders_to(p, n, table, t), 0 <= n <= 65535, placed(buf, pos, spec_payload(p)),
    ensures spec_decode_payload(buf, pos, view_pattern(p), n, table)
        == Some(Ok::<(Seq<u8>, int), crate::pattern::DecodeError>((t, pos + spec_payload(p).len()))),
{
    match p {
        ParamsView::Const { value } => lemma_dec_small(p, n, table, t, buf, pos),
        ParamsView::Linear { start, step } => lemma_dec_linear(start, step, n, table, t, buf, pos),
        ParamsView::Rle { runs } => lemma_dec_rle(runs, n, table, t, buf, pos),
        ParamsView::Repeat { pattern } => lemma_dec_repeat(pattern, n, table, t, buf, pos),
        ParamsView::Delta { start, deltas } => lemma_dec_delta(start, deltas, n, table, t, buf, pos),
        ParamsView::Raw { data } => lemma_dec_small(p, n, table, t, buf, pos),
        ParamsView::LinearWide { width, count, start, step } => lemma_dec_linear_wide(width, count, start, step, n, table, t, buf, pos),
        ParamsView::XorMask { mask, inner_tag, inner_params } => lemma_dec_xor(mask, inner_tag, inner_params, n, table, t, buf, pos),
        ParamsView::Sparse { fill, entries } => lemma_dec_sparse(fill, entries, n, table, t, buf, pos),
        ParamsView::PiecewiseLinear { segments } => lemma_dec_piecewise(segments, n, table, t, buf, pos),
        ParamsView::Mirror { half } => lemma_dec_small(p, n, table, t, buf, pos),
        ParamsView::InterleavedLinear { count, start_a, step_a, start_b, step_b } =>
            lemma_dec_interleaved(count, start_a, step_a, start_b, step_b, n, table, t, buf, pos),
        ParamsView::DeltaRle { start, runs } => lemma_dec_delta_rle(start, runs, n, table, t, buf, pos),
        ParamsView::BitPacked { bits, packed } => lemma_dec_small(p, n, table, t, buf, pos),
        ParamsView::Float { pattern, payload } => lemma_dec_float(pattern, payload, n, table, t, buf, pos),
        ParamsView::RawCompressed { method, data } => lemma_dec_raw_compressed(method, data, n, table, t, buf, pos),
        _ => {}
    }
}

proof fn lemma_dec_small(p: ParamsView, n: int, table: Seq<FloatTrack>, t: Seq<u8>, buf: Seq<u8>, pos: int)
    requires
        renders_to(p, n, table, t), placed(buf, pos, spec_payload(p)),
        p is Const || p is Raw || p is Mirror || p is BitPacked,
    ensures spec_decode_payload(buf, pos, view_pattern(p), n, table)
        == Some(Ok::<(Seq<u8>, int), crate::pattern::DecodeError>((t, pos + spec_payload(p).len()))),
{
    lemma_placed(buf, pos, spec_payload(p));
    match p {
        ParamsView::Raw { data } => { assert(buf.subrange(pos, pos + n) =~= data); }
        ParamsView::Mirror { half } => { assert(buf.subrange(pos, pos + n / 2) =~= half); }
        ParamsView::BitPacked { bits, packed } => { assert(buf.subrange(pos + 1, pos + 1 + packed.len()) =~= packed); }
        _ => {}
    }
}

proof fn lemma_dec_raw_compressed(method: u8, data: Seq<u8>, n: int, table: Seq<FloatTrack>, t: Seq<u8>,
    buf: Seq<u8>, pos: int)
    requires
        renders_to(ParamsView::RawCompressed { method, data }, n, table, t),
        placed(buf, pos, spec_payload(ParamsView::RawCompressed { method, data })),
    ensures crate::wire::dec_raw_compressed(buf, pos, n, table)
        == Some(Ok::<(Seq<u8>, int), crate::pattern::DecodeError>((t, pos + 3 + data.len()))),
{
    let pl = spec_payload(ParamsView::RawCompressed { method, data });
    lemma_placed(buf, pos, pl);
    lemma_le16_of(data.len() as u16);
    assert(le16(buf, pos + 1) == le16(u16_bytes(data.len() as u16), 0));
    assert(buf.subrange(pos + 3, pos + 3 + data.len()) =~= data);
}

proof fn lemma_dec_linear(start: i16, step: i16, n: int, table: Seq<FloatTrack>, t: Seq<u8>, buf: Seq<u8>, pos: int)
    requires
        renders_to(ParamsView::Linear { start, step }, n, table, t),
        placed(buf, pos, spec_payload(ParamsView::Linear { start, step })),
    ensures crate::wire::dec_linear(buf, pos, n, table) == Some(Ok::<(Seq<u8>, int), crate::pattern::DecodeError>((t, pos + 4))),
{
    lemma_placed(buf, pos, spec_payload(ParamsView::Linear { start, step }));
    lemma_sle16_of(start);
    lemma_sle16_of(step);
    assert(sle16(buf, pos) == sle16(i16_bytes(start), 0));
    assert(sle16(buf, pos + 2) == sle16(i16_bytes(step), 0));
}

proof fn lemma_dec_repeat(pattern: Seq<u8>, n: int, table: Seq<FloatTrack>, t: Seq<u8>, buf: Seq<u8>, pos: int)
    requires
        renders_to(ParamsView::Repeat { pattern }, n, table, t),
        placed(buf, pos, spec_payload(ParamsView::Repeat { pattern })),
    ensures crate::wire::dec_repeat(buf, pos, n, table)
        == Some(Ok::<(Seq<u8>, int), crate::pattern::DecodeError>((t, pos + 2 + pattern.len()))),
{
    lemma_placed(buf, pos, spec_payload(ParamsView::Repeat { pattern }));
    lemma_le16_of(pattern.len() as u16);
    assert(le16(buf, pos) == pattern.len());
    assert(buf.subrange(pos + 2, pos + 2 + pattern.len()) =~= pattern);
}

proof fn lemma_dec_delta(start: i16, deltas: Seq<i8>, n: int, table: Seq<FloatTrack>, t: Seq<u8>, buf: Seq<u8>, pos: int)
    requires
        renders_to(ParamsView::Delta { start, deltas }, n, table, t),
        placed(buf, pos, spec_payload(ParamsView::Delta { start, deltas })),
    ensures crate::wire::dec_delta(buf, pos, n, table)
        == Some(Ok::<(Seq<u8>, int), crate::pattern::DecodeError>((t, pos + 2 + deltas.len()))),
{
    lemma_placed(buf, pos, spec_payload(ParamsView::Delta { start, deltas }));
    lemma_sle16_of(start);
    assert(sle16(buf, pos) == sle16(i16_bytes(start), 0));
    assert(crate::wire::deltas_at(buf, pos + 2, n - 1) =~= deltas) by {
        assert forall|k: int| 0 <= k < n - 1 implies #[trigger] byte_i8(buf[pos + 2 + k]) == deltas[k] by {
            lemma_i8_byte(deltas[k]);
        }
    }
}

proof fn lemma_dec_xor(mask: u8, inner_tag: u8, inner_params: Seq<u8>, n: int, table: Seq<FloatTrack>, t: Seq<u8>,
    buf: Seq<u8>, pos: int)
    requires
        renders_to(ParamsView::XorMask { mask, inner_tag, inner_params }, n, table, t),
        placed(buf, pos, spec_payload(ParamsView::XorMask { mask, inner_tag, inner_params })),
    ensures crate::wire::dec_xor_mask(buf, pos, n, table)
        == Some(Ok::<(Seq<u8>, int), crate::pattern::DecodeError>((t, pos + 2 + inner_params.len()))),
{
    lemma_placed(buf, pos, spec_payload(ParamsView::XorMask { mask, inner_tag, inner_params }));
    if inner_tag == 1 {
        assert(sle16(buf, pos + 2) == sle16(inner_params, 0));
        assert(sle16(buf, pos + 4) == sle16(inner_params, 2));
    }
}

proof fn lemma_dec_interleaved(count: u16, start_a: i16, step_a: i16, start_b: i16, step_b: i16, n: int,
    table: Seq<FloatTrack>, t: Seq<u8>, buf: Seq<u8>, pos: int)
    requires
        renders_to(ParamsView::InterleavedLinear { count, start_a, step_a, start_b, step_b }, n, table, t),
        placed(buf, pos, spec_payload(ParamsView::InterleavedLinear { count, start_a, step_a, start_b, step_b })),
    ensures crate::wire::dec_interleaved_linear(buf, pos, n, table)
        == Some(Ok::<(Seq<u8>, int), crate::pattern::DecodeError>((t, pos + 10))),
{
    lemma_placed(buf, pos, spec_payload(ParamsView::InterleavedLinear { count, start_a, step_a, start_b, step_b }));
    lemma_le16_of(count);
    lemma_sle16_of(start_a);
    lemma_sle16_of(step_a);
    lemma_sle16_of(start_b);
    lemma_sle16_of(step_b);
    assert(le16(buf, pos) == le16(u16_bytes(count), 0));
    assert(sle16(buf, pos + 2) == sle16(i16_bytes(start_a), 0));
    assert(sle16(buf, pos + 4) == sle16(i16_bytes(step_a), 0));
    assert(sle16(buf, pos + 6) == sle16(i16_bytes(start_b), 0));
    assert(sle16(buf, pos + 8) == sle16(i16_bytes(step_b), 0));
}

proof fn lemma_dec_float(pattern: PatternType, payload: Seq<u8>, n: int, table: Seq<FloatTrack>, t: Seq<u8>,
    buf: Seq<u8>, pos: int)
    requires
        renders_to(ParamsView::Float { pattern, payload }, n, table, t),
        placed(buf, pos, payload),
    ensures spec_decode_payload(buf, pos, pattern, n, table)
        == Some(Ok::<(Seq<u8>, int), crate::pattern::DecodeError>((t, pos + payload.len()))),
{
    lemma_placed(buf, pos, payload);
    assert(crate::wire::float_payload_len(buf, pos, pattern) == crate::wire::float_payload_len(payload, 0, pattern));
    assert(buf.subrange(pos, pos + payload.len()) =~= payload);
}

proof fn lemma_read_rle(runs: Seq<(u8, u8)>, buf: Seq<u8>, pos: int)
    requires runs.len() <= 65535, placed(buf, pos, u16_bytes(runs.len() as u16) + rle_body(runs)),
    ensures
        le16(buf, pos) == runs.len(),
        crate::wire::rle_runs_at(buf, pos + 2, runs.len() as int) == runs,
{
    let pl = u16_bytes(runs.len() as u16) + rle_body(runs);
    lemma_placed(buf, pos, pl);
    lemma_le16_of(runs.len() as u16);
    assert(le16(buf, pos) == le16(pl, 0));
    let m = runs.len() as int;
    assert forall|k: int| 0 <= k < m implies #[trigger] crate::wire::rle_runs_at(buf, pos + 2, m)[k] == runs[k] by {
        assert(buf[pos + 2 + 2 * k] == pl[2 + 2 * k]);
        assert(buf[pos + 2 + 2 * k + 1] == pl[2 + 2 * k + 1]);
        assert((2 * k) / 2 == k && (2 * k) % 2 == 0);
        assert((2 * k + 1) / 2 == k && (2 * k + 1) % 2 == 1);
    }
    assert(crate::wire::rle_runs_at(buf, pos + 2, m) =~= runs);
}

proof fn lemma_dec_rle(runs: Seq<(u8, u8)>, n: int, table: Seq<FloatTrack>, t: Seq<u8>, buf: Seq<u8>, pos: int)
    requires
        renders_to(ParamsView::Rle { runs }, n, table, t),
        placed(buf, pos, spec_payload(ParamsView::Rle { runs })),
    ensures crate::wire::dec_rle(buf, pos, n, table)
        == Some(Ok::<(Seq<u8>, int), crate::pattern::DecodeError>((t, pos + 2 + 2 * runs.len()))),
{
    lemma_read_rle(runs, buf, pos);
}

proof fn lemma_read_linear_wide(width: u8, count: u16, start: i64, step: i64, buf: Seq<u8>, pos: int)
    requires placed(buf, pos, seq![width] + u16_bytes(count) + i64_bytes(start) + i64_bytes(step)),
    ensures
        buf[pos] == width, le16(buf, pos + 1) == count,
        as_i64(le64(buf, pos + 3)) == start, as_i64(le64(buf, pos + 11)) == step,
{
    let pl = seq![width] + u16_bytes(count) + i64_bytes(start) + i64_bytes(step);
    lemma_placed(buf, pos, pl);
    lemma_le16_of(count);
    assert(le16(buf, pos + 1) == le16(u16_bytes(count), 0));
    assert(buf.subrange(pos + 3, pos + 11) =~= i64_bytes(start));
    assert(buf.subrange(pos + 11, pos + 19) =~= i64_bytes(step));
    lemma_u64_bytes(bits64(start), buf, pos + 3);
    lemma_u64_bytes(bits64(step), buf, pos + 11);
    lemma_sle64_of(start);
    lemma_sle64_of(step);
    let s1 = i64_bytes(start);
    assert(s1.subrange(0, 8) =~= s1);
    lemma_u64_bytes(bits64(start), s1, 0);
    let s2 = i64_bytes(step);
    assert(s2.subrange(0, 8) =~= s2);
    lemma_u64_bytes(bits64(step), s2, 0);
}

proof fn lemma_dec_linear_wide(width: u8, count: u16, start: i64, step: i64, n: int, table: Seq<FloatTrack>, t: Seq<u8>,
    buf: Seq<u8>, pos: int)
    requires
        renders_to(ParamsView::LinearWide { width, count, start, step }, n, table, t),
        placed(buf, pos, spec_payload(ParamsView::LinearWide { width, count, start, step })),
    ensures crate::wire::dec_linear_wide(buf, pos, n, table)
        == Some(Ok::<(Seq<u8>, int), crate::pattern::DecodeError>((t, pos + 19))),
{
    lemma_read_linear_wide(width, count, start, step, buf, pos);
}

proof fn lemma_read_sparse(fill: u8, entries: Seq<(u16, u8)>, buf: Seq<u8>, pos: int)
    requires entries.len() <= 65535, placed(buf, pos, seq![fill] + u16_bytes(entries.len() as u16) + sparse_body(entries)),
    ensures
        buf[pos] == fill, le16(buf, pos + 1) == entries.len(),
        crate::wire::sparse_entries_at(buf, pos + 3, entries.len() as int) == entries,
{
    let pl = seq![fill] + u16_bytes(entries.len() as u16) + sparse_body(entries);
    lemma_placed(buf, pos, pl);
    lemma_le16_of(entries.len() as u16);
    assert(le16(buf, pos + 1) == le16(u16_bytes(entries.len() as u16), 0));
    let m = entries.len() as int;
    assert forall|k: int| 0 <= k < m implies #[trigger] crate::wire::sparse_entries_at(buf, pos + 3, m)[k] == entries[k] by {
        assert(buf[pos + 3 + 3 * k] == pl[3 + 3 * k]);
        assert(buf[pos + 3 + 3 * k + 1] == pl[3 + 3 * k + 1]);
        assert(buf[pos + 3 + 3 * k + 2] == pl[3 + 3 * k + 2]);
        assert((3 * k) / 3 == k && (3 * k) % 3 == 0);
        assert((3 * k + 1) / 3 == k && (3 * k + 1) % 3 == 1);
        assert((3 * k + 2) / 3 == k && (3 * k + 2) % 3 == 2);
        let x = entries[k].0;
        assert(le16(buf, pos + 3 + 3 * k) == (x % 256) + 256 * (x / 256));
    }
    assert(crate::wire::sparse_entries_at(buf, pos + 3, m) =~= entries);
}

proof fn lemma_dec_sparse(fill: u8, entries: Seq<(u16, u8)>, n: int, table: Seq<FloatTrack>, t: Seq<u8>, buf: Seq<u8>, pos: int)
    requires
        renders_to(ParamsView::Sparse { fill, entries }, n, table, t),
        placed(buf, pos, spec_payload(ParamsView::Sparse { fill, entries })),
    ensures crate::wire::dec_sparse(buf, pos, n, table)
        == Some(Ok::<(Seq<u8>, int), crate::pattern::DecodeError>((t, pos + 3 + 3 * entries.len()))),
{
    lemma_read_sparse(fill, entries, buf, pos);
}

proof fn lemma_seg_read(buf: Seq<u8>, b: int, x: (u16, i16, i16))
    requires
        0 <= b, b + 6 <= buf.len(),
        buf[b] == seg_byte(x, 0), buf[b + 1] == seg_byte(x, 1), buf[b + 2] == seg_byte(x, 2),
        buf[b + 3] == seg_byte(x, 3), buf[b + 4] == seg_byte(x, 4), buf[b + 5] == seg_byte(x, 5),
    ensures le16(buf, b) == x.0, sle16(buf, b + 2) == x.1, sle16(buf, b + 4) == x.2,
{
    lemma_sle16_of(x.1);
    lemma_sle16_of(x.2);
    assert(sle16(buf, b + 2) == sle16(i16_bytes(x.1), 0));
    assert(sle16(buf, b + 4) == sle16(i16_bytes(x.2), 0));
}

proof fn lemma_read_segment(segs: Seq<(u16, i16, i16)>, buf: Seq<u8>, pos: int, k: int)
    requires
        segs.len() <= 255, 0 <= k < segs.len(),
        placed(buf, pos, seq![segs.len() as u8] + seg_body(segs)),
    ensures crate::wire::segments_at(buf, pos + 1, segs.len() as int)[k] == segs[k],
{
    let pl = seq![segs.len() as u8] + seg_body(segs);
    let body = seg_body(segs);
    lemma_placed(buf, pos, pl);
    let x = segs[k];
    let b = pos + 1 + 6 * k;
    assert forall|r: int| 0 <= r < 6 implies #[trigger] buf[b + r] == seg_byte(x, r) by {
        assert(buf[b + r] == pl[1 + 6 * k + r]);
        assert(pl[1 + 6 * k + r] == body[6 * k + r]);
        assert((6 * k + r) / 6 == k && (6 * k + r) % 6 == r);
    }
    assert(buf[b + 0] == seg_byte(x, 0));
    assert(buf[b + 1] == seg_byte(x, 1));
    assert(buf[b + 2] == seg_byte(x, 2));
    assert(buf[b + 3] == seg_byte(x, 3));
    assert(buf[b + 4] == seg_byte(x, 4));
    assert(buf[b + 5] == seg_byte(x, 5));
    lemma_seg_read(buf, b, x);
}

proof fn lemma_dec_piecewise(segs: Seq<(u16, i16, i16)>, n: int, table: Seq<FloatTrack>, t: Seq<u8>, buf: Seq<u8>, pos: int)
    requires
        renders_to(ParamsView::PiecewiseLinear { segments: segs }, n, table, t),
        placed(buf, pos, spec_payload(ParamsView::PiecewiseLinear { segments: segs })),
    ensures crate::wire::dec_piecewise_linear(buf, pos, n, table)
        == Some(Ok::<(Seq<u8>, int), crate::pattern::DecodeError>((t, pos + 1 + 6 * segs.len()))),
{
    let pl = seq![segs.len() as u8] + seg_body(segs);
    lemma_placed(buf, pos, pl);
    let m = segs.len() as int;
    assert(buf[pos] == m);
    assert forall|k: int| 0 <= k < m implies #[trigger] crate::wire::segments_at(buf, pos + 1, m)[k] == segs[k] by {
        lemma_read_segment(segs, buf, pos, k);
    }
    assert(crate::wire::segments_at(buf, pos + 1, m) =~= segs);
}

proof fn lemma_read_delta_rle(start: u8, runs: Seq<(i8, u8)>, buf: Seq<u8>, pos: int)
    requires runs.len() <= 65535, placed(buf, pos, seq![start] + u16_bytes(runs.len() as u16) + delta_rle_body(runs)),
    ensures
        buf[pos] == start, le16(buf, pos + 1) == runs.len(),
        crate::wire::delta_rle_runs_at(buf, pos + 3, runs.len() as int) == runs,
{
    let pl = seq![start] + u16_bytes(runs.len() as u16) + delta_rle_body(runs);
    lemma_placed(buf, pos, pl);
    lemma_le16_of(runs.len() as u16);
    assert(le16(buf, pos + 1) == le16(u16_bytes(runs.len() as u16), 0));
    let m = runs.len() as int;
    assert forall|k: int| 0 <= k < m implies #[trigger] crate::wire::delta_rle_runs_at(buf, pos + 3, m)[k] == runs[k] by {
        assert(buf[pos + 3 + 2 * k] == pl[3 + 2 * k]);
        assert(buf[pos + 3 + 2 * k + 1] == pl[3 + 2 * k + 1]);
        assert((2 * k) / 2 == k && (2 * k) % 2 == 0);
        assert((2 * k + 1) / 2 == k && (2 * k + 1) % 2 == 1);
        lemma_i8_byte(runs[k].0);
    }
    assert(crate::wire::delta_rle_runs_at(buf, pos + 3, m) =~= runs);
}

proof fn lemma_dec_delta_rle(start: u8, runs: Seq<(i8, u8)>, n: int, table: Seq<FloatTrack>, t: Seq<u8>, buf: Seq<u8>, pos: int)
    requires
        renders_to(ParamsView::DeltaRle { start, runs }, n, table, t),
        placed(buf, pos, spec_payload(ParamsView::DeltaRle { start, runs })),
    ensures crate::wire::dec_delta_rle(buf, pos, n, table)
        == Some(Ok::<(Seq<u8>, int), crate::pattern::DecodeError>((t, pos + 3 + 2 * runs.len()))),
{
    lemma_read_delta_rle(start, runs, buf, pos);
}

/// A whole entry written for `p` decodes back to the track `p` renders to.
pub proof fn lemma_entry_decodes(idx: u16, p: ParamsView, n: int, table: Seq<FloatTrack>, t: Seq<u8>, buf: Seq<u8>, off: int)
    requires renders_to(p, n, table, t), 0 <= n <= 65535, placed(buf, off, spec_entry(idx, p)),
    ensures crate::wire::spec_decode_track(buf, off, n, table)
        == Some(Ok::<(u16, Seq<u8>, int), crate::pattern::DecodeError>((idx, t, off + spec_entry(idx, p).len()))),
{
    let e = spec_entry(idx, p);
    let pl = spec_payload(p);
    lemma_placed(buf, off, e);
    crate::pattern::lemma_tag_from_u8(view_pattern(p));
    assert(buf[off + 2] == spec_tag(view_pattern(p)));
    lemma_le16_of(idx);
    assert(le16(buf, off) == le16(u16_bytes(idx), 0));
    assert(buf.subrange(off + 3, off + 3 + pl.len()) =~= pl) by {
        assert forall|j: int| 0 <= j < pl.len() implies #[trigger] buf.subrange(off + 3, off + 3 + pl.len())[j] == pl[j] by {
            assert(buf[off + 3 + j] == e[3 + j]);
        }
    }
    lemma_payload_decodes(p, n, table, t, buf, off + 3);
}

// ---------------------------------------------------------------- writing

fn write_rle_body(buf: &mut Vec<u8>, runs: &Vec<(u8, u8)>)
    ensures final(buf)@ == old(buf)@ + rle_body(runs@),
{
    let mut k: usize = 0;
    while k < runs.len()
        invariant k <= runs.len(), buf@ =~= old(buf)@ + rle_body(runs@).subrange(0, 2 * k as int),
        decreases runs.len() - k,
    {
        let (v, c) = runs[k];
        buf.push(v);
        buf.push(c);
        proof {
            assert((2 * k) / 2 == k && (2 * k) % 2 == 0);
            assert((2 * k + 1) / 2 == k && (2 * k + 1) % 2 == 1);
            assert(rle_body(runs@).subrange(0, 2 * (k + 1)) =~= rle_body(runs@).subrange(0, 2 * k as int).push(v).push(c));
        }
        k += 1;
    }
    proof { assert(rle_body(runs@).subrange(0, 2 * runs.len() as int) =~= rle_body(runs@)); }
}

fn i8_byte_exec(v: i8) -> (b: u8)
    ensures b == i8_byte(v),
{
    if v >= 0 { v as u8 } else { (v as i16 + 256) as u8 }
}

fn write_delta_body(buf: &mut Vec<u8>, d: &Vec<i8>)
    ensures final(buf)@ == old(buf)@ + delta_body(d@),
{
    let mut k: usize = 0;
    while k < d.len()
        invariant k <= d.len(), buf@ =~= old(buf)@ + delta_body(d@).subrange(0, k as int),
        decreases d.len() - k,
    {
        buf.push(i8_byte_exec(d[k]));
        proof { assert(delta_body(d@).subrange(0, k + 1) =~= delta_body(d@).subrange(0, k as int).push(i8_byte(d@[k as int]))); }
        k += 1;
    }
    proof { assert(delta_body(d@).subrange(0, d.len() as int) =~= delta_body(d@)); }
}

fn write_sparse_body(buf: &mut Vec<u8>, e: &Vec<(u16, u8)>)
    ensures final(buf)@ == old(buf)@ + sparse_body(e@),
{
    let mut k: usize = 0;
    while k < e.len()
        invariant k <= e.len(), buf@ =~= old(buf)@ + sparse_body(e@).subrange(0, 3 * k as int),
        decreases e.len() - k,
    {
        let (i, v) = e[k];
        buf.push((i % 256) as u8);
        buf.push((i / 256) as u8);
        buf.push(v);
        proof {
            assert((3 * k) / 3 == k && (3 * k) % 3 == 0);
            assert((3 * k + 1) / 3 == k && (3 * k + 1) % 3 == 1);
            assert((3 * k + 2) / 3 == k && (3 * k + 2) % 3 == 2);
            assert(sparse_body(e@).subrange(0, 3 * (k + 1)) =~=
                sparse_body(e@).subrange(0, 3 * k as int).push((i % 256) as u8).push((i / 256) as u8).push(v));
        }
        k += 1;
    }
    proof { assert(sparse_body(e@).subrange(0, 3 * e.len() as int) =~= sparse_body(e@)); }
}

fn write_seg_body(buf: &mut Vec<u8>, s: &Vec<(u16, i16, i16)>)
    ensures final(buf)@ == old(buf)@ + seg_body(s@),
{
    let mut k: usize = 0;
    while k < s.len()
        invariant k <= s.len(), buf@ =~= old(buf)@ + seg_body(s@).subrange(0, 6 * k as int),
        decreases s.len() - k,
    {
        let x = s[k];
        let ghost before = buf@;
        push_u16(buf, x.0);
        push_i16(buf, x.1);
        push_i16(buf, x.2);
        proof {
            assert forall|r: int| 0 <= r < 6 implies #[trigger] seg_body(s@)[6 * k + r] == buf@[before.len() + r] by {
                assert((6 * k + r) / 6 == k && (6 * k + r) % 6 == r);
            }
            assert(seg_body(s@).subrange(0, 6 * (k + 1)) =~= seg_body(s@).subrange(0, 6 * k as int)
                + buf@.subrange(before.len() as int, before.len() as int + 6));
        }
        k += 1;
    }
    proof { assert(seg_body(s@).subrange(0, 6 * s.len() as int) =~= seg_body(s@)); }
}

fn write_delta_rle_body(buf: &mut Vec<u8>, runs: &Vec<(i8, u8)>)
    ensures final(buf)@ == old(buf)@ + delta_rle_body(runs@),
{
    let mut k: usize = 0;
    while k < runs.len()
        invariant k <= runs.len(), buf@ =~= old(buf)@ + delta_rle_body(runs@).subrange(0, 2 * k as int),
        decreases runs.len() - k,
    {
        let (d, c) = runs[k];
        let b = i8_byte_exec(d);
        buf.push(b);
        buf.push(c);
        proof {
            assert((2 * k) / 2 == k && (2 * k) % 2 == 0);
            assert((2 * k + 1) / 2 == k && (2 * k + 1) % 2 == 1);
            assert(delta_rle_body(runs@).subrange(0, 2 * (k + 1)) =~= delta_rle_body(runs@).subrange(0, 2 * k as int).push(b).push(c));
        }
        k += 1;
    }
    proof { assert(delta_rle_body(runs@).subrange(0, 2 * runs.len() as int) =~= delta_rle_body(runs@)); }
}

/// Append the parameter bytes of `params`.
pub fn write_payload(buf: &mut Vec<u8>, params: &TrackParams)
    ensures final(buf)@ == old(buf)@ + spec_payload(params@),
{
    let ghost b0 = buf@;
    match params {
        TrackParams::Const { value } => { buf.push(*value); }
        TrackParams::Linear { start, step } => { push_i16(buf, *start); push_i16(buf, *step); }
        TrackParams::Rle { runs } => { push_u16(buf, runs.len() as u16); write_rle_body(buf, runs); }
        TrackParams::Repeat { pattern } => { push_u16(buf, pattern.len() as u16); push_bytes(buf, pattern.as_slice()); }
        TrackParams::Delta { start, deltas } => { push_i16(buf, *start); write_delta_body(buf, deltas); }
        TrackParams::Raw { data } => { push_bytes(buf, data.as_slice()); }
        TrackParams::RawCompressed { method, data } => {
            buf.push(*method);
            push_u16(buf, data.len() as u16);
            push_bytes(buf, data.as_slice());
        }
        TrackParams::LinearWide { width, count, start, step } => {
            buf.push(*width);
            push_u16(buf, *count);
            push_i64(buf, *start);
            push_i64(buf, *step);
        }
        TrackParams::XorMask { mask, inner_tag, inner_params } => {
            buf.push(*mask);
            buf.push(*inner_tag);
            push_bytes(buf, inner_params.as_slice());
        }
        TrackParams::Sparse { fill, entries } => {
            buf.push(*fill);
            push_u16(buf, entries.len() as u16);
            write_sparse_body(buf, entries);
        }
        TrackParams::PiecewiseLinear { segments } => {
            buf.push(segments.len() as u8);
            write_seg_body(buf, segments);
        }
        TrackParams::Mirror { half } => { push_bytes(buf, half.as_slice()); }
        TrackParams::InterleavedLinear { count, start_a, step_a, start_b, step_b } => {
            push_u16(buf, *count);
            push_i16(buf, *start_a);
            push_i16(buf, *step_a);
            push_i16(buf, *start_b);
            push_i16(buf, *step_b);
        }
        TrackParams::DeltaRle { start, runs } => {
            buf.push(*start);
            push_u16(buf, runs.len() as u16);
            write_delta_rle_body(buf, runs);
        }
        TrackParams::BitPacked { bits, packed } => { buf.push(*bits); push_bytes(buf, packed.as_slice()); }
        TrackParams::DiffTable { order, initial, diff } => {
            buf.push(*order);
            push_bytes(buf, initial.as_slice());
            push_i32(buf, *diff);
        }
        TrackParams::ModArith { a, b, m } => { push_u16(buf, *a); push_u16(buf, *b); push_u16(buf, *m); }
        TrackParams::Fibonacci { seed0, seed1, c1, c2 } => {
            buf.push(*seed0);
            buf.push(*seed1);
            buf.push(*c1);
            buf.push(*c2);
        }
        TrackParams::DeltaWide { width, delta_width, start, deltas } => {
            buf.push(*width);
            buf.push(*delta_width);
            push_u32(buf, *start);
            push_bytes(buf, deltas.as_slice());
        }
        TrackParams::Float { payload, .. } => { push_bytes(buf, payload.as_slice()); }
    }
    proof { assert(buf@ =~= b0 + spec_payload(params@)); }
}

/// The pattern type parameters `p` are stored under.
pub fn params_pattern(p: &TrackParams) -> (r: PatternType)
    ensures r == view_pattern(p@),
{
    match p {
        TrackParams::Const { .. } => PatternType::Const,
        TrackParams::Linear { .. } => PatternType::Linear,
        TrackParams::Rle { .. } => PatternType::Rle,
        TrackParams::Repeat { .. } => PatternType::Repeat,
        TrackParams::Delta { .. } => PatternType::Delta,
        TrackParams::Raw { .. } => PatternType::Raw,
        TrackParams::RawCompressed { .. } => PatternType::RawCompressed,
        TrackParams::LinearWide { .. } => PatternType::LinearWide,
        TrackParams::XorMask { .. } => PatternType::XorMask,
        TrackParams::Sparse { .. } => PatternType::Sparse,
        TrackParams::PiecewiseLinear { .. } => PatternType::PiecewiseLinear,
        TrackParams::Mirror { .. } => PatternType::Mirror,
        TrackParams::InterleavedLinear { .. } => PatternType::InterleavedLinear,
        TrackParams::DeltaRle { .. } => PatternType::DeltaRle,
        TrackParams::BitPacked { .. } => PatternType::BitPacked,
        TrackParams::DiffTable { .. } => PatternType::DiffTable,
        TrackParams::ModArith { .. } => PatternType::ModArith,
        TrackParams::Fibonacci { .. } => PatternType::Fibonacci,
        TrackParams::DeltaWide { .. } => PatternType::DeltaWide,
        TrackParams::Float { pattern, .. } => *pattern,
    }
}

/// Append a whole entry: index, tag, parameters.
pub fn write_entry(buf: &mut Vec<u8>, idx: u16, params: &TrackParams)
    ensures final(buf)@ == old(buf)@ + spec_entry(idx, params@),
{
    let ghost b0 = buf@;
    push_u16(buf, idx);
    buf.push(params_pattern(params).tag());
    write_payload(buf, params);
    proof { assert(buf@ =~= b0 + spec_entry(idx, params@)); }
}

} // verus!
