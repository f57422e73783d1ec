//! Choosing how to store each track: the detectors tried in a fixed order,
//! the first that matches wins, and RAW when none does.
use vstd::prelude::*;
use crate::pattern::{
    PatternType, TrackParams, TrackEncoding, ParamsView, FloatTable, FloatTrack, spec_float_find,
    spec_float_lookup, float_table_ok, is_float_tag, spec_tag, spec_from_u8, view_pattern,
};
use crate::render::{
    render_const, render_linear, render_rle, render_repeat, render_delta, render_linear_wide,
    xor_all, render_sparse, render_piecewise, render_mirror, render_interleaved, render_delta_rle,
    render_bit_packed, packed_len,
};
use crate::detect::{
    is_const, spec_detect_linear, spec_detect_rle, spec_detect_repeat, spec_detect_linear_wide,
    spec_detect_bit_packed, spec_detect_delta, spec_detect_mirror, spec_detect_sparse,
    spec_detect_piecewise, spec_detect_interleaved, spec_detect_delta_rle, spec_detect_xor,
    runs_from, first_period, has_period, detect_const, detect_linear, detect_rle, detect_repeat,
    detect_linear_wide, detect_bit_packed, detect_delta, detect_mirror, detect_sparse,
    detect_piecewise, detect_interleaved, detect_delta_rle, detect_xor,
};
use crate::wire::{sle16, float_payload_len};

verus! {

/// `p` reconstructs `t` at `n` bytes per track, with each count small
/// enough for its field on the wire.
pub open spec fn renders_to(p: ParamsView, n: int, table: Seq<FloatTrack>, t: Seq<u8>) -> bool {
    match p {
        ParamsView::Const { value } => render_const(value, n) == t,
        ParamsView::Linear { start, step } => render_linear(start as int, step as int, n) == t,
        ParamsView::Rle { runs } => runs.len() <= 65535 && render_rle(runs, n) == t,
        ParamsView::Repeat { pattern } => 1 <= pattern.len() <= 65535 && render_repeat(pattern, n) == t,
        ParamsView::Delta { start, deltas } => n >= 1 && deltas.len() == n - 1 && render_delta(start as int, deltas) == t,
        ParamsView::Raw { data } => data.len() == n && data == t,
        ParamsView::LinearWide { width, count, start, step } =>
            render_linear_wide(width, count as int, start as int, step as int, n) == t,
        ParamsView::XorMask { mask, inner_tag, inner_params } =>
            (inner_tag == 0 && inner_params.len() == 1 && xor_all(render_const(inner_params[0], n), mask) == t)
            || (inner_tag == 1 && inner_params.len() == 4
                && xor_all(render_linear(sle16(inner_params, 0), sle16(inner_params, 2), n), mask) == t),
        ParamsView::Sparse { fill, entries } => entries.len() <= 65535 && render_sparse(fill, entries, n) == t,
        ParamsView::PiecewiseLinear { segments } => segments.len() <= 255 && render_piecewise(segments, n) == Some(t),
        ParamsView::Mirror { half } => half.len() == n / 2 && render_mirror(half) == t,
        ParamsView::InterleavedLinear { count, start_a, step_a, start_b, step_b } =>
            render_interleaved(count as int, start_a as int, step_a as int, start_b as int, step_b as int, n) == t,
        ParamsView::DeltaRle { start, runs } => runs.len() <= 65535 && render_delta_rle(start, runs, n) == t,
        ParamsView::BitPacked { bits, packed } => packed.len() == packed_len(n, bits as int) && render_bit_packed(bits, packed, n) == t,
        ParamsView::RawCompressed { method, data } =>
            data.len() <= 65535 && crate::raw::spec_raw_decoded(data, method) == Ok::<Seq<u8>, crate::pattern::DecodeError>(t),
        ParamsView::Float { pattern, payload } =>
            is_float_tag(spec_tag(pattern)) && spec_from_u8(spec_tag(pattern)) == Some(pattern)
            && float_payload_len(payload, 0, pattern) == Some(payload.len() as int)
            && spec_float_lookup(table, spec_tag(pattern), payload, n) == Some(t),
        _ => false,
    }
}

/// The pattern a track is stored as: the detectors in order, floating-point
/// findings taken from the table, RAW when nothing matches.
pub open spec fn spec_analyze(t: Seq<u8>, table: Seq<FloatTrack>) -> ParamsView {
    if is_const(t) {
        ParamsView::Const { value: t[0] }
    } else if spec_detect_linear(t) is Some {
        let (a, b) = spec_detect_linear(t)->0;
        ParamsView::Linear { start: a, step: b }
    } else {
        analyze_runs(t, table)
    }
}

/// RLE or REPEAT, the cheaper when both match (REPEAT on a tie).
pub open spec fn analyze_runs(t: Seq<u8>, table: Seq<FloatTrack>) -> ParamsView {
    let rle = spec_detect_rle(t);
    let rep = spec_detect_repeat(t);
    if rle is Some && rep is Some {
        if 2 + rep->0.len() <= 2 + 2 * rle->0.len() {
            ParamsView::Repeat { pattern: rep->0 }
        } else {
            ParamsView::Rle { runs: rle->0 }
        }
    } else if rle is Some {
        ParamsView::Rle { runs: rle->0 }
    } else if rep is Some {
        ParamsView::Repeat { pattern: rep->0 }
    } else {
        analyze_wide(t, table)
    }
}

/// LINEAR_WIDE, LINEAR_F64, DELTA_F64, BIT_PACKED, DELTA.
pub open spec fn analyze_wide(t: Seq<u8>, table: Seq<FloatTrack>) -> ParamsView {
    if spec_detect_linear_wide(t) is Some {
        let (w, c, s, st) = spec_detect_linear_wide(t)->0;
        ParamsView::LinearWide { width: w, count: c, start: s, step: st }
    } else if spec_float_find(table, 10, t) is Some {
        ParamsView::Float { pattern: PatternType::LinearF64, payload: spec_float_find(table, 10, t)->0 }
    } else if spec_float_find(table, 11, t) is Some {
        ParamsView::Float { pattern: PatternType::DeltaF64, payload: spec_float_find(table, 11, t)->0 }
    } else if spec_detect_bit_packed(t) is Some {
        let (b, p) = spec_detect_bit_packed(t)->0;
        ParamsView::BitPacked { bits: b, packed: p }
    } else if spec_detect_delta(t) is Some {
        let (s, d) = spec_detect_delta(t)->0;
        ParamsView::Delta { start: s, deltas: d }
    } else {
        analyze_shapes(t, table)
    }
}

/// PERIODIC, POLY, MIRROR, SPARSE, PIECEWISE_LINEAR.
pub open spec fn analyze_shapes(t: Seq<u8>, table: Seq<FloatTrack>) -> ParamsView {
    if spec_float_find(table, 5, t) is Some {
        ParamsView::Float { pattern: PatternType::Periodic, payload: spec_float_find(table, 5, t)->0 }
    } else if spec_float_find(table, 6, t) is Some {
        ParamsView::Float { pattern: PatternType::Poly, payload: spec_float_find(table, 6, t)->0 }
    } else if spec_detect_mirror(t) is Some {
        ParamsView::Mirror { half: spec_detect_mirror(t)->0 }
    } else if spec_detect_sparse(t) is Some {
        let (f, e) = spec_detect_sparse(t)->0;
        ParamsView::Sparse { fill: f, entries: e }
    } else if spec_detect_piecewise(t) is Some {
        ParamsView::PiecewiseLinear { segments: spec_detect_piecewise(t)->0 }
    } else {
        analyze_last(t, table)
    }
}

/// INTERLEAVED_LINEAR, EXPONENTIAL, DELTA_RLE, XOR_MASK, else RAW.
pub open spec fn analyze_last(t: Seq<u8>, table: Seq<FloatTrack>) -> ParamsView {
    if spec_detect_interleaved(t) is Some {
        let (c, sa, pa, sb, pb) = spec_detect_interleaved(t)->0;
        ParamsView::InterleavedLinear { count: c, start_a: sa, step_a: pa, start_b: sb, step_b: pb }
    } else if spec_float_find(table, 18, t) is Some {
        ParamsView::Float { pattern: PatternType::Exponential, payload: spec_float_find(table, 18, t)->0 }
    } else if spec_detect_delta_rle(t) is Some {
        let (s, r) = spec_detect_delta_rle(t)->0;
        ParamsView::DeltaRle { start: s, runs: r }
    } else if spec_detect_xor(t) is Some {
        let (m, tag, ip) = spec_detect_xor(t)->0;
        ParamsView::XorMask { mask: m, inner_tag: tag, inner_params: ip }
    } else {
        ParamsView::Raw { data: t }
    }
}

proof fn lemma_find_entry(table: Seq<FloatTrack>, tag: u8, t: Seq<u8>)
    requires spec_float_find(table, tag, t) is Some,
    ensures exists|i: int| 0 <= i < table.len() && #[trigger] table[i].tag == tag && table[i].sectors == t.len()
        && table[i].rendered@ == t && table[i].payload@ == spec_float_find(table, tag, t)->0,
    decreases table.len(),
{
    if !(table[0].tag == tag && table[0].sectors == t.len() && table[0].rendered@ == t) {
        lemma_find_entry(table.drop_first(), tag, t);
        let i = choose|i: int| 0 <= i < table.drop_first().len() && #[trigger] table.drop_first()[i].tag == tag
            && table.drop_first()[i].sectors == t.len() && table.drop_first()[i].rendered@ == t
            && table.drop_first()[i].payload@ == spec_float_find(table.drop_first(), tag, t)->0;
        assert(table[i + 1] == table.drop_first()[i]);
    } else {
        assert(table[0].tag == tag);
    }
}

proof fn lemma_lookup_entry(table: Seq<FloatTrack>, i: int)
    requires float_table_ok(table), 0 <= i < table.len(),
    ensures spec_float_lookup(table, table[i].tag, table[i].payload@, table[i].sectors as int) == Some(table[i].rendered@),
    decreases table.len(),
{
    let e = table[i];
    if crate::pattern::float_entry_matches(table[0], e.tag, e.payload@, e.sectors as int) {
        assert(table[0].rendered@ == table[i].rendered@);
    } else {
        let rest = table.drop_first();
        assert(i >= 1);
        assert(rest[i - 1] == e);
        assert(float_table_ok(rest)) by {
            assert forall|a: int| 0 <= a < rest.len() implies #[trigger] is_float_tag(rest[a].tag)
                && float_payload_len(rest[a].payload@, 0, spec_from_u8(rest[a].tag)->0) == Some(rest[a].payload@.len() as int) by {
                assert(rest[a] == table[a + 1]);
            }
            assert forall|a: int, b: int| 0 <= a < rest.len() && 0 <= b < rest.len() && rest[a].tag == rest[b].tag
                && rest[a].payload@ == rest[b].payload@ && rest[a].sectors == rest[b].sectors
                implies #[trigger] rest[a].rendered@ == #[trigger] rest[b].rendered@ by {
                assert(rest[a] == table[a + 1]);
                assert(rest[b] == table[b + 1]);
            }
        }
        lemma_lookup_entry(rest, i - 1);
    }
}

/// A floating-point finding of the table reconstructs its track.
pub proof fn lemma_float_found(table: Seq<FloatTrack>, p: PatternType, t: Seq<u8>)
    requires float_table_ok(table), spec_float_find(table, spec_tag(p), t) is Some,
    ensures renders_to(ParamsView::Float { pattern: p, payload: spec_float_find(table, spec_tag(p), t)->0 },
        t.len() as int, table, t),
{
    lemma_find_entry(table, spec_tag(p), t);
    let i = choose|i: int| 0 <= i < table.len() && #[trigger] table[i].tag == spec_tag(p) && table[i].sectors == t.len()
        && table[i].rendered@ == t && table[i].payload@ == spec_float_find(table, spec_tag(p), t)->0;
    lemma_lookup_entry(table, i);
    assert(is_float_tag(table[i].tag));
    crate::pattern::lemma_tag_from_u8(p);
}

proof fn lemma_sle16_of(a: i16, b: i16)
    ensures ({
        let s = crate::bytes::i16_bytes(a) + crate::bytes::i16_bytes(b);
        sle16(s, 0) == a && sle16(s, 2) == b
    }),
{
    let s = crate::bytes::i16_bytes(a) + crate::bytes::i16_bytes(b);
    assert(s.subrange(0, 2) =~= crate::bytes::i16_bytes(a));
    assert(s.subrange(2, 4) =~= crate::bytes::i16_bytes(b));
    crate::bytes::lemma_u16_bytes(crate::bytes::bits16(a), s, 0);
    crate::bytes::lemma_u16_bytes(crate::bytes::bits16(b), s, 2);
}

fn encoding(pattern: PatternType, params: TrackParams, track_idx: u16) -> (e: TrackEncoding)
    ensures e.pattern == pattern, e.params == params, e.track_idx == track_idx,
{
    TrackEncoding { pattern, params, track_idx }
}

/// Analyse one track: the first detector that matches, in the order of
/// `spec_analyze`, gives its pattern and parameters.
pub fn analyze_track(track: &[u8], track_idx: u16, table: &FloatTable) -> (e: TrackEncoding)
    requires 1 <= track.len() <= 65535, float_table_ok(table.entries@),
    ensures
        e.params@ == spec_analyze(track@, table.entries@),
        e.pattern == view_pattern(e.params@),
        e.track_idx == track_idx,
        renders_to(e.params@, track.len() as int, table.entries@, track@),
{
    if let Some(v) = detect_const(track) {
        return encoding(PatternType::Const, TrackParams::Const { value: v }, track_idx);
    }
    if let Some((a, b)) = detect_linear(track) {
        return encoding(PatternType::Linear, TrackParams::Linear { start: a, step: b }, track_idx);
    }
    analyze_track_runs(track, track_idx, table)
}

fn analyze_track_runs(track: &[u8], track_idx: u16, table: &FloatTable) -> (e: TrackEncoding)
    requires 1 <= track.len() <= 65535, float_table_ok(table.entries@),
    ensures
        e.params@ == analyze_runs(track@, table.entries@),
        e.pattern == view_pattern(e.params@),
        e.track_idx == track_idx,
        renders_to(e.params@, track.len() as int, table.entries@, track@),
{
    let n = track.len();
    let rle = detect_rle(track);
    let rep = detect_repeat(track);
    match (rle, rep) {
        (Some(runs), Some(pattern)) => {
            proof { assert(2 * runs@.len() < n); }
            if pattern.len() <= 2 * runs.len() {
                encoding(PatternType::Repeat, TrackParams::Repeat { pattern }, track_idx)
            } else {
                encoding(PatternType::Rle, TrackParams::Rle { runs }, track_idx)
            }
        }
        (Some(runs), None) => {
            proof { assert(2 * runs@.len() < n); }
            encoding(PatternType::Rle, TrackParams::Rle { runs }, track_idx)
        }
        (None, Some(pattern)) => encoding(PatternType::Repeat, TrackParams::Repeat { pattern }, track_idx),
        (None, None) => analyze_track_wide(track, track_idx, table),
    }
}

fn analyze_track_wide(track: &[u8], track_idx: u16, table: &FloatTable) -> (e: TrackEncoding)
    requires 1 <= track.len() <= 65535, float_table_ok(table.entries@),
    ensures
        e.params@ == analyze_wide(track@, table.entries@),
        e.pattern == view_pattern(e.params@),
        e.track_idx == track_idx,
        renders_to(e.params@, track.len() as int, table.entries@, track@),
{
    let ghost t = track@;
    let ghost tb = table.entries@;
    if let Some((w, c, s, st)) = detect_linear_wide(track) {
        return encoding(PatternType::LinearWide, TrackParams::LinearWide { width: w, count: c, start: s, step: st }, track_idx);
    }
    if let Some(payload) = table.find(10, track) {
        proof { lemma_float_found(tb, PatternType::LinearF64, t); }
        return encoding(PatternType::LinearF64, TrackParams::Float { pattern: PatternType::LinearF64, payload }, track_idx);
    }
    if let Some(payload) = table.find(11, track) {
        proof { lemma_float_found(tb, PatternType::DeltaF64, t); }
        return encoding(PatternType::DeltaF64, TrackParams::Float { pattern: PatternType::DeltaF64, payload }, track_idx);
    }
    if let Some((bits, packed)) = detect_bit_packed(track) {
        return encoding(PatternType::BitPacked, TrackParams::BitPacked { bits, packed }, track_idx);
    }
    if let Some((start, deltas)) = detect_delta(track) {
        return encoding(PatternType::Delta, TrackParams::Delta { start, deltas }, track_idx);
    }
    analyze_track_shapes(track, track_idx, table)
}

fn analyze_track_shapes(track: &[u8], track_idx: u16, table: &FloatTable) -> (e: TrackEncoding)
    requires 1 <= track.len() <= 65535, float_table_ok(table.entries@),
    ensures
        e.params@ == analyze_shapes(track@, table.entries@),
        e.pattern == view_pattern(e.params@),
        e.track_idx == track_idx,
        renders_to(e.params@, track.len() as int, table.entries@, track@),
{
    let ghost t = track@;
    let ghost tb = table.entries@;
    if let Some(payload) = table.find(5, track) {
        proof { lemma_float_found(tb, PatternType::Periodic, t); }
        return encoding(PatternType::Periodic, TrackParams::Float { pattern: PatternType::Periodic, payload }, track_idx);
    }
    if let Some(payload) = table.find(6, track) {
        proof { lemma_float_found(tb, PatternType::Poly, t); }
        return encoding(PatternType::Poly, TrackParams::Float { pattern: PatternType::Poly, payload }, track_idx);
    }
    if let Some(half) = detect_mirror(track) {
        return encoding(PatternType::Mirror, TrackParams::Mirror { half }, track_idx);
    }
    if let Some((fill, entries)) = detect_sparse(track) {
        return encoding(PatternType::Sparse, TrackParams::Sparse { fill, entries }, track_idx);
    }
    if let Some(segments) = detect_piecewise(track) {
        proof { lemma_piece_from_len(t, 2); }
        return encoding(PatternType::PiecewiseLinear, TrackParams::PiecewiseLinear { segments }, track_idx);
    }
    analyze_track_last(track, track_idx, table)
}

fn analyze_track_last(track: &[u8], track_idx: u16, table: &FloatTable) -> (e: TrackEncoding)
    requires 1 <= track.len() <= 65535, float_table_ok(table.entries@),
    ensures
        e.params@ == analyze_last(track@, table.entries@),
        e.pattern == view_pattern(e.params@),
        e.track_idx == track_idx,
        renders_to(e.params@, track.len() as int, table.entries@, track@),
{
    let n = track.len();
    let ghost t = track@;
    let ghost tb = table.entries@;
    if let Some((c, sa, pa, sb, pb)) = detect_interleaved(track) {
        return encoding(PatternType::InterleavedLinear,
            TrackParams::InterleavedLinear { count: c, start_a: sa, step_a: pa, start_b: sb, step_b: pb }, track_idx);
    }
    if let Some(payload) = table.find(18, track) {
        proof { lemma_float_found(tb, PatternType::Exponential, t); }
        return encoding(PatternType::Exponential, TrackParams::Float { pattern: PatternType::Exponential, payload }, track_idx);
    }
    if let Some((start, runs)) = detect_delta_rle(track) {
        return encoding(PatternType::DeltaRle, TrackParams::DeltaRle { start, runs }, track_idx);
    }
    if let Some((mask, inner_tag, inner_params)) = detect_xor(track) {
        proof {
            if inner_tag == 1 {
                let (a, b) = choose|a: i16, b: i16| inner_params@ == crate::bytes::i16_bytes(a) + crate::bytes::i16_bytes(b)
                    && #[trigger] xor_all(render_linear(a as int, b as int, n as int), mask) == t;
                lemma_sle16_of(a, b);
            }
        }
        return encoding(PatternType::XorMask, TrackParams::XorMask { mask, inner_tag, inner_params }, track_idx);
    }
    let data = crate::bytes::copy_bytes(track);
    encoding(PatternType::Raw, TrackParams::Raw { data }, track_idx)
}

proof fn lemma_piece_from_len(t: Seq<u8>, ns: int)
    requires crate::detect::piece_from(t, ns) is Some,
    ensures crate::detect::piece_from(t, ns)->0.len() <= 4,
    decreases 5 - ns,
{
    if !crate::detect::piece_fits(t, ns) && 2 <= ns <= 4 { lemma_piece_from_len(t, ns + 1); }
}

proof fn lemma_first_period_bound(t: Seq<u8>, p: int)
    requires first_period(t, p) is Some,
    ensures 1 <= first_period(t, p)->0 <= t.len() / 2,
    decreases t.len() / 2 + 1 - p,
{
    if !(p < 1 || p > t.len() / 2) && !has_period(t, p) {
        lemma_first_period_bound(t, p + 1);
    }
}

} // verus!
