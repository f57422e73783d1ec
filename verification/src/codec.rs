//! The PLTZ container: header, platters of track entries and meta-groups;
//! its columnar (PLTC) and chunked (PLTS) wrappers.
use vstd::prelude::*;
use crate::bytes::{le16, le32, read_u16, read_u32, copy_range};
use crate::pattern::{DecodeError, FloatTable, FloatTrack, META_TAG};
use crate::render::truncated;
use crate::wire::{spec_decode_track, decode_track, Decoded};
use crate::cross_track::{spec_decode_meta, decode_meta_group};
use crate::columnar::{spec_uncolumnar, spec_columnar};
use crate::bytes::{u16_bytes, u32_bytes, push_u16, push_u32, push_bytes};
use crate::pattern::{PatternType, TrackParams, TrackEncoding, ParamsView, EncView, encs_view, view_pattern};
use crate::raw::{RawCompressor, spec_compress_raw, spec_raw_decoded, compress_raw_best, deflate_encoded, zstd_encoded, brotli_encoded,
    picked_view};
use crate::entry::{spec_entry, write_entry};
use crate::cross_track::{MetaGroup, MetaView, metas_view, encode_meta_group};
use crate::stored::{
    Piece, piece_bytes, pieces_bytes, platter_bytes, platters_bytes, piece_ok, covers, named_by, slots_agree, listed, flatten,
    lemma_platters_decode, lemma_assemble_full, lemma_flatten_index,
};
use crate::platter::{spec_num_tracks, spec_track, spec_track_byte, lemma_ceil_div};
use crate::plan::{
    spec_plan, spec_encs, platters_normal, platters_view, spec_best_spt, best_from, best_geometry,
    plan_geometry, split_platters, analyzed_at,
};
use crate::platter::spec_sector_candidate;
use crate::pattern::float_table_ok;
use crate::analyzer::renders_to;
use crate::cross_track::{spec_cross, cross_src, not_tag, by_tag, lemma_cross_covers, lemma_by_tag, lemma_group_renders};
use crate::pattern::spec_tag;

verus! {

/// Current version of the chunked (PLTS) format.
pub const FORMAT_VERSION: u8 = 2;

/// Put track `t` at slot `idx`, ignoring indices past the slots.
pub open spec fn place(slots: Seq<Option<Seq<u8>>>, idx: u16, t: Seq<u8>) -> Seq<Option<Seq<u8>>> {
    if (idx as int) < slots.len() { slots.update(idx as int, Some(t)) } else { slots }
}

/// Place each track of a meta-group, in order.
pub open spec fn place_all(slots: Seq<Option<Seq<u8>>>, idx: Seq<u16>, ts: Seq<Seq<u8>>) -> Seq<Option<Seq<u8>>>
    decreases idx.len(),
{
    if idx.len() == 0 || ts.len() == 0 {
        slots
    } else {
        place_all(place(slots, idx[0], ts[0]), idx.drop_first(), ts.drop_first())
    }
}

/// Read `n` entries of a platter from `off`, placing each decoded track.
pub open spec fn spec_decode_entries(buf: Seq<u8>, off: int, n: int, sectors: int,
    slots: Seq<Option<Seq<u8>>>, table: Seq<FloatTrack>) -> Decoded<(Seq<Option<Seq<u8>>>, int)>
    decreases n,
{
    if n <= 0 {
        Some(Ok((slots, off)))
    } else if off + 3 > buf.len() {
        Some(Err(DecodeError::TruncatedEntry))
    } else if buf[off + 2] == META_TAG {
        match spec_decode_meta(buf, off + 3, sectors, table) {
            None => None,
            Some(Err(e)) => Some(Err(e)),
            Some(Ok((idx, ts, next))) => spec_decode_entries(buf, next, n - 1, sectors, place_all(slots, idx, ts), table),
        }
    } else {
        match spec_decode_track(buf, off, sectors, table) {
            None => None,
            Some(Err(e)) => Some(Err(e)),
            Some(Ok((idx, t, next))) => spec_decode_entries(buf, next, n - 1, sectors, place(slots, idx, t), table),
        }
    }
}

/// Read `n` platters from `off`.
pub open spec fn spec_decode_platters(buf: Seq<u8>, off: int, n: int, sectors: int,
    slots: Seq<Option<Seq<u8>>>, table: Seq<FloatTrack>) -> Decoded<(Seq<Option<Seq<u8>>>, int)>
    decreases n,
{
    if n <= 0 {
        Some(Ok((slots, off)))
    } else if off + 2 > buf.len() {
        Some(Err(DecodeError::TruncatedPlatterHeader))
    } else {
        match spec_decode_entries(buf, off + 2, le16(buf, off), sectors, slots, table) {
            None => None,
            Some(Err(e)) => Some(Err(e)),
            Some(Ok((s2, next))) => spec_decode_platters(buf, next, n - 1, sectors, s2, table),
        }
    }
}

/// The tracks from slot `i` on, concatenated, or the first missing slot.
pub open spec fn assemble_from(slots: Seq<Option<Seq<u8>>>, i: int) -> Result<Seq<u8>, DecodeError>
    decreases slots.len() - i,
{
    if i >= slots.len() || i < 0 {
        Ok(Seq::empty())
    } else {
        match slots[i] {
            None => Err(DecodeError::MissingTrack(i as usize)),
            Some(t) => match assemble_from(slots, i + 1) {
                Ok(rest) => Ok(t + rest),
                Err(e) => Err(e),
            },
        }
    }
}

/// Decode a PLTZ blob (magic already checked).
pub open spec fn spec_decode_pltz(buf: Seq<u8>, table: Seq<FloatTrack>) -> Decoded<Seq<u8>> {
    if buf.len() < 12 {
        None
    } else {
        let original_len = le32(buf, 4);
        let sectors = le16(buf, 8);
        if original_len == 0 {
            Some(Ok(Seq::empty()))
        } else if sectors == 0 {
            None
        } else {
            let total = (original_len + sectors - 1) / sectors;
            let slots = Seq::new(total as nat, |i: int| None::<Seq<u8>>);
            match spec_decode_platters(buf, 12, le16(buf, 10), sectors, slots, table) {
                None => None,
                Some(Err(e)) => Some(Err(e)),
                Some(Ok((s2, _))) => match assemble_from(s2, 0) {
                    Err(e) => Some(Err(e)),
                    Ok(t) => Some(Ok(truncated(t, original_len))),
                },
            }
        }
    }
}

pub open spec fn has_magic(buf: Seq<u8>, a: u8, b: u8, c: u8, d: u8) -> bool {
    buf.len() >= 4 && buf[0] == a && buf[1] == b && buf[2] == c && buf[3] == d
}

/// "PLTZ", "PLTC", "PLTS".
pub open spec fn is_pltz(buf: Seq<u8>) -> bool { has_magic(buf, 0x50, 0x4C, 0x54, 0x5A) }
pub open spec fn is_pltc(buf: Seq<u8>) -> bool { has_magic(buf, 0x50, 0x4C, 0x54, 0x43) }
pub open spec fn is_plts(buf: Seq<u8>) -> bool { has_magic(buf, 0x50, 0x4C, 0x54, 0x53) }

/// Decode PLTZ, PLTC or PLTS data back to the original bytes.
pub open spec fn spec_decode(buf: Seq<u8>, table: Seq<FloatTrack>) -> Decoded<Seq<u8>>
    decreases buf.len(), 2int, 0int,
{
    if buf.len() < 10 {
        Some(Err(DecodeError::TooShort))
    } else if is_plts(buf) {
        spec_decode_chunked(buf, table)
    } else if is_pltc(buf) {
        let original_len = le32(buf, 4);
        let stride = le16(buf, 8);
        match spec_decode(buf.subrange(10, buf.len() as int), table) {
            None => None,
            Some(Err(e)) => Some(Err(shift_err(e, 10))),
            Some(Ok(t)) => if original_len + stride > usize::MAX { None } else {
                Some(Ok(spec_uncolumnar(t, stride, original_len)))
            },
        }
    } else if !is_pltz(buf) {
        Some(Err(DecodeError::BadMagic))
    } else {
        spec_decode_pltz(buf, table)
    }
}

/// An error of a container that starts `k` bytes into the input, as an
/// error of the input: parameter offsets move by `k`.
pub open spec fn shift_err(e: DecodeError, k: int) -> DecodeError {
    match e {
        DecodeError::FloatTrackNotRendered(t, o, n, s) =>
            if o + k <= usize::MAX { DecodeError::FloatTrackNotRendered(t, (o + k) as usize, n, s) } else { e },
        _ => e,
    }
}

fn shift_error(e: DecodeError, k: usize) -> (r: DecodeError)
    ensures r == shift_err(e, k as int),
{
    match e {
        DecodeError::FloatTrackNotRendered(t, o, n, s) =>
            if o <= usize::MAX - k { DecodeError::FloatTrackNotRendered(t, o + k, n, s) } else { e },
        _ => e,
    }
}

/// Decode `n` chunks from `off`, appending to `acc`.
pub open spec fn spec_decode_chunks(buf: Seq<u8>, off: int, n: int, acc: Seq<u8>, table: Seq<FloatTrack>) -> Decoded<Seq<u8>>
    decreases buf.len(), 0int, n,
{
    if n <= 0 {
        Some(Ok(acc))
    } else if off < 15 || off + 4 > buf.len() {
        Some(Err(DecodeError::TruncatedChunkHeader))
    } else if off + 4 + le32(buf, off) > buf.len() {
        Some(Err(DecodeError::TruncatedChunkData))
    } else {
        let len = le32(buf, off);
        match spec_decode(buf.subrange(off + 4, off + 4 + len), table) {
            None => None,
            Some(Err(e)) => Some(Err(shift_err(e, off + 4))),
            Some(Ok(t)) => spec_decode_chunks(buf, off + 4 + len, n - 1, acc + t, table),
        }
    }
}

/// Decode the chunked (PLTS) format.
pub open spec fn spec_decode_chunked(buf: Seq<u8>, table: Seq<FloatTrack>) -> Decoded<Seq<u8>>
    decreases buf.len(), 1int, 0int,
{
    if buf.len() < 15 || !is_plts(buf) {
        Some(Err(DecodeError::BadStreamingMagic))
    } else if buf[4] > FORMAT_VERSION {
        Some(Err(DecodeError::UnsupportedVersion(buf[4])))
    } else {
        match spec_decode_chunks(buf, 15, le16(buf, 13), Seq::empty(), table) {
            None => None,
            Some(Err(e)) => Some(Err(e)),
            Some(Ok(t)) => Some(Ok(truncated(t, le32(buf, 5)))),
        }
    }
}

/// View of the decoder's track slots.
pub open spec fn slots_view(v: Seq<Option<Vec<u8>>>) -> Seq<Option<Seq<u8>>> {
    Seq::new(v.len(), |i: int| match v[i] { Some(t) => Some(t@), None => None })
}

pub(crate) fn place_track(slots: &mut Vec<Option<Vec<u8>>>, idx: u16, t: Vec<u8>)
    ensures slots_view(final(slots)@) == place(slots_view(old(slots)@), idx, t@),
{
    if (idx as usize) < slots.len() {
        slots.set(idx as usize, Some(t));
    }
    proof { assert(slots_view(slots@) =~= place(slots_view(old(slots)@), idx, t@)); }
}

fn decode_entries(buf: &[u8], off: usize, n: usize, sectors: usize,
    slots: &mut Vec<Option<Vec<u8>>>, table: &FloatTable) -> (r: Result<usize, DecodeError>)
    requires
        spec_decode_entries(buf@, off as int, n as int, sectors as int, slots_view(old(slots)@), table.entries@) is Some,
        sectors <= 65535,
    ensures
        match r {
            Ok(next) => spec_decode_entries(buf@, off as int, n as int, sectors as int, slots_view(old(slots)@), table.entries@)
                == Some(Ok::<(Seq<Option<Seq<u8>>>, int), DecodeError>((slots_view(final(slots)@), next as int))),
            Err(e) => spec_decode_entries(buf@, off as int, n as int, sectors as int, slots_view(old(slots)@), table.entries@)
                == Some(Err::<(Seq<Option<Seq<u8>>>, int), DecodeError>(e)),
        },
{
    let ghost target = spec_decode_entries(buf@, off as int, n as int, sectors as int, slots_view(slots@), table.entries@);
    let mut offset = off;
    let mut left = n;
    while left > 0
        invariant
            sectors <= 65535,
            target is Some,
            target == spec_decode_entries(buf@, off as int, n as int, sectors as int, slots_view(old(slots)@), table.entries@),
            target == spec_decode_entries(buf@, offset as int, left as int, sectors as int, slots_view(slots@), table.entries@),
        decreases left,
    {
        if offset > buf.len() || buf.len() - offset < 3 {
            return Err(DecodeError::TruncatedEntry);
        }
        if buf[offset + 2] == META_TAG {
            match decode_meta_group(buf, offset + 3, sectors, table) {
                Err(e) => return Err(e),
                Ok((tracks, next)) => {
                    let ghost sp = spec_decode_meta(buf@, offset + 3, sectors as int, table.entries@);
                    let ghost idx = match sp { Some(Ok((a, _, _))) => a, _ => Seq::empty() };
                    let ghost ts = match sp { Some(Ok((_, b, _))) => b, _ => Seq::empty() };
                    let mut k: usize = 0;
                    let ghost s0 = slots_view(slots@);
                    proof {
                        assert(idx.skip(0) =~= idx);
                        assert(ts.skip(0) =~= ts);
                    }
                    while k < tracks.len()
                        invariant
                            k <= tracks@.len(), tracks@.len() == idx.len(), idx.len() == ts.len(),
                            forall|j: int| 0 <= j < idx.len() ==> (#[trigger] tracks@[j]).0 == idx[j] && tracks@[j].1@ == ts[j],
                            place_all(s0, idx, ts) == place_all(slots_view(slots@), idx.skip(k as int), ts.skip(k as int)),
                        decreases tracks.len() - k,
                    {
                        let (i, t) = (tracks[k].0, crate::bytes::copy_bytes(tracks[k].1.as_slice()));
                        proof {
                            assert(idx.skip(k as int).drop_first() =~= idx.skip(k + 1));
                            assert(ts.skip(k as int).drop_first() =~= ts.skip(k + 1));
                        }
                        place_track(slots, i, t);
                        k += 1;
                    }
                    proof {
                        assert(idx.skip(idx.len() as int).len() == 0);
                    }
                    offset = next;
                }
            }
        } else {
            match decode_track(buf, offset, sectors, table) {
                Err(e) => return Err(e),
                Ok((i, t, next)) => {
                    place_track(slots, i, t);
                    offset = next;
                }
            }
        }
        left -= 1;
    }
    Ok(offset)
}


fn decode_platters(buf: &[u8], off: usize, n: usize, sectors: usize,
    slots: &mut Vec<Option<Vec<u8>>>, table: &FloatTable) -> (r: Result<usize, DecodeError>)
    requires
        spec_decode_platters(buf@, off as int, n as int, sectors as int, slots_view(old(slots)@), table.entries@) is Some,
        sectors <= 65535,
    ensures
        match r {
            Ok(next) => spec_decode_platters(buf@, off as int, n as int, sectors as int, slots_view(old(slots)@), table.entries@)
                == Some(Ok::<(Seq<Option<Seq<u8>>>, int), DecodeError>((slots_view(final(slots)@), next as int))),
            Err(e) => spec_decode_platters(buf@, off as int, n as int, sectors as int, slots_view(old(slots)@), table.entries@)
                == Some(Err::<(Seq<Option<Seq<u8>>>, int), DecodeError>(e)),
        },
{
    let ghost target = spec_decode_platters(buf@, off as int, n as int, sectors as int, slots_view(slots@), table.entries@);
    let mut offset = off;
    let mut left = n;
    while left > 0
        invariant
            sectors <= 65535,
            target is Some,
            target == spec_decode_platters(buf@, off as int, n as int, sectors as int, slots_view(old(slots)@), table.entries@),
            target == spec_decode_platters(buf@, offset as int, left as int, sectors as int, slots_view(slots@), table.entries@),
        decreases left,
    {
        if offset > buf.len() || buf.len() - offset < 2 {
            return Err(DecodeError::TruncatedPlatterHeader);
        }
        let entries = read_u16(buf, offset) as usize;
        match decode_entries(buf, offset + 2, entries, sectors, slots, table) {
            Err(e) => return Err(e),
            Ok(next) => { offset = next; }
        }
        left -= 1;
    }
    Ok(offset)
}

pub(crate) fn assemble(slots: &Vec<Option<Vec<u8>>>) -> (r: Result<Vec<u8>, DecodeError>)
    ensures
        match r {
            Ok(t) => assemble_from(slots_view(slots@), 0) == Ok::<Seq<u8>, DecodeError>(t@),
            Err(e) => assemble_from(slots_view(slots@), 0) == Err::<Seq<u8>, DecodeError>(e),
        },
{
    let ghost sv = slots_view(slots@);
    let mut out: Vec<u8> = Vec::new();
    let mut i: usize = 0;
    while i < slots.len()
        invariant
            sv == slots_view(slots@),
            i <= slots@.len(),
            assemble_from(sv, 0) == match assemble_from(sv, i as int) {
                Ok(rest) => Ok::<Seq<u8>, DecodeError>(out@ + rest),
                Err(e) => Err::<Seq<u8>, DecodeError>(e),
            },
        decreases slots.len() - i,
    {
        match &slots[i] {
            None => { return Err(DecodeError::MissingTrack(i)); }
            Some(t) => {
                proof {
                    match assemble_from(sv, i + 1) {
                        Ok(rest) => { assert(out@ + (t@ + rest) =~= (out@ + t@) + rest); }
                        Err(e) => {}
                    }
                }
                crate::bytes::push_bytes(&mut out, t.as_slice());
            }
        }
        i += 1;
    }
    proof { assert(out@ + Seq::<u8>::empty() =~= out@); }
    Ok(out)
}

pub(crate) fn truncate_to(v: &mut Vec<u8>, n: usize)
    ensures final(v)@ == truncated(old(v)@, n as int),
{
    if v.len() > n {
        v.truncate(n);
    }
}

fn slice_from(buf: &[u8], start: usize) -> (r: &[u8])
    requires start <= buf.len(),
    ensures r@ == buf@.subrange(start as int, buf@.len() as int),
{
    vstd::slice::slice_subrange(buf, start, buf.len())
}

fn decode_pltz(compressed: &[u8], table: &FloatTable) -> (r: Result<Vec<u8>, DecodeError>)
    requires spec_decode_pltz(compressed@, table.entries@) is Some,
    ensures
        match r {
            Ok(t) => spec_decode_pltz(compressed@, table.entries@) == Some(Ok::<Seq<u8>, DecodeError>(t@)),
            Err(e) => spec_decode_pltz(compressed@, table.entries@) == Some(Err::<Seq<u8>, DecodeError>(e)),
        },
{
    let original_len = read_u32(compressed, 4) as usize;
    let sectors = read_u16(compressed, 8) as usize;
    let num_platters = read_u16(compressed, 10) as usize;
    if original_len == 0 {
        return Ok(Vec::new());
    }
    proof {
        vstd::arithmetic::div_mod::lemma_hoist_over_denominator(original_len as int - 1, 1, sectors as nat);
    }
    let total = (original_len - 1) / sectors + 1;
    let mut slots: Vec<Option<Vec<u8>>> = Vec::new();
    let mut i: usize = 0;
    while i < total
        invariant i <= total, slots@.len() == i, forall|k: int| 0 <= k < i ==> (#[trigger] slots@[k]) is None,
        decreases total - i,
    {
        slots.push(None);
        i += 1;
    }
    proof { assert(slots_view(slots@) =~= Seq::new(total as nat, |k: int| None::<Seq<u8>>)); }
    match decode_platters(compressed, 12, num_platters, sectors, &mut slots, table) {
        Err(e) => Err(e),
        Ok(_) => match assemble(&slots) {
            Err(e) => Err(e),
            Ok(mut t) => {
                truncate_to(&mut t, original_len);
                Ok(t)
            }
        },
    }
}

/// Decode (decompress) PLTZ, PLTC, or PLTS data back to the original bytes.
/// Floating-point tracks are reconstructed from `table`.
pub fn decode(compressed: &[u8], table: &FloatTable) -> (r: Result<Vec<u8>, DecodeError>)
    requires spec_decode(compressed@, table.entries@) is Some,
    ensures
        match r {
            Ok(t) => spec_decode(compressed@, table.entries@) == Some(Ok::<Seq<u8>, DecodeError>(t@)),
            Err(e) => spec_decode(compressed@, table.entries@) == Some(Err::<Seq<u8>, DecodeError>(e)),
        },
    decreases compressed@.len(), 2int, 0int,
{
    if compressed.len() < 10 {
        return Err(DecodeError::TooShort);
    }
    let m0 = compressed[0];
    let m1 = compressed[1];
    let m2 = compressed[2];
    let m3 = compressed[3];
    if m0 == 0x50 && m1 == 0x4C && m2 == 0x54 && m3 == 0x53 {
        return decode_chunked(compressed, table);
    }
    if m0 == 0x50 && m1 == 0x4C && m2 == 0x54 && m3 == 0x43 {
        let original_len = read_u32(compressed, 4) as usize;
        let stride = read_u16(compressed, 8) as usize;
        let inner = slice_from(compressed, 10);
        return match decode(inner, table) {
            Err(e) => Err(shift_error(e, 10)),
            Ok(t) => Ok(crate::columnar::columnar_untransform(t.as_slice(), stride, original_len)),
        };
    }
    if !(m0 == 0x50 && m1 == 0x4C && m2 == 0x54 && m3 == 0x5A) {
        return Err(DecodeError::BadMagic);
    }
    decode_pltz(compressed, table)
}

/// Decode the chunked/streaming (PLTS) format.
pub fn decode_chunked(compressed: &[u8], table: &FloatTable) -> (r: Result<Vec<u8>, DecodeError>)
    requires spec_decode_chunked(compressed@, table.entries@) is Some,
    ensures
        match r {
            Ok(t) => spec_decode_chunked(compressed@, table.entries@) == Some(Ok::<Seq<u8>, DecodeError>(t@)),
            Err(e) => spec_decode_chunked(compressed@, table.entries@) == Some(Err::<Seq<u8>, DecodeError>(e)),
        },
    decreases compressed@.len(), 1int, 0int,
{
    if compressed.len() < 15 || !(compressed[0] == 0x50 && compressed[1] == 0x4C && compressed[2] == 0x54 && compressed[3] == 0x53) {
        return Err(DecodeError::BadStreamingMagic);
    }
    let version = compressed[4];
    if version > FORMAT_VERSION {
        return Err(DecodeError::UnsupportedVersion(version));
    }
    let original_len = read_u32(compressed, 5) as usize;
    let num_chunks = read_u16(compressed, 13) as usize;
    let mut result: Vec<u8> = Vec::new();
    let mut offset: usize = 15;
    let mut left = num_chunks;
    let ghost target = spec_decode_chunks(compressed@, 15, num_chunks as int, Seq::empty(), table.entries@);
    proof { assert(result@ =~= Seq::<u8>::empty()); }
    while left > 0
        invariant
            offset >= 15,
            target is Some,
            spec_decode_chunked(compressed@, table.entries@) == match target {
                Some(Ok(t)) => Some(Ok::<Seq<u8>, DecodeError>(truncated(t, original_len as int))),
                Some(Err(e)) => Some(Err::<Seq<u8>, DecodeError>(e)),
                None => None,
            },
            target == spec_decode_chunks(compressed@, offset as int, left as int, result@, table.entries@),
        decreases left,
    {
        if offset > compressed.len() || compressed.len() - offset < 4 {
            return Err(DecodeError::TruncatedChunkHeader);
        }
        let len = read_u32(compressed, offset) as usize;
        if compressed.len() - offset - 4 < len {
            return Err(DecodeError::TruncatedChunkData);
        }
        let chunk = vstd::slice::slice_subrange(compressed, offset + 4, offset + 4 + len);
        match decode(chunk, table) {
            Err(e) => return Err(shift_error(e, offset + 4)),
            Ok(t) => {
                crate::bytes::push_bytes(&mut result, t.as_slice());
            }
        }
        offset = offset + 4 + len;
        left -= 1;
    }
    truncate_to(&mut result, original_len);
    Ok(result)
}

// ---------------------------------------------------------------- encoding

/// The 12-byte header of a PLTZ container: magic, data length, bytes per
/// track, number of platters.
pub open spec fn pltz_header(len: u32, spt: u16, np: u16) -> Seq<u8> {
    seq![0x50u8, 0x4Cu8, 0x54u8, 0x5Au8] + u32_bytes(len) + u16_bytes(spt) + u16_bytes(np)
}

/// `(method, c)` is a compressed form of `data` that `mode` may pick:
/// the one compressor it names, or under `Best` any of the three.
pub open spec fn raw_choice(data: Seq<u8>, mode: RawCompressor, method: u8, c: Seq<u8>) -> bool {
    match mode {
        RawCompressor::Best =>
            (method == 1 && c == deflate_encoded(data)) || (method == 2 && c == zstd_encoded(data))
                || (method == 3 && c == brotli_encoded(data)),
        _ => spec_compress_raw(data, mode) == Some((method, c)),
    }
}

/// How encoding `e` is stored under `mode`: with its own parameters or,
/// for a RAW track, as a strictly shorter compressed form that `mode` may
/// pick and that reads back to the track's bytes.
pub open spec fn stored_as(e: EncView, mode: RawCompressor, q: ParamsView) -> bool {
    ||| q == e.params
    ||| match (e.params, q) {
        (ParamsView::Raw { data }, ParamsView::RawCompressed { method, data: c }) =>
            mode != RawCompressor::Uncompressed && c.len() < data.len() && raw_choice(data, mode, method, c)
                && spec_raw_decoded(c, method) == Ok::<Seq<u8>, DecodeError>(data),
        _ => false,
    }
}

/// The compressed form `mode` chooses for the bytes of a RAW encoding `e`
/// (`None` for any other encoding, or under `Uncompressed`).
pub open spec fn chosen_form(e: EncView, mode: RawCompressor) -> Option<(u8, Seq<u8>)> {
    match e.params {
        ParamsView::Raw { data } => spec_compress_raw(data, mode),
        _ => None,
    }
}

/// Entry `p` stores encoding `e` as a single track: with the parameters
/// `stored_params` gives for the form `mode` chooses.
pub open spec fn track_piece(p: Piece, e: EncView, mode: RawCompressor) -> bool {
    match p {
        Piece::Track(i, q) => i == e.idx && stored_as(e, mode, q) && q == stored_params(e, mode, chosen_form(e, mode)),
        Piece::Group(_) => false,
    }
}

/// Entries `ps` store a platter: its individual encodings first, each as
/// `stored_as` says, then its groups.
pub open spec fn platter_stored(ps: Seq<Piece>, encs: Seq<EncView>, gs: Seq<MetaView>, mode: RawCompressor) -> bool {
    &&& ps.len() == encs.len() + gs.len()
    &&& forall|k: int| 0 <= k < encs.len() ==> track_piece(#[trigger] ps[k], encs[k], mode)
    &&& forall|k: int| 0 <= k < gs.len() ==> ps[encs.len() + k] == Piece::Group(#[trigger] gs[k])
}

/// The parameters a track analysed as `e` is stored with, given the
/// compressed form `pk` chosen for its bytes (`None` when none was): a
/// RAW track whose chosen form is strictly shorter than its bytes is stored
/// as that form (RawCompressed, with the method); any other track as it is.
pub open spec fn stored_params(e: EncView, mode: RawCompressor, pk: Option<(u8, Seq<u8>)>) -> ParamsView {
    match (e.params, pk) {
        (ParamsView::Raw { data }, Some((m, c))) =>
            if mode != RawCompressor::Uncompressed && c.len() < data.len() {
                ParamsView::RawCompressed { method: m, data: c }
            } else {
                e.params
            },
        _ => e.params,
    }
}

/// Append the entry for track `enc` given the compressed form `picked`
/// chosen for its bytes: stored as `stored_params` says.
fn store_track(buf: &mut Vec<u8>, enc: &TrackEncoding, mode: RawCompressor, picked: Option<(u8, Vec<u8>)>)
    -> (q: Ghost<ParamsView>)
    ensures
        final(buf)@ == old(buf)@ + spec_entry(enc@.idx, q@),
        q@ == stored_params(enc@, mode, picked_view(picked)),
{
    if mode != RawCompressor::Uncompressed {
        match &enc.params {
            TrackParams::Raw { data } => {
                match picked {
                    Some((method, compressed)) => {
                        if compressed.len() < data.len() {
                            let ghost b0 = buf@;
                            let ghost q = ParamsView::RawCompressed { method, data: compressed@ };
                            push_u16(buf, enc.track_idx);
                            buf.push(PatternType::RawCompressed.tag());
                            buf.push(method);
                            push_u16(buf, compressed.len() as u16);
                            push_bytes(buf, compressed.as_slice());
                            proof { assert(buf@ =~= b0 + spec_entry(enc@.idx, q)); }
                            return Ghost(q);
                        }
                    }
                    None => {}
                }
            }
            _ => {}
        }
    }
    write_entry(buf, enc.track_idx, &enc.params);
    Ghost(enc.params@)
}

/// Append the entry for one analysed track. A RAW track is stored
/// compressed when `mode` names a compressor and the chosen output is
/// strictly shorter than the track.
fn encode_track(buf: &mut Vec<u8>, enc: &TrackEncoding, mode: RawCompressor) -> (q: Ghost<ParamsView>)
    ensures
        final(buf)@ == old(buf)@ + spec_entry(enc@.idx, q@),
        stored_as(enc@, mode, q@),
        q@ == stored_params(enc@, mode, chosen_form(enc@, mode)),
{
    let picked: Option<(u8, Vec<u8>)> = if mode != RawCompressor::Uncompressed {
        match &enc.params {
            TrackParams::Raw { data } => compress_raw_best(data.as_slice(), mode),
            _ => None,
        }
    } else {
        None
    };
    proof {
        assert(mode != RawCompressor::Uncompressed ==> picked_view(picked) == chosen_form(enc@, mode));
    }
    store_track(buf, enc, mode, picked)
}

/// Append one platter: its entry count, its individual tracks, its groups.
fn write_platter(buf: &mut Vec<u8>, ind: &Vec<TrackEncoding>, gs: &Vec<MetaGroup>, mode: RawCompressor)
    -> (ps: Ghost<Seq<Piece>>)
    ensures
        final(buf)@ == old(buf)@ + platter_bytes(ps@),
        platter_stored(ps@, encs_view(ind@), metas_view(gs@), mode),
{
    let ghost b0 = buf@;
    let a = ind.len() % 65536;
    let b = gs.len() % 65536;
    let count = ((a + b) % 65536) as u16;
    proof { vstd::arithmetic::div_mod::lemma_add_mod_noop(ind.len() as int, gs.len() as int, 65536); }
    push_u16(buf, count);
    let ghost head = buf@;
    let ghost mut ps: Seq<Piece> = Seq::empty();
    let mut k: usize = 0;
    while k < ind.len()
        invariant
            k <= ind@.len(), ps.len() == k, buf@ == head + pieces_bytes(ps),
            forall|j: int| 0 <= j < k ==> track_piece(#[trigger] ps[j], ind@[j]@, mode),
        decreases ind.len() - k,
    {
        let q = encode_track(buf, &ind[k], mode);
        let ghost x = Piece::Track(ind@[k as int]@.idx, q@);
        proof {
            assert(ps.push(x).drop_last() =~= ps);
            ps = ps.push(x);
        }
        k += 1;
    }
    let mut g: usize = 0;
    while g < gs.len()
        invariant
            g <= gs@.len(), ps.len() == ind@.len() + g, buf@ == head + pieces_bytes(ps),
            forall|j: int| 0 <= j < ind@.len() ==> track_piece(#[trigger] ps[j], ind@[j]@, mode),
            forall|j: int| 0 <= j < g ==> ps[ind@.len() + j] == Piece::Group(#[trigger] gs@[j]@),
        decreases gs.len() - g,
    {
        encode_meta_group(buf, &gs[g]);
        let ghost x = Piece::Group(gs@[g as int]@);
        proof {
            assert(ps.push(x).drop_last() =~= ps);
            ps = ps.push(x);
        }
        g += 1;
    }
    proof {
        assert(buf@ =~= b0 + platter_bytes(ps));
        assert forall|j: int| 0 <= j < ind@.len() implies track_piece(#[trigger] ps[j], encs_view(ind@)[j], mode) by {}
        assert forall|j: int| 0 <= j < gs@.len() implies
            ps[encs_view(ind@).len() + j] == Piece::Group(#[trigger] metas_view(gs@)[j]) by {}
    }
    Ghost(ps)
}

/// Append every platter.
fn write_platters(buf: &mut Vec<u8>, platters: &Vec<(Vec<TrackEncoding>, Vec<MetaGroup>)>, mode: RawCompressor)
    -> (pls: Ghost<Seq<Seq<Piece>>>)
    ensures
        final(buf)@ == old(buf)@ + platters_bytes(pls@),
        pls@.len() == platters@.len(),
        forall|p: int| 0 <= p < platters@.len() ==>
            platter_stored(#[trigger] pls@[p], encs_view(platters@[p].0@), metas_view(platters@[p].1@), mode),
{
    let ghost b0 = buf@;
    let ghost mut pls: Seq<Seq<Piece>> = Seq::empty();
    let mut p: usize = 0;
    while p < platters.len()
        invariant
            p <= platters@.len(), pls.len() == p, buf@ == b0 + platters_bytes(pls),
            forall|j: int| 0 <= j < p ==>
                platter_stored(#[trigger] pls[j], encs_view(platters@[j].0@), metas_view(platters@[j].1@), mode),
        decreases platters.len() - p,
    {
        let ps = write_platter(buf, &platters[p].0, &platters[p].1, mode);
        proof {
            assert(pls.push(ps@).drop_last() =~= pls);
            pls = pls.push(ps@);
            assert(buf@ =~= b0 + platters_bytes(pls));
        }
        p += 1;
    }
    Ghost(pls)
}

// ---------------------------------------------------------------- why it decodes back

/// The tracks of `data` laid out `spt` bytes per track.
pub open spec fn layout(data: Seq<u8>, spt: int) -> Seq<Seq<u8>> {
    Seq::new(spec_num_tracks(data.len() as int, spt) as nat, |i: int| spec_track(data, spt, i))
}

/// The laid-out tracks, one after another and cut to the data's length,
/// are the data.
pub proof fn lemma_layout_flatten(data: Seq<u8>, spt: int)
    requires data.len() > 0, spt > 0,
    ensures truncated(flatten(layout(data, spt)), data.len() as int) == data,
{
    let tr = layout(data, spt);
    let len = data.len() as int;
    lemma_ceil_div(len, spt);
    assert forall|i: int| 0 <= i < tr.len() implies (#[trigger] tr[i]).len() == spt by {}
    lemma_flatten_index(tr, spt);
    let f = flatten(tr);
    assert(tr.len() * spt >= len);
    assert forall|k: int| 0 <= k < len implies #[trigger] f[k] == data[k] by {
        vstd::arithmetic::div_mod::lemma_fundamental_div_mod(k, spt);
        assert((k / spt) * spt == spt * (k / spt)) by (nonlinear_arith);
        assert(0 <= k % spt < spt);
        assert(0 <= k / spt < tr.len()) by (nonlinear_arith)
            requires 0 <= k < tr.len() * spt, spt > 0;
        assert(f[k] == tr[k / spt][k % spt]);
        assert(tr[k / spt][k % spt] == spec_track_byte(data, spt, k / spt, k % spt));
    }
    assert(truncated(f, len) =~= data);
}

/// A container with this header and these platters, whose entries
/// reconstruct the layout of `data` and name every track, decodes to `data`.
#[verifier::spinoff_prover]
#[verifier::rlimit(60)]
proof fn lemma_pltz_decodes(buf: Seq<u8>, data: Seq<u8>, spt: int, pls: Seq<Seq<Piece>>, table: Seq<FloatTrack>)
    requires
        buf == pltz_header(data.len() as u32, spt as u16, (pls.len() % 65536) as u16) + platters_bytes(pls),
        0 < data.len() <= 0xFFFF_FFFF, 1 <= spt <= 65535, pls.len() <= 65535,
        forall|p: int| 0 <= p < pls.len() ==> (#[trigger] pls[p]).len() <= 65535,
        forall|p: int, k: int| 0 <= p < pls.len() && 0 <= k < pls[p].len() ==>
            piece_ok(#[trigger] pls[p][k], spt, table, layout(data, spt)),
        forall|i: int| 0 <= i < layout(data, spt).len() ==> #[trigger] named_by(pls, i),
    ensures spec_decode(buf, table) == Some(Ok::<Seq<u8>, DecodeError>(data)),
{
    let len = data.len() as int;
    let tr = layout(data, spt);
    let h = pltz_header(data.len() as u32, spt as u16, (pls.len() % 65536) as u16);
    assert(pls.len() % 65536 == pls.len());
    assert(buf.subrange(4, 8) =~= u32_bytes(data.len() as u32));
    assert(buf.subrange(8, 10) =~= u16_bytes(spt as u16));
    assert(buf.subrange(10, 12) =~= u16_bytes(pls.len() as u16));
    crate::bytes::lemma_u32_bytes(data.len() as u32, buf, 4);
    crate::bytes::lemma_u16_bytes(spt as u16, buf, 8);
    crate::bytes::lemma_u16_bytes(pls.len() as u16, buf, 10);
    assert(buf.subrange(12, 12 + platters_bytes(pls).len() as int) =~= platters_bytes(pls));
    let total = (len + spt - 1) / spt;
    assert(total == spec_num_tracks(len, spt));
    let slots = Seq::new(total as nat, |i: int| None::<Seq<u8>>);
    assert(slots_agree(slots, tr));
    lemma_platters_decode(buf, 12, pls, spt, table, tr, slots);
    let (s2, _n2) = spec_decode_platters(buf, 12, pls.len() as int, spt, slots, table)->0->Ok_0;
    assert forall|i: int| 0 <= i < s2.len() implies (#[trigger] s2[i]) is Some by {
        assert(named_by(pls, i));
        let (p, k) = choose|p: int, k: int| 0 <= p < pls.len() && 0 <= k < pls[p].len() && #[trigger] covers(pls[p][k], i);
        assert(covers(pls[p][k], i));
    }
    lemma_assemble_full(s2, tr, 0);
    assert(tr.subrange(0, tr.len() as int) =~= tr);
    lemma_layout_flatten(data, spt);
}

/// The stored platters of the plan for `data`
/// reconstruct its layout and together name every track.
#[verifier::spinoff_prover]
#[verifier::rlimit(100)]
proof fn lemma_plan_pieces(data: Seq<u8>, spt: int, table: Seq<FloatTrack>, mode: RawCompressor, pls: Seq<Seq<Piece>>)
    requires
        8 <= spt <= 512, data.len() > 0,
        spec_num_tracks(data.len() as int, spt) <= 65536,
        forall|g: int| 0 <= g < spec_plan(data, spt, table).0.len() ==> (#[trigger] spec_plan(data, spt, table).0[g]).indices.len() <= 65535,
        forall|i: int| 0 <= i < spec_encs(data, spt, table).len() ==>
            renders_to(#[trigger] spec_encs(data, spt, table)[i].params, spt, table, spec_track(data, spt, i)),
        pls.len() == platters_normal(spec_plan(data, spt, table).0, spec_plan(data, spt, table).1).len(),
        forall|p: int| 0 <= p < pls.len() ==> platter_stored(#[trigger] pls[p],
            platters_normal(spec_plan(data, spt, table).0, spec_plan(data, spt, table).1)[p].0,
            platters_normal(spec_plan(data, spt, table).0, spec_plan(data, spt, table).1)[p].1, mode),
    ensures
        forall|p: int, k: int| 0 <= p < pls.len() && 0 <= k < pls[p].len() ==>
            piece_ok(#[trigger] pls[p][k], spt, table, layout(data, spt)),
        forall|i: int| 0 <= i < layout(data, spt).len() ==> #[trigger] named_by(pls, i),
{
    reveal(spec_plan);
    let e = spec_encs(data, spt, table);
    let (gs, rem) = spec_cross(e);
    let srcs = cross_src(e, 0, Seq::empty());
    let tr = layout(data, spt);
    let plat = platters_normal(gs, rem);
    let st = not_tag(rem, 7);
    let raws = by_tag(rem, 7);
    lemma_cross_covers(e);
    lemma_by_tag(rem, 7);
    // what every encoding of the layout satisfies
    assert forall|x: EncView| e.contains(x) implies (x.idx as int) < tr.len() && x.pattern == view_pattern(x.params)
        && renders_to(x.params, spt, table, tr[x.idx as int]) by {
        let j = choose|j: int| 0 <= j < e.len() && e[j] == x;
        assert(renders_to(e[j].params, spt, table, spec_track(data, spt, j)));
    }
    let a: Seq<(Seq<EncView>, Seq<MetaView>)> = if st.len() > 0 || gs.len() > 0 { seq![(st, gs)] } else { Seq::empty() };
    // the platters hold the individual encodings and the groups
    assert forall|p: int, k: int| 0 <= p < plat.len() && 0 <= k < plat[p].0.len() implies e.contains(#[trigger] plat[p].0[k]) by {
        let x = plat[p].0[k];
        if p == 0 && a.len() == 1 {
            assert(rem.contains(st[k]));
        } else {
            assert(rem.contains(raws[k]));
        }
        let j = choose|j: int| 0 <= j < rem.len() && rem[j] == x;
        assert(e.contains(rem[j]));
    }
    assert forall|p: int, k: int| 0 <= p < plat.len() && 0 <= k < plat[p].1.len() implies
        #[trigger] plat[p].1[k] == gs[k] && p == 0 && k < gs.len() by {}
    assert forall|p: int, k: int| 0 <= p < pls.len() && 0 <= k < pls[p].len() implies
        piece_ok(#[trigger] pls[p][k], spt, table, tr) by {
        assert(platter_stored(pls[p], plat[p].0, plat[p].1, mode));
        if k < plat[p].0.len() {
            let x = plat[p].0[k];
            assert(track_piece(pls[p][k], x, mode));
            assert(e.contains(x));
        } else {
            let g = k - plat[p].0.len();
            assert(pls[p][plat[p].0.len() + g] == Piece::Group(plat[p].1[g]));
            assert(plat[p].1[g] == gs[g]);
            let grp = srcs[g];
            assert(crate::cross_track::group_of(gs[g], grp));
            let ts = Seq::new(grp.len(), |m: int| tr[grp[m].idx as int]);
            assert forall|m: int| 0 <= m < grp.len() implies #[trigger] renders_to(grp[m].params, spt, table, ts[m]) by {
                assert(e.contains(grp[m]));
            }
            assert forall|m: int| 0 <= m < grp.len() implies (#[trigger] grp[m]).pattern == view_pattern(grp[m].params) by {
                assert(e.contains(grp[m]));
            }
            assert(gs[g].indices.len() == grp.len());
            lemma_group_renders(gs[g], grp, spt, table, ts);
            assert forall|m: int| 0 <= m < gs[g].indices.len() implies (#[trigger] gs[g].indices[m] as int) < tr.len() by {
                assert(gs[g].indices[m] == grp[m].idx);
                assert(e.contains(grp[m]));
            }
            assert(listed(gs[g], tr) =~= ts);
        }
    }
    assert forall|i: int| 0 <= i < tr.len() implies #[trigger] named_by(pls, i) by {
        let x = e[i];
        crate::pattern::lemma_tag_from_u8(x.pattern);
        assert((spec_tag(x.pattern) as int) < 25);
        assert(x.idx as int == i);
        if rem.contains(x) {
            let j = choose|j: int| 0 <= j < rem.len() && rem[j] == x;
            if spec_tag(x.pattern) == 7 {
                assert(raws.contains(rem[j]));
                let k = choose|k: int| 0 <= k < raws.len() && raws[k] == x;
                let p = a.len() as int;
                assert(plat[p].0 == raws);
                assert(platter_stored(pls[p], plat[p].0, plat[p].1, mode));
                assert(track_piece(pls[p][k], raws[k], mode));
                assert(covers(pls[p][k], i));
            } else {
                assert(st.contains(rem[j]));
                let k = choose|k: int| 0 <= k < st.len() && st[k] == x;
                assert(plat[0].0 == st);
                assert(platter_stored(pls[0], plat[0].0, plat[0].1, mode));
                assert(track_piece(pls[0][k], st[k], mode));
                assert(covers(pls[0][k], i));
            }
        } else {
            let (gi, m) = choose|gi: int, m: int| 0 <= gi < gs.len() && 0 <= m < gs[gi].indices.len()
                && #[trigger] gs[gi].indices[m] == x.idx;
            assert(plat[0] == (st, gs));
            assert(platter_stored(pls[0], plat[0].0, plat[0].1, mode));
            assert(pls[0][st.len() + gi] == Piece::Group(gs[gi]));
            assert(gs[gi].indices[m] as int == i);
            assert(covers(pls[0][st.len() + gi], i));
        }
    }
}

// ---------------------------------------------------------------- the PLTZ encoder

/// What `encode` needs for `decode` to give the data back: the limits of
/// the format's fields. At most 2^32 - 1 bytes, track indices and group
/// sizes that fit their 16-bit fields, entry counts that fit theirs.
pub open spec fn pltz_encodable(data: Seq<u8>, table: Seq<FloatTrack>) -> bool {
    let spt = spec_best_spt(data, table);
    let gs = spec_plan(data, spt, table).0;
    let rem = spec_plan(data, spt, table).1;
    &&& data.len() <= 0xFFFF_FFFF
    &&& spec_num_tracks(data.len() as int, spt) <= 65536
    &&& forall|g: int| 0 <= g < gs.len() ==> (#[trigger] gs[g]).indices.len() <= 65535
    &&& not_tag(rem, 7).len() + gs.len() <= 65535
    &&& by_tag(rem, 7).len() <= 65535
}

/// What `encode` stores for non-empty `data`:
/// the header, then the plan's platters, every entry stored as
/// `platter_stored` says.
pub open spec fn pltz_stored(r: Seq<u8>, data: Seq<u8>, table: Seq<FloatTrack>, mode: RawCompressor) -> bool {
    let spt = spec_best_spt(data, table);
    let plat = platters_normal(spec_plan(data, spt, table).0, spec_plan(data, spt, table).1);
    exists|pls: Seq<Seq<Piece>>|
        pls.len() == plat.len()
        && (forall|p: int| 0 <= p < pls.len() ==> platter_stored(#[trigger] pls[p], plat[p].0, plat[p].1, mode))
        && r == pltz_header(data.len() as u32, spt as u16, (plat.len() % 65536) as u16) + #[trigger] platters_bytes(pls)
}

/// `r` is what the PLTZ encoder gives for `data` (at most 2^32 - 1
/// bytes): the empty container for no data; otherwise the header with the
/// data's length and the chosen track size, then the plan's platters; and
/// it decodes back to `data` when `data` is `pltz_encodable`.
#[verifier::opaque]
pub open spec fn pltz_result(r: Seq<u8>, data: Seq<u8>, table: Seq<FloatTrack>, mode: RawCompressor) -> bool {
    let spt = spec_best_spt(data, table);
    &&& data.len() == 0 ==> r == pltz_header(0, 256, 0)
    &&& data.len() > 0 ==> r.len() >= 12
        && exists|np: u16| r.subrange(0, 12) == #[trigger] pltz_header(data.len() as u32, spt as u16, np)
    &&& data.len() > 0 ==> pltz_stored(r, data, table, mode)
    &&& pltz_encodable(data, table) ==> spec_decode(r, table) == Some(Ok::<Seq<u8>, DecodeError>(data))
}

/// A PLTZ result for `pltz_encodable` data decodes back to it.
pub proof fn lemma_pltz_result_decodes(r: Seq<u8>, data: Seq<u8>, table: Seq<FloatTrack>, mode: RawCompressor)
    requires pltz_result(r, data, table, mode), pltz_encodable(data, table),
    ensures spec_decode(r, table) == Some(Ok::<Seq<u8>, DecodeError>(data)),
{
    reveal(pltz_result);
}

proof fn lemma_candidate_range(i: int)
    ensures 8 <= spec_sector_candidate(i) <= 512,
{
}

/// Encode `data` (at most 2^32 - 1 bytes) as one PLTZ container.
#[verifier::spinoff_prover]
#[verifier::rlimit(60)]
fn encode_pltz(data: &[u8], mode: RawCompressor, table: &FloatTable) -> (r: Vec<u8>)
    requires data.len() <= 0xFFFF_FFFF, data.len() + 1024 <= usize::MAX, float_table_ok(table.entries@),
    ensures pltz_result(r@, data@, table.entries@, mode),
{
    reveal(pltz_result);
    let mut buf: Vec<u8> = Vec::new();
    buf.push(0x50);
    buf.push(0x4C);
    buf.push(0x54);
    buf.push(0x5A);
    if data.len() == 0 {
        push_u32(&mut buf, 0);
        push_u16(&mut buf, 256);
        push_u16(&mut buf, 0);
        proof {
            assert(buf@ =~= pltz_header(0, 256, 0));
            assert(buf@.subrange(4, 8) =~= u32_bytes(0));
            crate::bytes::lemma_u32_bytes(0, buf@, 4);
            assert(data@ =~= Seq::<u8>::empty());
        }
        return buf;
    }
    let geom = best_geometry(data, table);
    let spt = geom.sectors_per_track;
    let ghost sp = spec_best_spt(data@, table.entries@);
    proof { lemma_candidate_range(best_from(data@, table.entries@, 1, 0)); }
    let (metas, rem, Ghost(all)) = plan_geometry(data, spt, table);
    let ghost e = spec_encs(data@, spt as int, table.entries@);
    let ghost t = spec_num_tracks(data@.len() as int, spt as int);
    proof {
        reveal(spec_plan);
        lemma_cross_covers(e);
        lemma_ceil_div(data@.len() as int, spt as int);
        assert(rem@.len() * spt <= t * spt) by (nonlinear_arith) requires rem@.len() <= t, spt >= 0;
        assert forall|k: int| 0 <= k < rem@.len() && (#[trigger] rem@[k]).pattern == PatternType::Raw implies
            rem@[k].params@ is Raw && rem@[k].params@->Raw_data.len() == spt by {
            assert(encs_view(rem@)[k] == rem@[k]@);
            assert(e.contains(rem@[k]@));
            let j = choose|j: int| 0 <= j < e.len() && e[j] == rem@[k]@;
            assert(encs_view(all)[j] == all[j]@);
            assert(analyzed_at(spec_track(data@, spt as int, j), j, table.entries@, all[j]));
        }
    }
    let ghost plan = spec_plan(data@, spt as int, table.entries@);
    let platters = split_platters(metas, rem);
    push_u32(&mut buf, data.len() as u32);
    push_u16(&mut buf, spt as u16);
    push_u16(&mut buf, (platters.len() % 65536) as u16);
    let ghost head = buf@;
    let pls = write_platters(&mut buf, &platters, mode);
    proof {
        let np = (platters@.len() % 65536) as u16;
        assert(head =~= pltz_header(data.len() as u32, spt as u16, np));
        assert(buf@.subrange(0, 12) =~= head);
        let plat = platters_normal(plan.0, plan.1);
        assert(platters_view(platters@) == plat);
        assert forall|p: int| 0 <= p < pls@.len() implies
            platter_stored(#[trigger] pls@[p], plat[p].0, plat[p].1, mode) by {
            assert(platters_view(platters@)[p] == (encs_view(platters@[p].0@), metas_view(platters@[p].1@)));
        }
        assert(pltz_stored(buf@, data@, table.entries@, mode));
        if pltz_encodable(data@, table.entries@) {
            assert forall|i: int| 0 <= i < e.len() implies
                renders_to(#[trigger] e[i].params, spt as int, table.entries@, spec_track(data@, spt as int, i)) by {
                assert(encs_view(all)[i] == all[i]@);
                assert(analyzed_at(spec_track(data@, spt as int, i), i, table.entries@, all[i]));
            }
            lemma_plan_pieces(data@, spt as int, table.entries@, mode, pls@);
            assert forall|p: int| 0 <= p < pls@.len() implies (#[trigger] pls@[p]).len() <= 65535 by {
                assert(platter_stored(pls@[p], plat[p].0, plat[p].1, mode));
            }
            lemma_pltz_decodes(buf@, data@, spt as int, pls@, table.entries@);
        }
    }
    buf
}

// ---------------------------------------------------------------- chunked encoding

/// Chunk `i` of `data` at `cs` bytes per chunk; the last may be shorter.
pub open spec fn chunk_of(data: Seq<u8>, cs: int, i: int) -> Seq<u8> {
    let start = i * cs;
    let end = if start + cs < data.len() { start + cs } else { data.len() as int };
    data.subrange(start, end)
}

/// Number of chunks of `cs` bytes that hold `len` bytes.
pub open spec fn num_chunks(len: int, cs: int) -> int {
    if len == 0 { 0 } else { spec_num_tracks(len, cs) }
}

/// The 15-byte header of a chunked (PLTS) container.
pub open spec fn plts_header(len: u32, cs: u32, n: u16) -> Seq<u8> {
    seq![0x50u8, 0x4Cu8, 0x54u8, 0x53u8, FORMAT_VERSION] + u32_bytes(len) + u32_bytes(cs) + u16_bytes(n)
}

/// One chunk as stored: its length, then its bytes.
pub open spec fn frame(c: Seq<u8>) -> Seq<u8> {
    u32_bytes(c.len() as u32) + c
}

/// The stored chunks, one after another.
pub open spec fn frames(parts: Seq<Seq<u8>>) -> Seq<u8>
    decreases parts.len(),
{
    if parts.len() == 0 { Seq::empty() } else { frames(parts.drop_last()) + frame(parts.last()) }
}

/// `r` is what the chunked encoder gives for `data` at `cs` bytes per
/// chunk: the header, then each chunk as its own container, framed by its
/// length; it decodes back to `data` when the data fits 2^32 - 1 bytes,
/// the chunk count and every stored chunk fit their fields, and every chunk
/// is `pltz_encodable`.
pub open spec fn plts_result(r: Seq<u8>, data: Seq<u8>, cs: int, table: Seq<FloatTrack>, mode: RawCompressor) -> bool {
    let n = num_chunks(data.len() as int, cs);
    exists|parts: Seq<Seq<u8>>| {
        &&& parts.len() == n
        &&& r == plts_header(data.len() as u32, cs as u32, n as u16) + #[trigger] frames(parts)
        &&& forall|i: int| 0 <= i < n && chunk_of(data, cs, i).len() <= 0xFFFF_FFFF ==>
            pltz_result(#[trigger] parts[i], chunk_of(data, cs, i), table, mode)
        &&& forall|i: int| 0 <= i < n && chunk_of(data, cs, i).len() > 0xFFFF_FFFF ==> is_plts(#[trigger] parts[i])
        &&& (data.len() <= 0xFFFF_FFFF && n <= 65535
            && (forall|i: int| 0 <= i < n ==> #[trigger] pltz_encodable(chunk_of(data, cs, i), table))
            && (forall|i: int| 0 <= i < n ==> (#[trigger] parts[i]).len() <= 0xFFFF_FFFF))
            ==> spec_decode(r, table) == Some(Ok::<Seq<u8>, DecodeError>(data))
    }
}

pub proof fn lemma_frames_front(parts: Seq<Seq<u8>>)
    requires parts.len() > 0,
    ensures frames(parts) == frame(parts[0]) + frames(parts.drop_first()),
    decreases parts.len(),
{
    if parts.len() == 1 {
        assert(parts.drop_last() =~= Seq::<Seq<u8>>::empty());
        assert(parts.drop_first() =~= Seq::<Seq<u8>>::empty());
        assert(frames(Seq::<Seq<u8>>::empty()) == Seq::<u8>::empty());
        assert(frames(parts) =~= frame(parts[0]));
    } else {
        lemma_frames_front(parts.drop_last());
        assert(parts.drop_last().drop_first() =~= parts.drop_first().drop_last());
        assert(parts.drop_first().last() == parts.last());
        assert(parts.drop_last()[0] == parts[0]);
    }
}

/// Reading stored chunks that each decode to `ts[i]` appends those bytes.
#[verifier::spinoff_prover]
#[verifier::rlimit(40)]
proof fn lemma_chunks_decode(buf: Seq<u8>, off: int, parts: Seq<Seq<u8>>, ts: Seq<Seq<u8>>, acc: Seq<u8>, table: Seq<FloatTrack>)
    requires
        off >= 15, crate::entry::placed(buf, off, frames(parts)), parts.len() == ts.len(),
        forall|i: int| 0 <= i < parts.len() ==> (#[trigger] parts[i]).len() <= 0xFFFF_FFFF,
        forall|i: int| 0 <= i < parts.len() ==> spec_decode(#[trigger] parts[i], table) == Some(Ok::<Seq<u8>, DecodeError>(ts[i])),
    ensures spec_decode_chunks(buf, off, parts.len() as int, acc, table) == Some(Ok::<Seq<u8>, DecodeError>(acc + flatten(ts))),
    decreases parts.len(),
{
    if parts.len() == 0 {
        assert(acc + flatten(ts) =~= acc);
    } else {
        lemma_frames_front(parts);
        let c = parts[0];
        crate::stored::lemma_placed_split(buf, off, frame(c), frames(parts.drop_first()));
        crate::stored::lemma_placed_split(buf, off, u32_bytes(c.len() as u32), c);
        crate::bytes::lemma_u32_bytes(c.len() as u32, buf, off);
        assert(buf.subrange(off + 4, off + 4 + c.len()) =~= c);
        assert(parts[0] == c);
        let r1 = parts.drop_first();
        let t1 = ts.drop_first();
        assert forall|i: int| 0 <= i < r1.len() implies (#[trigger] r1[i]).len() <= 0xFFFF_FFFF by { assert(r1[i] == parts[i + 1]); }
        assert forall|i: int| 0 <= i < r1.len() implies spec_decode(#[trigger] r1[i], table) == Some(Ok::<Seq<u8>, DecodeError>(t1[i])) by {
            assert(r1[i] == parts[i + 1]);
            assert(t1[i] == ts[i + 1]);
        }
        lemma_chunks_decode(buf, off + 4 + c.len(), r1, t1, acc + ts[0], table);
        assert(acc + ts[0] + flatten(t1) =~= acc + flatten(ts));
    }
}

/// The chunks of `data`, one after another, are `data`.
proof fn lemma_chunks_flatten(data: Seq<u8>, cs: int, i: int, n: int)
    requires cs > 0, 0 <= i <= n, (n - 1) * cs < data.len() <= n * cs,
    ensures
        flatten(Seq::new((n - i) as nat, |j: int| chunk_of(data, cs, i + j))) =~= data.subrange(
            if i * cs < data.len() { i * cs } else { data.len() as int }, data.len() as int),
    decreases n - i,
{
    let ts = Seq::new((n - i) as nat, |j: int| chunk_of(data, cs, i + j));
    if i < n {
        lemma_chunks_flatten(data, cs, i + 1, n);
        assert(ts.drop_first() =~= Seq::new((n - (i + 1)) as nat, |j: int| chunk_of(data, cs, i + 1 + j)));
        assert((i + 1) * cs == i * cs + cs) by (nonlinear_arith);
        assert(i * cs <= (n - 1) * cs) by (nonlinear_arith) requires i <= n - 1, cs > 0;
        assert(i * cs >= 0) by (nonlinear_arith) requires i >= 0, cs > 0;
    } else {
        assert(i * cs >= data.len()) by (nonlinear_arith) requires i == n, data.len() <= n * cs;
    }
}

proof fn lemma_plts_magic(r: Seq<u8>, data: Seq<u8>, cs: int, table: Seq<FloatTrack>, mode: RawCompressor)
    requires plts_result(r, data, cs, table, mode),
    ensures is_plts(r),
{
    let parts = choose|parts: Seq<Seq<u8>>| {
        &&& parts.len() == num_chunks(data.len() as int, cs)
        &&& r == plts_header(data.len() as u32, cs as u32, num_chunks(data.len() as int, cs) as u16) + #[trigger] frames(parts)
        &&& forall|i: int| 0 <= i < num_chunks(data.len() as int, cs) && chunk_of(data, cs, i).len() <= 0xFFFF_FFFF ==>
            pltz_result(#[trigger] parts[i], chunk_of(data, cs, i), table, mode)
        &&& forall|i: int| 0 <= i < num_chunks(data.len() as int, cs) && chunk_of(data, cs, i).len() > 0xFFFF_FFFF ==> is_plts(#[trigger] parts[i])
        &&& (data.len() <= 0xFFFF_FFFF && num_chunks(data.len() as int, cs) <= 65535
            && (forall|i: int| 0 <= i < num_chunks(data.len() as int, cs) ==> #[trigger] pltz_encodable(chunk_of(data, cs, i), table))
            && (forall|i: int| 0 <= i < num_chunks(data.len() as int, cs) ==> (#[trigger] parts[i]).len() <= 0xFFFF_FFFF))
            ==> spec_decode(r, table) == Some(Ok::<Seq<u8>, DecodeError>(data))
    };
    assert(r[0] == 0x50 && r[1] == 0x4C && r[2] == 0x54 && r[3] == 0x53);
}

/// The chunks of `data` at `cs` bytes per chunk, one after another, are `data`.
proof fn lemma_chunks_cover(data: Seq<u8>, cs: int)
    requires cs > 0,
    ensures flatten(Seq::new(num_chunks(data.len() as int, cs) as nat, |j: int| chunk_of(data, cs, j))) == data,
{
    let n = num_chunks(data.len() as int, cs);
    let ts = Seq::new(n as nat, |j: int| chunk_of(data, cs, j));
    if data.len() > 0 { lemma_ceil_div(data.len() as int, cs); }
    if n > 0 {
        lemma_chunks_flatten(data, cs, 0, n);
        assert(ts =~= Seq::new((n - 0) as nat, |j: int| chunk_of(data, cs, 0 + j)));
        assert(0 * cs == 0);
        assert(data.subrange(0, data.len() as int) =~= data);
    } else {
        assert(flatten(ts) =~= Seq::<u8>::empty());
        assert(data =~= Seq::<u8>::empty());
    }
}

proof fn lemma_plts_header_fields(buf: Seq<u8>, len: u32, hcs: u32, n: u16)
    requires crate::entry::placed(buf, 0, plts_header(len, hcs, n)),
    ensures is_plts(buf), buf.len() >= 15, buf[4] == FORMAT_VERSION, le32(buf, 5) == len, le16(buf, 13) == n,
{
    let h = plts_header(len, hcs, n);
    crate::entry::lemma_placed(buf, 0, h);
    assert(buf.subrange(5, 9) =~= u32_bytes(len)) by {
        assert forall|j: int| 0 <= j < 4 implies #[trigger] buf.subrange(5, 9)[j] == u32_bytes(len)[j] by {
            assert(buf[5 + j] == h[5 + j]);
        }
    }
    assert(buf.subrange(13, 15) =~= u16_bytes(n)) by {
        assert forall|j: int| 0 <= j < 2 implies #[trigger] buf.subrange(13, 15)[j] == u16_bytes(n)[j] by {
            assert(buf[13 + j] == h[13 + j]);
        }
    }
    crate::bytes::lemma_u32_bytes(len, buf, 5);
    crate::bytes::lemma_u16_bytes(n, buf, 13);
    assert(buf[0] == h[0] && buf[1] == h[1] && buf[2] == h[2] && buf[3] == h[3] && buf[4] == h[4]);
}

/// How a PLTS container is read: its chunks, cut to the stated length.
proof fn lemma_decode_plts(buf: Seq<u8>, table: Seq<FloatTrack>)
    requires is_plts(buf), buf.len() >= 15, buf[4] <= FORMAT_VERSION,
    ensures spec_decode(buf, table) == match spec_decode_chunks(buf, 15, le16(buf, 13), Seq::empty(), table) {
        None => None,
        Some(Err(e)) => Some(Err(e)),
        Some(Ok(t)) => Some(Ok::<Seq<u8>, DecodeError>(truncated(t, le32(buf, 5)))),
    },
{
    assert(!(buf.len() < 10));
    assert(spec_decode(buf, table) == spec_decode_chunked(buf, table));
}

/// A chunked container whose stored chunks each decode to their chunk of
/// `data` decodes to `data`.
#[verifier::spinoff_prover]
#[verifier::rlimit(60)]
proof fn lemma_plts_decodes(buf: Seq<u8>, data: Seq<u8>, cs: int, hcs: u32, parts: Seq<Seq<u8>>, table: Seq<FloatTrack>)
    requires
        cs > 0, data.len() <= 0xFFFF_FFFF, num_chunks(data.len() as int, cs) <= 65535,
        parts.len() == num_chunks(data.len() as int, cs),
        buf == plts_header(data.len() as u32, hcs, parts.len() as u16) + frames(parts),
        forall|i: int| 0 <= i < parts.len() ==> (#[trigger] parts[i]).len() <= 0xFFFF_FFFF,
        forall|i: int| 0 <= i < parts.len() ==>
            spec_decode(#[trigger] parts[i], table) == Some(Ok::<Seq<u8>, DecodeError>(chunk_of(data, cs, i))),
    ensures spec_decode(buf, table) == Some(Ok::<Seq<u8>, DecodeError>(data)),
{
    let n = parts.len() as int;
    let ts = Seq::new(n as nat, |j: int| chunk_of(data, cs, j));
    let h = plts_header(data.len() as u32, hcs, n as u16);
    let f = frames(parts);
    assert(buf.subrange(0, buf.len() as int) =~= h + f);
    crate::stored::lemma_placed_split(buf, 0, h, f);
    lemma_plts_header_fields(buf, data.len() as u32, hcs, n as u16);
    lemma_chunks_decode(buf, 15, parts, ts, Seq::empty(), table);
    lemma_chunks_cover(data, cs);
    assert(Seq::<u8>::empty() + flatten(ts) =~= data);
    assert(truncated(data, data.len() as int) == data);
    lemma_decode_plts(buf, table);
}

/// Chunk `j` starts inside the data and is no longer than it.
proof fn lemma_chunk_len(data: Seq<u8>, cs: int, j: int)
    requires cs > 0, 0 <= j < num_chunks(data.len() as int, cs),
    ensures 0 <= j * cs < data.len(), chunk_of(data, cs, j).len() <= data.len(), chunk_of(data, cs, j).len() <= cs,
{
    let n = num_chunks(data.len() as int, cs);
    lemma_ceil_div(data.len() as int, cs);
    assert(j * cs <= (n - 1) * cs) by (nonlinear_arith) requires j <= n - 1, cs > 0;
    assert(j * cs >= 0) by (nonlinear_arith) requires j >= 0, cs > 0;
}

/// The chunked encoder's output decodes back under the conditions
/// `plts_result` names.
#[verifier::spinoff_prover]
#[verifier::rlimit(60)]
proof fn lemma_plts_roundtrip(buf: Seq<u8>, data: Seq<u8>, cs: int, parts: Seq<Seq<u8>>, table: Seq<FloatTrack>, mode: RawCompressor)
    requires
        data.len() == 0 || cs > 0, 0 <= cs <= usize::MAX,
        parts.len() == num_chunks(data.len() as int, cs),
        buf == plts_header(data.len() as u32, cs as u32, num_chunks(data.len() as int, cs) as u16) + frames(parts),
        forall|j: int| 0 <= j < parts.len() && chunk_of(data, cs, j).len() <= 0xFFFF_FFFF ==>
            pltz_result(#[trigger] parts[j], chunk_of(data, cs, j), table, mode),
        data.len() <= 0xFFFF_FFFF, num_chunks(data.len() as int, cs) <= 65535,
        forall|j: int| 0 <= j < parts.len() ==> #[trigger] pltz_encodable(chunk_of(data, cs, j), table),
        forall|j: int| 0 <= j < parts.len() ==> (#[trigger] parts[j]).len() <= 0xFFFF_FFFF,
    ensures spec_decode(buf, table) == Some(Ok::<Seq<u8>, DecodeError>(data)),
{
    let n = num_chunks(data.len() as int, cs);
    if n == 0 {
        if data.len() > 0 { lemma_ceil_div(data.len() as int, cs); }
        assert(data =~= Seq::<u8>::empty());
    }
    let c2 = if n == 0 { 1 } else { cs };
    assert forall|j: int| 0 <= j < parts.len() implies spec_decode(#[trigger] parts[j], table)
        == Some(Ok::<Seq<u8>, DecodeError>(chunk_of(data, c2, j))) by {
        assert(pltz_encodable(chunk_of(data, cs, j), table));
        lemma_chunk_len(data, cs, j);
        lemma_pltz_result_decodes(parts[j], chunk_of(data, cs, j), table, mode);
    }
    lemma_plts_decodes(buf, data, c2, cs as u32, parts, table);
}

/// What the chunked encoder's loop leaves is a `plts_result`.
proof fn lemma_plts_result(buf: Seq<u8>, data: Seq<u8>, cs: int, parts: Seq<Seq<u8>>, table: Seq<FloatTrack>, mode: RawCompressor)
    requires
        data.len() == 0 || cs > 0, 0 <= cs <= usize::MAX,
        parts.len() == num_chunks(data.len() as int, cs),
        buf == plts_header(data.len() as u32, cs as u32, num_chunks(data.len() as int, cs) as u16) + frames(parts),
        forall|j: int| 0 <= j < parts.len() && chunk_of(data, cs, j).len() <= 0xFFFF_FFFF ==>
            pltz_result(#[trigger] parts[j], chunk_of(data, cs, j), table, mode),
        forall|j: int| 0 <= j < parts.len() && chunk_of(data, cs, j).len() > 0xFFFF_FFFF ==> is_plts(#[trigger] parts[j]),
    ensures plts_result(buf, data, cs, table, mode),
{
    let n = num_chunks(data.len() as int, cs);
    if data.len() <= 0xFFFF_FFFF && n <= 65535
        && (forall|j: int| 0 <= j < n ==> #[trigger] pltz_encodable(chunk_of(data, cs, j), table))
        && (forall|j: int| 0 <= j < n ==> (#[trigger] parts[j]).len() <= 0xFFFF_FFFF) {
        lemma_plts_roundtrip(buf, data, cs, parts, table, mode);
    }
    assert(buf == plts_header(data.len() as u32, cs as u32, n as u16) + frames(parts));
}

/// Split `data` into chunks of `chunk_size` bytes and store each as its
/// own container, framed by its length, after the chunked (PLTS) header.
#[verifier::spinoff_prover]
#[verifier::rlimit(60)]
pub fn encode_chunked(data: &[u8], mode: RawCompressor, chunk_size: usize, table: &FloatTable) -> (r: Vec<u8>)
    requires
        data.len() == 0 || chunk_size > 0,
        data.len() + chunk_size <= usize::MAX, data.len() + 0x400_0000 <= usize::MAX, float_table_ok(table.entries@),
    ensures plts_result(r@, data@, chunk_size as int, table.entries@, mode),
    decreases data@.len(), if chunk_size > 0x400_0000 { 3int } else { 1int },
{
    let n: usize = if data.len() == 0 { 0 } else { (data.len() - 1 + chunk_size) / chunk_size };
    proof {
        if data.len() > 0 { lemma_ceil_div(data.len() as int, chunk_size as int); }
    }
    let mut buf: Vec<u8> = Vec::new();
    buf.push(0x50);
    buf.push(0x4C);
    buf.push(0x54);
    buf.push(0x53);
    buf.push(FORMAT_VERSION);
    push_u32(&mut buf, data.len() as u32);
    push_u32(&mut buf, chunk_size as u32);
    push_u16(&mut buf, n as u16);
    let ghost head = buf@;
    proof { assert(head =~= plts_header(data.len() as u32, chunk_size as u32, n as u16)); }
    let ghost mut parts: Seq<Seq<u8>> = Seq::empty();
    let mut i: usize = 0;
    while i < n
        invariant
            i <= n, n == num_chunks(data@.len() as int, chunk_size as int), data.len() == 0 || chunk_size > 0,
            data.len() > 0 ==> (n - 1) * chunk_size < data.len() <= n * chunk_size,
            data.len() + chunk_size <= usize::MAX, data.len() + 0x400_0000 <= usize::MAX, float_table_ok(table.entries@),
            parts.len() == i, buf@ == head + frames(parts),
            forall|j: int| 0 <= j < i && chunk_of(data@, chunk_size as int, j).len() <= 0xFFFF_FFFF ==>
                pltz_result(#[trigger] parts[j], chunk_of(data@, chunk_size as int, j), table.entries@, mode),
            forall|j: int| 0 <= j < i && chunk_of(data@, chunk_size as int, j).len() > 0xFFFF_FFFF ==> is_plts(#[trigger] parts[j]),
        decreases n - i,
    {
        proof {
            assert(i * chunk_size <= (n - 1) * chunk_size) by (nonlinear_arith) requires i <= n - 1, chunk_size >= 0;
            assert(i * chunk_size >= 0) by (nonlinear_arith) requires i >= 0, chunk_size >= 0;
        }
        let start = i * chunk_size;
        let end = if chunk_size < data.len() - start { start + chunk_size } else { data.len() };
        let chunk = vstd::slice::slice_subrange(data, start, end);
        proof { assert(chunk@ =~= chunk_of(data@, chunk_size as int, i as int)); }
        let c = encode(chunk, mode, table);
        proof {
            if chunk@.len() > 0xFFFF_FFFF { lemma_plts_magic(c@, chunk@, 0x400_0000, table.entries@, mode); }
        }
        push_u32(&mut buf, c.len() as u32);
        push_bytes(&mut buf, c.as_slice());
        proof {
            assert(parts.push(c@).drop_last() =~= parts);
            parts = parts.push(c@);
            assert(buf@ =~= head + frames(parts));
        }
        i += 1;
    }
    proof { lemma_plts_result(buf@, data@, chunk_size as int, parts, table.entries@, mode); }
    buf
}

/// Encode (compress) `data` into the PLTZ format; data longer than
/// 2^32 - 1 bytes goes into the chunked format at 64 MiB per chunk.
/// Floating-point findings are taken from `table`.
pub fn encode(data: &[u8], mode: RawCompressor, table: &FloatTable) -> (r: Vec<u8>)
    requires data.len() + 0x400_0000 <= usize::MAX, float_table_ok(table.entries@),
    ensures
        data.len() <= 0xFFFF_FFFF ==> pltz_result(r@, data@, table.entries@, mode),
        data.len() > 0xFFFF_FFFF ==> plts_result(r@, data@, 0x400_0000, table.entries@, mode),
    decreases data@.len(), if data@.len() > 0xFFFF_FFFF { 2int } else { 0int },
{
    if data.len() > 0xFFFF_FFFF {
        return encode_chunked(data, mode, 0x400_0000, table);
    }
    encode_pltz(data, mode, table)
}

// ---------------------------------------------------------------- columnar pre-processing

/// `r` is what `encode` gives for `data`.
pub open spec fn encode_result(r: Seq<u8>, data: Seq<u8>, table: Seq<FloatTrack>, mode: RawCompressor) -> bool {
    if data.len() <= 0xFFFF_FFFF { pltz_result(r, data, table, mode) } else { plts_result(r, data, 0x400_0000, table, mode) }
}

/// `data` fits one PLTZ container and is `pltz_encodable`.
pub open spec fn encode_ok(data: Seq<u8>, table: Seq<FloatTrack>) -> bool {
    data.len() <= 0xFFFF_FFFF && pltz_encodable(data, table)
}

/// Two stored forms of one platter are the same entries.
proof fn lemma_platter_unique(ps1: Seq<Piece>, ps2: Seq<Piece>, encs: Seq<EncView>, gs: Seq<MetaView>, mode: RawCompressor)
    requires platter_stored(ps1, encs, gs, mode), platter_stored(ps2, encs, gs, mode),
    ensures ps1 == ps2,
{
    assert forall|k: int| 0 <= k < ps1.len() implies ps1[k] == ps2[k] by {
        if k < encs.len() {
            let e = encs[k];
            assert(track_piece(ps1[k], e, mode) && track_piece(ps2[k], e, mode));
            let want = Piece::Track(e.idx, stored_params(e, mode, chosen_form(e, mode)));
            assert(ps1[k] == want) by { match ps1[k] { Piece::Track(i, q) => {}, Piece::Group(_) => {} } }
            assert(ps2[k] == want) by { match ps2[k] { Piece::Track(i, q) => {}, Piece::Group(_) => {} } }
        } else {
            let j = k - encs.len();
            assert(ps1[encs.len() + j] == Piece::Group(gs[j]));
            assert(ps2[encs.len() + j] == Piece::Group(gs[j]));
        }
    }
    assert(ps1 =~= ps2);
}

/// Two PLTZ results for the same data, table and mode are the same bytes.
#[verifier::spinoff_prover]
#[verifier::rlimit(40)]
proof fn lemma_pltz_unique(r1: Seq<u8>, r2: Seq<u8>, data: Seq<u8>, table: Seq<FloatTrack>, mode: RawCompressor)
    requires pltz_result(r1, data, table, mode), pltz_result(r2, data, table, mode),
    ensures r1 == r2,
{
    reveal(pltz_result);
    if data.len() > 0 {
        let spt = spec_best_spt(data, table);
        let plat = platters_normal(spec_plan(data, spt, table).0, spec_plan(data, spt, table).1);
        let pls1 = choose|pls: Seq<Seq<Piece>>| pls.len() == plat.len()
            && (forall|p: int| 0 <= p < pls.len() ==> platter_stored(#[trigger] pls[p], plat[p].0, plat[p].1, mode))
            && r1 == pltz_header(data.len() as u32, spt as u16, (plat.len() % 65536) as u16) + #[trigger] platters_bytes(pls);
        let pls2 = choose|pls: Seq<Seq<Piece>>| pls.len() == plat.len()
            && (forall|p: int| 0 <= p < pls.len() ==> platter_stored(#[trigger] pls[p], plat[p].0, plat[p].1, mode))
            && r2 == pltz_header(data.len() as u32, spt as u16, (plat.len() % 65536) as u16) + #[trigger] platters_bytes(pls);
        assert forall|p: int| 0 <= p < pls1.len() implies pls1[p] == pls2[p] by {
            lemma_platter_unique(pls1[p], pls2[p], plat[p].0, plat[p].1, mode);
        }
        assert(pls1 =~= pls2);
    }
}

/// Encoding is a function of its input: any two results `encode` can give
/// for the same data, float table and fallback compressor are the same
/// bytes.
pub proof fn law_encode_deterministic(r1: Seq<u8>, r2: Seq<u8>, data: Seq<u8>, table: Seq<FloatTrack>, mode: RawCompressor)
    requires encode_result(r1, data, table, mode), encode_result(r2, data, table, mode),
    ensures r1 == r2,
{
    if data.len() <= 0xFFFF_FFFF {
        lemma_pltz_unique(r1, r2, data, table, mode);
    } else {
        let cs = 0x400_0000int;
        let n = num_chunks(data.len() as int, cs);
        let parts1 = choose|parts: Seq<Seq<u8>>| {
            &&& parts.len() == n
            &&& r1 == plts_header(data.len() as u32, cs as u32, n as u16) + #[trigger] frames(parts)
            &&& forall|i: int| 0 <= i < n && chunk_of(data, cs, i).len() <= 0xFFFF_FFFF ==>
                pltz_result(#[trigger] parts[i], chunk_of(data, cs, i), table, mode)
            &&& forall|i: int| 0 <= i < n && chunk_of(data, cs, i).len() > 0xFFFF_FFFF ==> is_plts(#[trigger] parts[i])
            &&& (data.len() <= 0xFFFF_FFFF && n <= 65535
                && (forall|i: int| 0 <= i < n ==> #[trigger] pltz_encodable(chunk_of(data, cs, i), table))
                && (forall|i: int| 0 <= i < n ==> (#[trigger] parts[i]).len() <= 0xFFFF_FFFF))
                ==> spec_decode(r1, table) == Some(Ok::<Seq<u8>, DecodeError>(data))
        };
        let parts2 = choose|parts: Seq<Seq<u8>>| {
            &&& parts.len() == n
            &&& r2 == plts_header(data.len() as u32, cs as u32, n as u16) + #[trigger] frames(parts)
            &&& forall|i: int| 0 <= i < n && chunk_of(data, cs, i).len() <= 0xFFFF_FFFF ==>
                pltz_result(#[trigger] parts[i], chunk_of(data, cs, i), table, mode)
            &&& forall|i: int| 0 <= i < n && chunk_of(data, cs, i).len() > 0xFFFF_FFFF ==> is_plts(#[trigger] parts[i])
            &&& (data.len() <= 0xFFFF_FFFF && n <= 65535
                && (forall|i: int| 0 <= i < n ==> #[trigger] pltz_encodable(chunk_of(data, cs, i), table))
                && (forall|i: int| 0 <= i < n ==> (#[trigger] parts[i]).len() <= 0xFFFF_FFFF))
                ==> spec_decode(r2, table) == Some(Ok::<Seq<u8>, DecodeError>(data))
        };
        assert forall|i: int| 0 <= i < n implies parts1[i] == parts2[i] by {
            let len = data.len() as int;
            assert(i * cs < len) by (nonlinear_arith)
                requires 0 <= i, i < (len + cs - 1) / cs, cs == 0x400_0000;
            assert(chunk_of(data, cs, i).len() <= 0xFFFF_FFFF);
            lemma_pltz_unique(parts1[i], parts2[i], chunk_of(data, cs, i), table, mode);
        }
        assert(parts1 =~= parts2);
    }
}

/// The 10-byte header of a columnar (PLTC) container: magic, original
/// length, stride.
pub open spec fn pltc_header(len: u32, stride: u16) -> Seq<u8> {
    seq![0x50u8, 0x4Cu8, 0x54u8, 0x43u8] + u32_bytes(len) + u16_bytes(stride)
}

/// `r` is the columnar form of `data` at `stride`: the header, then what
/// `encode` gives for the transposed bytes.
pub open spec fn columnar_result(r: Seq<u8>, data: Seq<u8>, stride: int, table: Seq<FloatTrack>, mode: RawCompressor) -> bool {
    exists|inner: Seq<u8>| r == #[trigger] pltc_header(data.len() as u32, stride as u16) + inner
        && encode_result(inner, spec_columnar(data, stride), table, mode)
}

/// A stride `encode_auto` tries on `data`.
pub open spec fn stride_tried(stride: usize, data: Seq<u8>) -> bool {
    0 < stride < data.len()
}

/// A columnar container around an encoding that decodes to the
/// transposed data decodes to the data.
pub(crate) proof fn lemma_pltc_decodes(buf: Seq<u8>, data: Seq<u8>, stride: int, inner: Seq<u8>, table: Seq<FloatTrack>)
    requires
        buf == pltc_header(data.len() as u32, stride as u16) + inner,
        0 < stride <= 65535, data.len() <= 0xFFFF_FFFF, data.len() + stride <= usize::MAX,
        spec_decode(inner, table) == Some(Ok::<Seq<u8>, DecodeError>(spec_columnar(data, stride))),
    ensures spec_decode(buf, table) == Some(Ok::<Seq<u8>, DecodeError>(data)),
{
    let h = pltc_header(data.len() as u32, stride as u16);
    assert(buf.subrange(4, 8) =~= u32_bytes(data.len() as u32));
    assert(buf.subrange(8, 10) =~= u16_bytes(stride as u16));
    crate::bytes::lemma_u32_bytes(data.len() as u32, buf, 4);
    crate::bytes::lemma_u16_bytes(stride as u16, buf, 8);
    assert(buf.subrange(10, buf.len() as int) =~= inner);
    crate::columnar::lemma_columnar_roundtrip(data, stride);
    if inner.len() < 10 {
        assert(spec_decode(inner, table) == Some(Err::<Seq<u8>, DecodeError>(DecodeError::TooShort)));
    }
    assert(buf.len() >= 10);
    assert(!is_plts(buf));
    assert(is_pltc(buf));
}

/// What `encode` gives for data that `encode_ok` admits decodes back to it.
pub(crate) proof fn lemma_encode_result_decodes(r: Seq<u8>, data: Seq<u8>, table: Seq<FloatTrack>, mode: RawCompressor)
    requires encode_result(r, data, table, mode), encode_ok(data, table),
    ensures spec_decode(r, table) == Some(Ok::<Seq<u8>, DecodeError>(data)),
{
    lemma_pltz_result_decodes(r, data, table, mode);
}

/// Transpose `data` into columns of `stride` bytes and encode that; the
/// columnar container when it is strictly shorter than `best_len`, and in
/// any case the inner encoding.
#[verifier::spinoff_prover]
#[verifier::rlimit(40)]
fn consider_stride(data: &[u8], mode: RawCompressor, stride: usize, table: &FloatTable, best_len: usize)
    -> (r: (Option<Vec<u8>>, Ghost<Seq<u8>>))
    requires
        2 * data.len() + 0x400_0000 <= usize::MAX, float_table_ok(table.entries@), 0 < stride < data.len(),
    ensures
        encode_result(r.1@, spec_columnar(data@, stride as int), table.entries@, mode),
        match r.0 {
            Some(buf) => columnar_result(buf@, data@, stride as int, table.entries@, mode)
                && buf@.len() == 10 + r.1@.len() && buf@.len() < best_len
                && (encode_ok(data@, table.entries@) && stride <= 65535
                    && encode_ok(spec_columnar(data@, stride as int), table.entries@)
                    ==> spec_decode(buf@, table.entries@) == Some(Ok::<Seq<u8>, DecodeError>(data@))),
            None => best_len <= 10 + r.1@.len(),
        },
{
    let transformed = crate::columnar::columnar_transform(data, stride);
    proof {
        lemma_ceil_div(data@.len() as int, stride as int);
        assert(transformed@.len() < data@.len() + stride);
    }
    let inner = encode(transformed.as_slice(), mode, table);
    if best_len > 10 && inner.len() < best_len - 10 {
        let mut buf: Vec<u8> = Vec::new();
        buf.push(0x50);
        buf.push(0x4C);
        buf.push(0x54);
        buf.push(0x43);
        push_u32(&mut buf, data.len() as u32);
        push_u16(&mut buf, stride as u16);
        push_bytes(&mut buf, inner.as_slice());
        proof {
            assert(buf@ =~= pltc_header(data.len() as u32, stride as u16) + inner@);
            assert(encode_result(inner@, spec_columnar(data@, stride as int), table.entries@, mode));
            if encode_ok(data@, table.entries@) && stride <= 65535
                && encode_ok(spec_columnar(data@, stride as int), table.entries@) {
                lemma_encode_result_decodes(inner@, transformed@, table.entries@, mode);
                lemma_pltc_decodes(buf@, data@, stride as int, inner@, table.entries@);
            }
        }
        (Some(buf), Ghost(inner@))
    } else {
        (None, Ghost(inner@))
    }
}

/// Encode `data` as it is and, for each stride in `strides` below its
/// length, transposed into columns of that many bytes (PLTC); keep the
/// smallest, the plain encoding on a tie.
#[verifier::spinoff_prover]
#[verifier::rlimit(60)]
pub fn encode_auto(data: &[u8], mode: RawCompressor, strides: &[usize], table: &FloatTable) -> (r: Vec<u8>)
    requires 2 * data.len() + 0x400_0000 <= usize::MAX, float_table_ok(table.entries@),
    ensures
        encode_result(r@, data@, table.entries@, mode) || exists|k: int| 0 <= k < strides@.len()
            && stride_tried(strides@[k], data@) && #[trigger] columnar_result(r@, data@, strides@[k] as int, table.entries@, mode),
        (encode_ok(data@, table.entries@) && forall|k: int| 0 <= k < strides@.len() && stride_tried(#[trigger] strides@[k], data@)
            ==> strides@[k] <= 65535 && encode_ok(spec_columnar(data@, strides@[k] as int), table.entries@))
            ==> spec_decode(r@, table.entries@) == Some(Ok::<Seq<u8>, DecodeError>(data@)),
        forall|p: Seq<u8>| #[trigger] encode_result(p, data@, table.entries@, mode) ==> r@.len() <= p.len(),
        forall|k: int, p: Seq<u8>| 0 <= k < strides@.len() && stride_tried(strides@[k], data@)
            && #[trigger] encode_result(p, spec_columnar(data@, strides@[k] as int), table.entries@, mode)
            ==> r@.len() <= 10 + p.len(),
{
    let mut best = encode(data, mode, table);
    let ghost mut inn: Seq<Seq<u8>> = Seq::empty();
    let ghost plain = best@;
    let ghost cond = encode_ok(data@, table.entries@) && forall|k: int| 0 <= k < strides@.len()
        && stride_tried(#[trigger] strides@[k], data@)
        ==> strides@[k] <= 65535 && encode_ok(spec_columnar(data@, strides@[k] as int), table.entries@);
    proof {
        if cond { lemma_encode_result_decodes(best@, data@, table.entries@, mode); }
    }
    let mut i: usize = 0;
    while i < strides.len()
        invariant
            i <= strides@.len(), 2 * data.len() + 0x400_0000 <= usize::MAX, float_table_ok(table.entries@),
            cond == (encode_ok(data@, table.entries@) && forall|k: int| 0 <= k < strides@.len()
                && stride_tried(#[trigger] strides@[k], data@)
                ==> strides@[k] <= 65535 && encode_ok(spec_columnar(data@, strides@[k] as int), table.entries@)),
            encode_result(best@, data@, table.entries@, mode) || exists|k: int| 0 <= k < i
                && stride_tried(strides@[k], data@) && #[trigger] columnar_result(best@, data@, strides@[k] as int, table.entries@, mode),
            cond ==> spec_decode(best@, table.entries@) == Some(Ok::<Seq<u8>, DecodeError>(data@)),
            best@.len() <= plain.len(),
            inn.len() == i,
            forall|k: int| #![trigger inn[k]] 0 <= k < i && stride_tried(strides@[k], data@) ==>
                encode_result(inn[k], spec_columnar(data@, strides@[k] as int), table.entries@, mode)
                && best@.len() <= 10 + inn[k].len(),
        decreases strides.len() - i,
    {
        let stride = strides[i];
        let ghost best0 = best@;
        let ghost mut here: Seq<u8> = Seq::empty();
        if stride != 0 && stride < data.len() {
            let (alt, Ghost(inner)) = consider_stride(data, mode, stride, table, best.len());
            proof {
                here = inner;
                assert(strides@[i as int] == stride);
            }
            match alt {
                Some(buf) => {
                    proof {
                        assert(columnar_result(buf@, data@, strides@[i as int] as int, table.entries@, mode));
                        if cond {
                            assert(stride_tried(strides@[i as int], data@));
                        }
                    }
                    best = buf;
                }
                None => {}
            }
            proof {
                assert(encode_result(here, spec_columnar(data@, strides@[i as int] as int), table.entries@, mode)
                    && best@.len() <= 10 + here.len());
            }
        }
        proof {
            assert(best@.len() <= best0.len());
            assert(stride_tried(strides@[i as int], data@) ==>
                encode_result(here, spec_columnar(data@, strides@[i as int] as int), table.entries@, mode)
                && best@.len() <= 10 + here.len());
            let old_inn = inn;
            inn = inn.push(here);
            assert forall|k: int| #![trigger inn[k]] 0 <= k < i + 1 && stride_tried(strides@[k], data@) implies
                encode_result(inn[k], spec_columnar(data@, strides@[k] as int), table.entries@, mode)
                && best@.len() <= 10 + inn[k].len() by {
                if k < i {
                    assert(inn[k] == old_inn[k]);
                    assert(encode_result(old_inn[k], spec_columnar(data@, strides@[k] as int), table.entries@, mode)
                        && best0.len() <= 10 + old_inn[k].len());
                } else {
                    assert(inn[k] == here);
                }
            }
        }
        i += 1;
    }
    proof {
        assert forall|p: Seq<u8>| #[trigger] encode_result(p, data@, table.entries@, mode) implies best@.len() <= p.len() by {
            law_encode_deterministic(p, plain, data@, table.entries@, mode);
        }
        assert forall|k: int, p: Seq<u8>| 0 <= k < strides@.len() && stride_tried(strides@[k], data@)
            && #[trigger] encode_result(p, spec_columnar(data@, strides@[k] as int), table.entries@, mode)
            implies best@.len() <= 10 + p.len() by {
            law_encode_deterministic(p, inn[k], spec_columnar(data@, strides@[k] as int), table.entries@, mode);
        }
    }
    best
}

} // verus!
