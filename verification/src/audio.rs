//! Audio (PLTA) container: PCM samples split into frames, each stored
//! losslessly as a PLTZ container or, within a per-sample error bound, as
//! a one-row lossy image.
use vstd::prelude::*;
use crate::bytes::{le16, le32, u16_bytes, push_u16, push_bytes, read_u16, copy_range};
use crate::codec::{encode, encode_result};
use crate::image::{ImageParams, LossyEncoding, compress_image, grouped, numbered, lossy_image, encs_view};
use crate::pattern::{FloatTable, FloatTrack, float_table_ok};
use crate::raw::RawCompressor;

verus! {

/// Audio settings: sample rate, bits per sample (8 or 16), channels, the
/// largest error allowed per sample (0 for lossless), samples per frame.
#[derive(Debug, Clone, Copy, PartialEq, Eq, Structural)]
pub struct AudioParams {
    pub sample_rate: u32,
    pub bits_per_sample: u8,
    pub channels: u8,
    pub quality: u8,
    pub frame_size: u16,
}

/// Bytes per frame.
pub open spec fn frame_bytes(p: AudioParams) -> int {
    p.frame_size * (p.bits_per_sample / 8) * p.channels
}

/// Frames needed for `n` bytes.
pub open spec fn frame_count(n: int, fb: int) -> int {
    if n == 0 { 0 } else { (n + fb - 1) / fb }
}

/// Frame `i` of `s`: `fb` bytes from `i * fb`, fewer at the end.
pub open spec fn audio_frame(s: Seq<u8>, fb: int, i: int) -> Seq<u8> {
    let start = i * fb;
    let end = if start + fb < s.len() { start + fb } else { s.len() as int };
    s.subrange(start, end)
}

/// The 12-byte PLTA header.
pub open spec fn plta_header(p: AudioParams, frames: int) -> Seq<u8> {
    seq![0x50u8, 0x4Cu8, 0x54u8, 0x41u8] + u16_bytes((p.sample_rate / 100) as u16)
        + seq![p.bits_per_sample, p.channels, p.quality, (p.frame_size / 16) as u8] + u16_bytes(frames as u16)
}

/// The image settings a lossy frame of `n` bytes is stored with.
pub open spec fn frame_image(p: AudioParams, n: int) -> ImageParams {
    if p.bits_per_sample == 16 {
        ImageParams { width: (n / 2) as u16, height: 1, bit_depth: 16, quality: p.quality }
    } else {
        ImageParams { width: n as u16, height: 1, bit_depth: 8, quality: p.quality }
    }
}

/// `c` is how frame `f` is stored: a PLTZ container of it when lossless,
/// else a one-row lossy image whose row is stored as `row`.
pub open spec fn frame_stored(c: Seq<u8>, f: Seq<u8>, p: AudioParams, row: (u8, Seq<u8>), table: Seq<FloatTrack>) -> bool {
    if p.quality == 0 {
        encode_result(c, f, table, RawCompressor::Zlib)
    } else {
        exists|gs: Seq<crate::image::RowMetaGroup>| #[trigger] grouped(numbered(seq![row]), gs)
            && c == lossy_image(f.len() as u32, frame_image(p, f.len() as int), seq![row], gs)
    }
}

/// Each stored frame after its 16-bit length.
pub open spec fn frames_bytes(parts: Seq<Seq<u8>>) -> Seq<u8>
    decreases parts.len(),
{
    if parts.len() == 0 { Seq::empty() } else {
        frames_bytes(parts.drop_last()) + u16_bytes(parts.last().len() as u16) + parts.last()
    }
}

/// Compress PCM samples (little-endian, interleaved channels) frame by
/// frame. A lossy frame is stored as a one-row image with the row function
/// `rows[i]`, fitted to the frame within the quality bound.
pub fn compress_audio(samples: &[u8], params: AudioParams, rows: &Vec<LossyEncoding>, table: &FloatTable) -> (r: Vec<u8>)
    requires
        samples@.len() > 0 ==> frame_bytes(params) > 0,
        samples@.len() + 0x400_0000 <= usize::MAX, float_table_ok(table.entries@),
        params.quality != 0 ==> rows@.len() == frame_count(samples@.len() as int, frame_bytes(params)),
    ensures
        ({
            let fb = frame_bytes(params);
            let n = frame_count(samples@.len() as int, fb);
            exists|parts: Seq<Seq<u8>>| {
                &&& parts.len() == n
                &&& r@ == plta_header(params, n) + #[trigger] frames_bytes(parts)
                &&& forall|i: int| 0 <= i < n ==> frame_stored(#[trigger] parts[i], audio_frame(samples@, fb, i), params,
                    if params.quality == 0 { (0u8, Seq::empty()) } else { encs_view(rows@)[i] }, table.entries@)
            }
        }),
{
    let bps = params.bits_per_sample as usize / 8;
    proof {
        assert(params.frame_size * bps <= 65535 * 31) by (nonlinear_arith) requires params.frame_size <= 65535, bps <= 31;
        assert(params.frame_size * bps * params.channels <= 65535 * 31 * 255) by (nonlinear_arith)
            requires params.frame_size * bps <= 65535 * 31, params.channels <= 255;
    }
    let fb = params.frame_size as usize * bps * params.channels as usize;
    let n: usize = if samples.len() == 0 { 0 } else { (samples.len() - 1) / fb + 1 };
    proof {
        if samples@.len() > 0 {
            let a = samples@.len() - 1;
            assert((a + fb) / (fb as int) == a / (fb as int) + 1) by {
                vstd::arithmetic::div_mod::lemma_div_plus_one(a, fb as int);
            }
            crate::platter::lemma_ceil_div(samples@.len() as int, fb as int);
        }
    }
    let mut buf: Vec<u8> = Vec::new();
    buf.push(0x50);
    buf.push(0x4C);
    buf.push(0x54);
    buf.push(0x41);
    push_u16(&mut buf, (params.sample_rate / 100) as u16);
    buf.push(params.bits_per_sample);
    buf.push(params.channels);
    buf.push(params.quality);
    buf.push((params.frame_size / 16) as u8);
    push_u16(&mut buf, n as u16);
    let ghost head = buf@;
    proof { assert(head =~= plta_header(params, n as int)); }
    let ghost mut parts: Seq<Seq<u8>> = Seq::empty();
    let mut i: usize = 0;
    while i < n
        invariant
            i <= n, n == frame_count(samples@.len() as int, fb as int), fb == frame_bytes(params),
            samples@.len() > 0 ==> fb > 0, n > 0 ==> samples@.len() > 0,
            samples@.len() + 0x400_0000 <= usize::MAX, float_table_ok(table.entries@),
            params.quality != 0 ==> rows@.len() == n,
            n > 0 ==> (n - 1) * fb < samples@.len(),
            parts.len() == i, buf@ == head + frames_bytes(parts),
            forall|q: int| 0 <= q < i ==> frame_stored(#[trigger] parts[q], audio_frame(samples@, fb as int, q), params,
                if params.quality == 0 { (0u8, Seq::empty()) } else { encs_view(rows@)[q] }, table.entries@),
        decreases n - i,
    {
        proof {
            assert(i * fb <= (n - 1) * fb) by (nonlinear_arith) requires i <= n - 1;
        }
        let start = i * fb;
        let end = if samples.len() - start > fb { start + fb } else { samples.len() };
        let frame = copy_range(samples, start, end);
        proof { assert(frame@ == audio_frame(samples@, fb as int, i as int)); }
        let c = if params.quality == 0 {
            encode(frame.as_slice(), RawCompressor::Zlib, table)
        } else {
            let ip = if params.bits_per_sample == 16 {
                ImageParams { width: (frame.len() / 2) as u16, height: 1, bit_depth: 16, quality: params.quality }
            } else {
                ImageParams { width: frame.len() as u16, height: 1, bit_depth: 8, quality: params.quality }
            };
            let mut one: Vec<LossyEncoding> = Vec::new();
            one.push(LossyEncoding { tag: rows[i].tag, params: crate::bytes::copy_bytes(rows[i].params.as_slice()) });
            proof {
                assert(encs_view(one@) =~= seq![encs_view(rows@)[i as int]]);
            }
            compress_image(frame.as_slice(), ip, &one, table)
        };
        push_u16(&mut buf, c.len() as u16);
        push_bytes(&mut buf, c.as_slice());
        proof {
            let ghost old_parts = parts;
            parts = parts.push(c@);
            assert(parts.drop_last() =~= old_parts);
            assert(buf@ =~= head + frames_bytes(parts));
            assert(frame_stored(parts[i as int], audio_frame(samples@, fb as int, i as int), params,
                if params.quality == 0 { (0u8, Seq::empty()) } else { encs_view(rows@)[i as int] }, table.entries@));
            assert forall|q: int| 0 <= q < i + 1 implies frame_stored(#[trigger] parts[q], audio_frame(samples@, fb as int, q), params,
                if params.quality == 0 { (0u8, Seq::empty()) } else { encs_view(rows@)[q] }, table.entries@) by {
                if q < i { assert(parts[q] == old_parts[q]); }
            }
        }
        i += 1;
    }
    buf
}

/// Why an audio container was refused.
#[derive(Debug, Clone, Copy, PartialEq, Eq, Structural)]
pub enum AudioError {
    /// shorter than its header, or not "PLTA"
    BadMagic,
    /// a frame's length is missing
    TruncatedFrame,
}

/// The settings stored in an audio header.
pub open spec fn audio_params_of(d: Seq<u8>) -> AudioParams {
    AudioParams {
        sample_rate: (le16(d, 4) * 100) as u32, bits_per_sample: d[6], channels: d[7], quality: d[8],
        frame_size: (d[9] * 16) as u16,
    }
}

/// The first `k` stored frames of `d` from `off`: `Err` where a length is
/// missing, `None` where a frame runs past the end.
pub open spec fn spec_audio_frames(d: Seq<u8>, off: int, k: int) -> Option<Result<Seq<Seq<u8>>, AudioError>>
    decreases k,
{
    if k <= 0 {
        Some(Ok(Seq::empty()))
    } else if off + 2 > d.len() {
        Some(Err(AudioError::TruncatedFrame))
    } else {
        let len = le16(d, off);
        if off + 2 + len > d.len() {
            None
        } else {
            match spec_audio_frames(d, off + 2 + len, k - 1) {
                None => None,
                Some(Err(e)) => Some(Err(e)),
                Some(Ok(rest)) => Some(Ok(seq![d.subrange(off + 2, off + 2 + len)] + rest)),
            }
        }
    }
}

#[verifier::spinoff_prover]
#[verifier::rlimit(30)]
proof fn lemma_frames_bytes_front(parts: Seq<Seq<u8>>)
    requires parts.len() > 0,
    ensures frames_bytes(parts) == u16_bytes(parts[0].len() as u16) + parts[0] + frames_bytes(parts.drop_first()),
    decreases parts.len(),
{
    if parts.len() == 1 {
        assert(parts.drop_last() =~= Seq::<Seq<u8>>::empty());
        assert(parts.drop_first() =~= Seq::<Seq<u8>>::empty());
        assert(frames_bytes(Seq::<Seq<u8>>::empty()) == Seq::<u8>::empty());
        assert(frames_bytes(parts) =~= u16_bytes(parts[0].len() as u16) + parts[0] + frames_bytes(parts.drop_first()));
    } else {
        lemma_frames_bytes_front(parts.drop_last());
        assert(parts.drop_last().drop_first() =~= parts.drop_first().drop_last());
        assert(parts.drop_first().last() == parts.last());
        assert(parts.drop_last()[0] == parts[0]);
    }
}

/// Reading `parts.len()` frames where `frames_bytes(parts)` stands gives
/// back `parts`.
#[verifier::spinoff_prover]
#[verifier::rlimit(30)]
proof fn lemma_audio_frames_read(d: Seq<u8>, off: int, parts: Seq<Seq<u8>>)
    requires
        crate::entry::placed(d, off, frames_bytes(parts)),
        forall|i: int| 0 <= i < parts.len() ==> (#[trigger] parts[i]).len() <= 65535,
    ensures spec_audio_frames(d, off, parts.len() as int) == Some(Ok::<Seq<Seq<u8>>, AudioError>(parts)),
    decreases parts.len(),
{
    if parts.len() == 0 {
        assert(parts =~= Seq::<Seq<u8>>::empty());
    } else {
        lemma_frames_bytes_front(parts);
        let c = parts[0];
        let rest = parts.drop_first();
        crate::stored::lemma_placed_split(d, off, u16_bytes(c.len() as u16) + c, frames_bytes(rest));
        crate::stored::lemma_placed_split(d, off, u16_bytes(c.len() as u16), c);
        crate::bytes::lemma_u16_bytes(c.len() as u16, d, off);
        assert forall|i: int| 0 <= i < rest.len() implies (#[trigger] rest[i]).len() <= 65535 by { assert(rest[i] == parts[i + 1]); }
        lemma_audio_frames_read(d, off + 2 + c.len(), rest);
        assert(d.subrange(off + 2, off + 2 + c.len()) =~= c);
        assert(seq![c] + rest =~= parts);
    }
}

/// A compressed audio stream reads back as the frames it stores: where
/// there are at most 65535 frames of at most 65535 bytes each, reading the
/// header and the framed parts gives those parts, in order, and the
/// settings too where the sample rate is a multiple of 100 and the frame
/// size a multiple of 16 that the header's fields can hold.
#[verifier::spinoff_prover]
#[verifier::rlimit(30)]
pub proof fn law_audio_frames_restore(p: AudioParams, parts: Seq<Seq<u8>>)
    requires
        parts.len() <= 65535,
        forall|i: int| 0 <= i < parts.len() ==> (#[trigger] parts[i]).len() <= 65535,
    ensures
        spec_parse_audio(plta_header(p, parts.len() as int) + frames_bytes(parts))
            == Some(Ok::<(AudioParams, Seq<Seq<u8>>), AudioError>(
                (audio_params_of(plta_header(p, parts.len() as int) + frames_bytes(parts)), parts))),
        p.sample_rate % 100 == 0 && p.sample_rate / 100 <= 65535 && p.frame_size % 16 == 0 && p.frame_size / 16 <= 255
            ==> audio_params_of(plta_header(p, parts.len() as int) + frames_bytes(parts)) == p,
{
    let h = plta_header(p, parts.len() as int);
    let d = h + frames_bytes(parts);
    assert(h.len() == 12);
    assert(d.subrange(10, 12) =~= u16_bytes(parts.len() as u16));
    crate::bytes::lemma_u16_bytes(parts.len() as u16, d, 10);
    assert(d.subrange(12, 12 + frames_bytes(parts).len() as int) =~= frames_bytes(parts));
    lemma_audio_frames_read(d, 12, parts);
    assert(d.subrange(4, 6) =~= u16_bytes((p.sample_rate / 100) as u16));
    crate::bytes::lemma_u16_bytes((p.sample_rate / 100) as u16, d, 4);
    assert(d[6] == p.bits_per_sample && d[7] == p.channels && d[8] == p.quality && d[9] == (p.frame_size / 16) as u8);
}

/// What reading a PLTA container gives: its settings and stored frames.
pub open spec fn spec_parse_audio(d: Seq<u8>) -> Option<Result<(AudioParams, Seq<Seq<u8>>), AudioError>> {
    if d.len() < 12 || !(d[0] == 0x50 && d[1] == 0x4C && d[2] == 0x54 && d[3] == 0x41) {
        Some(Err(AudioError::BadMagic))
    } else {
        match spec_audio_frames(d, 12, le16(d, 10)) {
            None => None,
            Some(Err(e)) => Some(Err(e)),
            Some(Ok(fs)) => Some(Ok((audio_params_of(d), fs))),
        }
    }
}

/// The byte vectors as values.
pub open spec fn blobs_view(v: Seq<Vec<u8>>) -> Seq<Seq<u8>> {
    v.map_values(|x: Vec<u8>| x@)
}

/// Read a PLTA container: its settings and stored frames (each to be
/// decoded as a PLTZ container when lossless, as an image when lossy);
/// `None` where a frame runs past the end.
pub fn parse_audio(data: &[u8]) -> (r: Option<Result<(AudioParams, Vec<Vec<u8>>), AudioError>>)
    ensures
        r is Some <==> spec_parse_audio(data@) is Some,
        r matches Some(Err(e)) ==> spec_parse_audio(data@) == Some(Err::<(AudioParams, Seq<Seq<u8>>), AudioError>(e)),
        r matches Some(Ok((p, fs))) ==> spec_parse_audio(data@) == Some(Ok::<(AudioParams, Seq<Seq<u8>>), AudioError>((p, blobs_view(fs@)))),
{
    if data.len() < 12 || !(data[0] == 0x50 && data[1] == 0x4C && data[2] == 0x54 && data[3] == 0x41) {
        return Some(Err(AudioError::BadMagic));
    }
    let sr = read_u16(data, 4) as u32 * 100;
    let params = AudioParams {
        sample_rate: sr, bits_per_sample: data[6], channels: data[7], quality: data[8], frame_size: data[9] as u16 * 16,
    };
    let n = read_u16(data, 10) as usize;
    let mut frames: Vec<Vec<u8>> = Vec::new();
    let mut off: usize = 12;
    let mut k: usize = 0;
    let ghost total = spec_audio_frames(data@, 12, n as int);
    proof { assert(blobs_view(frames@) =~= Seq::<Seq<u8>>::empty()); }
    while k < n
        invariant
            k <= n, n == le16(data@, 10), total == spec_audio_frames(data@, 12, n as int), off <= data.len(),
            data@.len() >= 12, data@[0] == 0x50 && data@[1] == 0x4C && data@[2] == 0x54 && data@[3] == 0x41,
            params == audio_params_of(data@),
            total == (match spec_audio_frames(data@, off as int, (n - k) as int) {
                None => None,
                Some(Err(e)) => Some(Err(e)),
                Some(Ok(rest)) => Some(Ok(blobs_view(frames@) + rest)),
            }),
        decreases n - k,
    {
        if data.len() - off < 2 {
            return Some(Err(AudioError::TruncatedFrame));
        }
        let len = read_u16(data, off) as usize;
        if data.len() - off - 2 < len {
            return None;
        }
        let f = copy_range(data, off + 2, off + 2 + len);
        let ghost before = blobs_view(frames@);
        frames.push(f);
        proof {
            assert(blobs_view(frames@) =~= before.push(f@));
            let rest = spec_audio_frames(data@, off + 2 + len, (n - k - 1) as int);
            match rest {
                Some(Ok(r0)) => { assert(before + (seq![f@] + r0) =~= before.push(f@) + r0); }
                _ => {}
            }
        }
        off = off + 2 + len;
        k += 1;
    }
    proof { assert(blobs_view(frames@) + Seq::<Seq<u8>>::empty() =~= blobs_view(frames@)); }
    Some(Ok((params, frames)))
}

} // verus!
