//! Fallback compressors for tracks that match no pattern: DEFLATE (method 1),
//! Zstandard (method 2) and Brotli (method 3), from their outside crates.
use vstd::prelude::*;
use std::io::{Read, Write};

verus! {

/// The bytes that flate2's `DeflateEncoder` at `Compression::best()` makes of `data`.
pub uninterp spec fn deflate_encoded(data: Seq<u8>) -> Seq<u8>;

/// What flate2's `DeflateDecoder` reads out of `c`, or `None` when it reports an error.
pub uninterp spec fn deflate_decoded(c: Seq<u8>) -> Option<Seq<u8>>;

/// The bytes that `zstd::encode_all` at level 19 makes of `data`.
pub uninterp spec fn zstd_encoded(data: Seq<u8>) -> Seq<u8>;

/// What `zstd::decode_all` reads out of `c`, or `None` when it reports an error.
pub uninterp spec fn zstd_decoded(c: Seq<u8>) -> Option<Seq<u8>>;

/// The bytes that brotli's `CompressorWriter` (quality 11, window 22) makes of `data`.
pub uninterp spec fn brotli_encoded(data: Seq<u8>) -> Seq<u8>;

/// What brotli's `Decompressor` reads out of `c`, or `None` when it reports an error.
pub uninterp spec fn brotli_decoded(c: Seq<u8>) -> Option<Seq<u8>>;

/// Compresses with flate2's `DeflateEncoder` over a `Vec` at the best level.
/// Claimed: it returns bytes, they are `deflate_encoded(data)`, and flate2's
/// `DeflateDecoder` reads them back to `data` (DEFLATE is lossless). The
/// encoder's only error paths are a writer that accepts zero bytes (a `Vec`
/// never does) and a miniz parameter or stream error, which a fresh encoder
/// fed once and finished does not reach.
#[verifier::external_body]
fn deflate_compress(data: &[u8]) -> (r: Option<Vec<u8>>)
    ensures
        r is Some,
        r matches Some(c) ==> c@ == deflate_encoded(data@),
        r matches Some(c) ==> deflate_decoded(c@) == Some(data@),
{
    let mut encoder = flate2::write::DeflateEncoder::new(Vec::new(), flate2::Compression::best());
    encoder.write_all(data).ok()?;
    encoder.finish().ok()
}

/// Decompresses with flate2's `DeflateDecoder`, reading to the end.
/// Claimed: the result is `deflate_decoded(c)`, a function of `c` alone.
#[verifier::external_body]
fn deflate_decompress(c: &[u8]) -> (r: Option<Vec<u8>>)
    ensures
        r is Some <==> deflate_decoded(c@) is Some,
        r matches Some(v) ==> v@ == deflate_decoded(c@)->0,
{
    let mut decoder = flate2::read::DeflateDecoder::new(c);
    let mut out = Vec::new();
    decoder.read_to_end(&mut out).ok()?;
    Some(out)
}

/// Compresses with `zstd::encode_all` at level 19.
/// Claimed: it returns bytes, they are `zstd_encoded(data)`, and
/// `zstd::decode_all` reads them back to `data`. Reading from a slice and
/// writing into a `Vec` raise no error; a context zstd cannot allocate makes
/// zstd-safe panic (as any failed allocation ends the program) rather than
/// return an error.
#[verifier::external_body]
fn zstd_compress(data: &[u8]) -> (r: Option<Vec<u8>>)
    ensures
        r is Some,
        r matches Some(c) ==> c@ == zstd_encoded(data@),
        r matches Some(c) ==> zstd_decoded(c@) == Some(data@),
{
    zstd::encode_all(std::io::Cursor::new(data), 19).ok()
}

/// Decompresses with `zstd::decode_all`.
/// Claimed: the result is `zstd_decoded(c)`, a function of `c` alone.
#[verifier::external_body]
fn zstd_decompress(c: &[u8]) -> (r: Option<Vec<u8>>)
    ensures
        r is Some <==> zstd_decoded(c@) is Some,
        r matches Some(v) ==> v@ == zstd_decoded(c@)->0,
{
    zstd::decode_all(std::io::Cursor::new(c)).ok()
}

/// Compresses with brotli's `CompressorWriter` (buffer 4096, quality 11,
/// window 22) over a `Vec`, flushed by dropping the writer.
/// Claimed: it returns bytes, they are `brotli_encoded(data)`, and brotli's
/// `Decompressor` reads them back to `data`. The writer's errors come from
/// the underlying writer refusing bytes, which a `Vec` never does.
#[verifier::external_body]
fn brotli_compress(data: &[u8]) -> (r: Option<Vec<u8>>)
    ensures
        r is Some,
        r matches Some(c) ==> c@ == brotli_encoded(data@),
        r matches Some(c) ==> brotli_decoded(c@) == Some(data@),
{
    let mut out = Vec::new();
    let mut writer = brotli::CompressorWriter::new(&mut out, 4096, 11, 22);
    writer.write_all(data).ok()?;
    drop(writer);
    Some(out)
}

/// Decompresses with brotli's `Decompressor` (buffer 4096), reading to the end.
/// Claimed: the result is `brotli_decoded(c)`, a function of `c` alone.
#[verifier::external_body]
fn brotli_decompress(c: &[u8]) -> (r: Option<Vec<u8>>)
    ensures
        r is Some <==> brotli_decoded(c@) is Some,
        r matches Some(v) ==> v@ == brotli_decoded(c@)->0,
{
    let mut out = Vec::new();
    let mut reader = brotli::Decompressor::new(c, 4096);
    reader.read_to_end(&mut out).ok()?;
    Some(out)
}

/// Which fallback compressor to apply to tracks that match no pattern.
#[derive(Debug, Clone, Copy, PartialEq, Eq, Structural)]
pub enum RawCompressor {
    /// store unmatched tracks as they are
    Uncompressed,
    /// method 1
    Zlib,
    /// method 2
    Zstd,
    /// method 3
    Brotli,
    /// try all three, keep the smallest
    Best,
}

/// What method `method` reads out of `c`: `Ok` with the bytes, or the error.
pub open spec fn spec_raw_decoded(c: Seq<u8>, method: u8) -> Result<Seq<u8>, crate::pattern::DecodeError> {
    let r = if method == 1 { deflate_decoded(c) } else if method == 2 { zstd_decoded(c) } else { brotli_decoded(c) };
    if method < 1 || method > 3 {
        Err(crate::pattern::DecodeError::UnknownRawMethod(method))
    } else {
        match r {
            Some(v) => Ok(v),
            None => Err(crate::pattern::DecodeError::RawDecompress(method)),
        }
    }
}

/// Decompress `c` with method `method` (1 DEFLATE, 2 Zstandard, 3 Brotli).
pub fn raw_decompress(c: &[u8], method: u8) -> (r: Result<Vec<u8>, crate::pattern::DecodeError>)
    ensures
        r is Ok <==> spec_raw_decoded(c@, method) is Ok,
        r matches Ok(v) ==> spec_raw_decoded(c@, method) == Ok::<Seq<u8>, crate::pattern::DecodeError>(v@),
        r matches Err(e) ==> spec_raw_decoded(c@, method) == Err::<Seq<u8>, crate::pattern::DecodeError>(e),
{
    let r = if method == 1 {
        deflate_decompress(c)
    } else if method == 2 {
        zstd_decompress(c)
    } else if method == 3 {
        brotli_decompress(c)
    } else {
        return Err(crate::pattern::DecodeError::UnknownRawMethod(method));
    };
    match r {
        Some(v) => Ok(v),
        None => Err(crate::pattern::DecodeError::RawDecompress(method)),
    }
}

/// The compressed form `compress_raw_best` chooses for `data` under `mode`:
/// `(method, bytes)`, or `None` under `RawCompressor::Uncompressed`. `Best` keeps the
/// first of DEFLATE, Zstandard, Brotli that is strictly smaller than those
/// before it.
pub open spec fn spec_compress_raw(data: Seq<u8>, mode: RawCompressor) -> Option<(u8, Seq<u8>)> {
    match mode {
        RawCompressor::Uncompressed => None,
        RawCompressor::Zlib => Some((1u8, deflate_encoded(data))),
        RawCompressor::Zstd => Some((2u8, zstd_encoded(data))),
        RawCompressor::Brotli => Some((3u8, brotli_encoded(data))),
        RawCompressor::Best => {
            let d = deflate_encoded(data);
            let z = zstd_encoded(data);
            let b = brotli_encoded(data);
            if z.len() < d.len() {
                if b.len() < z.len() { Some((3u8, b)) } else { Some((2u8, z)) }
            } else {
                if b.len() < d.len() { Some((3u8, b)) } else { Some((1u8, d)) }
            }
        }
    }
}

/// The bytes of an optional buffer, as a value.
pub open spec fn bytes_opt(o: Option<Vec<u8>>) -> Option<Seq<u8>> {
    match o {
        Some(c) => Some(c@),
        None => None,
    }
}

/// A chosen `(method, bytes)`, as a value.
pub open spec fn picked_view(r: Option<(u8, Vec<u8>)>) -> Option<(u8, Seq<u8>)> {
    match r {
        Some((m, c)) => Some((m, c@)),
        None => None,
    }
}

/// `best`, or `(tag, c)` where a compressor gave `c` and it is strictly
/// smaller than `best` (or there is no `best` yet).
pub open spec fn keep_smaller(best: Option<(u8, Seq<u8>)>, tag: u8, o: Option<Seq<u8>>) -> Option<(u8, Seq<u8>)> {
    match o {
        None => best,
        Some(c) => match best {
            None => Some((tag, c)),
            Some((m, b)) => if c.len() < b.len() { Some((tag, c)) } else { Some((m, b)) },
        },
    }
}

/// What is kept under `mode` from what DEFLATE (`d`), Zstandard (`z`) and
/// Brotli (`b`) gave, `None` standing for a compressor that reported an
/// error: nothing under `Uncompressed`; the named method's bytes, if any;
/// under `Best`, of those that succeeded in the order DEFLATE, Zstandard,
/// Brotli, the first that is strictly smaller than each before it.
pub open spec fn spec_pick_raw(mode: RawCompressor, d: Option<Seq<u8>>, z: Option<Seq<u8>>, b: Option<Seq<u8>>)
    -> Option<(u8, Seq<u8>)>
{
    match mode {
        RawCompressor::Uncompressed => None,
        RawCompressor::Zlib => keep_smaller(None, 1u8, d),
        RawCompressor::Zstd => keep_smaller(None, 2u8, z),
        RawCompressor::Brotli => keep_smaller(None, 3u8, b),
        RawCompressor::Best => keep_smaller(keep_smaller(keep_smaller(None, 1u8, d), 2u8, z), 3u8, b),
    }
}

/// Keep, under `mode`, the compressed form chosen from what the three
/// compressors returned (`None` for one that reported an error).
pub fn pick_raw(mode: RawCompressor, d: Option<Vec<u8>>, z: Option<Vec<u8>>, b: Option<Vec<u8>>)
    -> (r: Option<(u8, Vec<u8>)>)
    ensures picked_view(r) == spec_pick_raw(mode, bytes_opt(d), bytes_opt(z), bytes_opt(b)),
{
    match mode {
        RawCompressor::Uncompressed => None,
        RawCompressor::Zlib => match d { Some(c) => Some((1u8, c)), None => None },
        RawCompressor::Zstd => match z { Some(c) => Some((2u8, c)), None => None },
        RawCompressor::Brotli => match b { Some(c) => Some((3u8, c)), None => None },
        RawCompressor::Best => {
            let mut best: Option<(u8, Vec<u8>)> = match d {
                Some(c) => Some((1u8, c)),
                None => None,
            };
            assert(picked_view(best) == keep_smaller(None, 1u8, bytes_opt(d)));
            let ghost b1 = picked_view(best);
            if let Some(c) = z {
                let smaller = match &best { Some((_, x)) => c.len() < x.len(), None => true };
                if smaller { best = Some((2u8, c)); }
            }
            assert(picked_view(best) == keep_smaller(b1, 2u8, bytes_opt(z)));
            let ghost b2 = picked_view(best);
            if let Some(c) = b {
                let smaller = match &best { Some((_, x)) => c.len() < x.len(), None => true };
                if smaller { best = Some((3u8, c)); }
            }
            assert(picked_view(best) == keep_smaller(b2, 3u8, bytes_opt(b)));
            best
        }
    }
}

/// With every compressor giving its output, the choice is `spec_compress_raw`.
proof fn lemma_pick_all(data: Seq<u8>, mode: RawCompressor)
    ensures spec_pick_raw(mode, Some(deflate_encoded(data)), Some(zstd_encoded(data)), Some(brotli_encoded(data)))
        == spec_compress_raw(data, mode),
{
}

/// Try compressing with the method(s) `mode` names; return the method tag
/// and the compressed bytes: `spec_compress_raw`, the named method's output
/// or, under `Best`, the first strictly smallest of the three.
pub fn compress_raw_best(data: &[u8], mode: RawCompressor) -> (r: Option<(u8, Vec<u8>)>)
    ensures
        mode == RawCompressor::Uncompressed ==> r is None,
        r matches Some((m, c)) ==> spec_raw_decoded(c@, m) == Ok::<Seq<u8>, crate::pattern::DecodeError>(data@),
        r matches Some((m, c)) ==> 1 <= m <= 3,
        r matches Some((m, c)) ==> (m == 1 && c@ == deflate_encoded(data@))
            || (m == 2 && c@ == zstd_encoded(data@)) || (m == 3 && c@ == brotli_encoded(data@)),
        r matches Some((m, c)) ==> mode != RawCompressor::Best ==>
            spec_compress_raw(data@, mode) == Some((m, c@)),
        picked_view(r) == spec_compress_raw(data@, mode),
{
    let (d, z, b) = match mode {
        RawCompressor::Uncompressed => (None, None, None),
        RawCompressor::Zlib => (deflate_compress(data), None, None),
        RawCompressor::Zstd => (None, zstd_compress(data), None),
        RawCompressor::Brotli => (None, None, brotli_compress(data)),
        RawCompressor::Best => {
            let d = deflate_compress(data);
            let z = zstd_compress(data);
            let b = brotli_compress(data);
            (d, z, b)
        }
    };
    let r = pick_raw(mode, d, z, b);
    proof {
        if mode != RawCompressor::Uncompressed {
            lemma_pick_all(data@, mode);
        }
    }
    r
}

} // verus!
