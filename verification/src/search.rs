//! Searching for the best settings: plain, columnar at each detected
//! record stride, and chunked at a few sizes; the winner is re-encoded
//! with the strongest raw compressor.
use vstd::prelude::*;
use crate::codec::{encode, encode_chunked, encode_result, encode_ok, columnar_result, pltc_header, plts_result,
    lemma_pltc_decodes, lemma_encode_result_decodes};
use crate::columnar::{columnar_transform, spec_columnar};
use crate::pattern::{DecodeError, FloatTable, FloatTrack, float_table_ok};
use crate::raw::RawCompressor;
use crate::bytes::{push_u16, push_u32, push_bytes};
use crate::settings::{detect_strides, is_top_strides, common_extras, max_stride};
use crate::platter::{spec_num_tracks, lemma_ceil_div};
use crate::codec::spec_decode;

verus! {

/// A way of storing the whole input.
#[derive(Debug, Clone, Copy, PartialEq, Eq, Structural)]
pub enum BestMode {
    /// one container
    Plain,
    /// transposed into columns of this many bytes
    Columnar(usize),
    /// split into chunks of this many bytes
    Chunked(usize),
}

/// One setting tried, with the size it gave.
#[derive(Debug, Clone, Copy, PartialEq, Eq, Structural)]
pub struct Trial {
    pub mode: BestMode,
    pub size: usize,
}

/// `r` is what `mode` gives for `data` with raw compressor `comp`.
pub open spec fn mode_result(r: Seq<u8>, data: Seq<u8>, mode: BestMode, table: Seq<FloatTrack>, comp: RawCompressor) -> bool {
    match mode {
        BestMode::Plain => encode_result(r, data, table, comp),
        BestMode::Columnar(s) => columnar_result(r, data, s as int, table, comp),
        BestMode::Chunked(c) => plts_result(r, data, c as int, table, comp),
    }
}

/// Chunk sizes tried: 4, 8, 16, 32 and 64 KiB.
pub open spec fn chunk_trial(i: int) -> usize {
    if i == 0 { 4096 } else if i == 1 { 8192 } else if i == 2 { 16384 } else if i == 3 { 32768 } else { 65536 }
}

/// Columnar modes for the strides of `strides` in `2..len`, in order.
pub open spec fn columnar_modes(strides: Seq<usize>, len: int) -> Seq<BestMode>
    decreases strides.len(),
{
    if strides.len() == 0 {
        Seq::empty()
    } else {
        let prev = columnar_modes(strides.drop_last(), len);
        let s = strides.last();
        if 2 <= s < len { prev.push(BestMode::Columnar(s)) } else { prev }
    }
}

/// Chunked modes for the first `k` chunk sizes below `len`, in order.
pub open spec fn chunk_modes(len: int, k: int) -> Seq<BestMode>
    decreases k,
{
    if k <= 0 {
        Seq::empty()
    } else {
        let prev = chunk_modes(len, k - 1);
        let c = chunk_trial(k - 1);
        if (c as int) < len { prev.push(BestMode::Chunked(c)) } else { prev }
    }
}

/// The modes tried for input of length `len` with detected `strides`:
/// plain, then columnar, then chunked.
pub open spec fn trial_modes(strides: Seq<usize>, len: int) -> Seq<BestMode> {
    seq![BestMode::Plain] + columnar_modes(strides, len) + chunk_modes(len, 5)
}

/// `strides` is what `detect_strides` gives for `data`.
pub open spec fn detected(data: Seq<u8>, strides: Seq<usize>) -> bool {
    &&& max_stride(data.len() as int) < 2 ==> strides.len() == 0
    &&& max_stride(data.len() as int) >= 2 ==> exists|k: int| 0 <= k <= strides.len() && #[trigger] is_top_strides(data, strides.take(k))
        && strides.skip(k) == common_extras(strides.take(k), max_stride(data.len() as int), 12)
}

/// `w` is the first trial of smallest size.
pub open spec fn first_smallest(trials: Seq<Trial>, w: int) -> bool {
    &&& 0 <= w < trials.len()
    &&& forall|j: int| 0 <= j < w ==> trials[w].size < (#[trigger] trials[j]).size
    &&& forall|j: int| w < j < trials.len() ==> trials[w].size <= (#[trigger] trials[j]).size
}

/// What `mode` needs for its output to decode back to `data`, beyond what
/// the chunked format states of itself.
pub open spec fn mode_ok(data: Seq<u8>, mode: BestMode, table: Seq<FloatTrack>) -> bool {
    match mode {
        BestMode::Plain => encode_ok(data, table),
        BestMode::Columnar(s) => s <= 65535 && data.len() <= 0xFFFF_FFFF && encode_ok(spec_columnar(data, s as int), table),
        BestMode::Chunked(c) => true,
    }
}

/// The columnar (PLTC) container of `data` at `stride`.
fn columnar_container(data: &[u8], stride: usize, comp: RawCompressor, table: &FloatTable) -> (r: Vec<u8>)
    requires 0 < stride < data.len(), 2 * data.len() + 0x400_0000 <= usize::MAX, float_table_ok(table.entries@),
    ensures
        columnar_result(r@, data@, stride as int, table.entries@, comp),
        mode_ok(data@, BestMode::Columnar(stride), table.entries@) ==> spec_decode(r@, table.entries@) == Some(Ok::<Seq<u8>, DecodeError>(data@)),
{
    let transformed = columnar_transform(data, stride);
    proof {
        lemma_ceil_div(data@.len() as int, stride as int);
        assert(transformed@.len() < data@.len() + stride);
    }
    let inner = encode(transformed.as_slice(), comp, table);
    let mut buf: Vec<u8> = Vec::new();
    buf.push(0x50);
    buf.push(0x4C);
    buf.push(0x54);
    buf.push(0x43);
    push_u32(&mut buf, data.len() as u32);
    push_u16(&mut buf, stride as u16);
    push_bytes(&mut buf, inner.as_slice());
    proof {
        assert(buf@ =~= pltc_header(data.len() as u32, stride as u16) + inner@);
        assert(encode_result(inner@, spec_columnar(data@, stride as int), table.entries@, comp));
        if mode_ok(data@, BestMode::Columnar(stride), table.entries@) {
            lemma_encode_result_decodes(inner@, transformed@, table.entries@, comp);
            lemma_pltc_decodes(buf@, data@, stride as int, inner@, table.entries@);
        }
    }
    buf
}

/// Store `data` the way `mode` says, with raw compressor `comp`.
fn encode_mode(data: &[u8], mode: BestMode, comp: RawCompressor, table: &FloatTable) -> (r: Vec<u8>)
    requires
        2 * data.len() + 0x400_0000 <= usize::MAX, float_table_ok(table.entries@),
        mode matches BestMode::Columnar(s) ==> 0 < s < data.len(),
        mode matches BestMode::Chunked(c) ==> 0 < c <= 65536,
    ensures
        mode_result(r@, data@, mode, table.entries@, comp),
        mode_ok(data@, mode, table.entries@) && !(mode is Chunked) ==> spec_decode(r@, table.entries@) == Some(Ok::<Seq<u8>, DecodeError>(data@)),
{
    match mode {
        BestMode::Plain => {
            let r = encode(data, comp, table);
            proof {
                if encode_ok(data@, table.entries@) { lemma_encode_result_decodes(r@, data@, table.entries@, comp); }
            }
            r
        }
        BestMode::Columnar(s) => columnar_container(data, s, comp, table),
        BestMode::Chunked(c) => encode_chunked(data, comp, c, table),
    }
}

/// Chunk size number `i` of those tried.
fn chunk_trial_at(i: usize) -> (r: usize)
    requires i < 5,
    ensures r == chunk_trial(i as int),
{
    if i == 0 { 4096 } else if i == 1 { 8192 } else if i == 2 { 16384 } else if i == 3 { 32768 } else { 65536 }
}

/// Each trial's size is that of an output its mode gives with DEFLATE.
pub open spec fn trials_sized(trials: Seq<Trial>, data: Seq<u8>, table: Seq<FloatTrack>) -> bool {
    forall|i: int| 0 <= i < trials.len() ==> exists|enc: Seq<u8>| enc.len() == (#[trigger] trials[i]).size
        && mode_result(enc, data, trials[i].mode, table, RawCompressor::Zlib)
}

/// Each trial's mode can be handed to `encode_mode` for input of length `len`.
pub open spec fn trials_valid(trials: Seq<Trial>, len: int) -> bool {
    forall|i: int| 0 <= i < trials.len() ==> match (#[trigger] trials[i]).mode {
        BestMode::Plain => true,
        BestMode::Columnar(s) => 2 <= s < len,
        BestMode::Chunked(c) => 0 < c <= 65536,
    }
}

/// The modes of `trials`.
pub open spec fn modes_of(trials: Seq<Trial>) -> Seq<BestMode> {
    trials.map_values(|t: Trial| t.mode)
}

/// Append a trial whose size an output `enc` of its mode has, keeping `w`
/// on the first smallest.
fn record(trials: &mut Vec<Trial>, w: &mut usize, t: Trial, Ghost(enc): Ghost<Seq<u8>>, Ghost(data): Ghost<Seq<u8>>,
    Ghost(table): Ghost<Seq<FloatTrack>>)
    requires
        trials_sized(old(trials)@, data, table), trials_valid(old(trials)@, data.len() as int),
        first_smallest(old(trials)@, *old(w) as int),
        enc.len() == t.size, mode_result(enc, data, t.mode, table, RawCompressor::Zlib),
        match t.mode { BestMode::Plain => true, BestMode::Columnar(s) => 2 <= s < data.len(), BestMode::Chunked(c) => 0 < c <= 65536 },
    ensures
        final(trials)@ == old(trials)@.push(t), modes_of(final(trials)@) == modes_of(old(trials)@).push(t.mode),
        trials_sized(final(trials)@, data, table), trials_valid(final(trials)@, data.len() as int),
        first_smallest(final(trials)@, *final(w) as int),
{
    let ghost before = trials@;
    trials.push(t);
    proof {
        assert(modes_of(trials@) =~= modes_of(before).push(t.mode));
        assert forall|q: int| 0 <= q < trials@.len() implies exists|e: Seq<u8>| e.len() == (#[trigger] trials@[q]).size
            && mode_result(e, data, trials@[q].mode, table, RawCompressor::Zlib) by {
            if q == before.len() {
                assert(mode_result(enc, data, trials@[q].mode, table, RawCompressor::Zlib));
            } else {
                assert(trials@[q] == before[q]);
            }
        }
        assert forall|q: int| 0 <= q < trials@.len() implies match (#[trigger] trials@[q]).mode {
            BestMode::Plain => true,
            BestMode::Columnar(s) => 2 <= s < data.len(),
            BestMode::Chunked(c) => 0 < c <= 65536,
        } by {
            if q < before.len() { assert(trials@[q] == before[q]); }
        }
    }
    if t.size < trials[*w].size {
        *w = trials.len() - 1;
    }
}

/// Try the columnar form at each stride of `strides` in `2..data.len()`.
fn try_strides(data: &[u8], strides: &Vec<usize>, trials: &mut Vec<Trial>, w: &mut usize, table: &FloatTable)
    requires
        2 * data.len() + 0x400_0000 <= usize::MAX, float_table_ok(table.entries@),
        trials_sized(old(trials)@, data@, table.entries@), trials_valid(old(trials)@, data@.len() as int),
        first_smallest(old(trials)@, *old(w) as int),
    ensures
        modes_of(final(trials)@) == modes_of(old(trials)@) + columnar_modes(strides@, data@.len() as int),
        trials_sized(final(trials)@, data@, table.entries@), trials_valid(final(trials)@, data@.len() as int),
        first_smallest(final(trials)@, *final(w) as int),
{
    let ghost start = modes_of(trials@);
    let mut i: usize = 0;
    proof { assert(start =~= start + columnar_modes(strides@.take(0), data@.len() as int)); }
    while i < strides.len()
        invariant
            i <= strides@.len(), 2 * data.len() + 0x400_0000 <= usize::MAX, float_table_ok(table.entries@),
            modes_of(trials@) == start + columnar_modes(strides@.take(i as int), data@.len() as int),
            trials_sized(trials@, data@, table.entries@), trials_valid(trials@, data@.len() as int),
            first_smallest(trials@, *w as int),
        decreases strides.len() - i,
    {
        let s = strides[i];
        proof { assert(strides@.take(i + 1).drop_last() =~= strides@.take(i as int)); }
        if s >= 2 && s < data.len() {
            let buf = columnar_container(data, s, RawCompressor::Zlib, table);
            record(trials, w, Trial { mode: BestMode::Columnar(s), size: buf.len() }, Ghost(buf@), Ghost(data@),
                Ghost(table.entries@));
        }
        proof {
            assert(start + columnar_modes(strides@.take(i + 1), data@.len() as int) =~= modes_of(trials@));
        }
        i += 1;
    }
    proof { assert(strides@.take(strides@.len() as int) =~= strides@); }
}

/// Try the chunked form at each chunk size below the input length.
fn try_chunks(data: &[u8], trials: &mut Vec<Trial>, w: &mut usize, table: &FloatTable)
    requires
        2 * data.len() + 0x400_0000 <= usize::MAX, float_table_ok(table.entries@),
        trials_sized(old(trials)@, data@, table.entries@), trials_valid(old(trials)@, data@.len() as int),
        first_smallest(old(trials)@, *old(w) as int),
    ensures
        modes_of(final(trials)@) == modes_of(old(trials)@) + chunk_modes(data@.len() as int, 5),
        trials_sized(final(trials)@, data@, table.entries@), trials_valid(final(trials)@, data@.len() as int),
        first_smallest(final(trials)@, *final(w) as int),
{
    let ghost start = modes_of(trials@);
    let mut ci: usize = 0;
    proof { assert(start =~= start + chunk_modes(data@.len() as int, 0)); }
    while ci < 5
        invariant
            ci <= 5, 2 * data.len() + 0x400_0000 <= usize::MAX, float_table_ok(table.entries@),
            modes_of(trials@) == start + chunk_modes(data@.len() as int, ci as int),
            trials_sized(trials@, data@, table.entries@), trials_valid(trials@, data@.len() as int),
            first_smallest(trials@, *w as int),
        decreases 5 - ci,
    {
        let c = chunk_trial_at(ci);
        if c < data.len() {
            let comp = encode_chunked(data, RawCompressor::Zlib, c, table);
            record(trials, w, Trial { mode: BestMode::Chunked(c), size: comp.len() }, Ghost(comp@), Ghost(data@),
                Ghost(table.entries@));
        }
        proof {
            assert(start + chunk_modes(data@.len() as int, ci + 1) =~= modes_of(trials@));
        }
        ci += 1;
    }
}

/// The trials of `search_trials`: plain, columnar at each detected stride,
/// chunked at each chunk size, each with the size its DEFLATE encoding has.
pub open spec fn searched(data: Seq<u8>, table: Seq<FloatTrack>, trials: Seq<Trial>) -> bool {
    &&& exists|strides: Seq<usize>| #[trigger] detected(data, strides) && modes_of(trials) == trial_modes(strides, data.len() as int)
    &&& trials_sized(trials, data, table)
}

/// Try every setting with the fast DEFLATE fallback; returns the trials
/// and the first smallest of them.
pub fn search_trials(data: &[u8], table: &FloatTable) -> (r: (Vec<Trial>, usize))
    requires 2 * data.len() + 0x400_0000 <= usize::MAX, float_table_ok(table.entries@),
    ensures
        searched(data@, table.entries@, r.0@), first_smallest(r.0@, r.1 as int),
        trials_valid(r.0@, data@.len() as int),
{
    let mut trials: Vec<Trial> = Vec::new();
    let mut w: usize = 0;
    let plain = encode(data, RawCompressor::Zlib, table);
    proof {
        assert(mode_result(plain@, data@, BestMode::Plain, table.entries@, RawCompressor::Zlib));
    }
    trials.push(Trial { mode: BestMode::Plain, size: plain.len() });
    proof {
        assert(modes_of(trials@) =~= seq![BestMode::Plain]);
        assert(trials@[0].size == plain@.len());
        assert(trials_sized(trials@, data@, table.entries@));
        assert(first_smallest(trials@, 0));
    }
    let strides = detect_strides(data);
    proof { assert(detected(data@, strides@)); }
    try_strides(data, &strides, &mut trials, &mut w, table);
    try_chunks(data, &mut trials, &mut w, table);
    proof {
        assert(modes_of(trials@) =~= trial_modes(strides@, data@.len() as int));
    }
    (trials, w)
}

/// Try every setting with the fast DEFLATE fallback, keep the first
/// smallest, and store the input that way with the best raw compressor.
/// Returns the stored bytes and the settings tried with their sizes.
pub fn find_best_compression(data: &[u8], table: &FloatTable) -> (r: (Vec<u8>, Vec<Trial>))
    requires 2 * data.len() + 0x400_0000 <= usize::MAX, float_table_ok(table.entries@),
    ensures
        searched(data@, table.entries@, r.1@),
        exists|w: int| #[trigger] first_smallest(r.1@, w)
            && mode_result(r.0@, data@, r.1@[w].mode, table.entries@, RawCompressor::Best)
            && (mode_ok(data@, r.1@[w].mode, table.entries@) && !(r.1@[w].mode is Chunked)
                ==> spec_decode(r.0@, table.entries@) == Some(Ok::<Seq<u8>, DecodeError>(data@))),
{
    let (trials, w) = search_trials(data, table);
    let mode = trials[w].mode;
    proof {
        assert(trials@[w as int].mode == mode);
    }
    let out = encode_mode(data, mode, RawCompressor::Best, table);
    (out, trials)
}

/// The first smallest trial of kind `columnar` (else chunked) among the
/// first `k` trials, with its size.
pub open spec fn first_min_of(trials: Seq<Trial>, columnar: bool, k: int) -> Option<(usize, usize)>
    decreases k,
{
    if k <= 0 {
        None
    } else {
        let prev = first_min_of(trials, columnar, k - 1);
        let t = trials[k - 1];
        let arg: Option<usize> = match t.mode {
            BestMode::Columnar(s) => if columnar { Some(s) } else { None },
            BestMode::Chunked(c) => if columnar { None } else { Some(c) },
            BestMode::Plain => None,
        };
        match arg {
            None => prev,
            Some(a) => match prev {
                None => Some((a, t.size)),
                Some(p) => if t.size < p.1 { Some((a, t.size)) } else { prev },
            },
        }
    }
}

/// What the analysis of an input found.
#[derive(Debug, Clone, Copy)]
pub struct Analysis {
    /// size of the plain encoding
    pub plain: usize,
    /// the stride whose columnar form is smallest, with its size
    pub best_stride: Option<(usize, usize)>,
    /// the chunk size whose chunked form is smallest, with its size
    pub best_chunk: Option<(usize, usize)>,
}

/// Sizes of the plain encoding and of the best columnar and chunked
/// forms, from the trials of `search_trials`.
pub fn analyze_settings(data: &[u8], table: &FloatTable) -> (r: (Analysis, Vec<Trial>))
    requires 2 * data.len() + 0x400_0000 <= usize::MAX, float_table_ok(table.entries@),
    ensures
        searched(data@, table.entries@, r.1@),
        r.0.plain == r.1@[0].size,
        r.0.best_stride == first_min_of(r.1@, true, r.1@.len() as int),
        r.0.best_chunk == first_min_of(r.1@, false, r.1@.len() as int),
{
    let (trials, _) = search_trials(data, table);
    proof {
        let strides = choose|strides: Seq<usize>| #[trigger] detected(data@, strides)
            && modes_of(trials@) == trial_modes(strides, data@.len() as int);
        assert(modes_of(trials@)[0] == BestMode::Plain);
    }
    let mut best_stride: Option<(usize, usize)> = None;
    let mut best_chunk: Option<(usize, usize)> = None;
    let mut i: usize = 0;
    while i < trials.len()
        invariant
            i <= trials@.len(),
            best_stride == first_min_of(trials@, true, i as int),
            best_chunk == first_min_of(trials@, false, i as int),
        decreases trials.len() - i,
    {
        let t = trials[i];
        match t.mode {
            BestMode::Columnar(s) => {
                match best_stride {
                    None => { best_stride = Some((s, t.size)); }
                    Some(p) => { if t.size < p.1 { best_stride = Some((s, t.size)); } }
                }
            }
            BestMode::Chunked(c) => {
                match best_chunk {
                    None => { best_chunk = Some((c, t.size)); }
                    Some(p) => { if t.size < p.1 { best_chunk = Some((c, t.size)); } }
                }
            }
            BestMode::Plain => {}
        }
        i += 1;
    }
    let plain = trials[0].size;
    (Analysis { plain, best_stride, best_chunk }, trials)
}

/// The setting an analysis recommends, with its size: plain, unless the
/// best columnar form is smaller, unless the best chunked form is smaller
/// still.
pub open spec fn spec_recommend(a: Analysis) -> (BestMode, usize) {
    let base = (BestMode::Plain, a.plain);
    let with_stride = match a.best_stride {
        Some((s, size)) => if size < base.1 { (BestMode::Columnar(s), size) } else { base },
        None => base,
    };
    match a.best_chunk {
        Some((c, size)) => if size < with_stride.1 { (BestMode::Chunked(c), size) } else { with_stride },
        None => with_stride,
    }
}

/// The setting an analysis recommends, with its size.
pub fn recommend(a: &Analysis) -> (r: (BestMode, usize))
    ensures r == spec_recommend(*a),
{
    let mut best = (BestMode::Plain, a.plain);
    if let Some((s, size)) = a.best_stride {
        if size < best.1 {
            best = (BestMode::Columnar(s), size);
        }
    }
    if let Some((c, size)) = a.best_chunk {
        if size < best.1 {
            best = (BestMode::Chunked(c), size);
        }
    }
    best
}

} // verus!
