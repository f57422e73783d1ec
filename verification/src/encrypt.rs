//! Structured encryption: the pattern types and track layout stay in the
//! clear and only each track's parameter bytes are encrypted, so that a
//! structured track stays as small as its parameters.
//!
//! The keystream is a small deterministic mixer seeded from key, nonce and
//! a per-track counter. It is not a cryptographic cipher: it demonstrates
//! the format.
use vstd::prelude::*;
use crate::bytes::{le16, le32, u16_bytes, u32_bytes, push_u16, push_u32, push_bytes, read_u16, read_u32};
use crate::pattern::{
    PatternType, TrackParams, TrackEncoding, ParamsView, EncView, DecodeError, FloatTable, FloatTrack, float_table_ok,
    spec_tag, spec_from_u8, view_pattern,
};
use crate::platter::{spec_num_tracks, spec_track, spec_sector_candidate, sector_candidate, compute_geometry, lay_out,
    NUM_SECTOR_CANDIDATES};
use crate::analyzer::{spec_analyze, renders_to};
use crate::plan::{analyze_platter, analyzed_at, spec_encs};
use crate::entry::{spec_payload, write_payload};
use crate::wire::{spec_decode_payload, decode_payload};
use crate::codec::{place, assemble_from, slots_view, layout};
use crate::render::truncated;


verus! {

/// The mixer's state: four 32-bit words.
pub type State = (u32, u32, u32, u32);

/// 32-bit left rotation by `n` (0 < n < 32).
pub open spec fn rotl(x: u32, n: u32) -> u32 {
    (x << n) | (x >> (32u32 - n) as u32)
}

/// One quarter-round of the mixer.
pub open spec fn quarter(s: State) -> State {
    let a = s.0.wrapping_add(s.1);
    let d = rotl(s.3 ^ a, 16);
    let c = s.2.wrapping_add(d);
    let b = rotl(s.1 ^ c, 12);
    let a2 = a.wrapping_add(b);
    let d2 = rotl(d ^ a2, 8);
    let c2 = c.wrapping_add(d2);
    let b2 = rotl(b ^ c2, 7);
    (a2, b2, c2, d2)
}

/// `k` quarter-rounds.
pub open spec fn mix(s: State, k: nat) -> State
    decreases k,
{
    if k == 0 { s } else { quarter(mix(s, (k - 1) as nat)) }
}

/// The 16 bytes a mixed state contributes to the keystream.
pub open spec fn state_bytes(s: State) -> Seq<u8> {
    u32_bytes(s.0) + u32_bytes(s.1) + u32_bytes(s.2) + u32_bytes(s.3)
}

/// `n` keystream blocks from state `s`: each block mixes the state for 20
/// quarter-rounds, emits it, and advances its first word.
pub open spec fn blocks(s: State, n: nat) -> Seq<u8>
    decreases n,
{
    if n == 0 {
        Seq::empty()
    } else {
        let m = mix(s, 20);
        state_bytes(m) + blocks((m.0.wrapping_add(1), m.1, m.2, m.3), (n - 1) as nat)
    }
}

/// The initial state for `key`, `nonce` and `counter`.
pub open spec fn seed(key: Seq<u8>, nonce: Seq<u8>, counter: u32) -> State {
    ((le32(key, 0) as u32) ^ counter, le32(key, 4) as u32, le32(nonce, 0) as u32, le32(nonce, 4) as u32)
}

/// The data XORed with the keystream for `key`, `nonce` and `counter`.
pub open spec fn spec_cipher(data: Seq<u8>, key: Seq<u8>, nonce: Seq<u8>, counter: u32) -> Seq<u8> {
    let ks = blocks(seed(key, nonce, counter), ((data.len() + 15) / 16) as nat);
    Seq::new(data.len(), |i: int| data[i] ^ ks[i])
}

proof fn lemma_blocks_len(s: State, n: nat)
    ensures blocks(s, n).len() == 16 * n,
    decreases n,
{
    if n > 0 {
        lemma_blocks_len((mix(s, 20).0.wrapping_add(1), mix(s, 20).1, mix(s, 20).2, mix(s, 20).3), (n - 1) as nat);
    }
}

/// Applying the cipher twice with the same key, nonce and counter gives
/// the data back.
pub proof fn law_cipher_involution(data: Seq<u8>, key: Seq<u8>, nonce: Seq<u8>, counter: u32)
    ensures spec_cipher(spec_cipher(data, key, nonce, counter), key, nonce, counter) == data,
{
    let once = spec_cipher(data, key, nonce, counter);
    let ks = blocks(seed(key, nonce, counter), ((data.len() + 15) / 16) as nat);
    assert forall|i: int| 0 <= i < data.len() implies #[trigger] spec_cipher(once, key, nonce, counter)[i] == data[i] by {
        let x = data[i];
        let k = ks[i];
        assert((x ^ k) ^ k == x) by (bit_vector);
    }
    assert(spec_cipher(once, key, nonce, counter) =~= data);
}

fn rotl_exec(x: u32, n: u32) -> (r: u32)
    requires 0 < n < 32,
    ensures r == rotl(x, n),
{
    (x << n) | (x >> (32 - n))
}

fn quarter_exec(s: State) -> (r: State)
    ensures r == quarter(s),
{
    let a = s.0.wrapping_add(s.1);
    let d = rotl_exec(s.3 ^ a, 16);
    let c = s.2.wrapping_add(d);
    let b = rotl_exec(s.1 ^ c, 12);
    let a2 = a.wrapping_add(b);
    let d2 = rotl_exec(d ^ a2, 8);
    let c2 = c.wrapping_add(d2);
    let b2 = rotl_exec(b ^ c2, 7);
    (a2, b2, c2, d2)
}

/// XOR `data` with the keystream seeded from `key`, `nonce` and `counter`.
pub fn stream_cipher(data: &[u8], key: &[u8; 32], nonce: &[u8; 12], counter: u32) -> (r: Vec<u8>)
    ensures r@ == spec_cipher(data@, key@, nonce@, counter),
{
    let k = key.as_slice();
    let n = nonce.as_slice();
    let mut state: State = (read_u32(k, 0) ^ counter, read_u32(k, 4), read_u32(n, 0), read_u32(n, 4));
    let ghost s0 = state;
    proof { assert(s0 == seed(key@, nonce@, counter)); }
    let mut keystream: Vec<u8> = Vec::new();
    let ghost mut done: nat = 0;
    proof {
        assert forall|m: nat| #[trigger] blocks(s0, 0 + m) == blocks(s0, 0) + blocks(state, m) by {
            assert(blocks(s0, 0) =~= Seq::<u8>::empty());
            assert(blocks(s0, 0) + blocks(state, m) =~= blocks(state, m));
        }
        assert(keystream@ =~= blocks(s0, 0));
    }
    while keystream.len() < data.len()
        invariant
            keystream@ == blocks(s0, done),
            keystream@.len() == 16 * done,
            forall|m: nat| #[trigger] blocks(s0, done + m) == blocks(s0, done) + blocks(state, m),
            done * 16 < data@.len() + 16,
        decreases data@.len() + 16 - keystream@.len(),
    {
        let ghost st = state;
        let mut r: usize = 0;
        while r < 20
            invariant r <= 20, state == mix(st, r as nat),
            decreases 20 - r,
        {
            state = quarter_exec(state);
            r += 1;
        }
        push_u32(&mut keystream, state.0);
        push_u32(&mut keystream, state.1);
        push_u32(&mut keystream, state.2);
        push_u32(&mut keystream, state.3);
        state = (state.0.wrapping_add(1), state.1, state.2, state.3);
        proof {
            assert forall|m: nat| #[trigger] blocks(s0, done + 1 + m) == blocks(s0, done + 1) + blocks(state, m) by {
                assert(blocks(s0, done + (1 + m)) == blocks(s0, done) + blocks(st, 1 + m));
                assert(blocks(s0, done + 1) == blocks(s0, done) + blocks(st, 1));
                assert(blocks(st, 1 + m) == state_bytes(mix(st, 20)) + blocks(state, m));
                assert(blocks(st, 1) == state_bytes(mix(st, 20)) + blocks(state, 0));
                assert(blocks(state, 0) =~= Seq::<u8>::empty());
                assert(done + 1 + m == done + (1 + m));
            }
            lemma_blocks_len(s0, done + 1);
            assert(blocks(s0, done + 1) == blocks(s0, done) + blocks(st, 1)) by {
                assert(blocks(s0, done + 1) == blocks(s0, done) + blocks(st, 1nat));
            }
            assert(blocks(st, 1) =~= state_bytes(mix(st, 20)));
            assert(keystream@ =~= blocks(s0, done + 1));
            done = done + 1;
        }
    }
    let mut out: Vec<u8> = Vec::new();
    let mut i: usize = 0;
    while i < data.len()
        invariant
            i <= data@.len(), keystream@.len() >= data@.len(), out@.len() == i,
            forall|j: int| 0 <= j < i ==> out@[j] == data@[j] ^ keystream@[j],
        decreases data.len() - i,
    {
        out.push(data[i] ^ keystream[i]);
        i += 1;
    }
    proof {
        let nb = ((data@.len() + 15) / 16) as nat;
        assert(done == nb) by (nonlinear_arith)
            requires 16 * done >= data@.len(), done * 16 < data@.len() + 16, nb == (data@.len() + 15) / 16;
        assert(out@ =~= spec_cipher(data@, key@, nonce@, counter));
    }
    out
}

// ---------------------------------------------------------------- parameters

/// Parameters whose payload encryption keeps and decryption rebuilds the
/// track from: CONST, LINEAR, RLE, REPEAT, DELTA, LINEAR_WIDE, RAW,
/// LINEAR_F64 and DELTA_F64.
pub open spec fn supported(p: ParamsView) -> bool {
    match p {
        ParamsView::Const { .. } | ParamsView::Linear { .. } | ParamsView::Rle { .. } | ParamsView::Repeat { .. }
        | ParamsView::Delta { .. } | ParamsView::LinearWide { .. } | ParamsView::Raw { .. } => true,
        ParamsView::Float { pattern, .. } => pattern == PatternType::LinearF64 || pattern == PatternType::DeltaF64,
        _ => false,
    }
}

/// The bytes kept for track `t` analysed as `p`: its stored payload where
/// `supported`, else the track's own bytes (the track stored raw).
pub open spec fn spec_param_bytes(p: ParamsView, t: Seq<u8>) -> Seq<u8> {
    if supported(p) { spec_payload(p) } else { t }
}

fn serialize_params(params: &TrackParams, track: &[u8]) -> (r: Vec<u8>)
    ensures r@ == spec_param_bytes(params@, track@),
{
    let keep = match params {
        TrackParams::Const { .. } | TrackParams::Linear { .. } | TrackParams::Rle { .. } | TrackParams::Repeat { .. }
        | TrackParams::Delta { .. } | TrackParams::LinearWide { .. } | TrackParams::Raw { .. } => true,
        TrackParams::Float { pattern, .. } => match pattern {
            PatternType::LinearF64 | PatternType::DeltaF64 => true,
            _ => false,
        },
        _ => false,
    };
    if keep {
        let mut buf: Vec<u8> = Vec::new();
        write_payload(&mut buf, params);
        proof { assert(buf@ =~= spec_payload(params@)); }
        buf
    } else {
        crate::bytes::copy_bytes(track)
    }
}

/// Estimated parameter size used to pick the geometry.
pub open spec fn spec_param_size(p: ParamsView, sectors: int) -> int {
    match p {
        ParamsView::Const { .. } => 1,
        ParamsView::Linear { .. } => 4,
        ParamsView::Rle { runs } => 2 + 2 * (runs.len() as int),
        ParamsView::Repeat { pattern } => 2 + (pattern.len() as int),
        ParamsView::Delta { deltas, .. } => 2 + (deltas.len() as int),
        ParamsView::LinearWide { .. } => 19,
        ParamsView::Float { pattern, payload } =>
            if pattern == PatternType::LinearF64 { 18 } else if pattern == PatternType::DeltaF64 { payload.len() as int } else { sectors },
        _ => sectors,
    }
}

fn param_size(p: &TrackParams, sectors: usize) -> (r: u128)
    ensures r == spec_param_size(p@, sectors as int), r <= 0x4_0000_0000_0000_0000,
{
    match p {
        TrackParams::Const { .. } => 1,
        TrackParams::Linear { .. } => 4,
        TrackParams::Rle { runs } => 2 + 2 * runs.len() as u128,
        TrackParams::Repeat { pattern } => 2 + pattern.len() as u128,
        TrackParams::Delta { deltas, .. } => 2 + deltas.len() as u128,
        TrackParams::LinearWide { .. } => 19,
        TrackParams::Float { pattern, payload } => match pattern {
            PatternType::LinearF64 => 18,
            PatternType::DeltaF64 => payload.len() as u128,
            _ => sectors as u128,
        },
        _ => sectors as u128,
    }
}

// ---------------------------------------------------------------- geometry

/// Summed parameter sizes of the layout of `data` at `spt`.
pub open spec fn enc_cost(data: Seq<u8>, spt: int, table: Seq<FloatTrack>) -> int {
    cost_of(spec_encs(data, spt, table), spt)
}

/// Summed parameter sizes of encodings `e`.
pub open spec fn cost_of(e: Seq<EncView>, spt: int) -> int
    decreases e.len(),
{
    if e.len() == 0 { 0 } else { cost_of(e.drop_last(), spt) + spec_param_size(e.last().params, spt) }
}

/// The candidate from `i` on that is strictly cheaper than all before it,
/// starting from track size `spt` at cost `size`.
pub open spec fn enc_best_from(data: Seq<u8>, table: Seq<FloatTrack>, i: int, spt: int, size: int) -> int
    decreases 7 - i,
{
    if i < 0 || i >= 7 {
        spt
    } else {
        let c = spec_sector_candidate(i) as int;
        let k = enc_cost(data, c, table);
        if k < size { enc_best_from(data, table, i + 1, c, k) } else { enc_best_from(data, table, i + 1, spt, size) }
    }
}

/// The track size encryption uses for `data`.
pub open spec fn enc_best_spt(data: Seq<u8>, table: Seq<FloatTrack>) -> int {
    enc_best_from(data, table, 0, 256, usize::MAX as int)
}

proof fn lemma_cost_bound(e: Seq<EncView>, spt: int)
    requires 0 <= spt <= 512, forall|k: int| 0 <= k < e.len() ==> #[trigger] spec_param_size(e[k].params, spt) <= usize::MAX,
    ensures 0 <= cost_of(e, spt) <= e.len() * usize::MAX,
    decreases e.len(),
{
    if e.len() > 0 {
        lemma_cost_bound(e.drop_last(), spt);
        assert(spec_param_size(e.last().params, spt) <= usize::MAX);
        assert(spec_param_size(e.last().params, spt) >= 0);
        assert((e.len() - 1) * usize::MAX + usize::MAX == e.len() * usize::MAX) by (nonlinear_arith);
    }
}

fn layout_cost(data: &[u8], spt: usize, table: &FloatTable) -> (r: (u128, Vec<Vec<u8>>, Vec<TrackEncoding>))
    requires 1 <= spt <= 512, data.len() + 1024 <= usize::MAX, data.len() <= 0xFFFF_FFFF, float_table_ok(table.entries@),
    ensures
        r.0 == enc_cost(data@, spt as int, table.entries@),
        r.1@.len() == spec_num_tracks(data@.len() as int, spt as int), r.2@.len() == r.1@.len(),
        forall|i: int| 0 <= i < r.1@.len() ==> #[trigger] r.1@[i]@ == spec_track(data@, spt as int, i),
        forall|i: int| 0 <= i < r.2@.len() ==> analyzed_at(spec_track(data@, spt as int, i), i, table.entries@, #[trigger] r.2@[i]),
{
    let geom = compute_geometry(data.len(), spt);
    proof {
        if data.len() > 0 {
            assert(geom.tracks * spt == (geom.tracks - 1) * spt + spt) by (nonlinear_arith);
            assert(geom.tracks * spt < data.len() + spt);
        } else {
            assert(geom.tracks == 0);
            assert(geom.tracks * spt == 0) by (nonlinear_arith) requires geom.tracks == 0;
        }
        assert(geom.tracks <= geom.tracks * spt) by (nonlinear_arith) requires spt >= 1, geom.tracks >= 0;
    }
    let tracks = lay_out(data, &geom);
    let encs = analyze_platter(&tracks, table);
    let ghost e = crate::pattern::encs_view(encs@);
    proof {
        assert(e =~= spec_encs(data@, spt as int, table.entries@)) by {
            assert forall|i: int| 0 <= i < e.len() implies #[trigger] e[i] == spec_encs(data@, spt as int, table.entries@)[i] by {
                assert(analyzed_at(tracks@[i]@, i, table.entries@, encs@[i]));
            }
        }
        assert(encs@.len() <= 0x1_0000_0200);
    }
    let mut sum: u128 = 0;
    let mut k: usize = 0;
    while k < encs.len()
        invariant
            k <= encs@.len(), encs@.len() <= 0x1_0000_0200, spt <= 512,
            sum == cost_of(e.subrange(0, k as int), spt as int), e == crate::pattern::encs_view(encs@),
            sum <= k * 0x4_0000_0000_0000_0000,
        decreases encs.len() - k,
    {
        let c = param_size(&encs[k].params, spt);
        proof {
            assert(e.subrange(0, k + 1).drop_last() =~= e.subrange(0, k as int));
            assert(e[k as int] == encs@[k as int]@);
            assert(c <= 0x4_0000_0000_0000_0000);
            assert((k + 1) * 0x4_0000_0000_0000_0000 == k * 0x4_0000_0000_0000_0000 + 0x4_0000_0000_0000_0000) by (nonlinear_arith);
            assert(k * 0x4_0000_0000_0000_0000 <= 0x1_0000_0200 * 0x4_0000_0000_0000_0000) by (nonlinear_arith)
                requires k <= 0x1_0000_0200;
        }
        sum = sum + c;
        k += 1;
    }
    proof {
        assert(e.subrange(0, e.len() as int) =~= e);
        assert forall|i: int| 0 <= i < encs@.len() implies analyzed_at(spec_track(data@, spt as int, i), i, table.entries@, #[trigger] encs@[i]) by {
            assert(analyzed_at(tracks@[i]@, i, table.entries@, encs@[i]));
        }
    }
    (sum, tracks, encs)
}

/// Pick the track size whose analysed parameters are smallest in total,
/// the first such among the candidates; 256 bytes if none is below
/// `usize::MAX`.
fn find_best_geometry(data: &[u8], table: &FloatTable) -> (spt: usize)
    requires data.len() + 1024 <= usize::MAX, data.len() <= 0xFFFF_FFFF, float_table_ok(table.entries@),
    ensures spt == enc_best_spt(data@, table.entries@), 8 <= spt <= 512,
{
    let mut best_size: u128 = usize::MAX as u128;
    let mut best_spt: usize = 256;
    let mut i: usize = 0;
    while i < NUM_SECTOR_CANDIDATES
        invariant
            i <= NUM_SECTOR_CANDIDATES, 8 <= best_spt <= 512, data.len() + 1024 <= usize::MAX, data.len() <= 0xFFFF_FFFF,
            float_table_ok(table.entries@),
            enc_best_spt(data@, table.entries@) == enc_best_from(data@, table.entries@, i as int, best_spt as int, best_size as int),
        decreases NUM_SECTOR_CANDIDATES - i,
    {
        let spt = sector_candidate(i);
        let (size, _, _) = layout_cost(data, spt, table);
        if size < best_size {
            best_size = size;
            best_spt = spt;
        }
        i += 1;
    }
    best_spt
}

// ---------------------------------------------------------------- the encrypted format

/// The 24-byte header: magic "PLTE", data length, track size, number of
/// tracks, nonce.
pub open spec fn enc_header(len: u32, spt: u16, n: u16, nonce: Seq<u8>) -> Seq<u8> {
    seq![0x50u8, 0x4Cu8, 0x54u8, 0x45u8] + u32_bytes(len) + u16_bytes(spt) + u16_bytes(n) + nonce
}

/// The keystream counter for the `k`-th track of `n`.
pub open spec fn counter_of(n: int, k: int) -> u32 {
    ((n + k) % 0x1_0000_0000) as u32
}

/// Track `t`, analysed as `e`, as stored: index, pattern tag, length of its
/// encrypted parameter bytes, the encrypted parameter bytes.
pub open spec fn enc_entry(e: EncView, t: Seq<u8>, key: Seq<u8>, nonce: Seq<u8>, counter: u32) -> Seq<u8> {
    let c = spec_cipher(spec_param_bytes(e.params, t), key, nonce, counter);
    u16_bytes(e.idx) + seq![spec_tag(e.pattern)] + u16_bytes((c.len() % 65536) as u16) + c
}

/// Tracks `k..` of `es` (with bytes `ts`) as stored, one after another;
/// track `j` uses counter `counter_of(n, j)`.
pub open spec fn enc_from(es: Seq<EncView>, ts: Seq<Seq<u8>>, k: int, key: Seq<u8>, nonce: Seq<u8>, n: int) -> Seq<u8>
    decreases es.len() - k,
{
    if k < 0 || k >= es.len() {
        Seq::empty()
    } else {
        enc_entry(es[k], ts[k], key, nonce, counter_of(n, k)) + enc_from(es, ts, k + 1, key, nonce, n)
    }
}

proof fn lemma_enc_from_push(es: Seq<EncView>, ts: Seq<Seq<u8>>, k: int, j: int, key: Seq<u8>, nonce: Seq<u8>, n: int)
    requires 0 <= k <= j < es.len(),
    ensures enc_from(es.subrange(0, j + 1), ts, k, key, nonce, n)
        == enc_from(es.subrange(0, j), ts, k, key, nonce, n) + enc_entry(es[j], ts[j], key, nonce, counter_of(n, j)),
    decreases j - k,
{
    let a = es.subrange(0, j + 1);
    let b = es.subrange(0, j);
    if k == j {
        assert(enc_from(b, ts, k, key, nonce, n) =~= Seq::<u8>::empty());
        assert(enc_from(a, ts, k + 1, key, nonce, n) =~= Seq::<u8>::empty());
        assert(a[k] == es[j]);
        assert(enc_from(a, ts, k, key, nonce, n) =~= enc_entry(es[j], ts[j], key, nonce, counter_of(n, j)));
    } else {
        lemma_enc_from_push(es, ts, k + 1, j, key, nonce, n);
        assert(a[k] == es[k] && b[k] == es[k]);
        assert(enc_from(a, ts, k, key, nonce, n) =~= enc_from(b, ts, k, key, nonce, n) + enc_entry(es[j], ts[j], key, nonce, counter_of(n, j)));
    }
}

/// What `encrypt_structured` gives for `data`: for no data, the header of
/// length 0 with no tracks; otherwise the header and every analysed track of
/// the chosen layout with its parameter bytes encrypted.
pub open spec fn spec_encrypted(data: Seq<u8>, key: Seq<u8>, nonce: Seq<u8>, table: Seq<FloatTrack>) -> Seq<u8> {
    if data.len() == 0 {
        enc_header(0, 256, 0, nonce)
    } else {
        let spt = enc_best_spt(data, table);
        let es = spec_encs(data, spt, table);
        enc_header((data.len() % 0x1_0000_0000) as u32, spt as u16, (es.len() % 65536) as u16, nonce)
            + enc_from(es, layout(data, spt), 0, key, nonce, es.len() as int)
    }
}

/// Encrypt `data`: analyse it as the PLTZ encoder does (one geometry, no
/// grouping), keep each track's pattern tag in the clear and encrypt its
/// parameter bytes with the stream cipher, one counter per track.
#[verifier::spinoff_prover]
#[verifier::rlimit(60)]
pub fn encrypt_structured(data: &[u8], key: &[u8; 32], nonce: &[u8; 12], table: &FloatTable) -> (r: Vec<u8>)
    requires data.len() <= 0xFFFF_FFFF, data.len() + 0x400_0000 <= usize::MAX, float_table_ok(table.entries@),
    ensures
        r@ == spec_encrypted(data@, key@, nonce@, table.entries@),
        encryptable(data@, table.entries@) ==> spec_decrypt(r@, key@, table.entries@) == Some(Ok::<Seq<u8>, EncryptError>(data@)),
{
    if data.len() == 0 {
        let mut buf: Vec<u8> = Vec::new();
        buf.push(0x50);
        buf.push(0x4C);
        buf.push(0x54);
        buf.push(0x45);
        push_u32(&mut buf, 0);
        push_u16(&mut buf, 256);
        push_u16(&mut buf, 0);
        push_bytes(&mut buf, nonce.as_slice());
        proof {
            assert(buf@ =~= enc_header(0, 256, 0, nonce@));
            lemma_enc_header_read(buf@, buf@, Seq::empty(), 0, 256, 0, nonce@);
            assert(data@ =~= Seq::<u8>::empty());
        }
        return buf;
    }
    let spt = find_best_geometry(data, table);
    let (_, tracks, encs) = layout_cost(data, spt, table);
    let ghost es = spec_encs(data@, spt as int, table.entries@);
    let ghost ts = layout(data@, spt as int);
    assert(ts.len() == tracks@.len());
    proof {
        assert(crate::pattern::encs_view(encs@) =~= es) by {
            assert forall|i: int| 0 <= i < encs@.len() implies #[trigger] crate::pattern::encs_view(encs@)[i] == es[i] by {
                assert(analyzed_at(spec_track(data@, spt as int, i), i, table.entries@, encs@[i]));
            }
        }
    }
    let n = encs.len();
    let mut buf: Vec<u8> = Vec::new();
    buf.push(0x50);
    buf.push(0x4C);
    buf.push(0x54);
    buf.push(0x45);
    push_u32(&mut buf, data.len() as u32);
    push_u16(&mut buf, spt as u16);
    push_u16(&mut buf, (n % 65536) as u16);
    push_bytes(&mut buf, nonce.as_slice());
    let ghost head = buf@;
    proof {
        assert(head =~= enc_header((data@.len() % 0x1_0000_0000) as u32, spt as u16, (es.len() % 65536) as u16, nonce@));
        assert(enc_from(es.subrange(0, 0), ts, 0, key@, nonce@, n as int) =~= Seq::<u8>::empty());
    }
    let mut k: usize = 0;
    while k < n
        invariant
            k <= n, n == encs@.len(), es == crate::pattern::encs_view(encs@), 8 <= spt <= 512,
            tracks@.len() == n, ts == layout(data@, spt as int), ts.len() == n,
            forall|i: int| 0 <= i < tracks@.len() ==> #[trigger] tracks@[i]@ == spec_track(data@, spt as int, i),
            buf@ == head + enc_from(es.subrange(0, k as int), ts, 0, key@, nonce@, n as int),
        decreases n - k,
    {
        let counter = ((n as u128 + k as u128) % 0x1_0000_0000) as u32;
        let e = &encs[k];
        let pb = serialize_params(&e.params, tracks[k].as_slice());
        let c = stream_cipher(pb.as_slice(), key, nonce, counter);
        let ghost before = buf@;
        push_u16(&mut buf, e.track_idx);
        buf.push(e.pattern.tag());
        push_u16(&mut buf, (c.len() % 65536) as u16);
        push_bytes(&mut buf, c.as_slice());
        proof {
            assert(counter == counter_of(n as int, k as int));
            assert(tracks@[k as int]@ == ts[k as int]);
            assert(buf@ =~= before + enc_entry(encs@[k as int]@, ts[k as int], key@, nonce@, counter));
            lemma_enc_from_push(es, ts, 0, k as int, key@, nonce@, n as int);
        }
        k += 1;
    }
    proof {
        assert(es.subrange(0, n as int) =~= es);
        assert(buf@ == spec_encrypted(data@, key@, nonce@, table.entries@));
        if encryptable(data@, table.entries@) {
            assert forall|i: int| 0 <= i < es.len() implies renders_to(#[trigger] es[i].params, spt as int, table.entries@,
                spec_track(data@, spt as int, i)) by {
                assert(analyzed_at(spec_track(data@, spt as int, i), i, table.entries@, encs@[i]));
            }
            lemma_encrypted_decrypts(data@, key@, nonce@, table.entries@);
        }
    }
    buf
}

// ---------------------------------------------------------------- decryption

/// Why decryption refused its input.
#[derive(Debug, Clone, Copy, PartialEq, Eq, Structural)]
pub enum EncryptError {
    /// fewer than 24 bytes
    TooShort,
    /// it does not start with "PLTE"
    BadMagic,
    /// a track names no pattern type
    BadPatternTag(u8),
    /// a track could not be reconstructed, or one is missing
    Decode(DecodeError),
}

/// Pattern types whose tracks are rebuilt from their stored payload.
pub open spec fn by_payload(p: PatternType) -> bool {
    p == PatternType::Const || p == PatternType::Linear || p == PatternType::Rle || p == PatternType::Repeat
        || p == PatternType::Delta || p == PatternType::LinearWide || p == PatternType::LinearF64
        || p == PatternType::DeltaF64
}

/// A track rebuilt from decrypted parameter bytes `b`: from the payload
/// they hold for the patterns `by_payload` names (floating-point ones from
/// `table`), else the bytes themselves.
#[verifier::opaque]
pub open spec fn spec_reconstruct(b: Seq<u8>, p: PatternType, sectors: int, table: Seq<FloatTrack>) -> Option<Result<Seq<u8>, DecodeError>> {
    if by_payload(p) {
        match spec_decode_payload(b, 0, p, sectors, table) {
            None => None,
            Some(Err(e)) => Some(Err(e)),
            Some(Ok((t, _))) => Some(Ok(t)),
        }
    } else {
        Some(Ok(b))
    }
}

fn reconstruct_track(b: &[u8], p: PatternType, sectors: usize, table: &FloatTable) -> (r: Result<Vec<u8>, DecodeError>)
    requires spec_reconstruct(b@, p, sectors as int, table.entries@) is Some, sectors <= 65535,
    ensures
        match r {
            Ok(t) => spec_reconstruct(b@, p, sectors as int, table.entries@) == Some(Ok::<Seq<u8>, DecodeError>(t@)),
            Err(e) => spec_reconstruct(b@, p, sectors as int, table.entries@) == Some(Err::<Seq<u8>, DecodeError>(e)),
        },
{
    proof { reveal(spec_reconstruct); }
    let payload = match p {
        PatternType::Const | PatternType::Linear | PatternType::Rle | PatternType::Repeat | PatternType::Delta
        | PatternType::LinearWide | PatternType::LinearF64 | PatternType::DeltaF64 => true,
        _ => false,
    };
    if payload {
        match decode_payload(b, 0, p, sectors, table) {
            Ok((t, _)) => Ok(t),
            Err(e) => Err(e),
        }
    } else {
        Ok(crate::bytes::copy_bytes(b))
    }
}

/// Read tracks `k..n` from `off`: decrypt each one's parameters with its
/// counter, rebuild it and place it; `None` where the reader would index
/// past the input or a rebuild cannot proceed.
pub open spec fn dec_tracks(buf: Seq<u8>, off: int, k: int, n: int, sectors: int, slots: Seq<Option<Seq<u8>>>,
    key: Seq<u8>, nonce: Seq<u8>, table: Seq<FloatTrack>) -> Option<Result<Seq<Option<Seq<u8>>>, EncryptError>>
    decreases n - k,
{
    if k >= n {
        Some(Ok(slots))
    } else if off < 0 || off + 5 > buf.len() || off + 5 + le16(buf, off + 3) > buf.len() {
        None
    } else {
        let plen = le16(buf, off + 3);
        let pb = spec_cipher(buf.subrange(off + 5, off + 5 + plen), key, nonce, counter_of(n, k));
        match spec_from_u8(buf[off + 2]) {
            None => Some(Err(EncryptError::BadPatternTag(buf[off + 2]))),
            Some(p) => match spec_reconstruct(pb, p, sectors, table) {
                None => None,
                Some(Err(e)) => Some(Err(EncryptError::Decode(e))),
                Some(Ok(t)) => dec_tracks(buf, off + 5 + plen, k + 1, n, sectors, place(slots, le16(buf, off) as u16, t),
                    key, nonce, table),
            },
        }
    }
}

/// What `decrypt_structured` makes of `buf`; `None` where it cannot
/// proceed (it would index past the input or divide by zero).
pub open spec fn spec_decrypt(buf: Seq<u8>, key: Seq<u8>, table: Seq<FloatTrack>) -> Option<Result<Seq<u8>, EncryptError>> {
    if buf.len() < 24 {
        Some(Err(EncryptError::TooShort))
    } else if !(buf[0] == 0x50 && buf[1] == 0x4C && buf[2] == 0x54 && buf[3] == 0x45) {
        Some(Err(EncryptError::BadMagic))
    } else {
        let len = le32(buf, 4);
        let sectors = le16(buf, 8);
        let n = le16(buf, 10);
        if len == 0 {
            Some(Ok(Seq::empty()))
        } else if sectors == 0 {
            None
        } else {
            let total = (len + sectors - 1) / sectors;
            match dec_tracks(buf, 24, 0, n, sectors, Seq::new(total as nat, |i: int| None::<Seq<u8>>), key,
                buf.subrange(12, 24), table) {
                None => None,
                Some(Err(e)) => Some(Err(e)),
                Some(Ok(s2)) => match assemble_from(s2, 0) {
                    Err(e) => Some(Err(EncryptError::Decode(e))),
                    Ok(t) => Some(Ok(truncated(t, len))),
                },
            }
        }
    }
}

/// One step of `dec_tracks` that does not stop the reader.
proof fn lemma_dec_step(buf: Seq<u8>, off: int, k: int, n: int, sectors: int, slots: Seq<Option<Seq<u8>>>,
    key: Seq<u8>, nonce: Seq<u8>, table: Seq<FloatTrack>)
    requires k < n, dec_tracks(buf, off, k, n, sectors, slots, key, nonce, table) is Some,
    ensures
        0 <= off, off + 5 <= buf.len(), off + 5 + le16(buf, off + 3) <= buf.len(),
        spec_from_u8(buf[off + 2]) is Some ==> spec_reconstruct(
            spec_cipher(buf.subrange(off + 5, off + 5 + le16(buf, off + 3)), key, nonce, counter_of(n, k)),
            spec_from_u8(buf[off + 2])->0, sectors, table) is Some,
{
}

/// The outcome of one track: where it goes, its bytes, where the next starts.
pub open spec fn dec_one(buf: Seq<u8>, off: int, k: int, n: int, sectors: int, key: Seq<u8>, nonce: Seq<u8>,
    table: Seq<FloatTrack>) -> Result<(u16, Seq<u8>, int), EncryptError> {
    let plen = le16(buf, off + 3);
    let pb = spec_cipher(buf.subrange(off + 5, off + 5 + plen), key, nonce, counter_of(n, k));
    match spec_from_u8(buf[off + 2]) {
        None => Err(EncryptError::BadPatternTag(buf[off + 2])),
        Some(p) => match spec_reconstruct(pb, p, sectors, table) {
            Some(Ok(t)) => Ok((le16(buf, off) as u16, t, off + 5 + plen)),
            Some(Err(e)) => Err(EncryptError::Decode(e)),
            None => Err(EncryptError::TooShort),
        },
    }
}

proof fn lemma_dec_one(buf: Seq<u8>, off: int, k: int, n: int, sectors: int, slots: Seq<Option<Seq<u8>>>,
    key: Seq<u8>, nonce: Seq<u8>, table: Seq<FloatTrack>)
    requires k < n, dec_tracks(buf, off, k, n, sectors, slots, key, nonce, table) is Some,
    ensures
        match dec_one(buf, off, k, n, sectors, key, nonce, table) {
            Ok((idx, t, next)) => dec_tracks(buf, off, k, n, sectors, slots, key, nonce, table)
                == dec_tracks(buf, next, k + 1, n, sectors, place(slots, idx, t), key, nonce, table),
            Err(e) => dec_tracks(buf, off, k, n, sectors, slots, key, nonce, table) == Some(Err::<Seq<Option<Seq<u8>>>, EncryptError>(e)),
        },
{
}

fn decrypt_one(buf: &[u8], off: usize, k: usize, n: usize, sectors: usize, key: &[u8; 32], nonce: &[u8; 12], table: &FloatTable)
    -> (r: Result<(u16, Vec<u8>, usize), EncryptError>)
    requires
        k < n, n <= 65535, 1 <= sectors <= 65535, off + 5 <= buf@.len(), off + 5 + le16(buf@, off + 3) <= buf@.len(),
        spec_from_u8(buf@[off + 2]) is Some ==> spec_reconstruct(
            spec_cipher(buf@.subrange(off + 5, off + 5 + le16(buf@, off + 3)), key@, nonce@, counter_of(n as int, k as int)),
            spec_from_u8(buf@[off + 2])->0, sectors as int, table.entries@) is Some,
    ensures
        match r {
            Ok((idx, t, next)) => dec_one(buf@, off as int, k as int, n as int, sectors as int, key@, nonce@, table.entries@)
                == Ok::<(u16, Seq<u8>, int), EncryptError>((idx, t@, next as int)),
            Err(e) => dec_one(buf@, off as int, k as int, n as int, sectors as int, key@, nonce@, table.entries@)
                == Err::<(u16, Seq<u8>, int), EncryptError>(e),
        },
{
    let len = buf.len();
    let idx = read_u16(buf, off);
    let tag = buf[off + 2];
    let plen = read_u16(buf, off + 3) as usize;
    let start = off + 5;
    let enc = vstd::slice::slice_subrange(buf, start, start + plen);
    let counter = ((n as u128 + k as u128) % 0x1_0000_0000) as u32;
    let pb = stream_cipher(enc, key, nonce, counter);
    match PatternType::from_u8(tag) {
        None => Err(EncryptError::BadPatternTag(tag)),
        Some(p) => match reconstruct_track(pb.as_slice(), p, sectors, table) {
            Err(e) => Err(EncryptError::Decode(e)),
            Ok(t) => Ok((idx, t, start + plen)),
        },
    }
}

/// Decrypt data made by `encrypt_structured` with the same key.
#[verifier::spinoff_prover]
#[verifier::rlimit(60)]
pub fn decrypt_structured(encrypted: &[u8], key: &[u8; 32], table: &FloatTable) -> (r: Result<Vec<u8>, EncryptError>)
    requires spec_decrypt(encrypted@, key@, table.entries@) is Some,
    ensures
        match r {
            Ok(t) => spec_decrypt(encrypted@, key@, table.entries@) == Some(Ok::<Seq<u8>, EncryptError>(t@)),
            Err(e) => spec_decrypt(encrypted@, key@, table.entries@) == Some(Err::<Seq<u8>, EncryptError>(e)),
        },
{
    if encrypted.len() < 24 {
        return Err(EncryptError::TooShort);
    }
    if !(encrypted[0] == 0x50 && encrypted[1] == 0x4C && encrypted[2] == 0x54 && encrypted[3] == 0x45) {
        return Err(EncryptError::BadMagic);
    }
    let original_len = read_u32(encrypted, 4) as usize;
    let sectors = read_u16(encrypted, 8) as usize;
    let num_tracks = read_u16(encrypted, 10) as usize;
    let nonce: [u8; 12] = [
        encrypted[12], encrypted[13], encrypted[14], encrypted[15], encrypted[16], encrypted[17],
        encrypted[18], encrypted[19], encrypted[20], encrypted[21], encrypted[22], encrypted[23],
    ];
    proof { assert(nonce@ =~= encrypted@.subrange(12, 24)); }
    if original_len == 0 {
        return Ok(Vec::new());
    }
    proof {
        vstd::arithmetic::div_mod::lemma_hoist_over_denominator(original_len as int - 1, 1, sectors as nat);
    }
    let total = (original_len - 1) / sectors + 1;
    let mut slots: Vec<Option<Vec<u8>>> = Vec::new();
    let mut i: usize = 0;
    while i < total
        invariant i <= total, slots@.len() == i, forall|k: int| 0 <= k < i ==> (#[trigger] slots@[k]) is None,
        decreases total - i,
    {
        slots.push(None);
        i += 1;
    }
    proof { assert(slots_view(slots@) =~= Seq::new(total as nat, |k: int| None::<Seq<u8>>)); }
    let ghost target = dec_tracks(encrypted@, 24, 0, num_tracks as int, sectors as int,
        Seq::new(total as nat, |k: int| None::<Seq<u8>>), key@, nonce@, table.entries@);
    let mut offset: usize = 24;
    let mut k: usize = 0;
    while k < num_tracks
        invariant
            k <= num_tracks, num_tracks == le16(encrypted@, 10), 1 <= sectors <= 65535, offset >= 24,
            encrypted@.len() >= 24, encrypted@[0] == 0x50, encrypted@[1] == 0x4C, encrypted@[2] == 0x54, encrypted@[3] == 0x45,
            original_len == le32(encrypted@, 4), original_len > 0, sectors == le16(encrypted@, 8),
            nonce@ == encrypted@.subrange(12, 24), total == (original_len + sectors - 1) / (sectors as int),
            target == dec_tracks(encrypted@, 24, 0, num_tracks as int, sectors as int,
                Seq::new(total as nat, |k: int| None::<Seq<u8>>), key@, nonce@, table.entries@),
            target is Some,
            target == dec_tracks(encrypted@, offset as int, k as int, num_tracks as int, sectors as int,
                slots_view(slots@), key@, nonce@, table.entries@),
        decreases num_tracks - k,
    {
        proof {
            lemma_dec_step(encrypted@, offset as int, k as int, num_tracks as int, sectors as int, slots_view(slots@), key@, nonce@, table.entries@);
            lemma_dec_one(encrypted@, offset as int, k as int, num_tracks as int, sectors as int, slots_view(slots@), key@, nonce@, table.entries@);
        }
        match decrypt_one(encrypted, offset, k, num_tracks, sectors, key, &nonce, table) {
            Err(e) => { return Err(e); }
            Ok((idx, t, next)) => {
                crate::codec::place_track(&mut slots, idx, t);
                offset = next;
            }
        }
        k += 1;
    }
    match crate::codec::assemble(&slots) {
        Err(e) => Err(EncryptError::Decode(e)),
        Ok(mut t) => {
            crate::codec::truncate_to(&mut t, original_len);
            Ok(t)
        }
    }
}

// ---------------------------------------------------------------- why decryption gives the data back

/// The limits of the encrypted format's fields: at most 2^32 - 1 bytes of
/// data, at most 65535 tracks, and each track's kept bytes within a 16-bit
/// length.
pub open spec fn encryptable(data: Seq<u8>, table: Seq<FloatTrack>) -> bool {
    let spt = enc_best_spt(data, table);
    let es = spec_encs(data, spt, table);
    let ts = layout(data, spt);
    &&& data.len() <= 0xFFFF_FFFF
    &&& data.len() > 0 ==> es.len() <= 65535
        && forall|i: int| 0 <= i < es.len() ==> (#[trigger] spec_param_bytes(es[i].params, ts[i])).len() <= 65535
}

/// Every track is rebuilt from the bytes encryption keeps for it: for any
/// track `t` of `n` bytes that parameters `p` render to, reconstructing the
/// kept bytes `spec_param_bytes(p, t)` as pattern `p` gives `t` back.
pub proof fn law_track_rebuilds(p: ParamsView, n: int, table: Seq<FloatTrack>, t: Seq<u8>)
    requires renders_to(p, n, table, t), 1 <= n <= 65535,
    ensures spec_reconstruct(spec_param_bytes(p, t), view_pattern(p), n, table) == Some(Ok::<Seq<u8>, DecodeError>(t)),
{
    reveal(spec_reconstruct);
    let b = spec_payload(p);
    if !supported(p) {
        assert(!by_payload(view_pattern(p)));
    } else if by_payload(view_pattern(p)) {
        assert(b.subrange(0, b.len() as int) =~= b);
        crate::entry::lemma_payload_decodes(p, n, table, t, b, 0);
    }
}

proof fn lemma_dec_unfold(buf: Seq<u8>, off: int, k: int, n: int, sectors: int, slots: Seq<Option<Seq<u8>>>,
    key: Seq<u8>, nonce: Seq<u8>, table: Seq<FloatTrack>, idx: u16, t: Seq<u8>, next: int)
    requires
        k < n, 0 <= off, off + 5 <= buf.len(), off + 5 + le16(buf, off + 3) <= buf.len(),
        dec_one(buf, off, k, n, sectors, key, nonce, table) == Ok::<(u16, Seq<u8>, int), EncryptError>((idx, t, next)),
    ensures
        dec_tracks(buf, off, k, n, sectors, slots, key, nonce, table)
            == dec_tracks(buf, next, k + 1, n, sectors, place(slots, idx, t), key, nonce, table),
{
}

/// The entry stored for track `e` reads back as that track.
#[verifier::spinoff_prover]
#[verifier::rlimit(60)]
proof fn lemma_dec_entry(buf: Seq<u8>, off: int, e: EncView, k: int, n: int, spt: int, key: Seq<u8>, nonce: Seq<u8>,
    table: Seq<FloatTrack>, t: Seq<u8>)
    requires
        crate::entry::placed(buf, off, enc_entry(e, t, key, nonce, counter_of(n, k))),
        1 <= spt <= 512, e.pattern == view_pattern(e.params),
        spec_param_bytes(e.params, t).len() <= 65535, renders_to(e.params, spt, table, t),
    ensures
        off + 5 <= buf.len(), off + 5 + le16(buf, off + 3) <= buf.len(),
        dec_one(buf, off, k, n, spt, key, nonce, table) == Ok::<(u16, Seq<u8>, int), EncryptError>((e.idx, t,
            off + enc_entry(e, t, key, nonce, counter_of(n, k)).len())),
{
    let pb = spec_param_bytes(e.params, t);
    let c = spec_cipher(pb, key, nonce, counter_of(n, k));
    lemma_entry_fields(buf, off, e, t, key, nonce, counter_of(n, k));
    law_cipher_involution(pb, key, nonce, counter_of(n, k));
    crate::pattern::lemma_tag_from_u8(e.pattern);
    law_track_rebuilds(e.params, spt, table, t);
    assert(spec_cipher(buf.subrange(off + 5, off + 5 + le16(buf, off + 3)), key, nonce, counter_of(n, k)) == pb);
}

/// The fields of a stored entry.
#[verifier::spinoff_prover]
proof fn lemma_entry_fields(buf: Seq<u8>, off: int, e: EncView, t: Seq<u8>, key: Seq<u8>, nonce: Seq<u8>, counter: u32)
    requires
        crate::entry::placed(buf, off, enc_entry(e, t, key, nonce, counter)),
        spec_param_bytes(e.params, t).len() <= 65535,
    ensures
        off + 5 <= buf.len(),
        le16(buf, off) == e.idx, buf[off + 2] == spec_tag(e.pattern),
        le16(buf, off + 3) == spec_param_bytes(e.params, t).len(),
        off + 5 + le16(buf, off + 3) <= buf.len(),
        buf.subrange(off + 5, off + 5 + le16(buf, off + 3)) == spec_cipher(spec_param_bytes(e.params, t), key, nonce, counter),
        enc_entry(e, t, key, nonce, counter).len() == 5 + le16(buf, off + 3),
{
    let pb = spec_param_bytes(e.params, t);
    let c = spec_cipher(pb, key, nonce, counter);
    let entry = enc_entry(e, t, key, nonce, counter);
    crate::entry::lemma_placed(buf, off, entry);
    assert(c.len() == pb.len());
    assert(c.len() % 65536 == c.len());
    assert(buf.subrange(off, off + 2) =~= u16_bytes(e.idx)) by {
        assert(buf[off] == entry[0] && buf[off + 1] == entry[1]);
    }
    assert(buf.subrange(off + 3, off + 5) =~= u16_bytes(c.len() as u16)) by {
        assert(buf[off + 3] == entry[3] && buf[off + 4] == entry[4]);
    }
    crate::bytes::lemma_u16_bytes(e.idx, buf, off);
    crate::bytes::lemma_u16_bytes(c.len() as u16, buf, off + 3);
    assert(buf[off + 2] == spec_tag(e.pattern)) by { assert(buf[off + 2] == entry[2]); }
    assert(buf.subrange(off + 5, off + 5 + c.len()) =~= c) by {
        assert forall|j: int| 0 <= j < c.len() implies #[trigger] buf.subrange(off + 5, off + 5 + c.len())[j] == c[j] by {
            assert(buf[off + 5 + j] == entry[5 + j]);
        }
    }
}

#[verifier::spinoff_prover]
#[verifier::rlimit(40)]
proof fn lemma_dec_all(buf: Seq<u8>, off: int, es: Seq<EncView>, k: int, spt: int, key: Seq<u8>, nonce: Seq<u8>,
    table: Seq<FloatTrack>, tracks: Seq<Seq<u8>>, slots: Seq<Option<Seq<u8>>>)
    requires
        crate::entry::placed(buf, off, enc_from(es, tracks, k, key, nonce, es.len() as int)),
        0 <= k <= es.len(), es.len() <= 65535, 1 <= spt <= 512, tracks.len() == es.len(),
        forall|j: int| 0 <= j < es.len() ==> (#[trigger] es[j]).idx == j && es[j].pattern == view_pattern(es[j].params)
            && spec_param_bytes(es[j].params, tracks[j]).len() <= 65535
            && renders_to(es[j].params, spt, table, tracks[j]),
        crate::stored::slots_agree(slots, tracks),
        forall|j: int| 0 <= j < k ==> (#[trigger] slots[j]) is Some,
    ensures
        dec_tracks(buf, off, k, es.len() as int, spt, slots, key, nonce, table) matches Some(Ok(s2))
            && crate::stored::slots_agree(s2, tracks) && forall|j: int| 0 <= j < s2.len() ==> (#[trigger] s2[j]) is Some,
    decreases es.len() - k,
{
    let n = es.len() as int;
    if k < n {
        let e = es[k];
        let entry = enc_entry(e, tracks[k], key, nonce, counter_of(n, k));
        let rest = enc_from(es, tracks, k + 1, key, nonce, n);
        assert(enc_from(es, tracks, k, key, nonce, n) == entry + rest);
        crate::stored::lemma_placed_split(buf, off, entry, rest);
        lemma_dec_entry(buf, off, e, k, n, spt, key, nonce, table, tracks[k]);
        lemma_dec_unfold(buf, off, k, n, spt, slots, key, nonce, table, e.idx, tracks[k], off + entry.len());
        crate::stored::lemma_place_agrees_pub(slots, tracks, e.idx);
        let s1 = place(slots, e.idx, tracks[k]);
        assert forall|j: int| 0 <= j < k + 1 implies (#[trigger] s1[j]) is Some by {
            if j < k { assert(slots[j] is Some); }
        }
        lemma_dec_all(buf, off + entry.len(), es, k + 1, spt, key, nonce, table, tracks, s1);
    } else {
        assert forall|j: int| 0 <= j < slots.len() implies (#[trigger] slots[j]) is Some by {}
    }
}

/// The header fields of an encrypted buffer read back as written.
proof fn lemma_enc_header_read(buf: Seq<u8>, h: Seq<u8>, body: Seq<u8>, len: u32, spt: u16, n: u16, nonce: Seq<u8>)
    requires nonce.len() == 12, h == enc_header(len, spt, n, nonce), buf == h + body,
    ensures
        buf.len() >= 24, buf[0] == 0x50 && buf[1] == 0x4C && buf[2] == 0x54 && buf[3] == 0x45,
        le32(buf, 4) == len, le16(buf, 8) == spt, le16(buf, 10) == n, buf.subrange(12, 24) == nonce,
{
    assert(buf.subrange(0, buf.len() as int) =~= h + body);
    crate::stored::lemma_placed_split(buf, 0, h, body);
    crate::entry::lemma_placed(buf, 0, h);
    assert(buf.subrange(4, 8) =~= u32_bytes(len)) by {
        assert forall|j: int| 0 <= j < 4 implies #[trigger] buf.subrange(4, 8)[j] == u32_bytes(len)[j] by {
            assert(buf[4 + j] == h[4 + j]);
        }
    }
    assert(buf.subrange(8, 10) =~= u16_bytes(spt)) by {
        assert(buf[8] == h[8] && buf[9] == h[9]);
    }
    assert(buf.subrange(10, 12) =~= u16_bytes(n)) by {
        assert(buf[10] == h[10] && buf[11] == h[11]);
    }
    assert(buf.subrange(12, 24) =~= nonce) by {
        assert forall|j: int| 0 <= j < 12 implies #[trigger] buf.subrange(12, 24)[j] == nonce[j] by {
            assert(buf[12 + j] == h[12 + j]);
        }
    }
    crate::bytes::lemma_u32_bytes(len, buf, 4);
    crate::bytes::lemma_u16_bytes(spt, buf, 8);
    crate::bytes::lemma_u16_bytes(n, buf, 10);
    assert(buf[0] == h[0] && buf[1] == h[1] && buf[2] == h[2] && buf[3] == h[3]);
}

/// What the tracks of `encryptable` data satisfy for decryption.
#[verifier::spinoff_prover]
#[verifier::rlimit(40)]
proof fn lemma_encryptable_tracks(data: Seq<u8>, table: Seq<FloatTrack>)
    requires
        encryptable(data, table), data.len() > 0,
        8 <= enc_best_spt(data, table) <= 512,
        forall|i: int| 0 <= i < spec_encs(data, enc_best_spt(data, table), table).len() ==>
            renders_to(#[trigger] spec_encs(data, enc_best_spt(data, table), table)[i].params, enc_best_spt(data, table),
                table, spec_track(data, enc_best_spt(data, table), i)),
    ensures ({
        let spt = enc_best_spt(data, table);
        let es = spec_encs(data, spt, table);
        let tr = layout(data, spt);
        &&& es.len() <= 65535 && tr.len() == es.len()
        &&& forall|j: int| 0 <= j < es.len() ==> (#[trigger] es[j]).idx == j && es[j].pattern == view_pattern(es[j].params)
            && spec_param_bytes(es[j].params, tr[j]).len() <= 65535
            && renders_to(es[j].params, spt, table, tr[j])
    }),
{
    let spt = enc_best_spt(data, table);
    let es = spec_encs(data, spt, table);
    let tr = layout(data, spt);
    assert forall|j: int| 0 <= j < es.len() implies (#[trigger] es[j]).idx == j && es[j].pattern == view_pattern(es[j].params)
        && spec_param_bytes(es[j].params, tr[j]).len() <= 65535
        && renders_to(es[j].params, spt, table, tr[j]) by {
        assert(spec_param_bytes(es[j].params, tr[j]).len() <= 65535);
    }
}

/// Encrypted data that is `encryptable` decrypts back to it.
#[verifier::spinoff_prover]
#[verifier::rlimit(100)]
proof fn lemma_encrypted_decrypts(data: Seq<u8>, key: Seq<u8>, nonce: Seq<u8>, table: Seq<FloatTrack>)
    requires
        encryptable(data, table), data.len() > 0, nonce.len() == 12,
        8 <= enc_best_spt(data, table) <= 512,
        forall|i: int| 0 <= i < spec_encs(data, enc_best_spt(data, table), table).len() ==>
            renders_to(#[trigger] spec_encs(data, enc_best_spt(data, table), table)[i].params, enc_best_spt(data, table),
                table, spec_track(data, enc_best_spt(data, table), i)),
    ensures spec_decrypt(spec_encrypted(data, key, nonce, table), key, table) == Some(Ok::<Seq<u8>, EncryptError>(data)),
{
    let spt = enc_best_spt(data, table);
    let es = spec_encs(data, spt, table);
    let n = es.len() as int;
    let tr = layout(data, spt);
    lemma_encryptable_tracks(data, table);
    let h = enc_header(data.len() as u32, spt as u16, n as u16, nonce);
    let body = enc_from(es, tr, 0, key, nonce, n);
    let buf = spec_encrypted(data, key, nonce, table);
    assert(data.len() % 0x1_0000_0000 == data.len());
    assert(n % 65536 == n);
    assert(buf == h + body);
    lemma_enc_header_read(buf, h, body, data.len() as u32, spt as u16, n as u16, nonce);
    assert(buf.subrange(0, buf.len() as int) =~= h + body);
    crate::stored::lemma_placed_split(buf, 0, h, body);
    let total = (data.len() + spt - 1) / spt;
    assert(total == spec_num_tracks(data.len() as int, spt));
    let slots = Seq::new(total as nat, |i: int| None::<Seq<u8>>);
    assert(crate::stored::slots_agree(slots, tr));
    lemma_dec_all(buf, 24, es, 0, spt, key, nonce, table, tr, slots);
    let (s2) = dec_tracks(buf, 24, 0, n, spt, slots, key, nonce, table)->0->Ok_0;
    crate::stored::lemma_assemble_full(s2, tr, 0);
    assert(tr.subrange(0, tr.len() as int) =~= tr);
    crate::codec::lemma_layout_flatten(data, spt);
}

} // verus!
