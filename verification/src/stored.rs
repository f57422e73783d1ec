//! What a PLTZ container stores, piece by piece, and why reading it back
//! gives each track that the pieces describe.
use vstd::prelude::*;
use crate::bytes::{le16, u16_bytes};
use crate::pattern::{ParamsView, FloatTrack, DecodeError, META_TAG, view_pattern, spec_tag};
use crate::entry::{spec_entry, placed, lemma_entry_decodes, lemma_placed, lemma_le16_of};
use crate::cross_track::{MetaView, spec_meta_bytes, meta_renders, lemma_meta_decodes};
use crate::codec::{place, place_all, spec_decode_entries, spec_decode_platters, assemble_from};
use crate::analyzer::renders_to;

verus! {

/// One entry of a platter: a single track with its parameters, or a group.
pub enum Piece {
    Track(u16, ParamsView),
    Group(MetaView),
}

/// The bytes of one entry.
pub open spec fn piece_bytes(p: Piece) -> Seq<u8> {
    match p {
        Piece::Track(i, q) => spec_entry(i, q),
        Piece::Group(g) => spec_meta_bytes(g),
    }
}

/// The entries' bytes, one after another.
pub open spec fn pieces_bytes(ps: Seq<Piece>) -> Seq<u8>
    decreases ps.len(),
{
    if ps.len() == 0 { Seq::empty() } else { pieces_bytes(ps.drop_last()) + piece_bytes(ps.last()) }
}

/// A platter: its entry count, then its entries.
pub open spec fn platter_bytes(ps: Seq<Piece>) -> Seq<u8> {
    u16_bytes((ps.len() % 65536) as u16) + pieces_bytes(ps)
}

/// The platters, one after another.
pub open spec fn platters_bytes(pls: Seq<Seq<Piece>>) -> Seq<u8>
    decreases pls.len(),
{
    if pls.len() == 0 { Seq::empty() } else { platters_bytes(pls.drop_last()) + platter_bytes(pls.last()) }
}

/// The tracks a group lists, in its order.
pub open spec fn listed(g: MetaView, tracks: Seq<Seq<u8>>) -> Seq<Seq<u8>> {
    Seq::new(g.indices.len(), |k: int| tracks[g.indices[k] as int])
}

/// An entry reconstructs, at `n` bytes per track, the tracks it names.
pub open spec fn piece_ok(p: Piece, n: int, table: Seq<FloatTrack>, tracks: Seq<Seq<u8>>) -> bool {
    match p {
        Piece::Track(i, q) => (i as int) < tracks.len() && renders_to(q, n, table, tracks[i as int]),
        Piece::Group(g) => (forall|k: int| 0 <= k < g.indices.len() ==> (#[trigger] g.indices[k] as int) < tracks.len())
            && meta_renders(g, n, table, listed(g, tracks)),
    }
}

/// Track `i` is one the entry names.
pub open spec fn covers(p: Piece, i: int) -> bool {
    match p {
        Piece::Track(j, _) => j as int == i,
        Piece::Group(g) => exists|k: int| 0 <= k < g.indices.len() && #[trigger] g.indices[k] as int == i,
    }
}

/// Some entry of some platter names track `i`.
pub open spec fn named_by(pls: Seq<Seq<Piece>>, i: int) -> bool {
    exists|p: int, k: int| 0 <= p < pls.len() && 0 <= k < pls[p].len() && #[trigger] covers(pls[p][k], i)
}

/// Every filled slot holds the track of its position.
pub open spec fn slots_agree(slots: Seq<Option<Seq<u8>>>, tracks: Seq<Seq<u8>>) -> bool {
    &&& slots.len() == tracks.len()
    &&& forall|i: int| 0 <= i < slots.len() && (#[trigger] slots[i]) is Some ==> slots[i] == Some(tracks[i])
}

proof fn lemma_pieces_front(ps: Seq<Piece>)
    requires ps.len() > 0,
    ensures pieces_bytes(ps) == piece_bytes(ps[0]) + pieces_bytes(ps.drop_first()),
    decreases ps.len(),
{
    if ps.len() == 1 {
        assert(ps.drop_last() =~= Seq::<Piece>::empty());
        assert(ps.drop_first() =~= Seq::<Piece>::empty());
        assert(pieces_bytes(Seq::<Piece>::empty()) == Seq::<u8>::empty());
        assert(ps.last() == ps[0]);
        assert(pieces_bytes(ps) =~= piece_bytes(ps[0]));
    } else {
        lemma_pieces_front(ps.drop_last());
        assert(ps.drop_last().drop_first() =~= ps.drop_first().drop_last());
        assert(ps.drop_first().last() == ps.last());
        assert(ps.drop_last()[0] == ps[0]);
    }
}

proof fn lemma_platters_front(pls: Seq<Seq<Piece>>)
    requires pls.len() > 0,
    ensures platters_bytes(pls) == platter_bytes(pls[0]) + platters_bytes(pls.drop_first()),
    decreases pls.len(),
{
    if pls.len() == 1 {
        assert(pls.drop_last() =~= Seq::<Seq<Piece>>::empty());
        assert(pls.drop_first() =~= Seq::<Seq<Piece>>::empty());
        assert(platters_bytes(Seq::<Seq<Piece>>::empty()) == Seq::<u8>::empty());
        assert(pls.last() == pls[0]);
        assert(platters_bytes(pls) =~= platter_bytes(pls[0]));
    } else {
        lemma_platters_front(pls.drop_last());
        assert(pls.drop_last().drop_first() =~= pls.drop_first().drop_last());
        assert(pls.drop_first().last() == pls.last());
        assert(pls.drop_last()[0] == pls[0]);
    }
}

/// `a + b` placed at `pos` places `a` at `pos` and `b` right after it.
pub proof fn lemma_placed_split(buf: Seq<u8>, pos: int, a: Seq<u8>, b: Seq<u8>)
    requires placed(buf, pos, a + b),
    ensures placed(buf, pos, a), placed(buf, pos + a.len(), b),
{
    lemma_placed(buf, pos, a + b);
    assert(buf.subrange(pos, pos + a.len()) =~= a) by {
        assert forall|j: int| 0 <= j < a.len() implies #[trigger] buf.subrange(pos, pos + a.len())[j] == a[j] by {
            assert(buf[pos + j] == (a + b)[j]);
        }
    }
    assert(buf.subrange(pos + a.len(), pos + a.len() + b.len()) =~= b) by {
        assert forall|j: int| 0 <= j < b.len() implies #[trigger] buf.subrange(pos + a.len(), pos + a.len() + b.len())[j] == b[j] by {
            assert(buf[pos + a.len() + j] == (a + b)[a.len() + j]);
        }
    }
}

proof fn lemma_place_agrees(slots: Seq<Option<Seq<u8>>>, tracks: Seq<Seq<u8>>, i: u16)
    requires slots_agree(slots, tracks), (i as int) < tracks.len(),
    ensures
        slots_agree(place(slots, i, tracks[i as int]), tracks),
        place(slots, i, tracks[i as int])[i as int] is Some,
        forall|j: int| 0 <= j < slots.len() && (#[trigger] slots[j]) is Some ==> place(slots, i, tracks[i as int])[j] is Some,
{
}

/// Placing a track that agrees keeps the slots agreeing, and fills its slot.
pub proof fn lemma_place_agrees_pub(slots: Seq<Option<Seq<u8>>>, tracks: Seq<Seq<u8>>, i: u16)
    requires slots_agree(slots, tracks), (i as int) < tracks.len(),
    ensures
        slots_agree(place(slots, i, tracks[i as int]), tracks),
        place(slots, i, tracks[i as int])[i as int] is Some,
        forall|j: int| 0 <= j < slots.len() && (#[trigger] slots[j]) is Some ==> place(slots, i, tracks[i as int])[j] is Some,
{
    lemma_place_agrees(slots, tracks, i);
}

proof fn lemma_place_all_agrees(slots: Seq<Option<Seq<u8>>>, tracks: Seq<Seq<u8>>, idx: Seq<u16>, ts: Seq<Seq<u8>>)
    requires
        slots_agree(slots, tracks), ts.len() == idx.len(),
        forall|k: int| 0 <= k < idx.len() ==> (#[trigger] idx[k] as int) < tracks.len(),
        forall|k: int| 0 <= k < idx.len() ==> #[trigger] ts[k] == tracks[idx[k] as int],
    ensures
        slots_agree(place_all(slots, idx, ts), tracks),
        forall|j: int| 0 <= j < slots.len() && (#[trigger] slots[j]) is Some ==> place_all(slots, idx, ts)[j] is Some,
        forall|k: int| 0 <= k < idx.len() ==> (#[trigger] place_all(slots, idx, ts)[idx[k] as int]) is Some,
    decreases idx.len(),
{
    if idx.len() > 0 {
        assert(ts[0] == tracks[idx[0] as int]);
        lemma_place_agrees(slots, tracks, idx[0]);
        let s1 = place(slots, idx[0], ts[0]);
        let i2 = idx.drop_first();
        let t2 = ts.drop_first();
        assert forall|k: int| 0 <= k < i2.len() implies (#[trigger] i2[k] as int) < tracks.len() by { assert(i2[k] == idx[k + 1]); }
        assert forall|k: int| 0 <= k < i2.len() implies #[trigger] t2[k] == tracks[i2[k] as int] by {
            assert(i2[k] == idx[k + 1]);
            assert(t2[k] == ts[k + 1]);
        }
        lemma_place_all_agrees(s1, tracks, i2, t2);
        assert forall|k: int| 0 <= k < idx.len() implies (#[trigger] place_all(slots, idx, ts)[idx[k] as int]) is Some by {
            if k > 0 {
                assert(i2[k - 1] == idx[k]);
            } else {
                assert(s1[idx[0] as int] is Some);
            }
        }
    }
}

/// Reading the entries `ps` placed at `off` fills, in slots that agree with
/// `tracks`, every track some entry names; nothing it fills disagrees.
#[verifier::spinoff_prover]
#[verifier::rlimit(60)]
pub proof fn lemma_entries_decode(buf: Seq<u8>, off: int, ps: Seq<Piece>, n: int, table: Seq<FloatTrack>,
    tracks: Seq<Seq<u8>>, slots: Seq<Option<Seq<u8>>>)
    requires
        placed(buf, off, pieces_bytes(ps)), 0 <= n <= 65535, slots_agree(slots, tracks),
        forall|k: int| 0 <= k < ps.len() ==> piece_ok(#[trigger] ps[k], n, table, tracks),
    ensures
        spec_decode_entries(buf, off, ps.len() as int, n, slots, table) matches Some(Ok((s2, next)))
            && next == off + pieces_bytes(ps).len() && slots_agree(s2, tracks)
            && (forall|i: int| 0 <= i < tracks.len() && (#[trigger] slots[i]) is Some ==> s2[i] is Some)
            && (forall|k: int, i: int| 0 <= k < ps.len() && 0 <= i < tracks.len() && #[trigger] covers(ps[k], i) ==> #[trigger] s2[i] is Some),
    decreases ps.len(),
{
    if ps.len() > 0 {
        lemma_pieces_front(ps);
        let p0 = ps[0];
        let rest = ps.drop_first();
        let b0 = piece_bytes(p0);
        lemma_placed_split(buf, off, b0, pieces_bytes(rest));
        assert(piece_ok(ps[0], n, table, tracks));
        assert forall|k: int| 0 <= k < rest.len() implies piece_ok(#[trigger] rest[k], n, table, tracks) by {
            assert(rest[k] == ps[k + 1]);
        }
        match p0 {
            Piece::Track(i, q) => {
                lemma_entry_decodes(i, q, n, table, tracks[i as int], buf, off);
                lemma_placed(buf, off, b0);
                crate::pattern::lemma_tag_from_u8(view_pattern(q));
                assert(buf[off + 2] == b0[2]);
                lemma_place_agrees(slots, tracks, i);
                let s1 = place(slots, i, tracks[i as int]);
                lemma_entries_decode(buf, off + b0.len(), rest, n, table, tracks, s1);
                let (s2, _n2) = spec_decode_entries(buf, off + b0.len(), rest.len() as int, n, s1, table)->0->Ok_0;
                assert forall|k: int, j: int| 0 <= k < ps.len() && 0 <= j < tracks.len() && #[trigger] covers(ps[k], j)
                    implies #[trigger] s2[j] is Some by {
                    if k > 0 { assert(rest[k - 1] == ps[k]); } else { assert(s1[j] is Some); }
                }
            }
            Piece::Group(g) => {
                let ts = listed(g, tracks);
                lemma_meta_decodes(g, n, table, ts, buf, off);
                lemma_place_all_agrees(slots, tracks, g.indices, ts);
                let s1 = place_all(slots, g.indices, ts);
                lemma_entries_decode(buf, off + b0.len(), rest, n, table, tracks, s1);
                let (s2, _n2) = spec_decode_entries(buf, off + b0.len(), rest.len() as int, n, s1, table)->0->Ok_0;
                assert forall|k: int, j: int| 0 <= k < ps.len() && 0 <= j < tracks.len() && #[trigger] covers(ps[k], j)
                    implies #[trigger] s2[j] is Some by {
                    if k > 0 {
                        assert(rest[k - 1] == ps[k]);
                    } else {
                        let m = choose|m: int| 0 <= m < g.indices.len() && #[trigger] g.indices[m] as int == j;
                        assert(s1[g.indices[m] as int] is Some);
                    }
                }
            }
        }
    }
}

/// Reading the platters `pls` placed at `off` fills every track some entry
/// of some platter names, and nothing that disagrees with `tracks`.
#[verifier::spinoff_prover]
#[verifier::rlimit(60)]
pub proof fn lemma_platters_decode(buf: Seq<u8>, off: int, pls: Seq<Seq<Piece>>, n: int, table: Seq<FloatTrack>,
    tracks: Seq<Seq<u8>>, slots: Seq<Option<Seq<u8>>>)
    requires
        placed(buf, off, platters_bytes(pls)), 0 <= n <= 65535, slots_agree(slots, tracks),
        forall|p: int| 0 <= p < pls.len() ==> (#[trigger] pls[p]).len() <= 65535,
        forall|p: int, k: int| 0 <= p < pls.len() && 0 <= k < pls[p].len() ==> piece_ok(#[trigger] pls[p][k], n, table, tracks),
    ensures
        spec_decode_platters(buf, off, pls.len() as int, n, slots, table) matches Some(Ok((s2, next)))
            && slots_agree(s2, tracks)
            && (forall|i: int| 0 <= i < tracks.len() && (#[trigger] slots[i]) is Some ==> s2[i] is Some)
            && (forall|p: int, k: int, i: int| 0 <= p < pls.len() && 0 <= k < pls[p].len() && 0 <= i < tracks.len()
                && #[trigger] covers(pls[p][k], i) ==> #[trigger] s2[i] is Some),
    decreases pls.len(),
{
    if pls.len() > 0 {
        lemma_platters_front(pls);
        let ps = pls[0];
        let rest = pls.drop_first();
        lemma_placed_split(buf, off, platter_bytes(ps), platters_bytes(rest));
        assert(ps.len() % 65536 == ps.len());
        lemma_placed_split(buf, off, u16_bytes(ps.len() as u16), pieces_bytes(ps));
        lemma_placed(buf, off, u16_bytes(ps.len() as u16));
        lemma_le16_of(ps.len() as u16);
        assert(le16(buf, off) == le16(u16_bytes(ps.len() as u16), 0));
        assert(le16(buf, off) == ps.len());
        assert forall|k: int| 0 <= k < ps.len() implies piece_ok(#[trigger] ps[k], n, table, tracks) by {
            assert(piece_ok(pls[0][k], n, table, tracks));
        }
        lemma_entries_decode(buf, off + 2, ps, n, table, tracks, slots);
        let (s1, next1) = spec_decode_entries(buf, off + 2, ps.len() as int, n, slots, table)->0->Ok_0;
        assert forall|p: int| 0 <= p < rest.len() implies (#[trigger] rest[p]).len() <= 65535 by {
            assert(rest[p] == pls[p + 1]);
        }
        assert forall|p: int, k: int| 0 <= p < rest.len() && 0 <= k < rest[p].len() implies
            piece_ok(#[trigger] rest[p][k], n, table, tracks) by {
            assert(rest[p] == pls[p + 1]);
            assert(piece_ok(pls[p + 1][k], n, table, tracks));
        }
        lemma_platters_decode(buf, next1, rest, n, table, tracks, s1);
        let (s2, _n2) = spec_decode_platters(buf, next1, rest.len() as int, n, s1, table)->0->Ok_0;
        assert forall|p: int, k: int, i: int| 0 <= p < pls.len() && 0 <= k < pls[p].len() && 0 <= i < tracks.len()
            && #[trigger] covers(pls[p][k], i) implies #[trigger] s2[i] is Some by {
            if p > 0 {
                assert(rest[p - 1] == pls[p]);
                assert(covers(rest[p - 1][k], i));
            } else {
                assert(covers(ps[k], i));
                assert(s1[i] is Some);
            }
        }
    }
}

/// The tracks, one after another.
pub open spec fn flatten(tracks: Seq<Seq<u8>>) -> Seq<u8>
    decreases tracks.len(),
{
    if tracks.len() == 0 { Seq::empty() } else { tracks[0] + flatten(tracks.drop_first()) }
}

/// With every slot filled and agreeing, the slots assemble to the tracks.
pub proof fn lemma_assemble_full(slots: Seq<Option<Seq<u8>>>, tracks: Seq<Seq<u8>>, i: int)
    requires
        slots_agree(slots, tracks), 0 <= i <= slots.len(),
        forall|j: int| 0 <= j < slots.len() ==> (#[trigger] slots[j]) is Some,
    ensures assemble_from(slots, i) == Ok::<Seq<u8>, DecodeError>(flatten(tracks.subrange(i, tracks.len() as int))),
    decreases slots.len() - i,
{
    if i < slots.len() {
        lemma_assemble_full(slots, tracks, i + 1);
        assert(tracks.subrange(i, tracks.len() as int).drop_first() =~= tracks.subrange(i + 1, tracks.len() as int));
        assert(slots[i] == Some(tracks[i]));
    } else {
        assert(tracks.subrange(i, tracks.len() as int).len() == 0);
    }
}

/// Tracks of `n` bytes each flatten to a sequence whose byte `k` is byte
/// `k % n` of track `k / n`.
pub proof fn lemma_flatten_index(tracks: Seq<Seq<u8>>, n: int)
    requires n > 0, forall|i: int| 0 <= i < tracks.len() ==> (#[trigger] tracks[i]).len() == n,
    ensures
        flatten(tracks).len() == tracks.len() * n,
        forall|k: int| 0 <= k < tracks.len() * n ==> #[trigger] flatten(tracks)[k] == tracks[k / n][k % n],
    decreases tracks.len(),
{
    if tracks.len() > 0 {
        let rest = tracks.drop_first();
        assert forall|i: int| 0 <= i < rest.len() implies (#[trigger] rest[i]).len() == n by { assert(rest[i] == tracks[i + 1]); }
        lemma_flatten_index(rest, n);
        assert(tracks.len() * n == n + rest.len() * n) by (nonlinear_arith) requires tracks.len() == rest.len() + 1;
        assert forall|k: int| 0 <= k < tracks.len() * n implies #[trigger] flatten(tracks)[k] == tracks[k / n][k % n] by {
            assert(tracks[0].len() == n);
            if k < n {
                assert(k / n == 0 && k % n == k) by (nonlinear_arith) requires 0 <= k < n;
            } else {
                let k2 = k - n;
                assert(k2 / n == k / n - 1 && k2 % n == k % n) by (nonlinear_arith) requires k2 == k - n, n > 0, k2 >= 0;
                assert(0 <= k2 / n < rest.len()) by (nonlinear_arith)
                    requires 0 <= k2 < rest.len() * n, n > 0;
                assert(flatten(tracks)[k] == flatten(rest)[k2]);
                assert(rest[k2 / n] == tracks[k2 / n + 1]);
            }
        }
    }
}

} // verus!
