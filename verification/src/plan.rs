//! Planning an encoding: analysing every track of a layout, grouping them
//! across tracks, estimating the stored size, and choosing the geometry.
use vstd::prelude::*;
use rayon::iter::{IntoParallelIterator, ParallelIterator};
use crate::pattern::{
    PatternType, TrackParams, TrackEncoding, ParamsView, EncView, encs_view, FloatTable, FloatTrack,
    float_table_ok, view_pattern,
};
use crate::platter::{DiskGeometry, spec_num_tracks, spec_track, spec_sector_candidate, NUM_SECTOR_CANDIDATES};
use crate::analyzer::{spec_analyze, renders_to, analyze_track};
use crate::cross_track::{MetaGroup, MetaView, MetaParamsView, metas_view, spec_cross, spec_meta_size, cross_track_optimize};

verus! {

// ---------------------------------------------------------------- analysing a layout

/// `e` is the analysis of track `t` at position `i`, and reconstructs it.
pub open spec fn analyzed_at(t: Seq<u8>, i: int, table: Seq<FloatTrack>, e: TrackEncoding) -> bool {
    &&& e@ == (EncView { pattern: view_pattern(spec_analyze(t, table)), params: spec_analyze(t, table), idx: i as u16 })
    &&& renders_to(e.params@, t.len() as int, table, t)
}

/// The analysis of the track at position `i` of a layout.
fn analyze_at(tracks: &Vec<Vec<u8>>, i: usize, table: &FloatTable) -> (e: TrackEncoding)
    requires
        i < tracks@.len(), 1 <= tracks@[i as int]@.len() <= 65535, float_table_ok(table.entries@),
    ensures analyzed_at(tracks@[i as int]@, i as int, table.entries@, e),
{
    analyze_track(tracks[i].as_slice(), i as u16, table)
}

/// Runs `analyze_at` for every position on rayon's thread pool. rayon's
/// `collect` into a `Vec` keeps the order of an indexed parallel iterator,
/// so element `i` is `analyze_at(tracks, i, table)`; the contract restates
/// what `analyze_at` ensures, element by element.
#[verifier::external_body]
fn par_analyze(tracks: &Vec<Vec<u8>>, table: &FloatTable) -> (r: Vec<TrackEncoding>)
    requires
        forall|i: int| 0 <= i < tracks@.len() ==> 1 <= (#[trigger] tracks@[i])@.len() <= 65535,
        float_table_ok(table.entries@),
    ensures
        r@.len() == tracks@.len(),
        forall|i: int| 0 <= i < tracks@.len() ==> analyzed_at(tracks@[i]@, i, table.entries@, #[trigger] r@[i]),
{
    (0..tracks.len()).into_par_iter().map(|i| analyze_at(tracks, i, table)).collect()
}

/// Analyse every track of a layout, in parallel.
pub fn analyze_platter(tracks: &Vec<Vec<u8>>, table: &FloatTable) -> (r: Vec<TrackEncoding>)
    requires
        forall|i: int| 0 <= i < tracks@.len() ==> 1 <= (#[trigger] tracks@[i])@.len() <= 65535,
        float_table_ok(table.entries@),
    ensures
        r@.len() == tracks@.len(),
        forall|i: int| 0 <= i < tracks@.len() ==> analyzed_at(tracks@[i]@, i, table.entries@, #[trigger] r@[i]),
{
    par_analyze(tracks, table)
}

/// The analyses of the layout of `data` at `spt` bytes per track.
pub open spec fn spec_encs(data: Seq<u8>, spt: int, table: Seq<FloatTrack>) -> Seq<EncView> {
    Seq::new(spec_num_tracks(data.len() as int, spt) as nat, |i: int| {
        let p = spec_analyze(spec_track(data, spt, i), table);
        EncView { pattern: view_pattern(p), params: p, idx: i as u16 }
    })
}

/// Groups and individual encodings for the layout of `data` at `spt`.
#[verifier::opaque]
pub open spec fn spec_plan(data: Seq<u8>, spt: int, table: Seq<FloatTrack>) -> (Seq<MetaView>, Seq<EncView>) {
    spec_cross(spec_encs(data, spt, table))
}

/// Lay out, analyse and group the tracks of `data` at `spt` bytes per track.
pub(crate) fn plan_geometry(data: &[u8], spt: usize, table: &FloatTable)
    -> (r: (Vec<MetaGroup>, Vec<TrackEncoding>, Ghost<Seq<TrackEncoding>>))
    requires
        1 <= spt <= 65535, data.len() + spt <= usize::MAX, float_table_ok(table.entries@),
    ensures
        (metas_view(r.0@), encs_view(r.1@)) == spec_plan(data@, spt as int, table.entries@),
        encs_view(r.2@) == spec_encs(data@, spt as int, table.entries@),
        forall|i: int| 0 <= i < r.2@.len() ==>
            analyzed_at(spec_track(data@, spt as int, i), i, table.entries@, #[trigger] r.2@[i]),
        spec_num_tracks(data@.len() as int, spt as int) == r.2@.len(),
{
    let geom = crate::platter::compute_geometry(data.len(), spt);
    proof {
        if data.len() > 0 { crate::platter::lemma_ceil_div(data.len() as int, spt as int); }
    }
    let tracks = crate::platter::lay_out(data, &geom);
    let encs = analyze_platter(&tracks, table);
    let ghost all = encs@;
    let ghost ev = encs_view(encs@);
    proof {
        assert(ev =~= spec_encs(data@, spt as int, table.entries@)) by {
            assert forall|i: int| 0 <= i < ev.len() implies #[trigger] ev[i] == spec_encs(data@, spt as int, table.entries@)[i] by {
                assert(analyzed_at(tracks@[i]@, i, table.entries@, encs@[i]));
            }
        }
    }
    let (metas, rem) = cross_track_optimize(encs);
    proof {
        reveal(spec_plan);
        assert forall|i: int| 0 <= i < all.len() implies
            analyzed_at(spec_track(data@, spt as int, i), i, table.entries@, #[trigger] all[i]) by {
            assert(analyzed_at(tracks@[i]@, i, table.entries@, encs@[i]));
        }
    }
    (metas, rem, Ghost(all))
}

// ---------------------------------------------------------------- estimated sizes

/// Estimated stored size of one track entry: 3 header bytes and its
/// parameters (the whole track for RAW).
pub open spec fn spec_track_size(p: ParamsView, sectors: int) -> int {
    3 + match p {
        ParamsView::Const { .. } => 1int,
        ParamsView::Linear { .. } => 4int,
        ParamsView::Rle { runs } => 2 + runs.len() as int * 2,
        ParamsView::Repeat { pattern } => 2 + pattern.len() as int,
        ParamsView::Delta { deltas, .. } => 2 + deltas.len() as int,
        ParamsView::Raw { .. } => sectors,
        ParamsView::RawCompressed { data, .. } => 3 + data.len() as int,
        ParamsView::LinearWide { .. } => 19int,
        ParamsView::XorMask { inner_params, .. } => 2 + inner_params.len() as int,
        ParamsView::Sparse { entries, .. } => 3 + entries.len() as int * 3,
        ParamsView::PiecewiseLinear { segments } => 1 + segments.len() as int * 6,
        ParamsView::Mirror { half } => half.len() as int,
        ParamsView::InterleavedLinear { .. } => 10int,
        ParamsView::DeltaRle { runs, .. } => 3 + runs.len() as int * 2,
        ParamsView::BitPacked { packed, .. } => 1 + packed.len() as int,
        ParamsView::DiffTable { order, .. } => 1 + order as int + 1 + 4,
        ParamsView::ModArith { .. } => 6int,
        ParamsView::Fibonacci { .. } => 4int,
        ParamsView::DeltaWide { deltas, .. } => 6 + deltas.len() as int,
        ParamsView::Float { payload, .. } => payload.len() as int,
    }
}

/// Estimated size of one track entry.
fn estimate_track_size(e: &TrackEncoding, sectors: usize) -> (r: u128)
    ensures r == spec_track_size(e.params@, sectors as int), (r as int) <= 0x7_0000_0000_0000_0000int,
{
    let body: u128 = match &e.params {
        TrackParams::Const { .. } => 1,
        TrackParams::Linear { .. } => 4,
        TrackParams::Rle { runs } => 2 + runs.len() as u128 * 2,
        TrackParams::Repeat { pattern } => 2 + pattern.len() as u128,
        TrackParams::Delta { deltas, .. } => 2 + deltas.len() as u128,
        TrackParams::Raw { .. } => sectors as u128,
        TrackParams::RawCompressed { data, .. } => 3 + data.len() as u128,
        TrackParams::LinearWide { .. } => 19,
        TrackParams::XorMask { inner_params, .. } => 2 + inner_params.len() as u128,
        TrackParams::Sparse { entries, .. } => 3 + entries.len() as u128 * 3,
        TrackParams::PiecewiseLinear { segments } => 1 + segments.len() as u128 * 6,
        TrackParams::Mirror { half } => half.len() as u128,
        TrackParams::InterleavedLinear { .. } => 10,
        TrackParams::DeltaRle { runs, .. } => 3 + runs.len() as u128 * 2,
        TrackParams::BitPacked { packed, .. } => 1 + packed.len() as u128,
        TrackParams::DiffTable { order, .. } => 1 + *order as u128 + 1 + 4,
        TrackParams::ModArith { .. } => 6,
        TrackParams::Fibonacci { .. } => 4,
        TrackParams::DeltaWide { deltas, .. } => 6 + deltas.len() as u128,
        TrackParams::Float { payload, .. } => payload.len() as u128,
    };
    3 + body
}

/// Sum of the estimated sizes of individual entries.
pub open spec fn spec_sizes(rem: Seq<EncView>, spt: int) -> int
    decreases rem.len(),
{
    if rem.len() == 0 { 0 } else { spec_sizes(rem.drop_last(), spt) + spec_track_size(rem.last().params, spt) }
}

/// Sum of the estimated sizes of group entries, with their 3-byte headers.
pub open spec fn spec_meta_sizes(gs: Seq<MetaView>) -> int
    decreases gs.len(),
{
    if gs.len() == 0 { 0 } else { spec_meta_sizes(gs.drop_last()) + spec_meta_size(gs.last()) + 3 }
}

/// Estimated stored size of `data` laid out at `spt` bytes per track.
#[verifier::opaque]
pub open spec fn spec_cost(data: Seq<u8>, spt: int, table: Seq<FloatTrack>) -> int {
    spec_sizes(spec_plan(data, spt, table).1, spt) + spec_meta_sizes(spec_plan(data, spt, table).0)
}

fn sum_sizes(rem: &Vec<TrackEncoding>, spt: usize) -> (r: u128)
    requires rem@.len() <= 0x2000_0000_0000_0001, spt <= 512,
    ensures r == spec_sizes(encs_view(rem@), spt as int), (r as int) <= 0x2000_0000_0000_0001 * 0x7_0000_0000_0000_0000int,
{
    let mut total: u128 = 0;
    let mut k: usize = 0;
    while k < rem.len()
        invariant
            k <= rem@.len(), rem@.len() <= 0x2000_0000_0000_0001, spt <= 512,
            total == spec_sizes(encs_view(rem@).subrange(0, k as int), spt as int),
            (total as int) <= k * 0x7_0000_0000_0000_0000int,
        decreases rem.len() - k,
    {
        let s = estimate_track_size(&rem[k], spt);
        proof {
            assert(encs_view(rem@).subrange(0, k + 1).drop_last() =~= encs_view(rem@).subrange(0, k as int));
            assert(encs_view(rem@).subrange(0, k + 1).last() == rem@[k as int]@);
            assert((k + 1) * 0x7_0000_0000_0000_0000int <= 0x2000_0000_0000_0001 * 0x7_0000_0000_0000_0000int) by (nonlinear_arith)
                requires k + 1 <= 0x2000_0000_0000_0001;
        }
        total = total + s;
        k += 1;
    }
    proof { assert(encs_view(rem@).subrange(0, rem.len() as int) =~= encs_view(rem@)); }
    total
}

fn sum_meta_sizes(gs: &Vec<MetaGroup>) -> (r: u128)
    requires gs@.len() <= 25,
    ensures r == spec_meta_sizes(metas_view(gs@)), (r as int) <= 25 * 0x41_0000_0000_0000_0000int,
{
    let mut total: u128 = 0;
    let mut k: usize = 0;
    while k < gs.len()
        invariant
            k <= gs@.len(), gs@.len() <= 25,
            total == spec_meta_sizes(metas_view(gs@).subrange(0, k as int)),
            (total as int) <= k * 0x41_0000_0000_0000_0000int,
        decreases gs.len() - k,
    {
        let s = crate::cross_track::estimate_meta_size(&gs[k]);
        proof {
            assert(metas_view(gs@).subrange(0, k + 1).drop_last() =~= metas_view(gs@).subrange(0, k as int));
            assert(metas_view(gs@).subrange(0, k + 1).last() == gs@[k as int]@);
        }
        total = total + s + 3;
        k += 1;
    }
    proof { assert(metas_view(gs@).subrange(0, gs.len() as int) =~= metas_view(gs@)); }
    total
}

// ---------------------------------------------------------------- choosing the geometry

/// The candidate with the smallest estimated cost among candidates `i..7`
/// and `b`: the first of equally cheap ones.
pub open spec fn best_from(data: Seq<u8>, table: Seq<FloatTrack>, i: int, b: int) -> int
    decreases 7 - i,
{
    if i < 0 || i >= 7 {
        b
    } else if spec_cost(data, spec_sector_candidate(i) as int, table) < spec_cost(data, spec_sector_candidate(b) as int, table) {
        best_from(data, table, i + 1, i)
    } else {
        best_from(data, table, i + 1, b)
    }
}

/// The sector size the encoder picks for `data`: the candidate with the
/// smallest estimated stored size, the smaller sector size on a tie.
pub open spec fn spec_best_spt(data: Seq<u8>, table: Seq<FloatTrack>) -> int {
    spec_sector_candidate(best_from(data, table, 1, 0)) as int
}

/// With at least 8 bytes per track, data that fits memory has at most
/// 2^61 + 1 tracks.
proof fn lemma_tracks_small(len: int, spt: int)
    requires 0 <= len <= 0xFFFF_FFFF_FFFF_FFFF, 8 <= spt,
    ensures spec_num_tracks(len, spt) <= 0x2000_0000_0000_0001,
{
    if len > 0 {
        assert((len - 1 + spt) / spt <= len / 8 + 1) by (nonlinear_arith)
            requires len >= 1, spt >= 8;
    }
}

proof fn lemma_tracks_bound(len: int, spt: int)
    requires len >= 0, spt >= 1,
    ensures spec_num_tracks(len, spt) <= len,
{
    if len > 0 {
        assert(len - 1 + spt <= len * spt) by (nonlinear_arith) requires len >= 1, spt >= 1;
        vstd::arithmetic::div_mod::lemma_div_is_ordered((len - 1 + spt) as int, len * spt, spt);
        vstd::arithmetic::div_mod::lemma_div_multiples_vanish(len, spt);
        assert(len * spt == spt * len) by (nonlinear_arith);
    }
}

/// Estimated stored size of `data` laid out with candidate sector size `i`.
fn geometry_cost(data: &[u8], i: usize, table: &FloatTable) -> (c: u128)
    requires i < NUM_SECTOR_CANDIDATES, data.len() + 512 <= usize::MAX, float_table_ok(table.entries@),
    ensures c == spec_cost(data@, spec_sector_candidate(i as int) as int, table.entries@),
{
    let spt = crate::platter::sector_candidate(i);
    let (metas, rem, Ghost(all)) = plan_geometry(data, spt, table);
    proof {
        reveal(spec_plan);
        crate::cross_track::lemma_cross_covers(spec_encs(data@, spt as int, table.entries@));
        lemma_tracks_small(data.len() as int, spt as int);
    }
    let a = sum_sizes(&rem, spt);
    let b = sum_meta_sizes(&metas);
    proof { reveal(spec_cost); }
    a + b
}

/// Runs `geometry_cost` for every candidate on rayon's thread pool; the
/// collected `Vec` keeps the candidates' order, so element `i` is
/// `geometry_cost(data, i, table)`.
#[verifier::external_body]
fn par_costs(data: &[u8], table: &FloatTable) -> (r: Vec<u128>)
    requires data.len() + 512 <= usize::MAX, float_table_ok(table.entries@),
    ensures
        r@.len() == NUM_SECTOR_CANDIDATES,
        forall|i: int| 0 <= i < NUM_SECTOR_CANDIDATES ==>
            #[trigger] r@[i] == spec_cost(data@, spec_sector_candidate(i) as int, table.entries@),
{
    (0..NUM_SECTOR_CANDIDATES).into_par_iter().map(|i| geometry_cost(data, i, table)).collect()
}

/// Choose the geometry whose layout is estimated to store smallest.
pub fn best_geometry(data: &[u8], table: &FloatTable) -> (g: DiskGeometry)
    requires data.len() + 512 <= usize::MAX, float_table_ok(table.entries@),
    ensures
        g.sectors_per_track == spec_best_spt(data@, table.entries@),
        g.tracks == spec_num_tracks(data@.len() as int, g.sectors_per_track as int),
{
    let costs = par_costs(data, table);
    let mut best: usize = 0;
    let mut i: usize = 1;
    while i < NUM_SECTOR_CANDIDATES
        invariant
            1 <= i <= NUM_SECTOR_CANDIDATES, best < i, costs@.len() == NUM_SECTOR_CANDIDATES,
            forall|j: int| 0 <= j < NUM_SECTOR_CANDIDATES ==>
                #[trigger] costs@[j] == spec_cost(data@, spec_sector_candidate(j) as int, table.entries@),
            best_from(data@, table.entries@, 1, 0) == best_from(data@, table.entries@, i as int, best as int),
        decreases NUM_SECTOR_CANDIDATES - i,
    {
        if costs[i] < costs[best] {
            best = i;
        }
        i += 1;
    }
    crate::platter::compute_geometry(data.len(), crate::platter::sector_candidate(best))
}

/// The geometry the encoder would choose for `data`.
pub fn best_geometry_pub(data: &[u8], table: &FloatTable) -> (g: DiskGeometry)
    requires data.len() + 512 <= usize::MAX, float_table_ok(table.entries@),
    ensures
        g.sectors_per_track == spec_best_spt(data@, table.entries@),
        g.tracks == spec_num_tracks(data@.len() as int, g.sectors_per_track as int),
{
    best_geometry(data, table)
}

// ---------------------------------------------------------------- platters

/// The bytes a RAW encoding holds (zeros for any other pattern).
pub open spec fn data_of(e: EncView, sectors: int) -> Seq<u8> {
    match e.params {
        ParamsView::Raw { data } => data,
        _ => Seq::new(sectors as nat, |i: int| 0u8),
    }
}

/// The platters of an encoding as values.
pub open spec fn platters_view(p: Seq<(Vec<TrackEncoding>, Vec<MetaGroup>)>) -> Seq<(Seq<EncView>, Seq<MetaView>)> {
    Seq::new(p.len(), |i: int| (encs_view(p[i].0@), metas_view(p[i].1@)))
}

/// The platters of an encoding: structured tracks with the groups,
/// then RAW tracks; one empty platter when there is nothing.
pub open spec fn platters_normal(groups: Seq<MetaView>, rem: Seq<EncView>) -> Seq<(Seq<EncView>, Seq<MetaView>)> {
    let st = crate::cross_track::not_tag(rem, 7);
    let raws = crate::cross_track::by_tag(rem, 7);
    let a: Seq<(Seq<EncView>, Seq<MetaView>)> = if st.len() > 0 || groups.len() > 0 { seq![(st, groups)] } else { Seq::empty() };
    let b: Seq<(Seq<EncView>, Seq<MetaView>)> = if raws.len() > 0 { a.push((raws, Seq::empty())) } else { a };
    if b.len() == 0 { seq![(Seq::empty(), Seq::empty())] } else { b }
}

/// Split the grouped encodings into platters: structured tracks with the
/// groups, RAW tracks apart, one empty platter when there is nothing.
pub(crate) fn split_platters(groups: Vec<MetaGroup>, rem: Vec<TrackEncoding>)
    -> (r: Vec<(Vec<TrackEncoding>, Vec<MetaGroup>)>)
    ensures
        platters_view(r@) == platters_normal(metas_view(groups@), encs_view(rem@)),
{
    let ghost gv = metas_view(groups@);
    let ghost rv = encs_view(rem@);
    let (raw, structured) = crate::cross_track::split_tag_pub(rem, 7);
    proof { crate::cross_track::lemma_by_tag(rv, 7); }
    let ghost st = encs_view(structured@);
    let ghost rw = encs_view(raw@);
    let mut platters: Vec<(Vec<TrackEncoding>, Vec<MetaGroup>)> = Vec::new();
    let nonempty = structured.len() > 0 || groups.len() > 0;
    if nonempty {
        platters.push((structured, groups));
    }
    if raw.len() > 0 {
        platters.push((raw, Vec::new()));
    }
    if platters.len() == 0 {
        platters.push((Vec::new(), Vec::new()));
    }
    proof {
        assert(platters_view(platters@) =~= platters_normal(gv, rv)) by {
            if nonempty { assert(platters_view(platters@)[0] == (st, gv)); }
            if rw.len() > 0 {
                let last = platters@.len() - 1;
                assert(platters_view(platters@)[last].1 =~= Seq::<MetaView>::empty());
            }
            if platters@.len() == 1 && !nonempty && rw.len() == 0 {
                assert(platters_view(platters@)[0].0 =~= Seq::<EncView>::empty());
                assert(platters_view(platters@)[0].1 =~= Seq::<MetaView>::empty());
            }
        }
    }
    platters
}

} // verus!
