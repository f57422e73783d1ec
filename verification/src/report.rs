//! What the command line reports: pattern names and colours, how many
//! tracks each pattern holds, and the layout recorded in a container's
//! header.
use vstd::prelude::*;
use crate::pattern::{PatternType, TrackEncoding, spec_tag};
use crate::bytes::{le16, le32, read_u16, read_u32};
use crate::pattern::{FloatTable, FloatTrack, float_table_ok};
use crate::platter::{DiskGeometry, spec_track, lay_out};
use crate::plan::{analyzed_at, analyze_platter};

verus! {

/// The short display name of a pattern type; both raw forms are "RAW".
pub open spec fn name_of(p: PatternType) -> Seq<char> {
    match p {
        PatternType::Const => "CONST"@,
        PatternType::Linear => "LINEAR"@,
        PatternType::Rle => "RLE"@,
        PatternType::Repeat => "REPEAT"@,
        PatternType::Delta => "DELTA"@,
        PatternType::Periodic => "PERIODIC"@,
        PatternType::Poly => "POLY"@,
        PatternType::LinearWide => "LINEAR_WIDE"@,
        PatternType::LinearF64 => "LINEAR_F64"@,
        PatternType::DeltaF64 => "DELTA_F64"@,
        PatternType::XorMask => "XOR_MASK"@,
        PatternType::Sparse => "SPARSE"@,
        PatternType::PiecewiseLinear => "PIECEWISE_LIN"@,
        PatternType::Mirror => "MIRROR"@,
        PatternType::InterleavedLinear => "INTERLEAVED"@,
        PatternType::Exponential => "EXPONENTIAL"@,
        PatternType::DeltaRle => "DELTA_RLE"@,
        PatternType::BitPacked => "BIT_PACKED"@,
        PatternType::DiffTable => "DIFF_TABLE"@,
        PatternType::ModArith => "MOD_ARITH"@,
        PatternType::Fibonacci => "FIBONACCI"@,
        PatternType::DeltaWide => "DELTA_WIDE"@,
        PatternType::Raw | PatternType::RawCompressed => "RAW"@,
    }
}

/// The long display name: the short one, spelled out for the piecewise
/// and interleaved linear patterns.
pub open spec fn long_name_of(p: PatternType) -> Seq<char> {
    match p {
        PatternType::PiecewiseLinear => "PIECEWISE_LINEAR"@,
        PatternType::InterleavedLinear => "INTERLEAVED_LINEAR"@,
        _ => name_of(p),
    }
}

/// The colour a pattern type is drawn in.
pub open spec fn color_of(p: PatternType) -> Seq<char> {
    match p {
        PatternType::Const => "#4CAF50"@,
        PatternType::Linear => "#2196F3"@,
        PatternType::Rle => "#FF9800"@,
        PatternType::Repeat => "#9C27B0"@,
        PatternType::Delta => "#00BCD4"@,
        PatternType::Periodic => "#E91E63"@,
        PatternType::Poly => "#673AB7"@,
        PatternType::LinearWide => "#3F51B5"@,
        PatternType::LinearF64 => "#1565C0"@,
        PatternType::DeltaF64 => "#00838F"@,
        PatternType::XorMask => "#F44336"@,
        PatternType::Sparse => "#FFC107"@,
        PatternType::PiecewiseLinear => "#8BC34A"@,
        PatternType::Mirror => "#FF5722"@,
        PatternType::InterleavedLinear => "#607D8B"@,
        PatternType::Exponential => "#795548"@,
        PatternType::DeltaRle => "#CDDC39"@,
        PatternType::BitPacked => "#009688"@,
        PatternType::DiffTable => "#AD1457"@,
        PatternType::ModArith => "#6D4C41"@,
        PatternType::Fibonacci => "#827717"@,
        PatternType::DeltaWide => "#00695C"@,
        PatternType::Raw | PatternType::RawCompressed => "#9E9E9E"@,
    }
}

/// The short display name of a pattern type.
pub fn pattern_name(p: PatternType) -> (r: &'static str)
    ensures r@ == name_of(p),
{
    match p {
        PatternType::Const => "CONST",
        PatternType::Linear => "LINEAR",
        PatternType::Rle => "RLE",
        PatternType::Repeat => "REPEAT",
        PatternType::Delta => "DELTA",
        PatternType::Periodic => "PERIODIC",
        PatternType::Poly => "POLY",
        PatternType::LinearWide => "LINEAR_WIDE",
        PatternType::LinearF64 => "LINEAR_F64",
        PatternType::DeltaF64 => "DELTA_F64",
        PatternType::XorMask => "XOR_MASK",
        PatternType::Sparse => "SPARSE",
        PatternType::PiecewiseLinear => "PIECEWISE_LIN",
        PatternType::Mirror => "MIRROR",
        PatternType::InterleavedLinear => "INTERLEAVED",
        PatternType::Exponential => "EXPONENTIAL",
        PatternType::DeltaRle => "DELTA_RLE",
        PatternType::BitPacked => "BIT_PACKED",
        PatternType::DiffTable => "DIFF_TABLE",
        PatternType::ModArith => "MOD_ARITH",
        PatternType::Fibonacci => "FIBONACCI",
        PatternType::DeltaWide => "DELTA_WIDE",
        PatternType::Raw | PatternType::RawCompressed => "RAW",
    }
}

/// The long display name of a pattern type.
pub fn pattern_long_name(p: PatternType) -> (r: &'static str)
    ensures r@ == long_name_of(p),
{
    match p {
        PatternType::PiecewiseLinear => "PIECEWISE_LINEAR",
        PatternType::InterleavedLinear => "INTERLEAVED_LINEAR",
        _ => pattern_name(p),
    }
}

/// The colour a pattern type is drawn in.
pub fn pattern_color(p: PatternType) -> (r: &'static str)
    ensures r@ == color_of(p),
{
    match p {
        PatternType::Const => "#4CAF50",
        PatternType::Linear => "#2196F3",
        PatternType::Rle => "#FF9800",
        PatternType::Repeat => "#9C27B0",
        PatternType::Delta => "#00BCD4",
        PatternType::Periodic => "#E91E63",
        PatternType::Poly => "#673AB7",
        PatternType::LinearWide => "#3F51B5",
        PatternType::LinearF64 => "#1565C0",
        PatternType::DeltaF64 => "#00838F",
        PatternType::XorMask => "#F44336",
        PatternType::Sparse => "#FFC107",
        PatternType::PiecewiseLinear => "#8BC34A",
        PatternType::Mirror => "#FF5722",
        PatternType::InterleavedLinear => "#607D8B",
        PatternType::Exponential => "#795548",
        PatternType::DeltaRle => "#CDDC39",
        PatternType::BitPacked => "#009688",
        PatternType::DiffTable => "#AD1457",
        PatternType::ModArith => "#6D4C41",
        PatternType::Fibonacci => "#827717",
        PatternType::DeltaWide => "#00695C",
        PatternType::Raw | PatternType::RawCompressed => "#9E9E9E",
    }
}

// ---------------------------------------------------------------- counting

/// The patterns of a list of analysed tracks.
pub open spec fn patterns_of(encs: Seq<TrackEncoding>) -> Seq<PatternType> {
    encs.map_values(|e: TrackEncoding| e.pattern)
}

/// The group a pattern is counted in: its tag, with both raw forms in one.
pub open spec fn group_of(p: PatternType) -> int {
    if spec_tag(p) == 8 { 7 } else { spec_tag(p) as int }
}

/// How many of `ps` fall in group `g`.
pub open spec fn group_count(ps: Seq<PatternType>, g: int) -> nat
    decreases ps.len(),
{
    if ps.len() == 0 { 0 } else { group_count(ps.drop_last(), g) + (if group_of(ps.last()) == g { 1nat } else { 0nat }) }
}

/// `r` lists each group that occurs in `ps` once, by a member pattern,
/// with its count, most frequent first.
pub open spec fn counted(ps: Seq<PatternType>, r: Seq<(PatternType, usize)>) -> bool {
    &&& forall|i: int| 0 <= i < r.len() ==> (#[trigger] r[i]).1 == group_count(ps, group_of(r[i].0)) && r[i].1 > 0
    &&& forall|i: int, j: int| 0 <= i < j < r.len() ==> group_of((#[trigger] r[i]).0) != group_of((#[trigger] r[j]).0)
    &&& forall|i: int, j: int| 0 <= i < j < r.len() ==> (#[trigger] r[i]).1 >= (#[trigger] r[j]).1
    &&& forall|k: int| 0 <= k < ps.len() ==> exists|i: int| 0 <= i < r.len() && group_of(r[i].0) == group_of(#[trigger] ps[k])
}

proof fn lemma_group_count_pos(ps: Seq<PatternType>, k: int)
    requires 0 <= k < ps.len(),
    ensures group_count(ps, group_of(ps[k])) > 0,
    decreases ps.len(),
{
    if k < ps.len() - 1 {
        lemma_group_count_pos(ps.drop_last(), k);
        assert(ps.drop_last()[k] == ps[k]);
    }
}

proof fn lemma_group_count_le(ps: Seq<PatternType>, g: int)
    ensures group_count(ps, g) <= ps.len(),
    decreases ps.len(),
{
    if ps.len() > 0 { lemma_group_count_le(ps.drop_last(), g); }
}

/// How many of the first `n` groups are not yet listed.
pub open spec fn count_open(e: Seq<bool>, n: int) -> nat
    decreases n,
{
    if n <= 0 { 0 } else { count_open(e, n - 1) + (if e[n - 1] { 0nat } else { 1nat }) }
}

proof fn lemma_count_open_set(e: Seq<bool>, i: int, n: int)
    requires 0 <= i < n <= e.len(), !e[i],
    ensures count_open(e.update(i, true), n) + 1 == count_open(e, n),
    decreases n,
{
    if n - 1 > i {
        lemma_count_open_set(e, i, n - 1);
    } else {
        assert forall|k: int| 0 <= k < n - 1 implies e.update(i, true)[k] == e[k] by {}
        lemma_count_open_same(e, e.update(i, true), n - 1);
    }
}

proof fn lemma_count_open_same(a: Seq<bool>, b: Seq<bool>, n: int)
    requires 0 <= n <= a.len(), n <= b.len(), forall|k: int| 0 <= k < n ==> a[k] == b[k],
    ensures count_open(a, n) == count_open(b, n),
    decreases n,
{
    if n > 0 { lemma_count_open_same(a, b, n - 1); }
}

/// Count the tracks of each pattern group, most frequent first; groups
/// of equal count come in tag order.
pub fn pattern_counts(encs: &Vec<TrackEncoding>) -> (r: Vec<(PatternType, usize)>)
    ensures counted(patterns_of(encs@), r@),
{
    let ghost ps = patterns_of(encs@);
    // per group: its count and a member pattern
    let mut counts: Vec<usize> = Vec::new();
    let mut members: Vec<PatternType> = Vec::new();
    let mut g: usize = 0;
    while g < 25
        invariant g <= 25, counts@.len() == g, members@.len() == g, forall|j: int| 0 <= j < g ==> counts@[j] == 0,
        decreases 25 - g,
    {
        counts.push(0);
        members.push(PatternType::Raw);
        g += 1;
    }
    let mut i: usize = 0;
    while i < encs.len()
        invariant
            i <= encs@.len(), counts@.len() == 25, members@.len() == 25, ps == patterns_of(encs@),
            forall|j: int| 0 <= j < 25 ==> #[trigger] counts@[j] == group_count(ps.take(i as int), j),
            forall|j: int| 0 <= j < 25 && counts@[j] > 0 ==> group_of(#[trigger] members@[j]) == j,
        decreases encs.len() - i,
    {
        let p = encs[i].pattern;
        let t = p.tag();
        let gi: usize = if t == 8 { 7 } else { t as usize };
        proof {
            assert(ps.take(i + 1).drop_last() =~= ps.take(i as int));
            assert(ps.take(i + 1).last() == p);
            lemma_group_count_le(ps.take(i as int), gi as int);
        }
        let c = counts[gi];
        counts.set(gi, c + 1);
        members.set(gi, p);
        proof {
            assert forall|j: int| 0 <= j < 25 implies #[trigger] counts@[j] == group_count(ps.take(i + 1), j) by {
            }
        }
        i += 1;
    }
    proof { assert(ps.take(encs@.len() as int) =~= ps); }
    // emit the groups by decreasing count
    let mut out: Vec<(PatternType, usize)> = Vec::new();
    let mut emitted: Vec<bool> = Vec::new();
    let mut g2: usize = 0;
    while g2 < 25
        invariant g2 <= 25, emitted@.len() == g2, forall|j: int| 0 <= j < g2 ==> !emitted@[j],
        decreases 25 - g2,
    {
        emitted.push(false);
        g2 += 1;
    }
    loop
        invariant
            counts@.len() == 25, members@.len() == 25, emitted@.len() == 25,
            forall|j: int| 0 <= j < 25 ==> #[trigger] counts@[j] == group_count(ps, j),
            forall|j: int| 0 <= j < 25 && counts@[j] > 0 ==> group_of(#[trigger] members@[j]) == j,
            forall|k: int| 0 <= k < out@.len() ==> 0 <= group_of((#[trigger] out@[k]).0) < 25
                && emitted@[group_of(out@[k].0)],
            forall|j: int| 0 <= j < 25 && #[trigger] emitted@[j] ==> exists|k: int| 0 <= k < out@.len() && group_of(out@[k].0) == j,
            forall|k: int| 0 <= k < out@.len() ==> (#[trigger] out@[k]).1 == group_count(ps, group_of(out@[k].0)) && out@[k].1 > 0,
            forall|a: int, b: int| 0 <= a < b < out@.len() ==> group_of((#[trigger] out@[a]).0) != group_of((#[trigger] out@[b]).0),
            forall|a: int, b: int| 0 <= a < b < out@.len() ==> (#[trigger] out@[a]).1 >= (#[trigger] out@[b]).1,
            forall|j: int, k: int| 0 <= j < 25 && !emitted@[j] && 0 <= k < out@.len() ==> #[trigger] counts@[j] <= (#[trigger] out@[k]).1,
        ensures
            forall|j: int| 0 <= j < 25 && #[trigger] counts@[j] > 0 ==> emitted@[j],
            counts@.len() == 25, emitted@.len() == 25,
            forall|j: int| 0 <= j < 25 ==> #[trigger] counts@[j] == group_count(ps, j),
            forall|j: int| 0 <= j < 25 && #[trigger] emitted@[j] ==> exists|k: int| 0 <= k < out@.len() && group_of(out@[k].0) == j,
            forall|k: int| 0 <= k < out@.len() ==> (#[trigger] out@[k]).1 == group_count(ps, group_of(out@[k].0)) && out@[k].1 > 0,
            forall|a: int, b: int| 0 <= a < b < out@.len() ==> group_of((#[trigger] out@[a]).0) != group_of((#[trigger] out@[b]).0),
            forall|a: int, b: int| 0 <= a < b < out@.len() ==> (#[trigger] out@[a]).1 >= (#[trigger] out@[b]).1,
        decreases count_open(emitted@, 25),
    {
        let mut best: usize = 0;
        let mut best_count: usize = 0;
        let mut j: usize = 0;
        while j < 25
            invariant
                j <= 25, counts@.len() == 25, emitted@.len() == 25, best < 25,
                best_count > 0 ==> best_count == counts@[best as int] && !emitted@[best as int],
                forall|q: int| 0 <= q < j && !emitted@[q] ==> #[trigger] counts@[q] <= best_count,
            decreases 25 - j,
        {
            if !emitted[j] && counts[j] > best_count {
                best = j;
                best_count = counts[j];
            }
            j += 1;
        }
        if best_count == 0 {
            break;
        }
        proof { lemma_count_open_set(emitted@, best as int, 25); }
        let ghost before = out@;
        out.push((members[best], best_count));
        emitted.set(best, true);
        proof {
            assert(out@[out@.len() - 1] == (members@[best as int], best_count));
            assert forall|jj: int| 0 <= jj < 25 && #[trigger] emitted@[jj] implies exists|k: int| 0 <= k < out@.len() && group_of(out@[k].0) == jj by {
                if jj != best as int {
                    let k0 = choose|k: int| 0 <= k < before.len() && group_of(before[k].0) == jj;
                    assert(out@[k0] == before[k0]);
                } else {
                    assert(group_of(out@[out@.len() - 1].0) == jj);
                }
            }
            assert forall|a: int, b: int| 0 <= a < b < out@.len() implies group_of((#[trigger] out@[a]).0) != group_of((#[trigger] out@[b]).0) by {
                if b == out@.len() - 1 {
                    assert(out@[a] == before[a]);
                    assert(emitted@[group_of(before[a].0)]);
                }
            }
        }
    }
    proof {
        assert forall|k: int| 0 <= k < ps.len() implies exists|i: int| 0 <= i < out@.len() && group_of(out@[i].0) == group_of(#[trigger] ps[k]) by {
            lemma_group_count_pos(ps, k);
            let gk = group_of(ps[k]);
            assert(0 <= gk < 25);
            assert(counts@[gk] > 0);
        }
    }
    out
}

/// The distinct patterns of `ps` in order of first appearance.
pub open spec fn first_seen(ps: Seq<PatternType>) -> Seq<PatternType>
    decreases ps.len(),
{
    if ps.len() == 0 {
        Seq::empty()
    } else {
        let prev = first_seen(ps.drop_last());
        if prev.contains(ps.last()) { prev } else { prev.push(ps.last()) }
    }
}

/// How many of `ps` are `p`.
pub open spec fn pattern_count(ps: Seq<PatternType>, p: PatternType) -> nat
    decreases ps.len(),
{
    if ps.len() == 0 { 0 } else { pattern_count(ps.drop_last(), p) + (if ps.last() == p { 1nat } else { 0nat }) }
}

/// The legend of a layout: each pattern that occurs, in order of first
/// appearance, with the number of tracks stored as it.
pub fn legend(encs: &Vec<TrackEncoding>) -> (r: Vec<(PatternType, usize)>)
    ensures
        r@.map_values(|x: (PatternType, usize)| x.0) == first_seen(patterns_of(encs@)),
        forall|k: int| 0 <= k < r@.len() ==> (#[trigger] r@[k]).1 == pattern_count(patterns_of(encs@), r@[k].0),
{
    let ghost ps = patterns_of(encs@);
    let mut out: Vec<(PatternType, usize)> = Vec::new();
    let mut i: usize = 0;
    proof { assert(out@.map_values(|x: (PatternType, usize)| x.0) =~= first_seen(ps.take(0))); }
    while i < encs.len()
        invariant
            i <= encs@.len(), ps == patterns_of(encs@), out@.len() <= i,
            out@.map_values(|x: (PatternType, usize)| x.0) == first_seen(ps.take(i as int)),
            forall|k: int| 0 <= k < out@.len() ==> (#[trigger] out@[k]).1 == pattern_count(ps.take(i as int), out@[k].0),
            forall|a: int, b: int| 0 <= a < b < out@.len() ==> (#[trigger] out@[a]).0 != (#[trigger] out@[b]).0,
        decreases encs.len() - i,
    {
        let p = encs[i].pattern;
        let ghost prev = ps.take(i as int);
        let ghost names = out@.map_values(|x: (PatternType, usize)| x.0);
        proof {
            assert(ps.take(i + 1).drop_last() =~= prev);
            assert(ps.take(i + 1).last() == p);
        }
        let mut j: usize = 0;
        let mut at: usize = out.len();
        while j < out.len()
            invariant_except_break
                at == out@.len(),
            invariant
                j <= out@.len(), names == out@.map_values(|x: (PatternType, usize)| x.0),
                forall|q: int| 0 <= q < j ==> out@[q].0 != p,
            ensures
                (at < out@.len() && out@[at as int].0 == p) || (at == out@.len() && forall|q: int| 0 <= q < out@.len() ==> out@[q].0 != p),
            decreases out.len() - j,
        {
            if out[j].0 == p {
                at = j;
                break;
            }
            j += 1;
        }
        if at < out.len() {
            proof {
                assert(names[at as int] == p);
                assert(names.contains(p));
                lemma_count_le(prev, p);
            }
            let c = out[at].1;
            out.set(at, (p, c + 1));
            proof {
                assert(out@.map_values(|x: (PatternType, usize)| x.0) =~= names);
            }
        } else {
            proof {
                assert(!names.contains(p)) by {
                    if names.contains(p) {
                        let q = choose|q: int| 0 <= q < names.len() && names[q] == p;
                        assert(out@[q].0 == p);
                    }
                }
                lemma_count_absent(prev, p);
            }
            out.push((p, 1));
            proof {
                assert(out@.map_values(|x: (PatternType, usize)| x.0) =~= names.push(p));
            }
        }
        proof {
            assert forall|k: int| 0 <= k < out@.len() implies (#[trigger] out@[k]).1 == pattern_count(ps.take(i + 1), out@[k].0) by {
                assert(pattern_count(ps.take(i + 1), out@[k].0) == pattern_count(prev, out@[k].0)
                    + (if p == out@[k].0 { 1nat } else { 0nat }));
            }
        }
        i += 1;
    }
    proof { assert(ps.take(encs@.len() as int) =~= ps); }
    out
}

proof fn lemma_count_le(ps: Seq<PatternType>, p: PatternType)
    ensures pattern_count(ps, p) <= ps.len(),
    decreases ps.len(),
{
    if ps.len() > 0 { lemma_count_le(ps.drop_last(), p); }
}

proof fn lemma_count_absent(ps: Seq<PatternType>, p: PatternType)
    requires !first_seen(ps).contains(p),
    ensures pattern_count(ps, p) == 0,
    decreases ps.len(),
{
    if ps.len() > 0 {
        let prev = first_seen(ps.drop_last());
        if prev.contains(p) {
            assert(first_seen(ps) == prev || first_seen(ps) == prev.push(ps.last()));
            let q = choose|q: int| 0 <= q < prev.len() && prev[q] == p;
            assert(first_seen(ps)[q] == p);
        }
        lemma_count_absent(ps.drop_last(), p);
        if ps.last() == p {
            assert(first_seen(ps).contains(p)) by {
                if !prev.contains(p) {
                    assert(first_seen(ps)[prev.len() as int] == p);
                } else {
                    let q = choose|q: int| 0 <= q < prev.len() && prev[q] == p;
                    assert(first_seen(ps)[q] == p);
                }
            }
        }
    }
}

/// Analyse the layout `geom` of `data` and count its tracks by pattern.
pub fn track_breakdown(data: &[u8], geom: &DiskGeometry, table: &FloatTable) -> (r: (Vec<TrackEncoding>, Vec<(PatternType, usize)>))
    requires
        1 <= geom.sectors_per_track <= 65535, geom.tracks * geom.sectors_per_track <= usize::MAX,
        float_table_ok(table.entries@),
    ensures
        r.0@.len() == geom.tracks,
        forall|i: int| 0 <= i < geom.tracks ==>
            analyzed_at(spec_track(data@, geom.sectors_per_track as int, i), i, table.entries@, #[trigger] r.0@[i]),
        counted(patterns_of(r.0@), r.1@),
{
    let tracks = lay_out(data, geom);
    let encs = analyze_platter(&tracks, table);
    let counts = pattern_counts(&encs);
    (encs, counts)
}

// ---------------------------------------------------------------- container headers

/// One layer of a container, as its header records it.
#[derive(Debug, Clone, Copy, PartialEq, Eq, Structural)]
pub enum Layer {
    /// a PLTZ container: original length, sectors per track, platters, tracks
    Pltz { original: u32, sectors: u16, platters: u16, tracks: u64 },
    /// a columnar wrapper around the next layer
    Columnar { stride: u16 },
    /// a chunked container: original length, chunk size, number of chunks
    Chunked { original: u32, chunk_size: u32, chunks: u16 },
}

/// The first four bytes of `c` spell `m0 m1 m2 m3`.
pub open spec fn has_magic(c: Seq<u8>, m: Seq<u8>) -> bool {
    c.len() >= 4 && c[0] == m[0] && c[1] == m[1] && c[2] == m[2] && c[3] == m[3]
}

/// Tracks needed for `orig` bytes at `spt` bytes each; none at zero.
pub open spec fn tracks_for(orig: int, spt: int) -> int {
    if spt > 0 { (orig + spt - 1) / spt } else { 0 }
}

/// Each chunked header that the reader meets holds its 15 bytes.
pub open spec fn layers_readable(c: Seq<u8>) -> bool
    decreases c.len(),
{
    if c.len() < 12 {
        true
    } else if has_magic(c, seq![0x50u8, 0x4Cu8, 0x54u8, 0x43u8]) {
        c.len() <= 10 || layers_readable(c.subrange(10, c.len() as int))
    } else if has_magic(c, seq![0x50u8, 0x4Cu8, 0x54u8, 0x53u8]) {
        c.len() >= 15
    } else {
        true
    }
}

/// The layers of `c`, outermost first: PLTZ and chunked headers end the
/// list, a columnar header is followed by the layers of what it wraps;
/// fewer than 12 bytes or another magic end it too.
pub open spec fn spec_layers(c: Seq<u8>) -> Seq<Layer>
    decreases c.len(),
{
    if c.len() < 12 {
        Seq::empty()
    } else if has_magic(c, seq![0x50u8, 0x4Cu8, 0x54u8, 0x5Au8]) {
        seq![Layer::Pltz { original: le32(c, 4) as u32, sectors: le16(c, 8) as u16, platters: le16(c, 10) as u16,
            tracks: tracks_for(le32(c, 4), le16(c, 8)) as u64 }]
    } else if has_magic(c, seq![0x50u8, 0x4Cu8, 0x54u8, 0x43u8]) {
        seq![Layer::Columnar { stride: le16(c, 8) as u16 }] + spec_layers(c.subrange(10, c.len() as int))
    } else if has_magic(c, seq![0x50u8, 0x4Cu8, 0x54u8, 0x53u8]) {
        seq![Layer::Chunked { original: le32(c, 5) as u32, chunk_size: le32(c, 9) as u32, chunks: le16(c, 13) as u16 }]
    } else {
        Seq::empty()
    }
}

/// Whether every chunked header met while reading the layers of `c` is complete.
pub fn layers_readable_exec(c: &[u8]) -> (r: bool)
    ensures r == layers_readable(c@),
{
    let mut off: usize = 0;
    proof { assert(c@.subrange(0, c@.len() as int) =~= c@); }
    while off <= c.len()
        invariant off <= c.len(), layers_readable(c@) == layers_readable(c@.subrange(off as int, c@.len() as int)),
        decreases c.len() - off,
    {
        let n = c.len() - off;
        let ghost rest = c@.subrange(off as int, c@.len() as int);
        if n < 12 {
            return true;
        }
        proof {
            assert(rest[0] == c@[off as int] && rest[1] == c@[off + 1] && rest[2] == c@[off + 2] && rest[3] == c@[off + 3]);
        }
        if c[off] == 0x50 && c[off + 1] == 0x4C && c[off + 2] == 0x54 && c[off + 3] == 0x43 {
            proof {
                assert(rest.subrange(10, rest.len() as int) =~= c@.subrange(off + 10, c@.len() as int));
            }
            off = off + 10;
        } else if c[off] == 0x50 && c[off + 1] == 0x4C && c[off + 2] == 0x54 && c[off + 3] == 0x53 {
            return n >= 15;
        } else {
            return true;
        }
    }
    true
}

/// The layers recorded in the headers of `c`, outermost first.
pub fn container_info(c: &[u8]) -> (r: Vec<Layer>)
    requires layers_readable(c@),
    ensures r@ == spec_layers(c@),
{
    let mut out: Vec<Layer> = Vec::new();
    let mut off: usize = 0;
    proof { assert(c@.subrange(0, c@.len() as int) =~= c@); }
    while off <= c.len()
        invariant
            off <= c.len(),
            layers_readable(c@.subrange(off as int, c@.len() as int)),
            spec_layers(c@) == out@ + spec_layers(c@.subrange(off as int, c@.len() as int)),
        decreases c.len() - off,
    {
        let n = c.len() - off;
        let ghost rest = c@.subrange(off as int, c@.len() as int);
        if n < 12 {
            proof { assert(out@ + spec_layers(rest) =~= out@); }
            return out;
        }
        proof {
            assert(rest[0] == c@[off as int] && rest[1] == c@[off + 1] && rest[2] == c@[off + 2] && rest[3] == c@[off + 3]);
            assert(le16(rest, 8) == le16(c@, off + 8));
            assert(le16(rest, 10) == le16(c@, off + 10));
            assert(le32(rest, 4) == le32(c@, off + 4));
        }
        if c[off] == 0x50 && c[off + 1] == 0x4C && c[off + 2] == 0x54 && c[off + 3] == 0x5A {
            let original = read_u32(c, off + 4);
            let sectors = read_u16(c, off + 8);
            let platters = read_u16(c, off + 10);
            let tracks: u64 = if sectors > 0 { (original as u64 + sectors as u64 - 1) / sectors as u64 } else { 0 };
            out.push(Layer::Pltz { original, sectors, platters, tracks });
            return out;
        } else if c[off] == 0x50 && c[off + 1] == 0x4C && c[off + 2] == 0x54 && c[off + 3] == 0x43 {
            let stride = read_u16(c, off + 8);
            out.push(Layer::Columnar { stride });
            proof {
                assert(rest.subrange(10, rest.len() as int) =~= c@.subrange(off + 10, c@.len() as int));
            }
            off = off + 10;
        } else if c[off] == 0x50 && c[off + 1] == 0x4C && c[off + 2] == 0x54 && c[off + 3] == 0x53 {
            proof {
                assert(le32(rest, 5) == le32(c@, off + 5));
                assert(le32(rest, 9) == le32(c@, off + 9));
                assert(le16(rest, 13) == le16(c@, off + 13));
            }
            let original = read_u32(c, off + 5);
            let chunk_size = read_u32(c, off + 9);
            let chunks = read_u16(c, off + 13);
            out.push(Layer::Chunked { original, chunk_size, chunks });
            return out;
        } else {
            proof { assert(out@ + spec_layers(rest) =~= out@); }
            return out;
        }
    }
    out
}

/// The original length a container's header records: bytes 4 to 8 of a
/// PLTZ or PLTC container, 5 to 9 of a chunked one; 0 for fewer than 12
/// bytes (15 for chunked) or another magic.
pub open spec fn spec_decompressed_size(c: Seq<u8>) -> usize {
    if c.len() < 12 {
        0
    } else if has_magic(c, seq![0x50u8, 0x4Cu8, 0x54u8, 0x5Au8]) || has_magic(c, seq![0x50u8, 0x4Cu8, 0x54u8, 0x43u8]) {
        le32(c, 4) as usize
    } else if has_magic(c, seq![0x50u8, 0x4Cu8, 0x54u8, 0x53u8]) {
        if c.len() < 15 { 0 } else { le32(c, 5) as usize }
    } else {
        0
    }
}

/// The original length a container's header records.
pub fn decompressed_size(c: &[u8]) -> (r: usize)
    ensures r == spec_decompressed_size(c@),
{
    if c.len() < 12 {
        return 0;
    }
    let m0 = c[0];
    let m1 = c[1];
    let m2 = c[2];
    let m3 = c[3];
    if m0 == 0x50 && m1 == 0x4C && m2 == 0x54 && (m3 == 0x5A || m3 == 0x43) {
        return read_u32(c, 4) as usize;
    }
    if m0 == 0x50 && m1 == 0x4C && m2 == 0x54 && m3 == 0x53 {
        if c.len() < 15 {
            return 0;
        }
        return read_u32(c, 5) as usize;
    }
    0
}

/// Room to reserve for the compressed form of `n` bytes: the bytes, 64
/// more and a hundredth.
pub fn max_compressed_size(n: usize) -> (r: usize)
    requires n + 64 + n / 100 <= usize::MAX,
    ensures r == n + 64 + n / 100,
{
    n + 64 + n / 100
}

} // verus!
