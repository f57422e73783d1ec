//! Cross-track meta-descriptors: groups of tracks of one pattern type whose
//! parameters are identical or vary linearly, stored as one entry.
//!
//! Wire form of a meta-group entry, after the sentinel index 0xFFFF and
//! `META_TAG`: inner pattern type (u8), track count N (u16), N track indices
//! (u16 each), sub-tag (0 all same, 1 CONST values linear, 2 LINEAR starts
//! linear), then the parameters.
use vstd::prelude::*;
use crate::bytes::{le16, read_u16, copy_range, u16_bytes, i16_bytes, push_u16, push_i16};
use crate::pattern::{
    PatternType, DecodeError, FloatTable, FloatTrack, spec_from_u8, spec_float_lookup, TrackParams, TrackEncoding,
    ParamsView, spec_tag, EncView, encs_view,
};
use crate::render::{as_i8, as_i16, render_const, render_linear, render_repeat, render_linear_wide, low_byte};
use crate::wire::{avail, sle16, as_i64, Decoded};

verus! {

pub open spec fn in_i16(v: int) -> bool {
    -32768 <= v <= 32767
}

/// The track indices of a meta-group at `pos`.
pub open spec fn meta_indices_at(buf: Seq<u8>, pos: int, n: int) -> Seq<u16> {
    Seq::new(n as nat, |k: int| le16(buf, pos + 2 * k) as u16)
}

/// Track `i` of a CONST-values-linear group holds `start + i * step`, with
/// `i` taken as a signed 16-bit number; the reader overflows when the
/// product or the sum leaves 16 bits.
pub open spec fn const_linear_fits(start: int, step: int, count: int) -> bool {
    forall|i: int| 0 <= i < count ==> in_i16(#[trigger] (as_i16(i) * step)) && in_i16(start + as_i16(i) * step)
}

/// Decode a meta-group at `offset` (just past `META_TAG`): the track indices,
/// the bytes of each of those tracks, and the offset after the group.
pub open spec fn spec_decode_meta(buf: Seq<u8>, offset: int, sectors: int, table: Seq<FloatTrack>)
    -> Decoded<(Seq<u16>, Seq<Seq<u8>>, int)>
{
    let pos = offset;
    if !avail(buf, pos, 1) { None }
    else if spec_from_u8(buf[pos]) is None { Some(Err(DecodeError::BadInnerType)) }
    else if !avail(buf, pos + 1, 2) || !avail(buf, pos + 3, 2 * le16(buf, pos + 1) + 1) { None }
    else {
        let inner = spec_from_u8(buf[pos])->0;
        let n = le16(buf, pos + 1);
        let idx = meta_indices_at(buf, pos + 3, n);
        let sub = buf[pos + 3 + 2 * n];
        let q = pos + 4 + 2 * n;
        if inner == PatternType::Const && sub == 0 {
            if !avail(buf, q, 1) { None } else {
                Some(Ok((idx, Seq::new(n as nat, |k: int| render_const(buf[q], sectors)), q + 1)))
            }
        } else if inner == PatternType::Const && sub == 1 {
            if !avail(buf, q, 2) || !const_linear_fits(buf[q] as int, as_i8(buf[q + 1]), n) { None } else {
                Some(Ok((idx, Seq::new(n as nat, |k: int| render_const(low_byte(buf[q] + as_i16(k) * as_i8(buf[q + 1])), sectors)), q + 2)))
            }
        } else if inner == PatternType::Linear && sub == 0 {
            if !avail(buf, q, 4) { None } else {
                Some(Ok((idx, Seq::new(n as nat, |k: int| render_linear(sle16(buf, q), sle16(buf, q + 2), sectors)), q + 4)))
            }
        } else if inner == PatternType::Linear && sub == 2 {
            if !avail(buf, q, 6) { None } else {
                Some(Ok((idx, Seq::new(n as nat, |k: int|
                    render_linear(sle16(buf, q) + k * sle16(buf, q + 2), sle16(buf, q + 4), sectors)), q + 6)))
            }
        } else if inner == PatternType::Repeat && sub == 0 {
            if !avail(buf, q, 2) || !avail(buf, q + 2, le16(buf, q)) || (le16(buf, q) == 0 && sectors > 0 && n > 0) { None } else {
                let l = le16(buf, q);
                Some(Ok((idx, Seq::new(n as nat, |k: int| render_repeat(buf.subrange(q + 2, q + 2 + l), sectors)), q + 2 + l)))
            }
        } else if inner == PatternType::LinearWide && sub == 0 {
            if !avail(buf, q, 19) { None } else {
                Some(Ok((idx, Seq::new(n as nat, |k: int| render_linear_wide(buf[q], le16(buf, q + 1),
                    as_i64(crate::bytes::le64(buf, q + 3)), as_i64(crate::bytes::le64(buf, q + 11)), sectors)), q + 19)))
            }
        } else if inner == PatternType::LinearF64 && sub == 0 {
            if !avail(buf, q, 18) { None } else {
                match spec_float_lookup(table, 10, buf.subrange(q, q + 18), sectors) {
                    Some(t) => Some(Ok((idx, Seq::new(n as nat, |k: int| t), q + 18))),
                    None => Some(Err(DecodeError::FloatTrackNotRendered(10, q as usize, 18, sectors as usize))),
                }
            }
        } else {
            Some(Err(DecodeError::UnknownMetaSubTag(sub, buf[pos])))
        }
    }
}

fn read_indices(buf: &[u8], pos: usize, n: usize) -> (v: Vec<u16>)
    requires pos + 2 * n <= buf.len(),
    ensures v@ == meta_indices_at(buf@, pos as int, n as int),
{
    let mut v: Vec<u16> = Vec::new();
    let mut k: usize = 0;
    while k < n
        invariant k <= n, pos + 2 * n <= buf.len(), v@ =~= meta_indices_at(buf@, pos as int, k as int),
        decreases n - k,
    {
        v.push(read_u16(buf, pos + 2 * k));
        k += 1;
    }
    v
}

/// Pair each index with its own copy of `track`.
fn same_tracks(idx: &Vec<u16>, track: &Vec<u8>) -> (r: Vec<(u16, Vec<u8>)>)
    ensures
        r@.len() == idx@.len(),
        forall|k: int| 0 <= k < idx@.len() ==> (#[trigger] r@[k]).0 == idx@[k] && r@[k].1@ == track@,
{
    let mut r: Vec<(u16, Vec<u8>)> = Vec::new();
    let mut k: usize = 0;
    while k < idx.len()
        invariant
            k <= idx@.len(), r@.len() == k,
            forall|j: int| 0 <= j < k ==> (#[trigger] r@[j]).0 == idx@[j] && r@[j].1@ == track@,
        decreases idx.len() - k,
    {
        r.push((idx[k], crate::bytes::copy_bytes(track.as_slice())));
        k += 1;
    }
    r
}

/// Decode a meta-group at `offset` (just past `META_TAG`): each listed track
/// index with its bytes, and the offset after the group.
pub fn decode_meta_group(buf: &[u8], offset: usize, sectors: usize, table: &FloatTable)
    -> (r: Result<(Vec<(u16, Vec<u8>)>, usize), DecodeError>)
    requires
        spec_decode_meta(buf@, offset as int, sectors as int, table.entries@) is Some,
        sectors <= 65535,
    ensures
        match r {
            Ok((tracks, next)) => match spec_decode_meta(buf@, offset as int, sectors as int, table.entries@) {
                Some(Ok((idx, ts, n))) => next == n && tracks@.len() == idx.len()
                    && forall|k: int| 0 <= k < idx.len() ==> (#[trigger] tracks@[k]).0 == idx[k] && tracks@[k].1@ == ts[k],
                _ => false,
            },
            Err(e) => spec_decode_meta(buf@, offset as int, sectors as int, table.entries@)
                == Some(Err::<(Seq<u16>, Seq<Seq<u8>>, int), DecodeError>(e)),
        },
{
    let pos = offset;
    let inner = match PatternType::from_u8(buf[pos]) {
        Some(p) => p,
        None => return Err(DecodeError::BadInnerType),
    };
    let n = read_u16(buf, pos + 1) as usize;
    let idx = read_indices(buf, pos + 3, n);
    let sub = buf[pos + 3 + 2 * n];
    let q = pos + 4 + 2 * n;
    let ghost spec = spec_decode_meta(buf@, offset as int, sectors as int, table.entries@);
    if inner == PatternType::Const && sub == 0 {
        let t = crate::bytes::filled(buf[q], sectors);
        let r = same_tracks(&idx, &t);
        Ok((r, q + 1))
    } else if inner == PatternType::Const && sub == 1 {
        let start = buf[q];
        let step: i16 = if buf[q + 1] < 128 { buf[q + 1] as i16 } else { buf[q + 1] as i16 - 256 };
        let mut r: Vec<(u16, Vec<u8>)> = Vec::new();
        let mut k: usize = 0;
        while k < n
            invariant
                k <= n, n == idx@.len(), q + 2 <= buf.len(), n <= 65535,
                start == buf@[q as int], step as int == as_i8(buf@[q + 1]),
                const_linear_fits(start as int, step as int, n as int),
                r@.len() == k,
                forall|j: int| 0 <= j < k ==> (#[trigger] r@[j]).0 == idx@[j]
                    && r@[j].1@ == render_const(low_byte(start + as_i16(j) * step), sectors as int),
            decreases n - k,
        {
            let ki: i16 = if k < 32768 { k as i16 } else { (k as i32 - 65536) as i16 };
            proof {
                assert(ki as int == as_i16(k as int));
                assert(in_i16(as_i16(k as int) * step) && in_i16(start + as_i16(k as int) * step));
            }
            let prod: i16 = ki * step;
            let val: i16 = start as i16 + prod;
            let b = crate::render::low_byte_of(val as i64);
            r.push((idx[k], crate::bytes::filled(b, sectors)));
            k += 1;
        }
        Ok((r, q + 2))
    } else if inner == PatternType::Linear && sub == 0 {
        let start = crate::wire::read_i16_pub(buf, q);
        let step = crate::wire::read_i16_pub(buf, q + 2);
        let t = crate::render::linear_track(start, step, sectors);
        Ok((same_tracks(&idx, &t), q + 4))
    } else if inner == PatternType::Linear && sub == 2 {
        let start_base = crate::wire::read_i16_pub(buf, q);
        let start_step = crate::wire::read_i16_pub(buf, q + 2);
        let step = crate::wire::read_i16_pub(buf, q + 4);
        let mut r: Vec<(u16, Vec<u8>)> = Vec::new();
        let mut k: usize = 0;
        let mut cur: u16 = crate::wire::wrap16_of(start_base as i64);
        let inc: u16 = crate::wire::wrap16_of(start_step as i64);
        while k < n
            invariant
                k <= n, n == idx@.len(), q + 6 <= buf.len(),
                start_base as int == sle16(buf@, q as int), start_step as int == sle16(buf@, q + 2),
                step as int == sle16(buf@, q + 4),
                cur as int == (start_base + k * start_step) % 65536,
                inc as int == (start_step as int) % 65536,
                r@.len() == k,
                forall|j: int| 0 <= j < k ==> (#[trigger] r@[j]).0 == idx@[j]
                    && r@[j].1@ == render_linear(start_base + j * start_step, step as int, sectors as int),
            decreases n - k,
        {
            let s16: i16 = if cur < 32768 { cur as i16 } else { (cur as i32 - 65536) as i16 };
            let t = crate::render::linear_track(s16, step, sectors);
            proof {
                crate::wire::lemma_linear_wrapped_start(start_base + k * start_step, s16 as int, step as int, sectors as int);
                assert(t@ == render_linear(start_base + k * start_step, step as int, sectors as int));
            }
            r.push((idx[k], t));
            proof {
                vstd::arithmetic::div_mod::lemma_add_mod_noop(start_base + k * start_step, start_step as int, 65536);
                assert(start_base + (k + 1) * start_step == (start_base + k * start_step) + start_step) by (nonlinear_arith);
            }
            cur = ((cur as u32 + inc as u32) % 65536) as u16;
            k += 1;
        }
        Ok((r, q + 6))
    } else if inner == PatternType::Repeat && sub == 0 {
        let l = read_u16(buf, q) as usize;
        if l == 0 {
            // no track, or tracks of no bytes
            proof { assert(render_repeat(buf@.subrange(q + 2, q + 2), 0) =~= Seq::<u8>::empty()); }
            let r = same_tracks(&idx, &Vec::new());
            return Ok((r, q + 2));
        }
        let pattern = copy_range(buf, q + 2, q + 2 + l);
        let t = crate::render::repeat_track(pattern.as_slice(), sectors);
        Ok((same_tracks(&idx, &t), q + 2 + l))
    } else if inner == PatternType::LinearWide && sub == 0 {
        let width = buf[q];
        let count = read_u16(buf, q + 1);
        let start = crate::wire::to_i64_pub(crate::bytes::read_u64(buf, q + 3));
        let step = crate::wire::to_i64_pub(crate::bytes::read_u64(buf, q + 11));
        let t = crate::render::linear_wide_track(width, count, start, step, sectors);
        Ok((same_tracks(&idx, &t), q + 19))
    } else if inner == PatternType::LinearF64 && sub == 0 {
        let payload = copy_range(buf, q, q + 18);
        match table.lookup(10, payload.as_slice(), sectors) {
            Some(t) => Ok((same_tracks(&idx, &t), q + 18)),
            None => Err(DecodeError::FloatTrackNotRendered(10, q, 18, sectors)),
        }
    } else {
        Err(DecodeError::UnknownMetaSubTag(sub, buf[pos]))
    }
}

// ---------------------------------------------------------------- building groups

/// How the parameters across a group are stored.
#[derive(Debug)]
pub enum MetaParams {
    /// Every track has the same parameters, stored once.
    AllSame(TrackParams),
    /// CONST values that form an arithmetic sequence.
    ConstLinear { start: u8, step: i8 },
    /// LINEAR tracks of one step whose starts form an arithmetic sequence.
    LinearStartsLinear { start_base: i16, start_step: i16, step: i16 },
}

/// A group of tracks stored with one meta-descriptor.
#[derive(Debug)]
pub struct MetaGroup {
    pub inner_pattern: PatternType,
    pub track_indices: Vec<u16>,
    pub meta_params: MetaParams,
}

/// Group parameters as mathematical values.
pub enum MetaParamsView {
    AllSame(ParamsView),
    ConstLinear { start: u8, step: i8 },
    LinearStartsLinear { start_base: i16, start_step: i16, step: i16 },
}

/// A group as mathematical values.
pub struct MetaView {
    pub inner: PatternType,
    pub indices: Seq<u16>,
    pub params: MetaParamsView,
}

impl View for MetaParams {
    type V = MetaParamsView;

    open spec fn view(&self) -> MetaParamsView {
        match self {
            MetaParams::AllSame(p) => MetaParamsView::AllSame(p@),
            MetaParams::ConstLinear { start, step } => MetaParamsView::ConstLinear { start: *start, step: *step },
            MetaParams::LinearStartsLinear { start_base, start_step, step } =>
                MetaParamsView::LinearStartsLinear { start_base: *start_base, start_step: *start_step, step: *step },
        }
    }
}

impl View for MetaGroup {
    type V = MetaView;

    open spec fn view(&self) -> MetaView {
        MetaView { inner: self.inner_pattern, indices: self.track_indices@, params: self.meta_params@ }
    }
}

/// The groups as mathematical values.
pub open spec fn metas_view(g: Seq<MetaGroup>) -> Seq<MetaView> {
    Seq::new(g.len(), |k: int| g[k]@)
}

/// Track indices of a list of encodings.
pub open spec fn indices_of(e: Seq<EncView>) -> Seq<u16> {
    Seq::new(e.len(), |k: int| e[k].idx)
}

/// The CONST value of an encoding (0 for other patterns).
pub open spec fn const_value(e: EncView) -> u8 {
    match e.params { ParamsView::Const { value } => value, _ => 0 }
}

/// The LINEAR start and step of an encoding (zeros for other patterns).
pub open spec fn linear_pair(e: EncView) -> (i16, i16) {
    match e.params { ParamsView::Linear { start, step } => (start, step), _ => (0, 0) }
}

/// CONST group: all one value (stored once), or values in an arithmetic
/// sequence, each when the group is smaller than the tracks.
pub open spec fn spec_try_meta_const(e: Seq<EncView>) -> Option<MetaParamsView> {
    let n = e.len() as int;
    let v0 = const_value(e[0]);
    if (forall|k: int| 0 <= k < n ==> #[trigger] const_value(e[k]) == v0) && n * 4 > 7 + n * 2 + 1 {
        Some(MetaParamsView::AllSame(ParamsView::Const { value: v0 }))
    } else if n >= 2 {
        let step = const_value(e[1]) - v0;
        if -128 <= step <= 127
            && (forall|k: int| 1 <= k < n ==> #[trigger] const_value(e[k]) - const_value(e[k - 1]) == step)
            && 7 + n * 2 + 2 < n * 4 {
            Some(MetaParamsView::ConstLinear { start: v0, step: step as i8 })
        } else {
            None
        }
    } else {
        None
    }
}

/// LINEAR group: one start and step for all, or starts in an arithmetic
/// sequence with one step, when cheaper than the tracks.
pub open spec fn spec_try_meta_linear(e: Seq<EncView>) -> Option<MetaParamsView> {
    let n = e.len() as int;
    let p0 = linear_pair(e[0]);
    if (forall|k: int| 0 <= k < n ==> #[trigger] linear_pair(e[k]) == p0) && 7 + n * 2 + 4 < n * 7 {
        Some(MetaParamsView::AllSame(ParamsView::Linear { start: p0.0, step: p0.1 }))
    } else if (forall|k: int| 0 <= k < n ==> #[trigger] linear_pair(e[k]).1 == p0.1) && n >= 2 {
        let ss = linear_pair(e[1]).0 - p0.0;
        if -32768 <= ss <= 32767
            && (forall|k: int| 1 <= k < n ==> #[trigger] linear_pair(e[k]).0 - linear_pair(e[k - 1]).0 == ss)
            && 7 + n * 2 + 6 < n * 7 {
            Some(MetaParamsView::LinearStartsLinear { start_base: p0.0, start_step: ss as i16, step: p0.1 })
        } else {
            None
        }
    } else {
        None
    }
}

/// Parameters that can be stored once for a group: REPEAT, LINEAR_WIDE and
/// LINEAR_F64, compared field by field.
pub open spec fn params_equal(a: ParamsView, b: ParamsView) -> bool {
    match (a, b) {
        (ParamsView::Const { value: x }, ParamsView::Const { value: y }) => x == y,
        (ParamsView::Linear { start: s1, step: t1 }, ParamsView::Linear { start: s2, step: t2 }) => s1 == s2 && t1 == t2,
        (ParamsView::Repeat { pattern: p1 }, ParamsView::Repeat { pattern: p2 }) => p1 == p2,
        (ParamsView::LinearWide { width: w1, count: c1, start: s1, step: t1 },
         ParamsView::LinearWide { width: w2, count: c2, start: s2, step: t2 }) => w1 == w2 && c1 == c2 && s1 == s2 && t1 == t2,
        (ParamsView::Float { pattern: PatternType::LinearF64, payload: p1 },
         ParamsView::Float { pattern: PatternType::LinearF64, payload: p2 }) => p1 == p2,
        _ => false,
    }
}

/// Stored size of the parameters alone.
pub open spec fn spec_params_size(p: ParamsView) -> int {
    match p {
        ParamsView::Const { .. } => 1int,
        ParamsView::Linear { .. } => 4int,
        ParamsView::Rle { runs } => 2 + runs.len() as int * 2,
        ParamsView::Repeat { pattern } => 2 + pattern.len() as int,
        ParamsView::Delta { deltas, .. } => 2 + deltas.len() as int,
        ParamsView::Raw { data } => data.len() as int,
        ParamsView::LinearWide { .. } => 19int,
        ParamsView::XorMask { inner_params, .. } => 2 + inner_params.len() as int,
        ParamsView::Sparse { entries, .. } => 3 + entries.len() as int * 3,
        ParamsView::PiecewiseLinear { segments } => 1 + segments.len() as int * 6,
        ParamsView::Mirror { half } => half.len() as int,
        ParamsView::Float { payload, .. } => payload.len() as int,
        _ => 0int,
    }
}

/// Any other pattern: one set of parameters for all, when identical and
/// cheaper than the tracks.
pub open spec fn spec_try_meta_all_same(e: Seq<EncView>) -> Option<MetaParamsView> {
    let n = e.len() as int;
    let first = e[0].params;
    if n >= 4 && (forall|k: int| 1 <= k < n ==> #[trigger] params_equal(e[k].params, first))
        && 7 + n * 2 + spec_params_size(first) < n * (3 + spec_params_size(first)) {
        Some(MetaParamsView::AllSame(first))
    } else {
        None
    }
}

/// The encodings of pattern tag `tag`, in order.
pub open spec fn by_tag(s: Seq<EncView>, tag: u8) -> Seq<EncView>
    decreases s.len(),
{
    if s.len() == 0 {
        Seq::empty()
    } else {
        let r = by_tag(s.drop_last(), tag);
        if spec_tag(s.last().pattern) == tag { r.push(s.last()) } else { r }
    }
}

/// The encodings of other pattern tags, in order.
pub open spec fn not_tag(s: Seq<EncView>, tag: u8) -> Seq<EncView>
    decreases s.len(),
{
    if s.len() == 0 {
        Seq::empty()
    } else {
        let r = not_tag(s.drop_last(), tag);
        if spec_tag(s.last().pattern) != tag { r.push(s.last()) } else { r }
    }
}

/// Position at which `x` goes among `s`: before the first larger index.
pub open spec fn insert_pos(s: Seq<EncView>, key: u16, i: int) -> int
    decreases s.len() - i,
{
    if i >= s.len() || i < 0 { s.len() as int } else if s[i].idx > key { i } else { insert_pos(s, key, i + 1) }
}

/// Stable sort by track index (insertion sort).
pub open spec fn sort_by_idx(s: Seq<EncView>) -> Seq<EncView>
    decreases s.len(),
{
    if s.len() == 0 {
        Seq::empty()
    } else {
        let r = sort_by_idx(s.drop_last());
        let p = insert_pos(r, s.last().idx, 0);
        r.subrange(0, p).push(s.last()) + r.subrange(p, r.len() as int)
    }
}

/// The group a sorted list of encodings of one pattern forms, if any. A
/// group of `n` tracks stores `7 + 2n` bytes besides its parameters
/// (sentinel, tag, inner pattern, count, indices, sub-tag); it is formed
/// only when that is strictly smaller than the `n` entries it replaces.
pub open spec fn spec_try_group(g: Seq<EncView>) -> Option<MetaParamsView> {
    if g.len() < 4 {
        None
    } else if g[0].pattern == PatternType::Const {
        spec_try_meta_const(g)
    } else if g[0].pattern == PatternType::Linear {
        spec_try_meta_linear(g)
    } else {
        spec_try_meta_all_same(g)
    }
}

/// Cross-track optimisation from pattern tag `tag` on: each tag's encodings,
/// sorted by index, become one group or stay individual.
pub open spec fn cross_from(rest: Seq<EncView>, tag: int, groups: Seq<MetaView>, remaining: Seq<EncView>)
    -> (Seq<MetaView>, Seq<EncView>)
    decreases 25 - tag,
{
    if tag < 0 || tag > 24 {
        (groups, remaining)
    } else {
        let g = sort_by_idx(by_tag(rest, tag as u8));
        let next = not_tag(rest, tag as u8);
        match spec_try_group(g) {
            Some(mp) => cross_from(next, tag + 1,
                groups.push(MetaView { inner: g[0].pattern, indices: indices_of(g), params: mp }), remaining),
            None => cross_from(next, tag + 1, groups, remaining + g),
        }
    }
}

/// Cross-track optimisation of a platter: groups, by pattern tag in
/// increasing order, and the encodings left individual.
pub open spec fn spec_cross(e: Seq<EncView>) -> (Seq<MetaView>, Seq<EncView>) {
    cross_from(e, 0, Seq::empty(), Seq::empty())
}

/// All encodings of `e` have pattern tag `t`: they are all picked out by
/// `t`, none by tag `u` (another tag).
proof fn lemma_all_tag(e: Seq<EncView>, t: u8, u: u8)
    requires u != t, forall|k: int| 0 <= k < e.len() ==> spec_tag(#[trigger] e[k].pattern) == t,
    ensures
        by_tag(e, t) == e, not_tag(e, t) == Seq::<EncView>::empty(),
        by_tag(e, u) == Seq::<EncView>::empty(), not_tag(e, u) == e,
    decreases e.len(),
{
    if e.len() > 0 {
        let r = e.drop_last();
        assert forall|k: int| 0 <= k < r.len() implies spec_tag(#[trigger] r[k].pattern) == t by { assert(r[k] == e[k]); }
        lemma_all_tag(r, t, u);
        assert(r.push(e.last()) =~= e);
        assert(spec_tag(e.last().pattern) == t);
    } else {
        assert(e =~= Seq::<EncView>::empty());
    }
}

/// With nothing left, the remaining tags add no group and no encoding.
proof fn lemma_cross_empty(tag: int, groups: Seq<MetaView>, remaining: Seq<EncView>)
    ensures cross_from(Seq::empty(), tag, groups, remaining) == (groups, remaining),
    decreases 25 - tag,
{
    if 0 <= tag <= 24 {
        let z = Seq::<EncView>::empty();
        assert(by_tag(z, tag as u8) == z);
        assert(not_tag(z, tag as u8) == z);
        assert(sort_by_idx(z) == z);
        assert(remaining + z =~= remaining);
        lemma_cross_empty(tag + 1, groups, remaining);
    }
}

/// LINEAR tracks whose starts step evenly: given at least four LINEAR
/// encodings in track order, with one common `step`, starts `starts[k]`
/// that change by the same non-zero difference from each track to the
/// next, and a group (`7 + 2n + 6` bytes) strictly smaller than the `n`
/// tracks stored one by one (7 bytes each), cross-track optimisation makes
/// them one LinearStartsLinear group over their indices, with the first
/// start, the difference and the step, and leaves none individual.
pub proof fn law_linear_starts_group(e: Seq<EncView>, starts: Seq<i16>, step: i16)
    requires
        e.len() >= 4, starts.len() == e.len(), idx_sorted(e),
        forall|k: int| 0 <= k < e.len() ==> (#[trigger] e[k]).pattern == PatternType::Linear
            && e[k].params == (ParamsView::Linear { start: starts[k], step }),
        starts[1] != starts[0], -32768 <= starts[1] - starts[0] <= 32767,
        forall|k: int| 0 <= k < e.len() ==> #[trigger] starts[k] == starts[0] + k * (starts[1] - starts[0]),
        7 + 2 * e.len() + 6 < 7 * e.len(),
    ensures
        spec_cross(e) == (seq![MetaView {
            inner: PatternType::Linear,
            indices: Seq::new(e.len(), |k: int| e[k].idx),
            params: MetaParamsView::LinearStartsLinear {
                start_base: starts[0], start_step: (starts[1] - starts[0]) as i16, step },
        }], Seq::<EncView>::empty()),
{
    let n = e.len() as int;
    let d = starts[1] - starts[0];
    let z = Seq::<EncView>::empty();
    assert forall|k: int| 0 <= k < n implies spec_tag(#[trigger] e[k].pattern) == 1u8 by {
        assert(e[k].pattern == PatternType::Linear);
    }
    lemma_all_tag(e, 1, 0);
    assert(sort_by_idx(z) == z);
    lemma_sort_sorted(e);
    // tag 0: nothing; tag 1: all of them
    assert forall|k: int| 0 <= k < n implies #[trigger] linear_pair(e[k]) == (starts[k], step) by {
        assert(e[k].params == (ParamsView::Linear { start: starts[k], step }));
    }
    assert(linear_pair(e[1]) != linear_pair(e[0]));
    assert(linear_pair(e[1]).0 - linear_pair(e[0]).0 == d);
    assert forall|k: int| 1 <= k < n implies #[trigger] linear_pair(e[k]).0 - linear_pair(e[k - 1]).0 == d by {
        assert(starts[k] == starts[0] + k * d);
        assert(starts[k - 1] == starts[0] + (k - 1) * d);
        assert(k * d - (k - 1) * d == d) by (nonlinear_arith);
        assert(linear_pair(e[k - 1]) == (starts[k - 1], step));
    }
    assert(forall|k: int| 0 <= k < n ==> #[trigger] linear_pair(e[k]).1 == linear_pair(e[0]).1);
    let mp = MetaParamsView::LinearStartsLinear { start_base: starts[0], start_step: d as i16, step };
    assert(spec_try_meta_linear(e) == Some(mp));
    assert(spec_try_group(e) == Some(mp));
    let mv = MetaView { inner: PatternType::Linear, indices: indices_of(e), params: mp };
    assert(indices_of(e) =~= Seq::new(e.len(), |k: int| e[k].idx));
    assert(cross_from(e, 0, Seq::empty(), Seq::empty()) == cross_from(e, 1, Seq::empty(), Seq::<EncView>::empty() + z));
    assert(Seq::<EncView>::empty() + z =~= z);
    assert(cross_from(e, 1, Seq::empty(), z) == cross_from(z, 2, Seq::<MetaView>::empty().push(mv), z));
    lemma_cross_empty(2, Seq::<MetaView>::empty().push(mv), z);
    assert(Seq::<MetaView>::empty().push(mv) =~= seq![mv]);
}

/// `s` back to front.
pub open spec fn rev(s: Seq<TrackEncoding>) -> Seq<TrackEncoding> {
    Seq::new(s.len(), |i: int| s[s.len() - 1 - i])
}

fn reversed(v: Vec<TrackEncoding>) -> (r: Vec<TrackEncoding>)
    ensures r@ == rev(v@),
{
    let ghost v0 = v@;
    let mut src = v;
    let mut out: Vec<TrackEncoding> = Vec::new();
    while src.len() > 0
        invariant v0 =~= src@ + rev(out@),
        decreases src.len(),
    {
        let ghost before = src@;
        let ghost out0 = out@;
        let x = src.pop().unwrap();
        out.push(x);
        proof {
            assert(before =~= src@.push(x));
            assert(rev(out@) =~= seq![x] + rev(out0));
            assert(v0 =~= src@ + rev(out@));
        }
    }
    proof { assert(rev(out@) =~= v0); assert(rev(rev(out@)) =~= out@); }
    out
}

/// Split `v` into the encodings of pattern tag `tag` and the others, each in order.
fn split_tag(v: Vec<TrackEncoding>, tag: u8) -> (r: (Vec<TrackEncoding>, Vec<TrackEncoding>))
    ensures encs_view(r.0@) == by_tag(encs_view(v@), tag), encs_view(r.1@) == not_tag(encs_view(v@), tag),
{
    let ghost v0 = v@;
    proof { assert(v0.len() == v.len()); }
    let mut src = reversed(v);
    let mut yes: Vec<TrackEncoding> = Vec::new();
    let mut no: Vec<TrackEncoding> = Vec::new();
    let mut k: usize = 0;
    while src.len() > 0
        invariant
            k + src@.len() == v0.len(), v0.len() <= usize::MAX,
            v0 =~= v0.subrange(0, k as int) + rev(src@),
            encs_view(yes@) == by_tag(encs_view(v0).subrange(0, k as int), tag),
            encs_view(no@) == not_tag(encs_view(v0).subrange(0, k as int), tag),
        decreases src.len(),
    {
        let ghost before = src@;
        let x = src.pop().unwrap();
        proof {
            assert(before =~= src@.push(x));
            assert(rev(before)[0] == x);
            assert(v0[k as int] == x);
            assert(encs_view(v0).subrange(0, k + 1).drop_last() =~= encs_view(v0).subrange(0, k as int));
            assert(encs_view(v0).subrange(0, k + 1).last() == x@);
            assert(v0 =~= v0.subrange(0, k + 1) + rev(src@));
        }
        let ghost y0 = yes@;
        let ghost n0 = no@;
        if x.pattern.tag() == tag {
            yes.push(x);
            proof { assert(encs_view(yes@) =~= encs_view(y0).push(x@)); }
        } else {
            no.push(x);
            proof { assert(encs_view(no@) =~= encs_view(n0).push(x@)); }
        }
        k += 1;
    }
    proof { assert(encs_view(v0).subrange(0, k as int) =~= encs_view(v0)); }
    (yes, no)
}

/// Whether the indices never decrease.
pub open spec fn idx_sorted(s: Seq<EncView>) -> bool {
    forall|i: int, j: int| 0 <= i < j < s.len() ==> s[i].idx <= s[j].idx
}

proof fn lemma_insert_pos_end(s: Seq<EncView>, key: u16, i: int)
    requires 0 <= i <= s.len(), forall|j: int| i <= j < s.len() ==> #[trigger] s[j].idx <= key,
    ensures insert_pos(s, key, i) == s.len(),
    decreases s.len() - i,
{
    if i < s.len() { lemma_insert_pos_end(s, key, i + 1); }
}

/// Sorting what is already in order changes nothing.
pub proof fn lemma_sort_sorted(s: Seq<EncView>)
    requires idx_sorted(s),
    ensures sort_by_idx(s) == s,
    decreases s.len(),
{
    if s.len() > 0 {
        let r = s.drop_last();
        assert(idx_sorted(r));
        lemma_sort_sorted(r);
        lemma_insert_pos_end(r, s.last().idx, 0);
        assert(r.subrange(0, r.len() as int).push(s.last()) + r.subrange(r.len() as int, r.len() as int) =~= s);
    }
}

fn find_insert_pos(out: &Vec<TrackEncoding>, key: u16) -> (p: usize)
    ensures p == insert_pos(encs_view(out@), key, 0), p <= out@.len(),
{
    let mut i: usize = 0;
    while i < out.len()
        invariant i <= out@.len(), insert_pos(encs_view(out@), key, 0) == insert_pos(encs_view(out@), key, i as int),
        decreases out.len() - i,
    {
        if out[i].track_idx > key {
            return i;
        }
        i += 1;
    }
    i
}

fn is_idx_sorted(v: &Vec<TrackEncoding>) -> (r: bool)
    ensures r == idx_sorted(encs_view(v@)),
{
    let mut i: usize = 1;
    if v.len() < 2 {
        return true;
    }
    while i < v.len()
        invariant 1 <= i <= v@.len(), forall|a: int, b: int| 0 <= a < b < i ==> encs_view(v@)[a].idx <= encs_view(v@)[b].idx,
        decreases v.len() - i,
    {
        proof {
            assert(encs_view(v@)[i as int] == v@[i as int]@);
            assert(encs_view(v@)[i - 1] == v@[i - 1]@);
        }
        if v[i - 1].track_idx > v[i].track_idx {
            return false;
        }
        i += 1;
    }
    true
}

/// Stable sort by track index.
fn sort_encodings(g: Vec<TrackEncoding>) -> (r: Vec<TrackEncoding>)
    ensures encs_view(r@) == sort_by_idx(encs_view(g@)),
{
    if is_idx_sorted(&g) {
        proof { lemma_sort_sorted(encs_view(g@)); }
        return g;
    }
    let ghost g0 = g@;
    proof { assert(g0.len() == g.len()); }
    let mut src = reversed(g);
    let mut out: Vec<TrackEncoding> = Vec::new();
    let mut k: usize = 0;
    while src.len() > 0
        invariant
            k + src@.len() == g0.len(), g0.len() <= usize::MAX,
            g0 =~= g0.subrange(0, k as int) + rev(src@),
            encs_view(out@) == sort_by_idx(encs_view(g0).subrange(0, k as int)),
        decreases src.len(),
    {
        let ghost before = src@;
        let x = src.pop().unwrap();
        proof {
            assert(before =~= src@.push(x));
            assert(rev(before)[0] == x);
            assert(g0[k as int] == x);
            assert(encs_view(g0).subrange(0, k + 1).drop_last() =~= encs_view(g0).subrange(0, k as int));
            assert(encs_view(g0).subrange(0, k + 1).last() == x@);
            assert(g0 =~= g0.subrange(0, k + 1) + rev(src@));
        }
        let ghost o = encs_view(out@);
        let p = find_insert_pos(&out, x.track_idx);
        out.insert(p, x);
        proof { assert(encs_view(out@) =~= o.subrange(0, p as int).push(x@) + o.subrange(p as int, o.len() as int)); }
        k += 1;
    }
    proof { assert(encs_view(g0).subrange(0, k as int) =~= encs_view(g0)); }
    out
}

fn const_value_exec(e: &TrackEncoding) -> (v: u8)
    ensures v == const_value(e@),
{
    match &e.params { TrackParams::Const { value } => *value, _ => 0 }
}

fn linear_pair_exec(e: &TrackEncoding) -> (v: (i16, i16))
    ensures v == linear_pair(e@),
{
    match &e.params { TrackParams::Linear { start, step } => (*start, *step), _ => (0, 0) }
}

fn try_meta_const(t: &Vec<TrackEncoding>) -> (r: Option<MetaParams>)
    requires t@.len() >= 1,
    ensures
        match r {
            Some(m) => spec_try_meta_const(encs_view(t@)) == Some(m@),
            None => spec_try_meta_const(encs_view(t@)) is None,
        },
{
    let n = t.len();
    let v0 = const_value_exec(&t[0]);
    let mut all = true;
    let mut k: usize = 0;
    while k < n
        invariant n == t@.len(), k <= n, v0 == const_value(encs_view(t@)[0]),
            all <==> forall|j: int| 0 <= j < k ==> #[trigger] const_value(encs_view(t@)[j]) == v0,
        decreases n - k,
    {
        proof { assert(encs_view(t@)[k as int] == t@[k as int]@); }
        if const_value_exec(&t[k]) != v0 {
            all = false;
        }
        k += 1;
    }
    if all && n > 4 {
        return Some(MetaParams::AllSame(TrackParams::Const { value: v0 }));
    }
    if n >= 2 {
        let step: i16 = const_value_exec(&t[1]) as i16 - v0 as i16;
        if -128 <= step && step <= 127 {
            let mut lin = true;
            let mut k: usize = 1;
            while k < n
                invariant n == t@.len(), n >= 2, 1 <= k <= n, v0 == const_value(encs_view(t@)[0]), step == const_value(encs_view(t@)[1]) - v0,
                    lin <==> forall|j: int| 1 <= j < k ==> #[trigger] const_value(encs_view(t@)[j]) - const_value(encs_view(t@)[j - 1]) == step,
                decreases n - k,
            {
                proof {
                    assert(encs_view(t@)[k as int] == t@[k as int]@);
                    assert(encs_view(t@)[k - 1] == t@[k - 1]@);
                }
                if const_value_exec(&t[k]) as i16 - const_value_exec(&t[k - 1]) as i16 != step {
                    lin = false;
                }
                k += 1;
            }
            if lin && n > 4 {
                return Some(MetaParams::ConstLinear { start: v0, step: step as i8 });
            }
        }
    }
    None
}

fn try_meta_linear(t: &Vec<TrackEncoding>) -> (r: Option<MetaParams>)
    requires t@.len() >= 1,
    ensures
        match r {
            Some(m) => spec_try_meta_linear(encs_view(t@)) == Some(m@),
            None => spec_try_meta_linear(encs_view(t@)) is None,
        },
{
    let n = t.len();
    let p0 = linear_pair_exec(&t[0]);
    let mut all = true;
    let mut same_step = true;
    let mut k: usize = 0;
    while k < n
        invariant n == t@.len(), k <= n, p0 == linear_pair(encs_view(t@)[0]),
            all <==> forall|j: int| 0 <= j < k ==> #[trigger] linear_pair(encs_view(t@)[j]) == p0,
            same_step <==> forall|j: int| 0 <= j < k ==> #[trigger] linear_pair(encs_view(t@)[j]).1 == p0.1,
        decreases n - k,
    {
        proof { assert(encs_view(t@)[k as int] == t@[k as int]@); }
        let pk = linear_pair_exec(&t[k]);
        if pk.0 != p0.0 || pk.1 != p0.1 {
            all = false;
        }
        if pk.1 != p0.1 {
            same_step = false;
        }
        k += 1;
    }
    if all && n > 2 {
        return Some(MetaParams::AllSame(TrackParams::Linear { start: p0.0, step: p0.1 }));
    }
    if same_step && n >= 2 {
        let ss: i32 = linear_pair_exec(&t[1]).0 as i32 - p0.0 as i32;
        if -32768 <= ss && ss <= 32767 {
            let mut lin = true;
            let mut k: usize = 1;
            while k < n
                invariant n == t@.len(), n >= 2, 1 <= k <= n, p0 == linear_pair(encs_view(t@)[0]), ss == linear_pair(encs_view(t@)[1]).0 - p0.0,
                    lin <==> forall|j: int| 1 <= j < k ==> #[trigger] linear_pair(encs_view(t@)[j]).0 - linear_pair(encs_view(t@)[j - 1]).0 == ss,
                decreases n - k,
            {
                proof {
                    assert(encs_view(t@)[k as int] == t@[k as int]@);
                    assert(encs_view(t@)[k - 1] == t@[k - 1]@);
                }
                if linear_pair_exec(&t[k]).0 as i32 - linear_pair_exec(&t[k - 1]).0 as i32 != ss {
                    lin = false;
                }
                k += 1;
            }
            if lin && n > 2 {
                return Some(MetaParams::LinearStartsLinear { start_base: p0.0, start_step: ss as i16, step: p0.1 });
            }
        }
    }
    None
}

fn params_equal_exec(a: &TrackParams, b: &TrackParams) -> (r: bool)
    ensures r == params_equal(a@, b@),
{
    match (a, b) {
        (TrackParams::Const { value: x }, TrackParams::Const { value: y }) => *x == *y,
        (TrackParams::Linear { start: s1, step: t1 }, TrackParams::Linear { start: s2, step: t2 }) => *s1 == *s2 && *t1 == *t2,
        (TrackParams::Repeat { pattern: p1 }, TrackParams::Repeat { pattern: p2 }) =>
            crate::bytes::bytes_equal(p1.as_slice(), p2.as_slice()),
        (TrackParams::LinearWide { width: w1, count: c1, start: s1, step: t1 },
         TrackParams::LinearWide { width: w2, count: c2, start: s2, step: t2 }) =>
            *w1 == *w2 && *c1 == *c2 && *s1 == *s2 && *t1 == *t2,
        (TrackParams::Float { pattern: q1, payload: p1 }, TrackParams::Float { pattern: q2, payload: p2 }) =>
            *q1 == PatternType::LinearF64 && *q2 == PatternType::LinearF64
                && crate::bytes::bytes_equal(p1.as_slice(), p2.as_slice()),
        _ => false,
    }
}

/// Stored size of the parameters alone.
fn params_size(p: &TrackParams) -> (r: u128)
    ensures r == spec_params_size(p@), (r as int) <= 0x8_0000_0000_0000_0000int,
{
    match p {
        TrackParams::Const { .. } => 1,
        TrackParams::Linear { .. } => 4,
        TrackParams::Rle { runs } => { let l = runs.len(); let r: u128 = 2 + l as u128 * 2; r }
        TrackParams::Repeat { pattern } => { let l = pattern.len(); let r: u128 = 2 + l as u128; r }
        TrackParams::Delta { deltas, .. } => { let l = deltas.len(); 2 + l as u128 }
        TrackParams::Raw { data } => { let l = data.len(); l as u128 }
        TrackParams::LinearWide { .. } => 19,
        TrackParams::XorMask { inner_params, .. } => { let l = inner_params.len(); 2 + l as u128 }
        TrackParams::Sparse { entries, .. } => { let l = entries.len(); 3 + l as u128 * 3 }
        TrackParams::PiecewiseLinear { segments } => { let l = segments.len(); 1 + l as u128 * 6 }
        TrackParams::Mirror { half } => { let l = half.len(); l as u128 }
        TrackParams::Float { payload, .. } => { let l = payload.len(); l as u128 }
        TrackParams::RawCompressed { .. } => 0,
        TrackParams::DeltaRle { .. } => 0,
        TrackParams::BitPacked { .. } => 0,
        TrackParams::InterleavedLinear { .. } => 0,
        TrackParams::DiffTable { .. } => 0,
        TrackParams::ModArith { .. } => 0,
        TrackParams::Fibonacci { .. } => 0,
        TrackParams::DeltaWide { .. } => 0,
    }
}

/// A copy of parameters that can be stored once for a group.
fn copy_shared_params(p: &TrackParams) -> (q: TrackParams)
    requires params_equal(p@, p@),
    ensures q@ == p@,
{
    match p {
        TrackParams::Const { value } => TrackParams::Const { value: *value },
        TrackParams::Linear { start, step } => TrackParams::Linear { start: *start, step: *step },
        TrackParams::Repeat { pattern } => TrackParams::Repeat { pattern: crate::bytes::copy_bytes(pattern.as_slice()) },
        TrackParams::LinearWide { width, count, start, step } =>
            TrackParams::LinearWide { width: *width, count: *count, start: *start, step: *step },
        TrackParams::Float { pattern, payload } =>
            TrackParams::Float { pattern: *pattern, payload: crate::bytes::copy_bytes(payload.as_slice()) },
        _ => { proof { assert(false); } TrackParams::Const { value: 0 } }
    }
}

fn try_meta_all_same(t: &Vec<TrackEncoding>) -> (r: Option<MetaParams>)
    requires t@.len() >= 1,
    ensures
        match r {
            Some(m) => spec_try_meta_all_same(encs_view(t@)) == Some(m@),
            None => spec_try_meta_all_same(encs_view(t@)) is None,
        },
{
    let n = t.len();
    if n < 4 {
        return None;
    }
    let mut all = true;
    let mut k: usize = 1;
    while k < n
        invariant n == t@.len(), 1 <= k <= n,
            all <==> forall|j: int| 1 <= j < k ==> #[trigger] params_equal(encs_view(t@)[j].params, encs_view(t@)[0].params),
        decreases n - k,
    {
        proof {
            assert(encs_view(t@)[k as int] == t@[k as int]@);
            assert(encs_view(t@)[0] == t@[0]@);
            assert(encs_view(t@)[k as int].params == t@[k as int].params@);
            assert(encs_view(t@)[0].params == t@[0].params@);
        }
        let eq = params_equal_exec(&t[k].params, &t[0].params);
        if !eq {
            all = false;
        }
        k += 1;
    }
    if !all {
        return None;
    }
    let size = params_size(&t[0].params);
    proof {
        let nn = n as int;
        let sz = size as int;
        assert((7 + nn * 2 + sz < nn * (3 + sz)) <==> (sz >= 2 || (sz == 1 && nn > 4) || nn > 7)) by (nonlinear_arith)
            requires nn >= 4, sz >= 0;
    }
    if size >= 2 || (size == 1 && n > 4) || n > 7 {
        proof { assert(params_equal(encs_view(t@)[1].params, encs_view(t@)[0].params)); }
        return Some(MetaParams::AllSame(copy_shared_params(&t[0].params)));
    }
    None
}

fn indices_exec(g: &Vec<TrackEncoding>) -> (r: Vec<u16>)
    ensures r@ == indices_of(encs_view(g@)),
{
    let mut r: Vec<u16> = Vec::new();
    let mut k: usize = 0;
    while k < g.len()
        invariant k <= g@.len(), r@ =~= Seq::new(k as nat, |j: int| g@[j].track_idx),
        decreases g.len() - k,
    {
        r.push(g[k].track_idx);
        k += 1;
    }
    r
}

/// Find groups of tracks of one pattern whose parameters are identical or
/// vary linearly; return the groups and the encodings left individual.
pub fn cross_track_optimize(encodings: Vec<TrackEncoding>) -> (r: (Vec<MetaGroup>, Vec<TrackEncoding>))
    ensures (metas_view(r.0@), encs_view(r.1@)) == spec_cross(encs_view(encodings@)),
{
    let ghost e0 = encs_view(encodings@);
    let mut groups: Vec<MetaGroup> = Vec::new();
    let mut remaining: Vec<TrackEncoding> = Vec::new();
    let mut rest = encodings;
    let mut tag: u8 = 0;
    proof {
        assert(metas_view(groups@) =~= Seq::<MetaView>::empty());
        assert(encs_view(remaining@) =~= Seq::<EncView>::empty());
    }
    while tag <= 24
        invariant
            tag <= 25,
            cross_from(encs_view(rest@), tag as int, metas_view(groups@), encs_view(remaining@)) == spec_cross(e0),
        decreases 25 - tag,
    {
        let (g0, next) = split_tag(rest, tag);
        let mut g = sort_encodings(g0);
        let m = if g.len() < 4 {
            None
        } else if g[0].pattern == PatternType::Const {
            try_meta_const(&g)
        } else if g[0].pattern == PatternType::Linear {
            try_meta_linear(&g)
        } else {
            try_meta_all_same(&g)
        };
        match m {
            Some(mp) => {
                let idx = indices_exec(&g);
                let inner = g[0].pattern;
                let ghost gv = metas_view(groups@);
                groups.push(MetaGroup { inner_pattern: inner, track_indices: idx, meta_params: mp });
                proof { assert(metas_view(groups@) =~= gv.push(groups@.last()@)); }
            }
            None => {
                let ghost r0 = encs_view(remaining@);
                let ghost gv = encs_view(g@);
                remaining.append(&mut g);
                proof { assert(encs_view(remaining@) =~= r0 + gv); }
            }
        }
        rest = next;
        tag += 1;
    }
    (groups, remaining)
}

// ---------------------------------------------------------------- writing groups

/// Track indices, two bytes each.
pub open spec fn idx_body(idx: Seq<u16>) -> Seq<u8> {
    Seq::new((2 * idx.len()) as nat, |k: int| if k % 2 == 0 { (idx[k / 2] % 256) as u8 } else { (idx[k / 2] / 256) as u8 })
}

/// The parameter bytes of a group whose tracks all share `p`.
pub open spec fn params_only(p: ParamsView) -> Seq<u8> {
    match p {
        ParamsView::Const { .. } => crate::entry::spec_payload(p),
        ParamsView::Linear { .. } => crate::entry::spec_payload(p),
        ParamsView::Repeat { .. } => crate::entry::spec_payload(p),
        ParamsView::LinearWide { .. } => crate::entry::spec_payload(p),
        ParamsView::Float { .. } => crate::entry::spec_payload(p),
        _ => Seq::empty(),
    }
}

/// Sub-tag and parameters of a group.
pub open spec fn meta_params_bytes(m: MetaParamsView) -> Seq<u8> {
    match m {
        MetaParamsView::AllSame(p) => seq![0u8] + params_only(p),
        MetaParamsView::ConstLinear { start, step } => seq![1u8, start, crate::entry::i8_byte(step)],
        MetaParamsView::LinearStartsLinear { start_base, start_step, step } =>
            seq![2u8] + i16_bytes(start_base) + i16_bytes(start_step) + i16_bytes(step),
    }
}

/// A whole meta-group entry.
pub open spec fn spec_meta_bytes(g: MetaView) -> Seq<u8> {
    u16_bytes(0xFFFF) + seq![crate::pattern::META_TAG, spec_tag(g.inner)] + u16_bytes(g.indices.len() as u16)
        + idx_body(g.indices) + meta_params_bytes(g.params)
}

/// Stored size of a group entry without its 3-byte header.
pub open spec fn spec_meta_size(g: MetaView) -> int {
    let header = 1 + 1 + 2 + g.indices.len() * 2;
    header + match g.params {
        MetaParamsView::AllSame(p) => 1 + spec_params_size(p),
        MetaParamsView::ConstLinear { .. } => 3int,
        MetaParamsView::LinearStartsLinear { .. } => 7int,
    }
}

/// Estimated size of a group entry, as the geometry search counts it.
pub fn estimate_meta_size(group: &MetaGroup) -> (r: u128)
    ensures r == spec_meta_size(group@), (r as int) <= 0x40_0000_0000_0000_0000int,
{
    let header: u128 = 1 + 1 + 2 + group.track_indices.len() as u128 * 2;
    let p: u128 = match &group.meta_params {
        MetaParams::AllSame(p) => 1 + params_size(p),
        MetaParams::ConstLinear { .. } => 3,
        MetaParams::LinearStartsLinear { .. } => 7,
    };
    header + p
}

fn write_indices(buf: &mut Vec<u8>, idx: &Vec<u16>)
    ensures final(buf)@ == old(buf)@ + idx_body(idx@),
{
    let mut k: usize = 0;
    while k < idx.len()
        invariant k <= idx.len(), buf@ =~= old(buf)@ + idx_body(idx@).subrange(0, 2 * k as int),
        decreases idx.len() - k,
    {
        let x = idx[k];
        buf.push((x % 256) as u8);
        buf.push((x / 256) as u8);
        proof {
            assert((2 * k) / 2 == k && (2 * k) % 2 == 0);
            assert((2 * k + 1) / 2 == k && (2 * k + 1) % 2 == 1);
            assert(idx_body(idx@).subrange(0, 2 * (k + 1)) =~= idx_body(idx@).subrange(0, 2 * k as int)
                .push((x % 256) as u8).push((x / 256) as u8));
        }
        k += 1;
    }
    proof { assert(idx_body(idx@).subrange(0, 2 * idx.len() as int) =~= idx_body(idx@)); }
}

/// Append a meta-group entry: the sentinel index 0xFFFF and `META_TAG` as
/// its 3-byte header, then the group.
pub fn encode_meta_group(buf: &mut Vec<u8>, group: &MetaGroup)
    ensures final(buf)@ == old(buf)@ + spec_meta_bytes(group@),
{
    let ghost b0 = buf@;
    push_u16(buf, 0xFFFF);
    buf.push(crate::pattern::META_TAG);
    buf.push(group.inner_pattern.tag());
    push_u16(buf, group.track_indices.len() as u16);
    write_indices(buf, &group.track_indices);
    let ghost b1 = buf@;
    match &group.meta_params {
        MetaParams::AllSame(p) => {
            buf.push(0);
            match p {
                TrackParams::Const { .. } | TrackParams::Linear { .. } | TrackParams::Repeat { .. }
                | TrackParams::LinearWide { .. } | TrackParams::Float { .. } => {
                    crate::entry::write_payload(buf, p);
                }
                _ => {}
            }
        }
        MetaParams::ConstLinear { start, step } => {
            buf.push(1);
            buf.push(*start);
            buf.push(if *step >= 0 { *step as u8 } else { (*step as i16 + 256) as u8 });
        }
        MetaParams::LinearStartsLinear { start_base, start_step, step } => {
            buf.push(2);
            push_i16(buf, *start_base);
            push_i16(buf, *start_step);
            push_i16(buf, *step);
        }
    }
    proof {
        assert(buf@ =~= b1 + meta_params_bytes(group@.params));
        assert(buf@ =~= b0 + spec_meta_bytes(group@));
    }
}

// ---------------------------------------------------------------- reading groups back

/// Tracks `ts` are what group `g` reconstructs at `n` bytes per track, one
/// per listed index.
pub open spec fn meta_renders(g: MetaView, n: int, table: Seq<FloatTrack>, ts: Seq<Seq<u8>>) -> bool {
    &&& ts.len() == g.indices.len()
    &&& 1 <= g.indices.len() <= 65535
    &&& match g.params {
        MetaParamsView::AllSame(p) =>
            g.inner == crate::pattern::view_pattern(p)
            && (p is Const || p is Linear || p is Repeat || p is LinearWide
                || (p matches ParamsView::Float { pattern, .. } && pattern == PatternType::LinearF64))
            && forall|k: int| 0 <= k < ts.len() ==> #[trigger] crate::analyzer::renders_to(p, n, table, ts[k]),
        MetaParamsView::ConstLinear { start, step } =>
            g.inner == PatternType::Const && const_linear_fits(start as int, step as int, g.indices.len() as int)
            && forall|k: int| 0 <= k < ts.len() ==> #[trigger] ts[k] == render_const(low_byte(start + as_i16(k) * step), n),
        MetaParamsView::LinearStartsLinear { start_base, start_step, step } =>
            g.inner == PatternType::Linear
            && forall|k: int| 0 <= k < ts.len() ==> #[trigger] ts[k] == render_linear(start_base + k * start_step, step as int, n),
    }
}

#[verifier::spinoff_prover]
#[verifier::rlimit(40)]
proof fn lemma_meta_header(g: MetaView, buf: Seq<u8>, off: int)
    requires g.indices.len() <= 65535, crate::entry::placed(buf, off, spec_meta_bytes(g)),
    ensures
        buf[off + 2] == crate::pattern::META_TAG,
        buf[off + 3] == spec_tag(g.inner),
        le16(buf, off + 4) == g.indices.len(),
        meta_indices_at(buf, off + 6, g.indices.len() as int) == g.indices,
        crate::entry::placed(buf, off + 6 + 2 * g.indices.len(), meta_params_bytes(g.params)),
{
    let e = spec_meta_bytes(g);
    let m = g.indices.len() as int;
    let body = idx_body(g.indices);
    crate::entry::lemma_placed(buf, off, e);
    crate::entry::lemma_le16_of(m as u16);
    assert(le16(buf, off + 4) == le16(u16_bytes(m as u16), 0));
    assert forall|k: int| 0 <= k < m implies #[trigger] meta_indices_at(buf, off + 6, m)[k] == g.indices[k] by {
        assert(buf[off + 6 + 2 * k] == e[6 + 2 * k]);
        assert(buf[off + 6 + 2 * k + 1] == e[6 + 2 * k + 1]);
        assert(e[6 + 2 * k] == body[2 * k]);
        assert(e[6 + 2 * k + 1] == body[2 * k + 1]);
        assert((2 * k) / 2 == k && (2 * k) % 2 == 0);
        assert((2 * k + 1) / 2 == k && (2 * k + 1) % 2 == 1);
    }
    assert(meta_indices_at(buf, off + 6, m) =~= g.indices);
    let mp = meta_params_bytes(g.params);
    assert(buf.subrange(off + 6 + 2 * m, off + 6 + 2 * m + mp.len()) =~= mp) by {
        assert forall|j: int| 0 <= j < mp.len() implies #[trigger] buf.subrange(off + 6 + 2 * m, off + 6 + 2 * m + mp.len())[j] == mp[j] by {
            assert(buf[off + 6 + 2 * m + j] == e[6 + 2 * m + j]);
        }
    }
}

/// A group entry written for `g` decodes back to the tracks `g` reconstructs.
#[verifier::spinoff_prover]
#[verifier::rlimit(60)]
pub proof fn lemma_meta_decodes(g: MetaView, n: int, table: Seq<FloatTrack>, ts: Seq<Seq<u8>>, buf: Seq<u8>, off: int)
    requires meta_renders(g, n, table, ts), 0 <= n <= 65535, crate::entry::placed(buf, off, spec_meta_bytes(g)),
    ensures
        buf[off + 2] == crate::pattern::META_TAG,
        spec_decode_meta(buf, off + 3, n, table)
            == Some(Ok::<(Seq<u16>, Seq<Seq<u8>>, int), DecodeError>((g.indices, ts, off + spec_meta_bytes(g).len()))),
{
    let m = g.indices.len() as int;
    lemma_meta_header(g, buf, off);
    crate::pattern::lemma_tag_from_u8(g.inner);
    let q = off + 6 + 2 * m;
    let mp = meta_params_bytes(g.params);
    crate::entry::lemma_placed(buf, q, mp);
    match g.params {
        MetaParamsView::AllSame(p) => lemma_meta_all_same(g, p, n, table, ts, buf, off),
        MetaParamsView::ConstLinear { start, step } => {
            crate::entry::lemma_i8_byte(step);
            assert(Seq::new(m as nat, |k: int| render_const(low_byte(buf[q + 1] + as_i16(k) * as_i8(buf[q + 2])), n)) =~= ts);
        }
        MetaParamsView::LinearStartsLinear { start_base, start_step, step } => {
            crate::entry::lemma_sle16_of(start_base);
            crate::entry::lemma_sle16_of(start_step);
            crate::entry::lemma_sle16_of(step);
            assert(sle16(buf, q + 1) == sle16(i16_bytes(start_base), 0));
            assert(sle16(buf, q + 3) == sle16(i16_bytes(start_step), 0));
            assert(sle16(buf, q + 5) == sle16(i16_bytes(step), 0));
            assert(Seq::new(m as nat, |k: int| render_linear(sle16(buf, q + 1) + k * sle16(buf, q + 3), sle16(buf, q + 5), n)) =~= ts);
        }
    }
}

#[verifier::spinoff_prover]
#[verifier::rlimit(100)]
proof fn lemma_meta_all_same(g: MetaView, p: ParamsView, n: int, table: Seq<FloatTrack>, ts: Seq<Seq<u8>>, buf: Seq<u8>, off: int)
    requires
        g.params == MetaParamsView::AllSame(p),
        meta_renders(g, n, table, ts), 0 <= n <= 65535, crate::entry::placed(buf, off, spec_meta_bytes(g)),
        buf[off + 3] == spec_tag(g.inner),
        le16(buf, off + 4) == g.indices.len(),
        meta_indices_at(buf, off + 6, g.indices.len() as int) == g.indices,
        crate::entry::placed(buf, off + 6 + 2 * g.indices.len(), meta_params_bytes(g.params)),
        spec_from_u8(spec_tag(g.inner)) == Some(g.inner),
    ensures
        spec_decode_meta(buf, off + 3, n, table)
            == Some(Ok::<(Seq<u16>, Seq<Seq<u8>>, int), DecodeError>((g.indices, ts, off + spec_meta_bytes(g).len()))),
{
    let m = g.indices.len() as int;
    let q = off + 6 + 2 * m;
    let pl = crate::entry::spec_payload(p);
    crate::entry::lemma_placed(buf, q, seq![0u8] + pl);
    assert(buf[q] == 0);
    assert(crate::entry::placed(buf, q + 1, pl)) by {
        assert(buf.subrange(q + 1, q + 1 + pl.len()) =~= pl) by {
            assert forall|j: int| 0 <= j < pl.len() implies #[trigger] buf.subrange(q + 1, q + 1 + pl.len())[j] == pl[j] by {
                assert(buf[q + 1 + j] == (seq![0u8] + pl)[1 + j]);
            }
        }
    }
    assert(crate::analyzer::renders_to(p, n, table, ts[0]));
    crate::entry::lemma_payload_decodes(p, n, table, ts[0], buf, q + 1);
    let r = ts[0];
    assert forall|k: int| 0 <= k < m implies #[trigger] ts[k] == r by {
        assert(crate::analyzer::renders_to(p, n, table, ts[k]));
    }
    assert(Seq::new(m as nat, |k: int| r) =~= ts);
}

// ---------------------------------------------------------------- what the groups cover

pub proof fn lemma_by_tag(s: Seq<EncView>, tag: u8)
    ensures
        by_tag(s, tag).len() + not_tag(s, tag).len() == s.len(),
        forall|k: int| 0 <= k < by_tag(s, tag).len() ==>
            s.contains(#[trigger] by_tag(s, tag)[k]) && spec_tag(by_tag(s, tag)[k].pattern) == tag,
        forall|k: int| 0 <= k < not_tag(s, tag).len() ==>
            s.contains(#[trigger] not_tag(s, tag)[k]) && spec_tag(not_tag(s, tag)[k].pattern) != tag,
        forall|i: int| 0 <= i < s.len() && spec_tag(s[i].pattern) == tag ==> #[trigger] by_tag(s, tag).contains(s[i]),
        forall|i: int| 0 <= i < s.len() && spec_tag(s[i].pattern) != tag ==> #[trigger] not_tag(s, tag).contains(s[i]),
    decreases s.len(),
{
    if s.len() > 0 {
        let r = s.drop_last();
        lemma_by_tag(r, tag);
        let x = s.last();
        let b = by_tag(s, tag);
        let nb = not_tag(s, tag);
        assert forall|k: int| 0 <= k < b.len() implies s.contains(#[trigger] b[k]) && spec_tag(b[k].pattern) == tag by {
            if k < by_tag(r, tag).len() {
                let j = choose|j: int| 0 <= j < r.len() && r[j] == by_tag(r, tag)[k];
                assert(s[j] == r[j]);
            } else {
                assert(s[s.len() - 1] == x);
            }
        }
        assert forall|k: int| 0 <= k < nb.len() implies s.contains(#[trigger] nb[k]) && spec_tag(nb[k].pattern) != tag by {
            if k < not_tag(r, tag).len() {
                let j = choose|j: int| 0 <= j < r.len() && r[j] == not_tag(r, tag)[k];
                assert(s[j] == r[j]);
            } else {
                assert(s[s.len() - 1] == x);
            }
        }
        assert forall|i: int| 0 <= i < s.len() && spec_tag(s[i].pattern) == tag implies #[trigger] b.contains(s[i]) by {
            if i < r.len() {
                assert(s[i] == r[i]);
                assert(by_tag(r, tag).contains(r[i]));
                let j = choose|j: int| 0 <= j < by_tag(r, tag).len() && by_tag(r, tag)[j] == r[i];
                assert(b[j] == by_tag(r, tag)[j]);
            } else {
                assert(b[b.len() - 1] == x);
            }
        }
        assert forall|i: int| 0 <= i < s.len() && spec_tag(s[i].pattern) != tag implies #[trigger] nb.contains(s[i]) by {
            if i < r.len() {
                assert(s[i] == r[i]);
                assert(not_tag(r, tag).contains(r[i]));
                let j = choose|j: int| 0 <= j < not_tag(r, tag).len() && not_tag(r, tag)[j] == r[i];
                assert(nb[j] == not_tag(r, tag)[j]);
            } else {
                assert(nb[nb.len() - 1] == x);
            }
        }
    }
}

proof fn lemma_insert_pos_bound(s: Seq<EncView>, key: u16, i: int)
    requires 0 <= i <= s.len(),
    ensures i <= insert_pos(s, key, i) <= s.len(),
    decreases s.len() - i,
{
    if i < s.len() && !(s[i].idx > key) { lemma_insert_pos_bound(s, key, i + 1); }
}

pub proof fn lemma_sort_members(s: Seq<EncView>)
    ensures
        sort_by_idx(s).len() == s.len(),
        forall|k: int| 0 <= k < s.len() ==> s.contains(#[trigger] sort_by_idx(s)[k]),
        forall|i: int| 0 <= i < s.len() ==> #[trigger] sort_by_idx(s).contains(s[i]),
    decreases s.len(),
{
    if s.len() > 0 {
        let r0 = s.drop_last();
        lemma_sort_members(r0);
        let r = sort_by_idx(r0);
        let x = s.last();
        let p = insert_pos(r, x.idx, 0);
        lemma_insert_pos_bound(r, x.idx, 0);
        let out = r.subrange(0, p).push(x) + r.subrange(p, r.len() as int);
        assert(sort_by_idx(s) == out);
        assert forall|k: int| 0 <= k < s.len() implies s.contains(#[trigger] out[k]) by {
            if k < p {
                assert(out[k] == r[k]);
                let j = choose|j: int| 0 <= j < r0.len() && r0[j] == r[k];
                assert(s[j] == r0[j]);
            } else if k == p {
                assert(s[s.len() - 1] == x);
            } else {
                assert(out[k] == r[k - 1]);
                let j = choose|j: int| 0 <= j < r0.len() && r0[j] == r[k - 1];
                assert(s[j] == r0[j]);
            }
        }
        assert forall|i: int| 0 <= i < s.len() implies #[trigger] out.contains(s[i]) by {
            if i < r0.len() {
                assert(s[i] == r0[i]);
                assert(r.contains(r0[i]));
                let j = choose|j: int| 0 <= j < r.len() && r[j] == r0[i];
                if j < p { assert(out[j] == r[j]); } else { assert(out[j + 1] == r[j]); }
            } else {
                assert(out[p] == x);
            }
        }
    }
}

/// Group `g` was formed from the encodings `grp`.
pub open spec fn group_of(g: MetaView, grp: Seq<EncView>) -> bool {
    &&& grp.len() >= 4
    &&& g.indices == indices_of(grp)
    &&& g.inner == grp[0].pattern
    &&& forall|k: int| 0 <= k < grp.len() ==> (#[trigger] grp[k]).pattern == grp[0].pattern
    &&& spec_try_group(grp) == Some(g.params)
}

/// The encodings each group of `cross_from` is formed from.
pub open spec fn cross_src(rest: Seq<EncView>, tag: int, srcs: Seq<Seq<EncView>>) -> Seq<Seq<EncView>>
    decreases 25 - tag,
{
    if tag < 0 || tag > 24 {
        srcs
    } else {
        let g = sort_by_idx(by_tag(rest, tag as u8));
        let next = not_tag(rest, tag as u8);
        if spec_try_group(g) is Some { cross_src(next, tag + 1, srcs.push(g)) } else { cross_src(next, tag + 1, srcs) }
    }
}

/// Every encoding of `e` with a tag below `below` ends up individual or in
/// a group; groups (formed from `srcs`) and individual encodings come from `e`.
pub open spec fn cross_covers(e: Seq<EncView>, groups: Seq<MetaView>, srcs: Seq<Seq<EncView>>, remaining: Seq<EncView>, below: int) -> bool {
    &&& forall|k: int| 0 <= k < remaining.len() ==> e.contains(#[trigger] remaining[k])
    &&& srcs.len() == groups.len()
    &&& forall|gi: int| 0 <= gi < groups.len() ==> group_of(#[trigger] groups[gi], srcs[gi])
    &&& forall|gi: int, k: int| 0 <= gi < srcs.len() && 0 <= k < srcs[gi].len() ==> e.contains(#[trigger] srcs[gi][k])
    &&& forall|i: int| 0 <= i < e.len() && (spec_tag(e[i].pattern) as int) < below ==>
        #[trigger] remaining.contains(e[i]) || exists|gi: int, k: int| 0 <= gi < groups.len() && 0 <= k < groups[gi].indices.len()
            && #[trigger] groups[gi].indices[k] == e[i].idx
    &&& groups.len() <= below
    &&& remaining.len() <= e.len()
}

proof fn lemma_cross_from(e: Seq<EncView>, rest: Seq<EncView>, tag: int, groups: Seq<MetaView>, srcs: Seq<Seq<EncView>>,
    remaining: Seq<EncView>)
    requires
        0 <= tag <= 25,
        cross_covers(e, groups, srcs, remaining, tag),
        forall|k: int| 0 <= k < rest.len() ==> e.contains(#[trigger] rest[k]),
        forall|i: int| 0 <= i < e.len() && (spec_tag(e[i].pattern) as int) >= tag ==> #[trigger] rest.contains(e[i]),
        remaining.len() + rest.len() <= e.len(),
    ensures
        cross_covers(e, cross_from(rest, tag, groups, remaining).0, cross_src(rest, tag, srcs),
            cross_from(rest, tag, groups, remaining).1, 25),
    decreases 25 - tag,
{
    if tag <= 24 {
        let t = tag as u8;
        let bt = by_tag(rest, t);
        let g = sort_by_idx(bt);
        let next = not_tag(rest, t);
        lemma_by_tag(rest, t);
        lemma_sort_members(bt);
        assert forall|k: int| 0 <= k < g.len() implies e.contains(#[trigger] g[k]) && spec_tag(g[k].pattern) == t by {
            let j = choose|j: int| 0 <= j < bt.len() && bt[j] == g[k];
            assert(rest.contains(bt[j]));
            let j2 = choose|j2: int| 0 <= j2 < rest.len() && rest[j2] == bt[j];
            assert(e.contains(rest[j2]));
        }
        assert forall|k: int| 0 <= k < next.len() implies e.contains(#[trigger] next[k]) by {
            let j2 = choose|j2: int| 0 <= j2 < rest.len() && rest[j2] == next[k];
            assert(e.contains(rest[j2]));
        }
        assert forall|i: int| 0 <= i < e.len() && (spec_tag(e[i].pattern) as int) >= tag + 1 implies #[trigger] next.contains(e[i]) by {
            assert(rest.contains(e[i]));
            let j = choose|j: int| 0 <= j < rest.len() && rest[j] == e[i];
            assert(not_tag(rest, t).contains(rest[j]));
        }
        // members of this tag's group
        assert forall|i: int| 0 <= i < e.len() && spec_tag(e[i].pattern) == t implies #[trigger] g.contains(e[i]) by {
            assert(rest.contains(e[i]));
            let j = choose|j: int| 0 <= j < rest.len() && rest[j] == e[i];
            assert(bt.contains(rest[j]));
            let j2 = choose|j2: int| 0 <= j2 < bt.len() && bt[j2] == rest[j];
            assert(g.contains(bt[j2]));
        }
        match spec_try_group(g) {
            Some(mp) => {
                let ng = MetaView { inner: g[0].pattern, indices: indices_of(g), params: mp };
                let groups2 = groups.push(ng);
                assert(g.len() >= 4);
                assert forall|k: int| 0 <= k < g.len() implies (#[trigger] g[k]).pattern == g[0].pattern by {
                    assert(spec_tag(g[k].pattern) == t);
                    assert(spec_tag(g[0].pattern) == t);
                    crate::pattern::lemma_tag_from_u8(g[k].pattern);
                    crate::pattern::lemma_tag_from_u8(g[0].pattern);
                }
                assert(group_of(ng, g));
                let srcs2 = srcs.push(g);
                assert forall|gi: int| 0 <= gi < groups2.len() implies group_of(#[trigger] groups2[gi], srcs2[gi]) by {
                    if gi < groups.len() { assert(groups2[gi] == groups[gi]); assert(srcs2[gi] == srcs[gi]); }
                    else { assert(groups2[gi] == ng); assert(srcs2[gi] == g); }
                }
                assert forall|gi: int, k: int| 0 <= gi < srcs2.len() && 0 <= k < srcs2[gi].len() implies e.contains(#[trigger] srcs2[gi][k]) by {
                    if gi < srcs.len() { assert(srcs2[gi] == srcs[gi]); } else { assert(srcs2[gi] == g); }
                }
                assert forall|i: int| 0 <= i < e.len() && (spec_tag(e[i].pattern) as int) < tag + 1 implies
                    #[trigger] remaining.contains(e[i]) || exists|gi: int, k: int| 0 <= gi < groups2.len()
                        && 0 <= k < groups2[gi].indices.len() && #[trigger] groups2[gi].indices[k] == e[i].idx by {
                    if (spec_tag(e[i].pattern) as int) < tag {
                        if !remaining.contains(e[i]) {
                            let (gi, k) = choose|gi: int, k: int| 0 <= gi < groups.len() && 0 <= k < groups[gi].indices.len()
                                && #[trigger] groups[gi].indices[k] == e[i].idx;
                            assert(groups2[gi] == groups[gi]);
                        }
                    } else {
                        assert(g.contains(e[i]));
                        let k = choose|k: int| 0 <= k < g.len() && g[k] == e[i];
                        assert(groups2[groups.len() as int] == ng);
                        assert(ng.indices[k] == e[i].idx);
                    }
                }
                assert(cross_covers(e, groups2, srcs2, remaining, tag + 1));
                lemma_cross_from(e, next, tag + 1, groups2, srcs2, remaining);
            }
            None => {
                let rem2 = remaining + g;
                assert forall|k: int| 0 <= k < rem2.len() implies e.contains(#[trigger] rem2[k]) by {
                    if k < remaining.len() { assert(rem2[k] == remaining[k]); } else { assert(rem2[k] == g[k - remaining.len()]); }
                }
                assert forall|i: int| 0 <= i < e.len() && (spec_tag(e[i].pattern) as int) < tag + 1 implies
                    #[trigger] rem2.contains(e[i]) || exists|gi: int, k: int| 0 <= gi < groups.len()
                        && 0 <= k < groups[gi].indices.len() && #[trigger] groups[gi].indices[k] == e[i].idx by {
                    if (spec_tag(e[i].pattern) as int) < tag {
                        if remaining.contains(e[i]) {
                            let k = choose|k: int| 0 <= k < remaining.len() && remaining[k] == e[i];
                            assert(rem2[k] == remaining[k]);
                        }
                    } else {
                        assert(g.contains(e[i]));
                        let k = choose|k: int| 0 <= k < g.len() && g[k] == e[i];
                        assert(rem2[remaining.len() + k] == g[k]);
                    }
                }
                assert(rem2.len() <= e.len());
                assert(cross_covers(e, groups, srcs, rem2, tag + 1));
                lemma_cross_from(e, next, tag + 1, groups, srcs, rem2);
            }
        }
    }
}

/// What cross-track optimisation keeps: every encoding ends up individual
/// or in a group, and nothing else does.
pub proof fn lemma_cross_covers(e: Seq<EncView>)
    ensures cross_covers(e, spec_cross(e).0, cross_src(e, 0, Seq::empty()), spec_cross(e).1, 25),
{
    assert forall|i: int| 0 <= i < e.len() && (spec_tag(e[i].pattern) as int) >= 0 implies #[trigger] e.contains(e[i]) by {}
    lemma_cross_from(e, e, 0, Seq::empty(), Seq::empty(), Seq::empty());
}

proof fn lemma_const_steps(g: Seq<EncView>, step: int, k: int)
    requires
        0 <= k < g.len(),
        forall|j: int| 1 <= j < g.len() ==> #[trigger] const_value(g[j]) - const_value(g[j - 1]) == step,
    ensures const_value(g[k]) == const_value(g[0]) + k * step,
    decreases k,
{
    if k > 0 {
        lemma_const_steps(g, step, k - 1);
        assert(const_value(g[k]) - const_value(g[k - 1]) == step);
        assert((k - 1) * step + step == k * step) by (nonlinear_arith);
    } else {
        assert(k * step == 0) by (nonlinear_arith) requires k == 0;
    }
}

proof fn lemma_start_steps(g: Seq<EncView>, ss: int, k: int)
    requires
        0 <= k < g.len(),
        forall|j: int| 1 <= j < g.len() ==> #[trigger] linear_pair(g[j]).0 - linear_pair(g[j - 1]).0 == ss,
    ensures linear_pair(g[k]).0 == linear_pair(g[0]).0 + k * ss,
    decreases k,
{
    if k > 0 {
        lemma_start_steps(g, ss, k - 1);
        assert(linear_pair(g[k]).0 - linear_pair(g[k - 1]).0 == ss);
        assert((k - 1) * ss + ss == k * ss) by (nonlinear_arith);
    } else {
        assert(k * ss == 0) by (nonlinear_arith) requires k == 0;
    }
}

/// A group formed from encodings that each reconstruct their track
/// reconstructs those tracks.
pub proof fn lemma_group_renders(g: MetaView, grp: Seq<EncView>, n: int, table: Seq<FloatTrack>, ts: Seq<Seq<u8>>)
    requires
        group_of(g, grp), grp.len() <= 65535, ts.len() == grp.len(),
        forall|k: int| 0 <= k < grp.len() ==> #[trigger] crate::analyzer::renders_to(grp[k].params, n, table, ts[k]),
        forall|k: int| 0 <= k < grp.len() ==> (#[trigger] grp[k]).pattern == crate::pattern::view_pattern(grp[k].params),
    ensures meta_renders(g, n, table, ts),
{
    let m = grp.len() as int;
    assert(g.indices.len() == m);
    if grp[0].pattern == PatternType::Const {
        let v0 = const_value(grp[0]);
        assert forall|k: int| 0 <= k < m implies #[trigger] grp[k].params == (ParamsView::Const { value: const_value(grp[k]) }) by {
            assert(grp[k].pattern == PatternType::Const);
            assert(crate::pattern::view_pattern(grp[k].params) == PatternType::Const);
            assert(crate::analyzer::renders_to(grp[k].params, n, table, ts[k]));
            match grp[k].params { ParamsView::Const { .. } => {}, _ => { assert(false); } }
        }
        if (forall|k: int| 0 <= k < m ==> #[trigger] const_value(grp[k]) == v0) && m * 4 > 7 + m * 2 + 1 {
            assert forall|k: int| 0 <= k < ts.len() implies #[trigger] crate::analyzer::renders_to(ParamsView::Const { value: v0 }, n, table, ts[k]) by {
                assert(grp[k].params == (ParamsView::Const { value: const_value(grp[k]) }));
                assert(crate::analyzer::renders_to(grp[k].params, n, table, ts[k]));
            }
        } else {
            let step = const_value(grp[1]) - v0;
            // not all the same, so the step is not zero and the values stay in a byte
            assert(step != 0) by {
                if step == 0 {
                    assert forall|k: int| 0 <= k < m implies #[trigger] const_value(grp[k]) == v0 by {
                        lemma_const_steps(grp, step, k);
                        assert(k * step == 0) by (nonlinear_arith) requires step == 0;
                    }
                }
            }
            assert forall|k: int| 0 <= k < m implies #[trigger] as_i16(k) == k && 0 <= v0 + k * step <= 255
                && const_value(grp[k]) == v0 + k * step by {
                lemma_const_steps(grp, step, k);
                assert(0 <= v0 + k * step <= 255);
                assert(k < 256) by (nonlinear_arith) requires step != 0, 0 <= v0 <= 255, 0 <= v0 + k * step <= 255, k >= 0;
            }
            assert forall|k: int| 0 <= k < m implies ts[k] == #[trigger] render_const(low_byte(v0 + as_i16(k) * step), n) by {
                assert(as_i16(k) == k);
                let c = const_value(grp[k]);
                crate::detect::lemma_low_byte_small(v0 + k * step);
                assert(grp[k].params == (ParamsView::Const { value: c }));
                assert(crate::analyzer::renders_to(grp[k].params, n, table, ts[k]));
            }
            assert forall|i: int| 0 <= i < m implies in_i16(#[trigger] (as_i16(i) * step)) && in_i16(v0 + as_i16(i) * step) by {
                assert(as_i16(i) == i);
                assert(-255 <= i * step <= 255);
            }
            assert(const_linear_fits(v0 as int, step as int, m));
        }
    } else if grp[0].pattern == PatternType::Linear {
        let p0 = linear_pair(grp[0]);
        assert forall|k: int| 0 <= k < m implies #[trigger] grp[k].params
            == (ParamsView::Linear { start: linear_pair(grp[k]).0, step: linear_pair(grp[k]).1 }) by {
            assert(grp[k].pattern == PatternType::Linear);
            assert(crate::pattern::view_pattern(grp[k].params) == PatternType::Linear);
            assert(crate::analyzer::renders_to(grp[k].params, n, table, ts[k]));
            match grp[k].params { ParamsView::Linear { .. } => {}, _ => { assert(false); } }
        }
        if (forall|k: int| 0 <= k < m ==> #[trigger] linear_pair(grp[k]) == p0) && 7 + m * 2 + 4 < m * 7 {
            assert forall|k: int| 0 <= k < ts.len() implies #[trigger] crate::analyzer::renders_to(
                ParamsView::Linear { start: p0.0, step: p0.1 }, n, table, ts[k]) by {
                assert(crate::analyzer::renders_to(grp[k].params, n, table, ts[k]));
            }
        } else {
            let ss = linear_pair(grp[1]).0 - p0.0;
            assert forall|k: int| 0 <= k < m implies #[trigger] ts[k] == render_linear(p0.0 + k * (ss as i16), p0.1 as int, n) by {
                lemma_start_steps(grp, ss, k);
                assert(crate::analyzer::renders_to(grp[k].params, n, table, ts[k]));
            }
        }
    } else {
        let first = grp[0].params;
        assert(params_equal(grp[1].params, first));
        assert forall|k: int| 0 <= k < m implies #[trigger] grp[k].params == first by {
            if k > 0 { assert(params_equal(grp[k].params, first)); }
        }
        assert forall|k: int| 0 <= k < ts.len() implies #[trigger] crate::analyzer::renders_to(first, n, table, ts[k]) by {
            assert(crate::analyzer::renders_to(grp[k].params, n, table, ts[k]));
        }
    }
}

/// Split `v` into the encodings of pattern tag `tag` and the others, each in order.
pub fn split_tag_pub(v: Vec<TrackEncoding>, tag: u8) -> (r: (Vec<TrackEncoding>, Vec<TrackEncoding>))
    ensures encs_view(r.0@) == by_tag(encs_view(v@), tag), encs_view(r.1@) == not_tag(encs_view(v@), tag),
{
    split_tag(v, tag)
}

/// Number of encodings of pattern tag `tag`.
pub fn count_tag(v: &Vec<TrackEncoding>, tag: u8) -> (r: usize)
    ensures r == by_tag(encs_view(v@), tag).len(),
{
    let mut c: usize = 0;
    let mut k: usize = 0;
    while k < v.len()
        invariant k <= v@.len(), c <= k, c == by_tag(encs_view(v@).subrange(0, k as int), tag).len(),
        decreases v.len() - k,
    {
        proof {
            assert(encs_view(v@).subrange(0, k + 1).drop_last() =~= encs_view(v@).subrange(0, k as int));
            assert(encs_view(v@).subrange(0, k + 1).last() == v@[k as int]@);
        }
        if v[k].pattern.tag() == tag {
            c += 1;
        }
        k += 1;
    }
    proof { assert(encs_view(v@).subrange(0, v.len() as int) =~= encs_view(v@)); }
    c
}

} // verus!
