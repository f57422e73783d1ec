//! Pattern types, track parameters and decoding errors.
use vstd::prelude::*;

verus! {

/// The kinds of function a track can be stored as; each has a one-byte tag
/// on the wire.
#[derive(Debug, Clone, Copy, PartialEq, Eq, Structural)]
pub enum PatternType {
    Const,
    Linear,
    Rle,
    Repeat,
    Delta,
    Periodic,
    Poly,
    Raw,
    RawCompressed,
    LinearWide,
    LinearF64,
    DeltaF64,
    XorMask,
    Sparse,
    PiecewiseLinear,
    Mirror,
    InterleavedLinear,
    Exponential,
    DeltaRle,
    BitPacked,
    DiffTable,
    ModArith,
    Fibonacci,
    DeltaWide,
}

/// Tag byte of the meta-group entries of a platter.
pub const META_TAG: u8 = 12;

/// The wire tag of each pattern type.
pub open spec fn spec_tag(p: PatternType) -> u8 {
    match p {
        PatternType::Const => 0,
        PatternType::Linear => 1,
        PatternType::Rle => 2,
        PatternType::Repeat => 3,
        PatternType::Delta => 4,
        PatternType::Periodic => 5,
        PatternType::Poly => 6,
        PatternType::Raw => 7,
        PatternType::RawCompressed => 8,
        PatternType::LinearWide => 9,
        PatternType::LinearF64 => 10,
        PatternType::DeltaF64 => 11,
        PatternType::XorMask => 13,
        PatternType::Sparse => 14,
        PatternType::PiecewiseLinear => 15,
        PatternType::Mirror => 16,
        PatternType::InterleavedLinear => 17,
        PatternType::Exponential => 18,
        PatternType::DeltaRle => 19,
        PatternType::BitPacked => 20,
        PatternType::DiffTable => 21,
        PatternType::ModArith => 22,
        PatternType::Fibonacci => 23,
        PatternType::DeltaWide => 24,
    }
}

/// The pattern type a tag byte names, if any: tags 0 to 24 except 12.
pub open spec fn spec_from_u8(v: u8) -> Option<PatternType> {
    if v == 0 { Some(PatternType::Const) }
    else if v == 1 { Some(PatternType::Linear) }
    else if v == 2 { Some(PatternType::Rle) }
    else if v == 3 { Some(PatternType::Repeat) }
    else if v == 4 { Some(PatternType::Delta) }
    else if v == 5 { Some(PatternType::Periodic) }
    else if v == 6 { Some(PatternType::Poly) }
    else if v == 7 { Some(PatternType::Raw) }
    else if v == 8 { Some(PatternType::RawCompressed) }
    else if v == 9 { Some(PatternType::LinearWide) }
    else if v == 10 { Some(PatternType::LinearF64) }
    else if v == 11 { Some(PatternType::DeltaF64) }
    else if v == 13 { Some(PatternType::XorMask) }
    else if v == 14 { Some(PatternType::Sparse) }
    else if v == 15 { Some(PatternType::PiecewiseLinear) }
    else if v == 16 { Some(PatternType::Mirror) }
    else if v == 17 { Some(PatternType::InterleavedLinear) }
    else if v == 18 { Some(PatternType::Exponential) }
    else if v == 19 { Some(PatternType::DeltaRle) }
    else if v == 20 { Some(PatternType::BitPacked) }
    else if v == 21 { Some(PatternType::DiffTable) }
    else if v == 22 { Some(PatternType::ModArith) }
    else if v == 23 { Some(PatternType::Fibonacci) }
    else if v == 24 { Some(PatternType::DeltaWide) }
    else { None }
}

/// Pattern types whose reconstruction is floating-point arithmetic.
pub open spec fn is_float_pattern(p: PatternType) -> bool {
    p == PatternType::Periodic || p == PatternType::Poly || p == PatternType::LinearF64
        || p == PatternType::DeltaF64 || p == PatternType::Exponential
}

impl PatternType {
    /// The pattern type a tag byte names.
    pub fn from_u8(v: u8) -> (r: Option<PatternType>)
        ensures r == spec_from_u8(v),
    {
        if v == 0 { Some(PatternType::Const) }
        else if v == 1 { Some(PatternType::Linear) }
        else if v == 2 { Some(PatternType::Rle) }
        else if v == 3 { Some(PatternType::Repeat) }
        else if v == 4 { Some(PatternType::Delta) }
        else if v == 5 { Some(PatternType::Periodic) }
        else if v == 6 { Some(PatternType::Poly) }
        else if v == 7 { Some(PatternType::Raw) }
        else if v == 8 { Some(PatternType::RawCompressed) }
        else if v == 9 { Some(PatternType::LinearWide) }
        else if v == 10 { Some(PatternType::LinearF64) }
        else if v == 11 { Some(PatternType::DeltaF64) }
        else if v == 13 { Some(PatternType::XorMask) }
        else if v == 14 { Some(PatternType::Sparse) }
        else if v == 15 { Some(PatternType::PiecewiseLinear) }
        else if v == 16 { Some(PatternType::Mirror) }
        else if v == 17 { Some(PatternType::InterleavedLinear) }
        else if v == 18 { Some(PatternType::Exponential) }
        else if v == 19 { Some(PatternType::DeltaRle) }
        else if v == 20 { Some(PatternType::BitPacked) }
        else if v == 21 { Some(PatternType::DiffTable) }
        else if v == 22 { Some(PatternType::ModArith) }
        else if v == 23 { Some(PatternType::Fibonacci) }
        else if v == 24 { Some(PatternType::DeltaWide) }
        else { None }
    }

    /// The tag byte of this pattern type.
    pub fn tag(&self) -> (r: u8)
        ensures r == spec_tag(*self),
    {
        match self {
            PatternType::Const => 0,
            PatternType::Linear => 1,
            PatternType::Rle => 2,
            PatternType::Repeat => 3,
            PatternType::Delta => 4,
            PatternType::Periodic => 5,
            PatternType::Poly => 6,
            PatternType::Raw => 7,
            PatternType::RawCompressed => 8,
            PatternType::LinearWide => 9,
            PatternType::LinearF64 => 10,
            PatternType::DeltaF64 => 11,
            PatternType::XorMask => 13,
            PatternType::Sparse => 14,
            PatternType::PiecewiseLinear => 15,
            PatternType::Mirror => 16,
            PatternType::InterleavedLinear => 17,
            PatternType::Exponential => 18,
            PatternType::DeltaRle => 19,
            PatternType::BitPacked => 20,
            PatternType::DiffTable => 21,
            PatternType::ModArith => 22,
            PatternType::Fibonacci => 23,
            PatternType::DeltaWide => 24,
        }
    }
}

/// Tag and name round-trip: every pattern type is named by its own tag.
pub proof fn lemma_tag_from_u8(p: PatternType)
    ensures spec_from_u8(spec_tag(p)) == Some(p), spec_tag(p) != META_TAG,
{
}

/// Parameters of one track, as stored on the wire. Parameters of the
/// floating-point patterns are kept as their wire payload bytes.
#[derive(Debug, Clone)]
pub enum TrackParams {
    Const { value: u8 },
    Linear { start: i16, step: i16 },
    Rle { runs: Vec<(u8, u8)> },
    Repeat { pattern: Vec<u8> },
    Delta { start: i16, deltas: Vec<i8> },
    Raw { data: Vec<u8> },
    RawCompressed { method: u8, data: Vec<u8> },
    LinearWide { width: u8, count: u16, start: i64, step: i64 },
    XorMask { mask: u8, inner_tag: u8, inner_params: Vec<u8> },
    Sparse { fill: u8, entries: Vec<(u16, u8)> },
    PiecewiseLinear { segments: Vec<(u16, i16, i16)> },
    Mirror { half: Vec<u8> },
    InterleavedLinear { count: u16, start_a: i16, step_a: i16, start_b: i16, step_b: i16 },
    DeltaRle { start: u8, runs: Vec<(i8, u8)> },
    BitPacked { bits: u8, packed: Vec<u8> },
    DiffTable { order: u8, initial: Vec<u8>, diff: i32 },
    ModArith { a: u16, b: u16, m: u16 },
    Fibonacci { seed0: u8, seed1: u8, c1: u8, c2: u8 },
    DeltaWide { width: u8, delta_width: u8, start: u32, deltas: Vec<u8> },
    /// Periodic, Poly, LinearF64, DeltaF64 or Exponential, with its payload.
    Float { pattern: PatternType, payload: Vec<u8> },
}

/// Track parameters as mathematical values.
pub enum ParamsView {
    Const { value: u8 },
    Linear { start: i16, step: i16 },
    Rle { runs: Seq<(u8, u8)> },
    Repeat { pattern: Seq<u8> },
    Delta { start: i16, deltas: Seq<i8> },
    Raw { data: Seq<u8> },
    RawCompressed { method: u8, data: Seq<u8> },
    LinearWide { width: u8, count: u16, start: i64, step: i64 },
    XorMask { mask: u8, inner_tag: u8, inner_params: Seq<u8> },
    Sparse { fill: u8, entries: Seq<(u16, u8)> },
    PiecewiseLinear { segments: Seq<(u16, i16, i16)> },
    Mirror { half: Seq<u8> },
    InterleavedLinear { count: u16, start_a: i16, step_a: i16, start_b: i16, step_b: i16 },
    DeltaRle { start: u8, runs: Seq<(i8, u8)> },
    BitPacked { bits: u8, packed: Seq<u8> },
    DiffTable { order: u8, initial: Seq<u8>, diff: i32 },
    ModArith { a: u16, b: u16, m: u16 },
    Fibonacci { seed0: u8, seed1: u8, c1: u8, c2: u8 },
    DeltaWide { width: u8, delta_width: u8, start: u32, deltas: Seq<u8> },
    Float { pattern: PatternType, payload: Seq<u8> },
}

impl View for TrackParams {
    type V = ParamsView;

    open spec fn view(&self) -> ParamsView {
        match self {
            TrackParams::Const { value } => ParamsView::Const { value: *value },
            TrackParams::Linear { start, step } => ParamsView::Linear { start: *start, step: *step },
            TrackParams::Rle { runs } => ParamsView::Rle { runs: runs@ },
            TrackParams::Repeat { pattern } => ParamsView::Repeat { pattern: pattern@ },
            TrackParams::Delta { start, deltas } => ParamsView::Delta { start: *start, deltas: deltas@ },
            TrackParams::Raw { data } => ParamsView::Raw { data: data@ },
            TrackParams::RawCompressed { method, data } => ParamsView::RawCompressed { method: *method, data: data@ },
            TrackParams::LinearWide { width, count, start, step } =>
                ParamsView::LinearWide { width: *width, count: *count, start: *start, step: *step },
            TrackParams::XorMask { mask, inner_tag, inner_params } =>
                ParamsView::XorMask { mask: *mask, inner_tag: *inner_tag, inner_params: inner_params@ },
            TrackParams::Sparse { fill, entries } => ParamsView::Sparse { fill: *fill, entries: entries@ },
            TrackParams::PiecewiseLinear { segments } => ParamsView::PiecewiseLinear { segments: segments@ },
            TrackParams::Mirror { half } => ParamsView::Mirror { half: half@ },
            TrackParams::InterleavedLinear { count, start_a, step_a, start_b, step_b } =>
                ParamsView::InterleavedLinear { count: *count, start_a: *start_a, step_a: *step_a, start_b: *start_b, step_b: *step_b },
            TrackParams::DeltaRle { start, runs } => ParamsView::DeltaRle { start: *start, runs: runs@ },
            TrackParams::BitPacked { bits, packed } => ParamsView::BitPacked { bits: *bits, packed: packed@ },
            TrackParams::DiffTable { order, initial, diff } => ParamsView::DiffTable { order: *order, initial: initial@, diff: *diff },
            TrackParams::ModArith { a, b, m } => ParamsView::ModArith { a: *a, b: *b, m: *m },
            TrackParams::Fibonacci { seed0, seed1, c1, c2 } =>
                ParamsView::Fibonacci { seed0: *seed0, seed1: *seed1, c1: *c1, c2: *c2 },
            TrackParams::DeltaWide { width, delta_width, start, deltas } =>
                ParamsView::DeltaWide { width: *width, delta_width: *delta_width, start: *start, deltas: deltas@ },
            TrackParams::Float { pattern, payload } => ParamsView::Float { pattern: *pattern, payload: payload@ },
        }
    }
}

/// The pattern type that each kind of parameters is stored under.
pub open spec fn view_pattern(p: ParamsView) -> PatternType {
    match p {
        ParamsView::Const { .. } => PatternType::Const,
        ParamsView::Linear { .. } => PatternType::Linear,
        ParamsView::Rle { .. } => PatternType::Rle,
        ParamsView::Repeat { .. } => PatternType::Repeat,
        ParamsView::Delta { .. } => PatternType::Delta,
        ParamsView::Raw { .. } => PatternType::Raw,
        ParamsView::RawCompressed { .. } => PatternType::RawCompressed,
        ParamsView::LinearWide { .. } => PatternType::LinearWide,
        ParamsView::XorMask { .. } => PatternType::XorMask,
        ParamsView::Sparse { .. } => PatternType::Sparse,
        ParamsView::PiecewiseLinear { .. } => PatternType::PiecewiseLinear,
        ParamsView::Mirror { .. } => PatternType::Mirror,
        ParamsView::InterleavedLinear { .. } => PatternType::InterleavedLinear,
        ParamsView::DeltaRle { .. } => PatternType::DeltaRle,
        ParamsView::BitPacked { .. } => PatternType::BitPacked,
        ParamsView::DiffTable { .. } => PatternType::DiffTable,
        ParamsView::ModArith { .. } => PatternType::ModArith,
        ParamsView::Fibonacci { .. } => PatternType::Fibonacci,
        ParamsView::DeltaWide { .. } => PatternType::DeltaWide,
        ParamsView::Float { pattern, .. } => pattern,
    }
}

/// One analysed track: its pattern, parameters and index in the layout.
#[derive(Debug, Clone)]
pub struct TrackEncoding {
    pub pattern: PatternType,
    pub params: TrackParams,
    pub track_idx: u16,
}

/// An analysed track as mathematical values.
pub struct EncView {
    pub pattern: PatternType,
    pub params: ParamsView,
    pub idx: u16,
}

impl View for TrackEncoding {
    type V = EncView;

    open spec fn view(&self) -> EncView {
        EncView { pattern: self.pattern, params: self.params@, idx: self.track_idx }
    }
}

/// A list of analysed tracks as mathematical values.
pub open spec fn encs_view(s: Seq<TrackEncoding>) -> Seq<EncView> {
    Seq::new(s.len(), |i: int| s[i]@)
}

/// Why decoding refused its input.
#[derive(Debug, Clone, Copy, PartialEq, Eq, Structural)]
pub enum DecodeError {
    TooShort,
    BadMagic,
    TruncatedPlatterHeader,
    TruncatedEntry,
    TruncatedTrackHeader,
    UnknownTag(u8),
    UnsupportedXorInner(u8),
    UnknownRawMethod(u8),
    RawDecompress(u8),
    MissingTrack(usize),
    BadInnerType,
    UnknownMetaSubTag(u8, u8),
    BadStreamingMagic,
    UnsupportedVersion(u8),
    TruncatedChunkHeader,
    TruncatedChunkData,
    /// a floating-point track (tag, offset and length of its parameters,
    /// bytes per track) that the table does not render
    FloatTrackNotRendered(u8, usize, usize, usize),
    TooShortEncrypted,
    BadEncryptedMagic,
    BadPatternTag,
}

/// A floating-point track: the bytes that the parameters `payload` of
/// pattern `tag` reconstruct to, at `sectors` bytes per track.
#[derive(Debug, Clone)]
pub struct FloatTrack {
    pub tag: u8,
    pub payload: Vec<u8>,
    pub sectors: usize,
    pub rendered: Vec<u8>,
}

/// The floating-point tracks known to the codec. The floating-point
/// detectors and reconstructions fill it; the codec reads it.
#[derive(Debug, Clone)]
pub struct FloatTable {
    pub entries: Vec<FloatTrack>,
}

/// Spec view of one entry.
pub open spec fn float_entry_matches(e: FloatTrack, tag: u8, payload: Seq<u8>, sectors: int) -> bool {
    e.tag == tag && e.payload@ == payload && e.sectors == sectors
}

/// The rendering of `(tag, payload)` at `sectors` bytes per track that the
/// table holds: that of its first matching entry.
pub open spec fn spec_float_lookup(t: Seq<FloatTrack>, tag: u8, payload: Seq<u8>, sectors: int) -> Option<Seq<u8>>
    decreases t.len(),
{
    if t.len() == 0 {
        None
    } else if float_entry_matches(t[0], tag, payload, sectors) {
        Some(t[0].rendered@)
    } else {
        spec_float_lookup(t.drop_first(), tag, payload, sectors)
    }
}

/// The payload of the first entry of pattern `tag` that renders, at its own
/// length, to `track`.
pub open spec fn spec_float_find(t: Seq<FloatTrack>, tag: u8, track: Seq<u8>) -> Option<Seq<u8>>
    decreases t.len(),
{
    if t.len() == 0 {
        None
    } else if t[0].tag == tag && t[0].sectors == track.len() && t[0].rendered@ == track {
        Some(t[0].payload@)
    } else {
        spec_float_find(t.drop_first(), tag, track)
    }
}

/// Tags of the floating-point patterns.
pub open spec fn is_float_tag(tag: u8) -> bool {
    tag == 5 || tag == 6 || tag == 10 || tag == 11 || tag == 18
}

/// A table the codec can rely on: each entry is of a floating-point
/// pattern, its payload has the length its own header gives, and entries
/// that agree on pattern, payload and track length agree on the bytes.
pub open spec fn float_table_ok(t: Seq<FloatTrack>) -> bool {
    &&& forall|i: int| 0 <= i < t.len() ==> #[trigger] is_float_tag(t[i].tag)
        && crate::wire::float_payload_len(t[i].payload@, 0, spec_from_u8(t[i].tag)->0) == Some(t[i].payload@.len() as int)
    &&& forall|i: int, j: int| 0 <= i < t.len() && 0 <= j < t.len() && t[i].tag == t[j].tag
        && t[i].payload@ == t[j].payload@ && t[i].sectors == t[j].sectors
        ==> #[trigger] t[i].rendered@ == #[trigger] t[j].rendered@
}

/// Entry `e` is of a floating-point pattern and its payload has the length
/// its own header gives.
fn float_entry_ok(e: &FloatTrack) -> (r: bool)
    ensures r == (is_float_tag(e.tag)
        && crate::wire::float_payload_len(e.payload@, 0, spec_from_u8(e.tag)->0) == Some(e.payload@.len() as int)),
{
    let n = e.payload.len();
    let p = e.payload.as_slice();
    if e.tag == 5 {
        if n < 2 { return false; }
        let k = crate::bytes::read_u16(p, 0) as usize;
        n == 4 + 18 * k
    } else if e.tag == 6 {
        if n < 1 { return false; }
        n == 1 + 8 * (p[0] as usize + 1)
    } else if e.tag == 10 {
        n == 18
    } else if e.tag == 11 {
        if n < 2 { return false; }
        let k = crate::bytes::read_u16(p, 0) as usize;
        k > 0 && n == 10 + 4 * (k - 1)
    } else if e.tag == 18 {
        n == 10
    } else {
        false
    }
}

impl FloatTable {
    /// Whether the codec can rely on this table (`float_table_ok`): every
    /// entry of a floating-point pattern with a payload of the length its
    /// header gives, and entries that agree on pattern, payload and track
    /// length agreeing on the bytes.
    pub fn is_ok(&self) -> (r: bool)
        ensures r == float_table_ok(self.entries@),
    {
        let t = &self.entries;
        let n = t.len();
        let mut i: usize = 0;
        while i < n
            invariant i <= n, n == t@.len(), t@ == self.entries@,
                forall|k: int| #![trigger t@[k]] 0 <= k < i ==> is_float_tag(t@[k].tag)
                    && crate::wire::float_payload_len(t@[k].payload@, 0, spec_from_u8(t@[k].tag)->0) == Some(t@[k].payload@.len() as int),
            decreases n - i,
        {
            let ok = float_entry_ok(&t[i]);
            if !ok {
                proof {
                    let e = self.entries@;
                    assert(t@ == e);
                    assert(!(is_float_tag(e[i as int].tag) && crate::wire::float_payload_len(e[i as int].payload@, 0,
                        spec_from_u8(e[i as int].tag)->0) == Some(e[i as int].payload@.len() as int)));
                    assert(!float_table_ok(e));
                }
                return false;
            }
            proof {
                assert(is_float_tag(t@[i as int].tag) && crate::wire::float_payload_len(t@[i as int].payload@, 0,
                    spec_from_u8(t@[i as int].tag)->0) == Some(t@[i as int].payload@.len() as int));
            }
            i += 1;
        }
        let mut a: usize = 0;
        while a < n
            invariant a <= n, n == t@.len(), t@ == self.entries@,
                forall|k: int| #![trigger t@[k]] 0 <= k < n ==> is_float_tag(t@[k].tag)
                    && crate::wire::float_payload_len(t@[k].payload@, 0, spec_from_u8(t@[k].tag)->0) == Some(t@[k].payload@.len() as int),
                forall|x: int, y: int| 0 <= x < a && 0 <= y < n && t@[x].tag == t@[y].tag
                    && t@[x].payload@ == t@[y].payload@ && t@[x].sectors == t@[y].sectors
                    ==> #[trigger] t@[x].rendered@ == #[trigger] t@[y].rendered@,
            decreases n - a,
        {
            let mut b: usize = 0;
            while b < n
                invariant a < n, b <= n, n == t@.len(), t@ == self.entries@,
                    forall|k: int| #![trigger t@[k]] 0 <= k < n ==> is_float_tag(t@[k].tag)
                        && crate::wire::float_payload_len(t@[k].payload@, 0, spec_from_u8(t@[k].tag)->0) == Some(t@[k].payload@.len() as int),
                    forall|x: int, y: int| 0 <= x < a && 0 <= y < n && t@[x].tag == t@[y].tag
                        && t@[x].payload@ == t@[y].payload@ && t@[x].sectors == t@[y].sectors
                        ==> #[trigger] t@[x].rendered@ == #[trigger] t@[y].rendered@,
                    forall|y: int| 0 <= y < b && t@[a as int].tag == t@[y].tag
                        && t@[a as int].payload@ == t@[y].payload@ && t@[a as int].sectors == t@[y].sectors
                        ==> t@[a as int].rendered@ == #[trigger] t@[y].rendered@,
                decreases n - b,
            {
                let same = t[a].tag == t[b].tag && t[a].sectors == t[b].sectors
                    && crate::bytes::bytes_equal(t[a].payload.as_slice(), t[b].payload.as_slice());
                if same && !crate::bytes::bytes_equal(t[a].rendered.as_slice(), t[b].rendered.as_slice()) {
                    proof {
                        let e = self.entries@;
                        assert(t@ == e);
                        assert(e[a as int].tag == e[b as int].tag && e[a as int].payload@ == e[b as int].payload@
                            && e[a as int].sectors == e[b as int].sectors && e[a as int].rendered@ != e[b as int].rendered@);
                        assert(!float_table_ok(e));
                    }
                    return false;
                }
                b += 1;
            }
            a += 1;
        }
        true
    }

    /// An empty table.
    pub fn new() -> (t: FloatTable)
        ensures t.entries@.len() == 0,
    {
        FloatTable { entries: Vec::new() }
    }

    /// Add an entry at the end.
    pub fn push(&mut self, tag: u8, payload: Vec<u8>, sectors: usize, rendered: Vec<u8>)
        ensures final(self).entries@ == old(self).entries@.push(FloatTrack { tag, payload, sectors, rendered }),
    {
        self.entries.push(FloatTrack { tag, payload, sectors, rendered });
    }

    /// The payload of the first entry of pattern `tag` that renders to `track`.
    pub fn find(&self, tag: u8, track: &[u8]) -> (r: Option<Vec<u8>>)
        ensures
            r is Some <==> spec_float_find(self.entries@, tag, track@) is Some,
            r matches Some(v) ==> v@ == spec_float_find(self.entries@, tag, track@)->0,
    {
        let mut i: usize = 0;
        proof { assert(self.entries@.skip(0) =~= self.entries@); }
        while i < self.entries.len()
            invariant
                i <= self.entries@.len(),
                spec_float_find(self.entries@, tag, track@) == spec_float_find(self.entries@.skip(i as int), tag, track@),
            decreases self.entries.len() - i,
        {
            let e = &self.entries[i];
            proof {
                assert(self.entries@.skip(i as int)[0] == self.entries@[i as int]);
                assert(self.entries@.skip(i as int).drop_first() =~= self.entries@.skip(i + 1));
            }
            if e.tag == tag && e.sectors == track.len() && crate::bytes::bytes_equal(e.rendered.as_slice(), track) {
                return Some(crate::bytes::copy_bytes(e.payload.as_slice()));
            }
            i += 1;
        }
        None
    }

    /// The bytes that `(tag, payload)` renders to at `sectors` bytes per track.
    pub fn lookup(&self, tag: u8, payload: &[u8], sectors: usize) -> (r: Option<Vec<u8>>)
        ensures
            r is Some <==> spec_float_lookup(self.entries@, tag, payload@, sectors as int) is Some,
            r matches Some(v) ==> v@ == spec_float_lookup(self.entries@, tag, payload@, sectors as int)->0,
    {
        let mut i: usize = 0;
        proof { assert(self.entries@.skip(0) =~= self.entries@); }
        while i < self.entries.len()
            invariant
                i <= self.entries@.len(),
                spec_float_lookup(self.entries@, tag, payload@, sectors as int)
                    == spec_float_lookup(self.entries@.skip(i as int), tag, payload@, sectors as int),
            decreases self.entries.len() - i,
        {
            let e = &self.entries[i];
            proof {
                assert(self.entries@.skip(i as int)[0] == self.entries@[i as int]);
                assert(self.entries@.skip(i as int).drop_first() =~= self.entries@.skip(i + 1));
            }
            if e.tag == tag && e.sectors == sectors && crate::bytes::bytes_equal(e.payload.as_slice(), payload) {
                return Some(crate::bytes::copy_bytes(e.rendered.as_slice()));
            }
            i += 1;
        }
        None
    }
}

} // verus!
