//! Image (PLTI) container: grayscale images of 8 or 16 bits per pixel,
//! one row per track. Lossless images hold a PLTZ container of the pixels;
//! lossy images hold a function per row (or per group of identical rows),
//! fitted within the quality bound by floating-point code outside this
//! library.
use vstd::prelude::*;
use crate::bytes::{le16, le32, u16_bytes, u32_bytes, push_u16, push_u32, push_bytes, read_u16, read_u32, copy_range,
    copy_bytes, bytes_equal};
use crate::codec::{encode, encode_result, encode_ok, decode, spec_decode, lemma_encode_result_decodes};
use crate::pattern::{DecodeError, FloatTable, FloatTrack, float_table_ok};
use crate::raw::RawCompressor;

verus! {

/// Image settings: size in pixels, bits per pixel (8 or 16), and the
/// largest error allowed per pixel (0 for lossless).
#[derive(Debug, Clone, Copy, PartialEq, Eq, Structural)]
pub struct ImageParams {
    pub width: u16,
    pub height: u16,
    pub bit_depth: u8,
    pub quality: u8,
}

/// A row stored as a function: its tag (0 constant, 1 linear, 2 quadratic,
/// 3 cubic, 7 raw) and its parameters.
pub struct LossyEncoding {
    pub tag: u8,
    pub params: Vec<u8>,
}

/// A row's encoding with the row's number.
pub struct RowEncoding {
    pub row_idx: u16,
    pub enc: LossyEncoding,
}

/// Rows that share one encoding.
pub struct RowMetaGroup {
    pub pattern_tag: u8,
    pub row_indices: Vec<u16>,
    pub params: Vec<u8>,
}

/// A row encoding as values: row, tag, parameters.
pub struct RowView {
    pub row: u16,
    pub tag: u8,
    pub params: Seq<u8>,
}

impl View for RowEncoding {
    type V = RowView;

    open spec fn view(&self) -> RowView {
        RowView { row: self.row_idx, tag: self.enc.tag, params: self.enc.params@ }
    }
}

/// The row encodings as values.
pub open spec fn rows_view(rs: Seq<RowEncoding>) -> Seq<RowView> {
    rs.map_values(|r: RowEncoding| r@)
}

/// Bytes per row.
pub open spec fn row_len(p: ImageParams) -> int {
    p.width * (p.bit_depth / 8)
}

/// The 16-byte PLTI header.
pub open spec fn plti_header(len: u32, p: ImageParams, quality: u8) -> Seq<u8> {
    seq![0x50u8, 0x4Cu8, 0x54u8, 0x49u8] + u32_bytes(len) + u16_bytes(p.width) + u16_bytes(p.height)
        + seq![p.bit_depth, quality, 0u8, 0u8]
}

// ---------------------------------------------------------------- grouping rows

/// How many of `rs` store `(tag, params)`.
pub open spec fn key_count(rs: Seq<RowView>, tag: u8, params: Seq<u8>) -> nat
    decreases rs.len(),
{
    if rs.len() == 0 { 0 } else {
        key_count(rs.drop_last(), tag, params) + (if rs.last().tag == tag && rs.last().params == params { 1nat } else { 0nat })
    }
}

/// The rows of `rs` that store `(tag, params)`, in order.
pub open spec fn rows_with(rs: Seq<RowView>, tag: u8, params: Seq<u8>) -> Seq<u16>
    decreases rs.len(),
{
    if rs.len() == 0 { Seq::empty() } else {
        let prev = rows_with(rs.drop_last(), tag, params);
        if rs.last().tag == tag && rs.last().params == params { prev.push(rs.last().row) } else { prev }
    }
}

/// The rows of `rs` whose encoding fewer than four rows share, in order.
pub open spec fn lone_rows(all: Seq<RowView>, rs: Seq<RowView>) -> Seq<RowView>
    decreases rs.len(),
{
    if rs.len() == 0 { Seq::empty() } else {
        let prev = lone_rows(all, rs.drop_last());
        if key_count(all, rs.last().tag, rs.last().params) < 4 { prev.push(rs.last()) } else { prev }
    }
}

/// `groups` gathers the encodings that four or more rows of `rs` share:
/// one group per such encoding, each with all its rows in order.
pub open spec fn grouped(rs: Seq<RowView>, groups: Seq<RowMetaGroup>) -> bool {
    &&& forall|g: int| 0 <= g < groups.len() ==> {
        let gr = #[trigger] groups[g];
        &&& key_count(rs, gr.pattern_tag, gr.params@) >= 4
        &&& gr.row_indices@ == rows_with(rs, gr.pattern_tag, gr.params@)
    }
    &&& forall|a: int, b: int| 0 <= a < b < groups.len() ==>
        !((#[trigger] groups[a]).pattern_tag == (#[trigger] groups[b]).pattern_tag && groups[a].params@ == groups[b].params@)
    &&& forall|i: int| 0 <= i < rs.len() && key_count(rs, (#[trigger] rs[i]).tag, rs[i].params) >= 4 ==>
        exists|g: int| 0 <= g < groups.len() && groups[g].pattern_tag == rs[i].tag && groups[g].params@ == rs[i].params
}

proof fn lemma_key_count_pos(rs: Seq<RowView>, i: int)
    requires 0 <= i < rs.len(),
    ensures key_count(rs, rs[i].tag, rs[i].params) >= 1,
    decreases rs.len(),
{
    if i < rs.len() - 1 {
        lemma_key_count_pos(rs.drop_last(), i);
    }
}

proof fn lemma_absent_key(rs: Seq<RowView>, tag: u8, params: Seq<u8>)
    requires forall|j: int| 0 <= j < rs.len() ==> !((#[trigger] rs[j]).tag == tag && rs[j].params == params),
    ensures key_count(rs, tag, params) == 0, rows_with(rs, tag, params) == Seq::<u16>::empty(),
    decreases rs.len(),
{
    if rs.len() > 0 {
        assert forall|j: int| 0 <= j < rs.drop_last().len() implies !((#[trigger] rs.drop_last()[j]).tag == tag
            && rs.drop_last()[j].params == params) by {
            assert(rs.drop_last()[j] == rs[j]);
        }
        lemma_absent_key(rs.drop_last(), tag, params);
        assert(!(rs[rs.len() - 1].tag == tag && rs[rs.len() - 1].params == params));
    }
}

fn copy_u16s(v: &Vec<u16>) -> (c: Vec<u16>)
    ensures c@ == v@,
{
    let mut c: Vec<u16> = Vec::new();
    let mut i: usize = 0;
    while i < v.len()
        invariant i <= v@.len(), c@ =~= v@.take(i as int),
        decreases v.len() - i,
    {
        c.push(v[i]);
        i += 1;
    }
    proof { assert(v@.take(v@.len() as int) =~= v@); }
    c
}

fn copy_row(r: &RowEncoding) -> (c: RowEncoding)
    ensures c@ == r@,
{
    RowEncoding { row_idx: r.row_idx, enc: LossyEncoding { tag: r.enc.tag, params: copy_bytes(r.enc.params.as_slice()) } }
}

/// Group rows that store the same encoding: an encoding that four or more
/// rows share becomes a group; the other rows stay on their own, in
/// order. Groups come in order of their encoding's first row.
pub fn cross_row_optimize(encodings: &Vec<RowEncoding>) -> (r: (Vec<RowMetaGroup>, Vec<RowEncoding>))
    ensures
        grouped(rows_view(encodings@), r.0@),
        rows_view(r.1@) == lone_rows(rows_view(encodings@), rows_view(encodings@)),
{
    let ghost rs = rows_view(encodings@);
    let n = encodings.len();
    // every distinct encoding with its rows
    let mut groups: Vec<RowMetaGroup> = Vec::new();
    let ghost mut gid: Seq<int> = Seq::empty();
    let mut i: usize = 0;
    while i < n
        invariant
            i <= n, n == encodings@.len(), rs == rows_view(encodings@),
            forall|g: int| 0 <= g < groups@.len() ==> {
                let gr = #[trigger] groups@[g];
                &&& gr.row_indices@ == rows_with(rs.take(i as int), gr.pattern_tag, gr.params@)
                &&& gr.row_indices@.len() == key_count(rs.take(i as int), gr.pattern_tag, gr.params@)
            },
            forall|a: int, b: int| 0 <= a < b < groups@.len() ==>
                !((#[trigger] groups@[a]).pattern_tag == (#[trigger] groups@[b]).pattern_tag && groups@[a].params@ == groups@[b].params@),
            gid.len() == i,
            forall|j: int| 0 <= j < i ==> 0 <= #[trigger] gid[j] < groups@.len()
                && groups@[gid[j]].pattern_tag == rs[j].tag && groups@[gid[j]].params@ == rs[j].params,
        decreases n - i,
    {
        let e = &encodings[i];
        proof {
            assert(rs[i as int] == e@);
            assert(rs.take(i + 1).drop_last() =~= rs.take(i as int));
            assert(rs.take(i + 1).last() == e@);
        }
        let mut g: usize = 0;
        let mut at: usize = groups.len();
        while g < groups.len()
            invariant_except_break
                at == groups@.len(),
            invariant
                g <= groups@.len(),
                forall|q: int| 0 <= q < g ==> !(groups@[q].pattern_tag == e.enc.tag && groups@[q].params@ == e.enc.params@),
            ensures
                (at < groups@.len() && groups@[at as int].pattern_tag == e.enc.tag && groups@[at as int].params@ == e.enc.params@)
                || (at == groups@.len() && forall|q: int| 0 <= q < groups@.len()
                    ==> !(groups@[q].pattern_tag == e.enc.tag && groups@[q].params@ == e.enc.params@)),
            decreases groups.len() - g,
        {
            if groups[g].pattern_tag == e.enc.tag && bytes_equal(groups[g].params.as_slice(), e.enc.params.as_slice()) {
                at = g;
                break;
            }
            g += 1;
        }
        let ghost before = groups@;
        if at < groups.len() {
            let mut gr = groups.remove(at);
            gr.row_indices.push(e.row_idx);
            groups.insert(at, gr);
        } else {
            let mut idx: Vec<u16> = Vec::new();
            idx.push(e.row_idx);
            groups.push(RowMetaGroup { pattern_tag: e.enc.tag, row_indices: idx, params: copy_bytes(e.enc.params.as_slice()) });
        }
        proof {
            assert forall|q: int| 0 <= q < groups@.len() implies {
                let gr = #[trigger] groups@[q];
                &&& gr.row_indices@ == rows_with(rs.take(i + 1), gr.pattern_tag, gr.params@)
                &&& gr.row_indices@.len() == key_count(rs.take(i + 1), gr.pattern_tag, gr.params@)
            } by {
                if q < before.len() && q != at as int {
                    assert(groups@[q] == before[q]);
                }
                if q == before.len() && at == before.len() {
                    assert forall|t: int| 0 <= t < rs.take(i as int).len() implies
                        !((#[trigger] rs.take(i as int)[t]).tag == e.enc.tag && rs.take(i as int)[t].params == e.enc.params@) by {
                        assert(rs.take(i as int)[t] == rs[t]);
                        assert(before[gid[t]].pattern_tag == rs[t].tag);
                    }
                    lemma_absent_key(rs.take(i as int), e.enc.tag, e.enc.params@);
                }
            }
            assert forall|a: int, b: int| 0 <= a < b < groups@.len() implies
                !((#[trigger] groups@[a]).pattern_tag == (#[trigger] groups@[b]).pattern_tag && groups@[a].params@ == groups@[b].params@) by {
                if a < before.len() && a != at as int { assert(groups@[a] == before[a]); }
                if b < before.len() && b != at as int { assert(groups@[b] == before[b]); }
            }
            let ghost new_g: int = if at < before.len() { at as int } else { before.len() as int };
            assert(groups@[new_g].pattern_tag == e.enc.tag && groups@[new_g].params@ == e.enc.params@);
            let ghost old_gid = gid;
            gid = gid.push(new_g);
            assert forall|j: int| 0 <= j < i + 1 implies 0 <= #[trigger] gid[j] < groups@.len()
                && groups@[gid[j]].pattern_tag == rs[j].tag && groups@[gid[j]].params@ == rs[j].params by {
                if j < i {
                    assert(gid[j] == old_gid[j]);
                    if old_gid[j] != at as int { assert(groups@[old_gid[j]] == before[old_gid[j]]); }
                }
            }
        }
        i += 1;
    }
    proof {
        assert(rs.take(n as int) =~= rs);
        assert(rs.len() == n as int);
        assert(i == n);
    }
    // keep the groups of four or more rows
    let mut metas: Vec<RowMetaGroup> = Vec::new();
    let ghost mut src: Seq<int> = Seq::empty();
    let mut k: usize = 0;
    while k < groups.len()
        invariant
            k <= groups@.len(), rs == rows_view(encodings@),
            forall|g: int| 0 <= g < groups@.len() ==> {
                let gr = #[trigger] groups@[g];
                &&& gr.row_indices@ == rows_with(rs, gr.pattern_tag, gr.params@)
                &&& gr.row_indices@.len() == key_count(rs, gr.pattern_tag, gr.params@)
            },
            forall|a: int, b: int| 0 <= a < b < groups@.len() ==>
                !((#[trigger] groups@[a]).pattern_tag == (#[trigger] groups@[b]).pattern_tag && groups@[a].params@ == groups@[b].params@),
            src.len() == metas@.len(),
            forall|m: int| 0 <= m < metas@.len() ==> 0 <= #[trigger] src[m] < k
                && metas@[m].pattern_tag == groups@[src[m]].pattern_tag && metas@[m].params@ == groups@[src[m]].params@
                && metas@[m].row_indices@ == groups@[src[m]].row_indices@ && metas@[m].row_indices@.len() >= 4,
            forall|a: int, b: int| 0 <= a < b < src.len() ==> #[trigger] src[a] < #[trigger] src[b],
            forall|g: int| 0 <= g < k && (#[trigger] groups@[g]).row_indices@.len() >= 4 ==>
                exists|m: int| 0 <= m < metas@.len() && src[m] == g,
            gid.len() == rs.len(),
            forall|j: int| 0 <= j < rs.len() ==> 0 <= #[trigger] gid[j] < groups@.len()
                && groups@[gid[j]].pattern_tag == rs[j].tag && groups@[gid[j]].params@ == rs[j].params,
        decreases groups.len() - k,
    {
        if groups[k].row_indices.len() >= 4 {
            let gr = RowMetaGroup {
                pattern_tag: groups[k].pattern_tag,
                row_indices: copy_u16s(&groups[k].row_indices),
                params: copy_bytes(groups[k].params.as_slice()),
            };
            let ghost before = metas@;
            metas.push(gr);
            proof {
                let ghost old_src = src;
                src = src.push(k as int);
                assert forall|m: int| 0 <= m < metas@.len() - 1 implies metas@[m] == before[m] by {}
                assert forall|g: int| 0 <= g < k + 1 && (#[trigger] groups@[g]).row_indices@.len() >= 4 implies
                    exists|m: int| 0 <= m < metas@.len() && src[m] == g by {
                    if g == k as int {
                        assert(src[src.len() - 1] == g);
                    } else {
                        let m0 = choose|m: int| 0 <= m < old_src.len() && old_src[m] == g;
                        assert(src[m0] == g);
                    }
                }
            }
        }
        k += 1;
    }
    proof {
        assert forall|m: int| 0 <= m < metas@.len() implies {
            let gr = #[trigger] metas@[m];
            &&& key_count(rs, gr.pattern_tag, gr.params@) >= 4
            &&& gr.row_indices@ == rows_with(rs, gr.pattern_tag, gr.params@)
        } by {
            assert(groups@[src[m]].row_indices@.len() == key_count(rs, groups@[src[m]].pattern_tag, groups@[src[m]].params@));
        }
        assert forall|a: int, b: int| 0 <= a < b < metas@.len() implies
            !((#[trigger] metas@[a]).pattern_tag == (#[trigger] metas@[b]).pattern_tag && metas@[a].params@ == metas@[b].params@) by {
            assert(src[a] < src[b]);
        }
        assert forall|i2: int| 0 <= i2 < rs.len() && key_count(rs, (#[trigger] rs[i2]).tag, rs[i2].params) >= 4 implies
            exists|g: int| 0 <= g < metas@.len() && metas@[g].pattern_tag == rs[i2].tag && metas@[g].params@ == rs[i2].params by {
            let g0 = gid[i2];
            assert(groups@[g0].row_indices@.len() >= 4);
            let m0 = choose|m: int| 0 <= m < metas@.len() && src[m] == g0;
            assert(metas@[m0].pattern_tag == rs[i2].tag);
        }
        assert(grouped(rs, metas@));
    }
    // the rows left on their own
    let mut lone: Vec<RowEncoding> = Vec::new();
    let mut j: usize = 0;
    proof { assert(rows_view(lone@) =~= lone_rows(rs, rs.take(0))); }
    while j < n
        invariant
            j <= n, n == encodings@.len(), rs == rows_view(encodings@),
            forall|g: int| 0 <= g < groups@.len() ==> {
                let gr = #[trigger] groups@[g];
                &&& gr.row_indices@ == rows_with(rs, gr.pattern_tag, gr.params@)
                &&& gr.row_indices@.len() == key_count(rs, gr.pattern_tag, gr.params@)
            },
            gid.len() == rs.len(),
            forall|q: int| 0 <= q < rs.len() ==> 0 <= #[trigger] gid[q] < groups@.len()
                && groups@[gid[q]].pattern_tag == rs[q].tag && groups@[gid[q]].params@ == rs[q].params,
            forall|a: int, b: int| 0 <= a < b < groups@.len() ==>
                !((#[trigger] groups@[a]).pattern_tag == (#[trigger] groups@[b]).pattern_tag && groups@[a].params@ == groups@[b].params@),
            rows_view(lone@) == lone_rows(rs, rs.take(j as int)),
        decreases n - j,
    {
        let e = &encodings[j];
        proof {
            assert(rs[j as int] == e@);
            assert(rs.take(j + 1).drop_last() =~= rs.take(j as int));
        }
        // the size of this row's group
        let mut g: usize = 0;
        let mut count: usize = 0;
        while g < groups.len()
            invariant_except_break
                count == 0,
            invariant
                g <= groups@.len(),
                forall|q: int| 0 <= q < g ==> !(groups@[q].pattern_tag == e.enc.tag && groups@[q].params@ == e.enc.params@),
                forall|a: int, b: int| 0 <= a < b < groups@.len() ==>
                    !((#[trigger] groups@[a]).pattern_tag == (#[trigger] groups@[b]).pattern_tag && groups@[a].params@ == groups@[b].params@),
            ensures
                forall|q: int| 0 <= q < groups@.len() && groups@[q].pattern_tag == e.enc.tag && groups@[q].params@ == e.enc.params@
                    ==> count == groups@[q].row_indices@.len(),
            decreases groups.len() - g,
        {
            if groups[g].pattern_tag == e.enc.tag && bytes_equal(groups[g].params.as_slice(), e.enc.params.as_slice()) {
                count = groups[g].row_indices.len();
                break;
            }
            g += 1;
        }
        proof {
            let g0 = gid[j as int];
            assert(groups@[g0].pattern_tag == e.enc.tag && groups@[g0].params@ == e.enc.params@);
            assert(count == key_count(rs, e.enc.tag, e.enc.params@));
        }
        let ghost before = lone@;
        if count < 4 {
            lone.push(copy_row(e));
            proof { assert(rows_view(lone@) =~= rows_view(before).push(e@)); }
        } else {
            proof { assert(rows_view(lone@) =~= rows_view(before)); }
        }
        j += 1;
    }
    proof { assert(rs.take(n as int) =~= rs); }
    (metas, lone)
}

// ---------------------------------------------------------------- compression

/// A group entry: marker, tag, row count, rows, parameter length, parameters.
pub open spec fn meta_entry(g: RowMetaGroup) -> Seq<u8> {
    seq![0xFFu8, g.pattern_tag] + u16_bytes(g.row_indices@.len() as u16) + u16s_bytes(g.row_indices@)
        + u16_bytes(g.params@.len() as u16) + g.params@
}

/// Little-endian 16-bit values.
pub open spec fn u16s_bytes(v: Seq<u16>) -> Seq<u8>
    decreases v.len(),
{
    if v.len() == 0 { Seq::empty() } else { u16s_bytes(v.drop_last()) + u16_bytes(v.last()) }
}

/// A row entry: row, tag, parameter length, parameters.
pub open spec fn row_entry(r: RowView) -> Seq<u8> {
    u16_bytes(r.row) + seq![r.tag] + u16_bytes(r.params.len() as u16) + r.params
}

/// The group entries of `gs`.
pub open spec fn metas_bytes(gs: Seq<RowMetaGroup>) -> Seq<u8>
    decreases gs.len(),
{
    if gs.len() == 0 { Seq::empty() } else { metas_bytes(gs.drop_last()) + meta_entry(gs.last()) }
}

/// The row entries of `rs`.
pub open spec fn rows_bytes(rs: Seq<RowView>) -> Seq<u8>
    decreases rs.len(),
{
    if rs.len() == 0 { Seq::empty() } else { rows_bytes(rs.drop_last()) + row_entry(rs.last()) }
}

/// The rows' encodings numbered from 0.
pub open spec fn numbered(rows: Seq<(u8, Seq<u8>)>) -> Seq<RowView> {
    Seq::new(rows.len(), |i: int| RowView { row: i as u16, tag: rows[i].0, params: rows[i].1 })
}

/// A lossy image's bytes: header, entry count, the groups `gs` of four or
/// more rows sharing an encoding, then the other rows in order.
pub open spec fn lossy_image(len: u32, p: ImageParams, rows: Seq<(u8, Seq<u8>)>, gs: Seq<RowMetaGroup>) -> Seq<u8> {
    let rs = numbered(rows);
    let lone = lone_rows(rs, rs);
    plti_header(len, p, p.quality) + u16_bytes(((gs.len() + lone.len()) % 65536) as u16) + metas_bytes(gs) + rows_bytes(lone)
}

/// The encodings as values.
pub open spec fn encs_view(rows: Seq<LossyEncoding>) -> Seq<(u8, Seq<u8>)> {
    rows.map_values(|e: LossyEncoding| (e.tag, e.params@))
}

fn push_u16s(buf: &mut Vec<u8>, v: &Vec<u16>)
    ensures final(buf)@ == old(buf)@ + u16s_bytes(v@),
{
    let mut i: usize = 0;
    let ghost start = buf@;
    while i < v.len()
        invariant i <= v@.len(), buf@ == start + u16s_bytes(v@.take(i as int)),
        decreases v.len() - i,
    {
        push_u16(buf, v[i]);
        proof {
            assert(v@.take(i + 1).drop_last() =~= v@.take(i as int));
            assert(buf@ =~= start + u16s_bytes(v@.take(i + 1)));
        }
        i += 1;
    }
    proof { assert(v@.take(v@.len() as int) =~= v@); }
}

/// Compress a grayscale image. Lossless (quality 0): the header and a PLTZ
/// container of the pixels. Lossy: the header, then the encodings `rows`
/// (one per row, fitted within the quality bound), with encodings that four
/// or more rows share stored once for all of them.
pub fn compress_image(pixels: &[u8], params: ImageParams, rows: &Vec<LossyEncoding>, table: &FloatTable) -> (r: Vec<u8>)
    requires
        params.quality == 0 ==> pixels.len() + 0x400_0000 <= usize::MAX && float_table_ok(table.entries@),
        params.quality != 0 ==> rows@.len() <= 65536,
    ensures
        params.quality == 0 ==> exists|inner: Seq<u8>| r@ == plti_header(pixels@.len() as u32, params, 0) + inner
            && #[trigger] encode_result(inner, pixels@, table.entries@, RawCompressor::Zlib),
        params.quality != 0 ==> exists|gs: Seq<RowMetaGroup>| #[trigger] grouped(numbered(encs_view(rows@)), gs)
            && r@ == lossy_image(pixels@.len() as u32, params, encs_view(rows@), gs),
{
    let mut buf: Vec<u8> = Vec::new();
    buf.push(0x50);
    buf.push(0x4C);
    buf.push(0x54);
    buf.push(0x49);
    push_u32(&mut buf, pixels.len() as u32);
    push_u16(&mut buf, params.width);
    push_u16(&mut buf, params.height);
    buf.push(params.bit_depth);
    if params.quality == 0 {
        buf.push(0);
        buf.push(0);
        buf.push(0);
        proof { assert(buf@ =~= plti_header(pixels@.len() as u32, params, 0)); }
        let inner = encode(pixels, RawCompressor::Zlib, table);
        let ghost head = buf@;
        push_bytes(&mut buf, inner.as_slice());
        proof { assert(encode_result(inner@, pixels@, table.entries@, RawCompressor::Zlib)); }
        return buf;
    }
    buf.push(params.quality);
    buf.push(0);
    buf.push(0);
    let ghost head = buf@;
    proof { assert(head =~= plti_header(pixels@.len() as u32, params, params.quality)); }
    let ghost ev = encs_view(rows@);
    let mut encs: Vec<RowEncoding> = Vec::new();
    let mut i: usize = 0;
    while i < rows.len()
        invariant
            i <= rows@.len(), rows@.len() <= 65536, ev == encs_view(rows@), encs@.len() == i,
            rows_view(encs@) =~= numbered(ev).take(i as int),
        decreases rows.len() - i,
    {
        let e = LossyEncoding { tag: rows[i].tag, params: copy_bytes(rows[i].params.as_slice()) };
        encs.push(RowEncoding { row_idx: i as u16, enc: e });
        proof {
            assert(ev.len() == rows@.len());
            assert(ev[i as int] == (rows@[i as int].tag, rows@[i as int].params@));
            assert(encs@[i as int].row_idx == i as u16);
            assert(encs@[i as int].enc.params@ == rows@[i as int].params@);
            assert(numbered(ev)[i as int] == RowView { row: i as u16, tag: ev[i as int].0, params: ev[i as int].1 });
            assert(rows_view(encs@)[i as int] == encs@[i as int]@);
        }
        i += 1;
    }
    proof { assert(numbered(ev).take(rows@.len() as int) =~= numbered(ev)); }
    let (groups, lone) = cross_row_optimize(&encs);
    let count = ((groups.len() as u128 + lone.len() as u128) % 65536) as u16;
    push_u16(&mut buf, count);
    let ghost mid = buf@;
    let mut g: usize = 0;
    while g < groups.len()
        invariant g <= groups@.len(), buf@ == mid + metas_bytes(groups@.take(g as int)),
        decreases groups.len() - g,
    {
        let gr = &groups[g];
        let ghost b0 = buf@;
        buf.push(0xFF);
        buf.push(gr.pattern_tag);
        push_u16(&mut buf, gr.row_indices.len() as u16);
        push_u16s(&mut buf, &gr.row_indices);
        push_u16(&mut buf, gr.params.len() as u16);
        push_bytes(&mut buf, gr.params.as_slice());
        proof {
            assert(groups@.take(g + 1).drop_last() =~= groups@.take(g as int));
            assert(buf@ =~= b0 + meta_entry(*gr));
            assert(buf@ =~= mid + metas_bytes(groups@.take(g + 1)));
        }
        g += 1;
    }
    let ghost mid2 = buf@;
    let mut k: usize = 0;
    while k < lone.len()
        invariant k <= lone@.len(), buf@ == mid2 + rows_bytes(rows_view(lone@).take(k as int)),
        decreases lone.len() - k,
    {
        let re = &lone[k];
        let ghost b0 = buf@;
        push_u16(&mut buf, re.row_idx);
        buf.push(re.enc.tag);
        push_u16(&mut buf, re.enc.params.len() as u16);
        push_bytes(&mut buf, re.enc.params.as_slice());
        proof {
            assert(rows_view(lone@).take(k + 1).drop_last() =~= rows_view(lone@).take(k as int));
            assert(rows_view(lone@)[k as int] == re@);
            assert(buf@ =~= b0 + row_entry(re@));
            assert(buf@ =~= mid2 + rows_bytes(rows_view(lone@).take(k + 1)));
        }
        k += 1;
    }
    proof {
        assert(groups@.take(groups@.len() as int) =~= groups@);
        assert(rows_view(lone@).take(lone@.len() as int) =~= rows_view(lone@));
        assert(rows_view(encs@) =~= numbered(ev));
        assert(((groups@.len() + rows_view(lone@).len()) % 65536) as u16 == count);
        assert(buf@ =~= lossy_image(pixels@.len() as u32, params, ev, groups@));
    }
    buf
}

// ---------------------------------------------------------------- decompression

/// Why an image container was refused.
#[derive(Debug, Clone, Copy, PartialEq, Eq, Structural)]
pub enum ImageError {
    /// shorter than its header, or not "PLTI"
    BadMagic,
    /// the lossless pixels did not decode
    Decode(DecodeError),
}

/// One stored entry of a lossy image: the tag and parameters of a row
/// function, and the rows it fills.
pub struct ImageEntry {
    pub tag: u8,
    pub rows: Vec<u16>,
    pub params: Vec<u8>,
}

/// An entry as values.
pub struct EntryView {
    pub tag: u8,
    pub rows: Seq<u16>,
    pub params: Seq<u8>,
}

impl View for ImageEntry {
    type V = EntryView;

    open spec fn view(&self) -> EntryView {
        EntryView { tag: self.tag, rows: self.rows@, params: self.params@ }
    }
}

/// The entries as values.
pub open spec fn entries_view(es: Seq<ImageEntry>) -> Seq<EntryView> {
    es.map_values(|e: ImageEntry| e@)
}

/// `k` little-endian 16-bit values of `c` from `pos`.
pub open spec fn u16s_at(c: Seq<u8>, pos: int, k: int) -> Seq<u16> {
    Seq::new(k as nat, |j: int| le16(c, pos + 2 * j) as u16)
}

/// The entry of `c` at `off` and the offset after it; `None` where a read
/// runs past the end.
pub open spec fn spec_entry_at(c: Seq<u8>, off: int) -> Option<(EntryView, int)> {
    if off < 0 || off >= c.len() {
        None
    } else if c[off] == 0xFF {
        if off + 4 > c.len() {
            None
        } else {
            let count = le16(c, off + 2);
            let p = off + 4 + 2 * count;
            if p + 2 > c.len() || p + 2 + le16(c, p) > c.len() {
                None
            } else {
                Some((EntryView { tag: c[off + 1], rows: u16s_at(c, off + 4, count), params: c.subrange(p + 2, p + 2 + le16(c, p)) },
                    p + 2 + le16(c, p)))
            }
        }
    } else {
        if off + 5 > c.len() || off + 5 + le16(c, off + 3) > c.len() {
            None
        } else {
            Some((EntryView { tag: c[off + 2], rows: seq![le16(c, off) as u16], params: c.subrange(off + 5, off + 5 + le16(c, off + 3)) },
                off + 5 + le16(c, off + 3)))
        }
    }
}

/// `k` entries of `c` from `off`.
pub open spec fn spec_entries(c: Seq<u8>, off: int, k: int) -> Option<Seq<EntryView>>
    decreases k,
{
    if k <= 0 {
        Some(Seq::empty())
    } else {
        match spec_entry_at(c, off) {
            None => None,
            Some((e, next)) => match spec_entries(c, next, k - 1) {
                None => None,
                Some(rest) => Some(seq![e] + rest),
            },
        }
    }
}

/// The settings stored in an image header.
pub open spec fn header_params(c: Seq<u8>) -> ImageParams {
    ImageParams { width: le16(c, 8) as u16, height: le16(c, 10) as u16, bit_depth: c[12], quality: c[13] }
}

/// `c` is a PLTI container by its length and magic.
pub open spec fn plti_magic(c: Seq<u8>) -> bool {
    c.len() >= 16 && c[0] == 0x50 && c[1] == 0x4C && c[2] == 0x54 && c[3] == 0x49
}

/// The entries of a lossy image.
pub open spec fn spec_lossy_entries(c: Seq<u8>) -> Option<Seq<EntryView>> {
    if c.len() < 18 { None } else { spec_entries(c, 18, le16(c, 16)) }
}

/// Read the entry at `off`.
fn read_entry(c: &[u8], off: usize) -> (r: Option<(ImageEntry, usize)>)
    ensures
        r is Some <==> spec_entry_at(c@, off as int) is Some,
        r matches Some((e, next)) ==> spec_entry_at(c@, off as int) == Some((e@, next as int)),
{
    if off >= c.len() {
        return None;
    }
    if c[off] == 0xFF {
        if c.len() - off < 4 {
            return None;
        }
        let tag = c[off + 1];
        let count = read_u16(c, off + 2) as usize;
        if (c.len() - off - 4) / 2 < count {
            return None;
        }
        assert(2 * count <= c.len() - off - 4) by (nonlinear_arith)
            requires count <= (c.len() - off - 4) / 2, c.len() >= off + 4;
        let mut rows: Vec<u16> = Vec::new();
        let mut j: usize = 0;
        let mut pos: usize = off + 4;
        while j < count
            invariant j <= count, count == le16(c@, off + 2), off + 4 + 2 * count <= c.len(),
                pos == off + 4 + 2 * j,
                rows@ =~= u16s_at(c@, off + 4, j as int),
            decreases count - j,
        {
            rows.push(read_u16(c, pos));
            pos = pos + 2;
            j += 1;
        }
        let p = off + 4 + 2 * count;
        if c.len() - p < 2 {
            return None;
        }
        let plen = read_u16(c, p) as usize;
        if c.len() - p - 2 < plen {
            return None;
        }
        let params = copy_range(c, p + 2, p + 2 + plen);
        Some((ImageEntry { tag, rows, params }, p + 2 + plen))
    } else {
        if c.len() - off < 5 {
            return None;
        }
        let row = read_u16(c, off);
        let tag = c[off + 2];
        let plen = read_u16(c, off + 3) as usize;
        if c.len() - off - 5 < plen {
            return None;
        }
        let params = copy_range(c, off + 5, off + 5 + plen);
        let mut rows: Vec<u16> = Vec::new();
        rows.push(row);
        proof { assert(rows@ =~= seq![le16(c@, off as int) as u16]); }
        Some((ImageEntry { tag, rows, params }, off + 5 + plen))
    }
}

/// Read the entries of a lossy image (`c` is a PLTI container by its
/// magic and quality): `None` where a read runs past the end.
pub fn parse_lossy_entries(c: &[u8]) -> (r: Option<Vec<ImageEntry>>)
    ensures
        r is Some <==> spec_lossy_entries(c@) is Some,
        r matches Some(es) ==> spec_lossy_entries(c@) == Some(entries_view(es@)),
{
    if c.len() < 18 {
        return None;
    }
    let n = read_u16(c, 16) as usize;
    let mut es: Vec<ImageEntry> = Vec::new();
    let mut off: usize = 18;
    let mut k: usize = 0;
    let ghost total = spec_entries(c@, 18, n as int);
    proof { assert(entries_view(es@) =~= Seq::<EntryView>::empty()); }
    while k < n
        invariant
            k <= n, n == le16(c@, 16), c@.len() >= 18, total == spec_entries(c@, 18, n as int),
            total is Some ==> spec_entries(c@, off as int, (n - k) as int) is Some
                && total->0 == entries_view(es@) + spec_entries(c@, off as int, (n - k) as int)->0,
            total is None ==> spec_entries(c@, off as int, (n - k) as int) is None,
        decreases n - k,
    {
        match read_entry(c, off) {
            None => {
                proof { assert(spec_entries(c@, off as int, (n - k) as int) is None); }
                return None;
            }
            Some((e, next)) => {
                let ghost before = entries_view(es@);
                es.push(e);
                proof {
                    assert(entries_view(es@) =~= before.push(e@));
                    let rest = spec_entries(c@, next as int, (n - k - 1) as int);
                    if rest is Some {
                        assert(before + spec_entries(c@, off as int, (n - k) as int)->0 =~= before.push(e@) + rest->0);
                    }
                }
                off = next;
            }
        }
        k += 1;
    }
    proof {
        assert(entries_view(es@) + Seq::<EntryView>::empty() =~= entries_view(es@));
    }
    Some(es)
}

/// The row a tag other than the floating-point ones (1 to 3) stands for:
/// a constant row of `row_bytes / 2` 16-bit values or `row_bytes` bytes,
/// or the parameters themselves. `None` where a constant's parameters are
/// too short.
pub open spec fn spec_int_row(tag: u8, params: Seq<u8>, row_bytes: int, bit_depth: u8) -> Option<Seq<u8>> {
    if tag == 0 {
        if bit_depth == 16 {
            if params.len() < 2 { None } else {
                Some(Seq::new((2 * (row_bytes / 2)) as nat, |k: int| params[k % 2]))
            }
        } else {
            if params.len() < 1 { None } else { Some(Seq::new(row_bytes as nat, |k: int| params[0])) }
        }
    } else {
        Some(params)
    }
}

/// Rebuild a row whose function needs no floating point (every tag but
/// 1, 2 and 3).
pub fn reconstruct_row(tag: u8, params: &[u8], row_bytes: usize, bit_depth: u8) -> (r: Option<Vec<u8>>)
    requires !(1 <= tag <= 3),
    ensures
        r is Some <==> spec_int_row(tag, params@, row_bytes as int, bit_depth) is Some,
        r matches Some(v) ==> spec_int_row(tag, params@, row_bytes as int, bit_depth) == Some(v@),
{
    if tag == 0 {
        if bit_depth == 16 {
            if params.len() < 2 {
                return None;
            }
            let n = row_bytes / 2;
            let mut row: Vec<u8> = Vec::new();
            let mut k: usize = 0;
            while k < n
                invariant k <= n, n == row_bytes / 2, params@.len() >= 2,
                    row@ =~= Seq::new((2 * k) as nat, |q: int| params@[q % 2]),
                decreases n - k,
            {
                row.push(params[0]);
                row.push(params[1]);
                proof {
                    assert(row@ =~= Seq::new((2 * (k + 1)) as nat, |q: int| params@[q % 2]));
                }
                k += 1;
            }
            return Some(row);
        }
        if params.len() < 1 {
            return None;
        }
        let row = crate::bytes::filled(params[0], row_bytes);
        proof { assert(row@ =~= Seq::new(row_bytes as nat, |k: int| params@[0])); }
        return Some(row);
    }
    Some(copy_bytes(params))
}

/// `q` with `row` written from `start` on.
pub open spec fn write_at(q: Seq<u8>, start: int, row: Seq<u8>) -> Seq<u8> {
    Seq::new(q.len(), |i: int| if start <= i < start + row.len() { row[i - start] } else { q[i] })
}

/// `p` with `row` copied to the first `m` of `rows`; `None` where a row
/// does not fit or `row` is not `rb` bytes long.
pub open spec fn place_entry(p: Seq<u8>, rows: Seq<u16>, row: Seq<u8>, rb: int, m: int) -> Option<Seq<u8>>
    decreases m,
{
    if m <= 0 {
        Some(p)
    } else {
        match place_entry(p, rows, row, rb, m - 1) {
            None => None,
            Some(q) => {
                let start = rows[m - 1] * rb;
                if start + rb > q.len() || row.len() != rb { None } else { Some(write_at(q, start, row)) }
            }
        }
    }
}

/// `pix` with the rows of the first `k` entries placed, entry `j`'s row
/// being `rendered[j]`.
pub open spec fn spec_place(pix: Seq<u8>, es: Seq<EntryView>, rendered: Seq<Seq<u8>>, rb: int, k: int) -> Option<Seq<u8>>
    decreases k,
{
    if k <= 0 {
        Some(pix)
    } else {
        match spec_place(pix, es, rendered, rb, k - 1) {
            None => None,
            Some(p) => place_entry(p, es[k - 1].rows, rendered[k - 1], rb, es[k - 1].rows.len() as int),
        }
    }
}

proof fn lemma_place_entry_none(p: Seq<u8>, rows: Seq<u16>, row: Seq<u8>, rb: int, m: int, t: int)
    requires 0 <= m <= t, place_entry(p, rows, row, rb, m) is None,
    ensures place_entry(p, rows, row, rb, t) is None,
    decreases t - m,
{
    if m < t { lemma_place_entry_none(p, rows, row, rb, m, t - 1); }
}

proof fn lemma_place_none(pix: Seq<u8>, es: Seq<EntryView>, rendered: Seq<Seq<u8>>, rb: int, k: int, t: int)
    requires 0 <= k <= t, spec_place(pix, es, rendered, rb, k) is None,
    ensures spec_place(pix, es, rendered, rb, t) is None,
    decreases t - k,
{
    if k < t { lemma_place_none(pix, es, rendered, rb, k, t - 1); }
}

proof fn lemma_place_len(p: Seq<u8>, rows: Seq<u16>, row: Seq<u8>, rb: int, m: int)
    requires m >= 0, place_entry(p, rows, row, rb, m) is Some,
    ensures place_entry(p, rows, row, rb, m)->0.len() == p.len(),
    decreases m,
{
    if m > 0 { lemma_place_len(p, rows, row, rb, m - 1); }
}

/// `n` zero bytes.
pub open spec fn zeros(n: nat) -> Seq<u8> {
    Seq::new(n, |i: int| 0u8)
}

/// Byte vectors as values.
pub open spec fn vecs_view(v: Seq<Vec<u8>>) -> Seq<Seq<u8>> {
    v.map_values(|x: Vec<u8>| x@)
}

/// The pixels of a lossy image of `original_len` bytes: zeros, with each
/// entry's row (`rendered`, in entry order) copied to every row it lists.
/// `None` where a row does not fit in the pixels or has another length
/// than `row_bytes`.
pub fn place_rows(original_len: usize, row_bytes: usize, entries: &Vec<ImageEntry>, rendered: &Vec<Vec<u8>>) -> (r: Option<Vec<u8>>)
    requires entries@.len() == rendered@.len(), row_bytes * 65536 <= usize::MAX,
    ensures
        ({
            let spec = spec_place(zeros(original_len as nat), entries_view(entries@), vecs_view(rendered@),
                row_bytes as int, entries@.len() as int);
            &&& r is Some <==> spec is Some
            &&& r matches Some(p) ==> spec == Some(p@)
        }),
{
    let mut pix = crate::bytes::filled(0, original_len);
    let ghost zero = pix@;
    proof { assert(zero =~= zeros(original_len as nat)); }
    let ghost ev = entries_view(entries@);
    let ghost rv = vecs_view(rendered@);
    let mut k: usize = 0;
    while k < entries.len()
        invariant
            k <= entries@.len(), entries@.len() == rendered@.len(), row_bytes * 65536 <= usize::MAX,
            ev == entries_view(entries@), rv == vecs_view(rendered@), zero == zeros(original_len as nat),
            spec_place(zero, ev, rv, row_bytes as int, k as int) == Some(pix@),
        decreases entries.len() - k,
    {
        let e = &entries[k];
        let row = &rendered[k];
        proof { assert(ev[k as int] == e@); assert(rv[k as int] == row@); }
        let ghost base = pix@;
        let mut m: usize = 0;
        while m < e.rows.len()
            invariant
                m <= e.rows@.len(), row_bytes * 65536 <= usize::MAX,
                place_entry(base, e.rows@, row@, row_bytes as int, m as int) == Some(pix@),
                k < entries@.len(), entries@.len() == rendered@.len(),
                ev == entries_view(entries@), rv == vecs_view(rendered@), zero == zeros(original_len as nat),
                ev[k as int] == e@, rv[k as int] == row@,
                spec_place(zero, ev, rv, row_bytes as int, k as int) == Some(base),
            decreases e.rows.len() - m,
        {
            let idx = e.rows[m] as usize;
            proof {
                lemma_place_len(base, e.rows@, row@, row_bytes as int, m as int);
                assert(idx * row_bytes <= 65535 * row_bytes) by (nonlinear_arith) requires idx <= 65535;
            }
            let start = idx * row_bytes;
            if start > pix.len() || pix.len() - start < row_bytes || row.len() != row_bytes {
                proof {
                    assert(place_entry(base, e.rows@, row@, row_bytes as int, m + 1) is None);
                    lemma_place_entry_none(base, e.rows@, row@, row_bytes as int, m + 1, e.rows@.len() as int);
                    assert(spec_place(zero, ev, rv, row_bytes as int, k + 1) is None);
                    lemma_place_none(zero, ev, rv, row_bytes as int, k + 1, entries@.len() as int);
                }
                return None;
            }
            let ghost before = pix@;
            let mut b: usize = 0;
            while b < row_bytes
                invariant
                    b <= row_bytes, row@.len() == row_bytes, start + row_bytes <= pix.len(), pix@.len() == before.len(),
                    forall|q: int| 0 <= q < pix@.len() ==> #[trigger] pix@[q]
                        == (if start <= q < start + b { row@[q - start] } else { before[q] }),
                decreases row_bytes - b,
            {
                pix.set(start + b, row[b]);
                b += 1;
            }
            proof { assert(pix@ =~= write_at(before, start as int, row@)); }
            m += 1;
        }
        k += 1;
    }
    Some(pix)
}

/// Lossless images come back exactly: a container that `compress_image`
/// writes at quality 0 is a PLTI container, and its body after the header
/// decodes to the pixels.
pub proof fn law_lossless_image_restores(pixels: Seq<u8>, params: ImageParams, inner: Seq<u8>, table: Seq<FloatTrack>)
    requires
        encode_result(inner, pixels, table, RawCompressor::Zlib),
        encode_ok(pixels, table),
    ensures
        plti_magic(plti_header(pixels.len() as u32, params, 0) + inner),
        spec_decode((plti_header(pixels.len() as u32, params, 0) + inner).subrange(16, 16 + inner.len() as int), table)
            == Some(Ok::<Seq<u8>, DecodeError>(pixels)),
{
    let c = plti_header(pixels.len() as u32, params, 0) + inner;
    assert(c.subrange(16, 16 + inner.len() as int) =~= inner);
    lemma_encode_result_decodes(inner, pixels, table, RawCompressor::Zlib);
}

/// Read an image header: the settings and the original length, or
/// `BadMagic` for fewer than 16 bytes or another magic.
pub fn image_header(c: &[u8]) -> (r: Result<(ImageParams, u32), ImageError>)
    ensures
        r is Ok <==> plti_magic(c@),
        r matches Err(e) ==> e == ImageError::BadMagic,
        r matches Ok((p, len)) ==> p == header_params(c@) && len == le32(c@, 4),
{
    if c.len() < 16 || !(c[0] == 0x50 && c[1] == 0x4C && c[2] == 0x54 && c[3] == 0x49) {
        return Err(ImageError::BadMagic);
    }
    let p = ImageParams { width: read_u16(c, 8), height: read_u16(c, 10), bit_depth: c[12], quality: c[13] };
    Ok((p, read_u32(c, 4)))
}

/// Decode the pixels of a lossless image: the PLTZ container after the
/// header.
pub fn decompress_lossless(c: &[u8], table: &FloatTable) -> (r: Result<Vec<u8>, ImageError>)
    requires plti_magic(c@), spec_decode(c@.subrange(16, c@.len() as int), table.entries@) is Some,
    ensures
        r matches Ok(p) ==> spec_decode(c@.subrange(16, c@.len() as int), table.entries@) == Some(Ok::<Seq<u8>, DecodeError>(p@)),
        r matches Err(e) ==> exists|d: DecodeError| e == ImageError::Decode(d)
            && spec_decode(c@.subrange(16, c@.len() as int), table.entries@) == Some(Err::<Seq<u8>, DecodeError>(d)),
{
    let inner = copy_range(c, 16, c.len());
    match decode(inner.as_slice(), table) {
        Ok(p) => Ok(p),
        Err(d) => Err(ImageError::Decode(d)),
    }
}

/// The rows of an image: `height` slices of `row_len` bytes; `None` when
/// the pixels are too few.
pub fn image_rows(pixels: &[u8], params: ImageParams) -> (r: Option<Vec<Vec<u8>>>)
    ensures
        r is Some <==> params.height * row_len(params) <= pixels@.len(),
        r matches Some(rows) ==> rows@.len() == params.height && forall|k: int| 0 <= k < params.height ==>
            (#[trigger] rows@[k])@ == pixels@.subrange(k * row_len(params), (k + 1) * row_len(params)),
{
    let wd = params.width as usize;
    let bpp = params.bit_depth as usize / 8;
    proof {
        assert(wd * bpp <= 65535 * 31) by (nonlinear_arith) requires wd <= 65535, bpp <= 31;
    }
    let rb = wd * bpp;
    let h = params.height as usize;
    proof {
        assert((h as u64) * (rb as u64) <= 65535 * 65535 * 31) by (nonlinear_arith) requires h <= 65535, rb <= 65535 * 31;
    }
    if (h as u64) * (rb as u64) > pixels.len() as u64 {
        return None;
    }
    let mut rows: Vec<Vec<u8>> = Vec::new();
    let mut k: usize = 0;
    while k < h
        invariant
            k <= h, h == params.height, rb == row_len(params), h * rb <= pixels.len(), rb <= 65535 * 31,
            rows@.len() == k,
            forall|q: int| 0 <= q < k ==> (#[trigger] rows@[q])@ == pixels@.subrange(q * rb, (q + 1) * rb),
        decreases h - k,
    {
        proof {
            assert((k + 1) * rb <= h * rb) by (nonlinear_arith) requires k + 1 <= h;
            assert(k * rb + rb == (k + 1) * rb) by (nonlinear_arith);
        }
        let start = k * rb;
        let row = copy_range(pixels, start, start + rb);
        rows.push(row);
        k += 1;
    }
    Some(rows)
}

} // verus!
