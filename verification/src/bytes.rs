//! Little-endian integer fields and byte-buffer helpers.
use vstd::prelude::*;

verus! {

/// Little-endian value of the two bytes at `i`.
pub open spec fn le16(s: Seq<u8>, i: int) -> int {
    s[i] + 256 * s[i + 1]
}

/// Little-endian value of the four bytes at `i`.
pub open spec fn le32(s: Seq<u8>, i: int) -> int {
    le16(s, i) + 65536 * le16(s, i + 2)
}

/// Little-endian value of the eight bytes at `i`.
pub open spec fn le64(s: Seq<u8>, i: int) -> int {
    le32(s, i) + 4294967296 * le32(s, i + 4)
}

/// Little-endian encoding of a 16-bit value.
pub open spec fn u16_bytes(v: u16) -> Seq<u8> {
    seq![(v % 256) as u8, (v / 256) as u8]
}

pub open spec fn u32_bytes(v: u32) -> Seq<u8> {
    u16_bytes((v % 65536) as u16) + u16_bytes((v / 65536) as u16)
}

pub open spec fn u64_bytes(v: u64) -> Seq<u8> {
    u32_bytes((v % 4294967296) as u32) + u32_bytes((v / 4294967296) as u32)
}

/// The unsigned 16-bit value with the same bits as `v`.
pub open spec fn bits16(v: i16) -> u16 {
    if v >= 0 { v as u16 } else { (v + 65536) as u16 }
}

/// The unsigned 32-bit value with the same bits as `v`.
pub open spec fn bits32(v: i32) -> u32 {
    if v >= 0 { v as u32 } else { (v + 0x1_0000_0000) as u32 }
}

/// The unsigned 64-bit value with the same bits as `v`.
pub open spec fn bits64(v: i64) -> u64 {
    if v >= 0 { v as u64 } else { (v + 0x1_0000_0000_0000_0000) as u64 }
}

/// Two's-complement encoding of a signed 16-bit value.
pub open spec fn i16_bytes(v: i16) -> Seq<u8> {
    u16_bytes(bits16(v))
}

pub open spec fn i32_bytes(v: i32) -> Seq<u8> {
    u32_bytes(bits32(v))
}

pub open spec fn i64_bytes(v: i64) -> Seq<u8> {
    u64_bytes(bits64(v))
}

pub proof fn lemma_u16_bytes(v: u16, s: Seq<u8>, i: int)
    requires 0 <= i, i + 2 <= s.len(), s.subrange(i, i + 2) == u16_bytes(v),
    ensures le16(s, i) == v,
{
    assert(s[i] == s.subrange(i, i + 2)[0]);
    assert(s[i + 1] == s.subrange(i, i + 2)[1]);
}

pub proof fn lemma_u32_bytes(v: u32, s: Seq<u8>, i: int)
    requires 0 <= i, i + 4 <= s.len(), s.subrange(i, i + 4) == u32_bytes(v),
    ensures le32(s, i) == v,
{
    assert(s.subrange(i, i + 2) =~= s.subrange(i, i + 4).subrange(0, 2));
    assert(s.subrange(i + 2, i + 4) =~= s.subrange(i, i + 4).subrange(2, 4));
    assert(u32_bytes(v).subrange(0, 2) =~= u16_bytes((v % 65536) as u16));
    assert(u32_bytes(v).subrange(2, 4) =~= u16_bytes((v / 65536) as u16));
    lemma_u16_bytes((v % 65536) as u16, s, i);
    lemma_u16_bytes((v / 65536) as u16, s, i + 2);
}

pub proof fn lemma_u64_bytes(v: u64, s: Seq<u8>, i: int)
    requires 0 <= i, i + 8 <= s.len(), s.subrange(i, i + 8) == u64_bytes(v),
    ensures le64(s, i) == v,
{
    assert(s.subrange(i, i + 4) =~= s.subrange(i, i + 8).subrange(0, 4));
    assert(s.subrange(i + 4, i + 8) =~= s.subrange(i, i + 8).subrange(4, 8));
    assert(u64_bytes(v).subrange(0, 4) =~= u32_bytes((v % 4294967296) as u32));
    assert(u64_bytes(v).subrange(4, 8) =~= u32_bytes((v / 4294967296) as u32));
    lemma_u32_bytes((v % 4294967296) as u32, s, i);
    lemma_u32_bytes((v / 4294967296) as u32, s, i + 4);
}

/// Read a little-endian u16 at `pos`.
pub fn read_u16(buf: &[u8], pos: usize) -> (r: u16)
    requires pos + 2 <= buf.len(),
    ensures r == le16(buf@, pos as int),
{
    buf[pos] as u16 + 256 * (buf[pos + 1] as u16)
}

/// Read a little-endian u32 at `pos`.
pub fn read_u32(buf: &[u8], pos: usize) -> (r: u32)
    requires pos + 4 <= buf.len(),
    ensures r == le32(buf@, pos as int),
{
    read_u16(buf, pos) as u32 + 65536 * (read_u16(buf, pos + 2) as u32)
}

/// Read a little-endian u64 at `pos`.
pub fn read_u64(buf: &[u8], pos: usize) -> (r: u64)
    requires pos + 8 <= buf.len(),
    ensures r == le64(buf@, pos as int),
{
    read_u32(buf, pos) as u64 + 4294967296 * (read_u32(buf, pos + 4) as u64)
}

/// Append the little-endian bytes of `v`.
pub fn push_u16(buf: &mut Vec<u8>, v: u16)
    ensures final(buf)@ == old(buf)@ + u16_bytes(v),
{
    buf.push((v % 256) as u8);
    buf.push((v / 256) as u8);
    proof { assert(buf@ =~= old(buf)@ + u16_bytes(v)); }
}

pub fn push_u32(buf: &mut Vec<u8>, v: u32)
    ensures final(buf)@ == old(buf)@ + u32_bytes(v),
{
    push_u16(buf, (v % 65536) as u16);
    push_u16(buf, (v / 65536) as u16);
    proof { assert(buf@ =~= old(buf)@ + u32_bytes(v)); }
}

pub fn push_u64(buf: &mut Vec<u8>, v: u64)
    ensures final(buf)@ == old(buf)@ + u64_bytes(v),
{
    push_u32(buf, (v % 4294967296) as u32);
    push_u32(buf, (v / 4294967296) as u32);
    proof { assert(buf@ =~= old(buf)@ + u64_bytes(v)); }
}

pub fn push_i16(buf: &mut Vec<u8>, v: i16)
    ensures final(buf)@ == old(buf)@ + i16_bytes(v),
{
    let u: u16 = if v >= 0 { v as u16 } else { (v as i32 + 65536) as u16 };
    push_u16(buf, u);
}

pub fn push_i32(buf: &mut Vec<u8>, v: i32)
    ensures final(buf)@ == old(buf)@ + i32_bytes(v),
{
    let u: u32 = if v >= 0 { v as u32 } else { (v as i64 + 0x1_0000_0000) as u32 };
    push_u32(buf, u);
}

pub fn push_i64(buf: &mut Vec<u8>, v: i64)
    ensures final(buf)@ == old(buf)@ + i64_bytes(v),
{
    let u: u64 = if v >= 0 { v as u64 } else { (v as i128 + 0x1_0000_0000_0000_0000) as u64 };
    push_u64(buf, u);
}

/// Append all of `src`.
pub fn push_bytes(buf: &mut Vec<u8>, src: &[u8])
    ensures final(buf)@ == old(buf)@ + src@,
{
    let mut i: usize = 0;
    while i < src.len()
        invariant
            i <= src.len(),
            buf@ == old(buf)@ + src@.subrange(0, i as int),
        decreases src.len() - i,
    {
        buf.push(src[i]);
        proof { assert(src@.subrange(0, i + 1) =~= src@.subrange(0, i as int).push(src@[i as int])); }
        i += 1;
    }
    proof { assert(src@.subrange(0, src.len() as int) =~= src@); }
}

/// A fresh vector holding a copy of `src`.
pub fn copy_bytes(src: &[u8]) -> (v: Vec<u8>)
    ensures v@ == src@,
{
    let mut v: Vec<u8> = Vec::with_capacity(src.len());
    push_bytes(&mut v, src);
    proof { assert(v@ =~= src@); }
    v
}

/// A copy of `src[start..end]`.
pub fn copy_range(src: &[u8], start: usize, end: usize) -> (v: Vec<u8>)
    requires start <= end <= src.len(),
    ensures v@ == src@.subrange(start as int, end as int),
{
    let mut v: Vec<u8> = Vec::with_capacity(end - start);
    let mut i: usize = start;
    while i < end
        invariant
            start <= i <= end <= src.len(),
            v@ == src@.subrange(start as int, i as int),
        decreases end - i,
    {
        v.push(src[i]);
        proof { assert(src@.subrange(start as int, i + 1) =~= src@.subrange(start as int, i as int).push(src@[i as int])); }
        i += 1;
    }
    v
}

/// `n` copies of `b`.
pub fn filled(b: u8, n: usize) -> (v: Vec<u8>)
    ensures v@ == Seq::new(n as nat, |i: int| b),
{
    let mut v: Vec<u8> = Vec::with_capacity(n);
    let mut i: usize = 0;
    while i < n
        invariant i <= n, v@ == Seq::new(i as nat, |k: int| b),
        decreases n - i,
    {
        v.push(b);
        proof { assert(v@ =~= Seq::new((i + 1) as nat, |k: int| b)); }
        i += 1;
    }
    v
}

/// Whether `a[a_start..a_start+len]` equals `b[b_start..b_start+len]`.
pub fn bytes_equal(a: &[u8], b: &[u8]) -> (r: bool)
    ensures r == (a@ == b@),
{
    if a.len() != b.len() {
        return false;
    }
    let mut i: usize = 0;
    while i < a.len()
        invariant
            a.len() == b.len(),
            i <= a.len(),
            forall|k: int| 0 <= k < i ==> a@[k] == b@[k],
        decreases a.len() - i,
    {
        if a[i] != b[i] {
            return false;
        }
        i += 1;
    }
    proof { assert(a@ =~= b@); }
    true
}

} // verus!
