//! Directory entries: fixed-size records of an inode number and a
//! zero-padded name, kept on the directory platter.
use vstd::prelude::*;
use vstd::utf8::{valid_utf8, decode_utf8, encode_utf8};
use crate::bytes::{le64, u64_bytes, push_u64, read_u64, push_bytes};

verus! {

/// Longest stored name, in bytes.
pub const DIR_MAX_NAME: usize = 248;
/// Size of one stored entry: 8 bytes of inode number, then the name.
pub const DIR_ENTRY_SIZE: usize = 256;

/// What `String::from_utf8_lossy` makes of `b`.
pub uninterp spec fn utf8_lossy(b: Seq<u8>) -> Seq<char>;

/// Reads `b` as UTF-8 with `String::from_utf8_lossy`, into an owned
/// `String`. Claimed: the result is `utf8_lossy(b)`, and where `b` is valid
/// UTF-8 it is the text `b` encodes, as std documents.
#[verifier::external_body]
fn string_from_utf8_lossy(b: &[u8]) -> (s: String)
    ensures s@ == utf8_lossy(b@), valid_utf8(b@) ==> s@ == decode_utf8(b@),
{
    String::from_utf8_lossy(b).to_string()
}

/// A directory entry: an inode number and a name.
pub struct DirEntry {
    pub ino: u64,
    pub name: String,
}

/// A directory entry as values: inode number and the name's characters.
pub struct DirEntryView {
    pub ino: u64,
    pub name: Seq<char>,
}

impl View for DirEntry {
    type V = DirEntryView;

    open spec fn view(&self) -> DirEntryView {
        DirEntryView { ino: self.ino, name: self.name@ }
    }
}

/// The name's UTF-8 bytes, cut to `DIR_MAX_NAME`.
pub open spec fn stored_name(name: Seq<char>) -> Seq<u8> {
    let b = encode_utf8(name);
    if b.len() > DIR_MAX_NAME { b.subrange(0, DIR_MAX_NAME as int) } else { b }
}

/// The stored form of an entry: the inode number, the name's bytes (at
/// most `DIR_MAX_NAME`), zeros up to `DIR_ENTRY_SIZE` bytes.
pub open spec fn spec_entry_bytes(e: DirEntryView) -> Seq<u8> {
    let head = u64_bytes(e.ino) + stored_name(e.name);
    head + Seq::new((DIR_ENTRY_SIZE - head.len()) as nat, |i: int| 0u8)
}

/// Index of the first zero byte of `s` at or after `i`, if any.
pub open spec fn first_zero_from(s: Seq<u8>, i: int) -> Option<int>
    decreases s.len() - i,
{
    if i < 0 || i >= s.len() { None } else if s[i] == 0 { Some(i) } else { first_zero_from(s, i + 1) }
}

/// Length of the stored name: up to the first zero byte after the inode
/// number within the `DIR_ENTRY_SIZE`-byte record, or `DIR_MAX_NAME` when
/// the record holds none.
pub open spec fn name_len(data: Seq<u8>) -> int {
    match first_zero_from(data.subrange(0, DIR_ENTRY_SIZE as int), 8) {
        Some(z) => z - 8,
        None => DIR_MAX_NAME as int,
    }
}

/// What `from_bytes` reads: nothing from fewer than `DIR_ENTRY_SIZE` bytes
/// or an empty slot (inode 0), else the inode number and the name bytes up
/// to the first zero within the record, read as UTF-8 (with replacement
/// where they are not). Bytes past the record are never read.
pub open spec fn spec_from_bytes(data: Seq<u8>) -> Option<DirEntryView> {
    if data.len() < DIR_ENTRY_SIZE || le64(data, 0) == 0 {
        None
    } else {
        Some(DirEntryView { ino: le64(data, 0) as u64, name: read_name(data.subrange(8, 8 + name_len(data))) })
    }
}

/// Name bytes read as text: the characters they encode when they are
/// valid UTF-8, else what replacement-reading makes of them.
pub open spec fn read_name(b: Seq<u8>) -> Seq<char> {
    if valid_utf8(b) { decode_utf8(b) } else { utf8_lossy(b) }
}

proof fn lemma_first_zero_from(s: Seq<u8>, i: int)
    requires 0 <= i,
    ensures
        match first_zero_from(s, i) {
            Some(z) => i <= z < s.len() && s[z] == 0 && forall|j: int| i <= j < z ==> s[j] != 0,
            None => forall|j: int| i <= j < s.len() ==> s[j] != 0,
        },
    decreases s.len() - i,
{
    if i < s.len() && s[i] != 0 {
        lemma_first_zero_from(s, i + 1);
    }
}

impl DirEntry {
    /// Serialize to `DIR_ENTRY_SIZE` bytes.
    pub fn to_bytes(&self) -> (r: Vec<u8>)
        ensures r@ == spec_entry_bytes(self@), r@.len() == DIR_ENTRY_SIZE,
    {
        let mut buf: Vec<u8> = Vec::new();
        push_u64(&mut buf, self.ino);
        let name_bytes = self.name.as_str().as_bytes_vec();
        let len = if name_bytes.len() < DIR_MAX_NAME { name_bytes.len() } else { DIR_MAX_NAME };
        let part = vstd::slice::slice_subrange(name_bytes.as_slice(), 0, len);
        push_bytes(&mut buf, part);
        let ghost head = buf@;
        proof {
            assert(name_bytes@ == encode_utf8(self.name@));
            assert(head =~= u64_bytes(self.ino) + stored_name(self.name@));
        }
        while buf.len() < DIR_ENTRY_SIZE
            invariant
                head.len() <= buf@.len() <= DIR_ENTRY_SIZE, buf@.subrange(0, head.len() as int) == head,
                forall|j: int| head.len() <= j < buf@.len() ==> buf@[j] == 0,
            decreases DIR_ENTRY_SIZE - buf.len(),
        {
            buf.push(0);
        }
        proof {
            assert(buf@ =~= spec_entry_bytes(self@));
        }
        buf
    }

    /// Deserialize one stored entry; `None` for too few bytes or an empty
    /// slot.
    pub fn from_bytes(data: &[u8]) -> (r: Option<DirEntry>)
        ensures
            match r {
                Some(e) => spec_from_bytes(data@) == Some(e@),
                None => spec_from_bytes(data@) is None,
            },
    {
        if data.len() < DIR_ENTRY_SIZE {
            return None;
        }
        let ino = read_u64(data, 0);
        if ino == 0 {
            return None;
        }
        let ghost rec = data@.subrange(0, DIR_ENTRY_SIZE as int);
        let mut z: usize = 8;
        while z < DIR_ENTRY_SIZE && data[z] != 0
            invariant 8 <= z <= DIR_ENTRY_SIZE, DIR_ENTRY_SIZE <= data@.len(), rec == data@.subrange(0, DIR_ENTRY_SIZE as int),
                forall|j: int| 8 <= j < z ==> rec[j] != 0,
            decreases DIR_ENTRY_SIZE - z,
        {
            assert(rec[z as int] == data@[z as int]);
            z += 1;
        }
        proof { lemma_first_zero_from(rec, 8); }
        let end = if z < DIR_ENTRY_SIZE { z } else { 8 + DIR_MAX_NAME };
        proof {
            if z < DIR_ENTRY_SIZE {
                assert(rec[z as int] == 0);
                assert(first_zero_from(rec, 8) == Some(z as int)) by {
                    let f = first_zero_from(rec, 8);
                    if f is None { assert(rec[z as int] != 0); }
                    else { let w = f->0; if w < z { assert(rec[w] != 0); } else if w > z { assert(rec[z as int] != 0); } }
                }
            } else {
                assert(first_zero_from(rec, 8) is None) by {
                    let f = first_zero_from(rec, 8);
                    if f is Some { assert(rec[f->0] != 0); }
                }
            }
        }
        let name = string_from_utf8_lossy(vstd::slice::slice_subrange(data, 8, end));
        Some(DirEntry { ino, name })
    }
}

/// Stored entries read back: an entry with a non-zero inode number and a
/// name of at most `DIR_MAX_NAME` UTF-8 bytes, none of them zero, comes back
/// from its bytes unchanged.
pub proof fn law_dir_entry_roundtrip(e: DirEntryView)
    requires
        e.ino != 0, encode_utf8(e.name).len() <= DIR_MAX_NAME,
        forall|j: int| 0 <= j < encode_utf8(e.name).len() ==> #[trigger] encode_utf8(e.name)[j] != 0,
    ensures spec_from_bytes(spec_entry_bytes(e)) == Some(e),
{
    let b = spec_entry_bytes(e);
    let nb = encode_utf8(e.name);
    let m = nb.len() as int;
    assert(b.subrange(0, 8) =~= u64_bytes(e.ino));
    crate::bytes::lemma_u64_bytes(e.ino, b, 0);
    assert(b.subrange(0, DIR_ENTRY_SIZE as int) =~= b);
    lemma_first_zero_from(b, 8);
    if m < DIR_MAX_NAME {
        assert(b[8 + m] == 0);
        assert(first_zero_from(b, 8) == Some(8 + m)) by {
            let f = first_zero_from(b, 8);
            if f is None { assert(b[8 + m] != 0); }
            else { let w = f->0; if w < 8 + m { assert(b[w] == nb[w - 8]); } else if w > 8 + m { assert(b[8 + m] != 0); } }
        }
    } else {
        assert(first_zero_from(b, 8) == Some(256int) || first_zero_from(b, 8) is None) by {
            let f = first_zero_from(b, 8);
            if f is Some { assert(b[f->0] == nb[f->0 - 8]); }
        }
    }
    assert(b.subrange(8, 8 + m) =~= nb);
    vstd::utf8::encode_utf8_valid_utf8(e.name);
    vstd::utf8::encode_utf8_decode_utf8(e.name);
}

} // verus!
