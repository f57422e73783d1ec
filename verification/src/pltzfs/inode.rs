//! Inodes: fixed-size metadata records kept on the inode platter.
use vstd::prelude::*;
use crate::bytes::{
    le16, le32, le64, u16_bytes, u32_bytes, u64_bytes, push_u16, push_u32, push_u64, read_u16, read_u32, read_u64,
    lemma_u16_bytes, lemma_u32_bytes, lemma_u64_bytes,
};

verus! {

/// Size of one stored inode.
pub const INODE_SIZE: usize = 128;
/// Direct block addresses an inode stores.
pub const INODE_ADDRS: usize = 6;

/// Reads the system clock: whole seconds since the Unix epoch, zero when
/// the clock is set before it. Nothing is claimed of the value: it is the
/// time.
#[verifier::external_body]
fn unix_now() -> (t: u64) {
    std::time::SystemTime::now().duration_since(std::time::SystemTime::UNIX_EPOCH).unwrap_or_default().as_secs()
}

/// File metadata: type and permissions, owner, size, times, link count and
/// direct block addresses.
pub struct Inode {
    pub ino: u64,
    pub mode: u16,
    pub uid: u32,
    pub gid: u32,
    pub size: u64,
    pub blocks: u64,
    pub atime: u64,
    pub mtime: u64,
    pub ctime: u64,
    pub nlink: u16,
    pub block_addrs: Vec<u64>,
}

/// An inode as values.
pub struct InodeView {
    pub ino: u64,
    pub mode: u16,
    pub uid: u32,
    pub gid: u32,
    pub size: u64,
    pub blocks: u64,
    pub atime: u64,
    pub mtime: u64,
    pub ctime: u64,
    pub nlink: u16,
    pub block_addrs: Seq<u64>,
}

impl View for Inode {
    type V = InodeView;

    open spec fn view(&self) -> InodeView {
        InodeView {
            ino: self.ino, mode: self.mode, uid: self.uid, gid: self.gid, size: self.size, blocks: self.blocks,
            atime: self.atime, mtime: self.mtime, ctime: self.ctime, nlink: self.nlink, block_addrs: self.block_addrs@,
        }
    }
}

/// Mode of a regular file with permissions rw-r--r--.
pub const MODE_FILE: u16 = 0o100644;
/// Mode of a directory with permissions rwxr-xr-x.
pub const MODE_DIR: u16 = 0o040755;

/// The file-type bits of `mode` say directory.
pub open spec fn spec_is_dir(mode: u16) -> bool {
    (mode & 0o170000u16) == 0o040000u16
}

/// A fresh inode: no size, no blocks, all three times `now`.
pub open spec fn fresh_inode(ino: u64, mode: u16, uid: u32, gid: u32, nlink: u16, now: u64) -> InodeView {
    InodeView {
        ino, mode, uid, gid, size: 0, blocks: 0, atime: now, mtime: now, ctime: now, nlink, block_addrs: Seq::empty(),
    }
}

/// Number of block addresses stored: at most `INODE_ADDRS`.
pub open spec fn stored_addr_count(n: int) -> int {
    if n < INODE_ADDRS { n } else { INODE_ADDRS as int }
}

/// The six stored address slots: the first addresses, zero for the rest.
pub open spec fn addr_slots(a: Seq<u64>) -> Seq<u8> {
    Seq::new(48, |k: int| {
        let i = k / 8;
        let v: u64 = if i < a.len() { a[i] } else { 0 };
        u64_bytes(v)[k % 8]
    })
}

/// The stored form of an inode, `INODE_SIZE` bytes.
pub open spec fn spec_inode_bytes(v: InodeView) -> Seq<u8> {
    inode_head(v) + addr_slots(v.block_addrs) + Seq::new(18, |i: int| 0u8)
}

/// The first 62 stored bytes: the fields, then the address count.
pub open spec fn inode_head(v: InodeView) -> Seq<u8> {
    u64_bytes(v.ino) + u16_bytes(v.mode) + u32_bytes(v.uid) + u32_bytes(v.gid) + u64_bytes(v.size)
        + u64_bytes(v.blocks) + u64_bytes(v.atime) + u64_bytes(v.mtime) + u64_bytes(v.ctime) + u16_bytes(v.nlink)
        + u16_bytes(stored_addr_count(v.block_addrs.len() as int) as u16)
}

/// `from_bytes` reads all the block addresses its count names.
pub open spec fn addrs_fit(data: Seq<u8>) -> bool {
    data.len() < INODE_SIZE || 62 + 8 * le16(data, 60) <= data.len()
}

/// What `from_bytes` reads: nothing from fewer than `INODE_SIZE` bytes,
/// else the fields at their offsets and as many addresses as the count
/// at offset 60 says.
pub open spec fn spec_inode_from(data: Seq<u8>) -> Option<InodeView> {
    if data.len() < INODE_SIZE {
        None
    } else {
        Some(InodeView {
            ino: le64(data, 0) as u64, mode: le16(data, 8) as u16, uid: le32(data, 10) as u32, gid: le32(data, 14) as u32,
            size: le64(data, 18) as u64, blocks: le64(data, 26) as u64, atime: le64(data, 34) as u64,
            mtime: le64(data, 42) as u64, ctime: le64(data, 50) as u64, nlink: le16(data, 58) as u16,
            block_addrs: Seq::new(le16(data, 60) as nat, |i: int| le64(data, 62 + 8 * i) as u64),
        })
    }
}

impl Inode {
    /// A new regular file, timestamped now.
    pub fn new_file(ino: u64, uid: u32, gid: u32) -> (r: Inode)
        ensures r@ == fresh_inode(ino, MODE_FILE, uid, gid, 1, r.atime),
    {
        let now = unix_now();
        Inode {
            ino, mode: MODE_FILE, uid, gid, size: 0, blocks: 0, atime: now, mtime: now, ctime: now, nlink: 1,
            block_addrs: Vec::new(),
        }
    }

    /// A new directory, timestamped now.
    pub fn new_dir(ino: u64, uid: u32, gid: u32) -> (r: Inode)
        ensures r@ == fresh_inode(ino, MODE_DIR, uid, gid, 2, r.atime),
    {
        let now = unix_now();
        Inode {
            ino, mode: MODE_DIR, uid, gid, size: 0, blocks: 0, atime: now, mtime: now, ctime: now, nlink: 2,
            block_addrs: Vec::new(),
        }
    }

    /// The inode is a directory.
    pub fn is_dir(&self) -> (r: bool)
        ensures r == spec_is_dir(self.mode),
    {
        (self.mode & 0o170000) == 0o040000
    }

    /// Serialize to `INODE_SIZE` bytes; up to `INODE_ADDRS` block
    /// addresses are kept.
    pub fn to_bytes(&self) -> (r: Vec<u8>)
        ensures r@ == spec_inode_bytes(self@),
    {
        let mut buf: Vec<u8> = Vec::new();
        push_u64(&mut buf, self.ino);
        push_u16(&mut buf, self.mode);
        push_u32(&mut buf, self.uid);
        push_u32(&mut buf, self.gid);
        push_u64(&mut buf, self.size);
        push_u64(&mut buf, self.blocks);
        push_u64(&mut buf, self.atime);
        push_u64(&mut buf, self.mtime);
        push_u64(&mut buf, self.ctime);
        push_u16(&mut buf, self.nlink);
        let count = if self.block_addrs.len() < INODE_ADDRS { self.block_addrs.len() } else { INODE_ADDRS };
        push_u16(&mut buf, count as u16);
        let ghost head = buf@;
        proof { assert(head =~= inode_head(self@)); }
        let a = &self.block_addrs;
        let mut i: usize = 0;
        while i < INODE_ADDRS
            invariant
                i <= INODE_ADDRS, buf@.len() == head.len() + 8 * i,
                buf@.subrange(0, head.len() as int) == head,
                forall|k: int| 0 <= k < 8 * i ==> #[trigger] buf@[head.len() + k] == addr_slots(a@)[k],
            decreases INODE_ADDRS - i,
        {
            let addr: u64 = if i < a.len() { a[i] } else { 0 };
            let ghost before = buf@;
            push_u64(&mut buf, addr);
            proof {
                assert forall|k: int| 0 <= k < 8 * (i + 1) implies #[trigger] buf@[head.len() + k] == addr_slots(a@)[k] by {
                    if k >= 8 * i {
                        assert(buf@[head.len() + k] == u64_bytes(addr)[k - 8 * i]);
                        assert(k / 8 == i as int && k % 8 == k - 8 * i) by (nonlinear_arith) requires 8 * i <= k < 8 * (i + 1);
                    } else {
                        assert(buf@[head.len() + k] == before[head.len() + k]);
                    }
                }
                assert(buf@.subrange(0, head.len() as int) =~= head);
            }
            i += 1;
        }
        let ghost mid = buf@;
        while buf.len() < INODE_SIZE
            invariant
                mid.len() <= buf@.len() <= INODE_SIZE, buf@.subrange(0, mid.len() as int) == mid,
                forall|j: int| mid.len() <= j < buf@.len() ==> buf@[j] == 0,
            decreases INODE_SIZE - buf.len(),
        {
            buf.push(0);
        }
        proof {
            assert(head.len() == 62);
            assert forall|j: int| 0 <= j < mid.len() implies #[trigger] mid[j] == (head + addr_slots(a@))[j] by {
                if j < head.len() {
                    assert(mid.subrange(0, head.len() as int)[j] == mid[j]);
                } else {
                    let k = j - head.len();
                    assert(mid[head.len() + k] == addr_slots(a@)[k]);
                }
            }
            assert(mid =~= head + addr_slots(a@));
            assert forall|j: int| 0 <= j < buf@.len() implies #[trigger] buf@[j] == spec_inode_bytes(self@)[j] by {
                if j < mid.len() {
                    assert(buf@.subrange(0, mid.len() as int)[j] == buf@[j]);
                }
            }
            assert(buf@ =~= spec_inode_bytes(self@));
        }
        buf
    }

    /// Deserialize; `None` from fewer than `INODE_SIZE` bytes.
    pub fn from_bytes(data: &[u8]) -> (r: Option<Inode>)
        requires addrs_fit(data@),
        ensures
            match r {
                Some(i) => spec_inode_from(data@) == Some(i@),
                None => spec_inode_from(data@) is None,
            },
    {
        if data.len() < INODE_SIZE {
            return None;
        }
        let count = read_u16(data, 60) as usize;
        let mut block_addrs: Vec<u64> = Vec::new();
        let mut i: usize = 0;
        while i < count
            invariant
                i <= count, count == le16(data@, 60), 62 + 8 * count <= data@.len(), block_addrs@.len() == i,
                forall|k: int| 0 <= k < i ==> #[trigger] block_addrs@[k] == le64(data@, 62 + 8 * k) as u64,
            decreases count - i,
        {
            block_addrs.push(read_u64(data, 62 + i * 8));
            i += 1;
        }
        let r = Inode {
            ino: read_u64(data, 0), mode: read_u16(data, 8), uid: read_u32(data, 10), gid: read_u32(data, 14),
            size: read_u64(data, 18), blocks: read_u64(data, 26), atime: read_u64(data, 34), mtime: read_u64(data, 42),
            ctime: read_u64(data, 50), nlink: read_u16(data, 58), block_addrs,
        };
        proof { assert(r@.block_addrs =~= spec_inode_from(data@)->0.block_addrs); }
        Some(r)
    }
}

proof fn lemma_split_at(b: Seq<u8>, off: int, x: Seq<u8>, y: Seq<u8>)
    requires crate::entry::placed(b, off, x + y),
    ensures crate::entry::placed(b, off, x), crate::entry::placed(b, off + x.len(), y),
{
    crate::stored::lemma_placed_split(b, off, x, y);
}

/// The fields come back from the first 62 stored bytes.
#[verifier::spinoff_prover]
#[verifier::rlimit(40)]
proof fn lemma_head_fields(b: Seq<u8>, v: InodeView)
    requires crate::entry::placed(b, 0, inode_head(v)),
    ensures
        le64(b, 0) == v.ino, le16(b, 8) == v.mode, le32(b, 10) == v.uid, le32(b, 14) == v.gid,
        le64(b, 18) == v.size, le64(b, 26) == v.blocks, le64(b, 34) == v.atime, le64(b, 42) == v.mtime,
        le64(b, 50) == v.ctime, le16(b, 58) == v.nlink,
        le16(b, 60) == stored_addr_count(v.block_addrs.len() as int),
{
    let n = stored_addr_count(v.block_addrs.len() as int) as u16;
    let p1 = u64_bytes(v.ino);
    let p2 = p1 + u16_bytes(v.mode);
    let p3 = p2 + u32_bytes(v.uid);
    let p4 = p3 + u32_bytes(v.gid);
    let p5 = p4 + u64_bytes(v.size);
    let p6 = p5 + u64_bytes(v.blocks);
    let p7 = p6 + u64_bytes(v.atime);
    let p8 = p7 + u64_bytes(v.mtime);
    let p9 = p8 + u64_bytes(v.ctime);
    let p10 = p9 + u16_bytes(v.nlink);
    lemma_split_at(b, 0, p10, u16_bytes(n));
    lemma_split_at(b, 0, p9, u16_bytes(v.nlink));
    lemma_split_at(b, 0, p8, u64_bytes(v.ctime));
    lemma_split_at(b, 0, p7, u64_bytes(v.mtime));
    lemma_split_at(b, 0, p6, u64_bytes(v.atime));
    lemma_split_at(b, 0, p5, u64_bytes(v.blocks));
    lemma_split_at(b, 0, p4, u64_bytes(v.size));
    lemma_split_at(b, 0, p3, u32_bytes(v.gid));
    lemma_split_at(b, 0, p2, u32_bytes(v.uid));
    lemma_split_at(b, 0, p1, u16_bytes(v.mode));
    lemma_u64_bytes(v.ino, b, 0);
    lemma_u16_bytes(v.mode, b, 8);
    lemma_u32_bytes(v.uid, b, 10);
    lemma_u32_bytes(v.gid, b, 14);
    lemma_u64_bytes(v.size, b, 18);
    lemma_u64_bytes(v.blocks, b, 26);
    lemma_u64_bytes(v.atime, b, 34);
    lemma_u64_bytes(v.mtime, b, 42);
    lemma_u64_bytes(v.ctime, b, 50);
    lemma_u16_bytes(v.nlink, b, 58);
    lemma_u16_bytes(n, b, 60);
}

/// Each address slot holds its address.
#[verifier::spinoff_prover]
proof fn lemma_addr_slots_read(b: Seq<u8>, a: Seq<u64>)
    requires crate::entry::placed(b, 62, addr_slots(a)),
    ensures forall|i: int| 0 <= i < a.len() && i < 6 ==> le64(b, 62 + 8 * i) == #[trigger] a[i],
{
    let sl = addr_slots(a);
    crate::entry::lemma_placed(b, 62, sl);
    assert forall|i: int| 0 <= i < a.len() && i < 6 implies le64(b, 62 + 8 * i) == #[trigger] a[i] by {
        assert(b.subrange(62 + 8 * i, 62 + 8 * i + 8) =~= u64_bytes(a[i])) by {
            assert forall|j: int| 0 <= j < 8 implies #[trigger] b.subrange(62 + 8 * i, 62 + 8 * i + 8)[j] == u64_bytes(a[i])[j] by {
                assert((8 * i + j) / 8 == i && (8 * i + j) % 8 == j) by (nonlinear_arith) requires 0 <= j < 8, i >= 0;
                assert(b[62 + 8 * i + j] == sl[8 * i + j]);
            }
        }
        lemma_u64_bytes(a[i], b, 62 + 8 * i);
    }
}

/// Stored inodes read back: every field comes back, and the first
/// `INODE_ADDRS` block addresses (all of them when there are no more).
#[verifier::spinoff_prover]
#[verifier::rlimit(40)]
pub proof fn law_inode_roundtrip(v: InodeView)
    ensures
        addrs_fit(spec_inode_bytes(v)),
        spec_inode_from(spec_inode_bytes(v)) == Some(InodeView {
            block_addrs: v.block_addrs.subrange(0, stored_addr_count(v.block_addrs.len() as int)), ..v
        }),
{
    let b = spec_inode_bytes(v);
    let n = stored_addr_count(v.block_addrs.len() as int);
    let h = inode_head(v);
    let sl = addr_slots(v.block_addrs);
    assert(b.subrange(0, b.len() as int) =~= b);
    lemma_split_at(b, 0, h + sl, Seq::new(18, |i: int| 0u8));
    lemma_split_at(b, 0, h, sl);
    lemma_head_fields(b, v);
    lemma_addr_slots_read(b, v.block_addrs);
    let got = Seq::new(le16(b, 60) as nat, |i: int| le64(b, 62 + 8 * i) as u64);
    assert forall|i: int| 0 <= i < n implies #[trigger] got[i] == v.block_addrs[i] by {}
    assert(got =~= v.block_addrs.subrange(0, n));
}

} // verus!
