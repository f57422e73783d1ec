//! The filesystem: inodes, directories and file contents in memory, laid
//! out onto the storage platters and compressed on `sync`.
use vstd::prelude::*;
use std::collections::HashMap;
use vstd::utf8::encode_utf8;
use crate::pattern::{FloatTable, float_table_ok};
use crate::raw::RawCompressor;
use crate::codec::{encode, encode_result};
use crate::pattern::FloatTrack;
use crate::pltzfs::inode::{Inode, InodeView, MODE_FILE, MODE_DIR, fresh_inode, spec_is_dir, spec_inode_bytes};
use crate::pltzfs::dir::{DirEntry, DirEntryView, spec_entry_bytes};
use crate::pltzfs::storage::{
    Storage, StorageView, spec_alloc, empty_storage, image_of, PLATTER_INODES, PLATTER_DIRS, PLATTER_DATA_STRUCTURED, PLATTER_DATA_RAW,
    PLATTER_BITMAP, NUM_PLATTERS,
};

verus! {

broadcast use vstd::std_specs::hash::group_hash_axioms;

/// Inode number of the root directory.
pub const ROOT_INO: u64 = 1;

/// Why a filesystem operation was refused.
#[derive(Debug, Clone, Copy, PartialEq, Eq, Structural)]
pub enum FsError {
    /// the parent inode is missing or not a directory
    ParentNotDirectory,
    /// no free block was left
    NoSpace,
    /// no file content is kept under that inode
    FileNotFound,
    /// no directory listing is kept under that inode
    NotADirectory,
}

/// An in-memory filesystem over multi-platter storage.
pub struct PltzFs {
    storage: Storage,
    inodes: HashMap<u64, Inode>,
    dirs: HashMap<u64, Vec<DirEntry>>,
    file_data: HashMap<u64, Vec<u8>>,
    next_ino: u64,
}

/// A directory listing as values.
pub open spec fn entries_view(v: Seq<DirEntry>) -> Seq<DirEntryView> {
    Seq::new(v.len(), |i: int| v[i]@)
}

/// The listing a new directory `ino` under `parent` starts with: "." and "..".
pub open spec fn fresh_listing(ino: u64, parent: u64) -> Seq<DirEntryView> {
    seq![DirEntryView { ino, name: seq!['.'] }, DirEntryView { ino: parent, name: seq!['.', '.'] }]
}

impl PltzFs {
    /// The inodes, by number.
    pub closed spec fn inodes(&self) -> Map<u64, InodeView> {
        Map::new(|k: u64| self.inodes@.contains_key(k), |k: u64| self.inodes@[k]@)
    }

    /// The directory listings, by directory inode number.
    pub closed spec fn dirs(&self) -> Map<u64, Seq<DirEntryView>> {
        Map::new(|k: u64| self.dirs@.contains_key(k), |k: u64| entries_view(self.dirs@[k]@))
    }

    /// The file contents, by inode number.
    pub closed spec fn files(&self) -> Map<u64, Seq<u8>> {
        Map::new(|k: u64| self.file_data@.contains_key(k), |k: u64| self.file_data@[k]@)
    }

    /// The next inode number to hand out.
    pub closed spec fn next_ino(&self) -> u64 {
        self.next_ino
    }

    /// The storage platters.
    pub closed spec fn storage(&self) -> StorageView {
        self.storage@
    }

    /// The filesystem's invariant: the storage holds its platters and a
    /// bitmap that `alloc_block` can scan, every directory inode has a
    /// listing, and every inode, listing and file is numbered below the next
    /// inode number and above zero.
    pub closed spec fn wf(&self) -> bool {
        &&& self.storage.wf()
        &&& 8 * self.storage@.platters[PLATTER_BITMAP as int].len() + 8 <= usize::MAX
        &&& forall|k: u64| #[trigger] self.inodes@.contains_key(k) && spec_is_dir(self.inodes@[k].mode)
            ==> self.dirs@.contains_key(k)
        &&& forall|k: u64| #[trigger] self.inodes@.contains_key(k) ==> 1 <= k < self.next_ino
        &&& forall|k: u64| #[trigger] self.dirs@.contains_key(k) ==> self.inodes@.contains_key(k)
        &&& forall|k: u64| #[trigger] self.file_data@.contains_key(k) ==> self.inodes@.contains_key(k)
        &&& self.next_ino >= 2
    }

    /// A filesystem with `total_blocks` blocks holding only the root
    /// directory.
    pub fn new(total_blocks: u64) -> (r: PltzFs)
        requires total_blocks <= u64::MAX - 7, total_blocks + 16 <= usize::MAX,
        ensures
            r.wf(),
            r.inodes().dom() == set![ROOT_INO],
            r.inodes()[ROOT_INO] == fresh_inode(ROOT_INO, MODE_DIR, 0, 0, 2, r.inodes()[ROOT_INO].atime),
            r.dirs() == map![ROOT_INO => fresh_listing(ROOT_INO, ROOT_INO)],
            r.files() == Map::<u64, Seq<u8>>::empty(),
            r.next_ino() == 2,
            r.storage() == empty_storage(total_blocks),
    {
        let storage = Storage::new(total_blocks);
        let mut inodes: HashMap<u64, Inode> = HashMap::new();
        let mut dirs: HashMap<u64, Vec<DirEntry>> = HashMap::new();
        let root = Inode::new_dir(ROOT_INO, 0, 0);
        inodes.insert(ROOT_INO, root);
        let mut listing: Vec<DirEntry> = Vec::new();
        listing.push(DirEntry { ino: ROOT_INO, name: dot() });
        listing.push(DirEntry { ino: ROOT_INO, name: dot_dot() });
        dirs.insert(ROOT_INO, listing);
        let r = PltzFs { storage, inodes, dirs, file_data: HashMap::new(), next_ino: 2 };
        proof {
            assert((total_blocks + 7) / 8 * 8 <= total_blocks + 7) by (nonlinear_arith);
            assert(r.inodes().dom() =~= set![ROOT_INO]);
            assert(r.dirs() =~= map![ROOT_INO => fresh_listing(ROOT_INO, ROOT_INO)]) by {
                assert(entries_view(r.dirs@[ROOT_INO]@) =~= fresh_listing(ROOT_INO, ROOT_INO));
            }
            assert(r.files() =~= Map::<u64, Seq<u8>>::empty());
        }
        r
    }

    /// File contents of `ino`.
    pub fn read_file(&self, ino: u64) -> (r: Result<&[u8], FsError>)
        ensures
            match r {
                Ok(d) => self.files().contains_key(ino) && d@ == self.files()[ino],
                Err(e) => !self.files().contains_key(ino) && e == FsError::FileNotFound,
            },
    {
        match self.file_data.get(&ino) {
            Some(v) => Ok(v.as_slice()),
            None => Err(FsError::FileNotFound),
        }
    }

    /// The listing of directory `ino`.
    pub fn readdir(&self, ino: u64) -> (r: Result<&[DirEntry], FsError>)
        ensures
            match r {
                Ok(d) => self.dirs().contains_key(ino) && entries_view(d@) == self.dirs()[ino],
                Err(e) => !self.dirs().contains_key(ino) && e == FsError::NotADirectory,
            },
    {
        match self.dirs.get(&ino) {
            Some(v) => Ok(v.as_slice()),
            None => Err(FsError::NotADirectory),
        }
    }

    /// The inode `ino`, if it exists.
    pub fn stat(&self, ino: u64) -> (r: Option<&Inode>)
        ensures
            match r {
                Some(i) => self.inodes().contains_key(ino) && i@ == self.inodes()[ino],
                None => !self.inodes().contains_key(ino),
            },
    {
        self.inodes.get(&ino)
    }

    /// The inode number of the first entry named `name` in directory
    /// `parent`.
    pub fn lookup(&self, parent: u64, name: &str) -> (r: Option<u64>)
        ensures
            r == (if self.dirs().contains_key(parent) { first_named(self.dirs()[parent], name@) } else { None }),
    {
        match self.dirs.get(&parent) {
            None => None,
            Some(v) => {
                proof { assert(self.dirs()[parent] == entries_view(v@)); }
                let want = name.as_bytes_vec();
                let mut i: usize = 0;
                while i < v.len()
                    invariant
                        i <= v@.len(), want@ == encode_utf8(name@),
                        self.dirs().contains_key(parent), self.dirs()[parent] == entries_view(v@),
                        first_named(entries_view(v@), name@) == first_named_from(entries_view(v@), name@, i as int),
                    decreases v.len() - i,
                {
                    let have = v[i].name.as_str().as_bytes_vec();
                    proof { lemma_utf8_injective(v@[i as int].name@, name@); }
                    if crate::bytes::bytes_equal(have.as_slice(), want.as_slice()) {
                        return Some(v[i].ino);
                    }
                    i += 1;
                }
                None
            }
        }
    }
}

/// The inode number of the first entry of `es` from `i` on named `name`.
pub open spec fn first_named_from(es: Seq<DirEntryView>, name: Seq<char>, i: int) -> Option<u64>
    decreases es.len() - i,
{
    if i < 0 || i >= es.len() { None } else if es[i].name == name { Some(es[i].ino) } else { first_named_from(es, name, i + 1) }
}

/// The inode number of the first entry of `es` named `name`.
pub open spec fn first_named(es: Seq<DirEntryView>, name: Seq<char>) -> Option<u64> {
    first_named_from(es, name, 0)
}

proof fn lemma_utf8_injective(a: Seq<char>, b: Seq<char>)
    ensures (encode_utf8(a) == encode_utf8(b)) == (a == b),
{
    vstd::utf8::encode_utf8_decode_utf8(a);
    vstd::utf8::encode_utf8_decode_utf8(b);
}

fn dot() -> (s: String)
    ensures s@ == seq!['.'],
{
    let s = String::from_str(".");
    proof { reveal_strlit("."); }
    s
}

fn dot_dot() -> (s: String)
    ensures s@ == seq!['.', '.'],
{
    let s = String::from_str("..");
    proof { reveal_strlit(".."); }
    s
}

/// `n` successive `alloc_block` calls from bitmap `bm`: the bitmap after
/// them and the blocks handed out, or `None` with the bitmap after the one
/// that found no block.
pub open spec fn alloc_n(bm: Seq<u8>, total: u64, n: nat) -> (Seq<u8>, Option<Seq<u64>>)
    decreases n,
{
    if n == 0 {
        (bm, Some(Seq::empty()))
    } else {
        let (bm1, got) = alloc_n(bm, total, (n - 1) as nat);
        match got {
            None => (bm1, None),
            Some(bs) => {
                let (bm2, b) = spec_alloc(bm1, total);
                match b {
                    Some(x) => (bm2, Some(bs.push(x))),
                    None => (bm2, None),
                }
            }
        }
    }
}

/// Once an allocation fails, later ones are not tried.
proof fn lemma_alloc_n_stops(bm: Seq<u8>, total: u64, m: nat, n: nat)
    requires m <= n, alloc_n(bm, total, m).1 is None,
    ensures alloc_n(bm, total, n) == alloc_n(bm, total, m),
    decreases n - m,
{
    if m < n {
        lemma_alloc_n_stops(bm, total, m, (n - 1) as nat);
    }
}

/// Blocks of 512 bytes that `len` bytes take.
pub open spec fn blocks_for(len: int) -> int {
    (len + 511) / 512
}

/// The storage with its bitmap replaced.
pub open spec fn with_bitmap(s: StorageView, bm: Seq<u8>) -> StorageView {
    StorageView { platters: s.platters.update(PLATTER_BITMAP as int, bm), total_blocks: s.total_blocks }
}

proof fn lemma_modes()
    ensures spec_is_dir(MODE_DIR), !spec_is_dir(MODE_FILE),
{
    assert((0o040755u16 & 0o170000u16) == 0o040000u16) by (bit_vector);
    assert((0o100644u16 & 0o170000u16) != 0o040000u16) by (bit_vector);
}

impl PltzFs {
    /// `parent` is an existing directory.
    pub open spec fn is_dir_ino(&self, parent: u64) -> bool {
        self.inodes().contains_key(parent) && spec_is_dir(self.inodes()[parent].mode)
    }

    /// Create a file named `name` holding `data` in directory `parent`,
    /// allocating a block for every 512 bytes.
    pub fn create_file(&mut self, parent: u64, name: &str, data: &[u8]) -> (r: Result<u64, FsError>)
        requires old(self).wf(), old(self).next_ino() < u64::MAX, data.len() + 511 <= usize::MAX,
        ensures
            final(self).wf(),
            r matches Ok(ino) ==> !old(self).inodes().dom().contains(ino)
                && forall|k: u64| #[trigger] old(self).inodes().dom().contains(k) ==> k < ino,
            !old(self).is_dir_ino(parent) ==> r == Err::<u64, FsError>(FsError::ParentNotDirectory)
                && final(self).inodes() == old(self).inodes() && final(self).dirs() == old(self).dirs()
                && final(self).files() == old(self).files() && final(self).next_ino() == old(self).next_ino()
                && final(self).storage() == old(self).storage(),
            old(self).is_dir_ino(parent) ==> {
                let ino = old(self).next_ino();
                let alloc = alloc_n(old(self).storage().platters[PLATTER_BITMAP as int], old(self).storage().total_blocks,
                    blocks_for(data@.len() as int) as nat);
                &&& final(self).next_ino() == ino + 1
                &&& final(self).storage() == with_bitmap(old(self).storage(), alloc.0)
                &&& match alloc.1 {
                    None => r == Err::<u64, FsError>(FsError::NoSpace)
                        && final(self).inodes() == old(self).inodes() && final(self).dirs() == old(self).dirs()
                        && final(self).files() == old(self).files(),
                    Some(addrs) => r == Ok::<u64, FsError>(ino)
                        && final(self).inodes() == old(self).inodes().insert(ino, InodeView {
                            size: data@.len() as u64, blocks: blocks_for(data@.len() as int) as u64, block_addrs: addrs,
                            ..fresh_inode(ino, MODE_FILE, 0, 0, 1, final(self).inodes()[ino].atime)
                        })
                        && final(self).files() == old(self).files().insert(ino, data@)
                        && final(self).dirs() == old(self).dirs().insert(parent,
                            old(self).dirs()[parent].push(DirEntryView { ino, name: name@ })),
                }
            },
    {
        let is_dir = match self.inodes.get(&parent) { Some(i) => i.is_dir(), None => false };
        if !is_dir {
            return Err(FsError::ParentNotDirectory);
        }
        proof { assert(self.inodes@.contains_key(parent) && spec_is_dir(self.inodes@[parent].mode)); }
        let ghost bm0 = self.storage@.platters[PLATTER_BITMAP as int];
        let ghost s0 = self.storage@;
        proof {
            assert(self.storage@ =~= with_bitmap(s0, bm0));
        }
        let ino = self.next_ino;
        self.next_ino = self.next_ino + 1;
        let mut inode = Inode::new_file(ino, 0, 0);
        inode.size = data.len() as u64;
        let blocks = ((data.len() + 511) / 512) as u64;
        inode.blocks = blocks;
        let mut k: u64 = 0;
        while k < blocks
            invariant
                self.inodes@ == old(self).inodes@, self.dirs@ == old(self).dirs@, self.file_data@ == old(self).file_data@,
                self.next_ino == ino + 1, ino == old(self).next_ino, s0 == old(self).storage@, old(self).wf(),
                self.inodes@.contains_key(parent) && spec_is_dir(self.inodes@[parent].mode),
                k <= blocks, blocks == blocks_for(data@.len() as int), self.storage.wf(),
                self.storage@.total_blocks == s0.total_blocks,
                self.storage@ == with_bitmap(s0, self.storage@.platters[PLATTER_BITMAP as int]),
                self.storage@.platters[PLATTER_BITMAP as int].len() == bm0.len(),
                8 * bm0.len() + 8 <= usize::MAX, bm0 == s0.platters[PLATTER_BITMAP as int],
                alloc_n(bm0, s0.total_blocks, k as nat) == (self.storage@.platters[PLATTER_BITMAP as int], Some(inode.block_addrs@)),
                inode@ == (InodeView { size: data@.len() as u64, blocks, block_addrs: inode@.block_addrs,
                    ..fresh_inode(ino, MODE_FILE, 0, 0, 1, inode.atime) }),
            decreases blocks - k,
        {
            let ghost bm_before = self.storage@.platters[PLATTER_BITMAP as int];
            let got = self.storage.alloc_block();
            proof { crate::pltzfs::storage::lemma_alloc_len(bm_before, s0.total_blocks); }
            match got {
                None => {
                    proof {
                        assert(self.storage@ =~= with_bitmap(s0, self.storage@.platters[PLATTER_BITMAP as int]));
                        assert(alloc_n(bm0, s0.total_blocks, (k + 1) as nat).1 is None);
                        lemma_alloc_n_stops(bm0, s0.total_blocks, (k + 1) as nat, blocks as nat);
                    }
                    return Err(FsError::NoSpace);
                }
                Some(b) => {
                    inode.block_addrs.push(b);
                }
            }
            proof { assert(self.storage@ =~= with_bitmap(s0, self.storage@.platters[PLATTER_BITMAP as int])); }
            k += 1;
        }
        self.inodes.insert(ino, inode);
        self.file_data.insert(ino, crate::bytes::copy_bytes(data));
        let mut listing = self.dirs.remove(&parent).unwrap();
        listing.push(DirEntry { ino, name: String::from_str(name) });
        self.dirs.insert(parent, listing);
        proof {
            lemma_modes();
            assert(self.inodes() =~= old(self).inodes().insert(ino, self.inodes()[ino]));
            assert(self.files() =~= old(self).files().insert(ino, data@));
            assert(entries_view(self.dirs@[parent]@) =~= old(self).dirs()[parent].push(DirEntryView { ino, name: name@ }));
            assert(self.dirs() =~= old(self).dirs().insert(parent, old(self).dirs()[parent].push(DirEntryView { ino, name: name@ })));
        }
        Ok(ino)
    }
}

/// The inode numbers from 1 up to (not including) `hi` that `dom` holds,
/// in increasing order.
pub open spec fn keys_below(dom: Set<u64>, hi: int) -> Seq<u64>
    decreases hi,
{
    if hi <= 1 {
        Seq::empty()
    } else if dom.contains((hi - 1) as u64) {
        keys_below(dom, hi - 1).push((hi - 1) as u64)
    } else {
        keys_below(dom, hi - 1)
    }
}

/// The stored inodes, in inode-number order.
pub open spec fn inode_bytes_of(inodes: Map<u64, InodeView>, keys: Seq<u64>) -> Seq<u8>
    decreases keys.len(),
{
    if keys.len() == 0 { Seq::empty() } else { inode_bytes_of(inodes, keys.drop_last()) + spec_inode_bytes(inodes[keys.last()]) }
}

/// One directory's stored entries.
pub open spec fn listing_bytes(es: Seq<DirEntryView>) -> Seq<u8>
    decreases es.len(),
{
    if es.len() == 0 { Seq::empty() } else { listing_bytes(es.drop_last()) + spec_entry_bytes(es.last()) }
}

/// The stored directory entries, directory by directory in inode-number
/// order.
pub open spec fn dir_bytes_of(dirs: Map<u64, Seq<DirEntryView>>, keys: Seq<u64>) -> Seq<u8>
    decreases keys.len(),
{
    if keys.len() == 0 {
        Seq::empty()
    } else {
        dir_bytes_of(dirs, keys.drop_last()) + (if dirs.contains_key(keys.last()) { listing_bytes(dirs[keys.last()]) } else { Seq::empty() })
    }
}

/// The contents of the files among `keys` whose entry of `pick` is `side`,
/// in inode-number order.
pub open spec fn files_where(files: Map<u64, Seq<u8>>, keys: Seq<u64>, pick: Seq<bool>, side: bool) -> Seq<u8>
    decreases keys.len(),
{
    if keys.len() == 0 {
        Seq::empty()
    } else {
        files_where(files, keys.drop_last(), pick.drop_last(), side)
            + (if files.contains_key(keys.last()) && pick.last() == side { files[keys.last()] } else { Seq::empty() })
    }
}

/// The file contents among `keys`, in inode-number order.
pub open spec fn all_files(files: Map<u64, Seq<u8>>, keys: Seq<u64>) -> Seq<u8>
    decreases keys.len(),
{
    if keys.len() == 0 { Seq::empty() } else {
        all_files(files, keys.drop_last()) + (if files.contains_key(keys.last()) { files[keys.last()] } else { Seq::empty() })
    }
}

/// `data` is put with the structured files: what `encode` gives for it,
/// without compressing unmatched tracks, is under three quarters of its size.
pub open spec fn looks_structured(data: Seq<u8>, table: Seq<FloatTrack>, pick: bool) -> bool {
    exists|c: Seq<u8>| #[trigger] encode_result(c, data, table, RawCompressor::Uncompressed)
        && pick == (c.len() < data.len() * 3 / 4)
}

proof fn lemma_split_files(files: Map<u64, Seq<u8>>, keys: Seq<u64>, pick: Seq<bool>)
    requires pick.len() == keys.len(),
    ensures
        files_where(files, keys, pick, true).len() <= all_files(files, keys).len(),
        files_where(files, keys, pick, false).len() <= all_files(files, keys).len(),
    decreases keys.len(),
{
    if keys.len() > 0 {
        lemma_split_files(files, keys.drop_last(), pick.drop_last());
    }
}

impl PltzFs {
    /// Create directory `name` in directory `parent`, listing "." and "..".
    pub fn mkdir(&mut self, parent: u64, name: &str) -> (r: Result<u64, FsError>)
        requires old(self).wf(), old(self).next_ino() < u64::MAX,
        ensures
            final(self).wf(),
            final(self).files() == old(self).files(), final(self).storage() == old(self).storage(),
            r matches Ok(ino) ==> !old(self).inodes().dom().contains(ino)
                && forall|k: u64| #[trigger] old(self).inodes().dom().contains(k) ==> k < ino,
            !old(self).is_dir_ino(parent) ==> r == Err::<u64, FsError>(FsError::ParentNotDirectory)
                && final(self).inodes() == old(self).inodes() && final(self).dirs() == old(self).dirs()
                && final(self).next_ino() == old(self).next_ino(),
            old(self).is_dir_ino(parent) ==> {
                let ino = old(self).next_ino();
                &&& r == Ok::<u64, FsError>(ino)
                &&& final(self).next_ino() == ino + 1
                &&& final(self).inodes() == old(self).inodes().insert(ino,
                    fresh_inode(ino, MODE_DIR, 0, 0, 2, final(self).inodes()[ino].atime))
                &&& final(self).dirs() == old(self).dirs().insert(ino, fresh_listing(ino, parent)).insert(parent,
                    old(self).dirs()[parent].push(DirEntryView { ino, name: name@ }))
            },
    {
        let is_dir = match self.inodes.get(&parent) { Some(i) => i.is_dir(), None => false };
        if !is_dir {
            return Err(FsError::ParentNotDirectory);
        }
        let ino = self.next_ino;
        self.next_ino = self.next_ino + 1;
        let inode = Inode::new_dir(ino, 0, 0);
        self.inodes.insert(ino, inode);
        let mut listing: Vec<DirEntry> = Vec::new();
        listing.push(DirEntry { ino, name: dot() });
        listing.push(DirEntry { ino: parent, name: dot_dot() });
        self.dirs.insert(ino, listing);
        let mut up = self.dirs.remove(&parent).unwrap();
        up.push(DirEntry { ino, name: String::from_str(name) });
        self.dirs.insert(parent, up);
        proof {
            lemma_modes();
            assert(self.inodes() =~= old(self).inodes().insert(ino, self.inodes()[ino]));
            assert(entries_view(self.dirs@[ino]@) =~= fresh_listing(ino, parent));
            assert(entries_view(self.dirs@[parent]@) =~= old(self).dirs()[parent].push(DirEntryView { ino, name: name@ }));
            assert(self.dirs() =~= old(self).dirs().insert(ino, fresh_listing(ino, parent)).insert(parent,
                old(self).dirs()[parent].push(DirEntryView { ino, name: name@ })));
            assert(self.files() =~= old(self).files());
        }
        Ok(ino)
    }

    /// The inode numbers in use, in increasing order.
    pub open spec fn inos(&self) -> Seq<u64> {
        keys_below(self.inodes().dom(), self.next_ino() as int)
    }
}

/// An exec name for each platter.
pub open spec fn platter_name(i: int) -> Seq<char> {
    if i == 0 { "inodes"@ } else if i == 1 { "dirs"@ } else if i == 2 { "data_structured"@ }
    else if i == 3 { "data_raw"@ } else { "bitmap"@ }
}

fn platter_name_exec(i: usize) -> (s: &'static str)
    ensures s@ == platter_name(i as int),
{
    if i == 0 { "inodes" } else if i == 1 { "dirs" } else if i == 2 { "data_structured" }
    else if i == 3 { "data_raw" } else { "bitmap" }
}

/// What `sync` needs to lay the filesystem out: every file, and every
/// platter it builds, fits in memory with room for its encoding.
pub open spec fn sync_fits(fs: &PltzFs) -> bool {
    &&& inode_bytes_of(fs.inodes(), fs.inos()).len() + 0x400_0000 <= usize::MAX
    &&& dir_bytes_of(fs.dirs(), fs.inos()).len() + 0x400_0000 <= usize::MAX
    &&& all_files(fs.files(), fs.inos()).len() + 0x400_0000 <= usize::MAX
    &&& fs.storage().platters[PLATTER_BITMAP as int].len() + 0x400_0000 <= usize::MAX
    &&& forall|k: u64| #[trigger] fs.files().contains_key(k) ==> fs.files()[k].len() + 0x400_0000 <= usize::MAX
}

impl PltzFs {
    /// Lay the filesystem out onto its platters (inodes and directory
    /// entries in inode order; each file with the structured or the raw data
    /// by how well it encodes) and return the size of the serialized image.
    pub fn sync(&mut self, table: &FloatTable) -> (r: usize)
        requires old(self).wf(), float_table_ok(table.entries@), sync_fits(&*old(self)),
        ensures
            final(self).wf(),
            final(self).inodes() == old(self).inodes(), final(self).dirs() == old(self).dirs(),
            final(self).files() == old(self).files(), final(self).next_ino() == old(self).next_ino(),
            final(self).storage().total_blocks == old(self).storage().total_blocks,
            final(self).storage().platters[PLATTER_BITMAP as int] == old(self).storage().platters[PLATTER_BITMAP as int],
            final(self).storage().platters[PLATTER_INODES as int] == inode_bytes_of(old(self).inodes(), old(self).inos()),
            final(self).storage().platters[PLATTER_DIRS as int] == dir_bytes_of(old(self).dirs(), old(self).inos()),
            exists|pick: Seq<bool>| {
                &&& pick.len() == old(self).inos().len()
                &&& forall|i: int| 0 <= i < pick.len() && old(self).files().contains_key(old(self).inos()[i]) ==>
                    looks_structured(old(self).files()[old(self).inos()[i]], table.entries@, #[trigger] pick[i])
                &&& final(self).storage().platters[PLATTER_DATA_STRUCTURED as int]
                    == files_where(old(self).files(), old(self).inos(), pick, true)
                &&& final(self).storage().platters[PLATTER_DATA_RAW as int]
                    == files_where(old(self).files(), old(self).inos(), pick, false)
            },
            exists|img: Seq<u8>| img.len() == r && #[trigger] image_of(img, final(self).storage(), table.entries@),
    {
        let ghost dom = self.inodes().dom();
        let mut inos: Vec<u64> = Vec::new();
        let mut k: u64 = 1;
        while k < self.next_ino
            invariant
                1 <= k <= self.next_ino, self.inodes@ == old(self).inodes@, self.next_ino == old(self).next_ino,
                dom == old(self).inodes().dom(), inos@ == keys_below(dom, k as int),
            decreases self.next_ino - k,
        {
            if self.inodes.contains_key(&k) {
                inos.push(k);
            }
            proof { assert(self.inodes().dom().contains(k) == self.inodes@.contains_key(k)); }
            k += 1;
        }
        proof { lemma_keys_in(dom, self.next_ino as int); }
        // inodes
        let mut inode_data: Vec<u8> = Vec::new();
        let mut i: usize = 0;
        while i < inos.len()
            invariant
                self.inodes@ == old(self).inodes@, inos@ == old(self).inos(), i <= inos@.len(),
                forall|j: int| 0 <= j < inos@.len() ==> self.inodes@.contains_key(#[trigger] inos@[j]),
                inode_data@ == inode_bytes_of(old(self).inodes(), inos@.subrange(0, i as int)),
            decreases inos.len() - i,
        {
            let b = self.inodes.get(&inos[i]).unwrap().to_bytes();
            crate::bytes::push_bytes(&mut inode_data, b.as_slice());
            proof { assert(inos@.subrange(0, i + 1).drop_last() =~= inos@.subrange(0, i as int)); }
            i += 1;
        }
        proof { assert(inos@.subrange(0, inos@.len() as int) =~= inos@); }
        // directory entries
        let mut dir_data: Vec<u8> = Vec::new();
        let mut i: usize = 0;
        while i < inos.len()
            invariant
                self.dirs@ == old(self).dirs@, inos@ == old(self).inos(), i <= inos@.len(),
                dir_data@ == dir_bytes_of(old(self).dirs(), inos@.subrange(0, i as int)),
            decreases inos.len() - i,
        {
            let ghost before = dir_data@;
            match self.dirs.get(&inos[i]) {
                Some(es) => {
                    let mut j: usize = 0;
                    while j < es.len()
                        invariant
                            j <= es@.len(), dir_data@ == before + listing_bytes(entries_view(es@).subrange(0, j as int)),
                        decreases es.len() - j,
                    {
                        let b = es[j].to_bytes();
                        crate::bytes::push_bytes(&mut dir_data, b.as_slice());
                        proof {
                            assert(entries_view(es@).subrange(0, j + 1).drop_last() =~= entries_view(es@).subrange(0, j as int));
                        }
                        j += 1;
                    }
                    proof { assert(entries_view(es@).subrange(0, es@.len() as int) =~= entries_view(es@)); }
                }
                None => {}
            }
            proof { assert(inos@.subrange(0, i + 1).drop_last() =~= inos@.subrange(0, i as int)); }
            i += 1;
        }
        proof { assert(inos@.subrange(0, inos@.len() as int) =~= inos@); }
        // file data
        let mut structured: Vec<u8> = Vec::new();
        let mut raw: Vec<u8> = Vec::new();
        let ghost mut pick: Seq<bool> = Seq::empty();
        let mut i: usize = 0;
        while i < inos.len()
            invariant
                self.file_data@ == old(self).file_data@, inos@ == old(self).inos(), i <= inos@.len(), pick.len() == i,
                float_table_ok(table.entries@),
                forall|k: u64| #[trigger] old(self).files().contains_key(k) ==> old(self).files()[k].len() + 0x400_0000 <= usize::MAX,
                forall|j: int| 0 <= j < i && old(self).files().contains_key(inos@[j]) ==>
                    looks_structured(old(self).files()[inos@[j]], table.entries@, #[trigger] pick[j]),
                structured@ == files_where(old(self).files(), inos@.subrange(0, i as int), pick, true),
                raw@ == files_where(old(self).files(), inos@.subrange(0, i as int), pick, false),
            decreases inos.len() - i,
        {
            let ghost p0 = pick;
            proof { assert(old(self).files().contains_key(inos@[i as int]) == self.file_data@.contains_key(inos@[i as int])); }
            match self.file_data.get(&inos[i]) {
                Some(data) => {
                    proof {
                        assert(old(self).files().contains_key(inos@[i as int]));
                        assert(data@ == old(self).files()[inos@[i as int]]);
                    }
                    let c = encode(data.as_slice(), RawCompressor::Uncompressed, table);
                    let small = (c.len() as u128) < (data.len() as u128) * 3 / 4;
                    if small {
                        crate::bytes::push_bytes(&mut structured, data.as_slice());
                    } else {
                        crate::bytes::push_bytes(&mut raw, data.as_slice());
                    }
                    proof {
                        pick = pick.push(small);
                        assert(encode_result(c@, old(self).files()[inos@[i as int]], table.entries@, RawCompressor::Uncompressed));
                        assert(looks_structured(old(self).files()[inos@[i as int]], table.entries@, pick[i as int]));
                    }
                }
                None => {
                    proof { pick = pick.push(false); }
                }
            }
            proof {
                assert(inos@.subrange(0, i + 1).drop_last() =~= inos@.subrange(0, i as int));
                assert(pick.drop_last() =~= p0);
                assert forall|j: int| 0 <= j < i + 1 && old(self).files().contains_key(inos@[j]) implies
                    looks_structured(old(self).files()[inos@[j]], table.entries@, #[trigger] pick[j]) by {
                    if j < i { assert(pick[j] == p0[j]); }
                }
            }
            i += 1;
        }
        proof {
            assert(inos@.subrange(0, inos@.len() as int) =~= inos@);
            lemma_split_files(old(self).files(), inos@, pick);
        }
        self.storage.write_platter(PLATTER_INODES, inode_data);
        self.storage.write_platter(PLATTER_DIRS, dir_data);
        self.storage.write_platter(PLATTER_DATA_STRUCTURED, structured);
        self.storage.write_platter(PLATTER_DATA_RAW, raw);
        let img = self.storage.serialize(table);
        img.len()
    }

    /// Raw and compressed size of each platter, with its name.
    pub fn stats(&self, table: &FloatTable) -> (r: Vec<(&'static str, usize, usize)>)
        requires
            self.wf(), float_table_ok(table.entries@),
            forall|i: int| 0 <= i < NUM_PLATTERS ==> #[trigger] self.storage().platters[i].len() + 0x400_0000 <= usize::MAX,
        ensures
            r@.len() == NUM_PLATTERS,
            forall|i: int| 0 <= i < NUM_PLATTERS ==> (#[trigger] r@[i]).0@ == platter_name(i)
                && r@[i].1 == self.storage().platters[i].len()
                && exists|c: Seq<u8>| c.len() == r@[i].2
                    && #[trigger] encode_result(c, self.storage().platters[i], table.entries@, RawCompressor::Zlib),
    {
        proof {
            assert forall|j: int| 0 <= j < NUM_PLATTERS implies #[trigger] self.storage@.platters[j].len() + 0x400_0000 <= usize::MAX by {
                assert(self.storage().platters[j].len() + 0x400_0000 <= usize::MAX);
            }
        }
        let st = self.storage.platter_stats(table);
        let mut out: Vec<(&'static str, usize, usize)> = Vec::new();
        let mut i: usize = 0;
        while i < st.len()
            invariant
                st@.len() == NUM_PLATTERS, i <= NUM_PLATTERS, out@.len() == i,
                forall|j: int| 0 <= j < NUM_PLATTERS ==> (#[trigger] st@[j]).0 == self.storage@.platters[j].len()
                    && exists|c: Seq<u8>| c.len() == st@[j].1
                        && #[trigger] encode_result(c, self.storage@.platters[j], table.entries@, RawCompressor::Zlib),
                forall|j: int| 0 <= j < i ==> (#[trigger] out@[j]).0@ == platter_name(j) && out@[j].1 == st@[j].0 && out@[j].2 == st@[j].1,
            decreases st.len() - i,
        {
            let (raw, comp) = st[i];
            out.push((platter_name_exec(i), raw, comp));
            i += 1;
        }
        proof {
            assert forall|j: int| 0 <= j < NUM_PLATTERS implies (#[trigger] out@[j]).0@ == platter_name(j)
                && out@[j].1 == self.storage().platters[j].len()
                && exists|c: Seq<u8>| c.len() == out@[j].2
                    && #[trigger] encode_result(c, self.storage().platters[j], table.entries@, RawCompressor::Zlib) by {
                assert(st@[j].0 == self.storage@.platters[j].len());
            }
        }
        out
    }
}

proof fn lemma_keys_in(dom: Set<u64>, hi: int)
    requires hi <= u64::MAX + 1,
    ensures forall|i: int| 0 <= i < keys_below(dom, hi).len() ==> dom.contains(#[trigger] keys_below(dom, hi)[i]),
    decreases hi,
{
    if hi > 1 {
        lemma_keys_in(dom, hi - 1);
        let prev = keys_below(dom, hi - 1);
        let cur = keys_below(dom, hi);
        assert forall|i: int| 0 <= i < cur.len() implies dom.contains(#[trigger] cur[i]) by {
            if i < prev.len() { assert(cur[i] == prev[i]); }
        }
    }
}

} // verus!
