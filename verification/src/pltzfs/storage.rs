//! Multi-platter storage: five byte platters (inodes, directory entries,
//! structured file data, raw file data, free-block bitmap), each
//! compressed independently when the whole is serialized.
use vstd::prelude::*;
use crate::bytes::{le16, le32, le64, u16_bytes, u32_bytes, u64_bytes, push_u16, push_u32, push_u64, push_bytes,
    read_u16, read_u32, read_u64, filled};
use crate::pattern::{DecodeError, FloatTable, FloatTrack, float_table_ok};
use crate::raw::RawCompressor;
use crate::codec::{encode, decode, encode_result, encode_ok, spec_decode, frame, frames};

verus! {

/// Bytes per block.
pub const BLOCK_SIZE: usize = 512;
/// Number of platters.
pub const NUM_PLATTERS: usize = 5;

pub const PLATTER_INODES: usize = 0;
pub const PLATTER_DIRS: usize = 1;
pub const PLATTER_DATA_STRUCTURED: usize = 2;
pub const PLATTER_DATA_RAW: usize = 3;
pub const PLATTER_BITMAP: usize = 4;

/// Why a serialized image was refused.
#[derive(Debug, Clone, Copy, PartialEq, Eq, Structural)]
pub enum StorageError {
    /// it does not start with "PZFS"
    BadMagic,
    /// it holds another number of platters than `NUM_PLATTERS`
    PlatterCount(usize),
    /// a platter did not decode
    Decode(DecodeError),
}

/// In-memory multi-platter storage.
pub struct Storage {
    platters: Vec<Vec<u8>>,
    total_blocks: u64,
}

/// Storage as values: the platters' bytes and the number of blocks.
#[verifier::ext_equal]
pub struct StorageView {
    pub platters: Seq<Seq<u8>>,
    pub total_blocks: u64,
}

impl View for Storage {
    type V = StorageView;

    closed spec fn view(&self) -> StorageView {
        StorageView { platters: Seq::new(self.platters@.len(), |i: int| self.platters@[i]@), total_blocks: self.total_blocks }
    }
}

// ---------------------------------------------------------------- the free-block bitmap

/// Bit `k` (0 = least significant) of byte `b` is set.
pub open spec fn bit_of(b: u8, k: int) -> bool {
    (b >> (k as u8)) & 1u8 == 1u8
}

/// Block `n` is marked used in bitmap `bm`.
pub open spec fn block_used(bm: Seq<u8>, n: int) -> bool {
    bit_of(bm[n / 8], n % 8)
}

/// The first block from `n` on that the bitmap marks free.
pub open spec fn first_free_from(bm: Seq<u8>, n: int) -> Option<int>
    decreases 8 * bm.len() - n,
{
    if n < 0 || n >= 8 * bm.len() { None } else if !block_used(bm, n) { Some(n) } else { first_free_from(bm, n + 1) }
}

/// The bitmap with block `n` marked used.
pub open spec fn mark_used(bm: Seq<u8>, n: int) -> Seq<u8> {
    bm.update(n / 8, bm[n / 8] | (1u8 << ((n % 8) as u8)))
}

/// What `alloc_block` does to bitmap `bm`: the first free block, when it is
/// below `total`, is marked used and returned; otherwise every bit ends up
/// set and nothing is returned.
pub open spec fn spec_alloc(bm: Seq<u8>, total: u64) -> (Seq<u8>, Option<u64>) {
    match first_free_from(bm, 0) {
        Some(n) => if n < total { (mark_used(bm, n), Some(n as u64)) } else { (Seq::new(bm.len(), |i: int| 0xFFu8), None) },
        None => (Seq::new(bm.len(), |i: int| 0xFFu8), None),
    }
}

/// What `free_block` does to bitmap `bm`: the bit of `block` is cleared
/// when its byte lies within the bitmap.
pub open spec fn spec_free(bm: Seq<u8>, block: u64) -> Seq<u8> {
    let i = (block / 8) as usize;
    if (i as int) < bm.len() { bm.update(i as int, bm[i as int] & !(1u8 << ((block % 8) as u8))) } else { bm }
}

proof fn lemma_set_bit(b: u8, k: u8)
    requires k < 8,
    ensures
        bit_of(b | (1u8 << k), k as int),
        forall|j: u8| j < 8 && j != k ==> bit_of(#[trigger] (b | (1u8 << k)), j as int) == bit_of(b, j as int),
        (b & (1u8 << k) == 0u8) == !bit_of(b, k as int),
{
    assert(((b | (1u8 << k)) >> k) & 1u8 == 1u8) by (bit_vector) requires k < 8u8;
    assert forall|j: u8| j < 8 && j != k implies bit_of(#[trigger] (b | (1u8 << k)), j as int) == bit_of(b, j as int) by {
        assert(((b | (1u8 << k)) >> j) & 1u8 == (b >> j) & 1u8) by (bit_vector) requires j < 8u8, k < 8u8, j != k;
    }
    assert((b & (1u8 << k) == 0u8) == !((b >> k) & 1u8 == 1u8)) by (bit_vector) requires k < 8u8;
}

proof fn lemma_full_byte(b: u8)
    ensures (b == 0xFFu8) == (forall|j: u8| j < 8 ==> #[trigger] bit_of(b, j as int)),
{
    if b != 0xFFu8 {
        assert(exists|j: u8| j < 8 && !bit_of(b, j as int)) by {
            assert(b != 0xFFu8 ==> ((b >> 0u8) & 1u8 != 1u8 || (b >> 1u8) & 1u8 != 1u8 || (b >> 2u8) & 1u8 != 1u8
                || (b >> 3u8) & 1u8 != 1u8 || (b >> 4u8) & 1u8 != 1u8 || (b >> 5u8) & 1u8 != 1u8
                || (b >> 6u8) & 1u8 != 1u8 || (b >> 7u8) & 1u8 != 1u8)) by (bit_vector);
            if !bit_of(b, 0) { assert(!bit_of(b, 0u8 as int)); }
            else if !bit_of(b, 1) { assert(!bit_of(b, 1u8 as int)); }
            else if !bit_of(b, 2) { assert(!bit_of(b, 2u8 as int)); }
            else if !bit_of(b, 3) { assert(!bit_of(b, 3u8 as int)); }
            else if !bit_of(b, 4) { assert(!bit_of(b, 4u8 as int)); }
            else if !bit_of(b, 5) { assert(!bit_of(b, 5u8 as int)); }
            else if !bit_of(b, 6) { assert(!bit_of(b, 6u8 as int)); }
            else { assert(!bit_of(b, 7u8 as int)); }
        }
    } else {
        assert forall|j: u8| j < 8 implies #[trigger] bit_of(b, j as int) by {
            assert((0xFFu8 >> j) & 1u8 == 1u8) by (bit_vector) requires j < 8u8;
        }
    }
}

proof fn lemma_clear_after_set(b: u8, k: u8)
    requires k < 8, !bit_of(b, k as int),
    ensures (b | (1u8 << k)) & !(1u8 << k) == b,
{
    assert((b >> k) & 1u8 != 1u8 ==> (b | (1u8 << k)) & !(1u8 << k) == b) by (bit_vector) requires k < 8u8;
}

proof fn lemma_first_free_from(bm: Seq<u8>, n: int)
    requires 0 <= n,
    ensures
        match first_free_from(bm, n) {
            Some(m) => n <= m < 8 * bm.len() && !block_used(bm, m) && forall|j: int| n <= j < m ==> block_used(bm, j),
            None => forall|j: int| n <= j < 8 * bm.len() ==> block_used(bm, j),
        },
    decreases 8 * bm.len() - n,
{
    if n < 8 * bm.len() && block_used(bm, n) {
        lemma_first_free_from(bm, n + 1);
    }
}

/// Allocation keeps the bitmap's length.
pub proof fn lemma_alloc_len(bm: Seq<u8>, total: u64)
    ensures spec_alloc(bm, total).0.len() == bm.len(),
{
    lemma_first_free_from(bm, 0);
}

/// Freeing the block that `alloc_block` handed out gives back the bitmap
/// as it was before the allocation.
pub proof fn law_free_undoes_alloc(bm: Seq<u8>, total: u64)
    requires spec_alloc(bm, total).1 is Some, bm.len() <= usize::MAX,
    ensures spec_free(spec_alloc(bm, total).0, spec_alloc(bm, total).1->0) == bm,
{
    lemma_first_free_from(bm, 0);
    let n = first_free_from(bm, 0)->0;
    let k = (n % 8) as u8;
    assert(0 <= n / 8 < bm.len());
    assert((n as u64) / 8 == n / 8 && (n as u64) % 8 == n % 8);
    lemma_clear_after_set(bm[n / 8], k);
    assert(spec_free(mark_used(bm, n), n as u64) =~= bm);
}

/// Fresh storage: four empty platters and an all-free bitmap of one bit
/// per block.
pub open spec fn empty_storage(total_blocks: u64) -> StorageView {
    StorageView {
        platters: seq![Seq::<u8>::empty(), Seq::<u8>::empty(), Seq::<u8>::empty(), Seq::<u8>::empty(),
            Seq::new(((total_blocks + 7) / 8) as nat, |i: int| 0u8)],
        total_blocks,
    }
}

impl Storage {
    /// Bytes of platter `i`.
    pub closed spec fn platter(&self, i: int) -> Seq<u8> {
        self.platters@[i]@
    }

    /// The storage holds its five platters.
    pub open spec fn wf(&self) -> bool {
        self@.platters.len() == NUM_PLATTERS
    }

    /// Empty platters and an all-free bitmap of one bit per block.
    pub fn new(total_blocks: u64) -> (r: Storage)
        requires total_blocks <= u64::MAX - 7, (total_blocks + 7) / 8 <= usize::MAX,
        ensures r.wf(), r@ == empty_storage(total_blocks),
    {
        let bitmap_size = ((total_blocks + 7) / 8) as usize;
        let mut platters: Vec<Vec<u8>> = Vec::new();
        platters.push(Vec::new());
        platters.push(Vec::new());
        platters.push(Vec::new());
        platters.push(Vec::new());
        platters.push(filled(0, bitmap_size));
        let r = Storage { platters, total_blocks };
        proof { assert(r@.platters =~= empty_storage(total_blocks).platters); }
        r
    }

    /// Read the raw bytes of a platter.
    pub fn read_platter(&self, platter: usize) -> (r: &[u8])
        requires self.wf(), platter < NUM_PLATTERS,
        ensures r@ == self@.platters[platter as int],
    {
        self.platters[platter].as_slice()
    }

    /// Replace the whole content of a platter.
    pub fn write_platter(&mut self, platter: usize, data: Vec<u8>)
        requires old(self).wf(), platter < NUM_PLATTERS,
        ensures
            final(self).wf(), final(self)@.total_blocks == old(self)@.total_blocks,
            final(self)@.platters == old(self)@.platters.update(platter as int, data@),
    {
        self.platters.set(platter, data);
        proof { assert(self@.platters =~= old(self)@.platters.update(platter as int, data@)); }
    }

    /// Append bytes to a platter; returns the offset they start at.
    pub fn append_platter(&mut self, platter: usize, data: &[u8]) -> (r: u64)
        requires old(self).wf(), platter < NUM_PLATTERS,
        ensures
            final(self).wf(), final(self)@.total_blocks == old(self)@.total_blocks,
            r == old(self)@.platters[platter as int].len() as u64,
            final(self)@.platters == old(self)@.platters.update(platter as int, old(self)@.platters[platter as int] + data@),
    {
        let mut p = self.platters[platter].clone();
        let offset = p.len() as u64;
        push_bytes(&mut p, data);
        self.platters.set(platter, p);
        proof {
            assert(self@.platters =~= old(self)@.platters.update(platter as int, old(self)@.platters[platter as int] + data@));
        }
        offset
    }

    /// Allocate a block: mark the first free one used and return it, or
    /// `None` when no free block lies below the block count.
    pub fn alloc_block(&mut self) -> (r: Option<u64>)
        requires old(self).wf(), 8 * old(self)@.platters[PLATTER_BITMAP as int].len() + 8 <= usize::MAX,
        ensures
            final(self).wf(), final(self)@.total_blocks == old(self)@.total_blocks,
            (final(self)@.platters[PLATTER_BITMAP as int], r)
                == spec_alloc(old(self)@.platters[PLATTER_BITMAP as int], old(self)@.total_blocks),
            final(self)@.platters == old(self)@.platters.update(PLATTER_BITMAP as int, final(self)@.platters[PLATTER_BITMAP as int]),
    {
        let ghost bm0 = self@.platters[PLATTER_BITMAP as int];
        let total = self.total_blocks;
        let mut bm = self.platters[PLATTER_BITMAP].clone();
        let ghost s0 = self@;
        proof { lemma_first_free_from(bm0, 0); }
        let mut idx: usize = 0;
        while idx < bm.len()
            invariant
                self.wf(), self@ == s0, s0 == old(self)@, bm0 == s0.platters[PLATTER_BITMAP as int], total == s0.total_blocks,
                idx <= bm@.len(), bm@.len() == bm0.len(), 8 * bm0.len() + 8 <= usize::MAX,
                forall|j: int| 0 <= j < idx ==> bm@[j] == 0xFFu8,
                forall|j: int| idx <= j < bm@.len() ==> bm@[j] == bm0[j],
                forall|m: int| 0 <= m < 8 * idx && !block_used(bm0, m) ==> m >= total,
            decreases bm.len() - idx,
        {
            let byte = bm[idx];
            proof { lemma_full_byte(byte); }
            if byte != 0xFF {
                let mut b = byte;
                let mut bit: u8 = 0;
                while bit < 8
                    invariant
                        self.wf(), self@ == s0, s0 == old(self)@, bm0 == s0.platters[PLATTER_BITMAP as int], total == s0.total_blocks,
                        idx < bm@.len(), bm@.len() == bm0.len(), bit <= 8, 8 * bm0.len() + 8 <= usize::MAX,
                        bm@[idx as int] == b, byte == bm0[idx as int],
                        forall|j: int| 0 <= j < idx ==> bm@[j] == 0xFFu8,
                        forall|j: int| idx < j < bm@.len() ==> bm@[j] == bm0[j],
                        forall|k: u8| k < bit ==> #[trigger] bit_of(b, k as int),
                        forall|k: u8| bit <= k < 8 ==> #[trigger] bit_of(b, k as int) == bit_of(byte, k as int),
                        forall|m: int| 0 <= m < 8 * idx + bit && !block_used(bm0, m) ==> m >= total,
                    decreases 8 - bit,
                {
                    let ghost b_old = b;
                    proof { lemma_set_bit(b, bit); }
                    if b & (1u8 << bit) == 0 {
                        let nb = b | (1u8 << bit);
                        proof { lemma_set_bit(b, bit); }
                        bm.set(idx, nb);
                        let num = (idx * 8 + bit as usize) as u64;
                        proof {
                            let m = idx * 8 + bit;
                            assert(m / 8 == idx && m % 8 == bit) by (nonlinear_arith) requires m == idx * 8 + bit, bit < 8;
                            assert(!block_used(bm0, m));
                        }
                        if num < total {
                            proof {
                                let m = (idx * 8 + bit) as int;
                                lemma_first_free_from(bm0, 0);
                                assert forall|q: int| 0 <= q < m implies block_used(bm0, q) by {
                                    if !block_used(bm0, q) { assert(q >= total); }
                                }
                                assert(first_free_from(bm0, 0) == Some(m)) by {
                                    let f = first_free_from(bm0, 0);
                                    if f is None { assert(block_used(bm0, m)); }
                                    else { let w = f->0; if w < m { assert(block_used(bm0, w)); } else if w > m { assert(block_used(bm0, m)); } }
                                }
                                assert forall|j: int| 0 <= j < idx implies bm0[j] == 0xFFu8 by {
                                    assert forall|k: u8| k < 8 implies #[trigger] bit_of(bm0[j], k as int) by {
                                        let q = 8 * j + k;
                                        assert(q / 8 == j && q % 8 == k as int) by (nonlinear_arith) requires q == 8 * j + k, k < 8, j >= 0;
                                        assert(q < m) by (nonlinear_arith) requires j < idx, k < 8, m == idx * 8 + bit, q == 8 * j + k;
                                        assert(block_used(bm0, q));
                                    }
                                    lemma_full_byte(bm0[j]);
                                }
                                assert forall|k: u8| k < 8 implies #[trigger] bit_of(nb, k as int) == bit_of(byte | (1u8 << bit), k as int) by {
                                    lemma_set_bit(byte, bit);
                                    lemma_set_bit(b, bit);
                                    if k < bit {
                                        let q = 8 * idx + k;
                                        assert(q / 8 == idx && q % 8 == k as int) by (nonlinear_arith) requires q == 8 * idx + k, k < 8;
                                        assert(q < m);
                                        assert(block_used(bm0, q));
                                        assert(bit_of(byte, k as int));
                                        assert(bit_of(b, k as int));
                                        assert(bit_of(nb, k as int) == bit_of(b, k as int));
                                        assert(bit_of(byte | (1u8 << bit), k as int) == bit_of(byte, k as int));
                                    } else if k > bit {
                                        assert(bit_of(b, k as int) == bit_of(byte, k as int));
                                        assert(bit_of(nb, k as int) == bit_of(b, k as int));
                                        assert(bit_of(byte | (1u8 << bit), k as int) == bit_of(byte, k as int));
                                    }
                                }
                                lemma_byte_eq(nb, byte | (1u8 << bit));
                                assert(bm@ =~= mark_used(bm0, m));
                            }
                            self.platters.set(PLATTER_BITMAP, bm);
                            proof {
                                assert(self@.platters =~= old(self)@.platters.update(PLATTER_BITMAP as int, self@.platters[PLATTER_BITMAP as int]));
                            }
                            return Some(num);
                        }
                        b = nb;
                    }
                    proof {
                        let m = 8 * idx + bit;
                        assert(m / 8 == idx && m % 8 == bit) by (nonlinear_arith) requires m == 8 * idx + bit, bit < 8;
                        lemma_set_bit(b_old, bit);
                        assert(bit_of(b, bit as int));
                        assert forall|k: u8| k < bit + 1 implies #[trigger] bit_of(b, k as int) by {
                            if k < bit { assert(bit_of(b_old, k as int)); }
                        }
                        assert forall|k: u8| bit + 1 <= k < 8 implies #[trigger] bit_of(b, k as int) == bit_of(byte, k as int) by {
                            assert(bit_of(b_old, k as int) == bit_of(byte, k as int));
                        }
                        assert forall|q: int| 0 <= q < 8 * idx + bit + 1 && !block_used(bm0, q) implies q >= total by {
                            if q == m {
                                assert(bit_of(b_old, bit as int) == bit_of(byte, bit as int));
                            }
                        }
                    }
                    bit += 1;
                }
                proof {
                    lemma_full_byte(b);
                }
            }
            proof {
                assert forall|m: int| 0 <= m < 8 * (idx + 1) && !block_used(bm0, m) implies m >= total by {
                    if m >= 8 * idx {
                        let k = (m - 8 * idx) as u8;
                        assert(m / 8 == idx && m % 8 == k as int) by (nonlinear_arith) requires m == 8 * idx + k, 0 <= k < 8;
                        if byte == 0xFFu8 { assert(bit_of(byte, k as int)); }
                    }
                }
            }
            idx += 1;
        }
        proof {
            assert(bm@ =~= Seq::new(bm0.len(), |i: int| 0xFFu8));
            lemma_first_free_from(bm0, 0);
            match first_free_from(bm0, 0) {
                Some(n) => { assert(n >= total); }
                None => {}
            }
        }
        self.platters.set(PLATTER_BITMAP, bm);
        proof {
            assert(self@.platters =~= old(self)@.platters.update(PLATTER_BITMAP as int, self@.platters[PLATTER_BITMAP as int]));
        }
        None
    }

    /// Mark a block free again; a block past the bitmap is ignored.
    pub fn free_block(&mut self, block: u64)
        requires old(self).wf(),
        ensures
            final(self).wf(), final(self)@.total_blocks == old(self)@.total_blocks,
            final(self)@.platters == old(self)@.platters.update(PLATTER_BITMAP as int,
                spec_free(old(self)@.platters[PLATTER_BITMAP as int], block)),
    {
        let byte_idx = (block / 8) as usize;
        let bit = (block % 8) as u8;
        let mut bm = self.platters[PLATTER_BITMAP].clone();
        if byte_idx < bm.len() {
            let v = bm[byte_idx] & !(1u8 << bit);
            bm.set(byte_idx, v);
        }
        self.platters.set(PLATTER_BITMAP, bm);
        proof {
            assert(self@.platters =~= old(self)@.platters.update(PLATTER_BITMAP as int,
                spec_free(old(self)@.platters[PLATTER_BITMAP as int], block)));
        }
    }
}

proof fn lemma_byte_eq(a: u8, b: u8)
    requires forall|k: u8| k < 8 ==> #[trigger] bit_of(a, k as int) == bit_of(b, k as int),
    ensures a == b,
{
    assert(bit_of(a, 0u8 as int) == bit_of(b, 0u8 as int));
    assert(bit_of(a, 1u8 as int) == bit_of(b, 1u8 as int));
    assert(bit_of(a, 2u8 as int) == bit_of(b, 2u8 as int));
    assert(bit_of(a, 3u8 as int) == bit_of(b, 3u8 as int));
    assert(bit_of(a, 4u8 as int) == bit_of(b, 4u8 as int));
    assert(bit_of(a, 5u8 as int) == bit_of(b, 5u8 as int));
    assert(bit_of(a, 6u8 as int) == bit_of(b, 6u8 as int));
    assert(bit_of(a, 7u8 as int) == bit_of(b, 7u8 as int));
    assert((((a >> 0u8) & 1u8 == 1u8) == ((b >> 0u8) & 1u8 == 1u8)
        && ((a >> 1u8) & 1u8 == 1u8) == ((b >> 1u8) & 1u8 == 1u8)
        && ((a >> 2u8) & 1u8 == 1u8) == ((b >> 2u8) & 1u8 == 1u8)
        && ((a >> 3u8) & 1u8 == 1u8) == ((b >> 3u8) & 1u8 == 1u8)
        && ((a >> 4u8) & 1u8 == 1u8) == ((b >> 4u8) & 1u8 == 1u8)
        && ((a >> 5u8) & 1u8 == 1u8) == ((b >> 5u8) & 1u8 == 1u8)
        && ((a >> 6u8) & 1u8 == 1u8) == ((b >> 6u8) & 1u8 == 1u8)
        && ((a >> 7u8) & 1u8 == 1u8) == ((b >> 7u8) & 1u8 == 1u8)) ==> a == b) by (bit_vector);
}

// ---------------------------------------------------------------- the serialized image

/// The 14-byte header of a serialized image: magic, block count, platter
/// count.
pub open spec fn pzfs_header(total_blocks: u64) -> Seq<u8> {
    seq![0x50u8, 0x5Au8, 0x46u8, 0x53u8] + u64_bytes(total_blocks) + u16_bytes(NUM_PLATTERS as u16)
}

/// Read platters `k..NUM_PLATTERS` from `off`, each a length and a
/// container that decodes; `None` where the reader would index past the
/// input or the decoder cannot proceed.
pub open spec fn read_platters(data: Seq<u8>, off: int, k: int, acc: Seq<Seq<u8>>, table: Seq<FloatTrack>)
    -> Option<Result<Seq<Seq<u8>>, StorageError>>
    decreases NUM_PLATTERS - k,
{
    if k < 0 || k >= NUM_PLATTERS {
        Some(Ok(acc))
    } else if off + 4 > data.len() || off + 4 + le32(data, off) > data.len() {
        None
    } else {
        let len = le32(data, off);
        match spec_decode(data.subrange(off + 4, off + 4 + len), table) {
            None => None,
            Some(Err(e)) => Some(Err(StorageError::Decode(e))),
            Some(Ok(t)) => read_platters(data, off + 4 + len, k + 1, acc.push(t), table),
        }
    }
}

/// What `deserialize` makes of `data`.
pub open spec fn spec_deserialize(data: Seq<u8>, table: Seq<FloatTrack>) -> Option<Result<StorageView, StorageError>> {
    if data.len() < 14 || !(data[0] == 0x50 && data[1] == 0x5A && data[2] == 0x46 && data[3] == 0x53) {
        Some(Err(StorageError::BadMagic))
    } else if le16(data, 12) != NUM_PLATTERS {
        Some(Err(StorageError::PlatterCount(le16(data, 12) as usize)))
    } else {
        match read_platters(data, 14, 0, Seq::empty(), table) {
            None => None,
            Some(Err(e)) => Some(Err(e)),
            Some(Ok(ps)) => Some(Ok(StorageView { platters: ps, total_blocks: le64(data, 4) as u64 })),
        }
    }
}

/// One step of `read_platters` that does not stop the reader.
proof fn lemma_read_step(data: Seq<u8>, off: int, k: int, acc: Seq<Seq<u8>>, table: Seq<FloatTrack>)
    requires 0 <= k < NUM_PLATTERS, read_platters(data, off, k, acc, table) is Some,
    ensures
        off + 4 <= data.len(), off + 4 + le32(data, off) <= data.len(),
        spec_decode(data.subrange(off + 4, off + 4 + le32(data, off)), table) is Some,
        read_platters(data, off, k, acc, table) == match spec_decode(data.subrange(off + 4, off + 4 + le32(data, off)), table) {
            None => None,
            Some(Err(e)) => Some(Err(StorageError::Decode(e))),
            Some(Ok(t)) => read_platters(data, off + 4 + le32(data, off), k + 1, acc.push(t), table),
        },
{
}

proof fn lemma_read_advance(data: Seq<u8>, off: int, k: int, acc: Seq<Seq<u8>>, t: Seq<u8>, table: Seq<FloatTrack>)
    requires
        0 <= k < NUM_PLATTERS, read_platters(data, off, k, acc, table) is Some,
        off + 4 + le32(data, off) <= data.len(),
        spec_decode(data.subrange(off + 4, off + 4 + le32(data, off)), table) == Some(Ok::<Seq<u8>, DecodeError>(t)),
    ensures read_platters(data, off, k, acc, table) == read_platters(data, off + 4 + le32(data, off), k + 1, acc.push(t), table),
{
    lemma_read_step(data, off, k, acc, table);
}

proof fn lemma_read_fail(data: Seq<u8>, off: int, k: int, acc: Seq<Seq<u8>>, e: DecodeError, table: Seq<FloatTrack>)
    requires
        0 <= k < NUM_PLATTERS, read_platters(data, off, k, acc, table) is Some,
        off + 4 + le32(data, off) <= data.len(),
        spec_decode(data.subrange(off + 4, off + 4 + le32(data, off)), table) == Some(Err::<Seq<u8>, DecodeError>(e)),
    ensures read_platters(data, off, k, acc, table) == Some(Err::<Seq<Seq<u8>>, StorageError>(StorageError::Decode(e))),
{
    lemma_read_step(data, off, k, acc, table);
}

#[verifier::spinoff_prover]
#[verifier::rlimit(40)]
proof fn lemma_read_platters(buf: Seq<u8>, off: int, parts: Seq<Seq<u8>>, ts: Seq<Seq<u8>>, k: int, acc: Seq<Seq<u8>>,
    table: Seq<FloatTrack>)
    requires
        0 <= k <= NUM_PLATTERS, parts.len() == NUM_PLATTERS - k, ts.len() == parts.len(),
        crate::entry::placed(buf, off, frames(parts)),
        forall|i: int| 0 <= i < parts.len() ==> (#[trigger] parts[i]).len() <= 0xFFFF_FFFF,
        forall|i: int| 0 <= i < parts.len() ==> spec_decode(#[trigger] parts[i], table) == Some(Ok::<Seq<u8>, DecodeError>(ts[i])),
    ensures read_platters(buf, off, k, acc, table) == Some(Ok::<Seq<Seq<u8>>, StorageError>(acc + ts)),
    decreases parts.len(),
{
    if parts.len() == 0 {
        assert(acc + ts =~= acc);
    } else {
        crate::codec::lemma_frames_front(parts);
        let c = parts[0];
        crate::stored::lemma_placed_split(buf, off, frame(c), frames(parts.drop_first()));
        crate::stored::lemma_placed_split(buf, off, u32_bytes(c.len() as u32), c);
        crate::bytes::lemma_u32_bytes(c.len() as u32, buf, off);
        assert(buf.subrange(off + 4, off + 4 + c.len()) =~= c);
        let r1 = parts.drop_first();
        let t1 = ts.drop_first();
        assert forall|i: int| 0 <= i < r1.len() implies (#[trigger] r1[i]).len() <= 0xFFFF_FFFF by { assert(r1[i] == parts[i + 1]); }
        assert forall|i: int| 0 <= i < r1.len() implies spec_decode(#[trigger] r1[i], table) == Some(Ok::<Seq<u8>, DecodeError>(t1[i])) by {
            assert(r1[i] == parts[i + 1]);
            assert(t1[i] == ts[i + 1]);
        }
        lemma_read_platters(buf, off + 4 + c.len(), r1, t1, k + 1, acc.push(ts[0]), table);
        assert(acc.push(ts[0]) + t1 =~= acc + ts);
    }
}

/// A serialized image with these stored platters, each decoding to the
/// matching platter of `v`, deserializes to `v`.
#[verifier::spinoff_prover]
#[verifier::rlimit(40)]
proof fn lemma_image_decodes(buf: Seq<u8>, v: StorageView, parts: Seq<Seq<u8>>, table: Seq<FloatTrack>)
    requires
        buf == pzfs_header(v.total_blocks) + frames(parts),
        parts.len() == NUM_PLATTERS, v.platters.len() == NUM_PLATTERS,
        forall|i: int| 0 <= i < parts.len() ==> (#[trigger] parts[i]).len() <= 0xFFFF_FFFF,
        forall|i: int| 0 <= i < parts.len() ==>
            spec_decode(#[trigger] parts[i], table) == Some(Ok::<Seq<u8>, DecodeError>(v.platters[i])),
    ensures spec_deserialize(buf, table) == Some(Ok::<StorageView, StorageError>(v)),
{
    let h = pzfs_header(v.total_blocks);
    assert(buf.subrange(0, buf.len() as int) =~= h + frames(parts));
    crate::stored::lemma_placed_split(buf, 0, h, frames(parts));
    crate::entry::lemma_placed(buf, 0, h);
    assert(buf.subrange(4, 12) =~= u64_bytes(v.total_blocks)) by {
        assert forall|j: int| 0 <= j < 8 implies #[trigger] buf.subrange(4, 12)[j] == u64_bytes(v.total_blocks)[j] by {
            assert(buf[4 + j] == h[4 + j]);
        }
    }
    assert(buf.subrange(12, 14) =~= u16_bytes(NUM_PLATTERS as u16)) by {
        assert forall|j: int| 0 <= j < 2 implies #[trigger] buf.subrange(12, 14)[j] == u16_bytes(NUM_PLATTERS as u16)[j] by {
            assert(buf[12 + j] == h[12 + j]);
        }
    }
    crate::bytes::lemma_u64_bytes(v.total_blocks, buf, 4);
    crate::bytes::lemma_u16_bytes(NUM_PLATTERS as u16, buf, 12);
    assert(buf[0] == h[0] && buf[1] == h[1] && buf[2] == h[2] && buf[3] == h[3]);
    lemma_read_platters(buf, 14, parts, v.platters, 0, Seq::empty(), table);
    assert(Seq::<Seq<u8>>::empty() + v.platters =~= v.platters);
}

/// Read one stored platter at `off`: its length, then the container.
fn read_one(data: &[u8], off: usize, table: &FloatTable) -> (r: Result<(Vec<u8>, usize), DecodeError>)
    requires
        off + 4 <= data@.len(), off + 4 + le32(data@, off as int) <= data@.len(),
        spec_decode(data@.subrange(off + 4, off + 4 + le32(data@, off as int)), table.entries@) is Some,
    ensures
        match r {
            Ok((t, next)) => next == off + 4 + le32(data@, off as int)
                && spec_decode(data@.subrange(off + 4, off + 4 + le32(data@, off as int)), table.entries@)
                    == Some(Ok::<Seq<u8>, DecodeError>(t@)),
            Err(e) => spec_decode(data@.subrange(off + 4, off + 4 + le32(data@, off as int)), table.entries@)
                == Some(Err::<Seq<u8>, DecodeError>(e)),
        },
{
    let n = data.len();
    let comp_len = read_u32(data, off) as usize;
    let start = off + 4;
    let chunk = vstd::slice::slice_subrange(data, start, start + comp_len);
    match decode(chunk, table) {
        Err(e) => Err(e),
        Ok(t) => Ok((t, start + comp_len)),
    }
}

/// `img` is what `serialize` gives for storage `v`: the header, then each
/// platter as its length and what `encode` gives for it with DEFLATE for
/// unmatched tracks; it deserializes back to `v` when every platter is
/// `encode_ok` and every stored platter fits its 32-bit length.
pub open spec fn image_of(img: Seq<u8>, v: StorageView, table: Seq<FloatTrack>) -> bool {
    exists|parts: Seq<Seq<u8>>| {
        &&& parts.len() == NUM_PLATTERS
        &&& img == pzfs_header(v.total_blocks) + #[trigger] frames(parts)
        &&& forall|i: int| 0 <= i < NUM_PLATTERS ==>
            encode_result(#[trigger] parts[i], v.platters[i], table, RawCompressor::Zlib)
        &&& (forall|i: int| 0 <= i < NUM_PLATTERS ==> encode_ok(#[trigger] v.platters[i], table)
                && parts[i].len() <= 0xFFFF_FFFF)
            ==> spec_deserialize(img, table) == Some(Ok::<StorageView, StorageError>(v))
    }
}

impl Storage {
    /// Serialize every platter, each compressed with DEFLATE for tracks that
    /// match no pattern, into one image: the header, then each platter's
    /// length and container.
    pub fn serialize(&self, table: &FloatTable) -> (r: Vec<u8>)
        requires
            self.wf(), float_table_ok(table.entries@),
            forall|i: int| 0 <= i < NUM_PLATTERS ==> #[trigger] self@.platters[i].len() + 0x400_0000 <= usize::MAX,
        ensures image_of(r@, self@, table.entries@),
    {
        let mut buf: Vec<u8> = Vec::new();
        buf.push(0x50);
        buf.push(0x5A);
        buf.push(0x46);
        buf.push(0x53);
        push_u64(&mut buf, self.total_blocks);
        push_u16(&mut buf, NUM_PLATTERS as u16);
        let ghost head = buf@;
        proof { assert(head =~= pzfs_header(self@.total_blocks)); }
        let ghost mut parts: Seq<Seq<u8>> = Seq::empty();
        let mut i: usize = 0;
        while i < NUM_PLATTERS
            invariant
                self.wf(), float_table_ok(table.entries@), i <= NUM_PLATTERS, parts.len() == i,
                forall|j: int| 0 <= j < NUM_PLATTERS ==> #[trigger] self@.platters[j].len() + 0x400_0000 <= usize::MAX,
                buf@ == head + frames(parts),
                forall|j: int| 0 <= j < i ==> encode_result(#[trigger] parts[j], self@.platters[j], table.entries@, RawCompressor::Zlib),
            decreases NUM_PLATTERS - i,
        {
            proof { assert(self.platters@[i as int]@ == self@.platters[i as int]); }
            let c = encode(self.platters[i].as_slice(), RawCompressor::Zlib, table);
            push_u32(&mut buf, c.len() as u32);
            push_bytes(&mut buf, c.as_slice());
            proof {
                assert(parts.push(c@).drop_last() =~= parts);
                parts = parts.push(c@);
                assert(buf@ =~= head + frames(parts));
            }
            i += 1;
        }
        proof {
            if forall|j: int| 0 <= j < NUM_PLATTERS ==> encode_ok(#[trigger] self@.platters[j], table.entries@)
                && parts[j].len() <= 0xFFFF_FFFF {
                assert forall|j: int| 0 <= j < parts.len() implies spec_decode(#[trigger] parts[j], table.entries@)
                    == Some(Ok::<Seq<u8>, DecodeError>(self@.platters[j])) by {
                    assert(encode_ok(self@.platters[j], table.entries@));
                    crate::codec::lemma_pltz_result_decodes(parts[j], self@.platters[j], table.entries@, RawCompressor::Zlib);
                }
                assert forall|j: int| 0 <= j < parts.len() implies (#[trigger] parts[j]).len() <= 0xFFFF_FFFF by {
                    assert(encode_ok(self@.platters[j], table.entries@));
                }
                lemma_image_decodes(buf@, self@, parts, table.entries@);
            }
        }
        buf
    }

    /// Rebuild the storage from a serialized image.
    #[verifier::spinoff_prover]
    #[verifier::rlimit(80)]
    pub fn deserialize(data: &[u8], table: &FloatTable) -> (r: Result<Storage, StorageError>)
        requires spec_deserialize(data@, table.entries@) is Some,
        ensures
            match r {
                Ok(s) => s.wf() && spec_deserialize(data@, table.entries@) == Some(Ok::<StorageView, StorageError>(s@)),
                Err(e) => spec_deserialize(data@, table.entries@) == Some(Err::<StorageView, StorageError>(e)),
            },
    {
        if data.len() < 14 || !(data[0] == 0x50 && data[1] == 0x5A && data[2] == 0x46 && data[3] == 0x53) {
            return Err(StorageError::BadMagic);
        }
        let total_blocks = read_u64(data, 4);
        let num_platters = read_u16(data, 12) as usize;
        if num_platters != NUM_PLATTERS {
            return Err(StorageError::PlatterCount(num_platters));
        }
        let mut platters: Vec<Vec<u8>> = Vec::new();
        let mut offset: usize = 14;
        let mut i: usize = 0;
        let ghost target = read_platters(data@, 14, 0, Seq::empty(), table.entries@);
        let ghost mut acc: Seq<Seq<u8>> = Seq::empty();
        while i < NUM_PLATTERS
            invariant
                data@.len() >= 14, data@[0] == 0x50, data@[1] == 0x5A, data@[2] == 0x46, data@[3] == 0x53,
                le16(data@, 12) == NUM_PLATTERS, total_blocks == le64(data@, 4),
                target == read_platters(data@, 14, 0, Seq::empty(), table.entries@),
                i <= NUM_PLATTERS, platters@.len() == i, acc.len() == i, target is Some,
                forall|j: int| 0 <= j < i ==> #[trigger] acc[j] == platters@[j]@,
                target == read_platters(data@, offset as int, i as int, acc, table.entries@),
            decreases NUM_PLATTERS - i,
        {
            proof { lemma_read_step(data@, offset as int, i as int, acc, table.entries@); }
            match read_one(data, offset, table) {
                Err(e) => {
                    proof { lemma_read_fail(data@, offset as int, i as int, acc, e, table.entries@); }
                    return Err(StorageError::Decode(e));
                }
                Ok((t, next)) => {
                    proof { lemma_read_advance(data@, offset as int, i as int, acc, t@, table.entries@); }
                    platters.push(t);
                    proof { acc = acc.push(platters@[i as int]@); }
                    offset = next;
                }
            }
            i += 1;
        }
        let r = Storage { platters, total_blocks };
        proof {
            assert(r@.platters =~= acc);
            assert(target == Some(Ok::<Seq<Seq<u8>>, StorageError>(r@.platters)));
        }
        Ok(r)
    }

    /// Uncompressed and compressed (DEFLATE fallback) size of each platter.
    pub fn platter_stats(&self, table: &FloatTable) -> (r: Vec<(usize, usize)>)
        requires
            self.wf(), float_table_ok(table.entries@),
            forall|i: int| 0 <= i < NUM_PLATTERS ==> #[trigger] self@.platters[i].len() + 0x400_0000 <= usize::MAX,
        ensures
            r@.len() == NUM_PLATTERS,
            forall|i: int| 0 <= i < NUM_PLATTERS ==> (#[trigger] r@[i]).0 == self@.platters[i].len()
                && exists|c: Seq<u8>| c.len() == r@[i].1
                    && #[trigger] encode_result(c, self@.platters[i], table.entries@, RawCompressor::Zlib),
    {
        let mut out: Vec<(usize, usize)> = Vec::new();
        let mut i: usize = 0;
        while i < NUM_PLATTERS
            invariant
                self.wf(), float_table_ok(table.entries@), i <= NUM_PLATTERS, out@.len() == i,
                forall|j: int| 0 <= j < NUM_PLATTERS ==> #[trigger] self@.platters[j].len() + 0x400_0000 <= usize::MAX,
                forall|j: int| 0 <= j < i ==> (#[trigger] out@[j]).0 == self@.platters[j].len()
                    && exists|c: Seq<u8>| c.len() == out@[j].1
                        && #[trigger] encode_result(c, self@.platters[j], table.entries@, RawCompressor::Zlib),
            decreases NUM_PLATTERS - i,
        {
            proof { assert(self.platters@[i as int]@ == self@.platters[i as int]); }
            let c = encode(self.platters[i].as_slice(), RawCompressor::Zlib, table);
            let ghost before = out@;
            out.push((self.platters[i].len(), c.len()));
            proof {
                assert(encode_result(c@, self@.platters[i as int], table.entries@, RawCompressor::Zlib));
                assert forall|j: int| 0 <= j < i + 1 implies (#[trigger] out@[j]).0 == self@.platters[j].len()
                    && exists|c2: Seq<u8>| c2.len() == out@[j].1
                        && #[trigger] encode_result(c2, self@.platters[j], table.entries@, RawCompressor::Zlib) by {
                    if j < i { assert(out@[j] == before[j]); } else { assert(out@[j].1 == c@.len()); }
                }
            }
            i += 1;
        }
        proof {
            assert forall|k: int| 0 <= k < NUM_PLATTERS implies (#[trigger] out@[k]).0 == self@.platters[k].len()
                && exists|c: Seq<u8>| c.len() == out@[k].1
                    && #[trigger] encode_result(c, self@.platters[k], table.entries@, RawCompressor::Zlib) by {
                assert(0 <= k < i);
            }
        }
        out
    }
}

} // verus!
