//! The memory block: an opaque, size-tagged byte buffer, the unit of
//! allocation and deallocation.
//!
//! A block's size never changes after creation. Consumers address a block in
//! 8-byte little-endian words through [`MemoryBlock::load_word`] and
//! [`MemoryBlock::store_word`]; the word layer is the only place where byte
//! encoding is reasoned about, so the containers above it work purely with
//! `word_at` values.

use vstd::bytes::lemma_auto_spec_u64_to_from_le_bytes;
use vstd::bytes::spec_u64_from_le_bytes;
use vstd::bytes::spec_u64_to_le_bytes;
use vstd::bytes::spec_u64_to_le_bytes_to_open;
use vstd::bytes::u64_from_le_bytes;
use vstd::bytes::u64_to_le_bytes;
use vstd::prelude::*;
use vstd::slice::slice_subrange;

verus! {

/// The 8-byte word stored little-endian at byte offset `8 * i`.
pub open spec fn word_at(bytes: Seq<u8>, i: int) -> u64 {
    spec_u64_from_le_bytes(bytes.subrange(8 * i, 8 * i + 8))
}

/// Every byte of the buffer is zero, as in a freshly allocated block.
pub open spec fn all_zero(bytes: Seq<u8>) -> bool {
    forall|i: int| 0 <= i < bytes.len() ==> bytes[i] == 0
}

/// An opaque, size-tagged byte buffer obtained from the allocator.
///
/// A block is exclusively owned by exactly one party at a time: a cache (while
/// free) or one container (while in use). The `size` of a block is the length
/// of its buffer and never changes after creation. A block handed out by a
/// cache may contain stale bytes from a prior use; only freshly created
/// blocks are zero-filled.
pub struct MemoryBlock {
    bytes: Vec<u8>,
}

impl MemoryBlock {
    /// The block's contents as a byte sequence.
    pub closed spec fn view(&self) -> Seq<u8> {
        self.bytes@
    }

    pub open spec fn spec_size(&self) -> nat {
        self@.len()
    }

    /// The size the block was created with: the length of its buffer.
    pub fn size(&self) -> (n: usize)
        ensures
            n == self.spec_size(),
    {
        self.bytes.len()
    }

    /// Read one byte of the block.
    pub fn byte_at(&self, i: usize) -> (v: u8)
        requires
            i < self.spec_size(),
        ensures
            v == self@[i as int],
    {
        self.bytes[i]
    }

    /// A fresh, zero-filled block of the requested size.
    pub fn new_zeroed(size: usize) -> (b: MemoryBlock)
        ensures
            b@.len() == size,
            all_zero(b@),
    {
        let mut bytes: Vec<u8> = Vec::new();
        let mut i: usize = 0;
        while i < size
            invariant
                i <= size,
                bytes@.len() == i,
                all_zero(bytes@),
            decreases size - i,
        {
            bytes.push(0u8);
            i = i + 1;
        }
        MemoryBlock { bytes }
    }

    /// Read the 8-byte word at word index `i`.
    pub fn load_word(&self, i: usize) -> (w: u64)
        requires
            8 * i + 8 <= self.spec_size(),
        ensures
            w == word_at(self@, i as int),
    {
        let n = self.bytes.len();
        assert(8 * i + 8 <= n);
        let s = slice_subrange(self.bytes.as_slice(), 8 * i, 8 * i + 8);
        u64_from_le_bytes(s)
    }

    /// Write the 8-byte word at word index `i`, leaving every other word (and
    /// every byte outside the word's range) unchanged.
    pub fn store_word(&mut self, i: usize, w: u64)
        requires
            8 * i + 8 <= old(self).spec_size(),
        ensures
            final(self)@.len() == old(self)@.len(),
            word_at(final(self)@, i as int) == w,
            forall|j: int|
                0 <= j && 8 * j + 8 <= old(self)@.len() && j != i as int ==> word_at(
                    final(self)@,
                    j,
                ) == word_at(old(self)@, j),
            forall|k: int|
                0 <= k < old(self)@.len() && !(8 * i <= k < 8 * i + 8) ==> final(self)@[k] == old(
                    self,
                )@[k],
    {
        let bs = u64_to_le_bytes(w);
        let n = self.bytes.len();
        assert(8 * i + 8 <= n);
        let base = 8 * i;
        let mut k: usize = 0;
        while k < 8
            invariant
                k <= 8,
                base == 8 * i,
                8 * i + 8 <= self@.len(),
                bs@ == spec_u64_to_le_bytes(w),
                bs@.len() == 8,
                self@.len() == old(self)@.len(),
                forall|j: int| 0 <= j < k ==> self@[8 * i + j] == bs@[j],
                forall|j: int|
                    0 <= j < old(self)@.len() && !(8 * i <= j < 8 * i + k) ==> self@[j] == old(
                        self,
                    )@[j],
            decreases 8 - k,
        {
            let byte = bs[k];
            self.bytes.set(base + k, byte);
            k = k + 1;
        }
        proof {
            lemma_auto_spec_u64_to_from_le_bytes();
            assert(self@.subrange(8 * i, 8 * i + 8) =~= spec_u64_to_le_bytes(w));
            assert forall|j: int|
                0 <= j && 8 * j + 8 <= old(self)@.len() && j != i as int implies word_at(
                self@,
                j,
            ) == word_at(old(self)@, j) by {
                assert(self@.subrange(8 * j, 8 * j + 8) =~= old(self)@.subrange(8 * j, 8 * j + 8));
            }
        }
    }
}

/// Every word of an all-zero buffer reads as zero.
pub proof fn lemma_word_at_zero(bytes: Seq<u8>, i: int)
    requires
        all_zero(bytes),
        0 <= i,
        8 * i + 8 <= bytes.len(),
    ensures
        word_at(bytes, i) == 0,
{
    lemma_auto_spec_u64_to_from_le_bytes();
    spec_u64_to_le_bytes_to_open(0u64);
    assert((0u64 & 0xff) == 0 && ((0u64 >> 8) & 0xff) == 0 && ((0u64 >> 16) & 0xff) == 0 && ((0u64
        >> 24) & 0xff) == 0 && ((0u64 >> 32) & 0xff) == 0 && ((0u64 >> 40) & 0xff) == 0 && ((0u64
        >> 48) & 0xff) == 0 && ((0u64 >> 56) & 0xff) == 0) by (bit_vector);
    assert(bytes.subrange(8 * i, 8 * i + 8) =~= spec_u64_to_le_bytes(0u64));
}

} // verus!
