//! The growable array: an indexable, appendable sequence of 8-byte element
//! slots backed by one allocator-managed block at a time.
//!
//! Slots `[0, length)` hold live elements; slots `[length, capacity)` are
//! never read. On growth the array asks the facade for a block of twice the
//! capacity, moves every live element into it in order, and only then
//! releases the old block back to the facade.

use crate::allocator::Allocator;
use crate::block::word_at;
use crate::block::MemoryBlock;
use crate::IndexError;
use vstd::arithmetic::power2::lemma_pow2_pos;
use vstd::arithmetic::power2::lemma_pow2_strictly_increases;
use vstd::arithmetic::power2::pow2;
use vstd::prelude::*;

verus! {

/// Number of element slots a fresh array's block provides.
pub const INITIAL_ARRAY_CAPACITY: usize = 4;

/// Bytes per element slot: one 8-byte word.
pub const ELEMENT_SIZE: usize = 8;

/// The capacities an array can have: the initial capacity doubled some
/// number of times.
pub open spec fn is_valid_capacity(c: int) -> bool {
    exists|k: nat| c == INITIAL_ARRAY_CAPACITY * pow2(k)
}

/// A growable sequence of 8-byte elements in one allocator-managed block.
pub struct Array {
    block: MemoryBlock,
    length: usize,
    capacity: usize,
}

impl Array {
    /// The live elements, in append order.
    pub closed spec fn view(&self) -> Seq<u64> {
        Seq::new(self.length as nat, |i: int| word_at(self.block@, i))
    }

    /// The number of element slots the current block provides.
    pub closed spec fn spec_capacity(&self) -> nat {
        self.capacity as nat
    }

    /// The block holds exactly `capacity` slots, the live prefix fits, and
    /// the capacity is valid (the initial capacity, doubled some number of
    /// times).
    closed spec fn wf_base(&self) -> bool {
        &&& self.block@.len() == 8 * self.capacity
        &&& self.length <= self.capacity
        &&& is_valid_capacity(self.capacity as int)
    }

    /// The array's internal invariant: `wf_base`, and the capacity is the
    /// smallest valid one that holds the live prefix (capacity only doubles
    /// when an append finds the array full).
    pub closed spec fn wf(&self) -> bool {
        &&& self.wf_base()
        &&& (self.capacity == INITIAL_ARRAY_CAPACITY || self.capacity < 2 * self.length)
    }

    /// A new, empty array over a block for `INITIAL_ARRAY_CAPACITY` slots.
    /// The request is small, so the shared tier is never touched.
    pub fn new(alloc: &mut Allocator) -> (a: Array)
        requires
            old(alloc).wf(),
        ensures
            final(alloc).wf(),
            final(alloc).global_cache() == old(alloc).global_cache(),
            a.wf(),
            a@ == Seq::<u64>::empty(),
            a.spec_capacity() == INITIAL_ARRAY_CAPACITY,
    {
        let block = alloc.allocate(ELEMENT_SIZE * INITIAL_ARRAY_CAPACITY);
        let a = Array { block, length: 0, capacity: INITIAL_ARRAY_CAPACITY };
        proof {
            assert(a@ =~= Seq::<u64>::empty());
            vstd::arithmetic::power2::lemma2_to64();
            assert(INITIAL_ARRAY_CAPACITY == INITIAL_ARRAY_CAPACITY * pow2(0));
        }
        a
    }

    /// The number of live elements.
    pub fn len(&self) -> (n: usize)
        ensures
            n == self@.len(),
    {
        self.length
    }

    /// The number of slots the current block provides.
    pub fn capacity(&self) -> (n: usize)
        ensures
            n == self.spec_capacity(),
    {
        self.capacity
    }

    /// The element at `index`, or `IndexError` exactly when `index` is not
    /// a live slot.
    pub fn get(&self, index: usize) -> (r: Result<u64, IndexError>)
        requires
            self.wf(),
        ensures
            match r {
                Ok(v) => index < self@.len() && v == self@[index as int],
                Err(e) => index >= self@.len() && e == IndexError,
            },
    {
        if index < self.length {
            Ok(self.block.load_word(index))
        } else {
            Err(IndexError)
        }
    }

    /// Replace the element at `index`, or report `IndexError` exactly when
    /// `index` is not a live slot, leaving the array unchanged.
    pub fn set(&mut self, index: usize, value: u64) -> (r: Result<(), IndexError>)
        requires
            old(self).wf(),
        ensures
            final(self).wf(),
            final(self).spec_capacity() == old(self).spec_capacity(),
            index < old(self)@.len() ==> r == Ok::<(), IndexError>(()) && final(self)@ == old(
                self,
            )@.update(index as int, value),
            index >= old(self)@.len() ==> r == Err::<(), IndexError>(IndexError) && final(self)@
                == old(self)@,
    {
        if index < self.length {
            self.block.store_word(index, value);
            proof {
                assert(self@ =~= old(self)@.update(index as int, value));
            }
            Ok(())
        } else {
            proof {
                assert(self@ =~= old(self)@);
            }
            Err(IndexError)
        }
    }

    /// Append `item` after the last live element, growing first if the
    /// array is full. Every element already present keeps its position and
    /// value.
    pub fn append(&mut self, alloc: &mut Allocator, item: u64)
        requires
            old(self).wf(),
            old(alloc).wf(),
            16 * (old(self)@.len() + 1) <= usize::MAX,
        ensures
            final(self).wf(),
            final(alloc).wf(),
            final(self)@ == old(self)@.push(item),
            final(self).spec_capacity() == if old(self)@.len() == old(self).spec_capacity() {
                2 * old(self).spec_capacity()
            } else {
                old(self).spec_capacity()
            },
    {
        if self.length == self.capacity {
            self.grow(alloc);
        }
        let idx = self.length;
        self.block.store_word(idx, item);
        self.length = idx + 1;
        proof {
            assert(self@ =~= old(self)@.push(item));
        }
    }

    /// Double the capacity: obtain a block of twice the size, move the live
    /// elements into it in order, then release the old block to the facade.
    fn grow(&mut self, alloc: &mut Allocator)
        requires
            old(self).wf(),
            old(alloc).wf(),
            old(self).length == old(self).capacity,
            16 * (old(self).capacity + 1) <= usize::MAX,
        ensures
            final(alloc).wf(),
            final(self).wf_base(),
            final(self)@ == old(self)@,
            final(self).length == old(self).length,
            final(self).capacity == 2 * final(self).length,
            final(self).spec_capacity() == 2 * old(self).spec_capacity(),
    {
        let new_capacity = 2 * self.capacity;
        let mut new_block = alloc.allocate(ELEMENT_SIZE * new_capacity);
        let mut i: usize = 0;
        while i < self.length
            invariant
                i <= self.length,
                *self == *old(self),
                old(self).wf(),
                new_capacity == 2 * self.capacity,
                new_block@.len() == 8 * new_capacity,
                forall|j: int| 0 <= j < i ==> word_at(new_block@, j) == word_at(self.block@, j),
            decreases self.length - i,
        {
            let w = self.block.load_word(i);
            new_block.store_word(i, w);
            i = i + 1;
        }
        core::mem::swap(&mut self.block, &mut new_block);
        alloc.deallocate(new_block);
        self.capacity = new_capacity;
        proof {
            let k = choose|k: nat|
                old(self).capacity as int == INITIAL_ARRAY_CAPACITY * pow2(k);
            assert(self.capacity as int == INITIAL_ARRAY_CAPACITY * pow2(k + 1)) by {
                vstd::arithmetic::power2::lemma_pow2_unfold(k + 1);
            }
            assert(self@ =~= old(self)@);
        }
    }

    /// Give the array up, releasing its block — the one block of
    /// `8 * capacity` bytes the array owned — to the facade. Consuming the
    /// array makes a second release impossible.
    pub fn destroy(self, alloc: &mut Allocator)
        requires
            old(alloc).wf(),
            self.wf(),
        ensures
            final(alloc).wf(),
            exists|bytes: Seq<u8>|
                bytes.len() == 8 * self.spec_capacity() && crate::allocator::dealloc_post(
                    *old(alloc),
                    *final(alloc),
                    bytes,
                ),
    {
        let ghost released = self.block@;
        let ghost cap0 = self.spec_capacity();
        let Array { block, length: _, capacity: _ } = self;
        alloc.deallocate(block);
        proof {
            assert(released.len() == 8 * cap0 && crate::allocator::dealloc_post(
                *old(alloc),
                *alloc,
                released,
            ));
        }
    }
}

/// Array growth keeps the capacity minimal: the capacity of a well-formed
/// array is a valid capacity (the initial one, possibly doubled), holds every
/// live element, and no smaller valid capacity would — so after any sequence
/// of appends the capacity is the smallest doubling of the initial capacity
/// at or above the length.
pub proof fn lemma_array_capacity_minimal(a: &Array, c: int)
    requires
        a.wf(),
        is_valid_capacity(c),
        c >= a@.len(),
    ensures
        is_valid_capacity(a.spec_capacity() as int),
        a@.len() <= a.spec_capacity(),
        c >= a.spec_capacity(),
{
    let k = choose|k: nat| c == INITIAL_ARRAY_CAPACITY * pow2(k);
    lemma_pow2_pos(k);
    if a.spec_capacity() > INITIAL_ARRAY_CAPACITY {
        if c < a.spec_capacity() {
            let kc = choose|kc: nat|
                a.spec_capacity() as int == INITIAL_ARRAY_CAPACITY * pow2(kc);
            assert(pow2(k) < pow2(kc));
            if kc <= k {
                if kc < k {
                    lemma_pow2_strictly_increases(kc, k);
                }
                assert(false);
            }
            assert(k + 1 <= kc);
            if k + 1 < kc {
                lemma_pow2_strictly_increases(k + 1, kc);
            }
            assert(pow2(k + 1) <= pow2(kc));
            assert(2 * c <= a.spec_capacity()) by {
                vstd::arithmetic::power2::lemma_pow2_unfold(k + 1);
            }
            assert(false);
        }
    }
}

} // verus!
