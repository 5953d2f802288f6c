//! The size-class cache: a mapping from block size to a stack of
//! previously-freed blocks of exactly that size.
//!
//! A [`MemoryManager`] reuses the most-recently-freed block of a given size
//! first (last in, first out). Blocks are only reused for requests of the
//! identical size; a request that misses the cache is served with a fresh,
//! zero-filled block and leaves the cache unchanged.

use crate::block::all_zero;
use crate::block::MemoryBlock;
use std::collections::HashMap;
use vstd::prelude::*;

verus! {

broadcast use vstd::std_specs::hash::group_hash_axioms;

/// The model of a cache: each size class maps to the stack of free blocks'
/// contents, bottom first, most recently freed last.
pub type CacheModel = Map<int, Seq<Seq<u8>>>;

/// The stack cached under size class `s`, empty when the class is absent.
pub open spec fn stack_of(m: CacheModel, s: int) -> Seq<Seq<u8>> {
    if m.contains_key(s) {
        m[s]
    } else {
        Seq::empty()
    }
}

/// A request of size `s` would be served from the cache.
pub open spec fn cache_hit(m: CacheModel, s: int) -> bool {
    stack_of(m, s).len() > 0
}

/// The block a hit of size `s` returns: the most recently freed one.
pub open spec fn cache_top(m: CacheModel, s: int) -> Seq<u8> {
    stack_of(m, s).last()
}

/// The cache after a hit of size `s` popped the top block.
pub open spec fn cache_after_take(m: CacheModel, s: int) -> CacheModel {
    if cache_hit(m, s) {
        m.insert(s, m[s].drop_last())
    } else {
        m
    }
}

/// The cache after a block with contents `b` was freed into it.
pub open spec fn cache_after_put(m: CacheModel, b: Seq<u8>) -> CacheModel {
    m.insert(b.len() as int, stack_of(m, b.len() as int).push(b))
}

/// Every cached block has exactly the size of its size class.
pub open spec fn cache_entries_sized(m: CacheModel) -> bool {
    forall|s: int, i: int|
        m.contains_key(s) && 0 <= i < m[s].len() ==> #[trigger] m[s][i].len() == s
}

/// What one allocation of `size` does to a cache tier: on a hit the
/// most-recently-freed block of that exact size comes back and leaves the
/// cache; on a miss the block is fresh and zero-filled and the cache is
/// untouched.
pub open spec fn alloc_post(m0: CacheModel, m1: CacheModel, size: int, bytes: Seq<u8>) -> bool {
    &&& bytes.len() == size
    &&& if cache_hit(m0, size) {
        bytes == cache_top(m0, size) && m1 == cache_after_take(m0, size)
    } else {
        all_zero(bytes) && m1 == m0
    }
}

/// One tier of the allocator: a cache of freed blocks keyed by exact size.
///
/// Created empty; blocks enter on `deallocate`, leave on an `allocate` hit,
/// and the whole cache empties on `cleanup`.
pub struct MemoryManager {
    cache: HashMap<usize, Vec<MemoryBlock>>,
}

impl MemoryManager {
    /// The cache's model: size class to stack of free blocks' contents.
    pub closed spec fn view(&self) -> CacheModel {
        Map::new(
            |s: int| 0 <= s <= usize::MAX as int && self.cache@.contains_key(s as usize),
            |s: int| self.cache@[s as usize]@.map_values(|b: MemoryBlock| b@),
        )
    }

    /// Every cached block sits in the size class of its own size.
    pub open spec fn wf(&self) -> bool {
        cache_entries_sized(self@)
    }

    /// A new manager with an empty cache.
    pub fn new() -> (m: MemoryManager)
        ensures
            m.wf(),
            m@ == Map::<int, Seq<Seq<u8>>>::empty(),
    {
        let m = MemoryManager { cache: HashMap::new() };
        proof {
            assert(m@ =~= Map::<int, Seq<Seq<u8>>>::empty());
        }
        m
    }

    /// Supply a block of exactly `size` bytes: the most recently freed block
    /// of that size if one is cached, else a fresh zero-filled one.
    pub fn allocate(&mut self, size: usize) -> (b: MemoryBlock)
        requires
            old(self).wf(),
        ensures
            final(self).wf(),
            b@.len() == size,
            alloc_post(old(self)@, final(self)@, size as int, b@),
    {
        match self.cache.remove(&size) {
            Some(mut stack) => {
                let popped = stack.pop();
                self.cache.insert(size, stack);
                match popped {
                    Some(b) => {
                        proof {
                            let s0 = old(self)@[size as int];
                            assert(self@[size as int] =~= s0.drop_last());
                            assert(b@ == s0.last());
                            assert(self@ =~~= cache_after_take(old(self)@, size as int));
                            assert(b@.len() == size) by {
                                assert(s0[s0.len() - 1].len() == size);
                            }
                            assert forall|s: int, i: int|
                                self@.contains_key(s) && 0 <= i < self@[s].len() implies #[trigger] self@[s][i].len()
                                == s by {
                                if s == size as int {
                                    assert(old(self)@[s][i].len() == s);
                                } else {
                                    assert(old(self)@[s][i].len() == s);
                                }
                            }
                        }
                        b
                    },
                    None => {
                        proof {
                            assert(self@ =~~= old(self)@);
                        }
                        MemoryBlock::new_zeroed(size)
                    },
                }
            },
            None => {
                proof {
                    assert(self@ =~~= old(self)@);
                }
                MemoryBlock::new_zeroed(size)
            },
        }
    }

    /// Reclaim a block: push it onto the stack of its own size class.
    pub fn deallocate(&mut self, b: MemoryBlock)
        requires
            old(self).wf(),
        ensures
            final(self).wf(),
            final(self)@ == cache_after_put(old(self)@, b@),
    {
        let size = b.size();
        match self.cache.remove(&size) {
            Some(mut stack) => {
                stack.push(b);
                self.cache.insert(size, stack);
                proof {
                    assert(self@ =~~= cache_after_put(old(self)@, b@));
                    assert forall|s: int, i: int|
                        self@.contains_key(s) && 0 <= i < self@[s].len() implies #[trigger] self@[s][i].len()
                        == s by {
                        if s == size as int && i == self@[s].len() - 1 {
                        } else {
                            assert(old(self)@[s][i].len() == s);
                        }
                    }
                }
            },
            None => {
                let mut stack: Vec<MemoryBlock> = Vec::new();
                stack.push(b);
                self.cache.insert(size, stack);
                proof {
                    assert(self@ =~~= cache_after_put(old(self)@, b@));
                    assert forall|s: int, i: int|
                        self@.contains_key(s) && 0 <= i < self@[s].len() implies #[trigger] self@[s][i].len()
                        == s by {
                        if s == size as int {
                        } else {
                            assert(old(self)@[s][i].len() == s);
                        }
                    }
                }
            },
        }
    }

    /// Drop every cached block, leaving the cache empty.
    pub fn cleanup(&mut self)
        ensures
            final(self).wf(),
            final(self)@ == Map::<int, Seq<Seq<u8>>>::empty(),
    {
        self.cache.clear();
        proof {
            assert(self@ =~= Map::<int, Seq<Seq<u8>>>::empty());
        }
    }
}

/// Allocator reuse: freeing a block and then requesting its exact size again
/// hits the cache and returns that very block — the request after
/// `deallocate(allocate(size))` yields a block whose size is `size`, and every
/// size class afterwards holds exactly what it held before.
pub proof fn lemma_allocate_reuses_deallocated(m: CacheModel, b: Seq<u8>)
    ensures
        cache_hit(cache_after_put(m, b), b.len() as int),
        cache_top(cache_after_put(m, b), b.len() as int) == b,
        forall|s: int|
            #[trigger] stack_of(cache_after_take(cache_after_put(m, b), b.len() as int), s)
                == stack_of(m, s),
{
    let size = b.len() as int;
    let put = cache_after_put(m, b);
    assert(put[size] == stack_of(m, size).push(b));
    let took = cache_after_take(put, size);
    assert forall|s: int| #[trigger] stack_of(took, s) == stack_of(m, s) by {
        if s == size {
            assert(stack_of(m, size).push(b).drop_last() =~= stack_of(m, size));
        }
    }
}

} // verus!
