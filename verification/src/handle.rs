//! A consumer-side handle around an allocator block.
//!
//! The allocator itself does not detect double frees; a consumer prevents
//! them by nulling out its own reference when it gives the block up. The
//! handle does exactly that: it holds the block in an `Option`, releases it
//! at most once, and reports an error on any later release.

use crate::allocator::Allocator;
use crate::block::MemoryBlock;
use crate::manager::alloc_post;
use crate::ValueError;
use vstd::prelude::*;

verus! {

/// A handle that owns at most one allocator block.
pub struct BlockHandle {
    data: Option<MemoryBlock>,
}

impl BlockHandle {
    /// The held block's contents, or `None` after release.
    pub closed spec fn view(&self) -> Option<Seq<u8>> {
        match self.data {
            Some(b) => Some(b@),
            None => None,
        }
    }

    /// A handle that owns no block.
    pub fn empty() -> (h: BlockHandle)
        ensures
            h@ is None,
    {
        BlockHandle { data: None }
    }

    /// The size of the held block, or zero after release.
    pub fn size(&self) -> (n: usize)
        ensures
            match self@ {
                Some(bytes) => n == bytes.len(),
                None => n == 0,
            },
    {
        match &self.data {
            Some(b) => b.size(),
            None => 0,
        }
    }

    /// A copy of the held block's contents, or `ValueError` exactly when the
    /// handle holds no block.
    pub fn to_bytes(&self) -> (r: Result<Vec<u8>, ValueError>)
        ensures
            match r {
                Ok(bytes) => self@ is Some && bytes@ == self@->0,
                Err(e) => self@ is None && e == ValueError,
            },
    {
        match &self.data {
            Some(b) => {
                let n = b.size();
                let mut out: Vec<u8> = Vec::new();
                let mut i: usize = 0;
                while i < n
                    invariant
                        i <= n,
                        n == b@.len(),
                        out@.len() == i,
                        forall|j: int| 0 <= j < i ==> out@[j] == b@[j],
                    decreases n - i,
                {
                    let w = b.byte_at(i);
                    out.push(w);
                    i = i + 1;
                }
                proof {
                    assert(out@ =~= b@);
                }
                Ok(out)
            },
            None => Err(ValueError),
        }
    }
}

/// Allocate a block of `size` bytes through the facade and wrap it in a
/// fresh handle.
pub fn allocate_memory(alloc: &mut Allocator, size: usize) -> (h: BlockHandle)
    requires
        old(alloc).wf(),
    ensures
        final(alloc).wf(),
        h@ is Some && h@->0.len() == size,
        size <= crate::allocator::SMALL_BLOCK_THRESHOLD ==> final(alloc).global_cache() == old(
            alloc,
        ).global_cache() && alloc_post(
            old(alloc).local_cache(),
            final(alloc).local_cache(),
            size as int,
            h@->0,
        ),
        size > crate::allocator::SMALL_BLOCK_THRESHOLD ==> final(alloc).local_cache() == old(
            alloc,
        ).local_cache() && alloc_post(
            old(alloc).global_cache(),
            final(alloc).global_cache(),
            size as int,
            h@->0,
        ),
{
    let b = alloc.allocate(size);
    BlockHandle { data: Some(b) }
}

/// Release the handle's block back to the facade; the handle is emptied so a
/// second release reports `ValueError` instead of freeing twice.
pub fn deallocate_memory(alloc: &mut Allocator, h: &mut BlockHandle) -> (r: Result<(), ValueError>)
    requires
        old(alloc).wf(),
    ensures
        final(alloc).wf(),
        final(h)@ is None,
        old(h)@ is Some ==> r == Ok::<(), ValueError>(()) && crate::allocator::dealloc_post(
            *old(alloc),
            *final(alloc),
            old(h)@->0,
        ),
        old(h)@ is None ==> r == Err::<(), ValueError>(ValueError) && final(alloc).local_cache()
            == old(alloc).local_cache() && final(alloc).global_cache() == old(alloc).global_cache(),
{
    match h.data.take() {
        Some(b) => {
            alloc.deallocate(b);
            Ok(())
        },
        None => Err(ValueError),
    }
}

/// Tear the memory system down: clear both cache tiers of the facade.
/// Blocks owned by live handles or containers are unaffected.
pub fn cleanup_memory_system(alloc: &mut Allocator)
    ensures
        final(alloc).wf(),
        final(alloc).local_cache() == Map::<int, Seq<Seq<u8>>>::empty(),
        final(alloc).global_cache() == Map::<int, Seq<Seq<u8>>>::empty(),
{
    alloc.cleanup();
}

} // verus!
