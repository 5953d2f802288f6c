//! The allocator facade: two cache tiers split by a fixed size threshold.
//!
//! Requests at or below [`SMALL_BLOCK_THRESHOLD`] go to the small-object tier
//! (one such tier belongs to each worker, so its operations need no lock and
//! never touch the shared tier); larger requests go to the shared tier, which
//! an embedder serializes with a lock of its own. Each call routes by size
//! alone and leaves the other tier exactly as it was.

use crate::block::MemoryBlock;
use crate::manager::alloc_post;
use crate::manager::cache_after_put;
use crate::manager::cache_hit;
use crate::manager::cache_top;
use crate::manager::lemma_allocate_reuses_deallocated;
use crate::manager::CacheModel;
use crate::manager::MemoryManager;
use vstd::prelude::*;

verus! {

/// Threshold in bytes at or below which allocations use the small-object
/// tier.
pub const SMALL_BLOCK_THRESHOLD: usize = 256;

/// The allocator facade over the two cache tiers.
///
/// The `local` tier stands for the calling worker's own small-object cache:
/// one instance of `Allocator` belongs to one worker, so nothing here blocks
/// or locks. The `global` tier is the cache an embedder shares between
/// workers, guarded by a lock of the embedder's choosing; the contracts below
/// show that small requests never read or write it.
pub struct Allocator {
    /// The calling worker's own cache for sizes at or below the threshold.
    pub local: MemoryManager,
    /// The shared cache for sizes above the threshold.
    pub global: MemoryManager,
}

/// What one deallocation of a block with contents `bytes` does to the
/// facade: the tier the block's size routes to gains the block on top of its
/// size class's stack, and the other tier is untouched.
pub open spec fn dealloc_post(pre: Allocator, post: Allocator, bytes: Seq<u8>) -> bool {
    if bytes.len() <= SMALL_BLOCK_THRESHOLD {
        post.global_cache() == pre.global_cache() && post.local_cache() == cache_after_put(
            pre.local_cache(),
            bytes,
        )
    } else {
        post.local_cache() == pre.local_cache() && post.global_cache() == cache_after_put(
            pre.global_cache(),
            bytes,
        )
    }
}

impl Allocator {
    pub open spec fn local_cache(&self) -> CacheModel {
        self.local@
    }

    pub open spec fn global_cache(&self) -> CacheModel {
        self.global@
    }

    /// Both tiers keep each block in the size class of its own size.
    pub open spec fn wf(&self) -> bool {
        self.local.wf() && self.global.wf()
    }

    /// A facade over two empty tiers.
    pub fn new() -> (a: Allocator)
        ensures
            a.wf(),
            a.local_cache() == Map::<int, Seq<Seq<u8>>>::empty(),
            a.global_cache() == Map::<int, Seq<Seq<u8>>>::empty(),
    {
        Allocator { local: MemoryManager::new(), global: MemoryManager::new() }
    }

    /// Supply a block of exactly `size` bytes from the tier the size routes
    /// to: a cached block of that exact size if one is free (most recently
    /// freed first, contents stale), else a fresh zero-filled block. The
    /// other tier is untouched — in particular a small request never
    /// contends for the shared tier.
    pub fn allocate(&mut self, size: usize) -> (b: MemoryBlock)
        requires
            old(self).wf(),
        ensures
            final(self).wf(),
            b@.len() == size,
            size <= SMALL_BLOCK_THRESHOLD ==> final(self).global_cache() == old(
                self,
            ).global_cache() && alloc_post(
                old(self).local_cache(),
                final(self).local_cache(),
                size as int,
                b@,
            ),
            size > SMALL_BLOCK_THRESHOLD ==> final(self).local_cache() == old(self).local_cache()
                && alloc_post(
                old(self).global_cache(),
                final(self).global_cache(),
                size as int,
                b@,
            ),
    {
        if size <= SMALL_BLOCK_THRESHOLD {
            self.local.allocate(size)
        } else {
            self.global.allocate(size)
        }
    }

    /// Reclaim a block into the tier its size routes to; the caller gives the
    /// block up. The other tier is untouched.
    pub fn deallocate(&mut self, b: MemoryBlock)
        requires
            old(self).wf(),
        ensures
            final(self).wf(),
            dealloc_post(*old(self), *final(self), b@),
    {
        if b.size() <= SMALL_BLOCK_THRESHOLD {
            self.local.deallocate(b)
        } else {
            self.global.deallocate(b)
        }
    }

    /// Clear both tiers, dropping every cached block. Blocks currently owned
    /// by live containers are unaffected.
    pub fn cleanup(&mut self)
        ensures
            final(self).wf(),
            final(self).local_cache() == Map::<int, Seq<Seq<u8>>>::empty(),
            final(self).global_cache() == Map::<int, Seq<Seq<u8>>>::empty(),
    {
        self.global.cleanup();
        self.local.cleanup();
    }
}

/// Allocator reuse at the facade: once a block has been deallocated, the
/// very next allocation of its exact size hits the tier the size routes to
/// and returns that very block — so `deallocate(allocate(size))` followed by
/// `allocate(size)` yields a block whose size is `size`, with the freed
/// block's contents.
pub proof fn lemma_facade_reuse(pre: Allocator, mid: Allocator, bytes: Seq<u8>)
    requires
        dealloc_post(pre, mid, bytes),
    ensures
        bytes.len() <= SMALL_BLOCK_THRESHOLD ==> cache_hit(mid.local_cache(), bytes.len() as int)
            && cache_top(mid.local_cache(), bytes.len() as int) == bytes,
        bytes.len() > SMALL_BLOCK_THRESHOLD ==> cache_hit(mid.global_cache(), bytes.len() as int)
            && cache_top(mid.global_cache(), bytes.len() as int) == bytes,
{
    if bytes.len() <= SMALL_BLOCK_THRESHOLD {
        lemma_allocate_reuses_deallocated(pre.local_cache(), bytes);
    } else {
        lemma_allocate_reuses_deallocated(pre.global_cache(), bytes);
    }
}

} // verus!
