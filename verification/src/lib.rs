//! A tiered size-class memory allocator and the two containers built directly
//! on top of it: a growable array and an open-addressing hash table.
//!
//! Storage moves through the system as [`block::MemoryBlock`] values: opaque,
//! size-tagged byte buffers. A [`manager::MemoryManager`] caches freed blocks
//! by exact size for reuse; the [`allocator::Allocator`] facade routes each
//! request to a small-object tier or a shared tier by a fixed size threshold.
//! The containers never create storage themselves: every block they hold was
//! handed out by the facade, and every block they give up goes back to it.

use vstd::prelude::*;

pub mod allocator;
pub mod array;
pub mod block;
pub mod handle;
pub mod manager;
pub mod table;

verus! {

/// Recoverable failure of an array access: the index lies outside `[0, len)`.
#[derive(Clone, Copy, Debug, PartialEq, Eq, Structural)]
pub struct IndexError;

/// Recoverable failure of a table lookup or deletion: the key is absent.
#[derive(Clone, Copy, Debug, PartialEq, Eq, Structural)]
pub struct KeyError;

/// Recoverable failure of a handle operation: the handle no longer owns a
/// block, so there is nothing to read or release.
#[derive(Clone, Copy, Debug, PartialEq, Eq, Structural)]
pub struct ValueError;

} // verus!
