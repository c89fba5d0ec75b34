//! Blocks: contiguous ranges of the arena.

use vstd::prelude::*;

verus! {

/// Number of bytes in the arena.
pub const MEMORY_SIZE: usize = 65535;

/// A contiguous range of the arena, `size` bytes from `start`.
///
/// A free block has `allocated == false` and no `id`; an allocated block
/// carries the identifier it was issued under.
#[derive(Debug, Clone, Copy, PartialEq, Eq)]
pub struct MemoryBlock {
    pub start: usize,
    pub size: usize,
    pub allocated: bool,
    pub id: Option<usize>,
}

impl MemoryBlock {
    /// The first address past the block.
    pub open spec fn end(self) -> int {
        self.start + self.size
    }

    /// Whether `addr` lies inside the block.
    pub open spec fn holds(self, addr: int) -> bool {
        self.start <= addr < self.end()
    }

    /// Whether the two blocks share no address.
    pub open spec fn disjoint(self, other: MemoryBlock) -> bool {
        self.end() <= other.start || other.end() <= self.start
    }

    /// Whether the block is non-empty and lies inside the arena.
    pub open spec fn in_arena(self) -> bool {
        self.size > 0 && self.end() <= MEMORY_SIZE
    }

    /// Whether the block is marked free.
    pub open spec fn is_free(self) -> bool {
        !self.allocated && self.id is None
    }

    /// Whether the block is marked as allocated under `id`.
    pub open spec fn is_owned_by(self, id: usize) -> bool {
        self.allocated && self.id == Some(id)
    }

    /// The free block of `size` bytes at `start`.
    pub open spec fn free(start: usize, size: usize) -> MemoryBlock {
        MemoryBlock { start, size, allocated: false, id: None }
    }

    /// The block of `size` bytes at `start` allocated under `id`.
    pub open spec fn owned(start: usize, size: usize, id: usize) -> MemoryBlock {
        MemoryBlock { start, size, allocated: true, id: Some(id) }
    }
}

} // verus!
