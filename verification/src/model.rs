//! The mathematical model of the allocator: its state as plain sequences and
//! maps, and each operation as a function from state to state.

use vstd::prelude::*;
use crate::block::MemoryBlock;
use crate::block::MEMORY_SIZE;

verus! {

/// Whether the blocks are in order of non-decreasing size.
pub open spec fn sorted_by_size(s: Seq<MemoryBlock>) -> bool {
    forall|i: int, j: int| 0 <= i <= j < s.len() ==> s[i].size <= s[j].size
}

/// Whether `q` is the position behind every block of at most `size` bytes and
/// before every larger one.
pub open spec fn is_slot(s: Seq<MemoryBlock>, size: usize, q: int) -> bool {
    &&& 0 <= q <= s.len()
    &&& forall|j: int| 0 <= j < q ==> (#[trigger] s[j]).size <= size
    &&& forall|j: int| q <= j < s.len() ==> (#[trigger] s[j]).size > size
}

/// The position at which a block of `size` bytes enters a sequence sorted by
/// size: behind the blocks of the same size that are already there.
pub open spec fn slot(s: Seq<MemoryBlock>, size: usize) -> int {
    choose|q: int| is_slot(s, size, q)
}

/// `s` with `b` added at its slot.
pub open spec fn place(s: Seq<MemoryBlock>, b: MemoryBlock) -> Seq<MemoryBlock> {
    s.insert(slot(s, b.size), b)
}

/// `mem` with `bytes` written from address `at` on; every other byte stays.
pub open spec fn overwrite(mem: Seq<u8>, at: int, bytes: Seq<u8>) -> Seq<u8> {
    Seq::new(
        mem.len(),
        |i: int|
            if at <= i < at + bytes.len() {
                bytes[i - at]
            } else {
                mem[i]
            },
    )
}

/// Whether `tail` holds the blocks of `table`, each once, by ascending
/// identifier.
pub open spec fn lists_table(table: Map<usize, MemoryBlock>, tail: Seq<MemoryBlock>) -> bool {
    &&& tail.len() == table.dom().len()
    &&& forall|k: int|
        0 <= k < tail.len() ==> {
            &&& (#[trigger] tail[k]).id is Some
            &&& table.contains_key(tail[k].id->0)
            &&& table[tail[k].id->0] == tail[k]
        }
    &&& forall|k: int, l: int|
        0 <= k < l < tail.len() ==> (#[trigger] tail[k]).id->0 < (#[trigger] tail[l]).id->0
    &&& forall|id: usize| #[trigger]
        table.contains_key(id) ==> exists|k: int|
            0 <= k < tail.len() && #[trigger] tail[k] == table[id]
}

/// The number of bytes in the blocks together.
pub open spec fn total_size(s: Seq<MemoryBlock>) -> int
    decreases s.len(),
{
    if s.len() == 0 {
        0
    } else {
        total_size(s.drop_last()) + s.last().size
    }
}

/// The number of bytes that the allocations among the operations ask for.
pub open spec fn requested(ops: Seq<Operation>) -> int
    decreases ops.len(),
{
    if ops.len() == 0 {
        0
    } else {
        requested(ops.drop_last()) + match ops.last() {
            Operation::Insert { size, data } => size as int,
            _ => 0,
        }
    }
}

/// An operation that changes the allocator.
pub ghost enum Operation {
    /// Allocate `size` bytes filled from `data`.
    Insert { size: usize, data: Seq<u8> },
    /// Release the block of `id`.
    Delete { id: usize },
    /// Write `data` to the start of the block of `id`.
    Update { id: usize, data: Seq<u8> },
}

/// The state of the allocator.
pub ghost struct ManagerView {
    /// The bytes of the arena.
    pub memory: Seq<u8>,
    /// The free blocks, smallest first; among blocks of one size, the one
    /// that was freed first comes first.
    pub free: Seq<MemoryBlock>,
    /// The allocated blocks by identifier.
    pub allocated: Map<usize, MemoryBlock>,
    /// The identifier that the next allocation receives.
    pub next_id: usize,
}

impl ManagerView {
    /// Whether some free block holds `addr`.
    pub open spec fn is_free_at(self, addr: int) -> bool {
        exists|i: int| 0 <= i < self.free.len() && (#[trigger] self.free[i]).holds(addr)
    }

    /// Whether some allocated block holds `addr`.
    pub open spec fn is_allocated_at(self, addr: int) -> bool {
        exists|id: usize|
            self.allocated.contains_key(id) && (#[trigger] self.allocated[id]).holds(addr)
    }

    /// No two blocks, free or allocated, share an address.
    pub open spec fn blocks_disjoint(self) -> bool {
        &&& forall|i: int, j: int|
            0 <= i < j < self.free.len() ==> (#[trigger] self.free[i]).disjoint(
                #[trigger] self.free[j],
            )
        &&& forall|a: usize, b: usize|
            self.allocated.contains_key(a) && self.allocated.contains_key(b) && a != b ==> (
            #[trigger] self.allocated[a]).disjoint(#[trigger] self.allocated[b])
        &&& forall|i: int, a: usize|
            0 <= i < self.free.len() && self.allocated.contains_key(a) ==> (
            #[trigger] self.free[i]).disjoint(#[trigger] self.allocated[a])
    }

    /// Every address of the arena lies in some block.
    pub open spec fn blocks_cover(self) -> bool {
        forall|addr: int|
            0 <= addr < MEMORY_SIZE ==> #[trigger] self.is_free_at(addr) || self.is_allocated_at(
                addr,
            )
    }

    /// The blocks partition the arena: each lies inside it, no two overlap,
    /// and every address belongs to one.
    pub open spec fn is_partition(self) -> bool {
        &&& forall|i: int| 0 <= i < self.free.len() ==> (#[trigger] self.free[i]).in_arena()
        &&& forall|id: usize| #[trigger]
            self.allocated.contains_key(id) ==> self.allocated[id].in_arena()
        &&& self.blocks_disjoint()
        &&& self.blocks_cover()
    }

    /// The invariant of the allocator.
    pub open spec fn wf(self) -> bool {
        &&& self.memory.len() == MEMORY_SIZE
        &&& self.allocated.dom().finite()
        &&& forall|i: int| 0 <= i < self.free.len() ==> (#[trigger] self.free[i]).is_free()
        &&& sorted_by_size(self.free)
        &&& forall|id: usize| #[trigger]
            self.allocated.contains_key(id) ==> id < self.next_id && self.allocated[id].is_owned_by(
                id,
            )
        &&& self.is_partition()
    }

    /// The state right after initialisation: one free block over the whole
    /// arena, every byte zero, nothing allocated.
    pub open spec fn fresh() -> ManagerView {
        ManagerView {
            memory: Seq::new(MEMORY_SIZE as nat, |i: int| 0u8),
            free: seq![MemoryBlock::free(0, MEMORY_SIZE)],
            allocated: Map::empty(),
            next_id: 0,
        }
    }

    /// The number of free bytes.
    pub open spec fn free_bytes(self) -> int {
        total_size(self.free)
    }

    /// Whether some free block has at least `size` bytes.
    pub open spec fn can_fit(self, size: usize) -> bool {
        exists|i: int| 0 <= i < self.free.len() && (#[trigger] self.free[i]).size >= size
    }

    /// Whether the free block at `p` is the best fit for `size`: it is large
    /// enough, no fitting block is smaller, and of the fitting blocks of its
    /// own size it comes first.
    pub open spec fn is_best_fit(self, size: usize, p: int) -> bool {
        &&& 0 <= p < self.free.len()
        &&& self.free[p].size >= size
        &&& forall|j: int|
            0 <= j < self.free.len() && (#[trigger] self.free[j]).size >= size ==> {
                ||| self.free[p].size < self.free[j].size
                ||| self.free[p].size == self.free[j].size && p <= j
            }
    }

    /// The position of the best fit for `size`.
    pub open spec fn best_fit(self, size: usize) -> int {
        choose|p: int| self.is_best_fit(size, p)
    }

    /// The state after allocating `size` bytes filled from `data`.
    ///
    /// The best fit leaves the free index; its first `size` bytes become the
    /// new allocated block under `next_id`; what is left of it, if anything,
    /// goes back into the free index.
    pub open spec fn allocate(self, size: usize, data: Seq<u8>) -> ManagerView
        recommends
            self.can_fit(size),
            data.len() >= size,
    {
        let p = self.best_fit(size);
        let chosen = self.free[p];
        let rest = self.free.remove(p);
        ManagerView {
            memory: overwrite(self.memory, chosen.start as int, data.subrange(0, size as int)),
            free: if chosen.size > size {
                place(
                    rest,
                    MemoryBlock::free(
                        (chosen.start + size) as usize,
                        (chosen.size - size) as usize,
                    ),
                )
            } else {
                rest
            },
            allocated: self.allocated.insert(
                self.next_id,
                MemoryBlock::owned(chosen.start, size, self.next_id),
            ),
            next_id: (self.next_id + 1) as usize,
        }
    }

    /// The state after releasing the block of `id`: the block leaves the
    /// allocated table and its range enters the free index as one block.
    /// Free neighbours are not merged.
    pub open spec fn release(self, id: usize) -> ManagerView
        recommends
            self.allocated.contains_key(id),
    {
        let b = self.allocated[id];
        ManagerView {
            free: place(self.free, MemoryBlock::free(b.start, b.size)),
            allocated: self.allocated.remove(id),
            ..self
        }
    }

    /// Whether `out` is the report of the state: the free blocks in the order
    /// of the free index, then the allocated blocks by ascending identifier.
    pub open spec fn is_listing(self, out: Seq<MemoryBlock>) -> bool {
        &&& out.len() == self.free.len() + self.allocated.dom().len()
        &&& out.subrange(0, self.free.len() as int) == self.free
        &&& lists_table(self.allocated, out.subrange(self.free.len() as int, out.len() as int))
    }

    /// The bytes of the block of `id`.
    pub open spec fn contents(self, id: usize) -> Seq<u8>
        recommends
            self.allocated.contains_key(id),
    {
        let b = self.allocated[id];
        self.memory.subrange(b.start as int, b.end())
    }

    /// The state after writing `data` to the start of the block of `id`.
    pub open spec fn write(self, id: usize, data: Seq<u8>) -> ManagerView
        recommends
            self.allocated.contains_key(id),
            data.len() <= self.allocated[id].size,
    {
        ManagerView { memory: overwrite(self.memory, self.allocated[id].start as int, data), ..self }
    }

    /// The fresh state meets the invariant.
    pub proof fn lemma_fresh_wf()
        ensures
            ManagerView::fresh().wf(),
    {
        let v = ManagerView::fresh();
        assert(v.free[0] == MemoryBlock::free(0, MEMORY_SIZE));
        assert forall|addr: int| 0 <= addr < MEMORY_SIZE implies #[trigger] v.is_free_at(addr) by {
            assert(v.free[0].holds(addr));
        }
    }

    /// Whether the state meets what the operation asks of its caller: an
    /// allocation is of at least one byte, has data for each of them, and
    /// finds an identifier left to issue.
    pub open spec fn admits(self, op: Operation) -> bool {
        match op {
            Operation::Insert { size, data } => {
                &&& size > 0
                &&& data.len() >= size
                &&& self.next_id < usize::MAX
            },
            _ => true,
        }
    }

    /// Whether the operation succeeds in this state.
    pub open spec fn succeeds(self, op: Operation) -> bool {
        match op {
            Operation::Insert { size, data } => self.can_fit(size),
            Operation::Delete { id } => self.allocated.contains_key(id),
            Operation::Update { id, data } => {
                &&& self.allocated.contains_key(id)
                &&& data.len() <= self.allocated[id].size
            },
        }
    }

    /// The identifier that the operation returns: that of the new block where
    /// an allocation succeeds.
    pub open spec fn issues(self, op: Operation) -> Option<usize> {
        if op is Insert && self.succeeds(op) {
            Some(self.next_id)
        } else {
            None
        }
    }

    /// The state after the operation. One that fails changes nothing.
    pub open spec fn step(self, op: Operation) -> ManagerView {
        if !self.succeeds(op) {
            self
        } else {
            match op {
                Operation::Insert { size, data } => self.allocate(size, data),
                Operation::Delete { id } => self.release(id),
                Operation::Update { id, data } => self.write(id, data),
            }
        }
    }

    /// The state after the operations, carried out in order.
    pub open spec fn run(self, ops: Seq<Operation>) -> ManagerView
        decreases ops.len(),
    {
        if ops.len() == 0 {
            self
        } else {
            self.run(ops.drop_last()).step(ops.last())
        }
    }

    /// Whether each of the operations is admitted by the state it meets.
    pub open spec fn admits_all(self, ops: Seq<Operation>) -> bool {
        forall|k: int| 0 <= k < ops.len() ==> (#[trigger] self.run(ops.take(k))).admits(ops[k])
    }
}

} // verus!
