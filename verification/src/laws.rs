//! What holds of the allocator across its operations.

use vstd::prelude::*;
use crate::block::MemoryBlock;
use crate::block::MEMORY_SIZE;
use crate::model::lists_table;
use crate::model::slot;
use crate::model::ManagerView;
use crate::preservation::lemma_slot_exists;

verus! {

/// Two listings of one table agree on their first `k` blocks.
proof fn lemma_listings_agree(
    table: Map<usize, MemoryBlock>,
    a: Seq<MemoryBlock>,
    b: Seq<MemoryBlock>,
    k: int,
)
    requires
        lists_table(table, a),
        lists_table(table, b),
        0 <= k <= a.len(),
    ensures
        forall|j: int| 0 <= j < k ==> a[j] == b[j],
    decreases k,
{
    if k > 0 {
        lemma_listings_agree(table, a, b, k - 1);
        let i = k - 1;
        let x = a[i].id->0;
        let y = b[i].id->0;
        assert(table[x] == a[i] && table[y] == b[i]);
        if x < y {
            let m = choose|m: int| 0 <= m < b.len() && #[trigger] b[m] == table[x];
            if m < i {
                assert(a[m] == b[m]);
                assert(a[m].id->0 < a[i].id->0);
            } else if m > i {
                assert(b[i].id->0 < b[m].id->0);
            }
        } else if y < x {
            let m = choose|m: int| 0 <= m < a.len() && #[trigger] a[m] == table[y];
            if m < i {
                assert(a[m] == b[m]);
                assert(b[m].id->0 < b[i].id->0);
            } else if m > i {
                assert(a[i].id->0 < a[m].id->0);
            }
        }
    }
}

impl ManagerView {
    /// A state has one report only: whatever two sequences list its blocks
    /// are equal.
    pub proof fn lemma_listing_is_unique(self, a: Seq<MemoryBlock>, b: Seq<MemoryBlock>)
        requires
            self.is_listing(a),
            self.is_listing(b),
        ensures
            a == b,
    {
        let n = self.free.len() as int;
        let ta = a.subrange(n, a.len() as int);
        let tb = b.subrange(n, b.len() as int);
        lemma_listings_agree(self.allocated, ta, tb, ta.len() as int);
        assert forall|j: int| 0 <= j < a.len() implies a[j] == b[j] by {
            if j < n {
                assert(a.subrange(0, n)[j] == b.subrange(0, n)[j]);
            } else {
                assert(ta[j - n] == tb[j - n]);
            }
        }
        assert(a =~= b);
    }

    /// A release adds one block to the free index, the range of the released
    /// block, and merges nothing: every block that was free stays as it was.
    pub proof fn lemma_release_adds_one_block(self, id: usize)
        requires
            self.wf(),
            self.allocated.contains_key(id),
        ensures
            self.release(id).free.len() == self.free.len() + 1,
            self.release(id).free.contains(
                MemoryBlock::free(self.allocated[id].start, self.allocated[id].size),
            ),
            forall|i: int|
                0 <= i < self.free.len() ==> self.release(id).free.contains(
                    #[trigger] self.free[i],
                ),
    {
        let b = self.allocated[id];
        let f = MemoryBlock::free(b.start, b.size);
        let q = slot(self.free, b.size);
        let after = self.release(id).free;
        lemma_slot_exists(self.free, b.size);
        assert(after == self.free.insert(q, f));
        assert(after[q] == f);
        assert forall|i: int| 0 <= i < self.free.len() implies after.contains(
            #[trigger] self.free[i],
        ) by {
            let j = if i < q { i } else { i + 1 };
            assert(after[j] == self.free[i]);
        }
    }

    /// Under the invariant every address of the arena lies in exactly one
    /// block: whichever two blocks hold it are the same block.
    pub proof fn lemma_one_owner(self, addr: int)
        requires
            self.wf(),
            0 <= addr < MEMORY_SIZE,
        ensures
            self.is_free_at(addr) != self.is_allocated_at(addr),
            forall|i: int, j: int|
                0 <= i < self.free.len() && 0 <= j < self.free.len() && self.free[i].holds(addr)
                    && self.free[j].holds(addr) ==> i == j,
            forall|a: usize, b: usize|
                self.allocated.contains_key(a) && self.allocated.contains_key(b)
                    && self.allocated[a].holds(addr) && self.allocated[b].holds(addr) ==> a == b,
    {
        assert(self.is_free_at(addr) || self.is_allocated_at(addr));
        if self.is_free_at(addr) && self.is_allocated_at(addr) {
            let i = choose|i: int| 0 <= i < self.free.len() && (#[trigger] self.free[i]).holds(addr);
            let a = choose|a: usize|
                self.allocated.contains_key(a) && (#[trigger] self.allocated[a]).holds(addr);
            assert(self.free[i].disjoint(self.allocated[a]));
        }
        assert forall|i: int, j: int|
            0 <= i < self.free.len() && 0 <= j < self.free.len() && self.free[i].holds(addr)
                && self.free[j].holds(addr) implies i == j by {
            if i < j {
                assert(self.free[i].disjoint(self.free[j]));
            }
            if j < i {
                assert(self.free[j].disjoint(self.free[i]));
            }
        }
        assert forall|a: usize, b: usize|
            self.allocated.contains_key(a) && self.allocated.contains_key(b)
                && self.allocated[a].holds(addr) && self.allocated[b].holds(addr) implies a
            == b by {
            if a != b {
                assert(self.allocated[a].disjoint(self.allocated[b]));
            }
        }
    }

    /// The block that an allocation takes is the smallest free block that is
    /// large enough, and the new block starts where that one did.
    pub proof fn lemma_allocation_is_best_fit(self, size: usize, data: Seq<u8>)
        requires
            self.wf(),
            self.can_fit(size),
            data.len() >= size,
        ensures
            ({
                let chosen = self.free[self.best_fit(size)];
                &&& 0 <= self.best_fit(size) < self.free.len()
                &&& chosen.size >= size
                &&& forall|j: int|
                    0 <= j < self.free.len() && (#[trigger] self.free[j]).size >= size
                        ==> chosen.size <= self.free[j].size
                &&& self.allocate(size, data).allocated[self.next_id] == MemoryBlock::owned(
                    chosen.start,
                    size,
                    self.next_id,
                )
            }),
    {
        self.lemma_best_fit_exists(size);
    }

    /// Reading a block right after its allocation gives the first `size`
    /// bytes of the data it was allocated with.
    pub proof fn lemma_read_after_allocate(self, size: usize, data: Seq<u8>)
        requires
            self.wf(),
            self.can_fit(size),
            data.len() >= size,
        ensures
            self.allocate(size, data).allocated.contains_key(self.next_id),
            self.allocate(size, data).contents(self.next_id) == data.subrange(0, size as int),
    {
        self.lemma_best_fit_exists(size);
        let chosen = self.free[self.best_fit(size)];
        assert(chosen.in_arena());
        assert(self.allocate(size, data).contents(self.next_id) =~= data.subrange(
            0,
            size as int,
        ));
    }

    /// After an update a block reads as the new data followed by the bytes
    /// that the block held before behind them.
    pub proof fn lemma_read_after_write(self, id: usize, data: Seq<u8>)
        requires
            self.wf(),
            self.allocated.contains_key(id),
            data.len() <= self.allocated[id].size,
        ensures
            self.write(id, data).contents(id) == data + self.contents(id).subrange(
                data.len() as int,
                self.allocated[id].size as int,
            ),
    {
        assert(self.allocated[id].in_arena());
        assert(self.write(id, data).contents(id) =~= data + self.contents(id).subrange(
            data.len() as int,
            self.allocated[id].size as int,
        ));
    }

    /// An update changes no byte outside the block it is made to.
    pub proof fn lemma_write_leaves_others(self, id: usize, data: Seq<u8>, other: usize)
        requires
            self.wf(),
            self.allocated.contains_key(id),
            data.len() <= self.allocated[id].size,
            self.allocated.contains_key(other),
            other != id,
        ensures
            self.write(id, data).contents(other) == self.contents(other),
    {
        assert(self.allocated[id].in_arena());
        assert(self.allocated[other].in_arena());
        assert(self.allocated[id].disjoint(self.allocated[other]));
        assert(self.write(id, data).contents(other) =~= self.contents(other));
    }

    /// An allocation changes no byte of a block that was allocated before.
    pub proof fn lemma_allocate_leaves_others(self, size: usize, data: Seq<u8>, other: usize)
        requires
            self.wf(),
            self.can_fit(size),
            data.len() >= size,
            self.allocated.contains_key(other),
        ensures
            self.allocate(size, data).allocated.contains_key(other),
            self.allocate(size, data).allocated[other] == self.allocated[other],
            self.allocate(size, data).contents(other) == self.contents(other),
    {
        self.lemma_best_fit_exists(size);
        let p = self.best_fit(size);
        assert(self.free[p].in_arena());
        assert(self.allocated[other].in_arena());
        assert(self.free[p].disjoint(self.allocated[other]));
        assert(other < self.next_id);
        assert(self.allocate(size, data).contents(other) =~= self.contents(other));
    }

    /// A release leaves every other allocated block and every byte as it was.
    pub proof fn lemma_release_leaves_others(self, id: usize, other: usize)
        requires
            self.wf(),
            self.allocated.contains_key(id),
            self.allocated.contains_key(other),
            other != id,
        ensures
            !self.release(id).allocated.contains_key(id),
            self.release(id).allocated.contains_key(other),
            self.release(id).allocated[other] == self.allocated[other],
            self.release(id).contents(other) == self.contents(other),
            self.release(id).memory == self.memory,
            self.release(id).next_id == self.next_id,
    {
    }
}

} // verus!
