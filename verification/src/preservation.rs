//! Proofs that each operation of the model keeps the invariant.

use vstd::prelude::*;
use crate::block::MemoryBlock;
use crate::block::MEMORY_SIZE;
use crate::free_index::lemma_place_keeps_sorted;
use crate::model::is_slot;
use crate::model::place;
use crate::model::slot;
use crate::model::sorted_by_size;
use crate::model::ManagerView;

verus! {

/// Every prefix of a sorted sequence has a slot for `size`.
proof fn lemma_prefix_slot(s: Seq<MemoryBlock>, size: usize, n: int) -> (q: int)
    requires
        sorted_by_size(s),
        0 <= n <= s.len(),
    ensures
        0 <= q <= n,
        forall|j: int| 0 <= j < q ==> (#[trigger] s[j]).size <= size,
        forall|j: int| q <= j < n ==> (#[trigger] s[j]).size > size,
    decreases n,
{
    if n == 0 {
        0
    } else {
        let q = lemma_prefix_slot(s, size, n - 1);
        if s[n - 1].size <= size {
            assert forall|j: int| 0 <= j < n implies (#[trigger] s[j]).size <= size by {
                assert(s[j].size <= s[n - 1].size);
            }
            n
        } else {
            q
        }
    }
}

/// A sorted sequence has a slot for every size.
pub proof fn lemma_slot_exists(s: Seq<MemoryBlock>, size: usize)
    requires
        sorted_by_size(s),
    ensures
        is_slot(s, size, slot(s, size)),
{
    let q = lemma_prefix_slot(s, size, s.len() as int);
    assert(is_slot(s, size, q));
}

/// Before position `k`, where a block fits, there is a first block that fits.
proof fn lemma_first_fitting(s: Seq<MemoryBlock>, size: usize, k: int) -> (p: int)
    requires
        0 <= k < s.len(),
        s[k].size >= size,
    ensures
        0 <= p <= k,
        s[p].size >= size,
        forall|j: int| 0 <= j < p ==> (#[trigger] s[j]).size < size,
    decreases k,
{
    if exists|j: int| 0 <= j < k && (#[trigger] s[j]).size >= size {
        let j = choose|j: int| 0 <= j < k && (#[trigger] s[j]).size >= size;
        lemma_first_fitting(s, size, j)
    } else {
        k
    }
}

impl ManagerView {
    /// There is at most one best fit.
    pub proof fn lemma_best_fit_is_unique(self, size: usize, p: int)
        requires
            self.is_best_fit(size, p),
        ensures
            self.best_fit(size) == p,
    {
        let r = self.best_fit(size);
        assert(self.is_best_fit(size, r));
        assert(self.free[p].size >= size);
        assert(self.free[r].size >= size);
    }

    /// In a sorted index the first block that fits is the best fit.
    pub proof fn lemma_first_fit_is_best(self, size: usize, p: int)
        requires
            sorted_by_size(self.free),
            0 <= p < self.free.len(),
            self.free[p].size >= size,
            forall|j: int| 0 <= j < p ==> (#[trigger] self.free[j]).size < size,
        ensures
            self.is_best_fit(size, p),
            self.best_fit(size) == p,
    {
        assert forall|j: int|
            0 <= j < self.free.len() && (#[trigger] self.free[j]).size >= size implies {
            ||| self.free[p].size < self.free[j].size
            ||| self.free[p].size == self.free[j].size && p <= j
        } by {
            if j < p {
                assert(self.free[j].size < size);
            } else {
                assert(self.free[p].size <= self.free[j].size);
            }
        }
        self.lemma_best_fit_is_unique(size, p);
    }

    /// Where a block fits, a sorted index has a best fit.
    pub proof fn lemma_best_fit_exists(self, size: usize)
        requires
            sorted_by_size(self.free),
            self.can_fit(size),
        ensures
            self.is_best_fit(size, self.best_fit(size)),
    {
        let k = choose|i: int| 0 <= i < self.free.len() && (#[trigger] self.free[i]).size >= size;
        let p = lemma_first_fitting(self.free, size, k);
        self.lemma_first_fit_is_best(size, p);
    }

    /// Releasing an allocated block keeps the invariant.
    pub proof fn lemma_release_wf(self, id: usize)
        requires
            self.wf(),
            self.allocated.contains_key(id),
        ensures
            self.release(id).wf(),
    {
        let b = self.allocated[id];
        let f = MemoryBlock::free(b.start, b.size);
        let q = slot(self.free, f.size);
        let post = self.release(id);
        lemma_slot_exists(self.free, f.size);
        lemma_place_keeps_sorted(self.free, f, q);
        assert(post.free == self.free.insert(q, f));
        assert(b.in_arena() && b.is_owned_by(id));
        // Each free block of the new state is the released range or an old free block.
        assert forall|j: int| 0 <= j < post.free.len() implies {
            ||| j == q && post.free[j] == f
            ||| j < q && post.free[j] == self.free[j]
            ||| j > q && post.free[j] == self.free[j - 1]
        } by {}
        assert forall|i: int, j: int| 0 <= i < j < post.free.len() implies (
        #[trigger] post.free[i]).disjoint(#[trigger] post.free[j]) by {
            if i == q {
                assert(self.free[j - 1].disjoint(b));
            } else if j == q {
                if i < q {
                    assert(self.free[i].disjoint(b));
                } else {
                    assert(self.free[i - 1].disjoint(b));
                }
            } else {
                let i0 = if i < q { i } else { i - 1 };
                let j0 = if j < q { j } else { j - 1 };
                assert(self.free[i0].disjoint(self.free[j0]));
            }
        }
        assert forall|i: int, a: usize|
            0 <= i < post.free.len() && post.allocated.contains_key(a) implies (
        #[trigger] post.free[i]).disjoint(#[trigger] post.allocated[a]) by {
            assert(self.allocated.contains_key(a) && a != id);
            if i == q {
                assert(self.allocated[a].disjoint(self.allocated[id]));
            } else {
                let i0 = if i < q { i } else { i - 1 };
                assert(self.free[i0].disjoint(self.allocated[a]));
            }
        }
        assert forall|addr: int| 0 <= addr < MEMORY_SIZE implies #[trigger] post.is_free_at(addr)
            || post.is_allocated_at(addr) by {
            if self.is_free_at(addr) {
                let i = choose|i: int|
                    0 <= i < self.free.len() && (#[trigger] self.free[i]).holds(addr);
                let j = if i < q { i } else { i + 1 };
                assert(post.free[j].holds(addr));
            } else {
                assert(self.is_allocated_at(addr));
                let a = choose|a: usize|
                    self.allocated.contains_key(a) && (#[trigger] self.allocated[a]).holds(addr);
                if a == id {
                    assert(post.free[q].holds(addr));
                } else {
                    assert(post.allocated.contains_key(a));
                    assert(post.allocated[a].holds(addr));
                }
            }
        }
    }

    /// The state in which the free block at `p` has become, whole, the
    /// allocated block of `next_id`.
    spec fn claimed(self, p: int) -> ManagerView {
        let c = self.free[p];
        ManagerView {
            free: self.free.remove(p),
            allocated: self.allocated.insert(
                self.next_id,
                MemoryBlock::owned(c.start, c.size, self.next_id),
            ),
            next_id: (self.next_id + 1) as usize,
            ..self
        }
    }

    /// The state in which the allocated block of `id` keeps its first `size`
    /// bytes and the rest of it is free.
    spec fn trimmed(self, id: usize, size: usize) -> ManagerView {
        let b = self.allocated[id];
        ManagerView {
            free: place(
                self.free,
                MemoryBlock::free((b.start + size) as usize, (b.size - size) as usize),
            ),
            allocated: self.allocated.insert(id, MemoryBlock::owned(b.start, size, id)),
            ..self
        }
    }

    proof fn lemma_claimed_wf(self, p: int)
        requires
            self.wf(),
            0 <= p < self.free.len(),
            self.next_id < usize::MAX,
        ensures
            self.claimed(p).wf(),
    {
        let c = self.free[p];
        let id = self.next_id;
        let n = MemoryBlock::owned(c.start, c.size, id);
        let post = self.claimed(p);
        assert(c.in_arena() && c.is_free());
        assert(!self.allocated.contains_key(id));
        assert forall|j: int| 0 <= j < post.free.len() implies {
            ||| j < p && post.free[j] == self.free[j]
            ||| j >= p && post.free[j] == self.free[j + 1]
        } by {}
        assert forall|i: int, j: int| 0 <= i <= j < post.free.len() implies post.free[i].size
            <= post.free[j].size by {
            let i0 = if i < p { i } else { i + 1 };
            let j0 = if j < p { j } else { j + 1 };
            assert(self.free[i0].size <= self.free[j0].size);
        }
        assert forall|i: int, j: int| 0 <= i < j < post.free.len() implies (
        #[trigger] post.free[i]).disjoint(#[trigger] post.free[j]) by {
            let i0 = if i < p { i } else { i + 1 };
            let j0 = if j < p { j } else { j + 1 };
            assert(self.free[i0].disjoint(self.free[j0]));
        }
        assert forall|a: usize, b: usize|
            post.allocated.contains_key(a) && post.allocated.contains_key(b) && a != b implies (
        #[trigger] post.allocated[a]).disjoint(#[trigger] post.allocated[b]) by {
            if a == id {
                assert(self.free[p].disjoint(self.allocated[b]));
            } else if b == id {
                assert(self.free[p].disjoint(self.allocated[a]));
            } else {
                assert(self.allocated[a].disjoint(self.allocated[b]));
            }
        }
        assert forall|i: int, a: usize|
            0 <= i < post.free.len() && post.allocated.contains_key(a) implies (
        #[trigger] post.free[i]).disjoint(#[trigger] post.allocated[a]) by {
            let i0 = if i < p { i } else { i + 1 };
            if a == id {
                if i0 < p {
                    assert(self.free[i0].disjoint(self.free[p]));
                } else {
                    assert(self.free[p].disjoint(self.free[i0]));
                }
            } else {
                assert(self.free[i0].disjoint(self.allocated[a]));
            }
        }
        assert forall|addr: int| 0 <= addr < MEMORY_SIZE implies #[trigger] post.is_free_at(addr)
            || post.is_allocated_at(addr) by {
            if self.is_free_at(addr) {
                let i = choose|i: int|
                    0 <= i < self.free.len() && (#[trigger] self.free[i]).holds(addr);
                if i == p {
                    assert(post.allocated.contains_key(id));
                    assert(post.allocated[id].holds(addr));
                } else {
                    let j = if i < p { i } else { i - 1 };
                    assert(post.free[j].holds(addr));
                }
            } else {
                assert(self.is_allocated_at(addr));
                let a = choose|a: usize|
                    self.allocated.contains_key(a) && (#[trigger] self.allocated[a]).holds(addr);
                assert(post.allocated.contains_key(a));
                assert(post.allocated[a].holds(addr));
            }
        }
    }

    proof fn lemma_trimmed_wf(self, id: usize, size: usize)
        requires
            self.wf(),
            self.allocated.contains_key(id),
            0 < size < self.allocated[id].size,
        ensures
            self.trimmed(id, size).wf(),
    {
        let b = self.allocated[id];
        let n = MemoryBlock::owned(b.start, size, id);
        let f = MemoryBlock::free((b.start + size) as usize, (b.size - size) as usize);
        let q = slot(self.free, f.size);
        let post = self.trimmed(id, size);
        assert(b.in_arena() && b.is_owned_by(id));
        lemma_slot_exists(self.free, f.size);
        lemma_place_keeps_sorted(self.free, f, q);
        assert(post.free == self.free.insert(q, f));
        assert forall|j: int| 0 <= j < post.free.len() implies {
            ||| j == q && post.free[j] == f
            ||| j < q && post.free[j] == self.free[j]
            ||| j > q && post.free[j] == self.free[j - 1]
        } by {}
        assert forall|i: int, j: int| 0 <= i < j < post.free.len() implies (
        #[trigger] post.free[i]).disjoint(#[trigger] post.free[j]) by {
            if i == q {
                assert(self.free[j - 1].disjoint(b));
            } else if j == q {
                let i0 = if i < q { i } else { i - 1 };
                assert(self.free[i0].disjoint(b));
            } else {
                let i0 = if i < q { i } else { i - 1 };
                let j0 = if j < q { j } else { j - 1 };
                assert(self.free[i0].disjoint(self.free[j0]));
            }
        }
        assert forall|a: usize, c: usize|
            post.allocated.contains_key(a) && post.allocated.contains_key(c) && a != c implies (
        #[trigger] post.allocated[a]).disjoint(#[trigger] post.allocated[c]) by {
            assert(self.allocated[a].disjoint(self.allocated[c]));
        }
        assert forall|i: int, a: usize|
            0 <= i < post.free.len() && post.allocated.contains_key(a) implies (
        #[trigger] post.free[i]).disjoint(#[trigger] post.allocated[a]) by {
            assert(self.allocated.contains_key(a));
            if i == q {
                if a != id {
                    assert(self.allocated[a].disjoint(self.allocated[id]));
                }
            } else {
                let i0 = if i < q { i } else { i - 1 };
                assert(self.free[i0].disjoint(self.allocated[a]));
            }
        }
        assert forall|addr: int| 0 <= addr < MEMORY_SIZE implies #[trigger] post.is_free_at(addr)
            || post.is_allocated_at(addr) by {
            if self.is_free_at(addr) {
                let i = choose|i: int|
                    0 <= i < self.free.len() && (#[trigger] self.free[i]).holds(addr);
                let j = if i < q { i } else { i + 1 };
                assert(post.free[j].holds(addr));
            } else {
                assert(self.is_allocated_at(addr));
                let a = choose|a: usize|
                    self.allocated.contains_key(a) && (#[trigger] self.allocated[a]).holds(addr);
                assert(post.allocated.contains_key(a));
                if a == id {
                    if addr < b.start + size {
                        assert(post.allocated[a].holds(addr));
                    } else {
                        assert(post.free[q].holds(addr));
                    }
                } else {
                    assert(post.allocated[a].holds(addr));
                }
            }
        }
    }

    /// The invariant does not depend on the bytes of the arena.
    proof fn lemma_same_blocks_wf(self, other: ManagerView)
        requires
            self.wf(),
            other.free == self.free,
            other.allocated == self.allocated,
            other.next_id == self.next_id,
            other.memory.len() == MEMORY_SIZE,
        ensures
            other.wf(),
    {
        assert forall|addr: int| 0 <= addr < MEMORY_SIZE implies #[trigger] other.is_free_at(
            addr,
        ) || other.is_allocated_at(addr) by {
            if self.is_free_at(addr) {
                let i = choose|i: int|
                    0 <= i < self.free.len() && (#[trigger] self.free[i]).holds(addr);
                assert(other.free[i].holds(addr));
            } else {
                assert(self.is_allocated_at(addr));
                let a = choose|a: usize|
                    self.allocated.contains_key(a) && (#[trigger] self.allocated[a]).holds(addr);
                assert(other.allocated[a].holds(addr));
            }
        }
    }

    /// Allocating from a state in which the request fits keeps the invariant.
    pub proof fn lemma_allocate_wf(self, size: usize, data: Seq<u8>)
        requires
            self.wf(),
            size > 0,
            data.len() >= size,
            self.can_fit(size),
            self.next_id < usize::MAX,
        ensures
            self.allocate(size, data).wf(),
    {
        let p = self.best_fit(size);
        self.lemma_best_fit_exists(size);
        let c = self.free[p];
        let post = self.allocate(size, data);
        let mid = self.claimed(p);
        self.lemma_claimed_wf(p);
        assert(c.in_arena());
        if c.size > size {
            let cut = mid.trimmed(self.next_id, size);
            mid.lemma_trimmed_wf(self.next_id, size);
            assert(cut.allocated =~= post.allocated);
            assert(cut.free == post.free);
            cut.lemma_same_blocks_wf(post);
        } else {
            assert(mid.allocated == post.allocated);
            assert(mid.free == post.free);
            mid.lemma_same_blocks_wf(post);
        }
    }

    /// Writing into an allocated block keeps the invariant.
    pub proof fn lemma_write_wf(self, id: usize, data: Seq<u8>)
        requires
            self.wf(),
            self.allocated.contains_key(id),
            data.len() <= self.allocated[id].size,
        ensures
            self.write(id, data).wf(),
    {
        self.lemma_same_blocks_wf(self.write(id, data));
    }
}

} // verus!
