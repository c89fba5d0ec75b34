//! The free index: the free blocks in a vector sorted by size.

use vstd::prelude::*;
use crate::block::MemoryBlock;
use crate::model::is_slot;
use crate::model::place;
use crate::model::slot;
use crate::model::sorted_by_size;

verus! {

/// A sorted sequence has exactly one slot for each size.
pub proof fn lemma_slot_is_unique(s: Seq<MemoryBlock>, size: usize, q: int)
    requires
        is_slot(s, size, q),
    ensures
        slot(s, size) == q,
{
    let r = slot(s, size);
    assert(is_slot(s, size, r));
    if r < q {
        assert(s[r].size <= size);
    }
    if q < r {
        assert(s[q].size <= size);
    }
}

/// Adding a block at its slot keeps the sequence sorted.
pub proof fn lemma_place_keeps_sorted(s: Seq<MemoryBlock>, b: MemoryBlock, q: int)
    requires
        sorted_by_size(s),
        is_slot(s, b.size, q),
    ensures
        place(s, b) == s.insert(q, b),
        sorted_by_size(place(s, b)),
{
    lemma_slot_is_unique(s, b.size, q);
    let t = s.insert(q, b);
    assert forall|i: int, j: int| 0 <= i <= j < t.len() implies t[i].size <= t[j].size by {
        if i < q {
            assert(t[i] == s[i]);
        } else if i > q {
            assert(t[i] == s[i - 1]);
        }
        if j < q {
            assert(t[j] == s[j]);
        } else if j > q {
            assert(t[j] == s[j - 1]);
        }
    }
}

/// Taking a block out keeps the sequence sorted.
pub proof fn lemma_remove_keeps_sorted(s: Seq<MemoryBlock>, p: int)
    requires
        sorted_by_size(s),
        0 <= p < s.len(),
    ensures
        sorted_by_size(s.remove(p)),
{
    let t = s.remove(p);
    assert forall|i: int, j: int| 0 <= i <= j < t.len() implies t[i].size <= t[j].size by {
        let i0 = if i < p { i } else { i + 1 };
        let j0 = if j < p { j } else { j + 1 };
        assert(s[i0].size <= s[j0].size);
    }
}

/// The position of the first block with at least `size` bytes, or the length
/// of the index if there is none.
pub(crate) fn first_fit(free: &Vec<MemoryBlock>, size: usize) -> (p: usize)
    requires
        sorted_by_size(free@),
    ensures
        p <= free@.len(),
        forall|j: int| 0 <= j < p ==> (#[trigger] free@[j]).size < size,
        forall|j: int| p <= j < free@.len() ==> (#[trigger] free@[j]).size >= size,
{
    let mut low: usize = 0;
    let mut high: usize = free.len();
    while low < high
        invariant
            low <= high <= free@.len(),
            sorted_by_size(free@),
            forall|j: int| 0 <= j < low ==> (#[trigger] free@[j]).size < size,
            forall|j: int| high <= j < free@.len() ==> (#[trigger] free@[j]).size >= size,
        decreases high - low,
    {
        let mid: usize = low + (high - low) / 2;
        if free[mid].size < size {
            assert forall|j: int| 0 <= j < mid + 1 implies (#[trigger] free@[j]).size < size by {
                assert(free@[j].size <= free@[mid as int].size);
            }
            low = mid + 1;
        } else {
            assert forall|j: int| mid <= j < free@.len() implies (#[trigger] free@[j]).size
                >= size by {
                assert(free@[mid as int].size <= free@[j].size);
            }
            high = mid;
        }
    }
    low
}

/// The slot of a block of `size` bytes.
pub(crate) fn find_slot(free: &Vec<MemoryBlock>, size: usize) -> (q: usize)
    requires
        sorted_by_size(free@),
    ensures
        is_slot(free@, size, q as int),
{
    let mut low: usize = 0;
    let mut high: usize = free.len();
    while low < high
        invariant
            low <= high <= free@.len(),
            sorted_by_size(free@),
            forall|j: int| 0 <= j < low ==> (#[trigger] free@[j]).size <= size,
            forall|j: int| high <= j < free@.len() ==> (#[trigger] free@[j]).size > size,
        decreases high - low,
    {
        let mid: usize = low + (high - low) / 2;
        if free[mid].size <= size {
            assert forall|j: int| 0 <= j < mid + 1 implies (#[trigger] free@[j]).size <= size by {
                assert(free@[j].size <= free@[mid as int].size);
            }
            low = mid + 1;
        } else {
            assert forall|j: int| mid <= j < free@.len() implies (#[trigger] free@[j]).size
                > size by {
                assert(free@[mid as int].size <= free@[j].size);
            }
            high = mid;
        }
    }
    low
}

/// Adds `block` to the index at its slot.
pub(crate) fn put(free: &mut Vec<MemoryBlock>, block: MemoryBlock)
    requires
        sorted_by_size(old(free)@),
    ensures
        final(free)@ == place(old(free)@, block),
        sorted_by_size(final(free)@),
{
    let q = find_slot(free, block.size);
    proof {
        lemma_place_keeps_sorted(free@, block, q as int);
    }
    free.insert(q, block);
}

} // verus!
