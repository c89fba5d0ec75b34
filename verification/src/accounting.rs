//! Counting free bytes: why allocations must run out.

use vstd::prelude::*;
use crate::block::MemoryBlock;
use crate::block::MEMORY_SIZE;
use crate::model::requested;
use crate::model::slot;
use crate::model::total_size;
use crate::model::ManagerView;
use crate::model::Operation;
use crate::preservation::lemma_slot_exists;

verus! {

/// A total is never negative.
pub proof fn lemma_total_not_negative(s: Seq<MemoryBlock>)
    ensures
        total_size(s) >= 0,
    decreases s.len(),
{
    if s.len() > 0 {
        lemma_total_not_negative(s.drop_last());
    }
}

/// A block added anywhere adds its size to the total.
pub proof fn lemma_total_insert(s: Seq<MemoryBlock>, q: int, b: MemoryBlock)
    requires
        0 <= q <= s.len(),
    ensures
        total_size(s.insert(q, b)) == total_size(s) + b.size,
    decreases s.len(),
{
    let t = s.insert(q, b);
    if q == s.len() {
        assert(t.drop_last() =~= s);
    } else {
        assert(t.drop_last() =~= s.drop_last().insert(q, b));
        assert(t.last() == s.last());
        lemma_total_insert(s.drop_last(), q, b);
    }
}

/// A block taken out takes its size off the total.
pub proof fn lemma_total_remove(s: Seq<MemoryBlock>, p: int)
    requires
        0 <= p < s.len(),
    ensures
        total_size(s.remove(p)) + s[p].size == total_size(s),
    decreases s.len(),
{
    let t = s.remove(p);
    if p == s.len() - 1 {
        assert(t =~= s.drop_last());
    } else {
        assert(t.drop_last() =~= s.drop_last().remove(p));
        assert(t.last() == s.last());
        lemma_total_remove(s.drop_last(), p);
    }
}

/// Among blocks there is one that starts last.
proof fn lemma_last_start(s: Seq<MemoryBlock>) -> (m: int)
    requires
        s.len() > 0,
    ensures
        0 <= m < s.len(),
        forall|i: int| 0 <= i < s.len() ==> (#[trigger] s[i]).start <= s[m].start,
    decreases s.len(),
{
    if s.len() == 1 {
        0
    } else {
        let m = lemma_last_start(s.drop_last());
        assert forall|i: int| 0 <= i < s.len() - 1 implies (#[trigger] s[i]).start
            <= s[m].start by {
            assert(s.drop_last()[i] == s[i]);
        }
        if s.last().start > s[m].start {
            s.len() - 1
        } else {
            m
        }
    }
}

/// Non-empty blocks that do not overlap and end at or before `bound` hold at
/// most `bound` bytes together.
pub proof fn lemma_total_bounded(s: Seq<MemoryBlock>, bound: int)
    requires
        0 <= bound,
        forall|i: int| 0 <= i < s.len() ==> (#[trigger] s[i]).size > 0 && s[i].end() <= bound,
        forall|i: int, j: int|
            0 <= i < j < s.len() ==> (#[trigger] s[i]).disjoint(#[trigger] s[j]),
    ensures
        total_size(s) <= bound,
    decreases s.len(),
{
    if s.len() > 0 {
        let m = lemma_last_start(s);
        let b = s[m];
        let t = s.remove(m);
        assert forall|i: int| 0 <= i < t.len() implies (#[trigger] t[i]).size > 0 && t[i].end()
            <= b.start by {
            let i0 = if i < m { i } else { i + 1 };
            assert(t[i] == s[i0]);
            assert(s[i0].start <= b.start);
            if i0 < m {
                assert(s[i0].disjoint(s[m]));
            } else {
                assert(s[m].disjoint(s[i0]));
            }
        }
        assert forall|i: int, j: int| 0 <= i < j < t.len() implies (#[trigger] t[i]).disjoint(
            #[trigger] t[j],
        ) by {
            let i0 = if i < m { i } else { i + 1 };
            let j0 = if j < m { j } else { j + 1 };
            assert(s[i0].disjoint(s[j0]));
        }
        lemma_total_bounded(t, b.start as int);
        lemma_total_remove(s, m);
    }
}

impl ManagerView {
    /// The free bytes never exceed the arena.
    pub proof fn lemma_free_bytes_bounded(self)
        requires
            self.wf(),
        ensures
            self.free_bytes() <= MEMORY_SIZE,
    {
        assert forall|i: int| 0 <= i < self.free.len() implies (#[trigger] self.free[i]).size > 0
            && self.free[i].end() <= MEMORY_SIZE by {
            assert(self.free[i].in_arena());
        }
        lemma_total_bounded(self.free, MEMORY_SIZE as int);
    }

    /// A request that fits is no larger than the number of free bytes.
    pub proof fn lemma_fit_needs_free_bytes(self, size: usize)
        requires
            self.can_fit(size),
        ensures
            size <= self.free_bytes(),
    {
        let i = choose|i: int| 0 <= i < self.free.len() && (#[trigger] self.free[i]).size >= size;
        lemma_total_remove(self.free, i);
        lemma_total_not_negative(self.free.remove(i));
    }

    /// A successful allocation takes exactly `size` bytes from the free ones.
    pub proof fn lemma_allocate_takes_bytes(self, size: usize, data: Seq<u8>)
        requires
            self.wf(),
            self.can_fit(size),
            data.len() >= size,
        ensures
            self.allocate(size, data).free_bytes() + size == self.free_bytes(),
    {
        self.lemma_best_fit_exists(size);
        let p = self.best_fit(size);
        let chosen = self.free[p];
        let rest = self.free.remove(p);
        assert(chosen.in_arena());
        lemma_total_remove(self.free, p);
        if chosen.size > size {
            let left = MemoryBlock::free(
                (chosen.start + size) as usize,
                (chosen.size - size) as usize,
            );
            crate::free_index::lemma_remove_keeps_sorted(self.free, p);
            lemma_slot_exists(rest, left.size);
            lemma_total_insert(rest, slot(rest, left.size), left);
        }
    }

    /// A release gives the bytes of the block back to the free ones.
    pub proof fn lemma_release_gives_bytes(self, id: usize)
        requires
            self.wf(),
            self.allocated.contains_key(id),
        ensures
            self.release(id).free_bytes() == self.free_bytes() + self.allocated[id].size,
            self.release(id).free.len() == self.free.len() + 1,
    {
        let b = self.allocated[id];
        lemma_slot_exists(self.free, b.size);
        lemma_total_insert(self.free, slot(self.free, b.size), MemoryBlock::free(b.start, b.size));
    }

    /// Allocations that all succeed take what they ask for from the free
    /// bytes.
    proof fn lemma_successes_take_bytes(self, ops: Seq<Operation>)
        requires
            self.wf(),
            self.admits_all(ops),
            forall|k: int| 0 <= k < ops.len() ==> (#[trigger] ops[k]) is Insert,
            forall|k: int|
                0 <= k < ops.len() ==> (#[trigger] self.run(ops.take(k))).succeeds(ops[k]),
        ensures
            self.run(ops).free_bytes() + requested(ops) == self.free_bytes(),
        decreases ops.len(),
    {
        if ops.len() > 0 {
            let k = ops.len() - 1;
            let head = ops.drop_last();
            assert(ops.take(k) =~= head);
            assert forall|i: int| 0 <= i < head.len() implies (#[trigger] self.run(
                head.take(i),
            )).admits(head[i]) && self.run(head.take(i)).succeeds(head[i]) by {
                assert(head.take(i) =~= ops.take(i));
                assert(self.run(ops.take(i)).admits(ops[i]));
                assert(self.run(ops.take(i)).succeeds(ops[i]));
            }
            assert forall|i: int| 0 <= i < head.len() implies (#[trigger] head[i]) is Insert by {
                assert(ops[i] is Insert);
            }
            self.lemma_successes_take_bytes(head);
            self.lemma_run_keeps_invariant(head);
            let before = self.run(head);
            assert(before.admits(ops[k]));
            assert(before.succeeds(ops[k]));
            assert(ops[k] is Insert);
            match ops.last() {
                Operation::Insert { size, data } => {
                    before.lemma_allocate_takes_bytes(size, data);
                },
                _ => {},
            }
        }
    }

    /// Allocations run out: where a run of allocations asks for more bytes
    /// than are free at its start, or for more than the arena has, one of
    /// them fails, and the failure changes nothing.
    pub proof fn lemma_exhaustion(self, ops: Seq<Operation>)
        requires
            self.wf(),
            self.admits_all(ops),
            forall|k: int| 0 <= k < ops.len() ==> (#[trigger] ops[k]) is Insert,
            requested(ops) > self.free_bytes() || requested(ops) > MEMORY_SIZE,
        ensures
            exists|k: int|
                0 <= k < ops.len() && !(#[trigger] self.run(ops.take(k))).succeeds(ops[k])
                    && self.run(ops.take(k)).step(ops[k]) == self.run(ops.take(k)),
    {
        self.lemma_free_bytes_bounded();
        if forall|k: int|
            0 <= k < ops.len() ==> (#[trigger] self.run(ops.take(k))).succeeds(ops[k]) {
            self.lemma_successes_take_bytes(ops);
            lemma_total_not_negative(self.run(ops).free);
        } else {
            let k = choose|k: int|
                0 <= k < ops.len() && !(#[trigger] self.run(ops.take(k))).succeeds(ops[k]);
            assert(self.run(ops.take(k)).step(ops[k]) == self.run(ops.take(k)));
        }
    }
}

} // verus!
