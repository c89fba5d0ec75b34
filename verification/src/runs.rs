//! What holds of the allocator over whole sequences of operations.

use vstd::prelude::*;
use crate::model::ManagerView;
use crate::model::Operation;

verus! {

impl ManagerView {
    /// One operation keeps the invariant and never lowers the next
    /// identifier; a successful allocation raises it by one.
    pub proof fn lemma_step(self, op: Operation)
        requires
            self.wf(),
            self.admits(op),
        ensures
            self.step(op).wf(),
            self.step(op).next_id >= self.next_id,
            self.issues(op) is Some ==> self.step(op).next_id == self.next_id + 1,
            !self.succeeds(op) ==> self.step(op) == self,
    {
        if self.succeeds(op) {
            match op {
                Operation::Insert { size, data } => {
                    self.lemma_allocate_wf(size, data);
                },
                Operation::Delete { id } => {
                    self.lemma_release_wf(id);
                },
                Operation::Update { id, data } => {
                    self.lemma_write_wf(id, data);
                },
            }
        }
    }

    /// The first `k` operations of an admitted run are an admitted run.
    proof fn lemma_prefix_admitted(self, ops: Seq<Operation>, k: int)
        requires
            self.admits_all(ops),
            0 <= k <= ops.len(),
        ensures
            self.admits_all(ops.take(k)),
    {
        assert forall|i: int| 0 <= i < k implies (#[trigger] self.run(ops.take(k).take(i))).admits(
            ops.take(k)[i],
        ) by {
            assert(ops.take(k).take(i) =~= ops.take(i));
            assert(self.run(ops.take(i)).admits(ops[i]));
        }
    }

    /// The partition invariant holds after any sequence of operations: from
    /// a state that meets the invariant, every admitted run ends in one.
    pub proof fn lemma_run_keeps_invariant(self, ops: Seq<Operation>)
        requires
            self.wf(),
            self.admits_all(ops),
        ensures
            self.run(ops).wf(),
            self.run(ops).is_partition(),
            self.run(ops).next_id >= self.next_id,
        decreases ops.len(),
    {
        if ops.len() > 0 {
            let k = ops.len() - 1;
            assert(ops.take(k) =~= ops.drop_last());
            self.lemma_prefix_admitted(ops, k);
            self.lemma_run_keeps_invariant(ops.drop_last());
            assert(self.run(ops.take(k)).admits(ops[k]));
            self.run(ops.drop_last()).lemma_step(ops.last());
        }
    }

    /// Along an admitted run the next identifier never goes down.
    pub proof fn lemma_next_id_never_falls(self, ops: Seq<Operation>, k: int, l: int)
        requires
            self.wf(),
            self.admits_all(ops),
            0 <= k <= l <= ops.len(),
        ensures
            self.run(ops.take(k)).next_id <= self.run(ops.take(l)).next_id,
        decreases l - k,
    {
        if k < l {
            self.lemma_next_id_never_falls(ops, k, l - 1);
            let head = ops.take(l - 1);
            self.lemma_prefix_admitted(ops, l - 1);
            self.lemma_run_keeps_invariant(head);
            assert(ops.take(l).drop_last() =~= head);
            assert(ops.take(l).last() == ops[l - 1]);
            assert(self.run(head).admits(ops[l - 1]));
            self.run(head).lemma_step(ops[l - 1]);
        }
    }

    /// Identifiers are never issued twice and come in strictly increasing
    /// order: of two allocations that succeed in one run, the later one
    /// returns the larger identifier.
    pub proof fn lemma_identifiers_ascend(self, ops: Seq<Operation>, i: int, j: int)
        requires
            self.wf(),
            self.admits_all(ops),
            0 <= i < j < ops.len(),
            self.run(ops.take(i)).issues(ops[i]) is Some,
            self.run(ops.take(j)).issues(ops[j]) is Some,
        ensures
            self.run(ops.take(i)).issues(ops[i])->0 < self.run(ops.take(j)).issues(ops[j])->0,
    {
        let before = self.run(ops.take(i));
        self.lemma_prefix_admitted(ops, i);
        self.lemma_run_keeps_invariant(ops.take(i));
        assert(before.admits(ops[i]));
        before.lemma_step(ops[i]);
        assert(ops.take(i + 1).drop_last() =~= ops.take(i));
        assert(ops.take(i + 1).last() == ops[i]);
        assert(self.run(ops.take(i + 1)) == before.step(ops[i]));
        self.lemma_next_id_never_falls(ops, i + 1, j);
    }
}

} // verus!
