//! The ordered walk over the allocated table.

use vstd::prelude::*;
use vstd::std_specs::iter::IteratorSpec;
use std::collections::BTreeMap;
use crate::block::MemoryBlock;
use crate::model::lists_table;
use crate::order::lemma_increasing_is_ascending;

verus! {

/// Appends the blocks of `table` to `out`, by ascending identifier.
pub(crate) fn append_in_order(out: &mut Vec<MemoryBlock>, table: &BTreeMap<usize, MemoryBlock>)
    requires
        forall|id: usize| #[trigger] table@.contains_key(id) ==> table@[id].id == Some(id),
    ensures
        final(out)@.len() == old(out)@.len() + table@.dom().len(),
        final(out)@.subrange(0, old(out)@.len() as int) == old(out)@,
        lists_table(table@, final(out)@.subrange(old(out)@.len() as int, final(out)@.len() as int)),
{
    let ghost base = out@.len();
    let ghost keys = table.iter().remaining().map_values(|kv: (&usize, &MemoryBlock)| *kv.0);
    for entry in walk: table.iter()
        invariant
            walk.seq() == table.iter().remaining(),
            out@.len() == base + walk.index(),
            base == old(out)@.len(),
            forall|k: int| 0 <= k < base ==> out@[k] == old(out)@[k],
            forall|k: int| 0 <= k < walk.index() ==> out@[base + k] == *walk.seq()[k].1,
    {
        out.push(*entry.1);
    }
    proof {
        let tail = out@.subrange(base as int, out@.len() as int);
        assert(out@.subrange(0, base as int) =~= old(out)@);
        lemma_increasing_is_ascending(keys);
        assert forall|k: int| 0 <= k < tail.len() implies {
            &&& (#[trigger] tail[k]).id is Some
            &&& table@.contains_key(tail[k].id->0)
            &&& table@[tail[k].id->0] == tail[k]
            &&& tail[k].id->0 == keys[k]
        } by {
            assert(table@.contains_key(keys[k]));
        }
        assert forall|k: int, l: int| 0 <= k < l < tail.len() implies (#[trigger] tail[k]).id->0 < (
        #[trigger] tail[l]).id->0 by {
            assert(keys[k] < keys[l]);
        }
        assert forall|id: usize| #[trigger] table@.contains_key(id) implies exists|k: int|
            0 <= k < tail.len() && #[trigger] tail[k] == table@[id] by {
            let entries = table.iter().remaining();
            assert(entries.contains((&id, &table@[id])));
            let k = choose|k: int| 0 <= k < entries.len() && entries[k] == (&id, &table@[id]);
            assert(tail[k] == table@[id]);
        }
    }
}

} // verus!
