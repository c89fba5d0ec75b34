//! The order in which a table keyed by identifier is walked.

use vstd::prelude::*;
use vstd::std_specs::btree::increasing_seq;
use vstd::std_specs::cmp::OrdSpec;

verus! {

/// Identifiers that come in increasing order are strictly ascending numbers.
pub proof fn lemma_increasing_is_ascending(keys: Seq<usize>)
    requires
        increasing_seq(keys),
    ensures
        forall|k: int, l: int| 0 <= k < l < keys.len() ==> keys[k] < keys[l],
{
    assert forall|k: int, l: int| 0 <= k < l < keys.len() implies keys[k] < keys[l] by {
        assert(keys[k].cmp_spec(&keys[l]) is Less);
    }
}

} // verus!
