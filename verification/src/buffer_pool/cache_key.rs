//! Keys of cached values.

use std::hash::Hash;

use vstd::prelude::*;
use vstd::std_specs::hash::obeys_key_model;

verus! {

/// Whether values of a type behave as keys of a hash map have to: equal keys hash alike,
/// keys that compare equal are the same, and a clone is the same key.
pub open spec fn are_keys<K: Clone + Eq + Hash>() -> bool {
    &&& obeys_key_model::<K>()
    &&& forall|key: K, clone: K| #[trigger] cloned(key, clone) ==> clone == key
}

/// A clone of a key.
pub(crate) fn clone_key<K: Clone + Eq + Hash>(key: &K) -> (clone: K)
    requires
        are_keys::<K>(),
    ensures
        clone == *key,
{
    let clone: K = key.clone();
    assert(cloned(*key, clone));
    clone
}

/// Whether a key is among entries.
pub open spec fn holds<K, V>(entries: Seq<(K, V)>, key: K) -> bool {
    exists|i: int| 0 <= i < entries.len() && (#[trigger] entries[i]).0 == key
}

/// Where a key is among entries.
pub open spec fn spot<K, V>(entries: Seq<(K, V)>, key: K) -> int {
    choose|i: int| 0 <= i < entries.len() && (#[trigger] entries[i]).0 == key
}

/// No key occurs twice.
pub open spec fn distinct_keys<K, V>(entries: Seq<(K, V)>) -> bool {
    forall|i: int, j: int|
        #![trigger entries[i], entries[j]]
        0 <= i < j < entries.len() ==> entries[i].0 != entries[j].0
}

/// A key that occurs once is found where it is.
pub proof fn lemma_spot<K, V>(entries: Seq<(K, V)>, i: int)
    requires
        distinct_keys(entries),
        0 <= i < entries.len(),
    ensures
        holds(entries, entries[i].0),
        spot(entries, entries[i].0) == i,
{
    let p = spot(entries, entries[i].0);
    assert(entries[p].0 == entries[i].0);
    if p < i {
        assert(entries[p].0 != entries[i].0);
    } else if i < p {
        assert(entries[i].0 != entries[p].0);
    }
}

} // verus!
