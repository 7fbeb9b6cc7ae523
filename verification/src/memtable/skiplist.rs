//! Ordered maps from byte strings to numbers, on `crossbeam_skiplist::SkipMap`.

use crossbeam_skiplist::SkipMap;
use vstd::prelude::*;

use crate::bytes::lex_lt;

verus! {

/// `crossbeam_skiplist::SkipMap`.
#[verifier::external_type_specification]
#[verifier::external_body]
#[verifier::reject_recursive_types(K)]
#[verifier::reject_recursive_types(V)]
pub struct ExSkipMap<K, V>(SkipMap<K, V>);

/// The entries of a skip map.
pub uninterp spec fn skip_entries(list: SkipMap<Vec<u8>, u64>) -> Map<Seq<u8>, u64>;

/// `SkipMap::new`: the map is empty.
#[verifier::external_body]
pub(crate) fn skip_new() -> (created: SkipMap<Vec<u8>, u64>)
    ensures
        skip_entries(created).dom() == Set::<Seq<u8>>::empty(),
{
    SkipMap::new()
}

/// `SkipMap::get`, with the value copied out of the entry: the value stored
/// under the key, if there is one.
#[verifier::external_body]
pub(crate) fn skip_get(list: &SkipMap<Vec<u8>, u64>, key: &[u8]) -> (value: Option<u64>)
    ensures
        value == (if skip_entries(*list).contains_key(key@) {
            Some(skip_entries(*list)[key@])
        } else {
            None
        }),
{
    list.get(key).map(|entry| *entry.value())
}

/// `SkipMap::insert` on a map that nobody else uses: the value is stored under
/// the key, in place of what was there.
#[verifier::external_body]
pub(crate) fn skip_insert(list: &mut SkipMap<Vec<u8>, u64>, key: Vec<u8>, value: u64)
    ensures
        skip_entries(*final(list)) == skip_entries(*old(list)).insert(key@, value),
{
    list.insert(key, value);
}

/// `SkipMap::iter`, with each entry copied out: all entries, sorted by key in
/// the order of `Vec<u8>`, which is lexicographic.
#[verifier::external_body]
pub(crate) fn skip_iter(list: &SkipMap<Vec<u8>, u64>) -> (entries: Vec<(Vec<u8>, u64)>)
    ensures
        forall|i: int, j: int|
            #![trigger entries@[i], entries@[j]]
            0 <= i < j < entries@.len() ==> lex_lt(entries@[i].0@, entries@[j].0@),
        forall|i: int|
            0 <= i < entries@.len() ==> skip_entries(*list).contains_key(
                (#[trigger] entries@[i]).0@,
            ) && skip_entries(*list)[entries@[i].0@] == entries@[i].1,
        forall|key: Seq<u8>| #[trigger]
            skip_entries(*list).contains_key(key) ==> exists|i: int|
                0 <= i < entries@.len() && (#[trigger] entries@[i]).0@ == key,
{
    list.iter().map(|entry| (entry.key().clone(), *entry.value())).collect()
}

} // verus!
