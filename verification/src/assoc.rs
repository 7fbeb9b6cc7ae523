//! Association lists.

use vstd::prelude::*;

verus! {

/// Values that can be keys: comparing them compares what they stand for.
pub trait Key: Copy + View {
    /// Whether two keys are the same.
    fn same(&self, other: &Self) -> (result: bool)
        ensures
            result == (self@ == other@),
    ;
}

/// No key is listed twice.
pub open spec fn keys_once<K: Key, V>(items: Seq<(K, V)>) -> bool {
    forall|i: int, j: int|
        #![trigger items[i], items[j]]
        0 <= i < j < items.len() ==> items[i].0@ != items[j].0@
}

/// Whether a key is listed.
pub open spec fn lists_key<K: Key, V>(items: Seq<(K, V)>, key: K::V) -> bool {
    exists|i: int| 0 <= i < items.len() && (#[trigger] items[i]).0@ == key
}

/// Where a key is listed.
pub open spec fn place_of<K: Key, V>(items: Seq<(K, V)>, key: K::V) -> int {
    choose|i: int| 0 <= i < items.len() && (#[trigger] items[i]).0@ == key
}

/// The map that a list stands for.
pub open spec fn as_map<K: Key, V>(items: Seq<(K, V)>) -> Map<K::V, V> {
    Map::new(|key: K::V| lists_key(items, key), |key: K::V| items[place_of(items, key)].1)
}

/// A listed key is mapped to the value beside it.
pub proof fn lemma_listed<K: Key, V>(items: Seq<(K, V)>, i: int)
    requires
        keys_once(items),
        0 <= i < items.len(),
    ensures
        as_map(items).contains_key(items[i].0@),
        as_map(items)[items[i].0@] == items[i].1,
{
    let key = items[i].0@;
    let p = place_of(items, key);
    assert(items[p].0@ == key);
    if p < i {
        assert(items[p].0@ != items[i].0@);
    } else if i < p {
        assert(items[i].0@ != items[p].0@);
    }
}

/// Listing a new key maps it.
pub proof fn lemma_list_more<K: Key, V>(items: Seq<(K, V)>, key: K, value: V)
    requires
        keys_once(items),
        !lists_key(items, key@),
    ensures
        keys_once(items.push((key, value))),
        as_map(items.push((key, value))) == as_map(items).insert(key@, value),
{
    let more = items.push((key, value));
    assert forall|i: int, j: int|
        #![trigger more[i], more[j]]
        0 <= i < j < more.len() implies more[i].0@ != more[j].0@ by {
        assert(more[i] == items[i]);
        if j < items.len() {
            assert(more[j] == items[j]);
        }
    }
    assert forall|k: K::V| lists_key(more, k) <==> (lists_key(items, k) || k == key@) by {
        if lists_key(items, k) {
            let p = place_of(items, k);
            assert(more[p] == items[p]);
        }
        assert(more[items.len() as int].0@ == key@);
        if lists_key(more, k) {
            let p = place_of(more, k);
            if p < items.len() {
                assert(items[p] == more[p]);
            }
        }
    }
    assert forall|k: K::V| lists_key(more, k) implies as_map(more)[k] == as_map(items).insert(
        key@,
        value,
    )[k] by {
        if k == key@ {
            lemma_listed(more, items.len() as int);
        } else {
            let p = place_of(items, k);
            assert(more[p] == items[p]);
            lemma_listed(more, p);
            lemma_listed(items, p);
        }
    }
    assert(as_map(more) =~= as_map(items).insert(key@, value));
}

/// A map as a list of keys and values.
#[derive(Debug)]
pub struct AssocList<K: Key, V: Copy> {
    items: Vec<(K, V)>,
}

impl<K: Key, V: Copy> View for AssocList<K, V> {
    type V = Map<K::V, V>;

    open spec fn view(&self) -> Map<K::V, V> {
        as_map(self.listed())
    }
}

impl<K: Key, V: Copy> AssocList<K, V> {
    /// The keys and values, in order.
    pub closed spec fn listed(&self) -> Seq<(K, V)> {
        self.items@
    }

    /// No key is listed twice.
    pub open spec fn wf(&self) -> bool {
        keys_once(self.listed())
    }

    /// An empty list.
    pub fn new() -> (list: Self)
        ensures
            list.wf(),
            list.listed() == Seq::<(K, V)>::empty(),
            list@ == Map::<K::V, V>::empty(),
    {
        let list = AssocList { items: Vec::new() };
        assert(list@ =~= Map::<K::V, V>::empty());
        list
    }

    /// Number of keys.
    pub fn len(&self) -> (n: usize)
        requires
            self.wf(),
        ensures
            n == self.listed().len(),
            self@.dom().finite(),
            n == self@.dom().len(),
    {
        proof {
            lemma_map_len(self.listed());
        }
        self.items.len()
    }

    /// A key with its value.
    pub fn item(&self, i: usize) -> (item: (K, V))
        requires
            i < self.listed().len(),
        ensures
            item == self.listed()[i as int],
    {
        self.items[i]
    }

    /// Where a key is listed.
    fn find(&self, key: &K) -> (place: Option<usize>)
        ensures
            match place {
                Some(p) => p < self.listed().len() && self.listed()[p as int].0@ == key@,
                None => !lists_key(self.listed(), key@),
            },
    {
        let mut i: usize = 0;
        while i < self.items.len()
            invariant
                i <= self.items@.len(),
                forall|k: int| 0 <= k < i ==> (#[trigger] self.items@[k]).0@ != key@,
            decreases self.items@.len() - i,
        {
            if self.items[i].0.same(key) {
                return Some(i);
            }
            i = i + 1;
        }
        None
    }

    /// The value of a key.
    pub fn get(&self, key: &K) -> (value: Option<V>)
        requires
            self.wf(),
        ensures
            value == (if self@.contains_key(key@) {
                Some(self@[key@])
            } else {
                None
            }),
    {
        match self.find(key) {
            Some(p) => {
                proof {
                    lemma_listed(self.listed(), p as int);
                }
                Some(self.items[p].1)
            },
            None => None,
        }
    }

    /// Maps a key to a value.
    pub fn insert(&mut self, key: K, value: V)
        requires
            old(self).wf(),
        ensures
            final(self).wf(),
            final(self)@ == old(self)@.insert(key@, value),
    {
        let ghost before = self.listed();
        match self.find(&key) {
            Some(p) => {
                self.items.set(p, (key, value));
                proof {
                    let after = self.listed();
                    assert(after == before.update(p as int, (key, value)));
                    assert forall|i: int, j: int|
                        #![trigger after[i], after[j]]
                        0 <= i < j < after.len() implies after[i].0@ != after[j].0@ by {
                        assert(after[i].0@ == before[i].0@);
                        assert(after[j].0@ == before[j].0@);
                    }
                    assert forall|k: K::V| lists_key(after, k) <==> lists_key(before, k) by {
                        if lists_key(after, k) {
                            let q = place_of(after, k);
                            assert(before[q].0@ == after[q].0@);
                        }
                        if lists_key(before, k) {
                            let q = place_of(before, k);
                            assert(before[q].0@ == after[q].0@);
                        }
                    }
                    lemma_listed(before, p as int);
                    assert forall|k: K::V| lists_key(after, k) implies as_map(after)[k] == as_map(
                        before,
                    ).insert(key@, value)[k] by {
                        let q = place_of(after, k);
                        lemma_listed(after, q);
                        lemma_listed(before, q);
                    }
                    assert(as_map(after) =~= as_map(before).insert(key@, value));
                }
            },
            None => {
                self.items.push((key, value));
                proof {
                    lemma_list_more(before, key, value);
                }
            },
        }
    }

    /// Lists a key behind the others.
    pub fn list_more(&mut self, key: K, value: V)
        requires
            old(self).wf(),
            !old(self)@.contains_key(key@),
        ensures
            final(self).wf(),
            final(self).listed() == old(self).listed().push((key, value)),
            final(self)@ == old(self)@.insert(key@, value),
    {
        let ghost before = self.listed();
        self.items.push((key, value));
        proof {
            lemma_list_more(before, key, value);
        }
    }

    /// Unmaps a key.
    pub fn remove(&mut self, key: &K) -> (value: Option<V>)
        requires
            old(self).wf(),
        ensures
            final(self).wf(),
            final(self)@ == old(self)@.remove(key@),
            value == (if old(self)@.contains_key(key@) {
                Some(old(self)@[key@])
            } else {
                None
            }),
    {
        let ghost before = self.listed();
        match self.find(key) {
            Some(p) => {
                let (_, value) = self.items.remove(p);
                proof {
                    let after = self.listed();
                    assert(after == before.remove(p as int));
                    lemma_listed(before, p as int);
                    assert forall|i: int| 0 <= i < after.len() implies #[trigger] after[i]
                        == before[if i < p {
                        i
                    } else {
                        i + 1
                    }] by {}
                    assert forall|i: int, j: int|
                        #![trigger after[i], after[j]]
                        0 <= i < j < after.len() implies after[i].0@ != after[j].0@ by {
                        let a = if i < p {
                            i
                        } else {
                            i + 1
                        };
                        let b = if j < p {
                            j
                        } else {
                            j + 1
                        };
                        assert(before[a].0@ != before[b].0@);
                    }
                    assert forall|k: K::V|
                        lists_key(after, k) <==> (lists_key(before, k) && k != key@) by {
                        if lists_key(after, k) {
                            let q = place_of(after, k);
                            let a = if q < p {
                                q
                            } else {
                                q + 1
                            };
                            assert(before[a] == after[q]);
                            if a < p {
                                assert(before[a].0@ != before[p as int].0@);
                            } else {
                                assert(before[p as int].0@ != before[a].0@);
                            }
                        }
                        if lists_key(before, k) && k != key@ {
                            let a = place_of(before, k);
                            let q = if a < p {
                                a
                            } else {
                                a - 1
                            };
                            assert(after[q] == before[a]);
                        }
                    }
                    assert forall|k: K::V| lists_key(after, k) implies as_map(after)[k] == as_map(
                        before,
                    )[k] by {
                        let q = place_of(after, k);
                        let a = if q < p {
                            q
                        } else {
                            q + 1
                        };
                        lemma_listed(after, q);
                        lemma_listed(before, a);
                    }
                    assert(as_map(after) =~= as_map(before).remove(key@));
                }
                Some(value)
            },
            None => {
                assert(as_map(before).remove(key@) =~= as_map(before));
                None
            },
        }
    }
}

/// A list has as many keys as items.
proof fn lemma_map_len<K: Key, V>(items: Seq<(K, V)>)
    requires
        keys_once(items),
    ensures
        as_map(items).dom().finite(),
        as_map(items).dom().len() == items.len(),
    decreases items.len(),
{
    if items.len() == 0 {
        assert(as_map(items).dom() =~= Set::empty());
    } else {
        let front = items.drop_last();
        let last = items.last();
        assert(keys_once(front)) by {
            assert forall|i: int, j: int|
                #![trigger front[i], front[j]]
                0 <= i < j < front.len() implies front[i].0@ != front[j].0@ by {
                assert(front[i] == items[i] && front[j] == items[j]);
            }
        }
        assert(!lists_key(front, last.0@)) by {
            if lists_key(front, last.0@) {
                let p = place_of(front, last.0@);
                assert(items[p] == front[p]);
                assert(items[p].0@ != items[items.len() - 1].0@);
            }
        }
        lemma_map_len(front);
        lemma_list_more(front, last.0, last.1);
        assert(front.push((last.0, last.1)) =~= items);
        assert(as_map(items).dom() =~= as_map(front).dom().insert(last.0@));
    }
}

} // verus!
