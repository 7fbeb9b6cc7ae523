//! A cache that drops what was not used for longest.
//!
//! The entries are nodes of a doubly linked list, most recently used first. The nodes
//! live in slots, and a hash map says in which slot a key is.

use std::collections::HashMap;
use std::hash::Hash;

use vstd::prelude::*;

use crate::buffer_pool::cache_key::{
    are_keys, clone_key, distinct_keys, holds, lemma_spot, spot,
};

verus! {

/// A node of the list.
struct Node<K, V> {
    key: K,
    value: V,
    prev: Option<usize>,
    next: Option<usize>,
}

/// A place for a node.
enum Slot<K, V> {
    Occupied(Node<K, V>),
    Free,
}

impl<K, V> Slot<K, V> {
    /// The node in the slot.
    spec fn node(self) -> Node<K, V> {
        self->Occupied_0
    }
}

/// The node at a place of the list is linked to those beside it.
spec fn node_ok<K, V>(slots: Seq<Slot<K, V>>, order: Seq<usize>, i: int) -> bool {
    &&& order[i] < slots.len()
    &&& slots[order[i] as int] is Occupied
    &&& slots[order[i] as int].node().prev == (if i == 0 {
        None
    } else {
        Some(order[i - 1])
    })
    &&& slots[order[i] as int].node().next == (if i == order.len() - 1 {
        None
    } else {
        Some(order[i + 1])
    })
}

/// The list runs through the slots in `order`.
spec fn linked<K, V>(
    slots: Seq<Slot<K, V>>,
    order: Seq<usize>,
    head: Option<usize>,
    tail: Option<usize>,
) -> bool {
    &&& forall|i: int| 0 <= i < order.len() ==> #[trigger] node_ok(slots, order, i)
    &&& forall|i: int, j: int|
        #![trigger order[i], order[j]]
        0 <= i < j < order.len() ==> order[i] != order[j]
    &&& head == (if order.len() == 0 {
        None
    } else {
        Some(order[0])
    })
    &&& tail == (if order.len() == 0 {
        None
    } else {
        Some(order.last())
    })
}

/// The keys and values of the list.
spec fn contents<K, V>(slots: Seq<Slot<K, V>>, order: Seq<usize>) -> Seq<(K, V)> {
    Seq::new(
        order.len(),
        |i: int| (slots[order[i] as int].node().key, slots[order[i] as int].node().value),
    )
}

/// Two states of the slots differ only in the links.
spec fn same_contents<K, V>(before: Seq<Slot<K, V>>, after: Seq<Slot<K, V>>) -> bool {
    &&& before.len() == after.len()
    &&& forall|s: int|
        0 <= s < before.len() ==> {
            &&& (#[trigger] after[s]) is Occupied <==> before[s] is Occupied
            &&& after[s] is Occupied ==> after[s].node().key == before[s].node().key
                && after[s].node().value == before[s].node().value
        }
}

/// The slots when a node is taken out of the list: its neighbours are linked.
spec fn bridged<K, V>(
    slots: Seq<Slot<K, V>>,
    idx: usize,
    prev: Option<usize>,
    next: Option<usize>,
) -> Seq<Slot<K, V>> {
    Seq::new(
        slots.len(),
        |s: int|
            {
                let node = slots[s].node();
                if s == idx {
                    Slot::Occupied(Node { prev: None, next: None, ..node })
                } else if prev == Some(s as usize) {
                    Slot::Occupied(Node { next, ..node })
                } else if next == Some(s as usize) {
                    Slot::Occupied(Node { prev, ..node })
                } else {
                    slots[s]
                }
            },
    )
}

proof fn lemma_bridged<K, V>(
    slots: Seq<Slot<K, V>>,
    order: Seq<usize>,
    head: Option<usize>,
    tail: Option<usize>,
    at: int,
)
    requires
        0 <= at < order.len(),
        linked(slots, order, Some(order[0]), Some(order.last())),
        slots.len() <= usize::MAX,
        head == (if at == 0 {
            slots[order[at] as int].node().next
        } else {
            Some(order[0])
        }),
        tail == (if at == order.len() - 1 {
            slots[order[at] as int].node().prev
        } else {
            Some(order.last())
        }),
    ensures
        ({
            let node = slots[order[at] as int].node();
            let after = bridged(slots, order[at], node.prev, node.next);
            &&& linked(after, order.remove(at), head, tail)
            &&& same_contents(slots, after)
        }),
{
    let idx = order[at];
    let node = slots[idx as int].node();
    let after = bridged(slots, idx, node.prev, node.next);
    let rest = order.remove(at);
    assert(node_ok(slots, order, at));
    if at > 0 {
        assert(node.prev == Some(order[at - 1]));
    }
    if at < order.len() - 1 {
        assert(node.next == Some(order[at + 1]));
    }
    assert forall|i: int, j: int|
        #![trigger rest[i], rest[j]]
        0 <= i < j < rest.len() implies rest[i] != rest[j] by {
        let a = if i < at {
            i
        } else {
            i + 1
        };
        let b = if j < at {
            j
        } else {
            j + 1
        };
        assert(rest[i] == order[a] && rest[j] == order[b]);
    }
    assert forall|i: int| 0 <= i < rest.len() implies #[trigger] node_ok(after, rest, i) by {
        let a = if i < at {
            i
        } else {
            i + 1
        };
        let s = order[a];
        assert(rest[i] == s);
        assert(node_ok(slots, order, a));
        assert(s != idx) by {
            if a < at {
                assert(order[a] != order[at]);
            } else {
                assert(order[at] != order[a]);
            }
        }
        assert(node.prev == Some(s) <==> a == at - 1) by {
            if at > 0 {
                if a < at - 1 {
                    assert(order[a] != order[at - 1]);
                } else if a > at - 1 {
                    assert(order[at - 1] != order[a]);
                }
            }
        }
        assert(node.next == Some(s) <==> a == at + 1) by {
            if at < order.len() - 1 {
                if a < at + 1 {
                    assert(order[a] != order[at + 1]);
                } else if a > at + 1 {
                    assert(order[at + 1] != order[a]);
                }
            }
        }
        if i > 0 {
            assert(rest[i - 1] == order[if i - 1 < at {
                i - 1
            } else {
                i
            }]);
        }
        if i < rest.len() - 1 {
            assert(rest[i + 1] == order[if i + 1 < at {
                i + 1
            } else {
                i + 2
            }]);
        }
    }
    assert forall|s: int| 0 <= s < slots.len() implies {
        &&& (#[trigger] after[s]) is Occupied <==> slots[s] is Occupied
        &&& after[s] is Occupied ==> after[s].node().key == slots[s].node().key
            && after[s].node().value == slots[s].node().value
    } by {
        if at > 0 {
            assert(node_ok(slots, order, at - 1));
        }
        if at < order.len() - 1 {
            assert(node_ok(slots, order, at + 1));
        }
    }
    if rest.len() > 0 {
        assert(rest[0] == order[if 0 < at {
            0int
        } else {
            1int
        }]);
        assert(rest.last() == order[if rest.len() - 1 < at {
            rest.len() - 1
        } else {
            rest.len() as int
        }]);
    }
}

/// The entries when one was inserted or updated: it is the most recently used, and for a
/// new one the least recently used entry of a full cache is dropped. A cache for none takes
/// no new one.
pub open spec fn lru_put<K, V>(entries: Seq<(K, V)>, limit: nat, key: K, value: V) -> Seq<(K, V)> {
    if holds(entries, key) {
        seq![(key, value)] + entries.remove(spot(entries, key))
    } else if limit == 0 {
        entries
    } else if entries.len() >= limit {
        seq![(key, value)] + entries.drop_last()
    } else {
        seq![(key, value)] + entries
    }
}

/// The entry that an insertion drops.
pub open spec fn lru_evicted<K, V>(entries: Seq<(K, V)>, limit: nat, key: K) -> Option<(K, V)> {
    if !holds(entries, key) && 0 < limit <= entries.len() {
        Some(entries.last())
    } else {
        None
    }
}

/// The entries when one was used: it is the most recently used.
pub open spec fn lru_used<K, V>(entries: Seq<(K, V)>, key: K) -> Seq<(K, V)> {
    if holds(entries, key) {
        seq![entries[spot(entries, key)]] + entries.remove(spot(entries, key))
    } else {
        entries
    }
}

/// The entries when one was taken out.
pub open spec fn lru_removed<K, V>(entries: Seq<(K, V)>, key: K) -> Seq<(K, V)> {
    if holds(entries, key) {
        entries.remove(spot(entries, key))
    } else {
        entries
    }
}

/// A cache of a number of entries.
pub struct LruCache<K, V> {
    capacity: usize,
    map: HashMap<K, usize>,
    slots: Vec<Slot<K, V>>,
    free: Vec<usize>,
    head: Option<usize>,
    tail: Option<usize>,
    order: Ghost<Seq<usize>>,
}

impl<K: Clone + Eq + Hash, V> LruCache<K, V> {
    /// The entries, most recently used first.
    pub closed spec fn entries(&self) -> Seq<(K, V)> {
        contents(self.slots@, self.order@)
    }

    /// Number of entries that the cache is for.
    pub closed spec fn limit(&self) -> nat {
        self.capacity as nat
    }

    /// There are no more entries than the cache is for.
    pub open spec fn bounded(&self) -> bool {
        self.entries().len() <= self.limit()
    }

    /// The free slots are free, and listed once.
    spec fn free_ok(&self) -> bool {
        &&& forall|i: int|
            0 <= i < self.free@.len() ==> (#[trigger] self.free@[i]) < self.slots@.len()
                && self.slots@[self.free@[i] as int] is Free
        &&& forall|i: int, j: int|
            #![trigger self.free@[i], self.free@[j]]
            0 <= i < j < self.free@.len() ==> self.free@[i] != self.free@[j]
    }

    /// The map says in which slot a key is.
    spec fn map_ok(&self) -> bool {
        &&& forall|i: int|
            0 <= i < self.order@.len() ==> {
                let key = self.slots@[(#[trigger] self.order@[i]) as int].node().key;
                self.map@.contains_key(key) && self.map@[key] == self.order@[i]
            }
        &&& forall|key: K| #[trigger]
            self.map@.contains_key(key) ==> {
                &&& self.order@.contains(self.map@[key])
                &&& self.slots@[self.map@[key] as int].node().key == key
            }
    }

    /// The list, the map and the free slots agree.
    pub closed spec fn wf(&self) -> bool {
        &&& are_keys::<K>()
        &&& linked(self.slots@, self.order@, self.head, self.tail)
        &&& self.free_ok()
        &&& self.map_ok()
    }

    /// No key occurs twice.
    pub proof fn lemma_distinct(&self)
        requires
            self.wf(),
        ensures
            distinct_keys(self.entries()),
    {
        let entries = self.entries();
        assert forall|i: int, j: int|
            #![trigger entries[i], entries[j]]
            0 <= i < j < entries.len() implies entries[i].0 != entries[j].0 by {
            assert(self.order@[i] != self.order@[j]);
            assert(self.map@[entries[i].0] == self.order@[i]);
            assert(self.map@[entries[j].0] == self.order@[j]);
        }
    }

    /// An empty cache for a number of entries.
    pub fn new(capacity: usize) -> (cache: Self)
        requires
            are_keys::<K>(),
        ensures
            cache.wf(),
            cache.bounded(),
            cache.limit() == capacity,
            cache.entries() == Seq::<(K, V)>::empty(),
    {
        let cache = LruCache {
            capacity,
            map: HashMap::new(),
            slots: Vec::new(),
            free: Vec::new(),
            head: None,
            tail: None,
            order: Ghost(Seq::empty()),
        };
        assert(cache.entries() =~= Seq::<(K, V)>::empty());
        cache
    }

    /// Number of entries that the cache is for.
    pub fn capacity(&self) -> (capacity: usize)
        ensures
            capacity == self.limit(),
    {
        self.capacity
    }

    /// Changes the link of a node to the one before it.
    fn set_prev(&mut self, idx: usize, prev: Option<usize>)
        requires
            idx < old(self).slots@.len(),
            old(self).slots@[idx as int] is Occupied,
        ensures
            final(self).slots@ == old(self).slots@.update(
                idx as int,
                Slot::Occupied(Node { prev, ..old(self).slots@[idx as int].node() }),
            ),
            final(self).capacity == old(self).capacity,
            final(self).map == old(self).map,
            final(self).free == old(self).free,
            final(self).head == old(self).head,
            final(self).tail == old(self).tail,
            final(self).order == old(self).order,
    {
        match &mut self.slots[idx] {
            Slot::Occupied(node) => {
                node.prev = prev;
            },
            Slot::Free => {},
        }
    }

    /// Changes the link of a node to the one behind it.
    fn set_next(&mut self, idx: usize, next: Option<usize>)
        requires
            idx < old(self).slots@.len(),
            old(self).slots@[idx as int] is Occupied,
        ensures
            final(self).slots@ == old(self).slots@.update(
                idx as int,
                Slot::Occupied(Node { next, ..old(self).slots@[idx as int].node() }),
            ),
            final(self).capacity == old(self).capacity,
            final(self).map == old(self).map,
            final(self).free == old(self).free,
            final(self).head == old(self).head,
            final(self).tail == old(self).tail,
            final(self).order == old(self).order,
    {
        match &mut self.slots[idx] {
            Slot::Occupied(node) => {
                node.next = next;
            },
            Slot::Free => {},
        }
    }

    /// Puts a node that is not in the list at its head.
    fn push_head(&mut self, idx: usize)
        requires
            linked(old(self).slots@, old(self).order@, old(self).head, old(self).tail),
            idx < old(self).slots@.len(),
            old(self).slots@[idx as int] is Occupied,
            !old(self).order@.contains(idx),
        ensures
            linked(final(self).slots@, final(self).order@, final(self).head, final(self).tail),
            final(self).order@ == seq![idx] + old(self).order@,
            same_contents(old(self).slots@, final(self).slots@),
            final(self).capacity == old(self).capacity,
            final(self).map == old(self).map,
            final(self).free == old(self).free,
    {
        let ghost before = self.order@;
        let ghost old_slots = self.slots@;
        let old_head: Option<usize> = self.head;
        self.set_prev(idx, None);
        self.set_next(idx, old_head);
        if let Some(first) = old_head {
            assert(node_ok(old_slots, before, 0));
            assert(before[0] == first);
            assert(first != idx);
            self.set_prev(first, Some(idx));
        }
        self.head = Some(idx);
        if self.tail.is_none() {
            self.tail = Some(idx);
        }
        self.order = Ghost(seq![idx] + before);
        proof {
            let order = self.order@;
            assert forall|i: int, j: int|
                #![trigger order[i], order[j]]
                0 <= i < j < order.len() implies order[i] != order[j] by {
                if i == 0 {
                    assert(order[j] == before[j - 1]);
                    assert(before.contains(before[j - 1]));
                } else {
                    assert(order[i] == before[i - 1] && order[j] == before[j - 1]);
                }
            }
            assert forall|i: int| 0 <= i < order.len() implies #[trigger] node_ok(
                self.slots@,
                order,
                i,
            ) by {
                if i > 0 {
                    assert(node_ok(old_slots, before, i - 1));
                    assert(order[i] == before[i - 1]);
                    assert(before.contains(before[i - 1]));
                    if i > 1 {
                        assert(before[0] != before[i - 1]);
                        assert(order[i - 1] == before[i - 2]);
                    }
                    if i < order.len() - 1 {
                        assert(order[i + 1] == before[i]);
                    }
                } else if order.len() > 1 {
                    assert(order[1] == before[0]);
                }
            }
            if before.len() > 0 {
                assert(order.last() == before.last());
            }
        }
    }

    /// Takes a node out of the list.
    fn unlink(&mut self, idx: usize, Ghost(at): Ghost<int>)
        requires
            linked(old(self).slots@, old(self).order@, old(self).head, old(self).tail),
            0 <= at < old(self).order@.len(),
            old(self).order@[at] == idx,
        ensures
            linked(final(self).slots@, final(self).order@, final(self).head, final(self).tail),
            final(self).order@ == old(self).order@.remove(at),
            same_contents(old(self).slots@, final(self).slots@),
            final(self).capacity == old(self).capacity,
            final(self).map == old(self).map,
            final(self).free == old(self).free,
    {
        let ghost before = self.order@;
        let ghost old_slots = self.slots@;
        assert(old_slots.len() == self.slots.len());
        proof {
            assert(node_ok(old_slots, before, at));
            if at > 0 {
                assert(node_ok(old_slots, before, at - 1));
            }
            if at < before.len() - 1 {
                assert(node_ok(old_slots, before, at + 1));
            }
        }
        let (prev, next) = match &self.slots[idx] {
            Slot::Occupied(node) => (node.prev, node.next),
            Slot::Free => (None, None),
        };
        match prev {
            Some(p) => {
                assert(before[at - 1] == p);
                assert(p != idx);
                self.set_next(p, next);
            },
            None => {
                self.head = next;
            },
        }
        match next {
            Some(n) => {
                assert(before[at + 1] == n);
                assert(n != idx);
                self.set_prev(n, prev);
            },
            None => {
                self.tail = prev;
            },
        }
        self.set_prev(idx, None);
        self.set_next(idx, None);
        self.order = Ghost(before.remove(at));
        proof {
            assert(self.slots@ =~= bridged(old_slots, idx, prev, next));
            lemma_bridged(old_slots, before, self.head, self.tail, at);
        }
    }

    /// Brings a node to the head of the list.
    fn move_to_head(&mut self, idx: usize, Ghost(at): Ghost<int>)
        requires
            old(self).wf(),
            0 <= at < old(self).order@.len(),
            old(self).order@[at] == idx,
        ensures
            final(self).wf(),
            final(self).limit() == old(self).limit(),
            final(self).entries() == seq![old(self).entries()[at]] + old(self).entries().remove(at),
            final(self).head == Some(idx),
            final(self).order@.len() > 0,
            final(self).order@[0] == idx,
    {
        let ghost order = self.order@;
        let ghost entries = self.entries();
        if self.head == Some(idx) {
            proof {
                if at > 0 {
                    assert(order[0] != order[at]);
                }
                assert(entries =~= seq![entries[at]] + entries.remove(at));
            }
            return;
        }
        let ghost slots = self.slots@;
        self.unlink(idx, Ghost(at));
        proof {
            assert(node_ok(slots, order, at));
            assert forall|i: int| 0 <= i < order.remove(at).len() implies #[trigger] order.remove(
                at,
            )[i] != idx by {
                if i < at {
                    assert(order.remove(at)[i] == order[i]);
                } else {
                    assert(order.remove(at)[i] == order[i + 1]);
                }
            }
        }
        self.push_head(idx);
        proof {
            lemma_same_place(slots, self.slots@, order, self.order@, at);
            assert(self.order@ =~= seq![idx] + order.remove(at));
            assert(self.entries() =~= seq![entries[at]] + entries.remove(at));
            assert forall|i: int| 0 <= i < self.order@.len() implies {
                let key = self.slots@[(#[trigger] self.order@[i]) as int].node().key;
                self.map@.contains_key(key) && self.map@[key] == self.order@[i]
            } by {
                let a = if i == 0 {
                    at
                } else if i - 1 < at {
                    i - 1
                } else {
                    i
                };
                assert(self.order@[i] == order[a]);
                assert(node_ok(slots, order, a));
            }
            assert forall|key: K| #[trigger] self.map@.contains_key(key) implies {
                &&& self.order@.contains(self.map@[key])
                &&& self.slots@[self.map@[key] as int].node().key == key
            } by {
                let a = choose|a: int| 0 <= a < order.len() && order[a] == self.map@[key];
                assert(order[a] == self.map@[key]);
                let i = if a == at {
                    0
                } else if a < at {
                    a + 1
                } else {
                    a
                };
                assert(self.order@[i] == order[a]);
                assert(node_ok(slots, order, a));
            }
        }
    }

    /// Number of entries.
    pub fn len(&self) -> (n: usize)
        requires
            self.wf(),
        ensures
            n == self.entries().len(),
    {
        broadcast use vstd::std_specs::hash::group_hash_axioms;

        proof {
            self.lemma_len();
        }
        self.map.len()
    }

    /// The map has as many keys as the list has entries.
    proof fn lemma_len(&self)
        requires
            self.wf(),
        ensures
            self.map@.dom().finite(),
            self.map@.dom().len() == self.order@.len(),
    {
        let keys = Seq::new(
            self.order@.len(),
            |i: int| self.slots@[self.order@[i] as int].node().key,
        );
        assert forall|i: int, j: int| 0 <= i < keys.len() && 0 <= j < keys.len() && i
            != j implies keys[i] != keys[j] by {
            assert(self.map@[keys[i]] == self.order@[i]);
            assert(self.map@[keys[j]] == self.order@[j]);
            if i < j {
                assert(self.order@[i] != self.order@[j]);
            } else {
                assert(self.order@[j] != self.order@[i]);
            }
        }
        assert(keys.no_duplicates());
        keys.unique_seq_to_set();
        assert forall|key: K| self.map@.dom().contains(key) <==> keys.to_set().contains(key) by {
            if self.map@.contains_key(key) {
                let a = choose|a: int|
                    0 <= a < self.order@.len() && self.order@[a] == self.map@[key];
                assert(self.order@[a] == self.map@[key]);
                assert(keys[a] == key);
            }
            if keys.contains(key) {
                let a = choose|a: int| 0 <= a < keys.len() && keys[a] == key;
                assert(self.map@.contains_key(self.slots@[self.order@[a] as int].node().key));
            }
        }
        assert(self.map@.dom() =~= keys.to_set());
    }

    /// Whether the cache is empty.
    pub fn is_empty(&self) -> (empty: bool)
        requires
            self.wf(),
        ensures
            empty == (self.entries().len() == 0),
    {
        self.len() == 0
    }

    /// In which slot a key is.
    fn find(&self, key: &K) -> (found: Option<usize>)
        requires
            self.wf(),
        ensures
            match found {
                Some(idx) => {
                    let at = spot(self.entries(), *key);
                    &&& holds(self.entries(), *key)
                    &&& 0 <= at < self.order@.len()
                    &&& self.order@[at] == idx
                    &&& self.entries()[at].0 == *key
                    &&& self.map@.contains_key(*key)
                    &&& self.map@[*key] == idx
                },
                None => !holds(self.entries(), *key) && !self.map@.contains_key(*key),
            },
    {
        broadcast use vstd::std_specs::hash::group_hash_axioms;

        proof {
            self.lemma_distinct();
        }
        match self.map.get(key) {
            Some(idx) => {
                proof {
                    let a = choose|a: int|
                        0 <= a < self.order@.len() && self.order@[a] == self.map@[*key];
                    assert(self.order@[a] == self.map@[*key]);
                    assert(self.entries()[a].0 == *key);
                    lemma_spot(self.entries(), a);
                }
                Some(*idx)
            },
            None => {
                proof {
                    assert forall|i: int| 0 <= i < self.entries().len() implies (
                    #[trigger] self.entries()[i]).0 != *key by {
                        assert(self.map@.contains_key(
                            self.slots@[self.order@[i] as int].node().key,
                        ));
                    }
                }
                None
            },
        }
    }

    /// Looks up a key and makes it the most recently used.
    pub fn get(&mut self, key: &K) -> (value: Option<&V>)
        requires
            old(self).wf(),
        ensures
            final(self).wf(),
            final(self).limit() == old(self).limit(),
            final(self).entries() == lru_used(old(self).entries(), *key),
            match value {
                Some(v) => holds(old(self).entries(), *key) && *v == old(self).entries()[spot(
                    old(self).entries(),
                    *key,
                )].1,
                None => !holds(old(self).entries(), *key),
            },
    {
        match self.find(key) {
            Some(idx) => {
                let ghost at = spot(self.entries(), *key);
                self.move_to_head(idx, Ghost(at));
                proof {
                    assert(node_ok(self.slots@, self.order@, 0));
                    assert(self.entries()[0].1 == self.slots@[idx as int].node().value);
                }
                match &self.slots[idx] {
                    Slot::Occupied(node) => Some(&node.value),
                    Slot::Free => None,
                }
            },
            None => None,
        }
    }

    /// Whether a key is there.
    pub fn contains(&self, key: &K) -> (result: bool)
        requires
            self.wf(),
        ensures
            result == holds(self.entries(), *key),
    {
        self.find(key).is_some()
    }

    /// Takes the entry in a slot out of the cache.
    fn take_out(&mut self, idx: usize, key: &K, Ghost(at): Ghost<int>) -> (entry: Option<(K, V)>)
        requires
            old(self).wf(),
            0 <= at < old(self).order@.len(),
            old(self).order@[at] == idx,
            old(self).entries()[at].0 == *key,
        ensures
            final(self).wf(),
            final(self).limit() == old(self).limit(),
            final(self).entries() == old(self).entries().remove(at),
            entry == Some(old(self).entries()[at]),
            !final(self).map@.contains_key(*key),
    {
        broadcast use vstd::std_specs::hash::group_hash_axioms;

        let ghost order = self.order@;
        let ghost slots = self.slots@;
        let ghost entries = self.entries();
        let ghost map = self.map@;
        let ghost free = self.free@;
        proof {
            assert(node_ok(slots, order, at));
            self.lemma_distinct();
        }
        self.map.remove(key);
        self.unlink(idx, Ghost(at));
        let ghost middle = self.slots@;
        let mut slot: Slot<K, V> = Slot::Free;
        std::mem::swap(&mut slot, &mut self.slots[idx]);
        self.free.push(idx);
        proof {
            let rest = self.order@;
            assert(rest == order.remove(at));
            assert forall|i: int| 0 <= i < rest.len() implies #[trigger] rest[i] == order[if i < at {
                i
            } else {
                i + 1
            }] && rest[i] != idx by {
                if i < at {
                    assert(order[i] != order[at]);
                } else {
                    assert(order[at] != order[i + 1]);
                }
            }
            assert forall|i: int| 0 <= i < rest.len() implies #[trigger] node_ok(
                self.slots@,
                rest,
                i,
            ) by {
                assert(node_ok(middle, rest, i));
                assert(rest[i] != idx);
            }
            assert forall|i: int| 0 <= i < rest.len() implies self.entries()[i]
                == entries.remove(at)[i] by {
                let a = if i < at {
                    i
                } else {
                    i + 1
                };
                assert(rest[i] == order[a]);
                assert(node_ok(slots, order, a));
                assert(middle[order[a] as int] is Occupied);
            }
            assert(self.entries() =~= entries.remove(at));
            assert forall|i: int| 0 <= i < rest.len() implies {
                let k = self.slots@[(#[trigger] rest[i]) as int].node().key;
                self.map@.contains_key(k) && self.map@[k] == rest[i]
            } by {
                let a = if i < at {
                    i
                } else {
                    i + 1
                };
                assert(rest[i] == order[a]);
                assert(node_ok(slots, order, a));
                assert(middle[order[a] as int] is Occupied);
                assert(map.contains_key(slots[order[a] as int].node().key));
                if a < at {
                    assert(entries[a].0 != entries[at].0);
                } else {
                    assert(entries[at].0 != entries[a].0);
                }
            }
            assert forall|k: K| #[trigger] self.map@.contains_key(k) implies {
                &&& rest.contains(self.map@[k])
                &&& self.slots@[self.map@[k] as int].node().key == k
            } by {
                assert(map.contains_key(k) && k != *key);
                let a = choose|a: int| 0 <= a < order.len() && order[a] == map[k];
                assert(order[a] == map[k]);
                assert(node_ok(slots, order, a));
                assert(middle[order[a] as int] is Occupied);
                assert(a != at);
                let i = if a < at {
                    a
                } else {
                    a - 1
                };
                assert(rest[i] == order[a]);
            }
            assert forall|i: int| 0 <= i < self.free@.len() implies (#[trigger] self.free@[i])
                < self.slots@.len() && self.slots@[self.free@[i] as int] is Free by {
                if i < free.len() {
                    assert(self.free@[i] == free[i]);
                    assert(slots[free[i] as int] is Free);
                    assert(middle[free[i] as int] is Free);
                }
            }
            assert forall|i: int, j: int|
                #![trigger self.free@[i], self.free@[j]]
                0 <= i < j < self.free@.len() implies self.free@[i] != self.free@[j] by {
                assert(self.free@[i] == free[i]);
                if j < free.len() {
                    assert(self.free@[j] == free[j]);
                } else {
                    assert(slots[free[i] as int] is Free);
                }
            }
            assert(middle[idx as int] is Occupied);
        }
        match slot {
            Slot::Occupied(node) => Some((node.key, node.value)),
            Slot::Free => None,
        }
    }

    /// Puts a new entry at the head of the list.
    fn put_new(&mut self, key: K, value: V)
        requires
            old(self).wf(),
            !holds(old(self).entries(), key),
            !old(self).map@.contains_key(key),
        ensures
            final(self).wf(),
            final(self).limit() == old(self).limit(),
            final(self).entries() == seq![(key, value)] + old(self).entries(),
    {
        broadcast use vstd::std_specs::hash::group_hash_axioms;

        let ghost order = self.order@;
        let ghost slots = self.slots@;
        let ghost entries = self.entries();
        let ghost map = self.map@;
        let ghost free = self.free@;
        let mapped: K = clone_key(&key);
        let node = Slot::Occupied(Node { key, value, prev: None, next: None });
        let idx: usize = match self.free.pop() {
            Some(idx) => {
                assert(idx == free[free.len() - 1]);
                self.slots.set(idx, node);
                idx
            },
            None => {
                let idx: usize = self.slots.len();
                self.slots.push(node);
                idx
            },
        };
        let ghost middle = self.slots@;
        proof {
            assert forall|i: int| 0 <= i < order.len() implies #[trigger] node_ok(
                middle,
                order,
                i,
            ) && order[i] != idx by {
                assert(node_ok(slots, order, i));
            }
            if order.contains(idx) {
                let i = choose|i: int| 0 <= i < order.len() && order[i] == idx;
                assert(node_ok(middle, order, i) && order[i] != idx);
            }
            assert(linked(self.slots@, self.order@, self.head, self.tail));
        }
        self.push_head(idx);
        self.map.insert(mapped, idx);
        proof {
            let more = self.order@;
            assert(more == seq![idx] + order);
            assert forall|i: int| 0 <= i < more.len() implies self.entries()[i] == (seq![
                (key, value),
            ] + entries)[i] by {
                if i == 0 {
                    assert(middle[idx as int] is Occupied);
                } else {
                    assert(more[i] == order[i - 1]);
                    assert(node_ok(slots, order, i - 1));
                    assert(middle[order[i - 1] as int] == slots[order[i - 1] as int]);
                    assert(middle[order[i - 1] as int] is Occupied);
                }
            }
            assert(self.entries() =~= seq![(key, value)] + entries);
            assert forall|i: int| 0 <= i < more.len() implies {
                let k = self.slots@[(#[trigger] more[i]) as int].node().key;
                self.map@.contains_key(k) && self.map@[k] == more[i]
            } by {
                if i == 0 {
                    assert(middle[idx as int] is Occupied);
                } else {
                    assert(more[i] == order[i - 1]);
                    assert(node_ok(slots, order, i - 1));
                    assert(middle[order[i - 1] as int] is Occupied);
                    assert(map.contains_key(slots[order[i - 1] as int].node().key));
                }
            }
            assert forall|k: K| #[trigger] self.map@.contains_key(k) implies {
                &&& more.contains(self.map@[k])
                &&& self.slots@[self.map@[k] as int].node().key == k
            } by {
                if k == key {
                    assert(more[0] == idx);
                    assert(middle[idx as int] is Occupied);
                } else {
                    assert(map.contains_key(k));
                    let a = choose|a: int| 0 <= a < order.len() && order[a] == map[k];
                    assert(order[a] == map[k]);
                    assert(more[a + 1] == order[a]);
                    assert(node_ok(slots, order, a));
                    assert(middle[order[a] as int] is Occupied);
                }
            }
            assert forall|i: int| 0 <= i < self.free@.len() implies (#[trigger] self.free@[i])
                < self.slots@.len() && self.slots@[self.free@[i] as int] is Free by {
                assert(self.free@[i] == free[i]);
                assert(slots[free[i] as int] is Free);
                assert(middle[free[i] as int] is Free) by {
                    if free.len() > 0 {
                        assert(free[i] != free[free.len() - 1]);
                    }
                }
            }
            assert forall|i: int, j: int|
                #![trigger self.free@[i], self.free@[j]]
                0 <= i < j < self.free@.len() implies self.free@[i] != self.free@[j] by {
                assert(self.free@[i] == free[i] && self.free@[j] == free[j]);
            }
        }
    }

    /// Inserts or updates an entry and makes it the most recently used. A full cache
    /// drops the least recently used entry for a new one; a cache for none takes none.
    pub fn put(&mut self, key: K, value: V) -> (evicted: Option<(K, V)>)
        requires
            old(self).wf(),
        ensures
            final(self).wf(),
            final(self).limit() == old(self).limit(),
            old(self).bounded() ==> final(self).bounded(),
            evicted == lru_evicted(old(self).entries(), old(self).limit(), key),
            final(self).entries() == lru_put(old(self).entries(), old(self).limit(), key, value),
    {
        let ghost entries = self.entries();
        if let Some(idx) = self.find(&key) {
            let ghost at = spot(entries, key);
            let _ = self.take_out(idx, &key, Ghost(at));
            proof {
                self.lemma_not_held(key);
            }
            self.put_new(key, value);
            return None;
        }
        if self.capacity == 0 {
            proof {
                self.lemma_not_held(key);
            }
            return None;
        }
        if self.len() < self.capacity {
            self.put_new(key, value);
            return None;
        }
        match self.tail {
            Some(idx) => {
                let ghost at = self.order@.len() - 1;
                proof {
                    assert(self.order@.len() > 0);
                    assert(self.order@[at] == idx);
                    assert(node_ok(self.slots@, self.order@, at));
                }
                let last_key: K = match &self.slots[idx] {
                    Slot::Occupied(node) => clone_key(&node.key),
                    Slot::Free => clone_key(&key),
                };
                let evicted = self.take_out(idx, &last_key, Ghost(at));
                proof {
                    assert(entries.remove(at) =~= entries.drop_last());
                    assert forall|i: int| 0 <= i < self.entries().len() implies (
                    #[trigger] self.entries()[i]).0 != key by {
                        assert(self.entries()[i] == entries[i]);
                    }
                    self.lemma_unmapped(key);
                }
                self.put_new(key, value);
                evicted
            },
            None => {
                self.put_new(key, value);
                None
            },
        }
    }

    /// A key that is not in the map is not among the entries.
    proof fn lemma_not_held(&self, key: K)
        requires
            self.wf(),
            !self.map@.contains_key(key),
        ensures
            !holds(self.entries(), key),
    {
        assert forall|i: int| 0 <= i < self.entries().len() implies (
        #[trigger] self.entries()[i]).0 != key by {
            assert(self.map@.contains_key(self.slots@[self.order@[i] as int].node().key));
        }
    }

    /// A key that is not among the entries is not in the map.
    proof fn lemma_unmapped(&self, key: K)
        requires
            self.wf(),
            !holds(self.entries(), key),
        ensures
            !self.map@.contains_key(key),
    {
        if self.map@.contains_key(key) {
            let a = choose|a: int| 0 <= a < self.order@.len() && self.order@[a] == self.map@[key];
            assert(self.order@[a] == self.map@[key]);
            assert(self.entries()[a].0 == key);
        }
    }

    /// Takes a key out of the cache.
    pub fn remove(&mut self, key: &K) -> (value: Option<V>)
        requires
            old(self).wf(),
        ensures
            final(self).wf(),
            final(self).limit() == old(self).limit(),
            final(self).entries() == lru_removed(old(self).entries(), *key),
            value == (if holds(old(self).entries(), *key) {
                Some(old(self).entries()[spot(old(self).entries(), *key)].1)
            } else {
                None
            }),
    {
        match self.find(key) {
            Some(idx) => {
                let ghost at = spot(self.entries(), *key);
                match self.take_out(idx, key, Ghost(at)) {
                    Some((_, value)) => Some(value),
                    None => None,
                }
            },
            None => None,
        }
    }

    /// The keys, least recently used first, at most `max` of them.
    pub fn lru_tail_keys(&self, max: usize) -> (keys: Vec<K>)
        requires
            self.wf(),
        ensures
            keys@.len() == (if max < self.entries().len() {
                max as nat
            } else {
                self.entries().len()
            }),
            forall|i: int|
                0 <= i < keys@.len() ==> #[trigger] keys@[i] == self.entries()[self.entries().len()
                    - 1 - i].0,
    {
        let mut keys: Vec<K> = Vec::new();
        let mut next: Option<usize> = self.tail;
        let ghost n = self.order@.len();
        while keys.len() < max && next.is_some()
            invariant
                self.wf(),
                n == self.order@.len(),
                keys@.len() <= n,
                keys@.len() <= max,
                next == (if keys@.len() == n {
                    None
                } else {
                    Some(self.order@[n - 1 - keys@.len()])
                }),
                forall|i: int|
                    0 <= i < keys@.len() ==> #[trigger] keys@[i] == self.entries()[n - 1 - i].0,
            decreases n - keys@.len(),
        {
            let idx: usize = next.unwrap();
            proof {
                assert(node_ok(self.slots@, self.order@, n - 1 - keys@.len()));
            }
            match &self.slots[idx] {
                Slot::Occupied(node) => {
                    let key: K = clone_key(&node.key);
                    keys.push(key);
                    next = node.prev;
                },
                Slot::Free => {
                    next = None;
                },
            }
        }
        keys
    }

    /// All keys, least recently used first.
    pub fn keys(&self) -> (keys: Vec<K>)
        requires
            self.wf(),
        ensures
            keys@.len() == self.entries().len(),
            forall|i: int|
                0 <= i < keys@.len() ==> #[trigger] keys@[i] == self.entries()[self.entries().len()
                    - 1 - i].0,
    {
        let n: usize = self.len();
        self.lru_tail_keys(n)
    }
}

/// When a node has moved to the head, the nodes hold what they held.
proof fn lemma_same_place<K, V>(
    before: Seq<Slot<K, V>>,
    after: Seq<Slot<K, V>>,
    order: Seq<usize>,
    new_order: Seq<usize>,
    at: int,
)
    requires
        same_contents(before, after),
        forall|i: int| 0 <= i < order.len() ==> #[trigger] node_ok(before, order, i),
        0 <= at < order.len(),
        new_order == seq![order[at]] + order.remove(at),
    ensures
        contents(after, new_order) == seq![contents(before, order)[at]] + contents(
            before,
            order,
        ).remove(at),
{
    let old_contents = contents(before, order);
    let expected = seq![old_contents[at]] + old_contents.remove(at);
    let found = contents(after, new_order);
    assert(found.len() == expected.len());
    assert forall|i: int| 0 <= i < found.len() implies found[i] == expected[i] by {
        let a = if i == 0 {
            at
        } else if i - 1 < at {
            i - 1
        } else {
            i
        };
        assert(new_order[i] == order[a]);
        assert(node_ok(before, order, a));
        assert(expected[i] == old_contents[a]);
        assert(after[order[a] as int] is Occupied);
    }
    assert(found =~= expected);
}

} // verus!
