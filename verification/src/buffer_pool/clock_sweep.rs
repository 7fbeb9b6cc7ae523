//! A cache that gives each entry a second chance.
//!
//! A hand goes round over the slots. It clears the mark of an entry that was used since
//! it last came by, and drops an entry without a mark.

use std::collections::{HashMap, HashSet};
use std::hash::Hash;

use vstd::prelude::*;

use crate::buffer_pool::cache_key::{are_keys, clone_key};

verus! {

/// An entry.
struct ClockEntry<K, V> {
    key: K,
    value: V,
    referenced: bool,
}

/// A place for an entry.
enum ClockSlot<K, V> {
    Occupied(ClockEntry<K, V>),
    Free,
}

/// An entry: key, value, and whether it was used since the hand last came by.
#[verifier::ext_equal]
pub ghost struct ClockCell<K, V> {
    pub key: K,
    pub value: V,
    pub referenced: bool,
}

/// What a slot holds.
spec fn cell<K, V>(slot: ClockSlot<K, V>) -> Option<ClockCell<K, V>> {
    match slot {
        ClockSlot::Occupied(e) => Some(
            ClockCell { key: e.key, value: e.value, referenced: e.referenced },
        ),
        ClockSlot::Free => None,
    }
}

/// What slots hold.
spec fn cells_of<K, V>(slots: Seq<ClockSlot<K, V>>) -> Seq<Option<ClockCell<K, V>>> {
    Seq::new(slots.len(), |i: int| cell(slots[i]))
}

/// Whether a slot holds a key.
pub open spec fn cell_has<K, V>(cells: Seq<Option<ClockCell<K, V>>>, i: int, key: K) -> bool {
    0 <= i < cells.len() && cells[i] is Some && cells[i]->0.key == key
}

/// Whether a key is there.
pub open spec fn cells_hold<K, V>(cells: Seq<Option<ClockCell<K, V>>>, key: K) -> bool {
    exists|i: int| #[trigger] cell_has(cells, i, key)
}

/// The slot of a key.
pub open spec fn cell_spot<K, V>(cells: Seq<Option<ClockCell<K, V>>>, key: K) -> int {
    choose|i: int| #[trigger] cell_has(cells, i, key)
}

/// The slot that the hand reaches in `steps` steps.
pub open spec fn reached(hand: int, steps: int, n: int) -> int {
    (hand + steps) % n
}

/// The steps that the hand takes to a slot.
pub open spec fn steps_to(hand: int, i: int, n: int) -> int {
    if i >= hand {
        i - hand
    } else {
        i - hand + n
    }
}

/// Whether the slot holds an entry that may be dropped.
pub open spec fn droppable<K, V>(
    cells: Seq<Option<ClockCell<K, V>>>,
    i: int,
    protected: Set<K>,
) -> bool {
    cells[i] is Some && !protected.contains(cells[i]->0.key)
}

/// Whether the slot holds an entry that may be dropped and has no mark.
pub open spec fn is_idle<K, V>(
    cells: Seq<Option<ClockCell<K, V>>>,
    i: int,
    protected: Set<K>,
) -> bool {
    droppable(cells, i, protected) && !cells[i]->0.referenced
}

/// Whether the first entry without a mark that may be dropped is `steps` steps away.
pub open spec fn first_idle<K, V>(
    cells: Seq<Option<ClockCell<K, V>>>,
    hand: int,
    protected: Set<K>,
    steps: int,
) -> bool {
    let n = cells.len() as int;
    &&& 0 <= steps < n
    &&& is_idle(cells, reached(hand, steps, n), protected)
    &&& forall|e: int|
        0 <= e < steps ==> !is_idle(cells, #[trigger] reached(hand, e, n), protected)
}

/// The slots when the hand has passed over `steps` of them without dropping an entry.
pub open spec fn passed<K, V>(
    cells: Seq<Option<ClockCell<K, V>>>,
    hand: int,
    protected: Set<K>,
    steps: int,
) -> Seq<Option<ClockCell<K, V>>> {
    Seq::new(
        cells.len(),
        |i: int|
            if steps_to(hand, i, cells.len() as int) < steps && droppable(cells, i, protected) {
                Some(ClockCell { referenced: false, ..cells[i]->0 })
            } else {
                cells[i]
            },
    )
}

/// Which slot the hand empties, and what the slots hold when it is there. It goes round
/// twice at most: an entry that was used loses its mark the first time.
pub open spec fn swept<K, V>(
    cells: Seq<Option<ClockCell<K, V>>>,
    hand: int,
    protected: Set<K>,
) -> Option<(int, Seq<Option<ClockCell<K, V>>>)> {
    let n = cells.len() as int;
    let unmarked = passed(cells, hand, protected, n);
    if exists|steps: int| first_idle(cells, hand, protected, steps) {
        let steps = choose|steps: int| first_idle(cells, hand, protected, steps);
        Some((reached(hand, steps, n), passed(cells, hand, protected, steps)))
    } else if exists|steps: int| first_idle(unmarked, hand, protected, steps) {
        let steps = choose|steps: int| first_idle(unmarked, hand, protected, steps);
        Some((reached(hand, steps, n), unmarked))
    } else {
        None
    }
}

proof fn lemma_steps(hand: int, i: int, n: int)
    requires
        0 <= hand < n,
        0 <= i < n,
    ensures
        0 <= steps_to(hand, i, n) < n,
        reached(hand, steps_to(hand, i, n), n) == i,
{
    if i >= hand {
        vstd::arithmetic::div_mod::lemma_small_mod(i as nat, n as nat);
    } else {
        vstd::arithmetic::div_mod::lemma_mod_add_multiples_vanish(i, n);
        vstd::arithmetic::div_mod::lemma_small_mod(i as nat, n as nat);
    }
}

proof fn lemma_reached(hand: int, steps: int, n: int)
    requires
        0 <= hand < n,
        0 <= steps < n,
    ensures
        0 <= reached(hand, steps, n) < n,
        steps_to(hand, reached(hand, steps, n), n) == steps,
{
    if hand + steps < n {
        vstd::arithmetic::div_mod::lemma_small_mod((hand + steps) as nat, n as nat);
    } else {
        vstd::arithmetic::div_mod::lemma_mod_add_multiples_vanish(hand + steps - n, n);
        vstd::arithmetic::div_mod::lemma_small_mod((hand + steps - n) as nat, n as nat);
    }
}

proof fn lemma_one_first<K, V>(
    cells: Seq<Option<ClockCell<K, V>>>,
    hand: int,
    protected: Set<K>,
    a: int,
    b: int,
)
    requires
        first_idle(cells, hand, protected, a),
        first_idle(cells, hand, protected, b),
    ensures
        a == b,
{
    let n = cells.len() as int;
    if a < b {
        assert(!is_idle(cells, reached(hand, a, n), protected));
    } else if b < a {
        assert(!is_idle(cells, reached(hand, b, n), protected));
    }
}

/// A sweep never empties the slot of a protected key, and empties one whenever it can:
/// when an entry is not protected.
pub proof fn lemma_swept<K, V>(
    cells: Seq<Option<ClockCell<K, V>>>,
    hand: int,
    protected: Set<K>,
)
    requires
        cells.len() > 0 ==> 0 <= hand < cells.len(),
    ensures
        match swept(cells, hand, protected) {
            Some((victim, after)) => {
                &&& 0 <= victim < cells.len()
                &&& droppable(cells, victim, protected)
                &&& after.len() == cells.len()
                &&& after[victim] is Some
                &&& after[victim]->0.key == cells[victim]->0.key
                &&& after[victim]->0.value == cells[victim]->0.value
            },
            None => forall|i: int| 0 <= i < cells.len() ==> !#[trigger] droppable(
                cells,
                i,
                protected,
            ),
        },
{
    let n = cells.len() as int;
    let unmarked = passed(cells, hand, protected, n);
    if exists|steps: int| first_idle(cells, hand, protected, steps) {
        let steps = choose|steps: int| first_idle(cells, hand, protected, steps);
        lemma_reached(hand, steps, n);
    } else if exists|steps: int| first_idle(unmarked, hand, protected, steps) {
        let steps = choose|steps: int| first_idle(unmarked, hand, protected, steps);
        lemma_reached(hand, steps, n);
    } else {
        assert forall|i: int| 0 <= i < cells.len() implies !#[trigger] droppable(
            cells,
            i,
            protected,
        ) by {
            if droppable(cells, i, protected) {
                lemma_steps(hand, i, n);
                assert(is_idle(unmarked, i, protected));
                lemma_some_first(unmarked, hand, protected, steps_to(hand, i, n));
            }
        }
    }
}

/// A sweep takes the mark of an entry at most.
pub proof fn lemma_swept_keeps<K, V>(
    cells: Seq<Option<ClockCell<K, V>>>,
    hand: int,
    protected: Set<K>,
    i: int,
)
    requires
        swept(cells, hand, protected) is Some,
        0 <= i < cells.len(),
        cells[i] is Some,
    ensures
        ({
            let after = (swept(cells, hand, protected)->0).1;
            &&& after.len() == cells.len()
            &&& after[i] is Some
            &&& after[i]->0.key == cells[i]->0.key
            &&& after[i]->0.value == cells[i]->0.value
        }),
{
}

/// A second chance: an entry that was used since the hand last came by is dropped only if
/// all entries that may be dropped were; entries that may not be dropped keep their marks;
/// and no entry gets a mark.
pub proof fn lemma_second_chance<K, V>(
    cells: Seq<Option<ClockCell<K, V>>>,
    hand: int,
    protected: Set<K>,
)
    requires
        0 <= hand < cells.len(),
        swept(cells, hand, protected) is Some,
    ensures
        ({
            let victim = (swept(cells, hand, protected)->0).0;
            let after = (swept(cells, hand, protected)->0).1;
            &&& cells[victim]->0.referenced ==> forall|i: int|
                0 <= i < cells.len() && (#[trigger] cells[i] matches Some(entry)
                    && !protected.contains(entry.key)) ==> cells[i]->0.referenced
            &&& !cells[victim]->0.referenced ==> forall|i: int|
                0 <= i < cells.len() && (if i >= hand {
                    i - hand
                } else {
                    i - hand + cells.len()
                }) < (if victim >= hand {
                    victim - hand
                } else {
                    victim - hand + cells.len()
                }) && (#[trigger] cells[i] matches Some(entry) && !protected.contains(entry.key))
                    ==> cells[i]->0.referenced && !after[i]->0.referenced
            &&& forall|i: int|
                0 <= i < cells.len() && (#[trigger] cells[i] matches Some(entry)
                    && protected.contains(entry.key)) ==> after[i] == cells[i]
            &&& forall|i: int|
                0 <= i < cells.len() && #[trigger] cells[i] is Some && after[i]->0.referenced
                    ==> cells[i]->0.referenced
        }),
{
    let n = cells.len() as int;
    let unmarked = passed(cells, hand, protected, n);
    lemma_swept(cells, hand, protected);
    if exists|steps: int| first_idle(cells, hand, protected, steps) {
        let steps = choose|steps: int| first_idle(cells, hand, protected, steps);
        lemma_reached(hand, steps, n);
        assert forall|i: int|
            0 <= i < cells.len() && steps_to(hand, i, n) < steps && (#[trigger] cells[i] matches Some(
                entry,
            ) && !protected.contains(entry.key)) implies cells[i]->0.referenced by {
            lemma_steps(hand, i, n);
            assert(!is_idle(cells, reached(hand, steps_to(hand, i, n), n), protected));
        }
    } else {
        assert forall|i: int|
            0 <= i < cells.len() && (#[trigger] cells[i] matches Some(entry)
                && !protected.contains(entry.key)) implies cells[i]->0.referenced by {
            lemma_steps(hand, i, n);
            if !cells[i]->0.referenced {
                assert(is_idle(cells, reached(hand, steps_to(hand, i, n), n), protected));
                lemma_some_first(cells, hand, protected, steps_to(hand, i, n));
            }
        }
    }
}

/// Where one entry is idle, one is the first.
proof fn lemma_some_first<K, V>(
    cells: Seq<Option<ClockCell<K, V>>>,
    hand: int,
    protected: Set<K>,
    steps: int,
)
    requires
        0 <= steps < cells.len(),
        is_idle(cells, reached(hand, steps, cells.len() as int), protected),
    ensures
        exists|first: int| first_idle(cells, hand, protected, first),
    decreases steps,
{
    let n = cells.len() as int;
    if forall|e: int|
        0 <= e < steps ==> !is_idle(cells, #[trigger] reached(hand, e, n), protected) {
        assert(first_idle(cells, hand, protected, steps));
    } else {
        let e = choose|e: int|
            0 <= e < steps && is_idle(cells, #[trigger] reached(hand, e, n), protected);
        lemma_some_first(cells, hand, protected, e);
    }
}

/// Number of entries.
pub open spec fn occupied<K, V>(cells: Seq<Option<ClockCell<K, V>>>) -> nat
    decreases cells.len(),
{
    if cells.len() == 0 {
        0
    } else {
        occupied(cells.drop_last()) + if cells.last() is Some {
            1nat
        } else {
            0nat
        }
    }
}

/// The keys, in the order of their slots.
pub open spec fn cell_keys<K, V>(cells: Seq<Option<ClockCell<K, V>>>) -> Seq<K>
    decreases cells.len(),
{
    if cells.len() == 0 {
        Seq::empty()
    } else {
        match cells.last() {
            Some(last) => cell_keys(cells.drop_last()).push(last.key),
            None => cell_keys(cells.drop_last()),
        }
    }
}

proof fn lemma_count_free<K, V>(cells: Seq<Option<ClockCell<K, V>>>)
    ensures
        Set::new(|i: int| 0 <= i < cells.len() && cells[i] is None).finite(),
        Set::new(|i: int| 0 <= i < cells.len() && cells[i] is None).len() + occupied(cells)
            == cells.len(),
    decreases cells.len(),
{
    let all = Set::new(|i: int| 0 <= i < cells.len() && cells[i] is None);
    if cells.len() == 0 {
        assert(all =~= Set::empty());
    } else {
        let front = cells.drop_last();
        let last = cells.len() - 1;
        let fewer = Set::new(|i: int| 0 <= i < front.len() && front[i] is None);
        lemma_count_free(front);
        if cells[last] is None {
            assert(all =~= fewer.insert(last));
        } else {
            assert(all =~= fewer);
        }
    }
}

/// A cache of a number of entries.
pub struct ClockSweep<K, V> {
    capacity: usize,
    slots: Vec<ClockSlot<K, V>>,
    map: HashMap<K, usize>,
    hand: usize,
    free_list: Vec<usize>,
}

impl<K: Clone + Eq + Hash, V> ClockSweep<K, V> {
    /// What the slots hold.
    pub closed spec fn cells(&self) -> Seq<Option<ClockCell<K, V>>> {
        cells_of(self.slots@)
    }

    /// The slot that the hand is at.
    pub closed spec fn hand_at(&self) -> int {
        self.hand as int
    }

    /// The free slots; the last one is used next.
    pub closed spec fn free_slots(&self) -> Seq<usize> {
        self.free_list@
    }

    /// Number of entries that the cache is for.
    pub closed spec fn limit(&self) -> nat {
        self.capacity as nat
    }

    /// The map says in which slot a key is.
    spec fn map_ok(&self) -> bool {
        &&& forall|i: int|
            0 <= i < self.cells().len() && (#[trigger] self.cells()[i]) is Some
                ==> self.map@.contains_key(self.cells()[i]->0.key)
                && self.map@[self.cells()[i]->0.key] == i
        &&& forall|key: K| #[trigger]
            self.map@.contains_key(key) ==> cell_has(self.cells(), self.map@[key] as int, key)
    }

    /// The list of free slots lists each once.
    spec fn free_ok(&self) -> bool {
        &&& forall|i: int|
            0 <= i < self.free_list@.len() ==> (#[trigger] self.free_list@[i]) < self.cells().len()
                && self.cells()[self.free_list@[i] as int] is None
        &&& forall|i: int, j: int|
            #![trigger self.free_list@[i], self.free_list@[j]]
            0 <= i < j < self.free_list@.len() ==> self.free_list@[i] != self.free_list@[j]
        &&& forall|i: int|
            0 <= i < self.cells().len() && (#[trigger] self.cells()[i]) is None
                ==> self.free_list@.contains(i as usize)
    }

    /// The slots, the map and the free slots agree.
    pub closed spec fn wf(&self) -> bool {
        &&& are_keys::<K>()
        &&& self.slots@.len() == self.capacity
        &&& self.capacity > 0 ==> self.hand < self.capacity
        &&& self.map_ok()
        &&& self.free_ok()
    }

    /// What holds of every cache.
    pub proof fn lemma_wf(&self)
        requires
            self.wf(),
        ensures
            self.cells().len() == self.limit(),
            self.limit() > 0 ==> 0 <= self.hand_at() < self.limit(),
            forall|i: int, j: int|
                #![trigger self.cells()[i], self.cells()[j]]
                0 <= i < j < self.cells().len() && self.cells()[i] is Some && self.cells()[j] is Some
                    ==> self.cells()[i]->0.key != self.cells()[j]->0.key,
            self.free_slots().len() == 0 <==> forall|i: int|
                0 <= i < self.cells().len() ==> (#[trigger] self.cells()[i]) is Some,
            self.free_slots().len() + occupied(self.cells()) == self.limit(),
    {
        let cells = self.cells();
        assert forall|i: int, j: int|
            #![trigger self.cells()[i], self.cells()[j]]
            0 <= i < j < cells.len() && cells[i] is Some && cells[j] is Some implies cells[i]->0.key
            != cells[j]->0.key by {
            assert(self.map@[cells[i]->0.key] == i);
            assert(self.map@[cells[j]->0.key] == j);
        }
        if self.free_list@.len() > 0 {
            assert(cells[self.free_list@[0] as int] is None);
        }
        let free = Seq::new(self.free_list@.len(), |i: int| self.free_list@[i] as int);
        let none = Set::new(|i: int| 0 <= i < cells.len() && cells[i] is None);
        lemma_count_free(cells);
        assert forall|i: int, j: int| 0 <= i < free.len() && 0 <= j < free.len() && i
            != j implies free[i] != free[j] by {
            if i < j {
                assert(self.free_list@[i] != self.free_list@[j]);
            } else {
                assert(self.free_list@[j] != self.free_list@[i]);
            }
        }
        free.unique_seq_to_set();
        assert(self.slots.len() == self.slots@.len());
        assert forall|i: int| free.to_set().contains(i) <==> none.contains(i) by {
            if none.contains(i) {
                assert(self.free_list@.contains(i as usize));
                let j = choose|j: int|
                    0 <= j < self.free_list@.len() && self.free_list@[j] == i as usize;
                assert(free[j] == i);
            }
            if free.contains(i) {
                let j = choose|j: int| 0 <= j < free.len() && free[j] == i;
                assert(cells[self.free_list@[j] as int] is None);
            }
        }
        assert(free.to_set() =~= none);
    }

    /// The free slots hold nothing.
    pub proof fn lemma_free(&self)
        requires
            self.wf(),
        ensures
            forall|i: int|
                0 <= i < self.free_slots().len() ==> (#[trigger] self.free_slots()[i])
                    < self.cells().len() && self.cells()[self.free_slots()[i] as int] is None,
    {
    }

    /// An empty cache for a number of entries.
    pub fn new(capacity: usize) -> (cache: Self)
        requires
            are_keys::<K>(),
        ensures
            cache.wf(),
            cache.limit() == capacity,
            cache.hand_at() == 0,
            cache.cells() == Seq::new(capacity as nat, |i: int| None::<ClockCell<K, V>>),
            cache.free_slots() == Seq::new(
                capacity as nat,
                |i: int| (capacity - 1 - i) as usize,
            ),
    {
        broadcast use vstd::std_specs::hash::group_hash_axioms;

        let mut slots: Vec<ClockSlot<K, V>> = Vec::new();
        let mut free_list: Vec<usize> = Vec::new();
        let mut left: usize = capacity;
        while left > 0
            invariant
                left <= capacity,
                slots@.len() == capacity - left,
                free_list@.len() == capacity - left,
                forall|i: int| 0 <= i < slots@.len() ==> (#[trigger] slots@[i]) is Free,
                forall|i: int|
                    0 <= i < free_list@.len() ==> #[trigger] free_list@[i] == capacity - 1 - i,
            decreases left,
        {
            left = left - 1;
            slots.push(ClockSlot::Free);
            free_list.push(left);
        }
        let cache = ClockSweep { capacity, slots, map: HashMap::new(), hand: 0, free_list };
        proof {
            assert(cache.cells() =~= Seq::new(
                capacity as nat,
                |i: int| None::<ClockCell<K, V>>,
            ));
            assert(cache.free_slots() =~= Seq::new(
                capacity as nat,
                |i: int| (capacity - 1 - i) as usize,
            ));
            assert forall|i: int| 0 <= i < cache.cells().len() && (
            #[trigger] cache.cells()[i]) is None implies cache.free_list@.contains(
                i as usize,
            ) by {
                assert(cache.free_list@[capacity - 1 - i] == i);
            }
        }
        cache
    }

    /// Number of entries that the cache is for.
    pub fn capacity(&self) -> (capacity: usize)
        ensures
            capacity == self.limit(),
    {
        self.capacity
    }

    /// Number of entries.
    pub fn len(&self) -> (n: usize)
        requires
            self.wf(),
        ensures
            n == occupied(self.cells()),
    {
        proof {
            self.lemma_wf();
        }
        self.capacity - self.free_list.len()
    }

    /// Whether the cache is empty.
    pub fn is_empty(&self) -> (empty: bool)
        requires
            self.wf(),
        ensures
            empty == (occupied(self.cells()) == 0),
    {
        self.len() == 0
    }

    /// In which slot a key is.
    fn find(&self, key: &K) -> (found: Option<usize>)
        requires
            self.wf(),
        ensures
            match found {
                Some(idx) => {
                    &&& cells_hold(self.cells(), *key)
                    &&& cell_spot(self.cells(), *key) == idx
                    &&& cell_has(self.cells(), idx as int, *key)
                    &&& self.map@.contains_key(*key)
                    &&& self.map@[*key] == idx
                },
                None => !cells_hold(self.cells(), *key) && !self.map@.contains_key(*key),
            },
    {
        broadcast use vstd::std_specs::hash::group_hash_axioms;

        match self.map.get(key) {
            Some(idx) => {
                proof {
                    assert(cell_has(self.cells(), *idx as int, *key));
                    let p = cell_spot(self.cells(), *key);
                    assert(cell_has(self.cells(), p, *key));
                    assert(self.cells()[p] is Some);
                    assert(self.map@[*key] == p);
                }
                Some(*idx)
            },
            None => {
                proof {
                    if cells_hold(self.cells(), *key) {
                        let p = cell_spot(self.cells(), *key);
                        assert(cell_has(self.cells(), p, *key));
                        assert(self.cells()[p] is Some);
                    }
                }
                None
            },
        }
    }

    /// Looks up a key and marks it as used.
    pub fn get(&mut self, key: &K) -> (value: Option<&V>)
        requires
            old(self).wf(),
        ensures
            final(self).wf(),
            final(self).limit() == old(self).limit(),
            final(self).hand_at() == old(self).hand_at(),
            final(self).free_slots() == old(self).free_slots(),
            match value {
                Some(v) => {
                    let cells = old(self).cells();
                    let at = cell_spot(cells, *key);
                    &&& cells_hold(cells, *key)
                    &&& *v == cells[at]->0.value
                    &&& final(self).cells() == cells.update(
                        at,
                        Some(ClockCell { referenced: true, ..cells[at]->0 }),
                    )
                },
                None => !cells_hold(old(self).cells(), *key) && final(self).cells() == old(self).cells(),
            },
    {
        match self.find(key) {
            Some(idx) => {
                let ghost cells = self.cells();
                self.set_referenced(idx, true);
                match &self.slots[idx] {
                    ClockSlot::Occupied(entry) => Some(&entry.value),
                    ClockSlot::Free => None,
                }
            },
            None => None,
        }
    }

    /// Marks the entry in a slot as used or not used.
    fn set_referenced(&mut self, idx: usize, referenced: bool)
        requires
            old(self).wf(),
            idx < old(self).cells().len(),
            old(self).cells()[idx as int] is Some,
        ensures
            final(self).wf(),
            final(self).limit() == old(self).limit(),
            final(self).hand_at() == old(self).hand_at(),
            final(self).free_slots() == old(self).free_slots(),
            final(self).map@ == old(self).map@,
            final(self).slots@.len() == old(self).slots@.len(),
            final(self).cells() == old(self).cells().update(
                idx as int,
                Some(ClockCell { referenced, ..old(self).cells()[idx as int]->0 }),
            ),
    {
        let ghost cells = self.cells();
        match &mut self.slots[idx] {
            ClockSlot::Occupied(entry) => {
                entry.referenced = referenced;
            },
            ClockSlot::Free => {},
        }
        proof {
            let marked = cells.update(
                idx as int,
                Some(ClockCell { referenced, ..cells[idx as int]->0 }),
            );
            assert(self.cells() =~= marked);
            assert forall|i: int| 0 <= i < self.cells().len() && (
            #[trigger] self.cells()[i]) is Some implies self.map@.contains_key(
                self.cells()[i]->0.key,
            ) && self.map@[self.cells()[i]->0.key] == i by {
                assert(cells[i] is Some);
            }
            assert forall|key: K| #[trigger] self.map@.contains_key(key) implies cell_has(
                self.cells(),
                self.map@[key] as int,
                key,
            ) by {
                assert(cell_has(cells, self.map@[key] as int, key));
            }
            assert forall|i: int| 0 <= i < self.cells().len() && (
            #[trigger] self.cells()[i]) is None implies self.free_list@.contains(
                i as usize,
            ) by {
                assert(cells[i] is None);
            }
            assert forall|i: int| 0 <= i < self.free_list@.len() implies (
            #[trigger] self.free_list@[i]) < self.cells().len()
                && self.cells()[self.free_list@[i] as int] is None by {
                assert(cells[self.free_list@[i] as int] is None);
            }
        }
    }

    /// Whether a key is there.
    pub fn contains(&self, key: &K) -> (result: bool)
        requires
            self.wf(),
        ensures
            result == cells_hold(self.cells(), *key),
    {
        self.find(key).is_some()
    }

    /// The keys, in the order of their slots.
    pub fn keys(&self) -> (keys: Vec<K>)
        requires
            self.wf(),
        ensures
            keys@ == cell_keys(self.cells()),
    {
        let mut keys: Vec<K> = Vec::new();
        let mut i: usize = 0;
        while i < self.slots.len()
            invariant
                i <= self.slots@.len(),
                are_keys::<K>(),
                keys@ == cell_keys(self.cells().take(i as int)),
            decreases self.slots@.len() - i,
        {
            proof {
                assert(self.cells().take(i + 1).drop_last() =~= self.cells().take(i as int));
                assert(self.cells().take(i + 1).last() == cell(self.slots@[i as int]));
            }
            match &self.slots[i] {
                ClockSlot::Occupied(entry) => {
                    let key: K = clone_key(&entry.key);
                    keys.push(key);
                },
                ClockSlot::Free => {},
            }
            i = i + 1;
        }
        assert(self.cells().take(i as int) =~= self.cells());
        keys
    }

    /// Takes the hand round once, up to the first entry without a mark that may be
    /// dropped; entries that it passes lose their marks.
    fn sweep_round(&mut self, protected: &HashSet<K>) -> (victim: Option<usize>)
        requires
            old(self).wf(),
            old(self).limit() > 0,
        ensures
            final(self).wf(),
            final(self).limit() == old(self).limit(),
            final(self).free_slots() == old(self).free_slots(),
            final(self).map@ == old(self).map@,
            match victim {
                Some(v) => exists|steps: int|
                    {
                        let n = old(self).cells().len() as int;
                        &&& #[trigger] first_idle(
                            old(self).cells(),
                            old(self).hand_at(),
                            protected@,
                            steps,
                        )
                        &&& v == reached(old(self).hand_at(), steps, n)
                        &&& final(self).cells() == passed(
                            old(self).cells(),
                            old(self).hand_at(),
                            protected@,
                            steps,
                        )
                        &&& final(self).hand_at() == (v + 1) % n
                    },
                None => {
                    &&& forall|steps: int|
                        !#[trigger] first_idle(
                            old(self).cells(),
                            old(self).hand_at(),
                            protected@,
                            steps,
                        )
                    &&& final(self).cells() == passed(
                        old(self).cells(),
                        old(self).hand_at(),
                        protected@,
                        old(self).cells().len() as int,
                    )
                    &&& final(self).hand_at() == old(self).hand_at()
                },
            },
    {
        broadcast use vstd::std_specs::hash::group_hash_axioms;

        let n: usize = self.capacity;
        let ghost cells = self.cells();
        let ghost start = self.hand as int;
        let ghost map = self.map@;
        let ghost free = self.free_list@;
        let mut step: usize = 0;
        proof {
            assert(reached(start, 0, n as int) == start) by {
                lemma_reached(start, 0, n as int);
            }
            assert(passed(cells, start, protected@, 0) =~= cells);
        }
        while step < n
            invariant
                0 < n,
                step <= n,
                n == cells.len(),
                n == self.capacity,
                0 <= start < n,
                self.wf(),
                self.map@ == map,
                self.free_list@ == free,
                self.cells() == passed(cells, start, protected@, step as int),
                self.hand == (if step == n {
                    start
                } else {
                    reached(start, step as int, n as int)
                }),
                forall|e: int|
                    0 <= e < step ==> !is_idle(
                        cells,
                        #[trigger] reached(start, e, n as int),
                        protected@,
                    ),
                are_keys::<K>(),
                n == old(self).capacity,
                old(self).cells() == cells,
                old(self).hand_at() == start,
                old(self).map@ == map,
                old(self).free_list@ == free,
            decreases n - step,
        {
            let idx: usize = self.hand;
            proof {
                lemma_reached(start, step as int, n as int);
                lemma_next_reached(start, step as int, n as int);
                assert(self.cells()[idx as int] == cells[idx as int]);
            }
            self.hand = if idx + 1 == n {
                0
            } else {
                idx + 1
            };
            let ghost now = self.cells();
            let (keeps, marked): (bool, bool) = match &self.slots[idx] {
                ClockSlot::Occupied(entry) => (protected.contains(&entry.key), entry.referenced),
                ClockSlot::Free => (true, false),
            };
            proof {
                assert(now == passed(cells, start, protected@, step as int));
                assert(now[idx as int] == cell(self.slots@[idx as int]));
                assert(keeps == !droppable(cells, idx as int, protected@));
            }
            if !keeps {
                if marked {
                    self.set_referenced(idx, false);
                } else {
                    proof {
                        assert(is_idle(cells, idx as int, protected@));
                        assert(first_idle(cells, start, protected@, step as int));
                        assert(self.hand as int == (idx + 1) % (n as int)) by {
                            if idx + 1 == n {
                                vstd::arithmetic::div_mod::lemma_mod_self_0(n as int);
                            } else {
                                vstd::arithmetic::div_mod::lemma_small_mod(
                                    (idx + 1) as nat,
                                    n as nat,
                                );
                            }
                        }
                    }
                    return Some(idx);
                }
            }
            proof {
                let after = passed(cells, start, protected@, step + 1);
                assert forall|i: int| 0 <= i < n implies self.cells()[i] == after[i] by {
                    lemma_steps(start, i, n as int);
                    if i != idx {
                        assert(steps_to(start, i, n as int) != step);
                    }
                }
                assert(self.cells() =~= after);
            }
            step = step + 1;
        }
        proof {
            assert forall|steps: int| !#[trigger] first_idle(
                cells,
                start,
                protected@,
                steps,
            ) by {
                if first_idle(cells, start, protected@, steps) {
                    assert(!is_idle(cells, reached(start, steps, n as int), protected@));
                }
            }
        }
        None
    }

    /// Empties a slot.
    fn take_out(&mut self, idx: usize, key: &K) -> (entry: Option<(K, V)>)
        requires
            old(self).wf(),
            cell_has(old(self).cells(), idx as int, *key),
        ensures
            final(self).wf(),
            final(self).limit() == old(self).limit(),
            final(self).hand_at() == old(self).hand_at(),
            final(self).free_slots() == old(self).free_slots().push(idx),
            final(self).cells() == old(self).cells().update(idx as int, None),
            entry == Some((*key, old(self).cells()[idx as int]->0.value)),
            !final(self).map@.contains_key(*key),
    {
        broadcast use vstd::std_specs::hash::group_hash_axioms;

        let ghost cells = self.cells();
        let ghost map = self.map@;
        let ghost free = self.free_list@;
        assert(cells[idx as int] is Some);
        self.map.remove(key);
        let mut slot: ClockSlot<K, V> = ClockSlot::Free;
        std::mem::swap(&mut slot, &mut self.slots[idx]);
        self.free_list.push(idx);
        proof {
            assert(self.cells() =~= cells.update(idx as int, None));
            assert forall|i: int| 0 <= i < self.cells().len() && (
            #[trigger] self.cells()[i]) is Some implies self.map@.contains_key(
                self.cells()[i]->0.key,
            ) && self.map@[self.cells()[i]->0.key] == i by {
                assert(cells[i] is Some);
                assert(map[cells[i]->0.key] == i);
            }
            assert forall|k: K| #[trigger] self.map@.contains_key(k) implies cell_has(
                self.cells(),
                self.map@[k] as int,
                k,
            ) by {
                assert(map.contains_key(k));
                assert(cell_has(cells, map[k] as int, k));
            }
            assert forall|i: int| 0 <= i < self.free_list@.len() implies (
            #[trigger] self.free_list@[i]) < self.cells().len()
                && self.cells()[self.free_list@[i] as int] is None by {
                if i < free.len() {
                    assert(self.free_list@[i] == free[i]);
                    assert(cells[free[i] as int] is None);
                }
            }
            assert forall|i: int, j: int|
                #![trigger self.free_list@[i], self.free_list@[j]]
                0 <= i < j < self.free_list@.len() implies self.free_list@[i]
                != self.free_list@[j] by {
                assert(self.free_list@[i] == free[i]);
                if j < free.len() {
                    assert(self.free_list@[j] == free[j]);
                } else {
                    assert(cells[free[i] as int] is None);
                }
            }
            assert forall|i: int| 0 <= i < self.cells().len() && (
            #[trigger] self.cells()[i]) is None implies self.free_list@.contains(
                i as usize,
            ) by {
                if i == idx {
                    assert(self.free_list@[free.len() as int] == idx);
                } else {
                    assert(cells[i] is None);
                    let j = choose|j: int| 0 <= j < free.len() && free[j] == i as usize;
                    assert(self.free_list@[j] == i as usize);
                }
            }
        }
        match slot {
            ClockSlot::Occupied(entry) => Some((entry.key, entry.value)),
            ClockSlot::Free => None,
        }
    }

    /// Puts a new entry in the next free slot.
    fn put_new(&mut self, key: K, value: V)
        requires
            old(self).wf(),
            !cells_hold(old(self).cells(), key),
            old(self).free_slots().len() > 0,
        ensures
            final(self).wf(),
            final(self).limit() == old(self).limit(),
            final(self).hand_at() == old(self).hand_at(),
            final(self).free_slots() == old(self).free_slots().drop_last(),
            final(self).cells() == old(self).cells().update(
                old(self).free_slots().last() as int,
                Some(ClockCell { key, value, referenced: true }),
            ),
    {
        broadcast use vstd::std_specs::hash::group_hash_axioms;

        let ghost cells = self.cells();
        let ghost map = self.map@;
        let ghost free = self.free_list@;
        let idx: usize = self.free_list.pop().unwrap();
        proof {
            assert(idx == free[free.len() - 1]);
            assert(cells[idx as int] is None);
        }
        let mapped: K = clone_key(&key);
        self.slots.set(idx, ClockSlot::Occupied(ClockEntry { key, value, referenced: true }));
        self.map.insert(mapped, idx);
        proof {
            let added = ClockCell { key, value, referenced: true };
            assert(self.cells() =~= cells.update(idx as int, Some(added)));
            assert forall|i: int| 0 <= i < self.cells().len() && (
            #[trigger] self.cells()[i]) is Some implies self.map@.contains_key(
                self.cells()[i]->0.key,
            ) && self.map@[self.cells()[i]->0.key] == i by {
                if i != idx {
                    assert(cells[i] is Some);
                    assert(cell_has(cells, i, cells[i]->0.key));
                }
            }
            assert forall|k: K| #[trigger] self.map@.contains_key(k) implies cell_has(
                self.cells(),
                self.map@[k] as int,
                k,
            ) by {
                if k != key {
                    assert(map.contains_key(k));
                    assert(cell_has(cells, map[k] as int, k));
                }
            }
            assert forall|i: int| 0 <= i < self.free_list@.len() implies (
            #[trigger] self.free_list@[i]) < self.cells().len()
                && self.cells()[self.free_list@[i] as int] is None by {
                assert(self.free_list@[i] == free[i]);
                assert(cells[free[i] as int] is None);
                assert(free[i] != free[free.len() - 1]);
            }
            assert forall|i: int, j: int|
                #![trigger self.free_list@[i], self.free_list@[j]]
                0 <= i < j < self.free_list@.len() implies self.free_list@[i]
                != self.free_list@[j] by {
                assert(self.free_list@[i] == free[i] && self.free_list@[j] == free[j]);
            }
            assert forall|i: int| 0 <= i < self.cells().len() && (
            #[trigger] self.cells()[i]) is None implies self.free_list@.contains(
                i as usize,
            ) by {
                assert(i != idx);
                assert(cells[i] is None);
                let j = choose|j: int| 0 <= j < free.len() && free[j] == i as usize;
                assert(j != free.len() - 1);
                assert(self.free_list@[j] == i as usize);
            }
        }
    }

    /// Inserts or updates an entry and marks it as used. A full cache drops an entry for
    /// a new one, by a sweep of the hand.
    pub fn put(&mut self, key: K, value: V) -> (evicted: Option<(K, V)>)
        requires
            old(self).wf(),
        ensures
            final(self).wf(),
            final(self).limit() == old(self).limit(),
            put_result(
                old(self).cells(),
                old(self).hand_at(),
                old(self).free_slots(),
                key,
                value,
                Set::empty(),
                final(self).cells(),
                final(self).hand_at(),
                final(self).free_slots(),
                evicted,
            ),
    {
        let none: HashSet<K> = HashSet::new();
        self.put_with_constraint(key, value, &none)
    }

    /// Inserts or updates an entry and marks it as used. A full cache drops an entry for
    /// a new one, by a sweep of the hand, but never one whose key is protected: if all
    /// are, the new entry is not inserted.
    pub fn put_with_constraint(
        &mut self,
        key: K,
        value: V,
        protected_keys: &HashSet<K>,
    ) -> (evicted: Option<(K, V)>)
        requires
            old(self).wf(),
        ensures
            final(self).wf(),
            final(self).limit() == old(self).limit(),
            put_result(
                old(self).cells(),
                old(self).hand_at(),
                old(self).free_slots(),
                key,
                value,
                protected_keys@,
                final(self).cells(),
                final(self).hand_at(),
                final(self).free_slots(),
                evicted,
            ),
    {
        let ghost cells = self.cells();
        let ghost hand = self.hand_at();
        let ghost protected = protected_keys@;
        let ghost n = cells.len() as int;
        proof {
            self.lemma_wf();
        }
        if let Some(idx) = self.find(&key) {
            let ghost free = self.free_list@;
            let _ = self.take_out(idx, &key);
            proof {
                assert(!self.map@.contains_key(key));
                self.lemma_not_held(key);
            }
            self.put_new(key, value);
            proof {
                assert(self.free_slots() =~= free);
                assert(self.cells() =~= cells.update(
                    idx as int,
                    Some(ClockCell { key, value, referenced: true }),
                ));
            }
            return None;
        }
        if self.free_list.len() > 0 {
            self.put_new(key, value);
            return None;
        }
        if self.capacity == 0 {
            proof {
                lemma_swept(cells, hand, protected);
            }
            return None;
        }
        let mut victim: Option<usize> = self.sweep_round(protected_keys);
        let ghost unmarked = passed(cells, hand, protected, n);
        proof {
            if victim is Some {
                let steps = choose|steps: int|
                    {
                        &&& #[trigger] first_idle(cells, hand, protected, steps)
                        &&& victim->0 == reached(hand, steps, n)
                        &&& self.cells() == passed(cells, hand, protected, steps)
                        &&& self.hand_at() == (victim->0 + 1) % n
                    };
                let chosen = choose|s: int| first_idle(cells, hand, protected, s);
                lemma_one_first(cells, hand, protected, steps, chosen);
                assert(swept(cells, hand, protected) == Some(
                    (victim->0 as int, self.cells()),
                ));
            }
        }
        if victim.is_none() {
            victim = self.sweep_round(protected_keys);
            proof {
                if victim is Some {
                    let steps = choose|steps: int|
                        {
                            &&& #[trigger] first_idle(unmarked, hand, protected, steps)
                            &&& victim->0 == reached(hand, steps, n)
                            &&& self.cells() == passed(unmarked, hand, protected, steps)
                            &&& self.hand_at() == (victim->0 + 1) % n
                        };
                    let chosen = choose|s: int| first_idle(unmarked, hand, protected, s);
                    lemma_one_first(unmarked, hand, protected, steps, chosen);
                    lemma_pass_again(cells, hand, protected, steps);
                    assert(swept(cells, hand, protected) == Some(
                        (victim->0 as int, unmarked),
                    ));
                } else {
                    lemma_pass_again(cells, hand, protected, n);
                    assert(swept(cells, hand, protected) is None);
                    lemma_swept(cells, hand, protected);
                    assert(unmarked =~= cells) by {
                        assert forall|i: int| 0 <= i < cells.len() implies unmarked[i]
                            == cells[i] by {
                            assert(!droppable(cells, i, protected));
                        }
                    }
                }
            }
        }
        match victim {
            Some(idx) => {
                proof {
                    lemma_swept(cells, hand, protected);
                    assert(self.cells()[idx as int] is Some);
                }
                let ghost after = self.cells();
                let victim_key: K = match &self.slots[idx] {
                    ClockSlot::Occupied(entry) => clone_key(&entry.key),
                    ClockSlot::Free => clone_key(&key),
                };
                let evicted = self.take_out(idx, &victim_key);
                proof {
                    if cells_hold(self.cells(), key) {
                        let p = cell_spot(self.cells(), key);
                        assert(cell_has(self.cells(), p, key));
                        assert(after[p] == self.cells()[p]);
                        assert(cell_has(cells, p, key));
                    }
                }
                self.put_new(key, value);
                proof {
                    assert(self.cells() =~= after.update(
                        idx as int,
                        Some(ClockCell { key, value, referenced: true }),
                    ));
                    assert(self.free_slots() =~= old(self).free_slots());
                }
                evicted
            },
            None => None,
        }
    }

    /// A key that is not in the map is in no slot.
    proof fn lemma_not_held(&self, key: K)
        requires
            self.wf(),
            !self.map@.contains_key(key),
        ensures
            !cells_hold(self.cells(), key),
    {
        if cells_hold(self.cells(), key) {
            let p = cell_spot(self.cells(), key);
            assert(cell_has(self.cells(), p, key));
            assert(self.cells()[p] is Some);
        }
    }

    /// Takes a key out of the cache.
    pub fn remove(&mut self, key: &K) -> (value: Option<V>)
        requires
            old(self).wf(),
        ensures
            final(self).wf(),
            final(self).limit() == old(self).limit(),
            final(self).hand_at() == old(self).hand_at(),
            ({
                let cells = old(self).cells();
                let at = cell_spot(cells, *key);
                if cells_hold(cells, *key) {
                    &&& value == Some(cells[at]->0.value)
                    &&& final(self).cells() == cells.update(at, None)
                    &&& final(self).free_slots() == old(self).free_slots().push(at as usize)
                } else {
                    &&& value is None
                    &&& final(self).cells() == cells
                    &&& final(self).free_slots() == old(self).free_slots()
                }
            }),
    {
        match self.find(key) {
            Some(idx) => match self.take_out(idx, key) {
                Some((_, value)) => Some(value),
                None => None,
            },
            None => None,
        }
    }
}

/// What an insertion does: `cells`, `hand` and `free` before, `after`, `new_hand` and
/// `new_free` afterwards.
pub open spec fn put_result<K, V>(
    cells: Seq<Option<ClockCell<K, V>>>,
    hand: int,
    free: Seq<usize>,
    key: K,
    value: V,
    protected: Set<K>,
    after: Seq<Option<ClockCell<K, V>>>,
    new_hand: int,
    new_free: Seq<usize>,
    evicted: Option<(K, V)>,
) -> bool {
    let added = Some(ClockCell { key, value, referenced: true });
    if cells_hold(cells, key) {
        &&& evicted is None
        &&& after == cells.update(cell_spot(cells, key), added)
        &&& new_hand == hand
        &&& new_free == free
    } else if free.len() > 0 {
        &&& evicted is None
        &&& after == cells.update(free.last() as int, added)
        &&& new_hand == hand
        &&& new_free == free.drop_last()
    } else {
        match swept(cells, hand, protected) {
            Some((victim, passed_over)) => {
                &&& evicted == Some((cells[victim]->0.key, cells[victim]->0.value))
                &&& after == passed_over.update(victim, added)
                &&& new_hand == (victim + 1) % (cells.len() as int)
                &&& new_free == free
            },
            None => {
                &&& evicted is None
                &&& after == cells
                &&& new_hand == hand
                &&& new_free == free
            },
        }
    }
}

/// An insertion: the entry is there, marked as used, unless a full cache has only protected
/// entries; every other entry stays with its value but the one that is dropped, which was
/// there and not protected, and is dropped only from a full cache.
pub proof fn lemma_put_keeps_others<K: Clone + Eq + Hash, V>(
    before: ClockSweep<K, V>,
    key: K,
    value: V,
    protected: Set<K>,
    after: Seq<Option<ClockCell<K, V>>>,
    new_hand: int,
    new_free: Seq<usize>,
    evicted: Option<(K, V)>,
)
    requires
        before.wf(),
        before.limit() > 0,
        put_result(
            before.cells(),
            before.hand_at(),
            before.free_slots(),
            key,
            value,
            protected,
            after,
            new_hand,
            new_free,
            evicted,
        ),
    ensures
        after.len() == before.limit(),
        (exists|i: int|
            0 <= i < after.len() && #[trigger] after[i] == Some(
                ClockCell { key, value, referenced: true },
            )) || (after == before.cells() && forall|i: int|
            0 <= i < after.len() ==> (#[trigger] after[i] matches Some(entry)
                && protected.contains(entry.key) && entry.key != key)),
        forall|i: int|
            0 <= i < after.len() && (#[trigger] before.cells()[i] matches Some(entry) && entry.key
                != key && (evicted matches Some(dropped) ==> dropped.0 != entry.key))
                ==> after[i] is Some && after[i]->0.key == before.cells()[i]->0.key
                && after[i]->0.value == before.cells()[i]->0.value,
        evicted matches Some(dropped) ==> {
            &&& !protected.contains(dropped.0)
            &&& dropped.0 != key
            &&& exists|i: int|
                0 <= i < after.len() && (#[trigger] before.cells()[i] matches Some(entry)
                    && entry.key == dropped.0 && entry.value == dropped.1)
            &&& forall|i: int| 0 <= i < after.len() ==> #[trigger] before.cells()[i] is Some
        },
{
    before.lemma_wf();
    before.lemma_free();
    let cells = before.cells();
    let added = Some(ClockCell { key, value, referenced: true });
    if cells_hold(cells, key) {
        let p = cell_spot(cells, key);
        assert(cell_has(cells, p, key));
        assert(after[p] == added);
    } else if before.free_slots().len() > 0 {
        let p = before.free_slots().last() as int;
        assert(before.free_slots()[before.free_slots().len() - 1] == p);
        assert(cells[p] is None);
        assert(after[p] == added);
    } else {
        lemma_swept(cells, before.hand_at(), protected);
        match swept(cells, before.hand_at(), protected) {
            Some((victim, passed_over)) => {
                assert(after[victim] == added);
                assert(cells[victim] is Some);
                assert(cells[victim]->0.key != key) by {
                    if cells[victim]->0.key == key {
                        assert(cell_has(cells, victim, key));
                    }
                }
                assert forall|i: int|
                    0 <= i < after.len() && (#[trigger] cells[i] matches Some(entry) && entry.key
                        != key && (evicted matches Some(dropped) ==> dropped.0
                        != entry.key)) implies after[i] is Some && after[i]->0.key
                    == cells[i]->0.key && after[i]->0.value == cells[i]->0.value by {
                    lemma_swept_keeps(cells, before.hand_at(), protected, i);
                }
            },
            None => {
                assert forall|i: int| 0 <= i < after.len() implies (#[trigger] after[i] matches Some(
                    entry,
                ) && protected.contains(entry.key) && entry.key != key) by {
                    assert(cells[i] is Some);
                    assert(!droppable(cells, i, protected));
                    if cells[i]->0.key == key {
                        assert(cell_has(cells, i, key));
                    }
                }
            },
        }
    }
}

proof fn lemma_next_reached(hand: int, steps: int, n: int)
    requires
        0 <= hand < n,
        0 <= steps < n,
    ensures
        ({
            let i = reached(hand, steps, n);
            let next = if i + 1 == n {
                0
            } else {
                i + 1
            };
            next == (if steps + 1 == n {
                hand
            } else {
                reached(hand, steps + 1, n)
            })
        }),
{
    lemma_reached(hand, steps, n);
    let i = reached(hand, steps, n);
    if steps + 1 < n {
        lemma_reached(hand, steps + 1, n);
    }
}

/// Passing over slots whose entries have lost their marks changes nothing.
proof fn lemma_pass_again<K, V>(
    cells: Seq<Option<ClockCell<K, V>>>,
    hand: int,
    protected: Set<K>,
    steps: int,
)
    requires
        0 <= hand < cells.len(),
    ensures
        ({
            let unmarked = passed(cells, hand, protected, cells.len() as int);
            passed(unmarked, hand, protected, steps) == unmarked
        }),
{
    let n = cells.len() as int;
    let unmarked = passed(cells, hand, protected, n);
    let again = passed(unmarked, hand, protected, steps);
    assert forall|i: int| 0 <= i < n implies again[i] == unmarked[i] by {
        lemma_steps(hand, i, n);
    }
    assert(again =~= unmarked);
}

} // verus!
