//! The newest version of each key.
//!
//! A key can stand in several blocks and in the memtable. Of all versions the
//! one with the greatest timestamp counts; of equal timestamps the one that
//! was read last.

use vstd::prelude::*;

use crate::bytes::{
    bytes_equal, compare_bytes, lemma_lex_asymmetric, lemma_lex_irreflexive, lemma_lex_total,
    lemma_lex_transitive, lex_lt, Compared,
};
use crate::row::{stamps, Candidate, Content, Stamped};
use crate::sort::{is_sorted, lemma_same_values, merge_sort, Ranked};

verus! {

/// The version of a key that counts.
pub open spec fn pick<V>(versions: Seq<Stamped<V>>, key: Seq<u8>) -> Option<Stamped<V>>
    decreases versions.len(),
{
    if versions.len() == 0 {
        None
    } else {
        let before = pick(versions.drop_last(), key);
        let last = versions.last();
        if last.key == key && (before matches Some(other) ==> last.timestamp >= other.timestamp) {
            Some(last)
        } else {
            before
        }
    }
}

/// Whether the version at `i` is the one of its key that counts: every other
/// one is older, or as old and read before.
pub open spec fn wins<V>(versions: Seq<Stamped<V>>, i: int) -> bool {
    &&& 0 <= i < versions.len()
    &&& forall|j: int|
        0 <= j < versions.len() && j != i && (#[trigger] versions[j]).key == versions[i].key
            ==> versions[j].timestamp < versions[i].timestamp || (versions[j].timestamp
            == versions[i].timestamp && j < i)
}

/// The version that counts is the newest one of its key.
pub proof fn lemma_pick_wins<V>(versions: Seq<Stamped<V>>, key: Seq<u8>)
    ensures
        match pick(versions, key) {
            Some(version) => exists|i: int| #[trigger]
                wins(versions, i) && versions[i] == version && version.key == key,
            None => forall|i: int|
                0 <= i < versions.len() ==> (#[trigger] versions[i]).key != key,
        },
    decreases versions.len(),
{
    if versions.len() > 0 {
        let front = versions.drop_last();
        let last = versions.len() - 1;
        lemma_pick_wins(front, key);
        assert forall|i: int| 0 <= i < front.len() implies front[i] == versions[i] by {}
        match pick(front, key) {
            Some(other) => {
                let i = choose|i: int| #[trigger] wins(front, i) && front[i] == other;
                if versions[last].key == key && versions[last].timestamp >= other.timestamp {
                    assert forall|j: int|
                        0 <= j < versions.len() && j != last && (#[trigger] versions[j]).key
                            == key implies versions[j].timestamp < versions[last].timestamp || (
                    versions[j].timestamp == versions[last].timestamp && j < last) by {
                        assert(front[j] == versions[j]);
                        if j != i {
                            assert(front[j].timestamp <= front[i].timestamp);
                        }
                    }
                    assert(wins(versions, last));
                } else {
                    assert forall|j: int|
                        0 <= j < versions.len() && j != i && (#[trigger] versions[j]).key
                            == versions[i].key implies versions[j].timestamp
                        < versions[i].timestamp || (versions[j].timestamp
                        == versions[i].timestamp && j < i) by {
                        if j < last {
                            assert(front[j] == versions[j]);
                        }
                    }
                    assert(wins(versions, i));
                }
            },
            None => {
                if versions[last].key == key {
                    assert forall|j: int|
                        0 <= j < versions.len() && j != last && (#[trigger] versions[j]).key
                            == key implies false by {
                        assert(front[j] == versions[j]);
                    }
                    assert(wins(versions, last));
                } else {
                    assert forall|i: int| 0 <= i < versions.len() implies (#[trigger] versions[i]).key
                        != key by {
                        if i < last {
                            assert(front[i] == versions[i]);
                        }
                    }
                }
            },
        }
    }
}

/// Only one version of a key wins.
pub proof fn lemma_winner_picked<V>(versions: Seq<Stamped<V>>, i: int)
    requires
        wins(versions, i),
    ensures
        pick(versions, versions[i].key) == Some(versions[i]),
{
    let key = versions[i].key;
    lemma_pick_wins(versions, key);
    match pick(versions, key) {
        Some(version) => {
            let j = choose|j: int| #[trigger]
                wins(versions, j) && versions[j] == version && version.key == key;
            if j != i {
                assert(versions[j].key == versions[i].key);
            }
        },
        None => {},
    }
}

/// Picking from two lists, the second one read after the first.
pub proof fn lemma_pick_append<V>(a: Seq<Stamped<V>>, b: Seq<Stamped<V>>, key: Seq<u8>)
    ensures
        pick(a + b, key) == match (pick(a, key), pick(b, key)) {
            (Some(x), Some(y)) => if y.timestamp >= x.timestamp {
                Some(y)
            } else {
                Some(x)
            },
            (Some(x), None) => Some(x),
            (None, y) => y,
        },
    decreases b.len(),
{
    if b.len() == 0 {
        assert(a + b =~= a);
    } else {
        lemma_pick_append(a, b.drop_last(), key);
        assert((a + b).drop_last() =~= a + b.drop_last());
        assert((a + b).last() == b.last());
    }
}

/// The versions are exactly those that count, in the order of their keys.
pub open spec fn lists_newest<V>(
    newest: Seq<Stamped<V>>,
    versions: Seq<Stamped<V>>,
) -> bool {
    &&& forall|i: int, j: int|
        #![trigger newest[i], newest[j]]
        0 <= i < j < newest.len() ==> lex_lt(newest[i].key, newest[j].key)
    &&& forall|i: int|
        0 <= i < newest.len() ==> pick(versions, (#[trigger] newest[i]).key) == Some(newest[i])
    &&& forall|key: Seq<u8>|
        pick(versions, key) is Some ==> exists|i: int|
            0 <= i < newest.len() && (#[trigger] newest[i]).key == key
}

/// A version with its place among all.
struct Placed<T: Content> {
    candidate: Candidate<T>,
    place: usize,
}

impl<T: Content> Ranked for Placed<T> {
    /// The greatest key first; of one key, the oldest version first.
    closed spec fn ranks_before(&self, other: &Self) -> bool {
        ||| lex_lt(other.candidate.key@, self.candidate.key@)
        ||| self.candidate.key@ == other.candidate.key@ && (self.candidate.timestamp
            < other.candidate.timestamp || (self.candidate.timestamp == other.candidate.timestamp
            && self.place < other.place))
    }

    proof fn rank_asymmetric(a: &Self, b: &Self) {
        lemma_lex_asymmetric(a.candidate.key@, b.candidate.key@);
        lemma_lex_irreflexive(a.candidate.key@);
    }

    proof fn rank_transitive(a: &Self, b: &Self, c: &Self) {
        lemma_lex_total(a.candidate.key@, b.candidate.key@);
        lemma_lex_total(b.candidate.key@, c.candidate.key@);
        lemma_lex_total(a.candidate.key@, c.candidate.key@);
        lemma_lex_asymmetric(a.candidate.key@, c.candidate.key@);
        lemma_lex_irreflexive(a.candidate.key@);
        if lex_lt(b.candidate.key@, a.candidate.key@) && lex_lt(
            c.candidate.key@,
            b.candidate.key@,
        ) {
            lemma_lex_transitive(c.candidate.key@, b.candidate.key@, a.candidate.key@);
        }
    }

    fn is_before(&self, other: &Self) -> (before: bool) {
        proof {
            lemma_lex_irreflexive(self.candidate.key@);
        }
        match compare_bytes(self.candidate.key.as_slice(), other.candidate.key.as_slice()) {
            Compared::Less => {
                proof {
                    lemma_lex_asymmetric(self.candidate.key@, other.candidate.key@);
                }
                false
            },
            Compared::Equal => self.candidate.timestamp < other.candidate.timestamp || (
            self.candidate.timestamp == other.candidate.timestamp && self.place < other.place),
            Compared::Greater => true,
        }
    }
}

/// Whether no later item has the key of the one at `i`.
spec fn last_of_key<T: Content>(items: Seq<Placed<T>>, i: int) -> bool {
    &&& 0 <= i < items.len()
    &&& forall|j: int|
        i < j < items.len() ==> (#[trigger] items[j]).candidate.key@ != items[i].candidate.key@
}

/// Whether one of the items has this place.
spec fn holds_place<T: Content>(items: Seq<Placed<T>>, j: int) -> bool {
    exists|i: int| 0 <= i < items.len() && (#[trigger] items[i]).place == j
}

/// The items are the versions with their places, in some order.
spec fn permuted<T: Content>(items: Seq<Placed<T>>, versions: Seq<Stamped<T::V>>) -> bool {
    &&& forall|i: int|
        0 <= i < items.len() ==> {
            &&& (#[trigger] items[i]).place < versions.len()
            &&& versions[items[i].place as int] == items[i].candidate@
        }
    &&& forall|j: int| 0 <= j < versions.len() ==> #[trigger] holds_place(items, j)
}

proof fn lemma_last_wins<T: Content>(items: Seq<Placed<T>>, versions: Seq<Stamped<T::V>>, i: int)
    requires
        is_sorted(items),
        permuted(items, versions),
        last_of_key(items, i),
    ensures
        pick(versions, items[i].candidate.key@) == Some(items[i].candidate@),
{
    let w = items[i].place as int;
    assert forall|j: int|
        0 <= j < versions.len() && j != w && (#[trigger] versions[j]).key
            == versions[w].key implies versions[j].timestamp < versions[w].timestamp || (
    versions[j].timestamp == versions[w].timestamp && j < w) by {
        assert(holds_place(items, j));
        let k = choose|k: int| 0 <= k < items.len() && (#[trigger] items[k]).place == j;
        assert(items[k].candidate@ == versions[j]);
        assert(k < i);
        assert(!items[i].ranks_before(&items[k]));
    }
    assert(wins(versions, w));
    lemma_winner_picked(versions, w);
}

/// Keeps, of each key, the version that counts; in the order of the keys.
pub fn newest_per_key<T: Content>(versions: Vec<Candidate<T>>) -> (newest: Vec<Candidate<T>>)
    ensures
        lists_newest(stamps(newest@), stamps(versions@)),
{
    let ghost given = versions@;
    let ghost all = stamps(given);
    let mut items: Vec<Placed<T>> = Vec::new();
    let mut place: usize = 0;
    let n: usize = versions.len();
    for candidate in iter: versions
        invariant
            iter.seq() == given,
            n == given.len(),
            place == iter.index(),
            items@.len() == place,
            forall|i: int|
                0 <= i < items@.len() ==> (#[trigger] items@[i]).place == i
                    && items@[i].candidate == given[i],
    {
        items.push(Placed { candidate, place });
        place = place + 1;
    }
    let ghost unsorted = items@;
    let mut items = merge_sort(items);
    let ghost sorted = items@;
    proof {
        lemma_same_values(unsorted, sorted);
        assert forall|i: int| 0 <= i < sorted.len() implies {
            &&& (#[trigger] sorted[i]).place < all.len()
            &&& all[sorted[i].place as int] == sorted[i].candidate@
        } by {
            assert(sorted.contains(sorted[i]));
            let j = choose|j: int| 0 <= j < unsorted.len() && unsorted[j] == sorted[i];
            assert(unsorted[j].place == j && unsorted[j].candidate == given[j]);
        }
        assert forall|j: int| 0 <= j < all.len() implies #[trigger] holds_place(sorted, j) by {
            assert(unsorted.contains(unsorted[j]));
            let i = choose|i: int| 0 <= i < sorted.len() && sorted[i] == unsorted[j];
            assert(sorted[i].place == j);
        }
    }
    let mut newest: Vec<Candidate<T>> = Vec::new();
    let ghost mut from = Seq::<int>::empty();
    while items.len() > 0
        invariant
            is_sorted(sorted),
            permuted(sorted, all),
            items@.len() <= sorted.len(),
            items@ == sorted.take(items@.len() as int),
            from.len() == newest@.len(),
            forall|o: int|
                0 <= o < newest@.len() ==> items@.len() <= #[trigger] from[o] < sorted.len()
                    && sorted[from[o]].candidate == newest@[o] && last_of_key(sorted, from[o]),
            forall|a: int, b: int|
                #![trigger newest@[a], newest@[b]]
                0 <= a < b < newest@.len() ==> lex_lt(newest@[a].key@, newest@[b].key@),
            forall|i: int|
                #![trigger sorted[i]]
                items@.len() <= i < sorted.len() ==> exists|o: int|
                    0 <= o < newest@.len() && (#[trigger] newest@[o]).key@
                        == sorted[i].candidate.key@,
            items@.len() < sorted.len() ==> newest@.len() > 0 && newest@.last().key@
                == sorted[items@.len() as int].candidate.key@,
        decreases items@.len(),
    {
        let ghost m = items@.len() as int;
        let ghost before = newest@;
        let item = items.pop().unwrap();
        assert(item == sorted[m - 1]);
        assert(items@ =~= sorted.take(m - 1));
        let same: bool = newest.len() > 0 && bytes_equal(
            newest[newest.len() - 1].key.as_slice(),
            item.candidate.key.as_slice(),
        );
        if !same {
            proof {
                assert forall|j: int| m - 1 < j < sorted.len() implies (
                #[trigger] sorted[j]).candidate.key@ != sorted[m - 1].candidate.key@ by {
                    assert(!sorted[j].ranks_before(&sorted[m - 1]));
                    assert(!sorted[j].ranks_before(&sorted[m]) || j == m);
                    lemma_lex_total(sorted[m].candidate.key@, sorted[m - 1].candidate.key@);
                    assert(!sorted[m].ranks_before(&sorted[m - 1]));
                    if sorted[j].candidate.key@ == sorted[m - 1].candidate.key@ {
                        lemma_lex_asymmetric(
                            sorted[m].candidate.key@,
                            sorted[m - 1].candidate.key@,
                        );
                        assert(lex_lt(sorted[m - 1].candidate.key@, sorted[m].candidate.key@));
                    }
                }
                assert(last_of_key(sorted, m - 1));
                from = from.push(m - 1);
                if before.len() > 0 {
                    let l = before.len() - 1;
                    assert(from[l] >= m);
                    assert(before[l].key@ != item.candidate.key@);
                    assert(!sorted[from[l]].ranks_before(&sorted[m - 1]));
                    lemma_lex_total(before[l].key@, item.candidate.key@);
                    assert(lex_lt(before[l].key@, item.candidate.key@)) by {
                        if lex_lt(item.candidate.key@, before[l].key@) {
                            assert(sorted[from[l]].candidate.key@ == before[l].key@);
                        }
                    }
                    assert forall|a: int| 0 <= a < before.len() implies lex_lt(
                        (#[trigger] before[a]).key@,
                        item.candidate.key@,
                    ) by {
                        if a < l {
                            lemma_lex_transitive(
                                before[a].key@,
                                before[l].key@,
                                item.candidate.key@,
                            );
                        }
                    }
                }
            }
            newest.push(item.candidate);
        }
        proof {
            assert forall|i: int|
                #![trigger sorted[i]]
                m - 1 <= i < sorted.len() implies exists|o: int|
                0 <= o < newest@.len() && (#[trigger] newest@[o]).key@
                    == sorted[i].candidate.key@ by {
                if i >= m {
                    let o = choose|o: int|
                        0 <= o < before.len() && (#[trigger] before[o]).key@
                            == sorted[i].candidate.key@;
                    assert(newest@[o] == before[o]);
                } else {
                    assert(newest@[newest@.len() - 1].key@ == sorted[i].candidate.key@);
                }
            }
        }
    }
    proof {
        let out = stamps(newest@);
        assert forall|o: int| 0 <= o < out.len() implies pick(all, (#[trigger] out[o]).key) == Some(
            out[o],
        ) by {
            lemma_last_wins(sorted, all, from[o]);
        }
        assert forall|key: Seq<u8>| pick(all, key) is Some implies exists|o: int|
            0 <= o < out.len() && (#[trigger] out[o]).key == key by {
            lemma_pick_wins(all, key);
            let j = choose|j: int| #[trigger]
                wins(all, j) && Some(all[j]) == pick(all, key) && all[j].key == key;
            assert(holds_place(sorted, j));
            let i = choose|i: int| 0 <= i < sorted.len() && (#[trigger] sorted[i]).place == j;
            assert(sorted[i].candidate.key@ == key);
            let o = choose|o: int|
                0 <= o < newest@.len() && (#[trigger] newest@[o]).key@ == sorted[i].candidate.key@;
            assert(out[o].key == key);
        }
        assert forall|a: int, b: int|
            #![trigger out[a], out[b]]
            0 <= a < b < out.len() implies lex_lt(out[a].key, out[b].key) by {
            assert(out[a] == newest@[a]@ && out[b] == newest@[b]@);
        }
    }
    newest
}

} // verus!
