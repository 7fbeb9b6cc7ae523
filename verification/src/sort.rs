//! Merge sort.

use vstd::multiset::Multiset;
use vstd::prelude::*;

verus! {

/// Values with an order in which some may rank equal.
pub trait Ranked: Sized {
    /// Whether this value comes before another one.
    spec fn ranks_before(&self, other: &Self) -> bool;

    /// Of two values, at most one comes before the other.
    proof fn rank_asymmetric(a: &Self, b: &Self)
        ensures
            !(a.ranks_before(b) && b.ranks_before(a)),
    ;

    /// What does not come before, over two steps, does not come before.
    proof fn rank_transitive(a: &Self, b: &Self, c: &Self)
        requires
            !b.ranks_before(a),
            !c.ranks_before(b),
        ensures
            !c.ranks_before(a),
    ;

    /// Whether this value comes before another one.
    fn is_before(&self, other: &Self) -> (before: bool)
        ensures
            before == self.ranks_before(other),
    ;
}

/// No value comes after one that it ranks before.
pub open spec fn is_sorted<T: Ranked>(items: Seq<T>) -> bool {
    forall|i: int, j: int|
        #![trigger items[i], items[j]]
        0 <= i < j < items.len() ==> !items[j].ranks_before(&items[i])
}

/// Every value of `items` ranks at most equal to `bound`.
spec fn all_up_to<T: Ranked>(items: Seq<T>, bound: T) -> bool {
    forall|i: int| 0 <= i < items.len() ==> !bound.ranks_before(&#[trigger] items[i])
}

proof fn lemma_up_to_last<T: Ranked>(items: Seq<T>, bound: T)
    requires
        is_sorted(items),
        items.len() > 0,
        !bound.ranks_before(&items.last()),
    ensures
        all_up_to(items, bound),
{
    assert forall|i: int| 0 <= i < items.len() implies !bound.ranks_before(
        &#[trigger] items[i],
    ) by {
        if i < items.len() - 1 {
            assert(!items[items.len() - 1].ranks_before(&items[i]));
            T::rank_transitive(&items[i], &items.last(), &bound);
        }
    }
}

/// Values in reverse order.
fn reverse<T>(items: Vec<T>) -> (reversed: Vec<T>)
    ensures
        reversed@ == items@.reverse(),
{
    let mut source = items;
    let mut reversed: Vec<T> = Vec::new();
    let ghost all = source@;
    while source.len() > 0
        invariant
            source@.len() + reversed@.len() == all.len(),
            source@ == all.take(source@.len() as int),
            forall|i: int| 0 <= i < reversed@.len() ==> reversed@[i] == all[all.len() - 1 - i],
        decreases source@.len(),
    {
        let ghost before = source@;
        let item = source.pop().unwrap();
        proof {
            assert(item == before.last());
            assert(source@ =~= all.take(source@.len() as int));
        }
        reversed.push(item);
    }
    assert(reversed@ =~= all.reverse());
    reversed
}

/// The values popped so far, largest first, are no smaller than what is left.
spec fn popped_above<T: Ranked>(popped: Seq<T>, rest: Seq<T>) -> bool {
    forall|i: int, j: int|
        #![trigger popped[i], rest[j]]
        0 <= i < popped.len() && 0 <= j < rest.len() ==> !popped[i].ranks_before(&rest[j])
}

/// The values are in falling order.
spec fn is_falling<T: Ranked>(items: Seq<T>) -> bool {
    forall|i: int, j: int|
        #![trigger items[i], items[j]]
        0 <= i < j < items.len() ==> !items[i].ranks_before(&items[j])
}

/// Merges two sorted lists; of values that rank equal, those of `first` stay first.
fn merge<T: Ranked>(first: Vec<T>, second: Vec<T>) -> (merged: Vec<T>)
    requires
        is_sorted(first@),
        is_sorted(second@),
    ensures
        is_sorted(merged@),
        merged@.to_multiset() == first@.to_multiset().add(second@.to_multiset()),
{
    broadcast use vstd::seq_lib::group_to_multiset_ensures;

    let ghost all = first@.to_multiset().add(second@.to_multiset());
    let mut a = first;
    let mut b = second;
    let mut falling: Vec<T> = Vec::new();
    proof {
        assert(falling@.to_multiset() =~= Multiset::empty());
        assert(falling@.to_multiset().add(a@.to_multiset()).add(b@.to_multiset()) =~= all);
    }
    while a.len() > 0 || b.len() > 0
        invariant
            is_sorted(a@),
            is_sorted(b@),
            is_falling(falling@),
            popped_above(falling@, a@),
            popped_above(falling@, b@),
            falling@.to_multiset().add(a@.to_multiset()).add(b@.to_multiset()) == all,
        decreases a@.len() + b@.len(),
    {
        let from_a: bool = if b.len() == 0 {
            true
        } else if a.len() == 0 {
            false
        } else {
            b[b.len() - 1].is_before(&a[a.len() - 1])
        };
        let ghost old_a = a@;
        let ghost old_b = b@;
        let ghost old_falling = falling@;
        if from_a {
            let item = a.pop().unwrap();
            proof {
                assert(item == old_a.last());
                T::rank_asymmetric(&item, &item);
                lemma_up_to_last(old_a, item);
                if old_b.len() > 0 {
                    T::rank_asymmetric(&old_b.last(), &item);
                    lemma_up_to_last(old_b, item);
                }
                assert(old_a =~= a@.push(item));
                a@.to_multiset_ensures();
                old_falling.to_multiset_ensures();
                assert(old_a.to_multiset() =~= a@.to_multiset().insert(item));
                assert(old_falling.push(item).to_multiset() =~= old_falling.to_multiset().insert(
                    item,
                ));
                assert(old_falling.push(item).to_multiset().add(a@.to_multiset()).add(
                    b@.to_multiset(),
                ) =~= all);
            }
            falling.push(item);
        } else {
            let item = b.pop().unwrap();
            proof {
                assert(item == old_b.last());
                T::rank_asymmetric(&item, &item);
                lemma_up_to_last(old_b, item);
                if old_a.len() > 0 {
                    lemma_up_to_last(old_a, item);
                }
                assert(old_b =~= b@.push(item));
                b@.to_multiset_ensures();
                old_falling.to_multiset_ensures();
                assert(old_b.to_multiset() =~= b@.to_multiset().insert(item));
                assert(old_falling.push(item).to_multiset() =~= old_falling.to_multiset().insert(
                    item,
                ));
                assert(old_falling.push(item).to_multiset().add(a@.to_multiset()).add(
                    b@.to_multiset(),
                ) =~= all);
            }
            falling.push(item);
        }
    }
    let ghost f = falling@;
    let merged = reverse(falling);
    proof {
        assert(a@.to_multiset() =~= Multiset::empty());
        assert(b@.to_multiset() =~= Multiset::empty());
        assert(f.to_multiset() =~= all);
        lemma_reverse_multiset(f);
        assert forall|i: int, j: int| 0 <= i < j < merged@.len() implies !merged@[j].ranks_before(
            &merged@[i],
        ) by {
            assert(merged@[i] == f[f.len() - 1 - i]);
            assert(merged@[j] == f[f.len() - 1 - j]);
        }
    }
    merged
}

proof fn lemma_reverse_multiset<T>(items: Seq<T>)
    ensures
        items.reverse().to_multiset() == items.to_multiset(),
    decreases items.len(),
{
    broadcast use vstd::seq_lib::group_to_multiset_ensures;

    if items.len() == 0 {
        assert(items.reverse() =~= items);
    } else {
        let front = items.drop_last();
        lemma_reverse_multiset(front);
        assert(items.reverse() =~= seq![items.last()] + front.reverse());
        assert(items =~= front.push(items.last()));
        vstd::seq_lib::lemma_multiset_commutative(seq![items.last()], front.reverse());
        assert(seq![items.last()] =~= Seq::<T>::empty().push(items.last()));
        assert(items.reverse().to_multiset() =~= items.to_multiset());
    }
}

/// Sorts values by rank.
pub fn merge_sort<T: Ranked>(items: Vec<T>) -> (sorted: Vec<T>)
    ensures
        is_sorted(sorted@),
        sorted@.to_multiset() == items@.to_multiset(),
    decreases items@.len(),
{
    if items.len() <= 1 {
        return items;
    }
    let mut first = items;
    let mid: usize = first.len() / 2;
    let ghost all = first@;
    let second = first.split_off(mid);
    proof {
        assert(first@ + second@ =~= all);
        vstd::seq_lib::lemma_multiset_commutative(first@, second@);
    }
    let first = merge_sort(first);
    let second = merge_sort(second);
    merge(first, second)
}

/// Sorting keeps the values: one is in the result exactly if it was given.
pub proof fn lemma_same_values<T>(a: Seq<T>, b: Seq<T>)
    requires
        a.to_multiset() == b.to_multiset(),
    ensures
        a.len() == b.len(),
        forall|x: T| a.contains(x) <==> b.contains(x),
{
    broadcast use vstd::seq_lib::group_to_multiset_ensures;

    a.to_multiset_ensures();
    b.to_multiset_ensures();
    assert forall|x: T| a.contains(x) <==> b.contains(x) by {
        assert(a.contains(x) <==> a.to_multiset().count(x) > 0);
        assert(b.contains(x) <==> b.to_multiset().count(x) > 0);
    }
}

/// No two values have the same key.
pub open spec fn keys_distinct<T, K>(items: Seq<T>, key: spec_fn(T) -> K) -> bool {
    forall|i: int, j: int|
        #![trigger items[i], items[j]]
        0 <= i < j < items.len() ==> key(items[i]) != key(items[j])
}

/// Sorting keeps keys distinct.
pub proof fn lemma_distinct_kept<T, K>(a: Seq<T>, b: Seq<T>, key: spec_fn(T) -> K)
    requires
        a.to_multiset() == b.to_multiset(),
        keys_distinct(a, key),
    ensures
        keys_distinct(b, key),
{
    assert(a.no_duplicates());
    a.lemma_multiset_has_no_duplicates();
    b.lemma_multiset_has_no_duplicates_conv();
    lemma_same_values(a, b);
    assert forall|i: int, j: int| 0 <= i < j < b.len() implies key(#[trigger] b[i]) != key(
        #[trigger] b[j],
    ) by {
        assert(b.contains(b[i]) && b.contains(b[j]));
        let p = choose|p: int| 0 <= p < a.len() && a[p] == b[i];
        let q = choose|q: int| 0 <= q < a.len() && a[q] == b[j];
        assert(a[p] == b[i] && a[q] == b[j]);
        if p < q {
            assert(key(a[p]) != key(a[q]));
        } else if q < p {
            assert(key(a[q]) != key(a[p]));
        } else {
            assert(b[i] == b[j]);
        }
    }
}

} // verus!
