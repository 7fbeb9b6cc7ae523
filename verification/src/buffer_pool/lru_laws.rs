//! What holds of a least-recently-used cache over several calls.

use vstd::prelude::*;

use crate::buffer_pool::cache_key::{distinct_keys, holds, spot};
use crate::buffer_pool::lru_cache::{lru_evicted, lru_put, lru_removed, lru_used};

verus! {

/// A call that changes a cache.
pub ghost enum LruCall<K, V> {
    /// A key is looked up.
    Get(K),
    /// An entry is inserted or updated.
    Put(K, V),
    /// A key is taken out.
    Remove(K),
}

/// The entries after one call.
pub open spec fn lru_called<K, V>(
    entries: Seq<(K, V)>,
    limit: nat,
    call: LruCall<K, V>,
) -> Seq<(K, V)> {
    match call {
        LruCall::Get(key) => lru_used(entries, key),
        LruCall::Put(key, value) => lru_put(entries, limit, key, value),
        LruCall::Remove(key) => lru_removed(entries, key),
    }
}

/// The entries after calls, one after the other.
pub open spec fn lru_after<K, V>(
    entries: Seq<(K, V)>,
    limit: nat,
    calls: Seq<LruCall<K, V>>,
) -> Seq<(K, V)>
    decreases calls.len(),
{
    if calls.len() == 0 {
        entries
    } else {
        lru_called(lru_after(entries, limit, calls.drop_last()), limit, calls.last())
    }
}

/// Whether a call uses a key: looks it up or puts it.
pub open spec fn call_uses<K, V>(call: LruCall<K, V>, key: K) -> bool {
    match call {
        LruCall::Get(k) => k == key,
        LruCall::Put(k, _) => k == key,
        LruCall::Remove(_) => false,
    }
}

/// Whether one of the calls uses a key.
pub open spec fn used_in<K, V>(calls: Seq<LruCall<K, V>>, key: K) -> bool {
    exists|c: int| 0 <= c < calls.len() && call_uses(#[trigger] calls[c], key)
}

/// The entries in front of a key were used by the calls.
spec fn front_used<K, V>(entries: Seq<(K, V)>, key: K, calls: Seq<LruCall<K, V>>) -> bool {
    forall|i: int, j: int|
        #![trigger entries[i], entries[j]]
        0 <= i < j < entries.len() && entries[j].0 == key ==> used_in(calls, entries[i].0)
}

/// What was used by all but the last call was used.
proof fn lemma_used_before<K, V>(calls: Seq<LruCall<K, V>>, key: K)
    requires
        calls.len() > 0,
    ensures
        used_in(calls.drop_last(), key) ==> used_in(calls, key),
        call_uses(calls.last(), key) ==> used_in(calls, key),
{
    if used_in(calls.drop_last(), key) {
        let c = choose|c: int|
            0 <= c < calls.drop_last().len() && call_uses(#[trigger] calls.drop_last()[c], key);
        assert(calls[c] == calls.drop_last()[c]);
    }
    if call_uses(calls.last(), key) {
        assert(calls[calls.len() - 1] == calls.last());
    }
}

proof fn lemma_front_used<K, V>(
    start: Seq<(K, V)>,
    limit: nat,
    key: K,
    calls: Seq<LruCall<K, V>>,
)
    requires
        front_used(start, key, Seq::<LruCall<K, V>>::empty()),
    ensures
        front_used(lru_after(start, limit, calls), key, calls),
    decreases calls.len(),
{
    if calls.len() == 0 {
        assert(calls =~= Seq::<LruCall<K, V>>::empty());
    } else {
        let earlier = calls.drop_last();
        let call = calls.last();
        lemma_front_used(start, limit, key, earlier);
        let before = lru_after(start, limit, earlier);
        let after = lru_after(start, limit, calls);
        assert(after == lru_called(before, limit, call));
        assert forall|i: int, j: int|
            #![trigger after[i], after[j]]
            0 <= i < j < after.len() && after[j].0 == key implies used_in(calls, after[i].0) by {
            lemma_used_before(calls, after[i].0);
            let named = match call {
                LruCall::Get(k) => k,
                LruCall::Put(k, _) => k,
                LruCall::Remove(k) => k,
            };
            let p = spot(before, named);
            let front: int = match call {
                LruCall::Remove(_) => 0,
                LruCall::Get(_) => if holds(before, named) { 1 } else { 0 },
                LruCall::Put(_, _) => if holds(before, named) || limit > 0 { 1 } else { 0 },
            };
            if i < front {
                assert(call_uses(call, after[i].0));
            } else {
                let a = if holds(before, named) && i - front >= p {
                    i - front + 1
                } else {
                    i - front
                };
                let b = if holds(before, named) && j - front >= p {
                    j - front + 1
                } else {
                    j - front
                };
                assert(after[i] == before[a]);
                assert(after[j] == before[b]);
                assert(used_in(earlier, before[a].0));
            }
        }
    }
}

/// Once a key was looked up and found, whatever calls come next, a put that drops it comes
/// only when every other entry was used since.
pub proof fn lemma_used_entry_stays<K, V>(
    start: Seq<(K, V)>,
    limit: nat,
    key: K,
    calls: Seq<LruCall<K, V>>,
    new: K,
)
    requires
        distinct_keys(start),
        holds(start, key),
    ensures
        ({
            let now = lru_after(lru_used(start, key), limit, calls);
            lru_evicted(now, limit, new) matches Some(dropped) && dropped.0 == key ==> forall|
                i: int,
            |
                0 <= i < now.len() && (#[trigger] now[i]).0 != key ==> used_in(calls, now[i].0)
        }),
{
    let used = lru_used(start, key);
    let p = spot(start, key);
    assert forall|i: int, j: int|
        #![trigger used[i], used[j]]
        0 <= i < j < used.len() && used[j].0 == key implies used_in(
        Seq::<LruCall<K, V>>::empty(),
        used[i].0,
    ) by {
        let b = if j - 1 < p {
            j - 1
        } else {
            j
        };
        assert(used[j] == start[b]);
        if b < p {
            assert(start[b].0 != start[p].0);
        } else {
            assert(start[p].0 != start[b].0);
        }
    }
    lemma_front_used(used, limit, key, calls);
    let now = lru_after(used, limit, calls);
    if let Some(dropped) = lru_evicted(now, limit, new) {
        if dropped.0 == key {
            let last = now.len() - 1;
            assert(now[last] == dropped);
            assert forall|i: int| 0 <= i < now.len() && (#[trigger] now[i]).0
                != key implies used_in(calls, now[i].0) by {
                assert(i < last);
                assert(now[last].0 == key);
            }
        }
    }
}

/// Whether a call puts a key.
pub open spec fn call_puts<K, V>(call: LruCall<K, V>, key: K) -> bool {
    call matches LruCall::Put(k, _) && k == key
}

/// A key that is found after other calls has the value that was last put under it.
pub proof fn lemma_last_put_found<K, V>(
    start: Seq<(K, V)>,
    limit: nat,
    key: K,
    value: V,
    calls: Seq<LruCall<K, V>>,
)
    requires
        distinct_keys(start),
        forall|c: int| 0 <= c < calls.len() ==> !call_puts(#[trigger] calls[c], key),
    ensures
        ({
            let now = lru_after(lru_put(start, limit, key, value), limit, calls);
            holds(now, key) ==> now[spot(now, key)].1 == value
        }),
{
    let put = lru_put(start, limit, key, value);
    let p = spot(start, key);
    assert forall|i: int| 0 <= i < put.len() && (#[trigger] put[i]).0 == key implies put[i].1
        == value by {
        if holds(start, key) {
            if i > 0 {
                let b = if i - 1 < p {
                    i - 1
                } else {
                    i
                };
                assert(put[i] == start[b]);
                if b < p {
                    assert(start[b].0 != start[p].0);
                } else {
                    assert(start[p].0 != start[b].0);
                }
            }
        } else if limit == 0 {
            assert(put[i] == start[i]);
        } else if i > 0 {
            assert(put[i] == start[i - 1]);
        }
    }
    lemma_value_kept(put, limit, key, value, calls);
}

proof fn lemma_value_kept<K, V>(
    start: Seq<(K, V)>,
    limit: nat,
    key: K,
    value: V,
    calls: Seq<LruCall<K, V>>,
)
    requires
        forall|i: int|
            0 <= i < start.len() && (#[trigger] start[i]).0 == key ==> start[i].1 == value,
        forall|c: int| 0 <= c < calls.len() ==> !call_puts(#[trigger] calls[c], key),
    ensures
        forall|i: int|
            0 <= i < lru_after(start, limit, calls).len() && (#[trigger] lru_after(
                start,
                limit,
                calls,
            )[i]).0 == key ==> lru_after(start, limit, calls)[i].1 == value,
    decreases calls.len(),
{
    if calls.len() > 0 {
        let earlier = calls.drop_last();
        let call = calls.last();
        assert forall|c: int| 0 <= c < earlier.len() implies !call_puts(
            #[trigger] earlier[c],
            key,
        ) by {
            assert(earlier[c] == calls[c]);
        }
        assert(!call_puts(calls[calls.len() - 1], key));
        lemma_value_kept(start, limit, key, value, earlier);
        let before = lru_after(start, limit, earlier);
        let after = lru_after(start, limit, calls);
        assert(after == lru_called(before, limit, call));
        assert forall|i: int| 0 <= i < after.len() && (#[trigger] after[i]).0 == key implies after[
            i
        ].1 == value by {
            assert(before.contains(after[i])) by {
                let named = match call {
                    LruCall::Get(k) => k,
                    LruCall::Put(k, _) => k,
                    LruCall::Remove(k) => k,
                };
                let p = spot(before, named);
                let front: int = match call {
                    LruCall::Remove(_) => 0,
                    LruCall::Get(_) => if holds(before, named) { 1 } else { 0 },
                    LruCall::Put(_, _) => if holds(before, named) || limit > 0 { 1 } else { 0 },
                };
                if i < front {
                    assert(after[i] == before[p]);
                } else {
                    let a = if holds(before, named) && i - front >= p {
                        i - front + 1
                    } else {
                        i - front
                    };
                    assert(after[i] == before[a]);
                }
            }
            let b = choose|b: int| 0 <= b < before.len() && before[b] == after[i];
            assert(before[b].0 == key);
        }
    }
}

/// Looking up a key changes the order of the entries alone.
pub proof fn lemma_get_keeps_entries<K, V>(entries: Seq<(K, V)>, key: K)
    ensures
        lru_used(entries, key).len() == entries.len(),
        lru_used(entries, key).to_multiset() == entries.to_multiset(),
{
    broadcast use vstd::seq_lib::group_to_multiset_ensures;

    if holds(entries, key) {
        let p = spot(entries, key);
        assert(entries[p].0 == key);
        let rest = entries.remove(p);
        assert(rest.insert(p, entries[p]) =~= entries);
        assert(rest.insert(0, entries[p]) =~= lru_used(entries, key));
    }
}

} // verus!
