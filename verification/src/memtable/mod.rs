//! Memtable: the in-memory write buffer.
//!
//! Keys are spread over 16 shards by their hash. Each shard keeps its keys in
//! a skip map, and for each key a chain of versions, the latest written first.
//!
//! When the active memtable reaches its threshold it is sealed, and a new one
//! takes its place. The bytes of sealed memtables that are not flushed yet use
//! up a budget, and writers wait while there is too little of it left.

pub mod manager;
pub mod skiplist;
pub mod versioned_value;

pub use manager::MemtableManager;
pub use versioned_value::VersionedValue;

use crossbeam_skiplist::SkipMap;
use vstd::prelude::*;
use vstd::slice::slice_to_vec;
use xxhash_rust::xxh3::xxh3_64;

use crate::bytes::{compare_bytes, lex_lt, starts_with, Compared};
use crate::bytes::{
    lemma_lex_asymmetric, lemma_lex_irreflexive, lemma_lex_le_le, lemma_lex_total,
};
use crate::hash::xxh3_64_of;
use crate::sort::{is_sorted, keys_distinct, merge_sort, Ranked};
use crate::sort::{lemma_distinct_kept, lemma_same_values};
use skiplist::{skip_entries, skip_get, skip_insert, skip_iter, skip_new};
use versioned_value::{copy_value, read_view, value_view, visible, Version};

verus! {

/// Number of shards that keys are spread over.
pub const NUM_SHARDS: usize = 16;

/// Default seal threshold: 64 MB.
pub const DEFAULT_SEAL_THRESHOLD: u64 = 67_108_864;

/// Default back-pressure capacity: 256 MB.
pub const DEFAULT_BACK_PRESSURE_BYTES: u64 = 268_435_456;

/// Most permits that a back-pressure budget can hold: an eighth of `usize`.
pub open spec fn max_permits() -> int {
    usize::MAX as int / 8
}

/// The latest version of a key.
pub open spec fn latest(chains: Map<Seq<u8>, Seq<Version>>, key: Seq<u8>) -> Option<Option<Seq<u8>>> {
    if chains.contains_key(key) {
        Some(chains[key][0].value)
    } else {
        None
    }
}

/// The version of a key that is visible at `read_ts`.
pub open spec fn latest_at(
    chains: Map<Seq<u8>, Seq<Version>>,
    key: Seq<u8>,
    read_ts: u64,
) -> Option<Option<Seq<u8>>> {
    if chains.contains_key(key) {
        match visible(chains[key], read_ts) {
            Some(version) => Some(version.value),
            None => None,
        }
    } else {
        None
    }
}

/// A version on top of the chain of a key.
pub open spec fn put_version(
    chains: Map<Seq<u8>, Seq<Version>>,
    key: Seq<u8>,
    version: Version,
) -> Map<Seq<u8>, Seq<Version>> {
    if chains.contains_key(key) {
        chains.insert(key, seq![version] + chains[key])
    } else {
        chains.insert(key, seq![version])
    }
}

/// Estimated size of a write: key, value, timestamp and overhead.
pub open spec fn entry_size(key: Seq<u8>, value: Option<Seq<u8>>) -> nat {
    key.len() + (match value {
        Some(bytes) => bytes.len(),
        None => 0,
    }) + 16
}

/// A byte more in the key or the value makes a write a byte larger; a deletion is as large as
/// a write without value bytes, and takes 16 bytes beside its key.
pub proof fn lemma_write_size(key: Seq<u8>, value: Seq<u8>, byte: u8)
    ensures
        entry_size(key.push(byte), Some(value)) == entry_size(key, Some(value)) + 1,
        entry_size(key, Some(value.push(byte))) == entry_size(key, Some(value)) + 1,
        entry_size(key, Some(Seq::<u8>::empty())) == entry_size(key, None),
        entry_size(Seq::<u8>::empty(), None) == 16,
{
}

/// The shard of a key.
pub open spec fn shard_of(key: Seq<u8>) -> int {
    xxh3_64_of(key) as int % 16
}

/// One shard: an ordered map from keys to the places of their chains.
pub struct Shard {
    map: SkipMap<Vec<u8>, u64>,
    chains: Vec<VersionedValue>,
}

impl Shard {
    /// Every key has a chain of its own.
    closed spec fn inv(self) -> bool {
        &&& forall|k: Seq<u8>| #[trigger]
            skip_entries(self.map).contains_key(k) ==> skip_entries(self.map)[k]
                < self.chains@.len()
        &&& forall|j: Seq<u8>, k: Seq<u8>|
            #![trigger skip_entries(self.map)[j], skip_entries(self.map)[k]]
            skip_entries(self.map).contains_key(j) && skip_entries(self.map).contains_key(k) && j
                != k ==> skip_entries(self.map)[j] != skip_entries(self.map)[k]
    }

    closed spec fn view(self) -> Map<Seq<u8>, Seq<Version>> {
        Map::new(
            |k: Seq<u8>| skip_entries(self.map).contains_key(k),
            |k: Seq<u8>| self.chains@[skip_entries(self.map)[k] as int].chain(),
        )
    }

    fn new() -> (shard: Self)
        ensures
            shard.inv(),
            shard@ == Map::<Seq<u8>, Seq<Version>>::empty(),
    {
        let shard = Shard { map: skip_new(), chains: Vec::new() };
        assert(shard@ =~= Map::<Seq<u8>, Seq<Version>>::empty());
        shard
    }

    /// Puts a version on top of the chain of a key.
    fn put(&mut self, key: Vec<u8>, timestamp: u64, value: Option<Vec<u8>>)
        requires
            old(self).inv(),
        ensures
            final(self).inv(),
            final(self)@ == put_version(
                old(self)@,
                key@,
                Version { timestamp, value: value_view(value) },
            ),
    {
        let ghost before = *self;
        let ghost k = key@;
        let ghost version = Version { timestamp, value: value_view(value) };
        match skip_get(&self.map, key.as_slice()) {
            Some(place) => {
                assert(skip_entries(self.map).contains_key(k));
                assert(place < self.chains.len());
                let i: usize = place as usize;
                let mut existing = VersionedValue::new(0, None);
                std::mem::swap(&mut self.chains[i], &mut existing);
                self.chains[i] = VersionedValue::with_prev(timestamp, value, existing);
                assert(self.chains@[i as int].chain() == seq![version] + before.chains@[i as int].chain());
                assert(self@ =~= put_version(before@, k, version));
            },
            None => {
                let place: u64 = self.chains.len() as u64;
                self.chains.push(VersionedValue::new(timestamp, value));
                skip_insert(&mut self.map, key, place);
                assert(self@ =~= put_version(before@, k, version));
            },
        }
    }
}

impl Ranked for (Vec<u8>, VersionedValue) {
    open spec fn ranks_before(&self, other: &Self) -> bool {
        lex_lt(self.0@, other.0@)
    }

    proof fn rank_asymmetric(a: &Self, b: &Self) {
        lemma_lex_asymmetric(a.0@, b.0@);
    }

    proof fn rank_transitive(a: &Self, b: &Self, c: &Self) {
        lemma_lex_le_le(a.0@, b.0@, c.0@);
    }

    fn is_before(&self, other: &Self) -> (before: bool) {
        compare_bytes(self.0.as_slice(), other.0.as_slice()) == Compared::Less
    }
}

/// The entries are exactly those of `chains` that `keep` accepts, in the order
/// of their keys.
pub open spec fn lists(
    entries: Seq<(Vec<u8>, VersionedValue)>,
    chains: Map<Seq<u8>, Seq<Version>>,
    keep: spec_fn(Seq<u8>) -> bool,
) -> bool {
    &&& forall|i: int, j: int|
        #![trigger entries[i], entries[j]]
        0 <= i < j < entries.len() ==> lex_lt(entries[i].0@, entries[j].0@)
    &&& forall|i: int|
        0 <= i < entries.len() ==> {
            &&& chains.contains_key((#[trigger] entries[i]).0@)
            &&& chains[entries[i].0@] == entries[i].1.chain()
            &&& keep(entries[i].0@)
        }
    &&& forall|key: Seq<u8>| #[trigger]
        chains.contains_key(key) && keep(key) ==> exists|i: int|
            0 <= i < entries.len() && (#[trigger] entries[i]).0@ == key
}

/// The in-memory write buffer: 16 shards of version chains.
pub struct Memtable {
    shards: Vec<Shard>,
    size: u64,
    sealed: bool,
    seal_threshold: u64,
}

impl View for Memtable {
    type V = Map<Seq<u8>, Seq<Version>>;

    /// For each key its versions, the latest written first.
    closed spec fn view(&self) -> Map<Seq<u8>, Seq<Version>> {
        Map::new(
            |k: Seq<u8>| self.shards@[shard_of(k)]@.contains_key(k),
            |k: Seq<u8>| self.shards@[shard_of(k)]@[k],
        )
    }
}

impl Memtable {
    /// Every key stands in its shard.
    pub closed spec fn inv(&self) -> bool {
        &&& self.shards@.len() == NUM_SHARDS
        &&& forall|i: int| 0 <= i < NUM_SHARDS ==> (#[trigger] self.shards@[i]).inv()
        &&& forall|i: int, k: Seq<u8>|
            0 <= i < NUM_SHARDS && #[trigger] self.shards@[i]@.contains_key(k) ==> shard_of(k) == i
    }

    /// Estimated bytes written so far.
    pub closed spec fn bytes(&self) -> u64 {
        self.size
    }

    /// Whether writes are refused.
    pub closed spec fn closed_for_writes(&self) -> bool {
        self.sealed
    }

    /// Size at which a memtable is to be sealed.
    pub closed spec fn threshold(&self) -> u64 {
        self.seal_threshold
    }

    /// Creates a new empty memtable with the given seal threshold.
    pub fn new(seal_threshold: u64) -> (memtable: Self)
        ensures
            memtable.inv(),
            memtable@ == Map::<Seq<u8>, Seq<Version>>::empty(),
            memtable.bytes() == 0,
            !memtable.closed_for_writes(),
            memtable.threshold() == seal_threshold,
    {
        let mut shards: Vec<Shard> = Vec::new();
        while shards.len() < NUM_SHARDS
            invariant
                shards@.len() <= NUM_SHARDS,
                forall|i: int| 0 <= i < shards@.len() ==> (#[trigger] shards@[i]).inv(),
                forall|i: int|
                    0 <= i < shards@.len() ==> (#[trigger] shards@[i])@ == Map::<
                        Seq<u8>,
                        Seq<Version>,
                    >::empty(),
            decreases NUM_SHARDS - shards@.len(),
        {
            shards.push(Shard::new());
        }
        let memtable = Memtable { shards, size: 0, sealed: false, seal_threshold };
        assert(memtable@ =~= Map::<Seq<u8>, Seq<Version>>::empty());
        memtable
    }

    /// Creates a new memtable with the default seal threshold of 64 MB.
    pub fn with_default_threshold() -> (memtable: Self)
        ensures
            memtable.inv(),
            memtable@ == Map::<Seq<u8>, Seq<Version>>::empty(),
            memtable.bytes() == 0,
            !memtable.closed_for_writes(),
            memtable.threshold() == DEFAULT_SEAL_THRESHOLD,
    {
        Memtable::new(DEFAULT_SEAL_THRESHOLD)
    }

    /// Returns the shard index for the given key.
    pub fn shard_index(key: &[u8]) -> (index: usize)
        ensures
            index == shard_of(key@),
            index < NUM_SHARDS,
    {
        (xxh3_64(key) % 16) as usize
    }

    /// Puts a new version of a key on top of its chain. A sealed memtable
    /// accepts no writes. Returns `true` if the memtable is to be sealed.
    ///
    /// The size is counted modulo 2 to the power 64.
    pub fn put(&mut self, key: Vec<u8>, timestamp: u64, value: Option<Vec<u8>>) -> (should_seal:
        bool)
        requires
            old(self).inv(),
        ensures
            final(self).inv(),
            final(self).closed_for_writes() == old(self).closed_for_writes(),
            final(self).threshold() == old(self).threshold(),
            old(self).closed_for_writes() ==> {
                &&& final(self)@ == old(self)@
                &&& final(self).bytes() == old(self).bytes()
                &&& !should_seal
            },
            !old(self).closed_for_writes() ==> {
                &&& final(self)@ == put_version(
                    old(self)@,
                    key@,
                    Version { timestamp, value: value_view(value) },
                )
                &&& final(self).bytes() == (old(self).bytes() + entry_size(key@, value_view(value)))
                    % 0x1_0000_0000_0000_0000
                &&& should_seal == (final(self).bytes() >= final(self).threshold())
            },
    {
        if self.sealed {
            return false;
        }
        let ghost before = *self;
        let ghost k = key@;
        let ghost version = Version { timestamp, value: value_view(value) };
        let index: usize = Memtable::shard_index(key.as_slice());
        let value_len: u64 = match &value {
            Some(bytes) => bytes.len() as u64,
            None => 0,
        };
        let added: u64 = (key.len() as u64).wrapping_add(value_len).wrapping_add(16);
        let shard = &mut self.shards[index];
        shard.put(key, timestamp, value);
        self.size = self.size.wrapping_add(added);
        proof {
            assert forall|i: int, j: Seq<u8>|
                0 <= i < NUM_SHARDS && #[trigger] self.shards@[i]@.contains_key(j) implies shard_of(
                j,
            ) == i by {
                if i != index {
                    assert(before.shards@[i]@.contains_key(j));
                } else if j != k {
                    assert(before.shards@[i]@.contains_key(j));
                }
            }
            assert(self@ =~= put_version(before@, k, version));
        }
        self.size >= self.seal_threshold
    }

    /// Reads the latest value of a key: `None` if the key is not found,
    /// `Some(None)` if its latest version is a tombstone.
    pub fn get(&self, key: &[u8]) -> (read: Option<Option<Vec<u8>>>)
        requires
            self.inv(),
        ensures
            read_view(read) == latest(self@, key@),
    {
        let shard = &self.shards[Memtable::shard_index(key)];
        match skip_get(&shard.map, key) {
            Some(place) => {
                assert(skip_entries(shard.map).contains_key(key@));
                assert(place < shard.chains.len());
                Some(copy_value(&shard.chains[place as usize].value))
            },
            None => None,
        }
    }

    /// Reads the value of a key that is visible at a timestamp: `None` if no
    /// version of it is visible.
    pub fn get_at(&self, key: &[u8], read_ts: u64) -> (read: Option<Option<Vec<u8>>>)
        requires
            self.inv(),
        ensures
            read_view(read) == latest_at(self@, key@, read_ts),
    {
        let shard = &self.shards[Memtable::shard_index(key)];
        match skip_get(&shard.map, key) {
            Some(place) => {
                assert(skip_entries(shard.map).contains_key(key@));
                assert(place < shard.chains.len());
                shard.chains[place as usize].get_at(read_ts)
            },
            None => None,
        }
    }

    /// Seals this memtable, preventing further writes.
    pub fn seal(&mut self)
        requires
            old(self).inv(),
        ensures
            final(self).inv(),
            final(self).closed_for_writes(),
            final(self)@ == old(self)@,
            final(self).bytes() == old(self).bytes(),
            final(self).threshold() == old(self).threshold(),
    {
        self.sealed = true;
    }

    /// Returns whether this memtable is sealed.
    pub fn is_sealed(&self) -> (sealed: bool)
        ensures
            sealed == self.closed_for_writes(),
    {
        self.sealed
    }

    /// Returns the estimated bytes written to this memtable.
    pub fn size(&self) -> (size: u64)
        ensures
            size == self.bytes(),
    {
        self.size
    }

    /// Returns the number of shards.
    pub fn num_shards(&self) -> (count: usize)
        ensures
            count == 16,
    {
        NUM_SHARDS
    }

    /// Returns the seal threshold in bytes.
    pub fn seal_threshold(&self) -> (threshold: u64)
        ensures
            threshold == self.threshold(),
    {
        self.seal_threshold
    }

    /// Returns all keys with their version chains, sorted by key.
    pub fn iter_all(&self) -> (entries: Vec<(Vec<u8>, VersionedValue)>)
        requires
            self.inv(),
        ensures
            lists(entries@, self@, |key: Seq<u8>| true),
    {
        let mut entries: Vec<(Vec<u8>, VersionedValue)> = Vec::new();
        let ghost key_of = |e: (Vec<u8>, VersionedValue)| e.0@;
        let mut s: usize = 0;
        while s < self.shards.len()
            invariant
                self.inv(),
                s <= self.shards@.len(),
                key_of == (|e: (Vec<u8>, VersionedValue)| e.0@),
                keys_distinct(entries@, key_of),
                forall|i: int|
                    0 <= i < entries@.len() ==> {
                        &&& self@.contains_key((#[trigger] entries@[i]).0@)
                        &&& self@[entries@[i].0@] == entries@[i].1.chain()
                        &&& shard_of(entries@[i].0@) < s
                    },
                forall|key: Seq<u8>| #[trigger]
                    self@.contains_key(key) && shard_of(key) < s ==> exists|i: int|
                        0 <= i < entries@.len() && (#[trigger] entries@[i]).0@ == key,
            decreases self.shards@.len() - s,
        {
            let shard = &self.shards[s];
            assert(shard.inv());
            let items = skip_iter(&shard.map);
            let ghost earlier = entries@;
            let mut j: usize = 0;
            while j < items.len()
                invariant
                    self.inv(),
                    s < self.shards@.len(),
                    *shard == self.shards@[s as int],
                    shard.inv(),
                    j <= items@.len(),
                    key_of == (|e: (Vec<u8>, VersionedValue)| e.0@),
                    forall|a: int, b: int|
                        #![trigger items@[a], items@[b]]
                        0 <= a < b < items@.len() ==> lex_lt(items@[a].0@, items@[b].0@),
                    forall|i: int|
                        0 <= i < items@.len() ==> skip_entries(shard.map).contains_key(
                            (#[trigger] items@[i]).0@,
                        ) && skip_entries(shard.map)[items@[i].0@] == items@[i].1,
                    entries@.len() == earlier.len() + j,
                    forall|i: int|
                        0 <= i < earlier.len() ==> #[trigger] entries@[i] == earlier[i],
                    forall|i: int|
                        0 <= i < earlier.len() ==> shard_of((#[trigger] earlier[i]).0@) < s,
                    keys_distinct(earlier, key_of),
                    forall|i: int|
                        0 <= i < j ==> (#[trigger] entries@[earlier.len() + i]).0@ == items@[i].0@,
                    forall|i: int|
                        0 <= i < entries@.len() ==> {
                            &&& self@.contains_key((#[trigger] entries@[i]).0@)
                            &&& self@[entries@[i].0@] == entries@[i].1.chain()
                            &&& shard_of(entries@[i].0@) <= s
                        },
                    keys_distinct(entries@, key_of),
                decreases items@.len() - j,
            {
                let key = slice_to_vec(items[j].0.as_slice());
                assert(skip_entries(shard.map).contains_key(items@[j as int].0@));
                assert(shard@.contains_key(key@));
                assert(shard_of(key@) == s);
                assert(items@[j as int].1 < shard.chains.len());
                let chain = shard.chains[items[j].1 as usize].clone();
                let ghost before = entries@;
                entries.push((key, chain));
                proof {
                    assert forall|a: int, b: int| 0 <= a < b < entries@.len() implies key_of(
                        #[trigger] entries@[a],
                    ) != key_of(#[trigger] entries@[b]) by {
                        if b < before.len() {
                            assert(before[a] == entries@[a] && before[b] == entries@[b]);
                        } else if a < earlier.len() {
                            assert(shard_of(earlier[a].0@) < s);
                        } else {
                            let i = a - earlier.len();
                            assert(entries@[earlier.len() + i].0@ == items@[i].0@);
                            assert(lex_lt(items@[i].0@, items@[j as int].0@));
                            lemma_lex_irreflexive(items@[i].0@);
                        }
                    }
                }
                j = j + 1;
            }
            proof {
                assert forall|key: Seq<u8>| #[trigger]
                    self@.contains_key(key) && shard_of(key) < s + 1 implies exists|i: int|
                    0 <= i < entries@.len() && (#[trigger] entries@[i]).0@ == key by {
                    if shard_of(key) < s {
                        let i = choose|i: int|
                            0 <= i < earlier.len() && (#[trigger] earlier[i]).0@ == key;
                        assert(entries@[i].0@ == key);
                    } else {
                        assert(shard@.contains_key(key));
                        assert(skip_entries(shard.map).contains_key(key));
                        let i = choose|i: int|
                            0 <= i < items@.len() && (#[trigger] items@[i]).0@ == key;
                        assert(entries@[earlier.len() + i].0@ == key);
                    }
                }
            }
            s = s + 1;
        }
        let ghost unsorted = entries@;
        let sorted = merge_sort(entries);
        proof {
            lemma_distinct_kept(unsorted, sorted@, key_of);
            lemma_same_values(unsorted, sorted@);
            lemma_sorted_listing(unsorted, sorted@, self@);
        }
        sorted
    }

    /// Returns the keys that start with `prefix` with their version chains,
    /// sorted by key.
    pub fn iter_prefix(&self, prefix: &[u8]) -> (entries: Vec<(Vec<u8>, VersionedValue)>)
        requires
            self.inv(),
        ensures
            lists(entries@, self@, |key: Seq<u8>| prefix@.is_prefix_of(key)),
    {
        let all = self.iter_all();
        let ghost listed = all@;
        let total: usize = all.len();
        let ghost keep = |key: Seq<u8>| prefix@.is_prefix_of(key);
        let mut entries: Vec<(Vec<u8>, VersionedValue)> = Vec::new();
        let mut n: usize = 0;
        for entry in iter: all
            invariant
                iter.seq() == listed,
                n == iter.index(),
                total == listed.len(),
                lists(listed, self@, |key: Seq<u8>| true),
                keep == (|key: Seq<u8>| prefix@.is_prefix_of(key)),
                forall|i: int, j: int|
                    #![trigger entries@[i], entries@[j]]
                    0 <= i < j < entries@.len() ==> lex_lt(entries@[i].0@, entries@[j].0@),
                forall|i: int, j: int|
                    #![trigger entries@[i], listed[j]]
                    0 <= i < entries@.len() && n <= j < listed.len() ==> lex_lt(
                        entries@[i].0@,
                        listed[j].0@,
                    ),
                forall|i: int|
                    0 <= i < entries@.len() ==> {
                        &&& self@.contains_key((#[trigger] entries@[i]).0@)
                        &&& self@[entries@[i].0@] == entries@[i].1.chain()
                        &&& keep(entries@[i].0@)
                    },
                forall|j: int|
                    0 <= j < n && keep((#[trigger] listed[j]).0@) ==> exists|i: int|
                        0 <= i < entries@.len() && (#[trigger] entries@[i]).0@ == listed[j].0@,
        {
            let ghost before = entries@;
            assert(entry == listed[n as int]);
            if starts_with(entry.0.as_slice(), prefix) {
                entries.push(entry);
                proof {
                    assert(entries@[before.len() as int].0@ == listed[n as int].0@);
                    assert forall|j: int| 0 <= j < n && keep((#[trigger] listed[j]).0@) implies exists|
                        i: int,
                    |
                        0 <= i < entries@.len() && (#[trigger] entries@[i]).0@ == listed[j].0@ by {
                        let i = choose|i: int|
                            0 <= i < before.len() && (#[trigger] before[i]).0@ == listed[j].0@;
                        assert(entries@[i].0@ == listed[j].0@);
                    }
                }
            }
            n = n + 1;
        }
        proof {
            assert forall|key: Seq<u8>| #[trigger]
                self@.contains_key(key) && keep(key) implies exists|i: int|
                0 <= i < entries@.len() && (#[trigger] entries@[i]).0@ == key by {
                let j = choose|j: int| 0 <= j < listed.len() && (#[trigger] listed[j]).0@ == key;
                assert(keep(listed[j].0@));
            }
        }
        entries
    }
}

proof fn lemma_sorted_listing(
    unsorted: Seq<(Vec<u8>, VersionedValue)>,
    sorted: Seq<(Vec<u8>, VersionedValue)>,
    chains: Map<Seq<u8>, Seq<Version>>,
)
    requires
        is_sorted(sorted),
        keys_distinct(sorted, |e: (Vec<u8>, VersionedValue)| e.0@),
        forall|x: (Vec<u8>, VersionedValue)| unsorted.contains(x) <==> sorted.contains(x),
        forall|i: int|
            0 <= i < unsorted.len() ==> {
                &&& chains.contains_key((#[trigger] unsorted[i]).0@)
                &&& chains[unsorted[i].0@] == unsorted[i].1.chain()
            },
        forall|key: Seq<u8>| #[trigger]
            chains.contains_key(key) ==> exists|i: int|
                0 <= i < unsorted.len() && (#[trigger] unsorted[i]).0@ == key,
    ensures
        lists(sorted, chains, |key: Seq<u8>| true),
{
    let key_of = |e: (Vec<u8>, VersionedValue)| e.0@;
    assert forall|i: int, j: int|
        #![trigger sorted[i], sorted[j]]
        0 <= i < j < sorted.len() implies lex_lt(sorted[i].0@, sorted[j].0@) by {
        assert(!sorted[j].ranks_before(&sorted[i]));
        assert(key_of(sorted[i]) != key_of(sorted[j]));
        lemma_lex_total(sorted[i].0@, sorted[j].0@);
    }
    assert forall|i: int| 0 <= i < sorted.len() implies {
        &&& chains.contains_key((#[trigger] sorted[i]).0@)
        &&& chains[sorted[i].0@] == sorted[i].1.chain()
    } by {
        assert(sorted.contains(sorted[i]));
        assert(unsorted.contains(sorted[i]));
        let p = choose|p: int| 0 <= p < unsorted.len() && unsorted[p] == sorted[i];
        assert(chains.contains_key(unsorted[p].0@));
    }
    assert forall|key: Seq<u8>| #[trigger] chains.contains_key(key) implies exists|i: int|
        0 <= i < sorted.len() && (#[trigger] sorted[i]).0@ == key by {
        let p = choose|p: int| 0 <= p < unsorted.len() && (#[trigger] unsorted[p]).0@ == key;
        assert(unsorted.contains(unsorted[p]));
        assert(sorted.contains(unsorted[p]));
        let i = choose|i: int| 0 <= i < sorted.len() && sorted[i] == unsorted[p];
        assert(sorted[i].0@ == key);
    }
}

} // verus!
