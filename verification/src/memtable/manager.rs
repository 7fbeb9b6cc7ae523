//! The active memtable and the sealed ones that wait to be flushed.

use vstd::prelude::*;

use super::versioned_value::{lemma_visible_place, read_view, value_view, visible, Version};
use super::{
    entry_size, latest, latest_at, max_permits, put_version, Memtable,
    DEFAULT_BACK_PRESSURE_BYTES, DEFAULT_SEAL_THRESHOLD,
};

verus! {

/// The latest value of a key in the newest of some memtables that knows it; the
/// newest memtable is the last.
pub open spec fn newest(
    tables: Seq<Map<Seq<u8>, Seq<Version>>>,
    key: Seq<u8>,
) -> Option<Option<Seq<u8>>>
    decreases tables.len(),
{
    if tables.len() == 0 {
        None
    } else {
        match latest(tables.last(), key) {
            Some(value) => Some(value),
            None => newest(tables.drop_last(), key),
        }
    }
}

/// The value of a key that is visible at `read_ts`, in the newest of some
/// memtables that has a visible version of it; the newest memtable is the last.
pub open spec fn newest_at(
    tables: Seq<Map<Seq<u8>, Seq<Version>>>,
    key: Seq<u8>,
    read_ts: u64,
) -> Option<Option<Seq<u8>>>
    decreases tables.len(),
{
    if tables.len() == 0 {
        None
    } else {
        match latest_at(tables.last(), key, read_ts) {
            Some(value) => Some(value),
            None => newest_at(tables.drop_last(), key, read_ts),
        }
    }
}

/// An empty memtable on top changes no read.
pub proof fn lemma_empty_table_on_top(
    tables: Seq<Map<Seq<u8>, Seq<Version>>>,
    key: Seq<u8>,
    read_ts: u64,
)
    ensures
        newest(tables.push(Map::<Seq<u8>, Seq<Version>>::empty()), key) == newest(tables, key),
        newest_at(tables.push(Map::<Seq<u8>, Seq<Version>>::empty()), key, read_ts) == newest_at(
            tables,
            key,
            read_ts,
        ),
{
    assert(tables.push(Map::<Seq<u8>, Seq<Version>>::empty()).drop_last() =~= tables);
}

/// A write is what the next read of its key gives, and no other read changes.
pub proof fn lemma_put_on_top(
    tables: Seq<Map<Seq<u8>, Seq<Version>>>,
    key: Seq<u8>,
    version: Version,
    other: Seq<u8>,
)
    requires
        tables.len() > 0,
    ensures
        newest(tables.drop_last().push(put_version(tables.last(), key, version)), key) == Some(
            version.value,
        ),
        other != key ==> newest(
            tables.drop_last().push(put_version(tables.last(), key, version)),
            other,
        ) == newest(tables, other),
{
    let after = tables.drop_last().push(put_version(tables.last(), key, version));
    assert(after.drop_last() =~= tables.drop_last());
}

/// A snapshot sees a write exactly if it is not older than the write. Older snapshots stay
/// as they were, with what was written before, and so do the reads of other keys.
pub proof fn lemma_put_then_snapshot(
    tables: Seq<Map<Seq<u8>, Seq<Version>>>,
    key: Seq<u8>,
    version: Version,
    other: Seq<u8>,
    read_ts: u64,
)
    requires
        tables.len() > 0,
    ensures
        ({
            let after = tables.drop_last().push(put_version(tables.last(), key, version));
            &&& version.timestamp <= read_ts ==> newest_at(after, key, read_ts) == Some(
                version.value,
            )
            &&& version.timestamp > read_ts ==> newest_at(after, key, read_ts) == newest_at(
                tables,
                key,
                read_ts,
            )
            &&& other != key ==> newest_at(after, other, read_ts) == newest_at(
                tables,
                other,
                read_ts,
            )
        }),
{
    let top = tables.last();
    let after = tables.drop_last().push(put_version(top, key, version));
    assert(after.drop_last() =~= tables.drop_last());
    if version.timestamp > read_ts {
        if top.contains_key(key) {
            assert((seq![version] + top[key]).skip(1) =~= top[key]);
        } else {
            assert(seq![version].skip(1) =~= Seq::<Version>::empty());
            assert(visible(Seq::<Version>::empty(), read_ts) is None);
        }
    }
}

/// Whether memtable `t` has a version of a key at place `i` of its chain.
pub open spec fn has_version(
    tables: Seq<Map<Seq<u8>, Seq<Version>>>,
    key: Seq<u8>,
    t: int,
    i: int,
) -> bool {
    0 <= t < tables.len() && tables[t].contains_key(key) && 0 <= i < tables[t][key].len()
}

/// Whether the versions of a key were written in the order of time: of any two, the one
/// that was written later, to a newer memtable or further up in its chain, is not older.
pub open spec fn in_time_order(tables: Seq<Map<Seq<u8>, Seq<Version>>>, key: Seq<u8>) -> bool {
    forall|s: int, j: int, t: int, i: int|
        #![trigger has_version(tables, key, s, j), has_version(tables, key, t, i)]
        has_version(tables, key, s, j) && has_version(tables, key, t, i) && (s < t || (s == t && j
            > i)) ==> tables[s][key][j].timestamp <= tables[t][key][i].timestamp
}

/// A snapshot read across all memtables: it gives the value of a version of the key, not
/// newer than the snapshot, and no other version of it in any memtable that the snapshot
/// sees is newer, or as new and written later. It gives nothing only if the snapshot sees
/// no version in any memtable.
pub proof fn lemma_snapshot_read(
    tables: Seq<Map<Seq<u8>, Seq<Version>>>,
    key: Seq<u8>,
    read_ts: u64,
)
    requires
        in_time_order(tables, key),
    ensures
        match newest_at(tables, key, read_ts) {
            Some(value) => exists|t: int, i: int|
                #![trigger has_version(tables, key, t, i)]
                {
                    &&& has_version(tables, key, t, i)
                    &&& tables[t][key][i].value == value
                    &&& tables[t][key][i].timestamp <= read_ts
                    &&& forall|s: int, j: int|
                        #![trigger has_version(tables, key, s, j)]
                        has_version(tables, key, s, j) && tables[s][key][j].timestamp <= read_ts
                            ==> {
                            ||| tables[s][key][j].timestamp < tables[t][key][i].timestamp
                            ||| tables[s][key][j].timestamp == tables[t][key][i].timestamp && (s
                                < t || (s == t && j >= i))
                        }
                },
            None => forall|t: int, i: int|
                #![trigger has_version(tables, key, t, i)]
                has_version(tables, key, t, i) ==> tables[t][key][i].timestamp > read_ts,
        },
    decreases tables.len(),
{
    if tables.len() > 0 {
        let front = tables.drop_last();
        let top = tables.len() - 1;
        assert forall|t: int, i: int|
            #![trigger has_version(front, key, t, i)]
            #![trigger has_version(tables, key, t, i)]
            has_version(front, key, t, i) == (has_version(tables, key, t, i) && t < top) by {}
        assert(in_time_order(front, key));
        lemma_snapshot_read(front, key, read_ts);
        if tables[top].contains_key(key) {
            let chain = tables[top][key];
            lemma_visible_place(chain, read_ts);
            match visible(chain, read_ts) {
                Some(version) => {
                    let i = choose|i: int|
                        0 <= i < chain.len() && #[trigger] chain[i] == version && forall|j: int|
                            0 <= j < i ==> (#[trigger] chain[j]).timestamp > read_ts;
                    assert(has_version(tables, key, top, i));
                },
                None => {},
            }
        }
        if latest_at(tables[top], key, read_ts) is None {
            match newest_at(front, key, read_ts) {
                Some(value) => {
                    let (t, i) = choose|t: int, i: int|
                        #![trigger has_version(front, key, t, i)]
                        {
                            &&& has_version(front, key, t, i)
                            &&& front[t][key][i].value == value
                            &&& front[t][key][i].timestamp <= read_ts
                            &&& forall|s: int, j: int|
                                #![trigger has_version(front, key, s, j)]
                                has_version(front, key, s, j) && front[s][key][j].timestamp
                                    <= read_ts ==> {
                                    ||| front[s][key][j].timestamp < front[t][key][i].timestamp
                                    ||| front[s][key][j].timestamp == front[t][key][i].timestamp
                                        && (s < t || (s == t && j >= i))
                                }
                        };
                    assert(has_version(tables, key, t, i));
                    assert forall|s: int, j: int|
                        #![trigger has_version(tables, key, s, j)]
                        has_version(tables, key, s, j) && tables[s][key][j].timestamp
                            <= read_ts implies {
                        ||| tables[s][key][j].timestamp < tables[t][key][i].timestamp
                        ||| tables[s][key][j].timestamp == tables[t][key][i].timestamp && (s < t
                            || (s == t && j >= i))
                    } by {
                        if s < top {
                            assert(has_version(front, key, s, j));
                        }
                    }
                },
                None => {
                    assert forall|t: int, i: int|
                        #![trigger has_version(tables, key, t, i)]
                        has_version(tables, key, t, i) implies tables[t][key][i].timestamp
                        > read_ts by {
                        if t < top {
                            assert(has_version(front, key, t, i));
                        }
                    }
                },
            }
        }
    }
}

/// The latest read across all memtables: it gives the value of a version of the key, and no
/// other version of it in any memtable was written later. It gives nothing only if no
/// memtable has a version.
pub proof fn lemma_latest_read(tables: Seq<Map<Seq<u8>, Seq<Version>>>, key: Seq<u8>)
    requires
        forall|t: int|
            0 <= t < tables.len() && (#[trigger] tables[t]).contains_key(key)
                ==> tables[t][key].len() > 0,
    ensures
        match newest(tables, key) {
            Some(value) => exists|t: int, i: int|
                #![trigger has_version(tables, key, t, i)]
                {
                    &&& has_version(tables, key, t, i)
                    &&& tables[t][key][i].value == value
                    &&& forall|s: int, j: int| #[trigger]
                        has_version(tables, key, s, j) ==> s < t || (s == t && j >= i)
                },
            None => forall|t: int, i: int| !#[trigger] has_version(tables, key, t, i),
        },
    decreases tables.len(),
{
    if tables.len() > 0 {
        let front = tables.drop_last();
        let top = tables.len() - 1;
        assert forall|t: int| 0 <= t < front.len() && (#[trigger] front[t]).contains_key(
            key,
        ) implies front[t][key].len() > 0 by {
            assert(tables[t].contains_key(key));
        }
        lemma_latest_read(front, key);
        if tables[top].contains_key(key) {
            assert(has_version(tables, key, top, 0));
        } else {
            match newest(front, key) {
                Some(value) => {
                    let (t, i) = choose|t: int, i: int|
                        #![trigger has_version(front, key, t, i)]
                        {
                            &&& has_version(front, key, t, i)
                            &&& front[t][key][i].value == value
                            &&& forall|s: int, j: int| #[trigger]
                                has_version(front, key, s, j) ==> s < t || (s == t && j >= i)
                        };
                    assert(has_version(tables, key, t, i));
                    assert forall|s: int, j: int| #[trigger]
                        has_version(tables, key, s, j) implies s < t || (s == t && j >= i) by {
                        assert(has_version(front, key, s, j));
                    }
                },
                None => {
                    assert forall|t: int, i: int| !#[trigger] has_version(tables, key, t, i) by {
                        if has_version(tables, key, t, i) {
                            assert(has_version(front, key, t, i));
                        }
                    }
                },
            }
        }
    }
}

/// What a newer memtable answers does not change when the oldest one is flushed and gone.
pub proof fn lemma_oldest_gone(
    tables: Seq<Map<Seq<u8>, Seq<Version>>>,
    key: Seq<u8>,
    read_ts: u64,
)
    requires
        tables.len() > 0,
    ensures
        newest(tables.skip(1), key) is Some ==> newest(tables.skip(1), key) == newest(tables, key),
        newest_at(tables.skip(1), key, read_ts) is Some ==> newest_at(
            tables.skip(1),
            key,
            read_ts,
        ) == newest_at(tables, key, read_ts),
    decreases tables.len(),
{
    if tables.len() > 1 {
        lemma_oldest_gone(tables.drop_last(), key, read_ts);
        assert(tables.skip(1).drop_last() =~= tables.drop_last().skip(1));
        assert(tables.skip(1).last() == tables.last());
    }
}

/// What sealed memtables hold.
pub open spec fn table_views(tables: Seq<Memtable>) -> Seq<Map<Seq<u8>, Seq<Version>>> {
    Seq::new(tables.len(), |i: int| tables[i]@)
}

/// Total size of memtables, modulo 2 to the power 64.
pub open spec fn total_bytes(tables: Seq<Memtable>) -> int
    decreases tables.len(),
{
    if tables.len() == 0 {
        0
    } else {
        (total_bytes(tables.drop_last()) + tables.last().bytes()) % 0x1_0000_0000_0000_0000
    }
}

/// The part of a size that the back-pressure budget counts.
pub open spec fn counted(size: u64) -> int {
    if size > u32::MAX {
        u32::MAX as int
    } else {
        size as int
    }
}

/// What a memtable of a size takes out of a budget when it is sealed: nothing if the
/// budget does not hold so much.
pub open spec fn takes(size: u64, budget: usize) -> int {
    if counted(size) <= budget {
        counted(size)
    } else {
        0
    }
}

/// A sealed memtable takes its size out of the budget, if the budget holds it; sizes beyond
/// 32 bits count as the greatest such number. It never takes more than there is.
pub proof fn lemma_sealing_takes_size(size: u64, budget: usize)
    ensures
        0 <= takes(size, budget) <= budget,
        size <= budget && size <= u32::MAX ==> takes(size, budget) == size,
        budget < size <= u32::MAX ==> takes(size, budget) == 0,
        size > u32::MAX && budget >= u32::MAX ==> takes(size, budget) == u32::MAX,
{
}

/// A sum.
pub open spec fn sum_of(amounts: Seq<u32>) -> nat
    decreases amounts.len(),
{
    if amounts.len() == 0 {
        0
    } else {
        amounts[0] as nat + sum_of(amounts.skip(1))
    }
}

proof fn lemma_sum_push(amounts: Seq<u32>, amount: u32)
    ensures
        sum_of(amounts.push(amount)) == sum_of(amounts) + amount,
    decreases amounts.len(),
{
    let more = amounts.push(amount);
    if amounts.len() == 0 {
        assert(more.skip(1) =~= Seq::<u32>::empty());
        assert(sum_of(more.skip(1)) == 0);
    } else {
        assert(more.skip(1) =~= amounts.skip(1).push(amount));
        assert(more[0] == amounts[0]);
        lemma_sum_push(amounts.skip(1), amount);
    }
}

/// The active memtable, the sealed ones in the order of sealing with what each took out of
/// the back-pressure budget, and the budget that is left.
pub struct MemtableManager {
    active: Memtable,
    sealed_queue: Vec<Memtable>,
    taken_by: Vec<u32>,
    back_pressure: usize,
    back_pressure_bytes: u64,
    seal_threshold: u64,
}

impl MemtableManager {
    /// All memtables are well formed; what is left of the budget and what the sealed ones
    /// took are its limit.
    pub closed spec fn inv(&self) -> bool {
        &&& self.active.inv()
        &&& forall|i: int|
            0 <= i < self.sealed_queue@.len() ==> (#[trigger] self.sealed_queue@[i]).inv()
        &&& self.taken_by@.len() == self.sealed_queue@.len()
        &&& self.back_pressure + sum_of(self.taken_by@) == self.back_pressure_bytes
        &&& self.back_pressure_bytes <= max_permits()
    }

    /// What each sealed memtable took out of the budget.
    pub closed spec fn taken(&self) -> Seq<u32> {
        self.taken_by@
    }

    /// The memtable that takes writes.
    pub closed spec fn active_table(&self) -> Memtable {
        self.active
    }

    /// The sealed memtables, the oldest first.
    pub closed spec fn sealed_tables(&self) -> Seq<Memtable> {
        self.sealed_queue@
    }

    /// What all memtables hold, the newest last.
    pub open spec fn tables(&self) -> Seq<Map<Seq<u8>, Seq<Version>>> {
        table_views(self.sealed_tables()).push(self.active_table()@)
    }

    /// The back-pressure budget that is left.
    pub closed spec fn available(&self) -> usize {
        self.back_pressure
    }

    /// The configured limits: back-pressure bytes and seal threshold.
    pub closed spec fn limits(&self) -> (u64, u64) {
        (self.back_pressure_bytes, self.seal_threshold)
    }

    /// What is left of the budget and what the sealed memtables took are its limit.
    pub proof fn lemma_budget(&self)
        requires
            self.inv(),
        ensures
            self.taken().len() == self.sealed_tables().len(),
            self.available() + sum_of(self.taken()) == self.limits().0,
            self.available() <= self.limits().0 <= max_permits(),
    {
    }

    /// Creates a manager with the given thresholds.
    pub fn new(seal_threshold: u64, back_pressure_bytes: u64) -> (manager: Self)
        requires
            back_pressure_bytes <= max_permits(),
        ensures
            manager.inv(),
            manager.active_table()@ == Map::<Seq<u8>, Seq<Version>>::empty(),
            manager.active_table().threshold() == seal_threshold,
            manager.active_table().bytes() == 0,
            !manager.active_table().closed_for_writes(),
            manager.sealed_tables().len() == 0,
            manager.taken().len() == 0,
            manager.available() == back_pressure_bytes,
            manager.limits() == (back_pressure_bytes, seal_threshold),
    {
        MemtableManager {
            active: Memtable::new(seal_threshold),
            sealed_queue: Vec::new(),
            taken_by: Vec::new(),
            back_pressure: back_pressure_bytes as usize,
            back_pressure_bytes,
            seal_threshold,
        }
    }

    /// Creates a manager with the default thresholds: seal at 64 MB, 256 MB
    /// of back-pressure.
    pub fn with_defaults() -> (manager: Self)
        ensures
            manager.inv(),
            manager.active_table()@ == Map::<Seq<u8>, Seq<Version>>::empty(),
            manager.active_table().threshold() == DEFAULT_SEAL_THRESHOLD,
            manager.active_table().bytes() == 0,
            !manager.active_table().closed_for_writes(),
            manager.sealed_tables().len() == 0,
            manager.taken().len() == 0,
            manager.available() == DEFAULT_BACK_PRESSURE_BYTES,
            manager.limits() == (DEFAULT_BACK_PRESSURE_BYTES, DEFAULT_SEAL_THRESHOLD),
    {
        MemtableManager::new(DEFAULT_SEAL_THRESHOLD, DEFAULT_BACK_PRESSURE_BYTES)
    }

    /// Returns the active memtable.
    pub fn active(&self) -> (active: &Memtable)
        requires
            self.inv(),
        ensures
            *active == self.active_table(),
            active.inv(),
    {
        &self.active
    }

    /// Returns the active memtable, to write to it directly.
    pub fn active_mut(&mut self) -> (active: &mut Memtable)
        requires
            old(self).inv(),
        ensures
            *active == old(self).active_table(),
            active.inv(),
            final(active).inv() ==> final(self).inv(),
            final(self).active_table() == *final(active),
            final(self).sealed_tables() == old(self).sealed_tables(),
            final(self).taken() == old(self).taken(),
            final(self).available() == old(self).available(),
            final(self).limits() == old(self).limits(),
    {
        &mut self.active
    }

    /// Whether the budget has room for a write: a writer waits while it has
    /// not. A write's size is counted in 32 bits.
    pub fn admits(&self, key: &[u8], value: &Option<Vec<u8>>) -> (admitted: bool)
        requires
            entry_size(key@, value_view(*value)) <= u64::MAX,
        ensures
            admitted == (self.available() >= (entry_size(key@, value_view(*value)) as u32)),
    {
        let value_len: u64 = match value {
            Some(bytes) => bytes.len() as u64,
            None => 0,
        };
        let size: u64 = key.len() as u64 + value_len + 16;
        self.back_pressure as u64 >= (#[verifier::truncate] (size as u32)) as u64
    }

    /// Writes to the active memtable, and seals it if it has reached its
    /// threshold.
    pub fn put(&mut self, key: Vec<u8>, timestamp: u64, value: Option<Vec<u8>>)
        requires
            old(self).inv(),
        ensures
            final(self).inv(),
            final(self).limits() == old(self).limits(),
            old(self).active_table().closed_for_writes() ==> *final(self) == *old(self),
            !old(self).active_table().closed_for_writes() ==> ({
                let version = Version { timestamp, value: value_view(value) };
                let table = put_version(old(self).active_table()@, key@, version);
                let bytes = ((old(self).active_table().bytes() + entry_size(
                    key@,
                    value_view(value),
                )) % 0x1_0000_0000_0000_0000) as u64;
                if bytes >= old(self).active_table().threshold() {
                    &&& final(self).tables() == old(self).tables().drop_last().push(table).push(
                        Map::<Seq<u8>, Seq<Version>>::empty(),
                    )
                    &&& final(self).sealed_tables().len() == old(self).sealed_tables().len() + 1
                    &&& final(self).sealed_tables().drop_last() == old(self).sealed_tables()
                    &&& final(self).sealed_tables().last()@ == table
                    &&& final(self).sealed_tables().last().closed_for_writes()
                    &&& final(self).sealed_tables().last().bytes() == bytes
                    &&& final(self).sealed_tables().last().threshold() == old(
                        self,
                    ).active_table().threshold()
                    &&& !final(self).active_table().closed_for_writes()
                    &&& final(self).active_table()@ == Map::<Seq<u8>, Seq<Version>>::empty()
                    &&& final(self).active_table().bytes() == 0
                    &&& final(self).active_table().threshold() == old(self).limits().1
                    &&& final(self).taken() == old(self).taken().push(
                        takes(bytes, old(self).available()) as u32,
                    )
                    &&& final(self).available() == old(self).available() - takes(
                        bytes,
                        old(self).available(),
                    )
                } else {
                    &&& final(self).tables() == old(self).tables().drop_last().push(table)
                    &&& final(self).sealed_tables() == old(self).sealed_tables()
                    &&& !final(self).active_table().closed_for_writes()
                    &&& final(self).active_table()@ == table
                    &&& final(self).active_table().bytes() == bytes
                    &&& final(self).active_table().threshold() == old(
                        self,
                    ).active_table().threshold()
                    &&& final(self).taken() == old(self).taken()
                    &&& final(self).available() == old(self).available()
                }
            }),
    {
        if self.active.is_sealed() {
            return;
        }
        let ghost before = *self;
        let ghost version = Version { timestamp, value: value_view(value) };
        let ghost k = key@;
        let should_seal: bool = self.active.put(key, timestamp, value);
        proof {
            assert(self.tables().drop_last() =~= before.tables().drop_last());
            assert(self.tables() =~= before.tables().drop_last().push(
                put_version(before.active@, k, version),
            ));
        }
        if should_seal {
            self.seal_active();
        }
    }

    /// Reads the latest value of a key from the active memtable, then from the
    /// sealed ones, the most recently sealed first.
    pub fn get(&self, key: &[u8]) -> (read: Option<Option<Vec<u8>>>)
        requires
            self.inv(),
        ensures
            read_view(read) == newest(self.tables(), key@),
    {
        let ghost all = self.tables();
        assert(all.drop_last() =~= table_views(self.sealed_queue@));
        if let Some(value) = self.active.get(key) {
            return Some(value);
        }
        let mut i: usize = self.sealed_queue.len();
        assert(table_views(self.sealed_queue@).take(i as int) =~= table_views(self.sealed_queue@));
        while i > 0
            invariant
                self.inv(),
                all == self.tables(),
                i <= self.sealed_queue@.len(),
                newest(all, key@) == newest(table_views(self.sealed_queue@).take(i as int), key@),
            decreases i,
        {
            let ghost part = table_views(self.sealed_queue@).take(i as int);
            assert(part.drop_last() =~= table_views(self.sealed_queue@).take(i - 1));
            i = i - 1;
            if let Some(value) = self.sealed_queue[i].get(key) {
                return Some(value);
            }
        }
        None
    }

    /// Reads the value of a key that is visible at a timestamp.
    pub fn get_at(&self, key: &[u8], read_ts: u64) -> (read: Option<Option<Vec<u8>>>)
        requires
            self.inv(),
        ensures
            read_view(read) == newest_at(self.tables(), key@, read_ts),
    {
        let ghost all = self.tables();
        assert(all.drop_last() =~= table_views(self.sealed_queue@));
        if let Some(value) = self.active.get_at(key, read_ts) {
            return Some(value);
        }
        let mut i: usize = self.sealed_queue.len();
        assert(table_views(self.sealed_queue@).take(i as int) =~= table_views(self.sealed_queue@));
        while i > 0
            invariant
                self.inv(),
                all == self.tables(),
                i <= self.sealed_queue@.len(),
                newest_at(all, key@, read_ts) == newest_at(
                    table_views(self.sealed_queue@).take(i as int),
                    key@,
                    read_ts,
                ),
            decreases i,
        {
            let ghost part = table_views(self.sealed_queue@).take(i as int);
            assert(part.drop_last() =~= table_views(self.sealed_queue@).take(i - 1));
            i = i - 1;
            if let Some(value) = self.sealed_queue[i].get_at(key, read_ts) {
                return Some(value);
            }
        }
        None
    }

    /// Seals the active memtable, queues it for flush, and puts an empty one in
    /// its place. Its size, counted in 32 bits, is taken out of the budget if
    /// the budget holds it. An active memtable that is sealed already is left
    /// as it is.
    pub fn seal_active(&mut self)
        requires
            old(self).inv(),
        ensures
            final(self).inv(),
            final(self).limits() == old(self).limits(),
            old(self).active_table().closed_for_writes() ==> *final(self) == *old(self),
            !old(self).active_table().closed_for_writes() ==> {
                &&& final(self).tables() == old(self).tables().push(
                    Map::<Seq<u8>, Seq<Version>>::empty(),
                )
                &&& final(self).sealed_tables().len() == old(self).sealed_tables().len() + 1
                &&& final(self).sealed_tables().drop_last() == old(self).sealed_tables()
                &&& final(self).sealed_tables().last().closed_for_writes()
                &&& final(self).sealed_tables().last()@ == old(self).active_table()@
                &&& final(self).sealed_tables().last().bytes() == old(self).active_table().bytes()
                &&& final(self).sealed_tables().last().threshold() == old(
                    self,
                ).active_table().threshold()
                &&& !final(self).active_table().closed_for_writes()
                &&& final(self).active_table()@ == Map::<Seq<u8>, Seq<Version>>::empty()
                &&& final(self).active_table().bytes() == 0
                &&& final(self).active_table().threshold() == old(self).limits().1
                &&& final(self).taken() == old(self).taken().push(
                    takes(old(self).active_table().bytes(), old(self).available()) as u32,
                )
                &&& final(self).available() == old(self).available() - takes(
                    old(self).active_table().bytes(),
                    old(self).available(),
                )
            },
    {
        if self.active.is_sealed() {
            return;
        }
        let ghost before = *self;
        let mut sealed = Memtable::new(self.seal_threshold);
        std::mem::swap(&mut self.active, &mut sealed);
        sealed.seal();
        let size: u64 = sealed.size();
        let consume: u32 = if size > u32::MAX as u64 {
            u32::MAX
        } else {
            size as u32
        };
        let taken: u32 = if consume as u64 <= self.back_pressure as u64 {
            consume
        } else {
            0
        };
        self.back_pressure = self.back_pressure - taken as usize;
        self.sealed_queue.push(sealed);
        self.taken_by.push(taken);
        proof {
            lemma_sum_push(before.taken_by@, taken);
            assert(self.sealed_queue@.drop_last() =~= before.sealed_queue@);
            assert(self.tables() =~= before.tables().push(Map::<Seq<u8>, Seq<Version>>::empty()));
        }
    }

    /// Called when a sealed memtable has been flushed: removes the oldest one
    /// from the queue and gives back to the budget what it took, whatever size
    /// the caller counted.
    pub fn on_flush_complete(&mut self, _flushed_size: u64)
        requires
            old(self).inv(),
        ensures
            final(self).inv(),
            final(self).limits() == old(self).limits(),
            final(self).active_table() == old(self).active_table(),
            old(self).sealed_tables().len() == 0 ==> *final(self) == *old(self),
            old(self).sealed_tables().len() > 0 ==> {
                &&& final(self).sealed_tables() == old(self).sealed_tables().skip(1)
                &&& final(self).taken() == old(self).taken().skip(1)
                &&& final(self).available() == old(self).available() + old(self).taken()[0]
            },
    {
        if self.sealed_queue.len() > 0 {
            let ghost before = *self;
            self.sealed_queue.remove(0);
            let taken: u32 = self.taken_by.remove(0);
            proof {
                assert(self.sealed_queue@ =~= before.sealed_queue@.skip(1));
                assert(self.taken_by@ =~= before.taken_by@.skip(1));
            }
            self.back_pressure = self.back_pressure + taken as usize;
        }
    }

    /// Returns the number of sealed memtables awaiting flush.
    pub fn sealed_count(&self) -> (count: usize)
        ensures
            count == self.sealed_tables().len(),
    {
        self.sealed_queue.len()
    }

    /// Returns the total size of all sealed memtables in bytes, modulo 2 to
    /// the power 64.
    pub fn sealed_total_bytes(&self) -> (total: u64)
        ensures
            total == total_bytes(self.sealed_tables()),
    {
        let mut total: u64 = 0;
        let mut i: usize = 0;
        assert(self.sealed_queue@.take(0) =~= Seq::<Memtable>::empty());
        while i < self.sealed_queue.len()
            invariant
                i <= self.sealed_queue@.len(),
                total == total_bytes(self.sealed_queue@.take(i as int)),
            decreases self.sealed_queue@.len() - i,
        {
            assert(self.sealed_queue@.take(i + 1).drop_last() =~= self.sealed_queue@.take(i as int));
            total = total.wrapping_add(self.sealed_queue[i].size());
            i = i + 1;
        }
        assert(self.sealed_queue@.take(i as int) =~= self.sealed_queue@);
        total
    }

    /// Returns the back-pressure budget that is left.
    pub fn available_back_pressure(&self) -> (available: usize)
        ensures
            available == self.available(),
    {
        self.back_pressure
    }

    /// Returns the configured back-pressure limit in bytes.
    pub fn back_pressure_bytes(&self) -> (bytes: u64)
        ensures
            bytes == self.limits().0,
    {
        self.back_pressure_bytes
    }

    /// Returns the seal threshold in bytes.
    pub fn seal_threshold(&self) -> (threshold: u64)
        ensures
            threshold == self.limits().1,
    {
        self.seal_threshold
    }

    /// Returns the next sealed memtable to flush, without removing it.
    pub fn peek_sealed(&self) -> (sealed: Option<&Memtable>)
        requires
            self.inv(),
        ensures
            match sealed {
                Some(table) => self.sealed_tables().len() > 0 && *table == self.sealed_tables()[0]
                    && table.inv(),
                None => self.sealed_tables().len() == 0,
            },
    {
        if self.sealed_queue.len() > 0 {
            Some(&self.sealed_queue[0])
        } else {
            None
        }
    }
}

} // verus!
