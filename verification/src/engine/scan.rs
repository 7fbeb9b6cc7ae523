//! Scans over the SST files and the memtable.
//!
//! The caller hands in the contents of the registered files, in the order of
//! the registry; `None` stands for a file that could not be read, and is
//! passed over.

use vstd::prelude::*;
use vstd::slice::slice_to_vec;
use xxhash_rust::xxh3::xxh3_64;

use crate::bytes::{lemma_lex_irreflexive, lex_lt, put_bytes};
use crate::column::Timestamp;
use crate::engine::newest::{
    lemma_pick_append, lemma_pick_wins, lemma_winner_picked, newest_per_key, pick, wins,
};
use crate::engine::read::{
    collect_file_rows, file_read, file_rows, ColumnsRead, FilterView, RowFilter,
};
use crate::engine::registry::{SstEntry, SstRegistry};
use crate::hash::xxh3_64_of;
use crate::memtable::versioned_value::{value_view, visible, Version, VersionedValue};
use crate::memtable::{lists, put_version, Memtable};
use crate::row::{stamps, Candidate, Row, RowView, Stamped};

verus! {

/// The contents of the file at a place.
pub open spec fn content_of(contents: Seq<Option<Vec<u8>>>, i: int) -> Option<Seq<u8>> {
    if 0 <= i < contents.len() {
        value_view(contents[i])
    } else {
        None
    }
}

/// The rows asked for in the first `n` files.
pub open spec fn stored_rows(
    files: Seq<SstEntry>,
    contents: Seq<Option<Vec<u8>>>,
    filter: FilterView,
    reads: Seq<Seq<ColumnsRead>>,
    n: int,
) -> Seq<RowView>
    decreases n,
{
    if n <= 0 {
        Seq::<RowView>::empty()
    } else {
        let before = stored_rows(files, contents, filter, reads, n - 1);
        match content_of(contents, n - 1) {
            Some(data) => before + file_rows(data, files[n - 1]@.blocks, filter, reads[n - 1]),
            None => before,
        }
    }
}

/// Whether reading the blocks of the files can have come to this.
pub open spec fn files_read(
    files: Seq<SstEntry>,
    contents: Seq<Option<Vec<u8>>>,
    filter: FilterView,
    reads: Seq<Seq<ColumnsRead>>,
) -> bool {
    &&& reads.len() == files.len()
    &&& forall|i: int|
        0 <= i < files.len() ==> (content_of(contents, i) matches Some(data) ==> file_read(
            data,
            (#[trigger] files[i])@.blocks,
            filter,
            reads[i],
        ))
}

proof fn lemma_stored_rows_local(
    files: Seq<SstEntry>,
    contents: Seq<Option<Vec<u8>>>,
    filter: FilterView,
    a: Seq<Seq<ColumnsRead>>,
    b: Seq<Seq<ColumnsRead>>,
    n: int,
)
    requires
        forall|i: int| 0 <= i < n ==> a[i] == b[i],
    ensures
        stored_rows(files, contents, filter, a, n) == stored_rows(files, contents, filter, b, n),
    decreases n,
{
    if n > 0 {
        lemma_stored_rows_local(files, contents, filter, a, b, n - 1);
    }
}

/// Collects the rows of the registered files that are asked for.
pub fn collect_rows(
    registry: &SstRegistry,
    contents: &[Option<Vec<u8>>],
    filter: &RowFilter,
) -> (result: (Vec<Row>, Ghost<Seq<Seq<ColumnsRead>>>))
    ensures
        files_read(registry.list(), contents@, filter@, result.1@),
        stamps(result.0@) == stored_rows(
            registry.list(),
            contents@,
            filter@,
            result.1@,
            registry.list().len() as int,
        ),
{
    let ghost files = registry.list();
    let ghost mut reads = Seq::<Seq<ColumnsRead>>::empty();
    let mut rows: Vec<Row> = Vec::new();
    let n: usize = registry.len();
    let mut i: usize = 0;
    assert(stamps(rows@) =~= Seq::<RowView>::empty());
    while i < n
        invariant
            i <= n,
            n == files.len(),
            files == registry.list(),
            reads.len() == i,
            forall|j: int|
                0 <= j < i ==> (content_of(contents@, j) matches Some(data) ==> file_read(
                    data,
                    (#[trigger] files[j])@.blocks,
                    filter@,
                    reads[j],
                )),
            stamps(rows@) == stored_rows(files, contents@, filter@, reads, i as int),
        decreases n - i,
    {
        let entry = registry.entry(i);
        let ghost before = reads;
        let ghost mut outcome = Seq::<ColumnsRead>::empty();
        if i < contents.len() {
            match &contents[i] {
                Some(data) => {
                    let Ghost(file_reads) = collect_file_rows(
                        data.as_slice(),
                        &entry.block_index,
                        filter,
                        &mut rows,
                    );
                    proof {
                        outcome = file_reads;
                    }
                },
                None => {},
            }
        }
        proof {
            reads = reads.push(outcome);
            lemma_stored_rows_local(files, contents@, filter@, before, reads, i as int);
        }
        i = i + 1;
    }
    (rows, Ghost(reads))
}

// Versions in the memtable

proof fn lemma_distinct_picked<V>(versions: Seq<Stamped<V>>, i: int)
    requires
        forall|a: int, b: int|
            #![trigger versions[a], versions[b]]
            0 <= a < b < versions.len() ==> lex_lt(versions[a].key, versions[b].key),
        0 <= i < versions.len(),
    ensures
        pick(versions, versions[i].key) == Some(versions[i]),
{
    assert forall|j: int|
        0 <= j < versions.len() && j != i && (#[trigger] versions[j]).key
            == versions[i].key implies false by {
        lemma_lex_irreflexive(versions[i].key);
        if j < i {
            assert(lex_lt(versions[j].key, versions[i].key));
        } else {
            assert(lex_lt(versions[i].key, versions[j].key));
        }
    }
    assert(wins(versions, i));
    lemma_winner_picked(versions, i);
}

/// The latest version of a key in the memtable, as one that overrides every
/// stored one.
pub open spec fn memtable_latest(
    chains: Map<Seq<u8>, Seq<Version>>,
    prefix: Option<Seq<u8>>,
    key: Seq<u8>,
) -> Option<RowView> {
    if chains.contains_key(key) && (prefix matches Some(p) ==> p.is_prefix_of(key)) {
        Some(Stamped { key, timestamp: u64::MAX, value: chains[key][0].value })
    } else {
        None
    }
}

/// Turns memtable entries into versions that override every stored one.
fn overriding(entries: Vec<(Vec<u8>, VersionedValue)>, rows: &mut Vec<Row>)
    ensures
        stamps(final(rows)@) == stamps(old(rows)@) + Seq::new(
            entries@.len(),
            |i: int|
                Stamped {
                    key: entries@[i].0@,
                    timestamp: u64::MAX,
                    value: value_view(entries@[i].1.value),
                },
        ),
{
    let ghost start = stamps(rows@);
    let ghost all = entries@;
    let ghost expected = Seq::new(
        all.len(),
        |i: int|
            Stamped {
                key: all[i].0@,
                timestamp: u64::MAX,
                value: value_view(all[i].1.value),
            },
    );
    assert(stamps(rows@) =~= start + expected.take(0));
    for entry in iter: entries
        invariant
            iter.seq() == all,
            expected.len() == all.len(),
            forall|i: int|
                0 <= i < all.len() ==> #[trigger] expected[i] == (Stamped {
                    key: all[i].0@,
                    timestamp: u64::MAX,
                    value: value_view(all[i].1.value),
                }),
            stamps(rows@) == start + expected.take(iter.index()),
    {
        let ghost i = iter.index();
        let ghost before = rows@;
        let (key, versioned) = entry;
        rows.push(Candidate { key, timestamp: u64::MAX, value: versioned.value });
        assert(stamps(rows@) =~= stamps(before).push(expected[i]));
        assert(stamps(rows@) =~= start + expected.take(i + 1));
    }
    assert(expected.take(all.len() as int) =~= expected);
}

/// Of a stored version and one that was read later, the one that counts.
pub open spec fn newer(stored: Option<RowView>, later: Option<RowView>) -> Option<RowView> {
    match (stored, later) {
        (Some(x), Some(y)) => if y.timestamp >= x.timestamp {
            Some(y)
        } else {
            Some(x)
        },
        (Some(x), None) => Some(x),
        (None, y) => y,
    }
}

/// The value of a version, if it is one.
pub open spec fn live(version: Option<RowView>) -> Option<Seq<u8>> {
    match version {
        Some(row) => row.value,
        None => None,
    }
}

// Scan of the latest versions

/// The value of a key: that of the memtable, or else that of the newest stored
/// version.
pub open spec fn latest_value(
    stored: Seq<RowView>,
    chains: Map<Seq<u8>, Seq<Version>>,
    prefix: Option<Seq<u8>>,
    key: Seq<u8>,
) -> Option<Seq<u8>> {
    match memtable_latest(chains, prefix, key) {
        Some(row) => row.value,
        None => live(pick(stored, key)),
    }
}

/// The rows are exactly those that have a value, in the order of their keys.
pub open spec fn lists_latest(
    result: Seq<(Vec<u8>, Vec<u8>)>,
    stored: Seq<RowView>,
    chains: Map<Seq<u8>, Seq<Version>>,
    prefix: Option<Seq<u8>>,
) -> bool {
    &&& forall|i: int, j: int|
        #![trigger result[i], result[j]]
        0 <= i < j < result.len() ==> lex_lt(result[i].0@, result[j].0@)
    &&& forall|i: int|
        0 <= i < result.len() ==> latest_value(
            stored,
            chains,
            prefix,
            (#[trigger] result[i]).0@,
        ) == Some(result[i].1@)
    &&& forall|key: Seq<u8>| #[trigger]
        latest_value(stored, chains, prefix, key) is Some ==> exists|i: int|
            0 <= i < result.len() && (#[trigger] result[i]).0@ == key
}

/// The versions of the memtable as they override stored ones.
spec fn is_overriding(
    versions: Seq<RowView>,
    chains: Map<Seq<u8>, Seq<Version>>,
    prefix: Option<Seq<u8>>,
) -> bool {
    forall|key: Seq<u8>| #[trigger] pick(versions, key) == memtable_latest(chains, prefix, key)
}

proof fn lemma_overriding(
    entries: Seq<(Vec<u8>, VersionedValue)>,
    versions: Seq<RowView>,
    chains: Map<Seq<u8>, Seq<Version>>,
    prefix: Option<Seq<u8>>,
    keep: spec_fn(Seq<u8>) -> bool,
)
    requires
        lists(entries, chains, keep),
        forall|key: Seq<u8>| #[trigger]
            keep(key) == (prefix matches Some(p) ==> p.is_prefix_of(key)),
        versions == Seq::new(
            entries.len(),
            |i: int|
                Stamped {
                    key: entries[i].0@,
                    timestamp: u64::MAX,
                    value: value_view(entries[i].1.value),
                },
        ),
    ensures
        is_overriding(versions, chains, prefix),
{
    assert forall|a: int, b: int|
        #![trigger versions[a], versions[b]]
        0 <= a < b < versions.len() implies lex_lt(versions[a].key, versions[b].key) by {
        assert(lex_lt(entries[a].0@, entries[b].0@));
    }
    assert forall|key: Seq<u8>| #[trigger] pick(versions, key) == memtable_latest(
        chains,
        prefix,
        key,
    ) by {
        let kept = keep(key);
        if chains.contains_key(key) && kept {
            let i = choose|i: int| 0 <= i < entries.len() && (#[trigger] entries[i]).0@ == key;
            assert(versions[i].key == key);
            lemma_distinct_picked(versions, i);
            assert(chains[key] == entries[i].1.chain());
            assert(entries[i].1.chain()[0].value == value_view(entries[i].1.value));
        } else {
            lemma_pick_wins(versions, key);
            if pick(versions, key) is Some {
                let i = choose|i: int| #[trigger]
                    wins(versions, i) && versions[i].key == key;
                assert(entries[i].0@ == key);
                assert(keep(entries[i].0@));
            }
        }
    }
}

/// The filter of a scan by prefix.
pub open spec fn asked_prefix(key_prefix: Option<&[u8]>) -> FilterView {
    FilterView {
        prefix: match key_prefix {
            Some(prefix) => Some(prefix@),
            None => None,
        },
        read_ts: None,
    }
}

/// Scans all rows, or those whose keys start with a prefix: the latest value
/// of each key that has one, in the order of the keys. Versions in the
/// memtable override those in the files, and of those the newest one counts.
pub fn scan_all_with_prefix(
    registry: &SstRegistry,
    contents: &[Option<Vec<u8>>],
    active: &Memtable,
    key_prefix: Option<&[u8]>,
) -> (result: Vec<(Vec<u8>, Vec<u8>)>)
    requires
        active.inv(),
    ensures
        exists|reads: Seq<Seq<ColumnsRead>>| #[trigger]
            files_read(registry.list(), contents@, asked_prefix(key_prefix), reads)
                && lists_latest(
                result@,
                stored_rows(
                    registry.list(),
                    contents@,
                    asked_prefix(key_prefix),
                    reads,
                    registry.list().len() as int,
                ),
                active@,
                asked_prefix(key_prefix).prefix,
            ),
{
    let prefix: Option<Vec<u8>> = match key_prefix {
        Some(p) => Some(slice_to_vec(p)),
        None => None,
    };
    let ghost prefix_view = value_view(prefix);
    let filter = RowFilter { prefix, read_ts: None };
    let (mut rows, Ghost(reads)) = collect_rows(registry, contents, &filter);
    let ghost stored = stamps(rows@);
    let entries = match key_prefix {
        Some(p) => active.iter_prefix(p),
        None => active.iter_all(),
    };
    let ghost listed = entries@;
    overriding(entries, &mut rows);
    let ghost mem = Seq::new(
        listed.len(),
        |i: int|
            Stamped {
                key: listed[i].0@,
                timestamp: u64::MAX,
                value: value_view(listed[i].1.value),
            },
    );
    proof {
        match key_prefix {
            Some(p) => {
                let keep = |key: Seq<u8>| p@.is_prefix_of(key);
                lemma_overriding(listed, mem, active@, prefix_view, keep);
            },
            None => {
                let keep = |key: Seq<u8>| true;
                lemma_overriding(listed, mem, active@, prefix_view, keep);
            },
        }
    }
    let ghost all = stamps(rows@);
    assert(all == stored + mem);
    let newest = newest_per_key(rows);
    let ghost winners = stamps(newest@);
    proof {
        assert forall|key: Seq<u8>| #[trigger]
            live(pick(all, key)) == latest_value(stored, active@, prefix_view, key) by {
            lemma_pick_append(stored, mem, key);
            assert(pick(mem, key) == memtable_latest(active@, prefix_view, key));
        }
    }
    let rows = live_rows(newest);
    let ghost listed_rows = rows@;
    let result = without_timestamps(rows);
    proof {
        assert forall|i: int| 0 <= i < result@.len() implies latest_value(
            stored,
            active@,
            prefix_view,
            (#[trigger] result@[i]).0@,
        ) == Some(result@[i].1@) by {
            let row = listed_rows[i];
            let version = Stamped { key: row.0@, timestamp: row.2, value: Some(row.1@) };
            assert(holds_value(winners, row.0@, row.1@, row.2));
            let w = choose|w: int| 0 <= w < winners.len() && winners[w] == version;
            assert(pick(all, winners[w].key) == Some(winners[w]));
            assert(live(pick(all, row.0@)) == latest_value(stored, active@, prefix_view, row.0@));
        }
        assert forall|key: Seq<u8>| #[trigger]
            latest_value(stored, active@, prefix_view, key) is Some implies exists|i: int|
            0 <= i < result@.len() && (#[trigger] result@[i]).0@ == key by {
            assert(live(pick(all, key)) == latest_value(stored, active@, prefix_view, key));
            let w = choose|w: int| 0 <= w < winners.len() && (#[trigger] winners[w]).key == key;
            assert(pick(all, winners[w].key) == Some(winners[w]));
            assert(winners[w].value is Some);
            let i = choose|i: int|
                0 <= i < listed_rows.len() && (#[trigger] listed_rows[i]).0@ == key;
            assert(result@[i].0@ == key);
        }
        assert(lists_latest(result@, stored, active@, prefix_view));
        assert(filter@ == asked_prefix(key_prefix));
        assert(files_read(registry.list(), contents@, asked_prefix(key_prefix), reads));
    }
    result
}

/// Whether one of the versions gives a key this value.
spec fn holds_value(
    versions: Seq<RowView>,
    key: Seq<u8>,
    value: Seq<u8>,
    timestamp: u64,
) -> bool {
    versions.contains(Stamped { key, timestamp, value: Some(value) })
}

/// The versions that are not tombstones.
fn live_rows(newest: Vec<Row>) -> (result: Vec<(Vec<u8>, Vec<u8>, Timestamp)>)
    requires
        forall|i: int, j: int|
            #![trigger stamps(newest@)[i], stamps(newest@)[j]]
            0 <= i < j < newest@.len() ==> lex_lt(stamps(newest@)[i].key, stamps(newest@)[j].key),
    ensures
        forall|i: int, j: int|
            #![trigger result@[i], result@[j]]
            0 <= i < j < result@.len() ==> lex_lt(result@[i].0@, result@[j].0@),
        forall|i: int|
            0 <= i < result@.len() ==> holds_value(
                stamps(newest@),
                (#[trigger] result@[i]).0@,
                result@[i].1@,
                result@[i].2,
            ),
        forall|w: int|
            0 <= w < newest@.len() && (#[trigger] stamps(newest@)[w]).value is Some ==> exists|
                i: int,
            |
                0 <= i < result@.len() && (#[trigger] result@[i]).0@ == stamps(newest@)[w].key,
{
    let ghost all = newest@;
    let ghost views = stamps(all);
    let ghost mut from = Seq::<int>::empty();
    let mut result: Vec<(Vec<u8>, Vec<u8>, Timestamp)> = Vec::new();
    for row in iter: newest
        invariant
            iter.seq() == all,
            views == stamps(all),
            forall|i: int, j: int|
                #![trigger views[i], views[j]]
                0 <= i < j < views.len() ==> lex_lt(views[i].key, views[j].key),
            from.len() == result@.len(),
            forall|i: int|
                #![trigger from[i]]
                0 <= i < from.len() ==> 0 <= from[i] < iter.index() && views[from[i]].key
                    == result@[i].0@ && views[from[i]].value == Some(result@[i].1@)
                    && views[from[i]].timestamp == result@[i].2,
            forall|i: int, j: int|
                #![trigger from[i], from[j]]
                0 <= i < j < from.len() ==> from[i] < from[j],
            forall|w: int|
                0 <= w < iter.index() && (#[trigger] views[w]).value is Some ==> exists|i: int|
                    0 <= i < result@.len() && (#[trigger] result@[i]).0@ == views[w].key,
    {
        let ghost w = iter.index();
        let ghost before = result@;
        assert(views[w] == row@);
        match row.value {
            Some(value) => {
                result.push((row.key, value, row.timestamp));
                proof {
                    from = from.push(w);
                    assert(result@[before.len() as int].0@ == views[w].key);
                }
            },
            None => {},
        }
        proof {
            assert forall|v: int|
                0 <= v < w + 1 && (#[trigger] views[v]).value is Some implies exists|i: int|
                0 <= i < result@.len() && (#[trigger] result@[i]).0@ == views[v].key by {
                if v < w {
                    let i = choose|i: int|
                        0 <= i < before.len() && (#[trigger] before[i]).0@ == views[v].key;
                    assert(result@[i] == before[i]);
                } else {
                    assert(result@[before.len() as int].0@ == views[w].key);
                }
            }
        }
    }
    proof {
        assert forall|i: int, j: int|
            #![trigger result@[i], result@[j]]
            0 <= i < j < result@.len() implies lex_lt(result@[i].0@, result@[j].0@) by {
            assert(from[i] < from[j]);
            assert(lex_lt(views[from[i]].key, views[from[j]].key));
        }
        assert forall|i: int| 0 <= i < result@.len() implies holds_value(
            views,
            (#[trigger] result@[i]).0@,
            result@[i].1@,
            result@[i].2,
        ) by {
            assert(views[from[i]].key == result@[i].0@);
        }
    }
    result
}

/// Keys and values of rows.
fn without_timestamps(rows: Vec<(Vec<u8>, Vec<u8>, Timestamp)>) -> (result: Vec<
    (Vec<u8>, Vec<u8>),
>)
    ensures
        result@.len() == rows@.len(),
        forall|i: int|
            0 <= i < result@.len() ==> (#[trigger] result@[i]).0 == rows@[i].0 && result@[i].1
                == rows@[i].1,
{
    let ghost all = rows@;
    let mut result: Vec<(Vec<u8>, Vec<u8>)> = Vec::new();
    for row in iter: rows
        invariant
            iter.seq() == all,
            result@.len() == iter.index(),
            forall|i: int|
                0 <= i < result@.len() ==> (#[trigger] result@[i]).0 == all[i].0 && result@[i].1
                    == all[i].1,
    {
        result.push((row.0, row.1));
    }
    result
}

/// Scans all rows: the latest value of each key that has one, in the order of
/// the keys.
pub fn scan_all(registry: &SstRegistry, contents: &[Option<Vec<u8>>], active: &Memtable) -> (result:
    Vec<(Vec<u8>, Vec<u8>)>)
    requires
        active.inv(),
    ensures
        exists|reads: Seq<Seq<ColumnsRead>>| #[trigger]
            files_read(registry.list(), contents@, asked_prefix(None), reads) && lists_latest(
                result@,
                stored_rows(
                    registry.list(),
                    contents@,
                    asked_prefix(None),
                    reads,
                    registry.list().len() as int,
                ),
                active@,
                None,
            ),
{
    scan_all_with_prefix(registry, contents, active, None)
}

// Scan of a snapshot

/// The version of a key in the memtable that is visible at `read_ts`.
pub open spec fn memtable_visible(
    chains: Map<Seq<u8>, Seq<Version>>,
    read_ts: u64,
    key: Seq<u8>,
) -> Option<RowView> {
    if chains.contains_key(key) {
        match visible(chains[key], read_ts) {
            Some(version) => Some(
                Stamped { key, timestamp: version.timestamp, value: version.value },
            ),
            None => None,
        }
    } else {
        None
    }
}

/// The version of a key that is visible at `read_ts`: the newest of those
/// stored and in the memtable.
pub open spec fn visible_version(
    stored: Seq<RowView>,
    chains: Map<Seq<u8>, Seq<Version>>,
    read_ts: u64,
    key: Seq<u8>,
) -> Option<RowView> {
    newer(pick(stored, key), memtable_visible(chains, read_ts, key))
}

/// The filter of a scan of a snapshot.
pub open spec fn asked_at(read_ts: u64) -> FilterView {
    FilterView { prefix: None, read_ts: Some(read_ts) }
}

/// The rows are exactly those that have a value at `read_ts`, with their
/// timestamps, in the order of their keys.
pub open spec fn lists_visible(
    result: Seq<(Vec<u8>, Vec<u8>, Timestamp)>,
    stored: Seq<RowView>,
    chains: Map<Seq<u8>, Seq<Version>>,
    read_ts: u64,
) -> bool {
    &&& forall|i: int, j: int|
        #![trigger result[i], result[j]]
        0 <= i < j < result.len() ==> lex_lt(result[i].0@, result[j].0@)
    &&& forall|i: int|
        0 <= i < result.len() ==> visible_version(
            stored,
            chains,
            read_ts,
            (#[trigger] result[i]).0@,
        ) == Some(
            Stamped { key: result[i].0@, timestamp: result[i].2, value: Some(result[i].1@) },
        )
    &&& forall|key: Seq<u8>|
        live(#[trigger] visible_version(stored, chains, read_ts, key)) is Some ==> exists|i: int|
            0 <= i < result.len() && (#[trigger] result[i]).0@ == key
}

/// Appends the versions of a memtable that are visible at `read_ts`.
pub fn collect_visible(active: &Memtable, read_ts: Timestamp, rows: &mut Vec<Row>) -> (added: Ghost<
    Seq<RowView>,
>)
    requires
        active.inv(),
    ensures
        stamps(final(rows)@) == stamps(old(rows)@) + added@,
        forall|key: Seq<u8>| #[trigger]
            pick(added@, key) == memtable_visible(active@, read_ts, key),
        forall|i: int| 0 <= i < added@.len() ==> active@.contains_key((#[trigger] added@[i]).key),
{
    let entries = active.iter_all();
    let ghost chains = active@;
    let ghost all = entries@;
    let ghost start = stamps(rows@);
    let ghost mut added = Seq::<RowView>::empty();
    let ghost mut from = Seq::<int>::empty();
    assert(stamps(rows@) =~= start + added);
    for entry in iter: entries
        invariant
            iter.seq() == all,
            chains == active@,
            lists(all, chains, |key: Seq<u8>| true),
            stamps(rows@) == start + added,
            from.len() == added.len(),
            forall|i: int|
                #![trigger added[i]]
                #![trigger from[i]]
                0 <= i < added.len() ==> 0 <= from[i] < iter.index() && added[i].key
                    == all[from[i]].0@ && memtable_visible(chains, read_ts, added[i].key) == Some(
                    added[i],
                ),
            forall|i: int, j: int|
                #![trigger from[i], from[j]]
                0 <= i < j < from.len() ==> from[i] < from[j],
            forall|e: int|
                0 <= e < iter.index() && memtable_visible(
                    chains,
                    read_ts,
                    (#[trigger] all[e]).0@,
                ) is Some ==> exists|i: int|
                    0 <= i < added.len() && (#[trigger] added[i]).key == all[e].0@,
    {
        let ghost e = iter.index();
        let ghost before = rows@;
        let ghost added_before = added;
        assert(entry == all[e]);
        assert(chains.contains_key(all[e].0@) && chains[all[e].0@] == all[e].1.chain());
        let (key, versioned) = entry;
        match versioned.get_at_with_ts(read_ts) {
            Some((value, timestamp)) => {
                rows.push(Candidate { key, timestamp, value });
                proof {
                    let row = rows@[before.len() as int]@;
                    added = added.push(row);
                    from = from.push(e);
                    assert(stamps(rows@) =~= stamps(before).push(row));
                    assert(stamps(rows@) =~= start + added);
                    assert(added[added_before.len() as int].key == all[e].0@);
                }
            },
            None => {},
        }
        proof {
            assert forall|f: int|
                0 <= f < e + 1 && memtable_visible(
                    chains,
                    read_ts,
                    (#[trigger] all[f]).0@,
                ) is Some implies exists|i: int|
                0 <= i < added.len() && (#[trigger] added[i]).key == all[f].0@ by {
                if f < e {
                    let i = choose|i: int|
                        0 <= i < added_before.len() && (#[trigger] added_before[i]).key
                            == all[f].0@;
                    assert(added[i] == added_before[i]);
                }
            }
        }
    }
    proof {
        assert forall|a: int, b: int|
            #![trigger added[a], added[b]]
            0 <= a < b < added.len() implies lex_lt(added[a].key, added[b].key) by {
            assert(from[a] < from[b]);
            assert(lex_lt(all[from[a]].0@, all[from[b]].0@));
        }
        assert forall|key: Seq<u8>| #[trigger] pick(added, key) == memtable_visible(
            chains,
            read_ts,
            key,
        ) by {
            if memtable_visible(chains, read_ts, key) is Some {
                let e = choose|e: int| 0 <= e < all.len() && (#[trigger] all[e]).0@ == key;
                let i = choose|i: int|
                    0 <= i < added.len() && (#[trigger] added[i]).key == all[e].0@;
                lemma_distinct_picked(added, i);
            } else {
                lemma_pick_wins(added, key);
                if pick(added, key) is Some {
                    let i = choose|i: int| #[trigger] wins(added, i) && added[i].key == key;
                    assert(memtable_visible(chains, read_ts, added[i].key) is Some);
                }
            }
        }
        assert forall|i: int| 0 <= i < added.len() implies chains.contains_key(
            (#[trigger] added[i]).key,
        ) by {
            assert(memtable_visible(chains, read_ts, added[i].key) is Some);
        }
    }
    Ghost(added)
}

/// Scans all rows that are visible at `read_ts`: of each key the newest
/// version that is not after it, unless that is a tombstone; in the order of
/// the keys.
pub fn scan_all_at(
    registry: &SstRegistry,
    contents: &[Option<Vec<u8>>],
    active: &Memtable,
    read_ts: Timestamp,
) -> (result: Vec<(Vec<u8>, Vec<u8>, Timestamp)>)
    requires
        active.inv(),
    ensures
        exists|reads: Seq<Seq<ColumnsRead>>| #[trigger]
            files_read(registry.list(), contents@, asked_at(read_ts), reads) && lists_visible(
                result@,
                stored_rows(
                    registry.list(),
                    contents@,
                    asked_at(read_ts),
                    reads,
                    registry.list().len() as int,
                ),
                active@,
                read_ts,
            ),
{
    let filter = RowFilter { prefix: None, read_ts: Some(read_ts) };
    assert(filter@ == asked_at(read_ts));
    let (mut rows, Ghost(reads)) = collect_rows(registry, contents, &filter);
    let ghost stored = stamps(rows@);
    let Ghost(mem) = collect_visible(active, read_ts, &mut rows);
    let ghost all = stamps(rows@);
    let newest = newest_per_key(rows);
    let ghost winners = stamps(newest@);
    proof {
        assert forall|key: Seq<u8>| #[trigger] pick(all, key) == visible_version(
            stored,
            active@,
            read_ts,
            key,
        ) by {
            lemma_pick_append(stored, mem, key);
            assert(pick(mem, key) == memtable_visible(active@, read_ts, key));
        }
    }
    let result = live_rows(newest);
    proof {
        assert forall|i: int| 0 <= i < result@.len() implies visible_version(
            stored,
            active@,
            read_ts,
            (#[trigger] result@[i]).0@,
        ) == Some(
            Stamped { key: result@[i].0@, timestamp: result@[i].2, value: Some(result@[i].1@) },
        ) by {
            let row = result@[i];
            let version = Stamped { key: row.0@, timestamp: row.2, value: Some(row.1@) };
            assert(holds_value(winners, row.0@, row.1@, row.2));
            let w = choose|w: int| 0 <= w < winners.len() && winners[w] == version;
            assert(pick(all, winners[w].key) == Some(winners[w]));
        }
        assert forall|key: Seq<u8>|
            live(#[trigger] visible_version(stored, active@, read_ts, key)) is Some implies exists|
            i: int,
        |
            0 <= i < result@.len() && (#[trigger] result@[i]).0@ == key by {
            assert(pick(all, key) is Some);
            let w = choose|w: int| 0 <= w < winners.len() && (#[trigger] winners[w]).key == key;
            assert(pick(all, winners[w].key) == Some(winners[w]));
            assert(winners[w].value is Some);
        }
    }
    result
}

/// A write after a snapshot does not change what the snapshot shows.
pub proof fn lemma_snapshot_stable(
    stored: Seq<RowView>,
    chains: Map<Seq<u8>, Seq<Version>>,
    read_ts: u64,
    written: Seq<u8>,
    version: Version,
    key: Seq<u8>,
)
    requires
        version.timestamp > read_ts,
    ensures
        visible_version(stored, put_version(chains, written, version), read_ts, key)
            == visible_version(stored, chains, read_ts, key),
{
    if key == written {
        let after = put_version(chains, written, version);
        if chains.contains_key(written) {
            assert((seq![version] + chains[written]).skip(1) =~= chains[written]);
        } else {
            assert(after[written].skip(1) =~= Seq::<Version>::empty());
            assert(visible(Seq::<Version>::empty(), read_ts) is None);
        }
    }
}

// Checksums of a snapshot

/// Checksum of a row: of its key and its value with a separator between.
pub open spec fn row_checksum(key: Seq<u8>, value: Seq<u8>) -> u64 {
    xxh3_64_of(key.push(0xff) + value)
}

/// The checksums of rows.
pub open spec fn checksums_of(rows: Seq<(Vec<u8>, Vec<u8>, Timestamp)>) -> Seq<u64> {
    Seq::new(rows.len(), |i: int| row_checksum(rows[i].0@, rows[i].1@))
}

/// The bytes of a row that its checksum certifies.
pub open spec fn checksum_bytes(key: Seq<u8>, value: Seq<u8>) -> Seq<u8> {
    key.push(0xff) + value
}

/// Each row has its own checksum: the hash of bytes that hold the whole key, a separator
/// and the whole value, and nothing else.
pub proof fn lemma_checksums_certify(rows: Seq<(Vec<u8>, Vec<u8>, Timestamp)>, i: int)
    requires
        0 <= i < rows.len(),
    ensures
        checksums_of(rows).len() == rows.len(),
        checksums_of(rows)[i] == xxh3_64_of(checksum_bytes(rows[i].0@, rows[i].1@)),
        exists|bytes: Seq<u8>|
            {
                let n = rows[i].0@.len() as int;
                &&& checksums_of(rows)[i] == #[trigger] xxh3_64_of(bytes)
                &&& bytes.len() == n + 1 + rows[i].1@.len()
                &&& bytes.take(n) == rows[i].0@
                &&& bytes[n] == 0xff
                &&& bytes.skip(n + 1) == rows[i].1@
            },
{
    let (key, value) = (rows[i].0@, rows[i].1@);
    let bytes = key.push(0xff) + value;
    assert(bytes.take(key.len() as int) =~= key);
    assert(bytes.skip(key.len() as int + 1) =~= value);
    assert(checksums_of(rows)[i] == xxh3_64_of(bytes));
}

/// Rows whose checksums are taken of the same bytes, with keys of one length, are the same
/// in key and value.
pub proof fn lemma_checksum_bytes_tell_rows_apart(
    key: Seq<u8>,
    value: Seq<u8>,
    other_key: Seq<u8>,
    other_value: Seq<u8>,
)
    requires
        key.len() == other_key.len(),
        checksum_bytes(key, value) == checksum_bytes(other_key, other_value),
    ensures
        key == other_key,
        value == other_value,
{
    let n = key.len() as int;
    let bytes = checksum_bytes(key, value);
    let other = checksum_bytes(other_key, other_value);
    assert(bytes.take(n) =~= key);
    assert(other.take(n) =~= other_key);
    assert(bytes.skip(n + 1) =~= value);
    assert(other.skip(n + 1) =~= other_value);
}

/// Computes the checksums of rows.
pub fn row_checksums(rows: &[(Vec<u8>, Vec<u8>, Timestamp)]) -> (checksums: Vec<u64>)
    ensures
        checksums@ == checksums_of(rows@),
{
    let mut checksums: Vec<u64> = Vec::new();
    let mut i: usize = 0;
    while i < rows.len()
        invariant
            i <= rows@.len(),
            checksums@.len() == i,
            forall|j: int|
                0 <= j < i ==> #[trigger] checksums@[j] == row_checksum(rows@[j].0@, rows@[j].1@),
        decreases rows@.len() - i,
    {
        let row = &rows[i];
        let mut buf: Vec<u8> = Vec::new();
        put_bytes(&mut buf, row.0.as_slice());
        buf.push(0xff);
        put_bytes(&mut buf, row.1.as_slice());
        assert(buf@ =~= row.0@.push(0xff) + row.1@);
        checksums.push(xxh3_64(buf.as_slice()));
        i = i + 1;
    }
    assert(checksums@ =~= checksums_of(rows@));
    checksums
}

/// The checksums of the rows that are visible at `read_ts`, one for each row,
/// in the order of the keys.
pub fn snapshot_checksums(
    registry: &SstRegistry,
    contents: &[Option<Vec<u8>>],
    active: &Memtable,
    read_ts: Timestamp,
) -> (checksums: Vec<u64>)
    requires
        active.inv(),
    ensures
        exists|reads: Seq<Seq<ColumnsRead>>, rows: Seq<(Vec<u8>, Vec<u8>, Timestamp)>|
            #![trigger files_read(registry.list(), contents@, asked_at(read_ts), reads), checksums_of(rows)]
            {
                &&& files_read(registry.list(), contents@, asked_at(read_ts), reads)
                &&& lists_visible(
                    rows,
                    stored_rows(
                        registry.list(),
                        contents@,
                        asked_at(read_ts),
                        reads,
                        registry.list().len() as int,
                    ),
                    active@,
                    read_ts,
                )
                &&& checksums@ == checksums_of(rows)
            },
{
    let rows = scan_all_at(registry, contents, active, read_ts);
    row_checksums(rows.as_slice())
}

} // verus!
