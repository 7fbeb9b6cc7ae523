//! A scan gives the newest version of each key that its reader can see.

use vstd::prelude::*;

use crate::bytes::lex_lt;
use crate::column::Timestamp;
use crate::engine::newest::{lemma_pick_wins, pick, wins};
use crate::engine::read::{
    block_rows, entry_block, entry_rows, file_read, file_rows, filtered, row_stamp, skipped,
    ColumnsRead, FilterView,
};
use crate::engine::registry::SstEntry;
use crate::engine::scan::{
    asked_at, asked_prefix, content_of, files_read, latest_value, lists_latest, lists_visible,
    memtable_visible, stored_rows, visible_version,
};
use crate::engine::scan_laws::lemma_filtered_has;
use crate::memtable::versioned_value::{lemma_visible_place, visible, Version};
use crate::pax::block::BlockView;
use crate::row::{RowView, Stamped};
use crate::sst::BlockIndexEntry;

verus! {

/// A reader at a timestamp is given the rows that are not newer, and no others.
pub proof fn lemma_rows_at(rows: Seq<RowView>, read_ts: u64, row: RowView)
    ensures
        filtered(rows, asked_at(read_ts)).contains(row) <==> rows.contains(row) && row.timestamp
            <= read_ts,
{
    lemma_filtered_has(rows, asked_at(read_ts), row);
}

/// A reader of a prefix is given the rows whose keys start with it, and no others.
pub proof fn lemma_rows_with_prefix(rows: Seq<RowView>, prefix: Seq<u8>, row: RowView)
    ensures
        filtered(rows, FilterView { prefix: Some(prefix), read_ts: None }).contains(row)
            <==> rows.contains(row) && prefix.is_prefix_of(row.key),
{
    lemma_filtered_has(rows, FilterView { prefix: Some(prefix), read_ts: None }, row);
}

/// Whether a row is a version of a key that stands in the files or in the memtable and is
/// not newer than a timestamp.
pub open spec fn can_be_seen(
    rows: Seq<RowView>,
    chains: Map<Seq<u8>, Seq<Version>>,
    read_ts: u64,
    key: Seq<u8>,
    row: RowView,
) -> bool {
    &&& row.key == key
    &&& row.timestamp <= read_ts
    &&& rows.contains(row) || (chains.contains_key(key) && chains[key].contains(
        Version { timestamp: row.timestamp, value: row.value },
    ))
}

/// Whether a row is what a reader at a timestamp has to be given of a key: a version that
/// can be seen, and none that can be seen is newer.
pub open spec fn is_newest_seen(
    rows: Seq<RowView>,
    chains: Map<Seq<u8>, Seq<Version>>,
    read_ts: u64,
    key: Seq<u8>,
    row: RowView,
) -> bool {
    &&& can_be_seen(rows, chains, read_ts, key, row)
    &&& forall|other: RowView| #[trigger]
        can_be_seen(rows, chains, read_ts, key, other) ==> other.timestamp <= row.timestamp
}

/// Whether the versions of a key in a memtable were written in the order of time.
pub open spec fn chain_in_order(chains: Map<Seq<u8>, Seq<Version>>, key: Seq<u8>) -> bool {
    chains.contains_key(key) ==> forall|i: int, j: int|
        #![trigger chains[key][i], chains[key][j]]
        0 <= i < j < chains[key].len() ==> chains[key][i].timestamp >= chains[key][j].timestamp
}

proof fn lemma_chain_seen(
    chains: Map<Seq<u8>, Seq<Version>>,
    read_ts: u64,
    key: Seq<u8>,
    other: Version,
)
    requires
        chain_in_order(chains, key),
        chains.contains_key(key),
        chains[key].contains(other),
        other.timestamp <= read_ts,
    ensures
        visible(chains[key], read_ts) matches Some(version) && other.timestamp
            <= version.timestamp,
{
    let chain = chains[key];
    lemma_visible_place(chain, read_ts);
    let k = choose|k: int| 0 <= k < chain.len() && chain[k] == other;
    match visible(chain, read_ts) {
        Some(version) => {
            let i = choose|i: int|
                0 <= i < chain.len() && #[trigger] chain[i] == version && forall|j: int|
                    0 <= j < i ==> (#[trigger] chain[j]).timestamp > read_ts;
            if k > i {
                assert(chain[i].timestamp >= chain[k].timestamp);
            }
        },
        None => {
            assert(chain[k].timestamp > read_ts);
        },
    }
}

/// A reader at a timestamp sees, of each key, the newest version that is not newer than the
/// timestamp, wherever it stands; and none only if there is none.
pub proof fn lemma_newest_seen(
    rows: Seq<RowView>,
    chains: Map<Seq<u8>, Seq<Version>>,
    read_ts: u64,
    key: Seq<u8>,
)
    requires
        chain_in_order(chains, key),
    ensures
        match visible_version(filtered(rows, asked_at(read_ts)), chains, read_ts, key) {
            Some(row) => is_newest_seen(rows, chains, read_ts, key, row),
            None => forall|row: RowView| !#[trigger]
                can_be_seen(rows, chains, read_ts, key, row),
        },
{
    let stored = filtered(rows, asked_at(read_ts));
    let result = visible_version(stored, chains, read_ts, key);
    lemma_pick_wins(stored, key);
    if chains.contains_key(key) {
        lemma_visible_place(chains[key], read_ts);
    }
    if let Some(row) = pick(stored, key) {
        let i = choose|i: int| #[trigger]
            wins(stored, i) && stored[i] == row && row.key == key;
        assert(stored.contains(row));
        lemma_rows_at(rows, read_ts, row);
    }
    if let Some(row) = memtable_visible(chains, read_ts, key) {
        let version = visible(chains[key], read_ts)->0;
        assert(chains[key].contains(version));
        assert(version == Version { timestamp: row.timestamp, value: row.value });
    }
    assert forall|other: RowView| #[trigger]
        can_be_seen(rows, chains, read_ts, key, other) implies result matches Some(row)
        && other.timestamp <= row.timestamp by {
        if rows.contains(other) {
            lemma_rows_at(rows, read_ts, other);
            let k = choose|k: int| 0 <= k < stored.len() && stored[k] == other;
            assert(stored[k].key == key);
        } else {
            let version = Version { timestamp: other.timestamp, value: other.value };
            lemma_chain_seen(chains, read_ts, key, version);
        }
    }
}

/// A scan of a snapshot gives, in the order of the keys, each key whose newest version that
/// the snapshot sees is a value, with that value and its timestamp; and no key that has no
/// such version or whose newest is a deletion.
pub proof fn lemma_snapshot_scan(
    result: Seq<(Vec<u8>, Vec<u8>, Timestamp)>,
    rows: Seq<RowView>,
    chains: Map<Seq<u8>, Seq<Version>>,
    read_ts: u64,
)
    requires
        forall|key: Seq<u8>| #[trigger] chain_in_order(chains, key),
        lists_visible(result, filtered(rows, asked_at(read_ts)), chains, read_ts),
    ensures
        forall|i: int, j: int|
            #![trigger result[i], result[j]]
            0 <= i < j < result.len() ==> lex_lt(result[i].0@, result[j].0@),
        forall|i: int|
            0 <= i < result.len() ==> is_newest_seen(
                rows,
                chains,
                read_ts,
                (#[trigger] result[i]).0@,
                Stamped { key: result[i].0@, timestamp: result[i].2, value: Some(result[i].1@) },
            ),
        forall|row: RowView| #[trigger]
            can_be_seen(rows, chains, read_ts, row.key, row) && (forall|other: RowView|
             #[trigger]
                can_be_seen(rows, chains, read_ts, row.key, other) && other.timestamp
                    >= row.timestamp ==> other.value is Some) ==> exists|i: int|
                0 <= i < result.len() && (#[trigger] result[i]).0@ == row.key,
{
    let stored = filtered(rows, asked_at(read_ts));
    assert forall|i: int| 0 <= i < result.len() implies is_newest_seen(
        rows,
        chains,
        read_ts,
        (#[trigger] result[i]).0@,
        Stamped { key: result[i].0@, timestamp: result[i].2, value: Some(result[i].1@) },
    ) by {
        let key = result[i].0@;
        assert(chain_in_order(chains, key));
        lemma_newest_seen(rows, chains, read_ts, key);
    }
    assert forall|row: RowView| #[trigger]
        can_be_seen(rows, chains, read_ts, row.key, row) && (forall|other: RowView| #[trigger]
            can_be_seen(rows, chains, read_ts, row.key, other) && other.timestamp >= row.timestamp
                ==> other.value is Some) implies exists|i: int|
        0 <= i < result.len() && (#[trigger] result[i]).0@ == row.key by {
        assert(chain_in_order(chains, row.key));
        lemma_newest_seen(rows, chains, read_ts, row.key);
        let newest = visible_version(stored, chains, read_ts, row.key)->0;
        assert(can_be_seen(rows, chains, read_ts, row.key, newest));
        assert(newest.value is Some);
    }
}

/// A scan of the latest rows gives of each key what was written last: the first version of
/// its chain in the memtable, or else the newest one in the files.
pub proof fn lemma_latest_scan(
    result: Seq<(Vec<u8>, Vec<u8>)>,
    rows: Seq<RowView>,
    chains: Map<Seq<u8>, Seq<Version>>,
    prefix: Option<Seq<u8>>,
    key: Seq<u8>,
)
    requires
        lists_latest(result, rows, chains, prefix),
        prefix matches Some(p) ==> p.is_prefix_of(key),
    ensures
        chains.contains_key(key) ==> ((exists|i: int|
            0 <= i < result.len() && (#[trigger] result[i]).0@ == key) <==> chains[key][0].value is Some),
        forall|i: int|
            0 <= i < result.len() && (#[trigger] result[i]).0@ == key && chains.contains_key(key)
                ==> chains[key][0].value == Some(result[i].1@),
        forall|i: int|
            0 <= i < result.len() && (#[trigger] result[i]).0@ == key && !chains.contains_key(key)
                ==> exists|r: int|
                {
                    &&& 0 <= r < rows.len()
                    &&& (#[trigger] rows[r]).key == key
                    &&& rows[r].value == Some(result[i].1@)
                    &&& forall|s: int|
                        0 <= s < rows.len() && (#[trigger] rows[s]).key == key
                            ==> rows[s].timestamp <= rows[r].timestamp
                },
        forall|r: int|
            0 <= r < rows.len() && (#[trigger] rows[r]).key == key && rows[r].value is Some
                && !chains.contains_key(key) && (forall|s: int|
                0 <= s < rows.len() && s != r && (#[trigger] rows[s]).key == key
                    ==> rows[s].timestamp < rows[r].timestamp) ==> exists|i: int|
                0 <= i < result.len() && (#[trigger] result[i]).0@ == key,
{
    lemma_pick_wins(rows, key);
    assert(latest_value(rows, chains, prefix, key) is Some ==> exists|i: int|
        0 <= i < result.len() && (#[trigger] result[i]).0@ == key);
    assert forall|i: int|
        0 <= i < result.len() && (#[trigger] result[i]).0@ == key && !chains.contains_key(
            key,
        ) implies exists|r: int|
        {
            &&& 0 <= r < rows.len()
            &&& (#[trigger] rows[r]).key == key
            &&& rows[r].value == Some(result[i].1@)
            &&& forall|s: int|
                0 <= s < rows.len() && (#[trigger] rows[s]).key == key ==> rows[s].timestamp
                    <= rows[r].timestamp
        } by {
        assert(latest_value(rows, chains, prefix, result[i].0@) == Some(result[i].1@));
        let picked = pick(rows, key)->0;
        let r = choose|r: int| #[trigger]
            wins(rows, r) && rows[r] == picked && picked.key == key;
        assert(rows[r].key == key);
    }
    assert forall|r: int|
        0 <= r < rows.len() && (#[trigger] rows[r]).key == key && rows[r].value is Some
            && !chains.contains_key(key) && (forall|s: int|
            0 <= s < rows.len() && s != r && (#[trigger] rows[s]).key == key ==> rows[s].timestamp
                < rows[r].timestamp) implies exists|i: int|
        0 <= i < result.len() && (#[trigger] result[i]).0@ == key by {
        let picked = pick(rows, key)->0;
        let w = choose|w: int| #[trigger]
            wins(rows, w) && rows[w] == picked && picked.key == key;
        if w != r {
            assert(rows[w].key == key);
            assert(rows[r].key == rows[w].key);
        }
        assert(latest_value(rows, chains, prefix, key) is Some);
    }
}

// What is read of the files

/// Whether a row is one of a block that a file's index points to.
pub open spec fn in_block(
    data: Seq<u8>,
    entries: Seq<BlockIndexEntry>,
    reads: Seq<ColumnsRead>,
    k: int,
    row: RowView,
) -> bool {
    &&& 0 <= k < entries.len()
    &&& entry_block(data, entries[k]) matches Some(b)
    &&& block_rows(b, reads[k]).contains(row)
}

/// Whether the header of a block that a file's index points to tells that nothing in it is
/// asked for.
pub open spec fn block_skipped(
    data: Seq<u8>,
    entries: Seq<BlockIndexEntry>,
    filter: FilterView,
    k: int,
) -> bool {
    entry_block(data, entries[k]) matches Some(b) && skipped(b, filter)
}

/// Whether a row starts with the prefix and is not newer than the timestamp that a scan
/// asks for.
pub open spec fn wanted(prefix: Option<Seq<u8>>, read_ts: Option<u64>, row: RowView) -> bool {
    &&& prefix matches Some(p) ==> p.is_prefix_of(row.key)
    &&& read_ts matches Some(t) ==> row.timestamp <= t
}

/// What is read of a file are the rows that are wanted of the blocks that are not skipped,
/// of every block and no other.
pub proof fn lemma_file_rows_has(
    data: Seq<u8>,
    entries: Seq<BlockIndexEntry>,
    filter: FilterView,
    reads: Seq<ColumnsRead>,
    row: RowView,
)
    requires
        reads.len() == entries.len(),
    ensures
        file_rows(data, entries, filter, reads).contains(row) <==> wanted(
            filter.prefix,
            filter.read_ts,
            row,
        ) && exists|k: int| #[trigger]
            in_block(data, entries, reads, k, row) && !block_skipped(data, entries, filter, k),
    decreases entries.len(),
{
    let all = file_rows(data, entries, filter, reads);
    if entries.len() > 0 {
        let front = entries.drop_last();
        let read_front = reads.drop_last();
        let last = entries.len() - 1;
        let before = file_rows(data, front, filter, read_front);
        let added = entry_rows(data, entries.last(), filter, reads.last());
        lemma_file_rows_has(data, front, filter, read_front, row);
        assert forall|k: int| 0 <= k < last implies #[trigger] in_block(
            data,
            entries,
            reads,
            k,
            row,
        ) == in_block(data, front, read_front, k, row) && block_skipped(data, entries, filter, k)
            == block_skipped(data, front, filter, k) by {
            assert(front[k] == entries[k]);
            assert(read_front[k] == reads[k]);
        }
        lemma_in_either(before, added, row);
        if let Some(b) = entry_block(data, entries.last()) {
            lemma_filtered_has(block_rows(b, reads.last()), filter, row);
        }
        assert(added.contains(row) <==> wanted(filter.prefix, filter.read_ts, row) && in_block(
            data,
            entries,
            reads,
            last,
            row,
        ) && !block_skipped(data, entries, filter, last));
        if before.contains(row) {
            let k = choose|k: int| #[trigger]
                in_block(data, front, read_front, k, row) && !block_skipped(
                    data,
                    front,
                    filter,
                    k,
                );
            assert(in_block(data, entries, reads, k, row));
        }
        if exists|k: int| #[trigger]
            in_block(data, entries, reads, k, row) && !block_skipped(data, entries, filter, k) {
            let k = choose|k: int| #[trigger]
                in_block(data, entries, reads, k, row) && !block_skipped(
                    data,
                    entries,
                    filter,
                    k,
                );
            if k < last {
                assert(in_block(data, front, read_front, k, row));
            }
        }
    }
}

proof fn lemma_in_either(a: Seq<RowView>, b: Seq<RowView>, row: RowView)
    ensures
        (a + b).contains(row) <==> a.contains(row) || b.contains(row),
{
    if a.contains(row) {
        let i = choose|i: int| 0 <= i < a.len() && a[i] == row;
        assert((a + b)[i] == row);
    }
    if b.contains(row) {
        let i = choose|i: int| 0 <= i < b.len() && b[i] == row;
        assert((a + b)[a.len() + i] == row);
    }
    if (a + b).contains(row) {
        let i = choose|i: int| 0 <= i < (a + b).len() && (a + b)[i] == row;
        if i < a.len() {
            assert(a[i] == row);
        } else {
            assert(b[i - a.len()] == row);
        }
    }
}

/// Whether a row is one of a file whose contents are there.
pub open spec fn in_file(
    files: Seq<SstEntry>,
    contents: Seq<Option<Vec<u8>>>,
    filter: FilterView,
    reads: Seq<Seq<ColumnsRead>>,
    i: int,
    row: RowView,
) -> bool {
    &&& content_of(contents, i) matches Some(data)
    &&& exists|k: int| #[trigger]
        in_block(data, files[i]@.blocks, reads[i], k, row) && !block_skipped(
            data,
            files[i]@.blocks,
            filter,
            k,
        )
}

/// What is read of the files are the rows that are wanted, of every file and no other.
pub proof fn lemma_stored_rows_has(
    files: Seq<SstEntry>,
    contents: Seq<Option<Vec<u8>>>,
    filter: FilterView,
    reads: Seq<Seq<ColumnsRead>>,
    n: int,
    row: RowView,
)
    requires
        0 <= n <= files.len(),
        files_read(files, contents, filter, reads),
    ensures
        stored_rows(files, contents, filter, reads, n).contains(row) <==> wanted(
            filter.prefix,
            filter.read_ts,
            row,
        ) && exists|i: int| 0 <= i < n && #[trigger] in_file(files, contents, filter, reads, i, row),
    decreases n,
{
    if n > 0 {
        let last = n - 1;
        lemma_stored_rows_has(files, contents, filter, reads, last, row);
        let before = stored_rows(files, contents, filter, reads, last);
        match content_of(contents, last) {
            Some(data) => {
                assert(file_read(data, files[last]@.blocks, filter, reads[last]));
                lemma_file_rows_has(data, files[last]@.blocks, filter, reads[last], row);
                lemma_in_either(
                    before,
                    file_rows(data, files[last]@.blocks, filter, reads[last]),
                    row,
                );
            },
            None => {},
        }
        if in_file(files, contents, filter, reads, last, row) {
            assert(0 <= last < n);
        }
        if exists|i: int| 0 <= i < last && #[trigger] in_file(
            files,
            contents,
            filter,
            reads,
            i,
            row,
        ) {
            let i = choose|i: int| 0 <= i < last && #[trigger] in_file(
                files,
                contents,
                filter,
                reads,
                i,
                row,
            );
            assert(0 <= i < n);
        }
    }
}

/// A scan by prefix gives only keys that start with it.
pub proof fn lemma_prefix_scan(
    result: Seq<(Vec<u8>, Vec<u8>)>,
    files: Seq<SstEntry>,
    contents: Seq<Option<Vec<u8>>>,
    reads: Seq<Seq<ColumnsRead>>,
    chains: Map<Seq<u8>, Seq<Version>>,
    prefix: &[u8],
    i: int,
)
    requires
        files_read(files, contents, asked_prefix(Some(prefix)), reads),
        lists_latest(
            result,
            stored_rows(
                files,
                contents,
                asked_prefix(Some(prefix)),
                reads,
                files.len() as int,
            ),
            chains,
            asked_prefix(Some(prefix)).prefix,
        ),
        0 <= i < result.len(),
    ensures
        prefix@.is_prefix_of(result[i].0@),
{
    let filter = asked_prefix(Some(prefix));
    let key = result[i].0@;
    let stored = stored_rows(files, contents, filter, reads, files.len() as int);
    assert(latest_value(stored, chains, filter.prefix, key) == Some(result[i].1@));
    if !prefix@.is_prefix_of(key) {
        lemma_pick_wins(stored, key);
        let picked = pick(stored, key)->0;
        let r = choose|r: int| #[trigger]
            wins(stored, r) && stored[r] == picked && picked.key == key;
        assert(stored.contains(picked));
        lemma_stored_rows_has(files, contents, filter, reads, files.len() as int, picked);
    }
}

/// A block without timestamps of its rows is passed over for its time if and only if its rows,
/// which then have the time of the block, are all too new for the reader. A block with
/// timestamps of its rows is never passed over for its time.
pub proof fn lemma_time_skipping(b: BlockView, read_ts: u64, row: int)
    ensures
        ({
            let filter = FilterView { prefix: None, read_ts: Some(read_ts) };
            &&& b.header.column_count < 3 ==> (skipped(b, filter) <==> row_stamp(
                b.header.commit_timestamp,
                None,
                row,
            ) > read_ts)
            &&& b.header.column_count >= 3 ==> !skipped(b, filter)
        }),
{
}

} // verus!
