//! What was flushed, or stands in the log, is found again when an engine is opened.

use vstd::prelude::*;

use crate::columnar::{ColumnarRegistration, RowColumnSplitter};
use crate::engine::compact::everything;
use crate::engine::kv::{
    batch_bytes, kv_bytes, lemma_batch_round_trip, lemma_kv_round_trip, pair_views,
};
use crate::engine::laws::{
    flush_fits, lemma_flushed_keys_differ, lemma_joined_has, lemma_stored_value_reads_back,
    read_back, rows_fit,
};
use crate::engine::newest::{lemma_pick_wins, pick, wins};
use crate::engine::read::{entry_block, entry_rows, file_rows, within, ColumnsRead, FilterView};
use crate::engine::recover::{
    first_stamp, lemma_everything, placed_blocks, placed_found, placed_rows, StoredAt,
};
use crate::engine::registry::index_or_whole;
use crate::engine::scan_laws::{
    block_scan, came_out, contents_read, contents_rows, file_read_whole, lemma_block_scan,
    lemma_flush_then_scan, sst_contents,
};
use crate::engine::state::{
    flush_begun, flush_config, found_entry, found_files, lemma_opened_rows_found, located, opened,
    replay_rows, replayed, EngineConfig, EngineState, FoundSst, LocatedView, PendingFlush, Replay,
    WalRecord, WalRecordType,
};
use crate::error::GalaxError;
use crate::flush::{
    chunks_of_rows, flushed, flushing, lemma_blocks_cover_rows, newest, rows_block,
    rows_encoded, SstFile,
};
use crate::pax::block::parse_block;
use crate::pax::point_read::value_reads;
use crate::row::{rows_of, RowView, Stamped};
use crate::sst::{
    block_at, entries_of, indexable, lemma_sst_round_trip, sst_bytes, BlockIndexEntry,
};

verus! {

// Places and rows

/// Whether versions with their places are those of rows.
spec fn places_of(placed: Seq<Stamped<StoredAt>>, rows: Seq<RowView>) -> bool {
    &&& placed.len() == rows.len()
    &&& forall|i: int|
        0 <= i < rows.len() ==> {
            &&& (#[trigger] placed[i]).key == rows[i].key
            &&& placed[i].timestamp == rows[i].timestamp
            &&& placed[i].value.live == (rows[i].value is Some)
        }
}

proof fn lemma_places_append(
    a: Seq<Stamped<StoredAt>>,
    b: Seq<Stamped<StoredAt>>,
    rows: Seq<RowView>,
    more: Seq<RowView>,
)
    requires
        places_of(a, rows),
        places_of(b, more),
    ensures
        places_of(a + b, rows + more),
{
}

proof fn lemma_blocks_places(
    file_id: u64,
    data: Seq<u8>,
    entries: Seq<BlockIndexEntry>,
    reads: Seq<ColumnsRead>,
    n: int,
)
    requires
        0 <= n <= entries.len(),
        reads.len() == entries.len(),
    ensures
        places_of(
            placed_blocks(file_id, data, entries, reads, n),
            file_rows(data, entries.take(n), everything(), reads.take(n)),
        ),
    decreases n,
{
    if n > 0 {
        lemma_blocks_places(file_id, data, entries, reads, n - 1);
        assert(entries.take(n).drop_last() =~= entries.take(n - 1));
        assert(reads.take(n).drop_last() =~= reads.take(n - 1));
        let rows = entry_rows(data, entries[n - 1], everything(), reads[n - 1]);
        lemma_places_append(
            placed_blocks(file_id, data, entries, reads, n - 1),
            placed_rows(file_id, n - 1, rows),
            file_rows(data, entries.take(n - 1), everything(), reads.take(n - 1)),
            rows,
        );
    }
}

/// Whether files were found with these contents.
pub open spec fn found_holds(found: Seq<FoundSst>, ssts: Seq<SstFile>) -> bool {
    &&& found.len() == ssts.len()
    &&& forall|i: int|
        0 <= i < found.len() ==> {
            &&& (#[trigger] found[i]).file_id == ssts[i].id
            &&& found[i].data matches Some(data) && data@ == ssts[i].bytes@
        }
}

proof fn lemma_found_places(
    found: Seq<FoundSst>,
    ssts: Seq<SstFile>,
    reads: Seq<Seq<ColumnsRead>>,
    n: int,
)
    requires
        found_holds(found, ssts),
        contents_read(sst_contents(ssts), everything(), reads),
        0 <= n <= found.len(),
    ensures
        places_of(
            placed_found(found, reads, n),
            contents_rows(sst_contents(ssts), everything(), reads, n),
        ),
    decreases n,
{
    if n > 0 {
        lemma_found_places(found, ssts, reads, n - 1);
        let data = ssts[n - 1].bytes@;
        let index = index_or_whole(data);
        let m = index.len() as int;
        assert(found[n - 1].file_id == ssts[n - 1].id);
        assert(file_read_whole(sst_contents(ssts)[n - 1], everything(), reads[n - 1]));
        reveal(file_read_whole);
        lemma_blocks_places(found[n - 1].file_id, data, index, reads[n - 1], m);
        assert(index.take(m) =~= index);
        assert(reads[n - 1].take(m) =~= reads[n - 1]);
        lemma_places_append(
            placed_found(found, reads, n - 1),
            placed_blocks(found[n - 1].file_id, data, index, reads[n - 1], m),
            contents_rows(sst_contents(ssts), everything(), reads, n - 1),
            file_rows(data, index, everything(), reads[n - 1]),
        );
    }
}

proof fn lemma_block_place(
    file_id: u64,
    data: Seq<u8>,
    entries: Seq<BlockIndexEntry>,
    reads: Seq<ColumnsRead>,
    n: int,
    p: int,
) -> (place: (int, int))
    requires
        0 <= p < placed_blocks(file_id, data, entries, reads, n).len(),
    ensures
        0 <= place.0 < n,
        ({
            let rows = entry_rows(data, entries[place.0], everything(), reads[place.0]);
            &&& 0 <= place.1 < rows.len()
            &&& placed_blocks(file_id, data, entries, reads, n)[p] == placed_rows(
                file_id,
                place.0,
                rows,
            )[place.1]
        }),
    decreases n,
{
    let before = placed_blocks(file_id, data, entries, reads, n - 1);
    if p < before.len() {
        lemma_block_place(file_id, data, entries, reads, n - 1, p)
    } else {
        (n - 1, p - before.len())
    }
}

proof fn lemma_found_place(
    found: Seq<FoundSst>,
    reads: Seq<Seq<ColumnsRead>>,
    n: int,
    p: int,
) -> (place: (int, int, int))
    requires
        0 <= p < placed_found(found, reads, n).len(),
    ensures
        0 <= place.0 < n,
        found[place.0].data is Some,
        ({
            let data = found[place.0].data->0@;
            let index = index_or_whole(data);
            let rows = entry_rows(data, index[place.1], everything(), reads[place.0][place.1]);
            &&& 0 <= place.1 < index.len()
            &&& 0 <= place.2 < rows.len()
            &&& placed_found(found, reads, n)[p] == placed_rows(
                found[place.0].file_id,
                place.1,
                rows,
            )[place.2]
        }),
    decreases n,
{
    let before = placed_found(found, reads, n - 1);
    if p < before.len() {
        lemma_found_place(found, reads, n - 1, p)
    } else {
        let data = found[n - 1].data->0@;
        let index = index_or_whole(data);
        let (b, r) = lemma_block_place(
            found[n - 1].file_id,
            data,
            index,
            reads[n - 1],
            index.len() as int,
            p - before.len(),
        );
        (n - 1, b, r)
    }
}

// Blocks and chunks

/// Whether a block holds one of the groups of rows.
spec fn from_chunk<S: RowColumnSplitter>(
    block: Seq<u8>,
    chunks: Seq<Seq<RowView>>,
    registrations: Seq<ColumnarRegistration<S>>,
    commit_timestamp: u64,
) -> bool {
    exists|k: int, id: u64|
        0 <= k < chunks.len() && block == #[trigger] rows_block(
            chunks[k],
            registrations,
            id,
            newest(chunks[k], commit_timestamp),
        )
}

proof fn lemma_from_more<S: RowColumnSplitter>(
    block: Seq<u8>,
    chunks: Seq<Seq<RowView>>,
    registrations: Seq<ColumnarRegistration<S>>,
    commit_timestamp: u64,
)
    requires
        chunks.len() > 0,
        from_chunk(block, chunks.drop_last(), registrations, commit_timestamp),
    ensures
        from_chunk(block, chunks, registrations, commit_timestamp),
{
    let front = chunks.drop_last();
    let (k, id) = choose|k: int, id: u64|
        0 <= k < front.len() && block == #[trigger] rows_block(
            front[k],
            registrations,
            id,
            newest(front[k], commit_timestamp),
        );
    assert(chunks[k] == front[k]);
    assert(block == rows_block(
        chunks[k],
        registrations,
        id,
        newest(chunks[k], commit_timestamp),
    ));
}

#[verifier::rlimit(50)]
proof fn lemma_packed_from<S: RowColumnSplitter>(
    chunks: Seq<Seq<RowView>>,
    registrations: Seq<ColumnarRegistration<S>>,
    commit_timestamp: u64,
    limit: u64,
    first: u64,
)
    ensures
        ({
            let packing = flushing(chunks, registrations, commit_timestamp, limit, first).packing;
            &&& forall|f: int, b: int|
                #![trigger packing.files[f].1[b]]
                0 <= f < packing.files.len() && 0 <= b < packing.files[f].1.len() ==> from_chunk(
                    packing.files[f].1[b],
                    chunks,
                    registrations,
                    commit_timestamp,
                )
            &&& forall|b: int|
                0 <= b < packing.open.len() ==> from_chunk(
                    #[trigger] packing.open[b],
                    chunks,
                    registrations,
                    commit_timestamp,
                )
        }),
    decreases chunks.len(),
{
    if chunks.len() > 0 {
        let front = chunks.drop_last();
        let rows = chunks.last();
        let before = flushing(front, registrations, commit_timestamp, limit, first);
        lemma_packed_from(front, registrations, commit_timestamp, limit, first);
        let stamp = newest(rows, commit_timestamp);
        let block = rows_block(rows, registrations, before.next, stamp);
        let placed = before.packing.placed(before.next, block, rows.len() as usize);
        let after = flushing(chunks, registrations, commit_timestamp, limit, first).packing;
        assert(chunks[chunks.len() - 1] == rows);
        assert(from_chunk(block, chunks, registrations, commit_timestamp));
        assert forall|b: int| 0 <= b < placed.open.len() implies from_chunk(
            #[trigger] placed.open[b],
            chunks,
            registrations,
            commit_timestamp,
        ) by {
            if b < before.packing.open.len() {
                assert(placed.open[b] == before.packing.open[b]);
                lemma_from_more(placed.open[b], chunks, registrations, commit_timestamp);
            }
        }
        assert forall|f: int, b: int|
            #![trigger after.files[f].1[b]]
            0 <= f < after.files.len() && 0 <= b < after.files[f].1.len() implies from_chunk(
            after.files[f].1[b],
            chunks,
            registrations,
            commit_timestamp,
        ) by {
            if f < before.packing.files.len() {
                assert(after.files[f] == before.packing.files[f]);
                assert(from_chunk(
                    before.packing.files[f].1[b],
                    front,
                    registrations,
                    commit_timestamp,
                ));
                lemma_from_more(after.files[f].1[b], chunks, registrations, commit_timestamp);
            } else {
                assert(after.files[f].1 == placed.open);
                assert(after.files[f].1[b] == placed.open[b]);
            }
        }
    }
}

proof fn lemma_flushed_from<S: RowColumnSplitter>(
    chunks: Seq<Seq<RowView>>,
    registrations: Seq<ColumnarRegistration<S>>,
    commit_timestamp: u64,
    limit: u64,
    first: u64,
    f: int,
    b: int,
)
    requires
        ({
            let files = flushed(
                chunks,
                registrations,
                commit_timestamp,
                limit,
                first,
            ).packing.files;
            0 <= f < files.len() && 0 <= b < files[f].1.len()
        }),
    ensures
        from_chunk(
            flushed(chunks, registrations, commit_timestamp, limit, first).packing.files[f].1[b],
            chunks,
            registrations,
            commit_timestamp,
        ),
{
    let last = flushing(chunks, registrations, commit_timestamp, limit, first).packing;
    let files = flushed(chunks, registrations, commit_timestamp, limit, first).packing.files;
    lemma_packed_from(chunks, registrations, commit_timestamp, limit, first);
    if f < last.files.len() {
        assert(files[f] == last.files[f]);
        assert(from_chunk(last.files[f].1[b], chunks, registrations, commit_timestamp));
    } else {
        assert(files[f].1 == last.open);
        assert(from_chunk(last.open[b], chunks, registrations, commit_timestamp));
    }
}

#[verifier::rlimit(50)]
proof fn lemma_entry_of_block(
    blocks: Seq<Seq<u8>>,
    filter: FilterView,
    read: Seq<ColumnsRead>,
    b: int,
)
    requires
        indexable(blocks),
        file_read_whole(sst_bytes(blocks), filter, read),
        0 <= b < blocks.len(),
    ensures
        index_or_whole(sst_bytes(blocks)) == entries_of(blocks),
        block_at(sst_bytes(blocks), entries_of(blocks)[b]) == blocks[b],
        came_out(blocks[b], filter, read[b]),
        entry_rows(sst_bytes(blocks), entries_of(blocks)[b], filter, read[b]) == block_scan(
            blocks[b],
            filter,
            read[b],
        ),
{
    reveal(came_out);
    reveal(block_scan);
    reveal(file_read_whole);
    let data = sst_bytes(blocks);
    lemma_sst_round_trip(blocks);
    let entry = entries_of(blocks)[b];
    assert(index_or_whole(data) == entries_of(blocks));
    assert(block_at(data, entry) == blocks[b]);
    assert(within(data, entry));
    assert(index_or_whole(data)[b] == entry);
    assert(entry_block(data, entry) == (match parse_block(blocks[b]) {
        Ok(block) => Some(block),
        Err(_) => None,
    }));
}

// Files

proof fn lemma_found_file(found: Seq<FoundSst>, n: int, f: int)
    requires
        0 <= f < n <= found.len(),
        forall|i: int, j: int|
            #![trigger found[i], found[j]]
            0 <= i < j < found.len() ==> found[i].file_id != found[j].file_id,
    ensures
        found_files(found.take(n)).contains_key(found[f].file_id),
        found_files(found.take(n))[found[f].file_id] == found_entry(found[f]),
    decreases n,
{
    assert(found.take(n).drop_last() =~= found.take(n - 1));
    assert(found.take(n).last() == found[n - 1]);
    if f < n - 1 {
        lemma_found_file(found, n - 1, f);
        assert(found[f].file_id != found[n - 1].file_id);
    }
}

/// Whether a place in the files of a flush holds a value.
pub open spec fn holds_value(
    ssts: Seq<SstFile>,
    file_id: u64,
    block: BlockIndexEntry,
    row: u32,
    value: Seq<u8>,
) -> bool {
    exists|f: int|
        {
            &&& 0 <= f < ssts.len()
            &&& (#[trigger] ssts[f]).id == file_id
            &&& forall|outcome: Result<Seq<u8>, GalaxError>| #[trigger]
                value_reads(block_at(ssts[f].bytes@, block), 1, row, outcome) ==> outcome == Ok::<
                    Seq<u8>,
                    GalaxError,
                >(value)
        }
}

#[verifier::rlimit(50)]
proof fn lemma_place_reads<S: RowColumnSplitter>(
    state: EngineState<S>,
    config: EngineConfig,
    first: u64,
    pending: PendingFlush,
    begun: EngineState<S>,
    next: u64,
    reads: Seq<Seq<ColumnsRead>>,
    f: int,
    b: int,
    r: int,
    e: int,
)
    requires
        flush_begun(state, config, first, Ok(Some(pending)), begun, next),
        flush_fits(state, config, pending, first),
        contents_read(sst_contents(pending.flush.ssts@), everything(), reads),
        0 <= f < pending.flush.ssts@.len(),
        0 <= e < pending.entries@.len(),
        ({
            let data = pending.flush.ssts@[f].bytes@;
            let rows = entry_rows(data, index_or_whole(data)[b], everything(), reads[f][b]);
            &&& 0 <= b < index_or_whole(data).len()
            &&& 0 <= r < rows.len()
            &&& rows[r].key == rows_of(pending.entries@)[e].key
        }),
        rows_of(pending.entries@)[e].value is Some,
    ensures
        ({
            let data = pending.flush.ssts@[f].bytes@;
            &&& r <= u32::MAX
            &&& forall|outcome: Result<Seq<u8>, GalaxError>| #[trigger]
                value_reads(block_at(data, index_or_whole(data)[b]), 1, r as u32, outcome)
                    ==> outcome == Ok::<Seq<u8>, GalaxError>(
                    rows_of(pending.entries@)[e].value->0,
                )
        }),
{
    let rows = rows_of(pending.entries@);
    let regs = state.registrations;
    let ct = pending.sst_id;
    let chunks = chunks_of_rows(rows, flush_config(config), regs);
    let files = flushed(chunks, regs, ct, config.sst_size_bytes, first).packing.files;
    let ssts = pending.flush.ssts@;
    let blocks = files[f].1;
    assert(ssts[f].bytes@ == sst_bytes(blocks));
    assert(indexable(blocks));
    assert(file_read_whole(sst_contents(ssts)[f], everything(), reads[f]));
    lemma_sst_round_trip(blocks);
    assert(index_or_whole(sst_bytes(blocks)) == entries_of(blocks));
    lemma_entry_of_block(blocks, everything(), reads[f], b);
    lemma_flushed_from(chunks, regs, ct, config.sst_size_bytes, first, f, b);
    let (k, id) = choose|k: int, id: u64|
        0 <= k < chunks.len() && blocks[b] == #[trigger] rows_block(
            chunks[k],
            regs,
            id,
            newest(chunks[k], ct),
        );
    let chunk = chunks[k];
    assert(rows_fit(chunk, regs) && rows_encoded(chunk, regs));
    lemma_block_scan(chunk, regs, id, newest(chunk, ct), everything(), reads[f][b]);
    lemma_everything(read_back(chunk));
    assert(chunk[r].key == rows[e].key);
    lemma_blocks_cover_rows(rows, flush_config(config), regs);
    lemma_joined_has(chunks, k, r);
    let i = choose|i: int| 0 <= i < rows.len() && rows[i] == chunk[r];
    lemma_flushed_keys_differ(pending.entries@);
    assert(i == e) by {
        if i < e {
            assert(rows[i].key != rows[e].key);
        } else if e < i {
            assert(rows[e].key != rows[i].key);
        }
    }
    assert forall|outcome: Result<Seq<u8>, GalaxError>| #[trigger]
        value_reads(blocks[b], 1, r as u32, outcome) implies outcome == Ok::<Seq<u8>, GalaxError>(
        rows[e].value->0,
    ) by {
        lemma_stored_value_reads_back(chunk, regs, id, newest(chunk, ct), r as u32, outcome);
    }
}

/// The newest stored version of a key that was flushed is the one that was flushed.
#[verifier::rlimit(50)]
proof fn lemma_flushed_picked<S: RowColumnSplitter>(
    state: EngineState<S>,
    config: EngineConfig,
    first: u64,
    pending: PendingFlush,
    begun: EngineState<S>,
    next: u64,
    found: Seq<FoundSst>,
    reads: Seq<Seq<ColumnsRead>>,
    e: int,
)
    requires
        flush_begun(state, config, first, Ok(Some(pending)), begun, next),
        flush_fits(state, config, pending, first),
        found_holds(found, pending.flush.ssts@),
        contents_read(sst_contents(pending.flush.ssts@), everything(), reads),
        0 <= e < pending.entries@.len(),
    ensures
        ({
            let placed = placed_found(found, reads, found.len() as int);
            let row = read_back(rows_of(pending.entries@))[e];
            &&& e < placed.len()
            &&& placed[e].key == row.key
            &&& placed[e].value.live == (row.value is Some)
            &&& pick(placed, row.key) == Some(placed[e])
        }),
{
    let rows = rows_of(pending.entries@);
    let key = rows[e].key;
    let n = found.len() as int;
    let placed = placed_found(found, reads, n);
    lemma_flush_then_scan(
        state,
        config,
        first,
        pending,
        begun,
        next,
        everything(),
        reads,
    );
    lemma_everything(read_back(rows));
    lemma_found_places(found, pending.flush.ssts@, reads, n);
    assert(placed[e].key == read_back(rows)[e].key);
    lemma_flushed_keys_differ(pending.entries@);
    lemma_pick_wins(placed, key);
    match pick(placed, key) {
        Some(version) => {
            let i = choose|i: int| #[trigger]
                wins(placed, i) && placed[i] == version && version.key == key;
            assert(placed[i].key == read_back(rows)[i].key);
            if i < e {
                assert(rows[i].key != rows[e].key);
            } else if e < i {
                assert(rows[e].key != rows[i].key);
            }
        },
        None => {
            assert(placed[e].key != key);
        },
    }
}

/// A version that counts, and that the log has nothing newer of, is found at its place.
proof fn lemma_located_at<S: RowColumnSplitter>(
    found: Seq<FoundSst>,
    records: Seq<WalRecord>,
    placed: Seq<Stamped<StoredAt>>,
    key: Seq<u8>,
    f: int,
    b: int,
    r: u32,
)
    requires
        0 <= f < found.len(),
        found[f].data is Some,
        0 <= b < index_or_whole(found[f].data->0@).len(),
        b <= u64::MAX,
        forall|i: int, j: int|
            #![trigger found[i], found[j]]
            0 <= i < j < found.len() ==> found[i].file_id != found[j].file_id,
        !replayed(records, first_stamp(placed)).chains.contains_key(key),
        pick(placed, key) is Some,
        pick(placed, key)->0.value == (StoredAt {
            live: true,
            sst_id: found[f].file_id,
            block: b as u64,
            row: r,
        }),
    ensures
        located(opened::<S>(found, records, placed), key) == (LocatedView::Stored {
            file_id: found[f].file_id,
            block: index_or_whole(found[f].data->0@)[b],
            row: r,
            encrypted: false,
        }),
{
    lemma_opened_rows_found::<S>(found, records, placed, key);
    lemma_found_file(found, found.len() as int, f);
    assert(found.take(found.len() as int) =~= found);
}

/// A row that was flushed is found when an engine is opened on the files, unless the log
/// has a newer version of it or Zstandard fails on some keys: where it is found, its value
/// is read. A value that is empty stands for a deletion.
#[verifier::rlimit(50)]
pub proof fn lemma_flush_then_open<S: RowColumnSplitter>(
    state: EngineState<S>,
    config: EngineConfig,
    first: u64,
    pending: PendingFlush,
    begun: EngineState<S>,
    next: u64,
    found: Seq<FoundSst>,
    records: Seq<WalRecord>,
    reads: Seq<Seq<ColumnsRead>>,
    e: int,
    value: Seq<u8>,
)
    requires
        flush_begun(state, config, first, Ok(Some(pending)), begun, next),
        flush_fits(state, config, pending, first),
        found_holds(found, pending.flush.ssts@),
        forall|i: int, j: int|
            #![trigger found[i], found[j]]
            0 <= i < j < found.len() ==> found[i].file_id != found[j].file_id,
        contents_read(sst_contents(pending.flush.ssts@), everything(), reads),
        0 <= e < pending.entries@.len(),
        rows_of(pending.entries@)[e].value == Some(value),
        value.len() > 0,
        !replayed(
            records,
            first_stamp(placed_found(found, reads, found.len() as int)),
        ).chains.contains_key(pending.entries@[e].0@),
    ensures
        ({
            let placed = placed_found(found, reads, found.len() as int);
            located(opened::<S>(found, records, placed), pending.entries@[e].0@) matches LocatedView::Stored {
                file_id,
                block,
                row,
                encrypted,
            } && !encrypted && holds_value(pending.flush.ssts@, file_id, block, row, value)
        }),
{
    let key = pending.entries@[e].0@;
    let ssts = pending.flush.ssts@;
    let n = found.len() as int;
    let placed = placed_found(found, reads, n);
    lemma_flushed_picked(state, config, first, pending, begun, next, found, reads, e);
    assert(placed[e].key == key);
    assert(placed[e].value.live);
    let (f, b, r) = lemma_found_place(found, reads, n, e);
    assert(found[f].file_id == ssts[f].id);
    lemma_place_reads(state, config, first, pending, begun, next, reads, f, b, r, e);
    lemma_index_small(state, config, first, pending, begun, next, f);
    lemma_located_at::<S>(found, records, placed, key, f, b, r as u32);
    assert(ssts[f].id == found[f].file_id);
}

/// The index of a file of a flush has no more entries than can be counted.
proof fn lemma_index_small<S: RowColumnSplitter>(
    state: EngineState<S>,
    config: EngineConfig,
    first: u64,
    pending: PendingFlush,
    begun: EngineState<S>,
    next: u64,
    f: int,
)
    requires
        flush_begun(state, config, first, Ok(Some(pending)), begun, next),
        flush_fits(state, config, pending, first),
        0 <= f < pending.flush.ssts@.len(),
    ensures
        index_or_whole(pending.flush.ssts@[f].bytes@).len() <= u64::MAX,
{
    let rows = rows_of(pending.entries@);
    let regs = state.registrations;
    let chunks = chunks_of_rows(rows, flush_config(config), regs);
    let files = flushed(chunks, regs, pending.sst_id, config.sst_size_bytes, first).packing.files;
    assert(pending.flush.ssts@[f].bytes@ == sst_bytes(files[f].1));
    assert(indexable(files[f].1));
    lemma_sst_round_trip(files[f].1);
}

// The log

/// A row whose write is the last record of the log is found when an engine is opened.
pub proof fn lemma_logged_put_found<S: RowColumnSplitter>(
    found: Seq<FoundSst>,
    records: Seq<WalRecord>,
    record: WalRecord,
    placed: Seq<Stamped<StoredAt>>,
    key: Seq<u8>,
    value: Seq<u8>,
)
    requires
        key.len() <= u32::MAX,
        record.record_type == WalRecordType::RowPut,
        record.payload@ == kv_bytes(key, value),
    ensures
        located(opened::<S>(found, records.push(record), placed), key) == LocatedView::Value(value),
{
    lemma_kv_round_trip(key, value);
    let all = records.push(record);
    assert(all.drop_last() =~= records);
    lemma_opened_rows_found::<S>(found, all, placed, key);
}

/// A row whose deletion is the last record of the log is not found when an engine is
/// opened, and is not in its index.
pub proof fn lemma_logged_delete_found<S: RowColumnSplitter>(
    found: Seq<FoundSst>,
    records: Seq<WalRecord>,
    record: WalRecord,
    placed: Seq<Stamped<StoredAt>>,
)
    requires
        record.record_type == WalRecordType::RowDelete,
    ensures
        ({
            let state = opened::<S>(found, records.push(record), placed);
            &&& located(state, record.payload@) == LocatedView::Absent
            &&& !state.index.contains_key(record.payload@)
        }),
{
    let all = records.push(record);
    assert(all.drop_last() =~= records);
    lemma_opened_rows_found::<S>(found, all, placed, record.payload@);
}

proof fn lemma_batch_chain(before: Replay, rows: Seq<(Seq<u8>, Seq<u8>)>, i: int)
    requires
        0 <= i < rows.len(),
        forall|j: int| i < j < rows.len() ==> (#[trigger] rows[j]).0 != rows[i].0,
    ensures
        replay_rows(before, rows).chains.contains_key(rows[i].0),
        replay_rows(before, rows).chains[rows[i].0][0].value == Some(rows[i].1),
    decreases rows.len(),
{
    let front = rows.drop_last();
    if i < front.len() {
        assert(front[i] == rows[i]);
        assert forall|j: int| i < j < front.len() implies (#[trigger] front[j]).0 != front[i].0 by {
            assert(front[j] == rows[j]);
        }
        lemma_batch_chain(before, front, i);
        assert(rows[rows.len() - 1] == rows.last());
    }
}

/// Each row of a batch that is the last record of the log is found when an engine is
/// opened; of rows with one key, the last.
pub proof fn lemma_logged_batch_found<S: RowColumnSplitter>(
    found: Seq<FoundSst>,
    records: Seq<WalRecord>,
    record: WalRecord,
    placed: Seq<Stamped<StoredAt>>,
    rows: Seq<(Vec<u8>, Vec<u8>)>,
    i: int,
)
    requires
        rows.len() <= u32::MAX,
        forall|j: int|
            0 <= j < rows.len() ==> (#[trigger] rows[j]).0@.len() <= u32::MAX && rows[j].1@.len()
                <= u32::MAX,
        record.record_type == WalRecordType::RowBatch,
        record.payload@ == batch_bytes(rows),
        0 <= i < rows.len(),
        forall|j: int| i < j < rows.len() ==> (#[trigger] rows[j]).0@ != rows[i].0@,
    ensures
        located(opened::<S>(found, records.push(record), placed), rows[i].0@)
            == LocatedView::Value(rows[i].1@),
{
    lemma_batch_round_trip(rows);
    let all = records.push(record);
    let views = pair_views(rows);
    assert(all.drop_last() =~= records);
    assert forall|j: int| i < j < views.len() implies (#[trigger] views[j]).0 != views[i].0 by {
        assert(rows[j].0@ != rows[i].0@);
    }
    lemma_batch_chain(replayed(records, first_stamp(placed)), views, i);
    lemma_opened_rows_found::<S>(found, all, placed, rows[i].0@);
}

} // verus!
