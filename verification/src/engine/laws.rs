//! What is stored is what is read back.

use vstd::prelude::*;

use crate::bytes::{lemma_byte_range_values, lemma_le_bytes_len, lemma_lex_irreflexive, lex_lt};
use crate::art::RowLocationView;
use crate::columnar::{ColumnarRegistration, RowColumnSplitter};
use crate::engine::read::{
    block_rows, columns_read, decoded_rows, live_value, timestamps_read, ColumnsRead,
};
use crate::engine::registry::{index_or_whole, SstEntryView};
use crate::engine::state::{
    active_of, advanced, after_flush, flush_begun, flush_config, flush_ids, flushed_locations, located,
    relocated, with_files, EngineConfig, EngineState, LocatedView, PendingFlush,
};
use crate::error::{Fault, GalaxError};
use crate::flush::{
    base_codecs, base_columns, block_codecs, block_columns, chunks_of_rows, flushed, joined,
    lemma_block_map_len, lemma_blocks_cover_rows, lemma_flushed_blocks_found, lemma_joined_last,
    lemma_row_ts_round_trip, newest, rows_block, rows_encoded, stored_value, SstBlockInfo,
    SstFile,
};
use crate::memtable::versioned_value::value_view;
use crate::memtable::VersionedValue;
use crate::pax::block::{
    block_fits, chunks_of, concat, lemma_block_round_trip, lemma_column_round_trip,
    lemma_written_block_sealed, parse_block, same_rows, written_block, BlockView,
};
use crate::pax::codec::is_chunk;
use crate::pax::framing::lengths_fit;
use crate::pax::point_read::{lemma_written_value_reads_back, value_reads};
use crate::pax::CodecId;
use crate::row::{rows_of, RowView, Stamped};
use crate::sst::{block_at, entries_of, indexable, sst_bytes};

verus! {

/// Whether rows are small enough for a block: all lengths and offsets can be
/// stored.
pub open spec fn rows_fit<S: RowColumnSplitter>(
    rows: Seq<RowView>,
    registrations: Seq<ColumnarRegistration<S>>,
) -> bool {
    let columns = block_columns(rows, registrations);
    let codecs = block_codecs(rows, registrations);
    &&& block_fits(columns, codecs)
    &&& concat(chunks_of(columns, codecs)).len() <= u64::MAX
    &&& forall|i: int|
        0 <= i < rows.len() ==> (#[trigger] rows[i]).key.len() <= u32::MAX && stored_value(
            rows[i].value,
        ).len() <= u32::MAX
}

/// The block of rows.
pub open spec fn block_of<S: RowColumnSplitter>(
    rows: Seq<RowView>,
    registrations: Seq<ColumnarRegistration<S>>,
    block_id: u64,
    timestamp: u64,
) -> BlockView {
    written_block(
        block_id,
        timestamp,
        block_columns(rows, registrations),
        block_codecs(rows, registrations),
    )
}

/// The first columns of a block are those of its keys, values and timestamps.
pub proof fn lemma_base_part<S: RowColumnSplitter>(
    rows: Seq<RowView>,
    registrations: Seq<ColumnarRegistration<S>>,
)
    ensures
        block_columns(rows, registrations).len() >= 3,
        block_columns(rows, registrations).len() == block_codecs(rows, registrations).len(),
        same_rows(block_columns(rows, registrations)),
        forall|i: int|
            #![trigger block_columns(rows, registrations)[i]]
            0 <= i < 3 ==> block_columns(rows, registrations)[i] == base_columns(rows)[i]
                && block_codecs(rows, registrations)[i] == base_codecs()[i],
        block_columns(rows, registrations)[0].rows.len() == rows.len(),
{
}

/// A block of rows is read back as it was written.
#[verifier::rlimit(50)]
pub proof fn lemma_block_reads_back<S: RowColumnSplitter>(
    rows: Seq<RowView>,
    registrations: Seq<ColumnarRegistration<S>>,
    block_id: u64,
    timestamp: u64,
)
    requires
        rows_fit(rows, registrations),
    ensures
        parse_block(rows_block(rows, registrations, block_id, timestamp)) == Ok::<
            BlockView,
            GalaxError,
        >(block_of(rows, registrations, block_id, timestamp)),
{
    lemma_base_part(rows, registrations);
    lemma_written_block_sealed(
        block_id,
        timestamp,
        block_columns(rows, registrations),
        block_codecs(rows, registrations),
    );
    lemma_block_round_trip(block_of(rows, registrations, block_id, timestamp));
}

/// A point read of a stored row gives its value.
#[verifier::rlimit(40)]
pub proof fn lemma_stored_value_reads_back<S: RowColumnSplitter>(
    rows: Seq<RowView>,
    registrations: Seq<ColumnarRegistration<S>>,
    block_id: u64,
    timestamp: u64,
    row: u32,
    outcome: Result<Seq<u8>, GalaxError>,
)
    requires
        rows_fit(rows, registrations),
        rows_encoded(rows, registrations),
        row < rows.len(),
        value_reads(
            rows_block(rows, registrations, block_id, timestamp),
            1,
            row,
            outcome,
        ),
    ensures
        outcome == Ok::<Seq<u8>, GalaxError>(stored_value(rows[row as int].value)),
{
    let columns = block_columns(rows, registrations);
    let codecs = block_codecs(rows, registrations);
    lemma_base_part(rows, registrations);
    assert(columns[1] == base_columns(rows)[1]);
    assert(codecs[1] == CodecId::Uncompressed);
    let values = columns[1].rows;
    assert(is_chunk(columns[1].col_type, codecs[1], values, chunks_of(columns, codecs)[1]));
    assert(lengths_fit(values)) by {
        assert forall|i: int| 0 <= i < values.len() implies (#[trigger] values[i]).len()
            <= u32::MAX by {
            assert(values[i] == stored_value(rows[i].value));
        }
    }
    lemma_written_value_reads_back(block_id, timestamp, columns, codecs, 1, row, outcome);
}

/// What a stored row is read back as: an empty value is a tombstone.
pub open spec fn read_back(rows: Seq<RowView>) -> Seq<RowView> {
    Seq::new(
        rows.len(),
        |i: int|
            Stamped {
                key: rows[i].key,
                timestamp: rows[i].timestamp,
                value: live_value(stored_value(rows[i].value)),
            },
    )
}

/// A scan of a stored block gives its rows, with their keys, timestamps and
/// values, unless Zstandard fails on the keys: then it gives none.
#[verifier::rlimit(50)]
pub proof fn lemma_stored_rows_read_back<S: RowColumnSplitter>(
    rows: Seq<RowView>,
    registrations: Seq<ColumnarRegistration<S>>,
    block_id: u64,
    timestamp: u64,
    columns: ColumnsRead,
)
    requires
        rows_fit(rows, registrations),
        rows_encoded(rows, registrations),
        columns_read(block_of(rows, registrations, block_id, timestamp), columns),
    ensures
        ({
            let b = block_of(rows, registrations, block_id, timestamp);
            match columns.keys {
                Ok(_) => block_rows(b, columns) == read_back(rows),
                Err(error) => block_rows(b, columns) == Seq::<RowView>::empty() && error
                    == GalaxError::Internal(Fault::ZstdDecompressionFailed),
            }
        }),
{
    let cols = block_columns(rows, registrations);
    let codecs = block_codecs(rows, registrations);
    let chunks = chunks_of(cols, codecs);
    let b = block_of(rows, registrations, block_id, timestamp);
    lemma_base_part(rows, registrations);
    lemma_byte_range_values();
    assert forall|c: int| 0 <= c < 3 implies lengths_fit(#[trigger] cols[c].rows) by {
        let values = cols[c].rows;
        assert(cols[c] == base_columns(rows)[c]);
        assert forall|i: int| 0 <= i < values.len() implies (#[trigger] values[i]).len()
            <= u32::MAX by {
            assert(rows[i].key.len() <= u32::MAX);
            lemma_le_bytes_len(rows[i].timestamp as nat, 8);
        }
    }
    assert forall|c: int| 0 <= c < 3 implies is_chunk(
        cols[c].col_type,
        codecs[c],
        cols[c].rows,
        #[trigger] chunks[c],
    ) by {}
    assert(lengths_fit(cols[0].rows) && lengths_fit(cols[1].rows) && lengths_fit(cols[2].rows));
    assert(is_chunk(cols[0].col_type, codecs[0], cols[0].rows, chunks[0]));
    assert(is_chunk(cols[1].col_type, codecs[1], cols[1].rows, chunks[1]));
    assert(is_chunk(cols[2].col_type, codecs[2], cols[2].rows, chunks[2]));
    lemma_column_round_trip(block_id, timestamp, cols, codecs, 0, columns.keys);
    lemma_column_round_trip(block_id, timestamp, cols, codecs, 1, columns.values);
    assert(b.header.column_count == cols.len());
    match columns.timestamps {
        Some(outcome) => {
            lemma_column_round_trip(block_id, timestamp, cols, codecs, 2, outcome);
        },
        None => {},
    }
    match columns.keys {
        Ok(keys) => {
            let values = columns.values->Ok_0;
            let stamps = timestamps_read(columns);
            let decoded = decoded_rows(timestamp, keys, values, stamps);
            assert forall|i: int| 0 <= i < rows.len() implies decoded[i] == read_back(rows)[i] by {
                assert(stamps->0[i] == cols[2].rows[i]);
                lemma_row_ts_round_trip(rows[i].timestamp);
            }
            assert(decoded =~= read_back(rows));
        },
        Err(_) => {},
    }
}

// A flushed row is found

/// Number of rows in groups.
spec fn total(chunks: Seq<Seq<RowView>>) -> nat
    decreases chunks.len(),
{
    if chunks.len() == 0 {
        0
    } else {
        total(chunks.drop_last()) + chunks.last().len()
    }
}

proof fn lemma_joined_at(chunks: Seq<Seq<RowView>>, k: int, l: int)
    requires
        0 <= k < chunks.len(),
        0 <= l < chunks[k].len(),
    ensures
        joined(chunks).len() == total(chunks),
        total(chunks.take(k)) + l < total(chunks),
        joined(chunks)[total(chunks.take(k)) + l] == chunks[k][l],
    decreases chunks.len(),
{
    let front = chunks.drop_last();
    lemma_joined_last(chunks);
    lemma_joined_len(chunks);
    lemma_joined_len(front);
    if k < front.len() {
        lemma_joined_at(front, k, l);
        assert(front.take(k) =~= chunks.take(k));
    } else {
        assert(chunks.take(k) =~= front);
    }
}

/// Every row of a group is among all.
pub proof fn lemma_joined_has(chunks: Seq<Seq<RowView>>, k: int, l: int)
    requires
        0 <= k < chunks.len(),
        0 <= l < chunks[k].len(),
    ensures
        joined(chunks).contains(chunks[k][l]),
{
    lemma_joined_at(chunks, k, l);
}

proof fn lemma_joined_len(chunks: Seq<Seq<RowView>>)
    ensures
        joined(chunks).len() == total(chunks),
    decreases chunks.len(),
{
    if chunks.len() > 0 {
        lemma_joined_last(chunks);
        lemma_joined_len(chunks.drop_last());
    }
}

proof fn lemma_location_at(
    block_map: Seq<SstBlockInfo>,
    ids: Seq<u64>,
    chunks: Seq<Seq<RowView>>,
    k: int,
    l: int,
)
    requires
        block_map.len() == chunks.len(),
        forall|j: int|
            0 <= j < chunks.len() ==> (#[trigger] block_map[j]).row_count == chunks[j].len(),
        0 <= k < chunks.len(),
        0 <= l < chunks[k].len(),
    ensures
        flushed_locations(block_map, ids).len() == total(chunks),
        total(chunks.take(k)) + l < total(chunks),
        flushed_locations(block_map, ids)[total(chunks.take(k)) + l] == (RowLocationView::SST {
            sst_id: ids[block_map[k].sst_index as int],
            block_offset: block_map[k].block_index as u64,
            row_offset: l as u32,
        }),
    decreases chunks.len(),
{
    let front = chunks.drop_last();
    let map_front = block_map.drop_last();
    assert(block_map[block_map.len() - 1] == block_map.last());
    assert forall|j: int| 0 <= j < front.len() implies (#[trigger] map_front[j]).row_count
        == front[j].len() by {
        assert(block_map[j] == map_front[j]);
    }
    lemma_locations_len(map_front, ids, front);
    if k < front.len() {
        lemma_location_at(map_front, ids, front, k, l);
        assert(front.take(k) =~= chunks.take(k));
        assert(map_front[k] == block_map[k]);
    } else {
        assert(chunks.take(k) =~= front);
    }
}

proof fn lemma_locations_len(
    block_map: Seq<SstBlockInfo>,
    ids: Seq<u64>,
    chunks: Seq<Seq<RowView>>,
)
    requires
        block_map.len() == chunks.len(),
        forall|j: int|
            0 <= j < chunks.len() ==> (#[trigger] block_map[j]).row_count == chunks[j].len(),
    ensures
        flushed_locations(block_map, ids).len() == total(chunks),
    decreases chunks.len(),
{
    if chunks.len() > 0 {
        let front = chunks.drop_last();
        let map_front = block_map.drop_last();
        assert(block_map[block_map.len() - 1] == block_map.last());
        assert forall|j: int| 0 <= j < front.len() implies (#[trigger] map_front[j]).row_count
            == front[j].len() by {
            assert(block_map[j] == map_front[j]);
        }
        lemma_locations_len(map_front, ids, front);
    }
}

proof fn lemma_relocated(
    index: Map<Seq<u8>, RowLocationView>,
    rows: Seq<RowView>,
    locations: Seq<RowLocationView>,
    n: int,
    r: int,
)
    requires
        0 <= r < n <= rows.len(),
        rows[r].value is Some,
        forall|i: int, j: int|
            #![trigger rows[i], rows[j]]
            0 <= i < j < rows.len() ==> rows[i].key != rows[j].key,
    ensures
        relocated(index, rows, locations, n).contains_key(rows[r].key),
        relocated(index, rows, locations, n)[rows[r].key] == locations[r],
    decreases n,
{
    if r < n - 1 {
        lemma_relocated(index, rows, locations, n - 1, r);
        assert(rows[r].key != rows[n - 1].key);
    }
}

proof fn lemma_flush_ids(first: u64, n: nat)
    requires
        first + n <= u64::MAX,
    ensures
        flush_ids(first, (first + 1) as u64, n).len() == n,
        forall|i: int|
            0 <= i < n ==> #[trigger] flush_ids(first, (first + 1) as u64, n)[i] == first + i,
    decreases n,
{
    if n > 1 {
        lemma_flush_ids(first, (n - 1) as nat);
        lemma_advanced((first + 1) as u64, (n - 2) as nat);
    }
}

proof fn lemma_advanced(id: u64, n: nat)
    requires
        id + n <= u64::MAX,
    ensures
        advanced(id, n) == id + n,
    decreases n,
{
    if n > 0 {
        lemma_advanced(id, (n - 1) as nat);
    }
}

proof fn lemma_file_registered(
    files: Map<u64, SstEntryView>,
    ssts: Seq<SstFile>,
    ids: Seq<u64>,
    encrypted: bool,
    n: int,
    f: int,
)
    requires
        0 <= f < n,
        forall|i: int, j: int|
            #![trigger ids[i], ids[j]]
            0 <= i < j < n ==> ids[i] != ids[j],
    ensures
        with_files(files, ssts, ids, encrypted, n).contains_key(ids[f]),
        with_files(files, ssts, ids, encrypted, n)[ids[f]] == (SstEntryView {
            file_id: ssts[f].id,
            blocks: index_or_whole(ssts[f].bytes@),
            encrypted,
        }),
    decreases n,
{
    if f < n - 1 {
        lemma_file_registered(files, ssts, ids, encrypted, n - 1, f);
        assert(ids[f] != ids[n - 1]);
    }
}

/// Whether a flush can be told apart from others: its files are indexable, and
/// the ids for them do not run out.
pub open spec fn flush_fits<S: RowColumnSplitter>(
    state: EngineState<S>,
    config: EngineConfig,
    pending: PendingFlush,
    first: u64,
) -> bool {
    let rows = rows_of(pending.entries@);
    let chunks = chunks_of_rows(rows, flush_config(config), state.registrations);
    let packing = flushed(
        chunks,
        state.registrations,
        pending.sst_id,
        config.sst_size_bytes,
        first,
    ).packing;
    &&& chunks.len() <= u32::MAX
    &&& chunks.len() <= usize::MAX
    &&& forall|k: int|
        0 <= k < chunks.len() ==> (#[trigger] chunks[k]).len() <= usize::MAX && chunks[k].len()
            <= u32::MAX && rows_fit(chunks[k], state.registrations)
    &&& forall|f: int|
        0 <= f < packing.files.len() ==> indexable((#[trigger] packing.files[f]).1)
    &&& state.next_sst + pending.flush.ssts@.len() + 1 <= u64::MAX
}

/// The keys of the rows that a flush writes differ.
pub proof fn lemma_flushed_keys_differ(entries: Seq<(Vec<u8>, VersionedValue)>)
    requires
        forall|i: int, j: int|
            #![trigger entries[i], entries[j]]
            0 <= i < j < entries.len() ==> lex_lt(entries[i].0@, entries[j].0@),
    ensures
        ({
            let rows = rows_of(entries);
            forall|i: int, j: int|
                #![trigger rows[i], rows[j]]
                0 <= i < j < rows.len() ==> rows[i].key != rows[j].key
        }),
{
    let rows = rows_of(entries);
    assert forall|i: int, j: int|
        #![trigger rows[i], rows[j]]
        0 <= i < j < rows.len() implies rows[i].key != rows[j].key by {
        assert(lex_lt(entries[i].0@, entries[j].0@));
        lemma_lex_irreflexive(entries[i].0@);
    }
}

/// After a flush, a live row is found in the file and at the block and row that
/// hold it, and reading it there gives its value.
#[verifier::rlimit(40)]
pub proof fn lemma_flush_then_get<S: RowColumnSplitter>(
    state: EngineState<S>,
    config: EngineConfig,
    first: u64,
    pending: PendingFlush,
    begun: EngineState<S>,
    next: u64,
    encrypted: bool,
    k: int,
    l: int,
)
    requires
        flush_begun(state, config, first, Ok(Some(pending)), begun, next),
        flush_fits(state, config, pending, first),
        ({
            let chunks = chunks_of_rows(
                rows_of(pending.entries@),
                flush_config(config),
                state.registrations,
            );
            &&& 0 <= k < chunks.len()
            &&& 0 <= l < chunks[k].len()
            &&& chunks[k][l].value is Some
        }),
    ensures
        ({
            let chunks = chunks_of_rows(
                rows_of(pending.entries@),
                flush_config(config),
                state.registrations,
            );
            let row = chunks[k][l];
            let file = pending.flush.ssts@[pending.flush.block_map@[k].sst_index as int];
            &&& located(after_flush(begun, pending, encrypted), row.key) matches LocatedView::Stored {
                file_id,
                block,
                row: place,
                encrypted: hidden,
            } && {
                &&& file_id == file.id
                &&& hidden == encrypted
                &&& forall|outcome: Result<Seq<u8>, GalaxError>| #[trigger]
                    value_reads(block_at(file.bytes@, block), 1, place, outcome) ==> outcome
                        == Ok::<Seq<u8>, GalaxError>(row.value->0)
            }
        }),
{
    let rows = rows_of(pending.entries@);
    let regs = state.registrations;
    let chunks = chunks_of_rows(rows, flush_config(config), regs);
    let packing = flushed(chunks, regs, pending.sst_id, config.sst_size_bytes, first).packing;
    let block_map = pending.flush.block_map@;
    let ssts = pending.flush.ssts@;
    let ids = flush_ids(pending.sst_id, begun.next_sst, ssts.len());
    let locations = flushed_locations(block_map, ids);
    let after = after_flush(begun, pending, encrypted);
    let row = chunks[k][l];
    lemma_blocks_cover_rows(rows, flush_config(config), regs);
    assert forall|j: int| 0 <= j < chunks.len() implies (#[trigger] block_map[j]).row_count
        == chunks[j].len() by {
        lemma_flushed_blocks_found(chunks, regs, pending.sst_id, config.sst_size_bytes, first, j);
    }
    lemma_flushed_blocks_found(chunks, regs, pending.sst_id, config.sst_size_bytes, first, k);
    assert(block_map.len() == chunks.len()) by {
        lemma_block_map_len(chunks, regs, pending.sst_id, config.sst_size_bytes, first);
    }
    lemma_joined_at(chunks, k, l);
    lemma_location_at(block_map, ids, chunks, k, l);
    let r = total(chunks.take(k)) + l;
    assert(rows[r] == row);
    lemma_flushed_keys_differ(pending.entries@);
    lemma_relocated(begun.index, rows, locations, rows.len() as int, r);
    lemma_flush_ids(pending.sst_id, ssts.len());
    let f = block_map[k].sst_index as int;
    assert forall|i: int, j: int|
        #![trigger ids[i], ids[j]]
        0 <= i < j < ssts.len() implies ids[i] != ids[j] by {}
    lemma_file_registered(begun.files, ssts, ids, encrypted, ssts.len() as int, f);
    let file = ssts[f];
    assert(file.bytes@ == sst_bytes(packing.files[f].1));
    let index = entries_of(packing.files[f].1);
    assert(index_or_whole(file.bytes@) == index);
    let entry = index[block_map[k].block_index as int];
    assert(located(after, row.key) == (LocatedView::Stored {
        file_id: file.id,
        block: entry,
        row: l as u32,
        encrypted,
    }));
    let block_id = packing.block_ids[k];
    let timestamp = newest(chunks[k], pending.sst_id);
    assert forall|outcome: Result<Seq<u8>, GalaxError>| #[trigger]
        value_reads(block_at(file.bytes@, entry), 1, l as u32, outcome) implies outcome == Ok::<
        Seq<u8>,
        GalaxError,
    >(row.value->0) by {
        assert(rows_encoded(chunks[k], regs));
        lemma_stored_value_reads_back(chunks[k], regs, block_id, timestamp, l as u32, outcome);
    }
}

proof fn lemma_relocated_gone(
    index: Map<Seq<u8>, RowLocationView>,
    rows: Seq<RowView>,
    locations: Seq<RowLocationView>,
    n: int,
    r: int,
)
    requires
        0 <= r < n <= rows.len(),
        rows[r].value is None,
        forall|i: int, j: int|
            #![trigger rows[i], rows[j]]
            0 <= i < j < rows.len() ==> rows[i].key != rows[j].key,
    ensures
        !relocated(index, rows, locations, n).contains_key(rows[r].key),
    decreases n,
{
    if r < n - 1 {
        lemma_relocated_gone(index, rows, locations, n - 1, r);
        assert(rows[r].key != rows[n - 1].key);
    }
}

proof fn lemma_relocated_others(
    index: Map<Seq<u8>, RowLocationView>,
    rows: Seq<RowView>,
    locations: Seq<RowLocationView>,
    n: int,
    key: Seq<u8>,
)
    requires
        0 <= n <= rows.len(),
        forall|i: int| 0 <= i < n ==> (#[trigger] rows[i]).key != key,
    ensures
        relocated(index, rows, locations, n).contains_key(key) == index.contains_key(key),
        index.contains_key(key) ==> relocated(index, rows, locations, n)[key] == index[key],
    decreases n,
{
    if n > 0 {
        lemma_relocated_others(index, rows, locations, n - 1, key);
        assert(rows[n - 1].key != key);
    }
}

proof fn lemma_files_stay(
    files: Map<u64, SstEntryView>,
    ssts: Seq<SstFile>,
    ids: Seq<u64>,
    encrypted: bool,
    n: int,
    id: u64,
)
    requires
        forall|i: int| 0 <= i < n ==> #[trigger] ids[i] != id,
    ensures
        with_files(files, ssts, ids, encrypted, n).contains_key(id) == files.contains_key(id),
        files.contains_key(id) ==> with_files(files, ssts, ids, encrypted, n)[id] == files[id],
    decreases n,
{
    if n > 0 {
        lemma_files_stay(files, ssts, ids, encrypted, n - 1, id);
        assert(ids[n - 1] != id);
    }
}

proof fn lemma_every_row_located<S: RowColumnSplitter>(
    state: EngineState<S>,
    config: EngineConfig,
    first: u64,
    pending: PendingFlush,
    begun: EngineState<S>,
    next: u64,
)
    requires
        flush_begun(state, config, first, Ok(Some(pending)), begun, next),
        flush_fits(state, config, pending, first),
    ensures
        ({
            let rows = rows_of(pending.entries@);
            let ids = flush_ids(pending.sst_id, begun.next_sst, pending.flush.ssts@.len());
            flushed_locations(pending.flush.block_map@, ids).len() == rows.len()
        }),
{
    let rows = rows_of(pending.entries@);
    let regs = state.registrations;
    let chunks = chunks_of_rows(rows, flush_config(config), regs);
    let block_map = pending.flush.block_map@;
    let ids = flush_ids(pending.sst_id, begun.next_sst, pending.flush.ssts@.len());
    lemma_blocks_cover_rows(rows, flush_config(config), regs);
    assert forall|j: int| 0 <= j < chunks.len() implies (#[trigger] block_map[j]).row_count
        == chunks[j].len() by {
        lemma_flushed_blocks_found(chunks, regs, pending.sst_id, config.sst_size_bytes, first, j);
    }
    assert(block_map.len() == chunks.len()) by {
        lemma_block_map_len(chunks, regs, pending.sst_id, config.sst_size_bytes, first);
    }
    lemma_locations_len(block_map, ids, chunks);
    if chunks.len() > 0 {
        assert(chunks[0].len() > 0);
        lemma_joined_at(chunks, 0, 0);
    }
}

/// After a flush, a row whose last write was a deletion is not found.
pub proof fn lemma_flush_then_deleted<S: RowColumnSplitter>(
    state: EngineState<S>,
    config: EngineConfig,
    first: u64,
    pending: PendingFlush,
    begun: EngineState<S>,
    next: u64,
    encrypted: bool,
    key: Seq<u8>,
)
    requires
        flush_begun(state, config, first, Ok(Some(pending)), begun, next),
        flush_fits(state, config, pending, first),
        active_of(state).contains_key(key),
        active_of(state)[key][0].value is None,
    ensures
        located(after_flush(begun, pending, encrypted), key) == LocatedView::Absent,
{
    let entries = pending.entries@;
    let rows = rows_of(entries);
    let ids = flush_ids(pending.sst_id, begun.next_sst, pending.flush.ssts@.len());
    let locations = flushed_locations(pending.flush.block_map@, ids);
    let keep = |key: Seq<u8>| true;
    assert(keep(key));
    let r = choose|r: int| 0 <= r < entries.len() && (#[trigger] entries[r]).0@ == key;
    assert(entries[r].1.chain() == active_of(state)[key]);
    assert(entries[r].1.chain()[0].value == value_view(entries[r].1.value));
    assert(rows[r].key == key && rows[r].value is None);
    lemma_every_row_located(state, config, first, pending, begun, next);
    lemma_flushed_keys_differ(entries);
    lemma_relocated_gone(begun.index, rows, locations, rows.len() as int, r);
}

proof fn lemma_flush_keeps_places<S: RowColumnSplitter>(
    state: EngineState<S>,
    config: EngineConfig,
    first: u64,
    pending: PendingFlush,
    begun: EngineState<S>,
    next: u64,
    encrypted: bool,
    key: Seq<u8>,
)
    requires
        flush_begun(state, config, first, Ok(Some(pending)), begun, next),
        flush_fits(state, config, pending, first),
        !active_of(state).contains_key(key),
    ensures
        after_flush(begun, pending, encrypted).index.contains_key(key) == state.index.contains_key(
            key,
        ),
        state.index.contains_key(key) ==> after_flush(begun, pending, encrypted).index[key]
            == state.index[key],
{
    let entries = pending.entries@;
    let rows = rows_of(entries);
    let ids = flush_ids(pending.sst_id, begun.next_sst, pending.flush.ssts@.len());
    let locations = flushed_locations(pending.flush.block_map@, ids);
    lemma_every_row_located(state, config, first, pending, begun, next);
    assert forall|i: int| 0 <= i < rows.len() implies (#[trigger] rows[i]).key != key by {
        assert(active_of(state).contains_key(entries[i].0@));
    }
    lemma_relocated_others(begun.index, rows, locations, rows.len() as int, key);
}

proof fn lemma_flush_keeps_files<S: RowColumnSplitter>(
    begun: EngineState<S>,
    pending: PendingFlush,
    encrypted: bool,
    id: u64,
)
    requires
        pending.sst_id + pending.flush.ssts@.len() <= u64::MAX,
        begun.next_sst == pending.sst_id + 1,
        id < pending.sst_id,
    ensures
        after_flush(begun, pending, encrypted).files.contains_key(id) == begun.files.contains_key(
            id,
        ),
        begun.files.contains_key(id) ==> after_flush(begun, pending, encrypted).files[id]
            == begun.files[id],
{
    let ssts = pending.flush.ssts@;
    let ids = flush_ids(pending.sst_id, begun.next_sst, ssts.len());
    lemma_flush_ids(pending.sst_id, ssts.len());
    lemma_files_stay(begun.files, ssts, ids, encrypted, ssts.len() as int, id);
}

/// A flush leaves the rows alone that it does not write: a row in a file is found where it
/// was, and a row that was not there is not there after it.
pub proof fn lemma_flush_spares_others<S: RowColumnSplitter>(
    state: EngineState<S>,
    config: EngineConfig,
    first: u64,
    pending: PendingFlush,
    begun: EngineState<S>,
    next: u64,
    encrypted: bool,
    key: Seq<u8>,
)
    requires
        flush_begun(state, config, first, Ok(Some(pending)), begun, next),
        flush_fits(state, config, pending, first),
        !active_of(state).contains_key(key),
        match located(state, key) {
            LocatedView::Value(_) => false,
            LocatedView::Absent => !state.index.contains_key(key),
            LocatedView::Stored { .. } => true,
        },
        forall|id: u64| #[trigger] state.files.contains_key(id) ==> id < state.next_sst,
    ensures
        located(after_flush(begun, pending, encrypted), key) == located(state, key),
{
    lemma_flush_keeps_places(state, config, first, pending, begun, next, encrypted, key);
    if state.index.contains_key(key) {
        match state.index[key] {
            RowLocationView::SST { sst_id, block_offset, row_offset } => {
                assert(state.files.contains_key(sst_id));
                lemma_flush_keeps_files(begun, pending, encrypted, sst_id);
            },
            RowLocationView::Memtable { shard, key: _ } => {},
        }
    }
}

} // verus!
