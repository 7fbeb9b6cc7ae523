//! The state of the engine, and what each operation does to it.
//!
//! Input and output are up to the caller. A write goes to the write-ahead log
//! first, under a timestamp from [`Engine::next_ts`], and is then applied. A
//! flush or a compaction hands out the contents of the files to write, and is
//! committed once they are written.

use vstd::prelude::*;
use vstd::slice::slice_to_vec;

use crate::art::{ArtIndex, RowLocation, RowLocationView};
use crate::bytes::bytes_equal;
use crate::column::Timestamp;
use crate::columnar::{
    ColumnPredicate, ColumnarBatch, ColumnarRegistration, RowColumnSplitter,
};
use crate::engine::columnar_scan::{columnar_scan, predicate_views, scan_columnar};
use crate::engine::compact::{
    compacts_to, input_rows, inputs_read, plan_compaction, CompactionOutput, CompactionPlan,
};
use crate::engine::kv::{decode_batch, decode_kv, pair_views, parse_batch, parse_kv};
use crate::engine::newest::pick;
use crate::engine::read::ColumnsRead;
use crate::engine::recover::{
    first_stamp, found_read, lemma_first_stamp, open_entries, opened_index, place_found,
    placed_found, stamp_after, StoredAt,
};
use crate::engine::registry::{index_or_whole, SstEntry, SstEntryView, SstRegistry};
use crate::engine::scan::{
    asked_at, asked_prefix, checksums_of, files_read, lists_latest, lists_visible, scan_all,
    scan_all_at, scan_all_with_prefix, snapshot_checksums, stored_rows,
};
use crate::engine::versions::lists_versions;
use crate::error::{GalaxError, GalaxResult};
use crate::flush::{
    blocks_in_files, counted_up, flush_entries, flushes_to, next_id, BlockIdCounter, FlushConfig,
    FlushResult, SstBlockInfo, SstFile,
};
use crate::memtable::manager::{lemma_put_on_top, newest, MemtableManager};
use crate::memtable::versioned_value::{value_view, Version, VersionedValue};
use crate::memtable::{entry_size, lists, max_permits, put_version, shard_of, Memtable};
use crate::pax::point_read::value_reads;
use crate::pax::read_value_from_raw_block;
use crate::row::{rows_of, RowView, Stamped};
use crate::sst::BlockIndexEntry;

verus! {

/// Configuration of the engine.
#[derive(Clone, Copy, Debug)]
pub struct EngineConfig {
    /// Size at which a memtable is sealed.
    pub memtable_size_bytes: u64,
    /// Budget of sealed memtables before writers wait.
    pub back_pressure_bytes: u64,
    /// Interval of group commits to the write-ahead log.
    pub wal_group_commit_ms: u64,
    /// Target size of an SST file.
    pub sst_size_bytes: u64,
    /// Maximum number of rows in a block.
    pub max_rows_per_sst: usize,
    /// Size of the SST cache.
    pub sst_cache_bytes: u64,
    /// Number of workers that build the files of a compaction.
    pub compaction_concurrency: usize,
    /// Number of SST files from which on they are compacted.
    pub l0_compaction_trigger: usize,
}

impl Default for EngineConfig {
    fn default() -> (config: Self)
        ensures
            config.memtable_size_bytes == 67108864,
            config.back_pressure_bytes == 268435456,
            config.wal_group_commit_ms == 10,
            config.sst_size_bytes == 8388608,
            config.max_rows_per_sst == 100000,
            config.sst_cache_bytes == 1073741824,
            config.compaction_concurrency == 4,
            config.l0_compaction_trigger == 4,
    {
        EngineConfig {
            memtable_size_bytes: 67108864,
            back_pressure_bytes: 268435456,
            wal_group_commit_ms: 10,
            sst_size_bytes: 8388608,
            max_rows_per_sst: 100000,
            sst_cache_bytes: 1073741824,
            compaction_concurrency: 4,
            l0_compaction_trigger: 4,
        }
    }
}

/// Kinds of records in the write-ahead log.
#[derive(Clone, Copy, PartialEq, Eq, Structural, Debug)]
pub enum WalRecordType {
    /// A row was written: key and value.
    RowPut,
    /// Rows were written together: keys and values.
    RowBatch,
    /// A row was deleted: the key.
    RowDelete,
    /// An entry of a vector index was added.
    DeltaInsert,
    /// An entry of a vector index was removed.
    DeltaTombstone,
    /// Everything before has been flushed.
    Checkpoint,
    /// A value was moved to the blob log.
    BlobRef,
}

/// A record of the write-ahead log.
#[derive(Debug)]
pub struct WalRecord {
    pub record_type: WalRecordType,
    pub payload: Vec<u8>,
}

/// An SST file found in the data directory: its id and its contents, if they
/// could be read.
#[derive(Debug)]
pub struct FoundSst {
    pub file_id: u64,
    pub data: Option<Vec<u8>>,
}

/// What the engine holds.
pub ghost struct EngineState<S: RowColumnSplitter> {
    /// The memtables, the active one last.
    pub tables: Seq<Map<Seq<u8>, Seq<Version>>>,
    /// Where each row is.
    pub index: Map<Seq<u8>, RowLocationView>,
    /// The SST files.
    pub files: Map<u64, SstEntryView>,
    /// The next timestamp.
    pub clock: u64,
    /// The next id of an SST file.
    pub next_sst: u64,
    /// Approximate number of rows.
    pub rows: u64,
    /// The tables stored by column.
    pub registrations: Seq<ColumnarRegistration<S>>,
}

/// The active memtable.
pub open spec fn active_of<S: RowColumnSplitter>(state: EngineState<S>) -> Map<
    Seq<u8>,
    Seq<Version>,
> {
    state.tables.last()
}

/// Where a row is that was written to the memtable.
pub open spec fn memtable_location(key: Seq<u8>) -> RowLocationView {
    RowLocationView::Memtable { shard: shard_of(key) as u8, key }
}

/// The state with a new version of a key.
pub open spec fn with_version<S: RowColumnSplitter>(
    state: EngineState<S>,
    key: Seq<u8>,
    version: Version,
) -> EngineState<S> {
    EngineState {
        tables: state.tables.drop_last().push(put_version(active_of(state), key, version)),
        ..state
    }
}

/// The state after a write.
pub open spec fn after_put<S: RowColumnSplitter>(
    state: EngineState<S>,
    timestamp: u64,
    key: Seq<u8>,
    value: Seq<u8>,
) -> EngineState<S> {
    EngineState {
        index: state.index.insert(key, memtable_location(key)),
        rows: next_id(state.rows),
        ..with_version(state, key, Version { timestamp, value: Some(value) })
    }
}

/// The state after a deletion.
pub open spec fn after_delete<S: RowColumnSplitter>(
    state: EngineState<S>,
    timestamp: u64,
    key: Seq<u8>,
) -> EngineState<S> {
    EngineState {
        index: state.index.remove(key),
        ..with_version(state, key, Version { timestamp, value: None })
    }
}

// Reading a row

/// Where the value of a row is to be had.
#[derive(Debug)]
pub enum Located {
    /// There is no such row.
    Absent,
    /// The value.
    Value(Vec<u8>),
    /// The value stands in a block of a file.
    Stored {
        /// Id in the name of the file.
        file_id: u64,
        /// Where the block stands in the file.
        block: BlockIndexEntry,
        /// The row within the block.
        row: u32,
        /// Whether the block is encrypted.
        encrypted: bool,
    },
}

/// Where the value of a row is to be had.
pub ghost enum LocatedView {
    Absent,
    Value(Seq<u8>),
    Stored { file_id: u64, block: BlockIndexEntry, row: u32, encrypted: bool },
}

impl View for Located {
    type V = LocatedView;

    open spec fn view(&self) -> LocatedView {
        match *self {
            Located::Absent => LocatedView::Absent,
            Located::Value(value) => LocatedView::Value(value@),
            Located::Stored { file_id, block, row, encrypted } => LocatedView::Stored {
                file_id,
                block,
                row,
                encrypted,
            },
        }
    }
}

/// Where the value of a row is to be had.
pub open spec fn located<S: RowColumnSplitter>(state: EngineState<S>, key: Seq<u8>) -> LocatedView {
    if !state.index.contains_key(key) {
        LocatedView::Absent
    } else {
        match state.index[key] {
            RowLocationView::Memtable { shard, key: _ } => match newest(state.tables, key) {
                Some(Some(value)) => LocatedView::Value(value),
                _ => LocatedView::Absent,
            },
            RowLocationView::SST { sst_id, block_offset, row_offset } => if state.files.contains_key(
                sst_id,
            ) && block_offset < state.files[sst_id].blocks.len() {
                LocatedView::Stored {
                    file_id: state.files[sst_id].file_id,
                    block: state.files[sst_id].blocks[block_offset as int],
                    row: row_offset,
                    encrypted: state.files[sst_id].encrypted,
                }
            } else {
                LocatedView::Absent
            },
        }
    }
}

/// Reads the value of a row out of its block.
pub fn read_stored(block: &[u8], row: u32) -> (value: Option<Vec<u8>>)
    ensures
        match value {
            Some(bytes) => value_reads(block@, 1, row, Ok(bytes@)),
            None => exists|error: GalaxError| value_reads(
                block@,
                1,
                row,
                Err(error),
            ),
        },
{
    match read_value_from_raw_block(block, 1, row) {
        Ok(value) => Some(value),
        Err(error) => {
            assert(value_reads(block@, 1, row, Err(error)));
            None
        },
    }
}

/// A write is what the next read of its key gives.
pub proof fn lemma_put_then_get<S: RowColumnSplitter>(
    state: EngineState<S>,
    timestamp: u64,
    key: Seq<u8>,
    value: Seq<u8>,
)
    requires
        state.tables.len() > 0,
    ensures
        located(after_put(state, timestamp, key, value), key) == LocatedView::Value(value),
{
    lemma_put_on_top(
        state.tables,
        key,
        Version { timestamp, value: Some(value) },
        key,
    );
}

/// A deleted row is not found.
pub proof fn lemma_delete_then_get<S: RowColumnSplitter>(
    state: EngineState<S>,
    timestamp: u64,
    key: Seq<u8>,
)
    ensures
        located(after_delete(state, timestamp, key), key) == LocatedView::Absent,
{
}

/// Writes and deletions leave other rows alone.
pub proof fn lemma_others_unchanged<S: RowColumnSplitter>(
    state: EngineState<S>,
    timestamp: u64,
    key: Seq<u8>,
    value: Seq<u8>,
    other: Seq<u8>,
)
    requires
        state.tables.len() > 0,
        other != key,
    ensures
        located(after_put(state, timestamp, key, value), other) == located(state, other),
        located(after_delete(state, timestamp, key), other) == located(state, other),
{
    lemma_put_on_top(
        state.tables,
        key,
        Version { timestamp, value: Some(value) },
        other,
    );
    lemma_put_on_top(
        state.tables,
        key,
        Version { timestamp, value: None },
        other,
    );
}

/// A write goes on top of the versions of its key, which stay, and so does a deletion. A write
/// counts as a row. Nothing else of the engine changes.
pub proof fn lemma_versions_stay<S: RowColumnSplitter>(
    state: EngineState<S>,
    timestamp: u64,
    key: Seq<u8>,
    value: Seq<u8>,
)
    requires
        state.tables.len() > 0,
        state.rows < u64::MAX,
    ensures
        ({
            let put = after_put(state, timestamp, key, value);
            let gone = after_delete(state, timestamp, key);
            let older = if active_of(state).contains_key(key) {
                active_of(state)[key]
            } else {
                Seq::<Version>::empty()
            };
            &&& active_of(put)[key] == seq![Version { timestamp, value: Some(value) }] + older
            &&& active_of(gone)[key] == seq![Version { timestamp, value: None }] + older
            &&& put.tables.drop_last() == state.tables.drop_last()
            &&& gone.tables.drop_last() == state.tables.drop_last()
            &&& put.rows == state.rows + 1
            &&& gone.rows == state.rows
            &&& put.files == state.files && gone.files == state.files
            &&& put.clock == state.clock && gone.clock == state.clock
            &&& put.next_sst == state.next_sst && gone.next_sst == state.next_sst
            &&& put.registrations == state.registrations && gone.registrations
                == state.registrations
        }),
{
    let put = after_put(state, timestamp, key, value);
    let gone = after_delete(state, timestamp, key);
    assert(put.tables.drop_last() =~= state.tables.drop_last());
    assert(gone.tables.drop_last() =~= state.tables.drop_last());
    let older = if active_of(state).contains_key(key) {
        active_of(state)[key]
    } else {
        Seq::<Version>::empty()
    };
    assert(active_of(put)[key] =~= seq![Version { timestamp, value: Some(value) }] + older);
    assert(active_of(gone)[key] =~= seq![Version { timestamp, value: None }] + older);
}

// Recovery

/// The size of a memtable when a version was added, modulo 2 to the power 64.
pub open spec fn grown(bytes: u64, key: Seq<u8>, value: Option<Seq<u8>>) -> u64 {
    ((bytes + entry_size(key, value)) % 0x1_0000_0000_0000_0000) as u64
}

/// What replaying records comes to.
pub ghost struct Replay {
    pub chains: Map<Seq<u8>, Seq<Version>>,
    pub clock: u64,
    pub puts: u64,
    pub bytes: u64,
}

impl Replay {
    /// A version of a key is written, under a new timestamp.
    pub open spec fn written(self, key: Seq<u8>, value: Option<Seq<u8>>) -> Replay {
        Replay {
            chains: put_version(
                self.chains,
                key,
                Version { timestamp: self.clock, value },
            ),
            clock: next_id(self.clock),
            puts: if value is Some {
                next_id(self.puts)
            } else {
                self.puts
            },
            bytes: grown(self.bytes, key, value),
        }
    }
}

/// What replaying the rows of a batch comes to.
pub open spec fn replay_rows(before: Replay, rows: Seq<(Seq<u8>, Seq<u8>)>) -> Replay
    decreases rows.len(),
{
    if rows.len() == 0 {
        before
    } else {
        replay_rows(before, rows.drop_last()).written(rows.last().0, Some(rows.last().1))
    }
}

/// What replaying one more record comes to.
pub open spec fn replay_record(before: Replay, record: WalRecord) -> Replay {
    match record.record_type {
        WalRecordType::RowPut => match parse_kv(record.payload@) {
            Some((key, value)) => before.written(key, Some(value)),
            None => before,
        },
        WalRecordType::RowBatch => match parse_batch(record.payload@) {
            Some(rows) => replay_rows(before, rows),
            None => before,
        },
        WalRecordType::RowDelete => before.written(record.payload@, None),
        _ => before,
    }
}

/// What replaying records comes to: rows are written in the order of the log,
/// under timestamps from `first` on. Records that do not decode, and those of other
/// layers, are passed over.
pub open spec fn replayed(records: Seq<WalRecord>, first: u64) -> Replay
    decreases records.len(),
{
    if records.len() == 0 {
        Replay {
            chains: Map::<Seq<u8>, Seq<Version>>::empty(),
            clock: first,
            puts: 0,
            bytes: 0,
        }
    } else {
        replay_record(replayed(records.drop_last(), first), records.last())
    }
}

/// A record of the log that writes or deletes a row does so at the time of the clock, which
/// then goes on; writes are counted. A record that does not decode, or that is not about
/// rows, changes nothing.
pub proof fn lemma_replay_stamps(before: Replay, record: WalRecord)
    requires
        before.clock < u64::MAX,
        before.puts < u64::MAX,
    ensures
        ({
            let after = replay_record(before, record);
            let kind = record.record_type;
            &&& kind == WalRecordType::RowPut ==> match parse_kv(record.payload@) {
                Some((key, value)) => {
                    &&& after.chains.contains_key(key)
                    &&& after.chains[key][0] == Version {
                        timestamp: before.clock,
                        value: Some(value),
                    }
                    &&& after.clock == before.clock + 1
                    &&& after.puts == before.puts + 1
                },
                None => after == before,
            }
            &&& kind == WalRecordType::RowDelete ==> {
                &&& after.chains.contains_key(record.payload@)
                &&& after.chains[record.payload@][0] == Version {
                    timestamp: before.clock,
                    value: None,
                }
                &&& after.clock == before.clock + 1
                &&& after.puts == before.puts
            }
            &&& kind == WalRecordType::RowBatch && parse_batch(record.payload@) is None
                ==> after == before
            &&& kind != WalRecordType::RowPut && kind != WalRecordType::RowDelete && kind
                != WalRecordType::RowBatch ==> after == before
        }),
{
}

/// Each row that is replayed from the log makes the memtable larger by its key, its value, and
/// what each version takes beside them.
pub proof fn lemma_replay_bytes(before: Replay, key: Seq<u8>, value: Seq<u8>)
    requires
        before.bytes + key.len() + value.len() + 16 <= u64::MAX,
    ensures
        before.written(key, Some(value)).bytes == before.bytes + key.len() + value.len() + 16,
        before.written(key, None).bytes == before.bytes + key.len() + 16,
{
}

/// The state of an engine that is opened on files, whose versions were found at these
/// places, and a log.
pub open spec fn opened<S: RowColumnSplitter>(
    found: Seq<FoundSst>,
    records: Seq<WalRecord>,
    placed: Seq<Stamped<StoredAt>>,
) -> EngineState<S> {
    let replay = replayed(records, first_stamp(placed));
    EngineState {
        tables: seq![replay.chains],
        index: opened_index(replay.chains, placed),
        files: found_files(found),
        clock: replay.clock,
        next_sst: first_sst_id(found),
        rows: replay.puts,
        registrations: Seq::<ColumnarRegistration<S>>::empty(),
    }
}

/// The files found, registered under their own ids.
pub open spec fn found_files(found: Seq<FoundSst>) -> Map<u64, SstEntryView>
    decreases found.len(),
{
    if found.len() == 0 {
        Map::<u64, SstEntryView>::empty()
    } else {
        let last = found.last();
        found_files(found.drop_last()).insert(
            last.file_id,
            found_entry(last),
        )
    }
}

/// What is known of a file found.
pub open spec fn found_entry(found: FoundSst) -> SstEntryView {
    SstEntryView {
        file_id: found.file_id,
        blocks: match found.data {
            Some(data) => index_or_whole(data@),
            None => Seq::<BlockIndexEntry>::empty(),
        },
        encrypted: false,
    }
}

/// The greatest id of files found, 0 if there are none.
pub open spec fn greatest_id(found: Seq<FoundSst>) -> u64
    decreases found.len(),
{
    if found.len() == 0 {
        0
    } else {
        let before = greatest_id(found.drop_last());
        if found.last().file_id > before {
            found.last().file_id
        } else {
            before
        }
    }
}

/// The first id that is handed out after a restart: the one after the greatest
/// that was found.
pub open spec fn first_sst_id(found: Seq<FoundSst>) -> u64 {
    if greatest_id(found) == u64::MAX {
        u64::MAX
    } else {
        (greatest_id(found) + 1) as u64
    }
}

/// A file that is written after a restart takes the place of none that was found.
pub proof fn lemma_new_ids_are_fresh(found: Seq<FoundSst>, i: int)
    requires
        0 <= i < found.len(),
    ensures
        found[i].file_id < first_sst_id(found) || first_sst_id(found) == u64::MAX,
        found_files(found).contains_key(found[i].file_id),
    decreases found.len(),
{
    lemma_greatest_id(found, i);
    lemma_found_listed(found, i);
}

/// The first id after a restart is 1 if there are no files with greater ids, or else the one
/// after that of a file.
pub proof fn lemma_first_sst_id_next(found: Seq<FoundSst>)
    ensures
        first_sst_id(found) == 1 || exists|i: int|
            0 <= i < found.len() && ((#[trigger] found[i]).file_id + 1 == first_sst_id(found)
                || found[i].file_id == u64::MAX),
{
    lemma_greatest_is_one(found);
}

proof fn lemma_greatest_is_one(found: Seq<FoundSst>)
    ensures
        greatest_id(found) == 0 || exists|i: int|
            0 <= i < found.len() && (#[trigger] found[i]).file_id == greatest_id(found),
    decreases found.len(),
{
    if found.len() > 0 {
        let front = found.drop_last();
        lemma_greatest_is_one(front);
        assert(found[found.len() - 1] == found.last());
        if found.last().file_id <= greatest_id(front) && greatest_id(front) != 0 {
            let i = choose|i: int|
                0 <= i < front.len() && (#[trigger] front[i]).file_id == greatest_id(front);
            assert(found[i] == front[i]);
        }
    }
}

proof fn lemma_greatest_id(found: Seq<FoundSst>, i: int)
    requires
        0 <= i < found.len(),
    ensures
        found[i].file_id <= greatest_id(found),
    decreases found.len(),
{
    if i < found.len() - 1 {
        lemma_greatest_id(found.drop_last(), i);
        assert(found.drop_last()[i] == found[i]);
    }
}

proof fn lemma_found_listed(found: Seq<FoundSst>, i: int)
    requires
        0 <= i < found.len(),
    ensures
        found_files(found).contains_key(found[i].file_id),
    decreases found.len(),
{
    if i < found.len() - 1 {
        lemma_found_listed(found.drop_last(), i);
        assert(found.drop_last()[i] == found[i]);
    }
}

/// What is found of a key when an engine is opened: what the log says of it last, or else
/// the place of its newest version in the files.
pub proof fn lemma_opened_rows_found<S: RowColumnSplitter>(
    found: Seq<FoundSst>,
    records: Seq<WalRecord>,
    placed: Seq<Stamped<StoredAt>>,
    key: Seq<u8>,
)
    ensures
        ({
            let state = opened::<S>(found, records, placed);
            let chains = replayed(records, first_stamp(placed)).chains;
            if chains.contains_key(key) {
                located(state, key) == match chains[key][0].value {
                    Some(value) => LocatedView::Value(value),
                    None => LocatedView::Absent,
                }
            } else {
                match pick(placed, key) {
                    Some(version) => if version.value.live {
                        state.index.contains_key(key) && state.index[key]
                            == version.value.location()
                    } else {
                        located(state, key) == LocatedView::Absent
                    },
                    None => located(state, key) == LocatedView::Absent,
                }
            }
        }),
{
    let state = opened::<S>(found, records, placed);
    let chains = replayed(records, first_stamp(placed)).chains;
    assert(state.tables.last() == chains);
    assert(state.tables.drop_last() =~= Seq::<Map<Seq<u8>, Seq<Version>>>::empty());
}

/// When an engine is opened, a row is indexed if and only if there is one: its last write in
/// the log, or else its newest version in the files, is no deletion.
pub proof fn lemma_opened_index_live<S: RowColumnSplitter>(
    found: Seq<FoundSst>,
    records: Seq<WalRecord>,
    placed: Seq<Stamped<StoredAt>>,
    key: Seq<u8>,
)
    ensures
        ({
            let state = opened::<S>(found, records, placed);
            let chains = replayed(records, first_stamp(placed)).chains;
            state.index.contains_key(key) <==> if chains.contains_key(key) {
                chains[key][0].value is Some
            } else {
                pick(placed, key) is Some && pick(placed, key)->0.value.live
            }
        }),
{
}

/// Number of rows that a log writes or deletes.
pub open spec fn log_rows(records: Seq<WalRecord>) -> nat
    decreases records.len(),
{
    if records.len() == 0 {
        0
    } else {
        log_rows(records.drop_last()) + match records.last().record_type {
            WalRecordType::RowPut => if parse_kv(records.last().payload@) is Some {
                1
            } else {
                0
            },
            WalRecordType::RowBatch => match parse_batch(records.last().payload@) {
                Some(rows) => rows.len(),
                None => 0,
            },
            WalRecordType::RowDelete => 1,
            _ => 0,
        }
    }
}

proof fn lemma_rows_clock(before: Replay, rows: Seq<(Seq<u8>, Seq<u8>)>)
    requires
        before.clock + rows.len() <= u64::MAX,
    ensures
        replay_rows(before, rows).clock == before.clock + rows.len(),
    decreases rows.len(),
{
    if rows.len() > 0 {
        lemma_rows_clock(before, rows.drop_last());
    }
}

proof fn lemma_replay_clock(records: Seq<WalRecord>, first: u64)
    requires
        first + log_rows(records) <= u64::MAX,
    ensures
        replayed(records, first).clock == first + log_rows(records),
    decreases records.len(),
{
    if records.len() > 0 {
        let front = records.drop_last();
        lemma_replay_clock(front, first);
        if let WalRecordType::RowBatch = records.last().record_type {
            if let Some(rows) = parse_batch(records.last().payload@) {
                lemma_rows_clock(replayed(front, first), rows);
            }
        }
    }
}

/// The clock of an engine that is opened is past every timestamp that is stored, unless
/// timestamps run out.
pub proof fn lemma_opened_clock<S: RowColumnSplitter>(
    found: Seq<FoundSst>,
    records: Seq<WalRecord>,
    placed: Seq<Stamped<StoredAt>>,
    i: int,
)
    requires
        0 <= i < placed.len(),
        first_stamp(placed) + log_rows(records) <= u64::MAX,
        placed[i].timestamp < u64::MAX,
    ensures
        placed[i].timestamp < opened::<S>(found, records, placed).clock,
{
    lemma_first_stamp(placed, i);
    lemma_replay_clock(records, first_stamp(placed));
}

// Flush

/// A flush whose files are to be written.
#[derive(Debug)]
pub struct PendingFlush {
    /// Id under which the first file is registered.
    pub sst_id: u64,
    /// The files and their blocks.
    pub flush: FlushResult,
    /// The entries that were flushed.
    pub entries: Vec<(Vec<u8>, VersionedValue)>,
}

/// Ids under which the files of a flush are registered: the first one was
/// taken when the flush began.
pub open spec fn flush_ids(first: u64, next: u64, n: nat) -> Seq<u64>
    decreases n,
{
    if n == 0 {
        Seq::<u64>::empty()
    } else if n == 1 {
        seq![first]
    } else {
        flush_ids(first, next, (n - 1) as nat).push(advanced(next, (n - 2) as nat))
    }
}

/// The id `n` steps on.
pub open spec fn advanced(id: u64, n: nat) -> u64
    decreases n,
{
    if n == 0 {
        id
    } else {
        next_id(advanced(id, (n - 1) as nat))
    }
}

/// Where each row of a flush is.
pub open spec fn flushed_locations(block_map: Seq<SstBlockInfo>, ids: Seq<u64>) -> Seq<
    RowLocationView,
>
    decreases block_map.len(),
{
    if block_map.len() == 0 {
        Seq::<RowLocationView>::empty()
    } else {
        let info = block_map.last();
        flushed_locations(block_map.drop_last(), ids) + Seq::new(
            info.row_count as nat,
            |r: int|
                RowLocationView::SST {
                    sst_id: ids[info.sst_index as int],
                    block_offset: info.block_index as u64,
                    row_offset: r as u32,
                },
        )
    }
}

/// The index after a flush: rows are where the flush put them, and deleted rows
/// are in it no longer.
pub open spec fn relocated(
    index: Map<Seq<u8>, RowLocationView>,
    rows: Seq<RowView>,
    locations: Seq<RowLocationView>,
    n: int,
) -> Map<Seq<u8>, RowLocationView>
    decreases n,
{
    if n <= 0 {
        index
    } else {
        let before = relocated(index, rows, locations, n - 1);
        if rows[n - 1].value is Some {
            before.insert(rows[n - 1].key, locations[n - 1])
        } else {
            before.remove(rows[n - 1].key)
        }
    }
}

/// The files after a flush.
pub open spec fn with_files(
    files: Map<u64, SstEntryView>,
    ssts: Seq<SstFile>,
    ids: Seq<u64>,
    encrypted: bool,
    n: int,
) -> Map<u64, SstEntryView>
    decreases n,
{
    if n <= 0 {
        files
    } else {
        with_files(files, ssts, ids, encrypted, n - 1).insert(
            ids[n - 1],
            SstEntryView {
                file_id: ssts[n - 1].id,
                blocks: index_or_whole(ssts[n - 1].bytes@),
                encrypted,
            },
        )
    }
}

/// The state after a flush is committed.
pub open spec fn after_flush<S: RowColumnSplitter>(
    state: EngineState<S>,
    pending: PendingFlush,
    encrypted: bool,
) -> EngineState<S> {
    let files = pending.flush.ssts@;
    let ids = flush_ids(pending.sst_id, state.next_sst, files.len());
    let rows = rows_of(pending.entries@);
    let locations = flushed_locations(pending.flush.block_map@, ids);
    EngineState {
        tables: state.tables.skip(1).push(Map::<Seq<u8>, Seq<Version>>::empty()),
        files: with_files(state.files, files, ids, encrypted, files.len() as int),
        index: relocated(
            state.index,
            rows,
            locations,
            if rows.len() < locations.len() {
                rows.len() as int
            } else {
                locations.len() as int
            },
        ),
        next_sst: if files.len() > 0 {
            advanced(state.next_sst, (files.len() - 1) as nat)
        } else {
            state.next_sst
        },
        ..state
    }
}

/// What beginning a flush comes to.
pub open spec fn flush_begun<S: RowColumnSplitter>(
    state: EngineState<S>,
    config: EngineConfig,
    first: u64,
    outcome: GalaxResult<Option<PendingFlush>>,
    after: EngineState<S>,
    next: u64,
) -> bool {
    let taken = EngineState { next_sst: next_id(state.next_sst), ..state };
    match outcome {
        Ok(None) => {
            &&& after == state
            &&& next == first
            &&& active_of(state).dom() =~= Set::<Seq<u8>>::empty()
        },
        Ok(Some(pending)) => {
            &&& after == taken
            &&& pending.sst_id == state.next_sst
            &&& pending.entries@.len() > 0
            &&& lists(pending.entries@, active_of(state), |key: Seq<u8>| true)
            &&& flushes_to(
                rows_of(pending.entries@),
                flush_config(config),
                state.registrations,
                pending.sst_id,
                first,
                Ok(pending.flush),
                next,
            )
        },
        Err(error) => {
            &&& after == taken
            &&& !(active_of(state).dom() =~= Set::<Seq<u8>>::empty())
            &&& exists|entries: Seq<(Vec<u8>, VersionedValue)>|
                lists(entries, active_of(state), |key: Seq<u8>| true) && flushes_to(
                    #[trigger] rows_of(entries),
                    flush_config(config),
                    state.registrations,
                    state.next_sst,
                    first,
                    Err::<FlushResult, GalaxError>(error),
                    next,
                )
        },
    }
}

/// The configuration of a flush.
pub open spec fn flush_config(config: EngineConfig) -> FlushConfig {
    FlushConfig {
        sst_size_bytes: config.sst_size_bytes,
        max_rows_per_block: config.max_rows_per_sst,
    }
}

// Compaction

/// The index after the rows of one file were relocated: only those that still
/// point into one of the merged files.
pub open spec fn with_targets(
    index: Map<Seq<u8>, RowLocationView>,
    merged: Seq<u64>,
    sst_id: u64,
    targets: Seq<(Vec<u8>, u32, u32)>,
    n: int,
) -> Map<Seq<u8>, RowLocationView>
    decreases n,
{
    if n <= 0 {
        index
    } else {
        let before = with_targets(index, merged, sst_id, targets, n - 1);
        let target = targets[n - 1];
        if before.contains_key(target.0@) && (before[target.0@] matches RowLocationView::SST {
            sst_id: current,
            ..
        } && merged.contains(current)) {
            before.insert(
                target.0@,
                RowLocationView::SST {
                    sst_id,
                    block_offset: target.1 as u64,
                    row_offset: target.2,
                },
            )
        } else {
            before
        }
    }
}

/// Files and index after the first `n` files of a compaction were registered.
pub open spec fn with_outputs<S: RowColumnSplitter>(
    state: EngineState<S>,
    merged: Seq<u64>,
    outputs: Seq<CompactionOutput>,
    file_ids: Seq<u64>,
    encrypted: bool,
    n: int,
) -> EngineState<S>
    decreases n,
{
    if n <= 0 {
        state
    } else {
        let before = with_outputs(state, merged, outputs, file_ids, encrypted, n - 1);
        let output = outputs[n - 1];
        EngineState {
            files: before.files.insert(
                before.next_sst,
                SstEntryView {
                    file_id: file_ids[n - 1],
                    blocks: index_or_whole(output.bytes@),
                    encrypted,
                },
            ),
            index: with_targets(
                before.index,
                merged,
                before.next_sst,
                output.art_targets@,
                output.art_targets@.len() as int,
            ),
            next_sst: next_id(before.next_sst),
            ..before
        }
    }
}

/// Files without the first `n` of some ids.
pub open spec fn without_files(
    files: Map<u64, SstEntryView>,
    merged: Seq<u64>,
    n: int,
) -> Map<u64, SstEntryView>
    decreases n,
{
    if n <= 0 {
        files
    } else {
        without_files(files, merged, n - 1).remove(merged[n - 1])
    }
}

/// The state after a compaction is committed.
pub open spec fn after_compaction<S: RowColumnSplitter>(
    state: EngineState<S>,
    merged: Seq<u64>,
    outputs: Seq<CompactionOutput>,
    file_ids: Seq<u64>,
    encrypted: bool,
) -> EngineState<S> {
    let after = with_outputs(
        state,
        merged,
        outputs,
        file_ids,
        encrypted,
        outputs.len() as int,
    );
    EngineState { files: without_files(after.files, merged, merged.len() as int), ..after }
}

/// Outcome of a compaction.
#[derive(Clone, Copy, PartialEq, Eq, Structural, Debug)]
pub struct CompactionStats {
    /// Number of SST files merged.
    pub input_ssts: usize,
    /// Number of SST files written.
    pub output_ssts: usize,
    /// Number of keys retained.
    pub keys_retained: usize,
    /// Number of versions dropped.
    pub versions_gc_dropped: usize,
}

// Tables stored by column

/// Registrations without those of a prefix.
pub open spec fn without_table<S: RowColumnSplitter>(
    registrations: Seq<ColumnarRegistration<S>>,
    prefix: Seq<u8>,
) -> Seq<ColumnarRegistration<S>>
    decreases registrations.len(),
{
    if registrations.len() == 0 {
        Seq::<ColumnarRegistration<S>>::empty()
    } else {
        let before = without_table(registrations.drop_last(), prefix);
        if registrations.last().prefix@ == prefix {
            before
        } else {
            before.push(registrations.last())
        }
    }
}

// The engine

/// The storage engine: memtables, row index, SST files and tables stored by
/// column.
pub struct Engine<S: RowColumnSplitter> {
    config: EngineConfig,
    memtables: MemtableManager,
    art: ArtIndex,
    registry: SstRegistry,
    next_timestamp: u64,
    next_sst_id: u64,
    row_count: u64,
    columnar: Vec<ColumnarRegistration<S>>,
}

impl<S: RowColumnSplitter> View for Engine<S> {
    type V = EngineState<S>;

    closed spec fn view(&self) -> EngineState<S> {
        EngineState {
            tables: self.memtables.tables(),
            index: self.art@,
            files: self.registry@,
            clock: self.next_timestamp,
            next_sst: self.next_sst_id,
            rows: self.row_count,
            registrations: self.columnar@,
        }
    }
}

impl<S: RowColumnSplitter> Engine<S> {
    /// All parts are well formed, and the active memtable takes writes.
    pub closed spec fn inv(&self) -> bool {
        &&& self.memtables.inv()
        &&& self.art.inv()
        &&& self.registry.inv()
        &&& !self.memtables.active_table().closed_for_writes()
        &&& self.memtables.sealed_tables().len() == 0
        &&& self.memtables.limits() == (
            self.config.back_pressure_bytes,
            self.config.memtable_size_bytes,
        )
    }

    /// The configuration.
    pub closed spec fn settings(&self) -> EngineConfig {
        self.config
    }

    /// The active memtable.
    pub closed spec fn active_table(&self) -> Memtable {
        self.memtables.active_table()
    }

    /// The files, in the order in which they are walked.
    pub closed spec fn file_list(&self) -> Seq<SstEntry> {
        self.registry.list()
    }

    /// The back-pressure budget that is left.
    pub closed spec fn budget(&self) -> usize {
        self.memtables.available()
    }

    /// Opens an engine on the files of a data directory: registers the SST files found
    /// there, replays the records of the write-ahead log, and rebuilds the index from
    /// both. New timestamps come after all that are stored.
    pub fn new(config: EngineConfig, found: Vec<FoundSst>, records: Vec<WalRecord>) -> (engine: Self)
        requires
            config.back_pressure_bytes <= max_permits(),
        ensures
            engine.inv(),
            engine.settings() == config,
            engine.budget() == config.back_pressure_bytes,
            engine.active_table().threshold() == config.memtable_size_bytes,
            exists|reads: Seq<Seq<ColumnsRead>>| #[trigger]
                found_read(found@, reads) && ({
                    let placed = placed_found(found@, reads, found@.len() as int);
                    &&& engine@ == opened::<S>(found@, records@, placed)
                    &&& engine.active_table().bytes() == replayed(
                        records@,
                        first_stamp(placed),
                    ).bytes
                }),
    {
        let mut memtables = MemtableManager::new(
            config.memtable_size_bytes,
            config.back_pressure_bytes,
        );
        let mut registry = SstRegistry::new();
        let mut max_sst_id: u64 = 0;
        let mut i: usize = 0;
        assert(found@.take(0) =~= Seq::<FoundSst>::empty());
        while i < found.len()
            invariant
                i <= found@.len(),
                registry.inv(),
                registry@ == found_files(found@.take(i as int)),
                max_sst_id == greatest_id(found@.take(i as int)),
            decreases found@.len() - i,
        {
            assert(found@.take(i + 1).drop_last() =~= found@.take(i as int));
            let file = &found[i];
            match &file.data {
                Some(data) => {
                    registry.register(file.file_id, file.file_id, Some(data.as_slice()), false);
                },
                None => {
                    registry.register(file.file_id, file.file_id, None, false);
                },
            }
            if file.file_id > max_sst_id {
                max_sst_id = file.file_id;
            }
            i = i + 1;
        }
        assert(found@.take(i as int) =~= found@);
        let next_sst_id: u64 = max_sst_id.saturating_add(1);
        let (stored, Ghost(reads)) = place_found(&found);
        let ghost placed = placed_found(found@, reads, found@.len() as int);
        let first: u64 = stamp_after(&stored);
        let (next_ts, puts) = Engine::<S>::replay(&mut memtables, records, first);
        let pairs = open_entries(memtables.active(), stored);
        let mut art = ArtIndex::new();
        art.rebuild_from_entries(pairs);
        let columnar: Vec<ColumnarRegistration<S>> = Vec::new();
        let engine = Engine {
            config,
            memtables,
            art,
            registry,
            next_timestamp: next_ts,
            next_sst_id,
            row_count: puts,
            columnar,
        };
        proof {
            let state = opened::<S>(found@, records@, placed);
            assert(engine@.tables =~= state.tables);
            assert(engine@.registrations =~= state.registrations);
            assert(engine@ == state);
        }
        engine
    }

    /// Writes the rows of a log to the active memtable. Returns the next timestamp and
    /// the number of rows that were written.
    fn replay(memtables: &mut MemtableManager, records: Vec<WalRecord>, first: Timestamp) -> (result: (
        Timestamp,
        u64,
    ))
        requires
            old(memtables).inv(),
            !old(memtables).active_table().closed_for_writes(),
            old(memtables).active_table()@ == Map::<Seq<u8>, Seq<Version>>::empty(),
            old(memtables).active_table().bytes() == 0,
        ensures
            final(memtables).inv(),
            !final(memtables).active_table().closed_for_writes(),
            final(memtables).sealed_tables() == old(memtables).sealed_tables(),
            final(memtables).available() == old(memtables).available(),
            final(memtables).limits() == old(memtables).limits(),
            final(memtables).active_table().threshold() == old(
                memtables,
            ).active_table().threshold(),
            final(memtables).active_table()@ == replayed(records@, first).chains,
            final(memtables).active_table().bytes() == replayed(records@, first).bytes,
            result.0 == replayed(records@, first).clock,
            result.1 == replayed(records@, first).puts,
    {
        let mut next_ts: u64 = first;
        let mut puts: u64 = 0;
        let ghost all = records@;
        let n: usize = records.len();
        let mut done: usize = 0;
        assert(all.take(0) =~= Seq::<WalRecord>::empty());
        for record in iter: records
            invariant
                iter.seq() == all,
                n == all.len(),
                done == iter.index(),
                memtables.inv(),
                !memtables.active_table().closed_for_writes(),
                memtables.sealed_tables() == old(memtables).sealed_tables(),
                memtables.available() == old(memtables).available(),
                memtables.limits() == old(memtables).limits(),
                memtables.active_table().threshold() == old(memtables).active_table().threshold(),
                memtables.active_table()@ == replayed(all.take(done as int), first).chains,
                memtables.active_table().bytes() == replayed(all.take(done as int), first).bytes,
                next_ts == replayed(all.take(done as int), first).clock,
                puts == replayed(all.take(done as int), first).puts,
        {
            assert(all.take(done + 1).drop_last() =~= all.take(done as int));
            assert(all.take(done + 1).last() == record);
            match record.record_type {
                WalRecordType::RowPut => {
                    match decode_kv(record.payload.as_slice()) {
                        Some((key, value)) => {
                            let ts: u64 = next_ts;
                            next_ts = if next_ts == u64::MAX { 0 } else { next_ts + 1 };
                            let active = memtables.active_mut();
                            active.put(key, ts, Some(value));
                            puts = if puts == u64::MAX { 0 } else { puts + 1 };
                        },
                        None => {},
                    }
                },
                WalRecordType::RowBatch => {
                    match decode_batch(record.payload.as_slice()) {
                        Some(rows) => {
                            let (ts, count) = Engine::<S>::replay_batch(
                                memtables,
                                rows,
                                next_ts,
                                puts,
                                Ghost(replayed(all.take(done as int), first)),
                            );
                            next_ts = ts;
                            puts = count;
                        },
                        None => {},
                    }
                },
                WalRecordType::RowDelete => {
                    let ts: u64 = next_ts;
                    next_ts = if next_ts == u64::MAX { 0 } else { next_ts + 1 };
                    let active = memtables.active_mut();
                    active.put(record.payload, ts, None);
                },
                _ => {},
            }
            done = done + 1;
        }
        assert(all.take(done as int) =~= all);
        (next_ts, puts)
    }

    /// Writes the rows of a batch to the active memtable.
    fn replay_batch(
        memtables: &mut MemtableManager,
        rows: Vec<(Vec<u8>, Vec<u8>)>,
        clock: Timestamp,
        puts: u64,
        Ghost(before): Ghost<Replay>,
    ) -> (result: (Timestamp, u64))
        requires
            old(memtables).inv(),
            !old(memtables).active_table().closed_for_writes(),
            old(memtables).active_table()@ == before.chains,
            old(memtables).active_table().bytes() == before.bytes,
            clock == before.clock,
            puts == before.puts,
        ensures
            final(memtables).inv(),
            !final(memtables).active_table().closed_for_writes(),
            final(memtables).sealed_tables() == old(memtables).sealed_tables(),
            final(memtables).available() == old(memtables).available(),
            final(memtables).limits() == old(memtables).limits(),
            final(memtables).active_table().threshold() == old(
                memtables,
            ).active_table().threshold(),
            ({
                let after = replay_rows(before, pair_views(rows@));
                &&& final(memtables).active_table()@ == after.chains
                &&& final(memtables).active_table().bytes() == after.bytes
                &&& result == (after.clock, after.puts)
            }),
    {
        let mut next_ts: u64 = clock;
        let mut count: u64 = puts;
        let ghost all = rows@;
        let ghost views = pair_views(all);
        let n: usize = rows.len();
        let mut done: usize = 0;
        assert(views.take(0) =~= Seq::<(Seq<u8>, Seq<u8>)>::empty());
        for row in iter: rows
            invariant
                iter.seq() == all,
                n == all.len(),
                done == iter.index(),
                views == pair_views(all),
                memtables.inv(),
                !memtables.active_table().closed_for_writes(),
                memtables.sealed_tables() == old(memtables).sealed_tables(),
                memtables.available() == old(memtables).available(),
                memtables.limits() == old(memtables).limits(),
                memtables.active_table().threshold() == old(memtables).active_table().threshold(),
                memtables.active_table()@ == replay_rows(before, views.take(done as int)).chains,
                memtables.active_table().bytes() == replay_rows(
                    before,
                    views.take(done as int),
                ).bytes,
                next_ts == replay_rows(before, views.take(done as int)).clock,
                count == replay_rows(before, views.take(done as int)).puts,
        {
            assert(views.take(done + 1).drop_last() =~= views.take(done as int));
            assert(views.take(done + 1).last() == (row.0@, row.1@));
            let ts: u64 = next_ts;
            next_ts = if next_ts == u64::MAX { 0 } else { next_ts + 1 };
            count = if count == u64::MAX { 0 } else { count + 1 };
            let active = memtables.active_mut();
            active.put(row.0, ts, Some(row.1));
            done = done + 1;
        }
        assert(views.take(done as int) =~= views);
        (next_ts, count)
    }

    /// Writes a version to the active memtable and enters its row into the
    /// index.
    fn store(
        memtables: &mut MemtableManager,
        art: &mut ArtIndex,
        key: Vec<u8>,
        timestamp: Timestamp,
        value: Option<Vec<u8>>,
    )
        requires
            old(memtables).inv(),
            !old(memtables).active_table().closed_for_writes(),
            old(art).inv(),
            old(art)@.contains_key(key@) || old(art)@.dom().len() < usize::MAX,
        ensures
            final(memtables).inv(),
            !final(memtables).active_table().closed_for_writes(),
            final(memtables).sealed_tables() == old(memtables).sealed_tables(),
            final(memtables).available() == old(memtables).available(),
            final(memtables).limits() == old(memtables).limits(),
            final(memtables).taken() == old(memtables).taken(),
            final(memtables).active_table().threshold() == old(
                memtables,
            ).active_table().threshold(),
            final(memtables).active_table().bytes() == grown(
                old(memtables).active_table().bytes(),
                key@,
                value_view(value),
            ),
            final(memtables).active_table()@ == put_version(
                old(memtables).active_table()@,
                key@,
                Version { timestamp, value: value_view(value) },
            ),
            final(art).inv(),
            final(art)@ == old(art)@.insert(key@, memtable_location(key@)),
    {
        let shard: u8 = Memtable::shard_index(key.as_slice()) as u8;
        let row_key = slice_to_vec(key.as_slice());
        let index_key = slice_to_vec(key.as_slice());
        let active = memtables.active_mut();
        active.put(key, timestamp, value);
        art.insert(index_key, RowLocation::Memtable { shard, key: row_key });
    }

    /// Takes a new timestamp.
    pub fn next_ts(&mut self) -> (timestamp: Timestamp)
        requires
            old(self).inv(),
        ensures
            final(self).inv(),
            timestamp == old(self)@.clock,
            final(self)@ == (EngineState { clock: next_id(old(self)@.clock), ..old(self)@ }),
            final(self).settings() == old(self).settings(),
            final(self).active_table() == old(self).active_table(),
            final(self).budget() == old(self).budget(),
    {
        let timestamp: u64 = self.next_timestamp;
        self.next_timestamp = if timestamp == u64::MAX { 0 } else { timestamp + 1 };
        timestamp
    }

    /// The next timestamp, without taking it.
    pub fn next_ts_for_tests(&self) -> (timestamp: Timestamp)
        ensures
            timestamp == self@.clock,
    {
        self.next_timestamp
    }

    /// The timestamp that was taken last, 0 if none was.
    pub fn latest_commit_ts(&self) -> (timestamp: Timestamp)
        ensures
            timestamp == if self@.clock == 0 {
                0
            } else {
                self@.clock - 1
            },
    {
        self.next_timestamp.saturating_sub(1)
    }

    /// Applies a write that stands in the log.
    pub fn apply_put(&mut self, timestamp: Timestamp, key: Vec<u8>, value: Vec<u8>)
        requires
            old(self).inv(),
            old(self)@.index.contains_key(key@) || old(self)@.index.dom().len() < usize::MAX,
        ensures
            final(self).inv(),
            final(self)@ == after_put(old(self)@, timestamp, key@, value@),
            final(self).active_table().bytes() == grown(
                old(self).active_table().bytes(),
                key@,
                Some(value@),
            ),
            final(self).active_table().threshold() == old(self).active_table().threshold(),
            final(self).settings() == old(self).settings(),
            final(self).file_list() == old(self).file_list(),
            final(self).budget() == old(self).budget(),
    {
        let ghost before = self@;
        let ghost k = key@;
        let ghost version = Version { timestamp, value: Some(value@) };
        Engine::<S>::store(&mut self.memtables, &mut self.art, key, timestamp, Some(value));
        self.row_count = if self.row_count == u64::MAX { 0 } else { self.row_count + 1 };
        proof {
            assert(self@.tables =~= before.tables.drop_last().push(
                put_version(before.tables.last(), k, version),
            ));
        }
    }

    /// Whether a row is in the index.
    pub fn contains(&self, key: &[u8]) -> (found: bool)
        requires
            self.inv(),
        ensures
            found == self@.index.contains_key(key@),
    {
        self.art.lookup(key).is_some()
    }

    /// Applies a deletion that stands in the log.
    pub fn apply_delete(&mut self, timestamp: Timestamp, key: &[u8])
        requires
            old(self).inv(),
        ensures
            final(self).inv(),
            final(self)@ == after_delete(old(self)@, timestamp, key@),
            final(self).active_table().bytes() == grown(
                old(self).active_table().bytes(),
                key@,
                None,
            ),
            final(self).active_table().threshold() == old(self).active_table().threshold(),
            final(self).settings() == old(self).settings(),
            final(self).file_list() == old(self).file_list(),
            final(self).budget() == old(self).budget(),
    {
        let ghost before = self@;
        let ghost version = Version { timestamp, value: None };
        let active = self.memtables.active_mut();
        active.put(slice_to_vec(key), timestamp, None);
        let _ = self.art.delete(key);
        proof {
            assert(self@.tables =~= before.tables.drop_last().push(
                put_version(before.tables.last(), key@, version),
            ));
        }
    }

    /// Finds a row: its value if a memtable holds it, or else where it is
    /// stored.
    pub fn get(&self, key: &[u8]) -> (found: Located)
        requires
            self.inv(),
        ensures
            found@ == located(self@, key@),
    {
        match self.art.lookup(key) {
            None => Located::Absent,
            Some(RowLocation::Memtable { .. }) => match self.memtables.get(key) {
                Some(Some(value)) => Located::Value(value),
                _ => Located::Absent,
            },
            Some(RowLocation::SST { sst_id, block_offset, row_offset }) => match self.registry.get(
                sst_id,
            ) {
                Some(entry) => match entry.block_index.get_block(block_offset) {
                    Some(block) => Located::Stored {
                        file_id: entry.file_id,
                        block: *block,
                        row: row_offset,
                        encrypted: entry.encrypted,
                    },
                    None => Located::Absent,
                },
                None => Located::Absent,
            },
        }
    }

    /// Approximate number of rows.
    pub fn row_count(&self) -> (count: u64)
        ensures
            count == self@.rows,
    {
        self.row_count
    }

    /// Number of rows in the index.
    pub fn index_count(&self) -> (count: usize)
        requires
            self.inv(),
        ensures
            count == self@.index.dom().len(),
    {
        self.art.len()
    }

    /// Number of SST files.
    pub fn sst_count(&self) -> (count: usize)
        ensures
            count == self.file_list().len(),
    {
        self.registry.len()
    }

    /// The SST files.
    pub fn registry(&self) -> (registry: &SstRegistry)
        requires
            self.inv(),
        ensures
            registry.inv(),
            registry.list() == self.file_list(),
            registry@ == self@.files,
    {
        &self.registry
    }

    /// The active memtable.
    pub fn active(&self) -> (active: &Memtable)
        requires
            self.inv(),
        ensures
            active.inv(),
            *active == self.active_table(),
            active@ == active_of(self@),
    {
        let active = self.memtables.active();
        assert(self@.tables.last() == active@);
        active
    }

    /// The tables stored by column.
    pub fn columnar_registrations(&self) -> (registrations: &Vec<ColumnarRegistration<S>>)
        ensures
            registrations@ == self@.registrations,
    {
        &self.columnar
    }

    /// Removes the registration of a table. No effect if there is none.
    pub fn unregister_columnar_table(&mut self, prefix: &[u8])
        requires
            old(self).inv(),
        ensures
            final(self).inv(),
            final(self)@ == (EngineState {
                registrations: without_table(old(self)@.registrations, prefix@),
                ..old(self)@
            }),
            final(self).settings() == old(self).settings(),
            final(self).active_table() == old(self).active_table(),
            final(self).file_list() == old(self).file_list(),
            final(self).budget() == old(self).budget(),
    {
        let mut current: Vec<ColumnarRegistration<S>> = Vec::new();
        let mut kept: Vec<ColumnarRegistration<S>> = Vec::new();
        std::mem::swap(&mut current, &mut self.columnar);
        let ghost all = current@;
        assert(all.take(0) =~= Seq::<ColumnarRegistration<S>>::empty());
        for registration in iter: current
            invariant
                iter.seq() == all,
                kept@ == without_table(all.take(iter.index()), prefix@),
        {
            let ghost i = iter.index();
            assert(all.take(i + 1).drop_last() =~= all.take(i));
            assert(all.take(i + 1).last() == registration);
            if !bytes_equal(registration.prefix.as_slice(), prefix) {
                kept.push(registration);
            }
        }
        assert(all.take(all.len() as int) =~= all);
        self.columnar = kept;
    }

    /// Registers a table to be stored by column, under the prefix of its keys. A
    /// table that had the prefix before is replaced.
    pub fn register_columnar_table(&mut self, prefix: Vec<u8>, splitter: S)
        requires
            old(self).inv(),
        ensures
            final(self).inv(),
            final(self)@ == (EngineState {
                registrations: without_table(old(self)@.registrations, prefix@).push(
                    ColumnarRegistration { prefix, splitter },
                ),
                ..old(self)@
            }),
            final(self).settings() == old(self).settings(),
            final(self).active_table() == old(self).active_table(),
            final(self).file_list() == old(self).file_list(),
            final(self).budget() == old(self).budget(),
    {
        self.unregister_columnar_table(prefix.as_slice());
        self.columnar.push(ColumnarRegistration { prefix, splitter });
    }

    /// Begins a flush of the active memtable: builds the files to write.
    /// `None` if there is nothing to flush.
    pub fn begin_flush(&mut self, ids: &mut BlockIdCounter) -> (result: GalaxResult<
        Option<PendingFlush>,
    >)
        requires
            old(self).inv(),
        ensures
            final(self).inv(),
            flush_begun(
                old(self)@,
                old(self).settings(),
                old(ids)@,
                result,
                final(self)@,
                final(ids)@,
            ),
            final(self).settings() == old(self).settings(),
            final(self).active_table() == old(self).active_table(),
            final(self).file_list() == old(self).file_list(),
            final(self).budget() == old(self).budget(),
    {
        let ghost before = self@;
        let entries = self.memtables.active().iter_all();
        assert(before.tables.last() == self.memtables.active_table()@);
        if entries.len() == 0 {
            proof {
                let chains = active_of(before);
                assert forall|key: Seq<u8>| !chains.contains_key(key) by {
                    if chains.contains_key(key) {
                        let i = choose|i: int|
                            0 <= i < entries@.len() && (#[trigger] entries@[i]).0@ == key;
                    }
                }
            }
            return Ok(None);
        }
        let sst_id: u64 = self.next_sst_id;
        self.next_sst_id = if sst_id == u64::MAX { 0 } else { sst_id + 1 };
        let config = FlushConfig {
            sst_size_bytes: self.config.sst_size_bytes,
            max_rows_per_block: self.config.max_rows_per_sst,
        };
        assert(config == flush_config(self.config));
        match flush_entries(entries.as_slice(), &config, sst_id, self.columnar.as_slice(), ids) {
            Ok(flush) => Ok(Some(PendingFlush { sst_id, flush, entries })),
            Err(error) => {
                assert(lists(entries@, active_of(before), |key: Seq<u8>| true));
                assert(active_of(before).contains_key(entries@[0].0@));
                assert(flushes_to(
                    rows_of(entries@),
                    flush_config(self.config),
                    before.registrations,
                    before.next_sst,
                    old(ids)@,
                    Err::<FlushResult, GalaxError>(error),
                    ids@,
                ));
                Err(error)
            },
        }
    }

    fn take_sst_id(&mut self) -> (id: u64)
        ensures
            id == old(self).next_sst_id,
            *final(self) == (Engine { next_sst_id: next_id(id), ..*old(self) }),
    {
        let id: u64 = self.next_sst_id;
        self.next_sst_id = if id == u64::MAX { 0 } else { id + 1 };
        id
    }

    /// Whether a flush can be committed: its blocks are in its files, and the index has
    /// room for its rows.
    pub fn can_commit_flush(&self, pending: &PendingFlush) -> (fits: bool)
        requires
            self.inv(),
        ensures
            fits == (blocks_in_files(pending.flush) && self@.index.dom().len()
                + pending.entries@.len() <= usize::MAX),
    {
        let files: usize = pending.flush.ssts.len();
        let mut k: usize = 0;
        while k < pending.flush.block_map.len()
            invariant
                k <= pending.flush.block_map@.len(),
                files == pending.flush.ssts@.len(),
                forall|j: int|
                    0 <= j < k ==> (#[trigger] pending.flush.block_map@[j]).sst_index < files,
            decreases pending.flush.block_map@.len() - k,
        {
            if pending.flush.block_map[k].sst_index >= files {
                assert(pending.flush.block_map@[k as int].sst_index >= files);
                return false;
            }
            k = k + 1;
        }
        pending.entries.len() <= usize::MAX - self.art.len()
    }

    /// Commits a flush whose files are written: registers the files, points the
    /// index at them, and replaces the memtable by an empty one.
    pub fn commit_flush(&mut self, pending: PendingFlush, encrypted: bool) -> (rows: u64)
        requires
            old(self).inv(),
            blocks_in_files(pending.flush),
            old(self)@.index.dom().len() + pending.entries@.len() <= usize::MAX,
        ensures
            final(self).inv(),
            final(self)@ == after_flush(old(self)@, pending, encrypted),
            final(self).settings() == old(self).settings(),
            final(self).budget() == old(self).budget(),
            final(self).active_table().bytes() == 0,
            final(self).active_table().threshold() == old(self).settings().memtable_size_bytes,
            rows == pending.flush.rows_flushed,
    {
        let ghost before = self@;
        let ghost files = pending.flush.ssts@;
        let ghost rows_view = rows_of(pending.entries@);
        let mut ids: Vec<u64> = Vec::new();
        let mut i: usize = 0;
        while i < pending.flush.ssts.len()
            invariant
                i <= pending.flush.ssts@.len(),
                files == pending.flush.ssts@,
                self.inv(),
                self.memtables == old(self).memtables,
                self.art == old(self).art,
                self.config == old(self).config,
                self.next_timestamp == old(self).next_timestamp,
                self.row_count == old(self).row_count,
                self.columnar == old(self).columnar,
                ids@ == flush_ids(pending.sst_id, before.next_sst, i as nat),
                ids@.len() == i,
                before == old(self)@,
                self.next_sst_id == (if i == 0 {
                    before.next_sst
                } else {
                    advanced(before.next_sst, (i - 1) as nat)
                }),
                self.registry@ == with_files(before.files, files, ids@, encrypted, i as int),
            decreases pending.flush.ssts@.len() - i,
        {
            let id: u64 = if i == 0 { pending.sst_id } else { self.take_sst_id() };
            let ghost ids_before = ids@;
            ids.push(id);
            proof {
                assert(ids@ =~= flush_ids(pending.sst_id, before.next_sst, (i + 1) as nat));
                lemma_with_files_local(
                    before.files,
                    files,
                    ids_before,
                    ids@,
                    encrypted,
                    i as int,
                );
            }
            let file = &pending.flush.ssts[i];
            self.registry.register(id, file.id, Some(file.bytes.as_slice()), encrypted);
            i = i + 1;
        }
        let locations = self.locate_flushed(&pending.flush.block_map, &ids);
        let ghost n = if rows_view.len() < locations@.len() {
            rows_view.len() as int
        } else {
            locations@.len() as int
        };
        let ghost views = location_views(locations@);
        let mut r: usize = 0;
        let count: usize = if pending.entries.len() < locations.len() {
            pending.entries.len()
        } else {
            locations.len()
        };
        let ghost registered_state = self@;
        proof {
            self.art.lemma_finite();
        }
        assert(self.art@ == relocated(before.index, rows_view, views, 0));
        while r < count
            invariant
                r <= count,
                count == n,
                n <= rows_view.len(),
                n <= locations@.len(),
                rows_view == rows_of(pending.entries@),
                views == location_views(locations@),
                self.inv(),
                self.memtables == old(self).memtables,
                self.config == old(self).config,
                self.next_timestamp == old(self).next_timestamp,
                self.row_count == old(self).row_count,
                self.columnar == old(self).columnar,
                self.next_sst_id == registered_state.next_sst,
                self.registry@ == registered_state.files,
                before == old(self)@,
                before.index.dom().finite(),
                before.index.dom().len() + pending.entries@.len() <= usize::MAX,
                self.art@.dom().finite(),
                self.art@.dom().len() <= before.index.dom().len() + r,
                self.art@ == relocated(before.index, rows_view, views, r as int),
            decreases count - r,
        {
            let entry = &pending.entries[r];
            assert(rows_view[r as int].key == entry.0@);
            assert(rows_view[r as int].value == value_view(entry.1.value));
            assert(views[r as int] == locations@[r as int]@);
            if entry.1.value.is_some() {
                self.art.insert(slice_to_vec(entry.0.as_slice()), locations[r].clone());
            } else {
                let _ = self.art.delete(entry.0.as_slice());
            }
            r = r + 1;
        }
        let bytes: u64 = self.memtables.active().size();
        proof {
            self.memtables.lemma_budget();
            assert(self.memtables.taken() =~= Seq::<u32>::empty());
        }
        self.memtables.seal_active();
        let ghost sealed = self.memtables.tables();
        self.memtables.on_flush_complete(bytes);
        proof {
            let old_tables = before.tables;
            assert(sealed == old_tables.push(Map::<Seq<u8>, Seq<Version>>::empty()));
            assert(self@.tables =~= sealed.skip(1));
            assert(self@.tables =~= old_tables.skip(1).push(Map::<Seq<u8>, Seq<Version>>::empty()));
        }
        pending.flush.rows_flushed as u64
    }

    /// Where each row of a flush is.
    fn locate_flushed(&self, block_map: &Vec<SstBlockInfo>, ids: &Vec<u64>) -> (locations: Vec<
        RowLocation,
    >)
        requires
            forall|k: int|
                0 <= k < block_map@.len() ==> (#[trigger] block_map@[k]).sst_index < ids@.len(),
        ensures
            location_views(locations@) == flushed_locations(block_map@, ids@),
    {
        let mut locations: Vec<RowLocation> = Vec::new();
        let mut k: usize = 0;
        assert(block_map@.take(0) =~= Seq::<SstBlockInfo>::empty());
        assert(location_views(locations@) =~= Seq::<RowLocationView>::empty());
        while k < block_map.len()
            invariant
                k <= block_map@.len(),
                forall|j: int|
                    0 <= j < block_map@.len() ==> (#[trigger] block_map@[j]).sst_index
                        < ids@.len(),
                location_views(locations@) == flushed_locations(
                    block_map@.take(k as int),
                    ids@,
                ),
            decreases block_map@.len() - k,
        {
            let info = block_map[k];
            let sst_id: u64 = ids[info.sst_index];
            let ghost start = location_views(locations@);
            let ghost block = Seq::new(
                info.row_count as nat,
                |r: int|
                    RowLocationView::SST {
                        sst_id,
                        block_offset: info.block_index as u64,
                        row_offset: r as u32,
                    },
            );
            let mut r: usize = 0;
            assert(location_views(locations@) =~= start + block.take(0));
            while r < info.row_count
                invariant
                    r <= info.row_count,
                    block.len() == info.row_count,
                    forall|q: int|
                        0 <= q < block.len() ==> #[trigger] block[q] == (RowLocationView::SST {
                            sst_id,
                            block_offset: info.block_index as u64,
                            row_offset: q as u32,
                        }),
                    location_views(locations@) == start + block.take(r as int),
                decreases info.row_count - r,
            {
                let ghost before = locations@;
                locations.push(
                    RowLocation::SST {
                        sst_id,
                        block_offset: info.block_index as u64,
                        row_offset: #[verifier::truncate] (r as u32),
                    },
                );
                assert(location_views(locations@) =~= location_views(before).push(
                    block[r as int],
                ));
                assert(location_views(locations@) =~= start + block.take(r + 1));
                r = r + 1;
            }
            proof {
                assert(block.take(r as int) =~= block);
                assert(block_map@.take(k + 1).drop_last() =~= block_map@.take(k as int));
                assert(flushed_locations(block_map@.take(k + 1), ids@) =~= start + block);
            }
            k = k + 1;
        }
        assert(block_map@.take(k as int) =~= block_map@);
        locations
    }

    /// Whether enough SST files have gathered to be compacted.
    pub fn needs_compaction(&self) -> (needed: bool)
        ensures
            needed == (self.file_list().len() >= self.settings().l0_compaction_trigger),
    {
        self.registry.len() >= self.config.l0_compaction_trigger
    }

    /// The files that a compaction merges: all of them. With fewer than two
    /// files there is nothing to merge.
    pub fn compaction_inputs(&self) -> (inputs: Vec<u64>)
        ensures
            if self.file_list().len() < 2 {
                inputs@ == Seq::<u64>::empty()
            } else {
                inputs@ == Seq::new(self.file_list().len(), |i: int| self.file_list()[i].id)
            },
    {
        let mut inputs: Vec<u64> = Vec::new();
        let n: usize = self.registry.len();
        if n < 2 {
            return inputs;
        }
        let ghost list = self.file_list();
        let mut i: usize = 0;
        while i < n
            invariant
                i <= n,
                n == list.len(),
                list == self.file_list(),
                inputs@ == Seq::new(i as nat, |k: int| list[k].id),
            decreases n - i,
        {
            inputs.push(self.registry.entry(i).id);
            i = i + 1;
            assert(inputs@ =~= Seq::new(i as nat, |k: int| list[k].id));
        }
        inputs
    }

    /// Outcome of a compaction with fewer than two files: nothing changes.
    pub fn nothing_to_compact(&self) -> (stats: CompactionStats)
        ensures
            stats == (CompactionStats {
                input_ssts: self.file_list().len() as usize,
                output_ssts: self.file_list().len() as usize,
                keys_retained: 0,
                versions_gc_dropped: 0,
            }),
    {
        CompactionStats {
            input_ssts: self.registry.len(),
            output_ssts: self.registry.len(),
            keys_retained: 0,
            versions_gc_dropped: 0,
        }
    }

    /// Builds the files of a compaction out of the contents of the merged
    /// files, with the versions that pinned timestamps show.
    pub fn plan_compaction(&self, contents: &[Vec<u8>], pins: &[Timestamp]) -> (result: GalaxResult<
        CompactionPlan,
    >)
        requires
            self.inv(),
        ensures
            exists|reads: Seq<Seq<ColumnsRead>>, versions: Seq<RowView>| #[trigger]
                inputs_read(contents@, reads) && #[trigger] lists_versions(
                    versions,
                    input_rows(contents@, reads, contents@.len() as int),
                ) && compacts_to(
                    versions,
                    pins@,
                    self@.registrations,
                    self.settings().compaction_concurrency,
                    self.settings().max_rows_per_sst,
                    self.settings().sst_size_bytes,
                    result,
                ),
    {
        plan_compaction(
            contents,
            pins,
            self.config.compaction_concurrency,
            self.config.sst_size_bytes,
            self.config.max_rows_per_sst,
            self.columnar.as_slice(),
        )
    }

    /// Points the rows of one file at it, where they still point into one of
    /// the merged files.
    fn relocate_targets(
        &mut self,
        merged: &Vec<u64>,
        sst_id: u64,
        targets: &Vec<(Vec<u8>, u32, u32)>,
    )
        requires
            old(self).inv(),
        ensures
            final(self).inv(),
            final(self).memtables == old(self).memtables,
            final(self).registry == old(self).registry,
            final(self).config == old(self).config,
            final(self)@ == (EngineState {
                index: with_targets(
                    old(self)@.index,
                    merged@,
                    sst_id,
                    targets@,
                    targets@.len() as int,
                ),
                ..old(self)@
            }),
    {
        let ghost before = self@;
        let mut i: usize = 0;
        while i < targets.len()
            invariant
                i <= targets@.len(),
                self.inv(),
                self.memtables == old(self).memtables,
                self.registry == old(self).registry,
                self.config == old(self).config,
                before == old(self)@,
                self@ == (EngineState {
                    index: with_targets(before.index, merged@, sst_id, targets@, i as int),
                    ..before
                }),
            decreases targets@.len() - i,
        {
            let target = &targets[i];
            let location = RowLocation::SST {
                sst_id,
                block_offset: target.1 as u64,
                row_offset: target.2,
            };
            let _ = self.art.relocate_if_points_to(
                target.0.as_slice(),
                merged,
                location,
            );
            i = i + 1;
        }
    }

    /// Commits a compaction whose files are written: registers each file under
    /// a new id, points the latest version of each key at it unless the row has
    /// moved on, and drops the merged files.
    pub fn commit_compaction(
        &mut self,
        merged: &Vec<u64>,
        plan: &CompactionPlan,
        file_ids: &Vec<u64>,
        encrypted: bool,
    ) -> (stats: CompactionStats)
        requires
            old(self).inv(),
            file_ids@.len() == plan.outputs@.len(),
        ensures
            final(self).inv(),
            final(self)@ == after_compaction(
                old(self)@,
                merged@,
                plan.outputs@,
                file_ids@,
                encrypted,
            ),
            final(self).settings() == old(self).settings(),
            final(self).active_table() == old(self).active_table(),
            final(self).budget() == old(self).budget(),
            stats == (CompactionStats {
                input_ssts: merged@.len() as usize,
                output_ssts: plan.outputs@.len() as usize,
                keys_retained: plan.keys_retained,
                versions_gc_dropped: plan.versions_gc_dropped,
            }),
    {
        let ghost before = self@;
        let ghost outputs = plan.outputs@;
        let mut i: usize = 0;
        while i < plan.outputs.len()
            invariant
                i <= plan.outputs@.len(),
                outputs == plan.outputs@,
                file_ids@.len() == outputs.len(),
                self.inv(),
                self.memtables == old(self).memtables,
                self.config == old(self).config,
                before == old(self)@,
                self@ == with_outputs(
                    before,
                    merged@,
                    outputs,
                    file_ids@,
                    encrypted,
                    i as int,
                ),
            decreases plan.outputs@.len() - i,
        {
            let sst_id: u64 = self.take_sst_id();
            let output = &plan.outputs[i];
            self.registry.register(
                sst_id,
                file_ids[i],
                Some(output.bytes.as_slice()),
                encrypted,
            );
            self.relocate_targets(merged, sst_id, &output.art_targets);
            i = i + 1;
        }
        let ghost written = self@;
        let mut j: usize = 0;
        while j < merged.len()
            invariant
                j <= merged@.len(),
                self.inv(),
                self.memtables == old(self).memtables,
                self.config == old(self).config,
                self@ == (EngineState {
                    files: without_files(written.files, merged@, j as int),
                    ..written
                }),
            decreases merged@.len() - j,
        {
            self.registry.remove(merged[j]);
            j = j + 1;
        }
        CompactionStats {
            input_ssts: merged.len(),
            output_ssts: plan.outputs.len(),
            keys_retained: plan.keys_retained,
            versions_gc_dropped: plan.versions_gc_dropped,
        }
    }

    /// Bytes that compaction still has to work through: the size of all SST
    /// files once there are more of them than the trigger, else none.
    pub fn compaction_backlog(&self, sizes: &[u64]) -> (pending: u64)
        ensures
            pending == if self.file_list().len() <= self.settings().l0_compaction_trigger {
                0
            } else {
                counted_up(sum_of(sizes@))
            },
    {
        if self.registry.len() <= self.config.l0_compaction_trigger {
            return 0;
        }
        let mut total: u64 = 0;
        let mut i: usize = 0;
        assert(sizes@.take(0) =~= Seq::<u64>::empty());
        while i < sizes.len()
            invariant
                i <= sizes@.len(),
                total == counted_up(sum_of(sizes@.take(i as int))),
            decreases sizes@.len() - i,
        {
            assert(sizes@.take(i + 1).drop_last() =~= sizes@.take(i as int));
            total = total.saturating_add(sizes[i]);
            i = i + 1;
        }
        assert(sizes@.take(i as int) =~= sizes@);
        total
    }
}

impl<S: RowColumnSplitter> Engine<S> {
    /// Applies a batch of writes that stands in the log, each under a new
    /// timestamp. Returns the number of rows.
    pub fn apply_batch(&mut self, rows: &[(Vec<u8>, Vec<u8>)]) -> (count: u64)
        requires
            old(self).inv(),
            old(self)@.index.dom().len() + rows@.len() <= usize::MAX,
        ensures
            final(self).inv(),
            final(self)@ == after_batch(old(self)@, rows@, rows@.len() as int),
            final(self).active_table().bytes() == grown_by(
                old(self).active_table().bytes(),
                rows@,
                rows@.len() as int,
            ),
            final(self).active_table().threshold() == old(self).active_table().threshold(),
            final(self).settings() == old(self).settings(),
            final(self).file_list() == old(self).file_list(),
            final(self).budget() == old(self).budget(),
            count == rows@.len(),
    {
        let ghost before = self@;
        let mut i: usize = 0;
        proof {
            self.art.lemma_finite();
        }
        while i < rows.len()
            invariant
                i <= rows@.len(),
                self.inv(),
                before == old(self)@,
                before.index.dom().len() + rows@.len() <= usize::MAX,
                self@.index.dom().finite(),
                self@.index.dom().len() <= before.index.dom().len() + i,
                self@ == after_batch(before, rows@, i as int),
                self.active_table().bytes() == grown_by(
                    old(self).active_table().bytes(),
                    rows@,
                    i as int,
                ),
                self.active_table().threshold() == old(self).active_table().threshold(),
                self.settings() == old(self).settings(),
                self.file_list() == old(self).file_list(),
                self.budget() == old(self).budget(),
            decreases rows@.len() - i,
        {
            let row = &rows[i];
            let timestamp: u64 = self.next_timestamp;
            self.next_timestamp = if timestamp == u64::MAX { 0 } else { timestamp + 1 };
            let key = slice_to_vec(row.0.as_slice());
            let value = slice_to_vec(row.1.as_slice());
            self.apply_put(timestamp, key, value);
            i = i + 1;
        }
        rows.len() as u64
    }

    /// Scans all rows, or those whose keys start with a prefix, given the
    /// contents of the files: the latest value of each key that has one, in the
    /// order of the keys.
    pub fn scan_all_with_prefix(
        &self,
        contents: &[Option<Vec<u8>>],
        key_prefix: Option<&[u8]>,
    ) -> (result: Vec<(Vec<u8>, Vec<u8>)>)
        requires
            self.inv(),
        ensures
            exists|reads: Seq<Seq<ColumnsRead>>| #[trigger]
                files_read(self.file_list(), contents@, asked_prefix(key_prefix), reads)
                    && lists_latest(
                    result@,
                    stored_rows(
                        self.file_list(),
                        contents@,
                        asked_prefix(key_prefix),
                        reads,
                        self.file_list().len() as int,
                    ),
                    active_of(self@),
                    asked_prefix(key_prefix).prefix,
                ),
    {
        scan_all_with_prefix(self.registry(), contents, self.active(), key_prefix)
    }

    /// Scans all rows.
    pub fn scan_all(&self, contents: &[Option<Vec<u8>>]) -> (result: Vec<(Vec<u8>, Vec<u8>)>)
        requires
            self.inv(),
        ensures
            exists|reads: Seq<Seq<ColumnsRead>>| #[trigger]
                files_read(self.file_list(), contents@, asked_prefix(None), reads) && lists_latest(
                    result@,
                    stored_rows(
                        self.file_list(),
                        contents@,
                        asked_prefix(None),
                        reads,
                        self.file_list().len() as int,
                    ),
                    active_of(self@),
                    None,
                ),
    {
        scan_all(self.registry(), contents, self.active())
    }

    /// Scans all rows that are visible at `read_ts`.
    pub fn scan_all_at(&self, contents: &[Option<Vec<u8>>], read_ts: Timestamp) -> (result: Vec<
        (Vec<u8>, Vec<u8>, Timestamp),
    >)
        requires
            self.inv(),
        ensures
            exists|reads: Seq<Seq<ColumnsRead>>| #[trigger]
                files_read(self.file_list(), contents@, asked_at(read_ts), reads) && lists_visible(
                    result@,
                    stored_rows(
                        self.file_list(),
                        contents@,
                        asked_at(read_ts),
                        reads,
                        self.file_list().len() as int,
                    ),
                    active_of(self@),
                    read_ts,
                ),
    {
        scan_all_at(self.registry(), contents, self.active(), read_ts)
    }

    /// The checksums of the rows that are visible at `read_ts`.
    pub fn snapshot_checksums(&self, contents: &[Option<Vec<u8>>], read_ts: Timestamp) -> (checksums:
        Vec<u64>)
        requires
            self.inv(),
        ensures
            exists|reads: Seq<Seq<ColumnsRead>>, rows: Seq<(Vec<u8>, Vec<u8>, Timestamp)>|
                #![trigger files_read(self.file_list(), contents@, asked_at(read_ts), reads), checksums_of(rows)]
                {
                    &&& files_read(self.file_list(), contents@, asked_at(read_ts), reads)
                    &&& lists_visible(
                        rows,
                        stored_rows(
                            self.file_list(),
                            contents@,
                            asked_at(read_ts),
                            reads,
                            self.file_list().len() as int,
                        ),
                        active_of(self@),
                        read_ts,
                    )
                    &&& checksums@ == checksums_of(rows)
                },
    {
        snapshot_checksums(self.registry(), contents, self.active(), read_ts)
    }

    /// Scans a table that is stored by column.
    pub fn scan_columnar(
        &self,
        contents: &[Option<Vec<u8>>],
        prefix: &[u8],
        projection: &[usize],
        predicates: &[ColumnPredicate],
        read_ts: Timestamp,
    ) -> (result: GalaxResult<ColumnarBatch>)
        requires
            self.inv(),
        ensures
            columnar_scan(
                self.file_list(),
                contents@,
                active_of(self@),
                self@.registrations,
                prefix@,
                projection@,
                predicate_views(predicates@),
                read_ts,
                result,
            ),
    {
        scan_columnar(
            self.registry(),
            contents,
            self.active(),
            self.columnar.as_slice(),
            prefix,
            projection,
            predicates,
            read_ts,
        )
    }
}

/// The state after the first `n` rows of a batch were written.
pub open spec fn after_batch<S: RowColumnSplitter>(
    state: EngineState<S>,
    rows: Seq<(Vec<u8>, Vec<u8>)>,
    n: int,
) -> EngineState<S>
    decreases n,
{
    if n <= 0 {
        state
    } else {
        let before = after_batch(state, rows, n - 1);
        after_put(
            EngineState { clock: next_id(before.clock), ..before },
            before.clock,
            rows[n - 1].0@,
            rows[n - 1].1@,
        )
    }
}

/// After a batch, a read of a key gives the value that stands last in the batch for it, and
/// of any other key what it gave before.
pub proof fn lemma_batch_then_get<S: RowColumnSplitter>(
    state: EngineState<S>,
    rows: Seq<(Vec<u8>, Vec<u8>)>,
    n: int,
    key: Seq<u8>,
)
    requires
        state.tables.len() > 0,
        0 <= n <= rows.len(),
    ensures
        after_batch(state, rows, n).tables.len() == state.tables.len(),
        forall|i: int|
            0 <= i < n && (#[trigger] rows[i]).0@ == key && (forall|j: int|
                i < j < n ==> (#[trigger] rows[j]).0@ != key) ==> located(
                after_batch(state, rows, n),
                key,
            ) == LocatedView::Value(rows[i].1@),
        (forall|i: int| 0 <= i < n ==> (#[trigger] rows[i]).0@ != key) ==> located(
            after_batch(state, rows, n),
            key,
        ) == located(state, key),
    decreases n,
{
    if n > 0 {
        lemma_batch_then_get(state, rows, n - 1, key);
        let before = after_batch(state, rows, n - 1);
        let ready = EngineState { clock: next_id(before.clock), ..before };
        let written = rows[n - 1].0@;
        if written == key {
            lemma_put_then_get(ready, before.clock, key, rows[n - 1].1@);
        } else {
            lemma_others_unchanged(ready, before.clock, written, rows[n - 1].1@, key);
        }
        assert(located(ready, key) == located(before, key));
    }
}

/// The size of a memtable when the first `n` rows of a batch were added.
pub open spec fn grown_by(bytes: u64, rows: Seq<(Vec<u8>, Vec<u8>)>, n: int) -> u64
    decreases n,
{
    if n <= 0 {
        bytes
    } else {
        grown(grown_by(bytes, rows, n - 1), rows[n - 1].0@, Some(rows[n - 1].1@))
    }
}

/// Each row of a batch makes the memtable larger by its key, its value, and what each version
/// takes beside them.
pub proof fn lemma_batch_bytes(bytes: u64, rows: Seq<(Vec<u8>, Vec<u8>)>, n: int)
    requires
        0 <= n < rows.len(),
        grown_by(bytes, rows, n) + rows[n].0@.len() + rows[n].1@.len() + 16 <= u64::MAX,
    ensures
        grown_by(bytes, rows, 0) == bytes,
        grown_by(bytes, rows, n + 1) == grown_by(bytes, rows, n) + rows[n].0@.len()
            + rows[n].1@.len() + 16,
{
}

/// Sum of numbers.
pub open spec fn sum_of(numbers: Seq<u64>) -> nat
    decreases numbers.len(),
{
    if numbers.len() == 0 {
        0
    } else {
        sum_of(numbers.drop_last()) + numbers.last() as nat
    }
}

/// The sum of numbers is that of some of them and that of the others.
pub proof fn lemma_sum_parts(a: Seq<u64>, b: Seq<u64>)
    ensures
        sum_of(a + b) == sum_of(a) + sum_of(b),
        b.len() == 1 ==> sum_of(b) == b[0],
    decreases b.len(),
{
    reveal_with_fuel(sum_of, 2);
    if b.len() == 0 {
        assert(a + b =~= a);
    } else {
        assert((a + b).drop_last() =~= a + b.drop_last());
        assert((a + b).last() == b.last());
        lemma_sum_parts(a, b.drop_last());
    }
}

// What compaction leaves alone

proof fn lemma_targets_bounded(
    index: Map<Seq<u8>, RowLocationView>,
    merged: Seq<u64>,
    sst_id: u64,
    targets: Seq<(Vec<u8>, u32, u32)>,
    n: int,
    key: Seq<u8>,
)
    ensures
        ({
            let after = with_targets(index, merged, sst_id, targets, n);
            &&& after.contains_key(key) == index.contains_key(key)
            &&& index.contains_key(key) && !points_into(index[key], merged) ==> after[key]
                == index[key]
        }),
    decreases n,
{
    if n > 0 {
        lemma_targets_bounded(index, merged, sst_id, targets, n - 1, key);
    }
}

/// Whether a row stands in one of some files.
pub open spec fn points_into(location: RowLocationView, files: Seq<u64>) -> bool {
    location matches RowLocationView::SST { sst_id, .. } && files.contains(sst_id)
}

proof fn lemma_outputs_bounded<S: RowColumnSplitter>(
    state: EngineState<S>,
    merged: Seq<u64>,
    outputs: Seq<CompactionOutput>,
    file_ids: Seq<u64>,
    encrypted: bool,
    n: int,
    key: Seq<u8>,
)
    ensures
        ({
            let after = with_outputs(state, merged, outputs, file_ids, encrypted, n);
            &&& after.tables == state.tables
            &&& after.index.contains_key(key) == state.index.contains_key(key)
            &&& state.index.contains_key(key) && !points_into(state.index[key], merged)
                ==> after.index[key] == state.index[key]
        }),
    decreases n,
{
    if n > 0 {
        lemma_outputs_bounded(state, merged, outputs, file_ids, encrypted, n - 1, key);
        let before = with_outputs(state, merged, outputs, file_ids, encrypted, n - 1);
        lemma_targets_bounded(
            before.index,
            merged,
            before.next_sst,
            outputs[n - 1].art_targets@,
            outputs[n - 1].art_targets@.len() as int,
            key,
        );
    }
}

/// Compaction does not touch a row that is not in one of the merged files: a
/// row that was written or flushed meanwhile stays where it is.
pub proof fn lemma_compaction_spares_others<S: RowColumnSplitter>(
    state: EngineState<S>,
    merged: Seq<u64>,
    outputs: Seq<CompactionOutput>,
    file_ids: Seq<u64>,
    encrypted: bool,
    key: Seq<u8>,
)
    requires
        state.index.contains_key(key) ==> !points_into(state.index[key], merged),
    ensures
        ({
            let after = after_compaction(state, merged, outputs, file_ids, encrypted);
            &&& after.tables == state.tables
            &&& after.index.contains_key(key) == state.index.contains_key(key)
            &&& state.index.contains_key(key) ==> after.index[key] == state.index[key]
        }),
{
    lemma_outputs_bounded(
        state,
        merged,
        outputs,
        file_ids,
        encrypted,
        outputs.len() as int,
        key,
    );
}

proof fn lemma_without_files(
    files: Map<u64, SstEntryView>,
    merged: Seq<u64>,
    n: int,
    id: u64,
)
    requires
        0 <= n <= merged.len(),
    ensures
        without_files(files, merged, n).contains_key(id) <==> files.contains_key(id)
            && !merged.take(n).contains(id),
        without_files(files, merged, n).contains_key(id) ==> without_files(files, merged, n)[id]
            == files[id],
    decreases n,
{
    if n > 0 {
        lemma_without_files(files, merged, n - 1, id);
        let fewer = merged.take(n - 1);
        let more = merged.take(n);
        assert(more[n - 1] == merged[n - 1]);
        if fewer.contains(id) {
            let i = fewer.index_of(id);
            assert(more[i] == id);
        } else if more.contains(id) {
            let i = more.index_of(id);
            assert(i == n - 1 || fewer[i] == id);
        }
    }
}

proof fn lemma_outputs_above<S: RowColumnSplitter>(
    state: EngineState<S>,
    merged: Seq<u64>,
    outputs: Seq<CompactionOutput>,
    file_ids: Seq<u64>,
    encrypted: bool,
    n: int,
    id: u64,
)
    requires
        0 <= n,
        id < state.next_sst,
        state.next_sst + n <= u64::MAX,
    ensures
        ({
            let after = with_outputs(state, merged, outputs, file_ids, encrypted, n);
            &&& after.next_sst == state.next_sst + n
            &&& after.files.contains_key(id) == state.files.contains_key(id)
            &&& state.files.contains_key(id) ==> after.files[id] == state.files[id]
        }),
    decreases n,
{
    if n > 0 {
        lemma_outputs_above(state, merged, outputs, file_ids, encrypted, n - 1, id);
    }
}

/// When a compaction is done, the files that it merged are gone, and of the files that were
/// there before no other is.
pub proof fn lemma_inputs_gone<S: RowColumnSplitter>(
    state: EngineState<S>,
    merged: Seq<u64>,
    outputs: Seq<CompactionOutput>,
    file_ids: Seq<u64>,
    encrypted: bool,
    id: u64,
)
    requires
        state.next_sst + outputs.len() <= u64::MAX,
    ensures
        ({
            let after = after_compaction(state, merged, outputs, file_ids, encrypted);
            &&& merged.contains(id) ==> !after.files.contains_key(id)
            &&& !merged.contains(id) && id < state.next_sst ==> after.files.contains_key(id)
                == state.files.contains_key(id)
            &&& !merged.contains(id) && id < state.next_sst && state.files.contains_key(id)
                ==> after.files[id] == state.files[id]
        }),
{
    let files = with_outputs(
        state,
        merged,
        outputs,
        file_ids,
        encrypted,
        outputs.len() as int,
    ).files;
    lemma_without_files(files, merged, merged.len() as int, id);
    assert(merged.take(merged.len() as int) =~= merged);
    if id < state.next_sst {
        lemma_outputs_above(
            state,
            merged,
            outputs,
            file_ids,
            encrypted,
            outputs.len() as int,
            id,
        );
    }
}

/// What locations say.
pub open spec fn location_views(locations: Seq<RowLocation>) -> Seq<RowLocationView> {
    Seq::new(locations.len(), |i: int| locations[i]@)
}

proof fn lemma_with_files_local(
    files: Map<u64, SstEntryView>,
    ssts: Seq<SstFile>,
    a: Seq<u64>,
    b: Seq<u64>,
    encrypted: bool,
    n: int,
)
    requires
        forall|i: int| 0 <= i < n ==> a[i] == b[i],
    ensures
        with_files(files, ssts, a, encrypted, n) == with_files(files, ssts, b, encrypted, n),
    decreases n,
{
    if n > 0 {
        lemma_with_files_local(files, ssts, a, b, encrypted, n - 1);
    }
}

} // verus!
