//! Turning a sealed memtable into SST files.
//!
//! 1. List the entries of the memtable in the order of their keys.
//! 2. Group them into blocks, by size, number of rows and table.
//! 3. Pack the blocks into SST files, each closed by a block index.
//!
//! What is written to disk, and when, is up to the caller: the functions here
//! hand out the contents of the files. Where blocks are encrypted, each block
//! is encrypted between [`build_block`] and [`SstWriter::add_block`].

use vstd::prelude::*;
use vstd::slice::{slice_subrange, slice_to_vec};

use crate::bytes::{get_u64, le_bytes, le_value, put_u64, views};
use crate::bytes::{
    lemma_byte_range_values, lemma_le_bytes_len, lemma_le_round_trip, lemma_lex_irreflexive,
};
use crate::column::{BlockId, ColumnType, Timestamp};
use crate::columnar::{
    appended_codecs, appended_columns, cell_views, columnar_data_columns, registration_for,
    registration_index, registration_position, split_rows, splittable, ColumnarRegistration,
    RowColumnSplitter,
};
use crate::error::{Fault, GalaxError, GalaxResult};
use crate::memtable::versioned_value::{copy_value, value_view, VersionedValue};
use crate::memtable::{entry_size, lists, Memtable};
use crate::pax::block::{
    block_bytes, chunks_of, column_views, concat, lemma_concat_part, same_rows, written_block,
    ColumnView,
};
use crate::pax::codec::is_chunk;
use crate::pax::{CodecId, ColumnData, PaxBlock};
use crate::row::{rows_of, BlockRow, RowView};
use crate::sst::{
    block_at, entries_of, indexable, lemma_sst_round_trip, parse_index, sst_bytes,
    BlockIndexEntry, SstPacker,
};

verus! {

/// Configuration of a flush.
#[derive(Clone, Copy, Debug)]
pub struct FlushConfig {
    /// Target size of an SST file in bytes.
    pub sst_size_bytes: u64,
    /// Maximum number of rows in a block.
    pub max_rows_per_block: usize,
}

impl Default for FlushConfig {
    /// 8 MB files, 100 rows in a block.
    fn default() -> (config: Self)
        ensures
            config.sst_size_bytes == 8388608,
            config.max_rows_per_block == 100,
    {
        FlushConfig { sst_size_bytes: 8388608, max_rows_per_block: 100 }
    }
}

// Block ids

/// Source of unique ids for blocks and for the names of SST files.
#[derive(Debug)]
pub struct BlockIdCounter {
    next: u64,
}

impl View for BlockIdCounter {
    type V = u64;

    /// The id that is handed out next.
    closed spec fn view(&self) -> u64 {
        self.next
    }
}

/// The id after `id`.
pub open spec fn next_id(id: u64) -> u64 {
    if id == u64::MAX {
        0
    } else {
        (id + 1) as u64
    }
}

impl BlockIdCounter {
    /// A counter that starts at 1.
    pub fn new() -> (counter: Self)
        ensures
            counter@ == 1,
    {
        BlockIdCounter { next: 1 }
    }
}

/// Sets the next block id.
pub fn set_next_block_id(counter: &mut BlockIdCounter, id: u64)
    ensures
        final(counter)@ == id,
{
    counter.next = id;
}

/// The next block id, without taking it.
pub fn peek_next_block_id(counter: &BlockIdCounter) -> (id: u64)
    ensures
        id == counter@,
{
    counter.next
}

/// Takes a new block id.
pub fn allocate_block_id(counter: &mut BlockIdCounter) -> (id: BlockId)
    ensures
        id == old(counter)@,
        final(counter)@ == next_id(id),
{
    let id: u64 = counter.next;
    counter.next = if id == u64::MAX { 0 } else { id + 1 };
    id
}

// Columns

/// Index of the column with the commit timestamps of the rows.
pub const ROW_TS_COLUMN: usize = 2;

/// What the value column stores: a tombstone is stored as an empty value.
pub open spec fn stored_value(value: Option<Seq<u8>>) -> Seq<u8> {
    match value {
        Some(bytes) => bytes,
        None => Seq::<u8>::empty(),
    }
}

/// The columns that every block has: keys, values and commit timestamps.
pub open spec fn base_columns(rows: Seq<RowView>) -> Seq<ColumnView> {
    seq![
        ColumnView {
            col_type: ColumnType::Blob,
            rows: Seq::new(rows.len(), |i: int| rows[i].key),
        },
        ColumnView {
            col_type: ColumnType::Blob,
            rows: Seq::new(rows.len(), |i: int| stored_value(rows[i].value)),
        },
        ColumnView {
            col_type: ColumnType::Blob,
            rows: Seq::new(rows.len(), |i: int| le_bytes(rows[i].timestamp as nat, 8)),
        },
    ]
}

/// The codecs of those columns: values and timestamps stay uncompressed, so
/// that a single row can be read without its neighbours.
pub open spec fn base_codecs() -> Seq<CodecId> {
    seq![CodecId::Zstd, CodecId::Uncompressed, CodecId::Uncompressed]
}

/// Stores rows as columns of keys, values and commit timestamps.
pub fn entries_to_columns<R: BlockRow>(entries: &[R]) -> (columns: Vec<ColumnData>)
    ensures
        column_views(columns@) == base_columns(rows_of(entries@)),
{
    let ghost rows = rows_of(entries@);
    let ghost expected = base_columns(rows);
    let mut keys: Vec<Vec<u8>> = Vec::new();
    let mut values: Vec<Vec<u8>> = Vec::new();
    let mut timestamps: Vec<Vec<u8>> = Vec::new();
    let mut i: usize = 0;
    while i < entries.len()
        invariant
            i <= entries@.len(),
            rows == rows_of(entries@),
            keys@.len() == i,
            values@.len() == i,
            timestamps@.len() == i,
            forall|j: int| 0 <= j < i ==> (#[trigger] keys@[j])@ == rows[j].key,
            forall|j: int| 0 <= j < i ==> (#[trigger] values@[j])@ == stored_value(rows[j].value),
            forall|j: int|
                0 <= j < i ==> (#[trigger] timestamps@[j])@ == le_bytes(
                    rows[j].timestamp as nat,
                    8,
                ),
        decreases entries@.len() - i,
    {
        let entry = &entries[i];
        assert(rows[i as int] == entry.row());
        keys.push(slice_to_vec(entry.row_key().as_slice()));
        let value: Vec<u8> = match entry.row_value() {
            Some(bytes) => slice_to_vec(bytes.as_slice()),
            None => Vec::new(),
        };
        values.push(value);
        let mut timestamp: Vec<u8> = Vec::new();
        put_u64(&mut timestamp, entry.row_timestamp());
        assert(timestamp@ =~= le_bytes(entry.row().timestamp as nat, 8));
        timestamps.push(timestamp);
        i = i + 1;
    }
    assert(views(keys@) =~= expected[0].rows);
    assert(views(values@) =~= expected[1].rows);
    assert(views(timestamps@) =~= expected[2].rows);
    let mut columns: Vec<ColumnData> = Vec::new();
    columns.push(ColumnData { col_type: ColumnType::Blob, values: keys });
    columns.push(ColumnData { col_type: ColumnType::Blob, values });
    columns.push(ColumnData { col_type: ColumnType::Blob, values: timestamps });
    assert(column_views(columns@) =~= expected);
    columns
}

/// Decodes a commit timestamp as the timestamp column stores it. `None` if the
/// bytes are not 8.
pub open spec fn row_ts(bytes: Seq<u8>) -> Option<u64> {
    if bytes.len() == 8 {
        Some(le_value(bytes) as u64)
    } else {
        None
    }
}

/// Decodes a row's commit timestamp. A value that is not 8 bytes long gives
/// `None`: the block's own timestamp then stands for it.
pub fn decode_row_ts(bytes: &[u8]) -> (timestamp: Option<Timestamp>)
    ensures
        timestamp == row_ts(bytes@),
{
    if bytes.len() == 8 {
        assert(bytes@.subrange(0, 8) =~= bytes@);
        Some(get_u64(bytes, 0))
    } else {
        None
    }
}

/// A timestamp is read back as it was stored.
pub proof fn lemma_row_ts_round_trip(timestamp: u64)
    ensures
        row_ts(le_bytes(timestamp as nat, 8)) == Some(timestamp),
{
    lemma_byte_range_values();
    lemma_le_bytes_len(timestamp as nat, 8);
    lemma_le_round_trip(timestamp as nat, 8);
}

/// The values of rows.
pub open spec fn row_values(rows: Seq<RowView>) -> Seq<Option<Seq<u8>>> {
    Seq::new(rows.len(), |i: int| rows[i].value)
}

/// The table of a block: the registration of its first row, if it can split
/// every row.
pub open spec fn table_of<S: RowColumnSplitter>(
    rows: Seq<RowView>,
    registrations: Seq<ColumnarRegistration<S>>,
) -> Option<int> {
    if rows.len() == 0 {
        None
    } else {
        match registration_index(registrations, rows[0].key) {
            Some(i) => if splittable(row_values(rows), registrations[i].splitter) {
                Some(i)
            } else {
                None
            },
            None => None,
        }
    }
}

/// The columns of a block.
pub open spec fn block_columns<S: RowColumnSplitter>(
    rows: Seq<RowView>,
    registrations: Seq<ColumnarRegistration<S>>,
) -> Seq<ColumnView> {
    match table_of(rows, registrations) {
        Some(i) => base_columns(rows) + appended_columns(
            registrations[i].splitter.types(),
            split_rows(row_values(rows), registrations[i].splitter),
        ),
        None => base_columns(rows),
    }
}

/// The codecs of the columns of a block.
pub open spec fn block_codecs<S: RowColumnSplitter>(
    rows: Seq<RowView>,
    registrations: Seq<ColumnarRegistration<S>>,
) -> Seq<CodecId> {
    match table_of(rows, registrations) {
        Some(i) => base_codecs() + appended_codecs(registrations[i].splitter.types()),
        None => base_codecs(),
    }
}

/// The codecs of the columns that every block has.
fn base_codec_list() -> (codecs: Vec<CodecId>)
    ensures
        codecs@ == base_codecs(),
{
    let mut codecs: Vec<CodecId> = Vec::new();
    codecs.push(CodecId::Zstd);
    codecs.push(CodecId::Uncompressed);
    codecs.push(CodecId::Uncompressed);
    assert(codecs@ =~= base_codecs());
    codecs
}

/// The columns of a columnar block, `None` if a row cannot be split into the
/// expected cells.
fn entries_to_columns_columnar<R: BlockRow, S: RowColumnSplitter>(
    chunk: &[R],
    splitter: &S,
) -> (result: Option<(Vec<ColumnData>, Vec<CodecId>)>)
    ensures
        match result {
            Some((columns, codecs)) => {
                let rows = rows_of(chunk@);
                &&& splittable(row_values(rows), *splitter)
                &&& column_views(columns@) == base_columns(rows) + appended_columns(
                    splitter.types(),
                    split_rows(row_values(rows), *splitter),
                )
                &&& codecs@ == base_codecs() + appended_codecs(splitter.types())
            },
            None => !splittable(row_values(rows_of(chunk@)), *splitter),
        },
{
    let ghost rows = rows_of(chunk@);
    let mut values: Vec<Option<Vec<u8>>> = Vec::new();
    let mut i: usize = 0;
    while i < chunk.len()
        invariant
            i <= chunk@.len(),
            rows == rows_of(chunk@),
            values@.len() == i,
            forall|j: int| 0 <= j < i ==> value_view(#[trigger] values@[j]) == rows[j].value,
        decreases chunk@.len() - i,
    {
        assert(rows[i as int] == chunk@[i as int].row());
        values.push(copy_value(chunk[i].row_value()));
        i = i + 1;
    }
    assert(cell_views(values@) =~= row_values(rows));
    match columnar_data_columns(values.as_slice(), splitter) {
        Some((data_columns, data_codecs)) => {
            let mut columns = entries_to_columns(chunk);
            let mut codecs = base_codec_list();
            let ghost base = columns@;
            let ghost data = data_columns@;
            let mut data_columns = data_columns;
            let mut data_codecs = data_codecs;
            columns.append(&mut data_columns);
            codecs.append(&mut data_codecs);
            assert(column_views(columns@) =~= column_views(base) + column_views(data));
            Some((columns, codecs))
        },
        None => None,
    }
}

/// Builds the columns and codecs of one block: keys, values and timestamps,
/// and a pair of columns for each column of the table if the block belongs to
/// one that is stored by column. If a row cannot be split, the block goes
/// without those, so that nothing is lost.
pub fn build_block_columns<R: BlockRow, S: RowColumnSplitter>(
    chunk: &[R],
    registrations: &[ColumnarRegistration<S>],
) -> (result: (Vec<ColumnData>, Vec<CodecId>))
    ensures
        column_views(result.0@) == block_columns(rows_of(chunk@), registrations@),
        result.1@ == block_codecs(rows_of(chunk@), registrations@),
{
    if chunk.len() > 0 {
        assert(rows_of(chunk@)[0] == chunk@[0].row());
        match registration_for(registrations, chunk[0].row_key().as_slice()) {
            Some(registration) => {
                match entries_to_columns_columnar(chunk, &registration.splitter) {
                    Some(result) => {
                        return result;
                    },
                    None => {},
                }
            },
            None => {},
        }
    }
    (entries_to_columns(chunk), base_codec_list())
}

// Blocks

/// The newest timestamp of rows, `default` if there are none.
pub open spec fn newest(rows: Seq<RowView>, default: u64) -> u64
    decreases rows.len(),
{
    if rows.len() == 0 {
        default
    } else if rows.len() == 1 {
        rows[0].timestamp
    } else {
        let before = newest(rows.drop_last(), default);
        if rows.last().timestamp > before {
            rows.last().timestamp
        } else {
            before
        }
    }
}

/// No row is newer than the newest timestamp, and one is as new.
pub proof fn lemma_newest(rows: Seq<RowView>, default: u64)
    requires
        rows.len() > 0,
    ensures
        forall|i: int|
            0 <= i < rows.len() ==> (#[trigger] rows[i]).timestamp <= newest(rows, default),
        exists|i: int|
            0 <= i < rows.len() && (#[trigger] rows[i]).timestamp == newest(rows, default),
    decreases rows.len(),
{
    if rows.len() == 1 {
        assert(rows[0].timestamp == newest(rows, default));
    } else {
        let front = rows.drop_last();
        lemma_newest(front, default);
        assert forall|i: int| 0 <= i < rows.len() implies (#[trigger] rows[i]).timestamp <= newest(
            rows,
            default,
        ) by {
            if i < front.len() {
                assert(front[i] == rows[i]);
            }
        }
        if rows.last().timestamp > newest(front, default) {
            assert(rows[rows.len() - 1].timestamp == newest(rows, default));
        } else {
            let i = choose|i: int|
                0 <= i < front.len() && (#[trigger] front[i]).timestamp == newest(front, default);
            assert(rows[i].timestamp == newest(rows, default));
        }
    }
}

/// Byte form of the block of rows.
pub open spec fn rows_block<S: RowColumnSplitter>(
    rows: Seq<RowView>,
    registrations: Seq<ColumnarRegistration<S>>,
    block_id: u64,
    timestamp: u64,
) -> Seq<u8> {
    block_bytes(
        written_block(
            block_id,
            timestamp,
            block_columns(rows, registrations),
            block_codecs(rows, registrations),
        ),
    )
}

/// Whether each column chunk of the block of rows is one that its codec made.
pub open spec fn rows_encoded<S: RowColumnSplitter>(
    rows: Seq<RowView>,
    registrations: Seq<ColumnarRegistration<S>>,
) -> bool {
    let columns = block_columns(rows, registrations);
    let codecs = block_codecs(rows, registrations);
    forall|i: int|
        0 <= i < columns.len() ==> is_chunk(
            columns[i].col_type,
            codecs[i],
            columns[i].rows,
            #[trigger] chunks_of(columns, codecs)[i],
        )
}

/// What building the block of rows comes to.
pub open spec fn builds_to<S: RowColumnSplitter>(
    rows: Seq<RowView>,
    registrations: Seq<ColumnarRegistration<S>>,
    block_id: u64,
    timestamp: u64,
    outcome: Result<Seq<u8>, GalaxError>,
) -> bool {
    match outcome {
        Ok(bytes) => {
            &&& bytes == rows_block(rows, registrations, block_id, timestamp)
            &&& rows_encoded(rows, registrations)
        },
        Err(error) => error == GalaxError::Internal(Fault::ZstdCompressionFailed),
    }
}

/// The bytes that a result holds.
pub open spec fn bytes_result(result: GalaxResult<Vec<u8>>) -> Result<Seq<u8>, GalaxError> {
    match result {
        Ok(bytes) => Ok(bytes@),
        Err(error) => Err(error),
    }
}

proof fn lemma_block_columns<S: RowColumnSplitter>(
    rows: Seq<RowView>,
    registrations: Seq<ColumnarRegistration<S>>,
)
    ensures
        block_columns(rows, registrations).len() >= 3,
        block_columns(rows, registrations).len() == block_codecs(rows, registrations).len(),
        same_rows(block_columns(rows, registrations)),
        forall|i: int|
            #![trigger block_columns(rows, registrations)[i]]
            0 <= i < block_columns(rows, registrations).len() ==> {
                &&& block_columns(rows, registrations)[i].rows.len() == rows.len()
                &&& block_codecs(rows, registrations)[i] == CodecId::FastPFor
                    ==> block_columns(rows, registrations)[i].col_type.size() is Some
            },
{
}

/// Builds one block out of rows.
pub fn build_block<R: BlockRow, S: RowColumnSplitter>(
    chunk: &[R],
    registrations: &[ColumnarRegistration<S>],
    block_id: BlockId,
    timestamp: Timestamp,
) -> (result: GalaxResult<Vec<u8>>)
    ensures
        builds_to(
            rows_of(chunk@),
            registrations@,
            block_id,
            timestamp,
            bytes_result(result),
        ),
{
    let ghost rows = rows_of(chunk@);
    let (columns, codecs) = build_block_columns(chunk, registrations);
    proof {
        lemma_block_columns(rows, registrations@);
    }
    match PaxBlock::write_with_codecs(block_id, timestamp, columns.as_slice(), codecs.as_slice()) {
        Ok(block) => Ok(block.serialize()),
        Err(error) => Err(error),
    }
}

/// The newest timestamp of rows, `default` if there are none.
pub fn newest_timestamp<R: BlockRow>(chunk: &[R], default: Timestamp) -> (timestamp: Timestamp)
    ensures
        timestamp == newest(rows_of(chunk@), default),
{
    let ghost rows = rows_of(chunk@);
    if chunk.len() == 0 {
        return default;
    }
    assert(rows[0] == chunk@[0].row());
    let mut timestamp: u64 = chunk[0].row_timestamp();
    let mut i: usize = 1;
    assert(rows.take(1)[0] == rows[0]);
    while i < chunk.len()
        invariant
            1 <= i <= chunk@.len(),
            rows == rows_of(chunk@),
            timestamp == newest(rows.take(i as int), default),
        decreases chunk@.len() - i,
    {
        assert(rows.take(i + 1).drop_last() =~= rows.take(i as int));
        assert(rows[i as int] == chunk@[i as int].row());
        let next: u64 = chunk[i].row_timestamp();
        if next > timestamp {
            timestamp = next;
        }
        i = i + 1;
    }
    assert(rows.take(i as int) =~= rows);
    timestamp
}

// Grouping rows into blocks

/// Size of the rows from `start` to `end`.
pub open spec fn rows_bytes(rows: Seq<RowView>, start: int, end: int) -> nat
    decreases end - start,
{
    if end <= start {
        0
    } else {
        rows_bytes(rows, start, end - 1) + entry_size(rows[end - 1].key, rows[end - 1].value)
    }
}

/// Whether a block that starts at `start` ends after the row at `i`: it has
/// reached its size or its number of rows, or the next row is of another table.
pub open spec fn cut_after<S: RowColumnSplitter>(
    rows: Seq<RowView>,
    start: int,
    i: int,
    config: FlushConfig,
    registrations: Seq<ColumnarRegistration<S>>,
) -> bool {
    ||| rows_bytes(rows, start, i + 1) >= config.sst_size_bytes
    ||| i + 1 - start >= config.max_rows_per_block
    ||| registration_index(registrations, rows[i + 1].key) != registration_index(
        registrations,
        rows[start].key,
    )
}

/// End of the block that starts at `start` and does not end before `i`.
pub open spec fn block_end<S: RowColumnSplitter>(
    rows: Seq<RowView>,
    start: int,
    i: int,
    config: FlushConfig,
    registrations: Seq<ColumnarRegistration<S>>,
) -> int
    decreases rows.len() - i,
{
    if i + 1 >= rows.len() {
        rows.len() as int
    } else if cut_after(rows, start, i, config, registrations) {
        i + 1
    } else {
        block_end(rows, start, i + 1, config, registrations)
    }
}

/// Where the blocks of the rows from `start` on begin and end.
pub open spec fn block_ranges<S: RowColumnSplitter>(
    rows: Seq<RowView>,
    start: int,
    config: FlushConfig,
    registrations: Seq<ColumnarRegistration<S>>,
) -> Seq<(int, int)>
    decreases rows.len() - start,
{
    let end = block_end(rows, start, start, config, registrations);
    if start < end <= rows.len() {
        seq![(start, end)] + block_ranges(rows, end, config, registrations)
    } else {
        Seq::<(int, int)>::empty()
    }
}

proof fn lemma_block_end<S: RowColumnSplitter>(
    rows: Seq<RowView>,
    start: int,
    i: int,
    config: FlushConfig,
    registrations: Seq<ColumnarRegistration<S>>,
)
    requires
        0 <= start <= i < rows.len(),
    ensures
        i < block_end(rows, start, i, config, registrations) <= rows.len(),
    decreases rows.len() - i,
{
    if i + 1 < rows.len() && !cut_after(rows, start, i, config, registrations) {
        lemma_block_end(rows, start, i + 1, config, registrations);
    }
}

/// The rows of each block.
pub open spec fn chunks_of_rows<S: RowColumnSplitter>(
    rows: Seq<RowView>,
    config: FlushConfig,
    registrations: Seq<ColumnarRegistration<S>>,
) -> Seq<Seq<RowView>> {
    let ranges = block_ranges(rows, 0, config, registrations);
    Seq::new(ranges.len(), |k: int| rows.subrange(ranges[k].0, ranges[k].1))
}

/// Rows one group after the other.
pub open spec fn joined<T>(chunks: Seq<Seq<T>>) -> Seq<T>
    decreases chunks.len(),
{
    if chunks.len() == 0 {
        Seq::<T>::empty()
    } else {
        chunks[0] + joined(chunks.skip(1))
    }
}

/// The last group comes last.
pub proof fn lemma_joined_last<T>(chunks: Seq<Seq<T>>)
    requires
        chunks.len() > 0,
    ensures
        joined(chunks) == joined(chunks.drop_last()) + chunks.last(),
    decreases chunks.len(),
{
    reveal_with_fuel(joined, 2);
    if chunks.len() == 1 {
        assert(chunks.skip(1) =~= Seq::<Seq<T>>::empty());
        assert(chunks.drop_last() =~= Seq::<Seq<T>>::empty());
        assert(joined(chunks) =~= chunks[0]);
        assert(joined(chunks.drop_last()) + chunks.last() =~= chunks[0]);
    } else {
        lemma_joined_last(chunks.skip(1));
        assert(chunks.skip(1).drop_last() =~= chunks.drop_last().skip(1));
        assert(chunks.skip(1).last() == chunks.last());
        assert(chunks.drop_last()[0] == chunks[0]);
        assert(joined(chunks) =~= joined(chunks.drop_last()) + chunks.last());
    }
}

proof fn lemma_ranges_join<S: RowColumnSplitter>(
    rows: Seq<RowView>,
    start: int,
    config: FlushConfig,
    registrations: Seq<ColumnarRegistration<S>>,
)
    requires
        0 <= start <= rows.len(),
    ensures
        ({
            let ranges = block_ranges(rows, start, config, registrations);
            let chunks = Seq::new(
                ranges.len(),
                |k: int| rows.subrange(ranges[k].0, ranges[k].1),
            );
            &&& joined(chunks) == rows.skip(start)
            &&& forall|k: int|
                0 <= k < ranges.len() ==> start <= (#[trigger] ranges[k]).0 < ranges[k].1
                    <= rows.len()
            &&& forall|k: int, r: int|
                0 <= k < ranges.len() && (#[trigger] ranges[k]).0 <= r < ranges[k].1
                    ==> registration_index(registrations, #[trigger] rows[r].key)
                    == registration_index(registrations, rows[ranges[k].0].key)
        }),
    decreases rows.len() - start,
{
    let ranges = block_ranges(rows, start, config, registrations);
    let chunks = Seq::new(ranges.len(), |k: int| rows.subrange(ranges[k].0, ranges[k].1));
    if start < rows.len() {
        lemma_block_end(rows, start, start, config, registrations);
        let end = block_end(rows, start, start, config, registrations);
        let rest = block_ranges(rows, end, config, registrations);
        let rest_chunks = Seq::new(rest.len(), |k: int| rows.subrange(rest[k].0, rest[k].1));
        lemma_ranges_join(rows, end, config, registrations);
        lemma_one_table(rows, start, start, config, registrations);
        assert(ranges.skip(1) =~= rest);
        assert forall|k: int| 0 <= k < rest.len() implies ranges[k + 1] == rest[k] by {
            assert(ranges.skip(1)[k] == rest[k]);
        }
        assert(chunks.skip(1) =~= rest_chunks);
        assert(chunks[0] =~= rows.subrange(start, end));
        assert(joined(chunks) =~= rows.skip(start));
        assert forall|k: int, r: int|
            0 <= k < ranges.len() && (#[trigger] ranges[k]).0 <= r
                < ranges[k].1 implies registration_index(registrations, #[trigger] rows[r].key)
            == registration_index(registrations, rows[ranges[k].0].key) by {
            if k > 0 {
                assert(ranges[k] == rest[k - 1]);
            }
        }
        assert forall|k: int| 0 <= k < ranges.len() implies start <= (#[trigger] ranges[k]).0
            < ranges[k].1 <= rows.len() by {
            if k > 0 {
                assert(ranges[k] == rest[k - 1]);
            }
        }
    } else {
        assert(block_end(rows, start, start, config, registrations) == rows.len());
        assert(joined(chunks) =~= rows.skip(start));
    }
}

proof fn lemma_one_table<S: RowColumnSplitter>(
    rows: Seq<RowView>,
    start: int,
    i: int,
    config: FlushConfig,
    registrations: Seq<ColumnarRegistration<S>>,
)
    requires
        0 <= start <= i < rows.len(),
        forall|r: int|
            start <= r <= i ==> registration_index(registrations, #[trigger] rows[r].key)
                == registration_index(registrations, rows[start].key),
    ensures
        forall|r: int|
            start <= r < block_end(rows, start, i, config, registrations) ==> registration_index(
                registrations,
                #[trigger] rows[r].key,
            ) == registration_index(registrations, rows[start].key),
    decreases rows.len() - i,
{
    if i + 1 < rows.len() && !cut_after(rows, start, i, config, registrations) {
        lemma_one_table(rows, start, i + 1, config, registrations);
    }
}

/// The blocks hold all rows, in order; none is empty, and none mixes the rows
/// of two tables.
pub proof fn lemma_blocks_cover_rows<S: RowColumnSplitter>(
    rows: Seq<RowView>,
    config: FlushConfig,
    registrations: Seq<ColumnarRegistration<S>>,
)
    ensures
        joined(chunks_of_rows(rows, config, registrations)) == rows,
        forall|k: int|
            0 <= k < chunks_of_rows(rows, config, registrations).len()
                ==> (#[trigger] chunks_of_rows(rows, config, registrations)[k]).len() > 0,
        forall|k: int, r: int|
            #![trigger chunks_of_rows(rows, config, registrations)[k][r]]
            0 <= k < chunks_of_rows(rows, config, registrations).len() && 0 <= r
                < chunks_of_rows(rows, config, registrations)[k].len() ==> registration_index(
                registrations,
                chunks_of_rows(rows, config, registrations)[k][r].key,
            ) == registration_index(
                registrations,
                chunks_of_rows(rows, config, registrations)[k][0].key,
            ),
{
    lemma_ranges_join(rows, 0, config, registrations);
    assert(rows.skip(0) =~= rows);
    let ranges = block_ranges(rows, 0, config, registrations);
    let chunks = chunks_of_rows(rows, config, registrations);
    assert forall|k: int, r: int|
        #![trigger chunks[k][r]]
        0 <= k < chunks.len() && 0 <= r < chunks[k].len() implies registration_index(
        registrations,
        chunks[k][r].key,
    ) == registration_index(registrations, chunks[k][0].key) by {
        assert(ranges[k].0 < ranges[k].1);
        assert(chunks[k][r] == rows[ranges[k].0 + r]);
        assert(chunks[k][0] == rows[ranges[k].0]);
        assert(registration_index(registrations, rows[ranges[k].0 + r].key)
            == registration_index(registrations, rows[ranges[k].0].key));
    }
}

proof fn lemma_block_end_limits<S: RowColumnSplitter>(
    rows: Seq<RowView>,
    start: int,
    i: int,
    config: FlushConfig,
    registrations: Seq<ColumnarRegistration<S>>,
)
    requires
        0 <= start <= i < rows.len(),
        i > start ==> i + 1 - start <= config.max_rows_per_block && rows_bytes(rows, start, i)
            < config.sst_size_bytes,
    ensures
        ({
            let end = block_end(rows, start, i, config, registrations);
            &&& end - start > 1 ==> end - start <= config.max_rows_per_block && rows_bytes(
                rows,
                start,
                end - 1,
            ) < config.sst_size_bytes
            &&& end < rows.len() ==> {
                ||| end - start >= config.max_rows_per_block
                ||| rows_bytes(rows, start, end) >= config.sst_size_bytes
                ||| registration_index(registrations, rows[end].key) != registration_index(
                    registrations,
                    rows[start].key,
                )
            }
        }),
    decreases rows.len() - i,
{
    if i + 1 < rows.len() && !cut_after(rows, start, i, config, registrations) {
        lemma_block_end_limits(rows, start, i + 1, config, registrations);
    }
}

/// The limits of blocks: a block has no more rows than the greatest number, but for a first
/// one, and is below the size of a file without its last row; and it ends before the last
/// row only where it has reached its number of rows or its size, or the next row is of
/// another table.
pub proof fn lemma_block_limits<S: RowColumnSplitter>(
    rows: Seq<RowView>,
    start: int,
    config: FlushConfig,
    registrations: Seq<ColumnarRegistration<S>>,
    k: int,
)
    requires
        0 <= start <= rows.len(),
        0 <= k < block_ranges(rows, start, config, registrations).len(),
    ensures
        ({
            let from = block_ranges(rows, start, config, registrations)[k].0;
            let to = block_ranges(rows, start, config, registrations)[k].1;
            &&& start <= from < to <= rows.len()
            &&& to - from == 1 || to - from <= config.max_rows_per_block
            &&& to - from == 1 || rows_bytes(rows, from, to - 1) < config.sst_size_bytes
            &&& to < rows.len() ==> {
                ||| to - from >= config.max_rows_per_block
                ||| rows_bytes(rows, from, to) >= config.sst_size_bytes
                ||| registration_index(registrations, rows[to].key) != registration_index(
                    registrations,
                    rows[from].key,
                )
            }
        }),
    decreases rows.len() - start,
{
    let ranges = block_ranges(rows, start, config, registrations);
    let end = block_end(rows, start, start, config, registrations);
    if start < rows.len() {
        lemma_block_end(rows, start, start, config, registrations);
        if k == 0 {
            lemma_block_end_limits(rows, start, start, config, registrations);
        } else {
            let rest = block_ranges(rows, end, config, registrations);
            assert(ranges[k] == rest[k - 1]);
            lemma_block_limits(rows, end, config, registrations, k - 1);
        }
    } else {
        assert(end == rows.len());
    }
}

/// Groups sorted entries into blocks. A block ends when it has reached the size
/// of a file or its number of rows, and where the next row belongs to another
/// table that is stored by column: the columns of a block are those of one
/// table.
pub fn split_into_blocks<'a, R: BlockRow, S: RowColumnSplitter>(
    entries: &'a [R],
    config: &FlushConfig,
    registrations: &[ColumnarRegistration<S>],
) -> (blocks: Vec<&'a [R]>)
    ensures
        blocks@.len() == chunks_of_rows(rows_of(entries@), *config, registrations@).len(),
        forall|k: int|
            0 <= k < blocks@.len() ==> rows_of((#[trigger] blocks@[k])@) == chunks_of_rows(
                rows_of(entries@),
                *config,
                registrations@,
            )[k],
{
    let ghost rows = rows_of(entries@);
    let ghost all = block_ranges(rows, 0, *config, registrations@);
    let ghost mut done = Seq::<(int, int)>::empty();
    let mut blocks: Vec<&'a [R]> = Vec::new();
    if entries.len() == 0 {
        assert(block_end(rows, 0, 0, *config, registrations@) == 0);
        return blocks;
    }
    let mut start: usize = 0;
    let mut size: u64 = 0;
    let mut i: usize = 0;
    assert(rows[0] == entries@[0].row());
    let mut table: Option<usize> = registration_position(
        registrations,
        entries[0].row_key().as_slice(),
    );
    assert(all =~= done + block_ranges(rows, 0, *config, registrations@));
    while i < entries.len()
        invariant
            start <= i <= entries@.len(),
            start < entries@.len(),
            rows == rows_of(entries@),
            all == block_ranges(rows, 0, *config, registrations@),
            all == done + block_ranges(rows, start as int, *config, registrations@),
            blocks@.len() == done.len(),
            forall|k: int|
                0 <= k < done.len() ==> 0 <= (#[trigger] done[k]).0 <= done[k].1 <= rows.len()
                    && blocks@[k]@ == entries@.subrange(done[k].0, done[k].1),
            size == (if rows_bytes(rows, start as int, i as int) > u64::MAX {
                u64::MAX as nat
            } else {
                rows_bytes(rows, start as int, i as int)
            }),
            i < entries@.len() ==> block_end(
                rows,
                start as int,
                start as int,
                *config,
                registrations@,
            ) == block_end(rows, start as int, i as int, *config, registrations@),
            i == entries@.len() ==> block_end(
                rows,
                start as int,
                start as int,
                *config,
                registrations@,
            ) == rows.len(),
            match table {
                Some(t) => registration_index(registrations@, rows[start as int].key) == Some(
                    t as int,
                ),
                None => registration_index(registrations@, rows[start as int].key) is None,
            },
        decreases entries@.len() - i,
    {
        let entry = &entries[i];
        assert(rows[i as int] == entry.row());
        size = size.saturating_add(entry_bytes(entry));
        if i + 1 < entries.len() {
            assert(rows[i + 1] == entries@[i + 1].row());
            let next_table: Option<usize> = registration_position(
                registrations,
                entries[i + 1].row_key().as_slice(),
            );
            if size >= config.sst_size_bytes || i + 1 - start >= config.max_rows_per_block
                || next_table != table {
                let block = slice_subrange(entries, start, i + 1);
                blocks.push(block);
                proof {
                    let range = (start as int, i + 1);
                    let rest = block_ranges(rows, i + 1, *config, registrations@);
                    assert(cut_after(rows, start as int, i as int, *config, registrations@));
                    assert(block_end(rows, start as int, i as int, *config, registrations@) == i
                        + 1);
                    assert(block_ranges(rows, start as int, *config, registrations@) == seq![range]
                        + rest);
                    assert(done + (seq![range] + rest) =~= done.push(range) + rest);
                    done = done.push(range);
                }
                start = i + 1;
                size = 0;
                table = next_table;
            }
        }
        i = i + 1;
    }
    let last = slice_subrange(entries, start, entries.len());
    blocks.push(last);
    proof {
        let n = rows.len() as int;
        let range = (start as int, n);
        assert(block_end(rows, n, n, *config, registrations@) == n);
        assert(block_ranges(rows, n, *config, registrations@) =~= Seq::<(int, int)>::empty());
        assert(block_ranges(rows, start as int, *config, registrations@) =~= seq![range]);
        assert(all =~= done.push(range));
        let chunks = chunks_of_rows(rows, *config, registrations@);
        assert forall|k: int| 0 <= k < blocks@.len() implies rows_of((#[trigger] blocks@[k])@)
            == chunks[k] by {
            if k < done.len() {
                assert(all[k] == done[k]);
            }
            assert(rows_of(blocks@[k]@) =~= chunks[k]);
        }
    }
    blocks
}

/// Size of a row: key, value and 16 bytes of overhead, counted up to the
/// greatest 64-bit number.
pub fn entry_bytes<R: BlockRow>(entry: &R) -> (size: u64)
    ensures
        size == (if entry_size(entry.row().key, entry.row().value) > u64::MAX {
            u64::MAX as nat
        } else {
            entry_size(entry.row().key, entry.row().value)
        }),
{
    let value_len: u64 = match entry.row_value() {
        Some(bytes) => bytes.len() as u64,
        None => 0,
    };
    (entry.row_key().len() as u64).saturating_add(value_len).saturating_add(16)
}

// Packing blocks into files

/// Where a block stands.
#[derive(Clone, Copy, PartialEq, Eq, Structural, Debug)]
pub struct SstBlockInfo {
    /// Index of the SST file among those of the flush.
    pub sst_index: usize,
    /// Index of the block within the file.
    pub block_index: u32,
    /// Number of rows in the block.
    pub row_count: usize,
}

/// An SST file to be written.
#[derive(Debug)]
pub struct SstFile {
    /// Id that names the file.
    pub id: u64,
    /// Contents of the file.
    pub bytes: Vec<u8>,
}

/// What has been packed.
#[verifier::ext_equal]
pub ghost struct Packing {
    /// Id and blocks of each closed file.
    pub files: Seq<(u64, Seq<Seq<u8>>)>,
    /// Blocks of the file in the making.
    pub open: Seq<Seq<u8>>,
    /// Ids of all blocks.
    pub block_ids: Seq<u64>,
    /// Where each block stands.
    pub block_map: Seq<SstBlockInfo>,
}

impl Packing {
    /// Nothing packed.
    pub open spec fn empty() -> Packing {
        Packing {
            files: Seq::<(u64, Seq<Seq<u8>>)>::empty(),
            open: Seq::<Seq<u8>>::empty(),
            block_ids: Seq::<u64>::empty(),
            block_map: Seq::<SstBlockInfo>::empty(),
        }
    }

    /// A block added to the file in the making.
    pub open spec fn placed(self, block_id: u64, block: Seq<u8>, row_count: usize) -> Packing {
        Packing {
            files: self.files,
            open: self.open.push(block),
            block_ids: self.block_ids.push(block_id),
            block_map: self.block_map.push(
                SstBlockInfo {
                    sst_index: self.files.len() as usize,
                    block_index: self.open.len() as u32,
                    row_count,
                },
            ),
        }
    }

    /// The file in the making closed under an id.
    pub open spec fn closed_as(self, file_id: u64) -> Packing {
        Packing {
            files: self.files.push((file_id, self.open)),
            open: Seq::<Seq<u8>>::empty(),
            block_ids: self.block_ids,
            block_map: self.block_map,
        }
    }

    /// Whether the file in the making has reached its size.
    pub open spec fn full(self, limit: u64) -> bool {
        concat(self.open).len() >= limit
    }
}

/// Total size of files.
pub open spec fn files_len(files: Seq<(u64, Seq<Seq<u8>>)>) -> nat
    decreases files.len(),
{
    if files.len() == 0 {
        0
    } else {
        files_len(files.drop_last()) + sst_bytes(files.last().1).len()
    }
}

/// A number counted up to the greatest 64-bit number.
pub open spec fn counted_up(n: nat) -> u64 {
    if n > u64::MAX {
        u64::MAX
    } else {
        n as u64
    }
}

/// The size of files is that of some of them and that of the others, and of one file the
/// length of its bytes.
pub proof fn lemma_files_len_parts(
    a: Seq<(u64, Seq<Seq<u8>>)>,
    b: Seq<(u64, Seq<Seq<u8>>)>,
)
    ensures
        files_len(a + b) == files_len(a) + files_len(b),
        b.len() == 1 ==> files_len(b) == sst_bytes(b[0].1).len(),
    decreases b.len(),
{
    reveal_with_fuel(files_len, 2);
    if b.len() == 0 {
        assert(a + b =~= a);
    } else {
        assert((a + b).drop_last() =~= a + b.drop_last());
        assert((a + b).last() == b.last());
        lemma_files_len_parts(a, b.drop_last());
    }
}

/// Counting up does not wrap: a greater number counts no less, and one that fits counts as it
/// is.
pub proof fn lemma_counted_up(n: nat, m: nat)
    requires
        n <= m,
    ensures
        counted_up(n) <= counted_up(m) <= m,
        m <= u64::MAX ==> counted_up(m) == m,
{
}

/// A block is stored by column for the table of its first row if the table splits every value
/// in it into a cell for each of its columns, and not at all otherwise.
pub proof fn lemma_table_of_block<S: RowColumnSplitter>(
    rows: Seq<RowView>,
    registrations: Seq<ColumnarRegistration<S>>,
    t: int,
    r: int,
)
    requires
        rows.len() > 0,
        registration_index(registrations, rows[0].key) == Some(t),
        0 <= r < rows.len(),
    ensures
        ({
            let splitter = registrations[t].splitter;
            &&& table_of(rows, registrations) is Some ==> table_of(rows, registrations) == Some(t)
                && splitter.types().len() > 0 && (rows[r].value matches Some(value) ==> {
                &&& splitter.cells(value) is Some
                &&& splitter.cells(value)->0.len() == splitter.types().len()
            })
            &&& splitter.types().len() > 0 && (forall|i: int|
                0 <= i < rows.len() && (#[trigger] rows[i]).value is Some ==> {
                    &&& splitter.cells(rows[i].value->0) is Some
                    &&& splitter.cells(rows[i].value->0)->0.len() == splitter.types().len()
                }) ==> table_of(rows, registrations) == Some(t)
        }),
{
    let splitter = registrations[t].splitter;
    let values = row_values(rows);
    assert(values[r] == rows[r].value);
    if splitter.types().len() > 0 && (forall|i: int|
        0 <= i < rows.len() && (#[trigger] rows[i]).value is Some ==> {
            &&& splitter.cells(rows[i].value->0) is Some
            &&& splitter.cells(rows[i].value->0)->0.len() == splitter.types().len()
        }) {
        assert forall|i: int| 0 <= i < values.len() implies (#[trigger] values[i] matches Some(
            bytes,
        ) ==> {
            &&& splitter.cells(bytes) is Some
            &&& splitter.cells(bytes)->0.len() == splitter.types().len()
        }) by {
            assert(values[i] == rows[i].value);
        }
    }
}

/// Packs blocks into SST files of a target size.
pub struct SstWriter {
    limit: u64,
    packer: SstPacker,
    files: Vec<SstFile>,
    block_ids: Vec<BlockId>,
    block_map: Vec<SstBlockInfo>,
    bytes_written: u64,
    closed: Ghost<Seq<(u64, Seq<Seq<u8>>)>>,
}

/// Whether files have these ids and blocks.
pub open spec fn files_hold(files: Seq<SstFile>, expected: Seq<(u64, Seq<Seq<u8>>)>) -> bool {
    &&& files.len() == expected.len()
    &&& forall|i: int|
        0 <= i < files.len() ==> (#[trigger] files[i]).id == expected[i].0 && files[i].bytes@
            == sst_bytes(expected[i].1)
}

impl View for SstWriter {
    type V = Packing;

    closed spec fn view(&self) -> Packing {
        Packing {
            files: self.closed@,
            open: self.packer@,
            block_ids: self.block_ids@,
            block_map: self.block_map@,
        }
    }
}

/// Result of a flush.
#[derive(Debug)]
pub struct FlushResult {
    /// The SST files to write.
    pub ssts: Vec<SstFile>,
    /// Ids of the blocks.
    pub block_ids: Vec<BlockId>,
    /// Number of rows flushed.
    pub rows_flushed: usize,
    /// Total size of the files.
    pub bytes_written: u64,
    /// Where each block stands.
    pub block_map: Vec<SstBlockInfo>,
}

/// Whether a result is that of packing.
pub open spec fn result_of(result: FlushResult, packing: Packing) -> bool {
    &&& files_hold(result.ssts@, packing.files)
    &&& result.block_ids@ == packing.block_ids
    &&& result.block_map@ == packing.block_map
    &&& result.bytes_written == counted_up(files_len(packing.files))
}

impl SstWriter {
    /// The files hold the blocks that were packed.
    pub closed spec fn inv(&self) -> bool {
        &&& self.packer.inv()
        &&& files_hold(self.files@, self.closed@)
        &&& self.bytes_written == counted_up(files_len(self.closed@))
    }

    /// Size at which a file is closed.
    pub closed spec fn size_limit(&self) -> u64 {
        self.limit
    }

    /// Starts packing, with files of at least `limit` bytes of blocks.
    pub fn new(limit: u64) -> (writer: Self)
        ensures
            writer.inv(),
            writer.size_limit() == limit,
            writer@ == Packing::empty(),
    {
        SstWriter {
            limit,
            packer: SstPacker::new(),
            files: Vec::new(),
            block_ids: Vec::new(),
            block_map: Vec::new(),
            bytes_written: 0,
            closed: Ghost(Seq::<(u64, Seq<Seq<u8>>)>::empty()),
        }
    }

    fn close(&mut self, ids: &mut BlockIdCounter)
        requires
            old(self).inv(),
        ensures
            final(self).inv(),
            final(self).size_limit() == old(self).size_limit(),
            final(self)@ == old(self)@.closed_as(old(ids)@),
            final(ids)@ == next_id(old(ids)@),
    {
        let ghost before = self.closed@;
        let ghost open = self.packer@;
        let mut packer = SstPacker::new();
        std::mem::swap(&mut packer, &mut self.packer);
        let bytes = packer.finish();
        let id: u64 = allocate_block_id(ids);
        self.bytes_written = self.bytes_written.saturating_add(bytes.len() as u64);
        self.files.push(SstFile { id, bytes });
        self.closed = Ghost(before.push((id, open)));
        proof {
            assert(self.closed@.drop_last() =~= before);
        }
    }

    /// Adds a block. If the file has then reached its size, it is closed under
    /// a new id.
    pub fn add_block(
        &mut self,
        block_id: BlockId,
        block: &[u8],
        row_count: usize,
        ids: &mut BlockIdCounter,
    )
        requires
            old(self).inv(),
        ensures
            final(self).inv(),
            final(self).size_limit() == old(self).size_limit(),
            ({
                let placed = old(self)@.placed(block_id, block@, row_count);
                if placed.full(old(self).size_limit()) {
                    &&& final(self)@ == placed.closed_as(old(ids)@)
                    &&& final(ids)@ == next_id(old(ids)@)
                } else {
                    &&& final(self)@ == placed
                    &&& final(ids)@ == old(ids)@
                }
            }),
    {
        let info = SstBlockInfo {
            sst_index: self.files.len(),
            block_index: #[verifier::truncate] (self.packer.block_count() as u32),
            row_count,
        };
        self.block_map.push(info);
        self.packer.add(block);
        self.block_ids.push(block_id);
        if self.packer.len() as u64 >= self.limit {
            self.close(ids);
        }
    }

    /// Closes the last file, if it holds anything.
    pub fn finish(self, rows_flushed: usize, ids: &mut BlockIdCounter) -> (result: FlushResult)
        requires
            self.inv(),
        ensures
            result.rows_flushed == rows_flushed,
            if concat(self@.open).len() > 0 {
                &&& result_of(result, self@.closed_as(old(ids)@))
                &&& final(ids)@ == next_id(old(ids)@)
            } else {
                &&& result_of(result, self@)
                &&& final(ids)@ == old(ids)@
            },
    {
        let mut writer = self;
        if writer.packer.len() > 0 {
            writer.close(ids);
        }
        FlushResult {
            ssts: writer.files,
            block_ids: writer.block_ids,
            rows_flushed,
            bytes_written: writer.bytes_written,
            block_map: writer.block_map,
        }
    }
}

// Flush

/// What has been packed, and the next id.
pub ghost struct Flushing {
    pub packing: Packing,
    pub next: u64,
}

/// What is packed after the blocks of `chunks`, ids handed out from `first` on:
/// one for each block, and one for each file when it is closed.
pub open spec fn flushing<S: RowColumnSplitter>(
    chunks: Seq<Seq<RowView>>,
    registrations: Seq<ColumnarRegistration<S>>,
    commit_timestamp: u64,
    limit: u64,
    first: u64,
) -> Flushing
    decreases chunks.len(),
{
    if chunks.len() == 0 {
        Flushing { packing: Packing::empty(), next: first }
    } else {
        let before = flushing(
            chunks.drop_last(),
            registrations,
            commit_timestamp,
            limit,
            first,
        );
        let rows = chunks.last();
        let id = before.next;
        let block = rows_block(rows, registrations, id, newest(rows, commit_timestamp));
        let placed = before.packing.placed(id, block, rows.len() as usize);
        if placed.full(limit) {
            Flushing {
                packing: placed.closed_as(next_id(id)),
                next: next_id(next_id(id)),
            }
        } else {
            Flushing { packing: placed, next: next_id(id) }
        }
    }
}

/// What is packed in the end: the last file is closed if it holds anything.
pub open spec fn flushed<S: RowColumnSplitter>(
    chunks: Seq<Seq<RowView>>,
    registrations: Seq<ColumnarRegistration<S>>,
    commit_timestamp: u64,
    limit: u64,
    first: u64,
) -> Flushing {
    let last = flushing(chunks, registrations, commit_timestamp, limit, first);
    if concat(last.packing.open).len() > 0 {
        Flushing { packing: last.packing.closed_as(last.next), next: next_id(last.next) }
    } else {
        last
    }
}

/// Whether a file has reached a size, and had not before its last block.
pub open spec fn just_full(blocks: Seq<Seq<u8>>, limit: u64) -> bool {
    &&& blocks.len() > 0
    &&& concat(blocks).len() >= limit
    &&& blocks.len() == 1 || concat(blocks.drop_last()).len() < limit
}

/// Whether a file has not reached a size, unless with its last block.
pub open spec fn no_fuller(blocks: Seq<Seq<u8>>, limit: u64) -> bool {
    blocks.len() <= 1 || concat(blocks.drop_last()).len() < limit
}

proof fn lemma_flushing_limits<S: RowColumnSplitter>(
    chunks: Seq<Seq<RowView>>,
    registrations: Seq<ColumnarRegistration<S>>,
    commit_timestamp: u64,
    limit: u64,
    first: u64,
)
    ensures
        ({
            let packing = flushing(chunks, registrations, commit_timestamp, limit, first).packing;
            &&& forall|f: int|
                0 <= f < packing.files.len() ==> just_full((#[trigger] packing.files[f]).1, limit)
            &&& packing.open.len() == 0 || concat(packing.open).len() < limit
        }),
    decreases chunks.len(),
{
    if chunks.len() > 0 {
        let before = flushing(
            chunks.drop_last(),
            registrations,
            commit_timestamp,
            limit,
            first,
        );
        lemma_flushing_limits(chunks.drop_last(), registrations, commit_timestamp, limit, first);
        let rows = chunks.last();
        let id = before.next;
        let block = rows_block(rows, registrations, id, newest(rows, commit_timestamp));
        let placed = before.packing.placed(id, block, rows.len() as usize);
        assert(placed.open.drop_last() =~= before.packing.open);
        let after = flushing(chunks, registrations, commit_timestamp, limit, first).packing;
        assert forall|f: int| 0 <= f < after.files.len() implies just_full(
            (#[trigger] after.files[f]).1,
            limit,
        ) by {
            if f < before.packing.files.len() {
                assert(after.files[f] == before.packing.files[f]);
            } else {
                assert(after.files[f].1 == placed.open);
            }
        }
    }
}

/// A flush closes a file with the block that makes it reach its size, and only the last file
/// may be smaller.
pub proof fn lemma_flush_file_limits<S: RowColumnSplitter>(
    chunks: Seq<Seq<RowView>>,
    registrations: Seq<ColumnarRegistration<S>>,
    commit_timestamp: u64,
    limit: u64,
    first: u64,
    f: int,
)
    requires
        0 <= f < flushed(
            chunks,
            registrations,
            commit_timestamp,
            limit,
            first,
        ).packing.files.len(),
    ensures
        ({
            let files = flushed(
                chunks,
                registrations,
                commit_timestamp,
                limit,
                first,
            ).packing.files;
            &&& files[f].1.len() > 0
            &&& f < files.len() - 1 ==> just_full(files[f].1, limit)
            &&& no_fuller(files[f].1, limit)
        }),
{
    let last = flushing(chunks, registrations, commit_timestamp, limit, first);
    let files = flushed(chunks, registrations, commit_timestamp, limit, first).packing.files;
    lemma_flushing_limits(chunks, registrations, commit_timestamp, limit, first);
    if f < last.packing.files.len() {
        assert(files[f] == last.packing.files[f]);
    } else {
        let open = last.packing.open;
        assert(files[f].1 == open);
        if open.len() > 0 {
            assert(concat(open) == concat(open.drop_last()) + open.last());
        }
    }
}

/// Whether ids are handed out once: those of the blocks and those of the files are between
/// two numbers, grow, and have none in common.
pub open spec fn ids_apart(packing: Packing, first: int, next: int) -> bool {
    &&& forall|i: int|
        0 <= i < packing.block_ids.len() ==> first <= #[trigger] packing.block_ids[i] < next
    &&& forall|f: int|
        0 <= f < packing.files.len() ==> first <= (#[trigger] packing.files[f]).0 < next
    &&& forall|i: int, j: int|
        #![trigger packing.block_ids[i], packing.block_ids[j]]
        0 <= i < j < packing.block_ids.len() ==> packing.block_ids[i] < packing.block_ids[j]
    &&& forall|f: int, g: int|
        #![trigger packing.files[f], packing.files[g]]
        0 <= f < g < packing.files.len() ==> packing.files[f].0 < packing.files[g].0
    &&& forall|i: int, f: int|
        #![trigger packing.block_ids[i], packing.files[f]]
        0 <= i < packing.block_ids.len() && 0 <= f < packing.files.len()
            ==> packing.block_ids[i] != packing.files[f].0
}

proof fn lemma_flushing_ids<S: RowColumnSplitter>(
    chunks: Seq<Seq<RowView>>,
    registrations: Seq<ColumnarRegistration<S>>,
    commit_timestamp: u64,
    limit: u64,
    first: u64,
)
    requires
        first + 2 * chunks.len() <= u64::MAX,
    ensures
        ({
            let after = flushing(chunks, registrations, commit_timestamp, limit, first);
            &&& first <= after.next <= first + 2 * chunks.len()
            &&& after.packing.block_ids.len() == chunks.len()
            &&& ids_apart(after.packing, first as int, after.next as int)
        }),
    decreases chunks.len(),
{
    if chunks.len() > 0 {
        lemma_flushing_ids(chunks.drop_last(), registrations, commit_timestamp, limit, first);
    }
}

/// Every block and every file of a flush has an id of its own: those that were handed out,
/// from the first on.
pub proof fn lemma_flush_ids_apart<S: RowColumnSplitter>(
    chunks: Seq<Seq<RowView>>,
    registrations: Seq<ColumnarRegistration<S>>,
    commit_timestamp: u64,
    limit: u64,
    first: u64,
)
    requires
        first + 2 * chunks.len() + 1 <= u64::MAX,
    ensures
        ({
            let after = flushed(chunks, registrations, commit_timestamp, limit, first);
            &&& after.packing.block_ids.len() == chunks.len()
            &&& ids_apart(after.packing, first as int, after.next as int)
            &&& after.next == first + after.packing.block_ids.len() + after.packing.files.len()
        }),
{
    lemma_flushing_ids(chunks, registrations, commit_timestamp, limit, first);
    lemma_flushing_next(chunks, registrations, commit_timestamp, limit, first);
}

proof fn lemma_flushing_next<S: RowColumnSplitter>(
    chunks: Seq<Seq<RowView>>,
    registrations: Seq<ColumnarRegistration<S>>,
    commit_timestamp: u64,
    limit: u64,
    first: u64,
)
    requires
        first + 2 * chunks.len() <= u64::MAX,
    ensures
        ({
            let after = flushing(chunks, registrations, commit_timestamp, limit, first);
            &&& after.packing.block_ids.len() == chunks.len()
            &&& after.packing.files.len() <= chunks.len()
            &&& after.next == first + chunks.len() + after.packing.files.len()
        }),
    decreases chunks.len(),
{
    if chunks.len() > 0 {
        lemma_flushing_next(chunks.drop_last(), registrations, commit_timestamp, limit, first);
    }
}

/// Whether every block is in one of the files.
pub open spec fn blocks_in_files(result: FlushResult) -> bool {
    forall|k: int|
        0 <= k < result.block_map@.len() ==> (#[trigger] result.block_map@[k]).sst_index
            < result.ssts@.len()
}

/// Whether building stopped at block `k`: those in front of it were made, and
/// its id was taken.
pub open spec fn stopped_at<S: RowColumnSplitter>(
    chunks: Seq<Seq<RowView>>,
    registrations: Seq<ColumnarRegistration<S>>,
    commit_timestamp: u64,
    limit: u64,
    first: u64,
    next: u64,
    k: int,
) -> bool {
    let before = flushing(chunks.take(k), registrations, commit_timestamp, limit, first);
    &&& 0 <= k < chunks.len()
    &&& next == next_id(before.next)
    &&& forall|j: int| 0 <= j < k ==> rows_encoded(#[trigger] chunks[j], registrations)
}

/// What flushing rows comes to. It fails only at a block.
pub open spec fn flushes_to<S: RowColumnSplitter>(
    rows: Seq<RowView>,
    config: FlushConfig,
    registrations: Seq<ColumnarRegistration<S>>,
    commit_timestamp: u64,
    first: u64,
    outcome: GalaxResult<FlushResult>,
    next: u64,
) -> bool {
    let chunks = chunks_of_rows(rows, config, registrations);
    let end = flushed(chunks, registrations, commit_timestamp, config.sst_size_bytes, first);
    match outcome {
        Ok(result) => {
            &&& result_of(result, end.packing)
            &&& result.rows_flushed == rows.len()
            &&& next == end.next
            &&& blocks_in_files(result)
            &&& forall|k: int|
                0 <= k < chunks.len() ==> rows_encoded(#[trigger] chunks[k], registrations)
        },
        Err(error) => {
            &&& rows.len() > 0
            &&& error == GalaxError::Internal(Fault::ZstdCompressionFailed)
            &&& exists|k: int| #[trigger]
                stopped_at(
                    chunks,
                    registrations,
                    commit_timestamp,
                    config.sst_size_bytes,
                    first,
                    next,
                    k,
                )
        },
    }
}

/// Flushes entries that are sorted by key.
pub fn flush_entries<R: BlockRow, S: RowColumnSplitter>(
    entries: &[R],
    config: &FlushConfig,
    commit_timestamp: Timestamp,
    registrations: &[ColumnarRegistration<S>],
    ids: &mut BlockIdCounter,
) -> (result: GalaxResult<FlushResult>)
    ensures
        flushes_to(
            rows_of(entries@),
            *config,
            registrations@,
            commit_timestamp,
            old(ids)@,
            result,
            final(ids)@,
        ),
{
    let ghost rows = rows_of(entries@);
    let ghost first = ids@;
    let ghost limit = config.sst_size_bytes;
    let ghost all = chunks_of_rows(rows, *config, registrations@);
    let chunks = split_into_blocks(entries, config, registrations);
    assert(chunks.len() == all.len());
    assert(rows.len() == 0 ==> all.len() == 0) by {
        assert(rows.len() == 0 ==> block_end(rows, 0, 0, *config, registrations@) == 0);
    }
    let mut writer = SstWriter::new(config.sst_size_bytes);
    let mut k: usize = 0;
    assert(all.take(0) =~= Seq::<Seq<RowView>>::empty());
    while k < chunks.len()
        invariant
            k <= chunks@.len(),
            chunks@.len() == all.len(),
            rows == rows_of(entries@),
            first == old(ids)@,
            all == chunks_of_rows(rows, *config, registrations@),
            rows.len() == 0 ==> all.len() == 0,
            forall|j: int| 0 <= j < all.len() ==> rows_of((#[trigger] chunks@[j])@) == all[j],
            limit == config.sst_size_bytes,
            writer.inv(),
            writer.size_limit() == limit,
            writer@ == flushing(
                all.take(k as int),
                registrations@,
                commit_timestamp,
                limit,
                first,
            ).packing,
            ids@ == flushing(
                all.take(k as int),
                registrations@,
                commit_timestamp,
                limit,
                first,
            ).next,
            forall|j: int|
                0 <= j < k ==> rows_encoded(#[trigger] all[j], registrations@),
        decreases chunks@.len() - k,
    {
        let chunk: &[R] = chunks[k];
        assert(all.take(k + 1).drop_last() =~= all.take(k as int));
        assert(rows_of(chunk@) == all[k as int]);
        let block_id: u64 = allocate_block_id(ids);
        let timestamp: u64 = newest_timestamp(chunk, commit_timestamp);
        match build_block(chunk, registrations, block_id, timestamp) {
            Ok(block) => {
                writer.add_block(block_id, block.as_slice(), chunk.len(), ids);
            },
            Err(error) => {
                assert(stopped_at(
                    all,
                    registrations@,
                    commit_timestamp,
                    limit,
                    first,
                    ids@,
                    k as int,
                ));
                return Err(error);
            },
        }
        k = k + 1;
    }
    assert(all.take(k as int) =~= all);
    proof {
        lemma_files_of_blocks(all, registrations@, commit_timestamp, limit, first);
    }
    let result = writer.finish(entries.len(), ids);
    Ok(result)
}

/// The rows that a memtable is flushed as: the latest version of each key.
pub open spec fn memtable_rows(memtable: Memtable, rows: Seq<RowView>) -> bool {
    exists|entries: Seq<(Vec<u8>, VersionedValue)>|
        lists(entries, memtable@, |key: Seq<u8>| true) && rows == #[trigger] rows_of(entries)
}

/// A memtable is flushed as one row for each of its keys: the latest version.
pub proof fn lemma_memtable_rows(memtable: Memtable, rows: Seq<RowView>, key: Seq<u8>)
    requires
        memtable_rows(memtable, rows),
    ensures
        memtable@.contains_key(key) <==> exists|r: int|
            0 <= r < rows.len() && (#[trigger] rows[r]).key == key,
        forall|r: int|
            0 <= r < rows.len() && (#[trigger] rows[r]).key == key ==> rows[r].value
                == memtable@[key][0].value && rows[r].timestamp == memtable@[key][0].timestamp,
        forall|r: int, q: int|
            #![trigger rows[r], rows[q]]
            0 <= r < q < rows.len() ==> rows[r].key != rows[q].key,
{
    let entries = choose|entries: Seq<(Vec<u8>, VersionedValue)>|
        lists(entries, memtable@, |key: Seq<u8>| true) && rows == #[trigger] rows_of(entries);
    let keep = |key: Seq<u8>| true;
    assert(keep(key));
    if memtable@.contains_key(key) {
        let r = choose|r: int| 0 <= r < entries.len() && (#[trigger] entries[r]).0@ == key;
        assert(rows[r].key == key);
    }
    assert forall|r: int| 0 <= r < rows.len() && (#[trigger] rows[r]).key == key implies
        memtable@.contains_key(key) && rows[r].value == memtable@[key][0].value && rows[r].timestamp
        == memtable@[key][0].timestamp by {
        assert(entries[r].0@ == key);
        assert(entries[r].1.chain() == memtable@[key]);
    }
    assert forall|r: int, q: int|
        #![trigger rows[r], rows[q]]
        0 <= r < q < rows.len() implies rows[r].key != rows[q].key by {
        assert(entries[r].0@ == rows[r].key && entries[q].0@ == rows[q].key);
        if rows[r].key == rows[q].key {
            lemma_lex_irreflexive(rows[r].key);
        }
    }
}

/// Flushes a sealed memtable: groups its entries into blocks and packs these
/// into SST files.
pub fn flush_memtable<S: RowColumnSplitter>(
    memtable: &Memtable,
    config: &FlushConfig,
    commit_timestamp: Timestamp,
    registrations: &[ColumnarRegistration<S>],
    ids: &mut BlockIdCounter,
) -> (result: GalaxResult<FlushResult>)
    requires
        memtable.inv(),
    ensures
        exists|rows: Seq<RowView>| #[trigger]
            memtable_rows(*memtable, rows) && flushes_to(
                rows,
                *config,
                registrations@,
                commit_timestamp,
                old(ids)@,
                result,
                final(ids)@,
            ),
{
    let entries = memtable.iter_all();
    let result = flush_entries(
        entries.as_slice(),
        config,
        commit_timestamp,
        registrations,
        ids,
    );
    assert(memtable_rows(*memtable, rows_of(entries@)));
    result
}

// Every block is where the block map says

/// The blocks of a file by its place among the files, the one in the making
/// coming last.
pub open spec fn blocks_in(packing: Packing, place: int) -> Seq<Seq<u8>> {
    if place < packing.files.len() {
        packing.files[place].1
    } else {
        packing.open
    }
}

/// The number of blocks up to which all have been packed where the block map
/// says.
pub open spec fn mapped<S: RowColumnSplitter>(
    packing: Packing,
    chunks: Seq<Seq<RowView>>,
    registrations: Seq<ColumnarRegistration<S>>,
    commit_timestamp: u64,
) -> bool {
    &&& packing.block_map.len() == chunks.len()
    &&& packing.block_ids.len() == chunks.len()
    &&& forall|k: int|
        0 <= k < chunks.len() ==> {
            let info = #[trigger] packing.block_map[k];
            &&& info.row_count == chunks[k].len()
            &&& info.sst_index <= packing.files.len()
            &&& info.block_index < blocks_in(packing, info.sst_index as int).len()
            &&& blocks_in(packing, info.sst_index as int)[info.block_index as int] == rows_block(
                chunks[k],
                registrations,
                packing.block_ids[k],
                newest(chunks[k], commit_timestamp),
            )
        }
}

/// Every block is in a closed file or in the one in the making.
proof fn lemma_files_of_blocks<S: RowColumnSplitter>(
    chunks: Seq<Seq<RowView>>,
    registrations: Seq<ColumnarRegistration<S>>,
    commit_timestamp: u64,
    limit: u64,
    first: u64,
)
    requires
        chunks.len() <= usize::MAX,
    ensures
        ({
            let packing = flushing(
                chunks,
                registrations,
                commit_timestamp,
                limit,
                first,
            ).packing;
            &&& packing.files.len() <= chunks.len()
            &&& packing.open.len() > 0 ==> concat(packing.open).len() > 0
            &&& forall|k: int|
                0 <= k < packing.block_map.len() ==> {
                    ||| (#[trigger] packing.block_map[k]).sst_index < packing.files.len()
                    ||| packing.block_map[k].sst_index == packing.files.len() && packing.open.len()
                        > 0
                }
        }),
    decreases chunks.len(),
{
    if chunks.len() > 0 {
        let front = chunks.drop_last();
        lemma_files_of_blocks(front, registrations, commit_timestamp, limit, first);
        let before = flushing(front, registrations, commit_timestamp, limit, first);
        let end = flushing(chunks, registrations, commit_timestamp, limit, first);
        let rows = chunks.last();
        let block = rows_block(rows, registrations, before.next, newest(rows, commit_timestamp));
        lemma_block_not_empty(rows, registrations, before.next, newest(rows, commit_timestamp));
        let placed = before.packing.placed(before.next, block, rows.len() as usize);
        assert(placed.open.drop_last() =~= before.packing.open);
        assert forall|k: int| 0 <= k < end.packing.block_map.len() implies {
            ||| (#[trigger] end.packing.block_map[k]).sst_index < end.packing.files.len()
            ||| end.packing.block_map[k].sst_index == end.packing.files.len()
                && end.packing.open.len() > 0
        } by {
            assert(end.packing.block_map[k] == placed.block_map[k]);
            if k < before.packing.block_map.len() {
                assert(placed.block_map[k] == before.packing.block_map[k]);
            }
        }
    }
}

proof fn lemma_flushing_mapped<S: RowColumnSplitter>(
    chunks: Seq<Seq<RowView>>,
    registrations: Seq<ColumnarRegistration<S>>,
    commit_timestamp: u64,
    limit: u64,
    first: u64,
)
    requires
        chunks.len() <= u32::MAX,
        chunks.len() <= usize::MAX,
        forall|k: int| 0 <= k < chunks.len() ==> (#[trigger] chunks[k]).len() <= usize::MAX,
    ensures
        ({
            let end = flushing(chunks, registrations, commit_timestamp, limit, first);
            &&& mapped(end.packing, chunks, registrations, commit_timestamp)
            &&& end.packing.files.len() <= chunks.len()
            &&& end.packing.open.len() <= chunks.len()
        }),
    decreases chunks.len(),
{
    if chunks.len() > 0 {
        let front = chunks.drop_last();
        assert forall|k: int| 0 <= k < front.len() implies (#[trigger] front[k]).len()
            <= usize::MAX by {
            assert(chunks[k] == front[k]);
        }
        lemma_flushing_mapped(front, registrations, commit_timestamp, limit, first);
        let before = flushing(front, registrations, commit_timestamp, limit, first);
        let end = flushing(chunks, registrations, commit_timestamp, limit, first);
        let rows = chunks.last();
        assert(chunks[chunks.len() - 1] == rows);
        let block = rows_block(rows, registrations, before.next, newest(rows, commit_timestamp));
        let placed = before.packing.placed(before.next, block, rows.len() as usize);
        assert forall|k: int| 0 <= k < chunks.len() implies {
            let info = #[trigger] end.packing.block_map[k];
            &&& info.row_count == chunks[k].len()
            &&& info.sst_index <= end.packing.files.len()
            &&& info.block_index < blocks_in(end.packing, info.sst_index as int).len()
            &&& blocks_in(end.packing, info.sst_index as int)[info.block_index as int]
                == rows_block(
                chunks[k],
                registrations,
                end.packing.block_ids[k],
                newest(chunks[k], commit_timestamp),
            )
        } by {
            assert(end.packing.block_map[k] == placed.block_map[k]);
            if k < front.len() {
                assert(placed.block_map[k] == before.packing.block_map[k]);
                assert(front[k] == chunks[k]);
            }
        }
    }
}

/// A flush records one place for each block.
pub proof fn lemma_block_map_len<S: RowColumnSplitter>(
    chunks: Seq<Seq<RowView>>,
    registrations: Seq<ColumnarRegistration<S>>,
    commit_timestamp: u64,
    limit: u64,
    first: u64,
)
    ensures
        flushed(chunks, registrations, commit_timestamp, limit, first).packing.block_map.len()
            == chunks.len(),
        flushing(chunks, registrations, commit_timestamp, limit, first).packing.block_map.len()
            == chunks.len(),
    decreases chunks.len(),
{
    if chunks.len() > 0 {
        lemma_block_map_len(chunks.drop_last(), registrations, commit_timestamp, limit, first);
    }
}

/// After a flush every block stands in the file and at the place that the
/// block map gives, and the index of the file leads to it.
pub proof fn lemma_flushed_blocks_found<S: RowColumnSplitter>(
    chunks: Seq<Seq<RowView>>,
    registrations: Seq<ColumnarRegistration<S>>,
    commit_timestamp: u64,
    limit: u64,
    first: u64,
    k: int,
)
    requires
        0 <= k < chunks.len(),
        chunks.len() <= u32::MAX,
        chunks.len() <= usize::MAX,
        forall|j: int| 0 <= j < chunks.len() ==> (#[trigger] chunks[j]).len() <= usize::MAX,
        forall|j: int|
            0 <= j < flushed(
                chunks,
                registrations,
                commit_timestamp,
                limit,
                first,
            ).packing.files.len() ==> indexable(
                (#[trigger] flushed(
                    chunks,
                    registrations,
                    commit_timestamp,
                    limit,
                    first,
                ).packing.files[j]).1,
            ),
    ensures
        ({
            let packing = flushed(chunks, registrations, commit_timestamp, limit, first).packing;
            let info = packing.block_map[k];
            let file = sst_bytes(packing.files[info.sst_index as int].1);
            let index = entries_of(packing.files[info.sst_index as int].1);
            &&& info.row_count == chunks[k].len()
            &&& info.sst_index < packing.files.len()
            &&& parse_index(file) == Ok::<
                Seq<BlockIndexEntry>,
                GalaxError,
            >(index)
            &&& info.block_index < index.len()
            &&& block_at(file, index[info.block_index as int]) == rows_block(
                chunks[k],
                registrations,
                packing.block_ids[k],
                newest(chunks[k], commit_timestamp),
            )
        }),
{
    lemma_flushing_mapped(chunks, registrations, commit_timestamp, limit, first);
    let last = flushing(chunks, registrations, commit_timestamp, limit, first).packing;
    let packing = flushed(chunks, registrations, commit_timestamp, limit, first).packing;
    let info = packing.block_map[k];
    assert(info == last.block_map[k]);
    let block = rows_block(
        chunks[k],
        registrations,
        packing.block_ids[k],
        newest(chunks[k], commit_timestamp),
    );
    if info.sst_index == last.files.len() {
        assert(last.open[info.block_index as int] == block);
        lemma_concat_part(last.open, info.block_index as int);
        lemma_block_not_empty(
            chunks[k],
            registrations,
            packing.block_ids[k],
            newest(chunks[k], commit_timestamp),
        );
        assert(concat(last.open).len() > 0);
    }
    let blocks = packing.files[info.sst_index as int].1;
    assert(blocks == blocks_in(last, info.sst_index as int));
    lemma_sst_round_trip(blocks);
    assert(block_at(
        sst_bytes(blocks),
        entries_of(blocks)[info.block_index as int],
    ) == blocks[info.block_index as int]);
}

/// A block has at least its checksum.
pub proof fn lemma_block_not_empty<S: RowColumnSplitter>(
    rows: Seq<RowView>,
    registrations: Seq<ColumnarRegistration<S>>,
    block_id: u64,
    timestamp: u64,
)
    ensures
        rows_block(rows, registrations, block_id, timestamp).len() > 0,
{
    let b = written_block(
        block_id,
        timestamp,
        block_columns(rows, registrations),
        block_codecs(rows, registrations),
    );
    lemma_le_bytes_len(b.checksum as nat, 8);
}

} // verus!
