//! A scan by column gives the cells that the rows were split into.

use vstd::prelude::*;

use crate::bitpack::packed_len;
use crate::bytes::{lemma_le_bytes_len, lex_lt};
use crate::column::ColumnType;
use crate::columnar::{
    appended_codecs, appended_columns, cell_views, data_column, lemma_registration_first,
    placeholder, registration_index, split_rows, validity_column, ColumnarBatch,
    ColumnarRegistration, RowColumnSplitter,
};
use crate::engine::columnar_scan::{
    batch_holds, cell_at, cell_reads, cells_at, cells_read, columnar_file_read,
    columnar_files_read, columnar_read, columnar_scan, excludes, is_columnar, meant_projection,
    projected, projects, pruned, staged_block, staged_file, staged_files, staged_row, staged_rows,
    staged_version, staged_versions, table_index, with_cells, CellColumns, ColumnarRead,
    PredicateView, QueryView, StagedView,
};
use crate::engine::laws::{block_of, lemma_base_part, rows_fit};
use crate::engine::newest::{lemma_pick_wins, lemma_winner_picked, lists_newest, wins};
use crate::engine::read::{columns_read, entry_block, row_stamp, timestamps_read, ColumnsRead};
use crate::engine::registry::SstEntry;
use crate::engine::scan::content_of;
use crate::engine::state::without_table;
use crate::flush::{
    base_codecs, base_columns, block_codecs, block_columns, lemma_row_ts_round_trip, row_values,
    rows_encoded, stored_value, table_of,
};
use crate::memtable::versioned_value::{value_view, Version};
use crate::pax::block::{
    chunks_of, column_reads, described, lemma_column_round_trip, written_block, BlockView,
};
use crate::pax::codec::{is_chunk, storable};
use crate::pax::framing::lengths_fit;
use crate::pax::zone_map::{
    greatest, least, lemma_meets_satisfies, lemma_pruning_sound, meets, satisfies,
};
use crate::pax::CodecId;
use crate::row::{RowView, Stamped};
use crate::sst::BlockIndexEntry;

verus! {

/// Whether the rows of a block belong to the table with registration `t`: it is the first
/// whose prefix the first key starts with, and its splitter takes every live row apart into
/// a cell for each column.
pub open spec fn of_table<S: RowColumnSplitter>(
    rows: Seq<RowView>,
    registrations: Seq<ColumnarRegistration<S>>,
    t: int,
) -> bool {
    let splitter = registrations[t].splitter;
    &&& rows.len() > 0
    &&& 0 <= t < registrations.len()
    &&& registrations[t].prefix@.is_prefix_of(rows[0].key)
    &&& forall|j: int|
        0 <= j < t ==> !(#[trigger] registrations[j]).prefix@.is_prefix_of(rows[0].key)
    &&& splitter.types().len() > 0
    &&& forall|r: int|
        0 <= r < rows.len() ==> ((#[trigger] rows[r]).value matches Some(value) ==> {
            &&& splitter.cells(value) is Some
            &&& splitter.cells(value)->0.len() == splitter.types().len()
        })
}

/// Whether a cell has the size of its type, or can be stored with its length.
pub open spec fn cell_fits(col_type: ColumnType, cell: Option<Seq<u8>>) -> bool {
    match (col_type.width(), cell) {
        (Some(width), Some(bytes)) => bytes.len() == width,
        (None, Some(bytes)) => bytes.len() <= u32::MAX,
        (_, None) => placeholder(col_type).len() <= u32::MAX,
    }
}

/// Whether the cells of all live rows can be stored.
pub open spec fn cells_fit_block<S: RowColumnSplitter>(rows: Seq<RowView>, splitter: S) -> bool {
    &&& packed_len(rows.len(), 64) <= u32::MAX
    &&& forall|c: int|
        0 <= c < splitter.types().len() ==> #[trigger] cell_fits(splitter.types()[c], None)
    &&& forall|r: int, c: int|
        #![trigger rows[r], splitter.types()[c]]
        0 <= r < rows.len() && 0 <= c < splitter.types().len() ==> (rows[r].value matches Some(
            value,
        ) ==> cell_fits(splitter.types()[c], splitter.cells(value)->0[c]))
}

/// The table of a block is found.
proof fn lemma_table_found<S: RowColumnSplitter>(
    rows: Seq<RowView>,
    registrations: Seq<ColumnarRegistration<S>>,
    t: int,
)
    requires
        of_table(rows, registrations, t),
    ensures
        table_of(rows, registrations) == Some(t),
{
    let key = rows[0].key;
    lemma_registration_first(registrations, key);
    match registration_index(registrations, key) {
        Some(i) => {
            if i < t {
                assert(!registrations[i].prefix@.is_prefix_of(key));
            } else if t < i {
                assert(!registrations[t].prefix@.is_prefix_of(key));
            }
        },
        None => {
            assert(!registrations[t].prefix@.is_prefix_of(key));
        },
    }
    let values = row_values(rows);
    let splitter = registrations[t].splitter;
    assert forall|i: int| 0 <= i < values.len() implies (#[trigger] values[i] matches Some(
        bytes,
    ) ==> {
        &&& splitter.cells(bytes) is Some
        &&& splitter.cells(bytes)->0.len() == splitter.types().len()
    }) by {
        assert(values[i] == rows[i].value);
    }
}

/// Where the columns of the cells are.
proof fn lemma_table_columns<S: RowColumnSplitter>(
    rows: Seq<RowView>,
    registrations: Seq<ColumnarRegistration<S>>,
    t: int,
)
    requires
        of_table(rows, registrations, t),
    ensures
        ({
            let types = registrations[t].splitter.types();
            let split = split_rows(row_values(rows), registrations[t].splitter);
            let columns = block_columns(rows, registrations);
            let codecs = block_codecs(rows, registrations);
            &&& columns.len() == 3 + 2 * types.len()
            &&& codecs.len() == columns.len()
            &&& forall|c: int|
                #![trigger types[c]]
                0 <= c < types.len() ==> {
                    &&& columns[3 + 2 * c] == data_column(types, split, c)
                    &&& columns[4 + 2 * c] == validity_column(split, c)
                    &&& codecs[3 + 2 * c] == CodecId::default_for(types[c])
                    &&& codecs[4 + 2 * c] == CodecId::Zstd
                }
        }),
{
    lemma_table_found(rows, registrations, t);
    let types = registrations[t].splitter.types();
    let split = split_rows(row_values(rows), registrations[t].splitter);
    let columns = block_columns(rows, registrations);
    let codecs = block_codecs(rows, registrations);
    assert(base_columns(rows).len() == 3);
    assert(base_codecs().len() == 3);
    assert forall|c: int| #![trigger types[c]] 0 <= c < types.len() implies {
        &&& columns[3 + 2 * c] == data_column(types, split, c)
        &&& columns[4 + 2 * c] == validity_column(split, c)
        &&& codecs[3 + 2 * c] == CodecId::default_for(types[c])
        &&& codecs[4 + 2 * c] == CodecId::Zstd
    } by {
        assert((2 * c) / 2 == c && (2 * c) % 2 == 0);
        assert((2 * c + 1) / 2 == c && (2 * c + 1) % 2 == 1);
        assert(columns[3 + 2 * c] == appended_columns(types, split)[2 * c]);
        assert(columns[4 + 2 * c] == appended_columns(types, split)[2 * c + 1]);
        assert(codecs[3 + 2 * c] == appended_codecs(types)[2 * c]);
        assert(codecs[4 + 2 * c] == appended_codecs(types)[2 * c + 1]);
    }
}

/// The columns of the cells can be stored.
proof fn lemma_cells_storable<S: RowColumnSplitter>(rows: Seq<RowView>, splitter: S, c: int)
    requires
        0 <= c < splitter.types().len(),
        cells_fit_block(rows, splitter),
    ensures
        ({
            let types = splitter.types();
            let split = split_rows(row_values(rows), splitter);
            &&& storable(
                types[c],
                CodecId::default_for(types[c]),
                data_column(types, split, c).rows,
            )
            &&& storable(ColumnType::Blob, CodecId::Zstd, validity_column(split, c).rows)
        }),
{
    let types = splitter.types();
    let split = split_rows(row_values(rows), splitter);
    let data = data_column(types, split, c).rows;
    let validity = validity_column(split, c).rows;
    assert(cell_fits(types[c], None));
    assert forall|r: int| 0 <= r < data.len() implies {
        let len = (#[trigger] data[r]).len();
        match types[c].width() {
            Some(width) => len == width,
            None => len <= u32::MAX,
        }
    } by {
        assert(row_values(rows)[r] == rows[r].value);
        if let Some(value) = rows[r].value {
            assert(cell_fits(types[c], splitter.cells(value)->0[c]));
        }
    }
    assert forall|r: int| 0 <= r < validity.len() implies (#[trigger] validity[r]).len()
        <= u32::MAX by {}
}

/// The columns of the cells are read back as they were written.
#[verifier::rlimit(50)]
proof fn lemma_cell_columns_read_back<S: RowColumnSplitter>(
    rows: Seq<RowView>,
    registrations: Seq<ColumnarRegistration<S>>,
    t: int,
    block_id: u64,
    timestamp: u64,
    c: int,
    data: Seq<Seq<u8>>,
    validity: Seq<Seq<u8>>,
)
    requires
        of_table(rows, registrations, t),
        cells_fit_block(rows, registrations[t].splitter),
        rows_fit(rows, registrations),
        rows_encoded(rows, registrations),
        0 <= c < registrations[t].splitter.types().len(),
        column_reads(
            block_of(rows, registrations, block_id, timestamp),
            3 + 2 * c,
            Ok(data),
        ),
        column_reads(
            block_of(rows, registrations, block_id, timestamp),
            4 + 2 * c,
            Ok(validity),
        ),
    ensures
        ({
            let splitter = registrations[t].splitter;
            let split = split_rows(row_values(rows), splitter);
            &&& data == data_column(splitter.types(), split, c).rows
            &&& validity == validity_column(split, c).rows
        }),
{
    let types = registrations[t].splitter.types();
    let columns = block_columns(rows, registrations);
    let codecs = block_codecs(rows, registrations);
    let chunks = chunks_of(columns, codecs);
    lemma_table_columns(rows, registrations, t);
    lemma_cells_storable(rows, registrations[t].splitter, c);
    lemma_base_part(rows, registrations);
    assert(types[c] == types[c]);
    assert(is_chunk(
        columns[3 + 2 * c].col_type,
        codecs[3 + 2 * c],
        columns[3 + 2 * c].rows,
        chunks[3 + 2 * c],
    ));
    assert(is_chunk(
        columns[4 + 2 * c].col_type,
        codecs[4 + 2 * c],
        columns[4 + 2 * c].rows,
        chunks[4 + 2 * c],
    ));
    lemma_column_round_trip(block_id, timestamp, columns, codecs, 3 + 2 * c, Ok(data));
    lemma_column_round_trip(block_id, timestamp, columns, codecs, 4 + 2 * c, Ok(validity));
}

/// A cell comes out of its data and validity columns as the splitter gave it, a NULL as a
/// NULL.
proof fn lemma_cell_comes_out<S: RowColumnSplitter>(
    rows: Seq<RowView>,
    splitter: S,
    c: int,
    r: int,
)
    requires
        0 <= r < rows.len(),
        0 <= c < splitter.types().len(),
        rows[r].value is Some,
    ensures
        ({
            let split = split_rows(row_values(rows), splitter);
            cell_at(
                data_column(splitter.types(), split, c).rows,
                validity_column(split, c).rows,
                r,
            ) == splitter.cells(rows[r].value->0)->0[c]
        }),
{
    let split = split_rows(row_values(rows), splitter);
    assert(row_values(rows)[r] == rows[r].value);
    assert(split[r] == Some(splitter.cells(rows[r].value->0)->0));
}

/// The columns that every block has are read back as they were written; only Zstandard can
/// keep the keys from being read.
#[verifier::rlimit(50)]
proof fn lemma_base_columns_read_back<S: RowColumnSplitter>(
    rows: Seq<RowView>,
    registrations: Seq<ColumnarRegistration<S>>,
    block_id: u64,
    timestamp: u64,
    columns: ColumnsRead,
)
    requires
        rows_fit(rows, registrations),
        rows_encoded(rows, registrations),
        columns_read(block_of(rows, registrations, block_id, timestamp), columns),
        columns.keys is Ok,
    ensures
        columns.keys->Ok_0 == base_columns(rows)[0].rows,
        columns.values is Ok,
        columns.values->Ok_0 == base_columns(rows)[1].rows,
        timestamps_read(columns) == Some(base_columns(rows)[2].rows),
{
    let cols = block_columns(rows, registrations);
    let codecs = block_codecs(rows, registrations);
    let chunks = chunks_of(cols, codecs);
    let b = block_of(rows, registrations, block_id, timestamp);
    lemma_base_part(rows, registrations);
    assert forall|c: int| 0 <= c < 3 implies lengths_fit(#[trigger] cols[c].rows) by {
        let values = cols[c].rows;
        assert(cols[c] == base_columns(rows)[c]);
        assert forall|i: int| 0 <= i < values.len() implies (#[trigger] values[i]).len()
            <= u32::MAX by {
            assert(rows[i].key.len() <= u32::MAX);
            lemma_le_bytes_len(rows[i].timestamp as nat, 8);
        }
    }
    assert forall|c: int| 0 <= c < 3 implies is_chunk(
        cols[c].col_type,
        codecs[c],
        cols[c].rows,
        #[trigger] chunks[c],
    ) by {}
    assert(lengths_fit(cols[0].rows) && lengths_fit(cols[1].rows) && lengths_fit(cols[2].rows));
    assert(is_chunk(cols[0].col_type, codecs[0], cols[0].rows, chunks[0]));
    assert(is_chunk(cols[1].col_type, codecs[1], cols[1].rows, chunks[1]));
    assert(is_chunk(cols[2].col_type, codecs[2], cols[2].rows, chunks[2]));
    lemma_column_round_trip(block_id, timestamp, cols, codecs, 0, columns.keys);
    lemma_column_round_trip(block_id, timestamp, cols, codecs, 1, columns.values);
    assert(b.header.column_count == cols.len());
    lemma_column_round_trip(block_id, timestamp, cols, codecs, 2, columns.timestamps->0);
}

/// What the columns that every block has hold for a row.
proof fn lemma_base_row(rows: Seq<RowView>, header_ts: u64, r: int)
    requires
        0 <= r < rows.len(),
    ensures
        base_columns(rows)[0].rows.len() == rows.len(),
        base_columns(rows)[0].rows[r] == rows[r].key,
        base_columns(rows)[1].rows.len() == rows.len(),
        base_columns(rows)[1].rows[r] == stored_value(rows[r].value),
        row_stamp(header_ts, Some(base_columns(rows)[2].rows), r) == rows[r].timestamp,
{
    lemma_row_ts_round_trip(rows[r].timestamp);
}

/// Key, value and timestamp of a row are read back as they were written.
#[verifier::rlimit(50)]
proof fn lemma_base_read_back<S: RowColumnSplitter>(
    rows: Seq<RowView>,
    registrations: Seq<ColumnarRegistration<S>>,
    block_id: u64,
    timestamp: u64,
    columns: ColumnsRead,
    header_ts: u64,
    r: int,
)
    requires
        rows_fit(rows, registrations),
        rows_encoded(rows, registrations),
        columns_read(block_of(rows, registrations, block_id, timestamp), columns),
        columns.keys is Ok,
        0 <= r < rows.len(),
    ensures
        columns.values is Ok,
        columns.keys->Ok_0.len() == rows.len(),
        columns.keys->Ok_0[r] == rows[r].key,
        r < columns.values->Ok_0.len(),
        columns.values->Ok_0[r] == stored_value(rows[r].value),
        row_stamp(header_ts, timestamps_read(columns), r) == rows[r].timestamp,
{
    lemma_base_columns_read_back(rows, registrations, block_id, timestamp, columns);
    lemma_base_row(rows, header_ts, r);
}

/// The cells that a block holds for a row, as they were read, are those that the splitter
/// gave.
proof fn lemma_row_cells<S: RowColumnSplitter>(
    rows: Seq<RowView>,
    registrations: Seq<ColumnarRegistration<S>>,
    t: int,
    block_id: u64,
    timestamp: u64,
    query: QueryView,
    columns: CellColumns,
    r: int,
)
    requires
        of_table(rows, registrations, t),
        cells_fit_block(rows, registrations[t].splitter),
        rows_fit(rows, registrations),
        rows_encoded(rows, registrations),
        query.types == registrations[t].splitter.types(),
        projects(query),
        cells_read(
            block_of(rows, registrations, block_id, timestamp),
            query,
            Some(columns),
        ),
        0 <= r < rows.len(),
        rows[r].value is Some,
    ensures
        cells_at(columns, r).len() == query.projection.len(),
        forall|j: int|
            0 <= j < query.projection.len() ==> #[trigger] cells_at(columns, r)[j]
                == registrations[t].splitter.cells(rows[r].value->0)->0[query.projection[j] as int],
{
    let b = block_of(rows, registrations, block_id, timestamp);
    let splitter = registrations[t].splitter;
    let split = split_rows(row_values(rows), splitter);
    assert forall|j: int| 0 <= j < query.projection.len() implies #[trigger] cells_at(columns, r)[j]
        == splitter.cells(rows[r].value->0)->0[query.projection[j] as int] by {
        let c = query.projection[j] as int;
        assert(query.projection[j] < query.types.len());
        assert(cell_reads(b, query, j, Ok(columns.data[j]), Ok(columns.validity[j])));
        lemma_cell_columns_read_back(
            rows,
            registrations,
            t,
            block_id,
            timestamp,
            c,
            columns.data[j],
            columns.validity[j],
        );
        lemma_cell_comes_out(rows, splitter, c, r);
    }
}

/// What a version of a live row has to say to a scan: its key, its timestamp and, for each
/// column that the scan wants, the cell that the splitter makes of its value, a NULL for a
/// NULL.
pub open spec fn says_cells<S: RowColumnSplitter>(
    staged: Option<Stamped<StagedView>>,
    row: RowView,
    splitter: S,
    projection: Seq<usize>,
) -> bool {
    &&& staged matches Some(version)
    &&& version.key == row.key
    &&& version.timestamp == row.timestamp
    &&& version.value matches StagedView::Cells(cells)
    &&& cells.len() == projection.len()
    &&& forall|j: int|
        0 <= j < projection.len() ==> #[trigger] cells[j] == splitter.cells(row.value->0)->0[
            projection[j] as int
        ]
}

/// A scan by column stages, for a live row of a block that was written for the table and is
/// not skipped, exactly the cells that the splitter makes of the row's value.
pub proof fn lemma_stored_cells<S: RowColumnSplitter>(
    rows: Seq<RowView>,
    registrations: Seq<ColumnarRegistration<S>>,
    t: int,
    block_id: u64,
    timestamp: u64,
    query: QueryView,
    read: ColumnarRead,
    r: int,
)
    requires
        of_table(rows, registrations, t),
        cells_fit_block(rows, registrations[t].splitter),
        rows_fit(rows, registrations),
        rows_encoded(rows, registrations),
        query.types == registrations[t].splitter.types(),
        projects(query),
        columnar_read(block_of(rows, registrations, block_id, timestamp), query, read),
        read.base.keys is Ok,
        !pruned(block_of(rows, registrations, block_id, timestamp), query),
        0 <= r < rows.len(),
        rows[r].value matches Some(value) && value.len() > 0,
        query.prefix.is_prefix_of(rows[r].key),
        rows[r].timestamp <= query.read_ts,
    ensures
        says_cells(
            staged_row(
                block_of(rows, registrations, block_id, timestamp),
                query,
                registrations[t].splitter,
                read,
                r,
            ),
            rows[r],
            registrations[t].splitter,
            query.projection,
        ),
{
    let b = block_of(rows, registrations, block_id, timestamp);
    let splitter = registrations[t].splitter;
    lemma_base_read_back(
        rows,
        registrations,
        block_id,
        timestamp,
        read.base,
        b.header.commit_timestamp,
        r,
    );
    match read.cells {
        Some(columns) => {
            lemma_row_cells(rows, registrations, t, block_id, timestamp, query, columns, r);
        },
        None => {
            assert(splitter.cells(rows[r].value->0)->0.len() == query.types.len());
            let cells = projected(splitter.cells(rows[r].value->0)->0, query.projection);
            assert forall|j: int| 0 <= j < query.projection.len() implies #[trigger] cells[j]
                == splitter.cells(rows[r].value->0)->0[query.projection[j] as int] by {
                assert(query.projection[j] < query.types.len());
            }
        },
    }
}

/// The same holds of a block that was written without columns for the cells, before the
/// table was registered: its values are split.
pub proof fn lemma_split_cells<S: RowColumnSplitter>(
    rows: Seq<RowView>,
    registrations: Seq<ColumnarRegistration<S>>,
    splitter: S,
    block_id: u64,
    timestamp: u64,
    query: QueryView,
    read: ColumnarRead,
    r: int,
)
    requires
        rows_fit(rows, registrations),
        rows_encoded(rows, registrations),
        forall|j: int|
            0 <= j < registrations.len() ==> !(#[trigger] registrations[j]).prefix@.is_prefix_of(
                rows[0].key,
            ),
        query.types == splitter.types(),
        query.types.len() > 0,
        projects(query),
        columnar_read(block_of(rows, registrations, block_id, timestamp), query, read),
        read.base.keys is Ok,
        0 <= r < rows.len(),
        rows[r].value matches Some(value) && value.len() > 0 && splitter.cells(value) is Some
            && splitter.cells(value)->0.len() == splitter.types().len(),
        query.prefix.is_prefix_of(rows[r].key),
        rows[r].timestamp <= query.read_ts,
    ensures
        says_cells(
            staged_row(
                block_of(rows, registrations, block_id, timestamp),
                query,
                splitter,
                read,
                r,
            ),
            rows[r],
            splitter,
            query.projection,
        ),
{
    let b = block_of(rows, registrations, block_id, timestamp);
    lemma_registration_first(registrations, rows[0].key);
    assert(registration_index(registrations, rows[0].key) is None);
    assert(block_columns(rows, registrations) == base_columns(rows));
    assert(b.header.column_count == 3);
    assert(!is_columnar(b, query));
    lemma_base_read_back(
        rows,
        registrations,
        block_id,
        timestamp,
        read.base,
        b.header.commit_timestamp,
        r,
    );
    let cells = projected(splitter.cells(rows[r].value->0)->0, query.projection);
    assert forall|j: int| 0 <= j < query.projection.len() implies #[trigger] cells[j]
        == splitter.cells(rows[r].value->0)->0[query.projection[j] as int] by {
        assert(query.projection[j] < query.types.len());
    }
}

/// The same holds of a live row in the memtable; a deleted row is staged as deleted, and a
/// row of another table is not staged.
pub proof fn lemma_memtable_cells<S: RowColumnSplitter>(
    query: QueryView,
    splitter: S,
    version: RowView,
)
    requires
        query.types == splitter.types(),
        projects(query),
        version.value matches Some(value) ==> splitter.cells(value) is Some && splitter.cells(
            value,
        )->0.len() == splitter.types().len(),
    ensures
        !query.prefix.is_prefix_of(version.key) ==> staged_version(query, splitter, version) is None,
        query.prefix.is_prefix_of(version.key) && version.value is Some ==> says_cells(
            staged_version(query, splitter, version),
            version,
            splitter,
            query.projection,
        ),
        query.prefix.is_prefix_of(version.key) && version.value is None ==> staged_version(
            query,
            splitter,
            version,
        ) == Some(
            Stamped {
                key: version.key,
                timestamp: version.timestamp,
                value: StagedView::Tombstone,
            },
        ),
{
    if let Some(value) = version.value {
        let cells = projected(splitter.cells(value)->0, query.projection);
        assert forall|j: int| 0 <= j < query.projection.len() implies #[trigger] cells[j]
            == splitter.cells(value)->0[query.projection[j] as int] by {
            assert(query.projection[j] < query.types.len());
        }
    }
}

/// A deleted row of a block is staged as deleted, with its key and timestamp, even where the
/// block is skipped; a row of another table, or that is not visible, is not staged.
pub proof fn lemma_stored_tombstone<S: RowColumnSplitter>(
    rows: Seq<RowView>,
    registrations: Seq<ColumnarRegistration<S>>,
    splitter: S,
    block_id: u64,
    timestamp: u64,
    query: QueryView,
    read: ColumnarRead,
    r: int,
)
    requires
        rows_fit(rows, registrations),
        rows_encoded(rows, registrations),
        columnar_read(block_of(rows, registrations, block_id, timestamp), query, read),
        read.base.keys is Ok,
        0 <= r < rows.len(),
    ensures
        ({
            let staged = staged_row(
                block_of(rows, registrations, block_id, timestamp),
                query,
                splitter,
                read,
                r,
            );
            let asked = query.prefix.is_prefix_of(rows[r].key) && rows[r].timestamp
                <= query.read_ts;
            &&& !asked ==> staged is None
            &&& asked && rows[r].value is None ==> staged == Some(
                Stamped {
                    key: rows[r].key,
                    timestamp: rows[r].timestamp,
                    value: StagedView::Tombstone,
                },
            )
        }),
{
    let b = block_of(rows, registrations, block_id, timestamp);
    lemma_base_read_back(
        rows,
        registrations,
        block_id,
        timestamp,
        read.base,
        b.header.commit_timestamp,
        r,
    );
}

/// The zone map of a data column covers what the column stores.
proof fn lemma_data_range<S: RowColumnSplitter>(
    rows: Seq<RowView>,
    registrations: Seq<ColumnarRegistration<S>>,
    t: int,
    block_id: u64,
    timestamp: u64,
    c: int,
)
    requires
        of_table(rows, registrations, t),
        rows_fit(rows, registrations),
        0 <= c < registrations[t].splitter.types().len(),
    ensures
        ({
            let header = block_of(rows, registrations, block_id, timestamp).header;
            let types = registrations[t].splitter.types();
            let split = split_rows(row_values(rows), registrations[t].splitter);
            let data = data_column(types, split, c).rows;
            &&& header.column_count == 3 + 2 * types.len()
            &&& header.descriptors.len() == 3 + 2 * types.len()
            &&& header.descriptors[3 + 2 * c].zone_map_min == least(types[c], data)
            &&& header.descriptors[3 + 2 * c].zone_map_max == greatest(types[c], data)
        }),
{
    let columns = block_columns(rows, registrations);
    let codecs = block_codecs(rows, registrations);
    let types = registrations[t].splitter.types();
    lemma_table_columns(rows, registrations, t);
    assert(types[c] == types[c]);
    let header = written_block(block_id, timestamp, columns, codecs).header;
    assert(header.descriptors[3 + 2 * c] == described(columns, codecs, 3 + 2 * c));
}

/// A block of the table is skipped only if none of its rows meets all predicates: for each
/// live row there is a predicate whose cell is NULL or does not satisfy it.
pub proof fn lemma_skipping_sound<S: RowColumnSplitter>(
    rows: Seq<RowView>,
    registrations: Seq<ColumnarRegistration<S>>,
    t: int,
    block_id: u64,
    timestamp: u64,
    query: QueryView,
    r: int,
)
    requires
        of_table(rows, registrations, t),
        rows_fit(rows, registrations),
        query.types == registrations[t].splitter.types(),
        pruned(block_of(rows, registrations, block_id, timestamp), query),
        0 <= r < rows.len(),
        rows[r].value is Some,
    ensures
        exists|i: int|
            {
                &&& 0 <= i < query.predicates.len()
                &&& 0 <= (#[trigger] query.predicates[i]).column < query.types.len()
                &&& registrations[t].splitter.cells(rows[r].value->0)->0[query.predicates[i].column] matches Some(
                    bytes,
                ) ==> !satisfies(
                    query.types[query.predicates[i].column],
                    query.predicates[i].op,
                    bytes,
                    query.predicates[i].value,
                )
            },
{
    let b = block_of(rows, registrations, block_id, timestamp);
    let splitter = registrations[t].splitter;
    let i = choose|i: int|
        0 <= i < query.predicates.len() && excludes(b, query, #[trigger] query.predicates[i]);
    let predicate = query.predicates[i];
    let c = predicate.column;
    lemma_data_range(rows, registrations, t, block_id, timestamp, c);
    let split = split_rows(row_values(rows), splitter);
    let data = data_column(query.types, split, c).rows;
    if let Some(bytes) = splitter.cells(rows[r].value->0)->0[c] {
        assert(row_values(rows)[r] == rows[r].value);
        assert(data[r] == bytes);
        if satisfies(query.types[c], predicate.op, bytes, predicate.value) {
            lemma_pruning_sound(query.types[c], data, r, predicate.op, predicate.value);
        }
    }
}

// All rows are staged, and the newest of each key counts

proof fn lemma_in_either(
    a: Seq<Stamped<StagedView>>,
    b: Seq<Stamped<StagedView>>,
    version: Stamped<StagedView>,
)
    ensures
        (a + b).contains(version) <==> a.contains(version) || b.contains(version),
{
    if a.contains(version) {
        let i = choose|i: int| 0 <= i < a.len() && a[i] == version;
        assert((a + b)[i] == version);
    }
    if b.contains(version) {
        let i = choose|i: int| 0 <= i < b.len() && b[i] == version;
        assert((a + b)[a.len() + i] == version);
    }
    if (a + b).contains(version) {
        let i = choose|i: int| 0 <= i < (a + b).len() && (a + b)[i] == version;
        if i < a.len() {
            assert(a[i] == version);
        } else {
            assert(b[i - a.len()] == version);
        }
    }
}

/// What is staged of a block is what each of its rows says.
pub proof fn lemma_staged_rows_has<S: RowColumnSplitter>(
    b: BlockView,
    query: QueryView,
    splitter: S,
    read: ColumnarRead,
    n: int,
    version: Stamped<StagedView>,
)
    ensures
        staged_rows(b, query, splitter, read, n).contains(version) <==> exists|r: int|
            0 <= r < n && #[trigger] staged_row(b, query, splitter, read, r) == Some(version),
    decreases n,
{
    if n > 0 {
        let last = n - 1;
        lemma_staged_rows_has(b, query, splitter, read, last, version);
        let before = staged_rows(b, query, splitter, read, last);
        match staged_row(b, query, splitter, read, last) {
            Some(v) => {
                lemma_in_either(before, seq![v], version);
                assert(before.push(v) =~= before + seq![v]);
                assert(seq![v].contains(version) <==> v == version) by {
                    if v == version {
                        assert(seq![v][0] == version);
                    }
                }
            },
            None => {},
        }
    }
}

/// Whether a version is what a row of a block that a file's index points to says.
pub open spec fn staged_in_block<S: RowColumnSplitter>(
    data: Seq<u8>,
    entries: Seq<BlockIndexEntry>,
    query: QueryView,
    splitter: S,
    reads: Seq<ColumnarRead>,
    k: int,
    version: Stamped<StagedView>,
) -> bool {
    &&& 0 <= k < entries.len()
    &&& entry_block(data, entries[k]) matches Some(b)
    &&& reads[k].base.keys is Ok && reads[k].base.values is Ok
    &&& exists|r: int|
        0 <= r < reads[k].base.keys->Ok_0.len() && #[trigger] staged_row(
            b,
            query,
            splitter,
            reads[k],
            r,
        ) == Some(version)
}

/// What is staged of a file is what the rows of each of its blocks say.
pub proof fn lemma_staged_file_has<S: RowColumnSplitter>(
    data: Seq<u8>,
    entries: Seq<BlockIndexEntry>,
    query: QueryView,
    splitter: S,
    reads: Seq<ColumnarRead>,
    version: Stamped<StagedView>,
)
    requires
        reads.len() == entries.len(),
    ensures
        staged_file(data, entries, query, splitter, reads).contains(version) <==> exists|k: int|
         #[trigger]
            staged_in_block(data, entries, query, splitter, reads, k, version),
    decreases entries.len(),
{
    if entries.len() > 0 {
        let front = entries.drop_last();
        let read_front = reads.drop_last();
        let last = entries.len() - 1;
        lemma_staged_file_has(data, front, query, splitter, read_front, version);
        let before = staged_file(data, front, query, splitter, read_front);
        assert forall|k: int| 0 <= k < last implies #[trigger] staged_in_block(
            data,
            entries,
            query,
            splitter,
            reads,
            k,
            version,
        ) == staged_in_block(data, front, query, splitter, read_front, k, version) by {
            assert(front[k] == entries[k]);
            assert(read_front[k] == reads[k]);
        }
        if let Some(b) = entry_block(data, entries.last()) {
            let read = reads.last();
            let added = staged_block(b, query, splitter, read);
            lemma_in_either(before, added, version);
            if read.base.keys is Ok && read.base.values is Ok {
                lemma_staged_rows_has(
                    b,
                    query,
                    splitter,
                    read,
                    read.base.keys->Ok_0.len() as int,
                    version,
                );
            }
            assert(added.contains(version) <==> staged_in_block(
                data,
                entries,
                query,
                splitter,
                reads,
                last,
                version,
            ));
        } else {
            assert(!staged_in_block(data, entries, query, splitter, reads, last, version));
        }
        if before.contains(version) {
            let k = choose|k: int| #[trigger]
                staged_in_block(data, front, query, splitter, read_front, k, version);
            assert(staged_in_block(data, entries, query, splitter, reads, k, version));
        }
        if exists|k: int| #[trigger]
            staged_in_block(data, entries, query, splitter, reads, k, version) {
            let k = choose|k: int| #[trigger]
                staged_in_block(data, entries, query, splitter, reads, k, version);
            if k < last {
                assert(staged_in_block(data, front, query, splitter, read_front, k, version));
            }
        }
    }
}

/// Whether a version is what a row of a file whose contents are there says.
pub open spec fn staged_in_file<S: RowColumnSplitter>(
    files: Seq<SstEntry>,
    contents: Seq<Option<Vec<u8>>>,
    query: QueryView,
    splitter: S,
    reads: Seq<Seq<ColumnarRead>>,
    i: int,
    version: Stamped<StagedView>,
) -> bool {
    &&& content_of(contents, i) matches Some(data)
    &&& exists|k: int| #[trigger]
        staged_in_block(data, files[i]@.blocks, query, splitter, reads[i], k, version)
}

/// What is staged of the files is what the rows of each of them say.
pub proof fn lemma_staged_files_has<S: RowColumnSplitter>(
    files: Seq<SstEntry>,
    contents: Seq<Option<Vec<u8>>>,
    query: QueryView,
    splitter: S,
    reads: Seq<Seq<ColumnarRead>>,
    n: int,
    version: Stamped<StagedView>,
)
    requires
        0 <= n <= files.len(),
        columnar_files_read(files, contents, query, reads),
    ensures
        staged_files(files, contents, query, splitter, reads, n).contains(version) <==> exists|
            i: int,
        |
            0 <= i < n && #[trigger] staged_in_file(
                files,
                contents,
                query,
                splitter,
                reads,
                i,
                version,
            ),
    decreases n,
{
    if n > 0 {
        let last = n - 1;
        lemma_staged_files_has(files, contents, query, splitter, reads, last, version);
        let before = staged_files(files, contents, query, splitter, reads, last);
        match content_of(contents, last) {
            Some(data) => {
                let blocks = files[last]@.blocks;
                assert(columnar_file_read(data, blocks, query, reads[last]));
                lemma_staged_file_has(data, blocks, query, splitter, reads[last], version);
                lemma_in_either(
                    before,
                    staged_file(data, blocks, query, splitter, reads[last]),
                    version,
                );
            },
            None => {},
        }
        if staged_in_file(files, contents, query, splitter, reads, last, version) {
            assert(0 <= last < n);
        }
        if exists|i: int| 0 <= i < last && #[trigger] staged_in_file(
            files,
            contents,
            query,
            splitter,
            reads,
            i,
            version,
        ) {
            let i = choose|i: int| 0 <= i < last && #[trigger] staged_in_file(
                files,
                contents,
                query,
                splitter,
                reads,
                i,
                version,
            );
            assert(0 <= i < n);
        }
    }
}

/// What is staged of the memtable is what each of its visible versions says.
pub proof fn lemma_staged_versions_has<S: RowColumnSplitter>(
    query: QueryView,
    splitter: S,
    versions: Seq<RowView>,
    version: Stamped<StagedView>,
)
    ensures
        staged_versions(query, splitter, versions).contains(version) <==> exists|i: int|
            0 <= i < versions.len() && staged_version(query, splitter, #[trigger] versions[i])
                == Some(version),
    decreases versions.len(),
{
    if versions.len() > 0 {
        let front = versions.drop_last();
        let last = versions.len() - 1;
        lemma_staged_versions_has(query, splitter, front, version);
        let before = staged_versions(query, splitter, front);
        assert(versions[last] == versions.last());
        match staged_version(query, splitter, versions.last()) {
            Some(v) => {
                lemma_in_either(before, seq![v], version);
                assert(before.push(v) =~= before + seq![v]);
                assert(seq![v].contains(version) <==> v == version) by {
                    if v == version {
                        assert(seq![v][0] == version);
                    }
                }
            },
            None => {},
        }
        if before.contains(version) {
            let i = choose|i: int|
                0 <= i < front.len() && staged_version(query, splitter, #[trigger] front[i])
                    == Some(version);
            assert(versions[i] == front[i]);
        }
        if exists|i: int|
            0 <= i < versions.len() && staged_version(query, splitter, #[trigger] versions[i])
                == Some(version) {
            let i = choose|i: int|
                0 <= i < versions.len() && staged_version(query, splitter, #[trigger] versions[i])
                    == Some(version);
            if i < last {
                assert(front[i] == versions[i]);
            }
        }
    }
}

/// Whether a row of a batch has these cells, column by column.
pub open spec fn batch_row(batch: ColumnarBatch, r: int, cells: Seq<Option<Seq<u8>>>) -> bool {
    &&& batch.columns@.len() == cells.len()
    &&& forall|j: int|
        0 <= j < cells.len() ==> (#[trigger] batch.columns@[j]).1@.len() == batch.num_rows
            && value_view(batch.columns@[j].1@[r]) == cells[j]
}

/// The keys of the versions with cells.
proof fn lemma_with_cells(newest: Seq<Stamped<StagedView>>) -> (keys: Seq<Seq<u8>>)
    requires
        forall|i: int, j: int|
            #![trigger newest[i], newest[j]]
            0 <= i < j < newest.len() ==> lex_lt(newest[i].key, newest[j].key),
    ensures
        keys.len() == with_cells(newest).len(),
        forall|a: int, b: int|
            #![trigger keys[a], keys[b]]
            0 <= a < b < keys.len() ==> lex_lt(keys[a], keys[b]),
        forall|r: int|
            0 <= r < keys.len() ==> exists|i: int|
                0 <= i < newest.len() && (#[trigger] newest[i]).key == #[trigger] keys[r]
                    && newest[i].value == StagedView::Cells(with_cells(newest)[r]),
        forall|i: int|
            0 <= i < newest.len() && (#[trigger] newest[i]).value is Cells ==> keys.contains(
                newest[i].key,
            ),
    decreases newest.len(),
{
    if newest.len() == 0 {
        Seq::<Seq<u8>>::empty()
    } else {
        let front = newest.drop_last();
        let last = newest.len() - 1;
        assert forall|i: int, j: int|
            #![trigger front[i], front[j]]
            0 <= i < j < front.len() implies lex_lt(front[i].key, front[j].key) by {
            assert(front[i] == newest[i] && front[j] == newest[j]);
        }
        let before = lemma_with_cells(front);
        let keys = if newest.last().value is Cells {
            before.push(newest.last().key)
        } else {
            before
        };
        assert forall|r: int| 0 <= r < before.len() implies exists|i: int|
            0 <= i < last && (#[trigger] newest[i]).key == #[trigger] before[r] && newest[i].value
                == StagedView::Cells(with_cells(front)[r]) by {
            let i = choose|i: int|
                0 <= i < front.len() && (#[trigger] front[i]).key == before[r] && front[i].value
                    == StagedView::Cells(with_cells(front)[r]);
            assert(newest[i] == front[i]);
        }
        assert forall|a: int, b: int|
            #![trigger keys[a], keys[b]]
            0 <= a < b < keys.len() implies lex_lt(keys[a], keys[b]) by {
            assert(keys[a] == before[a]);
            if b < before.len() {
                assert(keys[b] == before[b]);
            } else {
                let i = choose|i: int|
                    0 <= i < last && (#[trigger] newest[i]).key == before[a] && newest[i].value
                        == StagedView::Cells(with_cells(front)[a]);
                assert(lex_lt(newest[i].key, newest[last].key));
            }
        }
        assert forall|r: int| 0 <= r < keys.len() implies exists|i: int|
            0 <= i < newest.len() && (#[trigger] newest[i]).key == #[trigger] keys[r]
                && newest[i].value == StagedView::Cells(with_cells(newest)[r]) by {
            if r < before.len() {
                let i = choose|i: int|
                    0 <= i < last && (#[trigger] newest[i]).key == before[r] && newest[i].value
                        == StagedView::Cells(with_cells(front)[r]);
                assert(newest[i].key == keys[r]);
            } else {
                assert(newest[last].key == keys[r]);
            }
        }
        assert forall|i: int|
            0 <= i < newest.len() && (#[trigger] newest[i]).value is Cells implies keys.contains(
            newest[i].key,
        ) by {
            if i < last {
                assert(front[i] == newest[i]);
                let r = choose|r: int| 0 <= r < before.len() && before[r] == newest[i].key;
                assert(keys[r] == newest[i].key);
            } else {
                assert(keys[before.len() as int] == newest[i].key);
            }
        }
        keys
    }
}

/// Whether a row of a batch has the cells of the newest version staged of a key.
pub open spec fn row_of_key(
    batch: ColumnarBatch,
    staged: Seq<Stamped<StagedView>>,
    r: int,
    key: Seq<u8>,
) -> bool {
    exists|i: int| #[trigger]
        wins(staged, i) && staged[i].key == key && (
        staged[i].value matches StagedView::Cells(cells) && batch_row(batch, r, cells))
}

/// Whether the rows of a batch belong to these keys, out of the versions staged: they are in
/// the order of the keys, each row has the cells of the newest version of its key, and each
/// key whose newest version has cells has a row.
pub open spec fn batch_of(
    batch: ColumnarBatch,
    staged: Seq<Stamped<StagedView>>,
    keys: Seq<Seq<u8>>,
) -> bool {
    &&& keys.len() == batch.num_rows
    &&& forall|a: int, b: int|
        #![trigger keys[a], keys[b]]
        0 <= a < b < keys.len() ==> lex_lt(keys[a], keys[b])
    &&& forall|r: int| 0 <= r < keys.len() ==> row_of_key(batch, staged, r, #[trigger] keys[r])
    &&& forall|i: int| #[trigger]
        wins(staged, i) && staged[i].value is Cells ==> keys.contains(staged[i].key)
}

/// The batch of a scan holds, in the order of the keys, the cells of the newest version of
/// each key, and nothing for a key whose newest version is deleted or excluded.
pub proof fn lemma_batch_rows(
    batch: ColumnarBatch,
    types: Seq<ColumnType>,
    projection: Seq<usize>,
    newest: Seq<Stamped<StagedView>>,
    staged: Seq<Stamped<StagedView>>,
)
    requires
        lists_newest(newest, staged),
        forall|i: int|
            0 <= i < staged.len() ==> ((#[trigger] staged[i]).value matches StagedView::Cells(cells)
                ==> cells.len() == projection.len()),
        batch_holds(batch, types, projection, with_cells(newest)),
    ensures
        exists|keys: Seq<Seq<u8>>| #[trigger] batch_of(batch, staged, keys),
{
    let keys = lemma_with_cells(newest);
    let rows = with_cells(newest);
    assert forall|r: int| 0 <= r < keys.len() implies row_of_key(
        batch,
        staged,
        r,
        #[trigger] keys[r],
    ) by {
        let k = choose|k: int|
            0 <= k < newest.len() && (#[trigger] newest[k]).key == keys[r] && newest[k].value
                == StagedView::Cells(rows[r]);
        lemma_pick_wins(staged, newest[k].key);
        let i = choose|i: int| #[trigger]
            wins(staged, i) && staged[i] == newest[k];
        assert(staged[i].value == StagedView::Cells(rows[r]));
        assert(rows[r].len() == projection.len());
        assert forall|j: int| 0 <= j < rows[r].len() implies (#[trigger] batch.columns@[j]).1@.len()
            == batch.num_rows && value_view(batch.columns@[j].1@[r]) == rows[r][j] by {
            let column = batch.columns@[j].1@;
            assert(cell_views(column) == Seq::new(rows.len(), |q: int| rows[q][j]));
            assert(cell_views(column)[r] == value_view(column[r]));
            assert(cell_views(column).len() == column.len());
        }
        assert(batch_row(batch, r, rows[r]));
    }
    assert forall|i: int| #[trigger]
        wins(staged, i) && staged[i].value is Cells implies keys.contains(staged[i].key) by {
        lemma_winner_picked(staged, i);
        let k = choose|k: int| 0 <= k < newest.len() && (#[trigger] newest[k]).key == staged[i].key;
        assert(newest[k] == staged[i]);
    }
    assert(batch_of(batch, staged, keys));
}

/// The table that is scanned is the first one registered with exactly the prefix.
pub proof fn lemma_table_named<S: RowColumnSplitter>(
    registrations: Seq<ColumnarRegistration<S>>,
    prefix: Seq<u8>,
)
    ensures
        match table_index(registrations, prefix) {
            Some(t) => {
                &&& 0 <= t < registrations.len()
                &&& registrations[t].prefix@ == prefix
                &&& forall|j: int| 0 <= j < t ==> (#[trigger] registrations[j]).prefix@ != prefix
            },
            None => forall|j: int|
                0 <= j < registrations.len() ==> (#[trigger] registrations[j]).prefix@ != prefix,
        },
    decreases registrations.len(),
{
    if registrations.len() > 0 {
        lemma_table_named(registrations.drop_last(), prefix);
        assert forall|j: int| 0 <= j < registrations.len() - 1 implies registrations.drop_last()[j]
            == #[trigger] registrations[j] by {}
    }
}

/// A scan gives the columns asked for, in the order asked for, with their types; all columns
/// of the table in their order if none is named.
pub proof fn lemma_columns_given<S: RowColumnSplitter>(
    files: Seq<SstEntry>,
    contents: Seq<Option<Vec<u8>>>,
    chains: Map<Seq<u8>, Seq<Version>>,
    registrations: Seq<ColumnarRegistration<S>>,
    t: int,
    projection: Seq<usize>,
    predicates: Seq<PredicateView>,
    read_ts: u64,
    batch: ColumnarBatch,
)
    requires
        0 <= t < registrations.len(),
        forall|j: int|
            0 <= j < t ==> (#[trigger] registrations[j]).prefix@ != registrations[t].prefix@,
        columnar_scan(
            files,
            contents,
            chains,
            registrations,
            registrations[t].prefix@,
            projection,
            predicates,
            read_ts,
            Ok(batch),
        ),
        registrations[t].splitter.types().len() <= usize::MAX,
    ensures
        ({
            let types = registrations[t].splitter.types();
            &&& projection.len() > 0 ==> batch.columns@.len() == projection.len() && forall|j: int|
                0 <= j < projection.len() ==> projection[j] < types.len() && (
                #[trigger] batch.columns@[j]).0 == types[projection[j] as int]
            &&& projection.len() == 0 ==> batch.columns@.len() == types.len() && forall|j: int|
                0 <= j < types.len() ==> (#[trigger] batch.columns@[j]).0 == types[j]
        }),
{
    lemma_table_named(registrations, registrations[t].prefix@);
    let types = registrations[t].splitter.types();
    let found = table_index(registrations, registrations[t].prefix@)->0;
    if found < t {
        assert(registrations[found].prefix@ != registrations[t].prefix@);
    }
    assert(found == t) by {
        if t < found {
            assert(registrations[t].prefix@ != registrations[t].prefix@);
        }
    }
    let wanted = meant_projection(projection, types.len());
    assert(wanted.len() == batch.columns@.len());
    assert forall|j: int| 0 <= j < wanted.len() implies wanted[j] < types.len() && (
    #[trigger] batch.columns@[j]).0 == types[wanted[j] as int] by {
        assert(wanted[j] < types.len());
    }
}

/// Unregistering a table leaves the registrations with other prefixes, in their order.
pub proof fn lemma_unregistered<S: RowColumnSplitter>(
    registrations: Seq<ColumnarRegistration<S>>,
    prefix: Seq<u8>,
)
    ensures
        without_table(registrations, prefix) == registrations.filter(
            |registration: ColumnarRegistration<S>| registration.prefix@ != prefix,
        ),
    decreases registrations.len(),
{
    reveal(Seq::filter);
    if registrations.len() > 0 {
        lemma_unregistered(registrations.drop_last(), prefix);
    }
}

/// A table that was registered is the one that scans of its prefix find, whatever was
/// registered with the prefix before.
pub proof fn lemma_register_then_scan<S: RowColumnSplitter>(
    registrations: Seq<ColumnarRegistration<S>>,
    registration: ColumnarRegistration<S>,
)
    ensures
        ({
            let after = without_table(registrations, registration.prefix@).push(registration);
            table_index(after, registration.prefix@) == Some(after.len() - 1)
        }),
{
    let prefix = registration.prefix@;
    let rest = without_table(registrations, prefix);
    let after = rest.push(registration);
    let other = |r: ColumnarRegistration<S>| r.prefix@ != prefix;
    lemma_unregistered(registrations, prefix);
    lemma_table_named(after, prefix);
    match table_index(after, prefix) {
        Some(t) => {
            if t < rest.len() {
                registrations.lemma_filter_pred(other, t);
                assert(after[t] == rest[t]);
            }
        },
        None => {
            assert(after[after.len() - 1].prefix@ != prefix);
        },
    }
}

/// A block with a row that meets all predicates is not skipped.
pub proof fn lemma_matching_block_read<S: RowColumnSplitter>(
    rows: Seq<RowView>,
    registrations: Seq<ColumnarRegistration<S>>,
    t: int,
    block_id: u64,
    timestamp: u64,
    query: QueryView,
    r: int,
)
    requires
        of_table(rows, registrations, t),
        cells_fit_block(rows, registrations[t].splitter),
        rows_fit(rows, registrations),
        query.types == registrations[t].splitter.types(),
        0 <= r < rows.len(),
        rows[r].value is Some,
        forall|i: int|
            0 <= i < query.predicates.len() && 0 <= (#[trigger] query.predicates[i]).column
                < query.types.len() ==> {
                let predicate = query.predicates[i];
                let col_type = query.types[predicate.column];
                &&& col_type.width() matches Some(width) ==> predicate.value.len() == width
                &&& registrations[t].splitter.cells(rows[r].value->0)->0[predicate.column] matches Some(
                    bytes,
                ) && meets(col_type, predicate.op, bytes, predicate.value)
            },
    ensures
        !pruned(block_of(rows, registrations, block_id, timestamp), query),
{
    if pruned(block_of(rows, registrations, block_id, timestamp), query) {
        lemma_skipping_sound(rows, registrations, t, block_id, timestamp, query, r);
        let splitter = registrations[t].splitter;
        let i = choose|i: int|
            {
                &&& 0 <= i < query.predicates.len()
                &&& 0 <= (#[trigger] query.predicates[i]).column < query.types.len()
                &&& splitter.cells(rows[r].value->0)->0[query.predicates[i].column] matches Some(
                    bytes,
                ) ==> !satisfies(
                    query.types[query.predicates[i].column],
                    query.predicates[i].op,
                    bytes,
                    query.predicates[i].value,
                )
            };
        let predicate = query.predicates[i];
        let c = predicate.column;
        let bytes = splitter.cells(rows[r].value->0)->0[c]->0;
        assert(cell_fits(splitter.types()[c], splitter.cells(rows[r].value->0)->0[c]));
        lemma_meets_satisfies(query.types[c], predicate.op, bytes, predicate.value);
    }
}

} // verus!
