//! Scan of a table that is stored by column.
//!
//! Blocks with columns for the table's cells are read by column. Rows of other
//! blocks and of the memtable are split into cells. Predicates serve to skip
//! the cells of blocks that hold no match; the keys and timestamps of such
//! blocks still count, so that no older version of a row shows up in place of
//! a newer one.

use vstd::prelude::*;
use vstd::slice::slice_to_vec;

use crate::bytes::{bytes_equal, starts_with, views};
use crate::column::{ColumnType, Timestamp};
use crate::columnar::{
    cell_views, data_column_index, is_valid_marker, marks_valid, validity_column_index,
    ColumnPredicate, ColumnarBatch, ColumnarRegistration, RowColumnSplitter,
};
use crate::engine::newest::{lists_newest, newest_per_key, pick};
use crate::engine::read::{
    column_option, columns_read, entry_block, read_entry, read_timestamps, row_stamp,
    stamp_of_row, timestamps_read, ColumnsRead,
};
use crate::engine::registry::{SstEntry, SstRegistry};
use crate::engine::scan::{collect_visible, content_of, memtable_visible};
use crate::error::{Fault, GalaxError, GalaxResult};
use crate::memtable::versioned_value::{copy_value, value_view, Version};
use crate::memtable::Memtable;
use crate::pax::block::{column_reads, BlockView};
use crate::pax::codec::rows_result;
use crate::pax::zone_map::can_match;
use crate::pax::{zone_map_can_match, PaxBlock, PruneOp};
use crate::row::{stamps, Candidate, Content, Row, RowView, Stamped};
use crate::sst::{BlockIndexEntry, SstBlockIndex};

verus! {

/// What a version of a row says to a scan.
#[derive(Debug)]
pub enum Staged {
    /// The row is deleted.
    Tombstone,
    /// The row fails a predicate, as its block's zone maps tell.
    Excluded,
    /// The projected cells of the row.
    Cells(Vec<Option<Vec<u8>>>),
}

/// What a version of a row says to a scan.
pub ghost enum StagedView {
    Tombstone,
    Excluded,
    Cells(Seq<Option<Seq<u8>>>),
}

impl Content for Staged {
    type V = StagedView;

    open spec fn content(&self) -> StagedView {
        match self {
            Staged::Tombstone => StagedView::Tombstone,
            Staged::Excluded => StagedView::Excluded,
            Staged::Cells(cells) => StagedView::Cells(cell_views(cells@)),
        }
    }
}

/// A predicate: `column <op> value`.
pub ghost struct PredicateView {
    pub column: int,
    pub op: PruneOp,
    pub value: Seq<u8>,
}

impl View for ColumnPredicate {
    type V = PredicateView;

    open spec fn view(&self) -> PredicateView {
        PredicateView { column: self.column as int, op: self.op, value: self.value@ }
    }
}

/// What is asked of a table.
struct Query<'a> {
    prefix: &'a [u8],
    types: Vec<ColumnType>,
    projection: Vec<usize>,
    predicates: &'a [ColumnPredicate],
    read_ts: Timestamp,
}

/// What is asked of a table: the prefix of its keys, the types of its columns,
/// the columns wanted, the predicates and the timestamp.
#[verifier::ext_equal]
pub ghost struct QueryView {
    pub prefix: Seq<u8>,
    pub types: Seq<ColumnType>,
    pub projection: Seq<usize>,
    pub predicates: Seq<PredicateView>,
    pub read_ts: u64,
}

impl<'a> View for Query<'a> {
    type V = QueryView;

    closed spec fn view(&self) -> QueryView {
        QueryView {
            prefix: self.prefix@,
            types: self.types@,
            projection: self.projection@,
            predicates: predicate_views(self.predicates@),
            read_ts: self.read_ts,
        }
    }
}

/// What predicates say.
pub open spec fn predicate_views(predicates: Seq<ColumnPredicate>) -> Seq<PredicateView> {
    Seq::new(predicates.len(), |i: int| predicates[i]@)
}

/// Whether all columns wanted are columns of the table.
pub open spec fn projects(query: QueryView) -> bool {
    forall|j: int|
        0 <= j < query.projection.len() ==> #[trigger] query.projection[j] < query.types.len()
}

/// Whether a block has columns for the cells of the table.
pub open spec fn is_columnar(b: BlockView, query: QueryView) -> bool {
    b.header.column_count == 3 + 2 * query.types.len()
}

/// Whether the zone map of a block excludes that a row meets a predicate.
pub open spec fn excludes(b: BlockView, query: QueryView, predicate: PredicateView) -> bool {
    let column = 3 + 2 * predicate.column;
    &&& 0 <= predicate.column < query.types.len()
    &&& column < b.header.descriptors.len()
    &&& !can_match(
        query.types[predicate.column],
        b.header.descriptors[column].zone_map_min,
        b.header.descriptors[column].zone_map_max,
        predicate.op,
        predicate.value,
    )
}

/// Whether no row of a block can meet all predicates.
pub open spec fn pruned(b: BlockView, query: QueryView) -> bool {
    is_columnar(b, query) && exists|i: int|
        0 <= i < query.predicates.len() && excludes(b, query, #[trigger] query.predicates[i])
}

/// The data and validity columns of the columns wanted.
pub ghost struct CellColumns {
    pub data: Seq<Seq<Seq<u8>>>,
    pub validity: Seq<Seq<Seq<u8>>>,
}

/// What reading a block came to; `cells` is `None` if cells were not or could
/// not be read.
pub ghost struct ColumnarRead {
    pub base: ColumnsRead,
    pub cells: Option<CellColumns>,
}

/// Whether the columns at `j` can have been read as this.
pub open spec fn cell_reads(
    b: BlockView,
    query: QueryView,
    j: int,
    data: Result<Seq<Seq<u8>>, GalaxError>,
    validity: Result<Seq<Seq<u8>>, GalaxError>,
) -> bool {
    &&& column_reads(b, 3 + 2 * query.projection[j], data)
    &&& column_reads(b, 4 + 2 * query.projection[j], validity)
}

/// Whether reading the cells of a block can have come to this.
pub open spec fn cells_read(b: BlockView, query: QueryView, cells: Option<CellColumns>) -> bool {
    if !is_columnar(b, query) || pruned(b, query) {
        cells is None
    } else {
        match cells {
            Some(columns) => {
                &&& columns.data.len() == query.projection.len()
                &&& columns.validity.len() == query.projection.len()
                &&& forall|j: int|
                    0 <= j < query.projection.len() ==> #[trigger] cell_reads(
                        b,
                        query,
                        j,
                        Ok(columns.data[j]),
                        Ok(columns.validity[j]),
                    )
            },
            None => exists|
                j: int,
                data: Result<Seq<Seq<u8>>, GalaxError>,
                validity: Result<Seq<Seq<u8>>, GalaxError>,
            |
                0 <= j < query.projection.len() && #[trigger] cell_reads(
                    b,
                    query,
                    j,
                    data,
                    validity,
                ) && !(data is Ok && validity is Ok),
        }
    }
}

/// Whether reading a block can have come to this.
pub open spec fn columnar_read(b: BlockView, query: QueryView, read: ColumnarRead) -> bool {
    &&& columns_read(b, read.base)
    &&& read.base.keys is Ok && read.base.values is Ok ==> cells_read(b, query, read.cells)
}

/// The cell of a row in a pair of columns.
pub open spec fn cell_at(data: Seq<Seq<u8>>, validity: Seq<Seq<u8>>, row: int) -> Option<Seq<u8>> {
    if row < validity.len() && marks_valid(validity[row]) && row < data.len() {
        Some(data[row])
    } else {
        None
    }
}

/// The cells of a row in the columns wanted.
pub open spec fn cells_at(columns: CellColumns, row: int) -> Seq<Option<Seq<u8>>> {
    Seq::new(
        columns.data.len(),
        |j: int| cell_at(columns.data[j], columns.validity[j], row),
    )
}

/// The cells wanted out of all cells of a row.
pub open spec fn projected(cells: Seq<Option<Seq<u8>>>, projection: Seq<usize>) -> Seq<
    Option<Seq<u8>>,
> {
    Seq::new(
        projection.len(),
        |j: int|
            if projection[j] < cells.len() {
                cells[projection[j] as int]
            } else {
                None
            },
    )
}

/// What a row of a block says to a scan, `None` if nothing: it is of another
/// table, not visible, or cannot be split.
pub open spec fn staged_row<S: RowColumnSplitter>(
    b: BlockView,
    query: QueryView,
    splitter: S,
    read: ColumnarRead,
    row: int,
) -> Option<Stamped<StagedView>> {
    let key = read.base.keys->Ok_0[row];
    let values = read.base.values->Ok_0;
    let timestamp = row_stamp(b.header.commit_timestamp, timestamps_read(read.base), row);
    if !query.prefix.is_prefix_of(key) || timestamp > query.read_ts {
        None
    } else if row >= values.len() || values[row].len() == 0 {
        Some(Stamped { key, timestamp, value: StagedView::Tombstone })
    } else if pruned(b, query) {
        Some(Stamped { key, timestamp, value: StagedView::Excluded })
    } else {
        match read.cells {
            Some(columns) => Some(
                Stamped { key, timestamp, value: StagedView::Cells(cells_at(columns, row)) },
            ),
            None => match splitter.cells(values[row]) {
                Some(cells) => Some(
                    Stamped {
                        key,
                        timestamp,
                        value: StagedView::Cells(projected(cells, query.projection)),
                    },
                ),
                None => None,
            },
        }
    }
}

/// What the first `n` rows of a block say to a scan.
pub open spec fn staged_rows<S: RowColumnSplitter>(
    b: BlockView,
    query: QueryView,
    splitter: S,
    read: ColumnarRead,
    n: int,
) -> Seq<Stamped<StagedView>>
    decreases n,
{
    if n <= 0 {
        Seq::<Stamped<StagedView>>::empty()
    } else {
        let before = staged_rows(b, query, splitter, read, n - 1);
        match staged_row(b, query, splitter, read, n - 1) {
            Some(version) => before.push(version),
            None => before,
        }
    }
}

/// What the rows of a block say to a scan, nothing if its keys or values could
/// not be read.
pub open spec fn staged_block<S: RowColumnSplitter>(
    b: BlockView,
    query: QueryView,
    splitter: S,
    read: ColumnarRead,
) -> Seq<Stamped<StagedView>> {
    if read.base.keys is Ok && read.base.values is Ok {
        staged_rows(b, query, splitter, read, read.base.keys->Ok_0.len() as int)
    } else {
        Seq::<Stamped<StagedView>>::empty()
    }
}

/// What the blocks of a file say to a scan.
pub open spec fn staged_file<S: RowColumnSplitter>(
    data: Seq<u8>,
    entries: Seq<BlockIndexEntry>,
    query: QueryView,
    splitter: S,
    reads: Seq<ColumnarRead>,
) -> Seq<Stamped<StagedView>>
    decreases entries.len(),
{
    if entries.len() == 0 {
        Seq::<Stamped<StagedView>>::empty()
    } else {
        let before = staged_file(data, entries.drop_last(), query, splitter, reads.drop_last());
        match entry_block(data, entries.last()) {
            Some(b) => before + staged_block(b, query, splitter, reads.last()),
            None => before,
        }
    }
}

/// Whether reading the blocks of a file can have come to this.
pub open spec fn columnar_file_read(
    data: Seq<u8>,
    entries: Seq<BlockIndexEntry>,
    query: QueryView,
    reads: Seq<ColumnarRead>,
) -> bool {
    &&& reads.len() == entries.len()
    &&& forall|i: int|
        0 <= i < entries.len() ==> (entry_block(data, #[trigger] entries[i]) matches Some(b)
            ==> columnar_read(b, query, reads[i]))
}

/// What the first `n` files say to a scan.
pub open spec fn staged_files<S: RowColumnSplitter>(
    files: Seq<SstEntry>,
    contents: Seq<Option<Vec<u8>>>,
    query: QueryView,
    splitter: S,
    reads: Seq<Seq<ColumnarRead>>,
    n: int,
) -> Seq<Stamped<StagedView>>
    decreases n,
{
    if n <= 0 {
        Seq::<Stamped<StagedView>>::empty()
    } else {
        let before = staged_files(files, contents, query, splitter, reads, n - 1);
        match content_of(contents, n - 1) {
            Some(data) => before + staged_file(
                data,
                files[n - 1]@.blocks,
                query,
                splitter,
                reads[n - 1],
            ),
            None => before,
        }
    }
}

/// Whether reading the blocks of the files can have come to this.
pub open spec fn columnar_files_read(
    files: Seq<SstEntry>,
    contents: Seq<Option<Vec<u8>>>,
    query: QueryView,
    reads: Seq<Seq<ColumnarRead>>,
) -> bool {
    &&& reads.len() == files.len()
    &&& forall|i: int|
        0 <= i < files.len() ==> (content_of(contents, i) matches Some(data)
            ==> columnar_file_read(data, (#[trigger] files[i])@.blocks, query, reads[i]))
}

/// What a visible version in the memtable says to a scan.
pub open spec fn staged_version<S: RowColumnSplitter>(
    query: QueryView,
    splitter: S,
    version: RowView,
) -> Option<Stamped<StagedView>> {
    if !query.prefix.is_prefix_of(version.key) {
        None
    } else {
        match version.value {
            Some(value) => match splitter.cells(value) {
                Some(cells) => Some(
                    Stamped {
                        key: version.key,
                        timestamp: version.timestamp,
                        value: StagedView::Cells(projected(cells, query.projection)),
                    },
                ),
                None => None,
            },
            None => Some(
                Stamped {
                    key: version.key,
                    timestamp: version.timestamp,
                    value: StagedView::Tombstone,
                },
            ),
        }
    }
}

/// What visible versions in the memtable say to a scan.
pub open spec fn staged_versions<S: RowColumnSplitter>(
    query: QueryView,
    splitter: S,
    versions: Seq<RowView>,
) -> Seq<Stamped<StagedView>>
    decreases versions.len(),
{
    if versions.len() == 0 {
        Seq::<Stamped<StagedView>>::empty()
    } else {
        let before = staged_versions(query, splitter, versions.drop_last());
        match staged_version(query, splitter, versions.last()) {
            Some(version) => before.push(version),
            None => before,
        }
    }
}

// Reading blocks

impl<'a> Query<'a> {
    fn is_columnar(&self, block: &PaxBlock) -> (result: bool)
        ensures
            result == is_columnar(block@, self@),
    {
        let n: usize = self.types.len();
        n <= 32766 && block.header.column_count as usize == 3 + 2 * n
    }

    fn excluded_by(&self, block: &PaxBlock, predicate: &ColumnPredicate) -> (result: bool)
        requires
            is_columnar(block@, self@),
        ensures
            result == excludes(block@, self@, predicate@),
    {
        if predicate.column >= self.types.len() {
            return false;
        }
        let column: usize = data_column_index(predicate.column);
        if column >= block.header.column_descriptors.len() {
            return false;
        }
        let descriptor = &block.header.column_descriptors[column];
        assert(block@.header.descriptors[column as int] == descriptor@);
        !zone_map_can_match(
            &self.types[predicate.column],
            descriptor.zone_map_min.as_slice(),
            descriptor.zone_map_max.as_slice(),
            predicate.op,
            predicate.value.as_slice(),
        )
    }

    fn prunes(&self, block: &PaxBlock) -> (result: bool)
        ensures
            result == pruned(block@, self@),
    {
        if !self.is_columnar(block) {
            return false;
        }
        let mut i: usize = 0;
        while i < self.predicates.len()
            invariant
                i <= self.predicates@.len(),
                is_columnar(block@, self@),
                forall|k: int|
                    0 <= k < i ==> !excludes(block@, self@, #[trigger] self@.predicates[k]),
            decreases self.predicates@.len() - i,
        {
            assert(self@.predicates[i as int] == self.predicates@[i as int]@);
            if self.excluded_by(block, &self.predicates[i]) {
                assert(excludes(block@, self@, self@.predicates[i as int]));
                return true;
            }
            i = i + 1;
        }
        false
    }

    fn project(&self, cells: &Vec<Option<Vec<u8>>>) -> (result: Vec<Option<Vec<u8>>>)
        ensures
            cell_views(result@) == projected(cell_views(cells@), self@.projection),
    {
        let mut result: Vec<Option<Vec<u8>>> = Vec::new();
        let ghost expected = projected(cell_views(cells@), self@.projection);
        let mut j: usize = 0;
        while j < self.projection.len()
            invariant
                j <= self.projection@.len(),
                expected == projected(cell_views(cells@), self@.projection),
                result@.len() == j,
                forall|k: int| 0 <= k < j ==> value_view(#[trigger] result@[k]) == expected[k],
            decreases self.projection@.len() - j,
        {
            let c: usize = self.projection[j];
            let cell: Option<Vec<u8>> = if c < cells.len() { copy_value(&cells[c]) } else { None };
            assert(value_view(cell) == expected[j as int]);
            result.push(cell);
            j = j + 1;
        }
        assert(cell_views(result@) =~= expected);
        result
    }
}

/// The data and validity columns of the columns wanted.
struct CellData {
    data: Vec<Vec<Vec<u8>>>,
    validity: Vec<Vec<Vec<u8>>>,
}

/// The bytes of columns.
pub open spec fn column_lists(columns: Seq<Vec<Vec<u8>>>) -> Seq<Seq<Seq<u8>>> {
    Seq::new(columns.len(), |j: int| views(columns[j]@))
}

impl View for CellData {
    type V = CellColumns;

    closed spec fn view(&self) -> CellColumns {
        CellColumns { data: column_lists(self.data@), validity: column_lists(self.validity@) }
    }
}

/// What was read of the cells of a block.
spec fn cell_option(cells: Option<CellData>) -> Option<CellColumns> {
    match cells {
        Some(columns) => Some(columns@),
        None => None,
    }
}

/// Reads the columns wanted of a block, `None` if it has none, is pruned, or
/// one of them cannot be read.
fn read_cells<'a>(query: &Query<'a>, block: &PaxBlock) -> (cells: Option<CellData>)
    requires
        projects(query@),
    ensures
        cells_read(block@, query@, cell_option(cells)),
{
    if !query.is_columnar(block) || query.prunes(block) {
        return None;
    }
    let mut data: Vec<Vec<Vec<u8>>> = Vec::new();
    let mut validity: Vec<Vec<Vec<u8>>> = Vec::new();
    let mut j: usize = 0;
    while j < query.projection.len()
        invariant
            j <= query.projection@.len(),
            projects(query@),
            is_columnar(block@, query@),
            !pruned(block@, query@),
            data@.len() == j,
            validity@.len() == j,
            forall|k: int|
                0 <= k < j ==> #[trigger] cell_reads(
                    block@,
                    query@,
                    k,
                    Ok(views(data@[k]@)),
                    Ok(views(validity@[k]@)),
                ),
        decreases query.projection@.len() - j,
    {
        let c: usize = query.projection[j];
        assert(query@.projection[j as int] < query@.types.len());
        let data_result = block.read_column(data_column_index(c));
        let validity_result = block.read_column(validity_column_index(c));
        let ghost data_outcome = rows_result(data_result);
        let ghost validity_outcome = rows_result(validity_result);
        assert(cell_reads(block@, query@, j as int, data_outcome, validity_outcome));
        match data_result {
            Ok(d) => match validity_result {
                Ok(v) => {
                    let ghost data_before = data@;
                    let ghost validity_before = validity@;
                    data.push(d);
                    validity.push(v);
                    proof {
                        assert forall|k: int| 0 <= k < j + 1 implies #[trigger] cell_reads(
                            block@,
                            query@,
                            k,
                            Ok(views(data@[k]@)),
                            Ok(views(validity@[k]@)),
                        ) by {
                            if k < j {
                                assert(data@[k] == data_before[k]);
                                assert(validity@[k] == validity_before[k]);
                                assert(cell_reads(
                                    block@,
                                    query@,
                                    k,
                                    Ok(views(data_before[k]@)),
                                    Ok(views(validity_before[k]@)),
                                ));
                            }
                        }
                    }
                },
                Err(_) => {
                    return None;
                },
            },
            Err(_) => {
                return None;
            },
        }
        j = j + 1;
    }
    let cells = CellData { data, validity };
    proof {
        let columns = cells@;
        assert forall|k: int| 0 <= k < query@.projection.len() implies #[trigger] cell_reads(
            block@,
            query@,
            k,
            Ok(columns.data[k]),
            Ok(columns.validity[k]),
        ) by {
            assert(cell_reads(
                block@,
                query@,
                k,
                Ok(views(cells.data@[k]@)),
                Ok(views(cells.validity@[k]@)),
            ));
        }
    }
    Some(cells)
}

/// The cells of a row in the columns wanted.
fn row_cells(cells: &CellData, row: usize) -> (result: Vec<Option<Vec<u8>>>)
    requires
        cells@.data.len() == cells@.validity.len(),
    ensures
        cell_views(result@) == cells_at(cells@, row as int),
{
    let ghost expected = cells_at(cells@, row as int);
    let mut result: Vec<Option<Vec<u8>>> = Vec::new();
    let mut j: usize = 0;
    while j < cells.data.len()
        invariant
            j <= cells.data@.len(),
            cells.data@.len() == cells.validity@.len(),
            expected == cells_at(cells@, row as int),
            result@.len() == j,
            forall|k: int| 0 <= k < j ==> value_view(#[trigger] result@[k]) == expected[k],
        decreases cells.data@.len() - j,
    {
        let data = &cells.data[j];
        let validity = &cells.validity[j];
        assert(cells@.data[j as int] == views(data@));
        assert(cells@.validity[j as int] == views(validity@));
        let cell: Option<Vec<u8>> = if row < validity.len() && is_valid_marker(
            validity[row].as_slice(),
        ) && row < data.len() {
            Some(slice_to_vec(data[row].as_slice()))
        } else {
            None
        };
        assert(value_view(cell) == expected[j as int]);
        result.push(cell);
        j = j + 1;
    }
    assert(cell_views(result@) =~= expected);
    result
}

/// Stages the rows of a block.
fn stage_block<'a, S: RowColumnSplitter>(
    query: &Query<'a>,
    splitter: &S,
    block: &PaxBlock,
    out: &mut Vec<Candidate<Staged>>,
) -> (read: Ghost<ColumnarRead>)
    requires
        projects(query@),
    ensures
        columnar_read(block@, query@, read@),
        stamps(final(out)@) == stamps(old(out)@) + staged_block(
            block@,
            query@,
            *splitter,
            read@,
        ),
{
    let ghost start = stamps(out@);
    let header_ts: u64 = block.header.commit_timestamp;
    let keys_result = block.read_column(0);
    let values_result = block.read_column(1);
    let (timestamps, Ghost(stamps_outcome)) = read_timestamps(block);
    let ghost base = ColumnsRead {
        keys: rows_result(keys_result),
        values: rows_result(values_result),
        timestamps: stamps_outcome,
    };
    assert(column_option(timestamps) == timestamps_read(base));
    let keys = match keys_result {
        Ok(keys) => keys,
        Err(_) => {
            assert(stamps(out@) =~= start + Seq::<Stamped<StagedView>>::empty());
            return Ghost(ColumnarRead { base, cells: None });
        },
    };
    let values = match values_result {
        Ok(values) => values,
        Err(_) => {
            assert(stamps(out@) =~= start + Seq::<Stamped<StagedView>>::empty());
            return Ghost(ColumnarRead { base, cells: None });
        },
    };
    let prune: bool = query.prunes(block);
    let cells = read_cells(query, block);
    let ghost read = ColumnarRead { base, cells: cell_option(cells) };
    let mut i: usize = 0;
    assert(stamps(out@) =~= start + staged_rows(block@, query@, *splitter, read, 0));
    while i < keys.len()
        invariant
            i <= keys@.len(),
            prune == pruned(block@, query@),
            header_ts == block@.header.commit_timestamp,
            read.base.keys == Ok::<Seq<Seq<u8>>, GalaxError>(views(keys@)),
            read.base.values == Ok::<Seq<Seq<u8>>, GalaxError>(views(values@)),
            column_option(timestamps) == timestamps_read(read.base),
            read.cells == cell_option(cells),
            cells matches Some(columns) ==> columns@.data.len() == columns@.validity.len(),
            stamps(out@) == start + staged_rows(block@, query@, *splitter, read, i as int),
        decreases keys@.len() - i,
    {
        let ghost before = out@;
        let key: &Vec<u8> = &keys[i];
        let timestamp: u64 = stamp_of_row(header_ts, &timestamps, i);
        assert(views(keys@)[i as int] == key@);
        let mut staged: Option<Staged> = None;
        if starts_with(key.as_slice(), query.prefix) && timestamp <= query.read_ts {
            if i >= values.len() || values[i].len() == 0 {
                staged = Some(Staged::Tombstone);
            } else if prune {
                staged = Some(Staged::Excluded);
            } else {
                match &cells {
                    Some(columns) => {
                        staged = Some(Staged::Cells(row_cells(columns, i)));
                    },
                    None => {
                        match splitter.split(values[i].as_slice()) {
                            Some(full) => {
                                staged = Some(Staged::Cells(query.project(&full)));
                            },
                            None => {},
                        }
                    },
                }
            }
        }
        match staged {
            Some(value) => {
                out.push(
                    Candidate { key: slice_to_vec(key.as_slice()), timestamp, value },
                );
                assert(stamps(out@) =~= stamps(before).push(out@[before.len() as int]@));
                assert(staged_row(block@, query@, *splitter, read, i as int) == Some(
                    out@[before.len() as int]@,
                ));
            },
            None => {
                assert(staged_row(block@, query@, *splitter, read, i as int) is None);
            },
        }
        assert(stamps(out@) =~= start + staged_rows(block@, query@, *splitter, read, i + 1));
        i = i + 1;
    }
    Ghost(read)
}

/// Stages the rows of a file.
fn stage_file<'a, S: RowColumnSplitter>(
    query: &Query<'a>,
    splitter: &S,
    data: &[u8],
    index: &SstBlockIndex,
    out: &mut Vec<Candidate<Staged>>,
) -> (reads: Ghost<Seq<ColumnarRead>>)
    requires
        projects(query@),
    ensures
        columnar_file_read(data@, index.entries@, query@, reads@),
        stamps(final(out)@) == stamps(old(out)@) + staged_file(
            data@,
            index.entries@,
            query@,
            *splitter,
            reads@,
        ),
{
    let ghost start = stamps(out@);
    let ghost entries = index.entries@;
    let ghost mut reads = Seq::<ColumnarRead>::empty();
    let mut i: usize = 0;
    assert(entries.take(0) =~= Seq::<BlockIndexEntry>::empty());
    assert(stamps(out@) =~= start + staged_file(
        data@,
        entries.take(0),
        query@,
        *splitter,
        reads,
    ));
    while i < index.entries.len()
        invariant
            i <= entries.len(),
            entries == index.entries@,
            projects(query@),
            columnar_file_read(data@, entries.take(i as int), query@, reads),
            stamps(out@) == start + staged_file(
                data@,
                entries.take(i as int),
                query@,
                *splitter,
                reads,
            ),
        decreases entries.len() - i,
    {
        let entry = &index.entries[i];
        let ghost before = reads;
        let ghost mut read = arbitrary::<ColumnarRead>();
        match read_entry(data, entry) {
            Some(block) => {
                let Ghost(outcome) = stage_block(query, splitter, &block, out);
                proof {
                    read = outcome;
                }
            },
            None => {},
        }
        proof {
            reads = reads.push(read);
            let next = entries.take(i + 1);
            assert(next.drop_last() =~= entries.take(i as int));
            assert(reads.drop_last() =~= before);
            assert(stamps(out@) =~= start + staged_file(data@, next, query@, *splitter, reads));
            assert forall|k: int| 0 <= k < next.len() implies (entry_block(
                data@,
                #[trigger] next[k],
            ) matches Some(b) ==> columnar_read(b, query@, reads[k])) by {
                if k < i {
                    assert(entries.take(i as int)[k] == next[k]);
                }
            }
        }
        i = i + 1;
    }
    assert(entries.take(i as int) =~= entries);
    Ghost(reads)
}

proof fn lemma_staged_files_local<S: RowColumnSplitter>(
    files: Seq<SstEntry>,
    contents: Seq<Option<Vec<u8>>>,
    query: QueryView,
    splitter: S,
    a: Seq<Seq<ColumnarRead>>,
    b: Seq<Seq<ColumnarRead>>,
    n: int,
)
    requires
        forall|i: int| 0 <= i < n ==> a[i] == b[i],
    ensures
        staged_files(files, contents, query, splitter, a, n) == staged_files(
            files,
            contents,
            query,
            splitter,
            b,
            n,
        ),
    decreases n,
{
    if n > 0 {
        lemma_staged_files_local(files, contents, query, splitter, a, b, n - 1);
    }
}

/// Stages the rows of all files.
fn stage_files<'a, S: RowColumnSplitter>(
    query: &Query<'a>,
    splitter: &S,
    registry: &SstRegistry,
    contents: &[Option<Vec<u8>>],
) -> (result: (Vec<Candidate<Staged>>, Ghost<Seq<Seq<ColumnarRead>>>))
    requires
        projects(query@),
    ensures
        columnar_files_read(registry.list(), contents@, query@, result.1@),
        stamps(result.0@) == staged_files(
            registry.list(),
            contents@,
            query@,
            *splitter,
            result.1@,
            registry.list().len() as int,
        ),
{
    let ghost files = registry.list();
    let ghost mut reads = Seq::<Seq<ColumnarRead>>::empty();
    let mut out: Vec<Candidate<Staged>> = Vec::new();
    let n: usize = registry.len();
    let mut i: usize = 0;
    assert(stamps(out@) =~= Seq::<Stamped<StagedView>>::empty());
    while i < n
        invariant
            i <= n,
            n == files.len(),
            files == registry.list(),
            projects(query@),
            reads.len() == i,
            forall|j: int|
                0 <= j < i ==> (content_of(contents@, j) matches Some(data)
                    ==> columnar_file_read(
                    data,
                    (#[trigger] files[j])@.blocks,
                    query@,
                    reads[j],
                )),
            stamps(out@) == staged_files(files, contents@, query@, *splitter, reads, i as int),
        decreases n - i,
    {
        let entry = registry.entry(i);
        let ghost before = reads;
        let ghost mut outcome = Seq::<ColumnarRead>::empty();
        if i < contents.len() {
            match &contents[i] {
                Some(data) => {
                    let Ghost(file_reads) = stage_file(
                        query,
                        splitter,
                        data.as_slice(),
                        &entry.block_index,
                        &mut out,
                    );
                    proof {
                        outcome = file_reads;
                    }
                },
                None => {},
            }
        }
        proof {
            reads = reads.push(outcome);
            lemma_staged_files_local(
                files,
                contents@,
                query@,
                *splitter,
                before,
                reads,
                i as int,
            );
        }
        i = i + 1;
    }
    (out, Ghost(reads))
}

/// Stages versions of the memtable.
fn stage_versions<'a, S: RowColumnSplitter>(
    query: &Query<'a>,
    splitter: &S,
    versions: Vec<Row>,
    out: &mut Vec<Candidate<Staged>>,
)
    ensures
        stamps(final(out)@) == stamps(old(out)@) + staged_versions(
            query@,
            *splitter,
            stamps(versions@),
        ),
{
    let ghost start = stamps(out@);
    let ghost all = versions@;
    let ghost rows = stamps(all);
    assert(rows.take(0) =~= Seq::<RowView>::empty());
    assert(stamps(out@) =~= start + staged_versions(query@, *splitter, rows.take(0)));
    for version in iter: versions
        invariant
            iter.seq() == all,
            rows == stamps(all),
            stamps(out@) == start + staged_versions(query@, *splitter, rows.take(iter.index())),
    {
        let ghost i = iter.index();
        let ghost before = out@;
        proof {
            assert(rows.take(i + 1).drop_last() =~= rows.take(i));
            assert(rows.take(i + 1).last() == version@);
        }
        let ghost view = version@;
        let Candidate { key, timestamp, value } = version;
        if starts_with(key.as_slice(), query.prefix) {
            let staged: Option<Staged> = match value {
                Some(bytes) => match splitter.split(bytes.as_slice()) {
                    Some(full) => Some(Staged::Cells(query.project(&full))),
                    None => None,
                },
                None => Some(Staged::Tombstone),
            };
            match staged {
                Some(value) => {
                    out.push(Candidate { key, timestamp, value });
                    assert(stamps(out@) =~= stamps(before).push(out@[before.len() as int]@));
                    assert(staged_version(query@, *splitter, view) == Some(
                        out@[before.len() as int]@,
                    ));
                },
                None => {},
            }
        }
        assert(stamps(out@) =~= start + staged_versions(query@, *splitter, rows.take(i + 1)));
    }
    assert(rows.take(all.len() as int) =~= rows);
}

// The scan

/// The versions with cells.
pub open spec fn with_cells(versions: Seq<Stamped<StagedView>>) -> Seq<Seq<Option<Seq<u8>>>>
    decreases versions.len(),
{
    if versions.len() == 0 {
        Seq::<Seq<Option<Seq<u8>>>>::empty()
    } else {
        let before = with_cells(versions.drop_last());
        match versions.last().value {
            StagedView::Cells(cells) => before.push(cells),
            _ => before,
        }
    }
}

/// Whether a batch holds these rows, column by column.
pub open spec fn batch_holds(
    batch: ColumnarBatch,
    types: Seq<ColumnType>,
    projection: Seq<usize>,
    rows: Seq<Seq<Option<Seq<u8>>>>,
) -> bool {
    &&& batch.num_rows == rows.len()
    &&& batch.columns@.len() == projection.len()
    &&& forall|j: int|
        0 <= j < projection.len() ==> {
            &&& (#[trigger] batch.columns@[j]).0 == types[projection[j] as int]
            &&& cell_views(batch.columns@[j].1@) == Seq::new(rows.len(), |r: int| rows[r][j])
        }
}

/// The projection that is meant: all columns if none is named.
pub open spec fn meant_projection(projection: Seq<usize>, columns: nat) -> Seq<usize> {
    if projection.len() == 0 {
        Seq::new(columns, |i: int| i as usize)
    } else {
        projection
    }
}

/// Place of the registration with exactly this prefix.
pub open spec fn table_index<S: RowColumnSplitter>(
    registrations: Seq<ColumnarRegistration<S>>,
    prefix: Seq<u8>,
) -> Option<int>
    decreases registrations.len(),
{
    if registrations.len() == 0 {
        None
    } else {
        match table_index(registrations.drop_last(), prefix) {
            Some(i) => Some(i),
            None => if registrations.last().prefix@ == prefix {
                Some(registrations.len() - 1)
            } else {
                None
            },
        }
    }
}

proof fn lemma_table_stays<S: RowColumnSplitter>(
    registrations: Seq<ColumnarRegistration<S>>,
    prefix: Seq<u8>,
    n: int,
)
    requires
        0 <= n <= registrations.len(),
        table_index(registrations.take(n), prefix) is Some,
    ensures
        table_index(registrations, prefix) == table_index(registrations.take(n), prefix),
    decreases registrations.len() - n,
{
    if n == registrations.len() {
        assert(registrations.take(n) =~= registrations);
    } else {
        assert(registrations.take(n + 1).drop_last() =~= registrations.take(n));
        lemma_table_stays(registrations, prefix, n + 1);
    }
}

/// Finds the registration with exactly this prefix.
pub fn find_table<S: RowColumnSplitter>(
    registrations: &[ColumnarRegistration<S>],
    prefix: &[u8],
) -> (position: Option<usize>)
    ensures
        match position {
            Some(i) => table_index(registrations@, prefix@) == Some(i as int) && i
                < registrations@.len(),
            None => table_index(registrations@, prefix@) is None,
        },
{
    let mut i: usize = 0;
    assert(registrations@.take(0) =~= Seq::<ColumnarRegistration<S>>::empty());
    while i < registrations.len()
        invariant
            i <= registrations@.len(),
            table_index(registrations@.take(i as int), prefix@) is None,
        decreases registrations@.len() - i,
    {
        assert(registrations@.take(i + 1).drop_last() =~= registrations@.take(i as int));
        if bytes_equal(registrations[i].prefix.as_slice(), prefix) {
            proof {
                lemma_table_stays(registrations@, prefix@, i + 1);
            }
            return Some(i);
        }
        i = i + 1;
    }
    assert(registrations@.take(i as int) =~= registrations@);
    None
}

/// The first index of a projection that is out of range.
pub open spec fn first_out_of_range(projection: Seq<usize>, columns: nat, j: int) -> bool {
    &&& 0 <= j < projection.len()
    &&& projection[j] >= columns
    &&& forall|k: int| 0 <= k < j ==> #[trigger] projection[k] < columns
}

/// What a scan comes to.
pub open spec fn columnar_scan<S: RowColumnSplitter>(
    files: Seq<SstEntry>,
    contents: Seq<Option<Vec<u8>>>,
    chains: Map<Seq<u8>, Seq<Version>>,
    registrations: Seq<ColumnarRegistration<S>>,
    prefix: Seq<u8>,
    projection: Seq<usize>,
    predicates: Seq<PredicateView>,
    read_ts: u64,
    outcome: GalaxResult<ColumnarBatch>,
) -> bool {
    match table_index(registrations, prefix) {
        None => outcome matches Err(GalaxError::Internal(Fault::NoColumnarTable { prefix: named }))
            && named@ == prefix,
        Some(t) => {
            let splitter = registrations[t].splitter;
            let types = splitter.types();
            let wanted = meant_projection(projection, types.len());
            let query = QueryView { prefix, types, projection: wanted, predicates, read_ts };
            match outcome {
                Err(error) => exists|j: int| #[trigger]
                    first_out_of_range(wanted, types.len(), j) && error == GalaxError::Internal(
                        Fault::ProjectionOutOfRange {
                            index: wanted[j],
                            columns: types.len() as usize,
                        },
                    ),
                Ok(batch) => projects(query) && exists|
                    reads: Seq<Seq<ColumnarRead>>,
                    versions: Seq<RowView>,
                    newest: Seq<Stamped<StagedView>>,
                |
                    #[trigger] scanned(
                        files,
                        contents,
                        chains,
                        query,
                        splitter,
                        reads,
                        versions,
                        newest,
                    ) && batch_holds(batch, types, wanted, with_cells(newest)),
            }
        },
    }
}

/// Whether these are the versions that count, with what was read of the files
/// and of the memtable.
pub open spec fn scanned<S: RowColumnSplitter>(
    files: Seq<SstEntry>,
    contents: Seq<Option<Vec<u8>>>,
    chains: Map<Seq<u8>, Seq<Version>>,
    query: QueryView,
    splitter: S,
    reads: Seq<Seq<ColumnarRead>>,
    versions: Seq<RowView>,
    newest: Seq<Stamped<StagedView>>,
) -> bool {
    &&& columnar_files_read(files, contents, query, reads)
    &&& forall|key: Seq<u8>| #[trigger]
        pick(versions, key) == memtable_visible(chains, query.read_ts, key)
    &&& lists_newest(
        newest,
        staged_files(files, contents, query, splitter, reads, files.len() as int)
            + staged_versions(query, splitter, versions),
    )
}

/// All cells of a version are of the columns wanted.
spec fn cells_fit(versions: Seq<Stamped<StagedView>>, columns: nat) -> bool {
    forall|i: int|
        0 <= i < versions.len() ==> ((#[trigger] versions[i]).value matches StagedView::Cells(cells)
            ==> cells.len() == columns)
}

proof fn lemma_rows_fit<S: RowColumnSplitter>(
    b: BlockView,
    query: QueryView,
    splitter: S,
    read: ColumnarRead,
    n: int,
)
    requires
        read.cells matches Some(columns) ==> columns.data.len() == query.projection.len(),
    ensures
        cells_fit(staged_rows(b, query, splitter, read, n), query.projection.len()),
    decreases n,
{
    if n > 0 {
        lemma_rows_fit(b, query, splitter, read, n - 1);
        let before = staged_rows(b, query, splitter, read, n - 1);
        let after = staged_rows(b, query, splitter, read, n);
        assert forall|i: int| 0 <= i < after.len() implies ((
        #[trigger] after[i]).value matches StagedView::Cells(cells) ==> cells.len()
            == query.projection.len()) by {
            if i < before.len() {
                assert(after[i] == before[i]);
            }
        }
    }
}

proof fn lemma_append_fits(
    a: Seq<Stamped<StagedView>>,
    b: Seq<Stamped<StagedView>>,
    columns: nat,
)
    requires
        cells_fit(a, columns),
        cells_fit(b, columns),
    ensures
        cells_fit(a + b, columns),
{
    assert forall|i: int| 0 <= i < (a + b).len() implies ((
    #[trigger] (a + b)[i]).value matches StagedView::Cells(cells) ==> cells.len() == columns) by {
        if i < a.len() {
            assert((a + b)[i] == a[i]);
        } else {
            assert((a + b)[i] == b[i - a.len()]);
        }
    }
}

proof fn lemma_file_fits<S: RowColumnSplitter>(
    data: Seq<u8>,
    entries: Seq<BlockIndexEntry>,
    query: QueryView,
    splitter: S,
    reads: Seq<ColumnarRead>,
)
    requires
        columnar_file_read(data, entries, query, reads),
    ensures
        cells_fit(staged_file(data, entries, query, splitter, reads), query.projection.len()),
    decreases entries.len(),
{
    if entries.len() > 0 {
        let front = entries.drop_last();
        assert forall|i: int| 0 <= i < front.len() implies (entry_block(
            data,
            #[trigger] front[i],
        ) matches Some(b) ==> columnar_read(b, query, reads.drop_last()[i])) by {
            assert(front[i] == entries[i]);
        }
        lemma_file_fits(data, front, query, splitter, reads.drop_last());
        let last = entries.len() - 1;
        match entry_block(data, entries[last]) {
            Some(b) => {
                let read = reads[last];
                assert(columnar_read(b, query, read));
                if read.base.keys is Ok && read.base.values is Ok {
                    lemma_rows_fit(
                        b,
                        query,
                        splitter,
                        read,
                        read.base.keys->Ok_0.len() as int,
                    );
                }
                lemma_append_fits(
                    staged_file(data, front, query, splitter, reads.drop_last()),
                    staged_block(b, query, splitter, read),
                    query.projection.len(),
                );
            },
            None => {},
        }
    }
}

proof fn lemma_files_fit<S: RowColumnSplitter>(
    files: Seq<SstEntry>,
    contents: Seq<Option<Vec<u8>>>,
    query: QueryView,
    splitter: S,
    reads: Seq<Seq<ColumnarRead>>,
    n: int,
)
    requires
        columnar_files_read(files, contents, query, reads),
        n <= files.len(),
    ensures
        cells_fit(
            staged_files(files, contents, query, splitter, reads, n),
            query.projection.len(),
        ),
    decreases n,
{
    if n > 0 {
        lemma_files_fit(files, contents, query, splitter, reads, n - 1);
        match content_of(contents, n - 1) {
            Some(data) => {
                let file = files[n - 1];
                assert(columnar_file_read(data, file@.blocks, query, reads[n - 1]));
                lemma_file_fits(data, file@.blocks, query, splitter, reads[n - 1]);
                lemma_append_fits(
                    staged_files(files, contents, query, splitter, reads, n - 1),
                    staged_file(data, file@.blocks, query, splitter, reads[n - 1]),
                    query.projection.len(),
                );
            },
            None => {},
        }
    }
}

proof fn lemma_versions_fit<S: RowColumnSplitter>(
    query: QueryView,
    splitter: S,
    versions: Seq<RowView>,
)
    ensures
        cells_fit(staged_versions(query, splitter, versions), query.projection.len()),
    decreases versions.len(),
{
    if versions.len() > 0 {
        let before = staged_versions(query, splitter, versions.drop_last());
        let after = staged_versions(query, splitter, versions);
        lemma_versions_fit(query, splitter, versions.drop_last());
        assert forall|i: int| 0 <= i < after.len() implies ((
        #[trigger] after[i]).value matches StagedView::Cells(cells) ==> cells.len()
            == query.projection.len()) by {
            if i < before.len() {
                assert(after[i] == before[i]);
            }
        }
    }
}

proof fn lemma_newest_fit(
    newest: Seq<Stamped<StagedView>>,
    versions: Seq<Stamped<StagedView>>,
    columns: nat,
)
    requires
        lists_newest(newest, versions),
        cells_fit(versions, columns),
    ensures
        cells_fit(newest, columns),
{
    assert forall|i: int| 0 <= i < newest.len() implies ((
    #[trigger] newest[i]).value matches StagedView::Cells(cells) ==> cells.len() == columns) by {
        let key = newest[i].key;
        crate::engine::newest::lemma_pick_wins(versions, key);
        let j = choose|j: int| #[trigger]
            crate::engine::newest::wins(versions, j) && versions[j] == newest[i];
        assert(versions[j].value == newest[i].value);
    }
}

/// Puts rows together column by column.
fn assemble(newest: Vec<Candidate<Staged>>, types: &Vec<ColumnType>, projection: &Vec<usize>) -> (batch:
    ColumnarBatch)
    requires
        forall|j: int| 0 <= j < projection@.len() ==> #[trigger] projection@[j] < types@.len(),
        cells_fit(stamps(newest@), projection@.len()),
    ensures
        batch_holds(batch, types@, projection@, with_cells(stamps(newest@))),
{
    let ghost all = newest@;
    let ghost versions = stamps(all);
    let mut columns: Vec<(ColumnType, Vec<Option<Vec<u8>>>)> = Vec::new();
    let mut j: usize = 0;
    while j < projection.len()
        invariant
            j <= projection@.len(),
            forall|k: int| 0 <= k < projection@.len() ==> #[trigger] projection@[k] < types@.len(),
            columns@.len() == j,
            forall|k: int|
                0 <= k < j ==> (#[trigger] columns@[k]).0 == types@[projection@[k] as int]
                    && columns@[k].1@.len() == 0,
        decreases projection@.len() - j,
    {
        assert(projection@[j as int] < types@.len());
        let cells: Vec<Option<Vec<u8>>> = Vec::new();
        columns.push((types[projection[j]], cells));
        j = j + 1;
    }
    let mut num_rows: usize = 0;
    let total: usize = newest.len();
    assert(versions.take(0) =~= Seq::<Stamped<StagedView>>::empty());
    proof {
        assert forall|k: int| 0 <= k < projection@.len() implies cell_views(
            (#[trigger] columns@[k]).1@,
        ) == Seq::new(0, |r: int| with_cells(versions.take(0))[r][k]) by {
            assert(cell_views(columns@[k].1@) =~= Seq::new(
                0,
                |r: int| with_cells(versions.take(0))[r][k],
            ));
        }
    }
    for version in iter: newest
        invariant
            iter.seq() == all,
            total == all.len(),
            versions == stamps(all),
            cells_fit(versions, projection@.len()),
            num_rows <= iter.index(),
            num_rows == with_cells(versions.take(iter.index())).len(),
            columns@.len() == projection@.len(),
            forall|k: int|
                0 <= k < projection@.len() ==> {
                    &&& (#[trigger] columns@[k]).0 == types@[projection@[k] as int]
                    &&& cell_views(columns@[k].1@) == Seq::new(
                        num_rows as nat,
                        |r: int| with_cells(versions.take(iter.index()))[r][k],
                    )
                },
    {
        let ghost i = iter.index();
        let ghost before = with_cells(versions.take(i));
        proof {
            assert(versions.take(i + 1).drop_last() =~= versions.take(i));
            assert(versions.take(i + 1).last() == version@);
            assert(versions[i] == version@);
        }
        match version.value {
            Staged::Cells(cells) => {
                let ghost row = cell_views(cells@);
                let ghost columns_before = columns@;
                let ghost after = with_cells(versions.take(i + 1));
                assert(after == before.push(row));
                assert(cells@.len() == projection@.len());
                let ghost given = cells@;
                let width: usize = cells.len();
                let mut k: usize = 0;
                for cell in cell_iter: cells
                    invariant
                        cell_iter.seq() == given,
                        width == given.len(),
                        row == cell_views(given),
                        given.len() == projection@.len(),
                        k == cell_iter.index(),
                        columns@.len() == projection@.len(),
                        columns_before.len() == projection@.len(),
                        forall|c: int|
                            0 <= c < columns@.len() ==> (#[trigger] columns@[c]).0
                                == columns_before[c].0,
                        forall|c: int|
                            0 <= c < k ==> cell_views((#[trigger] columns@[c]).1@) == cell_views(
                                columns_before[c].1@,
                            ).push(row[c]),
                        forall|c: int|
                            k <= c < columns@.len() ==> (#[trigger] columns@[c]).1
                                == columns_before[c].1,
                {
                    let ghost seen = columns@[k as int].1@;
                    let ghost pushed = value_view(cell);
                    let column = &mut columns[k];
                    column.1.push(cell);
                    assert(cell_views(columns@[k as int].1@) =~= cell_views(seen).push(pushed));
                    k = k + 1;
                }
                num_rows = num_rows + 1;
                proof {
                    assert forall|c: int| 0 <= c < projection@.len() implies {
                        &&& (#[trigger] columns@[c]).0 == types@[projection@[c] as int]
                        &&& cell_views(columns@[c].1@) == Seq::new(
                            num_rows as nat,
                            |r: int| after[r][c],
                        )
                    } by {
                        assert(columns_before[c].0 == types@[projection@[c] as int]);
                        assert(cell_views(columns@[c].1@) =~= Seq::new(
                            num_rows as nat,
                            |r: int| after[r][c],
                        ));
                    }
                }
            },
            _ => {},
        }
    }
    assert(versions.take(all.len() as int) =~= versions);
    ColumnarBatch { num_rows, columns }
}

/// Scans a table that is stored by column: the wanted cells of every row that
/// is live at `read_ts`, in the order of the keys. No projection means all
/// columns. Predicates serve to skip blocks only: rows that fail them can
/// still come out.
pub fn scan_columnar<S: RowColumnSplitter>(
    registry: &SstRegistry,
    contents: &[Option<Vec<u8>>],
    active: &Memtable,
    registrations: &[ColumnarRegistration<S>],
    prefix: &[u8],
    projection: &[usize],
    predicates: &[ColumnPredicate],
    read_ts: Timestamp,
) -> (result: GalaxResult<ColumnarBatch>)
    requires
        active.inv(),
    ensures
        columnar_scan(
            registry.list(),
            contents@,
            active@,
            registrations@,
            prefix@,
            projection@,
            predicate_views(predicates@),
            read_ts,
            result,
        ),
{
    let table: usize = match find_table(registrations, prefix) {
        Some(i) => i,
        None => {
            return Err(
                GalaxError::Internal(Fault::NoColumnarTable { prefix: slice_to_vec(prefix) }),
            );
        },
    };
    let splitter = &registrations[table].splitter;
    let types = splitter.column_types();
    let n: usize = types.len();
    let mut wanted: Vec<usize> = Vec::new();
    if projection.len() == 0 {
        let mut i: usize = 0;
        while i < n
            invariant
                i <= n,
                wanted@ == Seq::new(i as nat, |k: int| k as usize),
            decreases n - i,
        {
            wanted.push(i);
            i = i + 1;
            assert(wanted@ =~= Seq::new(i as nat, |k: int| k as usize));
        }
    } else {
        wanted = slice_to_vec(projection);
    }
    assert(wanted@ =~= meant_projection(projection@, n as nat));
    let mut j: usize = 0;
    while j < wanted.len()
        invariant
            j <= wanted@.len(),
            n == types@.len(),
            types@ == splitter.types(),
            *splitter == registrations@[table as int].splitter,
            table_index(registrations@, prefix@) == Some(table as int),
            wanted@ == meant_projection(projection@, n as nat),
            forall|k: int| 0 <= k < j ==> #[trigger] wanted@[k] < n,
        decreases wanted@.len() - j,
    {
        if wanted[j] >= n {
            assert(first_out_of_range(wanted@, n as nat, j as int));
            return Err(
                GalaxError::Internal(
                    Fault::ProjectionOutOfRange { index: wanted[j], columns: n },
                ),
            );
        }
        j = j + 1;
    }
    let query = Query { prefix, types, projection: wanted, predicates, read_ts };
    let ghost view = query@;
    let ghost files = registry.list();
    let (mut staged, Ghost(reads)) = stage_files(&query, splitter, registry, contents);
    let ghost from_files = stamps(staged@);
    let mut versions: Vec<Row> = Vec::new();
    let Ghost(added) = collect_visible(active, read_ts, &mut versions);
    proof {
        assert(stamps(versions@) =~= added);
    }
    stage_versions(&query, splitter, versions, &mut staged);
    let ghost all = stamps(staged@);
    let newest = newest_per_key(staged);
    proof {
        lemma_files_fit(files, contents@, view, *splitter, reads, files.len() as int);
        lemma_versions_fit(view, *splitter, added);
        lemma_append_fits(
            from_files,
            staged_versions(view, *splitter, added),
            view.projection.len(),
        );
        lemma_newest_fit(stamps(newest@), all, view.projection.len());
        assert(scanned(
            files,
            contents@,
            active@,
            view,
            *splitter,
            reads,
            added,
            stamps(newest@),
        ));
    }
    let batch = assemble(newest, &query.types, &query.projection);
    Ok(batch)
}

// Pruning

/// The same query without predicates.
pub open spec fn without_predicates(query: QueryView) -> QueryView {
    QueryView { predicates: Seq::<PredicateView>::empty(), ..query }
}

/// Pruning hides no version: of a block whose cells can be read, the same rows
/// are staged with and without predicates, under the same keys and
/// timestamps, and each says the same or is excluded. So an older version of a
/// row cannot show up in place of an excluded one.
pub proof fn lemma_pruning_keeps_versions<S: RowColumnSplitter>(
    b: BlockView,
    query: QueryView,
    splitter: S,
    read: ColumnarRead,
    unpruned: ColumnarRead,
    n: int,
)
    requires
        unpruned.base == read.base,
        unpruned.cells is Some,
        read.cells == (if pruned(b, query) {
            None
        } else {
            unpruned.cells
        }),
    ensures
        ({
            let a = staged_rows(b, query, splitter, read, n);
            let c = staged_rows(b, without_predicates(query), splitter, unpruned, n);
            &&& a.len() == c.len()
            &&& forall|i: int|
                #![trigger a[i], c[i]]
                0 <= i < a.len() ==> a[i].key == c[i].key && a[i].timestamp == c[i].timestamp && (
                a[i].value == c[i].value || a[i].value == StagedView::Excluded)
        }),
    decreases n,
{
    assert(!pruned(b, without_predicates(query)));
    if n > 0 {
        lemma_pruning_keeps_versions(b, query, splitter, read, unpruned, n - 1);
        let a0 = staged_rows(b, query, splitter, read, n - 1);
        let c0 = staged_rows(b, without_predicates(query), splitter, unpruned, n - 1);
        let a = staged_rows(b, query, splitter, read, n);
        let c = staged_rows(b, without_predicates(query), splitter, unpruned, n);
        assert forall|i: int| #![trigger a[i], c[i]] 0 <= i < a.len() implies a[i].key == c[i].key
            && a[i].timestamp == c[i].timestamp && (a[i].value == c[i].value || a[i].value
            == StagedView::Excluded) by {
            if i < a0.len() {
                assert(a[i] == a0[i] && c[i] == c0[i]);
            }
        }
    }
}

} // verus!
