//! Columnar layout of rows.
//!
//! The engine stores keys and values and knows nothing of what a value means.
//! For a table that is scanned by column, a splitter is registered that takes
//! a row's value apart. Blocks of such a table keep the columns for key, value
//! and timestamp, and append, for each column of the table, a typed data
//! column and a validity column: one byte for each row, 1 for a value and 0
//! for NULL. A NULL in a data column is a placeholder of zeros.
//!
//! If a row cannot be taken apart, its block is written without the appended
//! columns, so that nothing is lost.

use vstd::prelude::*;
use vstd::slice::slice_to_vec;

use crate::bytes::{starts_with, views};
use crate::column::ColumnType;
use crate::memtable::versioned_value::value_view;
use crate::pax::block::{column_views, ColumnView};
use crate::pax::{CodecId, ColumnData, PruneOp};

verus! {

/// Splits a stored row value into its cells, in the order of the columns.
///
/// An implementation that Verus does not see leaves out `types` and `cells`,
/// of which nothing is then known; its `column_types` and `split` must still
/// depend on nothing but their arguments.
pub trait RowColumnSplitter {
    /// The column types.
    closed spec fn types(&self) -> Seq<ColumnType> {
        arbitrary()
    }

    /// The cells of a row value, `None` for NULL; `None` as a whole if the
    /// value cannot be split.
    closed spec fn cells(&self, value: Seq<u8>) -> Option<Seq<Option<Seq<u8>>>> {
        arbitrary()
    }

    /// The column types, in the order in which `split` produces cells.
    fn column_types(&self) -> (types: Vec<ColumnType>)
        ensures
            types@ == self.types(),
    ;

    /// Splits a row's value into one cell for each column: `Some(bytes)` for a
    /// value, `None` for NULL. `None` as a whole if the value cannot be split.
    fn split(&self, value: &[u8]) -> (cells: Option<Vec<Option<Vec<u8>>>>)
        ensures
            match cells {
                Some(row) => self.cells(value@) == Some(cell_views(row@)),
                None => self.cells(value@) is None,
            },
    ;
}

/// The bytes of optional values.
pub open spec fn cell_views(cells: Seq<Option<Vec<u8>>>) -> Seq<Option<Seq<u8>>> {
    Seq::new(cells.len(), |i: int| value_view(cells[i]))
}

/// A table that is stored by column: the prefix of its keys, and the splitter
/// for its rows.
pub struct ColumnarRegistration<S: RowColumnSplitter> {
    /// Key prefix shared by every row of the table.
    pub prefix: Vec<u8>,
    /// Splitter for the rows of the table.
    pub splitter: S,
}

impl<S: RowColumnSplitter> ColumnarRegistration<S> {
    /// Whether a key belongs to this table.
    pub fn matches(&self, key: &[u8]) -> (result: bool)
        ensures
            result == self.prefix@.is_prefix_of(key@),
    {
        starts_with(key, self.prefix.as_slice())
    }
}

/// Place of the first registration whose prefix matches a key.
pub open spec fn registration_index<S: RowColumnSplitter>(
    registrations: Seq<ColumnarRegistration<S>>,
    key: Seq<u8>,
) -> Option<int>
    decreases registrations.len(),
{
    if registrations.len() == 0 {
        None
    } else {
        match registration_index(registrations.drop_last(), key) {
            Some(i) => Some(i),
            None => if registrations.last().prefix@.is_prefix_of(key) {
                Some(registrations.len() - 1)
            } else {
                None
            },
        }
    }
}

/// The place is that of the first match.
pub proof fn lemma_registration_first<S: RowColumnSplitter>(
    registrations: Seq<ColumnarRegistration<S>>,
    key: Seq<u8>,
)
    ensures
        match registration_index(registrations, key) {
            Some(i) => {
                &&& 0 <= i < registrations.len()
                &&& registrations[i].prefix@.is_prefix_of(key)
                &&& forall|j: int| 0 <= j < i ==> !(#[trigger] registrations[j]).prefix@.is_prefix_of(key)
            },
            None => forall|j: int|
                0 <= j < registrations.len() ==> !(#[trigger] registrations[j]).prefix@.is_prefix_of(
                    key,
                ),
        },
    decreases registrations.len(),
{
    if registrations.len() > 0 {
        lemma_registration_first(registrations.drop_last(), key);
        assert forall|j: int| 0 <= j < registrations.len() - 1 implies registrations.drop_last()[j]
            == #[trigger] registrations[j] by {}
    }
}

/// Place of the first registration whose prefix matches a key.
pub fn registration_position<S: RowColumnSplitter>(
    registrations: &[ColumnarRegistration<S>],
    key: &[u8],
) -> (position: Option<usize>)
    ensures
        match position {
            Some(i) => registration_index(registrations@, key@) == Some(i as int) && i
                < registrations@.len(),
            None => registration_index(registrations@, key@) is None,
        },
{
    let mut i: usize = 0;
    assert(registrations@.take(0) =~= Seq::<ColumnarRegistration<S>>::empty());
    while i < registrations.len()
        invariant
            i <= registrations@.len(),
            registration_index(registrations@.take(i as int), key@) is None,
        decreases registrations@.len() - i,
    {
        assert(registrations@.take(i + 1).drop_last() =~= registrations@.take(i as int));
        if registrations[i].matches(key) {
            proof {
                lemma_index_stays(registrations@, key@, i + 1);
            }
            return Some(i);
        }
        i = i + 1;
    }
    assert(registrations@.take(i as int) =~= registrations@);
    None
}

proof fn lemma_index_stays<S: RowColumnSplitter>(
    registrations: Seq<ColumnarRegistration<S>>,
    key: Seq<u8>,
    n: int,
)
    requires
        0 <= n <= registrations.len(),
        registration_index(registrations.take(n), key) is Some,
    ensures
        registration_index(registrations, key) == registration_index(registrations.take(n), key),
    decreases registrations.len() - n,
{
    if n == registrations.len() {
        assert(registrations.take(n) =~= registrations);
    } else {
        assert(registrations.take(n + 1).drop_last() =~= registrations.take(n));
        lemma_index_stays(registrations, key, n + 1);
    }
}

/// Finds the registration whose prefix matches a key, if any.
pub fn registration_for<'a, S: RowColumnSplitter>(
    registrations: &'a [ColumnarRegistration<S>],
    key: &[u8],
) -> (registration: Option<&'a ColumnarRegistration<S>>)
    ensures
        match registration {
            Some(r) => registration_index(registrations@, key@) matches Some(i) && 0 <= i
                < registrations@.len() && *r == registrations@[i],
            None => registration_index(registrations@, key@) is None,
        },
{
    match registration_position(registrations, key) {
        Some(i) => Some(&registrations[i]),
        None => None,
    }
}

/// Number of columns that every block has: key, value and timestamp.
pub const FIRST_DATA_COLUMN: usize = 3;

/// Appended columns come in pairs of data and validity.
pub const DATA_VALIDITY_STRIDE: usize = 2;

/// Validity of a value.
pub const VALID: u8 = 1;

/// Validity of a NULL.
pub const NULL: u8 = 0;

/// Block column of the data of table column `k`.
pub fn data_column_index(k: usize) -> (index: usize)
    requires
        3 + 2 * k <= usize::MAX,
    ensures
        index == 3 + 2 * k,
{
    FIRST_DATA_COLUMN + DATA_VALIDITY_STRIDE * k
}

/// Block column of the validity of table column `k`.
pub fn validity_column_index(k: usize) -> (index: usize)
    requires
        4 + 2 * k <= usize::MAX,
    ensures
        index == 4 + 2 * k,
{
    data_column_index(k) + 1
}

/// Whether a validity cell marks a value.
pub open spec fn marks_valid(cell: Seq<u8>) -> bool {
    cell.len() > 0 && cell[0] == VALID
}

/// Interprets a validity cell: a value is present if the first byte is 1.
pub fn is_valid_marker(cell: &[u8]) -> (valid: bool)
    ensures
        valid == marks_valid(cell@),
{
    cell.len() > 0 && cell[0] == VALID
}

/// A predicate of a columnar scan: `column <op> value`.
#[derive(Debug)]
pub struct ColumnPredicate {
    /// Index of the table column.
    pub column: usize,
    /// Comparison operator.
    pub op: PruneOp,
    /// Bytes of the comparison constant, encoded as in the column.
    pub value: Vec<u8>,
}

/// What a columnar scan produces: for each projected column its type and a cell
/// for each row.
#[derive(Debug)]
pub struct ColumnarBatch {
    /// Number of rows.
    pub num_rows: usize,
    /// Type and cells of each projected column.
    pub columns: Vec<(ColumnType, Vec<Option<Vec<u8>>>)>,
}

/// Placeholder of a NULL: zeros in the size of the type's values, nothing for
/// types whose values vary in size.
pub open spec fn placeholder(col_type: ColumnType) -> Seq<u8> {
    match col_type.size() {
        Some(n) => Seq::new(n, |i: int| 0u8),
        None => Seq::<u8>::empty(),
    }
}

/// Placeholder bytes of a NULL.
pub fn placeholder_bytes(ct: &ColumnType) -> (bytes: Vec<u8>)
    ensures
        bytes@ == placeholder(*ct),
{
    let mut bytes: Vec<u8> = Vec::new();
    let size: u64 = match ct.byte_size() {
        Some(n) => n,
        None => 0,
    };
    let mut i: u64 = 0;
    while i < size
        invariant
            i <= size,
            bytes@ == Seq::new(i as nat, |j: int| 0u8),
        decreases size - i,
    {
        bytes.push(0);
        i = i + 1;
        assert(bytes@ =~= Seq::new(i as nat, |j: int| 0u8));
    }
    assert(bytes@ =~= placeholder(*ct));
    bytes
}

// The appended columns

/// The cell of a row in a column; `row` is `None` for a tombstone.
pub open spec fn cell_of(row: Option<Seq<Option<Seq<u8>>>>, column: int) -> Option<Seq<u8>> {
    match row {
        Some(cells) => cells[column],
        None => None,
    }
}

/// What the data column stores for a cell.
pub open spec fn stored_cell(cell: Option<Seq<u8>>, col_type: ColumnType) -> Seq<u8> {
    match cell {
        Some(bytes) => bytes,
        None => placeholder(col_type),
    }
}

/// What the validity column stores for a cell.
pub open spec fn stored_validity(cell: Option<Seq<u8>>) -> Seq<u8> {
    match cell {
        Some(_) => seq![VALID],
        None => seq![NULL],
    }
}

/// The data column of a table column.
pub open spec fn data_column(
    types: Seq<ColumnType>,
    rows: Seq<Option<Seq<Option<Seq<u8>>>>>,
    column: int,
) -> ColumnView {
    ColumnView {
        col_type: types[column],
        rows: Seq::new(
            rows.len(),
            |r: int| stored_cell(cell_of(rows[r], column), types[column]),
        ),
    }
}

/// The validity column of a table column.
pub open spec fn validity_column(
    rows: Seq<Option<Seq<Option<Seq<u8>>>>>,
    column: int,
) -> ColumnView {
    ColumnView {
        col_type: ColumnType::Blob,
        rows: Seq::new(rows.len(), |r: int| stored_validity(cell_of(rows[r], column))),
    }
}

/// The appended columns: data and validity of each table column.
pub open spec fn appended_columns(
    types: Seq<ColumnType>,
    rows: Seq<Option<Seq<Option<Seq<u8>>>>>,
) -> Seq<ColumnView> {
    Seq::new(
        2 * types.len(),
        |i: int|
            if i % 2 == 0 {
                data_column(types, rows, i / 2)
            } else {
                validity_column(rows, i / 2)
            },
    )
}

/// The codecs of the appended columns.
pub open spec fn appended_codecs(types: Seq<ColumnType>) -> Seq<CodecId> {
    Seq::new(
        2 * types.len(),
        |i: int|
            if i % 2 == 0 {
                CodecId::default_for(types[i / 2])
            } else {
                CodecId::Zstd
            },
    )
}

/// The rows of a table as a splitter takes them apart.
pub open spec fn split_rows<S: RowColumnSplitter>(
    values: Seq<Option<Seq<u8>>>,
    splitter: S,
) -> Seq<Option<Seq<Option<Seq<u8>>>>> {
    Seq::new(
        values.len(),
        |i: int|
            match values[i] {
                Some(bytes) => Some(splitter.cells(bytes)->0),
                None => None,
            },
    )
}

/// Whether a splitter can take every row apart.
pub open spec fn splittable<S: RowColumnSplitter>(
    values: Seq<Option<Seq<u8>>>,
    splitter: S,
) -> bool {
    &&& splitter.types().len() > 0
    &&& forall|i: int|
        0 <= i < values.len() ==> (#[trigger] values[i] matches Some(bytes) ==> {
            &&& splitter.cells(bytes) is Some
            &&& splitter.cells(bytes)->0.len() == splitter.types().len()
        })
}

/// What a cell gives back: the stored bytes if the validity cell marks a value.
pub open spec fn read_cell(data: Seq<u8>, validity: Seq<u8>) -> Option<Seq<u8>> {
    if marks_valid(validity) {
        Some(data)
    } else {
        None
    }
}

/// A cell is read back from its data and validity columns as it was stored.
pub proof fn lemma_cell_round_trip(cell: Option<Seq<u8>>, col_type: ColumnType)
    ensures
        read_cell(stored_cell(cell, col_type), stored_validity(cell)) == cell,
{
}

/// The cells of one table column, a cell for each row.
struct CellColumn {
    data: Vec<Vec<u8>>,
    validity: Vec<Vec<u8>>,
}

/// The rows that split values hold; `None` is a tombstone.
pub open spec fn row_views(rows: Seq<Option<Vec<Option<Vec<u8>>>>>) -> Seq<
    Option<Seq<Option<Seq<u8>>>>,
> {
    Seq::new(
        rows.len(),
        |i: int|
            match rows[i] {
                Some(cells) => Some(cell_views(cells@)),
                None => None,
            },
    )
}

/// Builds one table column out of split rows.
fn build_column(
    col_type: &ColumnType,
    rows: &Vec<Option<Vec<Option<Vec<u8>>>>>,
    column: usize,
    Ghost(types): Ghost<Seq<ColumnType>>,
) -> (cells: CellColumn)
    requires
        column < types.len(),
        *col_type == types[column as int],
        forall|i: int|
            0 <= i < rows@.len() ==> (#[trigger] rows@[i] matches Some(row) ==> row@.len()
                == types.len()),
    ensures
        views(cells.data@) == data_column(types, row_views(rows@), column as int).rows,
        views(cells.validity@) == validity_column(row_views(rows@), column as int).rows,
{
    let mut data: Vec<Vec<u8>> = Vec::new();
    let mut validity: Vec<Vec<u8>> = Vec::new();
    let ghost split = row_views(rows@);
    let mut r: usize = 0;
    while r < rows.len()
        invariant
            r <= rows@.len(),
            split == row_views(rows@),
            column < types.len(),
            *col_type == types[column as int],
            forall|i: int|
                0 <= i < rows@.len() ==> (#[trigger] rows@[i] matches Some(row) ==> row@.len()
                    == types.len()),
            data@.len() == r,
            validity@.len() == r,
            forall|j: int|
                0 <= j < r ==> (#[trigger] data@[j])@ == stored_cell(
                    cell_of(split[j], column as int),
                    *col_type,
                ),
            forall|j: int|
                0 <= j < r ==> (#[trigger] validity@[j])@ == stored_validity(
                    cell_of(split[j], column as int),
                ),
        decreases rows@.len() - r,
    {
        let present: Option<Vec<u8>> = match &rows[r] {
            Some(row) => match &row[column] {
                Some(bytes) => Some(slice_to_vec(bytes.as_slice())),
                None => None,
            },
            None => None,
        };
        assert(value_view(present) == cell_of(split[r as int], column as int));
        match present {
            Some(bytes) => {
                data.push(bytes);
                validity.push(vec![VALID]);
                assert(validity@[r as int]@ =~= seq![VALID]);
            },
            None => {
                data.push(placeholder_bytes(col_type));
                validity.push(vec![NULL]);
                assert(validity@[r as int]@ =~= seq![NULL]);
            },
        }
        r = r + 1;
    }
    assert(views(data@) =~= data_column(types, split, column as int).rows);
    assert(views(validity@) =~= validity_column(split, column as int).rows);
    CellColumn { data, validity }
}

/// Builds the appended columns and their codecs out of split rows; `None` is a
/// tombstone, whose cells are all NULL.
pub fn columns_of_rows(types: &Vec<ColumnType>, rows: &Vec<Option<Vec<Option<Vec<u8>>>>>) -> (result:
    (Vec<ColumnData>, Vec<CodecId>))
    requires
        forall|i: int|
            0 <= i < rows@.len() ==> (#[trigger] rows@[i] matches Some(row) ==> row@.len()
                == types@.len()),
    ensures
        column_views(result.0@) == appended_columns(
            types@,
            row_views(rows@),
        ),
        result.1@ == appended_codecs(types@),
{
    let mut cols: Vec<ColumnData> = Vec::new();
    let mut codecs: Vec<CodecId> = Vec::new();
    let ghost split = row_views(rows@);
    let ghost all = appended_columns(types@, split);
    let ghost all_codecs = appended_codecs(types@);
    let mut k: usize = 0;
    while k < types.len()
        invariant
            k <= types@.len(),
            split == row_views(rows@),
            all == appended_columns(types@, split),
            all_codecs == appended_codecs(types@),
            forall|i: int|
                0 <= i < rows@.len() ==> (#[trigger] rows@[i] matches Some(row) ==> row@.len()
                    == types@.len()),
            cols@.len() == 2 * k,
            codecs@.len() == 2 * k,
            forall|i: int| 0 <= i < 2 * k ==> (#[trigger] cols@[i])@ == all[i],
            forall|i: int| 0 <= i < 2 * k ==> #[trigger] codecs@[i] == all_codecs[i],
        decreases types@.len() - k,
    {
        let ct: ColumnType = types[k];
        let cells = build_column(&ct, rows, k, Ghost(types@));
        codecs.push(CodecId::for_column_type(&ct));
        codecs.push(CodecId::Zstd);
        cols.push(ColumnData { col_type: ct, values: cells.data });
        cols.push(ColumnData { col_type: ColumnType::Blob, values: cells.validity });
        proof {
            assert((2 * k) / 2 == k && (2 * k) % 2 == 0);
            assert((2 * k + 1) / 2 == k && (2 * k + 1) % 2 == 1);
            assert(cols@[2 * k]@ =~= all[2 * k]);
            assert(cols@[2 * k + 1]@ =~= all[2 * k + 1]);
        }
        k = k + 1;
    }
    assert(column_views(cols@) =~= all);
    assert(codecs@ =~= all_codecs);
    (cols, codecs)
}

/// Builds the appended columns and their codecs for the rows of one block,
/// given each row's value (`None` for a tombstone). `None` if the splitter has
/// no columns, or cannot split a row into one cell for each column.
pub fn columnar_data_columns<S: RowColumnSplitter>(
    values: &[Option<Vec<u8>>],
    splitter: &S,
) -> (result: Option<(Vec<ColumnData>, Vec<CodecId>)>)
    ensures
        match result {
            Some((columns, codecs)) => {
                &&& splittable(cell_views(values@), *splitter)
                &&& column_views(columns@) == appended_columns(
                    splitter.types(),
                    split_rows(cell_views(values@), *splitter),
                )
                &&& codecs@ == appended_codecs(splitter.types())
            },
            None => !splittable(cell_views(values@), *splitter),
        },
{
    let types = splitter.column_types();
    if types.len() == 0 {
        return None;
    }
    let ghost bytes = cell_views(values@);
    let mut rows: Vec<Option<Vec<Option<Vec<u8>>>>> = Vec::new();
    let mut i: usize = 0;
    while i < values.len()
        invariant
            i <= values@.len(),
            bytes == cell_views(values@),
            types@ == splitter.types(),
            types@.len() > 0,
            rows@.len() == i,
            forall|j: int|
                0 <= j < i ==> (#[trigger] bytes[j] matches Some(value) ==> {
                    &&& splitter.cells(value) is Some
                    &&& splitter.cells(value)->0.len() == types@.len()
                }),
            forall|j: int|
                0 <= j < i ==> (#[trigger] rows@[j] matches Some(row) ==> row@.len()
                    == types@.len()),
            row_views(rows@) == split_rows(bytes.take(i as int), *splitter),
        decreases values@.len() - i,
    {
        let ghost before = rows@;
        assert(bytes[i as int] == value_view(values@[i as int]));
        let row: Option<Vec<Option<Vec<u8>>>> = match &values[i] {
            Some(value) => match splitter.split(value.as_slice()) {
                Some(cells) => {
                    if cells.len() != types.len() {
                        return None;
                    }
                    Some(cells)
                },
                None => {
                    return None;
                },
            },
            None => None,
        };
        rows.push(row);
        proof {
            let next = split_rows(bytes.take(i + 1), *splitter);
            assert forall|j: int| 0 <= j < i + 1 implies row_views(rows@)[j] == next[j] by {
                if j < i {
                    assert(row_views(before)[j] == split_rows(bytes.take(i as int), *splitter)[j]);
                }
            }
            assert(row_views(rows@) =~= next);
        }
        i = i + 1;
    }
    assert(bytes.take(i as int) =~= bytes);
    Some(columns_of_rows(&types, &rows))
}

} // verus!
