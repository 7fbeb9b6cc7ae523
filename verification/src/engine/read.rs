//! Reading the rows of blocks and files.

use vstd::prelude::*;
use vstd::slice::slice_subrange;

use crate::bytes::{starts_with, views};
use crate::column::Timestamp;
use crate::engine::kv::{key_range_overlaps_prefix, overlaps_prefix};
use crate::error::GalaxError;
use crate::flush::{decode_row_ts, row_ts, ROW_TS_COLUMN};
use crate::memtable::versioned_value::value_view;
use crate::pax::block::{column_reads, parse_block, BlockView};
use crate::pax::codec::rows_result;
use crate::pax::PaxBlock;
use crate::row::{stamps, Candidate, Row, RowView, Stamped};
use crate::sst::{block_at, BlockIndexEntry, SstBlockIndex};

verus! {

// Rows of a block

/// The value that stored bytes stand for: nothing stored is a tombstone.
pub open spec fn live_value(bytes: Seq<u8>) -> Option<Seq<u8>> {
    if bytes.len() == 0 {
        None
    } else {
        Some(bytes)
    }
}

/// The timestamp of a row: that of the timestamp column, or else that of the
/// block.
pub open spec fn row_stamp(
    header_ts: u64,
    timestamps: Option<Seq<Seq<u8>>>,
    row: int,
) -> u64 {
    match timestamps {
        Some(column) => if row < column.len() {
            match row_ts(column[row]) {
                Some(timestamp) => timestamp,
                None => header_ts,
            }
        } else {
            header_ts
        },
        None => header_ts,
    }
}

/// The rows that columns of keys, values and timestamps stand for.
pub open spec fn decoded_rows(
    header_ts: u64,
    keys: Seq<Seq<u8>>,
    values: Seq<Seq<u8>>,
    timestamps: Option<Seq<Seq<u8>>>,
) -> Seq<RowView> {
    Seq::new(
        if keys.len() < values.len() {
            keys.len()
        } else {
            values.len()
        },
        |i: int|
            Stamped {
                key: keys[i],
                timestamp: row_stamp(header_ts, timestamps, i),
                value: live_value(values[i]),
            },
    )
}

/// The bytes of an optional column.
pub open spec fn column_option(column: Option<Vec<Vec<u8>>>) -> Option<Seq<Seq<u8>>> {
    match column {
        Some(values) => Some(views(values@)),
        None => None,
    }
}

/// Timestamp of a row.
pub fn stamp_of_row(header_ts: Timestamp, timestamps: &Option<Vec<Vec<u8>>>, row: usize) -> (stamp:
    Timestamp)
    ensures
        stamp == row_stamp(header_ts, column_option(*timestamps), row as int),
{
    match timestamps {
        Some(column) => if row < column.len() {
            match decode_row_ts(column[row].as_slice()) {
                Some(timestamp) => timestamp,
                None => header_ts,
            }
        } else {
            header_ts
        },
        None => header_ts,
    }
}

/// Puts columns together into rows. A row without a timestamp of its own has
/// that of the block, and an empty value is a tombstone.
pub fn decode_rows(
    header_ts: Timestamp,
    keys: Vec<Vec<u8>>,
    values: Vec<Vec<u8>>,
    timestamps: &Option<Vec<Vec<u8>>>,
) -> (rows: Vec<Row>)
    ensures
        stamps(rows@) == decoded_rows(
            header_ts,
            views(keys@),
            views(values@),
            column_option(*timestamps),
        ),
{
    let ghost expected = decoded_rows(
        header_ts,
        views(keys@),
        views(values@),
        column_option(*timestamps),
    );
    let ghost all_values = values@;
    let ghost all_keys = keys@;
    let n: usize = if keys.len() < values.len() { keys.len() } else { values.len() };
    let mut rows: Vec<Row> = Vec::new();
    let mut values = values;
    let mut i: usize = 0;
    for key in iter: keys
        invariant
            iter.seq() == all_keys,
            i <= n,
            n <= all_keys.len(),
            n <= all_values.len(),
            i == (if iter.index() < n { iter.index() } else { n as int }),
            expected.len() == n,
            expected == decoded_rows(
                header_ts,
                views(all_keys),
                views(all_values),
                column_option(*timestamps),
            ),
            values@.len() == all_values.len(),
            forall|j: int| i <= j < all_values.len() ==> values@[j] == all_values[j],
            rows@.len() == i,
            forall|j: int| 0 <= j < i ==> (#[trigger] rows@[j])@ == expected[j],
    {
        if i < n {
            let mut stored: Vec<u8> = Vec::new();
            let value = &mut values[i];
            std::mem::swap(&mut stored, value);
            let timestamp: u64 = stamp_of_row(header_ts, timestamps, i);
            let value: Option<Vec<u8>> = if stored.len() == 0 { None } else { Some(stored) };
            rows.push(Candidate { key, timestamp, value });
            assert(rows@[i as int]@ == expected[i as int]);
            i = i + 1;
        }
    }
    assert(stamps(rows@) =~= expected);
    rows
}

/// What reading the three columns of a block came to; the timestamps are read
/// only if the block has them.
pub ghost struct ColumnsRead {
    pub keys: Result<Seq<Seq<u8>>, GalaxError>,
    pub values: Result<Seq<Seq<u8>>, GalaxError>,
    pub timestamps: Option<Result<Seq<Seq<u8>>, GalaxError>>,
}

/// Whether reading the columns of a block can have come to this.
pub open spec fn columns_read(b: BlockView, columns: ColumnsRead) -> bool {
    &&& column_reads(b, 0, columns.keys)
    &&& column_reads(b, 1, columns.values)
    &&& (columns.timestamps is Some) == (b.header.column_count >= 3)
    &&& columns.timestamps matches Some(outcome) ==> column_reads(
        b,
        ROW_TS_COLUMN as int,
        outcome,
    )
}

/// The timestamps, if they could be read.
pub open spec fn timestamps_read(columns: ColumnsRead) -> Option<Seq<Seq<u8>>> {
    match columns.timestamps {
        Some(Ok(column)) => Some(column),
        _ => None,
    }
}

/// The rows of a block, none if its keys or values could not be read.
pub open spec fn block_rows(b: BlockView, columns: ColumnsRead) -> Seq<RowView> {
    match (columns.keys, columns.values) {
        (Ok(keys), Ok(values)) => decoded_rows(
            b.header.commit_timestamp,
            keys,
            values,
            timestamps_read(columns),
        ),
        _ => Seq::<RowView>::empty(),
    }
}

/// Reads the timestamps of a block, if it has any and they can be read.
pub fn read_timestamps(block: &PaxBlock) -> (result: (Option<Vec<Vec<u8>>>, Ghost<
    Option<Result<Seq<Seq<u8>>, GalaxError>>,
>))
    ensures
        (result.1@ is Some) == (block@.header.column_count >= 3),
        result.1@ matches Some(outcome) ==> column_reads(block@, ROW_TS_COLUMN as int, outcome),
        column_option(result.0) == (match result.1@ {
            Some(Ok(column)) => Some(column),
            _ => None,
        }),
{
    if block.header.column_count < 3 {
        return (None, Ghost(None));
    }
    let result = block.read_column(ROW_TS_COLUMN);
    let ghost outcome = rows_result(result);
    match result {
        Ok(column) => (Some(column), Ghost(Some(outcome))),
        Err(_) => (None, Ghost(Some(outcome))),
    }
}

/// Reads the rows of a block, none if its keys or values cannot be read.
pub fn read_block_rows(block: &PaxBlock) -> (result: (Vec<Row>, Ghost<ColumnsRead>))
    ensures
        columns_read(block@, result.1@),
        stamps(result.0@) == block_rows(block@, result.1@),
{
    let header_ts: u64 = block.header.commit_timestamp;
    let keys = block.read_column(0);
    let values = block.read_column(1);
    let (timestamps, Ghost(stamps_outcome)) = read_timestamps(block);
    let ghost columns = ColumnsRead {
        keys: rows_result(keys),
        values: rows_result(values),
        timestamps: stamps_outcome,
    };
    match keys {
        Ok(keys) => match values {
            Ok(values) => {
                let rows = decode_rows(header_ts, keys, values, &timestamps);
                (rows, Ghost(columns))
            },
            Err(_) => {
                let rows: Vec<Row> = Vec::new();
                assert(stamps(rows@) =~= Seq::<RowView>::empty());
                (rows, Ghost(columns))
            },
        },
        Err(_) => {
            let rows: Vec<Row> = Vec::new();
            assert(stamps(rows@) =~= Seq::<RowView>::empty());
            (rows, Ghost(columns))
        },
    }
}

// Rows of a file

/// Which rows are asked for.
#[derive(Debug)]
pub struct RowFilter {
    /// Prefix that a key must have.
    pub prefix: Option<Vec<u8>>,
    /// Timestamp up to which rows are visible.
    pub read_ts: Option<Timestamp>,
}

/// Which rows are asked for.
pub ghost struct FilterView {
    pub prefix: Option<Seq<u8>>,
    pub read_ts: Option<u64>,
}

impl View for RowFilter {
    type V = FilterView;

    open spec fn view(&self) -> FilterView {
        FilterView { prefix: value_view(self.prefix), read_ts: self.read_ts }
    }
}

/// Whether a key and a timestamp are asked for.
pub open spec fn asked_for(filter: FilterView, key: Seq<u8>, timestamp: u64) -> bool {
    &&& filter.prefix matches Some(prefix) ==> prefix.is_prefix_of(key)
    &&& filter.read_ts matches Some(read_ts) ==> timestamp <= read_ts
}

/// The rows that are asked for.
pub open spec fn filtered(rows: Seq<RowView>, filter: FilterView) -> Seq<RowView>
    decreases rows.len(),
{
    if rows.len() == 0 {
        Seq::<RowView>::empty()
    } else {
        let before = filtered(rows.drop_last(), filter);
        if asked_for(filter, rows.last().key, rows.last().timestamp) {
            before.push(rows.last())
        } else {
            before
        }
    }
}

/// Whether the header of a block tells that it holds no row that is asked for:
/// its keys lie outside the prefix, or all its rows have its timestamp, and
/// that is not visible.
pub open spec fn skipped(b: BlockView, filter: FilterView) -> bool {
    ||| filter.prefix matches Some(prefix) && (b.header.descriptors.len() == 0
        || !overlaps_prefix(
        b.header.descriptors[0].zone_map_min,
        b.header.descriptors[0].zone_map_max,
        prefix,
    ))
    ||| filter.read_ts matches Some(read_ts) && b.header.column_count < 3
        && b.header.commit_timestamp > read_ts
}

/// Whether an index entry lies within a file.
pub open spec fn within(data: Seq<u8>, entry: BlockIndexEntry) -> bool {
    entry.file_offset + entry.block_len <= data.len()
}

/// The block that an index entry points to, if there is one.
pub open spec fn entry_block(data: Seq<u8>, entry: BlockIndexEntry) -> Option<BlockView> {
    if within(data, entry) {
        match parse_block(block_at(data, entry)) {
            Ok(b) => Some(b),
            Err(_) => None,
        }
    } else {
        None
    }
}

/// The rows asked for in the block that an index entry points to.
pub open spec fn entry_rows(
    data: Seq<u8>,
    entry: BlockIndexEntry,
    filter: FilterView,
    columns: ColumnsRead,
) -> Seq<RowView> {
    match entry_block(data, entry) {
        Some(b) => if skipped(b, filter) {
            Seq::<RowView>::empty()
        } else {
            filtered(block_rows(b, columns), filter)
        },
        None => Seq::<RowView>::empty(),
    }
}

/// The rows asked for in a file.
pub open spec fn file_rows(
    data: Seq<u8>,
    entries: Seq<BlockIndexEntry>,
    filter: FilterView,
    reads: Seq<ColumnsRead>,
) -> Seq<RowView>
    decreases entries.len(),
{
    if entries.len() == 0 {
        Seq::<RowView>::empty()
    } else {
        file_rows(data, entries.drop_last(), filter, reads.drop_last()) + entry_rows(
            data,
            entries.last(),
            filter,
            reads.last(),
        )
    }
}

/// Whether reading the blocks of a file can have come to this.
pub open spec fn file_read(
    data: Seq<u8>,
    entries: Seq<BlockIndexEntry>,
    filter: FilterView,
    reads: Seq<ColumnsRead>,
) -> bool {
    &&& reads.len() == entries.len()
    &&& forall|i: int|
        0 <= i < entries.len() ==> (entry_block(data, #[trigger] entries[i]) matches Some(b) ==> (
        !skipped(b, filter) ==> columns_read(b, reads[i])))
}

impl RowFilter {
    /// Whether a key and a timestamp are asked for.
    pub fn asks_for(&self, key: &[u8], timestamp: Timestamp) -> (result: bool)
        ensures
            result == asked_for(self@, key@, timestamp),
    {
        match &self.prefix {
            Some(prefix) => {
                if !starts_with(key, prefix.as_slice()) {
                    return false;
                }
            },
            None => {},
        }
        match self.read_ts {
            Some(read_ts) => timestamp <= read_ts,
            None => true,
        }
    }

    /// Whether the header of a block tells that it holds no row that is asked
    /// for.
    pub fn skips(&self, block: &PaxBlock) -> (result: bool)
        ensures
            result == skipped(block@, self@),
    {
        match &self.prefix {
            Some(prefix) => {
                if block.header.column_descriptors.len() == 0 {
                    return true;
                }
                let descriptor = &block.header.column_descriptors[0];
                assert(block@.header.descriptors[0] == descriptor@);
                if !key_range_overlaps_prefix(
                    descriptor.zone_map_min.as_slice(),
                    descriptor.zone_map_max.as_slice(),
                    prefix.as_slice(),
                ) {
                    return true;
                }
            },
            None => {},
        }
        match self.read_ts {
            Some(read_ts) => block.header.column_count < 3 && block.header.commit_timestamp
                > read_ts,
            None => false,
        }
    }
}

/// Reads the block that an index entry points to. `None` if the entry reaches
/// beyond the file or the block is broken.
pub fn read_entry(data: &[u8], entry: &BlockIndexEntry) -> (block: Option<PaxBlock>)
    ensures
        match block {
            Some(b) => entry_block(data@, *entry) == Some(b@),
            None => entry_block(data@, *entry) is None,
        },
{
    let len: u64 = data.len() as u64;
    if entry.file_offset > len || entry.block_len as u64 > len - entry.file_offset {
        return None;
    }
    let start: usize = entry.file_offset as usize;
    let end: usize = start + entry.block_len as usize;
    match PaxBlock::deserialize(slice_subrange(data, start, end)) {
        Ok(block) => Some(block),
        Err(_) => None,
    }
}

/// Appends the rows that are asked for.
fn keep_rows(rows: Vec<Row>, filter: &RowFilter, out: &mut Vec<Row>)
    ensures
        stamps(final(out)@) == stamps(old(out)@) + filtered(stamps(rows@), filter@),
{
    let ghost start = stamps(out@);
    let ghost all = rows@;
    let ghost views = stamps(all);
    assert(views.take(0) =~= Seq::<RowView>::empty());
    assert(stamps(out@) =~= start + filtered(views.take(0), filter@));
    for row in iter: rows
        invariant
            iter.seq() == all,
            views == stamps(all),
            stamps(out@) == start + filtered(views.take(iter.index()), filter@),
    {
        let ghost i = iter.index();
        let ghost before = out@;
        proof {
            assert(views.take(i + 1).drop_last() =~= views.take(i));
            assert(views.take(i + 1).last() == row@);
        }
        if filter.asks_for(row.key.as_slice(), row.timestamp) {
            out.push(row);
            assert(stamps(out@) =~= stamps(before).push(row@));
        }
        assert(stamps(out@) =~= start + filtered(views.take(i + 1), filter@));
    }
    assert(views.take(all.len() as int) =~= views);
}

/// Appends the rows of a file that are asked for. Blocks that cannot be read
/// are passed over.
pub fn collect_file_rows(
    data: &[u8],
    index: &SstBlockIndex,
    filter: &RowFilter,
    out: &mut Vec<Row>,
) -> (reads: Ghost<Seq<ColumnsRead>>)
    ensures
        file_read(data@, index.entries@, filter@, reads@),
        stamps(final(out)@) == stamps(old(out)@) + file_rows(
            data@,
            index.entries@,
            filter@,
            reads@,
        ),
{
    let ghost start = stamps(out@);
    let ghost entries = index.entries@;
    let ghost mut reads = Seq::<ColumnsRead>::empty();
    let mut i: usize = 0;
    assert(entries.take(0) =~= Seq::<BlockIndexEntry>::empty());
    assert(stamps(out@) =~= start + file_rows(data@, entries.take(0), filter@, reads));
    while i < index.entries.len()
        invariant
            i <= entries.len(),
            entries == index.entries@,
            file_read(data@, entries.take(i as int), filter@, reads),
            stamps(out@) == start + file_rows(data@, entries.take(i as int), filter@, reads),
        decreases entries.len() - i,
    {
        let entry = &index.entries[i];
        let ghost before = reads;
        let ghost mut columns = arbitrary::<ColumnsRead>();
        match read_entry(data, entry) {
            Some(block) => {
                if !filter.skips(&block) {
                    let (rows, Ghost(outcome)) = read_block_rows(&block);
                    keep_rows(rows, filter, out);
                    proof {
                        columns = outcome;
                    }
                }
            },
            None => {},
        }
        proof {
            reads = reads.push(columns);
            assert(entries.take(i + 1).drop_last() =~= entries.take(i as int));
            assert(reads.drop_last() =~= before);
            assert(stamps(out@) =~= start + file_rows(data@, entries.take(i + 1), filter@, reads));
            let next = entries.take(i + 1);
            assert forall|k: int| 0 <= k < next.len() implies (entry_block(
                data@,
                #[trigger] next[k],
            ) matches Some(b) ==> (!skipped(b, filter@) ==> columns_read(b, reads[k]))) by {
                if k < i {
                    assert(entries.take(i as int)[k] == next[k]);
                }
            }
        }
        i = i + 1;
    }
    assert(entries.take(i as int) =~= entries);
    Ghost(reads)
}

} // verus!
