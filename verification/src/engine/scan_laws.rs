//! A flush changes no scan.

use vstd::prelude::*;

use crate::bytes::{lemma_lex_irreflexive, lex_lt};
use crate::column::ColumnType;
use crate::columnar::{ColumnarRegistration, RowColumnSplitter};
use crate::engine::kv::{lemma_prefix_pruning_sound, overlaps_prefix};
use crate::engine::laws::{
    block_of, flush_fits, lemma_base_part, lemma_block_reads_back,
    lemma_stored_rows_read_back, read_back, rows_fit,
};
use crate::engine::newest::{lemma_pick_wins, pick, wins};
use crate::engine::read::{
    asked_for, block_rows, columns_read, entry_block, file_read, file_rows, filtered, skipped,
    within, ColumnsRead, FilterView,
};
use crate::engine::registry::index_or_whole;
use crate::engine::scan::latest_value;
use crate::engine::state::{flush_begun, flush_config, EngineConfig, EngineState, PendingFlush};
use crate::flush::{
    base_columns, block_codecs, block_columns, chunks_of_rows, flushed, flushing, joined,
    lemma_block_not_empty, lemma_blocks_cover_rows, lemma_joined_last, newest, rows_block, rows_encoded,
    Packing, SstFile,
};
use crate::memtable::lists;
use crate::memtable::versioned_value::{Version, VersionedValue};
use crate::pax::block::{concat, described, parse_block, written_block, ColumnView};
use crate::pax::zone_map::{greatest, least, lemma_zone_map_bounds};
use crate::pax::CodecId;
use crate::row::{rows_of, RowView};
use crate::sst::{block_at, entries_of, indexable, lemma_sst_round_trip, sst_bytes};

verus! {

// What a scan reads of a block

/// Filtering one list after another.
pub proof fn lemma_filtered_append(a: Seq<RowView>, b: Seq<RowView>, filter: FilterView)
    ensures
        filtered(a + b, filter) == filtered(a, filter) + filtered(b, filter),
    decreases b.len(),
{
    if b.len() == 0 {
        assert(a + b =~= a);
        assert(filtered(a, filter) + filtered(b, filter) =~= filtered(a, filter));
    } else {
        lemma_filtered_append(a, b.drop_last(), filter);
        assert((a + b).drop_last() =~= a + b.drop_last());
        assert((a + b).last() == b.last());
        assert(filtered(a + b, filter) =~= filtered(a, filter) + filtered(b, filter));
    }
}

proof fn lemma_filtered_none(rows: Seq<RowView>, filter: FilterView)
    requires
        forall|i: int|
            0 <= i < rows.len() ==> !asked_for(
                filter,
                (#[trigger] rows[i]).key,
                rows[i].timestamp,
            ),
    ensures
        filtered(rows, filter).len() == 0,
    decreases rows.len(),
{
    if rows.len() > 0 {
        assert(rows[rows.len() - 1] == rows.last());
        assert forall|i: int| 0 <= i < rows.drop_last().len() implies !asked_for(
            filter,
            (#[trigger] rows.drop_last()[i]).key,
            rows.drop_last()[i].timestamp,
        ) by {
            assert(rows[i] == rows.drop_last()[i]);
        }
        lemma_filtered_none(rows.drop_last(), filter);
    }
}

/// A row is left exactly if it was there and is asked for.
pub proof fn lemma_filtered_has(rows: Seq<RowView>, filter: FilterView, row: RowView)
    ensures
        filtered(rows, filter).contains(row) <==> rows.contains(row) && asked_for(
            filter,
            row.key,
            row.timestamp,
        ),
    decreases rows.len(),
{
    if rows.len() > 0 {
        let front = rows.drop_last();
        let before = filtered(front, filter);
        let after = filtered(rows, filter);
        lemma_filtered_has(front, filter, row);
        if rows.contains(row) {
            let i = choose|i: int| 0 <= i < rows.len() && rows[i] == row;
            if i < front.len() {
                assert(front[i] == row);
            }
        }
        if front.contains(row) {
            let i = choose|i: int| 0 <= i < front.len() && front[i] == row;
            assert(rows[i] == row);
        }
        assert(rows[rows.len() - 1] == rows.last());
        if asked_for(filter, rows.last().key, rows.last().timestamp) {
            assert(after[after.len() - 1] == rows.last());
            if before.contains(row) {
                let i = choose|i: int| 0 <= i < before.len() && before[i] == row;
                assert(after[i] == row);
            }
            if after.contains(row) {
                let i = choose|i: int| 0 <= i < after.len() && after[i] == row;
                if i < before.len() {
                    assert(before[i] == row);
                }
            }
        }
    }
}

/// Reading back one list after another.
pub proof fn lemma_read_back_append(a: Seq<RowView>, b: Seq<RowView>)
    ensures
        read_back(a + b) == read_back(a) + read_back(b),
{
    assert(read_back(a + b) =~= read_back(a) + read_back(b));
}

/// The rows that a scan reads out of the bytes of a block.
#[verifier::opaque]
pub open spec fn block_scan(block: Seq<u8>, filter: FilterView, columns: ColumnsRead) -> Seq<
    RowView,
> {
    match parse_block(block) {
        Ok(b) => if skipped(b, filter) {
            Seq::<RowView>::empty()
        } else {
            filtered(block_rows(b, columns), filter)
        },
        Err(_) => Seq::<RowView>::empty(),
    }
}

/// Whether this is what came out of a block, and its keys were decompressed.
#[verifier::opaque]
pub open spec fn came_out(block: Seq<u8>, filter: FilterView, columns: ColumnsRead) -> bool {
    parse_block(block) matches Ok(b) ==> (!skipped(b, filter) ==> columns_read(b, columns)
        && columns.keys is Ok)
}

proof fn lemma_first_range(
    block_id: u64,
    timestamp: u64,
    columns: Seq<ColumnView>,
    codecs: Seq<CodecId>,
)
    requires
        3 <= columns.len() <= u16::MAX,
    ensures
        ({
            let header = written_block(block_id, timestamp, columns, codecs).header;
            &&& header.column_count >= 3
            &&& header.descriptors.len() > 0
            &&& header.descriptors[0].zone_map_min == least(columns[0].col_type, columns[0].rows)
            &&& header.descriptors[0].zone_map_max == greatest(
                columns[0].col_type,
                columns[0].rows,
            )
        }),
{
    let header = written_block(block_id, timestamp, columns, codecs).header;
    assert(header.descriptors[0] == described(columns, codecs, 0));
}

#[verifier::rlimit(50)]
proof fn lemma_key_range<S: RowColumnSplitter>(
    rows: Seq<RowView>,
    registrations: Seq<ColumnarRegistration<S>>,
    block_id: u64,
    timestamp: u64,
)
    requires
        rows_fit(rows, registrations),
    ensures
        ({
            let header = block_of(rows, registrations, block_id, timestamp).header;
            let keys = base_columns(rows)[0].rows;
            &&& header.column_count >= 3
            &&& header.descriptors.len() > 0
            &&& header.descriptors[0].zone_map_min == least(ColumnType::Blob, keys)
            &&& header.descriptors[0].zone_map_max == greatest(ColumnType::Blob, keys)
        }),
{
    let columns = block_columns(rows, registrations);
    lemma_base_part(rows, registrations);
    assert(columns[0] == base_columns(rows)[0]);
    lemma_first_range(block_id, timestamp, columns, block_codecs(rows, registrations));
}

proof fn lemma_none_outside(rows: Seq<RowView>, filter: FilterView, prefix: Seq<u8>)
    requires
        filter.prefix == Some(prefix),
        ({
            let keys = base_columns(rows)[0].rows;
            !overlaps_prefix(
                least(ColumnType::Blob, keys),
                greatest(ColumnType::Blob, keys),
                prefix,
            )
        }),
    ensures
        filtered(read_back(rows), filter) == Seq::<RowView>::empty(),
{
    let keys = base_columns(rows)[0].rows;
    let low = least(ColumnType::Blob, keys);
    let high = greatest(ColumnType::Blob, keys);
    assert forall|i: int| 0 <= i < read_back(rows).len() implies !asked_for(
        filter,
        (#[trigger] read_back(rows)[i]).key,
        read_back(rows)[i].timestamp,
    ) by {
        let key = rows[i].key;
        assert(keys[i] == key);
        lemma_zone_map_bounds(ColumnType::Blob, keys, i);
        if prefix.is_prefix_of(key) {
            lemma_prefix_pruning_sound(low, high, prefix, key);
        }
    }
    lemma_filtered_none(read_back(rows), filter);
}

/// A scan of a block gives the rows asked for out of those that were written: pruning
/// by its key range hides none.
#[verifier::rlimit(50)]
pub proof fn lemma_block_scan<S: RowColumnSplitter>(
    rows: Seq<RowView>,
    registrations: Seq<ColumnarRegistration<S>>,
    block_id: u64,
    timestamp: u64,
    filter: FilterView,
    columns: ColumnsRead,
)
    requires
        rows_fit(rows, registrations),
        rows_encoded(rows, registrations),
        came_out(rows_block(rows, registrations, block_id, timestamp), filter, columns),
    ensures
        block_scan(rows_block(rows, registrations, block_id, timestamp), filter, columns)
            == filtered(read_back(rows), filter),
{
    reveal(block_scan);
    reveal(came_out);
    lemma_block_reads_back(rows, registrations, block_id, timestamp);
    let b = block_of(rows, registrations, block_id, timestamp);
    let block = rows_block(rows, registrations, block_id, timestamp);
    if skipped(b, filter) {
        lemma_key_range(rows, registrations, block_id, timestamp);
        match filter.prefix {
            Some(prefix) => {
                lemma_none_outside(rows, filter, prefix);
            },
            None => {},
        }
        assert(block_scan(block, filter, columns) == Seq::<RowView>::empty());
    } else {
        assert(columns_read(b, columns) && columns.keys is Ok);
        lemma_stored_rows_read_back(rows, registrations, block_id, timestamp, columns);
    }
}

// What a scan reads of a flush

/// The rows that a scan reads out of blocks.
pub open spec fn blocks_scan(
    blocks: Seq<Seq<u8>>,
    filter: FilterView,
    reads: Seq<ColumnsRead>,
) -> Seq<RowView>
    decreases blocks.len(),
{
    if blocks.len() == 0 {
        Seq::<RowView>::empty()
    } else {
        blocks_scan(blocks.drop_last(), filter, reads.drop_last()) + block_scan(
            blocks.last(),
            filter,
            reads.last(),
        )
    }
}

/// Whether this is what came out of blocks.
pub open spec fn all_came_out(
    blocks: Seq<Seq<u8>>,
    filter: FilterView,
    reads: Seq<ColumnsRead>,
) -> bool {
    &&& reads.len() == blocks.len()
    &&& forall|i: int| 0 <= i < blocks.len() ==> came_out(#[trigger] blocks[i], filter, reads[i])
}

/// The rows that a scan reads out of files, each given by its blocks.
pub open spec fn files_scan(
    files: Seq<Seq<Seq<u8>>>,
    filter: FilterView,
    reads: Seq<Seq<ColumnsRead>>,
) -> Seq<RowView>
    decreases files.len(),
{
    if files.len() == 0 {
        Seq::<RowView>::empty()
    } else {
        files_scan(files.drop_last(), filter, reads.drop_last()) + blocks_scan(
            files.last(),
            filter,
            reads.last(),
        )
    }
}

/// Whether this is what came out of files.
pub open spec fn files_came_out(
    files: Seq<Seq<Seq<u8>>>,
    filter: FilterView,
    reads: Seq<Seq<ColumnsRead>>,
) -> bool {
    &&& reads.len() == files.len()
    &&& forall|f: int|
        0 <= f < files.len() ==> all_came_out(#[trigger] files[f], filter, reads[f])
}

proof fn lemma_came_out_front(
    blocks: Seq<Seq<u8>>,
    filter: FilterView,
    reads: Seq<ColumnsRead>,
)
    requires
        all_came_out(blocks, filter, reads),
        blocks.len() > 0,
    ensures
        all_came_out(blocks.drop_last(), filter, reads.drop_last()),
        came_out(blocks.last(), filter, reads.last()),
{
    let front = blocks.drop_last();
    assert forall|i: int| 0 <= i < front.len() implies came_out(
        #[trigger] front[i],
        filter,
        reads.drop_last()[i],
    ) by {
        assert(blocks[i] == front[i]);
    }
    assert(blocks[blocks.len() - 1] == blocks.last());
}

proof fn lemma_files_front(
    files: Seq<Seq<Seq<u8>>>,
    filter: FilterView,
    reads: Seq<Seq<ColumnsRead>>,
)
    requires
        files_came_out(files, filter, reads),
        files.len() > 0,
    ensures
        files_came_out(files.drop_last(), filter, reads.drop_last()),
        all_came_out(files.last(), filter, reads.last()),
{
    let front = files.drop_last();
    assert forall|f: int| 0 <= f < front.len() implies all_came_out(
        #[trigger] front[f],
        filter,
        reads.drop_last()[f],
    ) by {
        assert(files[f] == front[f]);
    }
    assert(files[files.len() - 1] == files.last());
}

/// Files, and the blocks of the one in the making.
pub ghost struct Filling {
    pub files: Seq<Seq<Seq<u8>>>,
    pub open: Seq<Seq<u8>>,
}

impl Filling {
    /// A block added; the file is closed once it has reached its size.
    pub open spec fn with_block(self, block: Seq<u8>, limit: u64) -> Filling {
        let open = self.open.push(block);
        if concat(open).len() >= limit {
            Filling { files: self.files.push(open), open: Seq::<Seq<u8>>::empty() }
        } else {
            Filling { files: self.files, open }
        }
    }

    /// All files, the last one too if it holds anything.
    pub open spec fn finished(self) -> Seq<Seq<Seq<u8>>> {
        if concat(self.open).len() > 0 {
            self.files.push(self.open)
        } else {
            self.files
        }
    }

    /// Whether this is what came out.
    pub open spec fn came_out(
        self,
        filter: FilterView,
        reads: Seq<Seq<ColumnsRead>>,
        open: Seq<ColumnsRead>,
    ) -> bool {
        &&& files_came_out(self.files, filter, reads)
        &&& all_came_out(self.open, filter, open)
    }

    /// The rows that a scan reads.
    pub open spec fn scan(
        self,
        filter: FilterView,
        reads: Seq<Seq<ColumnsRead>>,
        open: Seq<ColumnsRead>,
    ) -> Seq<RowView> {
        files_scan(self.files, filter, reads) + blocks_scan(self.open, filter, open)
    }
}

/// Of what came out once a block is added, the part that came out of it and the
/// parts that came out of what was there before.
#[verifier::rlimit(50)]
pub proof fn lemma_added_block(
    before: Filling,
    block: Seq<u8>,
    limit: u64,
    filter: FilterView,
    reads: Seq<Seq<ColumnsRead>>,
    open: Seq<ColumnsRead>,
) -> (parts: (Seq<Seq<ColumnsRead>>, Seq<ColumnsRead>))
    requires
        before.with_block(block, limit).came_out(filter, reads, open),
    ensures
        parts.1.len() > 0,
        before.came_out(filter, parts.0, parts.1.drop_last()),
        came_out(block, filter, parts.1.last()),
        before.with_block(block, limit).scan(filter, reads, open) == before.scan(
            filter,
            parts.0,
            parts.1.drop_last(),
        ) + block_scan(block, filter, parts.1.last()),
{
    let placed = before.open.push(block);
    let after = before.with_block(block, limit);
    let full = concat(placed).len() >= limit;
    assert(placed.drop_last() =~= before.open);
    assert(placed.last() == block);
    let (earlier, made) = if full {
        (reads.drop_last(), reads.last())
    } else {
        (reads, open)
    };
    if full {
        lemma_files_front(after.files, filter, reads);
        assert(after.files.drop_last() =~= before.files);
    }
    lemma_came_out_front(placed, filter, made);
    let files_part = files_scan(before.files, filter, earlier);
    let open_part = blocks_scan(before.open, filter, made.drop_last());
    let last_part = block_scan(block, filter, made.last());
    assert(blocks_scan(placed, filter, made) == open_part + last_part);
    assert((files_part + open_part) + last_part =~= files_part + (open_part + last_part));
    if full {
        assert(files_scan(after.files, filter, reads) == files_part + (open_part + last_part));
        assert(files_scan(after.files, filter, reads) + blocks_scan(after.open, filter, open)
            =~= files_scan(after.files, filter, reads));
    }
    (earlier, made)
}

/// What came out of all files in the end, parted into those that were closed and the
/// last one.
pub proof fn lemma_finished(
    filling: Filling,
    filter: FilterView,
    reads: Seq<Seq<ColumnsRead>>,
) -> (parts: (Seq<Seq<ColumnsRead>>, Seq<ColumnsRead>))
    requires
        filling.open.len() > 0 ==> concat(filling.open).len() > 0,
        files_came_out(filling.finished(), filter, reads),
    ensures
        filling.came_out(filter, parts.0, parts.1),
        files_scan(filling.finished(), filter, reads) == filling.scan(filter, parts.0, parts.1),
{
    if concat(filling.open).len() > 0 {
        lemma_files_front(filling.finished(), filter, reads);
        assert(filling.finished().drop_last() =~= filling.files);
        (reads.drop_last(), reads.last())
    } else {
        let none = Seq::<ColumnsRead>::empty();
        assert(filling.open.len() == 0);
        assert(filling.scan(filter, reads, none) =~= files_scan(filling.files, filter, reads));
        (reads, none)
    }
}

/// The files of a flush, each given by its blocks.
pub open spec fn file_blocks(files: Seq<(u64, Seq<Seq<u8>>)>) -> Seq<Seq<Seq<u8>>> {
    Seq::new(files.len(), |f: int| files[f].1)
}

/// What a flush has packed.
spec fn filled(packing: Packing) -> Filling {
    Filling { files: file_blocks(packing.files), open: packing.open }
}

/// What came out of the files and of the file in the making is what was packed.
#[verifier::rlimit(50)]
proof fn lemma_packing_scan<S: RowColumnSplitter>(
    chunks: Seq<Seq<RowView>>,
    registrations: Seq<ColumnarRegistration<S>>,
    commit_timestamp: u64,
    limit: u64,
    first: u64,
    filter: FilterView,
    reads: Seq<Seq<ColumnsRead>>,
    open: Seq<ColumnsRead>,
)
    requires
        forall|k: int|
            0 <= k < chunks.len() ==> rows_fit(#[trigger] chunks[k], registrations)
                && rows_encoded(chunks[k], registrations),
        filled(
            flushing(chunks, registrations, commit_timestamp, limit, first).packing,
        ).came_out(filter, reads, open),
    ensures
        filled(flushing(chunks, registrations, commit_timestamp, limit, first).packing).scan(
            filter,
            reads,
            open,
        ) == filtered(read_back(joined(chunks)), filter),
    decreases chunks.len(),
{
    let packing = flushing(chunks, registrations, commit_timestamp, limit, first).packing;
    if chunks.len() == 0 {
        assert(read_back(joined(chunks)) =~= Seq::<RowView>::empty());
        assert(filled(packing).scan(filter, reads, open) =~= Seq::<RowView>::empty());
    } else {
        let front = chunks.drop_last();
        let rows = chunks.last();
        let before = flushing(front, registrations, commit_timestamp, limit, first);
        let stamp = newest(rows, commit_timestamp);
        let block = rows_block(rows, registrations, before.next, stamp);
        assert(chunks[chunks.len() - 1] == rows);
        assert forall|k: int| 0 <= k < front.len() implies rows_fit(
            #[trigger] front[k],
            registrations,
        ) && rows_encoded(front[k], registrations) by {
            assert(chunks[k] == front[k]);
        }
        assert(filled(packing).files =~= filled(before.packing).with_block(block, limit).files);
        let (earlier, made) = lemma_added_block(
            filled(before.packing),
            block,
            limit,
            filter,
            reads,
            open,
        );
        lemma_packing_scan(
            front,
            registrations,
            commit_timestamp,
            limit,
            first,
            filter,
            earlier,
            made.drop_last(),
        );
        lemma_block_scan(rows, registrations, before.next, stamp, filter, made.last());
        lemma_joined_last(chunks);
        lemma_read_back_append(joined(front), rows);
        lemma_filtered_append(read_back(joined(front)), read_back(rows), filter);
    }
}

#[verifier::rlimit(50)]
proof fn lemma_open_not_empty<S: RowColumnSplitter>(
    chunks: Seq<Seq<RowView>>,
    registrations: Seq<ColumnarRegistration<S>>,
    commit_timestamp: u64,
    limit: u64,
    first: u64,
)
    ensures
        ({
            let packing = flushing(chunks, registrations, commit_timestamp, limit, first).packing;
            packing.open.len() > 0 ==> concat(packing.open).len() > 0
        }),
{
    if chunks.len() > 0 {
        let front = chunks.drop_last();
        let rows = chunks.last();
        let before = flushing(front, registrations, commit_timestamp, limit, first);
        let stamp = newest(rows, commit_timestamp);
        lemma_block_not_empty(rows, registrations, before.next, stamp);
        let block = rows_block(rows, registrations, before.next, stamp);
        let placed = before.packing.placed(before.next, block, rows.len() as usize);
        assert(placed.open.last() == block);
    }
}

#[verifier::rlimit(50)]
proof fn lemma_flushed_scan<S: RowColumnSplitter>(
    chunks: Seq<Seq<RowView>>,
    registrations: Seq<ColumnarRegistration<S>>,
    commit_timestamp: u64,
    limit: u64,
    first: u64,
    filter: FilterView,
    reads: Seq<Seq<ColumnsRead>>,
)
    requires
        forall|k: int|
            0 <= k < chunks.len() ==> rows_fit(#[trigger] chunks[k], registrations)
                && rows_encoded(chunks[k], registrations),
        files_came_out(
            file_blocks(
                flushed(chunks, registrations, commit_timestamp, limit, first).packing.files,
            ),
            filter,
            reads,
        ),
    ensures
        files_scan(
            file_blocks(
                flushed(chunks, registrations, commit_timestamp, limit, first).packing.files,
            ),
            filter,
            reads,
        ) == filtered(read_back(joined(chunks)), filter),
{
    let last = flushing(chunks, registrations, commit_timestamp, limit, first);
    let end = flushed(chunks, registrations, commit_timestamp, limit, first);
    lemma_open_not_empty(chunks, registrations, commit_timestamp, limit, first);
    assert(file_blocks(end.packing.files) =~= filled(last.packing).finished());
    let (closed, open) = lemma_finished(filled(last.packing), filter, reads);
    lemma_packing_scan(
        chunks,
        registrations,
        commit_timestamp,
        limit,
        first,
        filter,
        closed,
        open,
    );
}

// Files

proof fn lemma_file_scan(
    blocks: Seq<Seq<u8>>,
    filter: FilterView,
    reads: Seq<ColumnsRead>,
    n: int,
)
    requires
        indexable(blocks),
        0 <= n <= blocks.len(),
        reads.len() == blocks.len(),
    ensures
        file_rows(sst_bytes(blocks), entries_of(blocks).take(n), filter, reads.take(n))
            == blocks_scan(blocks.take(n), filter, reads.take(n)),
    decreases n,
{
    reveal(block_scan);
    if n > 0 {
        lemma_file_scan(blocks, filter, reads, n - 1);
        lemma_sst_round_trip(blocks);
        let entries = entries_of(blocks).take(n);
        assert(entries.drop_last() =~= entries_of(blocks).take(n - 1));
        assert(reads.take(n).drop_last() =~= reads.take(n - 1));
        assert(blocks.take(n).drop_last() =~= blocks.take(n - 1));
        assert(entries.last() == entries_of(blocks)[n - 1]);
        assert(block_at(sst_bytes(blocks), entries.last()) == blocks[n - 1]);
    }
}

/// The rows that a scan reads out of the first `n` files.
pub open spec fn contents_rows(
    contents: Seq<Seq<u8>>,
    filter: FilterView,
    reads: Seq<Seq<ColumnsRead>>,
    n: int,
) -> Seq<RowView>
    decreases n,
{
    if n <= 0 {
        Seq::<RowView>::empty()
    } else {
        contents_rows(contents, filter, reads, n - 1) + file_rows(
            contents[n - 1],
            index_or_whole(contents[n - 1]),
            filter,
            reads[n - 1],
        )
    }
}

/// Whether this is what came out of a file, and all keys were decompressed.
#[verifier::opaque]
pub open spec fn file_read_whole(
    data: Seq<u8>,
    filter: FilterView,
    read: Seq<ColumnsRead>,
) -> bool {
    &&& file_read(data, index_or_whole(data), filter, read)
    &&& forall|i: int|
        0 <= i < read.len() ==> (entry_block(
            data,
            #[trigger] index_or_whole(data)[i],
        ) matches Some(b) ==> (!skipped(b, filter) ==> read[i].keys is Ok))
}

/// Whether this is what came out of files, and all keys were decompressed.
pub open spec fn contents_read(
    contents: Seq<Seq<u8>>,
    filter: FilterView,
    reads: Seq<Seq<ColumnsRead>>,
) -> bool {
    &&& reads.len() == contents.len()
    &&& forall|f: int|
        0 <= f < contents.len() ==> file_read_whole(#[trigger] contents[f], filter, reads[f])
}

#[verifier::rlimit(50)]
proof fn lemma_file_came_out(
    blocks: Seq<Seq<u8>>,
    filter: FilterView,
    read: Seq<ColumnsRead>,
)
    requires
        indexable(blocks),
        file_read_whole(sst_bytes(blocks), filter, read),
    ensures
        all_came_out(blocks, filter, read),
        file_rows(
            sst_bytes(blocks),
            index_or_whole(sst_bytes(blocks)),
            filter,
            read,
        ) == blocks_scan(blocks, filter, read),
{
    reveal(came_out);
    reveal(file_read_whole);
    let data = sst_bytes(blocks);
    let n = blocks.len() as int;
    lemma_sst_round_trip(blocks);
    assert(index_or_whole(data) == entries_of(blocks));
    assert forall|i: int| 0 <= i < blocks.len() implies came_out(
        #[trigger] blocks[i],
        filter,
        read[i],
    ) by {
        let entry = entries_of(blocks)[i];
        assert(block_at(data, entry) == blocks[i]);
        assert(within(data, entry));
    }
    lemma_file_scan(blocks, filter, read, n);
    assert(entries_of(blocks).take(n) =~= entries_of(blocks));
    assert(blocks.take(n) =~= blocks);
    assert(read.take(n) =~= read);
}

/// A scan of files is a scan of their blocks.
#[verifier::rlimit(50)]
pub proof fn lemma_contents_scan(
    contents: Seq<Seq<u8>>,
    files: Seq<Seq<Seq<u8>>>,
    filter: FilterView,
    reads: Seq<Seq<ColumnsRead>>,
    n: int,
)
    requires
        contents.len() == files.len(),
        forall|f: int|
            0 <= f < files.len() ==> indexable(#[trigger] files[f]) && contents[f] == sst_bytes(
                files[f],
            ),
        contents_read(contents, filter, reads),
        0 <= n <= files.len(),
    ensures
        files_came_out(files.take(n), filter, reads.take(n)),
        contents_rows(contents, filter, reads, n) == files_scan(
            files.take(n),
            filter,
            reads.take(n),
        ),
    decreases n,
{
    if n > 0 {
        lemma_contents_scan(contents, files, filter, reads, n - 1);
        let blocks = files[n - 1];
        assert(indexable(blocks) && contents[n - 1] == sst_bytes(blocks));
        lemma_file_came_out(blocks, filter, reads[n - 1]);
        assert(files.take(n).drop_last() =~= files.take(n - 1));
        assert(reads.take(n).drop_last() =~= reads.take(n - 1));
        assert forall|f: int| 0 <= f < n implies all_came_out(
            #[trigger] files.take(n)[f],
            filter,
            reads.take(n)[f],
        ) by {
            if f < n - 1 {
                assert(files.take(n - 1)[f] == files.take(n)[f]);
            }
        }
    } else {
        assert(files.take(0) =~= Seq::<Seq<Seq<u8>>>::empty());
    }
}

/// The contents of the files of a flush.
pub open spec fn sst_contents(ssts: Seq<SstFile>) -> Seq<Seq<u8>> {
    Seq::new(ssts.len(), |i: int| ssts[i].bytes@)
}

/// A scan of the files of a flush gives, in order, the rows asked for out of those that
/// were in the memtable, unless Zstandard fails on some keys.
#[verifier::rlimit(50)]
pub proof fn lemma_flush_then_scan<S: RowColumnSplitter>(
    state: EngineState<S>,
    config: EngineConfig,
    first: u64,
    pending: PendingFlush,
    begun: EngineState<S>,
    next: u64,
    filter: FilterView,
    reads: Seq<Seq<ColumnsRead>>,
)
    requires
        flush_begun(state, config, first, Ok(Some(pending)), begun, next),
        flush_fits(state, config, pending, first),
        contents_read(sst_contents(pending.flush.ssts@), filter, reads),
    ensures
        contents_rows(
            sst_contents(pending.flush.ssts@),
            filter,
            reads,
            pending.flush.ssts@.len() as int,
        ) == filtered(read_back(rows_of(pending.entries@)), filter),
{
    let rows = rows_of(pending.entries@);
    let regs = state.registrations;
    let chunks = chunks_of_rows(rows, flush_config(config), regs);
    let files = flushed(
        chunks,
        regs,
        pending.sst_id,
        config.sst_size_bytes,
        first,
    ).packing.files;
    let contents = sst_contents(pending.flush.ssts@);
    let lists = file_blocks(files);
    let n = lists.len() as int;
    lemma_blocks_cover_rows(rows, flush_config(config), regs);
    assert forall|f: int| 0 <= f < n implies indexable(#[trigger] lists[f]) && contents[f]
        == sst_bytes(lists[f]) by {
        assert(files[f].1 == lists[f]);
    }
    lemma_contents_scan(contents, lists, filter, reads, n);
    assert(lists.take(n) =~= lists);
    assert(reads.take(n) =~= reads);
    lemma_flushed_scan(
        chunks,
        regs,
        pending.sst_id,
        config.sst_size_bytes,
        first,
        filter,
        reads,
    );
}

// The whole scan

/// No two versions of a key have the same timestamp.
pub open spec fn no_ties(rows: Seq<RowView>) -> bool {
    forall|i: int, j: int|
        #![trigger rows[i], rows[j]]
        0 <= i < rows.len() && 0 <= j < rows.len() && rows[i].key == rows[j].key
            && rows[i].timestamp == rows[j].timestamp ==> rows[i] == rows[j]
}

proof fn lemma_pick_newest(rows: Seq<RowView>, row: RowView)
    requires
        no_ties(rows),
        rows.contains(row),
        forall|i: int|
            0 <= i < rows.len() && (#[trigger] rows[i]).key == row.key ==> rows[i].timestamp
                <= row.timestamp,
    ensures
        pick(rows, row.key) == Some(row),
{
    lemma_pick_wins(rows, row.key);
    let at = choose|at: int| 0 <= at < rows.len() && rows[at] == row;
    match pick(rows, row.key) {
        Some(found) => {
            let i = choose|i: int| #[trigger]
                wins(rows, i) && rows[i] == found && found.key == row.key;
            if i != at {
                assert(rows[at].key == rows[i].key);
                assert(rows[at].timestamp <= rows[i].timestamp);
            }
        },
        None => {
            assert(rows[at].key != row.key);
        },
    }
}

/// A flush changes no scan: if the rows stored afterwards are those that were stored
/// before and those of the memtable, a scan with an empty memtable shows the same value
/// of every key. The versions of a key in the memtable are newer than the stored ones,
/// and a value is not empty.
pub proof fn lemma_flush_keeps_scans(
    before: Seq<RowView>,
    after: Seq<RowView>,
    chains: Map<Seq<u8>, Seq<Version>>,
    entries: Seq<(Vec<u8>, VersionedValue)>,
    prefix: Option<Seq<u8>>,
    key: Seq<u8>,
)
    requires
        lists(entries, chains, |key: Seq<u8>| true),
        forall|row: RowView| #[trigger]
            after.contains(row) <==> before.contains(row) || filtered(
                read_back(rows_of(entries)),
                (FilterView { prefix, read_ts: None }),
            ).contains(row),
        no_ties(after),
        forall|i: int|
            0 <= i < before.len() && (#[trigger] before[i]).key == key && chains.contains_key(key)
                ==> before[i].timestamp <= chains[key][0].timestamp,
        chains.contains_key(key) ==> chains[key][0].value != Some(Seq::<u8>::empty()),
    ensures
        latest_value(after, Map::<Seq<u8>, Seq<Version>>::empty(), prefix, key) == latest_value(
            before,
            chains,
            prefix,
            key,
        ),
{
    let filter = FilterView { prefix, read_ts: None };
    let rows = rows_of(entries);
    let added = filtered(read_back(rows), filter);
    if chains.contains_key(key) && (prefix matches Some(p) ==> p.is_prefix_of(key)) {
        let keep = |key: Seq<u8>| true;
        assert(keep(key));
        let e = choose|e: int| 0 <= e < entries.len() && (#[trigger] entries[e]).0@ == key;
        let row = read_back(rows)[e];
        assert(rows[e].key == key);
        assert(chains[key] == entries[e].1.chain());
        assert(chains[key][0].timestamp == entries[e].1.timestamp);
        assert(row.value == chains[key][0].value) by {
            match chains[key][0].value {
                Some(bytes) => {
                    if bytes.len() == 0 {
                        assert(bytes =~= Seq::<u8>::empty());
                    }
                },
                None => {},
            }
        }
        assert(read_back(rows).contains(row));
        lemma_filtered_has(read_back(rows), filter, row);
        assert(after.contains(row));
        assert forall|i: int|
            0 <= i < after.len() && (#[trigger] after[i]).key == key implies after[i].timestamp
            <= row.timestamp by {
            assert(after.contains(after[i]));
            if before.contains(after[i]) {
                let j = choose|j: int| 0 <= j < before.len() && before[j] == after[i];
                assert(before[j].key == key);
            } else {
                lemma_filtered_has(read_back(rows), filter, after[i]);
                let j = choose|j: int|
                    0 <= j < read_back(rows).len() && read_back(rows)[j] == after[i];
                lemma_same_entry(entries, e, j);
            }
        }
        lemma_pick_newest(after, row);
    } else {
        assert forall|row: RowView| row.key == key && #[trigger] after.contains(
            row,
        ) implies before.contains(row) by {
            if added.contains(row) {
                lemma_filtered_has(read_back(rows), filter, row);
                let j = choose|j: int|
                    0 <= j < read_back(rows).len() && read_back(rows)[j] == row;
                assert(entries[j].0@ == key);
            }
        }
        lemma_pick_same(before, after, key);
    }
}

proof fn lemma_same_entry(entries: Seq<(Vec<u8>, VersionedValue)>, a: int, b: int)
    requires
        forall|i: int, j: int|
            #![trigger entries[i], entries[j]]
            0 <= i < j < entries.len() ==> lex_lt(entries[i].0@, entries[j].0@),
        0 <= a < entries.len(),
        0 <= b < entries.len(),
        entries[a].0@ == entries[b].0@,
    ensures
        a == b,
{
    lemma_lex_irreflexive(entries[a].0@);
}

proof fn lemma_pick_same(before: Seq<RowView>, after: Seq<RowView>, key: Seq<u8>)
    requires
        no_ties(after),
        forall|row: RowView|
            row.key == key ==> (#[trigger] after.contains(row) <==> before.contains(row)),
    ensures
        pick(before, key) == pick(after, key),
{
    lemma_pick_wins(before, key);
    match pick(before, key) {
        Some(row) => {
            let i = choose|i: int| #[trigger]
                wins(before, i) && before[i] == row && row.key == key;
            assert(before.contains(row));
            assert forall|j: int|
                0 <= j < after.len() && (#[trigger] after[j]).key == row.key implies after[j].timestamp
                <= row.timestamp by {
                assert(after.contains(after[j]));
                let k = choose|k: int| 0 <= k < before.len() && before[k] == after[j];
                assert(before[k].key == before[i].key);
            }
            lemma_pick_newest(after, row);
        },
        None => {
            lemma_pick_wins(after, key);
            match pick(after, key) {
                Some(row) => {
                    let i = choose|i: int| #[trigger]
                        wins(after, i) && after[i] == row && row.key == key;
                    assert(after.contains(row));
                    let k = choose|k: int| 0 <= k < before.len() && before[k] == row;
                    assert(before[k].key == key);
                },
                None => {},
            }
        },
    }
}

} // verus!
