//! A compaction changes no scan.

use vstd::prelude::*;

use crate::columnar::{ColumnarRegistration, RowColumnSplitter};
use crate::engine::compact::{
    all_built, built, ceil_div, chunks_encoded, lemma_chunks_cover, run_chunks,
    run_outputs, shared_out, slice_outputs, slices, workers_for, Building, CompactionOutput,
    OutputView,
};
use crate::engine::compact_laws::run_fits;
use crate::engine::laws::{read_back, rows_fit};
use crate::engine::newest::pick;
use crate::engine::read::{asked_for, filtered, ColumnsRead, FilterView};
use crate::engine::scan::{asked_at, latest_value, live};
use crate::engine::scan_laws::{
    contents_read, contents_rows, files_came_out, files_scan, lemma_added_block,
    lemma_block_scan, lemma_contents_scan, lemma_filtered_append, lemma_finished,
    lemma_read_back_append, Filling,
};
use crate::engine::versions::{
    lemma_collection_keeps_reads, lemma_survivor_source, lists_versions, pick_exact, seen,
    survivor_rows, survivors_of, SurvivorView,
};
use crate::flush::{
    joined, lemma_block_not_empty, lemma_joined_last, newest, rows_block, rows_encoded,
};
use crate::memtable::versioned_value::Version;
use crate::pax::block::concat;
use crate::row::RowView;
use crate::sst::{indexable, sst_bytes};

verus! {

// What a scan reads of a run

proof fn lemma_rows_append(a: Seq<SurvivorView>, b: Seq<SurvivorView>)
    ensures
        survivor_rows(a + b) == survivor_rows(a) + survivor_rows(b),
{
    assert(survivor_rows(a + b) =~= survivor_rows(a) + survivor_rows(b));
}

/// The files of a compaction, each given by its blocks.
pub open spec fn output_blocks(outputs: Seq<OutputView>) -> Seq<Seq<Seq<u8>>> {
    Seq::new(outputs.len(), |o: int| outputs[o].blocks)
}

/// What has been built.
spec fn filled(building: Building) -> Filling {
    Filling { files: output_blocks(building.outputs), open: building.open.blocks }
}

/// Whether each block can be stored.
spec fn chunks_fit<S: RowColumnSplitter>(
    chunks: Seq<Seq<SurvivorView>>,
    registrations: Seq<ColumnarRegistration<S>>,
) -> bool {
    forall|k: int|
        0 <= k < chunks.len() ==> rows_fit(survivor_rows(#[trigger] chunks[k]), registrations)
}

#[verifier::rlimit(50)]
proof fn lemma_built_scan<S: RowColumnSplitter>(
    chunks: Seq<Seq<SurvivorView>>,
    registrations: Seq<ColumnarRegistration<S>>,
    limit: u64,
    filter: FilterView,
    reads: Seq<Seq<ColumnsRead>>,
    open: Seq<ColumnsRead>,
)
    requires
        chunks_fit(chunks, registrations),
        chunks_encoded(chunks, registrations),
        filled(built(chunks, registrations, limit)).came_out(filter, reads, open),
    ensures
        filled(built(chunks, registrations, limit)).scan(filter, reads, open) == filtered(
            read_back(survivor_rows(joined(chunks))),
            filter,
        ),
    decreases chunks.len(),
{
    let building = built(chunks, registrations, limit);
    if chunks.len() == 0 {
        assert(read_back(survivor_rows(joined(chunks))) =~= Seq::<RowView>::empty());
        assert(filled(building).scan(filter, reads, open) =~= Seq::<RowView>::empty());
    } else {
        let front = chunks.drop_last();
        let rows = survivor_rows(chunks.last());
        let before = built(front, registrations, limit);
        let id = chunks.len() as u64;
        let block = rows_block(rows, registrations, id, newest(rows, 0));
        assert(chunks[chunks.len() - 1] == chunks.last());
        assert(rows_fit(rows, registrations) && rows_encoded(rows, registrations));
        assert(chunks_fit(front, registrations)) by {
            assert forall|k: int| 0 <= k < front.len() implies rows_fit(
                survivor_rows(#[trigger] front[k]),
                registrations,
            ) by {
                assert(chunks[k] == front[k]);
            }
        }
        assert(chunks_encoded(front, registrations)) by {
            assert forall|k: int| 0 <= k < front.len() implies rows_encoded(
                survivor_rows(#[trigger] front[k]),
                registrations,
            ) by {
                assert(chunks[k] == front[k]);
            }
        }
        assert(filled(building).files =~= filled(before).with_block(block, limit).files);
        let (earlier, made) = lemma_added_block(
            filled(before),
            block,
            limit,
            filter,
            reads,
            open,
        );
        lemma_built_scan(front, registrations, limit, filter, earlier, made.drop_last());
        lemma_block_scan(rows, registrations, id, newest(rows, 0), filter, made.last());
        lemma_joined_last(chunks);
        lemma_rows_append(joined(front), chunks.last());
        lemma_read_back_append(survivor_rows(joined(front)), rows);
        lemma_filtered_append(
            read_back(survivor_rows(joined(front))),
            read_back(rows),
            filter,
        );
    }
}

#[verifier::rlimit(50)]
proof fn lemma_open_not_empty<S: RowColumnSplitter>(
    chunks: Seq<Seq<SurvivorView>>,
    registrations: Seq<ColumnarRegistration<S>>,
    limit: u64,
)
    ensures
        ({
            let open = built(chunks, registrations, limit).open.blocks;
            open.len() > 0 ==> concat(open).len() > 0
        }),
{
    if chunks.len() > 0 {
        let rows = survivor_rows(chunks.last());
        let id = chunks.len() as u64;
        let before = built(chunks.drop_last(), registrations, limit).open.blocks;
        let block = rows_block(rows, registrations, id, newest(rows, 0));
        lemma_block_not_empty(rows, registrations, id, newest(rows, 0));
        assert(before.push(block).last() == block);
    }
}

#[verifier::rlimit(50)]
proof fn lemma_run_scan<S: RowColumnSplitter>(
    part: Seq<SurvivorView>,
    registrations: Seq<ColumnarRegistration<S>>,
    max_rows: usize,
    limit: u64,
    filter: FilterView,
    reads: Seq<Seq<ColumnsRead>>,
)
    requires
        run_fits(part, registrations, max_rows),
        chunks_encoded(run_chunks(part, registrations, max_rows, 0), registrations),
        files_came_out(
            output_blocks(run_outputs(part, registrations, max_rows, limit)),
            filter,
            reads,
        ),
    ensures
        files_scan(
            output_blocks(run_outputs(part, registrations, max_rows, limit)),
            filter,
            reads,
        ) == filtered(read_back(survivor_rows(part)), filter),
{
    let chunks = run_chunks(part, registrations, max_rows, 0);
    let building = built(chunks, registrations, limit);
    lemma_open_not_empty(chunks, registrations, limit);
    assert(output_blocks(building.finished()) =~= filled(building).finished());
    let (closed, open) = lemma_finished(filled(building), filter, reads);
    assert(chunks_fit(chunks, registrations));
    lemma_built_scan(chunks, registrations, limit, filter, closed, open);
    lemma_chunks_cover(part, registrations, max_rows, 0);
    assert(part.skip(0) =~= part);
}

// What a scan reads of all files

proof fn lemma_files_append(
    a: Seq<Seq<Seq<u8>>>,
    b: Seq<Seq<Seq<u8>>>,
    filter: FilterView,
    reads: Seq<Seq<ColumnsRead>>,
)
    requires
        files_came_out(a + b, filter, reads),
    ensures
        files_came_out(a, filter, reads.take(a.len() as int)),
        files_came_out(b, filter, reads.skip(a.len() as int)),
        files_scan(a + b, filter, reads) == files_scan(
            a,
            filter,
            reads.take(a.len() as int),
        ) + files_scan(b, filter, reads.skip(a.len() as int)),
    decreases b.len(),
{
    let n = a.len() as int;
    assert forall|f: int| 0 <= f < a.len() implies (#[trigger] a[f]) == (a + b)[f] by {}
    assert forall|f: int| 0 <= f < b.len() implies (#[trigger] b[f]) == (a + b)[n + f] by {}
    if b.len() == 0 {
        assert(a + b =~= a);
        assert(reads.take(n) =~= reads);
        assert(files_scan(b, filter, reads.skip(n)) =~= Seq::<RowView>::empty());
        assert(files_scan(a, filter, reads.take(n)) + files_scan(b, filter, reads.skip(n))
            =~= files_scan(a, filter, reads.take(n)));
    } else {
        let front = b.drop_last();
        let shorter = reads.drop_last();
        assert((a + b).drop_last() =~= a + front);
        assert((a + b).last() == b.last());
        assert forall|f: int| 0 <= f < (a + front).len() implies (#[trigger] (a + front)[f]) == (a
            + b)[f] by {}
        lemma_files_append(a, front, filter, shorter);
        assert(shorter.take(n) =~= reads.take(n));
        assert(shorter.skip(n) =~= reads.skip(n).drop_last());
        assert(reads.skip(n).last() == reads.last());
        assert(files_scan(a + b, filter, reads) =~= files_scan(a, filter, reads.take(n))
            + files_scan(b, filter, reads.skip(n)));
    }
}

#[verifier::rlimit(50)]
proof fn lemma_parts_scan<S: RowColumnSplitter>(
    parts: Seq<Seq<SurvivorView>>,
    registrations: Seq<ColumnarRegistration<S>>,
    max_rows: usize,
    limit: u64,
    filter: FilterView,
    reads: Seq<Seq<ColumnsRead>>,
)
    requires
        forall|p: int|
            0 <= p < parts.len() ==> run_fits(#[trigger] parts[p], registrations, max_rows)
                && chunks_encoded(
                run_chunks(parts[p], registrations, max_rows, 0),
                registrations,
            ),
        files_came_out(
            output_blocks(slice_outputs(parts, registrations, max_rows, limit)),
            filter,
            reads,
        ),
    ensures
        files_scan(
            output_blocks(slice_outputs(parts, registrations, max_rows, limit)),
            filter,
            reads,
        ) == filtered(read_back(survivor_rows(joined(parts))), filter),
    decreases parts.len(),
{
    if parts.len() == 0 {
        assert(read_back(survivor_rows(joined(parts))) =~= Seq::<RowView>::empty());
    } else {
        let front = parts.drop_last();
        let last = parts.last();
        let a = output_blocks(slice_outputs(front, registrations, max_rows, limit));
        let b = output_blocks(run_outputs(last, registrations, max_rows, limit));
        assert(output_blocks(slice_outputs(parts, registrations, max_rows, limit)) =~= a + b);
        assert(parts[parts.len() - 1] == last);
        assert forall|p: int| 0 <= p < front.len() implies run_fits(
            #[trigger] front[p],
            registrations,
            max_rows,
        ) && chunks_encoded(
            run_chunks(front[p], registrations, max_rows, 0),
            registrations,
        ) by {
            assert(parts[p] == front[p]);
        }
        lemma_files_append(a, b, filter, reads);
        lemma_parts_scan(
            front,
            registrations,
            max_rows,
            limit,
            filter,
            reads.take(a.len() as int),
        );
        lemma_run_scan(
            last,
            registrations,
            max_rows,
            limit,
            filter,
            reads.skip(a.len() as int),
        );
        lemma_joined_last(parts);
        lemma_rows_append(joined(front), last);
        lemma_read_back_append(survivor_rows(joined(front)), survivor_rows(last));
        lemma_filtered_append(
            read_back(survivor_rows(joined(front))),
            read_back(survivor_rows(last)),
            filter,
        );
    }
}

proof fn lemma_slices_cover(survivors: Seq<SurvivorView>, start: int, size: int)
    requires
        0 <= start <= survivors.len(),
        size > 0,
    ensures
        joined(slices(survivors, start, size)) == survivors.skip(start),
    decreases survivors.len() - start,
{
    let parts = slices(survivors, start, size);
    if start < survivors.len() {
        let end = if start + size < survivors.len() {
            start + size
        } else {
            survivors.len() as int
        };
        lemma_slices_cover(survivors, end, size);
        assert(parts[0] == survivors.subrange(start, end));
        assert(parts.skip(1) =~= slices(survivors, end, size));
        assert(joined(parts) =~= survivors.skip(start));
    } else {
        assert(joined(parts) =~= survivors.skip(start));
    }
}

proof fn lemma_shared_out_covers(survivors: Seq<SurvivorView>, concurrency: usize)
    ensures
        joined(shared_out(survivors, concurrency)) == survivors,
{
    let workers = workers_for(survivors.len(), concurrency as nat);
    let size = ceil_div(survivors.len(), workers) as int;
    if survivors.len() > 0 {
        let len = survivors.len();
        assert(len / workers > 0) by (nonlinear_arith)
            requires
                0 < workers <= len,
        ;
        lemma_slices_cover(survivors, 0, size);
        assert(survivors.skip(0) =~= survivors);
    } else {
        assert(joined(shared_out(survivors, concurrency)) =~= survivors);
    }
}

/// The contents of the files of a compaction.
pub open spec fn output_contents(outputs: Seq<CompactionOutput>) -> Seq<Seq<u8>> {
    Seq::new(outputs.len(), |o: int| outputs[o].bytes@)
}

/// A scan of the files of a compaction gives, in order, the rows asked for out of the
/// versions that were kept, unless Zstandard fails on some keys.
#[verifier::rlimit(50)]
pub proof fn lemma_compact_then_scan<S: RowColumnSplitter>(
    survivors: Seq<SurvivorView>,
    registrations: Seq<ColumnarRegistration<S>>,
    concurrency: usize,
    max_rows: usize,
    limit: u64,
    outputs: Vec<CompactionOutput>,
    filter: FilterView,
    reads: Seq<Seq<ColumnsRead>>,
)
    requires
        all_built(survivors, registrations, concurrency, max_rows, limit, Ok(outputs)),
        ({
            let parts = shared_out(survivors, concurrency);
            let files = slice_outputs(parts, registrations, max_rows, limit);
            &&& forall|p: int|
                0 <= p < parts.len() ==> run_fits(#[trigger] parts[p], registrations, max_rows)
            &&& forall|o: int| 0 <= o < files.len() ==> indexable((#[trigger] files[o]).blocks)
        }),
        contents_read(output_contents(outputs@), filter, reads),
    ensures
        contents_rows(
            output_contents(outputs@),
            filter,
            reads,
            outputs@.len() as int,
        ) == filtered(read_back(survivor_rows(survivors)), filter),
{
    let parts = shared_out(survivors, concurrency);
    let files = slice_outputs(parts, registrations, max_rows, limit);
    let lists = output_blocks(files);
    let contents = output_contents(outputs@);
    let n = lists.len() as int;
    assert forall|f: int| 0 <= f < n implies indexable(#[trigger] lists[f]) && contents[f]
        == sst_bytes(lists[f]) by {
        assert(files[f].blocks == lists[f]);
        assert(outputs@[f].bytes@ == sst_bytes(files[f].blocks));
    }
    lemma_contents_scan(contents, lists, filter, reads, n);
    assert(lists.take(n) =~= lists);
    assert(reads.take(n) =~= reads);
    lemma_parts_scan(parts, registrations, max_rows, limit, filter, reads);
    lemma_shared_out_covers(survivors, concurrency);
}

// The whole scan

proof fn lemma_pick_filtered(rows: Seq<RowView>, filter: FilterView, key: Seq<u8>)
    requires
        forall|r: int|
            0 <= r < rows.len() && (#[trigger] rows[r]).key == key ==> asked_for(
                filter,
                key,
                rows[r].timestamp,
            ),
    ensures
        pick(filtered(rows, filter), key) == pick(rows, key),
    decreases rows.len(),
{
    if rows.len() > 0 {
        let front = rows.drop_last();
        assert(rows[rows.len() - 1] == rows.last());
        assert forall|r: int| 0 <= r < front.len() && (#[trigger] front[r]).key == key implies asked_for(
            filter,
            key,
            front[r].timestamp,
        ) by {
            assert(rows[r] == front[r]);
        }
        lemma_pick_filtered(front, filter, key);
        let left = filtered(front, filter);
        if asked_for(filter, rows.last().key, rows.last().timestamp) {
            assert(filtered(rows, filter).drop_last() =~= left);
            assert(filtered(rows, filter).last() == rows.last());
        } else {
            assert(filtered(rows, filter) =~= left);
        }
    }
}

proof fn lemma_pick_none(rows: Seq<RowView>, filter: FilterView, key: Seq<u8>)
    requires
        filter.prefix matches Some(prefix) && !prefix.is_prefix_of(key),
    ensures
        pick(filtered(rows, filter), key) is None,
    decreases rows.len(),
{
    if rows.len() > 0 {
        let front = rows.drop_last();
        lemma_pick_none(front, filter, key);
        if asked_for(filter, rows.last().key, rows.last().timestamp) {
            assert(filtered(rows, filter).drop_last() =~= filtered(front, filter));
            assert(filtered(rows, filter).last() == rows.last());
        }
    }
}

proof fn lemma_exact_source(rows: Seq<RowView>, key: Seq<u8>, timestamp: u64)
    ensures
        pick_exact(rows, key, timestamp) matches Some(row) ==> rows.contains(row),
    decreases rows.len(),
{
    if rows.len() > 0 {
        let front = rows.drop_last();
        lemma_exact_source(front, key, timestamp);
        match pick_exact(rows, key, timestamp) {
            Some(row) => {
                if front.contains(row) {
                    let i = choose|i: int| 0 <= i < front.len() && front[i] == row;
                    assert(rows[i] == row);
                } else {
                    assert(rows[rows.len() - 1] == row);
                }
            },
            None => {},
        }
    }
}

proof fn lemma_survivors_read_back(rows: Seq<RowView>, versions: Seq<RowView>, pins: Seq<u64>)
    requires
        lists_versions(versions, rows),
        forall|r: int|
            0 <= r < rows.len() ==> (#[trigger] rows[r]).value != Some(Seq::<u8>::empty()),
    ensures
        ({
            let left = survivor_rows(survivors_of(versions, pins, versions.len() as int));
            read_back(left) == left
        }),
{
    let n = versions.len() as int;
    let survivors = survivors_of(versions, pins, n);
    let left = survivor_rows(survivors);
    assert forall|o: int| 0 <= o < left.len() implies #[trigger] read_back(left)[o] == left[o] by {
        let i = lemma_survivor_source(versions, pins, n, o);
        lemma_exact_source(rows, versions[i].key, versions[i].timestamp);
        assert(rows.contains(versions[i]));
        let r = choose|r: int| 0 <= r < rows.len() && rows[r] == versions[i];
        assert(rows[r].value != Some(Seq::<u8>::empty()));
        match left[o].value {
            Some(bytes) => {
                if bytes.len() == 0 {
                    assert(bytes =~= Seq::<u8>::empty());
                }
            },
            None => {},
        }
    }
    assert(read_back(left) =~= left);
}

/// A compaction of all files changes no scan: what is read afterwards, with or without a
/// prefix, shows the same value of every key. Rows read out of files have no empty value:
/// that stands for a deletion.
pub proof fn lemma_compaction_keeps_scans(
    rows: Seq<RowView>,
    versions: Seq<RowView>,
    pins: Seq<u64>,
    chains: Map<Seq<u8>, Seq<Version>>,
    prefix: Option<Seq<u8>>,
    key: Seq<u8>,
)
    requires
        lists_versions(versions, rows),
        forall|r: int|
            0 <= r < rows.len() ==> (#[trigger] rows[r]).value != Some(Seq::<u8>::empty()),
    ensures
        ({
            let filter = FilterView { prefix, read_ts: None };
            let left = survivor_rows(survivors_of(versions, pins, versions.len() as int));
            latest_value(filtered(read_back(left), filter), chains, prefix, key)
                == latest_value(filtered(rows, filter), chains, prefix, key)
        }),
{
    let filter = FilterView { prefix, read_ts: None };
    let left = survivor_rows(survivors_of(versions, pins, versions.len() as int));
    lemma_survivors_read_back(rows, versions, pins);
    if prefix matches Some(p) && !p.is_prefix_of(key) {
        lemma_pick_none(left, filter, key);
        lemma_pick_none(rows, filter, key);
    } else {
        lemma_collection_keeps_reads(rows, versions, pins, key, u64::MAX);
        lemma_pick_filtered(left, filter, key);
        lemma_pick_filtered(rows, filter, key);
        lemma_pick_filtered(left, asked_at(u64::MAX), key);
        lemma_pick_filtered(rows, asked_at(u64::MAX), key);
        assert(live(seen(left, key, u64::MAX)) == live(seen(rows, key, u64::MAX)));
    }
}

} // verus!
