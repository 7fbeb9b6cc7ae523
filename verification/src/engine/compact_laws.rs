//! After a compaction rows are found where it put them.

use vstd::prelude::*;

use crate::art::RowLocationView;
use crate::columnar::{ColumnarRegistration, RowColumnSplitter};
use crate::engine::compact::{
    all_built, built, ceil_div, chunks_encoded, lemma_built_targets, lemma_chunks_cover,
    run_chunks, run_outputs, shared_out, slice_outputs, slices, target_found,
    target_views, targets_found, targets_of, workers_for, CompactionOutput, OutputView,
};
use crate::engine::laws::{lemma_stored_value_reads_back, rows_fit};
use crate::engine::registry::{index_or_whole, SstEntryView};
use crate::engine::state::{
    after_compaction, located, points_into, with_outputs, with_targets, without_files, EngineState,
    LocatedView,
};
use crate::engine::versions::{
    in_order, lemma_latest_unique, survivor_rows, survivors_of, SurvivorView,
};
use crate::error::GalaxError;
use crate::flush::{joined, lemma_block_not_empty, newest, rows_block, rows_encoded};
use crate::pax::block::lemma_concat_part;
use crate::pax::point_read::value_reads;
use crate::row::RowView;
use crate::sst::{block_at, entries_of, indexable, lemma_sst_round_trip, sst_bytes};

verus! {

// Every latest version has a target

/// Whether target `t` of file `o` is that of a key.
spec fn names(files: Seq<OutputView>, o: int, t: int, key: Seq<u8>) -> bool {
    &&& 0 <= o < files.len()
    &&& 0 <= t < files[o].targets.len()
    &&& files[o].targets[t].0 == key
}

/// Whether some file has a target for a key.
spec fn named(files: Seq<OutputView>, key: Seq<u8>) -> bool {
    exists|o: int, t: int| #[trigger] names(files, o, t, key)
}

proof fn lemma_target_of_row(chunk: Seq<SurvivorView>, block: u32, n: int, l: int) -> (t: int)
    requires
        0 <= l < n,
        chunk[l].latest,
    ensures
        0 <= t < targets_of(chunk, block, n).len(),
        targets_of(chunk, block, n)[t].0 == chunk[l].row.key,
    decreases n,
{
    let before = targets_of(chunk, block, n - 1);
    if l == n - 1 {
        before.len() as int
    } else {
        lemma_target_of_row(chunk, block, n - 1, l)
    }
}

proof fn lemma_built_names<S: RowColumnSplitter>(
    chunks: Seq<Seq<SurvivorView>>,
    registrations: Seq<ColumnarRegistration<S>>,
    limit: u64,
    k: int,
    l: int,
)
    requires
        0 <= k < chunks.len(),
        0 <= l < chunks[k].len(),
        chunks[k][l].latest,
    ensures
        ({
            let building = built(chunks, registrations, limit);
            named(building.outputs.push(building.open), chunks[k][l].row.key)
        }),
    decreases chunks.len(),
{
    let front = chunks.drop_last();
    let chunk = chunks.last();
    let key = chunks[k][l].row.key;
    let before = built(front, registrations, limit);
    let after = built(chunks, registrations, limit);
    let old_files = before.outputs.push(before.open);
    let files = after.outputs.push(after.open);
    let place = before.outputs.len() as int;
    let added = targets_of(chunk, before.open.blocks.len() as u32, chunk.len() as int);
    assert(files[place].targets == before.open.targets + added);
    if k < front.len() {
        assert(front[k] == chunks[k]);
        lemma_built_names(front, registrations, limit, k, l);
        let (o, t) = choose|o: int, t: int| #[trigger] names(old_files, o, t, key);
        if o < place {
            assert(files[o] == old_files[o]);
        } else {
            assert(files[place].targets[t] == before.open.targets[t]);
        }
        assert(names(files, o, t, key));
    } else {
        let t = lemma_target_of_row(
            chunk,
            before.open.blocks.len() as u32,
            chunk.len() as int,
            l,
        );
        assert(files[place].targets[before.open.targets.len() + t] == added[t]);
        assert(names(files, place, before.open.targets.len() + t, key));
    }
}

proof fn lemma_joined_has(chunks: Seq<Seq<SurvivorView>>, i: int) -> (place: (int, int))
    requires
        0 <= i < joined(chunks).len(),
    ensures
        0 <= place.0 < chunks.len(),
        0 <= place.1 < chunks[place.0].len(),
        chunks[place.0][place.1] == joined(chunks)[i],
    decreases chunks.len(),
{
    if i < chunks[0].len() {
        (0, i)
    } else {
        let rest = chunks.skip(1);
        let (k, l) = lemma_joined_has(rest, i - chunks[0].len());
        assert(rest[k] == chunks[k + 1]);
        (k + 1, l)
    }
}

proof fn lemma_joined_of(chunks: Seq<Seq<SurvivorView>>, k: int, l: int) -> (i: int)
    requires
        0 <= k < chunks.len(),
        0 <= l < chunks[k].len(),
    ensures
        0 <= i < joined(chunks).len(),
        joined(chunks)[i] == chunks[k][l],
    decreases chunks.len(),
{
    if k == 0 {
        l
    } else {
        let rest = chunks.skip(1);
        assert(rest[k - 1] == chunks[k]);
        let i = lemma_joined_of(rest, k - 1, l);
        chunks[0].len() + i
    }
}

/// Whether the blocks of a run are small enough to be told apart.
pub open spec fn run_fits<S: RowColumnSplitter>(
    survivors: Seq<SurvivorView>,
    registrations: Seq<ColumnarRegistration<S>>,
    max_rows: usize,
) -> bool {
    let chunks = run_chunks(survivors, registrations, max_rows, 0);
    &&& chunks.len() <= u32::MAX
    &&& forall|k: int|
        0 <= k < chunks.len() ==> (#[trigger] chunks[k]).len() <= u32::MAX && rows_fit(
            survivor_rows(chunks[k]),
            registrations,
        )
}

proof fn lemma_run_names<S: RowColumnSplitter>(
    part: Seq<SurvivorView>,
    registrations: Seq<ColumnarRegistration<S>>,
    max_rows: usize,
    limit: u64,
    i: int,
)
    requires
        run_fits(part, registrations, max_rows),
        0 <= i < part.len(),
        part[i].latest,
    ensures
        named(run_outputs(part, registrations, max_rows, limit), part[i].row.key),
{
    let chunks = run_chunks(part, registrations, max_rows, 0);
    let building = built(chunks, registrations, limit);
    let files = building.outputs.push(building.open);
    let key = part[i].row.key;
    lemma_chunks_cover(part, registrations, max_rows, 0);
    assert(part.skip(0) =~= part);
    let (k, l) = lemma_joined_has(chunks, i);
    lemma_built_names(chunks, registrations, limit, k, l);
    lemma_built_targets(chunks, registrations, limit);
    let (o, t) = choose|o: int, t: int| #[trigger] names(files, o, t, key);
    let outputs = run_outputs(part, registrations, max_rows, limit);
    if o < building.outputs.len() {
        assert(outputs[o] == files[o]);
    } else {
        let target = building.open.targets[t];
        assert(target_found(building.open.blocks, target, chunks, registrations));
        let b = target.1 as int;
        let c = choose|c: int|
            0 <= c < chunks.len() && target.2 < (#[trigger] chunks[c]).len()
                && chunks[c][target.2 as int].row.key == target.0
                && chunks[c][target.2 as int].latest && building.open.blocks[b] == rows_block(
                survivor_rows(chunks[c]),
                registrations,
                (c + 1) as u64,
                newest(survivor_rows(chunks[c]), 0),
            );
        lemma_block_not_empty(
            survivor_rows(chunks[c]),
            registrations,
            (c + 1) as u64,
            newest(survivor_rows(chunks[c]), 0),
        );
        lemma_concat_part(building.open.blocks, b);
        assert(outputs =~= files);
    }
    assert(names(outputs, o, t, key));
}

proof fn lemma_slice_names<S: RowColumnSplitter>(
    parts: Seq<Seq<SurvivorView>>,
    registrations: Seq<ColumnarRegistration<S>>,
    max_rows: usize,
    limit: u64,
    p: int,
    i: int,
)
    requires
        0 <= p < parts.len(),
        run_fits(parts[p], registrations, max_rows),
        0 <= i < parts[p].len(),
        parts[p][i].latest,
    ensures
        named(slice_outputs(parts, registrations, max_rows, limit), parts[p][i].row.key),
    decreases parts.len(),
{
    let front = parts.drop_last();
    let before = slice_outputs(front, registrations, max_rows, limit);
    let last = run_outputs(parts.last(), registrations, max_rows, limit);
    let files = slice_outputs(parts, registrations, max_rows, limit);
    let key = parts[p][i].row.key;
    if p < front.len() {
        assert(front[p] == parts[p]);
        lemma_slice_names(front, registrations, max_rows, limit, p, i);
        let (o, t) = choose|o: int, t: int| #[trigger] names(before, o, t, key);
        assert(files[o] == before[o]);
        assert(names(files, o, t, key));
    } else {
        lemma_run_names(parts.last(), registrations, max_rows, limit, i);
        let (o, t) = choose|o: int, t: int| #[trigger] names(last, o, t, key);
        assert(files[before.len() + o] == last[o]);
        assert(names(files, before.len() + o, t, key));
    }
}

proof fn lemma_slice_targets<S: RowColumnSplitter>(
    parts: Seq<Seq<SurvivorView>>,
    registrations: Seq<ColumnarRegistration<S>>,
    max_rows: usize,
    limit: u64,
    o: int,
) -> (p: int)
    requires
        forall|p: int|
            0 <= p < parts.len() ==> run_fits(#[trigger] parts[p], registrations, max_rows),
        0 <= o < slice_outputs(parts, registrations, max_rows, limit).len(),
    ensures
        0 <= p < parts.len(),
        targets_found(
            slice_outputs(parts, registrations, max_rows, limit)[o],
            run_chunks(parts[p], registrations, max_rows, 0),
            registrations,
        ),
    decreases parts.len(),
{
    let front = parts.drop_last();
    let before = slice_outputs(front, registrations, max_rows, limit);
    assert forall|p: int| 0 <= p < front.len() implies run_fits(
        #[trigger] front[p],
        registrations,
        max_rows,
    ) by {
        assert(parts[p] == front[p]);
    }
    if o < before.len() {
        let p = lemma_slice_targets(front, registrations, max_rows, limit, o);
        assert(front[p] == parts[p]);
        p
    } else {
        let p = parts.len() - 1;
        assert(run_fits(parts[p], registrations, max_rows));
        lemma_built_targets(
            run_chunks(parts[p], registrations, max_rows, 0),
            registrations,
            limit,
        );
        p
    }
}

proof fn lemma_slice_of(survivors: Seq<SurvivorView>, start: int, size: int, i: int) -> (place: (
    int,
    int,
))
    requires
        0 <= start <= i < survivors.len(),
        size > 0,
    ensures
        0 <= place.0 < slices(survivors, start, size).len(),
        0 <= place.1 < slices(survivors, start, size)[place.0].len(),
        slices(survivors, start, size)[place.0][place.1] == survivors[i],
    decreases survivors.len() - start,
{
    let end = if start + size < survivors.len() {
        start + size
    } else {
        survivors.len() as int
    };
    let all = slices(survivors, start, size);
    if i < end {
        assert(all[0] == survivors.subrange(start, end));
        (0, i - start)
    } else {
        let rest = slices(survivors, end, size);
        let (p, j) = lemma_slice_of(survivors, end, size, i);
        assert(all[p + 1] == rest[p]);
        (p + 1, j)
    }
}

proof fn lemma_slice_within(
    survivors: Seq<SurvivorView>,
    start: int,
    size: int,
    p: int,
    j: int,
) -> (i: int)
    requires
        0 <= start,
        0 <= p < slices(survivors, start, size).len(),
        0 <= j < slices(survivors, start, size)[p].len(),
    ensures
        0 <= i < survivors.len(),
        survivors[i] == slices(survivors, start, size)[p][j],
    decreases survivors.len() - start,
{
    let end = if start + size < survivors.len() {
        start + size
    } else {
        survivors.len() as int
    };
    let all = slices(survivors, start, size);
    if p == 0 {
        assert(all[0] == survivors.subrange(start, end));
        start + j
    } else {
        let rest = slices(survivors, end, size);
        assert(all[p] == rest[p - 1]);
        lemma_slice_within(survivors, end, size, p - 1, j)
    }
}

// The index leads to a target

/// Where target `t` of file `o` is.
spec fn place_of(outputs: Seq<CompactionOutput>, first: u64, o: int, t: int) -> RowLocationView {
    RowLocationView::SST {
        sst_id: (first + o) as u64,
        block_offset: outputs[o].art_targets@[t].1 as u64,
        row_offset: outputs[o].art_targets@[t].2,
    }
}

/// Whether the index points to a target for a key in one of the first `n` files.
spec fn placed(
    index: Map<Seq<u8>, RowLocationView>,
    outputs: Seq<CompactionOutput>,
    first: u64,
    n: int,
    key: Seq<u8>,
) -> bool {
    exists|o: int, t: int|
        {
            &&& 0 <= o < n
            &&& 0 <= t < outputs[o].art_targets@.len()
            &&& (#[trigger] outputs[o].art_targets@[t]).0@ == key
            &&& index[key] == place_of(outputs, first, o, t)
        }
}

proof fn lemma_one_file_placed(
    index: Map<Seq<u8>, RowLocationView>,
    merged: Seq<u64>,
    sst_id: u64,
    targets: Seq<(Vec<u8>, u32, u32)>,
    n: int,
    key: Seq<u8>,
)
    requires
        0 <= n <= targets.len(),
        index.contains_key(key),
        !merged.contains(sst_id),
    ensures
        ({
            let after = with_targets(index, merged, sst_id, targets, n);
            &&& after.contains_key(key)
            &&& if points_into(index[key], merged) {
                ||| after[key] == index[key] && forall|t: int|
                    0 <= t < n ==> (#[trigger] targets[t]).0@ != key
                ||| exists|t: int|
                    0 <= t < n && (#[trigger] targets[t]).0@ == key && after[key]
                        == (RowLocationView::SST {
                        sst_id,
                        block_offset: targets[t].1 as u64,
                        row_offset: targets[t].2,
                    })
            } else {
                after[key] == index[key]
            }
        }),
    decreases n,
{
    if n > 0 {
        lemma_one_file_placed(index, merged, sst_id, targets, n - 1, key);
        let before = with_targets(index, merged, sst_id, targets, n - 1);
        let after = with_targets(index, merged, sst_id, targets, n);
        if points_into(index[key], merged) {
            if before[key] == index[key] && forall|t: int|
                0 <= t < n - 1 ==> (#[trigger] targets[t]).0@ != key {
                if targets[n - 1].0@ == key {
                    assert(points_into(before[key], merged));
                }
            } else {
                let t = choose|t: int|
                    0 <= t < n - 1 && (#[trigger] targets[t]).0@ == key && before[key]
                        == (RowLocationView::SST {
                        sst_id,
                        block_offset: targets[t].1 as u64,
                        row_offset: targets[t].2,
                    });
                assert(after[key] == before[key]);
                assert(targets[t].0@ == key);
            }
        }
    }
}

proof fn lemma_outputs_placed<S: RowColumnSplitter>(
    state: EngineState<S>,
    merged: Seq<u64>,
    outputs: Seq<CompactionOutput>,
    file_ids: Seq<u64>,
    encrypted: bool,
    n: int,
    key: Seq<u8>,
)
    requires
        0 <= n <= outputs.len(),
        state.next_sst + n <= u64::MAX,
        forall|i: int| 0 <= i < merged.len() ==> #[trigger] merged[i] < state.next_sst,
        state.index.contains_key(key),
        points_into(state.index[key], merged),
    ensures
        ({
            let after = with_outputs(state, merged, outputs, file_ids, encrypted, n);
            &&& after.next_sst == state.next_sst + n
            &&& after.index.contains_key(key)
            &&& {
                ||| after.index[key] == state.index[key] && forall|o: int, t: int|
                    0 <= o < n && 0 <= t < outputs[o].art_targets@.len() ==> (
                    #[trigger] outputs[o].art_targets@[t]).0@ != key
                ||| placed(after.index, outputs, state.next_sst, n, key)
            }
        }),
    decreases n,
{
    if n > 0 {
        lemma_outputs_placed(state, merged, outputs, file_ids, encrypted, n - 1, key);
        let before = with_outputs(state, merged, outputs, file_ids, encrypted, n - 1);
        let after = with_outputs(state, merged, outputs, file_ids, encrypted, n);
        let targets = outputs[n - 1].art_targets@;
        let first = state.next_sst;
        assert(!merged.contains(before.next_sst));
        lemma_one_file_placed(
            before.index,
            merged,
            before.next_sst,
            targets,
            targets.len() as int,
            key,
        );
        if placed(before.index, outputs, first, n - 1, key) {
            let (o, t) = choose|o: int, t: int|
                {
                    &&& 0 <= o < n - 1
                    &&& 0 <= t < outputs[o].art_targets@.len()
                    &&& (#[trigger] outputs[o].art_targets@[t]).0@ == key
                    &&& before.index[key] == place_of(outputs, first, o, t)
                };
            assert(!merged.contains((first + o) as u64));
            assert(!points_into(before.index[key], merged));
            assert(outputs[o].art_targets@[t].0@ == key);
            assert(placed(after.index, outputs, first, n, key));
        } else {
            assert(points_into(before.index[key], merged));
            if after.index[key] != before.index[key] {
                let t = choose|t: int|
                    0 <= t < targets.len() && (#[trigger] targets[t]).0@ == key
                        && after.index[key] == (RowLocationView::SST {
                        sst_id: before.next_sst,
                        block_offset: targets[t].1 as u64,
                        row_offset: targets[t].2,
                    });
                assert(outputs[n - 1].art_targets@[t].0@ == key);
                assert(placed(after.index, outputs, first, n, key));
            } else {
                assert forall|o: int, t: int|
                    0 <= o < n && 0 <= t < outputs[o].art_targets@.len() implies (
                #[trigger] outputs[o].art_targets@[t]).0@ != key by {
                    if o == n - 1 && targets[t].0@ == key {
                        let u = choose|u: int|
                            0 <= u < targets.len() && (#[trigger] targets[u]).0@ == key
                                && after.index[key] == (RowLocationView::SST {
                                sst_id: before.next_sst,
                                block_offset: targets[u].1 as u64,
                                row_offset: targets[u].2,
                            });
                        assert(points_into(after.index[key], merged));
                    }
                }
            }
        }
    }
}

proof fn lemma_output_registered<S: RowColumnSplitter>(
    state: EngineState<S>,
    merged: Seq<u64>,
    outputs: Seq<CompactionOutput>,
    file_ids: Seq<u64>,
    encrypted: bool,
    n: int,
    o: int,
)
    requires
        0 <= o < n <= outputs.len(),
        state.next_sst + n <= u64::MAX,
    ensures
        ({
            let after = with_outputs(state, merged, outputs, file_ids, encrypted, n);
            let id = (state.next_sst + o) as u64;
            &&& after.next_sst == state.next_sst + n
            &&& after.files.contains_key(id)
            &&& after.files[id] == (SstEntryView {
                file_id: file_ids[o],
                blocks: index_or_whole(outputs[o].bytes@),
                encrypted,
            })
        }),
    decreases n,
{
    lemma_next_sst(state, merged, outputs, file_ids, encrypted, n - 1);
    if o < n - 1 {
        lemma_output_registered(state, merged, outputs, file_ids, encrypted, n - 1, o);
    }
}

proof fn lemma_next_sst<S: RowColumnSplitter>(
    state: EngineState<S>,
    merged: Seq<u64>,
    outputs: Seq<CompactionOutput>,
    file_ids: Seq<u64>,
    encrypted: bool,
    n: int,
)
    requires
        0 <= n,
        state.next_sst + n <= u64::MAX,
    ensures
        with_outputs(state, merged, outputs, file_ids, encrypted, n).next_sst == state.next_sst + n,
    decreases n,
{
    if n > 0 {
        lemma_next_sst(state, merged, outputs, file_ids, encrypted, n - 1);
    }
}

proof fn lemma_not_removed(files: Map<u64, SstEntryView>, merged: Seq<u64>, n: int, id: u64)
    requires
        0 <= n <= merged.len(),
        !merged.contains(id),
        files.contains_key(id),
    ensures
        without_files(files, merged, n).contains_key(id),
        without_files(files, merged, n)[id] == files[id],
    decreases n,
{
    if n > 0 {
        lemma_not_removed(files, merged, n - 1, id);
        assert(merged[n - 1] != id);
    }
}

// The law

/// Whether the files of a compaction can be told apart: they are indexable, their ids do
/// not run out, and none of the merged files has an id that is yet to be handed out.
pub open spec fn compaction_fits<S: RowColumnSplitter>(
    state: EngineState<S>,
    merged: Seq<u64>,
    survivors: Seq<SurvivorView>,
    concurrency: usize,
    max_rows: usize,
    limit: u64,
) -> bool {
    let parts = shared_out(survivors, concurrency);
    let files = slice_outputs(parts, state.registrations, max_rows, limit);
    &&& forall|p: int|
        0 <= p < parts.len() ==> run_fits(#[trigger] parts[p], state.registrations, max_rows)
    &&& forall|o: int| 0 <= o < files.len() ==> indexable((#[trigger] files[o]).blocks)
    &&& state.next_sst + files.len() <= u64::MAX
    &&& forall|i: int| 0 <= i < merged.len() ==> #[trigger] merged[i] < state.next_sst
}

/// After a compaction, the latest version of a row that was in one of the merged files is
/// found in one of the new files, and reading it there gives its value.
#[verifier::rlimit(40)]
pub proof fn lemma_compact_then_get<S: RowColumnSplitter>(
    state: EngineState<S>,
    merged: Seq<u64>,
    versions: Seq<RowView>,
    pins: Seq<u64>,
    concurrency: usize,
    max_rows: usize,
    limit: u64,
    outputs: Vec<CompactionOutput>,
    file_ids: Seq<u64>,
    encrypted: bool,
    s: int,
)
    requires
        in_order(versions),
        ({
            let survivors = survivors_of(versions, pins, versions.len() as int);
            &&& all_built(
                survivors,
                state.registrations,
                concurrency,
                max_rows,
                limit,
                Ok(outputs),
            )
            &&& compaction_fits(state, merged, survivors, concurrency, max_rows, limit)
            &&& 0 <= s < survivors.len()
            &&& survivors[s].latest
            &&& survivors[s].row.value is Some
            &&& state.index.contains_key(survivors[s].row.key)
            &&& points_into(state.index[survivors[s].row.key], merged)
        }),
    ensures
        ({
            let row = survivors_of(versions, pins, versions.len() as int)[s].row;
            let after = after_compaction(state, merged, outputs@, file_ids, encrypted);
            located(after, row.key) matches LocatedView::Stored {
                file_id,
                block,
                row: place,
                encrypted: hidden,
            } && {
                &&& hidden == encrypted
                &&& exists|o: int|
                    {
                        &&& 0 <= o < outputs@.len()
                        &&& file_id == file_ids[o]
                        &&& forall|outcome: Result<Seq<u8>, GalaxError>| #[trigger]
                            value_reads(
                                block_at((#[trigger] outputs@[o]).bytes@, block),
                                1,
                                place,
                                outcome,
                            ) ==> outcome == Ok::<Seq<u8>, GalaxError>(row.value->0)
                    }
            }
        }),
{
    let survivors = survivors_of(versions, pins, versions.len() as int);
    let regs = state.registrations;
    let row = survivors[s].row;
    let key = row.key;
    let parts = shared_out(survivors, concurrency);
    let files = slice_outputs(parts, regs, max_rows, limit);
    let n = outputs@.len() as int;
    let whole = with_outputs(state, merged, outputs@, file_ids, encrypted, n);
    let after = after_compaction(state, merged, outputs@, file_ids, encrypted);
    lemma_outputs_placed(state, merged, outputs@, file_ids, encrypted, n, key);
    assert(placed(whole.index, outputs@, state.next_sst, n, key)) by {
        lemma_latest_named(survivors, regs, concurrency, max_rows, limit, s);
        let (o, t) = choose|o: int, t: int| #[trigger] names(files, o, t, key);
        assert(target_views(outputs@[o].art_targets@) == files[o].targets);
        assert(target_views(outputs@[o].art_targets@)[t].0 == outputs@[o].art_targets@[t].0@);
    }
    let (o, t) = choose|o: int, t: int|
        {
            &&& 0 <= o < n
            &&& 0 <= t < outputs@[o].art_targets@.len()
            &&& (#[trigger] outputs@[o].art_targets@[t]).0@ == key
            &&& whole.index[key] == place_of(outputs@, state.next_sst, o, t)
        };
    let target = outputs@[o].art_targets@[t];
    assert(target_views(outputs@[o].art_targets@) == files[o].targets);
    assert(files[o].targets[t] == (target.0@, target.1, target.2));
    let p = lemma_slice_targets(parts, regs, max_rows, limit, o);
    let chunks = run_chunks(parts[p], regs, max_rows, 0);
    assert(target_found(files[o].blocks, files[o].targets[t], chunks, regs));
    let c = choose|c: int|
        0 <= c < chunks.len() && target.2 < (#[trigger] chunks[c]).len()
            && chunks[c][target.2 as int].row.key == key && chunks[c][target.2 as int].latest
            && files[o].blocks[target.1 as int] == rows_block(
            survivor_rows(chunks[c]),
            regs,
            (c + 1) as u64,
            newest(survivor_rows(chunks[c]), 0),
        );
    lemma_chunk_of_survivors(survivors, regs, concurrency, max_rows, p, c, target.2 as int);
    let a = choose|a: int|
        0 <= a < survivors.len() && #[trigger] survivors[a] == chunks[c][target.2 as int];
    lemma_latest_unique(versions, pins, a, s);
    let id = (state.next_sst + o) as u64;
    lemma_output_registered(state, merged, outputs@, file_ids, encrypted, n, o);
    assert(!merged.contains(id));
    lemma_not_removed(whole.files, merged, merged.len() as int, id);
    assert(indexable(files[o].blocks));
    lemma_sst_round_trip(files[o].blocks);
    assert(outputs@[o].bytes@ == sst_bytes(files[o].blocks));
    let entry = entries_of(files[o].blocks)[target.1 as int];
    assert(located(after, key) == (LocatedView::Stored {
        file_id: file_ids[o],
        block: entry,
        row: target.2,
        encrypted,
    }));
    let rows = survivor_rows(chunks[c]);
    assert(rows[target.2 as int] == row);
    assert(run_fits(parts[p], regs, max_rows));
    assert(rows_encoded(rows, regs)) by {
        assert(chunks_encoded(chunks, regs));
    }
    assert forall|outcome: Result<Seq<u8>, GalaxError>| #[trigger]
        value_reads(block_at(outputs@[o].bytes@, entry), 1, target.2, outcome) implies outcome
        == Ok::<Seq<u8>, GalaxError>(row.value->0) by {
        lemma_stored_value_reads_back(
            rows,
            regs,
            (c + 1) as u64,
            newest(rows, 0),
            target.2,
            outcome,
        );
    }
}

proof fn lemma_shares_not_empty(survivors: Seq<SurvivorView>, concurrency: usize)
    requires
        survivors.len() > 0,
    ensures
        ceil_div(
            survivors.len(),
            workers_for(survivors.len(), concurrency as nat),
        ) > 0,
{
    let len = survivors.len();
    let workers = workers_for(len, concurrency as nat);
    assert(len / workers > 0) by (nonlinear_arith)
        requires
            0 < workers <= len,
    ;
}

proof fn lemma_latest_named<S: RowColumnSplitter>(
    survivors: Seq<SurvivorView>,
    registrations: Seq<ColumnarRegistration<S>>,
    concurrency: usize,
    max_rows: usize,
    limit: u64,
    s: int,
)
    requires
        0 <= s < survivors.len(),
        survivors[s].latest,
        ({
            let parts = shared_out(survivors, concurrency);
            forall|p: int|
                0 <= p < parts.len() ==> run_fits(#[trigger] parts[p], registrations, max_rows)
        }),
    ensures
        named(
            slice_outputs(shared_out(survivors, concurrency), registrations, max_rows, limit),
            survivors[s].row.key,
        ),
{
    let parts = shared_out(survivors, concurrency);
    lemma_shares_not_empty(survivors, concurrency);
    let size = ceil_div(
        survivors.len(),
        workers_for(survivors.len(), concurrency as nat),
    ) as int;
    let (p, j) = lemma_slice_of(survivors, 0, size, s);
    assert(run_fits(parts[p], registrations, max_rows));
    lemma_slice_names(parts, registrations, max_rows, limit, p, j);
}

proof fn lemma_chunk_of_survivors<S: RowColumnSplitter>(
    survivors: Seq<SurvivorView>,
    registrations: Seq<ColumnarRegistration<S>>,
    concurrency: usize,
    max_rows: usize,
    p: int,
    c: int,
    l: int,
)
    requires
        ({
            let parts = shared_out(survivors, concurrency);
            let chunks = run_chunks(parts[p], registrations, max_rows, 0);
            &&& 0 <= p < parts.len()
            &&& 0 <= c < chunks.len()
            &&& 0 <= l < chunks[c].len()
        }),
    ensures
        ({
            let parts = shared_out(survivors, concurrency);
            let chunks = run_chunks(parts[p], registrations, max_rows, 0);
            exists|a: int| 0 <= a < survivors.len() && #[trigger] survivors[a] == chunks[c][l]
        }),
{
    let parts = shared_out(survivors, concurrency);
    let chunks = run_chunks(parts[p], registrations, max_rows, 0);
    lemma_chunks_cover(parts[p], registrations, max_rows, 0);
    assert(parts[p].skip(0) =~= parts[p]);
    let j = lemma_joined_of(chunks, c, l);
    let size = ceil_div(
        survivors.len(),
        workers_for(survivors.len(), concurrency as nat),
    ) as int;
    let a = lemma_slice_within(survivors, 0, size, p, j);
    assert(survivors[a] == chunks[c][l]);
}

} // verus!
