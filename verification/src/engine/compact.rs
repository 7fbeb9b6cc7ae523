//! Compaction: merging SST files.
//!
//! 1. Read the rows of all input files.
//! 2. Sort them by key and timestamp, and drop the versions that nobody needs.
//! 3. Pack what is left into new files.
//!
//! Reading and writing files is up to the caller.

use vstd::prelude::*;
use vstd::slice::{slice_subrange, slice_to_vec};

use crate::column::Timestamp;
use crate::columnar::{
    registration_for, registration_index, registration_position, ColumnarRegistration,
    RowColumnSplitter,
};
use crate::engine::read::{
    collect_file_rows, file_read, file_rows, ColumnsRead, FilterView, RowFilter,
};
use crate::engine::registry::{index_of_file, index_or_whole};
use crate::engine::versions::{
    collect_garbage, latest_count, lists_versions, sort_versions, survivor_rows, survivor_views,
    survivors_of, Survivor, SurvivorView,
};
use crate::error::{Fault, GalaxError, GalaxResult};
use crate::flush::{
    build_block, joined, just_full, newest, newest_timestamp, no_fuller, rows_block, rows_encoded,
};
use crate::pax::block::concat;
use crate::row::{rows_of, stamps, Row, RowView};
use crate::sst::{sst_bytes, SstPacker};

verus! {

// Blocks of a run

/// Whether the row at `j` cannot stand in a block that starts at `i`: the block
/// is of a table stored by column and the row is not, or the other way round.
pub open spec fn breaks<S: RowColumnSplitter>(
    rows: Seq<RowView>,
    registrations: Seq<ColumnarRegistration<S>>,
    i: int,
    j: int,
) -> bool {
    match registration_index(registrations, rows[i].key) {
        Some(t) => !registrations[t].prefix@.is_prefix_of(rows[j].key),
        None => registration_index(registrations, rows[j].key) is Some,
    }
}

/// End of the block that starts at `i`, searched from `j` up to `limit`.
pub open spec fn run_end<S: RowColumnSplitter>(
    rows: Seq<RowView>,
    registrations: Seq<ColumnarRegistration<S>>,
    i: int,
    j: int,
    limit: int,
) -> int
    decreases limit - j,
{
    if j >= limit || breaks(rows, registrations, i, j) {
        j
    } else {
        run_end(rows, registrations, i, j + 1, limit)
    }
}

/// The end of the block that starts at `i` by number of rows alone.
pub open spec fn row_limit(len: int, i: int, max_rows: usize) -> int {
    let max = if max_rows == 0 {
        1int
    } else {
        max_rows as int
    };
    if i + max < len {
        i + max
    } else {
        len
    }
}

/// The end of the block that starts at `i`.
pub open spec fn run_block_end<S: RowColumnSplitter>(
    rows: Seq<RowView>,
    registrations: Seq<ColumnarRegistration<S>>,
    max_rows: usize,
    i: int,
) -> int {
    run_end(rows, registrations, i, i + 1, row_limit(rows.len() as int, i, max_rows))
}

/// The blocks of the survivors from `start` on.
pub open spec fn run_chunks<S: RowColumnSplitter>(
    survivors: Seq<SurvivorView>,
    registrations: Seq<ColumnarRegistration<S>>,
    max_rows: usize,
    start: int,
) -> Seq<Seq<SurvivorView>>
    decreases survivors.len() - start,
{
    let end = run_block_end(survivor_rows(survivors), registrations, max_rows, start);
    if start < end <= survivors.len() {
        seq![survivors.subrange(start, end)] + run_chunks(
            survivors,
            registrations,
            max_rows,
            end,
        )
    } else {
        Seq::<Seq<SurvivorView>>::empty()
    }
}

proof fn lemma_run_end<S: RowColumnSplitter>(
    rows: Seq<RowView>,
    registrations: Seq<ColumnarRegistration<S>>,
    i: int,
    j: int,
    limit: int,
)
    requires
        j <= limit,
    ensures
        j <= run_end(rows, registrations, i, j, limit) <= limit,
    decreases limit - j,
{
    if j < limit && !breaks(rows, registrations, i, j) {
        lemma_run_end(rows, registrations, i, j + 1, limit);
    }
}

/// The blocks hold all survivors, in order.
pub proof fn lemma_chunks_cover<S: RowColumnSplitter>(
    survivors: Seq<SurvivorView>,
    registrations: Seq<ColumnarRegistration<S>>,
    max_rows: usize,
    start: int,
)
    requires
        0 <= start <= survivors.len(),
    ensures
        joined(run_chunks(survivors, registrations, max_rows, start)) == survivors.skip(start),
    decreases survivors.len() - start,
{
    let rows = survivor_rows(survivors);
    let chunks = run_chunks(survivors, registrations, max_rows, start);
    if start < survivors.len() {
        let limit = row_limit(rows.len() as int, start, max_rows);
        lemma_run_end(rows, registrations, start, start + 1, limit);
        let end = run_block_end(rows, registrations, max_rows, start);
        let rest = run_chunks(survivors, registrations, max_rows, end);
        lemma_chunks_cover(survivors, registrations, max_rows, end);
        assert(chunks.skip(1) =~= rest);
        assert(joined(chunks) =~= survivors.skip(start));
    } else {
        assert(chunks.len() == 0) by {
            let limit = row_limit(rows.len() as int, start, max_rows);
            assert(limit == rows.len());
            assert(run_end(rows, registrations, start, start + 1, limit) == start + 1);
        }
        assert(survivors.skip(start) =~= Seq::<SurvivorView>::empty());
    }
}

proof fn lemma_run_end_limits<S: RowColumnSplitter>(
    rows: Seq<RowView>,
    registrations: Seq<ColumnarRegistration<S>>,
    i: int,
    j: int,
    limit: int,
)
    requires
        i < j <= limit,
        forall|r: int| i < r < j ==> !breaks(rows, registrations, i, r),
    ensures
        ({
            let end = run_end(rows, registrations, i, j, limit);
            &&& forall|r: int| i < r < end ==> !breaks(rows, registrations, i, r)
            &&& end < limit ==> breaks(rows, registrations, i, end)
        }),
    decreases limit - j,
{
    if j < limit && !breaks(rows, registrations, i, j) {
        lemma_run_end_limits(rows, registrations, i, j + 1, limit);
    }
}

/// The limits of the blocks of a run: the first block has at least one row and at most the
/// greatest number; if it is of a table stored by column all its rows start with the table's
/// prefix, else none is of such a table; and it ends early only where the next row does not
/// belong to it.
pub proof fn lemma_run_block_limits<S: RowColumnSplitter>(
    survivors: Seq<SurvivorView>,
    registrations: Seq<ColumnarRegistration<S>>,
    max_rows: usize,
    start: int,
)
    requires
        0 <= start < survivors.len(),
    ensures
        ({
            let chunks = run_chunks(survivors, registrations, max_rows, start);
            let n = chunks[0].len() as int;
            let table = registration_index(registrations, survivors[start].row.key);
            &&& chunks.len() > 0
            &&& 0 < n <= survivors.len() - start
            &&& n == 1 || n <= max_rows
            &&& chunks[0] == survivors.subrange(start, start + n)
            &&& forall|r: int|
                0 < r < n ==> (match table {
                    Some(t) => registrations[t].prefix@.is_prefix_of(
                        (#[trigger] chunks[0][r]).row.key,
                    ),
                    None => registration_index(registrations, chunks[0][r].row.key) is None,
                })
            &&& start + n < survivors.len() && n < max_rows ==> (match table {
                Some(t) => !registrations[t].prefix@.is_prefix_of(survivors[start + n].row.key),
                None => registration_index(registrations, survivors[start + n].row.key) is Some,
            })
            &&& chunks.skip(1) == run_chunks(survivors, registrations, max_rows, start + n)
        }),
{
    let rows = survivor_rows(survivors);
    let limit = row_limit(rows.len() as int, start, max_rows);
    let chunks = run_chunks(survivors, registrations, max_rows, start);
    lemma_run_end(rows, registrations, start, start + 1, limit);
    lemma_run_end_limits(rows, registrations, start, start + 1, limit);
    let end = run_block_end(rows, registrations, max_rows, start);
    assert(chunks[0] == survivors.subrange(start, end));
    assert(chunks.skip(1) =~= run_chunks(survivors, registrations, max_rows, end));
    assert(rows[start].key == survivors[start].row.key);
    let n = chunks[0].len() as int;
    assert forall|r: int| 0 < r < n implies (match registration_index(
        registrations,
        survivors[start].row.key,
    ) {
        Some(t) => registrations[t].prefix@.is_prefix_of((#[trigger] chunks[0][r]).row.key),
        None => registration_index(registrations, chunks[0][r].row.key) is None,
    }) by {
        assert(!breaks(rows, registrations, start, start + r));
        assert(rows[start + r].key == chunks[0][r].row.key);
    }
    if end < survivors.len() {
        assert(rows[end].key == survivors[end].row.key);
    }
}

// Files of a run

/// One file that compaction produces: its contents, and where the latest
/// version of each key stands, as block and row.
#[derive(Debug)]
pub struct CompactionOutput {
    pub bytes: Vec<u8>,
    pub art_targets: Vec<(Vec<u8>, u32, u32)>,
}

/// The blocks of a file, and where the latest version of each key stands.
#[verifier::ext_equal]
pub ghost struct OutputView {
    pub blocks: Seq<Seq<u8>>,
    pub targets: Seq<(Seq<u8>, u32, u32)>,
}

impl OutputView {
    /// A file without blocks.
    pub open spec fn empty() -> OutputView {
        OutputView {
            blocks: Seq::<Seq<u8>>::empty(),
            targets: Seq::<(Seq<u8>, u32, u32)>::empty(),
        }
    }
}

/// What targets say.
pub open spec fn target_views(targets: Seq<(Vec<u8>, u32, u32)>) -> Seq<(Seq<u8>, u32, u32)> {
    Seq::new(targets.len(), |i: int| (targets[i].0@, targets[i].1, targets[i].2))
}

/// Where the latest versions among the first `n` rows of a block stand.
pub open spec fn targets_of(chunk: Seq<SurvivorView>, block: u32, n: int) -> Seq<
    (Seq<u8>, u32, u32),
>
    decreases n,
{
    if n <= 0 {
        Seq::<(Seq<u8>, u32, u32)>::empty()
    } else {
        let before = targets_of(chunk, block, n - 1);
        if chunk[n - 1].latest {
            before.push((chunk[n - 1].row.key, block, (n - 1) as u32))
        } else {
            before
        }
    }
}

/// Files that are finished, and the one in the making.
#[verifier::ext_equal]
pub ghost struct Building {
    pub outputs: Seq<OutputView>,
    pub open: OutputView,
}

impl Building {
    /// A block added; the file is finished once it has reached its size.
    pub open spec fn with_block<S: RowColumnSplitter>(
        self,
        chunk: Seq<SurvivorView>,
        registrations: Seq<ColumnarRegistration<S>>,
        block_id: u64,
        limit: u64,
    ) -> Building {
        let rows = survivor_rows(chunk);
        let open = OutputView {
            blocks: self.open.blocks.push(
                rows_block(rows, registrations, block_id, newest(rows, 0)),
            ),
            targets: self.open.targets + targets_of(
                chunk,
                self.open.blocks.len() as u32,
                chunk.len() as int,
            ),
        };
        if concat(open.blocks).len() >= limit {
            Building { outputs: self.outputs.push(open), open: OutputView::empty() }
        } else {
            Building { outputs: self.outputs, open }
        }
    }

    /// All files, the last one too if it holds anything.
    pub open spec fn finished(self) -> Seq<OutputView> {
        if concat(self.open.blocks).len() > 0 {
            self.outputs.push(self.open)
        } else {
            self.outputs
        }
    }
}

/// The files made of blocks; block ids count from 1.
pub open spec fn built<S: RowColumnSplitter>(
    chunks: Seq<Seq<SurvivorView>>,
    registrations: Seq<ColumnarRegistration<S>>,
    limit: u64,
) -> Building
    decreases chunks.len(),
{
    if chunks.len() == 0 {
        Building { outputs: Seq::<OutputView>::empty(), open: OutputView::empty() }
    } else {
        built(chunks.drop_last(), registrations, limit).with_block(
            chunks.last(),
            registrations,
            chunks.len() as u64,
            limit,
        )
    }
}

/// The files of a run.
pub open spec fn run_outputs<S: RowColumnSplitter>(
    survivors: Seq<SurvivorView>,
    registrations: Seq<ColumnarRegistration<S>>,
    max_rows: usize,
    limit: u64,
) -> Seq<OutputView> {
    built(run_chunks(survivors, registrations, max_rows, 0), registrations, limit).finished()
}

proof fn lemma_built_limits<S: RowColumnSplitter>(
    chunks: Seq<Seq<SurvivorView>>,
    registrations: Seq<ColumnarRegistration<S>>,
    limit: u64,
)
    ensures
        ({
            let after = built(chunks, registrations, limit);
            &&& forall|f: int|
                0 <= f < after.outputs.len() ==> just_full(
                    (#[trigger] after.outputs[f]).blocks,
                    limit,
                )
            &&& after.open.blocks.len() == 0 || concat(after.open.blocks).len() < limit
        }),
    decreases chunks.len(),
{
    if chunks.len() > 0 {
        let before = built(chunks.drop_last(), registrations, limit);
        lemma_built_limits(chunks.drop_last(), registrations, limit);
        let after = built(chunks, registrations, limit);
        let rows = survivor_rows(chunks.last());
        let open = before.open.blocks.push(
            rows_block(rows, registrations, chunks.len() as u64, newest(rows, 0)),
        );
        assert(open.drop_last() =~= before.open.blocks);
        assert forall|f: int| 0 <= f < after.outputs.len() implies just_full(
            (#[trigger] after.outputs[f]).blocks,
            limit,
        ) by {
            if f < before.outputs.len() {
                assert(after.outputs[f] == before.outputs[f]);
            } else {
                assert(after.outputs[f].blocks == open);
            }
        }
    }
}

/// A compaction closes a file with the block that makes it reach its size, and only the last
/// file of a run may be smaller.
pub proof fn lemma_run_file_limits<S: RowColumnSplitter>(
    survivors: Seq<SurvivorView>,
    registrations: Seq<ColumnarRegistration<S>>,
    max_rows: usize,
    limit: u64,
    f: int,
)
    requires
        0 <= f < run_outputs(survivors, registrations, max_rows, limit).len(),
    ensures
        ({
            let files = run_outputs(survivors, registrations, max_rows, limit);
            &&& files[f].blocks.len() > 0
            &&& f < files.len() - 1 ==> just_full(files[f].blocks, limit)
            &&& no_fuller(files[f].blocks, limit)
        }),
{
    let chunks = run_chunks(survivors, registrations, max_rows, 0);
    let last = built(chunks, registrations, limit);
    lemma_built_limits(chunks, registrations, limit);
    if f >= last.outputs.len() {
        let open = last.open.blocks;
        if open.len() > 0 {
            assert(concat(open) == concat(open.drop_last()) + open.last());
        }
    }
}

/// Whether outputs hold these files.
pub open spec fn outputs_hold(
    outputs: Seq<CompactionOutput>,
    expected: Seq<OutputView>,
) -> bool {
    &&& outputs.len() == expected.len()
    &&& forall|i: int|
        0 <= i < outputs.len() ==> (#[trigger] outputs[i]).bytes@ == sst_bytes(expected[i].blocks)
            && target_views(outputs[i].art_targets@) == expected[i].targets
}

/// Whether each column chunk of each block is one that its codec made.
pub open spec fn chunks_encoded<S: RowColumnSplitter>(
    chunks: Seq<Seq<SurvivorView>>,
    registrations: Seq<ColumnarRegistration<S>>,
) -> bool {
    forall|k: int|
        0 <= k < chunks.len() ==> rows_encoded(
            survivor_rows(#[trigger] chunks[k]),
            registrations,
        )
}

/// What building the files of a run comes to. It fails only at a block, once
/// those in front of it are made.
pub open spec fn run_builds<S: RowColumnSplitter>(
    survivors: Seq<SurvivorView>,
    registrations: Seq<ColumnarRegistration<S>>,
    max_rows: usize,
    limit: u64,
    outcome: GalaxResult<Vec<CompactionOutput>>,
) -> bool {
    let chunks = run_chunks(survivors, registrations, max_rows, 0);
    match outcome {
        Ok(outputs) => {
            &&& outputs_hold(
                outputs@,
                run_outputs(survivors, registrations, max_rows, limit),
            )
            &&& chunks_encoded(chunks, registrations)
        },
        Err(error) => {
            &&& survivors.len() > 0
            &&& error == GalaxError::Internal(Fault::ZstdCompressionFailed)
            &&& exists|k: int|
                0 <= k < chunks.len() && chunks_encoded(#[trigger] chunks.take(k), registrations)
        },
    }
}

/// Finds the end of the block that starts at `i`.
fn find_run_end<S: RowColumnSplitter>(
    rows: &[Survivor],
    registrations: &[ColumnarRegistration<S>],
    max_rows: usize,
    i: usize,
) -> (end: usize)
    requires
        i < rows@.len(),
    ensures
        end == run_block_end(
            survivor_rows(survivor_views(rows@)),
            registrations@,
            max_rows,
            i as int,
        ),
        i < end <= rows@.len(),
{
    let ghost all = survivor_rows(survivor_views(rows@));
    let max: usize = if max_rows == 0 { 1 } else { max_rows };
    let limit: usize = if max < rows.len() - i { i + max } else { rows.len() };
    assert(limit == row_limit(all.len() as int, i as int, max_rows));
    assert(all[i as int].key == rows@[i as int].row.key@);
    let table: Option<usize> = registration_position(registrations, rows[i].row.key.as_slice());
    let mut j: usize = i + 1;
    proof {
        lemma_run_end(all, registrations@, i as int, i + 1, limit as int);
    }
    while j < limit
        invariant
            i < j <= limit <= rows@.len(),
            i < rows@.len(),
            all == survivor_rows(survivor_views(rows@)),
            limit == row_limit(all.len() as int, i as int, max_rows),
            match table {
                Some(t) => registration_index(registrations@, all[i as int].key) == Some(t as int)
                    && t < registrations@.len(),
                None => registration_index(registrations@, all[i as int].key) is None,
            },
            run_end(all, registrations@, i as int, i + 1, limit as int) == run_end(
                all,
                registrations@,
                i as int,
                j as int,
                limit as int,
            ),
        decreases limit - j,
    {
        assert(all[j as int].key == rows@[j as int].row.key@);
        let key: &[u8] = rows[j].row.key.as_slice();
        let stop: bool = match table {
            Some(t) => !registrations[t].matches(key),
            None => registration_for(registrations, key).is_some(),
        };
        assert(stop == breaks(all, registrations@, i as int, j as int));
        if stop {
            return j;
        }
        j = j + 1;
    }
    j
}

/// Appends where the latest versions of a block stand.
fn push_targets(chunk: &[Survivor], block: u32, targets: &mut Vec<(Vec<u8>, u32, u32)>)
    ensures
        target_views(final(targets)@) == target_views(old(targets)@) + targets_of(
            survivor_views(chunk@),
            block,
            chunk@.len() as int,
        ),
{
    let ghost start = target_views(targets@);
    let ghost rows = survivor_views(chunk@);
    let mut i: usize = 0;
    assert(target_views(targets@) =~= start + targets_of(rows, block, 0));
    while i < chunk.len()
        invariant
            i <= chunk@.len(),
            rows == survivor_views(chunk@),
            target_views(targets@) == start + targets_of(rows, block, i as int),
        decreases chunk@.len() - i,
    {
        let ghost before = targets@;
        assert(rows[i as int] == chunk@[i as int]@);
        if chunk[i].latest {
            let key = slice_to_vec(chunk[i].row.key.as_slice());
            targets.push((key, block, #[verifier::truncate] (i as u32)));
            assert(target_views(targets@) =~= target_views(before).push(
                (rows[i as int].row.key, block, i as u32),
            ));
        }
        assert(target_views(targets@) =~= start + targets_of(rows, block, i + 1));
        i = i + 1;
    }
}

/// Builds the files for one run of survivors, sorted by key and timestamp.
/// Blocks take up to `max_rows_per_block` rows, of one table; a file is
/// finished once its blocks have reached `sst_size_bytes`.
pub fn build_run<S: RowColumnSplitter>(
    rows: &[Survivor],
    sst_size_bytes: u64,
    max_rows_per_block: usize,
    registrations: &[ColumnarRegistration<S>],
) -> (result: GalaxResult<Vec<CompactionOutput>>)
    ensures
        run_builds(
            survivor_views(rows@),
            registrations@,
            max_rows_per_block,
            sst_size_bytes,
            result,
        ),
{
    let ghost all = survivor_views(rows@);
    let ghost chunks = run_chunks(all, registrations@, max_rows_per_block, 0);
    let ghost mut done = Seq::<Seq<SurvivorView>>::empty();
    let ghost mut closed = Seq::<OutputView>::empty();
    let mut outputs: Vec<CompactionOutput> = Vec::new();
    let mut packer = SstPacker::new();
    let mut targets: Vec<(Vec<u8>, u32, u32)> = Vec::new();
    let mut blocks: usize = 0;
    let mut i: usize = 0;
    assert(chunks =~= done + run_chunks(all, registrations@, max_rows_per_block, 0));
    assert(target_views(targets@) =~= Seq::<(Seq<u8>, u32, u32)>::empty());
    while i < rows.len()
        invariant
            i <= rows@.len(),
            all == survivor_views(rows@),
            chunks == run_chunks(all, registrations@, max_rows_per_block, 0),
            chunks == done + run_chunks(all, registrations@, max_rows_per_block, i as int),
            done.len() <= i,
            blocks == done.len(),
            packer.inv(),
            outputs_hold(outputs@, closed),
            built(done, registrations@, sst_size_bytes) == (Building {
                outputs: closed,
                open: OutputView { blocks: packer@, targets: target_views(targets@) },
            }),
            chunks_encoded(done, registrations@),
        decreases rows@.len() - i,
    {
        let end: usize = find_run_end(rows, registrations, max_rows_per_block, i);
        let chunk: &[Survivor] = slice_subrange(rows, i, end);
        let ghost chunk_view = all.subrange(i as int, end as int);
        let ghost rest = run_chunks(all, registrations@, max_rows_per_block, end as int);
        proof {
            assert(survivor_views(chunk@) =~= chunk_view);
            assert(rows_of(chunk@) =~= survivor_rows(chunk_view));
            assert(done + (seq![chunk_view] + rest) =~= done.push(chunk_view) + rest);
            assert(chunks[done.len() as int] == chunk_view);
        }
        let block_id: u64 = blocks as u64 + 1;
        let timestamp: u64 = newest_timestamp(chunk, 0);
        match build_block(chunk, registrations, block_id, timestamp) {
            Ok(block) => {
                let block_index: u32 = #[verifier::truncate] (packer.block_count() as u32);
                packer.add(block.as_slice());
                push_targets(chunk, block_index, &mut targets);
                let ghost after = done.push(chunk_view);
                proof {
                    assert(after.drop_last() =~= done);
                    assert(rows_encoded(survivor_rows(chunk_view), registrations@));
                    assert(chunks_encoded(after, registrations@)) by {
                        assert forall|k: int| 0 <= k < after.len() implies rows_encoded(
                            survivor_rows(#[trigger] after[k]),
                            registrations@,
                        ) by {
                            if k < done.len() {
                                assert(after[k] == done[k]);
                            }
                        }
                    }
                }
                if packer.len() as u64 >= sst_size_bytes {
                    let ghost file = OutputView {
                        blocks: packer@,
                        targets: target_views(targets@),
                    };
                    let mut full = SstPacker::new();
                    std::mem::swap(&mut full, &mut packer);
                    let mut art_targets: Vec<(Vec<u8>, u32, u32)> = Vec::new();
                    std::mem::swap(&mut art_targets, &mut targets);
                    let ghost outputs_before = outputs@;
                    outputs.push(CompactionOutput { bytes: full.finish(), art_targets });
                    proof {
                        let expected = closed.push(file);
                        assert forall|k: int| 0 <= k < outputs@.len() implies (
                        #[trigger] outputs@[k]).bytes@ == sst_bytes(expected[k].blocks)
                            && target_views(outputs@[k].art_targets@) == expected[k].targets by {
                            if k < outputs_before.len() {
                                assert(outputs@[k] == outputs_before[k]);
                            }
                        }
                        closed = expected;
                        assert(target_views(targets@) =~= Seq::<(Seq<u8>, u32, u32)>::empty());
                    }
                }
                proof {
                    done = after;
                }
            },
            Err(error) => {
                assert(chunks.take(done.len() as int) =~= done);
                return Err(error);
            },
        }
        blocks = blocks + 1;
        i = end;
    }
    proof {
        let n = all.len() as int;
        lemma_chunks_cover(all, registrations@, max_rows_per_block, n);
        let rest = run_chunks(all, registrations@, max_rows_per_block, n);
        assert(rest.len() == 0) by {
            let rows_view = survivor_rows(all);
            let limit = row_limit(n, n, max_rows_per_block);
            assert(limit == n);
            assert(run_end(rows_view, registrations@, n, n + 1, limit) == n + 1);
        }
        assert(chunks =~= done);
    }
    if packer.len() > 0 {
        let ghost outputs_before = outputs@;
        let ghost file = OutputView { blocks: packer@, targets: target_views(targets@) };
        outputs.push(CompactionOutput { bytes: packer.finish(), art_targets: targets });
        proof {
            let expected = closed.push(file);
            assert forall|k: int| 0 <= k < outputs@.len() implies (#[trigger] outputs@[k]).bytes@
                == sst_bytes(expected[k].blocks) && target_views(outputs@[k].art_targets@)
                == expected[k].targets by {
                if k < outputs_before.len() {
                    assert(outputs@[k] == outputs_before[k]);
                }
            }
        }
    }
    Ok(outputs)
}

// Every target is where it is said to be

/// Whether a target stands in a block of these: the block is that of one of
/// the chunks, and the row is the latest version of the key.
pub open spec fn target_found<S: RowColumnSplitter>(
    blocks: Seq<Seq<u8>>,
    target: (Seq<u8>, u32, u32),
    chunks: Seq<Seq<SurvivorView>>,
    registrations: Seq<ColumnarRegistration<S>>,
) -> bool {
    &&& target.1 < blocks.len()
    &&& exists|k: int|
        0 <= k < chunks.len() && target.2 < (#[trigger] chunks[k]).len()
            && chunks[k][target.2 as int].row.key == target.0
            && chunks[k][target.2 as int].latest && blocks[target.1 as int] == rows_block(
            survivor_rows(chunks[k]),
            registrations,
            (k + 1) as u64,
            newest(survivor_rows(chunks[k]), 0),
        )
}

/// Whether all targets of a file are found.
pub open spec fn targets_found<S: RowColumnSplitter>(
    output: OutputView,
    chunks: Seq<Seq<SurvivorView>>,
    registrations: Seq<ColumnarRegistration<S>>,
) -> bool {
    forall|t: int|
        0 <= t < output.targets.len() ==> target_found(
            output.blocks,
            #[trigger] output.targets[t],
            chunks,
            registrations,
        )
}

proof fn lemma_targets_of(chunk: Seq<SurvivorView>, block: u32, n: int)
    requires
        0 <= n <= chunk.len(),
        chunk.len() <= u32::MAX,
    ensures
        forall|t: int|
            0 <= t < targets_of(chunk, block, n).len() ==> {
                let target = #[trigger] targets_of(chunk, block, n)[t];
                &&& target.1 == block
                &&& target.2 < chunk.len()
                &&& chunk[target.2 as int].row.key == target.0
                &&& chunk[target.2 as int].latest
            },
    decreases n,
{
    if n > 0 {
        lemma_targets_of(chunk, block, n - 1);
        let before = targets_of(chunk, block, n - 1);
        let after = targets_of(chunk, block, n);
        assert forall|t: int| 0 <= t < after.len() implies {
            let target = #[trigger] after[t];
            &&& target.1 == block
            &&& target.2 < chunk.len()
            &&& chunk[target.2 as int].row.key == target.0
            &&& chunk[target.2 as int].latest
        } by {
            if t < before.len() {
                assert(after[t] == before[t]);
            }
        }
    }
}

proof fn lemma_target_kept<S: RowColumnSplitter>(
    blocks: Seq<Seq<u8>>,
    more_blocks: Seq<Seq<u8>>,
    target: (Seq<u8>, u32, u32),
    chunks: Seq<Seq<SurvivorView>>,
    more: Seq<Seq<SurvivorView>>,
    registrations: Seq<ColumnarRegistration<S>>,
)
    requires
        target_found(blocks, target, chunks, registrations),
        blocks.is_prefix_of(more_blocks),
        chunks.is_prefix_of(more),
    ensures
        target_found(more_blocks, target, more, registrations),
{
    let k = choose|k: int|
        0 <= k < chunks.len() && target.2 < (#[trigger] chunks[k]).len()
            && chunks[k][target.2 as int].row.key == target.0
            && chunks[k][target.2 as int].latest && blocks[target.1 as int] == rows_block(
            survivor_rows(chunks[k]),
            registrations,
            (k + 1) as u64,
            newest(survivor_rows(chunks[k]), 0),
        );
    assert(more[k] == chunks[k]);
    assert(more_blocks[target.1 as int] == blocks[target.1 as int]);
}

/// While files are built, the targets of each are found.
pub proof fn lemma_built_targets<S: RowColumnSplitter>(
    chunks: Seq<Seq<SurvivorView>>,
    registrations: Seq<ColumnarRegistration<S>>,
    limit: u64,
)
    requires
        chunks.len() <= u32::MAX,
        forall|k: int| 0 <= k < chunks.len() ==> (#[trigger] chunks[k]).len() <= u32::MAX,
    ensures
        ({
            let building = built(chunks, registrations, limit);
            &&& building.open.blocks.len() <= chunks.len()
            &&& targets_found(building.open, chunks, registrations)
            &&& forall|o: int|
                0 <= o < building.outputs.len() ==> targets_found(
                    #[trigger] building.outputs[o],
                    chunks,
                    registrations,
                )
        }),
    decreases chunks.len(),
{
    if chunks.len() > 0 {
        let front = chunks.drop_last();
        let chunk = chunks.last();
        let rows = survivor_rows(chunk);
        assert(chunks[chunks.len() - 1] == chunk);
        assert forall|k: int| 0 <= k < front.len() implies (#[trigger] front[k]).len()
            <= u32::MAX by {
            assert(chunks[k] == front[k]);
        }
        lemma_built_targets(front, registrations, limit);
        let before = built(front, registrations, limit);
        let after = built(chunks, registrations, limit);
        let block = rows_block(rows, registrations, chunks.len() as u64, newest(rows, 0));
        let place = before.open.blocks.len() as u32;
        let added = targets_of(chunk, place, chunk.len() as int);
        let open = OutputView {
            blocks: before.open.blocks.push(block),
            targets: before.open.targets + added,
        };
        assert(front.is_prefix_of(chunks)) by {
            assert(front =~= chunks.subrange(0, front.len() as int));
        }
        assert(before.open.blocks.is_prefix_of(open.blocks)) by {
            assert(before.open.blocks =~= open.blocks.subrange(
                0,
                before.open.blocks.len() as int,
            ));
        }
        lemma_targets_of(chunk, place, chunk.len() as int);
        assert forall|t: int| 0 <= t < open.targets.len() implies target_found(
            open.blocks,
            #[trigger] open.targets[t],
            chunks,
            registrations,
        ) by {
            if t < before.open.targets.len() {
                assert(open.targets[t] == before.open.targets[t]);
                lemma_target_kept(
                    before.open.blocks,
                    open.blocks,
                    open.targets[t],
                    front,
                    chunks,
                    registrations,
                );
            } else {
                let target = added[t - before.open.targets.len()];
                assert(open.targets[t] == target);
                assert(target.2 < chunks[chunks.len() - 1].len());
                assert(open.blocks[target.1 as int] == block);
            }
        }
        assert(targets_found(open, chunks, registrations));
        assert forall|o: int| 0 <= o < after.outputs.len() implies targets_found(
            #[trigger] after.outputs[o],
            chunks,
            registrations,
        ) by {
            if o < before.outputs.len() {
                let output = before.outputs[o];
                assert(after.outputs[o] == output);
                assert forall|t: int| 0 <= t < output.targets.len() implies target_found(
                    output.blocks,
                    #[trigger] output.targets[t],
                    chunks,
                    registrations,
                ) by {
                    assert(targets_found(output, front, registrations));
                    assert(output.blocks =~= output.blocks.subrange(
                        0,
                        output.blocks.len() as int,
                    ));
                    lemma_target_kept(
                        output.blocks,
                        output.blocks,
                        output.targets[t],
                        front,
                        chunks,
                        registrations,
                    );
                }
            }
        }
    }
}

/// The latest version of a key stands in the block and row that its target
/// gives.
pub proof fn lemma_targets_found<S: RowColumnSplitter>(
    survivors: Seq<SurvivorView>,
    registrations: Seq<ColumnarRegistration<S>>,
    max_rows: usize,
    limit: u64,
    o: int,
)
    requires
        run_chunks(survivors, registrations, max_rows, 0).len() <= u32::MAX,
        forall|k: int|
            0 <= k < run_chunks(survivors, registrations, max_rows, 0).len() ==> (
            #[trigger] run_chunks(survivors, registrations, max_rows, 0)[k]).len() <= u32::MAX,
        0 <= o < run_outputs(survivors, registrations, max_rows, limit).len(),
    ensures
        targets_found(
            run_outputs(survivors, registrations, max_rows, limit)[o],
            run_chunks(survivors, registrations, max_rows, 0),
            registrations,
        ),
{
    lemma_built_targets(
        run_chunks(survivors, registrations, max_rows, 0),
        registrations,
        limit,
    );
}

// Sharing the work

/// Quotient rounded up.
pub open spec fn ceil_div(a: nat, b: nat) -> nat {
    if a % b == 0 {
        a / b
    } else {
        a / b + 1
    }
}

/// Number of workers for `len` rows: at least one, at most one for each row.
pub open spec fn workers_for(len: nat, concurrency: nat) -> nat {
    let wanted = if concurrency == 0 {
        1nat
    } else {
        concurrency
    };
    if wanted < len {
        wanted
    } else {
        len
    }
}

/// Number of rows for each worker.
pub fn slice_size(len: usize, concurrency: usize) -> (size: usize)
    requires
        len > 0,
    ensures
        size == ceil_div(len as nat, workers_for(len as nat, concurrency as nat)),
        size > 0,
{
    let wanted: usize = if concurrency == 0 { 1 } else { concurrency };
    let workers: usize = if wanted < len { wanted } else { len };
    assert(workers > 0);
    let quotient: usize = len / workers;
    assert(quotient > 0) by (nonlinear_arith)
        requires
            quotient == len / workers,
            0 < workers <= len,
    ;
    if len % workers == 0 {
        quotient
    } else {
        assert(quotient < usize::MAX) by (nonlinear_arith)
            requires
                quotient == len / workers,
                0 < workers <= len,
                len % workers != 0,
                len <= usize::MAX,
        ;
        quotient + 1
    }
}

/// Survivors in slices of a size, from `start` on.
pub open spec fn slices(survivors: Seq<SurvivorView>, start: int, size: int) -> Seq<
    Seq<SurvivorView>,
>
    decreases survivors.len() - start,
{
    if start >= survivors.len() || size <= 0 {
        Seq::<Seq<SurvivorView>>::empty()
    } else {
        let end = if start + size < survivors.len() {
            start + size
        } else {
            survivors.len() as int
        };
        seq![survivors.subrange(start, end)] + slices(survivors, end, size)
    }
}

/// Slices hold all survivors from `start` on, in order. None is empty or larger than the
/// size, and there are no more of them than are needed.
pub proof fn lemma_slices_cover(survivors: Seq<SurvivorView>, start: int, size: int)
    requires
        0 <= start <= survivors.len(),
        size > 0,
    ensures
        joined(slices(survivors, start, size)) == survivors.skip(start),
        forall|p: int|
            0 <= p < slices(survivors, start, size).len() ==> 0 < (#[trigger] slices(
                survivors,
                start,
                size,
            )[p]).len() <= size,
        (slices(survivors, start, size).len() - 1) * size < survivors.len() - start
            || slices(survivors, start, size).len() == 0,
    decreases survivors.len() - start,
{
    let all = slices(survivors, start, size);
    if start < survivors.len() {
        let end = if start + size < survivors.len() {
            start + size
        } else {
            survivors.len() as int
        };
        let rest = slices(survivors, end, size);
        lemma_slices_cover(survivors, end, size);
        assert(all.skip(1) =~= rest);
        assert(joined(all) =~= survivors.skip(start));
        assert forall|p: int| 0 <= p < all.len() implies 0 < (#[trigger] all[p]).len() <= size by {
            if p > 0 {
                assert(all[p] == rest[p - 1]);
            }
        }
        if rest.len() > 0 {
            assert((all.len() - 1) * size == (rest.len() - 1) * size + size) by (nonlinear_arith)
                requires
                    all.len() == rest.len() + 1,
            ;
            assert(end < survivors.len()) by {
                if end >= survivors.len() {
                    assert(rest.len() == 0);
                }
            }
        } else {
            assert((all.len() - 1) * size == 0) by (nonlinear_arith)
                requires
                    all.len() == 1,
            ;
        }
    } else {
        assert(survivors.skip(start) =~= Seq::<SurvivorView>::empty());
        assert(all =~= Seq::<Seq<SurvivorView>>::empty());
    }
}

/// The files of all slices, one slice after the other.
pub open spec fn slice_outputs<S: RowColumnSplitter>(
    parts: Seq<Seq<SurvivorView>>,
    registrations: Seq<ColumnarRegistration<S>>,
    max_rows: usize,
    limit: u64,
) -> Seq<OutputView>
    decreases parts.len(),
{
    if parts.len() == 0 {
        Seq::<OutputView>::empty()
    } else {
        slice_outputs(parts.drop_last(), registrations, max_rows, limit) + run_outputs(
            parts.last(),
            registrations,
            max_rows,
            limit,
        )
    }
}

/// The slices that survivors are shared out in.
pub open spec fn shared_out(survivors: Seq<SurvivorView>, concurrency: usize) -> Seq<
    Seq<SurvivorView>,
> {
    slices(
        survivors,
        0,
        ceil_div(survivors.len(), workers_for(survivors.len(), concurrency as nat)) as int,
    )
}

/// The survivors are shared out among as many workers as were asked for, or fewer: every
/// survivor goes to one of them, in order, and none gets more than an even share, rounded up.
pub proof fn lemma_shared_out(survivors: Seq<SurvivorView>, concurrency: usize)
    requires
        survivors.len() > 0,
    ensures
        joined(shared_out(survivors, concurrency)) == survivors,
        0 < shared_out(survivors, concurrency).len() <= (if concurrency == 0 {
            1
        } else {
            concurrency as int
        }),
        concurrency <= 1 ==> shared_out(survivors, concurrency).len() == 1,
        forall|p: int|
            0 <= p < shared_out(survivors, concurrency).len() ==> 0 < (#[trigger] shared_out(
                survivors,
                concurrency,
            )[p]).len(),
        forall|p: int|
            0 < concurrency <= survivors.len() && 0 <= p < shared_out(
                survivors,
                concurrency,
            ).len() ==> ((#[trigger] shared_out(survivors, concurrency)[p]).len() - 1) * concurrency
                < survivors.len(),
{
    let len = survivors.len();
    let workers = workers_for(len, concurrency as nat);
    let size = ceil_div(len, workers);
    let parts = shared_out(survivors, concurrency);
    assert(0 < size && len <= size * workers && (size - 1) * workers < len) by (nonlinear_arith)
        requires
            0 < workers <= len,
            size == if len % workers == 0 {
                len / workers
            } else {
                len / workers + 1
            },
    ;
    lemma_slices_cover(survivors, 0, size as int);
    assert(survivors.skip(0) =~= survivors);
    if parts.len() == 0 {
        assert(joined(parts).len() == 0);
    }
    assert(parts.len() <= workers) by (nonlinear_arith)
        requires
            (parts.len() - 1) * size < len,
            len <= size * workers,
            0 < size,
    ;
    assert forall|p: int|
        0 < concurrency <= survivors.len() && 0 <= p < parts.len() implies ((
    #[trigger] parts[p]).len() - 1) * concurrency < len by {
        let n = parts[p].len();
        assert((n - 1) * workers < len) by (nonlinear_arith)
            requires
                n <= size,
                (size - 1) * workers < len,
                0 < workers,
        ;
    }
}

/// What building all files comes to. It fails only with a slice that fails,
/// once those in front of it are built.
pub open spec fn all_built<S: RowColumnSplitter>(
    survivors: Seq<SurvivorView>,
    registrations: Seq<ColumnarRegistration<S>>,
    concurrency: usize,
    max_rows: usize,
    limit: u64,
    outcome: GalaxResult<Vec<CompactionOutput>>,
) -> bool {
    let parts = shared_out(survivors, concurrency);
    match outcome {
        Ok(outputs) => {
            &&& outputs_hold(
                outputs@,
                slice_outputs(parts, registrations, max_rows, limit),
            )
            &&& forall|k: int|
                0 <= k < parts.len() ==> chunks_encoded(
                    run_chunks(#[trigger] parts[k], registrations, max_rows, 0),
                    registrations,
                )
        },
        Err(error) => {
            &&& survivors.len() > 0
            &&& exists|p: int|
                0 <= p < parts.len() && run_builds(
                    #[trigger] parts[p],
                    registrations,
                    max_rows,
                    limit,
                    Err::<Vec<CompactionOutput>, GalaxError>(error),
                ) && forall|k: int|
                    0 <= k < p ==> chunks_encoded(
                        run_chunks(#[trigger] parts[k], registrations, max_rows, 0),
                        registrations,
                    )
        },
    }
}

/// Builds the files for all survivors, slice by slice.
pub fn build_outputs<S: RowColumnSplitter>(
    survivors: &[Survivor],
    concurrency: usize,
    sst_size_bytes: u64,
    max_rows_per_block: usize,
    registrations: &[ColumnarRegistration<S>],
) -> (result: GalaxResult<Vec<CompactionOutput>>)
    ensures
        all_built(
            survivor_views(survivors@),
            registrations@,
            concurrency,
            max_rows_per_block,
            sst_size_bytes,
            result,
        ),
{
    let ghost all = survivor_views(survivors@);
    let mut outputs: Vec<CompactionOutput> = Vec::new();
    if survivors.len() == 0 {
        assert(shared_out(all, concurrency).len() == 0);
        return Ok(outputs);
    }
    let size: usize = slice_size(survivors.len(), concurrency);
    let ghost parts = slices(all, 0, size as int);
    let ghost mut done = Seq::<Seq<SurvivorView>>::empty();
    let mut start: usize = 0;
    assert(parts =~= done + slices(all, 0, size as int));
    while start < survivors.len()
        invariant
            start <= survivors@.len(),
            size > 0,
            all == survivor_views(survivors@),
            parts == shared_out(all, concurrency),
            parts == done + slices(all, start as int, size as int),
            outputs_hold(
                outputs@,
                slice_outputs(done, registrations@, max_rows_per_block, sst_size_bytes),
            ),
            forall|k: int|
                0 <= k < done.len() ==> chunks_encoded(
                    run_chunks(#[trigger] done[k], registrations@, max_rows_per_block, 0),
                    registrations@,
                ),
        decreases survivors@.len() - start,
    {
        let end: usize = if size < survivors.len() - start {
            start + size
        } else {
            survivors.len()
        };
        let part: &[Survivor] = slice_subrange(survivors, start, end);
        let ghost part_view = all.subrange(start as int, end as int);
        let ghost rest = slices(all, end as int, size as int);
        proof {
            assert(survivor_views(part@) =~= part_view);
            assert(done + (seq![part_view] + rest) =~= done.push(part_view) + rest);
            assert(parts[done.len() as int] == part_view);
        }
        match build_run(part, sst_size_bytes, max_rows_per_block, registrations) {
            Ok(built) => {
                let ghost before = outputs@;
                let ghost added = built@;
                let mut built = built;
                outputs.append(&mut built);
                proof {
                    let after = done.push(part_view);
                    assert(after.drop_last() =~= done);
                    let expected = slice_outputs(
                        after,
                        registrations@,
                        max_rows_per_block,
                        sst_size_bytes,
                    );
                    assert(outputs@ =~= before + added);
                    assert forall|i: int| 0 <= i < outputs@.len() implies (
                    #[trigger] outputs@[i]).bytes@ == sst_bytes(expected[i].blocks)
                        && target_views(outputs@[i].art_targets@) == expected[i].targets by {
                        if i < before.len() {
                            assert(outputs@[i] == before[i]);
                        } else {
                            assert(outputs@[i] == added[i - before.len()]);
                        }
                    }
                    assert forall|k: int| 0 <= k < after.len() implies chunks_encoded(
                        run_chunks(#[trigger] after[k], registrations@, max_rows_per_block, 0),
                        registrations@,
                    ) by {
                        if k < done.len() {
                            assert(after[k] == done[k]);
                        }
                    }
                    done = after;
                }
            },
            Err(error) => {
                assert forall|k: int| 0 <= k < done.len() implies chunks_encoded(
                    run_chunks(#[trigger] parts[k], registrations@, max_rows_per_block, 0),
                    registrations@,
                ) by {
                    assert(parts[k] == done[k]);
                }
                return Err(error);
            },
        }
        start = end;
    }
    proof {
        assert(slices(all, all.len() as int, size as int).len() == 0);
        assert(parts =~= done);
    }
    Ok(outputs)
}

// Compaction

/// No filter: all rows are asked for.
pub open spec fn everything() -> FilterView {
    FilterView { prefix: None, read_ts: None }
}

/// The rows of the first `n` input files.
pub open spec fn input_rows(
    contents: Seq<Vec<u8>>,
    reads: Seq<Seq<ColumnsRead>>,
    n: int,
) -> Seq<RowView>
    decreases n,
{
    if n <= 0 {
        Seq::<RowView>::empty()
    } else {
        input_rows(contents, reads, n - 1) + file_rows(
            contents[n - 1]@,
            index_or_whole(contents[n - 1]@),
            everything(),
            reads[n - 1],
        )
    }
}

/// Whether a row was read out of the input file at `i`.
pub open spec fn in_input(
    contents: Seq<Vec<u8>>,
    reads: Seq<Seq<ColumnsRead>>,
    i: int,
    row: RowView,
) -> bool {
    file_rows(contents[i]@, index_or_whole(contents[i]@), everything(), reads[i]).contains(row)
}

/// A compaction merges the rows of all input files, and no others.
pub proof fn lemma_inputs_merged(
    contents: Seq<Vec<u8>>,
    reads: Seq<Seq<ColumnsRead>>,
    n: int,
    row: RowView,
)
    ensures
        input_rows(contents, reads, n).contains(row) <==> exists|i: int|
            0 <= i < n && #[trigger] in_input(contents, reads, i, row),
    decreases n,
{
    if n > 0 {
        lemma_inputs_merged(contents, reads, n - 1, row);
        let before = input_rows(contents, reads, n - 1);
        let last = file_rows(
            contents[n - 1]@,
            index_or_whole(contents[n - 1]@),
            everything(),
            reads[n - 1],
        );
        let all = before + last;
        if all.contains(row) {
            let k = all.index_of(row);
            if k < before.len() {
                assert(before[k] == row);
            } else {
                assert(last[k - before.len()] == row);
                assert(in_input(contents, reads, n - 1, row));
            }
        }
        if before.contains(row) {
            let k = before.index_of(row);
            assert(all[k] == row);
        }
        if last.contains(row) {
            let k = last.index_of(row);
            assert(all[before.len() + k] == row);
        }
    }
}

/// Whether reading the input files can have come to this.
pub open spec fn inputs_read(contents: Seq<Vec<u8>>, reads: Seq<Seq<ColumnsRead>>) -> bool {
    &&& reads.len() == contents.len()
    &&& forall|i: int|
        0 <= i < contents.len() ==> file_read(
            (#[trigger] contents[i])@,
            index_or_whole(contents[i]@),
            everything(),
            reads[i],
        )
}

proof fn lemma_input_rows_local(
    contents: Seq<Vec<u8>>,
    a: Seq<Seq<ColumnsRead>>,
    b: Seq<Seq<ColumnsRead>>,
    n: int,
)
    requires
        forall|i: int| 0 <= i < n ==> a[i] == b[i],
    ensures
        input_rows(contents, a, n) == input_rows(contents, b, n),
    decreases n,
{
    if n > 0 {
        lemma_input_rows_local(contents, a, b, n - 1);
    }
}

/// Reads the rows of all input files.
pub fn read_inputs(contents: &[Vec<u8>]) -> (result: (Vec<Row>, Ghost<Seq<Seq<ColumnsRead>>>))
    ensures
        inputs_read(contents@, result.1@),
        stamps(result.0@) == input_rows(contents@, result.1@, contents@.len() as int),
{
    let filter = RowFilter { prefix: None, read_ts: None };
    assert(filter@ == everything());
    let ghost mut reads = Seq::<Seq<ColumnsRead>>::empty();
    let mut rows: Vec<Row> = Vec::new();
    let mut i: usize = 0;
    assert(stamps(rows@) =~= Seq::<RowView>::empty());
    while i < contents.len()
        invariant
            i <= contents@.len(),
            filter@ == everything(),
            reads.len() == i,
            forall|j: int|
                0 <= j < i ==> file_read(
                    (#[trigger] contents@[j])@,
                    index_or_whole(contents@[j]@),
                    everything(),
                    reads[j],
                ),
            stamps(rows@) == input_rows(contents@, reads, i as int),
        decreases contents@.len() - i,
    {
        let data: &[u8] = contents[i].as_slice();
        let index = index_of_file(data);
        let ghost before = reads;
        let Ghost(outcome) = collect_file_rows(data, &index, &filter, &mut rows);
        proof {
            reads = reads.push(outcome);
            lemma_input_rows_local(contents@, before, reads, i as int);
        }
        i = i + 1;
    }
    (rows, Ghost(reads))
}

/// What compaction produces.
#[derive(Debug)]
pub struct CompactionPlan {
    /// The files to write.
    pub outputs: Vec<CompactionOutput>,
    /// Number of keys that have a version left.
    pub keys_retained: usize,
    /// Number of versions dropped.
    pub versions_gc_dropped: usize,
}

/// What compaction comes to, given the versions that the input files hold.
pub open spec fn compacts_to<S: RowColumnSplitter>(
    versions: Seq<RowView>,
    pins: Seq<u64>,
    registrations: Seq<ColumnarRegistration<S>>,
    concurrency: usize,
    max_rows: usize,
    limit: u64,
    outcome: GalaxResult<CompactionPlan>,
) -> bool {
    let survivors = survivors_of(versions, pins, versions.len() as int);
    match outcome {
        Ok(plan) => {
            &&& all_built(
                survivors,
                registrations,
                concurrency,
                max_rows,
                limit,
                Ok(plan.outputs),
            )
            &&& plan.keys_retained == latest_count(survivors)
            &&& plan.versions_gc_dropped == versions.len() - survivors.len()
        },
        Err(error) => all_built(
            survivors,
            registrations,
            concurrency,
            max_rows,
            limit,
            Err::<Vec<CompactionOutput>, GalaxError>(error),
        ),
    }
}

/// Every version that a compaction merges is dropped or goes to one of the workers, and the
/// keys that it retains are those of which a latest version does.
pub proof fn lemma_compaction_counts<S: RowColumnSplitter>(
    versions: Seq<RowView>,
    pins: Seq<u64>,
    registrations: Seq<ColumnarRegistration<S>>,
    concurrency: usize,
    max_rows: usize,
    limit: u64,
    plan: CompactionPlan,
)
    requires
        compacts_to(
            versions,
            pins,
            registrations,
            concurrency,
            max_rows,
            limit,
            Ok::<CompactionPlan, GalaxError>(plan),
        ),
        survivors_of(versions, pins, versions.len() as int).len() > 0,
    ensures
        ({
            let survivors = survivors_of(versions, pins, versions.len() as int);
            let parts = shared_out(survivors, concurrency);
            &&& joined(parts).len() + plan.versions_gc_dropped == versions.len()
            &&& plan.keys_retained == latest_count(joined(parts))
        }),
{
    lemma_shared_out(survivors_of(versions, pins, versions.len() as int), concurrency);
}

/// Merges the contents of SST files: keeps, of each key, the latest version and
/// the one that each pinned timestamp shows, and packs them into new files. A
/// key that is deleted, and that no pinned timestamp shows, is dropped.
pub fn plan_compaction<S: RowColumnSplitter>(
    contents: &[Vec<u8>],
    pins: &[Timestamp],
    concurrency: usize,
    sst_size_bytes: u64,
    max_rows_per_block: usize,
    registrations: &[ColumnarRegistration<S>],
) -> (result: GalaxResult<CompactionPlan>)
    ensures
        exists|reads: Seq<Seq<ColumnsRead>>, versions: Seq<RowView>| #[trigger]
            inputs_read(contents@, reads) && #[trigger] lists_versions(
                versions,
                input_rows(contents@, reads, contents@.len() as int),
            ) && compacts_to(
                versions,
                pins@,
                registrations@,
                concurrency,
                max_rows_per_block,
                sst_size_bytes,
                result,
            ),
{
    let (rows, Ghost(reads)) = read_inputs(contents);
    let versions = sort_versions(rows);
    let ghost sorted = stamps(versions@);
    assert(inputs_read(contents@, reads));
    assert(lists_versions(sorted, input_rows(contents@, reads, contents@.len() as int)));
    let collected = collect_garbage(versions, pins);
    match build_outputs(
        collected.survivors.as_slice(),
        concurrency,
        sst_size_bytes,
        max_rows_per_block,
        registrations,
    ) {
        Ok(outputs) => Ok(
            CompactionPlan {
                outputs,
                keys_retained: collected.keys_retained,
                versions_gc_dropped: collected.versions_gc_dropped,
            },
        ),
        Err(error) => Err(error),
    }
}

} // verus!
