//! A compaction: merge, garbage collection, and the new files.

use vstd::prelude::*;
use vstd::slice::slice_to_vec;

use crate::bloom::{lemma_held_keys_claimed, BloomSize, SstBloomFilter};
use crate::bytes::{lemma_lex_irreflexive, lex_le, views};
use crate::compaction::gc::{
    collect_versions, comes_before, first_of_key, in_run_order, kept_rows, lemma_kept_in_order,
    lemma_kept_rows, lemma_latest_kept, lemma_pinned_kept, lemma_recent_kept,
    lemma_unneeded_dropped, GcContext, GcView, VersionedEntry,
};
use crate::compaction::lsm::{
    all_inserted, inserted, sst_views, stages_of, LsmLevel, LsmTree, SstMetadata, SstView,
};
use crate::compaction::merge::{all_entries, lemma_sorted_run, merges, MergeIterator};
use crate::compaction::trigger::{CompactionTrigger, L0CompactionStrategy};
use crate::compaction::{
    BOTTOM_LEVEL, DEFAULT_SIZE_RATIO, DEFAULT_SST_SIZE_BYTES, L0_FILE_COUNT_THRESHOLD,
    MIN_SST_SIZE_BYTES, NUM_LEVELS,
};
use crate::flush::{counted_up, entry_bytes, joined, rows_bytes};
use crate::memtable::entry_size;
use crate::row::{rows_of, RowView};
use crate::sort::lemma_same_values;

verus! {

/// Bits for each key of a Bloom filter.
pub const DEFAULT_BLOOM_BITS_PER_KEY: u32 = 10;

/// How files are written by a compaction.
#[derive(Clone, Copy, PartialEq, Eq, Structural, Debug)]
pub struct CompactionConfig {
    /// Target size of a file in bytes.
    pub sst_size_bytes: u64,
    /// Bits for each key of a Bloom filter.
    pub bloom_bits_per_key: u32,
    /// Size ratio between adjacent levels.
    pub size_ratio: u32,
    /// How level 0 is compacted.
    pub l0_strategy: L0CompactionStrategy,
}

impl CompactionConfig {
    /// The usual settings.
    pub fn new() -> (config: Self)
        ensures
            config == (CompactionConfig {
                sst_size_bytes: DEFAULT_SST_SIZE_BYTES,
                bloom_bits_per_key: DEFAULT_BLOOM_BITS_PER_KEY,
                size_ratio: DEFAULT_SIZE_RATIO,
                l0_strategy: L0CompactionStrategy::Tiered,
            }),
    {
        CompactionConfig {
            sst_size_bytes: DEFAULT_SST_SIZE_BYTES,
            bloom_bits_per_key: DEFAULT_BLOOM_BITS_PER_KEY,
            size_ratio: DEFAULT_SIZE_RATIO,
            l0_strategy: L0CompactionStrategy::Tiered,
        }
    }

    /// The same settings with another file size, brought into the range from 8 MB to
    /// 64 MB.
    pub fn with_sst_size(self, sst_size_bytes: u64) -> (config: Self)
        ensures
            config == (CompactionConfig {
                sst_size_bytes: if sst_size_bytes < MIN_SST_SIZE_BYTES {
                    MIN_SST_SIZE_BYTES
                } else if sst_size_bytes > DEFAULT_SST_SIZE_BYTES {
                    DEFAULT_SST_SIZE_BYTES
                } else {
                    sst_size_bytes
                },
                ..self
            }),
    {
        let size: u64 = if sst_size_bytes < MIN_SST_SIZE_BYTES {
            MIN_SST_SIZE_BYTES
        } else if sst_size_bytes > DEFAULT_SST_SIZE_BYTES {
            DEFAULT_SST_SIZE_BYTES
        } else {
            sst_size_bytes
        };
        CompactionConfig { sst_size_bytes: size, ..self }
    }

    /// The same settings with another strategy for level 0.
    pub fn with_l0_strategy(self, l0_strategy: L0CompactionStrategy) -> (config: Self)
        ensures
            config == (CompactionConfig { l0_strategy, ..self }),
    {
        CompactionConfig { l0_strategy, ..self }
    }
}

impl Default for CompactionConfig {
    fn default() -> (config: Self)
        ensures
            config == (CompactionConfig {
                sst_size_bytes: DEFAULT_SST_SIZE_BYTES,
                bloom_bits_per_key: DEFAULT_BLOOM_BITS_PER_KEY,
                size_ratio: DEFAULT_SIZE_RATIO,
                l0_strategy: L0CompactionStrategy::Tiered,
            }),
    {
        Self::new()
    }
}

/// End of the file that starts at `start`, where the rows before `at` belong to it: a
/// row that would make it larger than the limit starts the next file.
pub open spec fn file_end(rows: Seq<RowView>, start: int, at: int, limit: u64) -> int
    decreases rows.len() - at,
{
    if at >= rows.len() {
        rows.len() as int
    } else if rows_bytes(rows, start, at) + entry_size(rows[at].key, rows[at].value) > limit {
        at
    } else {
        file_end(rows, start, at + 1, limit)
    }
}

proof fn lemma_file_end(rows: Seq<RowView>, start: int, at: int, limit: u64)
    requires
        0 <= at <= rows.len(),
    ensures
        at <= file_end(rows, start, at, limit) <= rows.len(),
    decreases rows.len() - at,
{
    if at < rows.len() {
        if rows_bytes(rows, start, at) + entry_size(rows[at].key, rows[at].value) <= limit {
            lemma_file_end(rows, start, at + 1, limit);
        }
    }
}

/// The rows from `start` on, split into files. A file has at least one row.
pub open spec fn files_of(rows: Seq<RowView>, start: int, limit: u64) -> Seq<Seq<RowView>>
    decreases rows.len() - start,
{
    if start < 0 || start >= rows.len() {
        Seq::empty()
    } else {
        let end = file_end(rows, start, start + 1, limit);
        if end <= start || end > rows.len() {
            Seq::empty()
        } else {
            seq![rows.subrange(start, end)] + files_of(rows, end, limit)
        }
    }
}

/// The files hold all rows from `start` on, in order, and none is empty.
pub proof fn lemma_files_cover(rows: Seq<RowView>, start: int, limit: u64)
    requires
        0 <= start <= rows.len(),
    ensures
        joined(files_of(rows, start, limit)) == rows.skip(start),
        forall|k: int|
            0 <= k < files_of(rows, start, limit).len() ==> (#[trigger] files_of(
                rows,
                start,
                limit,
            )[k]).len() > 0,
    decreases rows.len() - start,
{
    let files = files_of(rows, start, limit);
    if start < rows.len() {
        let end = file_end(rows, start, start + 1, limit);
        lemma_file_end(rows, start, start + 1, limit);
        lemma_files_cover(rows, end, limit);
        let rest = files_of(rows, end, limit);
        assert(files.skip(1) =~= rest);
        assert(files[0] =~= rows.subrange(start, end));
        assert(rows.subrange(start, end) + rows.skip(end) =~= rows.skip(start));
        assert forall|k: int| 0 <= k < files.len() implies (#[trigger] files[k]).len() > 0 by {
            if k > 0 {
                assert(files[k] == rest[k - 1]);
            }
        }
    } else {
        assert(rows.skip(start) =~= Seq::<RowView>::empty());
    }
}

proof fn lemma_file_end_limits(rows: Seq<RowView>, start: int, at: int, limit: u64)
    requires
        0 <= start < at <= rows.len(),
        at == start + 1 || rows_bytes(rows, start, at) <= limit,
    ensures
        ({
            let end = file_end(rows, start, at, limit);
            &&& end == start + 1 || rows_bytes(rows, start, end) <= limit
            &&& end < rows.len() ==> rows_bytes(rows, start, end + 1) > limit
        }),
    decreases rows.len() - at,
{
    if at < rows.len() {
        assert(rows_bytes(rows, start, at + 1) == rows_bytes(rows, start, at) + entry_size(
            rows[at].key,
            rows[at].value,
        ));
        if rows_bytes(rows, start, at) + entry_size(rows[at].key, rows[at].value) <= limit {
            lemma_file_end_limits(rows, start, at + 1, limit);
        }
    }
}

/// The limits of files: a file is no larger than the target size unless it has one row, and
/// the row that starts the next file would have made it larger.
pub proof fn lemma_file_limits(rows: Seq<RowView>, start: int, limit: u64)
    requires
        0 <= start < rows.len(),
    ensures
        ({
            let files = files_of(rows, start, limit);
            let n = files[0].len() as int;
            &&& files.len() > 0
            &&& 0 < n <= rows.len() - start
            &&& files[0] == rows.subrange(start, start + n)
            &&& n == 1 || rows_bytes(rows, start, start + n) <= limit
            &&& start + n < rows.len() ==> rows_bytes(rows, start, start + n + 1) > limit
            &&& files.skip(1) == files_of(rows, start + n, limit)
        }),
{
    let files = files_of(rows, start, limit);
    let end = file_end(rows, start, start + 1, limit);
    lemma_file_end(rows, start, start + 1, limit);
    lemma_file_end_limits(rows, start, start + 1, limit);
    assert(files[0] == rows.subrange(start, end));
    assert(files.skip(1) =~= files_of(rows, end, limit));
}

/// The rows of groups of entries.
pub open spec fn group_rows(groups: Seq<Vec<VersionedEntry>>) -> Seq<Seq<RowView>> {
    Seq::new(groups.len(), |k: int| rows_of(groups[k]@))
}

/// Splits sorted entries into groups of the target size.
pub fn split_into_ssts(entries: Vec<VersionedEntry>, limit: u64) -> (groups: Vec<
    Vec<VersionedEntry>,
>)
    ensures
        group_rows(groups@) == files_of(rows_of(entries@), 0, limit),
{
    let ghost rows = rows_of(entries@);
    let ghost all = files_of(rows, 0, limit);
    let ghost given = entries@;
    let mut groups: Vec<Vec<VersionedEntry>> = Vec::new();
    let mut group: Vec<VersionedEntry> = Vec::new();
    let mut size: u64 = 0;
    let ghost mut start: int = 0;
    assert(rows_of(group@) =~= rows.subrange(0, 0));
    assert(all =~= group_rows(groups@) + files_of(rows, 0, limit));
    for entry in iter: entries
        invariant
            iter.seq() == given,
            rows == rows_of(given),
            all == files_of(rows, 0, limit),
            0 <= start <= iter.index() <= given.len(),
            start < iter.index() || iter.index() == 0,
            all == group_rows(groups@) + files_of(rows, start, limit),
            rows_of(group@) == rows.subrange(start, iter.index() as int),
            size == counted_up(rows_bytes(rows, start, iter.index() as int)),
            iter.index() > 0 ==> file_end(rows, start, start + 1, limit) == file_end(
                rows,
                start,
                iter.index() as int,
                limit,
            ),
    {
        let ghost at = iter.index() as int;
        assert(rows[at] == entry@);
        let entry_len: u64 = entry_bytes(&entry);
        if group.len() > 0 && (entry_len > limit || size > limit - entry_len) {
            let ghost before = groups@;
            let ghost closed = rows_of(group@);
            let mut full: Vec<VersionedEntry> = Vec::new();
            std::mem::swap(&mut full, &mut group);
            groups.push(full);
            size = 0;
            proof {
                assert(file_end(rows, start, at, limit) == at);
                assert(group_rows(groups@) =~= group_rows(before).push(closed));
                assert(files_of(rows, start, limit) =~= seq![closed] + files_of(rows, at, limit));
                assert(group_rows(before) + (seq![closed] + files_of(rows, at, limit))
                    =~= group_rows(groups@) + files_of(rows, at, limit));
                start = at;
                assert(rows_of(group@) =~= rows.subrange(at, at));
                assert(rows_bytes(rows, at, at) == 0);
            }
        }
        let ghost so_far = rows_of(group@);
        size = size.saturating_add(entry_len);
        group.push(entry);
        proof {
            assert(rows_bytes(rows, start, at + 1) == rows_bytes(rows, start, at) + entry_size(
                rows[at].key,
                rows[at].value,
            ));
            assert(rows_of(group@) =~= so_far.push(rows[at]));
            assert(rows.subrange(start, at + 1) =~= rows.subrange(start, at).push(rows[at]));
        }
    }
    proof {
        let n = rows.len() as int;
        assert(rows.subrange(start, n) =~= rows.skip(start));
        if n > 0 {
            assert(file_end(rows, start, n, limit) == n);
            assert(files_of(rows, n, limit) =~= Seq::<Seq<RowView>>::empty());
            assert(files_of(rows, start, limit) =~= seq![rows.subrange(start, n)]);
        }
    }
    if group.len() > 0 {
        let ghost before = groups@;
        let ghost last = rows_of(group@);
        groups.push(group);
        proof {
            assert(group_rows(groups@) =~= group_rows(before).push(last));
            assert(group_rows(groups@) =~= all);
        }
    } else {
        assert(group_rows(groups@) =~= all);
    }
    groups
}

/// Whether the groups are the files for what is kept of the runs.
pub open spec fn is_compacted(
    groups: Seq<Seq<RowView>>,
    entries: Seq<VersionedEntry>,
    gc: GcView,
    limit: u64,
) -> bool {
    exists|merged: Seq<VersionedEntry>| #[trigger]
        merges(merged, entries) && groups == files_of(kept_rows(rows_of(merged), gc), 0, limit)
}

/// A compaction keeps every version that a reader needs: those at a pinned timestamp and
/// those no older than the oldest active snapshot.
pub proof fn lemma_compaction_keeps_needed(
    groups: Seq<Seq<RowView>>,
    entries: Seq<VersionedEntry>,
    gc: GcView,
    limit: u64,
    i: int,
)
    requires
        is_compacted(groups, entries, gc, limit),
        0 <= i < entries.len(),
        gc.pinned.contains(entries[i].timestamp) || (gc.oldest is Some && entries[i].timestamp
            >= gc.oldest->0),
    ensures
        joined(groups).contains(entries[i]@),
{
    let merged = choose|merged: Seq<VersionedEntry>| #[trigger]
        merges(merged, entries) && groups == files_of(kept_rows(rows_of(merged), gc), 0, limit);
    let rows = rows_of(merged);
    lemma_same_values(merged, entries);
    assert(entries.contains(entries[i]));
    let k = choose|k: int| 0 <= k < merged.len() && merged[k] == entries[i];
    assert(rows[k] == entries[i]@);
    if gc.pinned.contains(entries[i].timestamp) {
        lemma_pinned_kept(rows, gc, k);
    } else {
        lemma_recent_kept(rows, gc, k);
    }
    lemma_files_cover(kept_rows(rows, gc), 0, limit);
    assert(kept_rows(rows, gc).skip(0) =~= kept_rows(rows, gc));
}

/// A compaction keeps a latest version of every key, and nothing but what it was given.
pub proof fn lemma_compaction_keeps_latest(
    groups: Seq<Seq<RowView>>,
    entries: Seq<VersionedEntry>,
    gc: GcView,
    limit: u64,
    i: int,
)
    requires
        is_compacted(groups, entries, gc, limit),
        0 <= i < entries.len(),
    ensures
        exists|k: int|
            {
                &&& 0 <= k < entries.len()
                &&& (#[trigger] entries[k])@.key == entries[i]@.key
                &&& joined(groups).contains(entries[k]@)
                &&& forall|j: int|
                    0 <= j < entries.len() && (#[trigger] entries[j])@.key == entries[i]@.key
                        ==> entries[j].timestamp <= entries[k].timestamp
            },
{
    let merged = choose|merged: Seq<VersionedEntry>| #[trigger]
        merges(merged, entries) && groups == files_of(kept_rows(rows_of(merged), gc), 0, limit);
    let rows = rows_of(merged);
    lemma_sorted_run(merged);
    lemma_same_values(merged, entries);
    assert(entries.contains(entries[i]));
    let m = choose|m: int| 0 <= m < merged.len() && merged[m] == entries[i];
    assert(rows[m] == entries[i]@);
    lemma_latest_kept(rows, gc, m);
    let p = choose|p: int|
        {
            &&& 0 <= p <= m
            &&& (#[trigger] rows[p]).key == rows[m].key
            &&& kept_rows(rows, gc).contains(rows[p])
            &&& forall|j: int|
                0 <= j < rows.len() && (#[trigger] rows[j]).key == rows[m].key
                    ==> rows[j].timestamp <= rows[p].timestamp
        };
    assert(merged.contains(merged[p]));
    let k = choose|k: int| 0 <= k < entries.len() && entries[k] == merged[p];
    assert(entries[k]@ == rows[p]);
    assert forall|j: int| 0 <= j < entries.len() && (#[trigger] entries[j])@.key
        == entries[i]@.key implies entries[j].timestamp <= entries[k].timestamp by {
        assert(entries.contains(entries[j]));
        let q = choose|q: int| 0 <= q < merged.len() && merged[q] == entries[j];
        assert(rows[q] == entries[j]@);
    }
    lemma_files_cover(kept_rows(rows, gc), 0, limit);
    assert(kept_rows(rows, gc).skip(0) =~= kept_rows(rows, gc));
}

/// A compaction drops every version that no reader needs: one that is not the latest of its
/// key, not pinned, and older than every active snapshot.
pub proof fn lemma_compaction_drops_unneeded(
    groups: Seq<Seq<RowView>>,
    entries: Seq<VersionedEntry>,
    gc: GcView,
    limit: u64,
    i: int,
    newer: int,
)
    requires
        is_compacted(groups, entries, gc, limit),
        0 <= i < entries.len(),
        0 <= newer < entries.len(),
        entries[newer]@.key == entries[i]@.key,
        entries[newer].timestamp > entries[i].timestamp,
        !gc.pinned.contains(entries[i].timestamp),
        gc.oldest matches Some(oldest) ==> entries[i].timestamp < oldest,
    ensures
        !joined(groups).contains(entries[i]@),
{
    let merged = choose|merged: Seq<VersionedEntry>| #[trigger]
        merges(merged, entries) && groups == files_of(kept_rows(rows_of(merged), gc), 0, limit);
    let rows = rows_of(merged);
    lemma_sorted_run(merged);
    lemma_same_values(merged, entries);
    assert(entries.contains(entries[i]) && entries.contains(entries[newer]));
    let a = choose|a: int| 0 <= a < merged.len() && merged[a] == entries[i];
    let b = choose|b: int| 0 <= b < merged.len() && merged[b] == entries[newer];
    assert(rows[a] == entries[i]@ && rows[b] == entries[newer]@);
    lemma_unneeded_dropped(rows, gc, a, b);
    lemma_files_cover(kept_rows(rows, gc), 0, limit);
    assert(kept_rows(rows, gc).skip(0) =~= kept_rows(rows, gc));
}

/// A compaction writes nothing but what it was given.
pub proof fn lemma_compaction_invents_nothing(
    groups: Seq<Seq<RowView>>,
    entries: Seq<VersionedEntry>,
    gc: GcView,
    limit: u64,
    row: RowView,
)
    requires
        is_compacted(groups, entries, gc, limit),
        joined(groups).contains(row),
    ensures
        exists|i: int| 0 <= i < entries.len() && (#[trigger] entries[i])@ == row,
{
    let merged = choose|merged: Seq<VersionedEntry>| #[trigger]
        merges(merged, entries) && groups == files_of(kept_rows(rows_of(merged), gc), 0, limit);
    let rows = rows_of(merged);
    lemma_same_values(merged, entries);
    lemma_files_cover(kept_rows(rows, gc), 0, limit);
    assert(kept_rows(rows, gc).skip(0) =~= kept_rows(rows, gc));
    lemma_kept_rows(rows, gc, row);
    let k = choose|k: int|
        0 <= k < rows.len() && rows[k] == row && gc.keeps(
            row.timestamp,
            #[trigger] first_of_key(rows, k),
        );
    assert(merged.contains(merged[k]));
    let i = choose|i: int| 0 <= i < entries.len() && entries[i] == merged[k];
    assert(entries[i]@ == row);
}

/// The files of a compaction form one sorted run.
pub proof fn lemma_compaction_in_order(
    groups: Seq<Seq<RowView>>,
    entries: Seq<VersionedEntry>,
    gc: GcView,
    limit: u64,
)
    requires
        is_compacted(groups, entries, gc, limit),
    ensures
        in_run_order(joined(groups)),
{
    let merged = choose|merged: Seq<VersionedEntry>| #[trigger]
        merges(merged, entries) && groups == files_of(kept_rows(rows_of(merged), gc), 0, limit);
    let rows = rows_of(merged);
    lemma_sorted_run(merged);
    lemma_kept_in_order(rows, gc);
    lemma_files_cover(kept_rows(rows, gc), 0, limit);
    assert(kept_rows(rows, gc).skip(0) =~= kept_rows(rows, gc));
}

/// What is kept of merged runs, split into the files to write.
pub struct MergedRuns {
    groups: Vec<Vec<VersionedEntry>>,
    total_entries: usize,
    gc_discarded: usize,
}

impl MergedRuns {
    /// The rows of each file.
    pub closed spec fn files(&self) -> Seq<Seq<RowView>> {
        group_rows(self.groups@)
    }

    /// Number of entries that were kept.
    pub closed spec fn kept(&self) -> usize {
        self.total_entries
    }

    /// Number of entries that were dropped.
    pub closed spec fn dropped(&self) -> usize {
        self.gc_discarded
    }

    /// No file is empty.
    pub open spec fn wf(&self) -> bool {
        forall|k: int| 0 <= k < self.files().len() ==> (#[trigger] self.files()[k]).len() > 0
    }

    /// Number of files to write.
    pub fn file_count(&self) -> (n: usize)
        ensures
            n == self.files().len(),
    {
        self.groups.len()
    }

    /// Number of rows of a file.
    pub fn file_rows(&self, file: usize) -> (n: usize)
        requires
            file < self.files().len(),
        ensures
            n == self.files()[file as int].len(),
    {
        self.groups[file].len()
    }
}

/// What is known of a new file with these rows.
pub open spec fn sst_of(rows: Seq<RowView>, sst_id: u64, level: nat) -> SstView {
    SstView {
        sst_id,
        level,
        min_key: rows[0].key,
        max_key: rows.last().key,
        size_bytes: counted_up(rows_bytes(rows, 0, rows.len() as int)),
        row_count: rows.len() as u64,
    }
}

/// What is said of a new file holds of its rows: no key is outside the bounds, both bounds are
/// keys of rows, and rows and bytes are counted.
pub proof fn lemma_file_described(rows: Seq<RowView>, sst_id: u64, level: nat, i: int)
    requires
        in_run_order(rows),
        0 <= i < rows.len() <= u64::MAX,
    ensures
        ({
            let sst = sst_of(rows, sst_id, level);
            &&& sst.sst_id == sst_id
            &&& sst.level == level
            &&& lex_le(sst.min_key, rows[i].key)
            &&& lex_le(rows[i].key, sst.max_key)
            &&& exists|a: int| 0 <= a < rows.len() && #[trigger] rows[a].key == sst.min_key
            &&& exists|b: int| 0 <= b < rows.len() && #[trigger] rows[b].key == sst.max_key
            &&& sst.row_count == rows.len()
        }),
{
    let last = rows.len() - 1;
    assert(rows[0].key == sst_of(rows, sst_id, level).min_key);
    assert(rows[last].key == sst_of(rows, sst_id, level).max_key);
    lemma_lex_irreflexive(rows[i].key);
    if i > 0 {
        assert(!comes_before(rows[i], rows[0]));
    }
    if i < last {
        assert(!comes_before(rows[last], rows[i]));
    }
}

proof fn lemma_bytes_of_front(rows: Seq<RowView>, row: RowView, n: int)
    requires
        0 <= n <= rows.len(),
    ensures
        rows_bytes(rows.push(row), 0, n) == rows_bytes(rows, 0, n),
    decreases n,
{
    if n > 0 {
        lemma_bytes_of_front(rows, row, n - 1);
    }
}

/// A row more makes a file larger by the row's key, its value, and what each row takes beside
/// them.
pub proof fn lemma_file_size(rows: Seq<RowView>, row: RowView, sst_id: u64, level: nat)
    requires
        rows_bytes(rows.push(row), 0, rows.len() as int + 1) <= u64::MAX,
    ensures
        sst_of(rows.push(row), sst_id, level).size_bytes == sst_of(rows, sst_id, level).size_bytes
            + row.key.len() + (match row.value {
            Some(value) => value.len(),
            None => 0,
        }) + 16,
        sst_of(Seq::<RowView>::empty(), sst_id, level).size_bytes == 0,
{
    lemma_bytes_of_front(rows, row, rows.len() as int);
}

/// The keys of rows.
pub open spec fn row_keys(rows: Seq<RowView>) -> Seq<Seq<u8>> {
    Seq::new(rows.len(), |i: int| rows[i].key)
}

/// The level that a compaction of a level writes to.
pub open spec fn target_of(source_level: usize) -> usize {
    if source_level < BOTTOM_LEVEL {
        (source_level + 1) as usize
    } else {
        BOTTOM_LEVEL
    }
}

/// What a compaction made.
pub struct CompactionOutput {
    /// The new files.
    pub new_ssts: Vec<SstMetadata>,
    /// The Bloom filter of each new file.
    pub bloom_filters: Vec<SstBloomFilter>,
    /// The entries of each new file.
    pub sst_entries: Vec<Vec<VersionedEntry>>,
    /// Number of entries that were kept.
    pub total_entries: usize,
    /// Number of entries that were dropped.
    pub gc_discarded: usize,
}

/// The files of a level that is due.
pub struct CompactionInputs {
    /// The level.
    pub level: usize,
    /// Ids of its files.
    pub sst_ids: Vec<u64>,
}

/// What merging runs comes to: the files for what is kept, and how many entries that
/// keeps and drops.
pub open spec fn merged_to(
    entries: Seq<VersionedEntry>,
    gc: GcView,
    limit: u64,
    merged: MergedRuns,
) -> bool {
    &&& merged.wf()
    &&& is_compacted(merged.files(), entries, gc, limit)
    &&& merged.kept() == joined(merged.files()).len()
    &&& merged.kept() + merged.dropped() == entries.len()
}

/// What writing merged runs comes to, with new ids from `first` on: the metadata and the
/// filter of each file, and the tree with the files in the level below `source_level`.
pub open spec fn written_to(
    merged: MergedRuns,
    sizes: Seq<BloomSize>,
    source_level: usize,
    first: u64,
    before: LsmTree,
    output: CompactionOutput,
    after: LsmTree,
) -> bool {
    let target = target_of(source_level);
    &&& output.total_entries == merged.kept()
    &&& output.gc_discarded == merged.dropped()
    &&& group_rows(output.sst_entries@) == merged.files()
    &&& output.new_ssts@.len() == merged.files().len()
    &&& forall|k: int|
        0 <= k < merged.files().len() ==> (#[trigger] output.new_ssts@[k])@ == sst_of(
            merged.files()[k],
            (first + k) as u64,
            target as nat,
        )
    &&& output.bloom_filters@.len() == merged.files().len()
    &&& forall|k: int|
        0 <= k < merged.files().len() ==> {
            let bloom = #[trigger] output.bloom_filters@[k];
            &&& bloom.sst_id == first + k
            &&& bloom.level == target
            &&& bloom.filter@.wf()
            &&& bloom.filter@.size == sizes[k].num_bits
            &&& bloom.filter@.hashes == sizes[k].num_hashes
            &&& bloom.filter@.holds_exactly(row_keys(merged.files()[k]))
        }
    &&& after.size_ratio == before.size_ratio
    &&& after.levels@[target as int]@.to_multiset()
        == before.levels@[target as int]@.to_multiset().add(
        sst_views(output.new_ssts@).to_multiset(),
    )
    &&& all_inserted(
        before.levels@[target as int]@,
        sst_views(output.new_ssts@),
        after.levels@[target as int]@,
    )
    &&& after.levels@[target as int].level == before.levels@[target as int].level
    &&& forall|i: int|
        0 <= i < NUM_LEVELS && i != target ==> #[trigger] after.levels@[i] == before.levels@[i]
}

/// Whether one level of a tree gains these files, and no other level changes.
pub open spec fn only_level_gains(
    before: LsmTree,
    after: LsmTree,
    level: int,
    files: Seq<SstView>,
) -> bool {
    &&& after.levels@[level]@.to_multiset() == before.levels@[level]@.to_multiset().add(
        files.to_multiset(),
    )
    &&& forall|i: int|
        0 <= i < NUM_LEVELS && i != level ==> #[trigger] after.levels@[i] == before.levels@[i]
}

/// The filter of each file that a compaction writes is named after the file and has the size
/// asked for; a bit of it is set if and only if it is one of a key of the file.
pub proof fn lemma_compaction_filters(
    merged: MergedRuns,
    sizes: Seq<BloomSize>,
    source_level: usize,
    first: u64,
    before: LsmTree,
    output: CompactionOutput,
    after: LsmTree,
    k: int,
)
    requires
        sizes.len() == merged.files().len(),
        first + merged.files().len() <= u64::MAX,
        written_to(merged, sizes, source_level, first, before, output, after),
        0 <= k < output.sst_entries@.len(),
    ensures
        ({
            let bloom = output.bloom_filters@[k];
            let sst = output.new_ssts@[k]@;
            let entries = output.sst_entries@[k]@;
            &&& bloom.sst_id == sst.sst_id
            &&& bloom.level == sst.level
            &&& bloom.filter@.size == sizes[k].num_bits
            &&& bloom.filter@.hashes == sizes[k].num_hashes
            &&& bloom.filter@.holds_exactly(Seq::new(entries.len(), |i: int| entries[i].key@))
        }),
{
    let entries = output.sst_entries@[k]@;
    assert(group_rows(output.sst_entries@)[k] == rows_of(entries));
    assert(row_keys(rows_of(entries)) =~= Seq::new(entries.len(), |i: int| entries[i].key@));
    assert(output.new_ssts@[k]@ == sst_of(
        merged.files()[k],
        (first + k) as u64,
        target_of(source_level) as nat,
    ));
    let bloom = output.bloom_filters@[k];
    assert(bloom.filter@.holds_exactly(row_keys(merged.files()[k])));
}

/// A compaction that merges runs and writes them: the files have what garbage collection
/// leaves of the merged runs, in order, and none is empty; the counts are of the entries
/// kept and dropped; the metadata gives each file a new id, the level below and the first
/// and last key; each filter claims the keys of its file; and the tree has the new files
/// in the level below, and no other change.
pub proof fn lemma_compaction_output(
    entries: Seq<VersionedEntry>,
    gc: GcView,
    limit: u64,
    merged: MergedRuns,
    sizes: Seq<BloomSize>,
    source_level: usize,
    first: u64,
    before: LsmTree,
    output: CompactionOutput,
    after: LsmTree,
)
    requires
        merged_to(entries, gc, limit, merged),
        sizes.len() == merged.files().len(),
        forall|k: int| 0 <= k < sizes.len() ==> (#[trigger] sizes[k]).valid(),
        first + merged.files().len() <= u64::MAX,
        written_to(merged, sizes, source_level, first, before, output, after),
    ensures
        exists|all: Seq<VersionedEntry>| #[trigger]
            merges(all, entries) && joined(group_rows(output.sst_entries@)) == kept_rows(
                rows_of(all),
                gc,
            ),
        output.total_entries == joined(group_rows(output.sst_entries@)).len(),
        output.gc_discarded == entries.len() - output.total_entries,
        output.new_ssts@.len() == output.sst_entries@.len(),
        output.bloom_filters@.len() == output.sst_entries@.len(),
        forall|k: int|
            0 <= k < output.sst_entries@.len() ==> {
                let rows = rows_of((#[trigger] output.sst_entries@[k])@);
                let sst = output.new_ssts@[k]@;
                &&& rows.len() > 0
                &&& sst.sst_id == first + k
                &&& sst.level == target_of(source_level)
                &&& source_level < BOTTOM_LEVEL ==> sst.level == source_level + 1
                &&& source_level >= BOTTOM_LEVEL ==> sst.level == BOTTOM_LEVEL
                &&& sst.min_key == rows[0].key
                &&& sst.max_key == rows.last().key
                &&& sst.row_count == rows.len()
            },
        forall|k: int, i: int|
            0 <= k < output.sst_entries@.len() && 0 <= i < output.sst_entries@[k]@.len()
                ==> output.bloom_filters@[k].filter@.claims(
                (#[trigger] output.sst_entries@[k]@[i]).key@,
            ),
        after.levels@[target_of(source_level) as int]@.to_multiset()
            == before.levels@[target_of(source_level) as int]@.to_multiset().add(
            sst_views(output.new_ssts@).to_multiset(),
        ),
        forall|i: int|
            0 <= i < NUM_LEVELS && i != target_of(source_level) ==> #[trigger] after.levels@[i]
                == before.levels@[i],
        source_level < BOTTOM_LEVEL ==> only_level_gains(
            before,
            after,
            source_level + 1,
            sst_views(output.new_ssts@),
        ),
        source_level >= BOTTOM_LEVEL ==> only_level_gains(
            before,
            after,
            BOTTOM_LEVEL as int,
            sst_views(output.new_ssts@),
        ),
{
    let files = merged.files();
    let groups = output.sst_entries@;
    assert(group_rows(groups).len() == groups.len());
    let all = choose|all: Seq<VersionedEntry>| #[trigger]
        merges(all, entries) && files == files_of(kept_rows(rows_of(all), gc), 0, limit);
    lemma_files_cover(kept_rows(rows_of(all), gc), 0, limit);
    assert(kept_rows(rows_of(all), gc).skip(0) =~= kept_rows(rows_of(all), gc));
    assert forall|k: int| 0 <= k < groups.len() implies {
        let rows = rows_of((#[trigger] groups[k])@);
        let sst = output.new_ssts@[k]@;
        &&& rows.len() > 0
        &&& sst.sst_id == first + k
        &&& sst.level == target_of(source_level)
        &&& source_level < BOTTOM_LEVEL ==> sst.level == source_level + 1
        &&& source_level >= BOTTOM_LEVEL ==> sst.level == BOTTOM_LEVEL
        &&& sst.min_key == rows[0].key
        &&& sst.max_key == rows.last().key
        &&& sst.row_count == rows.len()
    } by {
        assert(files[k] == group_rows(groups)[k]);
        assert(output.new_ssts@[k]@ == sst_of(
            files[k],
            (first + k) as u64,
            target_of(source_level) as nat,
        ));
        assert(groups[k].len() <= usize::MAX);
    }
    assert forall|k: int, i: int|
        0 <= k < groups.len() && 0 <= i < groups[k]@.len() implies
            output.bloom_filters@[k].filter@.claims((#[trigger] groups[k]@[i]).key@) by {
        assert(files[k] == group_rows(groups)[k]);
        let bloom = output.bloom_filters@[k];
        assert(bloom.filter@.holds_exactly(row_keys(files[k])));
        assert(sizes[k].valid());
        lemma_held_keys_claimed(bloom.filter@, row_keys(files[k]), i);
        assert(row_keys(files[k])[i] == groups[k]@[i].key@);
    }
}

/// The metadata of a file with these entries.
fn describe(group: &Vec<VersionedEntry>, sst_id: u64, level: usize) -> (sst: SstMetadata)
    requires
        group@.len() > 0,
    ensures
        sst@ == sst_of(rows_of(group@), sst_id, level as nat),
{
    let ghost rows = rows_of(group@);
    let mut size: u64 = 0;
    let mut i: usize = 0;
    while i < group.len()
        invariant
            i <= group@.len(),
            rows == rows_of(group@),
            size == counted_up(rows_bytes(rows, 0, i as int)),
        decreases group@.len() - i,
    {
        assert(rows[i as int] == group@[i as int]@);
        assert(rows_bytes(rows, 0, i + 1) == rows_bytes(rows, 0, i as int) + entry_size(
            rows[i as int].key,
            rows[i as int].value,
        ));
        size = size.saturating_add(entry_bytes(&group[i]));
        i = i + 1;
    }
    let last: usize = group.len() - 1;
    assert(rows[0] == group@[0]@);
    assert(rows.last() == group@[last as int]@);
    SstMetadata {
        sst_id,
        level,
        min_key: slice_to_vec(group[0].key.as_slice()),
        max_key: slice_to_vec(group[last].key.as_slice()),
        size_bytes: size,
        row_count: group.len() as u64,
    }
}

/// Copies of the keys of entries.
fn copy_keys(group: &Vec<VersionedEntry>) -> (keys: Vec<Vec<u8>>)
    ensures
        views(keys@) == row_keys(rows_of(group@)),
{
    let mut keys: Vec<Vec<u8>> = Vec::new();
    let mut i: usize = 0;
    while i < group.len()
        invariant
            i <= group@.len(),
            keys@.len() == i,
            forall|k: int| 0 <= k < i ==> (#[trigger] keys@[k])@ == group@[k].key@,
        decreases group@.len() - i,
    {
        keys.push(slice_to_vec(group[i].key.as_slice()));
        i = i + 1;
    }
    assert(views(keys@) =~= row_keys(rows_of(group@)));
    keys
}

/// Compacts the levels of a tree.
pub struct Compactor {
    config: CompactionConfig,
    trigger: CompactionTrigger,
    next_sst_id: u64,
}

impl Compactor {
    /// The settings.
    pub closed spec fn settings(&self) -> CompactionConfig {
        self.config
    }

    /// What decides when a level is compacted.
    pub closed spec fn rule(&self) -> CompactionTrigger {
        self.trigger
    }

    /// Id of the next new file.
    pub closed spec fn next_id(&self) -> u64 {
        self.next_sst_id
    }

    /// A compactor whose first new file has the id 1.
    pub fn new(config: CompactionConfig) -> (compactor: Self)
        ensures
            compactor.settings() == config,
            compactor.rule() == (CompactionTrigger {
                l0_file_count_threshold: L0_FILE_COUNT_THRESHOLD,
                size_ratio: config.size_ratio,
                l0_strategy: config.l0_strategy,
            }),
            compactor.next_id() == 1,
    {
        let trigger = CompactionTrigger::with_thresholds(
            L0_FILE_COUNT_THRESHOLD,
            config.size_ratio,
        ).with_l0_strategy(config.l0_strategy);
        Compactor { config, trigger, next_sst_id: 1 }
    }

    /// The same compactor with another id for its next new file.
    pub fn with_start_sst_id(self, start_id: u64) -> (compactor: Self)
        ensures
            compactor.settings() == self.settings(),
            compactor.rule() == self.rule(),
            compactor.next_id() == start_id,
    {
        Compactor { config: self.config, trigger: self.trigger, next_sst_id: start_id }
    }

    /// The settings.
    pub fn config(&self) -> (config: &CompactionConfig)
        ensures
            *config == self.settings(),
    {
        &self.config
    }

    /// What decides when a level is compacted.
    pub fn trigger(&self) -> (trigger: &CompactionTrigger)
        ensures
            *trigger == self.rule(),
    {
        &self.trigger
    }

    /// The id of the next file.
    pub fn next_sst_id(&self) -> (id: u64)
        ensures
            id == self.next_id(),
    {
        self.next_sst_id
    }

    /// A new file id.
    fn allocate_sst_id(&mut self) -> (id: u64)
        requires
            old(self).next_id() < u64::MAX,
        ensures
            id == old(self).next_id(),
            final(self).next_id() == old(self).next_id() + 1,
            final(self).settings() == old(self).settings(),
            final(self).rule() == old(self).rule(),
    {
        let id: u64 = self.next_sst_id;
        self.next_sst_id = id + 1;
        id
    }

    /// Takes the files of the first level that is due out of the tree; `None` if no
    /// level is due, or the level has no file.
    pub fn maybe_compact(&self, tree: &mut LsmTree) -> (inputs: Option<CompactionInputs>)
        requires
            old(tree).wf(),
            self.rule().size_ratio > 0,
        ensures
            final(tree).wf(),
            final(tree).size_ratio == old(tree).size_ratio,
            match inputs {
                Some(taken) => {
                    let files = old(tree).levels@[taken.level as int]@;
                    &&& taken.level < BOTTOM_LEVEL
                    &&& self.rule().is_due(old(tree), taken.level as int)
                    &&& forall|k: int|
                        0 <= k < taken.level ==> !#[trigger] self.rule().is_due(old(tree), k)
                    &&& files.len() > 0
                    &&& taken.sst_ids@ == Seq::new(files.len(), |i: int| files[i].sst_id)
                    &&& final(tree).levels@[taken.level as int]@ == Seq::<SstView>::empty()
                    &&& final(tree).levels@[taken.level as int].level
                        == old(tree).levels@[taken.level as int].level
                    &&& forall|i: int|
                        0 <= i < NUM_LEVELS && i != taken.level ==> #[trigger] final(tree).levels@[i] == old(tree).levels@[i]
                },
                None => {
                    &&& *final(tree) == *old(tree)
                    &&& (forall|k: int|
                        0 <= k < NUM_LEVELS ==> !#[trigger] self.rule().is_due(old(tree), k))
                        || (self.rule().l0_limit() == 0 && old(tree).levels@[0]@.len() == 0)
                },
            },
    {
        let level: usize = match self.trigger.check(tree) {
            Some(level) => level,
            None => {
                return None;
            },
        };
        let ghost before = *tree;
        let ghost files = tree.levels@[level as int]@;
        let mut sst_ids: Vec<u64> = Vec::new();
        let mut i: usize = 0;
        while i < tree.levels[level].ssts.len()
            invariant
                *tree == before,
                level < tree.levels@.len(),
                files == tree.levels@[level as int]@,
                i <= files.len(),
                sst_ids@.len() == i,
                forall|k: int| 0 <= k < i ==> #[trigger] sst_ids@[k] == files[k].sst_id,
            decreases files.len() - i,
        {
            assert(files[i as int] == tree.levels@[level as int].ssts@[i as int]@);
            sst_ids.push(tree.levels[level].ssts[i].sst_id);
            i = i + 1;
        }
        if sst_ids.len() == 0 {
            proof {
                assert(files.len() == 0);
                if level > 0 {
                    assert(self.rule().is_due(&before, level as int));
                }
            }
            return None;
        }
        assert(sst_ids@ =~= Seq::new(files.len(), |i: int| files[i].sst_id));
        let index: usize = tree.levels[level].level;
        let emptied = LsmLevel::new(index);
        tree.levels.set(level, emptied);
        Some(CompactionInputs { level, sst_ids })
    }

    /// Merges sorted runs, drops the versions that no reader needs, and splits what is
    /// left into the files to write.
    pub fn merge_runs(&self, input_runs: Vec<Vec<VersionedEntry>>, gc_context: &GcContext) -> (
    result: MergedRuns)
        ensures
            merged_to(
                all_entries(input_runs@),
                gc_context@,
                self.settings().sst_size_bytes,
                result,
            ),
    {
        let ghost entries = all_entries(input_runs@);
        let mut merge = MergeIterator::new(input_runs);
        let merged = merge.collect_all();
        let ghost rows = rows_of(merged@);
        let kept = collect_versions(gc_context, merged.as_slice());
        proof {
            assert(merges(merged@, entries));
            lemma_same_values(merged@, entries);
            lemma_kept_in_order(rows, gc_context@);
            assert(kept@.len() == rows_of(kept@).len());
        }
        let total_entries: usize = kept.len();
        let gc_discarded: usize = merged.len() - kept.len();
        let groups = split_into_ssts(kept, self.config.sst_size_bytes);
        let result = MergedRuns { groups, total_entries, gc_discarded };
        proof {
            let remaining = kept_rows(rows, gc_context@);
            lemma_files_cover(remaining, 0, self.config.sst_size_bytes);
            assert(remaining.skip(0) =~= remaining);
        }
        result
    }

    /// Writes merged runs to the level below `source_level`: gives each file an id, its
    /// metadata and a Bloom filter of the given size, and adds it to the tree.
    pub fn compact(
        &mut self,
        tree: &mut LsmTree,
        source_level: usize,
        merged: MergedRuns,
        sizes: &[BloomSize],
    ) -> (output: CompactionOutput)
        requires
            old(tree).wf(),
            merged.wf(),
            sizes@.len() == merged.files().len(),
            forall|k: int| 0 <= k < sizes@.len() ==> (#[trigger] sizes@[k]).valid(),
            old(self).next_id() + merged.files().len() <= u64::MAX,
        ensures
            final(self).settings() == old(self).settings(),
            final(self).rule() == old(self).rule(),
            final(self).next_id() == old(self).next_id() + merged.files().len(),
            final(tree).wf(),
            written_to(
                merged,
                sizes@,
                source_level,
                old(self).next_id(),
                *old(tree),
                output,
                *final(tree),
            ),
    {
        broadcast use vstd::seq_lib::group_to_multiset_ensures;

        let target_level: usize = if source_level < BOTTOM_LEVEL {
            source_level + 1
        } else {
            BOTTOM_LEVEL
        };
        let ghost files = merged.files();
        let ghost before = *tree;
        let ghost first_id = self.next_id();
        let total_entries: usize = merged.total_entries;
        let gc_discarded: usize = merged.gc_discarded;
        let groups: Vec<Vec<VersionedEntry>> = merged.groups;
        let ghost given = groups@;
        let mut new_ssts: Vec<SstMetadata> = Vec::new();
        let mut bloom_filters: Vec<SstBloomFilter> = Vec::new();
        let mut sst_entries: Vec<Vec<VersionedEntry>> = Vec::new();
        proof {
            assert(sst_views(new_ssts@).to_multiset() =~= vstd::multiset::Multiset::empty());
            assert(tree.levels@[target_level as int]@.to_multiset()
                =~= before.levels@[target_level as int]@.to_multiset().add(
                sst_views(new_ssts@).to_multiset(),
            ));
        }
        let ghost mut stages = seq![before.levels@[target_level as int]@];
        let mut at: usize = 0;
        for group in iter: groups
            invariant
                iter.seq() == given,
                at == iter.index(),
                files == group_rows(given),
                files.len() == sizes@.len(),
                forall|k: int| 0 <= k < files.len() ==> (#[trigger] files[k]).len() > 0,
                forall|k: int| 0 <= k < sizes@.len() ==> (#[trigger] sizes@[k]).valid(),
                target_level == target_of(source_level),
                first_id + files.len() <= u64::MAX,
                self.next_id() == first_id + at,
                self.settings() == old(self).settings(),
                self.rule() == old(self).rule(),
                new_ssts@.len() == at,
                bloom_filters@.len() == at,
                sst_entries@ == given.take(at as int),
                forall|k: int|
                    0 <= k < at ==> (#[trigger] new_ssts@[k])@ == sst_of(
                        files[k],
                        (first_id + k) as u64,
                        target_level as nat,
                    ),
                forall|k: int|
                    0 <= k < at ==> {
                        let bloom = #[trigger] bloom_filters@[k];
                        &&& bloom.sst_id == first_id + k
                        &&& bloom.level == target_level
                        &&& bloom.filter@.wf()
                        &&& bloom.filter@.size == sizes@[k].num_bits
                        &&& bloom.filter@.hashes == sizes@[k].num_hashes
                        &&& bloom.filter@.holds_exactly(row_keys(files[k]))
                    },
                tree.wf(),
                tree.size_ratio == before.size_ratio,
                tree.levels@[target_level as int]@.to_multiset()
                    == before.levels@[target_level as int]@.to_multiset().add(
                    sst_views(new_ssts@).to_multiset(),
                ),
                stages_of(
                    before.levels@[target_level as int]@,
                    sst_views(new_ssts@),
                    stages,
                ),
                stages.last() == tree.levels@[target_level as int]@,
                tree.levels@[target_level as int].level
                    == before.levels@[target_level as int].level,
                forall|i: int|
                    0 <= i < NUM_LEVELS && i != target_level ==> #[trigger] tree.levels@[i]
                        == before.levels@[i],
        {
            let ghost earlier = sst_views(new_ssts@);
            let ghost stages_before = stages;
            assert(files[at as int] == rows_of(group@));
            let sst_id: u64 = self.allocate_sst_id();
            let metadata = describe(&group, sst_id, target_level);
            let keys = copy_keys(&group);
            let bloom = SstBloomFilter::build(
                sst_id,
                target_level,
                keys.as_slice(),
                sizes[at],
            );
            let ghost added = metadata@;
            tree.add_sst(target_level, metadata.clone());
            new_ssts.push(metadata);
            bloom_filters.push(bloom);
            sst_entries.push(group);
            proof {
                assert(sst_views(new_ssts@) =~= earlier.push(added));
                let more = sst_views(new_ssts@);
                stages = stages_before.push(tree.levels@[target_level as int]@);
                assert forall|k: int| 0 <= k < more.len() implies inserted(
                    stages[k],
                    #[trigger] more[k],
                    stages[k + 1],
                ) by {
                    if k < earlier.len() {
                        assert(more[k] == earlier[k]);
                    }
                }
                earlier.to_multiset_ensures();
                assert(tree.levels@[target_level as int]@.to_multiset()
                    =~= before.levels@[target_level as int]@.to_multiset().add(
                    sst_views(new_ssts@).to_multiset(),
                ));
                assert(sst_entries@ =~= given.take(at + 1));
            }
            at = at + 1;
        }
        proof {
            assert(given.take(given.len() as int) =~= given);
        }
        CompactionOutput { new_ssts, bloom_filters, sst_entries, total_entries, gc_discarded }
    }
}

} // verus!
