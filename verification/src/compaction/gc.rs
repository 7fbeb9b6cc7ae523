//! Which versions of a key a compaction keeps.

use std::collections::HashSet;

use vstd::prelude::*;
use vstd::slice::slice_to_vec;

use crate::bytes::{bytes_equal, compare_bytes, lex_le, lex_lt, Compared};
use crate::bytes::{lemma_lex_asymmetric, lemma_lex_le_le, lemma_lex_total};
use crate::memtable::versioned_value::{copy_value, value_view};
use crate::row::{rows_of, BlockRow, RowView, Stamped};
use crate::sort::Ranked;

verus! {

/// One version of a key.
#[derive(Debug, PartialEq, Eq)]
pub struct VersionedEntry {
    /// The key.
    pub key: Vec<u8>,
    /// Commit timestamp of the version.
    pub timestamp: u64,
    /// The value, or `None` for a tombstone.
    pub value: Option<Vec<u8>>,
}

impl View for VersionedEntry {
    type V = RowView;

    open spec fn view(&self) -> RowView {
        Stamped { key: self.key@, timestamp: self.timestamp, value: value_view(self.value) }
    }
}

impl Clone for VersionedEntry {
    fn clone(&self) -> (copy: Self)
        ensures
            copy@ == self@,
    {
        VersionedEntry {
            key: slice_to_vec(self.key.as_slice()),
            timestamp: self.timestamp,
            value: copy_value(&self.value),
        }
    }
}

impl BlockRow for VersionedEntry {
    open spec fn row(&self) -> RowView {
        self@
    }

    fn row_key(&self) -> (key: &Vec<u8>) {
        &self.key
    }

    fn row_timestamp(&self) -> (timestamp: u64) {
        self.timestamp
    }

    fn row_value(&self) -> (value: &Option<Vec<u8>>) {
        &self.value
    }
}

/// Whether a row comes before another one in a sorted run: smaller keys first, and of
/// one key the newer version first.
pub open spec fn comes_before(a: RowView, b: RowView) -> bool {
    lex_lt(a.key, b.key) || (a.key == b.key && a.timestamp > b.timestamp)
}

/// The rows are in the order of a sorted run.
pub open spec fn in_run_order(rows: Seq<RowView>) -> bool {
    forall|i: int, j: int|
        #![trigger rows[i], rows[j]]
        0 <= i < j < rows.len() ==> !comes_before(rows[j], rows[i])
}

impl Ranked for VersionedEntry {
    open spec fn ranks_before(&self, other: &Self) -> bool {
        comes_before(self@, other@)
    }

    proof fn rank_asymmetric(a: &Self, b: &Self) {
        lemma_lex_asymmetric(a.key@, b.key@);
    }

    proof fn rank_transitive(a: &Self, b: &Self, c: &Self) {
        lemma_lex_total(a.key@, b.key@);
        lemma_lex_total(b.key@, c.key@);
        lemma_lex_le_le(a.key@, b.key@, c.key@);
        if c.key@ == a.key@ {
            lemma_lex_asymmetric(a.key@, b.key@);
        }
    }

    fn is_before(&self, other: &Self) -> (before: bool) {
        match compare_bytes(self.key.as_slice(), other.key.as_slice()) {
            Compared::Less => true,
            Compared::Equal => {
                proof {
                    lemma_lex_asymmetric(self.key@, other.key@);
                }
                self.timestamp > other.timestamp
            },
            Compared::Greater => {
                proof {
                    lemma_lex_asymmetric(self.key@, other.key@);
                }
                false
            },
        }
    }
}

/// What readers still need.
#[verifier::ext_equal]
pub ghost struct GcView {
    /// Timestamp of the oldest active snapshot.
    pub oldest: Option<u64>,
    /// Timestamps pinned by tags.
    pub pinned: Set<u64>,
}

impl GcView {
    /// Whether a version is kept: it is the latest of its key, no older than the oldest
    /// snapshot, or pinned.
    pub open spec fn keeps(self, timestamp: u64, is_latest: bool) -> bool {
        ||| is_latest
        ||| (self.oldest is Some && timestamp >= self.oldest->0)
        ||| self.pinned.contains(timestamp)
    }
}

/// Whether the row is the first of its key.
pub open spec fn first_of_key(rows: Seq<RowView>, i: int) -> bool {
    i == 0 || rows[i - 1].key != rows[i].key
}

/// The rows that are kept, in order.
pub open spec fn kept_rows(rows: Seq<RowView>, gc: GcView) -> Seq<RowView>
    decreases rows.len(),
{
    if rows.len() == 0 {
        Seq::empty()
    } else {
        let last = rows.len() - 1;
        let before = kept_rows(rows.drop_last(), gc);
        if gc.keeps(rows[last].timestamp, first_of_key(rows, last)) {
            before.push(rows[last])
        } else {
            before
        }
    }
}

/// A row is kept exactly if it is somewhere the latest of its key, or needed by a reader.
pub proof fn lemma_kept_rows(rows: Seq<RowView>, gc: GcView, row: RowView)
    ensures
        kept_rows(rows, gc).contains(row) <==> exists|i: int|
            0 <= i < rows.len() && rows[i] == row && gc.keeps(
                row.timestamp,
                #[trigger] first_of_key(rows, i),
            ),
    decreases rows.len(),
{
    let kept = kept_rows(rows, gc);
    if rows.len() > 0 {
        let front = rows.drop_last();
        let last = rows.len() - 1;
        lemma_kept_rows(front, gc, row);
        let before = kept_rows(front, gc);
        if kept.contains(row) {
            if before.contains(row) {
                let i = choose|i: int|
                    0 <= i < front.len() && front[i] == row && gc.keeps(
                        row.timestamp,
                        #[trigger] first_of_key(front, i),
                    );
                assert(first_of_key(rows, i) == first_of_key(front, i));
            } else {
                let at = choose|at: int| 0 <= at < kept.len() && kept[at] == row;
                if at < before.len() {
                    assert(before[at] == row);
                }
                assert(rows[last] == row);
                assert(gc.keeps(row.timestamp, first_of_key(rows, last)));
            }
        }
        if exists|i: int|
            0 <= i < rows.len() && rows[i] == row && gc.keeps(
                row.timestamp,
                #[trigger] first_of_key(rows, i),
            ) {
            let i = choose|i: int|
                0 <= i < rows.len() && rows[i] == row && gc.keeps(
                    row.timestamp,
                    #[trigger] first_of_key(rows, i),
                );
            if i < last {
                assert(first_of_key(front, i) == first_of_key(rows, i));
                assert(front[i] == row);
                let at = choose|at: int| 0 <= at < before.len() && before[at] == row;
                assert(kept[at] == row);
            } else {
                assert(kept[before.len() as int] == row);
            }
        }
    }
}

/// A pinned version is kept.
pub proof fn lemma_pinned_kept(rows: Seq<RowView>, gc: GcView, i: int)
    requires
        0 <= i < rows.len(),
        gc.pinned.contains(rows[i].timestamp),
    ensures
        kept_rows(rows, gc).contains(rows[i]),
{
    lemma_kept_rows(rows, gc, rows[i]);
    assert(gc.keeps(rows[i].timestamp, first_of_key(rows, i)));
}

/// A version no older than the oldest active snapshot is kept.
pub proof fn lemma_recent_kept(rows: Seq<RowView>, gc: GcView, i: int)
    requires
        0 <= i < rows.len(),
        gc.oldest is Some,
        rows[i].timestamp >= gc.oldest->0,
    ensures
        kept_rows(rows, gc).contains(rows[i]),
{
    lemma_kept_rows(rows, gc, rows[i]);
    assert(gc.keeps(rows[i].timestamp, first_of_key(rows, i)));
}

/// Of a sorted run, the latest version of every key is kept.
pub proof fn lemma_latest_kept(rows: Seq<RowView>, gc: GcView, i: int)
    requires
        in_run_order(rows),
        0 <= i < rows.len(),
    ensures
        exists|k: int|
            {
                &&& 0 <= k <= i
                &&& (#[trigger] rows[k]).key == rows[i].key
                &&& kept_rows(rows, gc).contains(rows[k])
                &&& forall|j: int|
                    0 <= j < rows.len() && (#[trigger] rows[j]).key == rows[i].key
                        ==> rows[j].timestamp <= rows[k].timestamp
            },
    decreases i,
{
    if first_of_key(rows, i) {
        lemma_kept_rows(rows, gc, rows[i]);
        assert(gc.keeps(rows[i].timestamp, first_of_key(rows, i)));
        assert forall|j: int| 0 <= j < rows.len() && (#[trigger] rows[j]).key
            == rows[i].key implies rows[j].timestamp <= rows[i].timestamp by {
            if j < i {
                let p = rows[i - 1].key;
                let k = rows[i].key;
                assert(!comes_before(rows[i], rows[i - 1]));
                assert(lex_le(p, k));
                lemma_lex_total(p, k);
                assert(lex_lt(p, k));
                if j < i - 1 {
                    assert(!comes_before(rows[i - 1], rows[j]));
                    assert(lex_le(rows[j].key, p));
                }
            } else if j > i {
                assert(!comes_before(rows[j], rows[i]));
            }
        }
        assert(rows[i].key == rows[i].key);
    } else {
        lemma_latest_kept(rows, gc, i - 1);
        let k = choose|k: int|
            {
                &&& 0 <= k <= i - 1
                &&& (#[trigger] rows[k]).key == rows[i - 1].key
                &&& kept_rows(rows, gc).contains(rows[k])
                &&& forall|j: int|
                    0 <= j < rows.len() && (#[trigger] rows[j]).key == rows[i - 1].key
                        ==> rows[j].timestamp <= rows[k].timestamp
            };
        assert(rows[k].key == rows[i].key);
    }
}

/// Of a sorted run, a version that is not the latest of its key, not pinned, and older than
/// every active snapshot, is dropped.
pub proof fn lemma_unneeded_dropped(rows: Seq<RowView>, gc: GcView, i: int, newer: int)
    requires
        in_run_order(rows),
        0 <= i < rows.len(),
        0 <= newer < rows.len(),
        rows[newer].key == rows[i].key,
        rows[newer].timestamp > rows[i].timestamp,
        !gc.pinned.contains(rows[i].timestamp),
        gc.oldest matches Some(oldest) ==> rows[i].timestamp < oldest,
    ensures
        !kept_rows(rows, gc).contains(rows[i]),
{
    lemma_kept_rows(rows, gc, rows[i]);
    assert forall|k: int| 0 <= k < rows.len() && rows[k] == rows[i] implies !#[trigger] first_of_key(
        rows,
        k,
    ) by {
        assert(newer < k) by {
            if k < newer {
                assert(!comes_before(rows[newer], rows[k]));
            }
        }
        if rows[k - 1].key != rows[k].key {
            let p = rows[k - 1].key;
            let q = rows[k].key;
            assert(!comes_before(rows[k], rows[k - 1]));
            lemma_lex_total(p, q);
            assert(lex_lt(p, q));
            assert(newer != k - 1);
            assert(!comes_before(rows[k - 1], rows[newer]));
            assert(!lex_lt(p, rows[newer].key));
        }
    }
}

/// What is kept of a sorted run is a sorted run, and no longer than it.
pub proof fn lemma_kept_in_order(rows: Seq<RowView>, gc: GcView)
    requires
        in_run_order(rows),
    ensures
        in_run_order(kept_rows(rows, gc)),
        kept_rows(rows, gc).len() <= rows.len(),
    decreases rows.len(),
{
    if rows.len() > 0 {
        let front = rows.drop_last();
        assert(in_run_order(front)) by {
            assert forall|i: int, j: int|
                #![trigger front[i], front[j]]
                0 <= i < j < front.len() implies !comes_before(front[j], front[i]) by {
                assert(front[i] == rows[i] && front[j] == rows[j]);
            }
        }
        lemma_kept_in_order(front, gc);
        let before = kept_rows(front, gc);
        let kept = kept_rows(rows, gc);
        let last = rows.len() - 1;
        assert forall|i: int, j: int|
            #![trigger kept[i], kept[j]]
            0 <= i < j < kept.len() implies !comes_before(kept[j], kept[i]) by {
            assert(kept[i] == before[i]);
            if j < before.len() {
                assert(kept[j] == before[j]);
            } else {
                assert(kept[j] == rows[last]);
                assert(before.contains(before[i]));
                lemma_kept_rows(front, gc, before[i]);
                let k = choose|k: int|
                    0 <= k < front.len() && front[k] == before[i] && gc.keeps(
                        before[i].timestamp,
                        #[trigger] first_of_key(front, k),
                    );
                assert(rows[k] == before[i]);
            }
        }
    }
}

/// Which versions of a key readers still need.
pub struct GcContext {
    /// Timestamp of the oldest active snapshot; versions no older are kept.
    pub oldest_active_snapshot: Option<u64>,
    /// Timestamps pinned by tags; versions at these are kept.
    pub pinned_tag_timestamps: HashSet<u64>,
}

impl View for GcContext {
    type V = GcView;

    open spec fn view(&self) -> GcView {
        GcView { oldest: self.oldest_active_snapshot, pinned: self.pinned_tag_timestamps@ }
    }
}

impl GcContext {
    /// No reader needs an old version.
    pub fn new() -> (context: Self)
        ensures
            context@ == (GcView { oldest: None, pinned: Set::empty() }),
    {
        GcContext { oldest_active_snapshot: None, pinned_tag_timestamps: HashSet::new() }
    }

    /// What the oldest snapshot and the pinned tags need.
    pub fn with_context(
        oldest_active_snapshot: Option<u64>,
        pinned_tag_timestamps: HashSet<u64>,
    ) -> (context: Self)
        ensures
            context@ == (GcView { oldest: oldest_active_snapshot, pinned: pinned_tag_timestamps@ }),
    {
        GcContext { oldest_active_snapshot, pinned_tag_timestamps }
    }

    /// What the oldest snapshot and the tags at these timestamps need.
    pub fn with_pins(oldest_active_snapshot: Option<u64>, pinned_timestamps: &[u64]) -> (context:
        Self)
        ensures
            context@ == (GcView {
                oldest: oldest_active_snapshot,
                pinned: pinned_timestamps@.to_set(),
            }),
    {
        broadcast use vstd::std_specs::hash::group_hash_axioms;

        let mut pinned: HashSet<u64> = HashSet::new();
        let mut i: usize = 0;
        assert(pinned@ =~= pinned_timestamps@.take(0).to_set());
        while i < pinned_timestamps.len()
            invariant
                i <= pinned_timestamps@.len(),
                pinned@ == pinned_timestamps@.take(i as int).to_set(),
            decreases pinned_timestamps@.len() - i,
        {
            broadcast use vstd::std_specs::hash::group_hash_axioms;

            let ghost done = pinned_timestamps@.take(i as int);
            let ghost more = pinned_timestamps@.take(i + 1);
            pinned.insert(pinned_timestamps[i]);
            proof {
                assert(more =~= done.push(pinned_timestamps@[i as int]));
                assert forall|t: u64| more.contains(t) <==> (done.contains(t) || t
                    == pinned_timestamps@[i as int]) by {
                    if done.contains(t) {
                        let at = choose|at: int| 0 <= at < done.len() && done[at] == t;
                        assert(more[at] == t);
                    }
                    assert(more[i as int] == pinned_timestamps@[i as int]);
                    if more.contains(t) {
                        let at = choose|at: int| 0 <= at < more.len() && more[at] == t;
                        if at < i {
                            assert(done[at] == t);
                        }
                    }
                }
                assert(pinned@ =~= more.to_set());
            }
            i = i + 1;
        }
        assert(pinned_timestamps@.take(i as int) =~= pinned_timestamps@);
        GcContext { oldest_active_snapshot, pinned_tag_timestamps: pinned }
    }

    /// Whether a version is kept.
    pub fn should_keep(&self, timestamp: u64, is_latest: bool) -> (keep: bool)
        ensures
            keep == self@.keeps(timestamp, is_latest),
    {
        broadcast use vstd::std_specs::hash::group_hash_axioms;

        if is_latest {
            return true;
        }
        if let Some(oldest) = self.oldest_active_snapshot {
            if timestamp >= oldest {
                return true;
            }
        }
        self.pinned_tag_timestamps.contains(&timestamp)
    }
}

impl Default for GcContext {
    fn default() -> (context: Self)
        ensures
            context@ == (GcView { oldest: None, pinned: Set::empty() }),
    {
        Self::new()
    }
}

/// The rows of a run that are kept.
pub fn collect_versions(context: &GcContext, entries: &[VersionedEntry]) -> (kept: Vec<
    VersionedEntry,
>)
    ensures
        rows_of(kept@) == kept_rows(rows_of(entries@), context@),
{
    let ghost rows = rows_of(entries@);
    let mut kept: Vec<VersionedEntry> = Vec::new();
    assert(rows_of(kept@) =~= kept_rows(rows.take(0), context@));
    let mut i: usize = 0;
    while i < entries.len()
        invariant
            i <= entries@.len(),
            rows == rows_of(entries@),
            rows_of(kept@) == kept_rows(rows.take(i as int), context@),
        decreases entries@.len() - i,
    {
        let ghost prefix = rows.take(i + 1);
        let ghost so_far = rows_of(kept@);
        let entry = &entries[i];
        let first: bool = i == 0 || !bytes_equal(
            entries[i - 1].key.as_slice(),
            entry.key.as_slice(),
        );
        proof {
            assert(prefix.drop_last() =~= rows.take(i as int));
            assert(prefix[i as int] == entry@);
            if i > 0 {
                assert(prefix[i - 1] == entries@[i - 1]@);
            }
            assert(first == first_of_key(prefix, i as int));
        }
        if context.should_keep(entry.timestamp, first) {
            kept.push(entry.clone());
            assert(rows_of(kept@) =~= so_far.push(entry@));
        }
        i = i + 1;
    }
    assert(rows.take(i as int) =~= rows);
    kept
}

/// Drops the versions that no reader needs.
pub struct MvccGarbageCollector {
    gc_context: GcContext,
}

impl View for MvccGarbageCollector {
    type V = GcView;

    closed spec fn view(&self) -> GcView {
        self.gc_context@
    }
}

impl MvccGarbageCollector {
    /// A collector that keeps what the context says.
    pub fn new(gc_context: GcContext) -> (collector: Self)
        ensures
            collector@ == gc_context@,
    {
        MvccGarbageCollector { gc_context }
    }

    /// What is kept of a run that is sorted by key and, for each key, newest first.
    pub fn apply(&self, entries: &[VersionedEntry]) -> (kept: Vec<VersionedEntry>)
        ensures
            rows_of(kept@) == kept_rows(rows_of(entries@), self@),
    {
        collect_versions(&self.gc_context, entries)
    }
}

} // verus!
