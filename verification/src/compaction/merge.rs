//! The merge of sorted runs.

use vstd::prelude::*;

use crate::compaction::gc::{in_run_order, kept_rows, MvccGarbageCollector, VersionedEntry};
use crate::row::rows_of;
use crate::sort::{is_sorted, merge_sort};

verus! {

/// The entries of runs, one run after the other.
pub open spec fn all_entries(runs: Seq<Vec<VersionedEntry>>) -> Seq<VersionedEntry>
    decreases runs.len(),
{
    if runs.len() == 0 {
        Seq::empty()
    } else {
        all_entries(runs.drop_last()) + runs.last()@
    }
}

/// Whether the entries are those of the runs in the order of one sorted run. The order
/// of entries with the same key and timestamp is open.
pub open spec fn merges(merged: Seq<VersionedEntry>, entries: Seq<VersionedEntry>) -> bool {
    is_sorted(merged) && merged.to_multiset() == entries.to_multiset()
}

/// Entries that are sorted by rank are rows in the order of a sorted run.
pub proof fn lemma_sorted_run(entries: Seq<VersionedEntry>)
    requires
        is_sorted(entries),
    ensures
        in_run_order(rows_of(entries)),
{
    let rows = rows_of(entries);
    assert forall|i: int, j: int|
        #![trigger rows[i], rows[j]]
        0 <= i < j < rows.len() implies !crate::compaction::gc::comes_before(rows[j], rows[i]) by {
        assert(!crate::sort::Ranked::ranks_before(&entries[j], &entries[i]));
    }
}

/// Merges sorted runs into one.
pub struct MergeIterator {
    runs: Vec<Vec<VersionedEntry>>,
}

impl MergeIterator {
    /// The entries that are left.
    pub closed spec fn entries(&self) -> Seq<VersionedEntry> {
        all_entries(self.runs@)
    }

    /// A merge of runs, each sorted by key and, for each key, newest first.
    pub fn new(runs: Vec<Vec<VersionedEntry>>) -> (merge: Self)
        ensures
            merge.entries() == all_entries(runs@),
    {
        MergeIterator { runs }
    }

    /// All entries that are left, in order.
    pub fn collect_all(&mut self) -> (merged: Vec<VersionedEntry>)
        ensures
            merges(merged@, old(self).entries()),
            in_run_order(rows_of(merged@)),
            final(self).entries() == Seq::<VersionedEntry>::empty(),
    {
        let mut runs: Vec<Vec<VersionedEntry>> = Vec::new();
        std::mem::swap(&mut runs, &mut self.runs);
        let ghost given = runs@;
        let mut all: Vec<VersionedEntry> = Vec::new();
        for run in iter: runs
            invariant
                iter.seq() == given,
                all@ == all_entries(given.take(iter.index() as int)),
        {
            proof {
                let k = iter.index() as int;
                assert(given.take(k + 1).drop_last() =~= given.take(k));
                assert(given.take(k + 1).last() == run);
            }
            let mut rest: Vec<VersionedEntry> = run;
            all.append(&mut rest);
        }
        proof {
            assert(given.take(given.len() as int) =~= given);
        }
        let merged = merge_sort(all);
        proof {
            lemma_sorted_run(merged@);
        }
        merged
    }

    /// Merges the runs and drops the versions that no reader needs.
    pub fn merge_with_gc(self, gc: &MvccGarbageCollector) -> (kept: Vec<VersionedEntry>)
        ensures
            exists|merged: Seq<VersionedEntry>|
                #[trigger] merges(merged, self.entries()) && rows_of(kept@) == kept_rows(
                    rows_of(merged),
                    gc@,
                ),
    {
        let mut merge = self;
        let merged = merge.collect_all();
        assert(merges(merged@, self.entries()));
        gc.apply(merged.as_slice())
    }
}

} // verus!
