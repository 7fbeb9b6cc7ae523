//! All versions of all keys, and those that garbage collection keeps.

use vstd::prelude::*;

use crate::bytes::{
    bytes_equal, compare_bytes, lemma_lex_asymmetric, lemma_lex_irreflexive, lemma_lex_total,
    lemma_lex_transitive, lex_lt, Compared,
};
use crate::column::Timestamp;
use crate::engine::newest::pick;
use crate::engine::read::{asked_for, filtered};
use crate::engine::scan::{asked_at, live};
use crate::row::{stamps, BlockRow, Row, RowView};
use crate::sort::{is_sorted, lemma_same_values, merge_sort, Ranked};

verus! {

// All versions, in order

/// Whether a version comes before another one: by key, then by timestamp.
pub open spec fn version_lt(a: RowView, b: RowView) -> bool {
    lex_lt(a.key, b.key) || (a.key == b.key && a.timestamp < b.timestamp)
}

/// The version of a key with a timestamp: the one that was read last.
pub open spec fn pick_exact(rows: Seq<RowView>, key: Seq<u8>, timestamp: u64) -> Option<RowView>
    decreases rows.len(),
{
    if rows.len() == 0 {
        None
    } else if rows.last().key == key && rows.last().timestamp == timestamp {
        Some(rows.last())
    } else {
        pick_exact(rows.drop_last(), key, timestamp)
    }
}

/// The versions are exactly those of the rows, one for each key and timestamp,
/// in order.
pub open spec fn lists_versions(versions: Seq<RowView>, rows: Seq<RowView>) -> bool {
    &&& forall|i: int, j: int|
        #![trigger versions[i], versions[j]]
        0 <= i < j < versions.len() ==> version_lt(versions[i], versions[j])
    &&& forall|i: int|
        0 <= i < versions.len() ==> pick_exact(
            rows,
            (#[trigger] versions[i]).key,
            versions[i].timestamp,
        ) == Some(versions[i])
    &&& forall|r: int| 0 <= r < rows.len() ==> holds_version(versions, #[trigger] rows[r])
}

/// Whether a list has a version with the key and timestamp of a row.
pub open spec fn holds_version(versions: Seq<RowView>, row: RowView) -> bool {
    exists|i: int|
        0 <= i < versions.len() && (#[trigger] versions[i]).key == row.key && versions[i].timestamp
            == row.timestamp
}

proof fn lemma_exact_last(rows: Seq<RowView>, p: int)
    requires
        0 <= p < rows.len(),
        forall|q: int|
            p < q < rows.len() ==> !((#[trigger] rows[q]).key == rows[p].key && rows[q].timestamp
                == rows[p].timestamp),
    ensures
        pick_exact(rows, rows[p].key, rows[p].timestamp) == Some(rows[p]),
    decreases rows.len(),
{
    if p < rows.len() - 1 {
        let front = rows.drop_last();
        assert(rows[rows.len() - 1] == rows.last());
        assert forall|q: int| p < q < front.len() implies !((#[trigger] front[q]).key
            == front[p].key && front[q].timestamp == front[p].timestamp) by {
            assert(rows[q] == front[q]);
        }
        lemma_exact_last(front, p);
    }
}

proof fn lemma_exact_has(rows: Seq<RowView>, key: Seq<u8>, timestamp: u64)
    ensures
        match pick_exact(rows, key, timestamp) {
            Some(row) => row.key == key && row.timestamp == timestamp && rows.contains(row),
            None => forall|r: int|
                0 <= r < rows.len() ==> !((#[trigger] rows[r]).key == key && rows[r].timestamp
                    == timestamp),
        },
    decreases rows.len(),
{
    if rows.len() > 0 {
        let front = rows.drop_last();
        let last = rows.len() - 1;
        assert(rows[last] == rows.last());
        if !(rows.last().key == key && rows.last().timestamp == timestamp) {
            lemma_exact_has(front, key, timestamp);
            match pick_exact(front, key, timestamp) {
                Some(row) => {
                    let i = choose|i: int| 0 <= i < front.len() && front[i] == row;
                    assert(rows[i] == row);
                },
                None => {
                    assert forall|r: int| 0 <= r < rows.len() implies !((#[trigger] rows[r]).key
                        == key && rows[r].timestamp == timestamp) by {
                        if r < last {
                            assert(front[r] == rows[r]);
                        }
                    }
                },
            }
        }
    }
}

/// A row with its place among all.
struct PlacedRow {
    row: Row,
    place: usize,
}

impl Ranked for PlacedRow {
    /// The greatest key first, of one key the greatest timestamp, and of those
    /// the one that was read first.
    closed spec fn ranks_before(&self, other: &Self) -> bool {
        ||| version_lt(other.row@, self.row@)
        ||| self.row@.key == other.row@.key && self.row@.timestamp == other.row@.timestamp
            && self.place < other.place
    }

    proof fn rank_asymmetric(a: &Self, b: &Self) {
        lemma_lex_asymmetric(a.row.key@, b.row.key@);
        lemma_lex_irreflexive(a.row.key@);
    }

    proof fn rank_transitive(a: &Self, b: &Self, c: &Self) {
        lemma_lex_total(a.row.key@, b.row.key@);
        lemma_lex_total(b.row.key@, c.row.key@);
        lemma_lex_total(a.row.key@, c.row.key@);
        lemma_lex_asymmetric(a.row.key@, c.row.key@);
        lemma_lex_irreflexive(a.row.key@);
        if lex_lt(b.row.key@, a.row.key@) && lex_lt(c.row.key@, b.row.key@) {
            lemma_lex_transitive(c.row.key@, b.row.key@, a.row.key@);
        }
    }

    fn is_before(&self, other: &Self) -> (before: bool) {
        proof {
            lemma_lex_irreflexive(self.row.key@);
            lemma_lex_asymmetric(self.row.key@, other.row.key@);
        }
        match compare_bytes(self.row.key.as_slice(), other.row.key.as_slice()) {
            Compared::Less => false,
            Compared::Equal => self.row.timestamp > other.row.timestamp || (self.row.timestamp
                == other.row.timestamp && self.place < other.place),
            Compared::Greater => true,
        }
    }
}

/// Whether two rows are of one key and one timestamp.
spec fn same_version(a: RowView, b: RowView) -> bool {
    a.key == b.key && a.timestamp == b.timestamp
}

/// Whether no later item is of the same version as the one at `i`.
spec fn last_of_version(items: Seq<PlacedRow>, i: int) -> bool {
    &&& 0 <= i < items.len()
    &&& forall|j: int| i < j < items.len() ==> !same_version((#[trigger] items[j]).row@, items[i].row@)
}

/// Whether one of the items has this place.
spec fn row_placed(items: Seq<PlacedRow>, j: int) -> bool {
    exists|i: int| 0 <= i < items.len() && (#[trigger] items[i]).place == j
}

/// The items are the rows with their places, in some order.
spec fn rows_permuted(items: Seq<PlacedRow>, rows: Seq<RowView>) -> bool {
    &&& forall|i: int|
        0 <= i < items.len() ==> {
            &&& (#[trigger] items[i]).place < rows.len()
            &&& rows[items[i].place as int] == items[i].row@
        }
    &&& forall|j: int| 0 <= j < rows.len() ==> #[trigger] row_placed(items, j)
}

proof fn lemma_last_version(items: Seq<PlacedRow>, rows: Seq<RowView>, i: int)
    requires
        is_sorted(items),
        rows_permuted(items, rows),
        last_of_version(items, i),
    ensures
        pick_exact(rows, items[i].row@.key, items[i].row@.timestamp) == Some(items[i].row@),
{
    let p = items[i].place as int;
    assert forall|q: int| p < q < rows.len() implies !((#[trigger] rows[q]).key == rows[p].key
        && rows[q].timestamp == rows[p].timestamp) by {
        assert(row_placed(items, q));
        let k = choose|k: int| 0 <= k < items.len() && (#[trigger] items[k]).place == q;
        assert(items[k].row@ == rows[q]);
        if same_version(items[k].row@, items[i].row@) {
            if k > i {
                assert(!same_version(items[k].row@, items[i].row@));
            } else if k < i {
                assert(!items[i].ranks_before(&items[k]));
            }
        }
    }
    lemma_exact_last(rows, p);
}

/// Sorts rows by key and timestamp. Of rows with the same key and timestamp,
/// the one that was read last counts.
pub fn sort_versions(rows: Vec<Row>) -> (versions: Vec<Row>)
    ensures
        lists_versions(stamps(versions@), stamps(rows@)),
{
    let ghost given = rows@;
    let ghost all = stamps(given);
    let mut items: Vec<PlacedRow> = Vec::new();
    let mut place: usize = 0;
    let n: usize = rows.len();
    for row in iter: rows
        invariant
            iter.seq() == given,
            n == given.len(),
            place == iter.index(),
            items@.len() == place,
            forall|i: int|
                0 <= i < items@.len() ==> (#[trigger] items@[i]).place == i && items@[i].row
                    == given[i],
    {
        items.push(PlacedRow { row, place });
        place = place + 1;
    }
    let ghost unsorted = items@;
    let mut items = merge_sort(items);
    let ghost sorted = items@;
    proof {
        lemma_same_values(unsorted, sorted);
        assert forall|i: int| 0 <= i < sorted.len() implies {
            &&& (#[trigger] sorted[i]).place < all.len()
            &&& all[sorted[i].place as int] == sorted[i].row@
        } by {
            assert(sorted.contains(sorted[i]));
            let j = choose|j: int| 0 <= j < unsorted.len() && unsorted[j] == sorted[i];
            assert(unsorted[j].place == j && unsorted[j].row == given[j]);
        }
        assert forall|j: int| 0 <= j < all.len() implies #[trigger] row_placed(sorted, j) by {
            assert(unsorted.contains(unsorted[j]));
            let i = choose|i: int| 0 <= i < sorted.len() && sorted[i] == unsorted[j];
            assert(sorted[i].place == j);
        }
    }
    let mut versions: Vec<Row> = Vec::new();
    let ghost mut from = Seq::<int>::empty();
    while items.len() > 0
        invariant
            is_sorted(sorted),
            rows_permuted(sorted, all),
            items@.len() <= sorted.len(),
            items@ == sorted.take(items@.len() as int),
            from.len() == versions@.len(),
            forall|o: int|
                #![trigger from[o]]
                #![trigger versions@[o]]
                0 <= o < versions@.len() ==> items@.len() <= from[o] < sorted.len()
                    && sorted[from[o]].row == versions@[o] && last_of_version(sorted, from[o]),
            forall|a: int, b: int|
                #![trigger versions@[a], versions@[b]]
                0 <= a < b < versions@.len() ==> version_lt(versions@[a]@, versions@[b]@),
            forall|i: int|
                items@.len() <= i < sorted.len() ==> held(versions@, (#[trigger] sorted[i]).row@),
            items@.len() < sorted.len() ==> versions@.len() > 0 && same_version(
                versions@.last()@,
                sorted[items@.len() as int].row@,
            ),
        decreases items@.len(),
    {
        let ghost m = items@.len() as int;
        let ghost before = versions@;
        let item = items.pop().unwrap();
        assert(item == sorted[m - 1]);
        assert(items@ =~= sorted.take(m - 1));
        let same: bool = versions.len() > 0 && versions[versions.len() - 1].timestamp
            == item.row.timestamp && bytes_equal(
            versions[versions.len() - 1].key.as_slice(),
            item.row.key.as_slice(),
        );
        if !same {
            proof {
                if m < sorted.len() {
                    assert(!sorted[m].ranks_before(&sorted[m - 1]));
                    assert(!same_version(sorted[m].row@, sorted[m - 1].row@));
                    lemma_lex_total(sorted[m].row.key@, sorted[m - 1].row.key@);
                    assert(version_lt(sorted[m].row@, sorted[m - 1].row@));
                }
                assert forall|j: int| m - 1 < j < sorted.len() implies !same_version(
                    (#[trigger] sorted[j]).row@,
                    sorted[m - 1].row@,
                ) by {
                    if j > m && same_version(sorted[j].row@, sorted[m - 1].row@) {
                        assert(!sorted[j].ranks_before(&sorted[m]));
                        assert(version_lt(sorted[m].row@, sorted[j].row@));
                    }
                }
                assert(last_of_version(sorted, m - 1));
                from = from.push(m - 1);
                if before.len() > 0 {
                    let l = before.len() - 1;
                    assert(before[l] == before.last());
                    assert(before.last()@ == sorted[from[l]].row@);
                    assert(version_lt(before[l]@, item.row@));
                    assert forall|a: int| 0 <= a < before.len() implies version_lt(
                        (#[trigger] before[a])@,
                        item.row@,
                    ) by {
                        if a < l {
                            assert(version_lt(before[a]@, before[l]@));
                            if lex_lt(before[a].key@, before[l].key@) && lex_lt(
                                before[l].key@,
                                item.row.key@,
                            ) {
                                lemma_lex_transitive(
                                    before[a].key@,
                                    before[l].key@,
                                    item.row.key@,
                                );
                            }
                        }
                    }
                }
            }
            versions.push(item.row);
        }
        proof {
            assert forall|i: int| m - 1 <= i < sorted.len() implies held(
                versions@,
                (#[trigger] sorted[i]).row@,
            ) by {
                if i >= m {
                    let o = choose|o: int|
                        0 <= o < before.len() && same_version(
                            (#[trigger] before[o])@,
                            sorted[i].row@,
                        );
                    assert(versions@[o] == before[o]);
                } else {
                    assert(same_version(versions@[versions@.len() - 1]@, sorted[i].row@));
                }
            }
        }
    }
    proof {
        let out = stamps(versions@);
        assert forall|a: int, b: int|
            #![trigger out[a], out[b]]
            0 <= a < b < out.len() implies version_lt(out[a], out[b]) by {
            assert(out[a] == versions@[a]@ && out[b] == versions@[b]@);
        }
        assert forall|o: int| 0 <= o < out.len() implies pick_exact(
            all,
            (#[trigger] out[o]).key,
            out[o].timestamp,
        ) == Some(out[o]) by {
            assert(out[o] == versions@[o]@);
            lemma_last_version(sorted, all, from[o]);
        }
        assert forall|r: int| 0 <= r < all.len() implies holds_version(out, #[trigger] all[r]) by {
            assert(row_placed(sorted, r));
            let i = choose|i: int| 0 <= i < sorted.len() && (#[trigger] sorted[i]).place == r;
            assert(held(versions@, sorted[i].row@));
            let o = choose|o: int|
                0 <= o < versions@.len() && same_version((#[trigger] versions@[o])@, sorted[i].row@);
            assert(out[o].key == all[r].key && out[o].timestamp == all[r].timestamp);
        }
    }
    versions
}

/// Whether a list has a row of the same version.
spec fn held(versions: Seq<Row>, row: RowView) -> bool {
    exists|o: int| 0 <= o < versions.len() && same_version((#[trigger] versions[o])@, row)
}

// Garbage collection

/// Whether a version is the latest one of its key.
pub open spec fn is_latest(versions: Seq<RowView>, i: int) -> bool {
    i + 1 >= versions.len() || versions[i + 1].key != versions[i].key
}

/// Whether a version is the one that a pinned timestamp shows.
pub open spec fn is_pinned(versions: Seq<RowView>, pins: Seq<u64>, i: int) -> bool {
    exists|p: int|
        0 <= p < pins.len() && versions[i].timestamp <= #[trigger] pins[p] && (is_latest(
            versions,
            i,
        ) || pins[p] < versions[i + 1].timestamp)
}

/// Whether a version is needed: it is the latest of its key, or a pinned
/// timestamp shows it.
pub open spec fn is_needed(versions: Seq<RowView>, pins: Seq<u64>, i: int) -> bool {
    is_latest(versions, i) || is_pinned(versions, pins, i)
}

/// Whether a key is deleted for good: its latest version is a tombstone, and no
/// pinned timestamp shows an older one.
pub open spec fn is_gone(versions: Seq<RowView>, pins: Seq<u64>, key: Seq<u8>) -> bool {
    forall|j: int|
        0 <= j < versions.len() && (#[trigger] versions[j]).key == key ==> if is_latest(
            versions,
            j,
        ) {
            versions[j].value is None
        } else {
            !is_pinned(versions, pins, j)
        }
}

/// Whether a version survives garbage collection.
pub open spec fn survives(versions: Seq<RowView>, pins: Seq<u64>, i: int) -> bool {
    is_needed(versions, pins, i) && !is_gone(versions, pins, versions[i].key)
}

/// A version that survives, and whether it is the latest of its key.
#[verifier::ext_equal]
pub ghost struct SurvivorView {
    pub row: RowView,
    pub latest: bool,
}

/// The versions that survive out of the first `n`.
pub open spec fn survivors_of(versions: Seq<RowView>, pins: Seq<u64>, n: int) -> Seq<SurvivorView>
    decreases n,
{
    if n <= 0 {
        Seq::<SurvivorView>::empty()
    } else {
        let before = survivors_of(versions, pins, n - 1);
        if survives(versions, pins, n - 1) {
            before.push(
                SurvivorView { row: versions[n - 1], latest: is_latest(versions, n - 1) },
            )
        } else {
            before
        }
    }
}

/// The rows of survivors.
pub open spec fn survivor_rows(survivors: Seq<SurvivorView>) -> Seq<RowView> {
    Seq::new(survivors.len(), |i: int| survivors[i].row)
}

/// The number of survivors that are the latest of their key.
pub open spec fn latest_count(survivors: Seq<SurvivorView>) -> nat
    decreases survivors.len(),
{
    if survivors.len() == 0 {
        0
    } else {
        latest_count(survivors.drop_last()) + (if survivors.last().latest {
            1nat
        } else {
            0
        })
    }
}

/// Each survivor that is the latest of its key counts once, and no other does.
pub proof fn lemma_latest_counted(a: Seq<SurvivorView>, b: Seq<SurvivorView>)
    ensures
        latest_count(a + b) == latest_count(a) + latest_count(b),
        b.len() == 1 && b[0].latest ==> latest_count(b) == 1,
        b.len() == 1 && !b[0].latest ==> latest_count(b) == 0,
    decreases b.len(),
{
    reveal_with_fuel(latest_count, 2);
    if b.len() == 0 {
        assert(a + b =~= a);
    } else {
        assert((a + b).drop_last() =~= a + b.drop_last());
        assert((a + b).last() == b.last());
        lemma_latest_counted(a, b.drop_last());
    }
}

/// A version that survives, and whether it is the latest of its key.
#[derive(Debug)]
pub struct Survivor {
    pub row: Row,
    pub latest: bool,
}

impl View for Survivor {
    type V = SurvivorView;

    open spec fn view(&self) -> SurvivorView {
        SurvivorView { row: self.row@, latest: self.latest }
    }
}

impl BlockRow for Survivor {
    open spec fn row(&self) -> RowView {
        self.row@
    }

    fn row_key(&self) -> (key: &Vec<u8>) {
        &self.row.key
    }

    fn row_timestamp(&self) -> (timestamp: u64) {
        self.row.timestamp
    }

    fn row_value(&self) -> (value: &Option<Vec<u8>>) {
        &self.row.value
    }
}

/// What survivors are.
pub open spec fn survivor_views(survivors: Seq<Survivor>) -> Seq<SurvivorView> {
    Seq::new(survivors.len(), |i: int| survivors[i]@)
}

/// What garbage collection leaves.
#[derive(Debug)]
pub struct Collected {
    /// The versions that survive, sorted by key and timestamp.
    pub survivors: Vec<Survivor>,
    /// Number of keys that have a version left.
    pub keys_retained: usize,
    /// Number of versions dropped.
    pub versions_gc_dropped: usize,
}

/// The versions are sorted, without two of one key and timestamp.
pub open spec fn in_order(versions: Seq<RowView>) -> bool {
    forall|i: int, j: int|
        #![trigger versions[i], versions[j]]
        0 <= i < j < versions.len() ==> version_lt(versions[i], versions[j])
}

/// Keys do not come back in sorted versions.
proof fn lemma_runs(versions: Seq<RowView>, i: int, j: int)
    requires
        in_order(versions),
        0 <= i < j < versions.len(),
        versions[i].key != versions[i + 1].key,
    ensures
        versions[j].key != versions[i].key,
{
    lemma_lex_irreflexive(versions[i].key);
    assert(version_lt(versions[i], versions[i + 1]));
    assert(lex_lt(versions[i].key, versions[i + 1].key));
    if j > i + 1 {
        assert(version_lt(versions[i + 1], versions[j]));
        if lex_lt(versions[i + 1].key, versions[j].key) {
            lemma_lex_transitive(versions[i].key, versions[i + 1].key, versions[j].key);
        }
    }
}

fn pinned_between(pins: &[Timestamp], low: Timestamp, high: Option<Timestamp>) -> (found: bool)
    ensures
        found == exists|p: int|
            0 <= p < pins@.len() && low <= #[trigger] pins@[p] && (high matches Some(h) ==> pins@[p]
                < h),
{
    let mut p: usize = 0;
    while p < pins.len()
        invariant
            p <= pins@.len(),
            forall|q: int|
                0 <= q < p ==> !(low <= #[trigger] pins@[q] && (high matches Some(h) ==> pins@[q]
                    < h)),
        decreases pins@.len() - p,
    {
        let pin: u64 = pins[p];
        let below: bool = match high {
            Some(h) => pin < h,
            None => true,
        };
        if low <= pin && below {
            assert(pins@[p as int] == pin);
            return true;
        }
        p = p + 1;
    }
    false
}

/// Marks the versions that survive.
fn mark_survivors(versions: &Vec<Row>, pins: &[Timestamp]) -> (flags: Vec<bool>)
    requires
        in_order(stamps(versions@)),
    ensures
        flags@.len() == versions@.len(),
        forall|i: int|
            0 <= i < flags@.len() ==> #[trigger] flags@[i] == survives(
                stamps(versions@),
                pins@,
                i,
            ),
{
    let ghost all = stamps(versions@);
    let n: usize = versions.len();
    let mut flags: Vec<bool> = Vec::new();
    let mut start: usize = 0;
    while start < n
        invariant
            start <= n,
            n == versions@.len(),
            all == stamps(versions@),
            in_order(all),
            start > 0 && start < n ==> all[start - 1].key != all[start as int].key,
            flags@.len() == start,
            forall|i: int| 0 <= i < start ==> #[trigger] flags@[i] == survives(all, pins@, i),
        decreases n - start,
    {
        let ghost key = all[start as int].key;
        let mut end: usize = start;
        let mut last: bool = false;
        let mut older_pinned: bool = false;
        let mut needed: Vec<bool> = Vec::new();
        while !last
            invariant
                start <= end <= n,
                last || end < n,
                n == versions@.len(),
                all == stamps(versions@),
                in_order(all),
                needed@.len() == end - start,
                forall|i: int| start <= i < end ==> (#[trigger] all[i]).key == key,
                !last ==> all[end as int].key == key,
                last ==> end > start && is_latest(all, end - 1),
                forall|i: int|
                    start <= i < end && !(last && i == end - 1) ==> !is_latest(all, i),
                forall|i: int|
                    #![trigger needed@[i - start]]
                    start <= i < end ==> needed@[i - start] == is_needed(all, pins@, i),
                older_pinned == exists|i: int|
                    start <= i < end && !is_latest(all, i) && #[trigger] is_pinned(all, pins@, i),
            decreases n - end,
        {
            let i: usize = end;
            assert(all[i as int] == versions@[i as int]@);
            let ghost flags_before = needed@;
            if i + 1 < n {
                assert(all[i + 1] == versions@[i + 1]@);
                if bytes_equal(versions[i].key.as_slice(), versions[i + 1].key.as_slice()) {
                    let pinned: bool = pinned_between(
                        pins,
                        versions[i].timestamp,
                        Some(versions[i + 1].timestamp),
                    );
                    assert(pinned == is_pinned(all, pins@, i as int));
                    needed.push(pinned);
                    older_pinned = older_pinned || pinned;
                } else {
                    needed.push(true);
                    last = true;
                }
            } else {
                needed.push(true);
                last = true;
            }
            end = end + 1;
            proof {
                assert forall|k: int|
                    #![trigger needed@[k - start]]
                    start <= k < end implies needed@[k - start] == is_needed(all, pins@, k) by {
                    if k < i {
                        assert(needed@[k - start] == flags_before[k - start]);
                    }
                }
                if !last {
                    assert(!is_latest(all, i as int));
                    if older_pinned {
                        if is_pinned(all, pins@, i as int) {
                            assert(is_pinned(all, pins@, end - 1));
                        }
                    }
                }
            }
        }
        let gone: bool = versions[end - 1].value.is_none() && !older_pinned;
        proof {
            assert(all[end - 1] == versions@[end - 1]@);
            assert forall|j: int|
                0 <= j < all.len() && (#[trigger] all[j]).key == key implies start <= j < end by {
                if j < start {
                    lemma_runs(all, start - 1, start as int);
                    assert(version_lt(all[j], all[start as int]));
                    if j < start - 1 {
                        assert(version_lt(all[j], all[start - 1]));
                        assert(version_lt(all[start - 1], all[start as int]));
                        lemma_lex_irreflexive(key);
                        if lex_lt(all[j].key, all[start - 1].key) {
                            lemma_lex_transitive(
                                all[j].key,
                                all[start - 1].key,
                                all[start as int].key,
                            );
                        }
                    }
                }
                if j >= end {
                    lemma_runs(all, end - 1, j);
                }
            }
            if gone {
                assert(is_gone(all, pins@, key));
            } else if is_gone(all, pins@, key) {
                if older_pinned {
                    let i = choose|i: int|
                        start <= i < end && !is_latest(all, i) && #[trigger] is_pinned(
                            all,
                            pins@,
                            i,
                        );
                    assert(all[i].key == key);
                } else {
                    assert(all[end - 1].key == key);
                }
            }
            assert(gone == is_gone(all, pins@, key));
        }
        let mut i: usize = start;
        while i < end
            invariant
                start <= i <= end <= n,
                n == all.len(),
                flags@.len() == i,
                gone == is_gone(all, pins@, key),
                needed@.len() == end - start,
                forall|k: int| start <= k < end ==> (#[trigger] all[k]).key == key,
                forall|k: int|
                    #![trigger needed@[k - start]]
                    start <= k < end ==> needed@[k - start] == is_needed(all, pins@, k),
                forall|k: int| 0 <= k < i ==> #[trigger] flags@[k] == survives(all, pins@, k),
            decreases end - i,
        {
            assert(needed@[i - start] == is_needed(all, pins@, i as int));
            assert(all[i as int].key == key);
            flags.push(needed[i - start] && !gone);
            i = i + 1;
        }
        start = end;
    }
    flags
}

/// Drops the versions that neither the present nor a pinned timestamp needs.
/// Of each key the latest version stays, and the one that each pinned timestamp
/// shows. A key that is deleted, and that no pinned timestamp shows, is dropped
/// as a whole.
pub fn collect_garbage(versions: Vec<Row>, pins: &[Timestamp]) -> (collected: Collected)
    requires
        in_order(stamps(versions@)),
    ensures
        survivor_views(collected.survivors@) == survivors_of(
            stamps(versions@),
            pins@,
            versions@.len() as int,
        ),
        collected.keys_retained == latest_count(survivor_views(collected.survivors@)),
        collected.versions_gc_dropped == versions@.len() - collected.survivors@.len(),
{
    let ghost given = versions@;
    let ghost all = stamps(given);
    let flags = mark_survivors(&versions, pins);
    let n: usize = versions.len();
    let mut latest: Vec<bool> = Vec::new();
    let mut i: usize = 0;
    while i < n
        invariant
            i <= n,
            n == versions@.len(),
            all == stamps(versions@),
            latest@.len() == i,
            forall|k: int| 0 <= k < i ==> #[trigger] latest@[k] == is_latest(all, k),
        decreases n - i,
    {
        assert(all[i as int] == versions@[i as int]@);
        let is_last: bool = if i + 1 < n {
            assert(all[i + 1] == versions@[i + 1]@);
            !bytes_equal(versions[i].key.as_slice(), versions[i + 1].key.as_slice())
        } else {
            true
        };
        latest.push(is_last);
        i = i + 1;
    }
    let mut survivors: Vec<Survivor> = Vec::new();
    let mut keys_retained: usize = 0;
    let mut dropped: usize = 0;
    let mut place: usize = 0;
    assert(survivor_views(survivors@) =~= survivors_of(all, pins@, 0));
    for row in iter: versions
        invariant
            iter.seq() == given,
            all == stamps(given),
            n == given.len(),
            place == iter.index(),
            flags@.len() == n,
            latest@.len() == n,
            forall|k: int| 0 <= k < n ==> #[trigger] flags@[k] == survives(all, pins@, k),
            forall|k: int| 0 <= k < n ==> #[trigger] latest@[k] == is_latest(all, k),
            survivor_views(survivors@) == survivors_of(all, pins@, place as int),
            keys_retained == latest_count(survivor_views(survivors@)),
            keys_retained <= survivors@.len(),
            survivors@.len() + dropped == place,
    {
        let ghost before = survivors@;
        assert(all[place as int] == row@);
        if flags[place] {
            let is_last: bool = latest[place];
            survivors.push(Survivor { row, latest: is_last });
            proof {
                let added = survivors@[before.len() as int]@;
                assert(survivor_views(survivors@) =~= survivor_views(before).push(added));
                assert(survivor_views(survivors@).drop_last() =~= survivor_views(before));
            }
            if is_last {
                keys_retained = keys_retained + 1;
            }
        } else {
            dropped = dropped + 1;
        }
        place = place + 1;
    }
    Collected { survivors, keys_retained, versions_gc_dropped: dropped }
}

// What survives is what is read

/// What a reader at `read_ts` sees of a key.
pub open spec fn seen(rows: Seq<RowView>, key: Seq<u8>, read_ts: u64) -> Option<RowView> {
    pick(filtered(rows, asked_at(read_ts)), key)
}

/// The newest row of a key up to a timestamp; of equal ones the last.
spec fn is_seen(rows: Seq<RowView>, key: Seq<u8>, read_ts: u64, i: int) -> bool {
    &&& 0 <= i < rows.len()
    &&& rows[i].key == key
    &&& rows[i].timestamp <= read_ts
    &&& forall|j: int|
        0 <= j < rows.len() && (#[trigger] rows[j]).key == key && rows[j].timestamp <= read_ts
            && j != i ==> rows[j].timestamp < rows[i].timestamp || (rows[j].timestamp
            == rows[i].timestamp && j < i)
}

proof fn lemma_seen(rows: Seq<RowView>, key: Seq<u8>, read_ts: u64)
    ensures
        match seen(rows, key, read_ts) {
            Some(row) => exists|i: int| #[trigger]
                is_seen(rows, key, read_ts, i) && rows[i] == row,
            None => forall|j: int|
                0 <= j < rows.len() && (#[trigger] rows[j]).key == key ==> rows[j].timestamp
                    > read_ts,
        },
    decreases rows.len(),
{
    let filter = asked_at(read_ts);
    if rows.len() > 0 {
        let front = rows.drop_last();
        let last = rows.len() - 1;
        lemma_seen(front, key, read_ts);
        assert forall|j: int| 0 <= j < front.len() implies front[j] == rows[j] by {}
        let kept = filtered(rows, filter);
        if asked_for(filter, rows[last].key, rows[last].timestamp) {
            assert(kept.drop_last() =~= filtered(front, filter));
        }
        let before = seen(front, key, read_ts);
        if rows[last].key == key && rows[last].timestamp <= read_ts {
            match before {
                Some(other) => {
                    let i = choose|i: int| #[trigger]
                        is_seen(front, key, read_ts, i) && front[i] == other;
                    if rows[last].timestamp >= other.timestamp {
                        assert forall|j: int|
                            0 <= j < rows.len() && (#[trigger] rows[j]).key == key
                                && rows[j].timestamp <= read_ts && j != last implies rows[j].timestamp
                            < rows[last].timestamp || (rows[j].timestamp == rows[last].timestamp
                            && j < last) by {
                            assert(front[j] == rows[j]);
                            if j != i {
                                assert(front[j].timestamp <= front[i].timestamp);
                            }
                        }
                        assert(is_seen(rows, key, read_ts, last));
                    } else {
                        assert forall|j: int|
                            0 <= j < rows.len() && (#[trigger] rows[j]).key == key
                                && rows[j].timestamp <= read_ts && j != i implies rows[j].timestamp
                            < rows[i].timestamp || (rows[j].timestamp == rows[i].timestamp && j
                            < i) by {
                            if j < last {
                                assert(front[j] == rows[j]);
                            }
                        }
                        assert(is_seen(rows, key, read_ts, i));
                    }
                },
                None => {
                    assert forall|j: int|
                        0 <= j < rows.len() && (#[trigger] rows[j]).key == key
                            && rows[j].timestamp <= read_ts && j != last implies false by {
                        assert(front[j] == rows[j]);
                    }
                    assert(is_seen(rows, key, read_ts, last));
                },
            }
        } else {
            match before {
                Some(other) => {
                    let i = choose|i: int| #[trigger]
                        is_seen(front, key, read_ts, i) && front[i] == other;
                    assert forall|j: int|
                        0 <= j < rows.len() && (#[trigger] rows[j]).key == key
                            && rows[j].timestamp <= read_ts && j != i implies rows[j].timestamp
                        < rows[i].timestamp || (rows[j].timestamp == rows[i].timestamp && j
                        < i) by {
                        assert(front[j] == rows[j]);
                    }
                    assert(is_seen(rows, key, read_ts, i));
                },
                None => {
                    assert forall|j: int|
                        0 <= j < rows.len() && (#[trigger] rows[j]).key == key implies rows[j].timestamp
                        > read_ts by {
                        if j < last {
                            assert(front[j] == rows[j]);
                        }
                    }
                },
            }
        }
    }
}

proof fn lemma_seen_unique(rows: Seq<RowView>, key: Seq<u8>, read_ts: u64, i: int)
    requires
        is_seen(rows, key, read_ts, i),
    ensures
        seen(rows, key, read_ts) == Some(rows[i]),
{
    lemma_seen(rows, key, read_ts);
    match seen(rows, key, read_ts) {
        Some(row) => {
            let j = choose|j: int| #[trigger] is_seen(rows, key, read_ts, j) && rows[j] == row;
            if i != j {
                assert(rows[j].key == key && rows[i].key == key);
            }
        },
        None => {
            assert(rows[i].key == key);
        },
    }
}

proof fn lemma_versions_seen(
    rows: Seq<RowView>,
    versions: Seq<RowView>,
    key: Seq<u8>,
    read_ts: u64,
)
    requires
        lists_versions(versions, rows),
    ensures
        seen(versions, key, read_ts) == seen(rows, key, read_ts),
{
    lemma_seen(rows, key, read_ts);
    match seen(rows, key, read_ts) {
        Some(row) => {
            let r = choose|r: int| #[trigger] is_seen(rows, key, read_ts, r) && rows[r] == row;
            assert(holds_version(versions, rows[r]));
            let i = choose|i: int|
                0 <= i < versions.len() && (#[trigger] versions[i]).key == row.key
                    && versions[i].timestamp == row.timestamp;
            assert forall|q: int| r < q < rows.len() implies !((#[trigger] rows[q]).key
                == rows[r].key && rows[q].timestamp == rows[r].timestamp) by {}
            lemma_exact_last(rows, r);
            assert(versions[i] == row);
            assert forall|j: int|
                0 <= j < versions.len() && (#[trigger] versions[j]).key == key
                    && versions[j].timestamp <= read_ts && j != i implies versions[j].timestamp
                < versions[i].timestamp || (versions[j].timestamp == versions[i].timestamp && j
                < i) by {
                lemma_exact_has(rows, versions[j].key, versions[j].timestamp);
                assert(rows.contains(versions[j]));
                let q = choose|q: int| 0 <= q < rows.len() && rows[q] == versions[j];
                assert(rows[q].timestamp <= rows[r].timestamp);
                lemma_lex_irreflexive(key);
                if j > i {
                    assert(version_lt(versions[i], versions[j]));
                }
            }
            assert(is_seen(versions, key, read_ts, i));
            lemma_seen_unique(versions, key, read_ts, i);
        },
        None => {
            lemma_seen(versions, key, read_ts);
            match seen(versions, key, read_ts) {
                Some(version) => {
                    let i = choose|i: int| #[trigger]
                        is_seen(versions, key, read_ts, i) && versions[i] == version;
                    lemma_exact_has(rows, versions[i].key, versions[i].timestamp);
                    assert(rows.contains(versions[i]));
                    let q = choose|q: int| 0 <= q < rows.len() && rows[q] == versions[i];
                    assert(rows[q].key == key);
                },
                None => {},
            }
        },
    }
}

/// The survivors are versions that survive, in order, and all of them.
proof fn lemma_survivors(versions: Seq<RowView>, pins: Seq<u64>, n: int)
    requires
        in_order(versions),
        0 <= n <= versions.len(),
    ensures
        ({
            let rows = survivor_rows(survivors_of(versions, pins, n));
            &&& forall|o: int|
                0 <= o < rows.len() ==> survived(versions, pins, n, #[trigger] rows[o])
            &&& forall|i: int| 0 <= i < n && #[trigger] survives(versions, pins, i) ==> rows.contains(
                versions[i],
            )
            &&& in_order(rows)
        }),
    decreases n,
{
    if n > 0 {
        lemma_survivors(versions, pins, n - 1);
        let before = survivor_rows(survivors_of(versions, pins, n - 1));
        let after = survivor_rows(survivors_of(versions, pins, n));
        assert forall|o: int| 0 <= o < before.len() implies after[o] == before[o] by {}
        assert forall|o: int| 0 <= o < after.len() implies survived(
            versions,
            pins,
            n,
            #[trigger] after[o],
        ) by {
            if o < before.len() {
                assert(survived(versions, pins, n - 1, before[o]));
                let i = choose|i: int|
                    0 <= i < n - 1 && #[trigger] survives(versions, pins, i) && versions[i]
                        == before[o];
                assert(survives(versions, pins, i) && versions[i] == after[o]);
            } else {
                assert(survives(versions, pins, n - 1) && versions[n - 1] == after[o]);
            }
        }
        assert forall|i: int|
            0 <= i < n && #[trigger] survives(versions, pins, i) implies after.contains(
            versions[i],
        ) by {
            if i < n - 1 {
                assert(before.contains(versions[i]));
                let o = choose|o: int| 0 <= o < before.len() && before[o] == versions[i];
                assert(after[o] == versions[i]);
            } else {
                assert(after[before.len() as int] == versions[i]);
            }
        }
        assert forall|a: int, b: int|
            #![trigger after[a], after[b]]
            0 <= a < b < after.len() implies version_lt(after[a], after[b]) by {
            if b < before.len() {
                assert(version_lt(before[a], before[b]));
            } else {
                assert(survived(versions, pins, n - 1, before[a]));
                let i = choose|i: int|
                    0 <= i < n - 1 && #[trigger] survives(versions, pins, i) && versions[i]
                        == before[a];
                assert(version_lt(versions[i], versions[n - 1]));
            }
        }
    }
}

/// A survivor is one of the versions, and the latest of its key exactly if that is.
pub proof fn lemma_survivor_source(versions: Seq<RowView>, pins: Seq<u64>, n: int, o: int) -> (i: int)
    requires
        0 <= o < survivors_of(versions, pins, n).len(),
    ensures
        0 <= i < n,
        survivors_of(versions, pins, n)[o] == (SurvivorView {
            row: versions[i],
            latest: is_latest(versions, i),
        }),
    decreases n,
{
    let before = survivors_of(versions, pins, n - 1);
    if o < before.len() {
        lemma_survivor_source(versions, pins, n - 1, o)
    } else {
        n - 1
    }
}

/// Of each key at most one survivor is the latest.
pub proof fn lemma_latest_unique(versions: Seq<RowView>, pins: Seq<u64>, a: int, b: int)
    requires
        in_order(versions),
        ({
            let survivors = survivors_of(versions, pins, versions.len() as int);
            &&& 0 <= a < survivors.len()
            &&& 0 <= b < survivors.len()
            &&& survivors[a].latest
            &&& survivors[b].latest
            &&& survivors[a].row.key == survivors[b].row.key
        }),
    ensures
        survivors_of(versions, pins, versions.len() as int)[a] == survivors_of(
            versions,
            pins,
            versions.len() as int,
        )[b],
{
    let x = lemma_survivor_source(versions, pins, versions.len() as int, a);
    let y = lemma_survivor_source(versions, pins, versions.len() as int, b);
    if x < y {
        lemma_runs(versions, x, y);
    } else if y < x {
        lemma_runs(versions, y, x);
    }
}

/// Whether no version of its key is newer than a version.
pub open spec fn none_newer(versions: Seq<RowView>, i: int) -> bool {
    forall|j: int|
        0 <= j < versions.len() && (#[trigger] versions[j]).key == versions[i].key
            ==> versions[j].timestamp <= versions[i].timestamp
}

/// Whether a reader at one of the pinned timestamps is given a version: it is not newer than
/// the pin, and every other version of its key is older, or newer than the pin.
pub open spec fn pin_shows(versions: Seq<RowView>, pins: Seq<u64>, i: int) -> bool {
    exists|p: int|
        0 <= p < pins.len() && versions[i].timestamp <= #[trigger] pins[p] && forall|j: int|
            0 <= j < versions.len() && (#[trigger] versions[j]).key == versions[i].key
                ==> versions[j].timestamp <= versions[i].timestamp || versions[j].timestamp
                > pins[p]
}

proof fn lemma_latest_is_newest(versions: Seq<RowView>, i: int)
    requires
        in_order(versions),
        0 <= i < versions.len(),
    ensures
        is_latest(versions, i) == none_newer(versions, i),
{
    lemma_lex_irreflexive(versions[i].key);
    if is_latest(versions, i) {
        assert forall|j: int| 0 <= j < versions.len() && (#[trigger] versions[j]).key
            == versions[i].key implies versions[j].timestamp <= versions[i].timestamp by {
            if j < i {
                assert(version_lt(versions[j], versions[i]));
            } else if j > i {
                lemma_runs(versions, i, j);
            }
        }
    } else {
        assert(version_lt(versions[i], versions[i + 1]));
        assert(versions[i + 1].timestamp > versions[i].timestamp);
    }
}

proof fn lemma_pinned_is_shown(versions: Seq<RowView>, pins: Seq<u64>, i: int)
    requires
        in_order(versions),
        0 <= i < versions.len(),
    ensures
        is_pinned(versions, pins, i) == pin_shows(versions, pins, i),
{
    lemma_lex_irreflexive(versions[i].key);
    lemma_latest_is_newest(versions, i);
    if is_pinned(versions, pins, i) {
        let p = choose|p: int|
            0 <= p < pins.len() && versions[i].timestamp <= #[trigger] pins[p] && (is_latest(
                versions,
                i,
            ) || pins[p] < versions[i + 1].timestamp);
        assert forall|j: int| 0 <= j < versions.len() && (#[trigger] versions[j]).key
            == versions[i].key implies versions[j].timestamp <= versions[i].timestamp
            || versions[j].timestamp > pins[p] by {
            if j < i {
                assert(version_lt(versions[j], versions[i]));
            } else if j > i + 1 && !is_latest(versions, i) {
                assert(version_lt(versions[i + 1], versions[j]));
            }
        }
    }
    if pin_shows(versions, pins, i) {
        let p = choose|p: int|
            0 <= p < pins.len() && versions[i].timestamp <= #[trigger] pins[p] && forall|j: int|
                0 <= j < versions.len() && (#[trigger] versions[j]).key == versions[i].key
                    ==> versions[j].timestamp <= versions[i].timestamp || versions[j].timestamp
                    > pins[p];
        if !is_latest(versions, i) {
            assert(version_lt(versions[i], versions[i + 1]));
            assert(versions[i + 1].key == versions[i].key);
        }
    }
}

/// Which versions survive: the newest version of a key that is not deleted, and every older
/// one that a pinned timestamp shows, together with the deletion that hides it; no other.
/// So nothing is left of a deleted key that no pin needs.
pub proof fn lemma_survival_rule(versions: Seq<RowView>, pins: Seq<u64>, row: RowView)
    requires
        in_order(versions),
    ensures
        survivor_rows(survivors_of(versions, pins, versions.len() as int)).contains(row)
            <==> exists|i: int|
            {
                &&& 0 <= i < versions.len()
                &&& #[trigger] versions[i] == row
                &&& none_newer(versions, i) || pin_shows(versions, pins, i)
                &&& exists|k: int|
                    {
                        &&& 0 <= k < versions.len()
                        &&& (#[trigger] versions[k]).key == row.key
                        &&& if none_newer(versions, k) {
                            versions[k].value is Some
                        } else {
                            pin_shows(versions, pins, k)
                        }
                    }
            },
{
    let n = versions.len() as int;
    let left = survivor_rows(survivors_of(versions, pins, n));
    lemma_survivors(versions, pins, n);
    assert forall|i: int| 0 <= i < n implies #[trigger] survives(versions, pins, i) == ((none_newer(
        versions,
        i,
    ) || pin_shows(versions, pins, i)) && exists|k: int|
        {
            &&& 0 <= k < n
            &&& (#[trigger] versions[k]).key == versions[i].key
            &&& if none_newer(versions, k) {
                versions[k].value is Some
            } else {
                pin_shows(versions, pins, k)
            }
        }) by {
        let key = versions[i].key;
        lemma_latest_is_newest(versions, i);
        lemma_pinned_is_shown(versions, pins, i);
        assert forall|j: int| 0 <= j < n && (#[trigger] versions[j]).key == key implies is_latest(
            versions,
            j,
        ) == none_newer(versions, j) && is_pinned(versions, pins, j) == pin_shows(
            versions,
            pins,
            j,
        ) by {
            lemma_latest_is_newest(versions, j);
            lemma_pinned_is_shown(versions, pins, j);
        }
        if !is_gone(versions, pins, key) {
            let k = choose|k: int|
                0 <= k < n && (#[trigger] versions[k]).key == key && !(if is_latest(versions, k) {
                    versions[k].value is None
                } else {
                    !is_pinned(versions, pins, k)
                });
            assert(versions[k].key == key);
        }
    }
    if left.contains(row) {
        let o = choose|o: int| 0 <= o < left.len() && left[o] == row;
        assert(survived(versions, pins, n, left[o]));
        let i = choose|i: int|
            0 <= i < n && #[trigger] survives(versions, pins, i) && versions[i] == left[o];
        assert(versions[i] == row);
    }
    if exists|i: int|
        {
            &&& 0 <= i < n
            &&& #[trigger] versions[i] == row
            &&& none_newer(versions, i) || pin_shows(versions, pins, i)
            &&& exists|k: int|
                {
                    &&& 0 <= k < n
                    &&& (#[trigger] versions[k]).key == row.key
                    &&& if none_newer(versions, k) {
                        versions[k].value is Some
                    } else {
                        pin_shows(versions, pins, k)
                    }
                }
        } {
        let i = choose|i: int|
            {
                &&& 0 <= i < n
                &&& #[trigger] versions[i] == row
                &&& none_newer(versions, i) || pin_shows(versions, pins, i)
            };
        assert(survives(versions, pins, i));
    }
}

/// Whether a row is one of the first `n` versions and survives.
spec fn survived(versions: Seq<RowView>, pins: Seq<u64>, n: int, row: RowView) -> bool {
    exists|i: int| 0 <= i < n && #[trigger] survives(versions, pins, i) && versions[i] == row
}

/// Garbage collection does not change what is read: a reader at a pinned
/// timestamp, or at one that no version of the key comes after, sees the same
/// value before and after.
pub proof fn lemma_collection_keeps_reads(
    rows: Seq<RowView>,
    versions: Seq<RowView>,
    pins: Seq<u64>,
    key: Seq<u8>,
    read_ts: u64,
)
    requires
        lists_versions(versions, rows),
        pins.contains(read_ts) || forall|r: int|
            0 <= r < rows.len() && (#[trigger] rows[r]).key == key ==> rows[r].timestamp
                <= read_ts,
    ensures
        live(
            seen(
                survivor_rows(survivors_of(versions, pins, versions.len() as int)),
                key,
                read_ts,
            ),
        ) == live(seen(rows, key, read_ts)),
{
    let n = versions.len() as int;
    let left = survivor_rows(survivors_of(versions, pins, n));
    lemma_versions_seen(rows, versions, key, read_ts);
    lemma_survivors(versions, pins, n);
    lemma_seen(versions, key, read_ts);
    lemma_seen(left, key, read_ts);
    match seen(versions, key, read_ts) {
        Some(version) => {
            let i = choose|i: int| #[trigger]
                is_seen(versions, key, read_ts, i) && versions[i] == version;
            lemma_needed(rows, versions, pins, key, read_ts, i);
            if is_gone(versions, pins, key) {
                assert(versions[i].value is None);
                match seen(left, key, read_ts) {
                    Some(row) => {
                        let o = choose|o: int| #[trigger]
                            is_seen(left, key, read_ts, o) && left[o] == row;
                        assert(survived(versions, pins, n, left[o]));
                        let k = choose|k: int|
                            0 <= k < n && #[trigger] survives(versions, pins, k) && versions[k]
                                == left[o];
                        assert(false);
                    },
                    None => {},
                }
            } else {
                assert(survives(versions, pins, i));
                let o = choose|o: int| 0 <= o < left.len() && left[o] == versions[i];
                assert forall|j: int|
                    0 <= j < left.len() && (#[trigger] left[j]).key == key && left[j].timestamp
                        <= read_ts && j != o implies left[j].timestamp < left[o].timestamp || (
                left[j].timestamp == left[o].timestamp && j < o) by {
                    assert(survived(versions, pins, n, left[j]));
                    let k = choose|k: int|
                        0 <= k < n && #[trigger] survives(versions, pins, k) && versions[k]
                            == left[j];
                    assert(versions[k].timestamp <= versions[i].timestamp);
                    lemma_lex_irreflexive(key);
                    if j > o {
                        assert(version_lt(left[o], left[j]));
                    } else {
                        assert(version_lt(left[j], left[o]));
                    }
                }
                assert(is_seen(left, key, read_ts, o));
                lemma_seen_unique(left, key, read_ts, o);
            }
        },
        None => {
            match seen(left, key, read_ts) {
                Some(row) => {
                    let o = choose|o: int| #[trigger]
                        is_seen(left, key, read_ts, o) && left[o] == row;
                    assert(survived(versions, pins, n, left[o]));
                    let k = choose|k: int|
                        0 <= k < n && #[trigger] survives(versions, pins, k) && versions[k]
                            == left[o];
                    assert(versions[k].key == key);
                },
                None => {},
            }
        },
    }
}

proof fn lemma_needed(
    rows: Seq<RowView>,
    versions: Seq<RowView>,
    pins: Seq<u64>,
    key: Seq<u8>,
    read_ts: u64,
    i: int,
)
    requires
        lists_versions(versions, rows),
        is_seen(versions, key, read_ts, i),
        pins.contains(read_ts) || forall|r: int|
            0 <= r < rows.len() && (#[trigger] rows[r]).key == key ==> rows[r].timestamp
                <= read_ts,
    ensures
        is_needed(versions, pins, i),
        is_gone(versions, pins, key) ==> versions[i].value is None,
{
    if !is_latest(versions, i) {
        assert(versions[i + 1].key == key);
        assert(version_lt(versions[i], versions[i + 1]));
        lemma_lex_irreflexive(key);
        assert(versions[i].timestamp < versions[i + 1].timestamp);
        assert(versions[i + 1].timestamp > read_ts);
        if pins.contains(read_ts) {
            let p = choose|p: int| 0 <= p < pins.len() && pins[p] == read_ts;
            assert(versions[i].timestamp <= pins[p] && pins[p] < versions[i + 1].timestamp);
            assert(is_pinned(versions, pins, i));
        } else {
            lemma_exact_has(rows, versions[i + 1].key, versions[i + 1].timestamp);
            assert(rows.contains(versions[i + 1]));
            let r = choose|r: int| 0 <= r < rows.len() && rows[r] == versions[i + 1];
            assert(rows[r].key == key);
        }
    }
    assert(versions[i].key == key);
}

} // verus!
