//! Finding the rows of SST files again when an engine is opened on them.

use vstd::prelude::*;
use vstd::slice::slice_to_vec;

use crate::art::{insert_all, RowLocation, RowLocationView};
use crate::engine::compact::everything;
use crate::engine::newest::{lists_newest, newest_per_key, pick};
use crate::engine::read::{
    block_rows, columns_read, entry_block, entry_rows, file_read, filtered, read_block_rows,
    read_entry, skipped, ColumnsRead,
};
use crate::engine::registry::{index_of_file, index_or_whole};
use crate::engine::state::{memtable_location, FoundSst};
use crate::memtable::versioned_value::Version;
use crate::memtable::{lists, Memtable};
use crate::row::{stamps, Candidate, Content, Row, RowView, Stamped};
use crate::sst::{BlockIndexEntry, SstBlockIndex};

verus! {

/// Where a version of a row is stored, and whether it has a value.
#[derive(Clone, Copy, Debug)]
pub struct StoredAt {
    /// Whether the version has a value.
    pub live: bool,
    /// Id of the file.
    pub sst_id: u64,
    /// The block within the file.
    pub block: u64,
    /// The row within the block.
    pub row: u32,
}

impl StoredAt {
    /// The place, as the index holds it.
    pub open spec fn location(self) -> RowLocationView {
        RowLocationView::SST {
            sst_id: self.sst_id,
            block_offset: self.block,
            row_offset: self.row,
        }
    }
}

impl Content for StoredAt {
    type V = StoredAt;

    open spec fn content(&self) -> StoredAt {
        *self
    }
}

/// The versions in a block of a file, with their places.
pub open spec fn placed_rows(file_id: u64, block: int, rows: Seq<RowView>) -> Seq<
    Stamped<StoredAt>,
> {
    Seq::new(
        rows.len(),
        |r: int|
            Stamped {
                key: rows[r].key,
                timestamp: rows[r].timestamp,
                value: StoredAt {
                    live: rows[r].value is Some,
                    sst_id: file_id,
                    block: block as u64,
                    row: r as u32,
                },
            },
    )
}

/// The versions in the first `n` blocks of a file, with their places.
pub open spec fn placed_blocks(
    file_id: u64,
    data: Seq<u8>,
    entries: Seq<BlockIndexEntry>,
    reads: Seq<ColumnsRead>,
    n: int,
) -> Seq<Stamped<StoredAt>>
    decreases n,
{
    if n <= 0 {
        Seq::<Stamped<StoredAt>>::empty()
    } else {
        placed_blocks(file_id, data, entries, reads, n - 1) + placed_rows(
            file_id,
            n - 1,
            entry_rows(data, entries[n - 1], everything(), reads[n - 1]),
        )
    }
}

/// The versions in the first `n` files found, with their places.
pub open spec fn placed_found(
    found: Seq<FoundSst>,
    reads: Seq<Seq<ColumnsRead>>,
    n: int,
) -> Seq<Stamped<StoredAt>>
    decreases n,
{
    if n <= 0 {
        Seq::<Stamped<StoredAt>>::empty()
    } else {
        let before = placed_found(found, reads, n - 1);
        match found[n - 1].data {
            Some(data) => before + placed_blocks(
                found[n - 1].file_id,
                data@,
                index_or_whole(data@),
                reads[n - 1],
                index_or_whole(data@).len() as int,
            ),
            None => before,
        }
    }
}

/// Whether reading the blocks of the files found can have come to this.
pub open spec fn found_read(found: Seq<FoundSst>, reads: Seq<Seq<ColumnsRead>>) -> bool {
    &&& reads.len() == found.len()
    &&& forall|i: int|
        0 <= i < found.len() ==> ((#[trigger] found[i]).data matches Some(data) ==> file_read(
            data@,
            index_or_whole(data@),
            everything(),
            reads[i],
        ))
}

/// The first timestamp after all that are stored; the greatest one stays.
pub open spec fn first_stamp(placed: Seq<Stamped<StoredAt>>) -> u64
    decreases placed.len(),
{
    if placed.len() == 0 {
        1
    } else {
        let before = first_stamp(placed.drop_last());
        let last = placed.last().timestamp;
        if last < before {
            before
        } else if last == u64::MAX {
            last
        } else {
            (last + 1) as u64
        }
    }
}

/// Every stored timestamp comes before the first new one, but for the greatest that
/// there is.
pub proof fn lemma_first_stamp(placed: Seq<Stamped<StoredAt>>, i: int)
    requires
        0 <= i < placed.len(),
    ensures
        placed[i].timestamp < first_stamp(placed) || placed[i].timestamp == u64::MAX,
    decreases placed.len(),
{
    if i < placed.len() - 1 {
        lemma_first_stamp(placed.drop_last(), i);
        assert(placed.drop_last()[i] == placed[i]);
    }
}

/// The first new timestamp is the one after the greatest that is stored, and at least 1.
pub proof fn lemma_first_stamp_next(placed: Seq<Stamped<StoredAt>>)
    ensures
        first_stamp(placed) == 1 || exists|i: int|
            0 <= i < placed.len() && ((#[trigger] placed[i]).timestamp + 1 == first_stamp(placed)
                || placed[i].timestamp == u64::MAX),
    decreases placed.len(),
{
    if placed.len() > 0 {
        let front = placed.drop_last();
        lemma_first_stamp_next(front);
        assert(placed[placed.len() - 1] == placed.last());
        if placed.last().timestamp < first_stamp(front) && first_stamp(front) != 1 {
            let i = choose|i: int|
                0 <= i < front.len() && ((#[trigger] front[i]).timestamp + 1 == first_stamp(front)
                    || front[i].timestamp == u64::MAX);
            assert(placed[i] == front[i]);
        }
    }
}

/// Where each row is when an engine is opened: in the memtable if the log has it, or else
/// where its newest version is stored. A row that was deleted last is nowhere.
pub open spec fn opened_index(
    chains: Map<Seq<u8>, Seq<Version>>,
    placed: Seq<Stamped<StoredAt>>,
) -> Map<Seq<u8>, RowLocationView> {
    Map::new(
        |key: Seq<u8>|
            if chains.contains_key(key) {
                chains[key][0].value is Some
            } else {
                pick(placed, key) matches Some(version) && version.value.live
            },
        |key: Seq<u8>|
            if chains.contains_key(key) {
                memtable_location(key)
            } else {
                pick(placed, key)->0.value.location()
            },
    )
}

/// A filter that asks for everything leaves all rows.
pub proof fn lemma_everything(rows: Seq<RowView>)
    ensures
        filtered(rows, everything()) == rows,
    decreases rows.len(),
{
    if rows.len() > 0 {
        lemma_everything(rows.drop_last());
        assert(rows.drop_last().push(rows.last()) =~= rows);
    } else {
        assert(filtered(rows, everything()) =~= rows);
    }
}

/// Appends the rows of a block with their places.
fn place_rows(file_id: u64, block: u64, rows: Vec<Row>, out: &mut Vec<Candidate<StoredAt>>)
    ensures
        stamps(final(out)@) == stamps(old(out)@) + placed_rows(
            file_id,
            block as int,
            stamps(rows@),
        ),
{
    let ghost start = stamps(out@);
    let ghost all = rows@;
    let ghost placed = placed_rows(file_id, block as int, stamps(all));
    let n: usize = rows.len();
    let mut r: usize = 0;
    assert(stamps(out@) =~= start + placed.take(0));
    for row in iter: rows
        invariant
            iter.seq() == all,
            n == all.len(),
            r == iter.index(),
            placed == placed_rows(file_id, block as int, stamps(all)),
            stamps(out@) == start + placed.take(r as int),
    {
        let ghost before = out@;
        let value = StoredAt {
            live: row.value.is_some(),
            sst_id: file_id,
            block,
            row: #[verifier::truncate] (r as u32),
        };
        assert(stamps(all)[r as int] == row@);
        out.push(Candidate { key: row.key, timestamp: row.timestamp, value });
        proof {
            assert(stamps(out@) =~= stamps(before).push(placed[r as int]));
            assert(stamps(out@) =~= start + placed.take(r + 1));
        }
        r = r + 1;
    }
    assert(placed.take(placed.len() as int) =~= placed);
}

/// Appends the rows of a file with their places. Blocks that cannot be read are passed
/// over.
fn place_file(
    file_id: u64,
    data: &[u8],
    index: &SstBlockIndex,
    out: &mut Vec<Candidate<StoredAt>>,
) -> (reads: Ghost<Seq<ColumnsRead>>)
    ensures
        file_read(data@, index.entries@, everything(), reads@),
        stamps(final(out)@) == stamps(old(out)@) + placed_blocks(
            file_id,
            data@,
            index.entries@,
            reads@,
            index.entries@.len() as int,
        ),
{
    let ghost start = stamps(out@);
    let ghost entries = index.entries@;
    let ghost mut reads = Seq::<ColumnsRead>::empty();
    let mut i: usize = 0;
    assert(stamps(out@) =~= start + placed_blocks(file_id, data@, entries, reads, 0));
    while i < index.entries.len()
        invariant
            i <= entries.len(),
            entries == index.entries@,
            reads.len() == i,
            forall|k: int|
                0 <= k < i ==> (entry_block(data@, #[trigger] entries[k]) matches Some(b) ==> (
                !skipped(b, everything()) ==> columns_read(b, reads[k]))),
            stamps(out@) == start + placed_blocks(file_id, data@, entries, reads, i as int),
        decreases entries.len() - i,
    {
        let entry = &index.entries[i];
        let ghost before = reads;
        let ghost held = stamps(out@);
        let ghost mut columns = arbitrary::<ColumnsRead>();
        match read_entry(data, entry) {
            Some(block) => {
                let (rows, Ghost(outcome)) = read_block_rows(&block);
                proof {
                    columns = outcome;
                    lemma_everything(block_rows(block@, outcome));
                }
                place_rows(file_id, i as u64, rows, out);
            },
            None => {},
        }
        proof {
            reads = before.push(columns);
            lemma_blocks_local(file_id, data@, entries, before, reads, i as int);
            let more = placed_rows(
                file_id,
                i as int,
                entry_rows(data@, entries[i as int], everything(), columns),
            );
            assert(stamps(out@) =~= held + more);
            assert(stamps(out@) =~= start + placed_blocks(
                file_id,
                data@,
                entries,
                reads,
                i + 1,
            ));
        }
        i = i + 1;
    }
    Ghost(reads)
}

proof fn lemma_blocks_local(
    file_id: u64,
    data: Seq<u8>,
    entries: Seq<BlockIndexEntry>,
    a: Seq<ColumnsRead>,
    b: Seq<ColumnsRead>,
    n: int,
)
    requires
        n <= a.len(),
        n <= b.len(),
        forall|i: int| 0 <= i < n ==> a[i] == b[i],
    ensures
        placed_blocks(file_id, data, entries, a, n) == placed_blocks(
            file_id,
            data,
            entries,
            b,
            n,
        ),
    decreases n,
{
    if n > 0 {
        lemma_blocks_local(file_id, data, entries, a, b, n - 1);
        assert(a[n - 1] == b[n - 1]);
    }
}

proof fn lemma_found_local(
    found: Seq<FoundSst>,
    a: Seq<Seq<ColumnsRead>>,
    b: Seq<Seq<ColumnsRead>>,
    n: int,
)
    requires
        n <= a.len(),
        n <= b.len(),
        forall|i: int| 0 <= i < n ==> a[i] == b[i],
    ensures
        placed_found(found, a, n) == placed_found(found, b, n),
    decreases n,
{
    if n > 0 {
        lemma_found_local(found, a, b, n - 1);
        assert(a[n - 1] == b[n - 1]);
    }
}

/// Lists all versions in the files found, with their places.
pub fn place_found(found: &Vec<FoundSst>) -> (result: (Vec<Candidate<StoredAt>>, Ghost<
    Seq<Seq<ColumnsRead>>,
>))
    ensures
        found_read(found@, result.1@),
        stamps(result.0@) == placed_found(found@, result.1@, found@.len() as int),
{
    let mut placed: Vec<Candidate<StoredAt>> = Vec::new();
    let ghost mut reads = Seq::<Seq<ColumnsRead>>::empty();
    let mut i: usize = 0;
    assert(stamps(placed@) =~= placed_found(found@, reads, 0));
    while i < found.len()
        invariant
            i <= found@.len(),
            reads.len() == i,
            forall|k: int|
                0 <= k < i ==> ((#[trigger] found@[k]).data matches Some(data) ==> file_read(
                    data@,
                    index_or_whole(data@),
                    everything(),
                    reads[k],
                )),
            stamps(placed@) == placed_found(found@, reads, i as int),
        decreases found@.len() - i,
    {
        let ghost before = reads;
        let ghost mut outcome = Seq::<ColumnsRead>::empty();
        match &found[i].data {
            Some(data) => {
                let index = index_of_file(data.as_slice());
                let Ghost(columns) = place_file(
                    found[i].file_id,
                    data.as_slice(),
                    &index,
                    &mut placed,
                );
                proof {
                    outcome = columns;
                }
            },
            None => {},
        }
        proof {
            reads = before.push(outcome);
            lemma_found_local(found@, before, reads, i as int);
        }
        i = i + 1;
    }
    (placed, Ghost(reads))
}

/// The first timestamp after all that are stored.
pub fn stamp_after(placed: &Vec<Candidate<StoredAt>>) -> (timestamp: u64)
    ensures
        timestamp == first_stamp(stamps(placed@)),
{
    let mut timestamp: u64 = 1;
    let mut i: usize = 0;
    let ghost all = stamps(placed@);
    assert(all.take(0) =~= Seq::<Stamped<StoredAt>>::empty());
    while i < placed.len()
        invariant
            i <= placed@.len(),
            all == stamps(placed@),
            timestamp == first_stamp(all.take(i as int)),
        decreases placed@.len() - i,
    {
        let last: u64 = placed[i].timestamp;
        proof {
            assert(all.take(i + 1).drop_last() =~= all.take(i as int));
            assert(all.take(i + 1).last() == placed@[i as int]@);
        }
        if last >= timestamp {
            timestamp = if last == u64::MAX { last } else { last + 1 };
        }
        i = i + 1;
    }
    assert(all.take(i as int) =~= all);
    timestamp
}

// The index

/// Whether one of the first `n` pairs has a key.
spec fn pair_has(pairs: Seq<(Vec<u8>, RowLocation)>, n: int, key: Seq<u8>) -> bool {
    exists|i: int| 0 <= i < n && (#[trigger] pairs[i]).0@ == key
}

proof fn lemma_pairs(
    pairs: Seq<(Vec<u8>, RowLocation)>,
    target: Map<Seq<u8>, RowLocationView>,
    n: int,
)
    requires
        0 <= n <= pairs.len(),
        forall|i: int|
            0 <= i < pairs.len() ==> target.contains_key((#[trigger] pairs[i]).0@)
                && target[pairs[i].0@] == pairs[i].1@,
    ensures
        ({
            let map = insert_all(Map::<Seq<u8>, RowLocationView>::empty(), pairs.take(n));
            forall|key: Seq<u8>| #[trigger]
                map.contains_key(key) == pair_has(pairs, n, key) && (map.contains_key(key)
                    ==> map[key] == target[key])
        }),
    decreases n,
{
    let map = insert_all(Map::<Seq<u8>, RowLocationView>::empty(), pairs.take(n));
    if n > 0 {
        lemma_pairs(pairs, target, n - 1);
        let before = insert_all(Map::<Seq<u8>, RowLocationView>::empty(), pairs.take(n - 1));
        assert(pairs.take(n).drop_last() =~= pairs.take(n - 1));
        assert(pairs.take(n).last() == pairs[n - 1]);
        assert(map == before.insert(pairs[n - 1].0@, pairs[n - 1].1@));
        assert forall|key: Seq<u8>| #[trigger]
            map.contains_key(key) == pair_has(pairs, n, key) && (map.contains_key(key) ==> map[key]
                == target[key]) by {
            assert(before.contains_key(key) == pair_has(pairs, n - 1, key));
            if pair_has(pairs, n, key) {
                let i = choose|i: int| 0 <= i < n && (#[trigger] pairs[i]).0@ == key;
                if i < n - 1 {
                    assert(pair_has(pairs, n - 1, key));
                }
            }
            if pair_has(pairs, n - 1, key) {
                let i = choose|i: int| 0 <= i < n - 1 && (#[trigger] pairs[i]).0@ == key;
                assert(pairs[i].0@ == key);
            }
            if key == pairs[n - 1].0@ {
                assert(pair_has(pairs, n, key));
            }
        }
    } else {
        assert(pairs.take(0) =~= Seq::<(Vec<u8>, RowLocation)>::empty());
    }
}

/// Lists where each row is when an engine is opened, from its memtable and the versions
/// that are stored.
pub fn open_entries(memtable: &Memtable, placed: Vec<Candidate<StoredAt>>) -> (pairs: Vec<
    (Vec<u8>, RowLocation),
>)
    requires
        memtable.inv(),
    ensures
        insert_all(Map::<Seq<u8>, RowLocationView>::empty(), pairs@) == opened_index(
            memtable@,
            stamps(placed@),
        ),
{
    let ghost chains = memtable@;
    let ghost stored = stamps(placed@);
    let ghost target = opened_index(chains, stored);
    let newest = newest_per_key(placed);
    let ghost kept = newest@;
    let mut pairs: Vec<(Vec<u8>, RowLocation)> = Vec::new();
    let n: usize = newest.len();
    let mut k: usize = 0;
    for version in iter: newest
        invariant
            iter.seq() == kept,
            n == kept.len(),
            k == iter.index(),
            memtable.inv(),
            chains == memtable@,
            lists_newest(stamps(kept), stored),
            target == opened_index(chains, stored),
            forall|i: int|
                0 <= i < pairs@.len() ==> target.contains_key((#[trigger] pairs@[i]).0@)
                    && target[pairs@[i].0@] == pairs@[i].1@,
            forall|j: int|
                0 <= j < k && (#[trigger] kept[j]).value.live && !chains.contains_key(kept[j].key@)
                    ==> pair_has(pairs@, pairs@.len() as int, kept[j].key@),
    {
        let ghost before = pairs@;
        assert(stamps(kept)[k as int] == version@);
        assert(pick(stored, version.key@) == Some(version@));
        let ghost key = version.key@;
        if version.value.live && memtable.get(version.key.as_slice()).is_none() {
            let location = RowLocation::SST {
                sst_id: version.value.sst_id,
                block_offset: version.value.block,
                row_offset: version.value.row,
            };
            pairs.push((version.key, location));
            assert(pairs@[before.len() as int].0@ == key);
            assert(pair_has(pairs@, pairs@.len() as int, key));
        }
        proof {
            assert forall|j: int|
                0 <= j < k + 1 && (#[trigger] kept[j]).value.live && !chains.contains_key(
                    kept[j].key@,
                ) implies pair_has(pairs@, pairs@.len() as int, kept[j].key@) by {
                if j < k {
                    let i = choose|i: int|
                        0 <= i < before.len() && (#[trigger] before[i]).0@ == kept[j].key@;
                    assert(pairs@[i] == before[i]);
                }
            }
        }
        k = k + 1;
    }
    let ghost stored_pairs = pairs@;
    let entries = memtable.iter_all();
    let mut e: usize = 0;
    while e < entries.len()
        invariant
            e <= entries@.len(),
            chains == memtable@,
            lists(entries@, chains, |key: Seq<u8>| true),
            target == opened_index(chains, stored),
            stored_pairs.len() <= pairs@.len(),
            forall|i: int| 0 <= i < stored_pairs.len() ==> pairs@[i] == stored_pairs[i],
            forall|i: int|
                0 <= i < pairs@.len() ==> target.contains_key((#[trigger] pairs@[i]).0@)
                    && target[pairs@[i].0@] == pairs@[i].1@,
            forall|j: int|
                0 <= j < e && (#[trigger] entries@[j]).1.value is Some ==> pair_has(
                    pairs@,
                    pairs@.len() as int,
                    entries@[j].0@,
                ),
        decreases entries@.len() - e,
    {
        let ghost before = pairs@;
        let entry = &entries[e];
        let ghost key = entry.0@;
        assert(chains[key] == entry.1.chain());
        if entry.1.value.is_some() {
            let shard: u8 = Memtable::shard_index(entry.0.as_slice()) as u8;
            let row_key = slice_to_vec(entry.0.as_slice());
            let index_key = slice_to_vec(entry.0.as_slice());
            pairs.push((index_key, RowLocation::Memtable { shard, key: row_key }));
            assert(pairs@[before.len() as int].0@ == key);
            assert(pair_has(pairs@, pairs@.len() as int, key));
        }
        proof {
            assert forall|j: int|
                0 <= j < e + 1 && (#[trigger] entries@[j]).1.value is Some implies pair_has(
                pairs@,
                pairs@.len() as int,
                entries@[j].0@,
            ) by {
                if j < e {
                    let i = choose|i: int|
                        0 <= i < before.len() && (#[trigger] before[i]).0@ == entries@[j].0@;
                    assert(pairs@[i] == before[i]);
                }
            }
        }
        e = e + 1;
    }
    proof {
        let n = pairs@.len() as int;
        let map = insert_all(Map::<Seq<u8>, RowLocationView>::empty(), pairs@);
        lemma_pairs(pairs@, target, n);
        assert(pairs@.take(n) =~= pairs@);
        assert forall|key: Seq<u8>| target.contains_key(key) implies pair_has(
            pairs@,
            n,
            key,
        ) by {
            if chains.contains_key(key) {
                let keep = |key: Seq<u8>| true;
                assert(keep(key));
                let j = choose|j: int| 0 <= j < entries@.len() && (#[trigger] entries@[j]).0@ == key;
                assert(chains[key] == entries@[j].1.chain());
            } else {
                let j = choose|j: int|
                    0 <= j < stamps(kept).len() && (#[trigger] stamps(kept)[j]).key == key;
                assert(kept[j].key@ == key);
                assert(pick(stored, key) == Some(stamps(kept)[j]));
                let i = choose|i: int|
                    0 <= i < stored_pairs.len() && (#[trigger] stored_pairs[i]).0@ == key;
                assert(pairs@[i] == stored_pairs[i]);
            }
        }
        assert(map =~= target);
    }
    pairs
}

} // verus!
