//! What the blob log knows can be read.

use vstd::prelude::*;

use crate::blob_log::entry::{
    entry_bytes, lemma_entry_len, lemma_entry_round_trip, parse_entry,
};
use crate::blob_log::gc::{
    bytes_in_use, entries_in_use, from_offset, in_use, index_moved, index_without,
    lemma_value_len, rewritten, some_in_use, stats_of, uses_moved, value_at, BlobFile, MoveView,
    GUESSED_ENTRY_SIZE,
};
use crate::blob_log::log::{one_less_use, one_more_use, BlobState, PendingBlob};
use crate::blob_log::{hash_bytes, BlobRef};
use crate::bytes::{le_value, lemma_byte_range_values, lemma_le_round_trip};
use crate::hash::xxh3_128_of;

verus! {

/// Whether a reference finds a value with a content hash.
pub open spec fn finds(files: Map<u64, Seq<u8>>, blob_ref: BlobRef, hash: Seq<u8>) -> bool {
    &&& files.contains_key(blob_ref.file_id)
    &&& value_at(files[blob_ref.file_id], blob_ref) matches Some(value) && hash_bytes(value)
        == hash
}

/// Whether every value in the index is found where the index says.
pub open spec fn index_reads(index: Map<Seq<u8>, BlobRef>, files: Map<u64, Seq<u8>>) -> bool {
    forall|hash: Seq<u8>| #[trigger]
        index.contains_key(hash) ==> finds(files, index[hash], hash)
}

/// What follows an entry does not change how it reads.
proof fn lemma_entry_extended(data: Seq<u8>, rest: Seq<u8>, length: u32)
    requires
        parse_entry(data, length) is Ok,
    ensures
        parse_entry(data + rest, length) == parse_entry(data, length),
{
    let more = data + rest;
    assert forall|a: int, b: int| 0 <= a <= b <= data.len() implies #[trigger] more.subrange(a, b)
        == data.subrange(a, b) by {
        assert(more.subrange(a, b) =~= data.subrange(a, b));
    }
    assert forall|n: int| 0 <= n <= data.len() implies #[trigger] more.take(n) == data.take(n) by {
        assert(more.take(n) =~= data.take(n));
    }
}

proof fn lemma_file_extended(contents: Seq<u8>, rest: Seq<u8>, blob_ref: BlobRef)
    requires
        value_at(contents, blob_ref) is Some,
    ensures
        value_at(contents + rest, blob_ref) == value_at(contents, blob_ref),
{
    let data = from_offset(contents, blob_ref.offset);
    if blob_ref.offset <= contents.len() {
        assert(from_offset(contents + rest, blob_ref.offset) =~= data + rest);
        lemma_entry_extended(data, rest, blob_ref.length);
    }
}

/// A value that a write finds stored already is read back: the index leads to a value
/// with its content hash.
pub proof fn lemma_stored_write_reads(state: BlobState, files: Map<u64, Seq<u8>>, value: Seq<u8>)
    requires
        index_reads(state.index, files),
        state.index.contains_key(hash_bytes(value)),
    ensures
        finds(files, state.index[hash_bytes(value)], hash_bytes(value)),
        state.writing(value).index == state.index,
{
}

/// Appending the entry of a value keeps everything in the index readable, and the value
/// itself is read back.
pub proof fn lemma_append_reads(
    state: BlobState,
    files: Map<u64, Seq<u8>>,
    value: Seq<u8>,
    pending: PendingBlob,
)
    requires
        index_reads(state.index, files),
        state.offsets.len() > 0,
        value.len() <= u32::MAX,
        pending.hash@ == hash_bytes(value),
        pending.blob_ref == state.place_for(value),
        pending.entry@ == entry_bytes(value),
        files.contains_key(pending.blob_ref.file_id),
        files[pending.blob_ref.file_id].len() == pending.blob_ref.offset,
    ensures
        ({
            let id = pending.blob_ref.file_id;
            let after = files.insert(id, files[id] + pending.entry@);
            &&& index_reads(state.written(pending).index, after)
            &&& value_at(after[id], pending.blob_ref) == Some(value)
        }),
{
    let id = pending.blob_ref.file_id;
    let file = files[id];
    let longer = file + pending.entry@;
    let after = files.insert(id, longer);
    assert(from_offset(longer, pending.blob_ref.offset) =~= pending.entry@ + Seq::<u8>::empty());
    lemma_entry_round_trip(value, Seq::<u8>::empty());
    let index = state.written(pending).index;
    assert forall|hash: Seq<u8>| #[trigger] index.contains_key(hash) implies finds(
        after,
        index[hash],
        hash,
    ) by {
        if hash != pending.hash@ {
            assert(state.index.contains_key(hash));
            let blob_ref = state.index[hash];
            assert(finds(files, blob_ref, hash));
            if blob_ref.file_id == id {
                lemma_file_extended(file, pending.entry@, blob_ref);
            }
        }
    }
}

/// Deleting a file whose values left the index keeps everything in the index readable.
pub proof fn lemma_delete_reads(
    index: Map<Seq<u8>, BlobRef>,
    files: Map<u64, Seq<u8>>,
    file_id: u64,
)
    requires
        index_reads(index, files),
    ensures
        index_reads(index_without(index, file_id), files.remove(file_id)),
{
    let kept = index_without(index, file_id);
    assert forall|hash: Seq<u8>| #[trigger] kept.contains_key(hash) implies finds(
        files.remove(file_id),
        kept[hash],
        hash,
    ) by {
        assert(index.contains_key(hash));
    }
}

/// Every value that a rewrite moves reads the same in the new file.
proof fn lemma_moved_values(
    uses: Seq<(BlobRef, u64)>,
    file_id: u64,
    contents: Seq<u8>,
    new_id: u64,
    before: Seq<u8>,
    k: int,
)
    requires
        before.len() + rewritten(uses, file_id, contents, new_id, before.len()).1.len()
            <= u64::MAX,
        0 <= k < rewritten(uses, file_id, contents, new_id, before.len()).0.len(),
    ensures
        ({
            let (moved, bytes) = rewritten(uses, file_id, contents, new_id, before.len());
            &&& moved[k].to.file_id == new_id
            &&& value_at(before + bytes, moved[k].to) matches Some(value) && hash_bytes(value)
                == moved[k].hash
        }),
    decreases uses.len(),
{
    let start = before.len();
    let front = uses.drop_last();
    let (fewer, prefix) = rewritten(front, file_id, contents, new_id, start);
    let (moved, bytes) = rewritten(uses, file_id, contents, new_id, start);
    let from = uses.last().0;
    if value_at(contents, from) is Some && in_use(uses.last(), file_id) {
        let value = value_at(contents, from)->0;
        lemma_value_len(contents, from);
        lemma_entry_len(value);
        if k < fewer.len() {
            lemma_moved_values(front, file_id, contents, new_id, before, k);
            assert(moved[k] == fewer[k]);
            assert((before + prefix) + entry_bytes(value) =~= before + bytes);
            lemma_file_extended(before + prefix, entry_bytes(value), moved[k].to);
        } else {
            lemma_entry_round_trip(value, Seq::<u8>::empty());
            assert(from_offset(before + bytes, moved[k].to.offset) =~= entry_bytes(value) + Seq::<
                u8,
            >::empty());
        }
    } else {
        lemma_moved_values(front, file_id, contents, new_id, before, k);
    }
}

proof fn lemma_index_moved_reads(
    index: Map<Seq<u8>, BlobRef>,
    moved: Seq<MoveView>,
    files: Map<u64, Seq<u8>>,
)
    requires
        index_reads(index, files),
        forall|k: int|
            0 <= k < moved.len() ==> finds(files, (#[trigger] moved[k]).to, moved[k].hash),
    ensures
        index_reads(index_moved(index, moved), files),
    decreases moved.len(),
{
    if moved.len() > 0 {
        let front = moved.drop_last();
        assert forall|k: int| 0 <= k < front.len() implies finds(
            files,
            (#[trigger] front[k]).to,
            front[k].hash,
        ) by {
            assert(moved[k] == front[k]);
        }
        lemma_index_moved_reads(index, front, files);
        assert(moved[moved.len() - 1] == moved.last());
        let after = index_moved(index, moved);
        assert forall|hash: Seq<u8>| #[trigger] after.contains_key(hash) implies finds(
            files,
            after[hash],
            hash,
        ) by {
            if hash != moved.last().hash {
                assert(index_moved(index, front).contains_key(hash));
            }
        }
    }
}

/// Rewriting a file keeps everything in the index readable: what is in use is found in the
/// new file, and what is not leaves the index with the old one.
pub proof fn lemma_rewrite_reads(
    index: Map<Seq<u8>, BlobRef>,
    files: Map<u64, Seq<u8>>,
    uses: Seq<(BlobRef, u64)>,
    file_id: u64,
    contents: Seq<u8>,
    new_id: u64,
    before: Seq<u8>,
)
    requires
        index_reads(index, files),
        new_id != file_id,
        before == (if files.contains_key(new_id) {
            files[new_id]
        } else {
            Seq::<u8>::empty()
        }),
        before.len() + rewritten(uses, file_id, contents, new_id, before.len()).1.len()
            <= u64::MAX,
    ensures
        ({
            let (moved, bytes) = rewritten(uses, file_id, contents, new_id, before.len());
            index_reads(
                index_moved(index_without(index, file_id), moved),
                files.remove(file_id).insert(new_id, before + bytes),
            )
        }),
{
    let (moved, bytes) = rewritten(uses, file_id, contents, new_id, before.len());
    let kept = index_without(index, file_id);
    let after = files.remove(file_id).insert(new_id, before + bytes);
    lemma_delete_reads(index, files, file_id);
    assert forall|hash: Seq<u8>| #[trigger] kept.contains_key(hash) implies finds(
        after,
        kept[hash],
        hash,
    ) by {
        let blob_ref = kept[hash];
        assert(finds(files.remove(file_id), blob_ref, hash));
        if blob_ref.file_id == new_id {
            lemma_file_extended(before, bytes, blob_ref);
        }
    }
    assert forall|k: int| 0 <= k < moved.len() implies finds(
        after,
        (#[trigger] moved[k]).to,
        moved[k].hash,
    ) by {
        lemma_moved_values(uses, file_id, contents, new_id, before, k);
    }
    lemma_index_moved_reads(kept, moved, after);
}

/// The content hash of a value is the 128-bit hash of all of it.
pub proof fn lemma_hash_spells_content(value: Seq<u8>)
    ensures
        hash_bytes(value).len() == 16,
        le_value(hash_bytes(value)) == xxh3_128_of(value),
{
    lemma_byte_range_values();
    lemma_le_round_trip(xxh3_128_of(value) as nat, 16);
}

/// A use more counts one more, a use less one less, down to none, and no other value's uses
/// change.
pub proof fn lemma_uses_counted(live: Map<BlobRef, u64>, blob_ref: BlobRef, other: BlobRef)
    ensures
        ({
            let more = one_more_use(live, blob_ref);
            let less = one_less_use(live, blob_ref);
            &&& more.contains_key(blob_ref)
            &&& !live.contains_key(blob_ref) ==> more[blob_ref] == 1
            &&& live.contains_key(blob_ref) && live[blob_ref] < u64::MAX ==> more[blob_ref]
                == live[blob_ref] + 1
            &&& live.contains_key(blob_ref) && live[blob_ref] > 1 ==> less.contains_key(blob_ref)
                && less[blob_ref] == live[blob_ref] - 1
            &&& live.contains_key(blob_ref) && live[blob_ref] <= 1 ==> !less.contains_key(blob_ref)
            &&& other != blob_ref ==> {
                &&& more.contains_key(other) == live.contains_key(other)
                &&& less.contains_key(other) == live.contains_key(other)
                &&& live.contains_key(other) ==> more[other] == live[other] && less[other]
                    == live[other]
            }
        }),
{
}

/// Values that are not stored yet are given to the queues in turn, each behind what its
/// file holds.
pub proof fn lemma_queues_take_turns(state: BlobState, first: Seq<u8>, second: Seq<u8>)
    requires
        state.offsets.len() > 0,
        state.next_writer < u64::MAX,
        !state.index.contains_key(hash_bytes(first)),
        state.offsets.len() <= u64::MAX,
    ensures
        ({
            let a = state.place_for(first);
            let b = state.writing(first).place_for(second);
            let n = state.offsets.len() as int;
            &&& a.file_id < n
            &&& a.offset == state.offsets[a.file_id as int]
            &&& b.offset == state.offsets[b.file_id as int]
            &&& b.file_id == (if a.file_id + 1 == n {
                0
            } else {
                a.file_id + 1
            })
        }),
{
    let n = state.offsets.len() as int;
    let q = state.next_writer as int;
    vstd::arithmetic::div_mod::lemma_mod_bound(q, n);
    vstd::arithmetic::div_mod::lemma_fundamental_div_mod(q, n);
    if q % n + 1 == n {
        assert((q + 1) % n == 0) by {
            vstd::arithmetic::div_mod::lemma_mod_multiples_vanish(q / n, n, n);
            vstd::arithmetic::div_mod::lemma_mod_self_0(n);
            assert(q + 1 == n * (q / n) + n);
        }
    } else {
        assert((q + 1) % n == q % n + 1) by {
            vstd::arithmetic::div_mod::lemma_mod_multiples_vanish(q / n, q % n + 1, n);
            vstd::arithmetic::div_mod::lemma_small_mod((q % n + 1) as nat, n as nat);
            assert(q + 1 == n * (q / n) + (q % n + 1));
        }
    }
}

/// Dropping a file takes exactly its values out of the index.
pub proof fn lemma_only_its_values_dropped(
    index: Map<Seq<u8>, BlobRef>,
    file_id: u64,
    hash: Seq<u8>,
)
    ensures
        ({
            let kept = index_without(index, file_id);
            &&& index.contains_key(hash) && index[hash].file_id != file_id ==> kept.contains_key(
                hash,
            ) && kept[hash] == index[hash]
            &&& kept.contains_key(hash) ==> index.contains_key(hash) && index[hash].file_id
                != file_id
        }),
{
}

/// What is in use of a file is the sum over its values in use of the lengths of their
/// entries; values of other files, and values without a use, count for nothing.
pub proof fn lemma_use_adds_up(
    a: Seq<(BlobRef, u64)>,
    b: Seq<(BlobRef, u64)>,
    file_id: u64,
    value: Seq<u8>,
)
    ensures
        bytes_in_use(a + b, file_id) == bytes_in_use(a, file_id) + bytes_in_use(b, file_id),
        entries_in_use(a + b, file_id) == entries_in_use(a, file_id) + entries_in_use(b, file_id),
        b.len() == 1 && (b[0].0.file_id != file_id || b[0].1 == 0) ==> bytes_in_use(b, file_id)
            == 0 && entries_in_use(b, file_id) == 0,
        b.len() == 1 && b[0].0.file_id == file_id && b[0].1 > 0 && b[0].0.length == value.len()
            ==> bytes_in_use(b, file_id) == entry_bytes(value).len() && entries_in_use(b, file_id)
            == 1,
    decreases b.len(),
{
    if b.len() == 0 {
        assert(a + b =~= a);
    } else {
        assert((a + b).drop_last() =~= a + b.drop_last());
        assert((a + b).last() == b.last());
        lemma_use_adds_up(a, b.drop_last(), file_id, value);
        if b.len() == 1 {
            assert(b.drop_last() =~= Seq::<(BlobRef, u64)>::empty());
            assert(bytes_in_use(b.drop_last(), file_id) == 0);
            assert(entries_in_use(b.drop_last(), file_id) == 0);
            lemma_entry_len(value);
        }
    }
}

/// A rewrite moves only values of the file that are in use and can be read.
pub proof fn lemma_only_used_values_move(
    uses: Seq<(BlobRef, u64)>,
    file_id: u64,
    contents: Seq<u8>,
    new_id: u64,
    start: nat,
    k: int,
)
    requires
        0 <= k < rewritten(uses, file_id, contents, new_id, start).0.len(),
    ensures
        exists|i: int|
            {
                &&& 0 <= i < uses.len()
                &&& (#[trigger] uses[i]).0 == rewritten(
                    uses,
                    file_id,
                    contents,
                    new_id,
                    start,
                ).0[k].from
                &&& uses[i].0.file_id == file_id
                &&& uses[i].1 > 0
                &&& value_at(contents, uses[i].0) is Some
            },
    decreases uses.len(),
{
    let front = uses.drop_last();
    let fewer = rewritten(front, file_id, contents, new_id, start).0;
    let moved = rewritten(uses, file_id, contents, new_id, start).0;
    if k < fewer.len() {
        lemma_only_used_values_move(front, file_id, contents, new_id, start, k);
        assert(moved[k] == fewer[k]);
        let i = choose|i: int|
            {
                &&& 0 <= i < front.len()
                &&& (#[trigger] front[i]).0 == fewer[k].from
                &&& front[i].0.file_id == file_id
                &&& front[i].1 > 0
                &&& value_at(contents, front[i].0) is Some
            };
        assert(uses[i] == front[i]);
    } else {
        assert(uses[uses.len() - 1].0 == moved[k].from);
    }
}

/// The use of a file: its bytes and values in use, its length, and as many values as the
/// length has room for at the size of those in use, rounded down.
pub proof fn lemma_file_use(uses: Seq<(BlobRef, u64)>, file: BlobFile)
    requires
        bytes_in_use(uses, file.file_id) <= u64::MAX,
        entries_in_use(uses, file.file_id) <= u64::MAX,
    ensures
        ({
            let stats = stats_of(uses, file);
            let live = entries_in_use(uses, file.file_id) as int;
            let size = bytes_in_use(uses, file.file_id) as int / live;
            &&& stats.file_id == file.file_id
            &&& stats.total_bytes == file.total_bytes
            &&& stats.live_bytes == bytes_in_use(uses, file.file_id)
            &&& stats.live_count == live
            &&& live > 0 && size > 0 ==> stats.total_count * size <= file.total_bytes
                < stats.total_count * size + size
            &&& live == 0 ==> stats.total_count * GUESSED_ENTRY_SIZE <= file.total_bytes
                < stats.total_count * GUESSED_ENTRY_SIZE + GUESSED_ENTRY_SIZE
        }),
{
    let live = entries_in_use(uses, file.file_id) as int;
    let size = bytes_in_use(uses, file.file_id) as int / live;
    let total = file.total_bytes as int;
    if live > 0 && size > 0 {
        vstd::arithmetic::div_mod::lemma_fundamental_div_mod(total, size);
        vstd::arithmetic::div_mod::lemma_mod_bound(total, size);
        vstd::arithmetic::mul::lemma_mul_is_commutative(size, total / size);
        let bytes = bytes_in_use(uses, file.file_id) as int;
        assert(size <= bytes) by (nonlinear_arith)
            requires
                size == bytes / live,
                live > 0,
                bytes >= 0,
        ;
        assert(total / size <= total) by (nonlinear_arith)
            requires
                size > 0,
                total >= 0,
        ;
    }
}

/// An entry takes its place in the file of its queue: the next one goes right behind it, and
/// the files of other queues stay as they are.
pub proof fn lemma_next_goes_behind(
    state: BlobState,
    pending: PendingBlob,
    value: Seq<u8>,
    other: int,
)
    requires
        pending.queue < state.offsets.len(),
        pending.entry@ == entry_bytes(value),
        state.offsets[pending.queue as int] + entry_bytes(value).len() <= u64::MAX,
        0 <= other < state.offsets.len(),
        other != pending.queue,
    ensures
        ({
            let after = state.written(pending);
            let queue = pending.queue as int;
            &&& after.offsets.len() == state.offsets.len()
            &&& after.offsets[queue] == state.offsets[queue] + 26 + value.len() + 8
            &&& after.offsets[other] == state.offsets[other]
            &&& after.next_writer == state.next_writer
            &&& after.index.contains_key(pending.hash@)
            &&& after.index[pending.hash@] == pending.blob_ref
        }),
{
    lemma_entry_len(value);
}

/// A value that has moved to another file has no use left in the old one.
pub proof fn lemma_old_places_unused(
    live: Map<BlobRef, u64>,
    moved: Seq<MoveView>,
    file_id: u64,
    k: int,
)
    requires
        0 <= k < moved.len(),
        moved[k].from.file_id == file_id,
        forall|i: int| 0 <= i < moved.len() ==> (#[trigger] moved[i]).to.file_id != file_id,
    ensures
        !uses_moved(live, moved).contains_key(moved[k].from),
    decreases moved.len(),
{
    let front = moved.drop_last();
    assert(moved[moved.len() - 1] == moved.last());
    if k < front.len() {
        assert(front[k] == moved[k]);
        assert forall|i: int| 0 <= i < front.len() implies (#[trigger] front[i]).to.file_id
            != file_id by {
            assert(front[i] == moved[i]);
        }
        lemma_old_places_unused(live, front, file_id, k);
    }
}

/// A file has values in use exactly if some are counted.
pub proof fn lemma_some_in_use(uses: Seq<(BlobRef, u64)>, file_id: u64)
    ensures
        some_in_use(uses, file_id) <==> entries_in_use(uses, file_id) > 0,
    decreases uses.len(),
{
    if uses.len() > 0 {
        let front = uses.drop_last();
        lemma_some_in_use(front, file_id);
        assert(uses[uses.len() - 1] == uses.last());
        if some_in_use(front, file_id) {
            let i = choose|i: int| 0 <= i < front.len() && in_use(#[trigger] front[i], file_id);
            assert(uses[i] == front[i]);
        }
        if some_in_use(uses, file_id) && !in_use(uses.last(), file_id) {
            let i = choose|i: int| 0 <= i < uses.len() && in_use(#[trigger] uses[i], file_id);
            assert(front[i] == uses[i]);
        }
    }
}

} // verus!
