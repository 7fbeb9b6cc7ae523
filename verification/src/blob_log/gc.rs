//! Garbage collection of blob files: which files hold too little that is in use, and
//! what moves to a new file.

use vstd::prelude::*;
use vstd::slice::slice_subrange;

use crate::assoc::{as_map, keys_once, lemma_listed, lists_key, place_of, AssocList};
use crate::blob_log::entry::{
    decode_entry, encode_entry, entry_bytes, lemma_entry_len, lemma_entry_round_trip, parse_entry,
    parse_fields, BLOB_ENTRY_FOOTER_SIZE, BLOB_ENTRY_HEADER_SIZE,
};
use crate::blob_log::{content_hash, hash_bytes, BlobRef, CONTENT_HASH_SIZE};
use crate::bytes::put_bytes;
use crate::error::GalaxError;
use crate::flush::counted_up;

verus! {

/// Length that an entry is taken to have in a file without values in use.
pub const GUESSED_ENTRY_SIZE: u64 = 2082;

/// Use of a blob file.
#[derive(Clone, Copy, PartialEq, Eq, Structural, Debug)]
pub struct BlobFileStats {
    /// Bytes of the entries in use.
    pub live_bytes: u64,
    /// Bytes of the file.
    pub total_bytes: u64,
    /// Number of entries in use.
    pub live_count: u64,
    /// Number of entries, estimated from the length of those in use.
    pub total_count: u64,
    /// Id of the file.
    pub file_id: u64,
}

impl BlobFileStats {
    /// Whether more than half of the file is not in use.
    pub fn needs_gc(&self) -> (needed: bool)
        ensures
            needed == (2 * self.live_bytes < self.total_bytes),
    {
        (self.live_bytes as u128) * 2 < self.total_bytes as u128
    }
}

/// A blob file and its length.
#[derive(Clone, Copy, PartialEq, Eq, Structural, Debug)]
pub struct BlobFile {
    /// Id of the file.
    pub file_id: u64,
    /// Length of the file.
    pub total_bytes: u64,
}

/// Whether a value is in a file and in use.
pub open spec fn in_use(item: (BlobRef, u64), file_id: u64) -> bool {
    item.0.file_id == file_id && item.1 > 0
}

/// Bytes of the entries of a file that are in use.
pub open spec fn bytes_in_use(uses: Seq<(BlobRef, u64)>, file_id: u64) -> nat
    decreases uses.len(),
{
    if uses.len() == 0 {
        0
    } else {
        let before = bytes_in_use(uses.drop_last(), file_id);
        if in_use(uses.last(), file_id) {
            before + BLOB_ENTRY_HEADER_SIZE as nat + uses.last().0.length as nat
                + BLOB_ENTRY_FOOTER_SIZE as nat
        } else {
            before
        }
    }
}

/// Number of entries of a file that are in use.
pub open spec fn entries_in_use(uses: Seq<(BlobRef, u64)>, file_id: u64) -> nat
    decreases uses.len(),
{
    if uses.len() == 0 {
        0
    } else {
        entries_in_use(uses.drop_last(), file_id) + if in_use(uses.last(), file_id) {
            1nat
        } else {
            0nat
        }
    }
}

/// Use of a file.
pub open spec fn stats_of(uses: Seq<(BlobRef, u64)>, file: BlobFile) -> BlobFileStats {
    let live_bytes = counted_up(bytes_in_use(uses, file.file_id));
    let live_count = entries_in_use(uses, file.file_id) as u64;
    let entry_size = if live_count > 0 {
        live_bytes / live_count
    } else {
        GUESSED_ENTRY_SIZE
    };
    BlobFileStats {
        live_bytes,
        total_bytes: file.total_bytes,
        live_count,
        total_count: if entry_size > 0 {
            file.total_bytes / entry_size
        } else {
            0
        },
        file_id: file.file_id,
    }
}

proof fn lemma_entries_bound(uses: Seq<(BlobRef, u64)>, file_id: u64)
    ensures
        entries_in_use(uses, file_id) <= uses.len(),
    decreases uses.len(),
{
    if uses.len() > 0 {
        lemma_entries_bound(uses.drop_last(), file_id);
    }
}

/// Use of a file.
pub fn file_stats(live: &AssocList<BlobRef, u64>, file: &BlobFile) -> (stats: BlobFileStats)
    requires
        live.wf(),
    ensures
        stats == stats_of(live.listed(), *file),
{
    let n: usize = live.len();
    let ghost uses = live.listed();
    let mut live_bytes: u64 = 0;
    let mut live_count: u64 = 0;
    let mut i: usize = 0;
    while i < n
        invariant
            i <= n,
            n == uses.len(),
            uses == live.listed(),
            live_bytes == counted_up(bytes_in_use(uses.take(i as int), file.file_id)),
            live_count == entries_in_use(uses.take(i as int), file.file_id),
            live_count <= i,
        decreases n - i,
    {
        let (blob_ref, count) = live.item(i);
        proof {
            assert(uses.take(i + 1).drop_last() =~= uses.take(i as int));
            lemma_entries_bound(uses.take(i + 1), file.file_id);
        }
        if blob_ref.file_id == file.file_id && count > 0 {
            let size: u64 = BLOB_ENTRY_HEADER_SIZE as u64 + blob_ref.length as u64
                + BLOB_ENTRY_FOOTER_SIZE as u64;
            live_bytes = live_bytes.saturating_add(size);
            live_count = live_count + 1;
        }
        i = i + 1;
    }
    assert(uses.take(i as int) =~= uses);
    let entry_size: u64 = if live_count > 0 {
        live_bytes / live_count
    } else {
        GUESSED_ENTRY_SIZE
    };
    let total_count: u64 = if entry_size > 0 {
        file.total_bytes / entry_size
    } else {
        0
    };
    BlobFileStats {
        live_bytes,
        total_bytes: file.total_bytes,
        live_count,
        total_count,
        file_id: file.file_id,
    }
}

/// A value that moved to a new file.
#[derive(Clone, Copy)]
pub struct MovedBlob {
    /// Content hash of the value.
    pub hash: [u8; CONTENT_HASH_SIZE],
    /// Where it was.
    pub from: BlobRef,
    /// Where it is now.
    pub to: BlobRef,
}

/// What moved.
#[verifier::ext_equal]
pub ghost struct MoveView {
    pub hash: Seq<u8>,
    pub from: BlobRef,
    pub to: BlobRef,
}

impl View for MovedBlob {
    type V = MoveView;

    open spec fn view(&self) -> MoveView {
        MoveView { hash: self.hash@, from: self.from, to: self.to }
    }
}

/// What moved.
pub open spec fn move_views(moved: Seq<MovedBlob>) -> Seq<MoveView> {
    Seq::new(moved.len(), |i: int| moved[i]@)
}

/// The bytes of a file from an offset on; none behind its end.
pub open spec fn from_offset(contents: Seq<u8>, offset: u64) -> Seq<u8> {
    if offset > contents.len() {
        Seq::empty()
    } else {
        contents.skip(offset as int)
    }
}

/// The value that a reference finds in a file.
pub open spec fn value_at(contents: Seq<u8>, blob_ref: BlobRef) -> Option<Seq<u8>> {
    match parse_entry(from_offset(contents, blob_ref.offset), blob_ref.length) {
        Ok(value) => Some(value),
        Err(_) => None,
    }
}

/// The new file of the values in use that can be read, and where each went: its entries
/// follow `start` bytes that are there already.
pub open spec fn rewritten(
    uses: Seq<(BlobRef, u64)>,
    file_id: u64,
    contents: Seq<u8>,
    new_id: u64,
    start: nat,
) -> (Seq<MoveView>, Seq<u8>)
    decreases uses.len(),
{
    if uses.len() == 0 {
        (Seq::empty(), Seq::empty())
    } else {
        let (moved, bytes) = rewritten(uses.drop_last(), file_id, contents, new_id, start);
        let from = uses.last().0;
        match value_at(contents, from) {
            Some(value) => if in_use(uses.last(), file_id) {
                let to = BlobRef {
                    file_id: new_id,
                    offset: (start + bytes.len()) as u64,
                    length: value.len() as u32,
                };
                (
                    moved.push(MoveView { hash: hash_bytes(value), from, to }),
                    bytes + entry_bytes(value),
                )
            } else {
                (moved, bytes)
            },
            None => (moved, bytes),
        }
    }
}

/// A value that can be read has the length of its reference.
pub proof fn lemma_value_len(contents: Seq<u8>, blob_ref: BlobRef)
    ensures
        value_at(contents, blob_ref) matches Some(value) ==> value.len() == blob_ref.length,
{
    let data = from_offset(contents, blob_ref.offset);
    match parse_entry(data, blob_ref.length) {
        Ok(value) => {
            assert(parse_fields(data, 4, blob_ref.length) == Ok::<Seq<u8>, GalaxError>(value)
                || parse_fields(data, 6, blob_ref.length) == Ok::<Seq<u8>, GalaxError>(value));
        },
        Err(_) => {},
    }
}

/// Whether a value of a file moved to a new file, in which the same value is read.
pub open spec fn moved_to(
    moved: Seq<MoveView>,
    new_contents: Seq<u8>,
    contents: Seq<u8>,
    from: BlobRef,
    new_id: u64,
) -> bool {
    exists|k: int|
        {
            &&& 0 <= k < moved.len()
            &&& (#[trigger] moved[k]).from == from
            &&& moved[k].to.file_id == new_id
            &&& value_at(contents, from) is Some
            &&& moved[k].hash == hash_bytes(value_at(contents, from)->0)
            &&& value_at(new_contents, moved[k].to) == value_at(contents, from)
        }
}

/// Garbage collection keeps every value in use that can be read: it moves, and where it
/// moved the same value is read.
pub proof fn lemma_moved_reads_back(
    uses: Seq<(BlobRef, u64)>,
    file_id: u64,
    contents: Seq<u8>,
    new_id: u64,
    before: Seq<u8>,
    i: int,
)
    requires
        0 <= i < uses.len(),
        in_use(uses[i], file_id),
        value_at(contents, uses[i].0) is Some,
        before.len() + rewritten(uses, file_id, contents, new_id, before.len()).1.len()
            <= u64::MAX,
    ensures
        moved_to(
            rewritten(uses, file_id, contents, new_id, before.len()).0,
            before + rewritten(uses, file_id, contents, new_id, before.len()).1,
            contents,
            uses[i].0,
            new_id,
        ),
    decreases uses.len(),
{
    let front = uses.drop_last();
    let start = before.len();
    let (moved, bytes) = rewritten(uses, file_id, contents, new_id, start);
    let (fewer, prefix) = rewritten(front, file_id, contents, new_id, start);
    let from = uses.last().0;
    lemma_value_len(contents, from);
    if i == uses.len() - 1 {
        let value = value_at(contents, from)->0;
        lemma_entry_len(value);
        let k = fewer.len() as int;
        let to = moved[k].to;
        assert(moved[k] == (MoveView { hash: hash_bytes(value), from, to }));
        assert(from_offset(before + bytes, to.offset) =~= entry_bytes(value)
            + Seq::<u8>::empty());
        lemma_entry_round_trip(value, Seq::empty());
        assert(value_at(before + bytes, to) == Some(value));
    } else {
        assert(front[i] == uses[i]);
        assert(prefix.len() <= bytes.len());
        lemma_moved_reads_back(front, file_id, contents, new_id, before, i);
        let k = choose|k: int|
            {
                &&& 0 <= k < fewer.len()
                &&& (#[trigger] fewer[k]).from == uses[i].0
                &&& fewer[k].to.file_id == new_id
                &&& value_at(contents, uses[i].0) is Some
                &&& fewer[k].hash == hash_bytes(value_at(contents, uses[i].0)->0)
                &&& value_at(before + prefix, fewer[k].to) == value_at(contents, uses[i].0)
            };
        assert(moved[k] == fewer[k]);
        lemma_value_behind(before + prefix, bytes.skip(prefix.len() as int), moved[k].to);
        assert(before + prefix + bytes.skip(prefix.len() as int) =~= before + bytes) by {
            if value_at(contents, from) is Some && in_use(uses.last(), file_id) {
                assert(bytes =~= prefix + entry_bytes(value_at(contents, from)->0));
            }
        }
    }
}

/// What is found in a file is still found when bytes are appended.
proof fn lemma_value_behind(contents: Seq<u8>, rest: Seq<u8>, blob_ref: BlobRef)
    requires
        value_at(contents, blob_ref) is Some,
    ensures
        value_at(contents + rest, blob_ref) == value_at(contents, blob_ref),
{
    let data = from_offset(contents, blob_ref.offset);
    let more = from_offset(contents + rest, blob_ref.offset);
    assert(more =~= data + rest);
    assert(data.len() >= 24);
    assert(more.subrange(0, 4) =~= data.subrange(0, 4));
    lemma_fields_behind(data, rest, 4, blob_ref.length);
    if data.len() >= 26 {
        assert(more.subrange(4, 6) =~= data.subrange(4, 6));
        lemma_fields_behind(data, rest, 6, blob_ref.length);
    }
}

proof fn lemma_fields_behind(data: Seq<u8>, rest: Seq<u8>, at: int, length: u32)
    requires
        0 <= at,
        at + 20 <= data.len(),
    ensures
        parse_fields(data, at, length) is Ok ==> parse_fields(data + rest, at, length)
            == parse_fields(data, at, length),
{
    if parse_fields(data, at, length) is Ok {
        let more = data + rest;
        let start = at + 20;
        let end = start + length;
        assert(more.subrange(at, at + 4) =~= data.subrange(at, at + 4));
        assert(more.subrange(end, end + 8) =~= data.subrange(end, end + 8));
        assert(more.take(end) =~= data.take(end));
        assert(more.subrange(start, end) =~= data.subrange(start, end));
        assert(more.subrange(at + 4, start) =~= data.subrange(at + 4, start));
    }
}

/// The content of a blob file that replaces another one.
pub struct RewrittenBlobs {
    /// Id of the new file.
    pub new_file_id: u64,
    /// Bytes to append to it.
    pub bytes: Vec<u8>,
    /// What moved.
    pub moved: Vec<MovedBlob>,
}

/// What there is to do about a file.
pub enum BlobGc {
    /// Nothing: enough of it is in use, or its new file would be too long.
    Keep,
    /// Nothing in it is in use: delete it.
    Delete,
    /// Write a new file, then delete it.
    Rewrite(RewrittenBlobs),
}

/// Whether something in the file is in use.
pub open spec fn some_in_use(uses: Seq<(BlobRef, u64)>, file_id: u64) -> bool {
    exists|i: int| 0 <= i < uses.len() && in_use(#[trigger] uses[i], file_id)
}

/// Whether something in the file is in use.
pub fn has_live(live: &AssocList<BlobRef, u64>, file_id: u64) -> (result: bool)
    requires
        live.wf(),
    ensures
        result == some_in_use(live.listed(), file_id),
{
    let n: usize = live.len();
    let mut i: usize = 0;
    while i < n
        invariant
            i <= n,
            n == live.listed().len(),
            forall|k: int| 0 <= k < i ==> !in_use(#[trigger] live.listed()[k], file_id),
        decreases n - i,
    {
        let (blob_ref, count) = live.item(i);
        if blob_ref.file_id == file_id && count > 0 {
            assert(in_use(live.listed()[i as int], file_id));
            return true;
        }
        i = i + 1;
    }
    false
}

/// The new file of the values in use that can be read; `None` if it would become longer
/// than a file can be.
pub fn rewrite_live(
    live: &AssocList<BlobRef, u64>,
    file_id: u64,
    contents: &[u8],
    new_file_id: u64,
    start: u64,
) -> (result: Option<RewrittenBlobs>)
    requires
        live.wf(),
    ensures
        match result {
            Some(made) => {
                &&& made.new_file_id == new_file_id
                &&& (move_views(made.moved@), made.bytes@) == rewritten(
                    live.listed(),
                    file_id,
                    contents@,
                    new_file_id,
                    start as nat,
                )
                &&& start + made.bytes@.len() <= u64::MAX
            },
            None => start + rewritten(
                live.listed(),
                file_id,
                contents@,
                new_file_id,
                start as nat,
            ).1.len() > u64::MAX,
        },
{
    let n: usize = live.len();
    let ghost uses = live.listed();
    let mut bytes: Vec<u8> = Vec::new();
    let mut moved: Vec<MovedBlob> = Vec::new();
    assert(move_views(moved@) =~= Seq::<MoveView>::empty());
    let mut i: usize = 0;
    while i < n
        invariant
            i <= n,
            n == uses.len(),
            uses == live.listed(),
            (move_views(moved@), bytes@) == rewritten(
                uses.take(i as int),
                file_id,
                contents@,
                new_file_id,
                start as nat,
            ),
            start + bytes@.len() <= u64::MAX,
        decreases n - i,
    {
        let (blob_ref, count) = live.item(i);
        let ghost so_far = move_views(moved@);
        proof {
            assert(uses.take(i + 1).drop_last() =~= uses.take(i as int));
            assert(uses.take(i + 1).last() == (blob_ref, count));
            lemma_rewritten_grows(
                uses,
                (i + 1) as int,
                file_id,
                contents@,
                new_file_id,
                start as nat,
            );
        }
        if blob_ref.file_id == file_id && count > 0 {
            let from: usize = if blob_ref.offset > contents.len() as u64 {
                contents.len()
            } else {
                blob_ref.offset as usize
            };
            let data = slice_subrange(contents, from, contents.len());
            assert(data@ =~= from_offset(contents@, blob_ref.offset));
            if let Ok(value) = decode_entry(data, &blob_ref) {
                let hash = content_hash(value.as_slice());
                let entry = encode_entry(value.as_slice());
                let offset: u64 = start + bytes.len() as u64;
                if entry.len() as u64 > u64::MAX - offset {
                    return None;
                }
                let to = BlobRef {
                    file_id: new_file_id,
                    offset,
                    length: #[verifier::truncate] (value.len() as u32),
                };
                put_bytes(&mut bytes, entry.as_slice());
                let one = MovedBlob { hash, from: blob_ref, to };
                moved.push(one);
                proof {
                    assert(value_at(contents@, blob_ref) == Some(value@));
                    assert(move_views(moved@) =~= so_far.push(one@));
                }
            } else {
                assert(value_at(contents@, blob_ref) is None);
            }
        }
        i = i + 1;
    }
    assert(uses.take(i as int) =~= uses);
    Some(RewrittenBlobs { new_file_id, bytes, moved })
}

proof fn lemma_rewritten_grows(
    uses: Seq<(BlobRef, u64)>,
    n: int,
    file_id: u64,
    contents: Seq<u8>,
    new_id: u64,
    start: nat,
)
    requires
        0 <= n <= uses.len(),
    ensures
        rewritten(uses.take(n), file_id, contents, new_id, start).1.len() <= rewritten(
            uses,
            file_id,
            contents,
            new_id,
            start,
        ).1.len(),
    decreases uses.len() - n,
{
    if n == uses.len() {
        assert(uses.take(n) =~= uses);
    } else {
        lemma_rewritten_grows(uses, n + 1, file_id, contents, new_id, start);
        assert(uses.take(n + 1).drop_last() =~= uses.take(n));
    }
}

/// The index when values have moved.
pub open spec fn index_moved(index: Map<Seq<u8>, BlobRef>, moved: Seq<MoveView>) -> Map<
    Seq<u8>,
    BlobRef,
>
    decreases moved.len(),
{
    if moved.len() == 0 {
        index
    } else {
        index_moved(index, moved.drop_last()).insert(moved.last().hash, moved.last().to)
    }
}

/// The uses when values have moved: a value keeps its number of uses.
pub open spec fn uses_moved(live: Map<BlobRef, u64>, moved: Seq<MoveView>) -> Map<BlobRef, u64>
    decreases moved.len(),
{
    if moved.len() == 0 {
        live
    } else {
        let before = uses_moved(live, moved.drop_last());
        let from = moved.last().from;
        let count = if before.contains_key(from) {
            before[from]
        } else {
            1
        };
        before.remove(from).insert(moved.last().to, count)
    }
}

/// The index without the values of a file.
pub open spec fn index_without(index: Map<Seq<u8>, BlobRef>, file_id: u64) -> Map<Seq<u8>, BlobRef> {
    Map::new(
        |hash: Seq<u8>| index.contains_key(hash) && index[hash].file_id != file_id,
        |hash: Seq<u8>| index[hash],
    )
}

/// The index without the values of a file.
pub fn drop_file(
    index: &AssocList<[u8; CONTENT_HASH_SIZE], BlobRef>,
    file_id: u64,
) -> (kept: AssocList<[u8; CONTENT_HASH_SIZE], BlobRef>)
    requires
        index.wf(),
    ensures
        kept.wf(),
        kept@ == index_without(index@, file_id),
{
    let n: usize = index.len();
    let ghost items = index.listed();
    let mut kept: AssocList<[u8; CONTENT_HASH_SIZE], BlobRef> = AssocList::new();
    let mut i: usize = 0;
    assert(kept@ =~= index_without(as_map(items.take(0)), file_id));
    while i < n
        invariant
            i <= n,
            n == items.len(),
            items == index.listed(),
            keys_once(items),
            kept.wf(),
            kept@ == index_without(as_map(items.take(i as int)), file_id),
        decreases n - i,
    {
        let (hash, blob_ref) = index.item(i);
        let ghost front = items.take(i as int);
        let ghost more = items.take(i + 1);
        proof {
            lemma_take_once(items, i as int);
            assert(more =~= front.push((hash, blob_ref)));
            crate::assoc::lemma_list_more(front, hash, blob_ref);
        }
        if blob_ref.file_id != file_id {
            kept.list_more(hash, blob_ref);
        }
        proof {
            assert(kept@ =~= index_without(as_map(more), file_id));
        }
        i = i + 1;
    }
    assert(items.take(i as int) =~= items);
    kept
}

proof fn lemma_take_once<V>(items: Seq<([u8; CONTENT_HASH_SIZE], V)>, n: int)
    requires
        keys_once(items),
        0 <= n < items.len(),
    ensures
        keys_once(items.take(n)),
        !lists_key(items.take(n), items[n].0@),
{
    let front = items.take(n);
    assert forall|i: int, j: int|
        #![trigger front[i], front[j]]
        0 <= i < j < front.len() implies front[i].0@ != front[j].0@ by {
        assert(front[i] == items[i] && front[j] == items[j]);
    }
    if lists_key(front, items[n].0@) {
        let p = place_of(front, items[n].0@);
        assert(front[p] == items[p]);
        assert(items[p].0@ != items[n].0@);
    }
}

/// A value that moved is found by its content where it, or the same content, moved.
pub proof fn lemma_moved_found(index: Map<Seq<u8>, BlobRef>, moved: Seq<MoveView>, k: int)
    requires
        0 <= k < moved.len(),
    ensures
        index_moved(index, moved).contains_key(moved[k].hash),
        exists|j: int|
            k <= j < moved.len() && (#[trigger] moved[j]).hash == moved[k].hash && index_moved(
                index,
                moved,
            )[moved[k].hash] == moved[j].to,
    decreases moved.len(),
{
    let front = moved.drop_last();
    let last = moved.len() - 1;
    if moved[last].hash == moved[k].hash {
        assert(index_moved(index, moved)[moved[k].hash] == moved[last].to);
    } else {
        assert(front[k] == moved[k]);
        lemma_moved_found(index, front, k);
        let j = choose|j: int|
            k <= j < front.len() && (#[trigger] front[j]).hash == front[k].hash && index_moved(
                index,
                front,
            )[front[k].hash] == front[j].to;
        assert(moved[j] == front[j]);
    }
}

/// What a rewrite of a file moves: each value once, and to a place of its own.
proof fn lemma_rewritten_places(
    uses: Seq<(BlobRef, u64)>,
    file_id: u64,
    contents: Seq<u8>,
    new_id: u64,
    start: nat,
)
    requires
        keys_once(uses),
        start + rewritten(uses, file_id, contents, new_id, start).1.len() <= u64::MAX,
    ensures
        ({
            let (moved, bytes) = rewritten(uses, file_id, contents, new_id, start);
            &&& forall|k: int|
                0 <= k < moved.len() ==> {
                    &&& lists_key(uses, (#[trigger] moved[k]).from)
                    &&& moved[k].to.file_id == new_id
                    &&& moved[k].to.offset < start + bytes.len()
                }
            &&& forall|j: int, k: int|
                #![trigger moved[j], moved[k]]
                0 <= j < k < moved.len() ==> moved[j].from != moved[k].from
                    && moved[j].to.offset < moved[k].to.offset
        }),
    decreases uses.len(),
{
    if uses.len() > 0 {
        let front = uses.drop_last();
        let last = uses.last();
        assert(keys_once(front)) by {
            assert forall|i: int, j: int|
                #![trigger front[i], front[j]]
                0 <= i < j < front.len() implies front[i].0@ != front[j].0@ by {
                assert(front[i] == uses[i] && front[j] == uses[j]);
            }
        }
        let (fewer, prefix) = rewritten(front, file_id, contents, new_id, start);
        let (moved, bytes) = rewritten(uses, file_id, contents, new_id, start);
        lemma_value_len(contents, last.0);
        if value_at(contents, last.0) is Some {
            lemma_entry_len(value_at(contents, last.0)->0);
        }
        lemma_rewritten_places(front, file_id, contents, new_id, start);
        assert forall|k: int| 0 <= k < moved.len() implies {
            &&& lists_key(uses, (#[trigger] moved[k]).from)
            &&& moved[k].to.file_id == new_id
            &&& moved[k].to.offset < start + bytes.len()
        } by {
            if k < fewer.len() {
                assert(moved[k] == fewer[k]);
                let p = place_of(front, fewer[k].from);
                assert(uses[p] == front[p]);
            } else {
                assert(uses[uses.len() - 1] == last);
            }
        }
        assert forall|j: int, k: int|
            #![trigger moved[j], moved[k]]
            0 <= j < k < moved.len() implies moved[j].from != moved[k].from
            && moved[j].to.offset < moved[k].to.offset by {
            assert(moved[j] == fewer[j]);
            if k < fewer.len() {
                assert(moved[k] == fewer[k]);
            } else {
                let p = place_of(front, fewer[j].from);
                assert(uses[p] == front[p]);
                assert(uses[p].0@ != uses[uses.len() - 1].0@);
            }
        }
    }
}

proof fn lemma_uses_after(live: Map<BlobRef, u64>, moved: Seq<MoveView>, new_id: u64)
    requires
        forall|k: int|
            0 <= k < moved.len() ==> live.contains_key((#[trigger] moved[k]).from)
                && moved[k].from.file_id != new_id && moved[k].to.file_id == new_id,
        forall|j: int, k: int|
            #![trigger moved[j], moved[k]]
            0 <= j < k < moved.len() ==> moved[j].from != moved[k].from && moved[j].to
                != moved[k].to,
    ensures
        forall|k: int|
            0 <= k < moved.len() ==> uses_moved(live, moved).contains_key(
                (#[trigger] moved[k]).to,
            ) && uses_moved(live, moved)[moved[k].to] == live[moved[k].from],
        forall|r: BlobRef|
            r.file_id != new_id && (forall|k: int|
                0 <= k < moved.len() ==> (#[trigger] moved[k]).from != r) ==> (
            #[trigger] uses_moved(live, moved).contains_key(r) == live.contains_key(r)) && (
            live.contains_key(r) ==> uses_moved(live, moved)[r] == live[r]),
    decreases moved.len(),
{
    if moved.len() > 0 {
        let front = moved.drop_last();
        let last = moved.last();
        let before = uses_moved(live, front);
        let after = uses_moved(live, moved);
        assert forall|j: int, k: int|
            #![trigger front[j], front[k]]
            0 <= j < k < front.len() implies front[j].from != front[k].from && front[j].to
            != front[k].to by {
            assert(front[j] == moved[j] && front[k] == moved[k]);
        }
        assert forall|k: int| 0 <= k < front.len() implies live.contains_key(
            (#[trigger] front[k]).from,
        ) && front[k].from.file_id != new_id && front[k].to.file_id == new_id by {
            assert(front[k] == moved[k]);
        }
        lemma_uses_after(live, front, new_id);
        assert(moved[moved.len() - 1] == last);
        assert forall|k: int| 0 <= k < front.len() implies (#[trigger] front[k]).from
            != last.from by {
            assert(front[k] == moved[k]);
        }
        assert(before.contains_key(last.from) && before[last.from] == live[last.from]);
        assert forall|k: int| 0 <= k < moved.len() implies after.contains_key(
            (#[trigger] moved[k]).to,
        ) && after[moved[k].to] == live[moved[k].from] by {
            if k < front.len() {
                assert(front[k] == moved[k]);
                assert(moved[k].to != last.to);
            }
        }
        assert forall|r: BlobRef|
            r.file_id != new_id && (forall|k: int|
                0 <= k < moved.len() ==> (#[trigger] moved[k]).from != r) implies (
        #[trigger] after.contains_key(r) == live.contains_key(r)) && (live.contains_key(r)
            ==> after[r] == live[r]) by {
            assert forall|k: int| 0 <= k < front.len() implies (#[trigger] front[k]).from != r by {
                assert(front[k] == moved[k]);
            }
            assert(before.contains_key(r) == live.contains_key(r));
        }
    }
}

/// A value keeps its number of uses when it moves to a new file, and the uses of the
/// values of other files do not change.
pub proof fn lemma_uses_kept(
    uses: Seq<(BlobRef, u64)>,
    file_id: u64,
    contents: Seq<u8>,
    new_id: u64,
    start: nat,
    i: int,
)
    requires
        keys_once(uses),
        start + rewritten(uses, file_id, contents, new_id, start).1.len() <= u64::MAX,
        forall|k: int| 0 <= k < uses.len() ==> (#[trigger] uses[k]).0.file_id != new_id,
        0 <= i < uses.len(),
    ensures
        ({
            let moved = rewritten(uses, file_id, contents, new_id, start).0;
            let after = uses_moved(as_map(uses), moved);
            &&& uses[i].0.file_id != file_id ==> after.contains_key(uses[i].0)
                && after[uses[i].0] == uses[i].1
            &&& in_use(uses[i], file_id) && value_at(contents, uses[i].0) is Some ==> exists|k: int|
                #![trigger rewritten(uses, file_id, contents, new_id, start).0[k]]
                0 <= k < moved.len() && rewritten(uses, file_id, contents, new_id, start).0[k].from
                    == uses[i].0 && after.contains_key(
                    rewritten(uses, file_id, contents, new_id, start).0[k].to,
                ) && after[rewritten(uses, file_id, contents, new_id, start).0[k].to] == uses[i].1
        }),
{
    let moved = rewritten(uses, file_id, contents, new_id, start).0;
    let live = as_map(uses);
    lemma_rewritten_places(uses, file_id, contents, new_id, start);
    assert forall|k: int| 0 <= k < moved.len() implies live.contains_key((#[trigger] moved[k]).from)
        && moved[k].from.file_id != new_id && moved[k].to.file_id == new_id by {
        let p = place_of(uses, moved[k].from);
        assert(uses[p].0 == moved[k].from);
    }
    lemma_uses_after(live, moved, new_id);
    lemma_listed(uses, i);
    lemma_moved_from_file(uses, file_id, contents, new_id, start);
    if uses[i].0.file_id != file_id {
        assert(uses_moved(live, moved).contains_key(uses[i].0) == live.contains_key(uses[i].0));
    }
    if in_use(uses[i], file_id) && value_at(contents, uses[i].0) is Some {
        lemma_moved_somewhere(uses, file_id, contents, new_id, start, i);
        let k = choose|k: int|
            0 <= k < moved.len() && (#[trigger] moved[k]).from == uses[i].0;
        assert(rewritten(uses, file_id, contents, new_id, start).0[k] == moved[k]);
    }
}

proof fn lemma_moved_from_file(
    uses: Seq<(BlobRef, u64)>,
    file_id: u64,
    contents: Seq<u8>,
    new_id: u64,
    start: nat,
)
    ensures
        forall|k: int|
            0 <= k < rewritten(uses, file_id, contents, new_id, start).0.len() ==> (
            #[trigger] rewritten(uses, file_id, contents, new_id, start).0[k]).from.file_id
                == file_id,
    decreases uses.len(),
{
    if uses.len() > 0 {
        let front = uses.drop_last();
        lemma_moved_from_file(front, file_id, contents, new_id, start);
        let fewer = rewritten(front, file_id, contents, new_id, start).0;
        let moved = rewritten(uses, file_id, contents, new_id, start).0;
        assert forall|k: int| 0 <= k < moved.len() implies (#[trigger] moved[k]).from.file_id
            == file_id by {
            if k < fewer.len() {
                assert(moved[k] == fewer[k]);
            }
        }
    }
}

proof fn lemma_moved_somewhere(
    uses: Seq<(BlobRef, u64)>,
    file_id: u64,
    contents: Seq<u8>,
    new_id: u64,
    start: nat,
    i: int,
)
    requires
        0 <= i < uses.len(),
        in_use(uses[i], file_id),
        value_at(contents, uses[i].0) is Some,
    ensures
        exists|k: int|
            0 <= k < rewritten(uses, file_id, contents, new_id, start).0.len() && (
            #[trigger] rewritten(uses, file_id, contents, new_id, start).0[k]).from == uses[i].0,
    decreases uses.len(),
{
    let front = uses.drop_last();
    let fewer = rewritten(front, file_id, contents, new_id, start).0;
    let moved = rewritten(uses, file_id, contents, new_id, start).0;
    if i < front.len() {
        assert(front[i] == uses[i]);
        lemma_moved_somewhere(front, file_id, contents, new_id, start, i);
        let k = choose|k: int| 0 <= k < fewer.len() && (#[trigger] fewer[k]).from == uses[i].0;
        assert(moved[k] == fewer[k]);
    } else {
        assert(moved[fewer.len() as int].from == uses[i].0);
    }
}

} // verus!
