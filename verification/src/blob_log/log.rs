//! What the blob log knows: where each value is, which values are in use, and where the
//! next one goes.

use vstd::prelude::*;

use crate::assoc::{as_map, keys_once, AssocList, Key};
use crate::blob_log::entry::{encode_entry, entry_bytes, lemma_entry_round_trip, parse_entry};
use crate::blob_log::gc::{
    drop_file, file_stats, has_live, index_moved, index_without, move_views, rewrite_live,
    rewritten, some_in_use, stats_of, uses_moved, BlobFile, BlobFileStats, BlobGc, MoveView,
};
use crate::blob_log::{
    content_hash, decode_blob_ref, hash_bytes, parse_marker, should_separate, BlobRef,
    CONTENT_HASH_SIZE, DEFAULT_BLOB_THRESHOLD, DEFAULT_NUM_QUEUES,
};
use crate::bytes::bytes_equal;
use crate::error::GalaxError;
use crate::flush::counted_up;

verus! {

impl View for BlobRef {
    type V = BlobRef;

    open spec fn view(&self) -> BlobRef {
        *self
    }
}

impl Key for BlobRef {
    fn same(&self, other: &Self) -> (result: bool) {
        self.file_id == other.file_id && self.offset == other.offset && self.length
            == other.length
    }
}

impl Key for [u8; CONTENT_HASH_SIZE] {
    fn same(&self, other: &Self) -> (result: bool) {
        bytes_equal(self, other)
    }
}

/// What the blob log knows.
#[verifier::ext_equal]
pub ghost struct BlobState {
    /// Length of the file of each writer queue.
    pub offsets: Seq<u64>,
    /// Number of values that were given to a queue.
    pub next_writer: u64,
    /// Where the value with a content hash is.
    pub index: Map<Seq<u8>, BlobRef>,
    /// How many keys use a value.
    pub live: Map<BlobRef, u64>,
    /// Id of the next new file.
    pub next_file_id: u64,
    /// Length above which a value is stored apart.
    pub threshold: usize,
}

/// The number of uses, with one more, up to the greatest 64-bit number.
pub open spec fn one_more_use(live: Map<BlobRef, u64>, blob_ref: BlobRef) -> Map<BlobRef, u64> {
    live.insert(
        blob_ref,
        if live.contains_key(blob_ref) {
            counted_up((live[blob_ref] + 1) as nat)
        } else {
            1
        },
    )
}

/// The number of uses, with one less; a value without a use is forgotten.
pub open spec fn one_less_use(live: Map<BlobRef, u64>, blob_ref: BlobRef) -> Map<BlobRef, u64> {
    if !live.contains_key(blob_ref) {
        live
    } else if live[blob_ref] <= 1 {
        live.remove(blob_ref)
    } else {
        live.insert(blob_ref, (live[blob_ref] - 1) as u64)
    }
}

impl BlobState {
    /// Where a value goes that is not stored yet.
    pub open spec fn place_for(self, value: Seq<u8>) -> BlobRef {
        let queue = self.next_writer as int % self.offsets.len() as int;
        BlobRef { file_id: queue as u64, offset: self.offsets[queue], length: value.len() as u32 }
    }

    /// The state when a value is to be written: one that is stored already has one more
    /// use, another one is given to the next queue.
    pub open spec fn writing(self, value: Seq<u8>) -> BlobState {
        let hash = hash_bytes(value);
        if self.index.contains_key(hash) {
            BlobState { live: one_more_use(self.live, self.index[hash]), ..self }
        } else {
            BlobState {
                next_writer: if self.next_writer == u64::MAX {
                    0
                } else {
                    (self.next_writer + 1) as u64
                },
                ..self
            }
        }
    }

    /// The state when an entry has been appended to the file of a queue.
    pub open spec fn written(self, pending: PendingBlob) -> BlobState {
        let queue = pending.queue as int;
        BlobState {
            offsets: self.offsets.update(
                queue,
                (self.offsets[queue] + pending.entry@.len()) as u64,
            ),
            index: self.index.insert(pending.hash@, pending.blob_ref),
            live: one_more_use(self.live, pending.blob_ref),
            ..self
        }
    }
}

/// An entry to append to the file of a queue.
pub struct PendingBlob {
    /// Content hash of the value.
    pub hash: [u8; CONTENT_HASH_SIZE],
    /// The queue.
    pub queue: usize,
    /// Where the entry will be.
    pub blob_ref: BlobRef,
    /// The entry.
    pub entry: Vec<u8>,
}

/// What there is to do for a value.
pub enum BlobWrite {
    /// Nothing: the value is stored already.
    Stored {
        /// Content hash of the value.
        hash: [u8; CONTENT_HASH_SIZE],
        /// Where it is.
        blob_ref: BlobRef,
    },
    /// Append an entry.
    Append(PendingBlob),
}

/// Where a value is to be read.
pub enum BlobRead {
    /// It stands where it was looked up.
    Inline,
    /// It is in the blob log.
    Stored(BlobRef),
}

/// A value that was written is read back from the file of its queue.
pub proof fn lemma_write_then_read(
    state: BlobState,
    value: Seq<u8>,
    file: Seq<u8>,
    rest: Seq<u8>,
)
    requires
        value.len() <= u32::MAX,
        state.offsets.len() > 0,
        file.len() == state.place_for(value).offset,
    ensures
        parse_entry(
            (file + entry_bytes(value) + rest).skip(state.place_for(value).offset as int),
            state.place_for(value).length,
        ) == Ok::<Seq<u8>, GalaxError>(value),
{
    let offset = state.place_for(value).offset as int;
    assert((file + entry_bytes(value) + rest).skip(offset) =~= entry_bytes(value) + rest);
    lemma_entry_round_trip(value, rest);
}

/// A value that is written again is found where it was written first.
pub proof fn lemma_second_write_finds_first(state: BlobState, value: Seq<u8>, pending: PendingBlob)
    requires
        pending.hash@ == hash_bytes(value),
    ensures
        state.written(pending).index.contains_key(hash_bytes(value)),
        state.written(pending).index[hash_bytes(value)] == pending.blob_ref,
        state.written(pending).writing(value).index == state.written(pending).index,
        state.written(pending).writing(value).offsets == state.written(pending).offsets,
{
}

/// A use more and a use less leave the uses as they were.
pub proof fn lemma_use_and_release(live: Map<BlobRef, u64>, blob_ref: BlobRef)
    requires
        live.contains_key(blob_ref) ==> 0 < live[blob_ref] < u64::MAX,
    ensures
        one_less_use(one_more_use(live, blob_ref), blob_ref) == live,
{
    assert(one_less_use(one_more_use(live, blob_ref), blob_ref) =~= live);
}

/// The blob log.
pub struct BlobLog {
    offsets: Vec<u64>,
    next_writer: u64,
    index: AssocList<[u8; CONTENT_HASH_SIZE], BlobRef>,
    live: AssocList<BlobRef, u64>,
    next_file_id: u64,
    threshold: usize,
}

impl View for BlobLog {
    type V = BlobState;

    closed spec fn view(&self) -> BlobState {
        BlobState {
            offsets: self.offsets@,
            next_writer: self.next_writer,
            index: self.index@,
            live: self.live@,
            next_file_id: self.next_file_id,
            threshold: self.threshold,
        }
    }
}

impl BlobLog {
    /// There is a queue, and nothing is listed twice.
    pub closed spec fn wf(&self) -> bool {
        &&& self.offsets@.len() > 0
        &&& self.index.wf()
        &&& self.live.wf()
    }

    /// The values in use, in the order in which they came into use.
    pub closed spec fn uses(&self) -> Seq<(BlobRef, u64)> {
        self.live.listed()
    }

    /// The list of values in use stands for the map of uses.
    pub proof fn lemma_uses(&self)
        requires
            self.wf(),
        ensures
            keys_once(self.uses()),
            self@.live == as_map(self.uses()),
            self@.offsets.len() > 0,
    {
    }

    /// An empty blob log with this many writer queues, four if none is asked for. The
    /// files of the queues are numbered from 0, and are empty.
    pub fn new(num_queues: usize, threshold: usize) -> (log: Self)
        ensures
            log.wf(),
            log.uses() == Seq::<(BlobRef, u64)>::empty(),
            log@ == ({
                let queues = if num_queues == 0 {
                    DEFAULT_NUM_QUEUES
                } else {
                    num_queues
                };
                BlobState {
                    offsets: Seq::new(queues as nat, |i: int| 0u64),
                    next_writer: 0,
                    index: Map::empty(),
                    live: Map::empty(),
                    next_file_id: queues as u64,
                    threshold,
                }
            }),
    {
        let queues: usize = if num_queues == 0 {
            DEFAULT_NUM_QUEUES
        } else {
            num_queues
        };
        let offsets: Vec<u64> = vec![0u64; queues];
        let log = BlobLog {
            offsets,
            next_writer: 0,
            index: AssocList::new(),
            live: AssocList::new(),
            next_file_id: queues as u64,
            threshold,
        };
        assert(log@.offsets =~= Seq::new(queues as nat, |i: int| 0u64));
        log
    }

    /// An empty blob log with four queues for values over 1 KB.
    pub fn with_defaults() -> (log: Self)
        ensures
            log.wf(),
            log.uses() == Seq::<(BlobRef, u64)>::empty(),
            log@ == (BlobState {
                offsets: Seq::new(DEFAULT_NUM_QUEUES as nat, |i: int| 0u64),
                next_writer: 0,
                index: Map::empty(),
                live: Map::empty(),
                next_file_id: DEFAULT_NUM_QUEUES as u64,
                threshold: DEFAULT_BLOB_THRESHOLD,
            }),
    {
        Self::new(DEFAULT_NUM_QUEUES, DEFAULT_BLOB_THRESHOLD)
    }

    /// Notes the length of a queue's file, to go on behind what is there.
    pub fn resume_queue(&mut self, queue: usize, length: u64)
        requires
            old(self).wf(),
            queue < old(self)@.offsets.len(),
        ensures
            final(self).wf(),
            final(self).uses() == old(self).uses(),
            final(self)@ == (BlobState {
                offsets: old(self)@.offsets.update(queue as int, length),
                ..old(self)@
            }),
    {
        self.offsets.set(queue, length);
    }

    /// Length above which a value is stored apart.
    pub fn threshold(&self) -> (threshold: usize)
        ensures
            threshold == self@.threshold,
    {
        self.threshold
    }

    /// Whether a value is stored apart.
    pub fn should_separate(&self, value: &[u8]) -> (separate: bool)
        ensures
            separate == (value@.len() > self@.threshold),
    {
        should_separate(value, self.threshold)
    }

    /// Adds a use of a value.
    fn add_use(&mut self, blob_ref: BlobRef)
        requires
            old(self).wf(),
        ensures
            final(self).wf(),
            final(self)@ == (BlobState {
                live: one_more_use(old(self)@.live, blob_ref),
                ..old(self)@
            }),
    {
        let count: u64 = match self.live.get(&blob_ref) {
            Some(count) => count.saturating_add(1),
            None => 1,
        };
        self.live.insert(blob_ref, count);
    }

    /// Says what there is to do to store a value: nothing if its content is stored
    /// already, else to append an entry to the file of the next queue.
    pub fn write(&mut self, value: &[u8]) -> (write: BlobWrite)
        requires
            old(self).wf(),
        ensures
            final(self).wf(),
            final(self)@ == old(self)@.writing(value@),
            match write {
                BlobWrite::Stored { hash, blob_ref } => {
                    &&& hash@ == hash_bytes(value@)
                    &&& old(self)@.index.contains_key(hash@)
                    &&& blob_ref == old(self)@.index[hash@]
                },
                BlobWrite::Append(pending) => {
                    &&& pending.hash@ == hash_bytes(value@)
                    &&& !old(self)@.index.contains_key(pending.hash@)
                    &&& pending.queue < old(self)@.offsets.len()
                    &&& pending.queue == old(self)@.next_writer as int % old(self)@.offsets.len() as int
                    &&& pending.blob_ref == old(self)@.place_for(value@)
                    &&& pending.entry@ == entry_bytes(value@)
                },
            },
    {
        let hash = content_hash(value);
        if let Some(blob_ref) = self.index.get(&hash) {
            self.add_use(blob_ref);
            return BlobWrite::Stored { hash, blob_ref };
        }
        let queues: u64 = self.offsets.len() as u64;
        let queue: usize = (self.next_writer % queues) as usize;
        self.next_writer = if self.next_writer == u64::MAX {
            0
        } else {
            self.next_writer + 1
        };
        let blob_ref = BlobRef {
            file_id: queue as u64,
            offset: self.offsets[queue],
            length: #[verifier::truncate] (value.len() as u32),
        };
        let entry = encode_entry(value);
        BlobWrite::Append(PendingBlob { hash, queue, blob_ref, entry })
    }

    /// Notes that an entry has been appended.
    pub fn finish_write(&mut self, pending: &PendingBlob)
        requires
            old(self).wf(),
            pending.queue < old(self)@.offsets.len(),
            old(self)@.offsets[pending.queue as int] + pending.entry@.len() <= u64::MAX,
        ensures
            final(self).wf(),
            final(self)@ == old(self)@.written(*pending),
    {
        let offset: u64 = self.offsets[pending.queue] + pending.entry.len() as u64;
        self.offsets.set(pending.queue, offset);
        self.index.insert(pending.hash, pending.blob_ref);
        self.add_use(pending.blob_ref);
        assert(self@ =~= old(self)@.written(*pending));
    }

    /// Says where the value behind `value` is: where it stands, or in the blob log.
    pub fn read_transparent(&self, value: &[u8]) -> (read: BlobRead)
        ensures
            match read {
                BlobRead::Inline => parse_marker(value@) is None,
                BlobRead::Stored(blob_ref) => match parse_marker(value@) {
                    Some((_, found)) => found == blob_ref,
                    None => false,
                },
            },
    {
        match decode_blob_ref(value) {
            Some((_, blob_ref)) => BlobRead::Stored(blob_ref),
            None => BlobRead::Inline,
        }
    }

    /// Notes that a value has a use less.
    pub fn mark_dead(&mut self, blob_ref: &BlobRef)
        requires
            old(self).wf(),
        ensures
            final(self).wf(),
            final(self)@ == (BlobState {
                live: one_less_use(old(self)@.live, *blob_ref),
                ..old(self)@
            }),
    {
        if let Some(count) = self.live.get(blob_ref) {
            if count <= 1 {
                self.live.remove(blob_ref);
            } else {
                self.live.insert(*blob_ref, count - 1);
            }
        }
    }

    /// Number of writer queues.
    pub fn num_queues(&self) -> (n: usize)
        ensures
            n == self@.offsets.len(),
    {
        self.offsets.len()
    }

    /// Number of values that can be found by their content.
    pub fn index_size(&self) -> (n: usize)
        requires
            self.wf(),
        ensures
            n == self@.index.dom().len(),
    {
        self.index.len()
    }

    /// Number of values in use.
    pub fn live_ref_count(&self) -> (n: usize)
        requires
            self.wf(),
        ensures
            n == self@.live.dom().len(),
            n == self.uses().len(),
    {
        self.live.len()
    }

    /// Where the value with a content hash is.
    pub fn lookup_by_hash(&self, hash: &[u8; CONTENT_HASH_SIZE]) -> (blob_ref: Option<BlobRef>)
        requires
            self.wf(),
        ensures
            blob_ref == (if self@.index.contains_key(hash@) {
                Some(self@.index[hash@])
            } else {
                None
            }),
    {
        self.index.get(hash)
    }

    /// Use of each blob file.
    pub fn collect_file_stats(&self, files: &[BlobFile]) -> (stats: Vec<BlobFileStats>)
        requires
            self.wf(),
        ensures
            stats@ == Seq::new(files@.len(), |i: int| stats_of(self.uses(), files@[i])),
    {
        let mut stats: Vec<BlobFileStats> = Vec::new();
        let mut i: usize = 0;
        while i < files.len()
            invariant
                self.wf(),
                i <= files@.len(),
                stats@.len() == i,
                forall|k: int|
                    0 <= k < i ==> #[trigger] stats@[k] == stats_of(self.uses(), files@[k]),
            decreases files@.len() - i,
        {
            stats.push(file_stats(&self.live, &files[i]));
            i = i + 1;
        }
        assert(stats@ =~= Seq::new(files@.len(), |i: int| stats_of(self.uses(), files@[i])));
        stats
    }

    /// Says what there is to do about a file: a file that is less than half in use is
    /// deleted, and what is in use of it moves to a new file, which has `start` bytes.
    pub fn run_gc(&mut self, stats: &BlobFileStats, contents: &[u8], start: u64) -> (gc: BlobGc)
        requires
            old(self).wf(),
        ensures
            final(self).wf(),
            final(self).uses() == old(self).uses(),
            match gc {
                BlobGc::Keep => {
                    ||| 2 * stats.live_bytes >= stats.total_bytes
                    ||| {
                        &&& some_in_use(old(self).uses(), stats.file_id)
                        &&& start + rewritten(
                            old(self).uses(),
                            stats.file_id,
                            contents@,
                            old(self)@.next_file_id,
                            start as nat,
                        ).1.len() > u64::MAX
                    }
                },
                BlobGc::Delete => {
                    &&& 2 * stats.live_bytes < stats.total_bytes
                    &&& !some_in_use(old(self).uses(), stats.file_id)
                    &&& final(self)@ == old(self)@
                },
                BlobGc::Rewrite(made) => {
                    &&& 2 * stats.live_bytes < stats.total_bytes
                    &&& some_in_use(old(self).uses(), stats.file_id)
                    &&& made.new_file_id == old(self)@.next_file_id
                    &&& (move_views(made.moved@), made.bytes@) == rewritten(
                        old(self).uses(),
                        stats.file_id,
                        contents@,
                        made.new_file_id,
                        start as nat,
                    )
                    &&& start + made.bytes@.len() <= u64::MAX
                },
            },
            final(self)@ == (BlobState {
                next_file_id: final(self)@.next_file_id,
                ..old(self)@
            }),
            final(self)@.next_file_id == (if 2 * stats.live_bytes < stats.total_bytes
                && some_in_use(old(self).uses(), stats.file_id) {
                if old(self)@.next_file_id == u64::MAX {
                    0
                } else {
                    (old(self)@.next_file_id + 1) as u64
                }
            } else {
                old(self)@.next_file_id
            }),
    {
        if !stats.needs_gc() {
            return BlobGc::Keep;
        }
        if !has_live(&self.live, stats.file_id) {
            return BlobGc::Delete;
        }
        let new_file_id: u64 = self.next_file_id;
        self.next_file_id = if new_file_id == u64::MAX {
            0
        } else {
            new_file_id + 1
        };
        match rewrite_live(&self.live, stats.file_id, contents, new_file_id, start) {
            Some(made) => BlobGc::Rewrite(made),
            None => BlobGc::Keep,
        }
    }

    /// Notes what was done about a file: its values are no longer found by their
    /// content, but for those that moved, which are found where they went.
    pub fn finish_gc(&mut self, file_id: u64, gc: &BlobGc)
        requires
            old(self).wf(),
        ensures
            final(self).wf(),
            final(self)@ == (match *gc {
                BlobGc::Keep => old(self)@,
                BlobGc::Delete => BlobState {
                    index: index_without(old(self)@.index, file_id),
                    ..old(self)@
                },
                BlobGc::Rewrite(made) => BlobState {
                    index: index_moved(
                        index_without(old(self)@.index, file_id),
                        move_views(made.moved@),
                    ),
                    live: uses_moved(old(self)@.live, move_views(made.moved@)),
                    ..old(self)@
                },
            }),
    {
        match gc {
            BlobGc::Keep => {},
            BlobGc::Delete => {
                self.index = drop_file(&self.index, file_id);
            },
            BlobGc::Rewrite(made) => {
                let ghost moves = move_views(made.moved@);
                self.index = drop_file(&self.index, file_id);
                let ghost before = self@;
                let mut i: usize = 0;
                assert(moves.take(0) =~= Seq::<MoveView>::empty());
                while i < made.moved.len()
                    invariant
                        i <= made.moved@.len(),
                        moves == move_views(made.moved@),
                        self.wf(),
                        self@ == (BlobState {
                            index: index_moved(before.index, moves.take(i as int)),
                            live: uses_moved(before.live, moves.take(i as int)),
                            ..before
                        }),
                    decreases made.moved@.len() - i,
                {
                    let one = made.moved[i];
                    proof {
                        assert(moves.take(i + 1).drop_last() =~= moves.take(i as int));
                        assert(moves.take(i + 1).last() == one@);
                    }
                    self.index.insert(one.hash, one.to);
                    let count: u64 = match self.live.remove(&one.from) {
                        Some(count) => count,
                        None => 1,
                    };
                    self.live.insert(one.to, count);
                    i = i + 1;
                }
                assert(moves.take(i as int) =~= moves);
            },
        }
    }
}

} // verus!
