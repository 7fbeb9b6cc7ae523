//! What is done when the disk is full: a reserve file is deleted to make room for a
//! checkpoint, and writes are blocked until it could be made again.

use vstd::prelude::*;

verus! {

/// Length of the chunks in which the reserve file is written.
pub const RESERVE_CHUNK: usize = 65536;

/// Name of the reserve file: the bytes of `_galaxdb_reserve`.
pub open spec fn reserve_name() -> Seq<u8> {
    seq![
        95u8,
        103u8,
        97u8,
        108u8,
        97u8,
        120u8,
        100u8,
        98u8,
        95u8,
        114u8,
        101u8,
        115u8,
        101u8,
        114u8,
        118u8,
        101u8,
    ]
}

/// Name of the reserve file.
pub fn reserve_file_name() -> (name: Vec<u8>)
    ensures
        name@ == reserve_name(),
{
    let name: Vec<u8> = vec![
        95, 103, 97, 108, 97, 120, 100, 98, 95, 114, 101, 115, 101, 114, 118, 101,
    ];
    assert(name@ =~= reserve_name());
    name
}

/// The lengths of the chunks in which a reserve file of a size is written.
pub open spec fn chunk_lengths(size: nat) -> Seq<nat>
    decreases size,
{
    if size == 0 {
        Seq::empty()
    } else if size < RESERVE_CHUNK {
        seq![size]
    } else {
        seq![RESERVE_CHUNK as nat] + chunk_lengths((size - RESERVE_CHUNK) as nat)
    }
}

/// Sum of lengths.
pub open spec fn total_length(lengths: Seq<nat>) -> nat
    decreases lengths.len(),
{
    if lengths.len() == 0 {
        0
    } else {
        lengths[0] + total_length(lengths.skip(1))
    }
}

/// The chunks make up the reserve file, and none is longer than the chunk length.
pub proof fn lemma_chunks_make_reserve(size: nat)
    ensures
        total_length(chunk_lengths(size)) == size,
        forall|i: int|
            0 <= i < chunk_lengths(size).len() ==> 0 < #[trigger] chunk_lengths(size)[i]
                <= RESERVE_CHUNK,
    decreases size,
{
    let lengths = chunk_lengths(size);
    if size > 0 {
        reveal_with_fuel(total_length, 2);
        if size < RESERVE_CHUNK {
            assert(lengths.skip(1) =~= Seq::<nat>::empty());
        } else {
            let rest = (size - RESERVE_CHUNK) as nat;
            lemma_chunks_make_reserve(rest);
            assert(lengths.skip(1) =~= chunk_lengths(rest));
            assert forall|i: int| 0 <= i < lengths.len() implies 0 < #[trigger] lengths[i]
                <= RESERVE_CHUNK by {
                if i > 0 {
                    assert(lengths[i] == chunk_lengths(rest)[i - 1]);
                }
            }
        }
    }
}

/// Length of the next chunk of the reserve file, `None` when nothing remains.
pub fn next_chunk(remaining: u64) -> (length: Option<usize>)
    ensures
        match length {
            Some(n) => chunk_lengths(remaining as nat).len() > 0 && n == chunk_lengths(
                remaining as nat,
            )[0] && chunk_lengths((remaining - n) as nat) == chunk_lengths(remaining as nat).skip(
                1,
            ),
            None => chunk_lengths(remaining as nat).len() == 0,
        },
{
    if remaining == 0 {
        return None;
    }
    let n: usize = if remaining < RESERVE_CHUNK as u64 {
        remaining as usize
    } else {
        RESERVE_CHUNK
    };
    proof {
        reveal_with_fuel(chunk_lengths, 2);
        assert(chunk_lengths((remaining - n) as nat) =~= chunk_lengths(remaining as nat).skip(1));
    }
    Some(n)
}

/// What there is to do when the disk is full.
#[derive(Clone, Copy, PartialEq, Eq, Structural, Debug)]
pub enum DiskFullStep {
    /// Nothing: writes are blocked already.
    Nothing,
    /// Delete the reserve file, then block writes.
    DeleteReserve,
    /// Block writes: there is no reserve file.
    Block,
}

/// Decides what is done when the disk is full.
#[derive(Debug)]
pub struct DiskFullHandler {
    reserve_size: u64,
    disk_full: bool,
}

impl DiskFullHandler {
    /// Whether writes are blocked.
    pub closed spec fn blocked(&self) -> bool {
        self.disk_full
    }

    /// Size of the reserve file.
    pub closed spec fn reserved(&self) -> u64 {
        self.reserve_size
    }

    /// A handler whose reserve file has been made; writes are not blocked.
    pub fn init(reserve_size: u64) -> (handler: Self)
        ensures
            !handler.blocked(),
            handler.reserved() == reserve_size,
    {
        DiskFullHandler { reserve_size, disk_full: false }
    }

    /// Says what there is to do when the disk is full.
    pub fn handle_disk_full(&self, reserve_exists: bool) -> (step: DiskFullStep)
        ensures
            step == (if self.blocked() {
                DiskFullStep::Nothing
            } else if reserve_exists {
                DiskFullStep::DeleteReserve
            } else {
                DiskFullStep::Block
            }),
    {
        if self.disk_full {
            DiskFullStep::Nothing
        } else if reserve_exists {
            DiskFullStep::DeleteReserve
        } else {
            DiskFullStep::Block
        }
    }

    /// Blocks writes.
    pub fn block_writes(&mut self)
        ensures
            final(self).blocked(),
            final(self).reserved() == old(self).reserved(),
    {
        self.disk_full = true;
    }

    /// Whether the reserve file has to be made again before writes go on: not if they are
    /// not blocked.
    pub fn recover(&self) -> (remake: bool)
        ensures
            remake == self.blocked(),
    {
        self.disk_full
    }

    /// Unblocks writes, when the reserve file has been made again.
    pub fn unblock_writes(&mut self)
        ensures
            !final(self).blocked(),
            final(self).reserved() == old(self).reserved(),
    {
        self.disk_full = false;
    }

    /// Whether writes are blocked.
    pub fn is_disk_full(&self) -> (full: bool)
        ensures
            full == self.blocked(),
    {
        self.disk_full
    }

    /// Size of the reserve file in bytes.
    pub fn reserve_size(&self) -> (size: u64)
        ensures
            size == self.reserved(),
    {
        self.reserve_size
    }

    /// What the gauge of this state shows: 1 while writes are blocked, else 0.
    pub fn disk_full_gauge(&self) -> (value: i64)
        ensures
            value == (if self.blocked() {
                1i64
            } else {
                0i64
            }),
    {
        if self.disk_full {
            1
        } else {
            0
        }
    }
}

} // verus!
