//! Checking the SST files of a backup.

use vstd::prelude::*;
use vstd::slice::slice_subrange;

use crate::engine::names::{is_sst_name, names_sst};
use crate::engine::read::within;
use crate::error::GalaxError;
use crate::flush::counted_up;
use crate::pax::block::{parse_block, BlockView};
use crate::pax::PaxBlock;
use crate::sst::{
    block_at, entries_of, indexable, lemma_sst_round_trip, parse_index, sst_bytes, BlockIndexEntry,
    SstBlockIndex,
};

verus! {

/// What is wrong with an SST file.
#[derive(PartialEq, Eq, Debug)]
pub enum BackupFault {
    /// Its block index cannot be read.
    CorruptIndex(GalaxError),
    /// A block ends beyond the file.
    BlockOverrun { block: usize, end: u128, file_len: usize },
    /// A block cannot be read.
    CorruptBlock { block: usize, error: GalaxError },
}

/// Whether a block of a file is whole.
pub open spec fn block_whole(data: Seq<u8>, entry: BlockIndexEntry) -> bool {
    within(data, entry) && parse_block(block_at(data, entry)) is Ok
}

/// Whether the block at `i` is the first that is not whole.
pub open spec fn first_broken(data: Seq<u8>, entries: Seq<BlockIndexEntry>, i: int) -> bool {
    &&& 0 <= i < entries.len()
    &&& !block_whole(data, entries[i])
    &&& forall|j: int| 0 <= j < i ==> block_whole(data, #[trigger] entries[j])
}

/// What checking a file comes to: the number of its blocks if all are whole, or
/// else what is wrong with the first that is not.
pub open spec fn checks_to(data: Seq<u8>, outcome: Result<usize, BackupFault>) -> bool {
    match parse_index(data) {
        Err(error) => outcome == Err::<usize, BackupFault>(BackupFault::CorruptIndex(error)),
        Ok(entries) => match outcome {
            Ok(blocks) => blocks == entries.len() && forall|j: int|
                0 <= j < entries.len() ==> block_whole(data, #[trigger] entries[j]),
            Err(BackupFault::BlockOverrun { block, end, file_len }) => first_broken(
                data,
                entries,
                block as int,
            ) && !within(data, entries[block as int]) && end == entries[block as int].file_offset
                + entries[block as int].block_len && file_len == data.len(),
            Err(BackupFault::CorruptBlock { block, error }) => first_broken(
                data,
                entries,
                block as int,
            ) && within(data, entries[block as int]) && parse_block(
                block_at(data, entries[block as int]),
            ) == Err::<BlockView, GalaxError>(error),
            Err(BackupFault::CorruptIndex(_)) => false,
        },
    }
}

/// Checks an SST file: reads its index and every block of it.
pub fn validate_sst(data: &[u8]) -> (result: Result<usize, BackupFault>)
    ensures
        checks_to(data@, result),
{
    let index = match SstBlockIndex::from_file_data(data) {
        Ok(index) => index,
        Err(error) => {
            return Err(BackupFault::CorruptIndex(error));
        },
    };
    let ghost entries = index.entries@;
    let mut i: usize = 0;
    while i < index.entries.len()
        invariant
            i <= entries.len(),
            entries == index.entries@,
            parse_index(data@) == Ok::<Seq<BlockIndexEntry>, GalaxError>(entries),
            forall|j: int| 0 <= j < i ==> block_whole(data@, #[trigger] entries[j]),
        decreases entries.len() - i,
    {
        let entry = index.entries[i];
        let len: u64 = data.len() as u64;
        if entry.file_offset > len || entry.block_len as u64 > len - entry.file_offset {
            assert(first_broken(data@, entries, i as int));
            let end: u128 = entry.file_offset as u128 + entry.block_len as u128;
            return Err(BackupFault::BlockOverrun { block: i, end, file_len: data.len() });
        }
        let start: usize = entry.file_offset as usize;
        let end: usize = start + entry.block_len as usize;
        match PaxBlock::deserialize(slice_subrange(data, start, end)) {
            Ok(_) => {},
            Err(error) => {
                assert(first_broken(data@, entries, i as int));
                return Err(BackupFault::CorruptBlock { block: i, error });
            },
        }
        i = i + 1;
    }
    Ok(index.entries.len())
}

/// A file of a backup: its name and contents.
#[derive(Debug)]
pub struct BackupFile {
    pub name: Vec<u8>,
    pub data: Vec<u8>,
}

/// Number of SST files, and the numbers of their blocks added up, among the
/// first `n` files.
pub open spec fn checked_counts(files: Seq<BackupFile>, n: int) -> (nat, nat)
    decreases n,
{
    if n <= 0 {
        (0, 0)
    } else {
        let before = checked_counts(files, n - 1);
        if is_sst_name(files[n - 1].name@) {
            (before.0 + 1, before.1 + parse_index(files[n - 1].data@)->Ok_0.len())
        } else {
            before
        }
    }
}

/// Whether a file is one that makes a backup invalid.
pub open spec fn file_broken(file: BackupFile) -> bool {
    is_sst_name(file.name@) && !checks_to_some(file.data@)
}

/// Whether checking a file succeeds.
pub open spec fn checks_to_some(data: Seq<u8>) -> bool {
    parse_index(data) matches Ok(entries) && forall|j: int|
        0 <= j < entries.len() ==> block_whole(data, #[trigger] entries[j])
}

/// A file of whole blocks passes the check, and all its blocks are counted. Where a file
/// passes, each block that its index leads to stands in the file and can be read.
pub proof fn lemma_whole_file_passes(
    blocks: Seq<Seq<u8>>,
    data: Seq<u8>,
    outcome: Result<usize, BackupFault>,
)
    requires
        indexable(blocks),
        checks_to(data, outcome),
    ensures
        data == sst_bytes(blocks) && (forall|i: int|
            0 <= i < blocks.len() ==> parse_block(#[trigger] blocks[i]) is Ok) ==> outcome == Ok::<
            usize,
            BackupFault,
        >(blocks.len() as usize),
        data == sst_bytes(blocks) && outcome is Ok ==> forall|i: int|
            0 <= i < blocks.len() ==> parse_block(#[trigger] blocks[i]) is Ok,
        outcome is Ok ==> parse_index(data) is Ok && outcome->Ok_0 == parse_index(data)->Ok_0.len(),
{
    if data == sst_bytes(blocks) {
        lemma_sst_round_trip(blocks);
        let entries = entries_of(blocks);
        if forall|i: int| 0 <= i < blocks.len() ==> parse_block(#[trigger] blocks[i]) is Ok {
            assert forall|j: int| 0 <= j < entries.len() implies block_whole(
                data,
                #[trigger] entries[j],
            ) by {
                assert(parse_block(blocks[j]) is Ok);
            }
        }
        if outcome is Ok {
            assert forall|i: int| 0 <= i < blocks.len() implies parse_block(
                #[trigger] blocks[i],
            ) is Ok by {
                assert(block_whole(data, entries[i]));
            }
        }
    }
}

/// A backup has a broken file exactly if checking an SST file of it fails.
pub proof fn lemma_broken_files(file: BackupFile, outcome: Result<usize, BackupFault>)
    requires
        checks_to(file.data@, outcome),
    ensures
        file_broken(file) <==> is_sst_name(file.name@) && outcome is Err,
{
    match outcome {
        Ok(_) => {},
        Err(BackupFault::BlockOverrun { block, .. }) => {
            if let Ok(entries) = parse_index(file.data@) {
                assert(!block_whole(file.data@, entries[block as int]));
            }
        },
        Err(BackupFault::CorruptBlock { block, .. }) => {
            if let Ok(entries) = parse_index(file.data@) {
                assert(!block_whole(file.data@, entries[block as int]));
            }
        },
        Err(BackupFault::CorruptIndex(_)) => {},
    }
}

/// Each file counts by itself: an SST file as one, with its blocks, and another not at all.
pub proof fn lemma_files_counted(files: Seq<BackupFile>, file: BackupFile)
    ensures
        ({
            let n = files.len() as int;
            let before = checked_counts(files, n);
            let after = checked_counts(files.push(file), n + 1);
            &&& checked_counts(Seq::<BackupFile>::empty(), 0) == (0nat, 0nat)
            &&& !is_sst_name(file.name@) ==> after == before
            &&& is_sst_name(file.name@) ==> after.0 == before.0 + 1
            &&& forall|outcome: Result<usize, BackupFault>|
                is_sst_name(file.name@) && #[trigger] checks_to(file.data@, outcome)
                    && outcome is Ok ==> after.1 == before.1 + outcome->Ok_0
        }),
{
    lemma_counts_of_front(files, file, files.len() as int);
    assert(files.push(file)[files.len() as int] == file);
}

proof fn lemma_counts_of_front(files: Seq<BackupFile>, file: BackupFile, n: int)
    requires
        0 <= n <= files.len(),
    ensures
        checked_counts(files.push(file), n) == checked_counts(files, n),
    decreases n,
{
    if n > 0 {
        lemma_counts_of_front(files, file, n - 1);
        assert(files.push(file)[n - 1] == files[n - 1]);
    }
}

/// Checks the SST files of a backup. Returns the number of files checked and of
/// blocks in them, or the place of the first broken file and what is wrong with
/// it. Other files are passed over.
pub fn validate_backup(files: &[BackupFile]) -> (result: Result<(usize, u64), (usize, BackupFault)>)
    ensures
        match result {
            Ok((ssts, blocks)) => {
                &&& forall|i: int| 0 <= i < files@.len() ==> !file_broken(#[trigger] files@[i])
                &&& ssts == checked_counts(files@, files@.len() as int).0
                &&& blocks == counted_up(
                    checked_counts(files@, files@.len() as int).1,
                )
            },
            Err((place, fault)) => {
                &&& place < files@.len()
                &&& is_sst_name(files@[place as int].name@)
                &&& checks_to(files@[place as int].data@, Err(fault))
                &&& forall|i: int| 0 <= i < place ==> !file_broken(#[trigger] files@[i])
            },
        },
{
    let mut ssts: usize = 0;
    let mut blocks: u64 = 0;
    let mut i: usize = 0;
    while i < files.len()
        invariant
            i <= files@.len(),
            ssts <= i,
            ssts == checked_counts(files@, i as int).0,
            blocks == counted_up(checked_counts(files@, i as int).1),
            forall|j: int| 0 <= j < i ==> !file_broken(#[trigger] files@[j]),
        decreases files@.len() - i,
    {
        let file = &files[i];
        if names_sst(file.name.as_slice()) {
            match validate_sst(file.data.as_slice()) {
                Ok(count) => {
                    blocks = blocks.saturating_add(count as u64);
                    ssts = ssts + 1;
                },
                Err(fault) => {
                    return Err((i, fault));
                },
            }
        }
        i = i + 1;
    }
    Ok((ssts, blocks))
}

} // verus!
