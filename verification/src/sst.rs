//! SST files: blocks packed together, with an index of them at the end.
//!
//! ```text
//! block 0, block 1, ...
//! index:  block_count: u32, then for each block file_offset: u64, block_len: u32
//! footer: index_offset: u64, block_count: u32, format_version: u16, magic: u32
//! ```
//!
//! Files from before format versions were written have a footer without the
//! version, under a magic number of its own. They count as version 1.

use vstd::prelude::*;

use crate::bytes::{get_u16, get_u32, get_u64, le_bytes, put_bytes, put_le};
use crate::bytes::{put_u16, put_u32, put_u64};
use crate::bytes::{lemma_byte_range_values, lemma_le_bytes_len};
use crate::error::{Artifact, Fault, GalaxError, GalaxResult};
use crate::pax::block::{concat, lemma_concat_part};
use crate::pax::header::{lemma_number_stands, lemma_stands_split, number_at, stands_at};

verus! {

/// Magic number of a footer without a format version: ASCII "SSTF".
pub const SST_FOOTER_MAGIC: u32 = 0x53535446;

/// Magic number of a footer with a format version: ASCII "SSTV".
pub const SST_FOOTER_MAGIC_V2: u32 = 0x53535456;

/// Size of a footer without a format version.
pub const SST_FOOTER_SIZE: usize = 16;

/// Size of a footer with a format version.
pub const SST_FOOTER_SIZE_V2: usize = 18;

/// The format version that is written.
pub const SST_FORMAT_VERSION: u16 = 2;

/// The oldest format version that is read.
pub const SST_FORMAT_OLDEST: u16 = 1;

/// Where a block stands in the file.
#[derive(Clone, Copy, PartialEq, Eq, Structural, Debug)]
pub struct BlockIndexEntry {
    /// Offset of the block within the file.
    pub file_offset: u64,
    /// Length of the block in bytes.
    pub block_len: u32,
}

/// Block index of an SST file, kept in memory for point reads.
#[derive(Debug)]
pub struct SstBlockIndex {
    /// One entry for each block in the file, in order.
    pub entries: Vec<BlockIndexEntry>,
}

/// What a footer says, and how long it is.
#[derive(Clone, Copy, PartialEq, Eq, Structural, Debug)]
pub struct Footer {
    pub index_offset: u64,
    pub block_count: u32,
    pub size: usize,
}

/// Byte form of index entries.
pub open spec fn entries_bytes(entries: Seq<BlockIndexEntry>) -> Seq<u8>
    decreases entries.len(),
{
    if entries.len() == 0 {
        Seq::<u8>::empty()
    } else {
        entries_bytes(entries.drop_last()) + (le_bytes(entries.last().file_offset as nat, 8)
            + le_bytes(entries.last().block_len as nat, 4))
    }
}

/// Byte form of the footer that is written.
pub open spec fn footer_bytes(index_offset: u64, block_count: nat) -> Seq<u8> {
    le_bytes(index_offset as nat, 8) + le_bytes(block_count, 4) + le_bytes(
        SST_FORMAT_VERSION as nat,
        2,
    ) + le_bytes(SST_FOOTER_MAGIC_V2 as nat, 4)
}

/// Byte form of an index with its footer.
pub open spec fn index_bytes(entries: Seq<BlockIndexEntry>, index_offset: u64) -> Seq<u8> {
    le_bytes(entries.len(), 4) + entries_bytes(entries) + footer_bytes(index_offset, entries.len())
}

/// The footer at the end of a file.
pub open spec fn parse_footer(data: Seq<u8>) -> Result<Footer, GalaxError> {
    if data.len() < 16 {
        Err(GalaxError::Internal(Fault::FileTooSmall))
    } else {
        let magic = number_at(data, data.len() - 4, 4);
        if magic == SST_FOOTER_MAGIC_V2 {
            let start = data.len() - 18;
            if start < 0 {
                Err(GalaxError::Internal(Fault::FileTooSmall))
            } else {
                let version = number_at(data, start + 12, 2) as u16;
                if version > SST_FORMAT_VERSION {
                    Err(GalaxError::FormatTooNew {
                        artifact: Artifact::Sst,
                        found: version,
                        current: SST_FORMAT_VERSION,
                    })
                } else if version < SST_FORMAT_OLDEST {
                    Err(GalaxError::FormatTooOld {
                        artifact: Artifact::Sst,
                        found: version,
                        oldest: SST_FORMAT_OLDEST,
                    })
                } else {
                    Ok(
                        Footer {
                            index_offset: number_at(data, start, 8) as u64,
                            block_count: number_at(data, start + 8, 4) as u32,
                            size: SST_FOOTER_SIZE_V2,
                        },
                    )
                }
            }
        } else if magic == SST_FOOTER_MAGIC {
            let start = data.len() - 16;
            Ok(
                Footer {
                    index_offset: number_at(data, start, 8) as u64,
                    block_count: number_at(data, start + 8, 4) as u32,
                    size: SST_FOOTER_SIZE,
                },
            )
        } else {
            Err(GalaxError::Internal(Fault::BadFooterMagic(magic as u32)))
        }
    }
}

/// The index entries from `pos` on.
pub open spec fn entries_at(data: Seq<u8>, pos: int, count: nat) -> Seq<BlockIndexEntry> {
    Seq::new(
        count,
        |i: int|
            BlockIndexEntry {
                file_offset: number_at(data, pos + 12 * i, 8) as u64,
                block_len: number_at(data, pos + 12 * i + 8, 4) as u32,
            },
    )
}

/// The block index of a file.
pub open spec fn parse_index(data: Seq<u8>) -> Result<Seq<BlockIndexEntry>, GalaxError> {
    match parse_footer(data) {
        Err(error) => Err(error),
        Ok(footer) => {
            let first = footer.index_offset + 4;
            if footer.block_count > 0 && first + 12 * footer.block_count > data.len()
                - footer.size {
                Err(GalaxError::Internal(Fault::IndexOutOfBounds))
            } else {
                Ok(entries_at(data, first, footer.block_count as nat))
            }
        },
    }
}

// Round trip

proof fn lemma_entries_stand(data: Seq<u8>, pos: int, entries: Seq<BlockIndexEntry>)
    requires
        stands_at(data, pos, entries_bytes(entries)),
    ensures
        entries_bytes(entries).len() == 12 * entries.len(),
        entries_at(data, pos, entries.len()) == entries,
    decreases entries.len(),
{
    if entries.len() == 0 {
        assert(entries_at(data, pos, 0) =~= entries);
    } else {
        let front = entries.drop_last();
        let last = entries.last();
        let a = le_bytes(last.file_offset as nat, 8);
        let b = le_bytes(last.block_len as nat, 4);
        lemma_le_bytes_len(last.file_offset as nat, 8);
        lemma_le_bytes_len(last.block_len as nat, 4);
        lemma_byte_range_values();
        lemma_stands_split(data, pos, entries_bytes(front), a + b);
        lemma_entries_stand(data, pos, front);
        let at = pos + 12 * front.len();
        lemma_stands_split(data, at, a, b);
        lemma_number_stands(data, at, last.file_offset as nat, 8);
        lemma_number_stands(data, at + 8, last.block_len as nat, 4);
        assert forall|i: int| 0 <= i < entries.len() implies entries_at(data, pos, entries.len())[i]
            == entries[i] by {
            if i < front.len() {
                assert(entries_at(data, pos, front.len())[i] == front[i]);
            }
        }
        assert(entries_at(data, pos, entries.len()) =~= entries);
    }
}

proof fn lemma_footer_stands(data: Seq<u8>, start: int, index_offset: u64, block_count: nat)
    requires
        stands_at(data, start, footer_bytes(index_offset, block_count)),
        data.len() == start + 18,
        block_count <= u32::MAX,
    ensures
        parse_footer(data) == Ok::<Footer, GalaxError>(
            Footer { index_offset, block_count: block_count as u32, size: SST_FOOTER_SIZE_V2 },
        ),
{
    let a = le_bytes(index_offset as nat, 8);
    let b = le_bytes(block_count, 4);
    let c = le_bytes(SST_FORMAT_VERSION as nat, 2);
    let d = le_bytes(SST_FOOTER_MAGIC_V2 as nat, 4);
    lemma_byte_range_values();
    lemma_le_bytes_len(index_offset as nat, 8);
    lemma_le_bytes_len(block_count, 4);
    lemma_le_bytes_len(SST_FORMAT_VERSION as nat, 2);
    lemma_le_bytes_len(SST_FOOTER_MAGIC_V2 as nat, 4);
    lemma_stands_split(data, start, a + b + c, d);
    lemma_stands_split(data, start, a + b, c);
    lemma_stands_split(data, start, a, b);
    lemma_number_stands(data, start, index_offset as nat, 8);
    lemma_number_stands(data, start + 8, block_count, 4);
    lemma_number_stands(data, start + 12, SST_FORMAT_VERSION as nat, 2);
    lemma_number_stands(data, start + 14, SST_FOOTER_MAGIC_V2 as nat, 4);
}

proof fn lemma_footer_len(index_offset: u64, block_count: nat)
    ensures
        footer_bytes(index_offset, block_count).len() == 18,
{
    lemma_le_bytes_len(index_offset as nat, 8);
    lemma_le_bytes_len(block_count, 4);
    lemma_le_bytes_len(SST_FORMAT_VERSION as nat, 2);
    lemma_le_bytes_len(SST_FOOTER_MAGIC_V2 as nat, 4);
}

/// Four byte strings one behind the other stand where the ones before them end.
proof fn lemma_parts_stand(blocks: Seq<u8>, count: Seq<u8>, body: Seq<u8>, footer: Seq<u8>)
    ensures
        ({
            let data = blocks + (count + body + footer);
            let at = (blocks.len() + count.len()) as int;
            &&& data.len() == at + body.len() + footer.len()
            &&& stands_at(data, at, body)
            &&& stands_at(data, at + body.len(), footer)
        }),
{
    let data = blocks + (count + body + footer);
    let at = (blocks.len() + count.len()) as int;
    let end = at + body.len();
    assert(data.subrange(at, end) =~= body);
    assert(data.subrange(end, end + footer.len()) =~= footer);
}

/// The index of a file is read back as it was written behind its blocks.
#[verifier::rlimit(50)]
pub proof fn lemma_index_round_trip(blocks: Seq<u8>, entries: Seq<BlockIndexEntry>)
    requires
        blocks.len() <= u64::MAX,
        entries.len() <= u32::MAX,
    ensures
        parse_index(blocks + index_bytes(entries, blocks.len() as u64)) == Ok::<
            Seq<BlockIndexEntry>,
            GalaxError,
        >(entries),
{
    let offset = blocks.len() as u64;
    let n = entries.len();
    let count = le_bytes(n, 4);
    let body = entries_bytes(entries);
    let footer = footer_bytes(offset, n);
    let data = blocks + (count + body + footer);
    assert(data == blocks + index_bytes(entries, offset));
    assert(count.len() == 4) by {
        lemma_le_bytes_len(n, 4);
    }
    assert(footer.len() == 18) by {
        lemma_footer_len(offset, n);
    }
    lemma_parts_stand(blocks, count, body, footer);
    let at = offset + 4;
    assert(body.len() == 12 * n && entries_at(data, at, n) == entries) by {
        lemma_entries_stand(data, at, entries);
    }
    assert(parse_footer(data) == Ok::<Footer, GalaxError>(
        Footer { index_offset: offset, block_count: n as u32, size: SST_FOOTER_SIZE_V2 },
    )) by {
        lemma_footer_stands(data, at + body.len(), offset, n);
    }
}

impl SstBlockIndex {
    /// Creates an empty index.
    pub fn new() -> (index: Self)
        ensures
            index.entries@ == Seq::<BlockIndexEntry>::empty(),
    {
        SstBlockIndex { entries: Vec::new() }
    }

    /// Adds a block to the index.
    pub fn add_block(&mut self, file_offset: u64, block_len: u32)
        ensures
            final(self).entries@ == old(self).entries@.push(
                BlockIndexEntry { file_offset, block_len },
            ),
    {
        self.entries.push(BlockIndexEntry { file_offset, block_len });
    }

    /// Looks up a block by its place in the file.
    pub fn get_block(&self, block_idx: u64) -> (entry: Option<&BlockIndexEntry>)
        ensures
            match entry {
                Some(e) => block_idx < self.entries@.len() && *e == self.entries@[block_idx as int],
                None => block_idx >= self.entries@.len(),
            },
    {
        if block_idx < self.entries.len() as u64 {
            Some(&self.entries[block_idx as usize])
        } else {
            None
        }
    }

    /// Number of blocks in this file.
    pub fn block_count(&self) -> (count: usize)
        ensures
            count == self.entries@.len(),
    {
        self.entries.len()
    }

    /// Serializes the block index and the footer.
    pub fn serialize_with_footer(&self, index_offset: u64) -> (bytes: Vec<u8>)
        ensures
            bytes@ == index_bytes(self.entries@, index_offset),
    {
        let mut buf: Vec<u8> = Vec::new();
        put_le(&mut buf, self.entries.len() as u64, 4);
        let ghost count = buf@;
        assert(count =~= le_bytes(self.entries@.len(), 4));
        let mut i: usize = 0;
        assert(self.entries@.take(0) =~= Seq::<BlockIndexEntry>::empty());
        assert(buf@ =~= count + entries_bytes(self.entries@.take(0)));
        while i < self.entries.len()
            invariant
                i <= self.entries@.len(),
                buf@ == count + entries_bytes(self.entries@.take(i as int)),
            decreases self.entries@.len() - i,
        {
            let entry = self.entries[i];
            put_u64(&mut buf, entry.file_offset);
            put_u32(&mut buf, entry.block_len);
            proof {
                assert(self.entries@.take(i + 1).drop_last() =~= self.entries@.take(i as int));
                assert(buf@ =~= count + entries_bytes(self.entries@.take(i + 1)));
            }
            i = i + 1;
        }
        assert(self.entries@.take(i as int) =~= self.entries@);
        put_u64(&mut buf, index_offset);
        put_le(&mut buf, self.entries.len() as u64, 4);
        put_u16(&mut buf, SST_FORMAT_VERSION);
        put_u32(&mut buf, SST_FOOTER_MAGIC_V2);
        assert(buf@ =~= index_bytes(self.entries@, index_offset));
        buf
    }

    /// Parses the footer at the end of a file, with or without a format version.
    fn parse_footer(data: &[u8]) -> (result: GalaxResult<Footer>)
        ensures
            result == parse_footer(data@),
            result matches Ok(footer) ==> footer.size <= data@.len(),
    {
        if data.len() < SST_FOOTER_SIZE {
            return Err(GalaxError::Internal(Fault::FileTooSmall));
        }
        let end: usize = data.len();
        let magic: u32 = get_u32(data, end - 4);
        if magic == SST_FOOTER_MAGIC_V2 {
            if end < SST_FOOTER_SIZE_V2 {
                return Err(GalaxError::Internal(Fault::FileTooSmall));
            }
            let start: usize = end - SST_FOOTER_SIZE_V2;
            let version: u16 = get_u16(data, start + 12);
            if version > SST_FORMAT_VERSION {
                return Err(
                    GalaxError::FormatTooNew {
                        artifact: Artifact::Sst,
                        found: version,
                        current: SST_FORMAT_VERSION,
                    },
                );
            }
            if version < SST_FORMAT_OLDEST {
                return Err(GalaxError::FormatTooOld {
                    artifact: Artifact::Sst,
                    found: version,
                    oldest: SST_FORMAT_OLDEST,
                });
            }
            Ok(
                Footer {
                    index_offset: get_u64(data, start),
                    block_count: get_u32(data, start + 8),
                    size: SST_FOOTER_SIZE_V2,
                },
            )
        } else if magic == SST_FOOTER_MAGIC {
            let start: usize = end - SST_FOOTER_SIZE;
            Ok(
                Footer {
                    index_offset: get_u64(data, start),
                    block_count: get_u32(data, start + 8),
                    size: SST_FOOTER_SIZE,
                },
            )
        } else {
            Err(GalaxError::Internal(Fault::BadFooterMagic(magic)))
        }
    }

    /// Reads the block index of a file.
    pub fn from_file_data(data: &[u8]) -> (result: GalaxResult<Self>)
        ensures
            match result {
                Ok(index) => parse_index(data@) == Ok::<Seq<BlockIndexEntry>, GalaxError>(
                    index.entries@,
                ),
                Err(error) => parse_index(data@) == Err::<Seq<BlockIndexEntry>, GalaxError>(error),
            },
    {
        let footer = match SstBlockIndex::parse_footer(data) {
            Ok(footer) => footer,
            Err(error) => {
                return Err(error);
            },
        };
        let mut entries: Vec<BlockIndexEntry> = Vec::new();
        if footer.block_count == 0 {
            assert(entries@ =~= entries_at(data@, footer.index_offset + 4, 0));
            return Ok(SstBlockIndex { entries });
        }
        let limit: u64 = (data.len() - footer.size) as u64;
        let needed: u64 = 4 + 12 * footer.block_count as u64;
        if footer.index_offset > limit || needed > limit - footer.index_offset {
            return Err(GalaxError::Internal(Fault::IndexOutOfBounds));
        }
        let first: usize = (footer.index_offset + 4) as usize;
        let mut pos: usize = first;
        let mut i: u32 = 0;
        while i < footer.block_count
            invariant
                i <= footer.block_count,
                first == footer.index_offset + 4,
                pos == first + 12 * i,
                first + 12 * footer.block_count <= data@.len(),
                data@.len() <= usize::MAX,
                entries@ == entries_at(data@, first as int, i as nat),
            decreases footer.block_count - i,
        {
            let file_offset: u64 = get_u64(data, pos);
            let block_len: u32 = get_u32(data, pos + 8);
            entries.push(BlockIndexEntry { file_offset, block_len });
            assert(entries@ =~= entries_at(data@, first as int, (i + 1) as nat));
            pos = pos + 12;
            i = i + 1;
        }
        Ok(SstBlockIndex { entries })
    }

    /// Reads the index offset and the block count from the footer of a file.
    pub fn read_footer(data: &[u8]) -> (result: GalaxResult<(u64, u32)>)
        ensures
            match result {
                Ok((index_offset, block_count)) => parse_footer(data@) matches Ok(footer)
                    && footer.index_offset == index_offset && footer.block_count == block_count,
                Err(error) => parse_footer(data@) == Err::<Footer, GalaxError>(error),
            },
    {
        match SstBlockIndex::parse_footer(data) {
            Ok(footer) => Ok((footer.index_offset, footer.block_count)),
            Err(error) => Err(error),
        }
    }
}

impl Default for SstBlockIndex {
    fn default() -> (index: Self)
        ensures
            index.entries@ == Seq::<BlockIndexEntry>::empty(),
    {
        SstBlockIndex::new()
    }
}

// Packing blocks into a file

/// The index of blocks that stand one after the other.
pub open spec fn entries_of(blocks: Seq<Seq<u8>>) -> Seq<BlockIndexEntry> {
    Seq::new(
        blocks.len(),
        |i: int|
            BlockIndexEntry {
                file_offset: concat(blocks.take(i)).len() as u64,
                block_len: blocks[i].len() as u32,
            },
    )
}

/// Byte form of a file that holds these blocks.
pub open spec fn sst_bytes(blocks: Seq<Seq<u8>>) -> Seq<u8> {
    concat(blocks) + index_bytes(entries_of(blocks), concat(blocks).len() as u64)
}

/// The bytes of a file that an index entry points to.
pub open spec fn block_at(data: Seq<u8>, entry: BlockIndexEntry) -> Seq<u8> {
    data.subrange(entry.file_offset as int, entry.file_offset + entry.block_len)
}

/// Whether the index can tell where each block stands.
pub open spec fn indexable(blocks: Seq<Seq<u8>>) -> bool {
    &&& blocks.len() <= u32::MAX
    &&& concat(blocks).len() <= u64::MAX
    &&& forall|i: int| 0 <= i < blocks.len() ==> (#[trigger] blocks[i]).len() <= u32::MAX
}

/// The index of a file leads to each of its blocks.
#[verifier::rlimit(50)]
pub proof fn lemma_sst_round_trip(blocks: Seq<Seq<u8>>)
    requires
        indexable(blocks),
    ensures
        parse_index(sst_bytes(blocks)) == Ok::<Seq<BlockIndexEntry>, GalaxError>(
            entries_of(blocks),
        ),
        forall|i: int|
            0 <= i < blocks.len() ==> {
                let entry = #[trigger] entries_of(blocks)[i];
                &&& entry.file_offset + entry.block_len <= sst_bytes(blocks).len()
                &&& block_at(sst_bytes(blocks), entry) == blocks[i]
            },
{
    lemma_index_round_trip(concat(blocks), entries_of(blocks));
    assert forall|i: int| 0 <= i < blocks.len() implies {
        let entry = #[trigger] entries_of(blocks)[i];
        &&& entry.file_offset + entry.block_len <= sst_bytes(blocks).len()
        &&& block_at(sst_bytes(blocks), entry) == blocks[i]
    } by {
        lemma_concat_part(blocks, i);
        assert(blocks[i].len() <= u32::MAX);
        let entry = entries_of(blocks)[i];
        assert(block_at(sst_bytes(blocks), entry) =~= block_at(concat(blocks), entry));
    }
}

/// A file in the making: blocks and their index.
pub struct SstPacker {
    data: Vec<u8>,
    index: SstBlockIndex,
    blocks: Ghost<Seq<Seq<u8>>>,
}

impl View for SstPacker {
    type V = Seq<Seq<u8>>;

    /// The blocks, in order.
    closed spec fn view(&self) -> Seq<Seq<u8>> {
        self.blocks@
    }
}

impl SstPacker {
    /// Data and index are those of the blocks.
    pub closed spec fn inv(&self) -> bool {
        &&& self.data@ == concat(self@)
        &&& self.index.entries@ == entries_of(self@)
    }

    /// Starts an empty file.
    pub fn new() -> (packer: Self)
        ensures
            packer.inv(),
            packer@ == Seq::<Seq<u8>>::empty(),
    {
        let packer = SstPacker {
            data: Vec::new(),
            index: SstBlockIndex::new(),
            blocks: Ghost(Seq::<Seq<u8>>::empty()),
        };
        assert(packer.index.entries@ =~= entries_of(packer@));
        packer
    }

    /// Adds a block.
    pub fn add(&mut self, block: &[u8])
        requires
            old(self).inv(),
        ensures
            final(self).inv(),
            final(self)@ == old(self)@.push(block@),
    {
        let ghost before = self@;
        let offset: u64 = self.data.len() as u64;
        let len: u32 = #[verifier::truncate] (block.len() as u32);
        self.index.add_block(offset, len);
        put_bytes(&mut self.data, block);
        self.blocks = Ghost(before.push(block@));
        proof {
            assert(self@.drop_last() =~= before);
            let entries = entries_of(self@);
            assert forall|i: int| 0 <= i < entries.len() implies self.index.entries@[i]
                == entries[i] by {
                assert(self@.take(i) =~= before.take(i));
                if i == before.len() {
                    assert(before.take(i) =~= before);
                }
            }
            assert(self.index.entries@ =~= entries);
        }
    }

    /// Number of blocks.
    pub fn block_count(&self) -> (count: usize)
        requires
            self.inv(),
        ensures
            count == self@.len(),
    {
        self.index.block_count()
    }

    /// Total length of the blocks.
    pub fn len(&self) -> (len: usize)
        requires
            self.inv(),
        ensures
            len == concat(self@).len(),
    {
        self.data.len()
    }

    /// The file: the blocks, their index and the footer.
    pub fn finish(self) -> (bytes: Vec<u8>)
        requires
            self.inv(),
        ensures
            bytes@ == sst_bytes(self@),
    {
        let offset: u64 = self.data.len() as u64;
        let footer = self.index.serialize_with_footer(offset);
        let mut bytes = self.data;
        put_bytes(&mut bytes, footer.as_slice());
        bytes
    }
}

} // verus!
