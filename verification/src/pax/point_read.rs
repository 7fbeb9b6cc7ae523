//! Reading one value out of a serialized block, without deserializing it.

use vstd::prelude::*;
use vstd::slice::slice_subrange;
use xxhash_rust::xxh3::xxh3_64;

use super::block::{
    block_bytes, block_fits, body_bytes, checked_part, chunks_of, column_chunk, concat, described,
    lemma_block_round_trip, lemma_concat_part, lemma_written_block_sealed, same_rows, sealed,
    stored_checksum, written_block, BlockView, ColumnView,
};
use super::codec::{decompress_row, is_chunk, row_decodes_to, row_result};
use super::framing::{lemma_framed_row_agrees, lemma_framing_round_trip, lengths_fit};
use super::header::{
    header_bytes, number_at, parse_descriptor, parse_descriptors, parse_header, stands_at,
    DescriptorView,
};
use super::header::{lemma_header_round_trip, lemma_stands_split};
use super::CodecId;
use crate::bytes::{get_u16, get_u32, get_u64};
use crate::bytes::{lemma_byte_range_values, lemma_le_bytes_len};
use crate::column::ColumnType;
use crate::error::{Fault, GalaxError, GalaxResult};
use crate::hash::xxh3_64_of;

verus! {

/// The part of a descriptor that a point read needs.
pub ghost struct ChunkPlace {
    pub codec: u8,
    pub offset: nat,
    pub len: nat,
    /// Where the descriptor ends.
    pub next: int,
}

/// The descriptor at `pos`, as far as a point read needs it.
pub open spec fn skim(data: Seq<u8>, pos: int) -> Option<ChunkPlace> {
    if pos + 1 > data.len() {
        None
    } else {
        let at_codec = pos + if data[pos] == 14 {
            5int
        } else {
            1int
        };
        if at_codec + 17 > data.len() {
            None
        } else {
            let at_max = at_codec + 17 + number_at(data, at_codec + 13, 4);
            if at_max + 4 > data.len() {
                None
            } else {
                Some(
                    ChunkPlace {
                        codec: data[at_codec],
                        offset: number_at(data, at_codec + 1, 8),
                        len: number_at(data, at_codec + 9, 4),
                        next: at_max + 4 + number_at(data, at_max, 4),
                    },
                )
            }
        }
    }
}

/// Where the descriptor `n` places after the one at `pos` stands.
pub open spec fn skip_descriptors(data: Seq<u8>, pos: int, n: nat) -> Option<int>
    decreases n,
{
    if n == 0 {
        Some(pos)
    } else {
        match skim(data, pos) {
            None => None,
            Some(place) => skip_descriptors(data, place.next, (n - 1) as nat),
        }
    }
}

/// The codec byte and the chunk of a column, in the checked part of a block.
pub open spec fn raw_chunk(data: Seq<u8>, index: nat) -> Result<(u8, Seq<u8>), GalaxError> {
    let columns = number_at(data, 25, 2);
    match skip_descriptors(data, 27, columns) {
        None => Err(GalaxError::Internal(Fault::HeaderTruncated)),
        Some(end) => {
            let place = skim(data, skip_descriptors(data, 27, index)->0)->0;
            let start = end + place.offset;
            if start + place.len > data.len() {
                Err(GalaxError::Internal(Fault::ColumnDataOutOfBounds))
            } else {
                Ok((place.codec, data.subrange(start, start + place.len)))
            }
        },
    }
}

/// What a point read comes to.
pub open spec fn value_reads(
    block_data: Seq<u8>,
    index: usize,
    row: u32,
    outcome: Result<Seq<u8>, GalaxError>,
) -> bool {
    if block_data.len() < 8 {
        outcome == Err::<Seq<u8>, GalaxError>(GalaxError::Internal(Fault::BlockTooSmall))
    } else {
        let data = checked_part(block_data);
        let stored = stored_checksum(block_data);
        if xxh3_64_of(data) != stored {
            outcome == Err::<Seq<u8>, GalaxError>(
                GalaxError::ChecksumMismatch { expected: stored, actual: xxh3_64_of(data) },
            )
        } else if data.len() < 27 {
            outcome == Err::<Seq<u8>, GalaxError>(GalaxError::Internal(Fault::BlockTooSmall))
        } else {
            let rows = number_at(data, 13, 4) as u32;
            let columns = number_at(data, 25, 2) as usize;
            if index >= columns {
                outcome == Err::<Seq<u8>, GalaxError>(
                    GalaxError::Internal(Fault::ColumnOutOfRange { index, columns }),
                )
            } else if row >= rows {
                outcome == Err::<Seq<u8>, GalaxError>(
                    GalaxError::Internal(Fault::RowOutOfRange { row, rows }),
                )
            } else {
                match raw_chunk(data, index as nat) {
                    Err(error) => outcome == Err::<Seq<u8>, GalaxError>(error),
                    Ok((byte, chunk)) => match CodecId::of_byte(byte) {
                        None => outcome == Err::<Seq<u8>, GalaxError>(
                            GalaxError::Internal(Fault::UnknownCodec(byte)),
                        ),
                        Some(codec) => row_decodes_to(
                            ColumnType::Blob,
                            codec,
                            chunk,
                            rows as nat,
                            row as nat,
                            outcome,
                        ),
                    },
                }
            }
        }
    }
}

// Agreement with deserialized blocks

proof fn lemma_skim_agrees(data: Seq<u8>, pos: int)
    requires
        0 <= pos,
        parse_descriptor(data, pos) is Ok,
    ensures
        ({
            let (d, next) = parse_descriptor(data, pos)->Ok_0;
            skim(data, pos) == Some(
                ChunkPlace {
                    codec: d.codec.byte(),
                    offset: d.offset as nat,
                    len: d.compressed_len as nat,
                    next,
                },
            ) && next > pos
        }),
{
    let (d, next) = parse_descriptor(data, pos)->Ok_0;
    let at_codec = pos + if data[pos] == 14 {
        5int
    } else {
        1int
    };
    lemma_byte_range_values();
    crate::bytes::lemma_le_value_bound(data.subrange(at_codec + 1, at_codec + 9));
    crate::bytes::lemma_le_value_bound(data.subrange(at_codec + 9, at_codec + 13));
}

proof fn lemma_skip_agrees(data: Seq<u8>, pos: int, count: nat, i: nat)
    requires
        0 <= pos,
        i < count,
        parse_descriptors(data, pos, count) is Ok,
    ensures
        ({
            let (descriptors, end) = parse_descriptors(data, pos, count)->Ok_0;
            &&& descriptors.len() == count
            &&& skip_descriptors(data, pos, count) == Some(end)
            &&& skip_descriptors(data, pos, i) is Some
            &&& skim(data, skip_descriptors(data, pos, i)->0) matches Some(place)
            &&& place.codec == descriptors[i as int].codec.byte()
            &&& place.offset == descriptors[i as int].offset
            &&& place.len == descriptors[i as int].compressed_len
        }),
    decreases count,
{
    let (first, next) = parse_descriptor(data, pos)->Ok_0;
    lemma_skim_agrees(data, pos);
    let (rest, end) = parse_descriptors(data, next, (count - 1) as nat)->Ok_0;
    if count == 1 {
        assert(rest =~= Seq::<DescriptorView>::empty());
        assert(skip_descriptors(data, next, 0) == Some(next));
    } else if i > 0 {
        lemma_skip_agrees(data, next, (count - 1) as nat, (i - 1) as nat);
    } else {
        lemma_skip_agrees(data, next, (count - 1) as nat, 0);
    }
}

/// In a sealed block, a point read finds the chunk that the deserialized block
/// has for the column.
pub proof fn lemma_point_read_agrees(b: BlockView, index: nat)
    requires
        sealed(b),
        index < b.header.descriptors.len(),
        column_chunk(b, index as int) is Ok,
    ensures
        checked_part(block_bytes(b)) == body_bytes(b),
        number_at(body_bytes(b), 13, 4) == b.header.row_count,
        number_at(body_bytes(b), 25, 2) == b.header.descriptors.len(),
        raw_chunk(body_bytes(b), index) == Ok::<(u8, Seq<u8>), GalaxError>(
            (
                b.header.descriptors[index as int].codec.byte(),
                column_chunk(b, index as int)->Ok_0.1,
            ),
        ),
{
    let body = body_bytes(b);
    let h = header_bytes(b.header);
    lemma_le_bytes_len(b.checksum as nat, 8);
    assert(checked_part(block_bytes(b)) =~= body);
    assert(body.subrange(0, body.len() as int) =~= body);
    let offsets = super::block::offsets_bytes(b.row_offsets);
    assert(stands_at(body, 0, h + b.column_data + offsets));
    lemma_stands_split(body, 0, h + b.column_data, offsets);
    lemma_stands_split(body, 0, h, b.column_data);
    lemma_header_round_trip(body, b.header);
    lemma_byte_range_values();
    crate::bytes::lemma_le_value_bound(body.subrange(13, 17));
    crate::bytes::lemma_le_value_bound(body.subrange(25, 27));
    let count = b.header.descriptors.len();
    lemma_skip_agrees(body, 27, count, index);
    let d = b.header.descriptors[index as int];
    let start = h.len() + d.offset as int;
    let stop = start + d.compressed_len;
    assert(body.subrange(h.len() as int, (h.len() + b.column_data.len()) as int) == b.column_data);
    assert(body.subrange(start, stop) =~= b.column_data.subrange(
        d.offset as int,
        d.offset + d.compressed_len,
    )) by {
        assert forall|i: int| 0 <= i < d.compressed_len implies body.subrange(start, stop)[i]
            == b.column_data.subrange(d.offset as int, d.offset + d.compressed_len)[i] by {
            assert(b.column_data[d.offset + i] == body.subrange(
                h.len() as int,
                (h.len() + b.column_data.len()) as int,
            )[d.offset + i]);
        }
    }
}

/// In a sealed block, a point read decodes the row out of the chunk of the
/// column.
pub proof fn lemma_point_read_decodes(
    b: BlockView,
    index: usize,
    row: u32,
    outcome: Result<Seq<u8>, GalaxError>,
)
    requires
        sealed(b),
        index < b.header.descriptors.len(),
        column_chunk(b, index as int) is Ok,
        row < b.header.row_count,
        value_reads(block_bytes(b), index, row, outcome),
    ensures
        row_decodes_to(
            ColumnType::Blob,
            b.header.descriptors[index as int].codec,
            column_chunk(b, index as int)->Ok_0.1,
            b.header.row_count as nat,
            row as nat,
            outcome,
        ),
{
    lemma_point_read_agrees(b, index as nat);
    lemma_block_round_trip(b);
    let codec = b.header.descriptors[index as int].codec;
    assert(CodecId::of_byte(codec.byte()) == Some(codec));
    assert(parse_header(body_bytes(b)) is Ok);
}

/// A point read of an uncompressed column gives the value that was written.
pub proof fn lemma_written_value_reads_back(
    block_id: u64,
    commit_timestamp: u64,
    columns: Seq<ColumnView>,
    codecs: Seq<CodecId>,
    index: usize,
    row: u32,
    outcome: Result<Seq<u8>, GalaxError>,
)
    requires
        index < columns.len(),
        same_rows(columns),
        block_fits(columns, codecs),
        concat(chunks_of(columns, codecs)).len() <= u64::MAX,
        codecs[index as int] == CodecId::Uncompressed,
        lengths_fit(columns[index as int].rows),
        is_chunk(
            columns[index as int].col_type,
            codecs[index as int],
            columns[index as int].rows,
            chunks_of(columns, codecs)[index as int],
        ),
        row < columns[0].rows.len(),
        value_reads(
            block_bytes(written_block(block_id, commit_timestamp, columns, codecs)),
            index,
            row,
            outcome,
        ),
    ensures
        outcome == Ok::<Seq<u8>, GalaxError>(columns[index as int].rows[row as int]),
{
    let i = index as int;
    let b = written_block(block_id, commit_timestamp, columns, codecs);
    let chunks = chunks_of(columns, codecs);
    let values = columns[i].rows;
    assert(columns[i].rows.len() == columns[0].rows.len());
    lemma_written_block_sealed(block_id, commit_timestamp, columns, codecs);
    assert(b.header.descriptors[i] == described(columns, codecs, i));
    lemma_concat_part(chunks, i);
    assert(chunks[i].len() <= u32::MAX);
    assert(column_chunk(b, i)->Ok_0.1 == chunks[i]);
    lemma_point_read_decodes(b, index, row, outcome);
    lemma_framing_round_trip(values);
    lemma_framed_row_agrees(chunks[i], 0, values.len(), row as nat);
}

// Executable functions

/// Reads the descriptor at `pos`, as far as a point read needs it: codec byte,
/// offset and length of the chunk, and where the descriptor ends.
fn skim_descriptor(data: &[u8], pos: u64) -> (place: Option<(u8, u64, u32, u64)>)
    requires
        pos <= 0x1000_0000_0000_0000,
    ensures
        match place {
            Some((codec, offset, len, next)) => {
                &&& skim(data@, pos as int) == Some(
                    ChunkPlace {
                        codec,
                        offset: offset as nat,
                        len: len as nat,
                        next: next as int,
                    },
                )
                &&& next <= pos + 0x3_0000_0000
            },
            None => skim(data@, pos as int) is None,
        },
{
    let size: u64 = data.len() as u64;
    if pos >= size {
        return None;
    }
    let at: usize = pos as usize;
    let type_len: u64 = if data[at] == 14 {
        5
    } else {
        1
    };
    let at_codec64: u64 = pos + type_len;
    if at_codec64 + 17 > size {
        return None;
    }
    let at_codec: usize = at_codec64 as usize;
    let codec: u8 = data[at_codec];
    let offset: u64 = get_u64(data, at_codec + 1);
    let len: u32 = get_u32(data, at_codec + 9);
    let min_len: u64 = get_u32(data, at_codec + 13) as u64;
    let at_max64: u64 = at_codec64 + 17 + min_len;
    if at_max64 + 4 > size {
        return None;
    }
    let max_len: u64 = get_u32(data, at_max64 as usize) as u64;
    Some((codec, offset, len, at_max64 + 4 + max_len))
}

/// Finds the chunk of a column: its codec byte, and where it stands.
fn find_chunk(data: &[u8], col_index: usize, column_count: u16) -> (result: GalaxResult<
    (u8, usize, usize),
>)
    requires
        data@.len() >= 27,
        column_count == number_at(data@, 25, 2),
        col_index < column_count,
    ensures
        match result {
            Ok((codec, start, end)) => start <= end <= data@.len() && raw_chunk(
                data@,
                col_index as nat,
            ) == Ok::<(u8, Seq<u8>), GalaxError>(
                (codec, data@.subrange(start as int, end as int)),
            ),
            Err(error) => raw_chunk(data@, col_index as nat) == Err::<(u8, Seq<u8>), GalaxError>(
                error,
            ),
        },
{
    let mut pos: u64 = 27;
    let mut col: u16 = 0;
    let mut target_codec: u8 = 0;
    let mut target_offset: u64 = 0;
    let mut target_len: u32 = 0;
    let ghost all = skip_descriptors(data@, 27, column_count as nat);
    while col < column_count
        invariant
            col <= column_count,
            col_index < column_count,
            column_count == number_at(data@, 25, 2),
            pos <= 27 + col * 0x3_0000_0000,
            all == skip_descriptors(data@, 27, column_count as nat),
            skip_descriptors(data@, 27, col as nat) == Some(pos as int),
            all == skip_descriptors(data@, pos as int, (column_count - col) as nat),
            col > col_index ==> {
                &&& skip_descriptors(data@, 27, col_index as nat) is Some
                &&& skim(data@, skip_descriptors(data@, 27, col_index as nat)->0) matches Some(
                    place,
                )
                &&& place.codec == target_codec
                &&& place.offset == target_offset
                &&& place.len == target_len
            },
        decreases column_count - col,
    {
        match skim_descriptor(data, pos) {
            None => {
                return Err(GalaxError::Internal(Fault::HeaderTruncated));
            },
            Some((codec, offset, len, next)) => {
                if col as usize == col_index {
                    target_codec = codec;
                    target_offset = offset;
                    target_len = len;
                }
                proof {
                    lemma_skip_one_more(data@, 27, col as nat);
                }
                pos = next;
            },
        }
        col = col + 1;
    }
    let size: u64 = data.len() as u64;
    if pos > size || target_offset > size - pos || target_len as u64 > size - pos - target_offset {
        return Err(GalaxError::Internal(Fault::ColumnDataOutOfBounds));
    }
    let start: usize = (pos + target_offset) as usize;
    Ok((target_codec, start, start + target_len as usize))
}

proof fn lemma_skip_one_more(data: Seq<u8>, pos: int, n: nat)
    requires
        skip_descriptors(data, pos, n) is Some,
    ensures
        skip_descriptors(data, pos, n + 1) == (match skim(
            data,
            skip_descriptors(data, pos, n)->0,
        ) {
            None => None,
            Some(place) => Some(place.next),
        }),
    decreases n,
{
    if n > 0 {
        lemma_skip_one_more(data, skim(data, pos)->0.next, (n - 1) as nat);
    } else {
        reveal_with_fuel(skip_descriptors, 2);
    }
}

/// Extracts a single value from the raw bytes of a block: verifies the
/// checksum, finds the chunk of the column in the header, and reads the row.
/// Compressed columns are read as columns of bytes.
pub fn read_value_from_raw_block(block_data: &[u8], col_index: usize, row_offset: u32) -> (result:
    GalaxResult<Vec<u8>>)
    ensures
        value_reads(block_data@, col_index, row_offset, row_result(result)),
{
    if block_data.len() < 8 {
        return Err(GalaxError::Internal(Fault::BlockTooSmall));
    }
    let checksum_offset: usize = block_data.len() - 8;
    let stored: u64 = get_u64(block_data, checksum_offset);
    let data = slice_subrange(block_data, 0, checksum_offset);
    let computed: u64 = xxh3_64(data);
    if computed != stored {
        return Err(GalaxError::ChecksumMismatch { expected: stored, actual: computed });
    }
    if data.len() < 27 {
        return Err(GalaxError::Internal(Fault::BlockTooSmall));
    }
    let row_count: u32 = get_u32(data, 13);
    let column_count: u16 = get_u16(data, 25);
    if col_index >= column_count as usize {
        return Err(
            GalaxError::Internal(
                Fault::ColumnOutOfRange { index: col_index, columns: column_count as usize },
            ),
        );
    }
    if row_offset >= row_count {
        return Err(
            GalaxError::Internal(Fault::RowOutOfRange { row: row_offset, rows: row_count }),
        );
    }
    let (codec_byte, start, end) = match find_chunk(data, col_index, column_count) {
        Ok(found) => found,
        Err(error) => {
            return Err(error);
        },
    };
    let codec = match CodecId::from_u8(codec_byte) {
        Some(codec) => codec,
        None => {
            return Err(GalaxError::Internal(Fault::UnknownCodec(codec_byte)));
        },
    };
    let chunk = slice_subrange(data, start, end);
    decompress_row(&ColumnType::Blob, codec, chunk, row_count, row_offset)
}

} // verus!
