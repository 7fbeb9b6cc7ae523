//! Whole blocks: writing, serializing, reading back.

use vstd::prelude::*;
use vstd::slice::{slice_subrange, slice_to_vec};
use xxhash_rust::xxh3::xxh3_64;

use super::codec::{chunk_of, compress, decodes_to, decompress, decompress_row, is_chunk};
use super::codec::{row_decodes_to, row_result, rows_result, storable};
use super::codec::{lemma_codec_round_trip, lemma_rows_len};
use super::framing::lemma_framed_row_agrees;
use super::header::{
    deserialize_header, descriptor_fits, descriptor_views, header_bytes, number_at, parse_header,
    serialize_header, stands_at, ColumnDescriptor, DescriptorView, HeaderView, PaxBlockHeader,
};
use super::header::{lemma_header_round_trip, lemma_number_stands, lemma_stands_split};
use super::zone_map::{extract_zone_map, greatest, least};
use super::{CodecId, PAX_FORMAT_VERSION, PAX_MAGIC};
use crate::bytes::{get_u32, get_u64, le_bytes, put_bytes, put_u32, put_u64, views};
use crate::bytes::{lemma_byte_range_values, lemma_le_bytes_len};
use crate::column::{BlockId, ColumnType, Timestamp};
use crate::error::{Fault, GalaxError, GalaxResult};
use crate::hash::xxh3_64_of;

verus! {

/// A complete block with header, column data, row offsets, and checksum.
#[derive(Debug)]
pub struct PaxBlock {
    /// Block header with metadata and column descriptors.
    pub header: PaxBlockHeader,
    /// Compressed column chunks, one after the other.
    pub column_data: Vec<u8>,
    /// Row offset table: byte offsets of the rows in the uncompressed layout.
    pub row_offsets: Vec<u32>,
    /// XXH3 checksum of the block without the checksum itself.
    pub checksum: u64,
}

/// What a block holds.
#[verifier::ext_equal]
pub ghost struct BlockView {
    pub header: HeaderView,
    pub column_data: Seq<u8>,
    pub row_offsets: Seq<u32>,
    pub checksum: u64,
}

impl View for PaxBlock {
    type V = BlockView;

    open spec fn view(&self) -> BlockView {
        BlockView {
            header: self.header@,
            column_data: self.column_data@,
            row_offsets: self.row_offsets@,
            checksum: self.checksum,
        }
    }
}

/// Input column data for writing a block.
#[derive(Debug)]
pub struct ColumnData {
    /// The column's data type.
    pub col_type: ColumnType,
    /// Raw value of each row.
    pub values: Vec<Vec<u8>>,
}

/// What a column holds.
#[verifier::ext_equal]
pub ghost struct ColumnView {
    pub col_type: ColumnType,
    pub rows: Seq<Seq<u8>>,
}

impl View for ColumnData {
    type V = ColumnView;

    open spec fn view(&self) -> ColumnView {
        ColumnView { col_type: self.col_type, rows: views(self.values@) }
    }
}

impl Clone for ColumnData {
    fn clone(&self) -> (copy: Self)
        ensures
            copy@ == self@,
    {
        let mut values: Vec<Vec<u8>> = Vec::new();
        let mut i: usize = 0;
        while i < self.values.len()
            invariant
                i <= self.values@.len(),
                values@.len() == i,
                forall|k: int| 0 <= k < i ==> (#[trigger] values@[k])@ == self.values@[k]@,
            decreases self.values@.len() - i,
        {
            values.push(slice_to_vec(self.values[i].as_slice()));
            i = i + 1;
        }
        assert(views(values@) =~= views(self.values@));
        ColumnData { col_type: self.col_type, values }
    }
}

/// What columns hold.
pub open spec fn column_views(columns: Seq<ColumnData>) -> Seq<ColumnView> {
    Seq::new(columns.len(), |i: int| columns[i]@)
}

// Byte form

/// Byte form of a row offset table.
pub open spec fn offsets_bytes(offsets: Seq<u32>) -> Seq<u8>
    decreases offsets.len(),
{
    if offsets.len() == 0 {
        Seq::<u8>::empty()
    } else {
        offsets_bytes(offsets.drop_last()) + le_bytes(offsets.last() as nat, 4)
    }
}

/// Byte form of a block without its checksum.
pub open spec fn body_bytes(b: BlockView) -> Seq<u8> {
    header_bytes(b.header) + b.column_data + offsets_bytes(b.row_offsets)
}

/// Byte form of a block.
pub open spec fn block_bytes(b: BlockView) -> Seq<u8> {
    body_bytes(b) + le_bytes(b.checksum as nat, 8)
}

/// Total length of the chunks that descriptors describe.
pub open spec fn total_len(descriptors: Seq<DescriptorView>) -> nat
    decreases descriptors.len(),
{
    if descriptors.len() == 0 {
        0
    } else {
        total_len(descriptors.drop_last()) + descriptors.last().compressed_len as nat
    }
}

/// The row offsets stored at `pos`.
pub open spec fn offsets_at(data: Seq<u8>, pos: int, count: nat) -> Seq<u32> {
    Seq::new(count, |i: int| number_at(data, pos + 4 * i, 4) as u32)
}

/// The checksum that the last 8 bytes spell.
pub open spec fn stored_checksum(data: Seq<u8>) -> u64 {
    number_at(data, data.len() - 8, 8) as u64
}

/// The bytes that the checksum covers.
pub open spec fn checked_part(data: Seq<u8>) -> Seq<u8> {
    data.subrange(0, data.len() - 8)
}

/// The block that bytes stand for.
pub open spec fn parse_block(data: Seq<u8>) -> Result<BlockView, GalaxError> {
    if data.len() < 8 {
        Err(GalaxError::Internal(Fault::BlockTooSmall))
    } else {
        let body = checked_part(data);
        let stored = stored_checksum(data);
        if xxh3_64_of(body) != stored {
            Err(GalaxError::ChecksumMismatch { expected: stored, actual: xxh3_64_of(body) })
        } else {
            match parse_header(body) {
                Err(error) => Err(error),
                Ok((header, start)) => if header.magic != PAX_MAGIC {
                    Err(GalaxError::InvalidMagic(header.magic))
                } else {
                    let end = start + total_len(header.descriptors);
                    if end > body.len() {
                        Err(GalaxError::Internal(Fault::ColumnDataOutOfBounds))
                    } else if end + 4 * header.row_count > body.len() {
                        Err(GalaxError::Internal(Fault::RowOffsetsOutOfBounds))
                    } else {
                        Ok(
                            BlockView {
                                header,
                                column_data: body.subrange(start, end),
                                row_offsets: offsets_at(body, end, header.row_count as nat),
                                checksum: stored,
                            },
                        )
                    }
                },
            }
        }
    }
}

/// A block that can be read back: its parts agree, its lengths can be stored,
/// and its checksum is right.
pub open spec fn sealed(b: BlockView) -> bool {
    &&& b.header.magic == PAX_MAGIC
    &&& b.header.column_count == b.header.descriptors.len()
    &&& forall|i: int|
        0 <= i < b.header.descriptors.len() ==> descriptor_fits(#[trigger] b.header.descriptors[i])
    &&& total_len(b.header.descriptors) == b.column_data.len()
    &&& b.row_offsets.len() == b.header.row_count
    &&& b.checksum == xxh3_64_of(body_bytes(b))
}

proof fn lemma_offsets_stand(data: Seq<u8>, pos: int, offsets: Seq<u32>)
    requires
        stands_at(data, pos, offsets_bytes(offsets)),
    ensures
        offsets_bytes(offsets).len() == 4 * offsets.len(),
        offsets_at(data, pos, offsets.len()) == offsets,
    decreases offsets.len(),
{
    if offsets.len() == 0 {
        assert(offsets_at(data, pos, 0) =~= offsets);
    } else {
        let front = offsets.drop_last();
        let last = offsets.last();
        lemma_le_bytes_len(last as nat, 4);
        lemma_byte_range_values();
        lemma_stands_split(data, pos, offsets_bytes(front), le_bytes(last as nat, 4));
        lemma_offsets_stand(data, pos, front);
        lemma_number_stands(data, pos + 4 * front.len(), last as nat, 4);
        assert forall|i: int| 0 <= i < offsets.len() implies offsets_at(data, pos, offsets.len())[i]
            == offsets[i] by {
            if i < front.len() {
                assert(offsets_at(data, pos, front.len())[i] == front[i]);
            }
        }
        assert(offsets_at(data, pos, offsets.len()) =~= offsets);
    }
}

/// A sealed block is read back as it was serialized.
#[verifier::rlimit(50)]
pub proof fn lemma_block_round_trip(b: BlockView)
    requires
        sealed(b),
    ensures
        parse_block(block_bytes(b)) == Ok::<BlockView, GalaxError>(b),
{
    let data = block_bytes(b);
    let body = body_bytes(b);
    let tail = le_bytes(b.checksum as nat, 8);
    lemma_le_bytes_len(b.checksum as nat, 8);
    lemma_byte_range_values();
    assert(checked_part(data) =~= body);
    assert(data.subrange(data.len() - 8, data.len() as int) =~= tail);
    lemma_number_stands(data, data.len() - 8, b.checksum as nat, 8);
    let h = header_bytes(b.header);
    let offsets = offsets_bytes(b.row_offsets);
    assert(body.subrange(0, body.len() as int) =~= body);
    assert(stands_at(body, 0, h + b.column_data + offsets));
    lemma_stands_split(body, 0, h + b.column_data, offsets);
    lemma_stands_split(body, 0, h, b.column_data);
    lemma_header_round_trip(body, b.header);
    lemma_offsets_stand(body, (h.len() + b.column_data.len()) as int, b.row_offsets);
}

// Writing

/// Chunks one after the other.
pub open spec fn concat(chunks: Seq<Seq<u8>>) -> Seq<u8>
    decreases chunks.len(),
{
    if chunks.len() == 0 {
        Seq::<u8>::empty()
    } else {
        concat(chunks.drop_last()) + chunks.last()
    }
}

/// The chunks of columns under their codecs.
pub open spec fn chunks_of(columns: Seq<ColumnView>, codecs: Seq<CodecId>) -> Seq<Seq<u8>> {
    Seq::new(
        columns.len(),
        |i: int| chunk_of(columns[i].col_type, codecs[i], columns[i].rows)->Ok_0,
    )
}

/// The descriptor of the column at `i`.
pub open spec fn described(columns: Seq<ColumnView>, codecs: Seq<CodecId>, i: int) -> DescriptorView {
    let chunks = chunks_of(columns, codecs);
    DescriptorView {
        col_type: columns[i].col_type,
        codec: codecs[i],
        offset: concat(chunks.take(i)).len() as u64,
        compressed_len: chunks[i].len() as u32,
        zone_map_min: least(columns[i].col_type, columns[i].rows),
        zone_map_max: greatest(columns[i].col_type, columns[i].rows),
    }
}

/// Size of a row over the first `n` columns, each value's length taken in 32 bits.
pub open spec fn row_size(columns: Seq<ColumnView>, row: int, n: nat) -> nat
    decreases n,
{
    if n == 0 {
        0
    } else {
        row_size(columns, row, (n - 1) as nat) + (columns[n - 1].rows[row].len() as u32) as nat
    }
}

/// Size of the first `n` rows.
pub open spec fn rows_size(columns: Seq<ColumnView>, n: nat) -> nat
    decreases n,
{
    if n == 0 {
        0
    } else {
        rows_size(columns, (n - 1) as nat) + row_size(columns, n - 1, columns.len())
    }
}

/// Where each row starts in the uncompressed layout, as far as 32 bits reach.
pub open spec fn row_offsets_of(columns: Seq<ColumnView>, rows: nat) -> Seq<u32> {
    Seq::new(
        rows,
        |i: int|
            if rows_size(columns, i as nat) > u32::MAX {
                u32::MAX
            } else {
                rows_size(columns, i as nat) as u32
            },
    )
}

/// The block that columns are written as.
pub open spec fn written_block(
    block_id: u64,
    commit_timestamp: u64,
    columns: Seq<ColumnView>,
    codecs: Seq<CodecId>,
) -> BlockView {
    let b = BlockView {
        header: HeaderView {
            magic: PAX_MAGIC,
            format_version: PAX_FORMAT_VERSION,
            block_id,
            row_count: columns[0].rows.len() as u32,
            commit_timestamp,
            column_count: columns.len() as u16,
            descriptors: Seq::new(columns.len(), |i: int| described(columns, codecs, i)),
        },
        column_data: concat(chunks_of(columns, codecs)),
        row_offsets: row_offsets_of(columns, columns[0].rows.len()),
        checksum: 0,
    };
    BlockView { checksum: xxh3_64_of(body_bytes(b)), ..b }
}

/// Whether all columns have as many rows as the first.
pub open spec fn same_rows(columns: Seq<ColumnView>) -> bool {
    forall|i: int|
        0 <= i < columns.len() ==> (#[trigger] columns[i]).rows.len() == columns[0].rows.len()
}

/// What writing columns comes to.
pub open spec fn writes_to(
    block_id: u64,
    commit_timestamp: u64,
    columns: Seq<ColumnView>,
    codecs: Seq<CodecId>,
    outcome: Result<BlockView, GalaxError>,
) -> bool {
    if columns.len() == 0 {
        outcome == Err::<BlockView, GalaxError>(GalaxError::Internal(Fault::NoColumns))
    } else if codecs.len() != columns.len() {
        outcome == Err::<BlockView, GalaxError>(
            GalaxError::Internal(
                Fault::CodecCountMismatch {
                    codecs: codecs.len() as usize,
                    columns: columns.len() as usize,
                },
            ),
        )
    } else if !same_rows(columns) {
        outcome == Err::<BlockView, GalaxError>(GalaxError::Internal(Fault::RowCountMismatch))
    } else {
        match outcome {
            Ok(b) => {
                &&& b == written_block(block_id, commit_timestamp, columns, codecs)
                &&& forall|i: int|
                    0 <= i < columns.len() ==> is_chunk(
                        columns[i].col_type,
                        codecs[i],
                        columns[i].rows,
                        #[trigger] chunks_of(columns, codecs)[i],
                    )
            },
            Err(error) => exists|i: int|
                0 <= i < columns.len() && #[trigger] refused(columns[i].col_type, codecs[i], error)
                    && encoded_before(columns, codecs, i),
        }
    }
}

/// Whether the codecs made chunks of the first `n` columns.
pub open spec fn encoded_before(columns: Seq<ColumnView>, codecs: Seq<CodecId>, n: int) -> bool {
    forall|j: int|
        0 <= j < n ==> is_chunk(
            columns[j].col_type,
            codecs[j],
            columns[j].rows,
            #[trigger] chunks_of(columns, codecs)[j],
        )
}

/// The block of given chunks.
pub open spec fn assembled(
    block_id: u64,
    commit_timestamp: u64,
    columns: Seq<ColumnView>,
    codecs: Seq<CodecId>,
    chunks: Seq<Seq<u8>>,
) -> BlockView {
    let b = BlockView {
        header: HeaderView {
            magic: PAX_MAGIC,
            format_version: PAX_FORMAT_VERSION,
            block_id,
            row_count: columns[0].rows.len() as u32,
            commit_timestamp,
            column_count: columns.len() as u16,
            descriptors: Seq::new(
                columns.len(),
                |i: int| placed_chunk(columns, codecs, chunks, i),
            ),
        },
        column_data: concat(chunks),
        row_offsets: row_offsets_of(columns, columns[0].rows.len()),
        checksum: 0,
    };
    BlockView { checksum: xxh3_64_of(body_bytes(b)), ..b }
}

/// The descriptor of a column whose chunk stands among given ones.
pub open spec fn placed_chunk(
    columns: Seq<ColumnView>,
    codecs: Seq<CodecId>,
    chunks: Seq<Seq<u8>>,
    i: int,
) -> DescriptorView {
    DescriptorView {
        col_type: columns[i].col_type,
        codec: codecs[i],
        offset: concat(chunks.take(i)).len() as u64,
        compressed_len: chunks[i].len() as u32,
        zone_map_min: least(columns[i].col_type, columns[i].rows),
        zone_map_max: greatest(columns[i].col_type, columns[i].rows),
    }
}

/// The block of the chunks that the codecs make is the one written.
pub proof fn lemma_assembled(
    block_id: u64,
    commit_timestamp: u64,
    columns: Seq<ColumnView>,
    codecs: Seq<CodecId>,
)
    ensures
        assembled(
            block_id,
            commit_timestamp,
            columns,
            codecs,
            chunks_of(columns, codecs),
        ) == written_block(block_id, commit_timestamp, columns, codecs),
{
    let chunks = chunks_of(columns, codecs);
    let a = assembled(block_id, commit_timestamp, columns, codecs, chunks);
    let w = written_block(block_id, commit_timestamp, columns, codecs);
    assert forall|i: int| 0 <= i < columns.len() implies #[trigger] placed_chunk(
        columns,
        codecs,
        chunks,
        i,
    ) == described(columns, codecs, i) by {}
    assert(a.header.descriptors =~= w.header.descriptors);
}

/// The chunks of results, if all of them hold one.
pub open spec fn chunk_views(chunks: Seq<GalaxResult<Vec<u8>>>) -> Seq<Seq<u8>> {
    Seq::new(
        chunks.len(),
        |i: int|
            match chunks[i] {
                Ok(chunk) => chunk@,
                Err(_) => Seq::<u8>::empty(),
            },
    )
}

/// Whether the first `n` results hold a chunk.
pub open spec fn all_ok(chunks: Seq<GalaxResult<Vec<u8>>>, n: int) -> bool {
    forall|i: int| 0 <= i < n ==> (#[trigger] chunks[i]) is Ok
}

/// Whether a codec refuses a column with this error.
pub open spec fn refused(col_type: ColumnType, codec: CodecId, error: GalaxError) -> bool {
    ||| codec == CodecId::FastPFor && col_type.size() is None && error == GalaxError::Internal(
        Fault::NotFixedWidth,
    )
    ||| codec == CodecId::Zstd && error == GalaxError::Internal(Fault::ZstdCompressionFailed)
}

/// The view of a written block.
pub open spec fn block_result(result: GalaxResult<PaxBlock>) -> Result<BlockView, GalaxError> {
    match result {
        Ok(block) => Ok(block@),
        Err(error) => Err(error),
    }
}

/// Whether every count and length of a block of these columns can be stored.
pub open spec fn block_fits(columns: Seq<ColumnView>, codecs: Seq<CodecId>) -> bool {
    &&& columns.len() <= u16::MAX
    &&& columns[0].rows.len() <= u32::MAX
    &&& forall|i: int|
        0 <= i < columns.len() ==> (#[trigger] chunks_of(columns, codecs)[i]).len() <= u32::MAX
            && descriptor_fits(described(columns, codecs, i))
}

proof fn lemma_total_len(columns: Seq<ColumnView>, codecs: Seq<CodecId>, n: int)
    requires
        0 <= n <= columns.len(),
        block_fits(columns, codecs),
    ensures
        total_len(Seq::new(columns.len(), |i: int| described(columns, codecs, i)).take(n))
            == concat(chunks_of(columns, codecs).take(n)).len(),
    decreases n,
{
    let descriptors = Seq::new(columns.len(), |i: int| described(columns, codecs, i));
    let chunks = chunks_of(columns, codecs);
    if n > 0 {
        lemma_total_len(columns, codecs, n - 1);
        assert(descriptors.take(n).drop_last() =~= descriptors.take(n - 1));
        assert(chunks.take(n).drop_last() =~= chunks.take(n - 1));
        assert(chunks[n - 1].len() <= u32::MAX);
    }
}

/// A written block can be read back.
pub proof fn lemma_written_block_sealed(
    block_id: u64,
    commit_timestamp: u64,
    columns: Seq<ColumnView>,
    codecs: Seq<CodecId>,
)
    requires
        columns.len() > 0,
        block_fits(columns, codecs),
    ensures
        sealed(written_block(block_id, commit_timestamp, columns, codecs)),
{
    let b = written_block(block_id, commit_timestamp, columns, codecs);
    let descriptors = Seq::new(columns.len(), |i: int| described(columns, codecs, i));
    let chunks = chunks_of(columns, codecs);
    lemma_total_len(columns, codecs, columns.len() as int);
    assert(descriptors.take(columns.len() as int) =~= descriptors);
    assert(chunks.take(columns.len() as int) =~= chunks);
    assert forall|i: int| 0 <= i < b.header.descriptors.len() implies descriptor_fits(
        #[trigger] b.header.descriptors[i],
    ) by {
        assert(chunks[i].len() <= u32::MAX);
    }
    assert(body_bytes(b) == body_bytes(BlockView { checksum: 0, ..b }));
}

/// A chunk stands in the concatenation where the chunks before it end.
pub proof fn lemma_concat_part(chunks: Seq<Seq<u8>>, i: int)
    requires
        0 <= i < chunks.len(),
    ensures
        concat(chunks.take(i)).len() + chunks[i].len() <= concat(chunks).len(),
        concat(chunks).subrange(
            concat(chunks.take(i)).len() as int,
            (concat(chunks.take(i)).len() + chunks[i].len()) as int,
        ) == chunks[i],
    decreases chunks.len(),
{
    let start = concat(chunks.take(i)).len() as int;
    let end = start + chunks[i].len();
    if i == chunks.len() - 1 {
        assert(chunks.take(i) =~= chunks.drop_last());
        assert(concat(chunks).subrange(start, end) =~= chunks[i]);
    } else {
        lemma_concat_part(chunks.drop_last(), i);
        assert(chunks.drop_last().take(i) =~= chunks.take(i));
        let front = concat(chunks.drop_last());
        assert(concat(chunks).subrange(start, end) =~= front.subrange(start, end));
    }
}

/// The descriptor and the chunk of a column.
pub open spec fn column_chunk(b: BlockView, index: int) -> Result<
    (DescriptorView, Seq<u8>),
    GalaxError,
> {
    let descriptors = b.header.descriptors;
    if index >= descriptors.len() {
        Err(
            GalaxError::Internal(
                Fault::ColumnOutOfRange { index: index as usize, columns: descriptors.len() as usize },
            ),
        )
    } else {
        let d = descriptors[index];
        if d.offset + d.compressed_len > b.column_data.len() {
            Err(GalaxError::Internal(Fault::ChunkOutOfBounds))
        } else {
            Ok((d, b.column_data.subrange(d.offset as int, d.offset + d.compressed_len)))
        }
    }
}

/// What reading a column comes to.
pub open spec fn column_reads(
    b: BlockView,
    index: int,
    outcome: Result<Seq<Seq<u8>>, GalaxError>,
) -> bool {
    match column_chunk(b, index) {
        Err(error) => outcome == Err::<Seq<Seq<u8>>, GalaxError>(error),
        Ok((d, chunk)) => decodes_to(
            d.col_type,
            d.codec,
            chunk,
            b.header.row_count as nat,
            outcome,
        ),
    }
}

/// What reading one row of a column comes to.
pub open spec fn row_reads(
    b: BlockView,
    index: int,
    row: u32,
    outcome: Result<Seq<u8>, GalaxError>,
) -> bool {
    if index < b.header.descriptors.len() && row >= b.header.row_count {
        outcome == Err::<Seq<u8>, GalaxError>(
            GalaxError::Internal(Fault::RowOutOfRange { row, rows: b.header.row_count }),
        )
    } else {
        match column_chunk(b, index) {
            Err(error) => outcome == Err::<Seq<u8>, GalaxError>(error),
            Ok((d, chunk)) => row_decodes_to(
                d.col_type,
                d.codec,
                chunk,
                b.header.row_count as nat,
                row as nat,
                outcome,
            ),
        }
    }
}

/// Reading one row of a column gives the row that reading the whole column gives. A row that
/// the block does not have, and a column that it does not have, are refused.
pub proof fn lemma_row_read_agrees(
    b: BlockView,
    index: int,
    row: u32,
    rows: Seq<Seq<u8>>,
    outcome: Result<Seq<u8>, GalaxError>,
)
    requires
        0 <= index,
        column_reads(b, index, Ok::<Seq<Seq<u8>>, GalaxError>(rows)),
        row_reads(b, index, row, outcome),
    ensures
        rows.len() == b.header.row_count,
        index < b.header.descriptors.len(),
        row >= b.header.row_count ==> outcome is Err,
        outcome matches Ok(value) ==> row < rows.len() && value == rows[row as int],
{
    let d = b.header.descriptors[index];
    let chunk = b.column_data.subrange(d.offset as int, d.offset + d.compressed_len);
    let count = b.header.row_count as nat;
    lemma_rows_len(d.col_type, d.codec, chunk, count);
    if row < b.header.row_count && d.codec == CodecId::Uncompressed {
        lemma_framed_row_agrees(chunk, 0, count, row as nat);
    }
}

/// A block comes out of writing only if there are columns, each with a codec and with as many
/// rows as the others. It has the id and the timestamp given, and is read back as it was
/// written.
pub proof fn lemma_written_reads_back(
    block_id: u64,
    commit_timestamp: u64,
    columns: Seq<ColumnView>,
    codecs: Seq<CodecId>,
    b: BlockView,
)
    requires
        writes_to(block_id, commit_timestamp, columns, codecs, Ok::<BlockView, GalaxError>(b)),
    ensures
        columns.len() > 0,
        codecs.len() == columns.len(),
        forall|i: int|
            0 <= i < columns.len() ==> (#[trigger] columns[i]).rows.len() == columns[0].rows.len(),
        b.header.block_id == block_id,
        b.header.commit_timestamp == commit_timestamp,
        columns[0].rows.len() <= u32::MAX ==> b.header.row_count == columns[0].rows.len(),
        block_fits(columns, codecs) ==> parse_block(block_bytes(b)) == Ok::<BlockView, GalaxError>(
            b,
        ),
{
    if block_fits(columns, codecs) {
        lemma_written_block_sealed(block_id, commit_timestamp, columns, codecs);
        lemma_block_round_trip(b);
    }
}

/// A column is read back as it was written: if reading succeeds at all, it
/// gives the values, and only Zstandard can make it fail.
pub proof fn lemma_column_round_trip(
    block_id: u64,
    commit_timestamp: u64,
    columns: Seq<ColumnView>,
    codecs: Seq<CodecId>,
    index: int,
    outcome: Result<Seq<Seq<u8>>, GalaxError>,
)
    requires
        0 <= index < columns.len(),
        same_rows(columns),
        block_fits(columns, codecs),
        concat(chunks_of(columns, codecs)).len() <= u64::MAX,
        storable(columns[index].col_type, codecs[index], columns[index].rows),
        is_chunk(
            columns[index].col_type,
            codecs[index],
            columns[index].rows,
            chunks_of(columns, codecs)[index],
        ),
        column_reads(
            written_block(block_id, commit_timestamp, columns, codecs),
            index,
            outcome,
        ),
    ensures
        match outcome {
            Ok(rows) => rows == columns[index].rows,
            Err(error) => codecs[index] == CodecId::Zstd && error == GalaxError::Internal(
                Fault::ZstdDecompressionFailed,
            ),
        },
{
    let b = written_block(block_id, commit_timestamp, columns, codecs);
    let chunks = chunks_of(columns, codecs);
    let d = described(columns, codecs, index);
    assert(b.header.descriptors[index] == d);
    lemma_concat_part(chunks, index);
    assert(chunks[index].len() <= u32::MAX);
    assert(columns[index].rows.len() == columns[0].rows.len());
    lemma_codec_round_trip(
        columns[index].col_type,
        codecs[index],
        columns[index].rows,
        chunks[index],
    );
}

/// Makes a block of the chunks of its columns: descriptors with zone maps, row offsets and
/// checksum. If a column has none, the first error is the result.
#[verifier::rlimit(30)]
pub fn assemble(
    block_id: BlockId,
    commit_timestamp: Timestamp,
    columns: &[ColumnData],
    codecs: &[CodecId],
    chunks: Vec<GalaxResult<Vec<u8>>>,
) -> (result: GalaxResult<PaxBlock>)
    requires
        columns@.len() > 0,
        codecs@.len() == columns@.len(),
        chunks@.len() == columns@.len(),
        same_rows(column_views(columns@)),
    ensures
        match result {
            Ok(block) => all_ok(chunks@, chunks@.len() as int) && block@ == assembled(
                block_id,
                commit_timestamp,
                column_views(columns@),
                codecs@,
                chunk_views(chunks@),
            ),
            Err(error) => exists|i: int|
                0 <= i < chunks@.len() && (#[trigger] chunks@[i]) == Err::<Vec<u8>, GalaxError>(
                    error,
                ) && all_ok(chunks@, i),
        },
{
    let ghost cols = column_views(columns@);
    let ghost all = chunks@;
    let ghost made = chunk_views(all);
    let row_count: usize = columns[0].values.len();
    assert(cols[0].rows.len() == row_count);
    let mut column_descriptors: Vec<ColumnDescriptor> = Vec::new();
    let mut column_data: Vec<u8> = Vec::new();
    let mut k: usize = 0;
    assert(made.take(0) =~= Seq::<Seq<u8>>::empty());
    for chunk in iter: chunks
        invariant
            iter.seq() == all,
            k == iter.index(),
            all.len() == columns@.len(),
            columns@.len() == codecs@.len(),
            cols == column_views(columns@),
            made == chunk_views(all),
            all_ok(all, k as int),
            column_data@ == concat(made.take(k as int)),
            column_descriptors@.len() == k,
            forall|j: int|
                0 <= j < k ==> (#[trigger] column_descriptors@[j])@ == placed_chunk(
                    cols,
                    codecs@,
                    made,
                    j,
                ),
    {
        assert(all[k as int] == chunk);
        let col = &columns[k];
        let codec: CodecId = codecs[k];
        let bytes: Vec<u8> = match chunk {
            Ok(bytes) => bytes,
            Err(error) => {
                return Err(error);
            },
        };
        let zone_map = extract_zone_map(&col.col_type, col.values.as_slice());
        let offset: u64 = column_data.len() as u64;
        proof {
            assert(cols[k as int] == col@);
            assert(made[k as int] == bytes@);
            assert(made.take(k + 1).drop_last() =~= made.take(k as int));
        }
        let compressed_len: u32 = #[verifier::truncate] (bytes.len() as u32);
        put_bytes(&mut column_data, bytes.as_slice());
        column_descriptors.push(
            ColumnDescriptor {
                col_type: col.col_type,
                codec,
                offset,
                compressed_len,
                zone_map_min: zone_map.min,
                zone_map_max: zone_map.max,
            },
        );
        k = k + 1;
    }
    assert(made.take(made.len() as int) =~= made);
    proof {
        assert forall|i: int| 0 <= i < columns@.len() implies (
        #[trigger] columns@[i]).values@.len() == row_count by {
            assert(cols[i].rows.len() == row_count);
        }
    }
    let row_offsets = build_row_offsets(columns, row_count);
    let header = PaxBlockHeader {
        magic: PAX_MAGIC,
        format_version: PAX_FORMAT_VERSION,
        block_id,
        row_count: #[verifier::truncate] (row_count as u32),
        commit_timestamp,
        column_count: #[verifier::truncate] (columns.len() as u16),
        column_descriptors,
    };
    let mut block_bytes: Vec<u8> = Vec::new();
    serialize_header(&header, &mut block_bytes);
    put_bytes(&mut block_bytes, column_data.as_slice());
    serialize_row_offsets(row_offsets.as_slice(), &mut block_bytes);
    let checksum: u64 = xxh3_64(block_bytes.as_slice());
    let block = PaxBlock { header, column_data, row_offsets, checksum };
    proof {
        let w = assembled(block_id, commit_timestamp, cols, codecs@, made);
        assert(block@.header.descriptors =~= w.header.descriptors);
        assert(block@.header == w.header);
        assert(block_bytes@ =~= body_bytes(block@));
        let unsealed = BlockView { checksum: 0, ..w };
        assert(body_bytes(block@) =~= body_bytes(unsealed));
        assert(block@ =~= w);
    }
    Ok(block)
}

impl PaxBlock {
    /// Writes a new block from column data: compresses each column according
    /// to its type, extracts zone maps, and computes row offsets and checksum.
    pub fn write(block_id: BlockId, commit_timestamp: Timestamp, columns: &[ColumnData]) -> (result:
        GalaxResult<Self>)
        ensures
            writes_to(
                block_id,
                commit_timestamp,
                column_views(columns@),
                Seq::new(columns@.len(), |i: int| CodecId::default_for(columns@[i].col_type)),
                block_result(result),
            ),
    {
        let mut codecs: Vec<CodecId> = Vec::new();
        let mut i: usize = 0;
        while i < columns.len()
            invariant
                i <= columns@.len(),
                codecs@ == Seq::new(i as nat, |j: int| CodecId::default_for(columns@[j].col_type)),
            decreases columns@.len() - i,
        {
            codecs.push(CodecId::for_column_type(&columns[i].col_type));
            assert(codecs@ =~= Seq::new(
                (i + 1) as nat,
                |j: int| CodecId::default_for(columns@[j].col_type),
            ));
            i = i + 1;
        }
        PaxBlock::write_with_codecs(block_id, commit_timestamp, columns, codecs.as_slice())
    }

    /// Writes a block with explicit codec selection for each column.
    #[verifier::rlimit(50)]
    pub fn write_with_codecs(
        block_id: BlockId,
        commit_timestamp: Timestamp,
        columns: &[ColumnData],
        codecs: &[CodecId],
    ) -> (result: GalaxResult<Self>)
        ensures
            writes_to(
                block_id,
                commit_timestamp,
                column_views(columns@),
                codecs@,
                block_result(result),
            ),
    {
        let ghost cols = column_views(columns@);
        if columns.len() == 0 {
            return Err(GalaxError::Internal(Fault::NoColumns));
        }
        if codecs.len() != columns.len() {
            return Err(
                GalaxError::Internal(
                    Fault::CodecCountMismatch { codecs: codecs.len(), columns: columns.len() },
                ),
            );
        }
        let row_count: usize = columns[0].values.len();
        assert(cols[0].rows.len() == row_count);
        let mut i: usize = 0;
        while i < columns.len()
            invariant
                i <= columns@.len(),
                columns@.len() > 0,
                columns@.len() == codecs@.len(),
                cols == column_views(columns@),
                row_count == cols[0].rows.len(),
                forall|j: int| 0 <= j < i ==> (#[trigger] cols[j]).rows.len() == row_count,
            decreases columns@.len() - i,
        {
            if columns[i].values.len() != row_count {
                assert(cols[i as int].rows.len() != row_count);
                return Err(GalaxError::Internal(Fault::RowCountMismatch));
            }
            i = i + 1;
        }
        let ghost made = chunks_of(cols, codecs@);
        let mut chunks: Vec<GalaxResult<Vec<u8>>> = Vec::new();
        let mut k: usize = 0;
        while k < columns.len()
            invariant
                k <= columns@.len(),
                columns@.len() == codecs@.len(),
                cols == column_views(columns@),
                made == chunks_of(cols, codecs@),
                chunks@.len() == k,
                forall|j: int|
                    0 <= j < k ==> match #[trigger] chunks@[j] {
                        Ok(chunk) => chunk@ == made[j] && is_chunk(
                            cols[j].col_type,
                            codecs@[j],
                            cols[j].rows,
                            made[j],
                        ),
                        Err(error) => refused(cols[j].col_type, codecs@[j], error),
                    },
            decreases columns@.len() - k,
        {
            let col = &columns[k];
            let codec: CodecId = codecs[k];
            let chunk = compress(&col.col_type, codec, col.values.as_slice());
            assert(cols[k as int] == col@);
            chunks.push(chunk);
            k = k + 1;
        }
        let ghost outcomes = chunks@;
        proof {
            assert forall|i: int| 0 <= i < columns@.len() implies (
            #[trigger] columns@[i]).values@.len() == row_count by {
                assert(cols[i].rows.len() == row_count);
            }
        }
        let result = assemble(block_id, commit_timestamp, columns, codecs, chunks);
        proof {
            match &result {
                Ok(_) => {
                    assert forall|j: int| 0 <= j < cols.len() implies is_chunk(
                        cols[j].col_type,
                        codecs@[j],
                        cols[j].rows,
                        #[trigger] made[j],
                    ) by {
                        assert(outcomes[j] is Ok);
                    }
                    assert(chunk_views(outcomes) =~= made) by {
                        assert forall|j: int| 0 <= j < made.len() implies chunk_views(outcomes)[j]
                            == made[j] by {
                            assert(outcomes[j] is Ok);
                        }
                    }
                    lemma_assembled(block_id, commit_timestamp, cols, codecs@);
                },
                Err(failure) => {
                    let error = *failure;
                    let i = choose|i: int|
                        0 <= i < outcomes.len() && (#[trigger] outcomes[i]) == Err::<
                            Vec<u8>,
                            GalaxError,
                        >(error) && all_ok(outcomes, i);
                    assert(refused(cols[i].col_type, codecs@[i], error));
                    assert(encoded_before(cols, codecs@, i)) by {
                        assert forall|j: int| 0 <= j < i implies is_chunk(
                            cols[j].col_type,
                            codecs@[j],
                            cols[j].rows,
                            #[trigger] made[j],
                        ) by {
                            assert(outcomes[j] is Ok);
                        }
                    }
                },
            }
        }
        result
    }

    /// Serializes the entire block to bytes.
    pub fn serialize(&self) -> (bytes: Vec<u8>)
        ensures
            bytes@ == block_bytes(self@),
    {
        let mut buf: Vec<u8> = Vec::new();
        serialize_header(&self.header, &mut buf);
        put_bytes(&mut buf, self.column_data.as_slice());
        serialize_row_offsets(self.row_offsets.as_slice(), &mut buf);
        put_u64(&mut buf, self.checksum);
        assert(buf@ =~= block_bytes(self@));
        buf
    }

    /// Deserializes a block from bytes, verifying checksum and magic number.
    pub fn deserialize(data: &[u8]) -> (result: GalaxResult<Self>)
        ensures
            block_result(result) == parse_block(data@),
    {
        if data.len() < 8 {
            return Err(GalaxError::Internal(Fault::BlockTooSmall));
        }
        let checksum_offset: usize = data.len() - 8;
        let stored: u64 = get_u64(data, checksum_offset);
        let block_data = slice_subrange(data, 0, checksum_offset);
        let computed: u64 = xxh3_64(block_data);
        if computed != stored {
            return Err(GalaxError::ChecksumMismatch { expected: stored, actual: computed });
        }
        let (header, start) = match deserialize_header(block_data) {
            Ok(parsed) => parsed,
            Err(error) => {
                return Err(error);
            },
        };
        if header.magic != PAX_MAGIC {
            return Err(GalaxError::InvalidMagic(header.magic));
        }
        let total: u64 = total_compressed_len(&header.column_descriptors);
        if total > (block_data.len() - start) as u64 {
            return Err(GalaxError::Internal(Fault::ColumnDataOutOfBounds));
        }
        let end: usize = start + total as usize;
        let offset_bytes: u64 = header.row_count as u64 * 4;
        if offset_bytes > (block_data.len() - end) as u64 {
            return Err(GalaxError::Internal(Fault::RowOffsetsOutOfBounds));
        }
        let column_data = slice_to_vec(slice_subrange(block_data, start, end));
        let mut row_offsets: Vec<u32> = Vec::new();
        let mut i: u32 = 0;
        let mut pos: usize = end;
        while i < header.row_count
            invariant
                i <= header.row_count,
                pos == end + 4 * i,
                end + 4 * header.row_count <= block_data@.len(),
                block_data@.len() <= usize::MAX,
                row_offsets@ == offsets_at(block_data@, end as int, i as nat),
            decreases header.row_count - i,
        {
            row_offsets.push(get_u32(block_data, pos));
            assert(row_offsets@ =~= offsets_at(block_data@, end as int, (i + 1) as nat));
            pos = pos + 4;
            i = i + 1;
        }
        Ok(PaxBlock { header, column_data, row_offsets, checksum: stored })
    }

    /// Where the chunk of a column stands in the column data.
    fn locate_chunk(&self, col_index: usize) -> (result: GalaxResult<(usize, usize)>)
        ensures
            match result {
                Ok((start, end)) => {
                    &&& col_index < self.header.column_descriptors@.len()
                    &&& start <= end <= self.column_data@.len()
                    &&& column_chunk(self@, col_index as int) == Ok::<
                        (DescriptorView, Seq<u8>),
                        GalaxError,
                    >(
                        (
                            self.header.column_descriptors@[col_index as int]@,
                            self.column_data@.subrange(start as int, end as int),
                        ),
                    )
                },
                Err(error) => column_chunk(self@, col_index as int) == Err::<
                    (DescriptorView, Seq<u8>),
                    GalaxError,
                >(error),
            },
    {
        if col_index >= self.header.column_descriptors.len() {
            return Err(
                GalaxError::Internal(
                    Fault::ColumnOutOfRange {
                        index: col_index,
                        columns: self.header.column_descriptors.len(),
                    },
                ),
            );
        }
        let desc = &self.header.column_descriptors[col_index];
        assert(self@.header.descriptors[col_index as int] == desc@);
        let len: u64 = self.column_data.len() as u64;
        if desc.offset > len || desc.compressed_len as u64 > len - desc.offset {
            return Err(GalaxError::Internal(Fault::ChunkOutOfBounds));
        }
        let start: usize = desc.offset as usize;
        Ok((start, start + desc.compressed_len as usize))
    }

    /// Decompresses a column: the raw value of each row.
    pub fn read_column(&self, col_index: usize) -> (result: GalaxResult<Vec<Vec<u8>>>)
        ensures
            column_reads(self@, col_index as int, rows_result(result)),
    {
        let (start, end) = match self.locate_chunk(col_index) {
            Ok(range) => range,
            Err(error) => {
                return Err(error);
            },
        };
        let desc = &self.header.column_descriptors[col_index];
        let chunk = slice_subrange(self.column_data.as_slice(), start, end);
        decompress(&desc.col_type, desc.codec, chunk, self.header.row_count)
    }

    /// Reads a single row of a column. A column without compression is scanned
    /// only as far as the row.
    pub fn read_column_row(&self, col_index: usize, row_offset: u32) -> (result: GalaxResult<
        Vec<u8>,
    >)
        ensures
            row_reads(self@, col_index as int, row_offset, row_result(result)),
    {
        if col_index < self.header.column_descriptors.len() && row_offset >= self.header.row_count {
            return Err(
                GalaxError::Internal(
                    Fault::RowOutOfRange { row: row_offset, rows: self.header.row_count },
                ),
            );
        }
        let (start, end) = match self.locate_chunk(col_index) {
            Ok(range) => range,
            Err(error) => {
                return Err(error);
            },
        };
        let desc = &self.header.column_descriptors[col_index];
        let chunk = slice_subrange(self.column_data.as_slice(), start, end);
        decompress_row(&desc.col_type, desc.codec, chunk, self.header.row_count, row_offset)
    }
}

/// Total length of the chunks.
fn total_compressed_len(descriptors: &Vec<ColumnDescriptor>) -> (total: u64)
    requires
        descriptors@.len() <= u16::MAX,
    ensures
        total == total_len(descriptor_views(descriptors@)),
{
    let ghost all = descriptor_views(descriptors@);
    let mut total: u64 = 0;
    let mut i: usize = 0;
    assert(all.take(0) =~= Seq::<DescriptorView>::empty());
    while i < descriptors.len()
        invariant
            i <= descriptors@.len(),
            descriptors@.len() <= u16::MAX,
            all == descriptor_views(descriptors@),
            total == total_len(all.take(i as int)),
            total <= i * 0xffff_ffff,
        decreases descriptors@.len() - i,
    {
        assert(all.take(i + 1).drop_last() =~= all.take(i as int));
        total = total + descriptors[i].compressed_len as u64;
        i = i + 1;
    }
    assert(all.take(all.len() as int) =~= all);
    total
}

/// Builds the row offset table: each entry is the size of the rows before it.
fn build_row_offsets(columns: &[ColumnData], row_count: usize) -> (offsets: Vec<u32>)
    requires
        columns@.len() > 0,
        forall|i: int| 0 <= i < columns@.len() ==> (#[trigger] columns@[i]).values@.len()
            == row_count,
    ensures
        offsets@ == row_offsets_of(column_views(columns@), row_count as nat),
{
    let ghost cols = column_views(columns@);
    let mut offsets: Vec<u32> = Vec::new();
    let mut cumulative: u32 = 0;
    let mut row: usize = 0;
    while row < row_count
        invariant
            row <= row_count,
            cols == column_views(columns@),
            forall|i: int|
                0 <= i < columns@.len() ==> (#[trigger] columns@[i]).values@.len() == row_count,
            offsets@ == row_offsets_of(cols, row as nat),
            cumulative == if rows_size(cols, row as nat) > u32::MAX {
                u32::MAX as nat
            } else {
                rows_size(cols, row as nat)
            },
        decreases row_count - row,
    {
        offsets.push(cumulative);
        assert(offsets@ =~= row_offsets_of(cols, (row + 1) as nat));
        let mut size: u32 = 0;
        let mut i: usize = 0;
        while i < columns.len()
            invariant
                i <= columns@.len(),
                row < row_count,
                cols == column_views(columns@),
                forall|i: int|
                    0 <= i < columns@.len() ==> (#[trigger] columns@[i]).values@.len() == row_count,
                size == if row_size(cols, row as int, i as nat) > u32::MAX {
                    u32::MAX as nat
                } else {
                    row_size(cols, row as int, i as nat)
                },
            decreases columns@.len() - i,
        {
            let len: u32 = #[verifier::truncate] (columns[i].values[row].len() as u32);
            assert(cols[i as int].rows[row as int].len() == columns@[i as int].values@[row as int]@.len());
            size = size.saturating_add(len);
            i = i + 1;
        }
        cumulative = cumulative.saturating_add(size);
        row = row + 1;
    }
    offsets
}

/// Appends the byte form of a row offset table.
fn serialize_row_offsets(offsets: &[u32], buf: &mut Vec<u8>)
    ensures
        final(buf)@ == old(buf)@ + offsets_bytes(offsets@),
{
    let ghost start = buf@;
    let mut i: usize = 0;
    assert(offsets@.take(0) =~= Seq::<u32>::empty());
    assert(buf@ =~= start + offsets_bytes(offsets@.take(0)));
    while i < offsets.len()
        invariant
            i <= offsets@.len(),
            buf@ == start + offsets_bytes(offsets@.take(i as int)),
        decreases offsets@.len() - i,
    {
        put_u32(buf, offsets[i]);
        proof {
            assert(offsets@.take(i + 1).drop_last() =~= offsets@.take(i as int));
            assert(buf@ =~= start + offsets_bytes(offsets@.take(i + 1)));
        }
        i = i + 1;
    }
    assert(offsets@.take(offsets@.len() as int) =~= offsets@);
}

} // verus!
