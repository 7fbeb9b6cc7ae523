//! Block headers and their byte form.
//!
//! ```text
//! magic: u32, format_version: u8, block_id: u64, row_count: u32,
//! commit_timestamp: u64, column_count: u16, then for each column:
//! type: u8 [dimensions: u32, for embeddings], codec: u8, offset: u64,
//! compressed_len: u32, zone map min and max, each behind its length
//! ```

use vstd::prelude::*;
use vstd::slice::{slice_subrange, slice_to_vec};

use super::framing::frame;
use super::CodecId;
use crate::bytes::{
    get_u16, get_u32, get_u64, le_bytes, le_value, put_bytes, put_le, put_u16, put_u32, put_u64,
};
use crate::bytes::{lemma_byte_range_values, lemma_le_bytes_len, lemma_le_round_trip};
use crate::column::{BlockId, ColumnType, Timestamp};
use crate::error::{Fault, GalaxError, GalaxResult};

verus! {

/// Bytes of a header before the column descriptors.
pub const FIXED_HEADER_LEN: usize = 27;

/// Descriptor of a single column within a block header.
#[derive(PartialEq, Eq, Debug)]
pub struct ColumnDescriptor {
    /// The column's data type.
    pub col_type: ColumnType,
    /// Codec of this column's chunk.
    pub codec: CodecId,
    /// Offset of this column's chunk within the column data.
    pub offset: u64,
    /// Length of this column's chunk in bytes.
    pub compressed_len: u32,
    /// Zone map: least value.
    pub zone_map_min: Vec<u8>,
    /// Zone map: greatest value.
    pub zone_map_max: Vec<u8>,
}

/// What a column descriptor says.
#[verifier::ext_equal]
pub ghost struct DescriptorView {
    pub col_type: ColumnType,
    pub codec: CodecId,
    pub offset: u64,
    pub compressed_len: u32,
    pub zone_map_min: Seq<u8>,
    pub zone_map_max: Seq<u8>,
}

impl View for ColumnDescriptor {
    type V = DescriptorView;

    open spec fn view(&self) -> DescriptorView {
        DescriptorView {
            col_type: self.col_type,
            codec: self.codec,
            offset: self.offset,
            compressed_len: self.compressed_len,
            zone_map_min: self.zone_map_min@,
            zone_map_max: self.zone_map_max@,
        }
    }
}

/// Block header: metadata and column descriptors.
#[derive(Debug)]
pub struct PaxBlockHeader {
    /// Magic number.
    pub magic: u32,
    /// Format version.
    pub format_version: u8,
    /// Unique block identifier.
    pub block_id: BlockId,
    /// Number of rows in this block.
    pub row_count: u32,
    /// Commit timestamp of the block.
    pub commit_timestamp: Timestamp,
    /// Number of columns.
    pub column_count: u16,
    /// Column descriptors.
    pub column_descriptors: Vec<ColumnDescriptor>,
}

/// What a block header says.
#[verifier::ext_equal]
pub ghost struct HeaderView {
    pub magic: u32,
    pub format_version: u8,
    pub block_id: u64,
    pub row_count: u32,
    pub commit_timestamp: u64,
    pub column_count: u16,
    pub descriptors: Seq<DescriptorView>,
}

/// What column descriptors say.
pub open spec fn descriptor_views(descriptors: Seq<ColumnDescriptor>) -> Seq<DescriptorView> {
    Seq::new(descriptors.len(), |i: int| descriptors[i]@)
}

impl View for PaxBlockHeader {
    type V = HeaderView;

    open spec fn view(&self) -> HeaderView {
        HeaderView {
            magic: self.magic,
            format_version: self.format_version,
            block_id: self.block_id,
            row_count: self.row_count,
            commit_timestamp: self.commit_timestamp,
            column_count: self.column_count,
            descriptors: descriptor_views(self.column_descriptors@),
        }
    }
}

// Type and codec bytes

/// The byte that stands for a column type.
pub open spec fn type_byte(col_type: ColumnType) -> u8 {
    match col_type {
        ColumnType::Int8 => 0,
        ColumnType::Int16 => 1,
        ColumnType::Int32 => 2,
        ColumnType::Int64 => 3,
        ColumnType::UInt8 => 4,
        ColumnType::UInt16 => 5,
        ColumnType::UInt32 => 6,
        ColumnType::UInt64 => 7,
        ColumnType::Float32 => 8,
        ColumnType::Float64 => 9,
        ColumnType::Text => 10,
        ColumnType::Blob => 11,
        ColumnType::Json => 12,
        ColumnType::Boolean => 13,
        ColumnType::Embedding(_) => 14,
    }
}

/// The column type that a byte stands for.
pub open spec fn type_of_byte(value: u8, dims: u32) -> Option<ColumnType> {
    match value {
        0 => Some(ColumnType::Int8),
        1 => Some(ColumnType::Int16),
        2 => Some(ColumnType::Int32),
        3 => Some(ColumnType::Int64),
        4 => Some(ColumnType::UInt8),
        5 => Some(ColumnType::UInt16),
        6 => Some(ColumnType::UInt32),
        7 => Some(ColumnType::UInt64),
        8 => Some(ColumnType::Float32),
        9 => Some(ColumnType::Float64),
        10 => Some(ColumnType::Text),
        11 => Some(ColumnType::Blob),
        12 => Some(ColumnType::Json),
        13 => Some(ColumnType::Boolean),
        14 => Some(ColumnType::Embedding(dims)),
        _ => None,
    }
}

/// The byte that stands for a column type.
pub fn column_type_to_u8(col_type: &ColumnType) -> (value: u8)
    ensures
        value == type_byte(*col_type),
{
    match col_type {
        ColumnType::Int8 => 0,
        ColumnType::Int16 => 1,
        ColumnType::Int32 => 2,
        ColumnType::Int64 => 3,
        ColumnType::UInt8 => 4,
        ColumnType::UInt16 => 5,
        ColumnType::UInt32 => 6,
        ColumnType::UInt64 => 7,
        ColumnType::Float32 => 8,
        ColumnType::Float64 => 9,
        ColumnType::Text => 10,
        ColumnType::Blob => 11,
        ColumnType::Json => 12,
        ColumnType::Boolean => 13,
        ColumnType::Embedding(_) => 14,
    }
}

/// The column type that a byte stands for; `embedding_dims` are the dimensions
/// of an embedding.
pub fn column_type_from_u8(value: u8, embedding_dims: u32) -> (col_type: Option<ColumnType>)
    ensures
        col_type == type_of_byte(value, embedding_dims),
{
    match value {
        0 => Some(ColumnType::Int8),
        1 => Some(ColumnType::Int16),
        2 => Some(ColumnType::Int32),
        3 => Some(ColumnType::Int64),
        4 => Some(ColumnType::UInt8),
        5 => Some(ColumnType::UInt16),
        6 => Some(ColumnType::UInt32),
        7 => Some(ColumnType::UInt64),
        8 => Some(ColumnType::Float32),
        9 => Some(ColumnType::Float64),
        10 => Some(ColumnType::Text),
        11 => Some(ColumnType::Blob),
        12 => Some(ColumnType::Json),
        13 => Some(ColumnType::Boolean),
        14 => Some(ColumnType::Embedding(embedding_dims)),
        _ => None,
    }
}

/// A column type is read back from its byte.
pub proof fn lemma_type_byte_round_trip(col_type: ColumnType, dims: u32)
    requires
        col_type matches ColumnType::Embedding(d) ==> d == dims,
    ensures
        type_of_byte(type_byte(col_type), dims) == Some(col_type),
{
}

// Byte form

/// Byte form of the type of a column.
pub open spec fn type_bytes(col_type: ColumnType) -> Seq<u8> {
    match col_type {
        ColumnType::Embedding(dims) => seq![type_byte(col_type)] + le_bytes(dims as nat, 4),
        _ => seq![type_byte(col_type)],
    }
}

/// Byte form of a column descriptor.
pub open spec fn descriptor_bytes(d: DescriptorView) -> Seq<u8> {
    type_bytes(d.col_type) + seq![d.codec.byte()] + le_bytes(d.offset as nat, 8) + le_bytes(
        d.compressed_len as nat,
        4,
    ) + frame(d.zone_map_min) + frame(d.zone_map_max)
}

/// Byte form of column descriptors.
pub open spec fn descriptors_bytes(descriptors: Seq<DescriptorView>) -> Seq<u8>
    decreases descriptors.len(),
{
    if descriptors.len() == 0 {
        Seq::<u8>::empty()
    } else {
        descriptors_bytes(descriptors.drop_last()) + descriptor_bytes(descriptors.last())
    }
}

/// Byte form of the header before the column descriptors.
pub open spec fn fixed_header_bytes(h: HeaderView) -> Seq<u8> {
    le_bytes(h.magic as nat, 4) + seq![h.format_version] + le_bytes(h.block_id as nat, 8)
        + le_bytes(h.row_count as nat, 4) + le_bytes(h.commit_timestamp as nat, 8) + le_bytes(
        h.column_count as nat,
        2,
    )
}

/// Byte form of a header.
pub open spec fn header_bytes(h: HeaderView) -> Seq<u8> {
    fixed_header_bytes(h) + descriptors_bytes(h.descriptors)
}

/// The number of `width` bytes at `pos`.
pub open spec fn number_at(data: Seq<u8>, pos: int, width: int) -> nat {
    le_value(data.subrange(pos, pos + width))
}

/// The descriptor at `pos`, and where it ends.
pub open spec fn parse_descriptor(data: Seq<u8>, pos: int) -> Result<
    (DescriptorView, int),
    GalaxError,
> {
    if pos + 1 > data.len() {
        Err(GalaxError::UnexpectedEof)
    } else {
        let type_len = if data[pos] == 14 {
            5int
        } else {
            1int
        };
        let at_codec = pos + type_len;
        if at_codec > data.len() {
            Err(GalaxError::UnexpectedEof)
        } else {
            let dims = if data[pos] == 14 {
                number_at(data, pos + 1, 4) as u32
            } else {
                0
            };
            match type_of_byte(data[pos], dims) {
                None => Err(GalaxError::Internal(Fault::UnknownColumnType(data[pos]))),
                Some(col_type) => if at_codec + 1 > data.len() {
                    Err(GalaxError::UnexpectedEof)
                } else {
                    match CodecId::of_byte(data[at_codec]) {
                        None => Err(GalaxError::Internal(Fault::UnknownCodec(data[at_codec]))),
                        Some(codec) => parse_descriptor_tail(data, at_codec + 1, col_type, codec),
                    }
                },
            }
        }
    }
}

/// The part of a descriptor after type and codec, at `pos`, and where it ends.
pub open spec fn parse_descriptor_tail(
    data: Seq<u8>,
    pos: int,
    col_type: ColumnType,
    codec: CodecId,
) -> Result<(DescriptorView, int), GalaxError> {
    if pos + 16 > data.len() {
        Err(GalaxError::UnexpectedEof)
    } else {
        let at_max = pos + 16 + number_at(data, pos + 12, 4);
        if at_max + 4 > data.len() {
            Err(GalaxError::UnexpectedEof)
        } else {
            let end = at_max + 4 + number_at(data, at_max, 4);
            if end > data.len() {
                Err(GalaxError::UnexpectedEof)
            } else {
                Ok(
                    (
                        DescriptorView {
                            col_type,
                            codec,
                            offset: number_at(data, pos, 8) as u64,
                            compressed_len: number_at(data, pos + 8, 4) as u32,
                            zone_map_min: data.subrange(pos + 16, at_max),
                            zone_map_max: data.subrange(at_max + 4, end),
                        },
                        end,
                    ),
                )
            }
        }
    }
}

/// The `count` descriptors from `pos` on, and where they end.
pub open spec fn parse_descriptors(data: Seq<u8>, pos: int, count: nat) -> Result<
    (Seq<DescriptorView>, int),
    GalaxError,
>
    decreases count,
{
    if count == 0 {
        Ok((Seq::<DescriptorView>::empty(), pos))
    } else {
        match parse_descriptor(data, pos) {
            Err(error) => Err(error),
            Ok((first, next)) => match parse_descriptors(data, next, (count - 1) as nat) {
                Err(error) => Err(error),
                Ok((rest, end)) => Ok((seq![first] + rest, end)),
            },
        }
    }
}

/// The header at the start of `data`, and where it ends.
pub open spec fn parse_header(data: Seq<u8>) -> Result<(HeaderView, int), GalaxError> {
    if data.len() < 27 {
        Err(GalaxError::UnexpectedEof)
    } else {
        let column_count = number_at(data, 25, 2);
        match parse_descriptors(data, 27, column_count) {
            Err(error) => Err(error),
            Ok((descriptors, end)) => Ok(
                (
                    HeaderView {
                        magic: number_at(data, 0, 4) as u32,
                        format_version: data[4],
                        block_id: number_at(data, 5, 8) as u64,
                        row_count: number_at(data, 13, 4) as u32,
                        commit_timestamp: number_at(data, 17, 8) as u64,
                        column_count: column_count as u16,
                        descriptors,
                    },
                    end,
                ),
            ),
        }
    }
}

// Round trip

/// Whether every length of a descriptor can be stored.
pub open spec fn descriptor_fits(d: DescriptorView) -> bool {
    d.zone_map_min.len() <= u32::MAX && d.zone_map_max.len() <= u32::MAX
}

/// `piece` stands at `pos` in `data`.
pub open spec fn stands_at(data: Seq<u8>, pos: int, piece: Seq<u8>) -> bool {
    0 <= pos && pos + piece.len() <= data.len() && data.subrange(pos, pos + piece.len()) == piece
}

/// Parts of what stands in the data stand there too.
pub proof fn lemma_stands_split(data: Seq<u8>, pos: int, a: Seq<u8>, b: Seq<u8>)
    requires
        stands_at(data, pos, a + b),
    ensures
        stands_at(data, pos, a),
        stands_at(data, pos + a.len(), b),
{
    let whole = data.subrange(pos, pos + (a + b).len());
    assert forall|i: int| 0 <= i < a.len() implies data.subrange(pos, pos + a.len())[i] == a[i] by {
        assert(whole[i] == (a + b)[i]);
    }
    assert(data.subrange(pos, pos + a.len()) =~= a);
    let q = pos + a.len();
    assert forall|i: int| 0 <= i < b.len() implies data.subrange(q, q + b.len())[i] == b[i] by {
        assert(whole[a.len() + i] == (a + b)[a.len() + i]);
    }
    assert(data.subrange(q, q + b.len()) =~= b);
}

/// A number is read back from where it stands.
pub proof fn lemma_number_stands(data: Seq<u8>, pos: int, value: nat, width: nat)
    requires
        stands_at(data, pos, le_bytes(value, width)),
        value < crate::bytes::byte_range(width),
    ensures
        le_bytes(value, width).len() == width,
        number_at(data, pos, width as int) == value,
{
    lemma_le_round_trip(value, width);
}

proof fn lemma_descriptor_parses(data: Seq<u8>, pos: int, d: DescriptorView)
    requires
        stands_at(data, pos, descriptor_bytes(d)),
        descriptor_fits(d),
    ensures
        parse_descriptor(data, pos) == Ok::<(DescriptorView, int), GalaxError>(
            (d, pos + descriptor_bytes(d).len()),
        ),
{
    let t = type_bytes(d.col_type);
    let c = seq![d.codec.byte()];
    let o = le_bytes(d.offset as nat, 8);
    let l = le_bytes(d.compressed_len as nat, 4);
    let min = frame(d.zone_map_min);
    let max = frame(d.zone_map_max);
    lemma_byte_range_values();
    lemma_le_bytes_len(d.offset as nat, 8);
    lemma_le_bytes_len(d.compressed_len as nat, 4);
    lemma_le_bytes_len(d.zone_map_min.len(), 4);
    lemma_le_bytes_len(d.zone_map_max.len(), 4);
    lemma_stands_split(data, pos, t + c + o + l + min, max);
    lemma_stands_split(data, pos, t + c + o + l, min);
    lemma_stands_split(data, pos, t + c + o, l);
    lemma_stands_split(data, pos, t + c, o);
    lemma_stands_split(data, pos, t, c);
    let at_codec = pos + t.len();
    let tail = at_codec + 1;
    assert(data.subrange(pos, pos + t.len())[0] == t[0]);
    assert(data[pos] == type_byte(d.col_type));
    assert(data.subrange(at_codec, at_codec + 1)[0] == c[0]);
    assert(data[at_codec] == d.codec.byte());
    if let ColumnType::Embedding(dims) = d.col_type {
        lemma_stands_split(data, pos, seq![type_byte(d.col_type)], le_bytes(dims as nat, 4));
        lemma_number_stands(data, pos + 1, dims as nat, 4);
        lemma_le_bytes_len(dims as nat, 4);
    }
    lemma_number_stands(data, tail, d.offset as nat, 8);
    lemma_number_stands(data, tail + 8, d.compressed_len as nat, 4);
    lemma_stands_split(data, tail + 12, le_bytes(d.zone_map_min.len(), 4), d.zone_map_min);
    lemma_number_stands(data, tail + 12, d.zone_map_min.len(), 4);
    let at_max = tail + 16 + d.zone_map_min.len();
    lemma_stands_split(data, at_max, le_bytes(d.zone_map_max.len(), 4), d.zone_map_max);
    lemma_number_stands(data, at_max, d.zone_map_max.len(), 4);
}

/// The parts of descriptors that are written one after the other.
proof fn lemma_descriptors_split(descriptors: Seq<DescriptorView>)
    requires
        descriptors.len() > 0,
    ensures
        descriptors_bytes(descriptors) == descriptor_bytes(descriptors[0]) + descriptors_bytes(
            descriptors.skip(1),
        ),
    decreases descriptors.len(),
{
    if descriptors.len() == 1 {
        assert(descriptors.drop_last() =~= Seq::<DescriptorView>::empty());
        assert(descriptors.skip(1) =~= Seq::<DescriptorView>::empty());
        assert(descriptors_bytes(descriptors) =~= descriptor_bytes(descriptors[0])
            + descriptors_bytes(descriptors.skip(1)));
    } else {
        lemma_descriptors_split(descriptors.drop_last());
        assert(descriptors.drop_last().skip(1) =~= descriptors.skip(1).drop_last());
        assert(descriptors.skip(1).last() == descriptors.last());
        assert(descriptors_bytes(descriptors) =~= descriptor_bytes(descriptors[0])
            + descriptors_bytes(descriptors.skip(1)));
    }
}

proof fn lemma_descriptors_parse(data: Seq<u8>, pos: int, descriptors: Seq<DescriptorView>)
    requires
        stands_at(data, pos, descriptors_bytes(descriptors)),
        forall|i: int| 0 <= i < descriptors.len() ==> descriptor_fits(#[trigger] descriptors[i]),
    ensures
        parse_descriptors(data, pos, descriptors.len()) == Ok::<
            (Seq<DescriptorView>, int),
            GalaxError,
        >((descriptors, pos + descriptors_bytes(descriptors).len())),
    decreases descriptors.len(),
{
    if descriptors.len() == 0 {
        assert(descriptors =~= Seq::<DescriptorView>::empty());
    } else {
        let first = descriptors[0];
        let rest = descriptors.skip(1);
        lemma_descriptors_split(descriptors);
        lemma_stands_split(data, pos, descriptor_bytes(first), descriptors_bytes(rest));
        lemma_descriptor_parses(data, pos, first);
        assert forall|i: int| 0 <= i < rest.len() implies descriptor_fits(#[trigger] rest[i]) by {
            assert(rest[i] == descriptors[i + 1]);
        }
        lemma_descriptors_parse(data, pos + descriptor_bytes(first).len(), rest);
        assert(seq![first] + rest =~= descriptors);
    }
}

/// A header is read back as it was written, whatever follows it.
pub proof fn lemma_header_round_trip(data: Seq<u8>, h: HeaderView)
    requires
        stands_at(data, 0, header_bytes(h)),
        h.column_count == h.descriptors.len(),
        forall|i: int|
            0 <= i < h.descriptors.len() ==> descriptor_fits(#[trigger] h.descriptors[i]),
    ensures
        parse_header(data) == Ok::<(HeaderView, int), GalaxError>(
            (h, header_bytes(h).len() as int),
        ),
{
    let fixed = fixed_header_bytes(h);
    let magic = le_bytes(h.magic as nat, 4);
    let version = seq![h.format_version];
    let id = le_bytes(h.block_id as nat, 8);
    let rows = le_bytes(h.row_count as nat, 4);
    let ts = le_bytes(h.commit_timestamp as nat, 8);
    let cols = le_bytes(h.column_count as nat, 2);
    lemma_byte_range_values();
    lemma_le_bytes_len(h.magic as nat, 4);
    lemma_le_bytes_len(h.block_id as nat, 8);
    lemma_le_bytes_len(h.row_count as nat, 4);
    lemma_le_bytes_len(h.commit_timestamp as nat, 8);
    lemma_le_bytes_len(h.column_count as nat, 2);
    lemma_stands_split(data, 0, fixed, descriptors_bytes(h.descriptors));
    lemma_stands_split(data, 0, magic + version + id + rows + ts, cols);
    lemma_stands_split(data, 0, magic + version + id + rows, ts);
    lemma_stands_split(data, 0, magic + version + id, rows);
    lemma_stands_split(data, 0, magic + version, id);
    lemma_stands_split(data, 0, magic, version);
    lemma_number_stands(data, 0, h.magic as nat, 4);
    assert(data.subrange(4, 5)[0] == version[0]);
    lemma_number_stands(data, 5, h.block_id as nat, 8);
    lemma_number_stands(data, 13, h.row_count as nat, 4);
    lemma_number_stands(data, 17, h.commit_timestamp as nat, 8);
    lemma_number_stands(data, 25, h.column_count as nat, 2);
    lemma_descriptors_parse(data, 27, h.descriptors);
}

// Executable functions

/// Appends the byte form of a header.
pub fn serialize_header(header: &PaxBlockHeader, buf: &mut Vec<u8>)
    ensures
        final(buf)@ == old(buf)@ + header_bytes(header@),
{
    let ghost start = buf@;
    put_u32(buf, header.magic);
    buf.push(header.format_version);
    put_u64(buf, header.block_id);
    put_u32(buf, header.row_count);
    put_u64(buf, header.commit_timestamp);
    put_u16(buf, header.column_count);
    assert(buf@ =~= start + fixed_header_bytes(header@));
    let ghost all = header@.descriptors;
    let ghost fixed = buf@;
    let mut i: usize = 0;
    assert(all.take(0) =~= Seq::<DescriptorView>::empty());
    assert(buf@ =~= fixed + descriptors_bytes(all.take(0)));
    while i < header.column_descriptors.len()
        invariant
            i <= header.column_descriptors@.len(),
            all == header@.descriptors,
            buf@ == fixed + descriptors_bytes(all.take(i as int)),
        decreases header.column_descriptors@.len() - i,
    {
        serialize_descriptor(&header.column_descriptors[i], buf);
        proof {
            assert(all.take(i + 1).drop_last() =~= all.take(i as int));
            assert(buf@ =~= fixed + (descriptors_bytes(all.take(i as int)) + descriptor_bytes(
                all[i as int],
            )));
        }
        i = i + 1;
    }
    assert(all.take(all.len() as int) =~= all);
    assert(buf@ =~= start + header_bytes(header@));
}

/// Appends the byte form of a column descriptor.
fn serialize_descriptor(desc: &ColumnDescriptor, buf: &mut Vec<u8>)
    ensures
        final(buf)@ == old(buf)@ + descriptor_bytes(desc@),
{
    let ghost start = buf@;
    buf.push(column_type_to_u8(&desc.col_type));
    if let ColumnType::Embedding(dims) = desc.col_type {
        put_u32(buf, dims);
    }
    assert(buf@ =~= start + type_bytes(desc.col_type));
    buf.push(desc.codec.to_u8());
    put_u64(buf, desc.offset);
    put_u32(buf, desc.compressed_len);
    put_le(buf, desc.zone_map_min.len() as u64, 4);
    put_bytes(buf, desc.zone_map_min.as_slice());
    put_le(buf, desc.zone_map_max.len() as u64, 4);
    put_bytes(buf, desc.zone_map_max.as_slice());
    assert(buf@ =~= start + descriptor_bytes(desc@));
}

/// Reads the descriptor at `pos`; also returns where it ends.
fn deserialize_descriptor(data: &[u8], pos: usize) -> (result: GalaxResult<
    (ColumnDescriptor, usize),
>)
    requires
        pos <= data@.len(),
    ensures
        match result {
            Ok((desc, end)) => parse_descriptor(data@, pos as int) == Ok::<
                (DescriptorView, int),
                GalaxError,
            >((desc@, end as int)) && end <= data@.len(),
            Err(error) => parse_descriptor(data@, pos as int) == Err::<
                (DescriptorView, int),
                GalaxError,
            >(error),
        },
{
    if data.len() - pos < 1 {
        return Err(GalaxError::UnexpectedEof);
    }
    let col_type_byte: u8 = data[pos];
    let type_len: usize = if col_type_byte == 14 {
        5
    } else {
        1
    };
    if data.len() - pos < type_len {
        return Err(GalaxError::UnexpectedEof);
    }
    let at_codec: usize = pos + type_len;
    let dims: u32 = if col_type_byte == 14 {
        get_u32(data, pos + 1)
    } else {
        0
    };
    let col_type = match column_type_from_u8(col_type_byte, dims) {
        Some(col_type) => col_type,
        None => {
            return Err(GalaxError::Internal(Fault::UnknownColumnType(col_type_byte)));
        },
    };
    if data.len() - at_codec < 1 {
        return Err(GalaxError::UnexpectedEof);
    }
    let codec = match CodecId::from_u8(data[at_codec]) {
        Some(codec) => codec,
        None => {
            return Err(GalaxError::Internal(Fault::UnknownCodec(data[at_codec])));
        },
    };
    let tail: usize = at_codec + 1;
    if data.len() - tail < 16 {
        return Err(GalaxError::UnexpectedEof);
    }
    let offset: u64 = get_u64(data, tail);
    let compressed_len: u32 = get_u32(data, tail + 8);
    let min_len: usize = get_u32(data, tail + 12) as usize;
    let at_min: usize = tail + 16;
    if data.len() - at_min < min_len || data.len() - at_min - min_len < 4 {
        return Err(GalaxError::UnexpectedEof);
    }
    let zone_map_min = slice_to_vec(slice_subrange(data, at_min, at_min + min_len));
    let at_max_len: usize = at_min + min_len;
    let max_len: usize = get_u32(data, at_max_len) as usize;
    let at_max: usize = at_max_len + 4;
    if data.len() - at_max < max_len {
        return Err(GalaxError::UnexpectedEof);
    }
    let zone_map_max = slice_to_vec(slice_subrange(data, at_max, at_max + max_len));
    Ok(
        (
            ColumnDescriptor {
                col_type,
                codec,
                offset,
                compressed_len,
                zone_map_min,
                zone_map_max,
            },
            at_max + max_len,
        ),
    )
}

/// `done` in front of what is still to come.
spec fn after(
    done: Seq<DescriptorView>,
    rest: Result<(Seq<DescriptorView>, int), GalaxError>,
) -> Result<(Seq<DescriptorView>, int), GalaxError> {
    match rest {
        Err(error) => Err(error),
        Ok((descriptors, end)) => Ok((done + descriptors, end)),
    }
}

/// Reads the header at the start of `data`; also returns where it ends.
pub fn deserialize_header(data: &[u8]) -> (result: GalaxResult<(PaxBlockHeader, usize)>)
    ensures
        match result {
            Ok((header, end)) => parse_header(data@) == Ok::<(HeaderView, int), GalaxError>(
                (header@, end as int),
            ) && end <= data@.len() && header.column_descriptors@.len() == header.column_count,
            Err(error) => parse_header(data@) == Err::<(HeaderView, int), GalaxError>(error),
        },
{
    if data.len() < FIXED_HEADER_LEN {
        return Err(GalaxError::UnexpectedEof);
    }
    let magic: u32 = get_u32(data, 0);
    let format_version: u8 = data[4];
    let block_id: u64 = get_u64(data, 5);
    let row_count: u32 = get_u32(data, 13);
    let commit_timestamp: u64 = get_u64(data, 17);
    let column_count: u16 = get_u16(data, 25);
    let mut column_descriptors: Vec<ColumnDescriptor> = Vec::new();
    let mut pos: usize = FIXED_HEADER_LEN;
    let mut left: u16 = column_count;
    let ghost all = parse_descriptors(data@, 27, column_count as nat);
    proof {
        if all is Ok {
            assert(descriptor_views(column_descriptors@) + all->Ok_0.0 =~= all->Ok_0.0);
        }
    }
    while left > 0
        invariant
            27 <= data@.len(),
            pos <= data@.len(),
            column_descriptors@.len() + left == column_count,
            column_count == number_at(data@, 25, 2),
            all == parse_descriptors(data@, 27, column_count as nat),
            all == after(
                descriptor_views(column_descriptors@),
                parse_descriptors(data@, pos as int, left as nat),
            ),
        decreases left,
    {
        match deserialize_descriptor(data, pos) {
            Ok((desc, next)) => {
                let ghost done = descriptor_views(column_descriptors@);
                let ghost d = desc@;
                column_descriptors.push(desc);
                proof {
                    assert(descriptor_views(column_descriptors@) =~= done.push(d));
                    let rest = parse_descriptors(data@, next as int, (left - 1) as nat);
                    if rest is Ok {
                        assert(done + (seq![d] + rest->Ok_0.0) =~= done.push(d) + rest->Ok_0.0);
                    }
                }
                pos = next;
            },
            Err(error) => {
                return Err(error);
            },
        }
        left = left - 1;
    }
    assert(descriptor_views(column_descriptors@) + Seq::<DescriptorView>::empty()
        =~= descriptor_views(column_descriptors@));
    Ok(
        (
            PaxBlockHeader {
                magic,
                format_version,
                block_id,
                row_count,
                commit_timestamp,
                column_count,
                column_descriptors,
            },
            pos,
        ),
    )
}

} // verus!
