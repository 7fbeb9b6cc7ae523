//! Compression codecs for column chunks.
//!
//! - Uncompressed: each value behind its length.
//! - FastPFor: delta encoding and bit-packing, for fixed-width values.
//! - Zstd: the uncompressed form, compressed with Zstandard level 3.

use vstd::prelude::*;
use vstd::slice::{slice_subrange, slice_to_vec};

use super::delta::{compress_fastpfor, decompress_fastpfor, delta_bytes, delta_rows};
use super::delta::{lemma_delta_bytes_round_trip, lemma_delta_rows_len};
use super::framing::{
    framed, framed_row, lengths_fit, parse_framed, read_framed, read_framed_row, write_framed,
};
use super::framing::{lemma_framing_round_trip, lemma_parsed_len};
use super::CodecId;
use crate::bitpack::packed_len;
use crate::bytes::{le_bytes, lemma_le_bytes_len, put_bytes, put_le, views};
use crate::column::ColumnType;
use crate::error::{Fault, GalaxError, GalaxResult};

verus! {

/// Level of Zstandard compression.
pub const ZSTD_LEVEL: i32 = 3;

/// The Zstandard frame that `zstd::encode_all` makes of `raw` at `level`.
pub uninterp spec fn zstd_frame(raw: Seq<u8>, level: i32) -> Seq<u8>;

/// The content that `zstd::decode_all` gets out of `frames`.
pub uninterp spec fn zstd_content(frames: Seq<u8>) -> Seq<u8>;

/// Compresses with `zstd::encode_all`. If it succeeds, the frame is a function
/// of the data and the level, and decompression gives the data back. Nothing is
/// said of when it fails: that depends on memory.
#[verifier::external_body]
fn zstd_encode(raw: &[u8], level: i32) -> (frame: Option<Vec<u8>>)
    ensures
        frame matches Some(bytes) ==> bytes@ == zstd_frame(raw@, level) && zstd_content(bytes@)
            == raw@,
{
    zstd::encode_all(raw, level).ok()
}

/// Decompresses with `zstd::decode_all`. If it succeeds, the content is a
/// function of the data. Nothing is said of when it fails: the data may be no
/// Zstandard frames, or memory may be short.
#[verifier::external_body]
fn zstd_decode(frames: &[u8]) -> (content: Option<Vec<u8>>)
    ensures
        content matches Some(bytes) ==> bytes@ == zstd_content(frames@),
{
    zstd::decode_all(frames).ok()
}

/// The chunk that a codec makes of a column's values.
pub open spec fn chunk_of(col_type: ColumnType, codec: CodecId, rows: Seq<Seq<u8>>) -> Result<
    Seq<u8>,
    Fault,
> {
    match codec {
        CodecId::Uncompressed => Ok(framed(rows)),
        CodecId::FastPFor => if col_type.size() is None {
            Err(Fault::NotFixedWidth)
        } else {
            Ok(delta_bytes(col_type, rows))
        },
        CodecId::Zstd => Ok(
            le_bytes(framed(rows).len(), 4) + zstd_frame(framed(rows), ZSTD_LEVEL),
        ),
    }
}

/// `chunk` is what a codec made of a column's values; one that Zstandard made
/// decompresses to them.
pub open spec fn is_chunk(
    col_type: ColumnType,
    codec: CodecId,
    rows: Seq<Seq<u8>>,
    chunk: Seq<u8>,
) -> bool {
    &&& chunk_of(col_type, codec, rows) == Ok::<Seq<u8>, Fault>(chunk)
    &&& codec == CodecId::Zstd ==> zstd_content(chunk.skip(4)) == framed(rows)
}

/// The values that a chunk stands for, once Zstandard has decompressed it.
pub open spec fn rows_of(
    col_type: ColumnType,
    codec: CodecId,
    chunk: Seq<u8>,
    count: nat,
) -> Result<Seq<Seq<u8>>, Fault> {
    match codec {
        CodecId::Uncompressed => parse_framed(chunk, 0, count),
        CodecId::FastPFor => delta_rows(col_type, chunk, count),
        CodecId::Zstd => if chunk.len() < 4 {
            Err(Fault::ZstdTooSmall)
        } else {
            parse_framed(zstd_content(chunk.skip(4)), 0, count)
        },
    }
}

/// The values that a result holds.
pub open spec fn rows_result(result: GalaxResult<Vec<Vec<u8>>>) -> Result<
    Seq<Seq<u8>>,
    GalaxError,
> {
    match result {
        Ok(values) => Ok(views(values@)),
        Err(error) => Err(error),
    }
}

/// The value that a result holds.
pub open spec fn row_result(result: GalaxResult<Vec<u8>>) -> Result<Seq<u8>, GalaxError> {
    match result {
        Ok(value) => Ok(value@),
        Err(error) => Err(error),
    }
}

/// What decompressing a chunk comes to: its values, the fault in it, or a
/// failure of Zstandard.
pub open spec fn decodes_to(
    col_type: ColumnType,
    codec: CodecId,
    chunk: Seq<u8>,
    count: nat,
    outcome: Result<Seq<Seq<u8>>, GalaxError>,
) -> bool {
    match outcome {
        Ok(rows) => rows_of(col_type, codec, chunk, count) == Ok::<Seq<Seq<u8>>, Fault>(rows),
        Err(error) => {
            ||| codec == CodecId::Zstd && chunk.len() >= 4 && error == GalaxError::Internal(
                Fault::ZstdDecompressionFailed,
            )
            ||| rows_of(col_type, codec, chunk, count) matches Err(fault) && error
                == GalaxError::Internal(fault)
        },
    }
}

/// What reading one row of a chunk comes to. A chunk without compression is
/// read only as far as the row.
pub open spec fn row_decodes_to(
    col_type: ColumnType,
    codec: CodecId,
    chunk: Seq<u8>,
    count: nat,
    row: nat,
    outcome: Result<Seq<u8>, GalaxError>,
) -> bool {
    if codec == CodecId::Uncompressed {
        match outcome {
            Ok(value) => framed_row(chunk, 0, row) == Ok::<Seq<u8>, Fault>(value),
            Err(error) => framed_row(chunk, 0, row) matches Err(fault) && error
                == GalaxError::Internal(fault),
        }
    } else {
        match outcome {
            Ok(value) => rows_of(col_type, codec, chunk, count) matches Ok(rows) && value
                == rows[row as int],
            Err(error) => decodes_to(col_type, codec, chunk, count, Err(error)),
        }
    }
}

/// A chunk that decompresses has as many values as were asked for.
pub proof fn lemma_rows_len(col_type: ColumnType, codec: CodecId, chunk: Seq<u8>, count: nat)
    requires
        rows_of(col_type, codec, chunk, count) is Ok,
    ensures
        rows_of(col_type, codec, chunk, count)->Ok_0.len() == count,
{
    match codec {
        CodecId::Uncompressed => {
            lemma_parsed_len(chunk, 0, count);
        },
        CodecId::FastPFor => {
            lemma_delta_rows_len(col_type, chunk, count);
        },
        CodecId::Zstd => {
            lemma_parsed_len(zstd_content(chunk.skip(4)), 0, count);
        },
    }
}

/// The values can be stored without losing any of them: lengths fit, and values
/// that are delta-encoded have the column's width.
pub open spec fn storable(col_type: ColumnType, codec: CodecId, rows: Seq<Seq<u8>>) -> bool {
    match codec {
        CodecId::FastPFor => {
            &&& col_type.width() is Some
            &&& forall|i: int|
                0 <= i < rows.len() ==> (#[trigger] rows[i]).len() == col_type.width()->0
            &&& packed_len(rows.len(), 64) <= u32::MAX
        },
        _ => lengths_fit(rows),
    }
}

/// Whatever the codec, a chunk gives back the values it was made of.
pub proof fn lemma_codec_round_trip(
    col_type: ColumnType,
    codec: CodecId,
    rows: Seq<Seq<u8>>,
    chunk: Seq<u8>,
)
    requires
        is_chunk(col_type, codec, rows, chunk),
        storable(col_type, codec, rows),
    ensures
        rows_of(col_type, codec, chunk, rows.len()) == Ok::<Seq<Seq<u8>>, Fault>(rows),
{
    match codec {
        CodecId::FastPFor => {
            lemma_delta_bytes_round_trip(col_type, rows);
        },
        CodecId::Uncompressed => {
            lemma_framing_round_trip(rows);
        },
        CodecId::Zstd => {
            lemma_framing_round_trip(rows);
            lemma_le_bytes_len(framed(rows).len(), 4);
        },
    }
}

/// Compresses column values using the specified codec.
pub fn compress(col_type: &ColumnType, codec: CodecId, values: &[Vec<u8>]) -> (result: GalaxResult<
    Vec<u8>,
>)
    ensures
        match result {
            Ok(chunk) => is_chunk(*col_type, codec, views(values@), chunk@),
            Err(error) => {
                ||| codec == CodecId::FastPFor && col_type.size() is None && error
                    == GalaxError::Internal(Fault::NotFixedWidth)
                ||| codec == CodecId::Zstd && error == GalaxError::Internal(
                    Fault::ZstdCompressionFailed,
                )
            },
        },
{
    match codec {
        CodecId::Uncompressed => Ok(compress_none(values)),
        CodecId::FastPFor => match compress_fastpfor(col_type, values) {
            Ok(chunk) => Ok(chunk),
            Err(fault) => Err(GalaxError::Internal(fault)),
        },
        CodecId::Zstd => compress_zstd(values),
    }
}

/// Decompresses column data using the specified codec.
pub fn decompress(col_type: &ColumnType, codec: CodecId, data: &[u8], row_count: u32) -> (result:
    GalaxResult<Vec<Vec<u8>>>)
    ensures
        decodes_to(*col_type, codec, data@, row_count as nat, rows_result(result)),
{
    match codec {
        CodecId::Uncompressed => decompress_none(data, row_count),
        CodecId::FastPFor => match decompress_fastpfor(col_type, data, row_count) {
            Ok(values) => Ok(values),
            Err(fault) => Err(GalaxError::Internal(fault)),
        },
        CodecId::Zstd => decompress_zstd(data, row_count),
    }
}

/// No compression: each value behind its length.
fn compress_none(values: &[Vec<u8>]) -> (chunk: Vec<u8>)
    ensures
        chunk@ == framed(views(values@)),
{
    write_framed(values)
}

/// Reads values that were stored without compression.
fn decompress_none(data: &[u8], row_count: u32) -> (result: GalaxResult<Vec<Vec<u8>>>)
    ensures
        match result {
            Ok(values) => parse_framed(data@, 0, row_count as nat) == Ok::<Seq<Seq<u8>>, Fault>(
                views(values@),
            ),
            Err(error) => parse_framed(data@, 0, row_count as nat) matches Err(fault) && error
                == GalaxError::Internal(fault),
        },
{
    match read_framed(data, row_count) {
        Ok(values) => Ok(values),
        Err(fault) => Err(GalaxError::Internal(fault)),
    }
}

/// Reads a single row of a column that was stored without compression, without
/// copying the rows before it.
pub fn decompress_none_single_row(data: &[u8], target_row: u32) -> (result: GalaxResult<Vec<u8>>)
    ensures
        match result {
            Ok(value) => framed_row(data@, 0, target_row as nat) == Ok::<Seq<u8>, Fault>(value@),
            Err(error) => framed_row(data@, 0, target_row as nat) matches Err(fault) && error
                == GalaxError::Internal(fault),
        },
{
    match read_framed_row(data, target_row) {
        Ok(value) => Ok(value),
        Err(fault) => Err(GalaxError::Internal(fault)),
    }
}

/// Compresses variable-width values with Zstandard: the length of the
/// uncompressed form, then the compressed form.
fn compress_zstd(values: &[Vec<u8>]) -> (result: GalaxResult<Vec<u8>>)
    ensures
        match result {
            Ok(chunk) => is_chunk(ColumnType::Blob, CodecId::Zstd, views(values@), chunk@),
            Err(error) => error == GalaxError::Internal(Fault::ZstdCompressionFailed),
        },
{
    let raw = write_framed(values);
    let frame = zstd_encode(raw.as_slice(), ZSTD_LEVEL);
    let result = zstd_chunk(raw.len(), frame);
    proof {
        lemma_le_bytes_len(raw@.len(), 4);
        if let Ok(chunk) = &result {
            assert(chunk@.skip(4) =~= zstd_frame(raw@, ZSTD_LEVEL));
        }
    }
    result
}

/// The chunk that holds a frame, if Zstandard made one: the length of the uncompressed
/// form, then the frame.
pub fn zstd_chunk(raw_len: usize, frame: Option<Vec<u8>>) -> (result: GalaxResult<Vec<u8>>)
    ensures
        match frame {
            Some(bytes) => result matches Ok(chunk) && chunk@ == le_bytes(raw_len as nat, 4)
                + bytes@,
            None => result == Err::<Vec<u8>, GalaxError>(
                GalaxError::Internal(Fault::ZstdCompressionFailed),
            ),
        },
{
    match frame {
        Some(bytes) => {
            let mut buf: Vec<u8> = Vec::new();
            put_le(&mut buf, raw_len as u64, 4);
            put_bytes(&mut buf, bytes.as_slice());
            assert(buf@ =~= le_bytes(raw_len as nat, 4) + bytes@);
            Ok(buf)
        },
        None => Err(GalaxError::Internal(Fault::ZstdCompressionFailed)),
    }
}

/// Decompresses variable-width values.
fn decompress_zstd(data: &[u8], row_count: u32) -> (result: GalaxResult<Vec<Vec<u8>>>)
    ensures
        match result {
            Ok(values) => rows_of(ColumnType::Blob, CodecId::Zstd, data@, row_count as nat) == Ok::<
                Seq<Seq<u8>>,
                Fault,
            >(views(values@)),
            Err(error) => {
                ||| data@.len() >= 4 && error == GalaxError::Internal(
                    Fault::ZstdDecompressionFailed,
                )
                ||| rows_of(ColumnType::Blob, CodecId::Zstd, data@, row_count as nat) matches Err(
                    fault,
                ) && error == GalaxError::Internal(fault)
            },
        },
{
    if data.len() < 4 {
        return Err(GalaxError::Internal(Fault::ZstdTooSmall));
    }
    let frames = slice_subrange(data, 4, data.len());
    assert(frames@ =~= data@.skip(4));
    match zstd_decode(frames) {
        Some(raw) => decompress_none(raw.as_slice(), row_count),
        None => Err(GalaxError::Internal(Fault::ZstdDecompressionFailed)),
    }
}

/// Decompresses column data and takes one row out of it.
pub fn decompress_row(
    col_type: &ColumnType,
    codec: CodecId,
    data: &[u8],
    row_count: u32,
    row: u32,
) -> (result: GalaxResult<Vec<u8>>)
    requires
        row < row_count,
    ensures
        row_decodes_to(
            *col_type,
            codec,
            data@,
            row_count as nat,
            row as nat,
            row_result(result),
        ),
{
    match codec {
        CodecId::Uncompressed => decompress_none_single_row(data, row),
        _ => match decompress(col_type, codec, data, row_count) {
            Ok(values) => {
                proof {
                    lemma_rows_len(*col_type, codec, data@, row_count as nat);
                }
                Ok(slice_to_vec(values[row as usize].as_slice()))
            },
            Err(error) => Err(error),
        },
    }
}

} // verus!
