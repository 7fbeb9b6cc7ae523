//! PAX blocks: rows stored column by column.
//!
//! A block holds a header, one compressed chunk for each column, a table of
//! row offsets and a checksum:
//!
//! ```text
//! header, with a descriptor for each column
//! column chunks
//! row offset table: u32 for each row
//! checksum: u64, XXH3 of everything before it
//! ```
//!
//! Fixed-width columns are delta-encoded, variable-width columns are
//! compressed with Zstandard, and embeddings are stored as they are. Each
//! descriptor carries the least and the greatest value of its column.

pub mod block;
pub mod codec;
pub mod delta;
pub mod framing;
pub mod header;
pub mod point_read;
pub mod zone_map;

pub use block::{ColumnData, PaxBlock};
pub use point_read::read_value_from_raw_block;
pub use header::{ColumnDescriptor, PaxBlockHeader};
pub use zone_map::{zone_map_can_match, PruneOp, ZoneMap};

use vstd::prelude::*;

use crate::column::ColumnType;

verus! {

/// Magic number of a block: ASCII "GALA".
pub const PAX_MAGIC: u32 = 0x47414C41;

/// Current format version of blocks.
pub const PAX_FORMAT_VERSION: u8 = 1;

/// Codec identifiers stored in column descriptors.
#[derive(Clone, Copy, PartialEq, Eq, Structural, Debug)]
pub enum CodecId {
    /// No compression.
    Uncompressed,
    /// Delta encoding and bit-packing.
    FastPFor,
    /// Zstandard level 3.
    Zstd,
}

impl CodecId {
    /// The byte that stands for a codec.
    pub open spec fn byte(self) -> u8 {
        match self {
            CodecId::Uncompressed => 0,
            CodecId::FastPFor => 1,
            CodecId::Zstd => 2,
        }
    }

    /// The codec that a byte stands for.
    pub open spec fn of_byte(value: u8) -> Option<CodecId> {
        match value {
            0 => Some(CodecId::Uncompressed),
            1 => Some(CodecId::FastPFor),
            2 => Some(CodecId::Zstd),
            _ => None,
        }
    }

    /// The default codec of a column type.
    pub open spec fn default_for(col_type: ColumnType) -> CodecId {
        if col_type.width() is Some {
            CodecId::FastPFor
        } else if col_type.variable() {
            CodecId::Zstd
        } else {
            CodecId::Uncompressed
        }
    }

    /// Converts a raw byte to a `CodecId`.
    pub fn from_u8(value: u8) -> (codec: Option<Self>)
        ensures
            codec == CodecId::of_byte(value),
    {
        match value {
            0 => Some(CodecId::Uncompressed),
            1 => Some(CodecId::FastPFor),
            2 => Some(CodecId::Zstd),
            _ => None,
        }
    }

    /// The byte that stands for this codec.
    pub fn to_u8(self) -> (value: u8)
        ensures
            value == self.byte(),
    {
        match self {
            CodecId::Uncompressed => 0,
            CodecId::FastPFor => 1,
            CodecId::Zstd => 2,
        }
    }

    /// Selects the codec for a column type: delta encoding for fixed-width
    /// values, Zstandard for variable-width ones, none for embeddings.
    pub fn for_column_type(col_type: &ColumnType) -> (codec: Self)
        ensures
            codec == CodecId::default_for(*col_type),
    {
        if col_type.is_fixed_width() {
            CodecId::FastPFor
        } else if col_type.is_variable_width() {
            CodecId::Zstd
        } else {
            CodecId::Uncompressed
        }
    }
}

} // verus!
