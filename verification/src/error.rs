//! Errors of the storage engine.

use vstd::prelude::*;

verus! {

/// What went wrong inside the engine.
#[derive(PartialEq, Eq, Debug)]
pub enum Fault {
    /// A block needs at least one column.
    NoColumns,
    /// There is not one codec for each column.
    CodecCountMismatch { codecs: usize, columns: usize },
    /// The columns of a block differ in their number of rows.
    RowCountMismatch,
    /// The bytes are too few for a block.
    BlockTooSmall,
    /// A block's header ends early.
    HeaderTruncated,
    /// A column type byte that stands for no type.
    UnknownColumnType(u8),
    /// A codec byte that stands for no codec.
    UnknownCodec(u8),
    /// The column chunks reach beyond the block.
    ColumnDataOutOfBounds,
    /// The row offset table reaches beyond the block.
    RowOffsetsOutOfBounds,
    /// There is no column with this index.
    ColumnOutOfRange { index: usize, columns: usize },
    /// There is no row with this offset.
    RowOutOfRange { row: u32, rows: u32 },
    /// A column chunk reaches beyond the column data.
    ChunkOutOfBounds,
    /// Column data ends where a value's length should stand.
    ColumnTruncated,
    /// A value reaches beyond its column data.
    ValueOutOfBounds,
    /// Delta encoding needs a fixed-width column type.
    NotFixedWidth,
    /// Delta-encoded data without a byte.
    DeltaDataEmpty,
    /// Delta-encoded data without its first value.
    FirstValueMissing,
    /// Delta-encoded data without its bit width.
    BitWidthMissing,
    /// A bit width above 64, or values wider than 8 bytes.
    WidthOutOfRange,
    /// Delta-encoded data without the length of its packed part.
    PackedLengthMissing,
    /// The packed deltas reach beyond the data.
    PackedDataOutOfBounds,
    /// Zstandard data without its length.
    ZstdTooSmall,
    /// Zstandard could not compress the data.
    ZstdCompressionFailed,
    /// Zstandard could not decompress the data.
    ZstdDecompressionFailed,
    /// A footer does not end with its magic number.
    BadFooterMagic(u32),
    /// A file is too small to hold a footer.
    FileTooSmall,
    /// The block index reaches beyond the file.
    IndexOutOfBounds,
    /// A blob entry does not start with its magic number.
    BlobMagicMismatch { found: u32 },
    /// A blob entry's length differs from its reference.
    BlobLengthMismatch { expected: u32, found: u32 },
    /// A blob entry's value does not match its content hash.
    BlobContentMismatch,
    /// No table with this prefix is stored by column.
    NoColumnarTable { prefix: Vec<u8> },
    /// A projection names a column that the table does not have.
    ProjectionOutOfRange { index: usize, columns: usize },
}

/// The kinds of files whose format has a version.
#[derive(Clone, Copy, PartialEq, Eq, Structural, Debug)]
pub enum Artifact {
    /// A sorted string table.
    Sst,
    /// A blob file.
    Blob,
}

/// Errors of the storage engine.
#[derive(PartialEq, Eq, Debug)]
pub enum GalaxError {
    /// A read ran past the end of its input.
    UnexpectedEof,
    /// Broken input or a broken request.
    Internal(Fault),
    /// A magic number that is not the expected one.
    InvalidMagic(u32),
    /// A checksum that does not match its content.
    ChecksumMismatch { expected: u64, actual: u64 },
    /// A format version from the future.
    FormatTooNew { artifact: Artifact, found: u16, current: u16 },
    /// A format version that is no longer read.
    FormatTooOld { artifact: Artifact, found: u16, oldest: u16 },
}

/// Result of an engine operation.
pub type GalaxResult<T> = Result<T, GalaxError>;

} // verus!
