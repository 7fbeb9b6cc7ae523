//! Column types.

use vstd::prelude::*;

verus! {

/// Commit timestamp.
pub type Timestamp = u64;

/// Block identifier.
pub type BlockId = u64;

/// The type of a column.
#[derive(Clone, Copy, PartialEq, Eq, Structural, Debug)]
pub enum ColumnType {
    Int8,
    Int16,
    Int32,
    Int64,
    UInt8,
    UInt16,
    UInt32,
    UInt64,
    Float32,
    Float64,
    Text,
    Blob,
    Json,
    Boolean,
    /// A vector of this many dimensions.
    Embedding(u32),
}

impl ColumnType {
    /// Bytes of a value, for scalar types of fixed width.
    pub open spec fn width(self) -> Option<nat> {
        match self {
            ColumnType::Int8 | ColumnType::UInt8 | ColumnType::Boolean => Some(1),
            ColumnType::Int16 | ColumnType::UInt16 => Some(2),
            ColumnType::Int32 | ColumnType::UInt32 | ColumnType::Float32 => Some(4),
            ColumnType::Int64 | ColumnType::UInt64 | ColumnType::Float64 => Some(8),
            _ => None,
        }
    }

    /// Whether values are signed integers.
    pub open spec fn signed(self) -> bool {
        matches!(
            self,
            ColumnType::Int8 | ColumnType::Int16 | ColumnType::Int32 | ColumnType::Int64
        )
    }

    /// Whether values vary in size.
    pub open spec fn variable(self) -> bool {
        matches!(self, ColumnType::Text | ColumnType::Blob | ColumnType::Json)
    }

    /// Bytes of a value, for scalar types of fixed width and for embeddings.
    pub open spec fn size(self) -> Option<nat> {
        match self {
            ColumnType::Embedding(dims) => Some(4 * dims as nat),
            _ => self.width(),
        }
    }

    /// Bytes of a value, for scalar types of fixed width and for embeddings,
    /// which take 4 bytes for each dimension.
    pub fn byte_size(&self) -> (size: Option<u64>)
        ensures
            match size {
                Some(n) => self.size() == Some(n as nat),
                None => self.size() is None,
            },
    {
        match self {
            ColumnType::Embedding(dims) => Some(*dims as u64 * 4),
            _ => match self.scalar_width() {
                Some(width) => Some(width as u64),
                None => None,
            },
        }
    }

    /// Bytes of a value, for scalar types of fixed width.
    pub fn scalar_width(&self) -> (width: Option<usize>)
        ensures
            match width {
                Some(n) => self.width() == Some(n as nat) && n <= 8,
                None => self.width() is None,
            },
    {
        match self {
            ColumnType::Int8 | ColumnType::UInt8 | ColumnType::Boolean => Some(1),
            ColumnType::Int16 | ColumnType::UInt16 => Some(2),
            ColumnType::Int32 | ColumnType::UInt32 | ColumnType::Float32 => Some(4),
            ColumnType::Int64 | ColumnType::UInt64 | ColumnType::Float64 => Some(8),
            _ => None,
        }
    }

    /// Whether this is a scalar type of fixed width.
    pub fn is_fixed_width(&self) -> (fixed: bool)
        ensures
            fixed == (self.width() is Some),
    {
        self.scalar_width().is_some()
    }

    /// Whether values vary in size.
    pub fn is_variable_width(&self) -> (variable: bool)
        ensures
            variable == self.variable(),
    {
        matches!(self, ColumnType::Text | ColumnType::Blob | ColumnType::Json)
    }

    /// Whether values are signed integers.
    pub fn is_signed(&self) -> (signed: bool)
        ensures
            signed == self.signed(),
    {
        matches!(
            self,
            ColumnType::Int8 | ColumnType::Int16 | ColumnType::Int32 | ColumnType::Int64
        )
    }
}

} // verus!
