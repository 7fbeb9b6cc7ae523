//! Rows: keys with the versions of their values.

use vstd::prelude::*;

use crate::memtable::versioned_value::{value_view, VersionedValue};

verus! {

/// A version of a key: when it was committed and what it says.
#[verifier::ext_equal]
pub ghost struct Stamped<V> {
    pub key: Seq<u8>,
    pub timestamp: u64,
    pub value: V,
}

/// A row: its value, or `None` for a tombstone.
pub type RowView = Stamped<Option<Seq<u8>>>;

/// What a value says.
pub trait Content {
    /// Type of what it says.
    type V;

    /// What it says.
    spec fn content(&self) -> Self::V;
}

impl Content for Option<Vec<u8>> {
    type V = Option<Seq<u8>>;

    open spec fn content(&self) -> Option<Seq<u8>> {
        value_view(*self)
    }
}

/// A version of a key.
#[derive(Debug)]
pub struct Candidate<T: Content> {
    /// The key.
    pub key: Vec<u8>,
    /// Commit timestamp of the version.
    pub timestamp: u64,
    /// What the version says.
    pub value: T,
}

impl<T: Content> View for Candidate<T> {
    type V = Stamped<T::V>;

    open spec fn view(&self) -> Stamped<T::V> {
        Stamped { key: self.key@, timestamp: self.timestamp, value: self.value.content() }
    }
}

/// What versions say.
pub open spec fn stamps<T: Content>(candidates: Seq<Candidate<T>>) -> Seq<Stamped<T::V>> {
    Seq::new(candidates.len(), |i: int| candidates[i]@)
}

/// A row with its value, or `None` for a tombstone.
pub type Row = Candidate<Option<Vec<u8>>>;

/// Rows that can be written to a block.
pub trait BlockRow {
    /// What the row says.
    spec fn row(&self) -> RowView;

    /// The key of the row.
    fn row_key(&self) -> (key: &Vec<u8>)
        ensures
            key@ == self.row().key,
    ;

    /// The commit timestamp of the row.
    fn row_timestamp(&self) -> (timestamp: u64)
        ensures
            timestamp == self.row().timestamp,
    ;

    /// The value of the row.
    fn row_value(&self) -> (value: &Option<Vec<u8>>)
        ensures
            value_view(*value) == self.row().value,
    ;
}

impl BlockRow for (Vec<u8>, VersionedValue) {
    open spec fn row(&self) -> RowView {
        Stamped { key: self.0@, timestamp: self.1.timestamp, value: value_view(self.1.value) }
    }

    fn row_key(&self) -> (key: &Vec<u8>) {
        &self.0
    }

    fn row_timestamp(&self) -> (timestamp: u64) {
        self.1.timestamp
    }

    fn row_value(&self) -> (value: &Option<Vec<u8>>) {
        &self.1.value
    }
}

impl BlockRow for Candidate<Option<Vec<u8>>> {
    open spec fn row(&self) -> RowView {
        self@
    }

    fn row_key(&self) -> (key: &Vec<u8>) {
        &self.key
    }

    fn row_timestamp(&self) -> (timestamp: u64) {
        self.timestamp
    }

    fn row_value(&self) -> (value: &Option<Vec<u8>>) {
        &self.value
    }
}

/// What rows say.
pub open spec fn rows_of<R: BlockRow>(entries: Seq<R>) -> Seq<RowView> {
    Seq::new(entries.len(), |i: int| entries[i].row())
}

} // verus!
