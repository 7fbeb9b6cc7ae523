//! A verified log-structured storage engine core.
pub mod art;
pub mod assoc;
pub mod bitpack;
pub mod blob_log;
pub mod bloom;
pub mod buffer_pool;
pub mod bytes;
pub mod column;
pub mod columnar;
pub mod compaction;
pub mod disk_full;
pub mod engine;
pub mod error;
pub mod flush;
pub mod formats;
pub mod hash;
pub mod memtable;
pub mod pax;
pub mod rate_limiter;
pub mod row;
pub mod sort;
pub mod sst;
