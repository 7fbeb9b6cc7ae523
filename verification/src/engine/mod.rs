//! The storage engine: memtable, row index, SST files, scans and compaction
//! behind one interface.

pub mod backup;
pub mod columnar_laws;
pub mod columnar_scan;
pub mod compact;
pub mod compact_laws;
pub mod compact_scan_laws;
pub mod kv;
pub mod laws;
pub mod names;
pub mod newest;
pub mod open_laws;
pub mod read;
pub mod read_laws;
pub mod recover;
pub mod registry;
pub mod scan;
pub mod scan_laws;
pub mod state;
pub mod versions;

pub use kv::decode_kv;
pub use state::{CompactionStats, Engine, EngineConfig};
