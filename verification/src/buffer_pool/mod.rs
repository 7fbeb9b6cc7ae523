//! The buffer pool: blocks in memory, in a part for point lookups and one for scans.

pub mod cache_key;
pub mod clock_sweep;
pub mod heat;
pub mod lru_cache;
pub mod lru_laws;
pub mod numa;
pub mod pool;

pub use clock_sweep::ClockSweep;
pub use heat::HeatSample;
pub use lru_cache::LruCache;
pub use numa::NumaPartitioned;
pub use pool::{AccessType, BufferPool, CachedBlock};
