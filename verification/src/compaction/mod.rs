//! Lazy leveling compaction: the shape of the tree, when to compact, and the merge
//! with garbage collection of old versions.
//!
//! Level 0 holds flushed memtables. Levels 1 to 3 hold several sorted runs each. The
//! bottom level holds one.

pub mod compactor;
pub mod gc;
pub mod lsm;
pub mod merge;
pub mod trigger;

pub use compactor::{CompactionConfig, CompactionInputs, CompactionOutput, Compactor, MergedRuns};
pub use gc::{GcContext, MvccGarbageCollector, VersionedEntry};
pub use lsm::{LsmLevel, LsmTree, SstMetadata};
pub use merge::MergeIterator;
pub use trigger::{CompactionTrigger, L0CompactionStrategy};

use vstd::prelude::*;

verus! {

/// Number of levels.
pub const NUM_LEVELS: usize = 5;

/// Number of files in level 0 that triggers a compaction.
pub const L0_FILE_COUNT_THRESHOLD: usize = 4;

/// Size ratio between adjacent levels.
pub const DEFAULT_SIZE_RATIO: u32 = 10;

/// Size of a file in bytes.
pub const DEFAULT_SST_SIZE_BYTES: u64 = 67108864;

/// Smallest size of a file in bytes.
pub const MIN_SST_SIZE_BYTES: u64 = 8388608;

/// Index of the bottom level.
pub const BOTTOM_LEVEL: usize = 4;

} // verus!
