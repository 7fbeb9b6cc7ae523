//! When a level is due for compaction.

use vstd::prelude::*;

use crate::compaction::lsm::{total_bytes, LsmTree};
use crate::compaction::{
    BOTTOM_LEVEL, DEFAULT_SIZE_RATIO, DEFAULT_SST_SIZE_BYTES, L0_FILE_COUNT_THRESHOLD, NUM_LEVELS,
};
use crate::flush::counted_up;

verus! {

/// Number of files in level 0 that triggers a compaction where level 0 is kept a single
/// sorted run.
pub const LEVELED_L0_FILE_COUNT: usize = 2;

/// How level 0 is compacted.
#[derive(Clone, Copy, PartialEq, Eq, Structural, Debug)]
pub enum L0CompactionStrategy {
    /// Files gather until there are as many as a threshold.
    Tiered,
    /// A second file triggers a compaction.
    Leveled,
}

/// Decides when a level is compacted.
#[derive(Clone, Copy, PartialEq, Eq, Structural, Debug)]
pub struct CompactionTrigger {
    /// Number of files in a tiered level 0 that triggers a compaction.
    pub l0_file_count_threshold: usize,
    /// Size ratio between adjacent levels.
    pub size_ratio: u32,
    /// How level 0 is compacted.
    pub l0_strategy: L0CompactionStrategy,
}

/// Size at which a level is compacted, given the size of the next level: a fraction of
/// it, or the size of a file if it is empty.
pub open spec fn target_size(next_size: u64, size_ratio: u32) -> u64 {
    if next_size > 0 {
        next_size / (size_ratio as u64)
    } else {
        DEFAULT_SST_SIZE_BYTES
    }
}

impl CompactionTrigger {
    /// Number of files in level 0 that triggers a compaction.
    pub open spec fn l0_limit(&self) -> usize {
        match self.l0_strategy {
            L0CompactionStrategy::Tiered => self.l0_file_count_threshold,
            L0CompactionStrategy::Leveled => LEVELED_L0_FILE_COUNT,
        }
    }

    /// Whether a level is due: level 0 by its number of files, a level above the bottom
    /// by its size, and the bottom level never.
    pub open spec fn is_due(&self, tree: &LsmTree, level: int) -> bool {
        if level == 0 {
            tree.levels@[0]@.len() >= self.l0_limit()
        } else if level >= BOTTOM_LEVEL {
            false
        } else {
            let size = counted_up(total_bytes(tree.levels@[level]@));
            let next = counted_up(total_bytes(tree.levels@[level + 1]@));
            size > 0 && size >= target_size(next, self.size_ratio)
        }
    }

    /// A trigger with the usual thresholds.
    pub fn new() -> (trigger: Self)
        ensures
            trigger.l0_file_count_threshold == L0_FILE_COUNT_THRESHOLD,
            trigger.size_ratio == DEFAULT_SIZE_RATIO,
            trigger.l0_strategy == L0CompactionStrategy::Tiered,
    {
        Self::with_thresholds(L0_FILE_COUNT_THRESHOLD, DEFAULT_SIZE_RATIO)
    }

    /// A trigger with given thresholds.
    pub fn with_thresholds(l0_file_count_threshold: usize, size_ratio: u32) -> (trigger: Self)
        ensures
            trigger.l0_file_count_threshold == l0_file_count_threshold,
            trigger.size_ratio == size_ratio,
            trigger.l0_strategy == L0CompactionStrategy::Tiered,
    {
        CompactionTrigger {
            l0_file_count_threshold,
            size_ratio,
            l0_strategy: L0CompactionStrategy::Tiered,
        }
    }

    /// The same trigger with another strategy for level 0.
    pub fn with_l0_strategy(self, l0_strategy: L0CompactionStrategy) -> (trigger: Self)
        ensures
            trigger.l0_file_count_threshold == self.l0_file_count_threshold,
            trigger.size_ratio == self.size_ratio,
            trigger.l0_strategy == l0_strategy,
    {
        CompactionTrigger {
            l0_file_count_threshold: self.l0_file_count_threshold,
            size_ratio: self.size_ratio,
            l0_strategy,
        }
    }

    /// The first level that is due.
    pub fn check(&self, tree: &LsmTree) -> (level: Option<usize>)
        requires
            tree.levels@.len() == NUM_LEVELS,
            self.size_ratio > 0,
        ensures
            match level {
                Some(l) => l < BOTTOM_LEVEL && self.is_due(tree, l as int) && forall|k: int|
                    0 <= k < l ==> !#[trigger] self.is_due(tree, k),
                None => forall|k: int| 0 <= k < NUM_LEVELS ==> !#[trigger] self.is_due(tree, k),
            },
    {
        let mut level: usize = 0;
        while level < BOTTOM_LEVEL
            invariant
                level <= BOTTOM_LEVEL,
                tree.levels@.len() == NUM_LEVELS,
                self.size_ratio > 0,
                forall|k: int| 0 <= k < level ==> !#[trigger] self.is_due(tree, k),
            decreases BOTTOM_LEVEL - level,
        {
            if self.needs_compaction(tree, level) {
                return Some(level);
            }
            level = level + 1;
        }
        None
    }

    /// Whether a level is due.
    pub fn needs_compaction(&self, tree: &LsmTree, level: usize) -> (due: bool)
        requires
            tree.levels@.len() == NUM_LEVELS,
            self.size_ratio > 0,
        ensures
            due == self.is_due(tree, level as int),
    {
        if level == 0 {
            let limit: usize = match self.l0_strategy {
                L0CompactionStrategy::Tiered => self.l0_file_count_threshold,
                L0CompactionStrategy::Leveled => LEVELED_L0_FILE_COUNT,
            };
            return tree.level(0).file_count() >= limit;
        }
        if level >= BOTTOM_LEVEL {
            return false;
        }
        let current_size: u64 = tree.level(level).total_size_bytes();
        let next_size: u64 = tree.level(level + 1).total_size_bytes();
        if current_size == 0 {
            return false;
        }
        let target: u64 = if next_size > 0 {
            next_size / self.size_ratio as u64
        } else {
            DEFAULT_SST_SIZE_BYTES
        };
        current_size >= target
    }
}

impl Default for CompactionTrigger {
    fn default() -> (trigger: Self)
        ensures
            trigger.l0_file_count_threshold == L0_FILE_COUNT_THRESHOLD,
            trigger.size_ratio == DEFAULT_SIZE_RATIO,
            trigger.l0_strategy == L0CompactionStrategy::Tiered,
    {
        Self::new()
    }
}

/// An empty tree is never compacted, unless level 0 triggers without a file.
pub proof fn lemma_empty_not_due(trigger: CompactionTrigger, tree: LsmTree, level: int)
    requires
        tree.levels@.len() == NUM_LEVELS,
        forall|i: int| 0 <= i < NUM_LEVELS ==> (#[trigger] tree.levels@[i])@.len() == 0,
        trigger.l0_limit() > 0,
        0 <= level < NUM_LEVELS,
    ensures
        !trigger.is_due(&tree, level),
{
    assert(tree.levels@[level]@.len() == 0);
}

/// Level 0 is due when it has as many files as the threshold, or, where it is kept a single
/// sorted run, a second one.
pub proof fn lemma_level_0_due(trigger: CompactionTrigger, tree: LsmTree)
    ensures
        trigger.l0_strategy == L0CompactionStrategy::Tiered ==> trigger.is_due(&tree, 0) == (
        tree.levels@[0]@.len() >= trigger.l0_file_count_threshold),
        trigger.l0_strategy == L0CompactionStrategy::Leveled ==> trigger.is_due(&tree, 0) == (
        tree.levels@[0]@.len() >= 2),
{
}

/// A level above the bottom is due when it has files and is no smaller than the next level
/// over the size ratio, rounded down; with an empty level below, when it is as large as a
/// file. The bottom level is never due.
pub proof fn lemma_level_due(trigger: CompactionTrigger, tree: LsmTree, level: int)
    requires
        tree.levels@.len() == NUM_LEVELS,
        trigger.size_ratio > 0,
        0 < level < NUM_LEVELS,
        total_bytes(tree.levels@[level]@) <= u64::MAX,
        level + 1 < NUM_LEVELS ==> total_bytes(tree.levels@[level + 1]@) <= u64::MAX,
    ensures
        level + 1 == NUM_LEVELS ==> !trigger.is_due(&tree, level),
        level + 1 < NUM_LEVELS ==> {
            let size = total_bytes(tree.levels@[level]@);
            let next = total_bytes(tree.levels@[level + 1]@);
            &&& size == 0 ==> !trigger.is_due(&tree, level)
            &&& size > 0 && next > 0 ==> trigger.is_due(&tree, level) == ((size + 1)
                * trigger.size_ratio > next)
            &&& next == 0 ==> trigger.is_due(&tree, level) == (size >= DEFAULT_SST_SIZE_BYTES)
        },
{
    if level + 1 < NUM_LEVELS {
        let size = total_bytes(tree.levels@[level]@) as int;
        let next = total_bytes(tree.levels@[level + 1]@) as int;
        let ratio = trigger.size_ratio as int;
        vstd::arithmetic::div_mod::lemma_fundamental_div_mod(next, ratio);
        vstd::arithmetic::div_mod::lemma_mod_bound(next, ratio);
        let quotient = next / ratio;
        if size >= quotient {
            assert((size + 1) * ratio > next) by (nonlinear_arith)
                requires
                    size >= quotient,
                    ratio > 0,
                    next == ratio * quotient + next % ratio,
                    next % ratio < ratio,
            ;
        } else {
            assert((size + 1) * ratio <= next) by (nonlinear_arith)
                requires
                    size + 1 <= quotient,
                    ratio > 0,
                    next == ratio * quotient + next % ratio,
                    next % ratio >= 0,
            ;
        }
    }
}

} // verus!
