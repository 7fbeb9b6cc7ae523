//! Which blocks to forget and which to load, by their heat.

use vstd::prelude::*;

use crate::sort::{is_sorted, lemma_same_values, merge_sort, Ranked};

verus! {

/// A tracked block and its heat; a hotter block has a greater number.
#[derive(Clone, Copy, PartialEq, Eq, Structural, Debug)]
pub struct HeatSample {
    /// Id of the block.
    pub block_id: u64,
    /// Heat of the block.
    pub heat: u32,
}

impl Ranked for HeatSample {
    /// Hotter blocks come first.
    open spec fn ranks_before(&self, other: &Self) -> bool {
        self.heat > other.heat
    }

    proof fn rank_asymmetric(a: &Self, b: &Self) {
    }

    proof fn rank_transitive(a: &Self, b: &Self, c: &Self) {
    }

    fn is_before(&self, other: &Self) -> (before: bool) {
        self.heat > other.heat
    }
}

/// The ids of blocks.
pub open spec fn ids_of(samples: Seq<HeatSample>) -> Seq<u64> {
    Seq::new(samples.len(), |i: int| samples[i].block_id)
}

/// An order of blocks in which none stands behind a colder one.
pub open spec fn hottest_first(order: Seq<HeatSample>, samples: Seq<HeatSample>) -> bool {
    &&& is_sorted(order)
    &&& order.to_multiset() == samples.to_multiset()
}

/// Number of blocks whose heat is tracked for a hot set: four times its size, up to the
/// greatest number.
pub fn tracked_cap(hot_capacity: usize) -> (cap: usize)
    ensures
        cap == ({
            let size = if hot_capacity == 0 {
                1
            } else {
                hot_capacity as int
            };
            if size * 4 > usize::MAX {
                usize::MAX as int
            } else {
                size * 4
            }
        }),
{
    let size: usize = if hot_capacity == 0 {
        1
    } else {
        hot_capacity
    };
    if size > usize::MAX / 4 {
        usize::MAX
    } else {
        size * 4
    }
}

/// Number of blocks that stay tracked when there are too many: three quarters of the cap.
pub open spec fn kept_blocks(max_tracked: int) -> int {
    max_tracked * 3 / 4
}

/// The first blocks of an order.
pub open spec fn first_ids(order: Seq<HeatSample>, max: int) -> Seq<u64> {
    if order.len() <= max {
        ids_of(order)
    } else {
        ids_of(order.take(max))
    }
}

/// The blocks to forget when more than `max_tracked` are tracked: all but the hottest.
/// Which of equally hot blocks are forgotten is open.
pub fn blocks_to_forget(samples: Vec<HeatSample>, max_tracked: usize) -> (forgotten: Vec<u64>)
    ensures
        if samples@.len() <= max_tracked {
            forgotten@.len() == 0
        } else {
            exists|order: Seq<HeatSample>| #[trigger]
                hottest_first(order, samples@) && forgotten@ == ids_of(
                    order.skip(kept_blocks(max_tracked as int)),
                )
        },
{
    if samples.len() <= max_tracked {
        return Vec::new();
    }
    let ghost given = samples@;
    let target: usize = max_tracked / 4 * 3 + max_tracked % 4 * 3 / 4;
    let order = merge_sort(samples);
    proof {
        lemma_same_values(order@, given);
    }
    let mut forgotten: Vec<u64> = Vec::new();
    let mut i: usize = target;
    while i < order.len()
        invariant
            target <= i <= order@.len(),
            forgotten@ == ids_of(order@.subrange(target as int, i as int)),
        decreases order@.len() - i,
    {
        forgotten.push(order[i].block_id);
        assert(forgotten@ =~= ids_of(order@.subrange(target as int, i + 1)));
        i = i + 1;
    }
    assert(order@.subrange(target as int, i as int) =~= order@.skip(target as int));
    assert(hottest_first(order@, given));
    forgotten
}

/// The hottest blocks, at most `max`, hottest first. The order of equally hot blocks is
/// open.
pub fn hottest(samples: Vec<HeatSample>, max: usize) -> (ids: Vec<u64>)
    ensures
        exists|order: Seq<HeatSample>| #[trigger]
            hottest_first(order, samples@) && ids@ == first_ids(order, max as int),
{
    let ghost given = samples@;
    let order = merge_sort(samples);
    let end: usize = if order.len() < max {
        order.len()
    } else {
        max
    };
    let mut ids: Vec<u64> = Vec::new();
    let mut i: usize = 0;
    while i < end
        invariant
            i <= end <= order@.len(),
            ids@ == ids_of(order@.take(i as int)),
        decreases end - i,
    {
        ids.push(order[i].block_id);
        assert(ids@ =~= ids_of(order@.take(i + 1)));
        i = i + 1;
    }
    proof {
        if order@.len() <= max {
            assert(order@.take(end as int) =~= order@);
        }
        assert(hottest_first(order@, given));
    }
    ids
}

/// No block that is forgotten is hotter than one that stays.
pub proof fn lemma_forgotten_are_coldest(
    order: Seq<HeatSample>,
    samples: Seq<HeatSample>,
    target: int,
    kept: int,
    forgotten: int,
)
    requires
        hottest_first(order, samples),
        0 <= kept < target <= forgotten < order.len(),
    ensures
        order[forgotten].heat <= order[kept].heat,
{
    assert(!order[forgotten].ranks_before(&order[kept]));
}

/// Forgetting leaves three quarters of the blocks that may be tracked, rounded down.
pub proof fn lemma_forgetting_makes_room(max_tracked: int)
    requires
        max_tracked > 0,
    ensures
        0 <= kept_blocks(max_tracked) < max_tracked,
        4 * kept_blocks(max_tracked) <= 3 * max_tracked < 4 * (kept_blocks(max_tracked) + 1),
{
}

/// The blocks that are picked are the hottest: none that is left out is hotter, and as many
/// are picked as asked for, or all.
pub proof fn lemma_picked_are_hottest(
    order: Seq<HeatSample>,
    samples: Seq<HeatSample>,
    max: int,
    picked: int,
    left: int,
)
    requires
        hottest_first(order, samples),
        0 <= max,
        0 <= picked < first_ids(order, max).len() <= left < order.len(),
    ensures
        first_ids(order, max).len() == (if samples.len() < max {
            samples.len() as int
        } else {
            max
        }),
        first_ids(order, max)[picked] == order[picked].block_id,
        order[left].heat <= order[picked].heat,
        samples.contains(order[picked]),
{
    lemma_same_values(order, samples);
    assert(order.contains(order[picked]));
    assert(!order[left].ranks_before(&order[picked]));
}

} // verus!
