//! The pool: a hot set for point lookups and a scan buffer for sequential scans.

use std::collections::HashSet;

use vstd::prelude::*;
use vstd::slice::slice_to_vec;

use crate::buffer_pool::cache_key::{holds, spot};
use crate::buffer_pool::clock_sweep::{
    cell_has, cell_spot, cells_hold, lemma_swept, lemma_swept_keeps, occupied, put_result, swept,
    ClockCell, ClockSweep,
};
use crate::buffer_pool::heat::{first_ids, hottest, hottest_first, HeatSample};
use crate::buffer_pool::lru_cache::{lru_put, lru_used, LruCache};
use crate::buffer_pool::numa::NumaPartitioned;
use crate::sort::lemma_same_values;

verus! {

/// Number of blocks that are compared when one has to make room.
pub const EVICTION_SAMPLE: usize = 16;

/// A block in memory.
#[derive(Debug)]
pub struct CachedBlock {
    /// Id of the block.
    pub block_id: u64,
    /// Bytes of the block.
    pub data: Vec<u8>,
}

/// Whether two blocks are the same.
pub open spec fn same_block(a: CachedBlock, b: CachedBlock) -> bool {
    a.block_id == b.block_id && a.data@ == b.data@
}

impl Clone for CachedBlock {
    fn clone(&self) -> (copy: Self)
        ensures
            same_block(copy, *self),
    {
        CachedBlock { block_id: self.block_id, data: slice_to_vec(self.data.as_slice()) }
    }
}

/// How a block is used.
#[derive(Clone, Copy, PartialEq, Eq, Structural, Debug)]
pub enum AccessType {
    /// A point lookup: the block goes to the hot set.
    PointLookup,
    /// A sequential scan: the block goes to the scan buffer.
    SequentialScan,
}

/// The keys of entries.
pub open spec fn entry_keys<V>(entries: Seq<(u64, V)>) -> Set<u64> {
    Set::new(|key: u64| holds(entries, key))
}

/// Whether the coldest of the scores, the first of equal ones, is at `i`.
pub open spec fn is_coldest(scores: Seq<u32>, i: int) -> bool {
    &&& 0 <= i < scores.len()
    &&& forall|j: int| 0 <= j < scores.len() ==> scores[i] <= #[trigger] scores[j]
    &&& forall|j: int| 0 <= j < i ==> scores[i] < #[trigger] scores[j]
}

/// The place of the coldest score, the first of equal ones; `None` if there is none.
pub fn coldest(scores: &[u32]) -> (place: Option<usize>)
    ensures
        match place {
            Some(i) => is_coldest(scores@, i as int),
            None => scores@.len() == 0,
        },
{
    if scores.len() == 0 {
        return None;
    }
    let mut best: usize = 0;
    let mut i: usize = 1;
    while i < scores.len()
        invariant
            1 <= i <= scores@.len(),
            best < i,
            forall|j: int| 0 <= j < i ==> scores@[best as int] <= #[trigger] scores@[j],
            forall|j: int| 0 <= j < best ==> scores@[best as int] < #[trigger] scores@[j],
        decreases scores@.len() - i,
    {
        if scores[i] < scores[best] {
            best = i;
        }
        i = i + 1;
    }
    Some(best)
}

/// Share of the hot set, in percent.
pub const HOT_SET_PERCENT: usize = 70;

/// Number of blocks of the hot set of each node.
pub open spec fn hot_share(total: int, nodes: int) -> int {
    let hot = total * 70 / 100;
    at_least_one(at_least_one(hot) / at_least_one(nodes))
}

/// Number of blocks of the scan buffer of each node.
pub open spec fn scan_share(total: int, nodes: int) -> int {
    let scan = total - total * 70 / 100;
    at_least_one(at_least_one(scan) / at_least_one(nodes))
}

/// A number, and 1 in the place of 0.
pub open spec fn at_least_one(n: int) -> int {
    if n < 1 {
        1
    } else {
        n
    }
}

/// Whether slots are free, and as many as said.
pub open spec fn no_cells<V>(cells: Seq<Option<ClockCell<u64, V>>>, n: nat) -> bool {
    cells.len() == n && forall|i: int| 0 <= i < n ==> (#[trigger] cells[i]) is None
}

/// Whether a scan buffer is `before` with a block inserted and some keys protected.
pub open spec fn scan_put(
    before: ClockSweep<u64, CachedBlock>,
    block_id: u64,
    block: CachedBlock,
    protected: Set<u64>,
    after: ClockSweep<u64, CachedBlock>,
) -> bool {
    exists|evicted: Option<(u64, CachedBlock)>|
        #[trigger] put_result(
            before.cells(),
            before.hand_at(),
            before.free_slots(),
            block_id,
            block,
            protected,
            after.cells(),
            after.hand_at(),
            after.free_slots(),
            evicted,
        )
}

/// A hot set after a block was admitted by heat, and the block that made room for it: a
/// full hot set takes a new block only if it is hotter than the coldest of the sample.
pub open spec fn admitted(
    hot: Seq<(u64, CachedBlock)>,
    limit: nat,
    block_id: u64,
    block: CachedBlock,
    sample: Seq<u64>,
    scores: Seq<u32>,
    newcomer: u32,
    after: Seq<(u64, CachedBlock)>,
    replaced: Option<u64>,
) -> bool {
    if holds(hot, block_id) || hot.len() < limit || scores.len() == 0 {
        &&& replaced is None
        &&& after == lru_put(hot, limit, block_id, block)
    } else {
        exists|i: int|
            {
                &&& #[trigger] is_coldest(scores, i)
                &&& if newcomer > scores[i] {
                    &&& replaced == Some(sample[i])
                    &&& after == lru_put(without(hot, sample[i]), limit, block_id, block)
                } else {
                    &&& replaced is None
                    &&& after == hot
                }
            }
    }
}

/// The pool.
pub struct BufferPool {
    hot_set: NumaPartitioned<LruCache<u64, CachedBlock>>,
    scan_buffer: NumaPartitioned<ClockSweep<u64, CachedBlock>>,
    adaptive: bool,
}

impl BufferPool {
    /// The hot sets of the nodes.
    pub closed spec fn hot_sets(&self) -> Seq<LruCache<u64, CachedBlock>> {
        self.hot_set.parts()
    }

    /// The scan buffers of the nodes.
    pub closed spec fn scan_buffers(&self) -> Seq<ClockSweep<u64, CachedBlock>> {
        self.scan_buffer.parts()
    }

    /// Whether blocks are admitted by their heat.
    pub closed spec fn by_heat(&self) -> bool {
        self.adaptive
    }

    /// The part that a node uses: the last one if there is none for the node.
    pub open spec fn at(&self, node: usize) -> int {
        if node < self.hot_sets().len() {
            node as int
        } else {
            self.hot_sets().len() - 1
        }
    }

    /// The blocks in the hot set of a node, most recently used first.
    pub open spec fn hot(&self, node: usize) -> Seq<(u64, CachedBlock)> {
        self.hot_sets()[self.at(node)].entries()
    }

    /// The slots of the scan buffer of a node.
    pub open spec fn scan(&self, node: usize) -> Seq<Option<ClockCell<u64, CachedBlock>>> {
        self.scan_buffers()[self.at(node)].cells()
    }

    /// The slot that the hand of the scan buffer of a node is at.
    pub open spec fn hand(&self, node: usize) -> int {
        self.scan_buffers()[self.at(node)].hand_at()
    }

    /// The free slots of the scan buffer of a node.
    pub open spec fn free(&self, node: usize) -> Seq<usize> {
        self.scan_buffers()[self.at(node)].free_slots()
    }

    /// Each node has a hot set and a scan buffer, with room for a block.
    pub open spec fn wf(&self) -> bool {
        &&& self.hot_sets().len() > 0
        &&& self.scan_buffers().len() == self.hot_sets().len()
        &&& forall|i: int|
            0 <= i < self.hot_sets().len() ==> (#[trigger] self.hot_sets()[i]).wf()
                && self.hot_sets()[i].limit() > 0 && self.hot_sets()[i].bounded()
        &&& forall|i: int|
            0 <= i < self.scan_buffers().len() ==> (#[trigger] self.scan_buffers()[i]).wf()
                && self.scan_buffers()[i].limit() > 0
    }

    /// Only the parts of one node differ, and neither its sizes.
    pub open spec fn same_but(&self, before: &BufferPool, node: usize) -> bool {
        &&& self.by_heat() == before.by_heat()
        &&& self.hot_sets().len() == before.hot_sets().len()
        &&& self.scan_buffers().len() == before.scan_buffers().len()
        &&& forall|i: int|
            0 <= i < before.hot_sets().len() && i != before.at(node) ==> #[trigger] self.hot_sets()[i]
                == before.hot_sets()[i]
        &&& forall|i: int|
            0 <= i < before.scan_buffers().len() && i != before.at(node)
                ==> #[trigger] self.scan_buffers()[i] == before.scan_buffers()[i]
        &&& self.hot_sets()[before.at(node)].limit() == before.hot_sets()[before.at(node)].limit()
        &&& self.scan_buffers()[before.at(node)].limit()
            == before.scan_buffers()[before.at(node)].limit()
    }

    /// A pool for a number of blocks, divided among memory nodes: 70 percent are hot
    /// sets, the rest scan buffers.
    pub fn new(total_capacity: usize, numa_nodes: usize) -> (pool: Self)
        requires
            total_capacity * 70 <= usize::MAX,
        ensures
            pool.wf(),
            !pool.by_heat(),
            pool.hot_sets().len() == at_least_one(numa_nodes as int),
            forall|i: int|
                0 <= i < pool.hot_sets().len() ==> (#[trigger] pool.hot_sets()[i]).limit()
                    == hot_share(total_capacity as int, numa_nodes as int)
                    && pool.hot_sets()[i].entries().len() == 0,
            forall|i: int|
                0 <= i < pool.scan_buffers().len() ==> (#[trigger] pool.scan_buffers()[i]).limit()
                    == scan_share(total_capacity as int, numa_nodes as int)
                    && no_cells(
                    pool.scan_buffers()[i].cells(),
                    scan_share(total_capacity as int, numa_nodes as int) as nat,
                ),
    {
        let hot_capacity: usize = (total_capacity * HOT_SET_PERCENT) / 100;
        let scan_capacity: usize = total_capacity - hot_capacity;
        let nodes: usize = if numa_nodes == 0 {
            1
        } else {
            numa_nodes
        };
        let hot_total: usize = if hot_capacity == 0 {
            1
        } else {
            hot_capacity
        };
        let scan_total: usize = if scan_capacity == 0 {
            1
        } else {
            scan_capacity
        };
        let hot_each: usize = hot_total / nodes;
        let scan_each: usize = scan_total / nodes;
        let hot_limit: usize = if hot_each == 0 {
            1
        } else {
            hot_each
        };
        let scan_limit: usize = if scan_each == 0 {
            1
        } else {
            scan_each
        };
        let mut hot_parts: Vec<LruCache<u64, CachedBlock>> = Vec::new();
        let mut scan_parts: Vec<ClockSweep<u64, CachedBlock>> = Vec::new();
        while hot_parts.len() < nodes
            invariant
                hot_parts@.len() <= nodes,
                scan_parts@.len() == hot_parts@.len(),
                forall|i: int|
                    0 <= i < hot_parts@.len() ==> (#[trigger] hot_parts@[i]).wf()
                        && hot_parts@[i].limit() == hot_limit && hot_parts@[i].entries().len()
                        == 0,
                forall|i: int|
                    0 <= i < scan_parts@.len() ==> (#[trigger] scan_parts@[i]).wf()
                        && scan_parts@[i].limit() == scan_limit && no_cells(
                        scan_parts@[i].cells(),
                        scan_limit as nat,
                    ),
            decreases nodes - hot_parts@.len(),
        {
            hot_parts.push(LruCache::new(hot_limit));
            scan_parts.push(ClockSweep::new(scan_limit));
        }
        let hot_set = NumaPartitioned::from_parts(hot_parts);
        let scan_buffer = NumaPartitioned::from_parts(scan_parts);
        BufferPool { hot_set, scan_buffer, adaptive: false }
    }

    /// The same kind of pool, in which blocks are admitted to the hot set by their heat.
    pub fn new_adaptive(total_capacity: usize, numa_nodes: usize) -> (pool: Self)
        requires
            total_capacity * 70 <= usize::MAX,
        ensures
            pool.wf(),
            pool.by_heat(),
            pool.hot_sets().len() == at_least_one(numa_nodes as int),
            forall|i: int|
                0 <= i < pool.hot_sets().len() ==> (#[trigger] pool.hot_sets()[i]).limit()
                    == hot_share(total_capacity as int, numa_nodes as int)
                    && pool.hot_sets()[i].entries().len() == 0,
            forall|i: int|
                0 <= i < pool.scan_buffers().len() ==> (#[trigger] pool.scan_buffers()[i]).limit()
                    == scan_share(total_capacity as int, numa_nodes as int)
                    && no_cells(
                    pool.scan_buffers()[i].cells(),
                    scan_share(total_capacity as int, numa_nodes as int) as nat,
                ),
    {
        let plain = Self::new(total_capacity, numa_nodes);
        BufferPool { hot_set: plain.hot_set, scan_buffer: plain.scan_buffer, adaptive: true }
    }

    /// Whether blocks are admitted by their heat.
    pub fn is_adaptive(&self) -> (adaptive: bool)
        ensures
            adaptive == self.by_heat(),
    {
        self.adaptive
    }

    /// A block in the hot set of a node; it becomes the most recently used.
    pub fn get_hot(&mut self, block_id: u64, node: usize) -> (block: Option<CachedBlock>)
        requires
            old(self).wf(),
        ensures
            final(self).wf(),
            final(self).same_but(old(self), node),
            final(self).scan_buffers() == old(self).scan_buffers(),
            final(self).hot(node) == lru_used(old(self).hot(node), block_id),
            match block {
                Some(b) => holds(old(self).hot(node), block_id) && same_block(
                    b,
                    old(self).hot(node)[spot(old(self).hot(node), block_id)].1,
                ),
                None => !holds(old(self).hot(node), block_id),
            },
    {
        let ghost before = self.hot_set.parts();
        let ghost at = self.at(node);
        assert(before[at].wf());
        let part = self.hot_set.get_mut(node);
        let found: Option<CachedBlock> = match part.get(&block_id) {
            Some(block) => Some(block.clone()),
            None => None,
        };
        found
    }

    /// Takes a block out of the scan buffer of a node.
    pub fn take_scan(&mut self, block_id: u64, node: usize) -> (block: Option<CachedBlock>)
        requires
            old(self).wf(),
        ensures
            final(self).wf(),
            final(self).same_but(old(self), node),
            final(self).hot_sets() == old(self).hot_sets(),
            final(self).hand(node) == old(self).hand(node),
            match block {
                Some(b) => {
                    let at = cell_spot(old(self).scan(node), block_id);
                    &&& cells_hold(old(self).scan(node), block_id)
                    &&& b == old(self).scan(node)[at]->0.value
                    &&& final(self).scan(node) == old(self).scan(node).update(at, None)
                    &&& final(self).free(node) == old(self).free(node).push(at as usize)
                },
                None => {
                    &&& !cells_hold(old(self).scan(node), block_id)
                    &&& final(self).scan(node) == old(self).scan(node)
                    &&& final(self).free(node) == old(self).free(node)
                },
            },
    {
        let ghost at = self.at(node);
        assert(self.scan_buffer.parts()[at].wf());
        self.scan_buffer.get_mut(node).remove(&block_id)
    }

    /// Puts a block in the hot set of a node; the least recently used block makes room.
    fn put_hot(&mut self, block_id: u64, block: CachedBlock, node: usize)
        requires
            old(self).wf(),
        ensures
            final(self).wf(),
            final(self).same_but(old(self), node),
            final(self).scan_buffers() == old(self).scan_buffers(),
            final(self).hot(node) == lru_put(
                old(self).hot(node),
                old(self).hot_sets()[old(self).at(node)].limit(),
                block_id,
                block,
            ),
    {
        let ghost at = self.at(node);
        assert(self.hot_set.parts()[at].wf());
        let _ = self.hot_set.get_mut(node).put(block_id, block);
    }

    /// A block for a point lookup: from the hot set, or from the scan buffer, from which
    /// it moves to the hot set. A pool that admits by heat has `get_by_heat` for this.
    pub fn get_for_point_lookup(&mut self, block_id: u64, node: usize) -> (block: Option<
        CachedBlock,
    >)
        requires
            old(self).wf(),
            !old(self).by_heat(),
        ensures
            final(self).wf(),
            final(self).same_but(old(self), node),
            final(self).hand(node) == old(self).hand(node),
            ({
                let hot = old(self).hot(node);
                let scan = old(self).scan(node);
                let at = cell_spot(scan, block_id);
                if holds(hot, block_id) {
                    &&& block is Some
                    &&& same_block(block->0, hot[spot(hot, block_id)].1)
                    &&& final(self).hot(node) == lru_used(hot, block_id)
                    &&& final(self).scan(node) == scan
                    &&& final(self).free(node) == old(self).free(node)
                } else if cells_hold(scan, block_id) {
                    &&& block is Some
                    &&& same_block(block->0, scan[at]->0.value)
                    &&& final(self).hot(node) == lru_put(
                        hot,
                        old(self).hot_sets()[old(self).at(node)].limit(),
                        block_id,
                        scan[at]->0.value,
                    )
                    &&& final(self).scan(node) == scan.update(at, None)
                    &&& final(self).free(node) == old(self).free(node).push(at as usize)
                } else {
                    &&& block is None
                    &&& final(self).hot(node) == hot
                    &&& final(self).scan(node) == scan
                    &&& final(self).free(node) == old(self).free(node)
                }
            }),
    {
        let found = self.get_hot(block_id, node);
        if found.is_some() {
            return found;
        }
        match self.take_scan(block_id, node) {
            Some(block) => {
                let copy = block.clone();
                self.put_hot(block_id, block, node);
                Some(copy)
            },
            None => None,
        }
    }

    /// A block for a scan: from the scan buffer or the hot set; it stays where it is.
    pub fn get_for_scan(&mut self, block_id: u64, node: usize) -> (block: Option<CachedBlock>)
        requires
            old(self).wf(),
        ensures
            final(self).wf(),
            final(self).same_but(old(self), node),
            final(self).hand(node) == old(self).hand(node),
            ({
                let hot = old(self).hot(node);
                let scan = old(self).scan(node);
                let at = cell_spot(scan, block_id);
                if cells_hold(scan, block_id) {
                    &&& block is Some
                    &&& same_block(block->0, scan[at]->0.value)
                    &&& final(self).hot(node) == hot
                    &&& final(self).scan(node) == scan.update(
                        at,
                        Some(ClockCell { referenced: true, ..scan[at]->0 }),
                    )
                    &&& final(self).free(node) == old(self).free(node)
                } else if holds(hot, block_id) {
                    &&& block is Some
                    &&& same_block(block->0, hot[spot(hot, block_id)].1)
                    &&& final(self).hot(node) == lru_used(hot, block_id)
                    &&& final(self).scan(node) == scan
                    &&& final(self).free(node) == old(self).free(node)
                } else {
                    &&& block is None
                    &&& final(self).hot(node) == hot
                    &&& final(self).scan(node) == scan
                    &&& final(self).free(node) == old(self).free(node)
                }
            }),
    {
        let ghost at = self.at(node);
        assert(self.scan_buffer.parts()[at].wf());
        let part = self.scan_buffer.get_mut(node);
        let found: Option<CachedBlock> = match part.get(&block_id) {
            Some(block) => Some(block.clone()),
            None => None,
        };
        if found.is_some() {
            return found;
        }
        self.get_hot(block_id, node)
    }

    /// The keys of the hot set of a node.
    fn hot_keys(&self, node: usize) -> (keys: HashSet<u64>)
        requires
            self.wf(),
        ensures
            keys@ == entry_keys(self.hot(node)),
    {
        broadcast use vstd::std_specs::hash::group_hash_axioms;

        let ghost entries = self.hot(node);
        let ghost n = entries.len();
        assert(self.hot_set.parts()[self.at(node)].wf());
        let listed: Vec<u64> = self.hot_set.get(node).keys();
        let mut keys: HashSet<u64> = HashSet::new();
        let mut i: usize = 0;
        while i < listed.len()
            invariant
                i <= listed@.len(),
                listed@.len() == n,
                n == entries.len(),
                forall|k: int| 0 <= k < n ==> #[trigger] listed@[k] == entries[n - 1 - k].0,
                forall|key: u64|
                    #[trigger] keys@.contains(key) <==> exists|k: int|
                        0 <= k < i && #[trigger] listed@[k] == key,
            decreases n - i,
        {
            broadcast use vstd::std_specs::hash::group_hash_axioms;

            let ghost before = keys@;
            keys.insert(listed[i]);
            proof {
                assert forall|key: u64|
                    #[trigger] keys@.contains(key) <==> exists|k: int|
                        0 <= k < i + 1 && #[trigger] listed@[k] == key by {
                    if before.contains(key) {
                        let k = choose|k: int| 0 <= k < i && #[trigger] listed@[k] == key;
                        assert(listed@[k] == key);
                    }
                    if key == listed@[i as int] {
                        assert(keys@.contains(key));
                    }
                    if exists|k: int| 0 <= k < i + 1 && #[trigger] listed@[k] == key {
                        let k = choose|k: int| 0 <= k < i + 1 && #[trigger] listed@[k] == key;
                        if k < i {
                            assert(before.contains(key));
                        }
                    }
                }
            }
            i = i + 1;
        }
        proof {
            assert forall|key: u64| keys@.contains(key) <==> holds(entries, key) by {
                if keys@.contains(key) {
                    let k = choose|k: int| 0 <= k < i && #[trigger] listed@[k] == key;
                    assert(entries[n - 1 - k].0 == key);
                }
                if holds(entries, key) {
                    let p = spot(entries, key);
                    assert(listed@[n - 1 - p] == entries[p].0);
                }
            }
            assert(keys@ =~= entry_keys(entries));
        }
        keys
    }

    /// Puts a block in the scan buffer of a node. A block that is in the hot set makes no
    /// room for it.
    fn put_scan(&mut self, block_id: u64, block: CachedBlock, node: usize)
        requires
            old(self).wf(),
        ensures
            final(self).wf(),
            final(self).same_but(old(self), node),
            final(self).hot_sets() == old(self).hot_sets(),
            scan_put(
                old(self).scan_buffers()[old(self).at(node)],
                block_id,
                block,
                entry_keys(old(self).hot(node)),
                final(self).scan_buffers()[old(self).at(node)],
            ),
    {
        let protected = self.hot_keys(node);
        let ghost at = self.at(node);
        assert(self.scan_buffer.parts()[at].wf());
        let ghost before = self.scan_buffer.parts()[at];
        let evicted = self.scan_buffer.get_mut(node).put_with_constraint(
            block_id,
            block,
            &protected,
        );
        proof {
            let after = self.scan_buffer.parts()[at];
            assert(put_result(
                before.cells(),
                before.hand_at(),
                before.free_slots(),
                block_id,
                block,
                entry_keys(old(self).hot(node)),
                after.cells(),
                after.hand_at(),
                after.free_slots(),
                evicted,
            ));
        }
    }

    /// Puts a block where its use says: for a point lookup in the hot set, for a scan in
    /// the scan buffer, in which no block of the hot set makes room for it. A pool that
    /// admits by heat has `admit_hot` for the blocks of point lookups.
    pub fn insert(
        &mut self,
        block_id: u64,
        block: CachedBlock,
        access_type: AccessType,
        node: usize,
    )
        requires
            old(self).wf(),
            access_type is PointLookup ==> !old(self).by_heat(),
        ensures
            final(self).wf(),
            final(self).same_but(old(self), node),
            match access_type {
                AccessType::PointLookup => {
                    &&& final(self).scan_buffers() == old(self).scan_buffers()
                    &&& final(self).hot(node) == lru_put(
                        old(self).hot(node),
                        old(self).hot_sets()[old(self).at(node)].limit(),
                        block_id,
                        block,
                    )
                },
                AccessType::SequentialScan => {
                    &&& final(self).hot_sets() == old(self).hot_sets()
                    &&& scan_put(
                        old(self).scan_buffers()[old(self).at(node)],
                        block_id,
                        block,
                        entry_keys(old(self).hot(node)),
                        final(self).scan_buffers()[old(self).at(node)],
                    )
                },
            },
    {
        match access_type {
            AccessType::PointLookup => {
                self.put_hot(block_id, block, node);
            },
            AccessType::SequentialScan => {
                self.put_scan(block_id, block, node);
            },
        }
    }

    /// The blocks of a node's hot set to compare before a block is admitted: some of the
    /// least recently used ones, if the hot set is full and does not hold the block.
    pub fn admission_sample(&self, block_id: u64, node: usize) -> (sample: Vec<u64>)
        requires
            self.wf(),
        ensures
            ({
                let hot = self.hot(node);
                if holds(hot, block_id) || hot.len() < self.hot_sets()[self.at(node)].limit() {
                    sample@.len() == 0
                } else {
                    &&& sample@.len() == (if hot.len() < EVICTION_SAMPLE {
                        hot.len()
                    } else {
                        EVICTION_SAMPLE as nat
                    })
                    &&& forall|i: int|
                        0 <= i < sample@.len() ==> #[trigger] sample@[i] == hot[hot.len() - 1 - i].0
                }
            }),
    {
        let ghost at = self.at(node);
        assert(self.hot_set.parts()[at].wf());
        let hot = self.hot_set.get(node);
        if hot.contains(&block_id) || hot.len() < hot.capacity() {
            return Vec::new();
        }
        hot.lru_tail_keys(EVICTION_SAMPLE)
    }

    /// Admits a block to the hot set of a node by heat: a full hot set takes a new block
    /// only if it is hotter than the coldest block of the sample, which makes room for
    /// it. Returns the block that made room. Hotter blocks have greater scores.
    pub fn admit_hot(
        &mut self,
        block_id: u64,
        block: CachedBlock,
        node: usize,
        sample: &[u64],
        scores: &[u32],
        newcomer: u32,
    ) -> (replaced: Option<u64>)
        requires
            old(self).wf(),
            sample@.len() == scores@.len(),
        ensures
            final(self).wf(),
            final(self).same_but(old(self), node),
            final(self).scan_buffers() == old(self).scan_buffers(),
            admitted(
                old(self).hot(node),
                old(self).hot_sets()[old(self).at(node)].limit(),
                block_id,
                block,
                sample@,
                scores@,
                newcomer,
                final(self).hot(node),
                replaced,
            ),
    {
        let ghost at = self.at(node);
        assert(self.hot_set.parts()[at].wf());
        let hot = self.hot_set.get(node);
        if hot.contains(&block_id) || hot.len() < hot.capacity() {
            self.put_hot(block_id, block, node);
            return None;
        }
        match coldest(scores) {
            None => {
                self.put_hot(block_id, block, node);
                None
            },
            Some(i) => {
                assert(is_coldest(scores@, i as int));
                let victim: u64 = sample[i];
                if newcomer > scores[i] {
                    let _ = self.hot_set.get_mut(node).remove(&victim);
                    assert(self.wf());
                    self.put_hot(block_id, block, node);
                    Some(victim)
                } else {
                    None
                }
            },
        }
    }

    /// A block for a point lookup in a pool that admits by heat: from the hot set, or from
    /// the scan buffer, from which it is taken and then admitted or not. Also returns the
    /// block that made room for it.
    pub fn get_by_heat(
        &mut self,
        block_id: u64,
        node: usize,
        sample: &[u64],
        scores: &[u32],
        newcomer: u32,
    ) -> (result: (Option<CachedBlock>, Option<u64>))
        requires
            old(self).wf(),
            old(self).by_heat(),
            sample@.len() == scores@.len(),
        ensures
            final(self).wf(),
            final(self).same_but(old(self), node),
            final(self).hand(node) == old(self).hand(node),
            ({
                let hot = old(self).hot(node);
                let scan = old(self).scan(node);
                let at = cell_spot(scan, block_id);
                if holds(hot, block_id) {
                    &&& result.0 is Some
                    &&& same_block(result.0->0, hot[spot(hot, block_id)].1)
                    &&& result.1 is None
                    &&& final(self).hot(node) == lru_used(hot, block_id)
                    &&& final(self).scan(node) == scan
                    &&& final(self).free(node) == old(self).free(node)
                } else if cells_hold(scan, block_id) {
                    &&& result.0 is Some
                    &&& same_block(result.0->0, scan[at]->0.value)
                    &&& admitted(
                        hot,
                        old(self).hot_sets()[old(self).at(node)].limit(),
                        block_id,
                        scan[at]->0.value,
                        sample@,
                        scores@,
                        newcomer,
                        final(self).hot(node),
                        result.1,
                    )
                    &&& final(self).scan(node) == scan.update(at, None)
                    &&& final(self).free(node) == old(self).free(node).push(at as usize)
                } else {
                    &&& result == (None::<CachedBlock>, None::<u64>)
                    &&& final(self).hot(node) == hot
                    &&& final(self).scan(node) == scan
                    &&& final(self).free(node) == old(self).free(node)
                }
            }),
    {
        let found = self.get_hot(block_id, node);
        if found.is_some() {
            return (found, None);
        }
        match self.take_scan(block_id, node) {
            Some(block) => {
                let copy = block.clone();
                let replaced = self.admit_hot(block_id, block, node, sample, scores, newcomer);
                (Some(copy), replaced)
            },
            None => (None, None),
        }
    }

    /// The blocks to load before they are asked for: those of the tracked blocks that are
    /// not in the node's hot set and at least as hot as `min_heat`, hottest first, at most
    /// `max`. None if blocks are not admitted by heat.
    pub fn prefetch_candidates(
        &self,
        node: usize,
        samples: &[HeatSample],
        min_heat: u32,
        max: usize,
    ) -> (candidates: Vec<u64>)
        requires
            self.wf(),
        ensures
            if self.by_heat() {
                exists|order: Seq<HeatSample>| #[trigger]
                    hottest_first(order, worth_loading(self.hot(node), samples@, min_heat))
                        && candidates@ == first_ids(order, max as int)
            } else {
                candidates@.len() == 0
            },
    {
        if !self.adaptive {
            return Vec::new();
        }
        let ghost entries = self.hot(node);
        let ghost at = self.at(node);
        assert(self.hot_set.parts()[at].wf());
        let hot = self.hot_set.get(node);
        let mut wanted: Vec<HeatSample> = Vec::new();
        let mut i: usize = 0;
        assert(worth_loading(entries, samples@.take(0), min_heat) =~= Seq::<HeatSample>::empty()) by {
            reveal(Seq::filter);
        }
        while i < samples.len()
            invariant
                i <= samples@.len(),
                hot.wf(),
                hot.entries() == entries,
                wanted@ == worth_loading(entries, samples@.take(i as int), min_heat),
            decreases samples@.len() - i,
        {
            let sample = samples[i];
            proof {
                reveal(Seq::filter);
                assert(samples@.take(i + 1).drop_last() =~= samples@.take(i as int));
            }
            if !hot.contains(&sample.block_id) && sample.heat >= min_heat {
                wanted.push(sample);
            }
            i = i + 1;
        }
        assert(samples@.take(i as int) =~= samples@);
        hottest(wanted, max)
    }

    /// Number of memory nodes.
    pub fn numa_node_count(&self) -> (n: usize)
        ensures
            n == self.hot_sets().len(),
    {
        self.hot_set.node_count()
    }

    /// Number of blocks in the hot set of a node.
    pub fn hot_set_len(&self, node: usize) -> (n: usize)
        requires
            self.wf(),
        ensures
            n == self.hot(node).len(),
    {
        assert(self.hot_set.parts()[self.at(node)].wf());
        self.hot_set.get(node).len()
    }

    /// Number of blocks in the scan buffer of a node.
    pub fn scan_buffer_len(&self, node: usize) -> (n: usize)
        requires
            self.wf(),
        ensures
            n == occupied(self.scan(node)),
    {
        assert(self.scan_buffer.parts()[self.at(node)].wf());
        self.scan_buffer.get(node).len()
    }

    /// Number of blocks that the hot set of a node is for.
    pub fn hot_set_capacity(&self, node: usize) -> (n: usize)
        requires
            self.wf(),
        ensures
            n == self.hot_sets()[self.at(node)].limit(),
    {
        self.hot_set.get(node).capacity()
    }

    /// Number of blocks that the scan buffer of a node is for.
    pub fn scan_buffer_capacity(&self, node: usize) -> (n: usize)
        requires
            self.wf(),
        ensures
            n == self.scan_buffers()[self.at(node)].limit(),
    {
        self.scan_buffer.get(node).capacity()
    }
}

/// The blocks that are not in a hot set and at least as hot as `min_heat`.
pub open spec fn worth_loading(
    hot: Seq<(u64, CachedBlock)>,
    samples: Seq<HeatSample>,
    min_heat: u32,
) -> Seq<HeatSample> {
    samples.filter(|sample: HeatSample| !holds(hot, sample.block_id) && sample.heat >= min_heat)
}

/// Entries without a key.
pub open spec fn without<V>(entries: Seq<(u64, V)>, key: u64) -> Seq<(u64, V)> {
    if holds(entries, key) {
        entries.remove(spot(entries, key))
    } else {
        entries
    }
}

/// Admission by heat to a full hot set: a block gives way only to a hotter one, and only if
/// no block of the sample is colder than it; a block that is not hotter than the coldest of
/// the sample is turned away and nothing changes.
pub proof fn lemma_admission_by_heat(
    hot: Seq<(u64, CachedBlock)>,
    limit: nat,
    block_id: u64,
    block: CachedBlock,
    sample: Seq<u64>,
    scores: Seq<u32>,
    newcomer: u32,
    after: Seq<(u64, CachedBlock)>,
    replaced: Option<u64>,
)
    requires
        admitted(hot, limit, block_id, block, sample, scores, newcomer, after, replaced),
        scores.len() == sample.len(),
        scores.len() > 0,
        !holds(hot, block_id),
        hot.len() >= limit,
        limit > 0,
    ensures
        match replaced {
            Some(gone) => {
                &&& exists|i: int|
                    {
                        &&& 0 <= i < sample.len()
                        &&& #[trigger] sample[i] == gone
                        &&& scores[i] < newcomer
                        &&& forall|j: int|
                            0 <= j < scores.len() ==> scores[i] <= #[trigger] scores[j]
                    }
                &&& after.len() > 0
                &&& after[0] == (block_id, block)
            },
            None => after == hot && exists|i: int|
                0 <= i < scores.len() && newcomer <= #[trigger] scores[i] && forall|j: int|
                    0 <= j < scores.len() ==> scores[i] <= #[trigger] scores[j],
        },
{
    let i = choose|i: int|
        {
            &&& #[trigger] is_coldest(scores, i)
            &&& if newcomer > scores[i] {
                &&& replaced == Some(sample[i])
                &&& after == lru_put(without(hot, sample[i]), limit, block_id, block)
            } else {
                &&& replaced is None
                &&& after == hot
            }
        };
    if newcomer > scores[i] {
        assert(sample[i] == replaced->0);
        let rest = without(hot, sample[i]);
        assert(!holds(rest, block_id)) by {
            if holds(rest, block_id) {
                let p = spot(rest, block_id);
                assert(rest[p].0 == block_id);
                let q = spot(hot, sample[i]);
                if holds(hot, sample[i]) {
                    assert(rest[p] == hot[if p < q {
                        p
                    } else {
                        p + 1
                    }]);
                }
            }
        }
    } else {
        assert(newcomer <= scores[i]);
    }
}

/// Where the hot set has room, or holds the block already, or no block of it is compared, the
/// block comes to the front however cold it is, and no block gives way to it by heat; with
/// room, all others stay.
pub proof fn lemma_admission_with_room(
    hot: Seq<(u64, CachedBlock)>,
    limit: nat,
    block_id: u64,
    block: CachedBlock,
    sample: Seq<u64>,
    scores: Seq<u32>,
    newcomer: u32,
    after: Seq<(u64, CachedBlock)>,
    replaced: Option<u64>,
)
    requires
        admitted(hot, limit, block_id, block, sample, scores, newcomer, after, replaced),
        holds(hot, block_id) || hot.len() < limit || scores.len() == 0 && limit > 0,
    ensures
        replaced is None,
        after.len() > 0,
        after[0] == (block_id, block),
        !holds(hot, block_id) && hot.len() < limit ==> after.skip(1) == hot,
{
    if !holds(hot, block_id) && hot.len() < limit {
        assert(after.skip(1) =~= hot);
    }
}

/// The shares of the nodes: each has room for a block in either part; where there are blocks
/// enough for all nodes, the hot sets together take 70 percent, and the scan buffers the
/// rest, up to what does not divide.
pub proof fn lemma_shares(total: int, nodes: int)
    requires
        total >= 0,
        nodes > 0,
    ensures
        hot_share(total, nodes) >= 1,
        scan_share(total, nodes) >= 1,
        total * 70 / 100 >= nodes ==> {
            &&& 100 * nodes * hot_share(total, nodes) <= 70 * total
            &&& 100 * nodes * (hot_share(total, nodes) + 1) > 70 * total - 100
        },
        total - total * 70 / 100 >= nodes ==> {
            &&& nodes * scan_share(total, nodes) <= total - total * 70 / 100
            &&& nodes * (scan_share(total, nodes) + 1) > total - total * 70 / 100
        },
{
    let hot = total * 70 / 100;
    let scan = total - hot;
    if hot >= nodes {
        let q = hot / nodes;
        vstd::arithmetic::div_mod::lemma_fundamental_div_mod(hot, nodes);
        vstd::arithmetic::div_mod::lemma_mod_bound(hot, nodes);
        assert(q >= 1 && nodes * q <= hot && nodes * (q + 1) > hot) by (nonlinear_arith)
            requires
                hot == nodes * q + hot % nodes,
                0 <= hot % nodes < nodes,
                hot >= nodes,
                nodes > 0,
        ;
        assert(hot_share(total, nodes) == q);
        assert(100 * nodes * q == 100 * (nodes * q)) by (nonlinear_arith);
        assert(100 * nodes * (q + 1) == 100 * (nodes * (q + 1))) by (nonlinear_arith);
    }
    if scan >= nodes {
        let q = scan / nodes;
        vstd::arithmetic::div_mod::lemma_fundamental_div_mod(scan, nodes);
        vstd::arithmetic::div_mod::lemma_mod_bound(scan, nodes);
        assert(q >= 1 && nodes * q <= scan && nodes * (q + 1) > scan) by (nonlinear_arith)
            requires
                scan == nodes * q + scan % nodes,
                0 <= scan % nodes < nodes,
                scan >= nodes,
                nodes > 0,
        ;
        assert(scan_share(total, nodes) == q);
    }
}

/// No block that is in the hot set, or colder than asked for, is loaded ahead.
pub proof fn lemma_loads_are_worth_it(
    hot: Seq<(u64, CachedBlock)>,
    samples: Seq<HeatSample>,
    min_heat: u32,
    order: Seq<HeatSample>,
    max: int,
    i: int,
)
    requires
        hottest_first(order, worth_loading(hot, samples, min_heat)),
        0 <= i < first_ids(order, max).len(),
        0 <= max,
    ensures
        !holds(hot, first_ids(order, max)[i]),
        order[i].heat >= min_heat,
        samples.contains(order[i]),
        first_ids(order, max)[i] == order[i].block_id,
{
    let wanted = worth_loading(hot, samples, min_heat);
    let pred = |sample: HeatSample| !holds(hot, sample.block_id) && sample.heat >= min_heat;
    lemma_same_values(order, wanted);
    assert(order.contains(order[i]));
    let j = choose|j: int| 0 <= j < wanted.len() && wanted[j] == order[i];
    samples.lemma_filter_contains_rev(pred, order[i]);
    samples.lemma_filter_pred(pred, j);
}

/// A scan never drops a block from the scan buffer that is in the hot set: every such
/// block is still there when another one was inserted.
pub proof fn lemma_hot_blocks_stay(
    before: ClockSweep<u64, CachedBlock>,
    block_id: u64,
    block: CachedBlock,
    protected: Set<u64>,
    after: ClockSweep<u64, CachedBlock>,
    kept: u64,
)
    requires
        before.wf(),
        scan_put(before, block_id, block, protected, after),
        protected.contains(kept),
        cells_hold(before.cells(), kept),
    ensures
        cells_hold(after.cells(), kept),
{
    before.lemma_wf();
    let cells = before.cells();
    let p = cell_spot(cells, kept);
    assert(cell_has(cells, p, kept));
    if cells_hold(cells, block_id) {
        let q = cell_spot(cells, block_id);
        assert(cell_has(cells, q, block_id));
        if p == q {
            assert(cell_has(after.cells(), q, kept));
        } else {
            assert(cell_has(after.cells(), p, kept));
        }
    } else if before.free_slots().len() > 0 {
        before.lemma_free();
        assert(cell_has(after.cells(), p, kept));
    } else {
        lemma_swept(cells, before.hand_at(), protected);
        if swept(cells, before.hand_at(), protected) is Some {
            lemma_swept_keeps(cells, before.hand_at(), protected, p);
        }
        assert(cell_has(after.cells(), p, kept));
    }
}

} // verus!
