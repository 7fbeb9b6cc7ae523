//! Tests of the caches and the buffer pool.

use galaxdb_storage::buffer_pool::heat::{blocks_to_forget, hottest, tracked_cap, HeatSample};
use galaxdb_storage::buffer_pool::numa::{current_numa_node, detect_numa_nodes};
use galaxdb_storage::buffer_pool::pool::coldest;
use galaxdb_storage::buffer_pool::{
    AccessType, BufferPool, CachedBlock, ClockSweep, LruCache, NumaPartitioned,
};
use std::collections::{HashMap, HashSet};

// Helper

fn make_block(id: u64) -> CachedBlock {
    CachedBlock {
        block_id: id,
        data: vec![id as u8; 64],
    }
}

/// A key that is cloned and not copied.
#[derive(Clone, PartialEq, Eq, Hash, Debug)]
struct Name(String);

fn name(text: &str) -> Name {
    Name(text.into())
}

// LRU eviction correctness

#[test]
fn lru_evicts_least_recently_used() {
    let mut cache = LruCache::<u64, String>::new(3);

    cache.put(1, "a".into());
    cache.put(2, "b".into());
    cache.put(3, "c".into());

    // Cache is full: [3(MRU), 2, 1(LRU)]
    // Inserting 4 should evict 1.
    let evicted = cache.put(4, "d".into());
    assert_eq!(evicted, Some((1, "a".into())));
    assert!(!cache.contains(&1));
    assert!(cache.contains(&4));
}

#[test]
fn lru_access_promotes_to_mru() {
    let mut cache = LruCache::<u64, String>::new(3);

    cache.put(1, "a".into());
    cache.put(2, "b".into());
    cache.put(3, "c".into());

    // Access key 1 - promotes it to MRU.
    cache.get(&1);

    // Now order is [1(MRU), 3, 2(LRU)]. Inserting 4 should evict 2.
    let evicted = cache.put(4, "d".into());
    assert_eq!(evicted, Some((2, "b".into())));
}

#[test]
fn lru_entry_stays_until_all_others_were_used() {
    let mut cache = LruCache::<u64, String>::new(3);
    cache.put(1, "a".into());
    cache.put(2, "b".into());
    cache.put(3, "c".into());
    assert_eq!(cache.get(&1), Some(&"a".to_string()));

    // Of the others, 2 is used and 3 is not, so 3 leaves first.
    assert_eq!(cache.get(&2), Some(&"b".to_string()));
    assert_eq!(cache.put(4, "d".into()), Some((3, "c".into())));
    assert_eq!(cache.get(&9), None);

    // Now 2 and 4 were both used since, and 1 leaves.
    assert_eq!(cache.put(5, "e".into()), Some((1, "a".into())));
    assert_eq!(cache.keys(), vec![2, 4, 5]);
}

#[test]
fn lru_finds_the_value_last_put() {
    let mut cache = LruCache::<u64, String>::new(2);
    cache.put(1, "a".into());
    cache.put(1, "b".into());
    cache.put(2, "c".into());
    cache.remove(&2);
    assert_eq!(cache.get(&1), Some(&"b".to_string()));
    assert_eq!(cache.len(), 1);
}

#[test]
fn caches_take_keys_that_are_cloned() {
    let mut lru = LruCache::<Name, u32>::new(2);
    lru.put(name("a"), 1);
    lru.put(name("b"), 2);
    assert_eq!(lru.get(&name("a")), Some(&1));
    assert_eq!(lru.put(name("c"), 3), Some((name("b"), 2)));
    assert_eq!(lru.keys(), vec![name("a"), name("c")]);

    let mut clock = ClockSweep::<Name, u32>::new(1);
    assert_eq!(clock.put(name("a"), 1), None);
    assert_eq!(clock.put(name("b"), 2), Some((name("a"), 1)));
    assert_eq!(clock.keys(), vec![name("b")]);
}

#[test]
fn lru_update_existing_key() {
    let mut cache = LruCache::<u64, String>::new(3);

    cache.put(1, "a".into());
    cache.put(2, "b".into());
    cache.put(1, "a_updated".into());

    assert_eq!(cache.len(), 2);
    assert_eq!(cache.get(&1), Some(&"a_updated".into()));
}

#[test]
fn lru_remove() {
    let mut cache = LruCache::<u64, String>::new(3);

    cache.put(1, "a".into());
    cache.put(2, "b".into());

    let removed = cache.remove(&1);
    assert_eq!(removed, Some("a".into()));
    assert_eq!(cache.len(), 1);
    assert!(!cache.contains(&1));
}

#[test]
fn lru_eviction_order_with_multiple_accesses() {
    let mut cache = LruCache::<u64, u64>::new(4);

    cache.put(1, 10);
    cache.put(2, 20);
    cache.put(3, 30);
    cache.put(4, 40);

    // Access 1 and 2, making them MRU. Order: [2, 1, 4, 3(LRU)]
    cache.get(&1);
    cache.get(&2);

    // Evict 3 (LRU).
    let evicted = cache.put(5, 50);
    assert_eq!(evicted, Some((3, 30)));

    // Evict 4 (now LRU).
    let evicted = cache.put(6, 60);
    assert_eq!(evicted, Some((4, 40)));
}

// Clock-sweep eviction correctness

#[test]
fn clock_sweep_basic_eviction() {
    let mut cache = ClockSweep::<u64, String>::new(3);

    cache.put(1, "a".into());
    cache.put(2, "b".into());
    cache.put(3, "c".into());

    // All entries have referenced=true from insertion.
    // First sweep clears all referenced bits.
    // Second sweep evicts the first unreferenced entry found by the hand.
    let evicted = cache.put(4, "d".into());
    assert!(evicted.is_some());
    assert_eq!(cache.len(), 3);
    assert!(cache.contains(&4));
}

#[test]
fn clock_sweep_referenced_bit_gives_second_chance() {
    let mut cache = ClockSweep::<u64, String>::new(3);

    cache.put(1, "a".into());
    cache.put(2, "b".into());
    cache.put(3, "c".into());

    // All entries start with referenced=true from insertion.
    // Insert key 4 - triggers eviction. The clock hand sweeps:
    //   First pass: clears all referenced bits (second chance).
    //   Second pass: evicts the first unreferenced entry at the hand position.
    let evicted = cache.put(4, "d".into());
    assert!(evicted.is_some());
    let (evicted_key, _) = evicted.unwrap();

    // The evicted key got its second chance (referenced bit was cleared on first pass)
    // but was evicted on the second pass. The remaining keys survived the first pass.
    assert!(!cache.contains(&evicted_key));
    assert!(cache.contains(&4));
    assert_eq!(cache.len(), 3);

    // Now test that a recently-accessed key survives when others are not accessed.
    // Reset: create a fresh cache.
    let mut cache2 = ClockSweep::<u64, String>::new(3);
    cache2.put(10, "x".into());
    cache2.put(20, "y".into());
    cache2.put(30, "z".into());

    // Trigger one eviction to clear referenced bits of survivors.
    let _ = cache2.put(40, "w".into());

    // Now access key 40 - sets its referenced bit.
    cache2.get(&40);

    // Insert another key - key 40 should survive because it was recently accessed.
    let evicted2 = cache2.put(50, "v".into());
    assert!(evicted2.is_some());
    assert!(cache2.contains(&40), "recently accessed key should survive");
    assert!(cache2.contains(&50));
}

#[test]
fn clock_sweep_remove() {
    let mut cache = ClockSweep::<u64, String>::new(3);

    cache.put(1, "a".into());
    cache.put(2, "b".into());

    let removed = cache.remove(&1);
    assert_eq!(removed, Some("a".into()));
    assert_eq!(cache.len(), 1);
    assert!(!cache.contains(&1));
}

#[test]
fn clock_sweep_update_existing() {
    let mut cache = ClockSweep::<u64, String>::new(3);

    cache.put(1, "a".into());
    cache.put(1, "a_updated".into());

    assert_eq!(cache.len(), 1);
    assert_eq!(cache.get(&1), Some(&"a_updated".into()));
}

// Clock-sweep with HotSet constraint

#[test]
fn clock_sweep_never_evicts_protected_keys() {
    let mut cache = ClockSweep::<u64, String>::new(3);

    cache.put(1, "a".into());
    cache.put(2, "b".into());
    cache.put(3, "c".into());

    // Protect keys 1 and 2 (simulating HotSet-resident blocks).
    let mut protected = HashSet::new();
    protected.insert(1u64);
    protected.insert(2u64);

    // Inserting 4 should only evict key 3 (the only unprotected one).
    let evicted = cache.put_with_constraint(4, "d".into(), &protected);
    assert_eq!(evicted.map(|(k, _)| k), Some(3));
    assert!(cache.contains(&1));
    assert!(cache.contains(&2));
    assert!(cache.contains(&4));
}

#[test]
fn clock_sweep_all_protected_skips_insertion() {
    let mut cache = ClockSweep::<u64, String>::new(2);

    cache.put(1, "a".into());
    cache.put(2, "b".into());

    // Protect all keys.
    let mut protected = HashSet::new();
    protected.insert(1u64);
    protected.insert(2u64);

    // Cannot evict anything - insertion is a no-op.
    let evicted = cache.put_with_constraint(3, "c".into(), &protected);
    assert!(evicted.is_none());
    assert!(!cache.contains(&3));
    assert_eq!(cache.len(), 2);
}

// NUMA partitioning

#[test]
fn numa_partitioned_single_node_fallback() {
    let partitioned = NumaPartitioned::new(1, || LruCache::<u64, String>::new(10));
    assert_eq!(partitioned.node_count(), 1);
}

#[test]
fn numa_partitioned_multiple_nodes() {
    let partitioned = NumaPartitioned::new(4, || LruCache::<u64, String>::new(10));
    assert_eq!(partitioned.node_count(), 4);
}

#[test]
fn numa_detect_returns_at_least_one() {
    for names in [vec![], vec![b"node0".to_vec()], vec![b"possible".to_vec()]] {
        let nodes = detect_numa_nodes(&names);
        assert!(nodes >= 1);
    }
}

#[test]
fn numa_current_node_is_valid() {
    let nodes = detect_numa_nodes(&[b"node0".to_vec(), b"node1".to_vec()]);
    for text in ["0\n", " 1 \n", "", "unknown"] {
        let current = current_numa_node(text.as_bytes());
        assert!(current < nodes);
    }
}

// Cross-partition isolation

#[test]
fn cross_partition_isolation() {
    let mut partitioned = NumaPartitioned::new(2, || LruCache::<u64, String>::new(10));

    // Insert into node 0.
    partitioned.get_mut(0).put(1, "node0".into());

    // Node 1 should not see it.
    assert!(partitioned.get_mut(1).get(&1).is_none());

    // Insert into node 1.
    partitioned.get_mut(1).put(2, "node1".into());

    // Node 0 should not see it.
    assert!(partitioned.get_mut(0).get(&2).is_none());
}

// BufferPool integration

#[test]
fn buffer_pool_point_lookup_routes_to_hot_set() {
    let mut pool = BufferPool::new(10, 1);

    pool.insert(1, make_block(1), AccessType::PointLookup, 0);

    assert_eq!(pool.hot_set_len(0), 1);
    assert_eq!(pool.scan_buffer_len(0), 0);

    let block = pool.get_for_point_lookup(1, 0);
    assert!(block.is_some());
    assert_eq!(block.unwrap().block_id, 1);
}

#[test]
fn buffer_pool_scan_routes_to_scan_buffer() {
    let mut pool = BufferPool::new(10, 1);

    pool.insert(1, make_block(1), AccessType::SequentialScan, 0);

    assert_eq!(pool.hot_set_len(0), 0);
    assert_eq!(pool.scan_buffer_len(0), 1);

    let block = pool.get_for_scan(1, 0);
    assert!(block.is_some());
    assert_eq!(block.unwrap().block_id, 1);
}

#[test]
fn buffer_pool_point_lookup_promotes_from_scan_buffer() {
    let mut pool = BufferPool::new(10, 1);

    // Insert via scan.
    pool.insert(1, make_block(1), AccessType::SequentialScan, 0);
    assert_eq!(pool.scan_buffer_len(0), 1);
    assert_eq!(pool.hot_set_len(0), 0);

    // Point lookup should find it in ScanBuffer and promote to HotSet.
    let block = pool.get_for_point_lookup(1, 0);
    assert!(block.is_some());
    assert_eq!(pool.hot_set_len(0), 1);
    // It should be removed from ScanBuffer after promotion.
    assert_eq!(pool.scan_buffer_len(0), 0);
}

#[test]
fn buffer_pool_scan_does_not_promote_from_hot_set() {
    let mut pool = BufferPool::new(10, 1);

    // Insert via point lookup.
    pool.insert(1, make_block(1), AccessType::PointLookup, 0);
    assert_eq!(pool.hot_set_len(0), 1);

    // Scan should find it in HotSet but NOT move it to ScanBuffer.
    let block = pool.get_for_scan(1, 0);
    assert!(block.is_some());
    assert_eq!(pool.hot_set_len(0), 1);
    assert_eq!(pool.scan_buffer_len(0), 0);
}

#[test]
fn buffer_pool_capacity_split_70_30() {
    let pool = BufferPool::new(100, 1);

    assert_eq!(pool.hot_set_capacity(0), 70);
    assert_eq!(pool.scan_buffer_capacity(0), 30);
}

#[test]
fn buffer_pool_hot_set_lru_eviction() {
    // HotSet capacity = 70% of 10 = 7
    let mut pool = BufferPool::new(10, 1);
    let hot_cap = pool.hot_set_capacity(0);

    // Fill the HotSet.
    for i in 0..hot_cap {
        pool.insert(i as u64, make_block(i as u64), AccessType::PointLookup, 0);
    }
    assert_eq!(pool.hot_set_len(0), hot_cap);

    // Insert one more - should evict the LRU entry (block 0).
    pool.insert(100, make_block(100), AccessType::PointLookup, 0);
    assert_eq!(pool.hot_set_len(0), hot_cap);

    // Block 0 should be evicted.
    let block = pool.get_for_point_lookup(0, 0);
    assert!(block.is_none());

    // Block 100 should be present.
    let block = pool.get_for_point_lookup(100, 0);
    assert!(block.is_some());
}

#[test]
fn buffer_pool_scan_buffer_clock_sweep_eviction() {
    // ScanBuffer capacity = 30% of 10 = 3
    let mut pool = BufferPool::new(10, 1);
    let scan_cap = pool.scan_buffer_capacity(0);

    // Fill the ScanBuffer.
    for i in 0..scan_cap {
        pool.insert(
            i as u64,
            make_block(i as u64),
            AccessType::SequentialScan,
            0,
        );
    }
    assert_eq!(pool.scan_buffer_len(0), scan_cap);

    // Insert one more - should evict via clock-sweep.
    pool.insert(100, make_block(100), AccessType::SequentialScan, 0);
    assert_eq!(pool.scan_buffer_len(0), scan_cap);
    assert!(pool.get_for_scan(100, 0).is_some());
}

#[test]
fn buffer_pool_scan_buffer_never_evicts_hot_set_resident() {
    // Total capacity 10: HotSet=7, ScanBuffer=3
    let mut pool = BufferPool::new(10, 1);
    let scan_cap = pool.scan_buffer_capacity(0);

    // Put blocks 1, 2, 3 in HotSet.
    pool.insert(1, make_block(1), AccessType::PointLookup, 0);
    pool.insert(2, make_block(2), AccessType::PointLookup, 0);
    pool.insert(3, make_block(3), AccessType::PointLookup, 0);

    // Also put blocks 1, 2, 3 in ScanBuffer (same block IDs).
    pool.insert(1, make_block(1), AccessType::SequentialScan, 0);
    pool.insert(2, make_block(2), AccessType::SequentialScan, 0);
    pool.insert(3, make_block(3), AccessType::SequentialScan, 0);

    assert_eq!(pool.scan_buffer_len(0), scan_cap);

    // Now insert block 10 into ScanBuffer. The eviction constraint means
    // blocks 1, 2, 3 are protected (they're in HotSet). Since all ScanBuffer
    // entries are protected, the insertion should be a no-op.
    pool.insert(10, make_block(10), AccessType::SequentialScan, 0);

    // All original blocks should still be in ScanBuffer.
    assert!(pool.get_for_scan(1, 0).is_some());
    assert!(pool.get_for_scan(2, 0).is_some());
    assert!(pool.get_for_scan(3, 0).is_some());
}

#[test]
fn buffer_pool_multi_numa_node() {
    let mut pool = BufferPool::new(20, 2);

    assert_eq!(pool.numa_node_count(), 2);

    // Insert into node 0.
    pool.insert(1, make_block(1), AccessType::PointLookup, 0);

    // Should be visible on node 0 but not node 1.
    assert!(pool.get_for_point_lookup(1, 0).is_some());
    assert!(pool.get_for_point_lookup(1, 1).is_none());

    // Insert into node 1.
    pool.insert(2, make_block(2), AccessType::PointLookup, 1);

    assert!(pool.get_for_point_lookup(2, 1).is_some());
    assert!(pool.get_for_point_lookup(2, 0).is_none());
}

// Admission by heat

/// A deterministic Zipfian-ish skewed key generator: ~80% of accesses hit a
/// small hot set, the rest spread over a large cold tail. Uses a fixed LCG so
/// the sequence is identical across pool configurations (fair comparison).
struct SkewGen {
    state: u64,
    hot: u64,
    cold: u64,
}

impl SkewGen {
    fn new(hot: u64, cold: u64) -> Self {
        SkewGen {
            state: 0x1234_5678_9abc_def0,
            hot,
            cold,
        }
    }
    fn next_u64(&mut self) -> u64 {
        // xorshift64 - deterministic, no external deps.
        self.state ^= self.state << 13;
        self.state ^= self.state >> 7;
        self.state ^= self.state << 17;
        self.state
    }
    fn next_key(&mut self) -> u64 {
        let r = self.next_u64();
        if r % 100 < 80 {
            r % self.hot // hot set
        } else {
            self.hot + (r % self.cold) // cold tail
        }
    }
}

/// A pool and the heat of its blocks: a block gains heat when it is used, and loses some
/// of it whenever any block is used.
struct HeatPool {
    pool: BufferPool,
    heat: HashMap<u64, (f32, u32)>,
    clock: u32,
}

impl HeatPool {
    fn new(total_capacity: usize, numa_nodes: usize) -> Self {
        HeatPool { pool: BufferPool::new(total_capacity, numa_nodes), heat: HashMap::new(), clock: 0 }
    }

    fn new_adaptive(total_capacity: usize, numa_nodes: usize) -> Self {
        let pool = BufferPool::new_adaptive(total_capacity, numa_nodes);
        HeatPool { pool, heat: HashMap::new(), clock: 0 }
    }

    /// Heat of a block, as a number in the same order.
    fn score(&self, id: u64) -> u32 {
        match self.heat.get(&id) {
            Some((heat, last)) => (heat * 0.999f32.powi((self.clock - last) as i32)).to_bits(),
            None => 0,
        }
    }

    fn samples(&self) -> Vec<HeatSample> {
        let sample = |id: &u64| HeatSample { block_id: *id, heat: self.score(*id) };
        self.heat.keys().map(sample).collect()
    }

    fn record_heat(&mut self, id: u64) {
        if !self.pool.is_adaptive() {
            return;
        }
        self.clock += 1;
        let heat = f32::from_bits(self.score(id)) + 1.0;
        self.heat.insert(id, (heat, self.clock));
        let cap = tracked_cap(self.pool.hot_set_capacity(0));
        for id in blocks_to_forget(self.samples(), cap) {
            self.heat.remove(&id);
        }
    }

    fn take_in(&mut self, id: u64, block: CachedBlock) {
        let sample = self.pool.admission_sample(id, 0);
        let scores: Vec<u32> = sample.iter().map(|id| self.score(*id)).collect();
        let newcomer = self.score(id);
        if let Some(gone) = self.pool.admit_hot(id, block, 0, &sample, &scores, newcomer) {
            self.heat.remove(&gone);
        }
    }

    fn insert(&mut self, id: u64, block: CachedBlock, access_type: AccessType, node: usize) {
        self.record_heat(id);
        if self.pool.is_adaptive() && access_type == AccessType::PointLookup {
            self.take_in(id, block);
        } else {
            self.pool.insert(id, block, access_type, node);
        }
    }

    fn get_for_point_lookup(&mut self, id: u64, node: usize) -> Option<CachedBlock> {
        if !self.pool.is_adaptive() {
            return self.pool.get_for_point_lookup(id, node);
        }
        let sample = self.pool.admission_sample(id, node);
        let scores: Vec<u32> = sample.iter().map(|id| self.score(*id)).collect();
        let newcomer = f32::from_bits(self.score(id)) + 1.0;
        let (found, gone) =
            self.pool.get_by_heat(id, node, &sample, &scores, newcomer.to_bits());
        if found.is_some() {
            self.record_heat(id);
        }
        if let Some(gone) = gone {
            self.heat.remove(&gone);
        }
        found
    }

    fn get_for_scan(&mut self, id: u64, node: usize) -> Option<CachedBlock> {
        let found = self.pool.get_for_scan(id, node);
        if found.is_some() {
            self.record_heat(id);
        }
        found
    }

    fn prefetch_tick(
        &mut self,
        node: usize,
        min_velocity: f32,
        max: usize,
        mut loader: impl FnMut(u64) -> Option<CachedBlock>,
    ) -> Vec<u64> {
        let samples = self.samples();
        let ids = self.pool.prefetch_candidates(node, &samples, min_velocity.to_bits(), max);
        let mut loaded = Vec::new();
        for id in ids {
            if let Some(block) = loader(id) {
                self.take_in(id, block);
                loaded.push(id);
            }
        }
        loaded
    }

    fn is_adaptive(&self) -> bool {
        self.pool.is_adaptive()
    }

    fn hot_set_capacity(&self, node: usize) -> usize {
        self.pool.hot_set_capacity(node)
    }

    fn scan_buffer_capacity(&self, node: usize) -> usize {
        self.pool.scan_buffer_capacity(node)
    }

    fn scan_buffer_len(&self, node: usize) -> usize {
        self.pool.scan_buffer_len(node)
    }
}

/// Drive a workload through a pool and return the HotSet hit rate.
fn run_skew_workload(pool: &mut HeatPool, ops: usize, hot: u64, cold: u64) -> f64 {
    let mut keygen = SkewGen::new(hot, cold);
    let mut hits = 0usize;
    for _ in 0..ops {
        let key = keygen.next_key();
        if pool.get_for_point_lookup(key, 0).is_some() {
            hits += 1;
        } else {
            pool.insert(key, make_block(key), AccessType::PointLookup, 0);
        }
    }
    hits as f64 / ops as f64
}

#[test]
fn rgabh_off_by_default_and_on_when_adaptive() {
    assert!(!HeatPool::new(100, 1).is_adaptive());
    assert!(HeatPool::new_adaptive(100, 1).is_adaptive());
}

#[test]
fn rgabh_off_switch_reproduces_lru_baseline_exactly() {
    // Two non-adaptive pools must produce byte-identical hit rates (determinism)
    // and the non-adaptive pool must behave exactly like the historical LRU
    // path - proven by the eviction test below still holding on a non-adaptive
    // pool.
    let mut a = HeatPool::new(60, 1);
    let mut b = HeatPool::new(60, 1);
    let ra = run_skew_workload(&mut a, 5_000, 40, 400);
    let rb = run_skew_workload(&mut b, 5_000, 40, 400);
    assert_eq!(ra, rb, "non-adaptive pool must be deterministic");

    // Classic LRU eviction still holds with admission by heat off (baseline preserved).
    let mut pool = HeatPool::new(10, 1);
    let cap = pool.hot_set_capacity(0);
    for i in 0..cap {
        pool.insert(i as u64, make_block(i as u64), AccessType::PointLookup, 0);
    }
    pool.insert(100, make_block(100), AccessType::PointLookup, 0);
    assert!(pool.get_for_point_lookup(0, 0).is_none(), "LRU tail evicted");
    assert!(pool.get_for_point_lookup(100, 0).is_some());
}

#[test]
fn rgabh_preserves_scan_hotset_isolation_invariant() {
    // The OLTP/OLAP isolation invariant (ScanBuffer never evicts a HotSet-
    // resident block) must still hold under admission by heat.
    let mut pool = HeatPool::new_adaptive(10, 1);
    let scan_cap = pool.scan_buffer_capacity(0);

    pool.insert(1, make_block(1), AccessType::PointLookup, 0);
    pool.insert(2, make_block(2), AccessType::PointLookup, 0);
    pool.insert(3, make_block(3), AccessType::PointLookup, 0);

    pool.insert(1, make_block(1), AccessType::SequentialScan, 0);
    pool.insert(2, make_block(2), AccessType::SequentialScan, 0);
    pool.insert(3, make_block(3), AccessType::SequentialScan, 0);
    assert_eq!(pool.scan_buffer_len(0), scan_cap);

    // A scan insert cannot evict HotSet-resident blocks 1/2/3.
    pool.insert(10, make_block(10), AccessType::SequentialScan, 0);
    assert!(pool.get_for_scan(1, 0).is_some());
    assert!(pool.get_for_scan(2, 0).is_some());
    assert!(pool.get_for_scan(3, 0).is_some());
}

#[test]
fn rgabh_improves_hit_rate_on_skewed_workload() {
    // Hot set (40 keys) larger than nothing but the HotSet capacity is 70% of
    // 60 = 42 slots, so the hot set *fits* but LRU can still evict a hot block
    // during a run of cold-tail accesses. the long_heat should retain the
    // durable hot set and beat plain LRU.
    let hot = 40u64;
    let cold = 400u64;
    let ops = 20_000usize;

    let mut baseline = HeatPool::new(60, 1);
    let base_rate = run_skew_workload(&mut baseline, ops, hot, cold);

    let mut adaptive = HeatPool::new_adaptive(60, 1);
    let adaptive_rate = run_skew_workload(&mut adaptive, ops, hot, cold);

    // admission by heat must not do worse than LRU on a skewed workload; the gradient's
    // durable-membership term should keep the hot set resident.
    assert!(
        adaptive_rate >= base_rate,
        "admission by heat hit rate {adaptive_rate:.4} should be >= LRU baseline {base_rate:.4}"
    );
}

#[test]
fn rgabh_evicts_coldest_by_heat_not_lru_tail() {
    // HotSet capacity = 70% of 10 = 7. Fill 0..7, then repeatedly heat block 0
    // (the LRU tail) so it is the *hottest*. A new insert must evict a genuinely
    // cold block, NOT block 0 - the admission by heat difference from plain LRU.
    let mut pool = HeatPool::new_adaptive(10, 1);
    let cap = pool.hot_set_capacity(0);
    assert_eq!(cap, 7);
    for i in 0..cap as u64 {
        pool.insert(i, make_block(i), AccessType::PointLookup, 0);
    }
    // Hammer block 0 so its long_heat dominates.
    for _ in 0..50 {
        assert!(pool.get_for_point_lookup(0, 0).is_some());
    }
    // Insert a new block to forces one eviction.
    pool.insert(100, make_block(100), AccessType::PointLookup, 0);

    // Block 0 (hottest) must survive; a cold block must have been evicted.
    assert!(
        pool.get_for_point_lookup(0, 0).is_some(),
        "admission by heat must retain the hottest block, not evict it as the LRU tail"
    );
    assert!(pool.get_for_point_lookup(100, 0).is_some());
}

#[test]
fn rgabh_prefetch_loads_high_velocity_blocks_off_foreground() {
    // Build velocity on a set of non-resident blocks, then a prefetch tick must
    // warm them via the loader (the background IO seam).
    let mut pool = HeatPool::new_adaptive(100, 1);

    // Access blocks 200,201,202 through the scan path then remove them so they
    // are tracked (have velocity) but not resident.
    for _ in 0..5 {
        for id in 200..203u64 {
            pool.insert(id, make_block(id), AccessType::SequentialScan, 0);
            let _ = pool.get_for_scan(id, 0);
        }
    }
    // Evict them from the scan buffer by flooding with fresh scan blocks that
    // are not the hot ids (they remain tracked in the heat map).
    for id in 300..400u64 {
        pool.insert(id, make_block(id), AccessType::SequentialScan, 0);
    }

    // Prefetch: load any block trending hot into the HotSet via the loader.
    let mut loaded_ids = Vec::new();
    let got = pool.prefetch_tick(0, 0.0, 8, |id| {
        loaded_ids.push(id);
        Some(make_block(id))
    });
    assert!(
        !got.is_empty(),
        "prefetch should warm at least one high-velocity non-resident block"
    );
    // Every prefetched block is now resident in the HotSet.
    for id in &got {
        assert!(pool.get_for_point_lookup(*id, 0).is_some());
    }
}

#[test]
fn rgabh_prefetch_is_noop_when_disabled() {
    let mut pool = HeatPool::new(100, 1);
    let got = pool.prefetch_tick(0, 0.0, 8, |id| Some(make_block(id)));
    assert!(got.is_empty(), "prefetch must be a no-op when admission by heat is off");
}

#[test]
fn a_full_hot_set_takes_a_block_that_is_hotter_than_the_coldest() {
    let mut pool = BufferPool::new_adaptive(10, 1);
    for id in 0..7u64 {
        assert_eq!(pool.admission_sample(id, 0), Vec::<u64>::new());
        assert_eq!(pool.admit_hot(id, make_block(id), 0, &[], &[], 1), None);
    }
    let sample = pool.admission_sample(100, 0);
    assert_eq!(sample, vec![0, 1, 2, 3, 4, 5, 6]);
    let scores = [50u32, 9, 3, 3, 8, 7, 6];
    assert_eq!(pool.admit_hot(100, make_block(100), 0, &sample, &scores, 3), None);
    assert!(pool.get_hot(100, 0).is_none());
    assert_eq!(pool.admit_hot(100, make_block(100), 0, &sample, &scores, 4), Some(2));
    assert!(pool.get_hot(100, 0).is_some());
    assert!(pool.get_hot(2, 0).is_none());
    assert!(pool.get_hot(0, 0).is_some());
    assert_eq!(pool.hot_set_len(0), 7);
}

#[test]
fn the_coldest_is_the_first_of_the_least_scores() {
    assert_eq!(coldest(&[]), None);
    assert_eq!(coldest(&[5]), Some(0));
    assert_eq!(coldest(&[5, 2, 9, 2]), Some(1));
}

#[test]
fn the_coldest_blocks_are_forgotten() {
    let sample = |block_id: u64, heat: u32| HeatSample { block_id, heat };
    let samples = vec![sample(1, 5), sample(2, 9), sample(3, 1), sample(4, 7), sample(5, 2)];
    assert!(blocks_to_forget(samples.clone(), 5).is_empty());
    assert_eq!(blocks_to_forget(samples.clone(), 4), vec![5, 3]);
    assert_eq!(hottest(samples.clone(), 2), vec![2, 4]);
    assert_eq!(hottest(samples, 9), vec![2, 4, 1, 5, 3]);
    assert_eq!(tracked_cap(0), 4);
    assert_eq!(tracked_cap(7), 28);
    assert_eq!(tracked_cap(usize::MAX), usize::MAX);
}

#[test]
fn blocks_that_are_hot_already_are_not_loaded() {
    let mut pool = BufferPool::new_adaptive(10, 1);
    pool.admit_hot(1, make_block(1), 0, &[], &[], 1);
    let sample = |block_id: u64, heat: u32| HeatSample { block_id, heat };
    let samples = [sample(1, 9), sample(2, 3), sample(3, 8), sample(4, 4)];
    assert_eq!(pool.prefetch_candidates(0, &samples, 4, 8), vec![3, 4]);
    assert_eq!(pool.prefetch_candidates(0, &samples, 0, 1), vec![3]);
}

#[test]
fn the_local_part_is_that_of_the_processor() {
    let mut parts = NumaPartitioned::from_parts(vec![10, 20]);
    assert_eq!(*parts.get_local(b"1\n"), 20);
    assert_eq!(*parts.get_local("\u{a0}\u{2003}1\u{3000}\n".as_bytes()), 20);
    assert_eq!(*parts.get_local("\u{200b}1".as_bytes()), 10);
    *parts.get_local_mut(b"2\n") = 30;
    assert_eq!(*parts.get(1), 30);
}

#[test]
fn a_node_past_the_end_uses_the_last_part() {
    let mut i = 0;
    let parts = NumaPartitioned::new(3, || {
        i += 1;
        i - 1
    });
    assert_eq!((*parts.get(0), *parts.get(1), *parts.get(2), *parts.get(7)), (0, 1, 2, 2));
}

#[test]
fn a_cache_for_none_takes_none() {
    let mut cache = LruCache::<u64, u64>::new(0);
    assert_eq!(cache.put(1, 10), None);
    assert_eq!((cache.len(), cache.capacity()), (0, 0));
    assert!(cache.get(&1).is_none());
}

// Shares, orders and nodes

#[test]
fn every_node_has_room_for_a_block() {
    let pool = BufferPool::new(0, 4);
    assert_eq!(pool.numa_node_count(), 4);
    assert_eq!(pool.hot_set_capacity(3), 1);
    assert_eq!(pool.scan_buffer_capacity(3), 1);
    let pool = BufferPool::new(100, 3);
    assert_eq!(pool.hot_set_capacity(0), 23);
    assert_eq!(pool.scan_buffer_capacity(0), 10);
}

#[test]
fn a_node_past_the_end_is_the_last() {
    let mut pool = BufferPool::new(20, 2);
    pool.insert(1, make_block(1), AccessType::PointLookup, 1);
    assert!(pool.get_for_point_lookup(1, 3).is_some());
    assert!(pool.get_for_point_lookup(1, 0).is_none());
}

#[test]
fn a_cached_block_comes_back_with_its_bytes() {
    let mut pool = BufferPool::new(10, 1);
    pool.insert(5, make_block(5), AccessType::SequentialScan, 0);
    assert_eq!(pool.get_for_scan(5, 0).unwrap().data, vec![5u8; 64]);
    assert_eq!(pool.get_for_point_lookup(5, 0).unwrap().data, vec![5u8; 64]);
    assert_eq!(pool.get_for_scan(5, 0).unwrap().data, vec![5u8; 64]);
    assert!(pool.take_scan(5, 0).is_none());
}

#[test]
fn lru_keys_are_listed_from_the_least_recently_used() {
    let mut cache = LruCache::<u64, u64>::new(3);
    for key in [1, 2, 3] {
        assert_eq!(cache.put(key, key * 10), None);
    }
    cache.get(&1);
    assert_eq!(cache.keys(), vec![2, 3, 1]);
    assert_eq!(cache.lru_tail_keys(2), vec![2, 3]);
    assert_eq!(cache.remove(&9), None);
    assert_eq!(cache.capacity(), 3);
}

#[test]
fn slots_of_an_lru_cache_are_used_again() {
    let mut cache = LruCache::<u64, u64>::new(4);
    for round in 0..50u64 {
        cache.put(round, round);
        if round % 3 == 0 {
            cache.remove(&(round / 2));
        }
        assert!(cache.len() <= 4);
    }
    assert_eq!(cache.get(&49), Some(&49));
}

#[test]
fn the_hand_drops_the_first_entry_without_a_mark() {
    let mut cache = ClockSweep::<u64, u64>::new(3);
    for key in [1, 2, 3] {
        cache.put(key, key);
    }
    assert_eq!(cache.put(4, 4), Some((1, 1)));
    cache.get(&2);
    assert_eq!(cache.put(5, 5), Some((3, 3)));
    assert_eq!(cache.keys(), vec![4, 2, 5]);
    assert_eq!(cache.len(), 3);
}

#[test]
fn a_clock_for_nothing_holds_nothing() {
    let mut cache = ClockSweep::<u64, u64>::new(0);
    assert_eq!(cache.put(1, 1), None);
    assert!(cache.is_empty());
    assert_eq!(cache.capacity(), 0);
}

#[test]
fn node_directories_are_counted() {
    let names: Vec<Vec<u8>> = ["node0", "node12", "nodes", "node", "online", "node4294967296"]
        .iter()
        .map(|name| name.as_bytes().to_vec())
        .collect();
    assert_eq!(detect_numa_nodes(&names), 2);
    assert_eq!(current_numa_node(b"\t 17\r\n"), 17);
}
