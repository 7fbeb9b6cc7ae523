//! Tests of the memtable and its manager.

use galaxdb_storage::memtable::{Memtable, MemtableManager, VersionedValue, NUM_SHARDS};

#[test]
fn shard_selection_distributes_keys() {
    // Verify that different keys map to different shards.
    let mut shard_hits = [0u32; NUM_SHARDS];
    for i in 0..1000u32 {
        let key = format!("key-{i}").into_bytes();
        let idx = Memtable::shard_index(&key);
        assert!(idx < NUM_SHARDS);
        shard_hits[idx] += 1;
    }
    // With 1000 keys and 16 shards, each shard should get at least some keys.
    for (i, &count) in shard_hits.iter().enumerate() {
        assert!(count > 0, "shard {i} got zero keys");
    }
}

#[test]
fn mvcc_version_chain_is_built_correctly() {
    let mut memtable = Memtable::new(64 * 1024 * 1024);
    let key = b"versioned-key".to_vec();

    // Write three versions with increasing timestamps.
    memtable.put(key.clone(), 10, Some(b"v1".to_vec()));
    memtable.put(key.clone(), 20, Some(b"v2".to_vec()));
    memtable.put(key.clone(), 30, Some(b"v3".to_vec()));

    // Latest read should return v3.
    assert_eq!(memtable.get(&key), Some(Some(b"v3".to_vec())));

    // MVCC reads at different timestamps.
    assert_eq!(memtable.get_at(&key, 30), Some(Some(b"v3".to_vec())));
    assert_eq!(memtable.get_at(&key, 25), Some(Some(b"v2".to_vec())));
    assert_eq!(memtable.get_at(&key, 15), Some(Some(b"v1".to_vec())));
    assert_eq!(memtable.get_at(&key, 5), None);
}

// Seal threshold

#[test]
fn seal_threshold_triggers_correctly() {
    // Use a small threshold for testing.
    let threshold = 1024u64; // 1 KB
    let mut memtable = Memtable::new(threshold);

    // Write data until we cross the threshold.
    let mut should_seal = false;
    for i in 0..200u32 {
        let key = format!("key-{i:04}").into_bytes();
        let value = vec![0u8; 32]; // 32 bytes per value
        should_seal = memtable.put(key, i as u64, Some(value));
        if should_seal {
            break;
        }
    }

    assert!(should_seal, "seal threshold should have been crossed");
    assert!(memtable.size() >= threshold);
}

#[test]
fn sealed_memtable_rejects_writes() {
    let mut memtable = Memtable::new(64 * 1024 * 1024);
    memtable.put(b"key1".to_vec(), 1, Some(b"value1".to_vec()));

    memtable.seal();
    assert!(memtable.is_sealed());

    // Writes to a sealed memtable return false (not accepted).
    let accepted = memtable.put(b"key2".to_vec(), 2, Some(b"value2".to_vec()));
    assert!(!accepted);

    // Original data is still readable.
    assert_eq!(memtable.get(b"key1"), Some(Some(b"value1".to_vec())));
    // New key was not written.
    assert_eq!(memtable.get(b"key2"), None);
}

// MemtableManager seal and swap

#[test]
fn manager_seals_and_swaps_on_threshold() {
    // Use a small threshold so we can trigger seal quickly.
    let threshold = 512u64;
    let back_pressure = 4096u64;
    let mut manager = MemtableManager::new(threshold, back_pressure);

    assert_eq!(manager.sealed_count(), 0);

    // Write enough data to trigger a seal.
    for i in 0..100u32 {
        let key = format!("key-{i:04}").into_bytes();
        let value = vec![0u8; 32];
        let should_seal = manager.active_mut().put(key, i as u64, Some(value));
        if should_seal {
            manager.seal_active();
            break;
        }
    }

    // There should be at least one sealed memtable.
    assert!(manager.sealed_count() >= 1);

    // The active memtable should be a new, empty one.
    let active = manager.active();
    assert!(!active.is_sealed());
}

#[test]
fn manager_reads_from_sealed_memtables() {
    let threshold = 256u64;
    let back_pressure = 4096u64;
    let mut manager = MemtableManager::new(threshold, back_pressure);

    // Write a key to the active memtable.
    manager.active_mut().put(b"early-key".to_vec(), 1, Some(b"early-value".to_vec()));

    // Force seal.
    manager.seal_active();

    // The key should still be readable through the manager.
    let result = manager.get(b"early-key");
    assert_eq!(result, Some(Some(b"early-value".to_vec())));

    // Write a new key to the new active memtable.
    manager.active_mut().put(b"late-key".to_vec(), 2, Some(b"late-value".to_vec()));

    // Both keys should be readable.
    assert_eq!(manager.get(b"early-key"), Some(Some(b"early-value".to_vec())));
    assert_eq!(manager.get(b"late-key"), Some(Some(b"late-value".to_vec())));
}

#[test]
fn manager_flush_complete_removes_sealed() {
    let threshold = 256u64;
    let back_pressure = 4096u64;
    let mut manager = MemtableManager::new(threshold, back_pressure);

    // Write and seal.
    manager.active_mut().put(b"key".to_vec(), 1, Some(b"value".to_vec()));
    let size = manager.active().size();
    manager.seal_active();

    assert_eq!(manager.sealed_count(), 1);

    // Simulate flush completion.
    manager.on_flush_complete(size);

    assert_eq!(manager.sealed_count(), 0);
}

// Back-pressure blocking

#[test]
fn back_pressure_blocks_when_exceeded() {
    // Very small back-pressure limit.
    let threshold = 128u64;
    let back_pressure = 256u64;
    let mut manager = MemtableManager::new(threshold, back_pressure);

    // Fill up sealed memtables to consume back-pressure capacity.
    // Write enough to seal multiple memtables.
    for i in 0..50u32 {
        let key = format!("bp-key-{i:04}").into_bytes();
        let value = vec![0u8; 32];
        let should_seal = manager.active_mut().put(key, i as u64, Some(value));
        if should_seal {
            manager.seal_active();
        }
    }

    // The semaphore should have reduced available permits.
    let available = manager.available_back_pressure();
    // With sealed memtables consuming permits, available should be less than initial.
    assert!(
        available < back_pressure as usize,
        "back-pressure should be partially consumed, available={available}"
    );
}

// Epoch safety (read copies value, drops handle)

#[test]
fn read_copies_value_out_of_entry() {
    let mut memtable = Memtable::new(64 * 1024 * 1024);
    let key = b"epoch-key".to_vec();
    let value = b"epoch-value".to_vec();

    memtable.put(key.clone(), 1, Some(value.clone()));

    // The value that is read is a copy.
    let result = memtable.get(&key);
    assert_eq!(result, Some(Some(value)));

    let owned_value = result.unwrap().unwrap();
    assert_eq!(owned_value, b"epoch-value");
}

// Tombstone handling

#[test]
fn tombstone_write_and_read() {
    let mut memtable = Memtable::new(64 * 1024 * 1024);
    let key = b"tombstone-key".to_vec();

    // Write a value, then delete it (tombstone).
    memtable.put(key.clone(), 1, Some(b"alive".to_vec()));
    memtable.put(key.clone(), 2, None); // tombstone

    // Latest read returns tombstone.
    assert_eq!(memtable.get(&key), Some(None));

    // MVCC read at ts=1 returns the live value.
    assert_eq!(memtable.get_at(&key, 1), Some(Some(b"alive".to_vec())));
    // MVCC read at ts=2 returns tombstone.
    assert_eq!(memtable.get_at(&key, 2), Some(None));
}

// iter_all for flush

#[test]
fn iter_all_returns_sorted_entries() {
    let mut memtable = Memtable::new(64 * 1024 * 1024);

    // Insert keys in random order.
    memtable.put(b"charlie".to_vec(), 1, Some(b"c".to_vec()));
    memtable.put(b"alpha".to_vec(), 2, Some(b"a".to_vec()));
    memtable.put(b"bravo".to_vec(), 3, Some(b"b".to_vec()));

    let entries = memtable.iter_all();
    assert_eq!(entries.len(), 3);
    assert_eq!(entries[0].0, b"alpha");
    assert_eq!(entries[1].0, b"bravo");
    assert_eq!(entries[2].0, b"charlie");
}

// Size tracking

#[test]
fn size_counter_increases_on_writes() {
    let mut memtable = Memtable::new(64 * 1024 * 1024);
    assert_eq!(memtable.size(), 0);

    memtable.put(b"key1".to_vec(), 1, Some(b"value1".to_vec()));
    let size_after_first = memtable.size();
    assert!(size_after_first > 0);

    memtable.put(b"key2".to_vec(), 2, Some(b"value2".to_vec()));
    let size_after_second = memtable.size();
    assert!(size_after_second > size_after_first);
}

// Key not found

#[test]
fn get_returns_none_for_missing_key() {
    let memtable = Memtable::new(64 * 1024 * 1024);
    assert_eq!(memtable.get(b"nonexistent"), None);
}

#[test]
fn get_at_returns_none_for_missing_key() {
    let memtable = Memtable::new(64 * 1024 * 1024);
    assert_eq!(memtable.get_at(b"nonexistent", 100), None);
}

// Version chains

#[test]
fn new_versioned_value_has_no_prev() {
    let v = VersionedValue::new(1, Some(b"hello".to_vec()));
    assert_eq!(v.timestamp, 1);
    assert_eq!(v.value, Some(b"hello".to_vec()));
    assert!(v.prev.is_none());
    assert_eq!(v.chain_length(), 1);
}

#[test]
fn with_prev_chains_versions() {
    let v1 = VersionedValue::new(1, Some(b"v1".to_vec()));
    let v2 = VersionedValue::with_prev(2, Some(b"v2".to_vec()), v1);
    assert_eq!(v2.timestamp, 2);
    assert_eq!(v2.chain_length(), 2);
    assert_eq!(v2.prev.as_ref().unwrap().timestamp, 1);
}

#[test]
fn get_at_returns_correct_version() {
    let v1 = VersionedValue::new(10, Some(b"v1".to_vec()));
    let v2 = VersionedValue::with_prev(20, Some(b"v2".to_vec()), v1);
    let v3 = VersionedValue::with_prev(30, Some(b"v3".to_vec()), v2);

    // Read at ts=30 sees v3.
    assert_eq!(v3.get_at(30), Some(Some(b"v3".to_vec())));
    // Read at ts=25 sees v2.
    assert_eq!(v3.get_at(25), Some(Some(b"v2".to_vec())));
    // Read at ts=15 sees v1.
    assert_eq!(v3.get_at(15), Some(Some(b"v1".to_vec())));
    // Read at ts=5 sees nothing.
    assert_eq!(v3.get_at(5), None);
}

#[test]
fn tombstone_is_detected() {
    let v = VersionedValue::new(1, None);
    assert!(v.is_tombstone());

    let v2 = VersionedValue::new(1, Some(b"data".to_vec()));
    assert!(!v2.is_tombstone());
}

#[test]
fn get_at_returns_tombstone() {
    let v1 = VersionedValue::new(10, Some(b"alive".to_vec()));
    let v2 = VersionedValue::with_prev(20, None, v1); // tombstone

    assert_eq!(v2.get_at(20), Some(None)); // tombstone
    assert_eq!(v2.get_at(15), Some(Some(b"alive".to_vec())));
}

#[test]
fn get_at_with_ts_names_the_version_that_was_read() {
    let v1 = VersionedValue::new(10, Some(b"v1".to_vec()));
    let v2 = VersionedValue::with_prev(20, None, v1);
    assert_eq!(v2.get_at_with_ts(25), Some((None, 20)));
    assert_eq!(v2.get_at_with_ts(19), Some((Some(b"v1".to_vec()), 10)));
    assert_eq!(v2.get_at_with_ts(9), None);
    assert_eq!(v2.latest_timestamp(), 20);
}

// Sizes, prefixes and the budget

#[test]
fn a_write_counts_its_key_its_value_and_sixteen_bytes() {
    let mut memtable = Memtable::new(100);
    assert!(!memtable.put(b"key1".to_vec(), 1, Some(b"value1".to_vec())));
    assert_eq!(memtable.size(), 4 + 6 + 16);
    assert!(!memtable.put(b"key1".to_vec(), 2, None));
    assert_eq!(memtable.size(), 26 + 4 + 16);
    assert!(memtable.put(b"k".to_vec(), 3, Some(vec![0u8; 37])));
    assert_eq!(memtable.size(), 100);
}

#[test]
fn iter_prefix_lists_the_keys_of_one_table() {
    let mut memtable = Memtable::new(64 * 1024 * 1024);
    for key in ["t:2", "u:1", "t:1", "t", "s:9"] {
        memtable.put(key.as_bytes().to_vec(), 1, Some(b"v".to_vec()));
    }
    let keys: Vec<Vec<u8>> = memtable.iter_prefix(b"t:").into_iter().map(|e| e.0).collect();
    assert_eq!(keys, vec![b"t:1".to_vec(), b"t:2".to_vec()]);
}

#[test]
fn the_newest_memtable_that_knows_a_key_answers() {
    let mut manager = MemtableManager::new(1 << 20, 4096);
    manager.active_mut().put(b"k".to_vec(), 5, Some(b"old".to_vec()));
    manager.seal_active();
    manager.active_mut().put(b"k".to_vec(), 9, None);
    assert_eq!(manager.get(b"k"), Some(None));
    assert_eq!(manager.get_at(b"k", 7), Some(Some(b"old".to_vec())));
    assert_eq!(manager.get_at(b"k", 4), None);
}

#[test]
fn flushing_gives_back_what_sealing_took() {
    let mut manager = MemtableManager::new(1 << 20, 4096);
    manager.active_mut().put(b"k".to_vec(), 1, Some(vec![0u8; 83]));
    assert!(manager.admits(b"k", &None));
    manager.seal_active();
    assert_eq!(manager.available_back_pressure(), 4096 - 100);
    assert_eq!(manager.sealed_total_bytes(), 100);
    manager.on_flush_complete(100);
    assert_eq!(manager.available_back_pressure(), 4096);
    assert_eq!(manager.sealed_count(), 0);
    assert!(manager.peek_sealed().is_none());
}

#[test]
fn a_manager_puts_and_seals_by_itself() {
    let mut manager = MemtableManager::new(60, 4096);
    manager.put(b"k1".to_vec(), 1, Some(vec![0u8; 12]));
    assert_eq!(manager.sealed_count(), 0);
    manager.put(b"k2".to_vec(), 2, Some(vec![0u8; 12]));
    assert_eq!(manager.sealed_count(), 1);
    assert_eq!(manager.active().size(), 0);
    assert_eq!(manager.get(b"k1"), Some(Some(vec![0u8; 12])));
}

#[test]
fn a_default_table_seals_at_its_threshold() {
    let table = Memtable::with_default_threshold();
    assert_eq!(table.seal_threshold(), 67_108_864);
    assert_eq!(table.num_shards(), 16);
    assert!(table.get(b"k").is_none());
}

#[test]
fn a_table_larger_than_the_budget_gives_nothing_back() {
    let mut manager = MemtableManager::new(1 << 20, 10);
    manager.active_mut().put(b"k".to_vec(), 1, None);
    manager.seal_active();
    assert_eq!(manager.available_back_pressure(), 10);
    manager.on_flush_complete(17);
    assert_eq!(manager.available_back_pressure(), 10);
    manager.on_flush_complete(17);
    assert_eq!(manager.available_back_pressure(), 10);
}

#[test]
fn a_table_below_its_threshold_stays_open() {
    let mut manager = MemtableManager::new(1000, 4096);
    manager.put(b"k1".to_vec(), 1, Some(b"a".to_vec()));
    assert!(!manager.active().is_sealed());
    manager.put(b"k2".to_vec(), 2, Some(b"b".to_vec()));
    assert_eq!(manager.active().size(), 38);
    assert_eq!(manager.get(b"k2"), Some(Some(b"b".to_vec())));
}
