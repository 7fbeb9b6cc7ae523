//! Tests of Bloom filters.

use galaxdb_storage::bloom::{filter_candidate_ssts, BloomFilter, BloomSize, SstBloomFilter};

/// The size of a filter for a number of keys and a rate of false positives.
fn size_for(num_keys: usize, rate: f64) -> BloomSize {
    let ln_2 = 2.0_f64.ln();
    let bits = (-(num_keys as f64) * rate.ln() / ln_2.powi(2)).ceil().max(8.0) as u64;
    let hashes = ((bits as f64 / num_keys as f64) * ln_2).round().max(1.0) as u32;
    BloomSize { num_bits: bits, num_hashes: hashes }
}

// BloomFilter - basic construction and membership

#[test]
fn bloom_filter_no_false_negatives() {
    let keys: Vec<Vec<u8>> = (0..1000)
        .map(|i| format!("key-{:06}", i).into_bytes())
        .collect();

    let mut filter = BloomFilter::new(size_for(keys.len(), 0.01));
    for key in &keys {
        filter.insert(key);
    }

    // Every inserted key must be found (no false negatives).
    for key in &keys {
        assert!(
            filter.may_contain(key),
            "inserted key {:?} must be found",
            String::from_utf8_lossy(key)
        );
    }
}

#[test]
fn bloom_filter_false_positive_rate_within_budget() {
    let num_keys = 10_000;
    let target_fpr = 0.01; // 1%

    let keys: Vec<Vec<u8>> = (0..num_keys)
        .map(|i| format!("key-{:08}", i).into_bytes())
        .collect();

    let mut filter = BloomFilter::new(size_for(num_keys, target_fpr));
    for key in &keys {
        filter.insert(key);
    }

    // Test with keys that were NOT inserted.
    let num_probes = 100_000;
    let mut false_positives = 0;
    for i in num_keys..(num_keys + num_probes) {
        let probe = format!("probe-{:08}", i).into_bytes();
        if filter.may_contain(&probe) {
            false_positives += 1;
        }
    }

    let observed_fpr = false_positives as f64 / num_probes as f64;
    // Allow up to 2 times the target FPR to account for statistical variance.
    assert!(
        observed_fpr < target_fpr * 2.0,
        "observed FPR {:.4} exceeds 2 times target {:.4}",
        observed_fpr,
        target_fpr
    );
}

#[test]
fn bloom_filter_with_bits_per_key() {
    let num_keys = 500;
    let bits_per_key = 10;

    let keys: Vec<Vec<u8>> = (0..num_keys)
        .map(|i| format!("bpk-{:06}", i).into_bytes())
        .collect();

    let mut filter = BloomFilter::with_bits_per_key(num_keys, bits_per_key);
    for key in &keys {
        filter.insert(key);
    }

    // No false negatives.
    for key in &keys {
        assert!(filter.may_contain(key));
    }

    // Verify the filter is sized correctly.
    assert!(filter.num_bits() >= (num_keys as u64) * (bits_per_key as u64));
}

#[test]
fn bloom_filter_empty_key() {
    let mut filter = BloomFilter::new(size_for(10, 0.01));
    filter.insert(b"");
    assert!(filter.may_contain(b""));
}

// BloomFilter - serialization round-trip

#[test]
fn bloom_filter_serialize_deserialize_roundtrip() {
    let keys: Vec<Vec<u8>> = (0..200)
        .map(|i| format!("ser-{:04}", i).into_bytes())
        .collect();

    let mut original = BloomFilter::new(size_for(keys.len(), 0.01));
    for key in &keys {
        original.insert(key);
    }

    let bytes = original.serialize();
    let restored = BloomFilter::deserialize(&bytes).expect("deserialization should succeed");

    assert_eq!(restored.num_bits(), original.num_bits());
    assert_eq!(restored.num_hashes(), original.num_hashes());

    // All inserted keys must still be found.
    for key in &keys {
        assert!(restored.may_contain(key));
    }
}

#[test]
fn bloom_filter_deserialize_too_short() {
    assert!(BloomFilter::deserialize(&[0u8; 5]).is_none());
}

#[test]
fn bloom_filter_deserialize_truncated_bits() {
    // Create a valid header but truncate the bit vector.
    let mut data = Vec::new();
    data.extend_from_slice(&1000u64.to_le_bytes()); // num_bits = 1000
    data.extend_from_slice(&7u32.to_le_bytes()); // num_hashes = 7
    // Need ceil(1000/8) = 125 bytes, but only provide 10.
    data.extend_from_slice(&[0u8; 10]);
    assert!(BloomFilter::deserialize(&data).is_none());
}

// SstBloomFilter - SST-level wrapper

#[test]
fn sst_bloom_filter_build_and_check() {
    let keys: Vec<Vec<u8>> = (0..500)
        .map(|i| format!("sst-key-{:06}", i).into_bytes())
        .collect();

    let sst_filter = SstBloomFilter::build(42, 2, &keys, size_for(keys.len(), 0.01));

    assert_eq!(sst_filter.sst_id, 42);
    assert_eq!(sst_filter.level, 2);

    // All inserted keys should be found.
    for key in &keys {
        assert!(sst_filter.check_key(key));
    }

    // A key that was never inserted should (usually) not be found.
    // We can't guarantee it due to false positives, but with 500 keys and 1% FPR
    // the chance of a specific key being a false positive is ~1%.
    let absent_key = b"definitely-not-in-the-sst";
    // Just verify the method runs without panic; we don't assert the result.
    let _ = sst_filter.check_key(absent_key);
}

#[test]
fn sst_bloom_filter_build_with_bits_per_key() {
    let keys: Vec<Vec<u8>> = (0..100)
        .map(|i| format!("bpk-sst-{:04}", i).into_bytes())
        .collect();

    let sst_filter =
        SstBloomFilter::build_with_bits_per_key(7, 1, &keys, 10);

    for key in &keys {
        assert!(sst_filter.check_key(key));
    }
}

#[test]
fn sst_bloom_filter_serialize_deserialize_roundtrip() {
    let keys: Vec<Vec<u8>> = (0..300)
        .map(|i| format!("sst-ser-{:06}", i).into_bytes())
        .collect();

    let original = SstBloomFilter::build(99, 3, &keys, size_for(keys.len(), 0.01));

    let bytes = original.serialize();
    let restored = SstBloomFilter::deserialize(&bytes).expect("deserialization should succeed");

    assert_eq!(restored.sst_id, 99);
    assert_eq!(restored.level, 3);

    for key in &keys {
        assert!(restored.check_key(key));
    }
}

// filter_candidate_ssts - point read integration

#[test]
fn filter_candidate_ssts_skips_absent_keys() {
    // Build 3 SST filters, each with a distinct set of keys.
    let mut filters = Vec::new();

    for sst_id in 0..3 {
        let keys: Vec<Vec<u8>> = (0..100)
            .map(|i| format!("sst{}-key-{:04}", sst_id, i).into_bytes())
            .collect();
        filters.push(SstBloomFilter::build(
            sst_id as u64,
            0,
            &keys,
            size_for(keys.len(), 0.001), // a low rate keeps false positives away
        ));
    }

    // A key from SST 1 should only match SST 1 (with very high probability).
    let target_key = b"sst1-key-0050";
    let candidates = filter_candidate_ssts(target_key, &filters);

    // SST 1 must be in the candidates.
    assert!(
        candidates.contains(&1),
        "SST 1 should be a candidate for its own key"
    );

    // SST 0 and SST 2 should (very likely) not be candidates.
    // With 100 keys and 0.1% FPR, the chance of a false positive is ~0.1%.
    // We accept a tiny chance of test flakiness here.
}

#[test]
fn filter_candidate_ssts_returns_all_when_key_in_multiple() {
    // Build two SST filters that both contain the same key.
    let shared_key = b"shared-key";

    let mut filter1 = BloomFilter::new(size_for(10, 0.01));
    filter1.insert(shared_key);
    let sst1 = SstBloomFilter {
        sst_id: 1,
        level: 0,
        filter: filter1,
    };

    let mut filter2 = BloomFilter::new(size_for(10, 0.01));
    filter2.insert(shared_key);
    let sst2 = SstBloomFilter {
        sst_id: 2,
        level: 1,
        filter: filter2,
    };

    let candidates = filter_candidate_ssts(shared_key, &[sst1, sst2]);
    assert!(candidates.contains(&1));
    assert!(candidates.contains(&2));
}

#[test]
fn filter_candidate_ssts_empty_filters() {
    let candidates = filter_candidate_ssts(b"any-key", &[]);
    assert!(candidates.is_empty());
}

// Sizes and bytes

#[test]
fn the_number_of_hashes_follows_the_bits_for_each_key() {
    for (bits, hashes) in [(1u32, 1u32), (2, 1), (3, 2), (10, 7), (14, 10), (20, 14), (1000, 693)] {
        let rounded = ((bits as f64) * 2.0_f64.ln()).round().max(1.0) as u32;
        assert_eq!(BloomFilter::with_bits_per_key(1, bits).num_hashes(), rounded);
        assert_eq!(rounded, hashes);
    }
    assert_eq!(BloomFilter::with_bits_per_key(1, 1).num_bits(), 8);
    assert_eq!(BloomFilter::with_bits_per_key(3, 7).num_bits(), 21);
}

#[test]
fn a_serialized_filter_is_sizes_and_bits() {
    let empty = BloomFilter::new(BloomSize { num_bits: 17, num_hashes: 3 });
    let mut expected = 17u64.to_le_bytes().to_vec();
    expected.extend_from_slice(&3u32.to_le_bytes());
    expected.extend_from_slice(&[0u8; 3]);
    assert_eq!(empty.serialize(), expected);
}

#[test]
fn a_key_sets_the_bits_that_its_two_hashes_give() {
    let mut filter = BloomFilter::new(BloomSize { num_bits: 100, num_hashes: 4 });
    filter.insert(b"key");
    let first = xxhash_rust::xxh3::xxh3_64(b"key");
    let second = xxhash_rust::xxh3::xxh3_64(b"key\x47");
    let mut bits = vec![0u8; 13];
    for i in 0..4u64 {
        let place = first.wrapping_add(i.wrapping_mul(second)) % 100;
        bits[(place / 8) as usize] |= 1 << (place % 8);
    }
    assert_eq!(filter.serialize()[12..], bits[..]);
}

#[test]
fn an_empty_filter_claims_nothing() {
    let filter = BloomFilter::new(BloomSize { num_bits: 64, num_hashes: 2 });
    assert!(!filter.may_contain(b"anything"));
    assert!(!filter.may_contain(b""));
}

#[test]
fn a_file_filter_without_its_end_is_not_read() {
    let keys = vec![b"a".to_vec()];
    let bytes = SstBloomFilter::build_with_bits_per_key(5, 2, &keys, 10).serialize();
    assert!(SstBloomFilter::deserialize(&bytes).is_some());
    assert!(SstBloomFilter::deserialize(&bytes[..bytes.len() - 1]).is_none());
    assert!(SstBloomFilter::deserialize(&bytes[..11]).is_none());
    assert!(SstBloomFilter::deserialize(&bytes[..20]).is_none());
}
