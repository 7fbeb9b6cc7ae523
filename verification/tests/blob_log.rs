//! Tests of the blob log, with its files in memory.

use std::collections::{HashMap, HashSet};

use galaxdb_storage::blob_log::entry::{
    decode_entry, encode_entry, BLOB_ENTRY_MAGIC, BLOB_ENTRY_MAGIC_V2, BLOB_FORMAT_VERSION,
};
use galaxdb_storage::blob_log::gc::{BlobFile, BlobFileStats, BlobGc};
use galaxdb_storage::blob_log::log::{BlobRead, BlobWrite};
use galaxdb_storage::blob_log::names::{blob_file_name, blob_id_of_name};
use galaxdb_storage::blob_log::{
    content_hash, decode_blob_ref, encode_blob_ref, should_separate, BlobLog, BlobRef,
    BLOB_MARKER_SIZE, BLOB_REF_SIZE, CONTENT_HASH_SIZE, DEFAULT_BLOB_THRESHOLD, DEFAULT_NUM_QUEUES,
};
use galaxdb_storage::error::{Artifact, Fault, GalaxError};
use xxhash_rust::xxh3::xxh3_64;

/// A blob log and the contents of its files.
struct TestLog {
    log: BlobLog,
    files: HashMap<u64, Vec<u8>>,
}

impl TestLog {
    fn new(log: BlobLog) -> Self {
        let files = (0..log.num_queues() as u64).map(|id| (id, Vec::new())).collect();
        TestLog { log, files }
    }

    fn write(&mut self, value: &[u8]) -> Result<([u8; CONTENT_HASH_SIZE], BlobRef), GalaxError> {
        match self.log.write(value) {
            BlobWrite::Stored { hash, blob_ref } => Ok((hash, blob_ref)),
            BlobWrite::Append(pending) => {
                let file = self.files.entry(pending.queue as u64).or_default();
                assert_eq!(file.len() as u64, pending.blob_ref.offset);
                file.extend_from_slice(&pending.entry);
                self.log.finish_write(&pending);
                Ok((pending.hash, pending.blob_ref))
            }
        }
    }

    fn read(&self, blob_ref: &BlobRef) -> Result<Vec<u8>, GalaxError> {
        let file = self.files.get(&blob_ref.file_id).ok_or(GalaxError::UnexpectedEof)?;
        decode_entry(&file[blob_ref.offset as usize..], blob_ref)
    }

    fn read_transparent(&self, value: &[u8]) -> Result<Vec<u8>, GalaxError> {
        match self.log.read_transparent(value) {
            BlobRead::Inline => Ok(value.to_vec()),
            BlobRead::Stored(blob_ref) => self.read(&blob_ref),
        }
    }

    fn collect_file_stats(&self) -> Result<Vec<BlobFileStats>, GalaxError> {
        let mut files: Vec<BlobFile> = self
            .files
            .iter()
            .map(|(id, bytes)| BlobFile { file_id: *id, total_bytes: bytes.len() as u64 })
            .collect();
        files.sort_by_key(|file| file.file_id);
        Ok(self.log.collect_file_stats(&files))
    }

    fn run_gc(&mut self) -> Result<usize, GalaxError> {
        let mut compacted = 0;
        for stats in self.collect_file_stats()? {
            let gc = self.log.run_gc(&stats, &self.files[&stats.file_id], 0);
            match &gc {
                BlobGc::Keep => continue,
                BlobGc::Delete => {}
                BlobGc::Rewrite(made) => {
                    self.files.insert(made.new_file_id, made.bytes.clone());
                }
            }
            self.log.finish_gc(stats.file_id, &gc);
            self.files.remove(&stats.file_id);
            if stats.file_id < self.log.num_queues() as u64 {
                self.log.resume_queue(stats.file_id as usize, 0);
            }
            compacted += 1;
        }
        Ok(compacted)
    }

    fn num_queues(&self) -> usize {
        self.log.num_queues()
    }

    fn threshold(&self) -> usize {
        self.log.threshold()
    }

    fn should_separate(&self, value: &[u8]) -> bool {
        self.log.should_separate(value)
    }

    fn mark_dead(&mut self, blob_ref: &BlobRef) {
        self.log.mark_dead(blob_ref);
    }

    fn index_size(&self) -> usize {
        self.log.index_size()
    }

    fn lookup_by_hash(&self, hash: &[u8; CONTENT_HASH_SIZE]) -> Option<BlobRef> {
        self.log.lookup_by_hash(hash)
    }
}

/// A blob log with the usual settings.
fn create_test_blob_log() -> TestLog {
    TestLog::new(BlobLog::with_defaults())
}

/// A blob log with given settings.
fn create_blob_log_with(num_queues: usize, threshold: usize) -> TestLog {
    TestLog::new(BlobLog::new(num_queues, threshold))
}

/// A large value that exceeds the default threshold.
fn large_value(size: usize) -> Vec<u8> {
    (0..size).map(|i| (i % 256) as u8).collect()
}

// BlobLog with multi-queue parallel writers

#[test]
fn blob_log_creates_with_default_4_queues() {
    let blob_log = create_test_blob_log();
    assert_eq!(blob_log.num_queues(), DEFAULT_NUM_QUEUES);
    assert_eq!(blob_log.threshold(), DEFAULT_BLOB_THRESHOLD);
}

#[test]
fn blob_log_creates_with_custom_queue_count() {
    let blob_log = create_blob_log_with(8, 512);
    assert_eq!(blob_log.num_queues(), 8);
    assert_eq!(blob_log.threshold(), 512);
}

#[test]
fn blob_log_zero_queues_defaults_to_4() {
    let blob_log = create_blob_log_with(0, 1024);
    assert_eq!(blob_log.num_queues(), DEFAULT_NUM_QUEUES);
}

#[test]
fn blob_log_distributes_writes_across_queues() {
    let mut blob_log = create_test_blob_log();

    // Write multiple values - they should be distributed across files
    for i in 0..8 {
        let value = large_value(2048 + i);
        let (_hash, blob_ref) = blob_log.write(&value).unwrap();
        // With 4 queues and round-robin, file_ids should cycle 0,1,2,3,0,1,2,3
        assert_eq!(blob_ref.file_id, (i as u64) % 4);
    }
}

// WAL-time separation

#[test]
fn should_separate_respects_threshold() {
    assert!(!should_separate(&[0u8; 1024], DEFAULT_BLOB_THRESHOLD));
    assert!(should_separate(&[0u8; 1025], DEFAULT_BLOB_THRESHOLD));
    assert!(!should_separate(&[0u8; 100], DEFAULT_BLOB_THRESHOLD));
}

#[test]
fn blob_log_should_separate_method() {
    let blob_log = create_test_blob_log();
    assert!(!blob_log.should_separate(&[0u8; 1024]));
    assert!(blob_log.should_separate(&[0u8; 1025]));
}

#[test]
fn content_hash_is_deterministic() {
    let data = b"hello world blob data";
    let h1 = content_hash(data);
    let h2 = content_hash(data);
    assert_eq!(h1, h2);
}

#[test]
fn content_hash_differs_for_different_data() {
    let h1 = content_hash(b"data one");
    let h2 = content_hash(b"data two");
    assert_ne!(h1, h2);
}

#[test]
fn blob_ref_serialization_roundtrip() {
    let blob_ref = BlobRef {
        file_id: 42,
        offset: 12345,
        length: 9876,
    };
    let bytes = blob_ref.to_bytes();
    let decoded = BlobRef::from_bytes(&bytes).unwrap();
    assert_eq!(blob_ref, decoded);
}

#[test]
fn encode_decode_blob_ref_roundtrip() {
    let hash = content_hash(b"test data");
    let blob_ref = BlobRef {
        file_id: 1,
        offset: 100,
        length: 500,
    };
    let encoded = encode_blob_ref(&hash, &blob_ref);
    assert_eq!(encoded.len(), BLOB_MARKER_SIZE);

    let (decoded_hash, decoded_ref) = decode_blob_ref(&encoded).unwrap();
    assert_eq!(decoded_hash, hash);
    assert_eq!(decoded_ref, blob_ref);
}

#[test]
fn decode_blob_ref_returns_none_for_inline_values() {
    // Short value
    assert!(decode_blob_ref(b"short").is_none());
    // Wrong length
    assert!(decode_blob_ref(&[0u8; 100]).is_none());
    // Right length but wrong tag
    let mut fake = vec![0x00; BLOB_MARKER_SIZE];
    fake[0] = 0x00; // not BLOB_REF_TAG
    assert!(decode_blob_ref(&fake).is_none());
}

#[test]
fn write_and_read_large_value() {
    let mut blob_log = create_test_blob_log();
    let value = large_value(4096);

    let (hash, blob_ref) = blob_log.write(&value).unwrap();
    assert_eq!(blob_ref.length, 4096);

    // Read it back
    let read_value = blob_log.read(&blob_ref).unwrap();
    assert_eq!(read_value, value);

    // Verify content hash matches
    assert_eq!(content_hash(&value), hash);
}

#[test]
fn write_deduplicates_identical_values() {
    let mut blob_log = create_test_blob_log();
    let value = large_value(2048);

    let (hash1, ref1) = blob_log.write(&value).unwrap();
    let (hash2, ref2) = blob_log.write(&value).unwrap();

    // Same content hash
    assert_eq!(hash1, hash2);
    // Same blob ref (deduplicated)
    assert_eq!(ref1, ref2);
    // Only one entry in the index
    assert_eq!(blob_log.index_size(), 1);
}

// Transparent blob fetch

#[test]
fn read_transparent_fetches_blob_value() {
    let mut blob_log = create_test_blob_log();
    let value = large_value(2048);

    let (hash, blob_ref) = blob_log.write(&value).unwrap();
    let encoded = encode_blob_ref(&hash, &blob_ref);

    // Transparent read should fetch the actual value
    let result = blob_log.read_transparent(&encoded).unwrap();
    assert_eq!(result, value);
}

#[test]
fn read_transparent_returns_inline_value_as_is() {
    let blob_log = create_test_blob_log();
    let inline_value = b"small inline value";

    let result = blob_log.read_transparent(inline_value).unwrap();
    assert_eq!(result, inline_value);
}

// Blob GC

#[test]
fn gc_compacts_files_with_high_discard_ratio() {
    let mut blob_log = create_blob_log_with(1, 100); // 1 queue, low threshold

    // Write several values
    let mut refs = Vec::new();
    for i in 0..10 {
        let value = large_value(200 + i);
        let (_hash, blob_ref) = blob_log.write(&value).unwrap();
        refs.push(blob_ref);
    }

    // Mark most as dead (keep only 2 alive)
    for blob_ref in &refs[2..] {
        blob_log.mark_dead(blob_ref);
    }

    // Run GC - should compact since 80% is dead (> 50% threshold)
    let compacted = blob_log.run_gc().unwrap();
    assert!(compacted > 0, "GC should have compacted at least one file");

    // The 2 live values should still be readable
    for blob_ref in &refs[..2] {
        // The old references point to a deleted file, but the values are found by
        // their content.
        let hash = content_hash(&large_value(blob_ref.length as usize));
        let new_ref = blob_log.lookup_by_hash(&hash).unwrap();
        let value = blob_log.read(&new_ref).unwrap();
        assert_eq!(value.len(), blob_ref.length as usize);
    }
}

#[test]
fn gc_deletes_file_with_no_live_values() {
    let mut blob_log = create_blob_log_with(1, 100);

    // Write a value
    let value = large_value(200);
    let (_hash, blob_ref) = blob_log.write(&value).unwrap();

    // Mark it dead
    blob_log.mark_dead(&blob_ref);

    // The file should exist before GC
    assert!(blob_log.files.contains_key(&blob_ref.file_id));

    // Run GC
    let compacted = blob_log.run_gc().unwrap();
    assert_eq!(compacted, 1);

    // The file should be deleted
    assert!(!blob_log.files.contains_key(&blob_ref.file_id));
}

#[test]
fn gc_skips_files_below_discard_threshold() {
    let mut blob_log = create_blob_log_with(1, 100);

    // Write values and keep all alive
    for i in 0..5 {
        let value = large_value(200 + i);
        let _ = blob_log.write(&value).unwrap();
    }

    // No dead values - GC should not compact anything
    let compacted = blob_log.run_gc().unwrap();
    assert_eq!(compacted, 0);
}

/// The part of a file that is not in use.
fn discard_ratio(stats: &BlobFileStats) -> f64 {
    if stats.total_bytes == 0 {
        return 0.0;
    }
    1.0 - stats.live_bytes as f64 / stats.total_bytes as f64
}

#[test]
fn blob_file_stats_discard_ratio() {
    let stats = BlobFileStats {
        live_bytes: 100,
        total_bytes: 200,
        live_count: 1,
        total_count: 2,
        file_id: 0,
    };
    assert!((discard_ratio(&stats) - 0.5).abs() < f64::EPSILON);
    assert!(!stats.needs_gc()); // exactly 50% is not > 50%

    let stats2 = BlobFileStats {
        live_bytes: 90,
        total_bytes: 200,
        live_count: 1,
        total_count: 2,
        file_id: 0,
    };
    assert!(discard_ratio(&stats2) > 0.5);
    assert!(stats2.needs_gc());
}

#[test]
fn blob_file_stats_empty_file() {
    let stats = BlobFileStats {
        live_bytes: 0,
        total_bytes: 0,
        live_count: 0,
        total_count: 0,
        file_id: 0,
    };
    assert_eq!(discard_ratio(&stats), 0.0);
    assert!(!stats.needs_gc());
}

// Integration tests

#[test]
fn large_value_separation_end_to_end() {
    let mut blob_log = create_test_blob_log();

    // Simulate the write path: value > 1 KB gets separated
    let large = large_value(4096);
    let small = b"small value".to_vec();

    assert!(blob_log.should_separate(&large));
    assert!(!blob_log.should_separate(&small));

    // Write the large value to blob log
    let (hash, blob_ref) = blob_log.write(&large).unwrap();
    let memtable_value = encode_blob_ref(&hash, &blob_ref);

    // The memtable value should be much smaller than the original
    assert!(memtable_value.len() < large.len());
    assert_eq!(memtable_value.len(), BLOB_MARKER_SIZE);

    // On read, transparently fetch the actual value
    let fetched = blob_log.read_transparent(&memtable_value).unwrap();
    assert_eq!(fetched, large);

    // Small values pass through unchanged
    let fetched_small = blob_log.read_transparent(&small).unwrap();
    assert_eq!(fetched_small, small);
}

#[test]
fn multiple_large_values_across_queues() {
    let mut blob_log = create_test_blob_log();

    let mut values_and_refs = Vec::new();
    for i in 0..20 {
        let value = large_value(2048 + i * 100);
        let (hash, blob_ref) = blob_log.write(&value).unwrap();
        values_and_refs.push((value, hash, blob_ref));
    }

    // All values should be readable
    for (original, _hash, blob_ref) in &values_and_refs {
        let read_back = blob_log.read(blob_ref).unwrap();
        assert_eq!(&read_back, original);
    }

    // Values should be distributed across all 4 queues
    let file_ids: HashSet<u64> =
        values_and_refs.iter().map(|(_, _, br)| br.file_id).collect();
    assert_eq!(file_ids.len(), 4, "values should span all 4 writer queues");
}

#[test]
fn gc_reclaims_space_after_compaction() {
    let mut blob_log = create_blob_log_with(1, 100);

    // Write 10 values
    let mut all_refs = Vec::new();
    let mut all_values = Vec::new();
    for i in 0..10 {
        let value = large_value(500 + i * 10);
        let (hash, blob_ref) = blob_log.write(&value).unwrap();
        all_refs.push((hash, blob_ref));
        all_values.push(value);
    }

    // Mark 8 out of 10 as dead (simulating compaction removing those keys)
    for (_hash, blob_ref) in &all_refs[2..] {
        blob_log.mark_dead(blob_ref);
    }

    // Get file size before GC
    let stats_before = blob_log.collect_file_stats().unwrap();
    let total_before: u64 = stats_before.iter().map(|s| s.total_bytes).sum();

    // Run GC
    let compacted = blob_log.run_gc().unwrap();
    assert!(compacted > 0);

    // Get file size after GC
    let stats_after = blob_log.collect_file_stats().unwrap();
    let total_after: u64 = stats_after.iter().map(|s| s.total_bytes).sum();

    // Space should be reclaimed
    assert!(
        total_after < total_before,
        "GC should reclaim space: before={}, after={}",
        total_before,
        total_after
    );

    // The 2 surviving values should still be readable via the index
    for i in 0..2 {
        let hash = all_refs[i].0;
        let new_ref = blob_log.lookup_by_hash(&hash).unwrap();
        let value = blob_log.read(&new_ref).unwrap();
        assert_eq!(value, all_values[i]);
    }
}

// Versions of the entry format

/// A value that is written is read back.
#[test]
fn versioned_blob_entry_roundtrips() {
    let mut blob_log = create_test_blob_log();
    let value = large_value(4096);
    let (_hash, blob_ref) = blob_log.write(&value).unwrap();
    assert_eq!(blob_log.read(&blob_ref).unwrap(), value);
}

/// An entry without a version is still read.
#[test]
fn legacy_blob_entry_still_reads() {
    let mut blob_log = create_test_blob_log();
    let value = large_value(200);
    let hash = content_hash(&value);

    let mut entry = Vec::new();
    entry.extend_from_slice(&BLOB_ENTRY_MAGIC.to_le_bytes()); // legacy magic
    entry.extend_from_slice(&(value.len() as u32).to_le_bytes());
    entry.extend_from_slice(&hash);
    entry.extend_from_slice(&value);
    let checksum = xxh3_64(&entry);
    entry.extend_from_slice(&checksum.to_le_bytes());
    blob_log.files.insert(99, entry);

    let br = BlobRef {
        file_id: 99,
        offset: 0,
        length: value.len() as u32,
    };
    assert_eq!(blob_log.read(&br).unwrap(), value);
}

/// An entry of a newer version is refused.
#[test]
fn future_blob_entry_version_refused() {
    let mut blob_log = create_test_blob_log();
    let value = large_value(120);
    let hash = content_hash(&value);
    let future = BLOB_FORMAT_VERSION + 1;

    let mut entry = Vec::new();
    entry.extend_from_slice(&BLOB_ENTRY_MAGIC_V2.to_le_bytes());
    entry.extend_from_slice(&future.to_le_bytes());
    entry.extend_from_slice(&(value.len() as u32).to_le_bytes());
    entry.extend_from_slice(&hash);
    entry.extend_from_slice(&value);
    let checksum = xxh3_64(&entry);
    entry.extend_from_slice(&checksum.to_le_bytes());
    blob_log.files.insert(98, entry);

    let br = BlobRef {
        file_id: 98,
        offset: 0,
        length: value.len() as u32,
    };
    let err = blob_log.read(&br).unwrap_err();
    assert_eq!(
        err,
        GalaxError::FormatTooNew { artifact: Artifact::Blob, found: future, current: BLOB_FORMAT_VERSION },
        "expected a too-new format refusal, got: {err:?}"
    );
}

// Broken entries

#[test]
fn broken_entries_are_refused() {
    let value = large_value(50);
    let entry = encode_entry(&value);
    let blob_ref = BlobRef { file_id: 0, offset: 0, length: 50 };
    assert_eq!(entry.len(), 4 + 2 + 4 + 16 + 50 + 8);
    assert_eq!(decode_entry(&entry, &blob_ref), Ok(value.clone()));

    assert_eq!(decode_entry(&entry[..20], &blob_ref), Err(GalaxError::UnexpectedEof));
    assert_eq!(decode_entry(&entry[..entry.len() - 1], &blob_ref), Err(GalaxError::UnexpectedEof));

    let longer = BlobRef { length: 51, ..blob_ref };
    assert_eq!(
        decode_entry(&entry, &longer),
        Err(GalaxError::Internal(Fault::BlobLengthMismatch { expected: 51, found: 50 }))
    );

    let mut magic = entry.clone();
    magic[0] = 0;
    let found = u32::from_le_bytes([0, magic[1], magic[2], magic[3]]);
    assert_eq!(
        decode_entry(&magic, &blob_ref),
        Err(GalaxError::Internal(Fault::BlobMagicMismatch { found }))
    );

    let mut damaged = entry.clone();
    damaged[40] ^= 1;
    assert!(matches!(
        decode_entry(&damaged, &blob_ref),
        Err(GalaxError::ChecksumMismatch { .. })
    ));

    let mut old = entry.clone();
    old[4] = 0;
    assert_eq!(
        decode_entry(&old, &blob_ref),
        Err(GalaxError::FormatTooOld { artifact: Artifact::Blob, found: 0, oldest: 1 })
    );
}

#[test]
fn a_value_that_does_not_match_its_content_hash_is_refused() {
    let value = large_value(30);
    let mut entry = Vec::new();
    entry.extend_from_slice(&BLOB_ENTRY_MAGIC.to_le_bytes());
    entry.extend_from_slice(&30u32.to_le_bytes());
    entry.extend_from_slice(&content_hash(b"something else"));
    entry.extend_from_slice(&value);
    let checksum = xxh3_64(&entry);
    entry.extend_from_slice(&checksum.to_le_bytes());
    let blob_ref = BlobRef { file_id: 0, offset: 0, length: 30 };
    assert_eq!(
        decode_entry(&entry, &blob_ref),
        Err(GalaxError::Internal(Fault::BlobContentMismatch))
    );
}

// References and names

#[test]
fn a_reference_is_three_numbers() {
    let blob_ref = BlobRef { file_id: 1, offset: 2, length: 3 };
    let bytes = blob_ref.to_bytes();
    assert_eq!(bytes.len(), BLOB_REF_SIZE);
    assert_eq!(bytes[0], 1);
    assert_eq!(bytes[8], 2);
    assert_eq!(bytes[16], 3);
    assert_eq!(BlobRef::from_bytes(&bytes[..19]), None);
}

#[test]
fn a_content_hash_is_little_endian() {
    let expected = xxhash_rust::xxh3::xxh3_128(b"content").to_le_bytes();
    assert_eq!(content_hash(b"content"), expected);
}

#[test]
fn names_and_ids_of_blob_files() {
    assert_eq!(blob_file_name(42), b"blob_42.dat".to_vec());
    assert_eq!(blob_id_of_name(b"blob_42.dat"), Some(42));
    assert_eq!(blob_id_of_name(b"other.dat"), Some(0));
    assert_eq!(blob_id_of_name(b"blob_x.dat"), Some(0));
    assert_eq!(blob_id_of_name(b"blob_42.tmp"), None);
    assert_eq!(blob_id_of_name(b".dat"), None);
}

// Uses and garbage

#[test]
fn a_value_that_is_used_twice_is_dead_when_both_uses_end() {
    let mut blob_log = create_test_blob_log();
    let value = large_value(2048);
    let (_, blob_ref) = blob_log.write(&value).unwrap();
    blob_log.write(&value).unwrap();
    blob_log.mark_dead(&blob_ref);
    assert_eq!(blob_log.log.live_ref_count(), 1);
    blob_log.mark_dead(&blob_ref);
    assert_eq!(blob_log.log.live_ref_count(), 0);
    blob_log.mark_dead(&blob_ref);
    assert_eq!(blob_log.log.live_ref_count(), 0);
}

#[test]
fn stats_count_the_entries_in_use() {
    let mut blob_log = create_blob_log_with(1, 100);
    let (_, first) = blob_log.write(&large_value(200)).unwrap();
    blob_log.write(&large_value(301)).unwrap();
    blob_log.mark_dead(&first);
    let stats = blob_log.collect_file_stats().unwrap();
    assert_eq!(
        stats,
        vec![BlobFileStats {
            live_bytes: 26 + 301 + 8,
            total_bytes: (26 + 200 + 8) + (26 + 301 + 8),
            live_count: 1,
            total_count: 1,
            file_id: 0,
        }]
    );
    assert!(!stats[0].needs_gc());
    let idle = blob_log.log.collect_file_stats(&[BlobFile { file_id: 9, total_bytes: 5000 }]);
    assert_eq!(idle[0].total_count, 2);
    assert!(idle[0].needs_gc());
}

#[test]
fn a_log_goes_on_behind_what_its_files_hold() {
    let mut log = BlobLog::new(2, 10);
    log.resume_queue(0, 77);
    match log.write(b"a value") {
        BlobWrite::Append(pending) => assert_eq!(pending.blob_ref.offset, 77),
        BlobWrite::Stored { .. } => panic!("nothing is stored yet"),
    }
    match log.write(b"a value") {
        BlobWrite::Append(pending) => assert_eq!(pending.blob_ref.file_id, 1),
        BlobWrite::Stored { .. } => panic!("the first write was not finished"),
    }
}

#[test]
fn moved_values_keep_their_number_of_uses() {
    let mut blob_log = create_blob_log_with(1, 100);
    let kept = large_value(150);
    let (hash, _) = blob_log.write(&kept).unwrap();
    blob_log.write(&kept).unwrap();
    let (_, dead) = blob_log.write(&large_value(900)).unwrap();
    blob_log.mark_dead(&dead);
    assert_eq!(blob_log.run_gc().unwrap(), 1);
    let moved = blob_log.lookup_by_hash(&hash).unwrap();
    assert_eq!(moved.file_id, 1);
    assert_eq!(blob_log.read(&moved).unwrap(), kept);
    blob_log.mark_dead(&moved);
    assert_eq!(blob_log.log.live_ref_count(), 1);
    blob_log.mark_dead(&moved);
    assert_eq!(blob_log.log.live_ref_count(), 0);
}

#[test]
fn a_value_that_died_before_a_rewrite_is_written_anew() {
    let mut blob_log = create_blob_log_with(1, 100);
    let values: Vec<Vec<u8>> = (0..4).map(|i| large_value(200 + i)).collect();
    let refs: Vec<BlobRef> = values.iter().map(|v| blob_log.write(v).unwrap().1).collect();
    for dead in &refs[..3] {
        blob_log.mark_dead(dead);
    }
    assert_eq!(blob_log.run_gc().unwrap(), 1);
    assert_eq!(blob_log.index_size(), 1);
    for value in &values {
        let (_, blob_ref) = blob_log.write(value).unwrap();
        assert_eq!(&blob_log.read(&blob_ref).unwrap(), value);
    }
    assert_eq!(blob_log.index_size(), 4);
}
