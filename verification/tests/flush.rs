//! Tests of flushing a memtable to SST files.

use galaxdb_storage::column::ColumnType;
use galaxdb_storage::columnar::{ColumnarRegistration, RowColumnSplitter};
use galaxdb_storage::engine::names::sst_file_name;
use galaxdb_storage::error::{Fault, GalaxError};
use galaxdb_storage::flush::{
    allocate_block_id, build_block, decode_row_ts, entries_to_columns, entry_bytes, flush_memtable,
    newest_timestamp, peek_next_block_id, set_next_block_id, split_into_blocks, BlockIdCounter,
    FlushConfig, FlushResult,
};
use galaxdb_storage::memtable::{Memtable, VersionedValue};
use galaxdb_storage::pax::PaxBlock;
use galaxdb_storage::sst::SstBlockIndex;

/// A splitter for tables whose rows are a number.
struct NumberSplitter;

impl RowColumnSplitter for NumberSplitter {
    fn column_types(&self) -> Vec<ColumnType> {
        vec![ColumnType::Int64]
    }

    fn split(&self, value: &[u8]) -> Option<Vec<Option<Vec<u8>>>> {
        if value.len() != 8 {
            return None;
        }
        Some(vec![Some(value.to_vec())])
    }
}

const NO_TABLES: [ColumnarRegistration<NumberSplitter>; 0] = [];

/// Flushes with fresh ids and no tables stored by column.
fn flush(memtable: &Memtable, config: &FlushConfig, commit_timestamp: u64) -> FlushResult {
    let mut ids = BlockIdCounter::new();
    flush_memtable(memtable, config, commit_timestamp, &NO_TABLES, &mut ids).unwrap()
}

/// Helper: create a memtable with some test data.
fn create_test_memtable(num_entries: usize) -> Memtable {
    // Use a very large threshold so we can control sealing manually
    let mut memtable = Memtable::new(1024 * 1024 * 1024);
    for i in 0..num_entries {
        let key = format!("key-{:06}", i).into_bytes();
        let value = format!("value-{:06}", i).into_bytes();
        memtable.put(key, i as u64 + 1, Some(value));
    }
    memtable
}

#[test]
fn flush_empty_memtable_produces_no_files() {
    let config = FlushConfig {
        sst_size_bytes: 64 * 1024 * 1024,
        max_rows_per_block: 1_000_000,
    };

    let memtable = Memtable::new(1024 * 1024 * 1024);
    let result = flush(&memtable, &config, 100);

    assert!(result.ssts.is_empty());
    assert!(result.block_ids.is_empty());
    assert_eq!(result.rows_flushed, 0);
    assert_eq!(result.bytes_written, 0);
}

#[test]
fn flush_produces_valid_pax_blocks() {
    let config = FlushConfig {
        sst_size_bytes: 64 * 1024 * 1024,
        max_rows_per_block: 1_000_000,
    };

    let num_entries = 100;
    let mut memtable = create_test_memtable(num_entries);
    memtable.seal();

    let result = flush(&memtable, &config, 42);

    assert_eq!(result.rows_flushed, num_entries);
    assert!(!result.ssts.is_empty());
    assert!(!result.block_ids.is_empty());
    assert!(result.bytes_written > 0);

    // Read back each SST file and verify blocks via the block index
    for sst in &result.ssts {
        let file_data = &sst.bytes;
        let block_index = SstBlockIndex::from_file_data(file_data)
            .expect("SST file should have a valid block index");

        assert!(block_index.block_count() > 0, "SST should have at least one block");

        for entry in &block_index.entries {
            let start = entry.file_offset as usize;
            let end = start + entry.block_len as usize;
            let block_bytes = &file_data[start..end];

            let block = PaxBlock::deserialize(block_bytes)
                .expect("each block in SST should be a valid PAX block");

            // Verify block metadata. The header timestamp is now the
            // newest MVCC commit in the block (real row timestamps
            // 1..=100), not the flush argument (42).
            assert_eq!(block.header.column_count, 3); // key + value + ts
            assert!(block.header.row_count > 0);

            // Verify we can read back the columns
            let keys = block.read_column(0).unwrap();
            let values = block.read_column(1).unwrap();
            let timestamps = block.read_column(2).unwrap();
            assert_eq!(keys.len(), block.header.row_count as usize);
            assert_eq!(values.len(), block.header.row_count as usize);
            assert_eq!(timestamps.len(), block.header.row_count as usize);

            // The header timestamp equals the max per-row timestamp.
            let max_ts = timestamps
                .iter()
                .map(|b| decode_row_ts(b).unwrap())
                .max()
                .unwrap();
            assert_eq!(block.header.commit_timestamp, max_ts);

            // Verify keys are sorted
            for window in keys.windows(2) {
                assert!(window[0] <= window[1], "keys should be sorted");
            }
        }
    }
}

#[test]
fn flush_splits_large_memtable_into_multiple_blocks() {
    // Use a very small SST size to force splitting
    let config = FlushConfig {
        sst_size_bytes: 512, // Very small - will force multiple blocks
        max_rows_per_block: 10,
    };

    let num_entries = 50;
    let mut memtable = create_test_memtable(num_entries);
    memtable.seal();

    let result = flush(&memtable, &config, 1);

    // Should have multiple SST files
    assert!(
        result.ssts.len() > 1,
        "expected multiple SST files, got {}",
        result.ssts.len()
    );
    assert_eq!(result.rows_flushed, num_entries);

    // Verify total row count across all blocks in all SSTs
    let mut total_rows = 0;
    for sst in &result.ssts {
        let data = &sst.bytes;
        let block_index = SstBlockIndex::from_file_data(data).unwrap();
        for entry in &block_index.entries {
            let start = entry.file_offset as usize;
            let end = start + entry.block_len as usize;
            let block = PaxBlock::deserialize(&data[start..end]).unwrap();
            total_rows += block.header.row_count as usize;
        }
    }
    assert_eq!(total_rows, num_entries);
}

#[test]
fn flush_sst_file_naming_convention() {
    let config = FlushConfig {
        sst_size_bytes: 64 * 1024 * 1024,
        max_rows_per_block: 1_000_000,
    };

    let memtable = create_test_memtable(10);
    let result = flush(&memtable, &config, 1);

    // SST files should follow the sst_N.pax naming convention
    for sst in &result.ssts {
        let filename = String::from_utf8(sst_file_name(sst.id)).unwrap();
        assert!(filename.starts_with("sst_"), "SST filename should start with sst_");
        assert!(filename.ends_with(".pax"), "SST filename should end with .pax");
    }
}

#[test]
fn flush_handles_tombstones() {
    let config = FlushConfig {
        sst_size_bytes: 64 * 1024 * 1024,
        max_rows_per_block: 1_000_000,
    };

    let mut memtable = Memtable::new(1024 * 1024 * 1024);
    // Insert a live value
    memtable.put(b"key-a".to_vec(), 1, Some(b"value-a".to_vec()));
    // Insert a tombstone
    memtable.put(b"key-b".to_vec(), 2, None);
    // Insert another live value
    memtable.put(b"key-c".to_vec(), 3, Some(b"value-c".to_vec()));

    let result = flush(&memtable, &config, 10);

    assert_eq!(result.rows_flushed, 3);
    assert_eq!(result.ssts.len(), 1);

    // Read back and verify via block index
    let data = &result.ssts[0].bytes;
    let block_index = SstBlockIndex::from_file_data(data).unwrap();
    assert!(block_index.block_count() > 0);

    // Read the first block (all 3 rows should be in one block with max_rows_per_block=1M)
    let entry = &block_index.entries[0];
    let block_bytes = &data[entry.file_offset as usize..(entry.file_offset as usize + entry.block_len as usize)];
    let block = PaxBlock::deserialize(block_bytes).unwrap();
    assert_eq!(block.header.row_count, 3);

    let keys = block.read_column(0).unwrap();
    let values = block.read_column(1).unwrap();

    // key-b should have an empty value (tombstone)
    assert_eq!(keys[1], b"key-b");
    assert!(values[1].is_empty(), "tombstone value should be empty");
}

#[test]
fn split_into_blocks_respects_max_rows() {
    let config = FlushConfig {
        sst_size_bytes: u64::MAX, // Don't split by size
        max_rows_per_block: 5,
    };

    let entries: Vec<(Vec<u8>, VersionedValue)> = (0..12)
        .map(|i| {
            (
                format!("key-{:03}", i).into_bytes(),
                VersionedValue::new(i as u64, Some(format!("val-{}", i).into_bytes())),
            )
        })
        .collect();

    let blocks = split_into_blocks(&entries, &config, &NO_TABLES);

    // 12 entries with max 5 per block to 3 blocks (5, 5, 2)
    assert_eq!(blocks.len(), 3);
    assert_eq!(blocks[0].len(), 5);
    assert_eq!(blocks[1].len(), 5);
    assert_eq!(blocks[2].len(), 2);
}

#[test]
fn split_into_blocks_single_block_when_small() {
    let config = FlushConfig {
        sst_size_bytes: 64 * 1024 * 1024,
        max_rows_per_block: 1_000_000,
    };

    let entries: Vec<(Vec<u8>, VersionedValue)> = (0..10)
        .map(|i| {
            (
                format!("key-{:03}", i).into_bytes(),
                VersionedValue::new(i as u64, Some(b"small".to_vec())),
            )
        })
        .collect();

    let blocks = split_into_blocks(&entries, &config, &NO_TABLES);
    assert_eq!(blocks.len(), 1);
    assert_eq!(blocks[0].len(), 10);
}

#[test]
fn split_into_blocks_empty_entries() {
    let config = FlushConfig::default();
    let entries: Vec<(Vec<u8>, VersionedValue)> = Vec::new();
    let blocks = split_into_blocks(&entries, &config, &NO_TABLES);
    assert!(blocks.is_empty());
}

#[test]
fn entries_to_columns_converts_correctly() {
    let entries = vec![
        (
            b"key-a".to_vec(),
            VersionedValue::new(1, Some(b"val-a".to_vec())),
        ),
        (
            b"key-b".to_vec(),
            VersionedValue::new(2, None), // tombstone
        ),
        (
            b"key-c".to_vec(),
            VersionedValue::new(3, Some(b"val-c".to_vec())),
        ),
    ];

    let columns = entries_to_columns(&entries);
    assert_eq!(columns.len(), 3);

    // Key column
    assert_eq!(columns[0].col_type, ColumnType::Blob);
    assert_eq!(columns[0].values.len(), 3);
    assert_eq!(columns[0].values[0], b"key-a");
    assert_eq!(columns[0].values[1], b"key-b");
    assert_eq!(columns[0].values[2], b"key-c");

    // Value column
    assert_eq!(columns[1].col_type, ColumnType::Blob);
    assert_eq!(columns[1].values.len(), 3);
    assert_eq!(columns[1].values[0], b"val-a");
    assert!(columns[1].values[1].is_empty()); // tombstone to empty
    assert_eq!(columns[1].values[2], b"val-c");

    // Timestamp column (2): per-row MVCC commit timestamps, 8-byte LE.
    assert_eq!(columns[2].col_type, ColumnType::Blob);
    assert_eq!(columns[2].values.len(), 3);
    assert_eq!(decode_row_ts(&columns[2].values[0]), Some(1));
    assert_eq!(decode_row_ts(&columns[2].values[1]), Some(2));
    assert_eq!(decode_row_ts(&columns[2].values[2]), Some(3));
}

#[test]
fn block_ids_count_up() {
    let mut ids = BlockIdCounter::new();
    assert_eq!(allocate_block_id(&mut ids), 1);
    assert_eq!(allocate_block_id(&mut ids), 2);
    assert_eq!(peek_next_block_id(&ids), 3);
    set_next_block_id(&mut ids, u64::MAX);
    assert_eq!(allocate_block_id(&mut ids), u64::MAX);
    assert_eq!(peek_next_block_id(&ids), 0);
}

#[test]
fn a_block_map_tells_where_the_rows_are() {
    let config = FlushConfig { sst_size_bytes: 64 * 1024 * 1024, max_rows_per_block: 10 };
    let memtable = create_test_memtable(25);
    let result = flush(&memtable, &config, 1);
    assert_eq!(result.block_ids, vec![1, 2, 3]);
    assert_eq!(result.ssts.len(), 1);
    assert_eq!(result.ssts[0].id, 4);
    assert_eq!(result.bytes_written, result.ssts[0].bytes.len() as u64);
    let counts: Vec<usize> = result.block_map.iter().map(|info| info.row_count).collect();
    assert_eq!(counts, vec![10, 10, 5]);
    for (place, info) in result.block_map.iter().enumerate() {
        assert_eq!((info.sst_index, info.block_index), (0, place as u32));
    }
}

#[test]
fn the_newest_version_of_a_key_is_flushed() {
    let mut memtable = Memtable::new(1024);
    memtable.put(b"a".to_vec(), 4, Some(b"old".to_vec()));
    memtable.put(b"a".to_vec(), 9, Some(b"new".to_vec()));
    let result = flush(&memtable, &FlushConfig::default(), 1);
    assert_eq!(result.rows_flushed, 1);
    let data = &result.ssts[0].bytes;
    let index = SstBlockIndex::from_file_data(data).unwrap();
    let block = PaxBlock::deserialize(&data[..index.entries[0].block_len as usize]).unwrap();
    assert_eq!(block.read_column(1).unwrap(), vec![b"new".to_vec()]);
    assert_eq!(block.header.commit_timestamp, 9);
}

#[test]
fn blocks_do_not_mix_tables() {
    let tables = [ColumnarRegistration { prefix: b"t:".to_vec(), splitter: NumberSplitter }];
    let row = |key: &str, value: &[u8]| {
        (key.as_bytes().to_vec(), VersionedValue::new(1, Some(value.to_vec())))
    };
    let entries = vec![row("a", b"x"), row("t:1", &[1; 8]), row("t:2", &[2; 8]), row("z", b"y")];
    let blocks = split_into_blocks(&entries, &FlushConfig::default(), &tables);
    let counts: Vec<usize> = blocks.iter().map(|block| block.len()).collect();
    assert_eq!(counts, vec![1, 2, 1]);
    let bytes = build_block(blocks[1], &tables, 7, 1).unwrap();
    let block = PaxBlock::deserialize(&bytes).unwrap();
    assert_eq!(block.header.column_count, 5);
    assert_eq!(block.header.block_id, 7);
    assert_eq!(block.read_column(3).unwrap(), vec![vec![1; 8], vec![2; 8]]);
    let plain = PaxBlock::deserialize(&build_block(blocks[0], &tables, 8, 1).unwrap()).unwrap();
    assert_eq!(plain.header.column_count, 3);
    assert_eq!(
        plain.read_column(4).unwrap_err(),
        GalaxError::Internal(Fault::ColumnOutOfRange { index: 4, columns: 3 })
    );
}

#[test]
fn the_newest_timestamp_of_no_rows_is_the_default() {
    let none: Vec<(Vec<u8>, VersionedValue)> = Vec::new();
    assert_eq!(newest_timestamp(&none, 5), 5);
    let rows = vec![
        (b"a".to_vec(), VersionedValue::new(3, None)),
        (b"b".to_vec(), VersionedValue::new(8, None)),
    ];
    assert_eq!(newest_timestamp(&rows, 5), 8);
    assert_eq!(entry_bytes(&rows[0]), 1 + 16);
    assert_eq!(decode_row_ts(&[1, 0, 0]), None);
}
