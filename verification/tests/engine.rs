//! Tests of the engine, with its files in memory.

use std::collections::BTreeMap;

use galaxdb_storage::column::ColumnType;
use galaxdb_storage::columnar::{
    data_column_index, validity_column_index, ColumnPredicate, ColumnarBatch, RowColumnSplitter,
};
use galaxdb_storage::engine::backup::{validate_backup, validate_sst, BackupFault, BackupFile};
use galaxdb_storage::engine::compact::{build_outputs, build_run, plan_compaction};
use galaxdb_storage::engine::kv::{
    decode_batch, encode_batch, encode_kv, key_range_overlaps_prefix,
};
use galaxdb_storage::engine::names::{
    is_backup_file, names_sst, parse_decimal, sst_file_name, sst_id_of_name,
};
use galaxdb_storage::engine::state::{FoundSst, Located, WalRecord, WalRecordType};
use galaxdb_storage::engine::{decode_kv, CompactionStats, Engine, EngineConfig};
use galaxdb_storage::error::{Fault, GalaxError};
use galaxdb_storage::flush::{
    allocate_block_id, peek_next_block_id, set_next_block_id, BlockIdCounter,
};
use galaxdb_storage::pax::point_read::read_value_from_raw_block;
use galaxdb_storage::pax::{PaxBlock, PruneOp};
use galaxdb_storage::sst::SstBlockIndex;

/// Splits a row value of the form `id_le(8 bytes) ++ name_bytes` into an
/// `Int64` column and a `Text` column.
struct IdNameSplitter;

impl RowColumnSplitter for IdNameSplitter {
    fn column_types(&self) -> Vec<ColumnType> {
        vec![ColumnType::Int64, ColumnType::Text]
    }

    fn split(&self, value: &[u8]) -> Option<Vec<Option<Vec<u8>>>> {
        if value.len() < 8 {
            return None;
        }
        Some(vec![Some(value[0..8].to_vec()), Some(value[8..].to_vec())])
    }
}

fn id_name_value(id: i64, name: &str) -> Vec<u8> {
    let mut v = id.to_le_bytes().to_vec();
    v.extend_from_slice(name.as_bytes());
    v
}

/// An engine, its block ids, its log and its files.
struct TestEngine {
    engine: Engine<IdNameSplitter>,
    ids: BlockIdCounter,
    log: Vec<(WalRecordType, Vec<u8>)>,
    files: BTreeMap<u64, Vec<u8>>,
}

fn test_engine() -> TestEngine {
    engine_with(EngineConfig::default())
}

fn engine_with(config: EngineConfig) -> TestEngine {
    TestEngine {
        engine: Engine::new(config, vec![], vec![]),
        ids: BlockIdCounter::new(),
        log: Vec::new(),
        files: BTreeMap::new(),
    }
}

impl TestEngine {
    /// An engine on the files and the log of this one.
    fn reopen(self) -> TestEngine {
        let found = self
            .files
            .iter()
            .map(|(id, data)| FoundSst { file_id: *id, data: Some(data.clone()) })
            .collect();
        let records = self
            .log
            .iter()
            .map(|(record_type, payload)| WalRecord {
                record_type: *record_type,
                payload: payload.clone(),
            })
            .collect();
        let mut ids = BlockIdCounter::new();
        set_next_block_id(&mut ids, self.files.keys().last().map_or(1, |id| id + 1));
        TestEngine {
            engine: Engine::new(EngineConfig::default(), found, records),
            ids,
            log: self.log,
            files: self.files,
        }
    }

    fn put_sync(&mut self, key: Vec<u8>, value: Vec<u8>) -> Result<(), GalaxError> {
        let timestamp = self.engine.next_ts();
        self.log.push((WalRecordType::RowPut, encode_kv(&key, &value)));
        self.engine.apply_put(timestamp, key, value);
        Ok(())
    }

    fn put(&mut self, key: Vec<u8>, value: Vec<u8>) -> Result<(), GalaxError> {
        self.put_sync(key, value)
    }

    fn delete(&mut self, key: &[u8]) -> Result<bool, GalaxError> {
        if !self.engine.contains(key) {
            return Ok(false);
        }
        let timestamp = self.engine.next_ts();
        self.log.push((WalRecordType::RowDelete, key.to_vec()));
        self.engine.apply_delete(timestamp, key);
        Ok(true)
    }

    fn get(&self, key: &[u8]) -> Option<Vec<u8>> {
        match self.engine.get(key) {
            Located::Absent => None,
            Located::Value(value) => Some(value),
            Located::Stored { file_id, block, row, encrypted } => {
                assert!(!encrypted);
                let start = block.file_offset as usize;
                let bytes = &self.files[&file_id][start..start + block.block_len as usize];
                read_value_from_raw_block(bytes, 1, row).ok()
            }
        }
    }

    fn flush_memtable(&mut self) -> Result<u64, GalaxError> {
        let Some(pending) = self.engine.begin_flush(&mut self.ids)? else {
            return Ok(0);
        };
        for file in &pending.flush.ssts {
            self.files.insert(file.id, file.bytes.clone());
        }
        Ok(self.engine.commit_flush(pending, false))
    }

    fn contents(&self) -> Vec<Option<Vec<u8>>> {
        let registry = self.engine.registry();
        (0..registry.len()).map(|i| self.files.get(&registry.entry(i).file_id).cloned()).collect()
    }

    fn compact(&mut self) -> Result<CompactionStats, GalaxError> {
        self.compact_keeping(&[])
    }

    fn compact_keeping(&mut self, pins: &[u64]) -> Result<CompactionStats, GalaxError> {
        let merged = self.engine.compaction_inputs();
        if merged.is_empty() {
            return Ok(self.engine.nothing_to_compact());
        }
        let inputs: Vec<u64> =
            merged.iter().map(|id| self.engine.registry().get(*id).unwrap().file_id).collect();
        let contents: Vec<Vec<u8>> = inputs.iter().map(|id| self.files[id].clone()).collect();
        let plan = self.engine.plan_compaction(&contents, pins)?;
        let mut file_ids = Vec::new();
        for output in &plan.outputs {
            let id = allocate_block_id(&mut self.ids);
            self.files.insert(id, output.bytes.clone());
            file_ids.push(id);
        }
        let stats = self.engine.commit_compaction(&merged, &plan, &file_ids, false);
        for id in inputs {
            self.files.remove(&id);
        }
        Ok(stats)
    }

    fn register_columnar_table(&mut self, prefix: Vec<u8>, splitter: IdNameSplitter) {
        self.engine.register_columnar_table(prefix, splitter);
    }

    fn scan_all(&self) -> Vec<(Vec<u8>, Vec<u8>)> {
        self.engine.scan_all(&self.contents())
    }

    fn scan_all_with_prefix(&self, prefix: Option<&[u8]>) -> Vec<(Vec<u8>, Vec<u8>)> {
        self.engine.scan_all_with_prefix(&self.contents(), prefix)
    }

    fn scan_all_at(&self, read_ts: u64) -> Vec<(Vec<u8>, Vec<u8>, u64)> {
        self.engine.scan_all_at(&self.contents(), read_ts)
    }

    fn scan_columnar(
        &self,
        prefix: &[u8],
        projection: &[usize],
        predicates: &[ColumnPredicate],
        read_ts: u64,
    ) -> Result<ColumnarBatch, GalaxError> {
        self.engine.scan_columnar(&self.contents(), prefix, projection, predicates, read_ts)
    }

    fn next_ts_for_tests(&self) -> u64 {
        self.engine.next_ts_for_tests()
    }

    fn row_count(&self) -> u64 {
        self.engine.row_count()
    }

    fn index_count(&self) -> usize {
        self.engine.index_count()
    }
}

#[test]
fn columnar_flush_appends_typed_columns_and_keeps_base_columns() {
    let mut engine = test_engine();
    engine.register_columnar_table(b"t:".to_vec(), IdNameSplitter);

    // Three rows of the columnar table `t`.
    let rows = [(1i64, "alice"), (2, "bob"), (3, "carol")];
    for (id, name) in rows {
        let key = format!("t:{id}").into_bytes();
        engine.put_sync(key, id_name_value(id, name)).unwrap();
    }
    engine.flush_memtable().unwrap();

    // Base columns must still serve point reads + scans unchanged.
    assert_eq!(engine.get(b"t:1"), Some(id_name_value(1, "alice")));
    assert_eq!(engine.scan_all().len(), 3);

    // Inspect the on-disk SST: the columnar block must carry the base
    // [key, value, ts] columns PLUS [id(Int64), name(Text)].
    let mut checked_columnar = false;
    for data in engine.files.values() {
        let index = SstBlockIndex::from_file_data(data).unwrap();
        for be in &index.entries {
            let start = be.file_offset as usize;
            let end = start + be.block_len as usize;
            let block = PaxBlock::deserialize(&data[start..end]).unwrap();
            assert_eq!(
                block.header.column_count, 7,
                "columnar block = key,value,ts + (id,id_valid) + (name,name_valid)"
            );
            let ids = block.read_column(data_column_index(0)).unwrap();
            let names = block
                .read_column(data_column_index(1))
                .unwrap();
            // Row order within the block is primary-key sorted: t:1,t:2,t:3.
            assert_eq!(i64::from_le_bytes(ids[0].clone().try_into().unwrap()), 1);
            assert_eq!(names[0], b"alice");
            assert_eq!(i64::from_le_bytes(ids[2].clone().try_into().unwrap()), 3);
            assert_eq!(names[2], b"carol");
            // Validity companions: all present.
            let id_valid = block
                .read_column(validity_column_index(0))
                .unwrap();
            assert_eq!(id_valid[0], vec![1u8]);
            checked_columnar = true;
        }
    }
    assert!(checked_columnar, "expected at least one columnar SST block");
}

#[test]
fn unregistered_table_stays_three_column_legacy() {
    let mut engine = test_engine();
    // No columnar registration to legacy 3-column blocks, unchanged.
    engine.put_sync(b"u:1".to_vec(), b"hello".to_vec()).unwrap();
    engine.flush_memtable().unwrap();

    assert_eq!(engine.get(b"u:1"), Some(b"hello".to_vec()));
    for data in engine.files.values() {
        let index = SstBlockIndex::from_file_data(data).unwrap();
        for be in &index.entries {
            let start = be.file_offset as usize;
            let end = start + be.block_len as usize;
            let block = PaxBlock::deserialize(&data[start..end]).unwrap();
            assert_eq!(block.header.column_count, 3, "legacy block = key,value,ts");
        }
    }
}

#[test]
fn columnar_layout_survives_compaction() {
    let mut engine = test_engine();
    engine.register_columnar_table(b"t:".to_vec(), IdNameSplitter);

    // Two flushes to two SSTs, each a columnar block.
    engine.put_sync(b"t:1".to_vec(), id_name_value(1, "alice")).unwrap();
    engine.put_sync(b"t:2".to_vec(), id_name_value(2, "bob")).unwrap();
    engine.flush_memtable().unwrap();
    engine.put_sync(b"t:3".to_vec(), id_name_value(3, "carol")).unwrap();
    engine.put_sync(b"t:4".to_vec(), id_name_value(4, "dave")).unwrap();
    engine.flush_memtable().unwrap();

    // Explicitly merge.
    engine.compact().unwrap();

    // Data still correct after compaction.
    assert_eq!(engine.get(b"t:1"), Some(id_name_value(1, "alice")));
    assert_eq!(engine.get(b"t:4"), Some(id_name_value(4, "dave")));
    assert_eq!(engine.scan_all().len(), 4);

    // Every columnar block in the (post-compaction) SSTs must still carry
    // the appended typed columns - the layout is preserved, not reverted.
    let mut saw_columnar_block = false;
    for data in engine.files.values() {
        let Ok(index) = SstBlockIndex::from_file_data(data) else {
            continue;
        };
        for be in &index.entries {
            let start = be.file_offset as usize;
            let end = start + be.block_len as usize;
            let block = PaxBlock::deserialize(&data[start..end]).unwrap();
            // All rows here belong to columnar table `t`, so every block
            // that holds rows must be a 5-column columnar block.
            if block.header.row_count > 0 {
                assert_eq!(
                    block.header.column_count, 7,
                    "compacted columnar block must keep base + (data,validity) pairs"
                );
                saw_columnar_block = true;
            }
        }
    }
    assert!(saw_columnar_block, "expected a columnar block after compaction");
}

#[test]
fn scan_columnar_reads_typed_columns_projection_and_memtable() {
    let mut engine = test_engine();
    engine.register_columnar_table(b"t:".to_vec(), IdNameSplitter);

    for (id, name) in [(1i64, "alice"), (2, "bob"), (3, "carol")] {
        engine
            .put_sync(format!("t:{id}").into_bytes(), id_name_value(id, name))
            .unwrap();
    }
    engine.flush_memtable().unwrap();
    // A memtable-only row (exercises the splitter bridge for unflushed data).
    engine.put_sync(b"t:4".to_vec(), id_name_value(4, "dave")).unwrap();
    // An MVCC override of t:1 still in the memtable (newer version wins).
    engine.put_sync(b"t:1".to_vec(), id_name_value(1, "alice2")).unwrap();

    let batch = engine.scan_columnar(b"t:", &[], &[], u64::MAX).unwrap();
    assert_eq!(batch.num_rows, 4);
    assert_eq!(batch.columns.len(), 2);
    let ids: Vec<i64> = batch.columns[0]
        .1
        .iter()
        .map(|c| i64::from_le_bytes(c.clone().unwrap().try_into().unwrap()))
        .collect();
    assert_eq!(ids, vec![1, 2, 3, 4]); // sorted by key
    let names: Vec<String> = batch.columns[1]
        .1
        .iter()
        .map(|c| String::from_utf8(c.clone().unwrap()).unwrap())
        .collect();
    assert_eq!(names, vec!["alice2", "bob", "carol", "dave"]); // memtable override wins

    // Projection: only the name column.
    let only_name = engine.scan_columnar(b"t:", &[1], &[], u64::MAX).unwrap();
    assert_eq!(only_name.columns.len(), 1);
    assert_eq!(only_name.num_rows, 4);
    assert_eq!(only_name.columns[0].0, ColumnType::Text);
}

#[test]
fn scan_columnar_prunes_blocks_by_zone_map() {
    let mut engine = test_engine();
    engine.register_columnar_table(b"t:".to_vec(), IdNameSplitter);
    for (id, name) in [(10i64, "a"), (20, "b"), (30, "c")] {
        engine
            .put_sync(format!("t:{id}").into_bytes(), id_name_value(id, name))
            .unwrap();
    }
    engine.flush_memtable().unwrap();

    // id > 100: the block's id range [10,30] cannot match to pruned to 0 rows.
    let prune = ColumnPredicate {
        column: 0,
        op: PruneOp::Gt,
        value: 100i64.to_le_bytes().to_vec(),
    };
    let pruned = engine
        .scan_columnar(b"t:", &[], std::slice::from_ref(&prune), u64::MAX)
        .unwrap();
    assert_eq!(pruned.num_rows, 0);

    // id > 5: range [10,30] can match to not pruned to all 3 rows returned.
    let keep = ColumnPredicate {
        column: 0,
        op: PruneOp::Gt,
        value: 5i64.to_le_bytes().to_vec(),
    };
    let kept = engine
        .scan_columnar(b"t:", &[], std::slice::from_ref(&keep), u64::MAX)
        .unwrap();
    assert_eq!(kept.num_rows, 3);
}

#[test]
fn scan_columnar_bridges_legacy_blocks() {
    // A block written BEFORE the table was registered
    // columnar is a legacy 3-column block. scan_columnar must still read
    // it by decoding the row blob via the splitter (the
    // bridge), so existing data dirs keep working.
    let mut engine = test_engine();
    engine.put_sync(b"t:1".to_vec(), id_name_value(1, "alice")).unwrap();
    engine.flush_memtable().unwrap(); // legacy 3-column block

    // Register only now, then scan: the legacy block is bridged.
    engine.register_columnar_table(b"t:".to_vec(), IdNameSplitter);
    let batch = engine.scan_columnar(b"t:", &[], &[], u64::MAX).unwrap();
    assert_eq!(batch.num_rows, 1);
    assert_eq!(
        i64::from_le_bytes(batch.columns[0].1[0].clone().unwrap().try_into().unwrap()),
        1
    );
    assert_eq!(batch.columns[1].1[0].clone().unwrap(), b"alice");
}

#[test]
fn put_and_get_roundtrip() {
    let mut engine = test_engine();
    engine.put(b"key1".to_vec(), b"value1".to_vec()).unwrap();

    let result = engine.get(b"key1");
    assert_eq!(result, Some(b"value1".to_vec()));
}

#[test]
fn get_nonexistent_returns_none() {
    let engine = test_engine();
    assert_eq!(engine.get(b"nope"), None);
}

#[test]
fn put_multiple_keys() {
    let mut engine = test_engine();
    for i in 0..100u32 {
        let key = format!("key-{:04}", i).into_bytes();
        let value = format!("value-{:04}", i).into_bytes();
        engine.put(key, value).unwrap();
    }

    assert_eq!(engine.row_count(), 100);
    assert_eq!(engine.index_count(), 100);

    for i in 0..100u32 {
        let key = format!("key-{:04}", i).into_bytes();
        let expected = format!("value-{:04}", i).into_bytes();
        assert_eq!(engine.get(&key), Some(expected));
    }
}

#[test]
fn delete_removes_key() {
    let mut engine = test_engine();
    engine.put(b"key1".to_vec(), b"value1".to_vec()).unwrap();
    assert!(engine.get(b"key1").is_some());

    let deleted = engine.delete(b"key1").unwrap();
    assert!(deleted);
    assert_eq!(engine.get(b"key1"), None);
}

#[test]
fn delete_nonexistent_returns_false() {
    let mut engine = test_engine();
    let deleted = engine.delete(b"nope").unwrap();
    assert!(!deleted);
}

#[test]
fn overwrite_key() {
    let mut engine = test_engine();
    engine.put(b"key1".to_vec(), b"v1".to_vec()).unwrap();
    engine.put(b"key1".to_vec(), b"v2".to_vec()).unwrap();

    assert_eq!(engine.get(b"key1"), Some(b"v2".to_vec()));
}

#[test]
fn key_range_overlaps_prefix_rejects_below_prefix() {
    // zone_max "aaz" is strictly less than prefix "bb" to skip.
    assert!(!key_range_overlaps_prefix(b"aaa", b"aaz", b"bb"));
}

#[test]
fn key_range_overlaps_prefix_rejects_above_prefix() {
    // zone_min "cc..." starts past "bb..." to skip.
    assert!(!key_range_overlaps_prefix(b"cc1", b"cc9", b"bb"));
}

#[test]
fn key_range_overlaps_prefix_accepts_overlap() {
    // zone_min "bb5" starts with "bb" to keep.
    assert!(key_range_overlaps_prefix(b"bb5", b"cc9", b"bb"));
}

#[test]
fn key_range_overlaps_prefix_accepts_straddle() {
    // zone_min "aa" is below, zone_max "cc" is above - block straddles the prefix namespace.
    assert!(key_range_overlaps_prefix(b"aa", b"cc", b"bb"));
}

#[test]
fn key_range_overlaps_prefix_accepts_empty_zone_map() {
    // Legacy blocks without zone maps to conservatively keep.
    assert!(key_range_overlaps_prefix(b"", b"", b"bb"));
}

#[test]
fn scan_with_prefix_after_flush_filters_other_tables() {
    // Insert rows for two tables (different prefixes), flush, scan
    // with prefix "t1:" - only t1 rows should come back, and the
    // SST block for "t2:" should be skipped via zone-map pruning.
    let mut engine = test_engine();
    for i in 0..50u32 {
        let key = format!("t1:{:04}", i).into_bytes();
        let value = format!("t1v{}", i).into_bytes();
        engine.put(key, value).unwrap();
    }
    for i in 0..50u32 {
        let key = format!("t2:{:04}", i).into_bytes();
        let value = format!("t2v{}", i).into_bytes();
        engine.put(key, value).unwrap();
    }
    engine.flush_memtable().unwrap();

    let t1_rows = engine.scan_all_with_prefix(Some(b"t1:"));
    assert_eq!(t1_rows.len(), 50, "prefix scan must find all t1 rows");
    for (k, _) in &t1_rows {
        assert!(
            k.starts_with(b"t1:"),
            "unexpected key in t1 prefix scan: {:?}",
            k
        );
    }

    let t2_rows = engine.scan_all_with_prefix(Some(b"t2:"));
    assert_eq!(t2_rows.len(), 50);
    for (k, _) in &t2_rows {
        assert!(k.starts_with(b"t2:"));
    }
}

#[test]
fn scan_all_at_sees_memtable_and_sst() {
    // AT VERSION must see rows from both the memtable MVCC chain
    // and flushed SSTs. Write, flush, write more, then snapshot
    // each state.
    let mut engine = test_engine();
    engine.put(b"k1".to_vec(), b"v1".to_vec()).unwrap();
    engine.put(b"k2".to_vec(), b"v2".to_vec()).unwrap();
    engine.flush_memtable().unwrap();
    // At this point both keys live in an SST block.
    let ts_after_flush = engine.next_ts_for_tests() - 1;

    engine.put(b"k3".to_vec(), b"v3".to_vec()).unwrap();
    let ts_after_k3 = engine.next_ts_for_tests() - 1;

    // Snapshot at the flush boundary - must see k1 and k2 from SST,
    // but not k3 (written later and still in memtable).
    let rows = engine.scan_all_at(ts_after_flush);
    let keys: Vec<&[u8]> = rows.iter().map(|(k, _, _)| k.as_slice()).collect();
    assert_eq!(keys, vec![b"k1".as_slice(), b"k2".as_slice()]);

    // Snapshot after k3 - must see all three.
    let rows = engine.scan_all_at(ts_after_k3);
    let keys: Vec<&[u8]> = rows.iter().map(|(k, _, _)| k.as_slice()).collect();
    assert_eq!(keys, vec![b"k1".as_slice(), b"k2".as_slice(), b"k3".as_slice()]);
}

#[test]
fn scan_all_returns_live_rows() {
    let mut engine = test_engine();
    engine.put(b"a".to_vec(), b"1".to_vec()).unwrap();
    engine.put(b"b".to_vec(), b"2".to_vec()).unwrap();
    engine.put(b"c".to_vec(), b"3".to_vec()).unwrap();

    let rows = engine.scan_all();
    assert_eq!(rows.len(), 3);

    // Should be sorted by key
    let keys: Vec<&[u8]> = rows.iter().map(|(k, _)| k.as_slice()).collect();
    assert_eq!(keys, vec![b"a".as_slice(), b"b".as_slice(), b"c".as_slice()]);
}

#[test]
fn scan_excludes_deleted_rows() {
    let mut engine = test_engine();
    engine.put(b"a".to_vec(), b"1".to_vec()).unwrap();
    engine.put(b"b".to_vec(), b"2".to_vec()).unwrap();
    engine.delete(b"a").unwrap();

    let rows = engine.scan_all();
    assert_eq!(rows.len(), 1);
    assert_eq!(rows[0].0, b"b");
}

#[test]
fn flush_and_read_from_sst() {
    let mut engine = test_engine();

    // Write 100 rows
    for i in 0..100u32 {
        let key = format!("sst-key-{:04}", i).into_bytes();
        let value = format!("sst-value-{:04}", i).into_bytes();
        engine.put(key, value).unwrap();
    }

    assert_eq!(engine.row_count(), 100);

    // Verify reads work from memtable
    assert_eq!(
        engine.get(b"sst-key-0050"),
        Some(b"sst-value-0050".to_vec())
    );

    // Flush to SST
    let flushed = engine.flush_memtable().unwrap();
    assert_eq!(flushed, 100);

    // Reads should now come from SST (ART points to SST location)
    let result = engine.get(b"sst-key-0050");
    assert_eq!(result, Some(b"sst-value-0050".to_vec()));

    // Verify all 100 rows are readable from SST
    for i in 0..100u32 {
        let key = format!("sst-key-{:04}", i).into_bytes();
        let expected = format!("sst-value-{:04}", i).into_bytes();
        assert_eq!(engine.get(&key), Some(expected), "failed at key {}", i);
    }
}

#[test]
fn encode_decode_kv_roundtrip() {
    let key = b"mykey";
    let value = b"myvalue";
    let encoded = encode_kv(key, value);
    let (dk, dv) = decode_kv(&encoded).unwrap();
    assert_eq!(dk, key);
    assert_eq!(dv, value);
}

#[test]
fn decode_kv_empty_value() {
    let encoded = encode_kv(b"key", b"");
    let (dk, dv) = decode_kv(&encoded).unwrap();
    assert_eq!(dk, b"key");
    assert!(dv.is_empty());
}

#[test]
fn decode_kv_invalid_returns_none() {
    assert!(decode_kv(&[]).is_none());
    assert!(decode_kv(&[0, 0, 0]).is_none());
}

#[test]
fn repeated_flush_preserves_all_keys() {
    let mut engine = test_engine();

    // Phase 1: Write 100 rows, flush
    for i in 0..100u32 {
        let key = format!("phase1-key-{:04}", i).into_bytes();
        let value = format!("phase1-value-{:04}", i).into_bytes();
        engine.put(key, value).unwrap();
    }
    let flushed1 = engine.flush_memtable().unwrap();
    assert_eq!(flushed1, 100);

    // Phase 2: Write 100 MORE rows (different keys), flush again
    for i in 0..100u32 {
        let key = format!("phase2-key-{:04}", i).into_bytes();
        let value = format!("phase2-value-{:04}", i).into_bytes();
        engine.put(key, value).unwrap();
    }
    let flushed2 = engine.flush_memtable().unwrap();
    assert_eq!(flushed2, 100);

    // Phase 3: Write 50 MORE rows, flush a third time
    for i in 0..50u32 {
        let key = format!("phase3-key-{:04}", i).into_bytes();
        let value = format!("phase3-value-{:04}", i).into_bytes();
        engine.put(key, value).unwrap();
    }
    let flushed3 = engine.flush_memtable().unwrap();
    assert_eq!(flushed3, 50);

    // ALL 250 keys must be readable
    let mut missing = Vec::new();
    for i in 0..100u32 {
        let key = format!("phase1-key-{:04}", i).into_bytes();
        if engine.get(&key).is_none() {
            missing.push(format!("phase1-key-{:04}", i));
        }
    }
    for i in 0..100u32 {
        let key = format!("phase2-key-{:04}", i).into_bytes();
        if engine.get(&key).is_none() {
            missing.push(format!("phase2-key-{:04}", i));
        }
    }
    for i in 0..50u32 {
        let key = format!("phase3-key-{:04}", i).into_bytes();
        if engine.get(&key).is_none() {
            missing.push(format!("phase3-key-{:04}", i));
        }
    }

    assert!(
        missing.is_empty(),
        "missing {} keys after repeated flushes: {:?}",
        missing.len(),
        &missing[..missing.len().min(10)]
    );

    // Verify correct values
    assert_eq!(
        engine.get(b"phase1-key-0050"),
        Some(b"phase1-value-0050".to_vec())
    );
    assert_eq!(
        engine.get(b"phase2-key-0099"),
        Some(b"phase2-value-0099".to_vec())
    );
    assert_eq!(
        engine.get(b"phase3-key-0049"),
        Some(b"phase3-value-0049".to_vec())
    );
}

// Timestamps, versions and deletions

#[test]
fn timestamps_count_up_from_one() {
    let mut engine = test_engine();
    assert_eq!(engine.engine.latest_commit_ts(), 0);
    engine.put(b"a".to_vec(), b"1".to_vec()).unwrap();
    engine.put(b"b".to_vec(), b"2".to_vec()).unwrap();
    assert_eq!(engine.engine.latest_commit_ts(), 2);
    assert_eq!(engine.next_ts_for_tests(), 3);
}

#[test]
fn a_batch_is_written_in_order() {
    let mut engine = test_engine();
    let rows = vec![
        (b"a".to_vec(), b"1".to_vec()),
        (b"b".to_vec(), b"2".to_vec()),
        (b"a".to_vec(), b"3".to_vec()),
    ];
    assert_eq!(engine.engine.apply_batch(&rows), 3);
    assert_eq!(engine.get(b"a"), Some(b"3".to_vec()));
    assert_eq!(engine.row_count(), 3);
    assert_eq!(engine.index_count(), 2);
    assert_eq!(encode_batch(&rows[..1]), [1, 0, 0, 0, 1, 0, 0, 0, b'a', 1, 0, 0, 0, b'1'].to_vec());
}

#[test]
fn a_deletion_hides_a_flushed_row() {
    let mut engine = test_engine();
    engine.put(b"a".to_vec(), b"1".to_vec()).unwrap();
    engine.put(b"b".to_vec(), b"2".to_vec()).unwrap();
    engine.flush_memtable().unwrap();
    let before = engine.engine.latest_commit_ts();
    engine.delete(b"a").unwrap();
    assert_eq!(engine.get(b"a"), None);
    assert_eq!(engine.scan_all(), vec![(b"b".to_vec(), b"2".to_vec())]);
    assert_eq!(engine.scan_all_at(before).len(), 2);
    engine.flush_memtable().unwrap();
    assert_eq!(engine.get(b"a"), None);
    assert_eq!(engine.scan_all(), vec![(b"b".to_vec(), b"2".to_vec())]);
    assert_eq!(engine.scan_all_at(u64::MAX).len(), 1);
}

#[test]
fn older_versions_are_read_in_flushed_files() {
    let mut engine = test_engine();
    engine.put(b"k".to_vec(), b"old".to_vec()).unwrap();
    engine.flush_memtable().unwrap();
    let first = engine.engine.latest_commit_ts();
    engine.put(b"k".to_vec(), b"new".to_vec()).unwrap();
    engine.flush_memtable().unwrap();
    assert_eq!(engine.scan_all_at(first), vec![(b"k".to_vec(), b"old".to_vec(), first)]);
    assert_eq!(engine.scan_all(), vec![(b"k".to_vec(), b"new".to_vec())]);
    assert_eq!(engine.get(b"k"), Some(b"new".to_vec()));
}

#[test]
fn snapshot_checksums_are_those_of_the_rows() {
    let mut engine = test_engine();
    engine.put(b"k".to_vec(), b"v".to_vec()).unwrap();
    let sums = engine.engine.snapshot_checksums(&engine.contents(), u64::MAX);
    assert_eq!(sums.len(), 1);
    assert_ne!(sums[0], 0);
    engine.flush_memtable().unwrap();
    assert_eq!(engine.engine.snapshot_checksums(&engine.contents(), u64::MAX), sums);
    assert!(engine.engine.snapshot_checksums(&engine.contents(), 0).is_empty());
}

// Flushing and compaction

#[test]
fn a_flush_changes_no_scan() {
    let mut engine = test_engine();
    engine.put(b"a:1".to_vec(), b"one".to_vec()).unwrap();
    engine.put(b"a:2".to_vec(), b"two".to_vec()).unwrap();
    engine.put(b"b:1".to_vec(), b"three".to_vec()).unwrap();
    engine.flush_memtable().unwrap();
    engine.put(b"a:1".to_vec(), b"newer".to_vec()).unwrap();
    engine.put(b"b:2".to_vec(), b"four".to_vec()).unwrap();
    engine.delete(b"a:2").unwrap();
    let all = engine.scan_all_with_prefix(None);
    let some = engine.scan_all_with_prefix(Some(b"a:"));
    assert_eq!(
        all,
        vec![
            (b"a:1".to_vec(), b"newer".to_vec()),
            (b"b:1".to_vec(), b"three".to_vec()),
            (b"b:2".to_vec(), b"four".to_vec()),
        ]
    );
    assert_eq!(some, vec![(b"a:1".to_vec(), b"newer".to_vec())]);
    engine.flush_memtable().unwrap();
    assert_eq!(engine.scan_all_with_prefix(None), all);
    assert_eq!(engine.scan_all_with_prefix(Some(b"a:")), some);
}

#[test]
fn there_is_nothing_to_flush_in_a_new_engine() {
    let mut engine = test_engine();
    assert_eq!(engine.flush_memtable(), Ok(0));
    assert_eq!(engine.engine.sst_count(), 0);
    assert!(engine.engine.active().iter_all().is_empty());
}

#[test]
fn compaction_keeps_the_newest_versions_and_the_pinned_ones() {
    for (pinned, kept) in [(false, 1), (true, 2)] {
        let mut engine = test_engine();
        engine.put(b"k".to_vec(), b"old".to_vec()).unwrap();
        engine.flush_memtable().unwrap();
        let first = engine.engine.latest_commit_ts();
        engine.put(b"k".to_vec(), b"new".to_vec()).unwrap();
        engine.flush_memtable().unwrap();
        let pins = if pinned { vec![first] } else { vec![] };
        let stats = engine.compact_keeping(&pins).unwrap();
        assert_eq!(stats.input_ssts, 2);
        assert_eq!(stats.output_ssts, kept);
        assert_eq!(stats.keys_retained, 1);
        assert_eq!(stats.versions_gc_dropped, 2 - kept);
        assert_eq!(engine.get(b"k"), Some(b"new".to_vec()));
        assert_eq!(engine.scan_all_at(first).len(), kept - 1);
    }
}

#[test]
fn a_compaction_changes_no_scan() {
    let mut engine = test_engine();
    for round in 0..3u8 {
        engine.put(b"a:1".to_vec(), vec![round + 1]).unwrap();
        engine.put(vec![b'b', b':', b'0' + round], b"kept".to_vec()).unwrap();
        engine.put(b"a:2".to_vec(), b"gone".to_vec()).unwrap();
        if round == 2 {
            engine.delete(b"a:2").unwrap();
        }
        engine.flush_memtable().unwrap();
    }
    let all = engine.scan_all_with_prefix(None);
    let some = engine.scan_all_with_prefix(Some(b"a:"));
    assert_eq!(all.len(), 4);
    assert_eq!(some, vec![(b"a:1".to_vec(), vec![3])]);
    engine.compact().unwrap();
    assert_eq!(engine.scan_all_with_prefix(None), all);
    assert_eq!(engine.scan_all_with_prefix(Some(b"a:")), some);
}

#[test]
fn one_file_is_not_compacted() {
    let mut engine = test_engine();
    engine.put(b"k".to_vec(), b"v".to_vec()).unwrap();
    engine.flush_memtable().unwrap();
    let stats = engine.compact().unwrap();
    assert_eq!((stats.input_ssts, stats.output_ssts, stats.keys_retained), (1, 1, 0));
}

#[test]
fn a_backlog_is_counted_from_the_trigger_on() {
    let mut engine =
        engine_with(EngineConfig { l0_compaction_trigger: 1, ..EngineConfig::default() });
    for key in [b"a", b"b"] {
        assert_eq!(engine.engine.compaction_backlog(&[10, 20]), 0);
        engine.put(key.to_vec(), b"v".to_vec()).unwrap();
        engine.flush_memtable().unwrap();
        assert!(engine.engine.needs_compaction());
    }
    assert_eq!(engine.engine.compaction_backlog(&[10, 20]), 30);
    assert_eq!(engine.engine.compaction_backlog(&[u64::MAX, 20]), u64::MAX);
}

#[test]
fn blocks_that_cannot_be_read_are_left_out_of_a_compaction() {
    let mut engine = test_engine();
    for key in [b"a", b"b"] {
        engine.put(key.to_vec(), b"v".to_vec()).unwrap();
        engine.flush_memtable().unwrap();
    }
    engine.files.values_mut().next().unwrap()[30] ^= 1;
    let stats = engine.compact().unwrap();
    assert_eq!((stats.input_ssts, stats.output_ssts, stats.keys_retained), (2, 1, 1));
    assert_eq!(engine.scan_all(), vec![(b"b".to_vec(), b"v".to_vec())]);
}

#[test]
fn a_missing_file_is_passed_over_by_a_scan() {
    let mut engine = test_engine();
    engine.put(b"a".to_vec(), b"1".to_vec()).unwrap();
    engine.flush_memtable().unwrap();
    engine.put(b"b".to_vec(), b"2".to_vec()).unwrap();
    engine.files.clear();
    assert_eq!(engine.scan_all(), vec![(b"b".to_vec(), b"2".to_vec())]);
}

// Opening an engine

#[test]
fn a_reopened_engine_replays_its_log() {
    let mut engine = test_engine();
    engine.put(b"a".to_vec(), b"1".to_vec()).unwrap();
    engine.put(b"b".to_vec(), b"2".to_vec()).unwrap();
    engine.delete(b"a").unwrap();
    let engine = engine.reopen();
    assert_eq!(engine.get(b"a"), None);
    assert_eq!(engine.get(b"b"), Some(b"2".to_vec()));
    assert_eq!(engine.row_count(), 2);
    assert_eq!(engine.engine.latest_commit_ts(), 3);
}

#[test]
fn a_reopened_engine_scans_its_files() {
    let mut engine = test_engine();
    engine.put(b"a".to_vec(), b"1".to_vec()).unwrap();
    engine.flush_memtable().unwrap();
    engine.log.clear();
    let mut engine = engine.reopen();
    assert_eq!(engine.engine.sst_count(), 1);
    assert_eq!(engine.scan_all(), vec![(b"a".to_vec(), b"1".to_vec())]);
    engine.put(b"b".to_vec(), b"2".to_vec()).unwrap();
    engine.flush_memtable().unwrap();
    assert_eq!(engine.files.len(), 2);
    assert_eq!(engine.scan_all().len(), 2);
}

#[test]
fn a_reopened_engine_finds_flushed_rows() {
    let mut engine = test_engine();
    engine.put(b"a".to_vec(), b"1".to_vec()).unwrap();
    engine.put(b"b".to_vec(), b"2".to_vec()).unwrap();
    engine.put(b"c".to_vec(), b"3".to_vec()).unwrap();
    engine.flush_memtable().unwrap();
    engine.put(b"a".to_vec(), b"4".to_vec()).unwrap();
    engine.delete(b"b").unwrap();
    engine.flush_memtable().unwrap();
    let latest = engine.engine.latest_commit_ts();
    engine.log.clear();
    let mut engine = engine.reopen();
    assert_eq!(engine.get(b"a"), Some(b"4".to_vec()));
    assert_eq!(engine.get(b"b"), None);
    assert_eq!(engine.get(b"c"), Some(b"3".to_vec()));
    assert_eq!(engine.index_count(), 2);
    assert_eq!(engine.engine.latest_commit_ts(), latest);
    engine.put(b"c".to_vec(), b"5".to_vec()).unwrap();
    engine.flush_memtable().unwrap();
    assert_eq!(engine.get(b"c"), Some(b"5".to_vec()));
    assert_eq!(
        engine.scan_all(),
        vec![(b"a".to_vec(), b"4".to_vec()), (b"c".to_vec(), b"5".to_vec())]
    );
}

#[test]
fn a_reopened_engine_replays_over_its_files() {
    let mut engine = test_engine();
    engine.put(b"a".to_vec(), b"1".to_vec()).unwrap();
    engine.put(b"b".to_vec(), b"2".to_vec()).unwrap();
    engine.flush_memtable().unwrap();
    engine.log.clear();
    engine.put(b"a".to_vec(), b"3".to_vec()).unwrap();
    engine.delete(b"b").unwrap();
    let engine = engine.reopen();
    assert_eq!(engine.get(b"a"), Some(b"3".to_vec()));
    assert_eq!(engine.get(b"b"), None);
    assert!(!engine.engine.contains(b"b"));
    assert_eq!(engine.scan_all(), vec![(b"a".to_vec(), b"3".to_vec())]);
}

#[test]
fn a_batch_is_replayed_row_by_row() {
    let rows = vec![(b"a".to_vec(), b"1".to_vec()), (b"".to_vec(), b"22".to_vec())];
    let payload = encode_batch(&rows);
    assert_eq!(decode_batch(&payload), Some(rows));
    assert_eq!(decode_batch(&payload[..payload.len() - 1]), None);
    assert_eq!(decode_batch(&[0, 0, 0]), None);
    assert_eq!(decode_batch(&[0, 0, 0, 0, 1]), None);
    let mut engine = test_engine();
    engine.log.push((WalRecordType::RowBatch, payload));
    let engine = engine.reopen();
    assert_eq!(engine.get(b"a"), Some(b"1".to_vec()));
    assert_eq!(engine.get(b""), Some(b"22".to_vec()));
    assert_eq!(engine.row_count(), 2);
    assert_eq!(engine.engine.latest_commit_ts(), 2);
}

// Tables stored by column

#[test]
fn columnar_scans_refuse_what_the_table_does_not_have() {
    let mut engine = test_engine();
    assert_eq!(
        engine.scan_columnar(b"t:", &[], &[], 1).unwrap_err(),
        GalaxError::Internal(Fault::NoColumnarTable { prefix: b"t:".to_vec() })
    );
    engine.register_columnar_table(b"t:".to_vec(), IdNameSplitter);
    assert_eq!(
        engine.scan_columnar(b"t:", &[2], &[], 1).unwrap_err(),
        GalaxError::Internal(Fault::ProjectionOutOfRange { index: 2, columns: 2 })
    );
    assert_eq!(engine.engine.columnar_registrations().len(), 1);
    engine.engine.unregister_columnar_table(b"t:");
    assert_eq!(engine.engine.columnar_registrations().len(), 0);
}

#[test]
fn a_columnar_scan_reads_at_a_timestamp() {
    let mut engine = test_engine();
    engine.register_columnar_table(b"t:".to_vec(), IdNameSplitter);
    engine.put(b"t:1".to_vec(), id_name_value(1, "old")).unwrap();
    engine.flush_memtable().unwrap();
    let first = engine.engine.latest_commit_ts();
    engine.put(b"t:1".to_vec(), id_name_value(1, "new")).unwrap();
    engine.put(b"t:2".to_vec(), id_name_value(2, "b")).unwrap();
    engine.delete(b"t:2").unwrap();
    let then = engine.scan_columnar(b"t:", &[1], &[], first).unwrap();
    assert_eq!(then.columns[0].1, vec![Some(b"old".to_vec())]);
    let now = engine.scan_columnar(b"t:", &[1], &[], u64::MAX).unwrap();
    assert_eq!(now.columns[0].1, vec![Some(b"new".to_vec())]);
}

// Names and backups

#[test]
fn names_of_sst_files() {
    assert_eq!(sst_file_name(7), b"sst_7.pax".to_vec());
    assert!(names_sst(b"sst_7.pax"));
    assert!(!names_sst(b"sst_7.tmp"));
    assert_eq!(sst_id_of_name(b"sst_12.pax"), Some(12));
    assert_eq!(sst_id_of_name(b"sst_x.pax"), None);
    assert_eq!(parse_decimal(b"18446744073709551616"), None);
    assert!(is_backup_file(b"sst_1.pax"));
}

#[test]
fn a_backup_is_read_through() {
    let mut engine = engine_with(EngineConfig { max_rows_per_sst: 100, ..EngineConfig::default() });
    for i in 0..250u32 {
        engine.put(format!("k{i:03}").into_bytes(), b"v".to_vec()).unwrap();
    }
    engine.flush_memtable().unwrap();
    let data = engine.files.values().next().unwrap().clone();
    assert_eq!(validate_sst(&data), Ok(3));
    let good = BackupFile { name: b"sst_1.pax".to_vec(), data: data.clone() };
    let log = BackupFile { name: b"wal.log".to_vec(), data: vec![1, 2, 3] };
    assert_eq!(validate_backup(&[good, log]), Ok((1, 3)));

    let mut damaged = data.clone();
    damaged[30] ^= 1;
    let bad = BackupFile { name: b"sst_1.pax".to_vec(), data: damaged };
    assert!(matches!(
        validate_backup(&[bad]),
        Err((0, BackupFault::CorruptBlock { block: 0, error: GalaxError::ChecksumMismatch { .. } }))
    ));
    assert_eq!(
        validate_sst(&[0; 3]),
        Err(BackupFault::CorruptIndex(GalaxError::Internal(Fault::FileTooSmall)))
    );
}

#[test]
fn a_block_beyond_its_file_is_reported_with_its_end() {
    let mut index = SstBlockIndex::new();
    index.add_block(0, 1000);
    let data = index.serialize_with_footer(0);
    assert_eq!(
        validate_sst(&data),
        Err(BackupFault::BlockOverrun { block: 0, end: 1000, file_len: data.len() })
    );
    let mut index = SstBlockIndex::new();
    index.add_block(u64::MAX, 2);
    let data = index.serialize_with_footer(0);
    assert_eq!(
        validate_sst(&data),
        Err(BackupFault::BlockOverrun { block: 0, end: 18446744073709551617, file_len: data.len() })
    );
}

// Nothing to build

#[test]
fn building_nothing_succeeds() {
    assert_eq!(build_run::<IdNameSplitter>(&[], 1, 1, &[]).unwrap().len(), 0);
    assert_eq!(build_outputs::<IdNameSplitter>(&[], 4, 1, 1, &[]).unwrap().len(), 0);
    let plan = plan_compaction::<IdNameSplitter>(&[], &[], 1, 1, 1, &[]).unwrap();
    assert_eq!(plan.outputs.len(), 0);
    assert_eq!(plan.keys_retained, 0);
    assert_eq!(plan.versions_gc_dropped, 0);

    let mut engine = test_engine();
    let next = peek_next_block_id(&engine.ids);
    assert!(engine.engine.begin_flush(&mut engine.ids).unwrap().is_none());
    assert_eq!(peek_next_block_id(&engine.ids), next);
}

#[test]
fn compacting_deleted_rows_leaves_no_files() {
    let mut engine = test_engine();
    engine.put(b"a".to_vec(), b"1".to_vec()).unwrap();
    engine.flush_memtable().unwrap();
    engine.delete(b"a").unwrap();
    engine.flush_memtable().unwrap();
    let stats = engine.compact().unwrap();
    assert_eq!(stats.input_ssts, 2);
    assert_eq!(stats.output_ssts, 0);
    assert_eq!(stats.keys_retained, 0);
    assert_eq!(stats.versions_gc_dropped, 2);
}
