//! Tests of what is done when the disk is full, with the reserve file in memory.

use galaxdb_storage::disk_full::{
    next_chunk, reserve_file_name, DiskFullHandler, DiskFullStep, RESERVE_CHUNK,
};

/// Size of the reserve file.
const TEST_RESERVE_SIZE: u64 = 4 * 1024;

/// A handler and its reserve file.
struct TestDisk {
    handler: DiskFullHandler,
    reserve: Option<Vec<u8>>,
}

impl TestDisk {
    fn init(size: u64) -> Self {
        let reserve = Some(Self::make_reserve(size));
        TestDisk { handler: DiskFullHandler::init(size), reserve }
    }

    fn make_reserve(size: u64) -> Vec<u8> {
        let mut file = Vec::new();
        let mut remaining = size;
        while let Some(length) = next_chunk(remaining) {
            file.extend_from_slice(&vec![0u8; length]);
            remaining -= length as u64;
        }
        file
    }

    fn handle_disk_full(&mut self) {
        match self.handler.handle_disk_full(self.reserve.is_some()) {
            DiskFullStep::Nothing => return,
            DiskFullStep::DeleteReserve => self.reserve = None,
            DiskFullStep::Block => {}
        }
        self.handler.block_writes();
    }

    fn recover(&mut self) {
        if self.handler.recover() {
            self.reserve = Some(Self::make_reserve(self.handler.reserve_size()));
            self.handler.unblock_writes();
        }
    }

    fn reserve_len(&self) -> Option<u64> {
        self.reserve.as_ref().map(|file| file.len() as u64)
    }
}

#[test]
fn init_creates_reserve_file_with_correct_size() {
    let disk = TestDisk::init(TEST_RESERVE_SIZE);
    assert_eq!(disk.reserve_len(), Some(TEST_RESERVE_SIZE));
}

#[test]
fn init_not_in_disk_full_mode() {
    let disk = TestDisk::init(TEST_RESERVE_SIZE);
    assert!(!disk.handler.is_disk_full());
}

#[test]
fn reserve_file_name_is_correct() {
    assert_eq!(reserve_file_name(), b"_galaxdb_reserve".to_vec());
}

#[test]
fn reserve_size_accessor_returns_configured_value() {
    let disk = TestDisk::init(1234);
    assert_eq!(disk.handler.reserve_size(), 1234);
}

#[test]
fn handle_disk_full_deletes_reserve_file() {
    let mut disk = TestDisk::init(TEST_RESERVE_SIZE);
    assert!(disk.reserve.is_some());
    disk.handle_disk_full();
    assert!(disk.reserve.is_none());
}

#[test]
fn handle_disk_full_sets_flag() {
    let mut disk = TestDisk::init(TEST_RESERVE_SIZE);
    assert!(!disk.handler.is_disk_full());
    disk.handle_disk_full();
    assert!(disk.handler.is_disk_full());
}

#[test]
fn handle_disk_full_is_idempotent() {
    let mut disk = TestDisk::init(TEST_RESERVE_SIZE);
    disk.handle_disk_full();
    // The second call does nothing, though the file is gone.
    disk.handle_disk_full();
    assert!(disk.handler.is_disk_full());
}

#[test]
fn writes_blocked_after_disk_full() {
    let mut disk = TestDisk::init(TEST_RESERVE_SIZE);
    disk.handle_disk_full();
    assert!(disk.handler.is_disk_full());
}

#[test]
fn recover_recreates_reserve_file_and_unblocks_writes() {
    let mut disk = TestDisk::init(TEST_RESERVE_SIZE);
    disk.handle_disk_full();
    assert!(disk.handler.is_disk_full());
    assert!(disk.reserve.is_none());

    disk.recover();
    assert!(!disk.handler.is_disk_full());
    assert_eq!(disk.reserve_len(), Some(TEST_RESERVE_SIZE));
}

#[test]
fn recover_is_noop_when_not_in_disk_full_mode() {
    let mut disk = TestDisk::init(TEST_RESERVE_SIZE);
    disk.recover();
    assert!(!disk.handler.is_disk_full());
    assert!(disk.reserve.is_some());
}

#[test]
fn full_lifecycle_init_diskfull_recover() {
    let mut disk = TestDisk::init(TEST_RESERVE_SIZE);
    assert!(!disk.handler.is_disk_full());
    assert!(disk.reserve.is_some());

    disk.handle_disk_full();
    assert!(disk.handler.is_disk_full());
    assert!(disk.reserve.is_none());

    disk.recover();
    assert!(!disk.handler.is_disk_full());
    assert_eq!(disk.reserve_len(), Some(TEST_RESERVE_SIZE));
}

#[test]
fn disk_full_gauge_sets_to_one_when_tripped() {
    let mut disk = TestDisk::init(TEST_RESERVE_SIZE);
    assert_eq!(disk.handler.disk_full_gauge(), 0);
    disk.handle_disk_full();
    assert_eq!(disk.handler.disk_full_gauge(), 1);
}

#[test]
fn disk_full_gauge_sets_to_zero_after_recovery() {
    let mut disk = TestDisk::init(TEST_RESERVE_SIZE);
    disk.handle_disk_full();
    assert_eq!(disk.handler.disk_full_gauge(), 1);
    disk.recover();
    assert_eq!(disk.handler.disk_full_gauge(), 0);
}

#[test]
fn a_missing_reserve_file_does_not_keep_writes_from_being_blocked() {
    let mut disk = TestDisk::init(TEST_RESERVE_SIZE);
    disk.reserve = None;
    assert_eq!(disk.handler.handle_disk_full(false), DiskFullStep::Block);
    disk.handle_disk_full();
    assert!(disk.handler.is_disk_full());
    assert_eq!(disk.handler.handle_disk_full(true), DiskFullStep::Nothing);
}

#[test]
fn a_reserve_file_is_written_in_chunks() {
    assert_eq!(next_chunk(0), None);
    assert_eq!(next_chunk(1), Some(1));
    assert_eq!(next_chunk(RESERVE_CHUNK as u64), Some(RESERVE_CHUNK));
    assert_eq!(next_chunk(RESERVE_CHUNK as u64 + 5), Some(RESERVE_CHUNK));
    assert_eq!(TestDisk::init(200_001).reserve_len(), Some(200_001));
}
