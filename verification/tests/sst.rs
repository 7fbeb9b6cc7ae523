//! Tests of the block index and the footer of an SST file.

use galaxdb_storage::error::{Artifact, Fault, GalaxError};
use galaxdb_storage::sst::{
    BlockIndexEntry, SstBlockIndex, SstPacker, SST_FOOTER_MAGIC, SST_FOOTER_MAGIC_V2,
    SST_FORMAT_VERSION,
};

#[test]
fn block_index_roundtrip() {
    let mut index = SstBlockIndex::new();
    index.add_block(0, 1024);
    index.add_block(1024, 2048);
    index.add_block(3072, 512);

    let index_offset = 3584u64; // after all blocks
    let serialized = index.serialize_with_footer(index_offset);

    // A full SST file: blocks + index + footer
    let mut file_data = vec![0u8; index_offset as usize]; // fake block data
    file_data.extend_from_slice(&serialized);

    let recovered = SstBlockIndex::from_file_data(&file_data).unwrap();
    assert_eq!(recovered.block_count(), 3);
    assert_eq!(recovered.entries[0].file_offset, 0);
    assert_eq!(recovered.entries[0].block_len, 1024);
    assert_eq!(recovered.entries[1].file_offset, 1024);
    assert_eq!(recovered.entries[1].block_len, 2048);
    assert_eq!(recovered.entries[2].file_offset, 3072);
    assert_eq!(recovered.entries[2].block_len, 512);
}

/// A footer without a version is still read.
#[test]
fn legacy_footer_still_reads() {
    let mut index = SstBlockIndex::new();
    index.add_block(0, 1024);
    index.add_block(1024, 2048);
    let index_offset = 3072u64;

    // Hand-serialize the index + a *legacy* footer (no format_version).
    let mut file_data = vec![0u8; index_offset as usize];
    file_data.extend_from_slice(&(index.entries.len() as u32).to_le_bytes());
    for e in &index.entries {
        file_data.extend_from_slice(&e.file_offset.to_le_bytes());
        file_data.extend_from_slice(&e.block_len.to_le_bytes());
    }
    file_data.extend_from_slice(&index_offset.to_le_bytes());
    file_data.extend_from_slice(&(index.entries.len() as u32).to_le_bytes());
    file_data.extend_from_slice(&SST_FOOTER_MAGIC.to_le_bytes()); // legacy SSTF

    let recovered = SstBlockIndex::from_file_data(&file_data).unwrap();
    assert_eq!(recovered.block_count(), 2);
    assert_eq!(recovered.entries[1].block_len, 2048);
}

/// A footer of a newer version is refused.
#[test]
fn future_footer_version_refused() {
    let mut index = SstBlockIndex::new();
    index.add_block(0, 512);
    let index_offset = 512u64;

    let mut file_data = vec![0u8; index_offset as usize];
    file_data.extend_from_slice(&index.serialize_with_footer(index_offset));

    // Bump the format_version (the 2 bytes just before the 4-byte magic).
    let end = file_data.len();
    let future = SST_FORMAT_VERSION + 1;
    file_data[end - 6..end - 4].copy_from_slice(&future.to_le_bytes());

    match SstBlockIndex::from_file_data(&file_data).err() {
        Some(GalaxError::FormatTooNew {
            artifact,
            found,
            current,
        }) => {
            assert_eq!(artifact, Artifact::Sst);
            assert_eq!(found, future);
            assert_eq!(current, SST_FORMAT_VERSION);
        }
        other => panic!("expected FormatTooNew, got {other:?}"),
    }
}

#[test]
fn get_block_by_index() {
    let mut index = SstBlockIndex::new();
    index.add_block(0, 100);
    index.add_block(100, 200);

    assert!(index.get_block(0).is_some());
    assert_eq!(index.get_block(0).unwrap().block_len, 100);
    assert_eq!(index.get_block(1).unwrap().file_offset, 100);
    assert!(index.get_block(2).is_none());
}

#[test]
fn bad_magic_rejected() {
    let data = vec![0u8; 20]; // all zeros, wrong magic
    assert!(SstBlockIndex::from_file_data(&data).is_err());
}

#[test]
fn too_small_rejected() {
    let data = vec![0u8; 10];
    assert!(SstBlockIndex::from_file_data(&data).is_err());
}

#[test]
fn a_footer_is_eighteen_bytes() {
    let index = SstBlockIndex::new();
    let bytes = index.serialize_with_footer(0);
    assert_eq!(bytes.len(), 4 + 18);
    assert_eq!(bytes[18..22], SST_FOOTER_MAGIC_V2.to_le_bytes());
    assert_eq!(SstBlockIndex::read_footer(&bytes), Ok((0, 0)));
}

#[test]
fn broken_files_are_refused() {
    assert_eq!(
        SstBlockIndex::read_footer(&[0; 15]),
        Err(GalaxError::Internal(Fault::FileTooSmall))
    );
    assert_eq!(
        SstBlockIndex::read_footer(&[0; 16]),
        Err(GalaxError::Internal(Fault::BadFooterMagic(0)))
    );
    let mut index = SstBlockIndex::new();
    index.add_block(0, 10);
    let mut file = index.serialize_with_footer(0);
    let end = file.len();
    file[end - 6..end - 4].copy_from_slice(&0u16.to_le_bytes());
    assert_eq!(
        SstBlockIndex::read_footer(&file),
        Err(GalaxError::FormatTooOld { artifact: Artifact::Sst, found: 0, oldest: 1 })
    );
    assert_eq!(
        SstBlockIndex::from_file_data(&index.serialize_with_footer(1)).unwrap_err(),
        GalaxError::Internal(Fault::IndexOutOfBounds)
    );
}

#[test]
fn packed_blocks_are_found_by_the_index() {
    let mut packer = SstPacker::new();
    packer.add(b"first");
    packer.add(b"");
    packer.add(b"third block");
    assert_eq!(packer.block_count(), 3);
    assert_eq!(packer.len(), 16);
    let file = packer.finish();
    let index = SstBlockIndex::from_file_data(&file).unwrap();
    assert_eq!(SstBlockIndex::read_footer(&file), Ok((16, 3)));
    assert_eq!(
        index.entries,
        vec![
            BlockIndexEntry { file_offset: 0, block_len: 5 },
            BlockIndexEntry { file_offset: 5, block_len: 0 },
            BlockIndexEntry { file_offset: 5, block_len: 11 },
        ]
    );
    assert_eq!(file[5..16], *b"third block");
}
