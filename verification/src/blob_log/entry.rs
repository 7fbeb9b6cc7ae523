//! The entries of a blob file.
//!
//! An entry is a magic number, a format version, the length of the value, its content
//! hash, the value, and a checksum over all of these. Entries without a version have a
//! magic number of their own.

use vstd::prelude::*;
use vstd::slice::{slice_subrange, slice_to_vec};

use crate::blob_log::{content_hash, hash_bytes, BlobRef};
use crate::bytes::{bytes_equal, get_u16, get_u32, get_u64, le_bytes, le_value};
use crate::bytes::{lemma_byte_range_values, lemma_le_bytes_len, lemma_le_round_trip};
use crate::bytes::{put_bytes, put_u16, put_u32, put_u64};
use crate::error::{Artifact, Fault, GalaxError, GalaxResult};
use crate::hash::xxh3_64_of;

verus! {

/// Magic number of an entry without a version.
pub const BLOB_ENTRY_MAGIC: u32 = 0x424C4F42;

/// Magic number of an entry with a version.
pub const BLOB_ENTRY_MAGIC_V2: u32 = 0x424C4F56;

/// Version of the entries that are written.
pub const BLOB_FORMAT_VERSION: u16 = 2;

/// Oldest version that is read.
pub const BLOB_FORMAT_OLDEST: u16 = 1;

/// Length of what stands before the value in an entry without a version.
pub const BLOB_LEGACY_HEADER_SIZE: usize = 24;

/// Length of what stands before the value in an entry.
pub const BLOB_ENTRY_HEADER_SIZE: usize = 26;

/// Length of the checksum behind the value.
pub const BLOB_ENTRY_FOOTER_SIZE: usize = 8;

/// What the checksum of an entry is over. The length is written in four bytes.
pub open spec fn entry_body(value: Seq<u8>) -> Seq<u8> {
    le_bytes(BLOB_ENTRY_MAGIC_V2 as nat, 4) + le_bytes(BLOB_FORMAT_VERSION as nat, 2) + le_bytes(
        (value.len() as u32) as nat,
        4,
    ) + hash_bytes(value) + value
}

/// The entry of a value.
pub open spec fn entry_bytes(value: Seq<u8>) -> Seq<u8> {
    entry_body(value) + le_bytes(xxh3_64_of(entry_body(value)) as nat, 8)
}

/// The value of the entry that `data` starts with, where its length field stands at
/// `at`.
pub open spec fn parse_fields(data: Seq<u8>, at: int, length: u32) -> GalaxResult<Seq<u8>> {
    let found = le_value(data.subrange(at, at + 4)) as u32;
    let start = at + 20;
    let end = start + length;
    if found != length {
        Err(GalaxError::Internal(Fault::BlobLengthMismatch { expected: length, found }))
    } else if data.len() < end + BLOB_ENTRY_FOOTER_SIZE {
        Err(GalaxError::UnexpectedEof)
    } else {
        let stored = le_value(data.subrange(end, end + 8)) as u64;
        let computed = xxh3_64_of(data.take(end));
        let value = data.subrange(start, end);
        if stored != computed {
            Err(GalaxError::ChecksumMismatch { expected: stored, actual: computed })
        } else if data.subrange(at + 4, start) != hash_bytes(value) {
            Err(GalaxError::Internal(Fault::BlobContentMismatch))
        } else {
            Ok(value)
        }
    }
}

/// The value of the entry that `data` starts with, for a reference with this length.
pub open spec fn parse_entry(data: Seq<u8>, length: u32) -> GalaxResult<Seq<u8>> {
    if data.len() < BLOB_LEGACY_HEADER_SIZE {
        Err(GalaxError::UnexpectedEof)
    } else {
        let magic = le_value(data.subrange(0, 4)) as u32;
        if magic == BLOB_ENTRY_MAGIC {
            parse_fields(data, 4, length)
        } else if magic != BLOB_ENTRY_MAGIC_V2 {
            Err(GalaxError::Internal(Fault::BlobMagicMismatch { found: magic }))
        } else if data.len() < BLOB_ENTRY_HEADER_SIZE {
            Err(GalaxError::UnexpectedEof)
        } else {
            let version = le_value(data.subrange(4, 6)) as u16;
            if version > BLOB_FORMAT_VERSION {
                Err(GalaxError::FormatTooNew {
                    artifact: Artifact::Blob,
                    found: version,
                    current: BLOB_FORMAT_VERSION,
                })
            } else if version < BLOB_FORMAT_OLDEST {
                Err(GalaxError::FormatTooOld {
                    artifact: Artifact::Blob,
                    found: version,
                    oldest: BLOB_FORMAT_OLDEST,
                })
            } else {
                parse_fields(data, 6, length)
            }
        }
    }
}

/// Length of an entry.
pub proof fn lemma_entry_len(value: Seq<u8>)
    ensures
        entry_body(value).len() == BLOB_ENTRY_HEADER_SIZE + value.len(),
        entry_bytes(value).len() == BLOB_ENTRY_HEADER_SIZE + value.len() + BLOB_ENTRY_FOOTER_SIZE,
{
    lemma_le_bytes_len(BLOB_ENTRY_MAGIC_V2 as nat, 4);
    lemma_le_bytes_len(BLOB_FORMAT_VERSION as nat, 2);
    lemma_le_bytes_len((value.len() as u32) as nat, 4);
    lemma_le_bytes_len(crate::hash::xxh3_128_of(value) as nat, 16);
    lemma_le_bytes_len(xxh3_64_of(entry_body(value)) as nat, 8);
}

/// A value is read back from its entry, whatever follows the entry.
pub proof fn lemma_entry_round_trip(value: Seq<u8>, rest: Seq<u8>)
    requires
        value.len() <= u32::MAX,
    ensures
        parse_entry(entry_bytes(value) + rest, value.len() as u32) == Ok::<Seq<u8>, GalaxError>(
            value,
        ),
{
    let data = entry_bytes(value) + rest;
    let body = entry_body(value);
    let magic = le_bytes(BLOB_ENTRY_MAGIC_V2 as nat, 4);
    let version = le_bytes(BLOB_FORMAT_VERSION as nat, 2);
    let length = le_bytes((value.len() as u32) as nat, 4);
    let hash = hash_bytes(value);
    let checksum = le_bytes(xxh3_64_of(body) as nat, 8);
    let n = value.len() as int;
    lemma_entry_len(value);
    lemma_byte_range_values();
    lemma_le_round_trip(BLOB_ENTRY_MAGIC_V2 as nat, 4);
    lemma_le_round_trip(BLOB_FORMAT_VERSION as nat, 2);
    lemma_le_round_trip((value.len() as u32) as nat, 4);
    lemma_le_round_trip(xxh3_64_of(body) as nat, 8);
    lemma_le_bytes_len(crate::hash::xxh3_128_of(value) as nat, 16);
    assert(data =~= magic + version + length + hash + value + checksum + rest);
    assert(data.subrange(0, 4) =~= magic);
    assert(data.subrange(4, 6) =~= version);
    assert(data.subrange(6, 10) =~= length);
    assert(data.subrange(10, 26) =~= hash);
    assert(data.subrange(26, 26 + n) =~= value);
    assert(data.subrange(26 + n, 34 + n) =~= checksum);
    assert(data.take(26 + n) =~= body);
}

/// The entry of a value.
pub fn encode_entry(value: &[u8]) -> (entry: Vec<u8>)
    ensures
        entry@ == entry_bytes(value@),
{
    let hash = content_hash(value);
    let mut entry: Vec<u8> = Vec::new();
    put_u32(&mut entry, BLOB_ENTRY_MAGIC_V2);
    put_u16(&mut entry, BLOB_FORMAT_VERSION);
    put_u32(&mut entry, #[verifier::truncate] (value.len() as u32));
    put_bytes(&mut entry, &hash);
    put_bytes(&mut entry, value);
    assert(entry@ =~= entry_body(value@));
    let checksum: u64 = xxhash_rust::xxh3::xxh3_64(entry.as_slice());
    put_u64(&mut entry, checksum);
    entry
}

/// Reads the fields of the entry that `data` starts with, from its length on.
fn decode_fields(data: &[u8], at: usize, length: u32) -> (result: GalaxResult<Vec<u8>>)
    requires
        at <= 6,
        at + 20 <= data@.len(),
    ensures
        match result {
            Ok(value) => parse_fields(data@, at as int, length) == Ok::<Seq<u8>, GalaxError>(
                value@,
            ),
            Err(e) => parse_fields(data@, at as int, length) == Err::<Seq<u8>, GalaxError>(e),
        },
{
    let found: u32 = get_u32(data, at);
    if found != length {
        return Err(GalaxError::Internal(Fault::BlobLengthMismatch { expected: length, found }));
    }
    let start: usize = at + 20;
    let left: usize = data.len() - start;
    if (left as u64) < length as u64 + 8 {
        return Err(GalaxError::UnexpectedEof);
    }
    let end: usize = start + length as usize;
    let stored: u64 = get_u64(data, end);
    let covered = slice_subrange(data, 0, end);
    assert(covered@ =~= data@.take(end as int));
    let computed: u64 = xxhash_rust::xxh3::xxh3_64(covered);
    if stored != computed {
        return Err(GalaxError::ChecksumMismatch { expected: stored, actual: computed });
    }
    let value = slice_subrange(data, start, end);
    let hash = content_hash(value);
    if !bytes_equal(slice_subrange(data, at + 4, start), &hash) {
        return Err(GalaxError::Internal(Fault::BlobContentMismatch));
    }
    Ok(slice_to_vec(value))
}

/// Reads the value of the entry that `data` starts with: the bytes of a blob file from
/// the offset of the reference on.
pub fn decode_entry(data: &[u8], blob_ref: &BlobRef) -> (result: GalaxResult<Vec<u8>>)
    ensures
        match result {
            Ok(value) => parse_entry(data@, blob_ref.length) == Ok::<Seq<u8>, GalaxError>(value@),
            Err(e) => parse_entry(data@, blob_ref.length) == Err::<Seq<u8>, GalaxError>(e),
        },
{
    if data.len() < BLOB_LEGACY_HEADER_SIZE {
        return Err(GalaxError::UnexpectedEof);
    }
    let magic: u32 = get_u32(data, 0);
    if magic == BLOB_ENTRY_MAGIC {
        return decode_fields(data, 4, blob_ref.length);
    }
    if magic != BLOB_ENTRY_MAGIC_V2 {
        return Err(GalaxError::Internal(Fault::BlobMagicMismatch { found: magic }));
    }
    if data.len() < BLOB_ENTRY_HEADER_SIZE {
        return Err(GalaxError::UnexpectedEof);
    }
    let version: u16 = get_u16(data, 4);
    if version > BLOB_FORMAT_VERSION {
        return Err(
            GalaxError::FormatTooNew {
                artifact: Artifact::Blob,
                found: version,
                current: BLOB_FORMAT_VERSION,
            },
        );
    }
    if version < BLOB_FORMAT_OLDEST {
        return Err(GalaxError::FormatTooOld {
            artifact: Artifact::Blob,
            found: version,
            oldest: BLOB_FORMAT_OLDEST,
        });
    }
    decode_fields(data, 6, blob_ref.length)
}

} // verus!
