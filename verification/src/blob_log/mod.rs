//! The blob log: large values are stored apart from the tree, under the hash of their
//! content.

pub mod entry;
pub mod gc;
pub mod laws;
pub mod log;
pub mod names;

pub use log::BlobLog;

use vstd::prelude::*;
use vstd::slice::slice_subrange;

use crate::bytes::{get_u32, get_u64, le_bytes, le_value, put_bytes, put_u32, put_u64};
use crate::bytes::{
    lemma_byte_range_values, lemma_le_bytes_len, lemma_le_bytes_mod, lemma_le_bytes_split,
    lemma_le_round_trip,
};
use crate::hash::xxh3_128_of;

verus! {

/// Number of writer queues.
pub const DEFAULT_NUM_QUEUES: usize = 4;

/// Length in bytes above which a value is stored apart.
pub const DEFAULT_BLOB_THRESHOLD: usize = 1024;

/// Length of a serialized [`BlobRef`].
pub const BLOB_REF_SIZE: usize = 20;

/// Length of a content hash.
pub const CONTENT_HASH_SIZE: usize = 16;

/// Length of a blob reference in the place of a value: tag, content hash, [`BlobRef`].
pub const BLOB_MARKER_SIZE: usize = 37;

/// First byte of a blob reference in the place of a value.
pub const BLOB_REF_TAG: u8 = 0xFF;

/// Where a value is in the blob log.
#[derive(Clone, Copy, PartialEq, Eq, Structural, Debug, Hash)]
pub struct BlobRef {
    /// The blob file.
    pub file_id: u64,
    /// Where its entry starts in the file.
    pub offset: u64,
    /// Length of the value in bytes.
    pub length: u32,
}

/// A blob reference as bytes.
pub open spec fn ref_bytes(blob_ref: BlobRef) -> Seq<u8> {
    le_bytes(blob_ref.file_id as nat, 8) + le_bytes(blob_ref.offset as nat, 8) + le_bytes(
        blob_ref.length as nat,
        4,
    )
}

/// The blob reference that bytes start with.
pub open spec fn parse_ref(data: Seq<u8>) -> Option<BlobRef> {
    if data.len() < BLOB_REF_SIZE {
        None
    } else {
        Some(
            BlobRef {
                file_id: le_value(data.subrange(0, 8)) as u64,
                offset: le_value(data.subrange(8, 16)) as u64,
                length: le_value(data.subrange(16, 20)) as u32,
            },
        )
    }
}

/// A blob reference is read back from its bytes, whatever follows them.
pub proof fn lemma_ref_round_trip(blob_ref: BlobRef, rest: Seq<u8>)
    ensures
        ref_bytes(blob_ref).len() == BLOB_REF_SIZE,
        parse_ref(ref_bytes(blob_ref) + rest) == Some(blob_ref),
{
    lemma_byte_range_values();
    lemma_le_round_trip(blob_ref.file_id as nat, 8);
    lemma_le_round_trip(blob_ref.offset as nat, 8);
    lemma_le_round_trip(blob_ref.length as nat, 4);
    let data = ref_bytes(blob_ref) + rest;
    assert(data.subrange(0, 8) =~= le_bytes(blob_ref.file_id as nat, 8));
    assert(data.subrange(8, 16) =~= le_bytes(blob_ref.offset as nat, 8));
    assert(data.subrange(16, 20) =~= le_bytes(blob_ref.length as nat, 4));
}

/// Copies the first bytes of `bytes` into an array.
fn to_hash_array(bytes: &[u8]) -> (array: [u8; CONTENT_HASH_SIZE])
    requires
        bytes@.len() >= CONTENT_HASH_SIZE,
    ensures
        array@ == bytes@.take(CONTENT_HASH_SIZE as int),
{
    let mut array: [u8; CONTENT_HASH_SIZE] = [0u8; CONTENT_HASH_SIZE];
    let mut i: usize = 0;
    while i < CONTENT_HASH_SIZE
        invariant
            i <= CONTENT_HASH_SIZE,
            bytes@.len() >= CONTENT_HASH_SIZE,
            array@.len() == CONTENT_HASH_SIZE,
            forall|k: int| 0 <= k < i ==> array@[k] == bytes@[k],
        decreases CONTENT_HASH_SIZE - i,
    {
        array[i] = bytes[i];
        i = i + 1;
    }
    assert(array@ =~= bytes@.take(CONTENT_HASH_SIZE as int));
    array
}

impl BlobRef {
    /// The reference as bytes.
    pub fn to_bytes(&self) -> (bytes: [u8; BLOB_REF_SIZE])
        ensures
            bytes@ == ref_bytes(*self),
    {
        let mut buf: Vec<u8> = Vec::new();
        put_u64(&mut buf, self.file_id);
        put_u64(&mut buf, self.offset);
        put_u32(&mut buf, self.length);
        proof {
            lemma_le_bytes_len(self.file_id as nat, 8);
            lemma_le_bytes_len(self.offset as nat, 8);
            lemma_le_bytes_len(self.length as nat, 4);
            assert(buf@ =~= ref_bytes(*self));
        }
        let mut bytes: [u8; BLOB_REF_SIZE] = [0u8; BLOB_REF_SIZE];
        let mut i: usize = 0;
        while i < BLOB_REF_SIZE
            invariant
                i <= BLOB_REF_SIZE,
                buf@.len() == BLOB_REF_SIZE,
                bytes@.len() == BLOB_REF_SIZE,
                forall|k: int| 0 <= k < i ==> bytes@[k] == buf@[k],
            decreases BLOB_REF_SIZE - i,
        {
            bytes[i] = buf[i];
            i = i + 1;
        }
        assert(bytes@ =~= buf@);
        bytes
    }

    /// Reads the reference that bytes start with.
    pub fn from_bytes(data: &[u8]) -> (blob_ref: Option<Self>)
        ensures
            blob_ref == parse_ref(data@),
    {
        if data.len() < BLOB_REF_SIZE {
            return None;
        }
        Some(
            BlobRef {
                file_id: get_u64(data, 0),
                offset: get_u64(data, 8),
                length: get_u32(data, 16),
            },
        )
    }
}

/// The content hash of a value: its 128-bit XXH3 hash, least significant byte first.
pub open spec fn hash_bytes(value: Seq<u8>) -> Seq<u8> {
    le_bytes(xxh3_128_of(value) as nat, 16)
}

/// The content hash of a value.
pub fn content_hash(data: &[u8]) -> (hash: [u8; CONTENT_HASH_SIZE])
    ensures
        hash@ == hash_bytes(data@),
{
    let hash: u128 = xxhash_rust::xxh3::xxh3_128(data);
    let low: u64 = (hash % 0x1_0000_0000_0000_0000) as u64;
    let high: u64 = (hash / 0x1_0000_0000_0000_0000) as u64;
    let mut buf: Vec<u8> = Vec::new();
    put_u64(&mut buf, low);
    put_u64(&mut buf, high);
    proof {
        lemma_byte_range_values();
        lemma_le_bytes_mod(hash as nat, 8);
        lemma_le_bytes_split(hash as nat, 8, 8);
        lemma_le_bytes_len(hash as nat, 16);
        assert(buf@ =~= hash_bytes(data@));
        assert(buf@.take(CONTENT_HASH_SIZE as int) =~= buf@);
    }
    to_hash_array(buf.as_slice())
}

/// A blob reference in the place of a value.
pub open spec fn marker(hash: Seq<u8>, blob_ref: BlobRef) -> Seq<u8> {
    seq![BLOB_REF_TAG] + hash + ref_bytes(blob_ref)
}

/// The blob reference that stands in the place of a value, if one does.
pub open spec fn parse_marker(value: Seq<u8>) -> Option<(Seq<u8>, BlobRef)> {
    if value.len() != BLOB_MARKER_SIZE || value[0] != BLOB_REF_TAG {
        None
    } else {
        match parse_ref(value.skip(17)) {
            Some(blob_ref) => Some((value.subrange(1, 17), blob_ref)),
            None => None,
        }
    }
}

/// A blob reference is read back from the place of a value.
pub proof fn lemma_marker_round_trip(hash: Seq<u8>, blob_ref: BlobRef)
    requires
        hash.len() == CONTENT_HASH_SIZE,
    ensures
        marker(hash, blob_ref).len() == BLOB_MARKER_SIZE,
        parse_marker(marker(hash, blob_ref)) == Some((hash, blob_ref)),
{
    lemma_ref_round_trip(blob_ref, Seq::empty());
    let value = marker(hash, blob_ref);
    assert(value.skip(17) =~= ref_bytes(blob_ref) + Seq::<u8>::empty());
    assert(value.subrange(1, 17) =~= hash);
}

/// A blob reference to stand in the place of a value.
pub fn encode_blob_ref(hash: &[u8; CONTENT_HASH_SIZE], blob_ref: &BlobRef) -> (value: Vec<u8>)
    ensures
        value@ == marker(hash@, *blob_ref),
{
    let mut value: Vec<u8> = Vec::new();
    value.push(BLOB_REF_TAG);
    put_bytes(&mut value, hash);
    put_bytes(&mut value, &blob_ref.to_bytes());
    assert(value@ =~= marker(hash@, *blob_ref));
    value
}

/// The blob reference that stands in the place of a value; `None` for an inline value.
pub fn decode_blob_ref(value: &[u8]) -> (decoded: Option<([u8; CONTENT_HASH_SIZE], BlobRef)>)
    ensures
        match decoded {
            Some((hash, blob_ref)) => parse_marker(value@) == Some((hash@, blob_ref)),
            None => parse_marker(value@) is None,
        },
{
    if value.len() != BLOB_MARKER_SIZE {
        return None;
    }
    if value[0] != BLOB_REF_TAG {
        return None;
    }
    let after_tag = slice_subrange(value, 1, BLOB_MARKER_SIZE);
    let hash = to_hash_array(after_tag);
    let tail = slice_subrange(value, 17, BLOB_MARKER_SIZE);
    proof {
        assert(after_tag@.take(16) =~= value@.subrange(1, 17));
        assert(tail@ =~= value@.skip(17));
    }
    match BlobRef::from_bytes(tail) {
        Some(blob_ref) => Some((hash, blob_ref)),
        None => None,
    }
}

/// Whether a value is stored apart.
pub fn should_separate(value: &[u8], threshold: usize) -> (separate: bool)
    ensures
        separate == (value@.len() > threshold),
{
    value.len() > threshold
}

} // verus!
