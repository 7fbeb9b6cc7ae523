//! What the stored bytes look like, and what is refused when they do not.

use vstd::arithmetic::power2::pow2;
use vstd::prelude::*;

use crate::blob_log::entry::{entry_body, entry_bytes, lemma_entry_len, parse_entry};
use crate::blob_log::{hash_bytes, marker, parse_marker, parse_ref, ref_bytes, BlobRef};
use crate::bloom::{bit_place, FilterView, SstFilterView};
use crate::bytes::{
    le_bytes, le_value, lemma_byte_range_values, lemma_le_bytes_len, lemma_le_bytes_of_value,
    lemma_le_round_trip,
};
use crate::column::ColumnType;
use crate::engine::kv::{
    batch_bytes, batch_row_bytes, batch_rows_bytes, kv_bytes, parse_batch, parse_kv, parse_part,
    parse_rows,
};
use crate::error::{Artifact, Fault, GalaxError};
use crate::hash::xxh3_64_of;
use crate::pax::block::{parse_block, row_offsets_of, row_size, rows_size, ColumnView};
use crate::pax::codec::{chunk_of, zstd_frame};
use crate::pax::framing::framed;
use crate::pax::header::{header_bytes, type_byte, HeaderView};
use crate::pax::point_read::value_reads;
use crate::pax::CodecId;
use crate::sst::{index_bytes, parse_index, BlockIndexEntry};

verus! {

// Log payloads

/// A row in the log: four bytes with the length of the key, the key, and the rest is the
/// value.
pub proof fn lemma_kv_layout(key: Seq<u8>, value: Seq<u8>)
    requires
        key.len() <= u32::MAX,
    ensures
        ({
            let payload = kv_bytes(key, value);
            let end = 4 + key.len() as int;
            &&& payload.len() == end + value.len()
            &&& le_value(payload.subrange(0, 4)) == key.len()
            &&& payload.subrange(4, end) == key
            &&& payload.subrange(end, payload.len() as int) == value
        }),
{
    lemma_byte_range_values();
    lemma_le_round_trip(key.len(), 4);
    let payload = kv_bytes(key, value);
    let end = 4 + key.len() as int;
    assert(payload.subrange(0, 4) =~= le_bytes(key.len(), 4));
    assert(payload.subrange(4, end) =~= key);
    assert(payload.subrange(end, payload.len() as int) =~= value);
}

/// A log payload is read as a row only if that row is written as this payload, and a payload
/// that ends within its key is refused.
pub proof fn lemma_kv_faithful(payload: Seq<u8>)
    ensures
        parse_kv(payload) matches Some((key, value)) ==> kv_bytes(key, value) == payload,
        parse_kv(payload) is None <==> payload.len() < 4 || payload.len() < 4 + le_value(
            payload.subrange(0, 4),
        ),
{
    if payload.len() >= 4 {
        assert(payload.subrange(0, 4) =~= payload.take(4));
        lemma_le_bytes_of_value(payload.take(4));
        if let Some((key, value)) = parse_kv(payload) {
            assert(kv_bytes(key, value) =~= payload);
        }
    }
}

/// A batch in the log: four bytes with the number of rows, then each row with the lengths of
/// its key and of its value in four bytes before them.
pub proof fn lemma_batch_layout(rows: Seq<(Vec<u8>, Vec<u8>)>, row: (Vec<u8>, Vec<u8>))
    requires
        rows.len() < u32::MAX,
        row.0@.len() <= u32::MAX,
        row.1@.len() <= u32::MAX,
    ensures
        ({
            let fewer = batch_bytes(rows);
            let more = batch_bytes(rows.push(row));
            let at = fewer.len() as int;
            let middle = at + 4 + row.0@.len();
            let end = middle + 4 + row.1@.len();
            &&& rows.len() == 0 ==> at == 4
            &&& le_value(more.subrange(0, 4)) == rows.len() + 1
            &&& more.subrange(4, at) == fewer.subrange(4, at)
            &&& le_value(more.subrange(at, at + 4)) == row.0@.len()
            &&& more.subrange(at + 4, middle) == row.0@
            &&& le_value(more.subrange(middle, middle + 4)) == row.1@.len()
            &&& more.subrange(middle + 4, end) == row.1@
            &&& more.len() == end
        }),
{
    lemma_byte_range_values();
    lemma_le_round_trip(rows.len(), 4);
    lemma_le_round_trip(rows.len() + 1, 4);
    lemma_le_round_trip(row.0@.len(), 4);
    lemma_le_round_trip(row.1@.len(), 4);
    let all = rows.push(row);
    let fewer = batch_bytes(rows);
    let more = batch_bytes(all);
    let at = fewer.len() as int;
    let middle = at + 4 + row.0@.len();
    let end = middle + 4 + row.1@.len();
    assert(all.drop_last() =~= rows);
    assert(batch_rows_bytes(all) == batch_rows_bytes(rows) + batch_row_bytes(row.0@, row.1@));
    assert(more.subrange(0, 4) =~= le_bytes(rows.len() + 1, 4));
    assert(more.subrange(4, at) =~= fewer.subrange(4, at));
    assert(more.subrange(at, at + 4) =~= le_bytes(row.0@.len(), 4));
    assert(more.subrange(at + 4, middle) =~= row.0@);
    assert(more.subrange(middle, middle + 4) =~= le_bytes(row.1@.len(), 4));
    assert(more.subrange(middle + 4, end) =~= row.1@);
}

proof fn lemma_part_stays(data: Seq<u8>, extra: Seq<u8>, pos: int)
    requires
        0 <= pos,
        parse_part(data, pos) is Some,
    ensures
        parse_part(data + extra, pos) == parse_part(data, pos),
        pos <= (parse_part(data, pos)->0).1 <= data.len(),
{
    let whole = data + extra;
    assert(whole.subrange(pos, pos + 4) =~= data.subrange(pos, pos + 4));
    let len = le_value(data.subrange(pos, pos + 4)) as int;
    assert(whole.subrange(pos + 4, pos + 4 + len) =~= data.subrange(pos + 4, pos + 4 + len));
}

proof fn lemma_rows_end(data: Seq<u8>, extra: Seq<u8>, pos: int, count: nat)
    requires
        0 <= pos,
        parse_rows(data, pos, count) is Some,
        extra.len() > 0,
    ensures
        parse_rows(data, pos, count)->0.len() == count,
        parse_rows(data + extra, pos, count) is None,
    decreases count,
{
    if count > 0 {
        let middle = (parse_part(data, pos)->0).1;
        lemma_part_stays(data, extra, pos);
        lemma_part_stays(data, extra, middle);
        let end = (parse_part(data, middle)->0).1;
        lemma_rows_end(data, extra, end, (count - 1) as nat);
    }
}

/// A payload is read as a batch only if it has as many rows as it says, and nothing may
/// follow them.
pub proof fn lemma_batch_ends(payload: Seq<u8>, extra: Seq<u8>)
    requires
        parse_batch(payload) is Some,
        extra.len() > 0,
    ensures
        parse_batch(payload)->0.len() == le_value(payload.subrange(0, 4)),
        parse_batch(payload + extra) is None,
{
    assert(payload.take(4) =~= payload.subrange(0, 4));
    assert((payload + extra).take(4) =~= payload.take(4));
    lemma_rows_end(payload, extra, 4, le_value(payload.take(4)));
}

// Blob log

/// A blob reference as bytes: file, offset and length, in 8, 8 and 4 bytes. In the place of
/// a value a byte of its own and the content hash stand in front of it, and nothing else that
/// is not as long or starts otherwise is taken for one.
pub proof fn lemma_ref_layout(blob_ref: BlobRef, hash: Seq<u8>, value: Seq<u8>)
    requires
        hash.len() == 16,
    ensures
        ({
            let bytes = ref_bytes(blob_ref);
            let stored = marker(hash, blob_ref);
            &&& bytes.len() == 20
            &&& le_value(bytes.subrange(0, 8)) == blob_ref.file_id
            &&& le_value(bytes.subrange(8, 16)) == blob_ref.offset
            &&& le_value(bytes.subrange(16, 20)) == blob_ref.length
            &&& stored.len() == 37
            &&& stored[0] == 0xff
            &&& stored.subrange(1, 17) == hash
            &&& stored.subrange(17, 37) == bytes
            &&& parse_marker(value) is Some <==> value.len() == 37 && value[0] == 0xff
            &&& parse_ref(value) is Some <==> value.len() >= 20
        }),
{
    lemma_byte_range_values();
    lemma_le_round_trip(blob_ref.file_id as nat, 8);
    lemma_le_round_trip(blob_ref.offset as nat, 8);
    lemma_le_round_trip(blob_ref.length as nat, 4);
    let bytes = ref_bytes(blob_ref);
    let stored = marker(hash, blob_ref);
    assert(bytes.subrange(0, 8) =~= le_bytes(blob_ref.file_id as nat, 8));
    assert(bytes.subrange(8, 16) =~= le_bytes(blob_ref.offset as nat, 8));
    assert(bytes.subrange(16, 20) =~= le_bytes(blob_ref.length as nat, 4));
    assert(stored.subrange(1, 17) =~= hash);
    assert(stored.subrange(17, 37) =~= bytes);
}

/// A blob entry: `BLOV` as a number, the version 2, the length of the value, its content
/// hash, the value, and the 64-bit hash of all of these.
pub proof fn lemma_entry_layout(value: Seq<u8>)
    requires
        value.len() <= u32::MAX,
    ensures
        ({
            let entry = entry_bytes(value);
            let end = 26 + value.len() as int;
            &&& entry.len() == end + 8
            &&& le_value(entry.subrange(0, 4)) == 0x424C4F56
            &&& le_value(entry.subrange(4, 6)) == 2
            &&& le_value(entry.subrange(6, 10)) == value.len()
            &&& entry.subrange(10, 26) == hash_bytes(value)
            &&& entry.subrange(26, end) == value
            &&& le_value(entry.subrange(end, end + 8)) == xxh3_64_of(entry.subrange(0, end))
        }),
{
    let entry = entry_bytes(value);
    let body = entry_body(value);
    let end = 26 + value.len() as int;
    lemma_entry_len(value);
    lemma_byte_range_values();
    lemma_le_round_trip(0x424C4F56, 4);
    lemma_le_round_trip(2, 2);
    lemma_le_round_trip(value.len(), 4);
    lemma_le_bytes_len(crate::hash::xxh3_128_of(value) as nat, 16);
    lemma_le_round_trip(xxh3_64_of(body) as nat, 8);
    assert(entry.subrange(0, 4) =~= le_bytes(0x424C4F56, 4));
    assert(entry.subrange(4, 6) =~= le_bytes(2, 2));
    assert(entry.subrange(6, 10) =~= le_bytes(value.len(), 4));
    assert(entry.subrange(10, 26) =~= hash_bytes(value));
    assert(entry.subrange(26, end) =~= value);
    assert(entry.subrange(0, end) =~= body);
    assert(entry.subrange(end, end + 8) =~= le_bytes(xxh3_64_of(body) as nat, 8));
}

/// Whether bytes are an entry of a value, with `start` bytes in front of the value.
pub open spec fn entry_holds(data: Seq<u8>, start: int, value: Seq<u8>) -> bool {
    let end = start + value.len();
    &&& end + 8 <= data.len()
    &&& data.subrange(start, end) == value
    &&& le_value(data.subrange(start - 20, start - 16)) == value.len()
    &&& data.subrange(start - 16, start) == hash_bytes(value)
    &&& le_value(data.subrange(end, end + 8)) == xxh3_64_of(data.subrange(0, end))
}

/// What is read out of a blob entry is what its checksum and its content hash are of, and as
/// long as the reference says: an entry that does not bear them out is refused.
pub proof fn lemma_entry_checked(data: Seq<u8>, length: u32)
    requires
        parse_entry(data, length) is Ok,
    ensures
        ({
            let value = parse_entry(data, length)->Ok_0;
            let magic = le_value(data.subrange(0, 4));
            let version = le_value(data.subrange(4, 6));
            &&& value.len() == length
            &&& magic == 0x424C4F42 && entry_holds(data, 24, value) || magic == 0x424C4F56 && 1
                <= version <= 2 && entry_holds(data, 26, value)
        }),
{
    lemma_byte_range_values();
    let value = parse_entry(data, length)->Ok_0;
    lemma_number_of(data, 0, 4);
    lemma_number_of(data, 4, 2);
    let start: int = if le_value(data.subrange(0, 4)) == 0x424C4F42 {
        24
    } else {
        26
    };
    let end = start + length;
    lemma_number_of(data, start - 20, 4);
    lemma_number_of(data, end, 8);
    assert(data.take(end) =~= data.subrange(0, end));
    assert(value == data.subrange(start, end));
}

proof fn lemma_number_of(data: Seq<u8>, pos: int, width: nat)
    requires
        0 <= pos,
        pos + width <= data.len(),
    ensures
        le_value(data.subrange(pos, pos + width)) < crate::bytes::byte_range(width),
{
    crate::bytes::lemma_le_value_bound(data.subrange(pos, pos + width));
}

/// An entry of a later version is refused as too new, and one of version 0 as too old.
pub proof fn lemma_entry_versions(data: Seq<u8>, length: u32)
    requires
        data.len() >= 26,
        le_value(data.subrange(0, 4)) == 0x424C4F56,
    ensures
        ({
            let version = le_value(data.subrange(4, 6));
            &&& version > 2 ==> parse_entry(data, length) == Err::<Seq<u8>, GalaxError>(
                GalaxError::FormatTooNew {
                    artifact: Artifact::Blob,
                    found: version as u16,
                    current: 2,
                },
            )
            &&& version == 0 ==> parse_entry(data, length) == Err::<Seq<u8>, GalaxError>(
                GalaxError::FormatTooOld { artifact: Artifact::Blob, found: 0, oldest: 1 },
            )
        }),
{
    lemma_byte_range_values();
    lemma_number_of(data, 4, 2);
}

// Files

/// The end of a file: the number of blocks, where each is, and a footer that says where this
/// index starts, the number of blocks again, the version 2, and `SSTV` as a number.
pub proof fn lemma_index_layout(entries: Seq<BlockIndexEntry>, index_offset: u64)
    requires
        entries.len() <= u32::MAX,
    ensures
        ({
            let bytes = index_bytes(entries, index_offset);
            let n = bytes.len() as int;
            &&& n == 4 + 12 * entries.len() + 18
            &&& le_value(bytes.subrange(0, 4)) == entries.len()
            &&& le_value(bytes.subrange(n - 18, n - 10)) == index_offset
            &&& le_value(bytes.subrange(n - 10, n - 6)) == entries.len()
            &&& le_value(bytes.subrange(n - 6, n - 4)) == 2
            &&& le_value(bytes.subrange(n - 4, n)) == 0x53535456
        }),
{
    let bytes = index_bytes(entries, index_offset);
    let n = bytes.len() as int;
    lemma_byte_range_values();
    lemma_le_round_trip(entries.len(), 4);
    lemma_le_round_trip(index_offset as nat, 8);
    lemma_le_round_trip(2, 2);
    lemma_le_round_trip(0x53535456, 4);
    lemma_entries_len(entries);
    assert(bytes.subrange(0, 4) =~= le_bytes(entries.len(), 4));
    assert(bytes.subrange(n - 18, n - 10) =~= le_bytes(index_offset as nat, 8));
    assert(bytes.subrange(n - 10, n - 6) =~= le_bytes(entries.len(), 4));
    assert(bytes.subrange(n - 6, n - 4) =~= le_bytes(2, 2));
    assert(bytes.subrange(n - 4, n) =~= le_bytes(0x53535456, 4));
}

proof fn lemma_entries_len(entries: Seq<BlockIndexEntry>)
    ensures
        crate::sst::entries_bytes(entries).len() == 12 * entries.len(),
    decreases entries.len(),
{
    if entries.len() > 0 {
        lemma_entries_len(entries.drop_last());
        lemma_le_bytes_len(entries.last().file_offset as nat, 8);
        lemma_le_bytes_len(entries.last().block_len as nat, 4);
    }
}

/// The index that is read out of a file is the one that its footer leads to, and stands
/// within the file; a file that ends in no footer is refused.
pub proof fn lemma_index_checked(data: Seq<u8>)
    requires
        parse_index(data) is Ok,
    ensures
        ({
            let entries = parse_index(data)->Ok_0;
            let n = data.len() as int;
            let magic = le_value(data.subrange(n - 4, n));
            let start = if magic == 0x53535456 {
                n - 18
            } else {
                n - 16
            };
            let first = le_value(data.subrange(start, start + 8)) + 4;
            &&& magic == 0x53535456 || magic == 0x53535446
            &&& magic == 0x53535456 ==> 1 <= le_value(data.subrange(n - 6, n - 4)) <= 2
            &&& start >= 0
            &&& entries.len() == le_value(data.subrange(start + 8, start + 12))
            &&& entries.len() > 0 ==> first + 12 * entries.len() <= start
            &&& forall|i: int|
                #![trigger entries[i]]
                0 <= i < entries.len() ==> entries[i].file_offset == le_value(
                    data.subrange(first + 12 * i, first + 12 * i + 8),
                ) && entries[i].block_len == le_value(
                    data.subrange(first + 12 * i + 8, first + 12 * i + 12),
                )
        }),
{
    lemma_byte_range_values();
    let entries = parse_index(data)->Ok_0;
    let n = data.len() as int;
    lemma_number_of(data, n - 4, 4);
    let magic = le_value(data.subrange(n - 4, n));
    let start = if magic == 0x53535456 {
        n - 18
    } else {
        n - 16
    };
    if magic == 0x53535456 {
        lemma_number_of(data, n - 6, 2);
    }
    lemma_number_of(data, start, 8);
    lemma_number_of(data, start + 8, 4);
    let first = le_value(data.subrange(start, start + 8)) + 4;
    assert forall|i: int| #![trigger entries[i]] 0 <= i < entries.len() implies entries[i].file_offset
        == le_value(data.subrange(first + 12 * i, first + 12 * i + 8)) && entries[i].block_len
        == le_value(data.subrange(first + 12 * i + 8, first + 12 * i + 12)) by {
        lemma_number_of(data, first + 12 * i, 8);
        lemma_number_of(data, first + 12 * i + 8, 4);
    }
}

/// A file of a later version is refused as too new, and one of version 0 as too old.
pub proof fn lemma_index_versions(data: Seq<u8>)
    requires
        data.len() >= 18,
        le_value(data.subrange(data.len() - 4, data.len() as int)) == 0x53535456,
    ensures
        ({
            let n = data.len() as int;
            let version = le_value(data.subrange(n - 6, n - 4));
            &&& version > 2 ==> parse_index(data) == Err::<Seq<BlockIndexEntry>, GalaxError>(
                GalaxError::FormatTooNew {
                    artifact: Artifact::Sst,
                    found: version as u16,
                    current: 2,
                },
            )
            &&& version == 0 ==> parse_index(data) == Err::<Seq<BlockIndexEntry>, GalaxError>(
                GalaxError::FormatTooOld { artifact: Artifact::Sst, found: 0, oldest: 1 },
            )
        }),
{
    lemma_byte_range_values();
    lemma_number_of(data, data.len() - 6, 2);
}

// Blocks

/// The first 27 bytes of a block: magic number, version, id, number of rows, timestamp and
/// number of columns.
pub proof fn lemma_header_layout(h: HeaderView)
    ensures
        ({
            let bytes = header_bytes(h);
            &&& bytes.len() >= 27
            &&& h.descriptors.len() == 0 ==> bytes.len() == 27
            &&& le_value(bytes.subrange(0, 4)) == h.magic
            &&& bytes[4] == h.format_version
            &&& le_value(bytes.subrange(5, 13)) == h.block_id
            &&& le_value(bytes.subrange(13, 17)) == h.row_count
            &&& le_value(bytes.subrange(17, 25)) == h.commit_timestamp
            &&& le_value(bytes.subrange(25, 27)) == h.column_count
        }),
{
    let bytes = header_bytes(h);
    lemma_byte_range_values();
    lemma_le_round_trip(h.magic as nat, 4);
    lemma_le_round_trip(h.block_id as nat, 8);
    lemma_le_round_trip(h.row_count as nat, 4);
    lemma_le_round_trip(h.commit_timestamp as nat, 8);
    lemma_le_round_trip(h.column_count as nat, 2);
    assert(bytes.subrange(0, 4) =~= le_bytes(h.magic as nat, 4));
    assert(bytes.subrange(5, 13) =~= le_bytes(h.block_id as nat, 8));
    assert(bytes.subrange(13, 17) =~= le_bytes(h.row_count as nat, 4));
    assert(bytes.subrange(17, 25) =~= le_bytes(h.commit_timestamp as nat, 8));
    assert(bytes.subrange(25, 27) =~= le_bytes(h.column_count as nat, 2));
}

/// Whether the last 8 bytes of a block are the hash of those in front of them.
pub open spec fn hash_agrees(data: Seq<u8>) -> bool {
    let n = data.len() as int;
    n >= 8 && le_value(data.subrange(n - 8, n)) == xxh3_64_of(data.subrange(0, n - 8))
}

/// A block whose bytes do not agree with its hash is refused, whether it is read whole or
/// for one value. A block that is read begins with `GALA` as a number, and says of itself
/// what its first bytes say.
pub proof fn lemma_block_checked(data: Seq<u8>)
    ensures
        parse_block(data) is Ok ==> {
            let b = parse_block(data)->Ok_0;
            &&& hash_agrees(data)
            &&& le_value(data.subrange(0, 4)) == 0x47414C41
            &&& b.header.block_id == le_value(data.subrange(5, 13))
            &&& b.header.row_count == le_value(data.subrange(13, 17))
            &&& b.header.commit_timestamp == le_value(data.subrange(17, 25))
            &&& b.header.column_count == le_value(data.subrange(25, 27))
            &&& b.row_offsets.len() == b.header.row_count
        },
        !hash_agrees(data) ==> parse_block(data) is Err,
        forall|index: usize, row: u32, value: Seq<u8>|
            !hash_agrees(data) ==> !#[trigger] value_reads(
                data,
                index,
                row,
                Ok::<Seq<u8>, GalaxError>(value),
            ),
{
    lemma_byte_range_values();
    let n = data.len() as int;
    if n >= 8 {
        lemma_number_of(data, n - 8, 8);
        if parse_block(data) is Ok {
            let body = data.subrange(0, n - 8);
            lemma_number_of(body, 0, 4);
            lemma_number_of(body, 5, 8);
            lemma_number_of(body, 13, 4);
            lemma_number_of(body, 17, 8);
            lemma_number_of(body, 25, 2);
            assert(body.subrange(0, 4) =~= data.subrange(0, 4));
            assert(body.subrange(5, 13) =~= data.subrange(5, 13));
            assert(body.subrange(13, 17) =~= data.subrange(13, 17));
            assert(body.subrange(17, 25) =~= data.subrange(17, 25));
            assert(body.subrange(25, 27) =~= data.subrange(25, 27));
        }
    }
}

proof fn lemma_row_size_parts(columns: Seq<ColumnView>, last: ColumnView, row: int, n: nat)
    requires
        n <= columns.len(),
    ensures
        row_size(columns.push(last), row, n) == row_size(columns, row, n),
    decreases n,
{
    if n > 0 {
        lemma_row_size_parts(columns, last, row, (n - 1) as nat);
    }
}

/// The first row starts at 0, and each other row as much behind the row in front of it as
/// the values of that row are long together, as far as 32 bits reach. A column more makes a
/// row longer by its value.
pub proof fn lemma_row_offsets(columns: Seq<ColumnView>, last: ColumnView, rows: nat, i: int)
    requires
        0 <= i < rows,
    ensures
        ({
            let offsets = row_offsets_of(columns, rows);
            let more = columns.push(last);
            &&& offsets.len() == rows
            &&& offsets[0] == 0
            &&& i + 1 < rows && offsets[i + 1] < u32::MAX ==> offsets[i + 1] - offsets[i]
                == row_size(columns, i, columns.len())
            &&& last.rows[i].len() <= u32::MAX ==> row_size(more, i, more.len()) == row_size(
                columns,
                i,
                columns.len(),
            ) + last.rows[i].len()
            &&& columns.len() == 0 ==> row_size(columns, i, columns.len()) == 0
        }),
{
    lemma_row_size_parts(columns, last, i, columns.len());
    let more = columns.push(last);
    assert(more.len() == columns.len() + 1);
    assert(more[columns.len() as int] == last);
    if i + 1 < rows {
        assert(rows_size(columns, (i + 1) as nat) == rows_size(columns, i as nat) + row_size(
            columns,
            i,
            columns.len(),
        ));
    }
}

/// The bytes for integer types: 0 to 3 for signed ones and 4 to 7 for others, by width.
pub proof fn lemma_type_bytes(a: ColumnType, b: ColumnType)
    requires
        type_byte(a) < 8,
        type_byte(b) < 8,
    ensures
        a.signed() <==> type_byte(a) < 4,
        a.width() is Some && b.width() is Some,
        a.signed() == b.signed() && type_byte(b) == type_byte(a) + 1 ==> b.width()->0 == 2
            * a.width()->0,
        type_byte(a) == type_byte(b) + 4 ==> a.width() == b.width(),
        type_byte(a) == 0 ==> a.width() == Some(1nat),
{
}

/// Values without compression: four bytes with the length of each in front of it. Under
/// Zstandard, four bytes with the length of all that in front of the frame.
pub proof fn lemma_values_layout(col_type: ColumnType, rows: Seq<Seq<u8>>, value: Seq<u8>)
    requires
        value.len() <= u32::MAX,
    ensures
        ({
            let fewer = framed(rows);
            let more = framed(rows.push(value));
            let at = fewer.len() as int;
            let packed = chunk_of(col_type, CodecId::Zstd, rows)->Ok_0;
            &&& framed(Seq::<Seq<u8>>::empty()).len() == 0
            &&& more.len() == at + 4 + value.len()
            &&& more.subrange(0, at) == fewer
            &&& le_value(more.subrange(at, at + 4)) == value.len()
            &&& more.subrange(at + 4, more.len() as int) == value
            &&& chunk_of(col_type, CodecId::Uncompressed, rows) == Ok::<Seq<u8>, Fault>(fewer)
            &&& packed.len() >= 4
            &&& fewer.len() <= u32::MAX ==> le_value(packed.subrange(0, 4)) == fewer.len()
            &&& packed.subrange(4, packed.len() as int) == zstd_frame(fewer, 3)
        }),
{
    lemma_byte_range_values();
    lemma_le_round_trip(value.len(), 4);
    let all = rows.push(value);
    let fewer = framed(rows);
    let more = framed(all);
    let at = fewer.len() as int;
    assert(all.drop_last() =~= rows);
    assert(more.subrange(0, at) =~= fewer);
    assert(more.subrange(at, at + 4) =~= le_bytes(value.len(), 4));
    assert(more.subrange(at + 4, more.len() as int) =~= value);
    let packed = chunk_of(col_type, CodecId::Zstd, rows)->Ok_0;
    lemma_le_bytes_len(fewer.len(), 4);
    assert(packed.subrange(0, 4) =~= le_bytes(fewer.len(), 4));
    assert(packed.subrange(4, packed.len() as int) =~= zstd_frame(fewer, 3));
    if fewer.len() <= u32::MAX {
        lemma_le_round_trip(fewer.len(), 4);
    }
}

/// The codec that a type has by default takes every column of that type.
pub proof fn lemma_default_codec(col_type: ColumnType, rows: Seq<Seq<u8>>)
    ensures
        chunk_of(col_type, CodecId::default_for(col_type), rows) is Ok,
        col_type.width() is Some ==> CodecId::default_for(col_type) == CodecId::FastPFor,
        col_type.variable() ==> CodecId::default_for(col_type) == CodecId::Zstd,
{
}

// Filters

/// A filter as bytes: the number of bits, the number of hash functions, and the bits; that of
/// a file has the file's id and level in front.
pub proof fn lemma_filter_layout(filter: FilterView, sst_id: u64, level: nat)
    requires
        filter.wf(),
        level <= u32::MAX,
    ensures
        ({
            let bytes = filter.serialized();
            let file = (SstFilterView { sst_id, level, filter }).serialized();
            &&& le_value(bytes.subrange(0, 8)) == filter.size
            &&& le_value(bytes.subrange(8, 12)) == filter.hashes
            &&& bytes.subrange(12, bytes.len() as int) == filter.bytes
            &&& 8 * filter.bytes.len() >= filter.size
            &&& 8 * filter.bytes.len() < filter.size + 8
            &&& le_value(file.subrange(0, 8)) == sst_id
            &&& le_value(file.subrange(8, 12)) == level
            &&& file.subrange(12, file.len() as int) == bytes
        }),
{
    lemma_byte_range_values();
    lemma_le_round_trip(filter.size, 8);
    lemma_le_round_trip(filter.hashes, 4);
    lemma_le_round_trip(sst_id as nat, 8);
    lemma_le_round_trip(level, 4);
    let bytes = filter.serialized();
    let file = (SstFilterView { sst_id, level, filter }).serialized();
    assert(bytes.subrange(0, 8) =~= le_bytes(filter.size, 8));
    assert(bytes.subrange(8, 12) =~= le_bytes(filter.hashes, 4));
    assert(bytes.subrange(12, bytes.len() as int) =~= filter.bytes);
    assert(file.subrange(0, 8) =~= le_bytes(sst_id as nat, 8));
    assert(file.subrange(8, 12) =~= le_bytes(level, 4));
    assert(file.subrange(12, file.len() as int) =~= bytes);
}

/// The bits of a filter stand eight to a byte, the lowest first.
pub proof fn lemma_filter_bits(filter: FilterView, place: int)
    requires
        0 <= place < 8 * filter.bytes.len(),
    ensures
        filter.bit(place) <==> (filter.bytes[place / 8] as nat / pow2((place % 8) as nat)) % 2 == 1,
{
    let byte = filter.bytes[place / 8];
    let shift = (place % 8) as u8;
    vstd::bits::lemma_u8_shr_is_div(byte, shift);
    let moved = byte >> shift;
    assert(moved & 1 == moved % 2) by (bit_vector);
}

/// The bits of a key are spread by two hashes of it: the first is the place of bit 0, and
/// each further one is as far behind as the second says, in 64 bits and round the filter.
pub proof fn lemma_bit_places(key: Seq<u8>, j: int, size: nat)
    requires
        0 <= j,
        0 < size,
    ensures
        ({
            let h1 = xxh3_64_of(key) as int;
            let h2 = xxh3_64_of(key.push(0x47)) as int;
            let sum = (h1 + j * h2) % 0x1_0000_0000_0000_0000;
            &&& 0 <= bit_place(key, j, size) < size
            &&& bit_place(key, j, size) == sum % (size as int)
        }),
{
    let h1 = xxh3_64_of(key) as int;
    let h2 = xxh3_64_of(key.push(0x47)) as int;
    let m = 0x1_0000_0000_0000_0000int;
    vstd::arithmetic::div_mod::lemma_add_mod_noop_right(h1, j * h2, m);
    vstd::arithmetic::div_mod::lemma_mod_bound((h1 + j * h2) % m, size as int);
}

} // verus!
