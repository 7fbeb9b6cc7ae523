//! Keys and values as the write-ahead log stores them, and key ranges.

use vstd::prelude::*;
use vstd::slice::{slice_subrange, slice_to_vec};

use crate::bytes::{
    compare_bytes, get_u32, le_bytes, le_value, lemma_byte_range_values, lemma_le_bytes_len,
    lemma_le_round_trip, lemma_lex_total, lemma_lex_transitive, lex_le, lex_lt,
    put_bytes, put_le, starts_with, Compared,
};

verus! {

/// Log payload of one row: length of the key, key, value.
pub open spec fn kv_bytes(key: Seq<u8>, value: Seq<u8>) -> Seq<u8> {
    le_bytes(key.len(), 4) + key + value
}

/// The row that a log payload stands for.
pub open spec fn parse_kv(payload: Seq<u8>) -> Option<(Seq<u8>, Seq<u8>)> {
    if payload.len() < 4 {
        None
    } else {
        let key_len = le_value(payload.take(4));
        if payload.len() < 4 + key_len {
            None
        } else {
            Some((payload.subrange(4, 4 + key_len as int), payload.skip(4 + key_len as int)))
        }
    }
}

/// A row is read back from the log as it was written.
pub proof fn lemma_kv_round_trip(key: Seq<u8>, value: Seq<u8>)
    requires
        key.len() <= u32::MAX,
    ensures
        parse_kv(kv_bytes(key, value)) == Some((key, value)),
{
    let payload = kv_bytes(key, value);
    lemma_byte_range_values();
    lemma_le_bytes_len(key.len(), 4);
    lemma_le_round_trip(key.len(), 4);
    assert(payload.take(4) =~= le_bytes(key.len(), 4));
    assert(payload.subrange(4, 4 + key.len() as int) =~= key);
    assert(payload.skip(4 + key.len() as int) =~= value);
}

/// Encodes a row for the write-ahead log.
pub fn encode_kv(key: &[u8], value: &[u8]) -> (payload: Vec<u8>)
    ensures
        payload@ == kv_bytes(key@, value@),
{
    let mut payload: Vec<u8> = Vec::new();
    put_le(&mut payload, key.len() as u64, 4);
    put_bytes(&mut payload, key);
    put_bytes(&mut payload, value);
    assert(payload@ =~= kv_bytes(key@, value@));
    payload
}

/// Decodes a row from a payload of the write-ahead log.
pub fn decode_kv(payload: &[u8]) -> (row: Option<(Vec<u8>, Vec<u8>)>)
    ensures
        match row {
            Some((key, value)) => parse_kv(payload@) == Some((key@, value@)),
            None => parse_kv(payload@) is None,
        },
{
    if payload.len() < 4 {
        return None;
    }
    assert(payload@.subrange(0, 4) =~= payload@.take(4));
    let key_len: u64 = get_u32(payload, 0) as u64;
    if (payload.len() as u64) - 4 < key_len {
        return None;
    }
    let key_end: usize = 4 + key_len as usize;
    let key = slice_to_vec(slice_subrange(payload, 4, key_end));
    let value = slice_to_vec(slice_subrange(payload, key_end, payload.len()));
    assert(payload@.subrange(key_end as int, payload@.len() as int) =~= payload@.skip(
        key_end as int,
    ));
    Some((key, value))
}

/// Part of a log payload that holds one row of a batch.
pub open spec fn batch_row_bytes(key: Seq<u8>, value: Seq<u8>) -> Seq<u8> {
    le_bytes(key.len(), 4) + key + le_bytes(value.len(), 4) + value
}

/// Rows of a batch, one after the other.
pub open spec fn batch_rows_bytes(rows: Seq<(Vec<u8>, Vec<u8>)>) -> Seq<u8>
    decreases rows.len(),
{
    if rows.len() == 0 {
        Seq::<u8>::empty()
    } else {
        batch_rows_bytes(rows.drop_last()) + batch_row_bytes(rows.last().0@, rows.last().1@)
    }
}

/// Log payload of a batch: number of rows, then the rows.
pub open spec fn batch_bytes(rows: Seq<(Vec<u8>, Vec<u8>)>) -> Seq<u8> {
    le_bytes(rows.len(), 4) + batch_rows_bytes(rows)
}

/// The bytes behind a length that stands at `pos`, and where they end.
pub open spec fn parse_part(data: Seq<u8>, pos: int) -> Option<(Seq<u8>, int)> {
    if data.len() < pos + 4 {
        None
    } else {
        let len = le_value(data.subrange(pos, pos + 4)) as int;
        if data.len() < pos + 4 + len {
            None
        } else {
            Some((data.subrange(pos + 4, pos + 4 + len), pos + 4 + len))
        }
    }
}

/// The rows of a batch from `pos` on; nothing may follow them.
pub open spec fn parse_rows(data: Seq<u8>, pos: int, count: nat) -> Option<
    Seq<(Seq<u8>, Seq<u8>)>,
>
    decreases count,
{
    if count == 0 {
        if pos == data.len() {
            Some(Seq::<(Seq<u8>, Seq<u8>)>::empty())
        } else {
            None
        }
    } else {
        match parse_part(data, pos) {
            Some((key, middle)) => match parse_part(data, middle) {
                Some((value, end)) => match parse_rows(data, end, (count - 1) as nat) {
                    Some(rest) => Some(seq![(key, value)] + rest),
                    None => None,
                },
                None => None,
            },
            None => None,
        }
    }
}

/// The rows that the log payload of a batch stands for.
pub open spec fn parse_batch(payload: Seq<u8>) -> Option<Seq<(Seq<u8>, Seq<u8>)>> {
    if payload.len() < 4 {
        None
    } else {
        parse_rows(payload, 4, le_value(payload.take(4)))
    }
}

/// The keys and values of rows.
pub open spec fn pair_views(rows: Seq<(Vec<u8>, Vec<u8>)>) -> Seq<(Seq<u8>, Seq<u8>)> {
    Seq::new(rows.len(), |i: int| (rows[i].0@, rows[i].1@))
}

/// What follows the first `k` rows and row `k` itself.
proof fn lemma_rows_split(rows: Seq<(Vec<u8>, Vec<u8>)>, k: int) -> (tail: Seq<u8>)
    requires
        0 <= k < rows.len(),
    ensures
        batch_rows_bytes(rows) == batch_rows_bytes(rows.take(k)) + batch_row_bytes(
            rows[k].0@,
            rows[k].1@,
        ) + tail,
        batch_rows_bytes(rows.take(k + 1)) == batch_rows_bytes(rows.take(k)) + batch_row_bytes(
            rows[k].0@,
            rows[k].1@,
        ),
    decreases rows.len(),
{
    assert(rows.take(k + 1).drop_last() =~= rows.take(k));
    assert(rows.take(k + 1).last() == rows[k]);
    let front = rows.drop_last();
    if k == rows.len() - 1 {
        assert(rows.take(k + 1) =~= rows);
        assert(batch_rows_bytes(rows) =~= batch_rows_bytes(rows.take(k)) + batch_row_bytes(
            rows[k].0@,
            rows[k].1@,
        ) + Seq::<u8>::empty());
        Seq::<u8>::empty()
    } else {
        let tail = lemma_rows_split(front, k);
        let last = batch_row_bytes(rows.last().0@, rows.last().1@);
        assert(front.take(k) =~= rows.take(k));
        assert(front[k] == rows[k]);
        assert(batch_rows_bytes(rows) =~= batch_rows_bytes(rows.take(k)) + batch_row_bytes(
            rows[k].0@,
            rows[k].1@,
        ) + (tail + last));
        tail + last
    }
}

proof fn lemma_part_reads(before: Seq<u8>, part: Seq<u8>, rest: Seq<u8>)
    requires
        part.len() <= u32::MAX,
    ensures
        parse_part(before + (le_bytes(part.len(), 4) + part) + rest, before.len() as int) == Some(
            (part, (before.len() + 4 + part.len()) as int),
        ),
{
    let data = before + (le_bytes(part.len(), 4) + part) + rest;
    let pos = before.len() as int;
    lemma_byte_range_values();
    lemma_le_bytes_len(part.len(), 4);
    lemma_le_round_trip(part.len(), 4);
    assert(data.subrange(pos, pos + 4) =~= le_bytes(part.len(), 4));
    assert(data.subrange(pos + 4, pos + 4 + part.len()) =~= part);
}

proof fn lemma_rows_read(rows: Seq<(Vec<u8>, Vec<u8>)>, head: Seq<u8>, k: int)
    requires
        0 <= k <= rows.len(),
        forall|i: int|
            0 <= i < rows.len() ==> (#[trigger] rows[i]).0@.len() <= u32::MAX && rows[i].1@.len()
                <= u32::MAX,
    ensures
        parse_rows(
            head + batch_rows_bytes(rows),
            (head.len() + batch_rows_bytes(rows.take(k)).len()) as int,
            (rows.len() - k) as nat,
        ) == Some(pair_views(rows).skip(k)),
    decreases rows.len() - k,
{
    let data = head + batch_rows_bytes(rows);
    if k == rows.len() {
        assert(rows.take(k) =~= rows);
        assert(pair_views(rows).skip(k) =~= Seq::<(Seq<u8>, Seq<u8>)>::empty());
    } else {
        let tail = lemma_rows_split(rows, k);
        let key = rows[k].0@;
        let value = rows[k].1@;
        let before = head + batch_rows_bytes(rows.take(k));
        lemma_le_bytes_len(key.len(), 4);
        lemma_le_bytes_len(value.len(), 4);
        let value_part = le_bytes(value.len(), 4) + value;
        let key_part = le_bytes(key.len(), 4) + key;
        assert(data =~= before + key_part + (value_part + tail));
        lemma_part_reads(before, key, value_part + tail);
        let middle = before + key_part;
        assert(data =~= middle + value_part + tail);
        lemma_part_reads(middle, value, tail);
        lemma_rows_read(rows, head, k + 1);
        assert(pair_views(rows).skip(k) =~= seq![(key, value)] + pair_views(rows).skip(k + 1));
    }
}

/// A batch is read back from the log as it was written.
pub proof fn lemma_batch_round_trip(rows: Seq<(Vec<u8>, Vec<u8>)>)
    requires
        rows.len() <= u32::MAX,
        forall|i: int|
            0 <= i < rows.len() ==> (#[trigger] rows[i]).0@.len() <= u32::MAX && rows[i].1@.len()
                <= u32::MAX,
    ensures
        parse_batch(batch_bytes(rows)) == Some(pair_views(rows)),
{
    let head = le_bytes(rows.len(), 4);
    lemma_byte_range_values();
    lemma_le_bytes_len(rows.len(), 4);
    lemma_le_round_trip(rows.len(), 4);
    assert(batch_bytes(rows).take(4) =~= head);
    lemma_rows_read(rows, head, 0);
    assert(rows.take(0) =~= Seq::<(Vec<u8>, Vec<u8>)>::empty());
    assert(pair_views(rows).skip(0) =~= pair_views(rows));
}

/// Reads the bytes behind a length.
fn read_part(data: &[u8], pos: usize) -> (part: Option<(Vec<u8>, usize)>)
    requires
        pos <= data@.len(),
    ensures
        match part {
            Some((bytes, end)) => parse_part(data@, pos as int) == Some((bytes@, end as int))
                && end <= data@.len(),
            None => parse_part(data@, pos as int) is None,
        },
{
    if data.len() - pos < 4 {
        return None;
    }
    let len: u64 = get_u32(data, pos) as u64;
    if ((data.len() - pos) as u64) - 4 < len {
        return None;
    }
    let end: usize = pos + 4 + len as usize;
    Some((slice_to_vec(slice_subrange(data, pos + 4, end)), end))
}

/// What a list of rows in front makes of what follows.
spec fn behind(
    front: Seq<(Seq<u8>, Seq<u8>)>,
    rest: Option<Seq<(Seq<u8>, Seq<u8>)>>,
) -> Option<Seq<(Seq<u8>, Seq<u8>)>> {
    match rest {
        Some(rows) => Some(front + rows),
        None => None,
    }
}

/// Decodes a batch of rows from a payload of the write-ahead log.
pub fn decode_batch(payload: &[u8]) -> (rows: Option<Vec<(Vec<u8>, Vec<u8>)>>)
    ensures
        match rows {
            Some(rows) => parse_batch(payload@) == Some(pair_views(rows@)),
            None => parse_batch(payload@) is None,
        },
{
    if payload.len() < 4 {
        return None;
    }
    assert(payload@.subrange(0, 4) =~= payload@.take(4));
    let count: u32 = get_u32(payload, 0);
    let mut rows: Vec<(Vec<u8>, Vec<u8>)> = Vec::new();
    let mut pos: usize = 4;
    let mut i: u32 = 0;
    proof {
        let rest = parse_rows(payload@, 4, count as nat);
        if let Some(all) = rest {
            assert(pair_views(rows@) + all =~= all);
        }
    }
    while i < count
        invariant
            i <= count,
            pos <= payload@.len(),
            parse_batch(payload@) == behind(
                pair_views(rows@),
                parse_rows(payload@, pos as int, (count - i) as nat),
            ),
        decreases count - i,
    {
        let ghost before = pair_views(rows@);
        let (key, middle) = match read_part(payload, pos) {
            Some(part) => part,
            None => {
                return None;
            },
        };
        let (value, end) = match read_part(payload, middle) {
            Some(part) => part,
            None => {
                return None;
            },
        };
        let ghost row = (key@, value@);
        rows.push((key, value));
        proof {
            assert(pair_views(rows@) =~= before.push(row));
            if let Some(rest) = parse_rows(payload@, end as int, (count - i - 1) as nat) {
                assert(before + (seq![row] + rest) =~= before.push(row) + rest);
            }
        }
        pos = end;
        i = i + 1;
    }
    if pos == payload.len() {
        assert(pair_views(rows@) + Seq::<(Seq<u8>, Seq<u8>)>::empty() =~= pair_views(rows@));
        Some(rows)
    } else {
        None
    }
}

/// Encodes a batch of rows as one payload.
pub fn encode_batch(rows: &[(Vec<u8>, Vec<u8>)]) -> (payload: Vec<u8>)
    ensures
        payload@ == batch_bytes(rows@),
{
    let mut payload: Vec<u8> = Vec::new();
    put_le(&mut payload, rows.len() as u64, 4);
    let ghost count = payload@;
    assert(count =~= le_bytes(rows@.len(), 4));
    let mut i: usize = 0;
    assert(rows@.take(0) =~= Seq::<(Vec<u8>, Vec<u8>)>::empty());
    assert(payload@ =~= count + batch_rows_bytes(rows@.take(0)));
    while i < rows.len()
        invariant
            i <= rows@.len(),
            payload@ == count + batch_rows_bytes(rows@.take(i as int)),
        decreases rows@.len() - i,
    {
        let row = &rows[i];
        put_le(&mut payload, row.0.len() as u64, 4);
        put_bytes(&mut payload, row.0.as_slice());
        put_le(&mut payload, row.1.len() as u64, 4);
        put_bytes(&mut payload, row.1.as_slice());
        proof {
            assert(rows@.take(i + 1).drop_last() =~= rows@.take(i as int));
            assert(payload@ =~= count + batch_rows_bytes(rows@.take(i + 1)));
        }
        i = i + 1;
    }
    assert(rows@.take(i as int) =~= rows@);
    payload
}

// Key ranges

/// Whether a block with keys from `zone_min` to `zone_max` can hold a key that
/// starts with `prefix`. Without a zone map it can.
pub open spec fn overlaps_prefix(zone_min: Seq<u8>, zone_max: Seq<u8>, prefix: Seq<u8>) -> bool {
    ||| zone_min.len() == 0 && zone_max.len() == 0
    ||| lex_le(prefix, zone_max) && (lex_le(zone_min, prefix) || prefix.is_prefix_of(zone_min))
}

/// Whether the key range of a block can hold a key that starts with `prefix`:
/// if not, the block need not be read.
pub fn key_range_overlaps_prefix(zone_min: &[u8], zone_max: &[u8], prefix: &[u8]) -> (overlaps:
    bool)
    ensures
        overlaps == overlaps_prefix(zone_min@, zone_max@, prefix@),
{
    if zone_min.len() == 0 && zone_max.len() == 0 {
        return true;
    }
    match compare_bytes(zone_max, prefix) {
        Compared::Less => {
            return false;
        },
        _ => {},
    }
    match compare_bytes(prefix, zone_min) {
        Compared::Less => starts_with(zone_min, prefix),
        _ => true,
    }
}

/// A block is read only if a key that starts with the prefix can stand within its range.
pub proof fn lemma_prefix_pruning_tight(zone_min: Seq<u8>, zone_max: Seq<u8>, prefix: Seq<u8>)
    requires
        zone_max.len() > 0,
        lex_le(zone_min, zone_max),
        overlaps_prefix(zone_min, zone_max, prefix),
    ensures
        exists|key: Seq<u8>| #[trigger]
            prefix.is_prefix_of(key) && lex_le(zone_min, key) && lex_le(key, zone_max),
{
    if lex_le(zone_min, prefix) {
        assert(prefix =~= prefix.subrange(0, prefix.len() as int));
        assert(prefix.is_prefix_of(prefix));
    } else {
        assert(prefix.is_prefix_of(zone_min));
        crate::bytes::lemma_lex_irreflexive(zone_min);
    }
}

proof fn lemma_prefix_le(prefix: Seq<u8>, key: Seq<u8>)
    requires
        prefix.is_prefix_of(key),
    ensures
        lex_le(prefix, key),
    decreases prefix.len(),
{
    if prefix.len() > 0 {
        assert(prefix[0] == key[0]);
        assert(prefix.skip(1) =~= key.skip(1).subrange(0, prefix.len() - 1));
        lemma_prefix_le(prefix.skip(1), key.skip(1));
    }
}

proof fn lemma_between_prefix(prefix: Seq<u8>, middle: Seq<u8>, key: Seq<u8>)
    requires
        prefix.is_prefix_of(key),
        lex_lt(prefix, middle),
        lex_le(middle, key),
    ensures
        prefix.is_prefix_of(middle),
    decreases prefix.len(),
{
    if prefix.len() == 0 {
        assert(prefix =~= middle.subrange(0, 0));
    } else {
        assert(prefix[0] == key[0]);
        assert(middle.len() > 0);
        assert(middle[0] == prefix[0]);
        assert(prefix.skip(1) =~= key.skip(1).subrange(0, prefix.len() - 1));
        lemma_between_prefix(prefix.skip(1), middle.skip(1), key.skip(1));
        assert(prefix.len() <= middle.len());
        assert forall|i: int| 0 <= i < prefix.len() implies prefix[i] == middle[i] by {
            if i > 0 {
                assert(prefix.skip(1)[i - 1] == middle.skip(1).subrange(0, prefix.len() - 1)[i - 1]);
            }
        }
        assert(prefix =~= middle.subrange(0, prefix.len() as int));
    }
}

/// No block is skipped that holds a key with the prefix: if such a key lies
/// within the key range, the range overlaps the prefix.
pub proof fn lemma_prefix_pruning_sound(
    zone_min: Seq<u8>,
    zone_max: Seq<u8>,
    prefix: Seq<u8>,
    key: Seq<u8>,
)
    requires
        lex_le(zone_min, key),
        lex_le(key, zone_max),
        prefix.is_prefix_of(key),
    ensures
        overlaps_prefix(zone_min, zone_max, prefix),
{
    lemma_prefix_le(prefix, key);
    if lex_lt(zone_max, prefix) {
        lemma_lex_total(prefix, key);
        if prefix != key {
            lemma_lex_transitive(zone_max, prefix, key);
        }
    }
    if lex_lt(prefix, zone_min) {
        lemma_between_prefix(prefix, zone_min, key);
    }
}

} // verus!
