//! Delta encoding of fixed-width values.
//!
//! The first value is stored as it is, and each later one as its difference to
//! the value before, in as many bits as the largest difference needs:
//!
//! ```text
//! [byte_width: u8]
//! [first_value: byte_width bytes]
//! [max_bits: u8]
//! [packed_len: u32][packed differences]    (only if max_bits > 0)
//! ```

use vstd::arithmetic::power2::pow2;
use vstd::prelude::*;
use vstd::slice::{slice_subrange, slice_to_vec};

use crate::bitpack::{
    bit_length, bit_length_of, bitpack_decode, bitpack_encode, packed_len, packed_number,
    packed_value,
};
use crate::bitpack::{lemma_bit_length, lemma_bit_length_bound, lemma_packed_round_trip};
use crate::bytes::{get_le, get_u32, le_bytes, le_value, put_bytes, put_le, views};
use crate::bytes::{
    lemma_byte_range_monotone, lemma_byte_range_values, lemma_le_bytes_len, lemma_le_bytes_of_value,
    lemma_le_round_trip, lemma_le_value_bound,
};
use crate::column::ColumnType;
use crate::error::Fault;

verus! {

/// Two to the power 64.
pub open spec fn word_range() -> int {
    0x1_0000_0000_0000_0000
}

/// Signed numbers as unsigned ones, small ones staying small:
/// 0, -1, 1, -2, 2 become 0, 1, 2, 3, 4.
pub open spec fn zigzag(value: int) -> int {
    if value >= 0 {
        2 * value
    } else {
        -2 * value - 1
    }
}

/// The signed number that `zigzag` maps to `value`.
pub open spec fn unzigzag(value: int) -> int {
    if value % 2 == 0 {
        value / 2
    } else {
        -(value / 2) - 1
    }
}

/// Zigzag encoding loses nothing.
pub proof fn lemma_zigzag_round_trip(value: int)
    ensures
        unzigzag(zigzag(value)) == value,
        value >= 0 ==> zigzag(unzigzag(value)) == value,
{
}

/// Zigzag encoding keeps small numbers small: what is nearer to 0 is encoded lower. Even
/// codes are those of numbers that are not negative.
pub proof fn lemma_zigzag_small(a: int, b: int)
    requires
        (if a < 0 {
            -a
        } else {
            a
        }) < (if b < 0 {
            -b
        } else {
            b
        }),
    ensures
        0 <= zigzag(a) < zigzag(b),
        zigzag(0) == 0,
        zigzag(a) % 2 == 0 <==> a >= 0,
{
}

/// Zigzag-encodes a signed integer.
pub fn zigzag_encode(value: i64) -> (encoded: u64)
    ensures
        encoded == zigzag(value as int),
{
    if value >= 0 {
        value as u64 * 2
    } else {
        (-(value + 1)) as u64 * 2 + 1
    }
}

/// Decodes a zigzag-encoded integer.
pub fn zigzag_decode(value: u64) -> (decoded: i64)
    ensures
        decoded == unzigzag(value as int),
{
    if value % 2 == 0 {
        (value / 2) as i64
    } else {
        -((value / 2) as i64) - 1
    }
}

/// A 64-bit word read as a signed number.
pub open spec fn signed_word(word: int) -> int {
    if word < 0x8000_0000_0000_0000 {
        word
    } else {
        word - word_range()
    }
}

/// How `next` is stored after `prev`.
pub open spec fn delta(signed: bool, prev: u64, next: u64) -> int {
    let difference = (next - prev) % word_range();
    if signed {
        zigzag(signed_word(difference))
    } else {
        difference
    }
}

/// The value stored as `stored` after `prev`.
pub open spec fn undelta(signed: bool, prev: u64, stored: u64) -> int {
    if signed {
        (prev + unzigzag(stored as int)) % word_range()
    } else {
        (prev + stored) % word_range()
    }
}

proof fn lemma_delta_round_trip(signed: bool, prev: u64, next: u64)
    ensures
        0 <= delta(signed, prev, next) < word_range(),
        undelta(signed, prev, delta(signed, prev, next) as u64) == next,
{
    let difference = (next - prev) % word_range();
    if signed {
        lemma_zigzag_round_trip(signed_word(difference));
    }
}

/// The word that stands for a value of a column.
pub open spec fn word_of(col_type: ColumnType, value: Seq<u8>) -> u64 {
    match col_type.width() {
        Some(w) => if value.len() < w {
            0
        } else {
            le_value(value.take(w as int)) as u64
        },
        None => 0,
    }
}

/// The value of a column that a word stands for.
pub open spec fn word_bytes(col_type: ColumnType, word: u64, byte_width: nat) -> Seq<u8> {
    match col_type.width() {
        Some(w) => le_bytes(word as nat, w),
        None => le_bytes(word as nat, byte_width),
    }
}

pub open spec fn words_of(col_type: ColumnType, rows: Seq<Seq<u8>>) -> Seq<u64> {
    Seq::new(rows.len(), |i: int| word_of(col_type, rows[i]))
}

/// The stored differences of consecutive words.
pub open spec fn deltas_of(signed: bool, words: Seq<u64>) -> Seq<u64> {
    Seq::new(
        (words.len() - 1) as nat,
        |i: int| delta(signed, words[i], words[i + 1]) as u64,
    )
}

/// The words that start with `first` and differ as stored.
pub open spec fn words_from(signed: bool, first: u64, deltas: Seq<u64>) -> Seq<u64>
    decreases deltas.len(),
{
    if deltas.len() == 0 {
        seq![first]
    } else {
        let before = words_from(signed, first, deltas.drop_last());
        before.push(undelta(signed, before.last(), deltas.last()) as u64)
    }
}

/// The largest of some words, 0 if there is none.
pub open spec fn largest(words: Seq<u64>) -> u64
    decreases words.len(),
{
    if words.len() == 0 {
        0
    } else {
        let before = largest(words.drop_last());
        if words.last() > before {
            words.last()
        } else {
            before
        }
    }
}

/// None of the words is larger than the largest, and that is one of them or 0.
pub proof fn lemma_largest_is_one(words: Seq<u64>)
    ensures
        forall|i: int| 0 <= i < words.len() ==> #[trigger] words[i] <= largest(words),
        largest(words) == 0 || words.contains(largest(words)),
    decreases words.len(),
{
    if words.len() > 0 {
        let front = words.drop_last();
        lemma_largest_is_one(front);
        assert(words[words.len() - 1] == words.last());
        assert forall|i: int| 0 <= i < words.len() implies #[trigger] words[i] <= largest(words) by {
            if i < front.len() {
                assert(front[i] == words[i]);
            }
        }
        if largest(front) != 0 && largest(words) == largest(front) {
            let i = front.index_of(largest(front));
            assert(words[i] == front[i]);
        }
    }
}

/// Words that grow by small steps are stored as small numbers.
pub proof fn lemma_small_steps(words: Seq<u64>, step: u64)
    requires
        forall|i: int|
            0 <= i < words.len() - 1 ==> #[trigger] words[i] <= words[i + 1] <= words[i] + step,
    ensures
        words.len() > 0 ==> largest(deltas_of(false, words)) <= step,
{
    if words.len() > 0 {
        let deltas = deltas_of(false, words);
        lemma_largest_is_one(deltas);
        if largest(deltas) != 0 {
            let i = deltas.index_of(largest(deltas));
            assert(words[i] <= words[i + 1] <= words[i] + step);
            assert(deltas[i] == words[i + 1] - words[i]) by {
                vstd::arithmetic::div_mod::lemma_small_mod(
                    (words[i + 1] - words[i]) as nat,
                    word_range() as nat,
                );
            }
        }
    }
}

/// Delta encoding of the values of a column whose values all have one size.
pub open spec fn delta_bytes(col_type: ColumnType, rows: Seq<Seq<u8>>) -> Seq<u8> {
    let width = col_type.size()->0;
    if rows.len() == 0 {
        seq![width as u8]
    } else {
        let deltas = deltas_of(col_type.signed(), words_of(col_type, rows));
        let bits = bit_length(largest(deltas) as nat);
        let head = (seq![width as u8] + rows[0]).push(bits as u8);
        if bits == 0 {
            head
        } else {
            let n = packed_len(deltas.len(), bits);
            head + le_bytes(n, 4) + le_bytes(packed_number(deltas, bits), n)
        }
    }
}

/// The differences stored in `packed`.
pub open spec fn unpacked(packed: Seq<u8>, bits: nat, count: nat) -> Seq<u64> {
    Seq::new(count, |i: int| packed_value(le_value(packed), bits, i as nat) as u64)
}

/// The values that words stand for.
pub open spec fn rows_from(col_type: ColumnType, words: Seq<u64>, byte_width: nat) -> Seq<Seq<u8>> {
    Seq::new(words.len(), |i: int| word_bytes(col_type, words[i], byte_width))
}

/// The stored differences of delta-encoded data, with `at` the place of the bit width.
pub open spec fn stored_deltas(data: Seq<u8>, at: int, count: nat) -> Result<Seq<u64>, Fault> {
    let bits = data[at];
    if bits == 0 {
        Ok(Seq::new(count, |i: int| 0u64))
    } else if at + 5 > data.len() {
        Err(Fault::PackedLengthMissing)
    } else {
        let n = le_value(data.subrange(at + 1, at + 5));
        if at + 5 + n > data.len() {
            Err(Fault::PackedDataOutOfBounds)
        } else if bits > 64 {
            Err(Fault::WidthOutOfRange)
        } else {
            Ok(unpacked(data.subrange(at + 5, at + 5 + n), bits as nat, count))
        }
    }
}

/// The `count` values that delta-encoded data stands for.
pub open spec fn delta_rows(col_type: ColumnType, data: Seq<u8>, count: nat) -> Result<
    Seq<Seq<u8>>,
    Fault,
> {
    if data.len() == 0 {
        Err(Fault::DeltaDataEmpty)
    } else if count == 0 {
        Ok(Seq::<Seq<u8>>::empty())
    } else {
        let width = data[0] as int;
        if 1 + width > data.len() {
            Err(Fault::FirstValueMissing)
        } else {
            let first = data.subrange(1, 1 + width);
            if count == 1 {
                Ok(seq![first])
            } else if 1 + width >= data.len() {
                Err(Fault::BitWidthMissing)
            } else {
                match stored_deltas(data, 1 + width, (count - 1) as nat) {
                    Err(fault) => Err(fault),
                    Ok(deltas) => if col_type.width() is None && width > 8 {
                        Err(Fault::WidthOutOfRange)
                    } else {
                        Ok(
                            rows_from(
                                col_type,
                                words_from(col_type.signed(), word_of(col_type, first), deltas),
                                width as nat,
                            ),
                        )
                    },
                }
            }
        }
    }
}

// Round trip

proof fn lemma_word_bound(col_type: ColumnType, value: Seq<u8>, width: nat)
    requires
        col_type.width() == Some(width),
        value.len() >= width,
    ensures
        le_value(value.take(width as int)) <= u64::MAX,
{
    lemma_le_value_bound(value.take(width as int));
    lemma_byte_range_monotone(width, 8);
    lemma_byte_range_values();
}

/// A value of the column's width is read back from its word.
proof fn lemma_word_round_trip(col_type: ColumnType, value: Seq<u8>, byte_width: nat)
    requires
        col_type.width() == Some(value.len()),
    ensures
        word_bytes(col_type, word_of(col_type, value), byte_width) == value,
{
    lemma_word_bound(col_type, value, value.len());
    assert(value.take(value.len() as int) =~= value);
    lemma_le_bytes_of_value(value);
}

proof fn lemma_largest(words: Seq<u64>)
    ensures
        forall|i: int| 0 <= i < words.len() ==> words[i] <= largest(words),
    decreases words.len(),
{
    if words.len() > 0 {
        lemma_largest(words.drop_last());
        assert forall|i: int| 0 <= i < words.len() implies words[i] <= largest(words) by {
            if i < words.len() - 1 {
                assert(words[i] == words.drop_last()[i]);
            }
        }
    }
}

proof fn lemma_words_round_trip(signed: bool, words: Seq<u64>, n: nat)
    requires
        n < words.len(),
    ensures
        words_from(signed, words[0], deltas_of(signed, words).take(n as int)) == words.take(
            n as int + 1,
        ),
    decreases n,
{
    let deltas = deltas_of(signed, words);
    if n == 0 {
        assert(words.take(1) =~= seq![words[0]]);
        assert(deltas.take(0) =~= Seq::<u64>::empty());
    } else {
        let m = (n - 1) as nat;
        lemma_words_round_trip(signed, words, m);
        assert(deltas.take(n as int).drop_last() =~= deltas.take(m as int));
        lemma_delta_round_trip(signed, words[m as int], words[n as int]);
        assert(words.take(n as int).last() == words[m as int]);
        assert(words.take(n as int).push(words[n as int]) =~= words.take(n as int + 1));
    }
}

/// Values of the column's width are read back as they were encoded.
pub proof fn lemma_delta_bytes_round_trip(col_type: ColumnType, rows: Seq<Seq<u8>>)
    requires
        col_type.width() is Some,
        forall|i: int| 0 <= i < rows.len() ==> (#[trigger] rows[i]).len() == col_type.width()->0,
        packed_len(rows.len(), 64) <= u32::MAX,
    ensures
        delta_rows(col_type, delta_bytes(col_type, rows), rows.len()) == Ok::<Seq<Seq<u8>>, Fault>(
            rows,
        ),
{
    let data = delta_bytes(col_type, rows);
    let width = col_type.width()->0;
    if rows.len() == 0 {
        assert(rows =~= Seq::<Seq<u8>>::empty());
    } else {
        let signed = col_type.signed();
        let words = words_of(col_type, rows);
        let deltas = deltas_of(signed, words);
        let top = largest(deltas);
        let bits = bit_length(top as nat);
        vstd::arithmetic::power2::lemma2_to64_rest();
        lemma_bit_length_bound(top as nat, 64);
        lemma_bit_length(top as nat);
        lemma_largest(deltas);
        let at = 1 + width as int;
        assert(rows[0].len() == width);
        assert(data[0] == width);
        assert(data.subrange(1, at) =~= rows[0]);
        if rows.len() == 1 {
            assert(rows =~= seq![rows[0]]);
        } else {
            let count = (rows.len() - 1) as nat;
            assert(data[at] == bits);
            assert(stored_deltas(data, at, count) == Ok::<Seq<u64>, Fault>(deltas)) by {
                if bits == 0 {
                    vstd::arithmetic::power2::lemma2_to64();
                    assert(top == 0);
                    assert(Seq::new(count, |i: int| 0u64) =~= deltas);
                } else {
                    let n = packed_len(count, bits);
                    assert(count * bits <= rows.len() * 64) by (nonlinear_arith)
                        requires
                            count <= rows.len(),
                            bits <= 64,
                    ;
                    let packed = le_bytes(packed_number(deltas, bits), n);
                    lemma_le_bytes_len(n, 4);
                    lemma_le_bytes_len(packed_number(deltas, bits), n);
                    lemma_byte_range_values();
                    lemma_le_round_trip(n, 4);
                    assert(data.subrange(at + 1, at + 5) =~= le_bytes(n, 4));
                    assert(data.subrange(at + 5, at + 5 + n) =~= packed);
                    crate::bitpack::lemma_packed_number_fits(deltas, bits);
                    lemma_le_round_trip(packed_number(deltas, bits), n);
                    assert forall|i: int| 0 <= i < count implies unpacked(packed, bits, count)[i]
                        == deltas[i] by {
                        lemma_packed_round_trip(deltas, bits, i as nat);
                        vstd::arithmetic::div_mod::lemma_small_mod(
                            deltas[i] as nat,
                            pow2(bits),
                        );
                    }
                    assert(unpacked(packed, bits, count) =~= deltas);
                }
            }
            lemma_words_round_trip(signed, words, count);
            assert(deltas.take(count as int) =~= deltas);
            assert(words.take(count as int + 1) =~= words);
            let back = rows_from(col_type, words, width);
            assert forall|i: int| 0 <= i < rows.len() implies back[i] == rows[i] by {
                lemma_word_round_trip(col_type, rows[i], width);
            }
            assert(back =~= rows);
        }
    }
}

proof fn lemma_words_len(signed: bool, first: u64, deltas: Seq<u64>)
    ensures
        words_from(signed, first, deltas).len() == deltas.len() + 1,
    decreases deltas.len(),
{
    if deltas.len() > 0 {
        lemma_words_len(signed, first, deltas.drop_last());
    }
}

/// As many values come out as were asked for.
pub proof fn lemma_delta_rows_len(col_type: ColumnType, data: Seq<u8>, count: nat)
    requires
        delta_rows(col_type, data, count) is Ok,
    ensures
        delta_rows(col_type, data, count)->Ok_0.len() == count,
{
    if count > 1 {
        let width = data[0] as int;
        let first = data.subrange(1, 1 + width);
        let deltas = stored_deltas(data, 1 + width, (count - 1) as nat)->Ok_0;
        lemma_words_len(col_type.signed(), word_of(col_type, first), deltas);
    }
}

// Executable functions

/// The word that stands for a value of a column.
fn bytes_to_u64(col_type: &ColumnType, bytes: &[u8]) -> (word: u64)
    ensures
        word == word_of(*col_type, bytes@),
{
    match col_type.scalar_width() {
        Some(width) => {
            if bytes.len() < width {
                0
            } else {
                proof {
                    lemma_word_bound(*col_type, bytes@, width as nat);
                    assert(bytes@.subrange(0, width as int) =~= bytes@.take(width as int));
                }
                get_le(bytes, 0, width)
            }
        },
        None => 0,
    }
}

/// The value of a column that a word stands for.
fn u64_to_bytes(col_type: &ColumnType, value: u64, byte_width: usize) -> (bytes: Vec<u8>)
    ensures
        bytes@ == word_bytes(*col_type, value, byte_width as nat),
{
    let width: usize = match col_type.scalar_width() {
        Some(width) => width,
        None => byte_width,
    };
    let mut bytes: Vec<u8> = Vec::new();
    put_le(&mut bytes, value, width);
    assert(bytes@ =~= le_bytes(value as nat, width as nat));
    bytes
}

/// How `next` is stored after `prev`.
fn encode_delta(signed: bool, prev: u64, next: u64) -> (stored: u64)
    ensures
        stored == delta(signed, prev, next),
{
    let difference: u64 = next.wrapping_sub(prev);
    if signed {
        if difference < 0x8000_0000_0000_0000 {
            zigzag_encode(difference as i64)
        } else {
            zigzag_encode(-((u64::MAX - difference) as i64) - 1)
        }
    } else {
        difference
    }
}

/// The value stored as `stored` after `prev`.
fn decode_delta(signed: bool, prev: u64, stored: u64) -> (next: u64)
    ensures
        next == undelta(signed, prev, stored),
{
    if signed {
        let difference: i64 = zigzag_decode(stored);
        if difference >= 0 {
            prev.wrapping_add(difference as u64)
        } else {
            prev.wrapping_sub((-(difference + 1)) as u64).wrapping_sub(1)
        }
    } else {
        prev.wrapping_add(stored)
    }
}

/// Compresses fixed-width values by delta encoding and bit-packing.
pub fn compress_fastpfor(col_type: &ColumnType, values: &[Vec<u8>]) -> (result: Result<
    Vec<u8>,
    Fault,
>)
    ensures
        match result {
            Ok(bytes) => col_type.size() is Some && bytes@ == delta_bytes(
                *col_type,
                views(values@),
            ),
            Err(fault) => col_type.size() is None && fault == Fault::NotFixedWidth,
        },
{
    let byte_width: u64 = match col_type.byte_size() {
        Some(width) => width,
        None => {
            return Err(Fault::NotFixedWidth);
        },
    };
    let mut buf: Vec<u8> = Vec::new();
    buf.push(byte_width as u8);
    if values.len() == 0 {
        assert(buf@ =~= seq![byte_width as u8]);
        return Ok(buf);
    }
    let signed: bool = col_type.is_signed();
    let ghost rows = views(values@);
    let ghost words = words_of(*col_type, rows);
    let ghost all = deltas_of(signed, words);
    let mut deltas: Vec<u64> = Vec::new();
    let mut top: u64 = 0;
    let mut prev: u64 = bytes_to_u64(col_type, values[0].as_slice());
    let mut i: usize = 1;
    assert(all.take(0) =~= Seq::<u64>::empty());
    assert(deltas@ =~= all.take(0));
    while i < values.len()
        invariant
            1 <= i <= values@.len(),
            rows == views(values@),
            words == words_of(*col_type, rows),
            signed == col_type.signed(),
            all == deltas_of(signed, words),
            prev == words[i - 1],
            deltas@ == all.take(i - 1),
            top == largest(deltas@),
        decreases values@.len() - i,
    {
        let next: u64 = bytes_to_u64(col_type, values[i].as_slice());
        let stored: u64 = encode_delta(signed, prev, next);
        let ghost before = deltas@;
        deltas.push(stored);
        if stored > top {
            top = stored;
        }
        proof {
            assert(stored == all[i - 1]);
            assert(deltas@.drop_last() =~= before);
            assert(deltas@ =~= all.take(i as int));
        }
        prev = next;
        i = i + 1;
    }
    assert(all.take(values@.len() - 1) =~= all);
    let max_bits: u8 = bit_length_of(top);
    put_bytes(&mut buf, values[0].as_slice());
    buf.push(max_bits);
    assert(buf@ =~= (seq![byte_width as u8] + rows[0]).push(max_bits));
    if max_bits > 0 {
        let packed = bitpack_encode(deltas.as_slice(), max_bits);
        proof {
            lemma_le_bytes_len(
                packed_number(deltas@, max_bits as nat),
                packed_len(deltas@.len(), max_bits as nat),
            );
        }
        put_le(&mut buf, packed.len() as u64, 4);
        put_bytes(&mut buf, packed.as_slice());
    }
    Ok(buf)
}

/// Decompresses delta-encoded values.
pub fn decompress_fastpfor(col_type: &ColumnType, data: &[u8], row_count: u32) -> (result: Result<
    Vec<Vec<u8>>,
    Fault,
>)
    ensures
        match result {
            Ok(values) => delta_rows(*col_type, data@, row_count as nat) == Ok::<
                Seq<Seq<u8>>,
                Fault,
            >(views(values@)),
            Err(fault) => delta_rows(*col_type, data@, row_count as nat) == Err::<
                Seq<Seq<u8>>,
                Fault,
            >(fault),
        },
{
    if data.len() == 0 {
        return Err(Fault::DeltaDataEmpty);
    }
    let byte_width: usize = data[0] as usize;
    let mut values: Vec<Vec<u8>> = Vec::new();
    if row_count == 0 {
        assert(views(values@) =~= Seq::<Seq<u8>>::empty());
        return Ok(values);
    }
    if byte_width > data.len() - 1 {
        return Err(Fault::FirstValueMissing);
    }
    let first = slice_to_vec(slice_subrange(data, 1, 1 + byte_width));
    if row_count == 1 {
        let ghost f = first@;
        values.push(first);
        assert(views(values@) =~= seq![f]);
        return Ok(values);
    }
    let at: usize = 1 + byte_width;
    if at >= data.len() {
        return Err(Fault::BitWidthMissing);
    }
    let deltas = match read_deltas(data, at, (row_count - 1) as usize) {
        Ok(deltas) => deltas,
        Err(fault) => {
            return Err(fault);
        },
    };
    if byte_width > 8 && !col_type.is_fixed_width() {
        return Err(Fault::WidthOutOfRange);
    }
    let signed: bool = col_type.is_signed();
    let mut word: u64 = bytes_to_u64(col_type, first.as_slice());
    let ghost first_word = word;
    let ghost mut words: Seq<u64> = seq![word];
    values.push(u64_to_bytes(col_type, word, byte_width));
    let mut i: usize = 0;
    proof {
        assert(deltas@.take(0) =~= Seq::<u64>::empty());
        assert(views(values@) =~= rows_from(*col_type, words, byte_width as nat));
    }
    while i < deltas.len()
        invariant
            i <= deltas@.len(),
            signed == col_type.signed(),
            words == words_from(signed, first_word, deltas@.take(i as int)),
            words.len() > 0,
            word == words.last(),
            views(values@) == rows_from(*col_type, words, byte_width as nat),
        decreases deltas@.len() - i,
    {
        let ghost before = words;
        let ghost old_values = values@;
        word = decode_delta(signed, word, deltas[i]);
        values.push(u64_to_bytes(col_type, word, byte_width));
        proof {
            assert(deltas@.take(i + 1).drop_last() =~= deltas@.take(i as int));
            words = before.push(word);
            assert(views(values@) =~= views(old_values).push(
                word_bytes(*col_type, word, byte_width as nat),
            ));
            assert(rows_from(*col_type, words, byte_width as nat) =~= rows_from(
                *col_type,
                before,
                byte_width as nat,
            ).push(word_bytes(*col_type, word, byte_width as nat)));
        }
        i = i + 1;
    }
    assert(deltas@.take(deltas@.len() as int) =~= deltas@);
    Ok(values)
}

/// Reads the stored differences, with `at` the place of the bit width.
fn read_deltas(data: &[u8], at: usize, count: usize) -> (result: Result<Vec<u64>, Fault>)
    requires
        at < data@.len(),
    ensures
        match result {
            Ok(deltas) => stored_deltas(data@, at as int, count as nat) == Ok::<Seq<u64>, Fault>(
                deltas@,
            ),
            Err(fault) => stored_deltas(data@, at as int, count as nat) == Err::<Seq<u64>, Fault>(
                fault,
            ),
        },
{
    let max_bits: u8 = data[at];
    if max_bits == 0 {
        let zeros: Vec<u64> = vec![0u64; count];
        assert(zeros@ =~= Seq::new(count as nat, |i: int| 0u64));
        return Ok(zeros);
    }
    let after: usize = at + 1;
    if data.len() - after < 4 {
        return Err(Fault::PackedLengthMissing);
    }
    let n: usize = get_u32(data, after) as usize;
    let start: usize = after + 4;
    if n > data.len() - start {
        return Err(Fault::PackedDataOutOfBounds);
    }
    if max_bits > 64 {
        return Err(Fault::WidthOutOfRange);
    }
    let packed = slice_subrange(data, start, start + n);
    let deltas = bitpack_decode(packed, max_bits, count);
    assert(deltas@ =~= unpacked(packed@, max_bits as nat, count as nat));
    Ok(deltas)
}

} // verus!
