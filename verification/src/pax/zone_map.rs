//! Zone maps: the least and the greatest value of a column.
//!
//! Values are compared in a byte form that orders numbers by their size, so
//! that a block can be skipped when no value of its column can match.

use vstd::prelude::*;
use vstd::slice::slice_to_vec;

use crate::bytes::{byte_range, compare_bytes, get_le, le_bytes, le_value, lex_lt, put_le};
use crate::bytes::{views, Compared};
use crate::bytes::{
    lemma_byte_range_values, lemma_le_bytes_len, lemma_le_value_bound, lemma_lex_asymmetric,
    lemma_lex_irreflexive, lemma_lex_le_le, lemma_lex_le_lt, lemma_lex_lt_le,
};
use crate::column::ColumnType;

verus! {

/// The least and the greatest value of a column, as raw bytes.
#[derive(PartialEq, Eq, Debug)]
pub struct ZoneMap {
    /// Least value in the column.
    pub min: Vec<u8>,
    /// Greatest value in the column.
    pub max: Vec<u8>,
}

/// Comparison operators that a scan can skip blocks by.
#[derive(Clone, Copy, PartialEq, Eq, Structural, Debug)]
pub enum PruneOp {
    Eq,
    Lt,
    Le,
    Gt,
    Ge,
}

/// The `width` low bytes of `value`, most significant first.
pub open spec fn be_bytes(value: nat, width: nat) -> Seq<u8> {
    le_bytes(value, width).reverse()
}

/// The number that a byte string of `width` bytes is compared by.
pub open spec fn sort_number(col_type: ColumnType, value: Seq<u8>) -> nat {
    let n = le_value(value);
    let range = byte_range(value.len());
    match col_type {
        ColumnType::Int8 | ColumnType::Int16 | ColumnType::Int32 | ColumnType::Int64 => if n >= range
            / 2 {
            (n - range / 2) as nat
        } else {
            n + range / 2
        },
        ColumnType::Float32 | ColumnType::Float64 => if n >= range / 2 {
            (range - 1 - n) as nat
        } else {
            n + range / 2
        },
        _ => n,
    }
}

/// Whether values of this type and length are compared by a number.
pub open spec fn sorts_by_number(col_type: ColumnType, len: nat) -> bool {
    !(col_type is UInt8) && !(col_type is Boolean) && col_type.width() == Some(len)
}

/// The byte form in which a value is compared lexicographically.
pub open spec fn comparable(col_type: ColumnType, value: Seq<u8>) -> Seq<u8> {
    if sorts_by_number(col_type, value.len()) {
        be_bytes(sort_number(col_type, value), value.len())
    } else {
        value
    }
}

/// Whether `a` sorts before `b` as values of a column.
pub open spec fn sorts_before(col_type: ColumnType, a: Seq<u8>, b: Seq<u8>) -> bool {
    lex_lt(comparable(col_type, a), comparable(col_type, b))
}

/// The first of the least values.
pub open spec fn least(col_type: ColumnType, rows: Seq<Seq<u8>>) -> Seq<u8>
    decreases rows.len(),
{
    if rows.len() == 0 {
        Seq::<u8>::empty()
    } else if rows.len() == 1 {
        rows[0]
    } else {
        let before = least(col_type, rows.drop_last());
        if sorts_before(col_type, rows.last(), before) {
            rows.last()
        } else {
            before
        }
    }
}

/// The last of the greatest values.
pub open spec fn greatest(col_type: ColumnType, rows: Seq<Seq<u8>>) -> Seq<u8>
    decreases rows.len(),
{
    if rows.len() == 0 {
        Seq::<u8>::empty()
    } else if rows.len() == 1 {
        rows[0]
    } else {
        let before = greatest(col_type, rows.drop_last());
        if sorts_before(col_type, rows.last(), before) {
            before
        } else {
            rows.last()
        }
    }
}

// Laws

/// Every value of a column lies between the ends of its zone map.
pub proof fn lemma_zone_map_bounds(col_type: ColumnType, rows: Seq<Seq<u8>>, i: int)
    requires
        0 <= i < rows.len(),
    ensures
        !sorts_before(col_type, rows[i], least(col_type, rows)),
        !sorts_before(col_type, greatest(col_type, rows), rows[i]),
    decreases rows.len(),
{
    lemma_lex_irreflexive(comparable(col_type, rows[i]));
    if rows.len() > 1 {
        let front = rows.drop_last();
        let low = least(col_type, front);
        let high = greatest(col_type, front);
        let last = rows.last();
        let cl = comparable(col_type, last);
        if i < rows.len() - 1 {
            lemma_zone_map_bounds(col_type, front, i);
            assert(front[i] == rows[i]);
            let ci = comparable(col_type, rows[i]);
            if sorts_before(col_type, last, low) {
                // last < low <= rows[i]
                lemma_lex_lt_le(cl, comparable(col_type, low), ci);
                lemma_lex_asymmetric(cl, ci);
            }
            if !sorts_before(col_type, last, high) {
                // rows[i] <= high <= last
                lemma_lex_le_le(ci, comparable(col_type, high), cl);
            }
        } else {
            if sorts_before(col_type, last, low) {
                lemma_lex_irreflexive(cl);
            }
            if sorts_before(col_type, last, high) {
                lemma_lex_asymmetric(cl, comparable(col_type, high));
            }
        }
    }
}

/// Appending a byte to two byte strings of one length.
proof fn lemma_lex_push(a: Seq<u8>, b: Seq<u8>, p: u8, q: u8)
    requires
        a.len() == b.len(),
    ensures
        lex_lt(a.push(p), b.push(q)) == (lex_lt(a, b) || (a == b && p < q)),
    decreases a.len(),
{
    if a.len() == 0 {
        assert(a =~= b);
        assert(a.push(p).skip(1) =~= Seq::<u8>::empty());
        assert(b.push(q).skip(1) =~= Seq::<u8>::empty());
        assert(!lex_lt(Seq::<u8>::empty(), Seq::<u8>::empty()));
    } else {
        assert(a.push(p).skip(1) =~= a.skip(1).push(p));
        assert(b.push(q).skip(1) =~= b.skip(1).push(q));
        lemma_lex_push(a.skip(1), b.skip(1), p, q);
        if a[0] == b[0] && a.skip(1) == b.skip(1) {
            assert(seq![a[0]] + a.skip(1) =~= a);
            assert(seq![b[0]] + b.skip(1) =~= b);
            assert(a == b);
        }
    }
}

/// Big-endian byte strings sort as the numbers that they spell.
pub proof fn lemma_be_bytes_sort(x: nat, y: nat, width: nat)
    requires
        x < byte_range(width),
        y < byte_range(width),
    ensures
        lex_lt(be_bytes(x, width), be_bytes(y, width)) == (x < y),
        be_bytes(x, width) == be_bytes(y, width) <==> x == y,
    decreases width,
{
    if width > 0 {
        let w = (width - 1) as nat;
        let a = be_bytes(x / 256, w);
        let b = be_bytes(y / 256, w);
        lemma_be_bytes_sort(x / 256, y / 256, w);
        lemma_le_bytes_len(x / 256, w);
        lemma_le_bytes_len(y / 256, w);
        assert(be_bytes(x, width) =~= a.push((x % 256) as u8));
        assert(be_bytes(y, width) =~= b.push((y % 256) as u8));
        lemma_lex_push(a, b, (x % 256) as u8, (y % 256) as u8);
        if be_bytes(x, width) == be_bytes(y, width) {
            assert(a.push((x % 256) as u8).last() == b.push((y % 256) as u8).last());
            assert(a =~= a.push((x % 256) as u8).drop_last());
            assert(b =~= b.push((y % 256) as u8).drop_last());
        }
    }
}

/// The number that a value of a signed integer column spells.
pub open spec fn signed_value(value: Seq<u8>) -> int {
    let n = le_value(value);
    let range = byte_range(value.len());
    if n < range / 2 {
        n as int
    } else {
        n - range
    }
}

/// Unsigned integers sort by their size.
pub proof fn lemma_unsigned_sort(col_type: ColumnType, a: Seq<u8>, b: Seq<u8>)
    requires
        col_type is UInt16 || col_type is UInt32 || col_type is UInt64,
        col_type.width() == Some(a.len()),
        col_type.width() == Some(b.len()),
    ensures
        sorts_before(col_type, a, b) == (le_value(a) < le_value(b)),
{
    lemma_le_value_bound(a);
    lemma_le_value_bound(b);
    lemma_be_bytes_sort(le_value(a), le_value(b), a.len());
}

/// Signed integers sort by their size.
pub proof fn lemma_signed_sort(col_type: ColumnType, a: Seq<u8>, b: Seq<u8>)
    requires
        col_type.signed(),
        col_type.width() == Some(a.len()),
        col_type.width() == Some(b.len()),
    ensures
        sorts_before(col_type, a, b) == (signed_value(a) < signed_value(b)),
{
    lemma_le_value_bound(a);
    lemma_le_value_bound(b);
    lemma_byte_range_values();
    let range = byte_range(a.len());
    assert(range % 2 == 0 && range > 0);
    lemma_be_bytes_sort(sort_number(col_type, a), sort_number(col_type, b), a.len());
}

/// A byte string spells what its bytes but the last do, and the last byte in the highest
/// place.
proof fn lemma_le_value_last(bytes: Seq<u8>)
    requires
        bytes.len() > 0,
    ensures
        le_value(bytes) == le_value(bytes.drop_last()) + bytes.last() * byte_range(
            (bytes.len() - 1) as nat,
        ),
    decreases bytes.len(),
{
    let n = (bytes.len() - 1) as nat;
    if n == 0 {
        assert(bytes.skip(1) =~= Seq::<u8>::empty());
        assert(bytes.drop_last() =~= Seq::<u8>::empty());
        assert(le_value(bytes.skip(1)) == 0 && le_value(bytes.drop_last()) == 0);
        assert(byte_range(0) == 1);
    } else {
        let rest = bytes.skip(1);
        lemma_le_value_last(rest);
        assert(rest.drop_last() =~= bytes.drop_last().skip(1));
        assert(rest.last() == bytes.last());
        let b = byte_range((n - 1) as nat) as int;
        let l = bytes.last() as int;
        assert(256 * (l * b) == l * (256 * b)) by (nonlinear_arith);
        assert(byte_range(n) == 256 * b);
    }
}

/// Whether a floating-point value has its sign bit set: the highest bit of its last byte.
pub open spec fn float_negative(value: Seq<u8>) -> bool {
    value.last() >= 0x80
}

/// The bits of a floating-point value but for the sign, as a number. Of values that are not
/// NaN, the one with the greater magnitude is further from zero.
pub open spec fn float_magnitude(value: Seq<u8>) -> nat {
    le_value(value.drop_last().push((value.last() % 0x80) as u8))
}

/// Where a floating-point value stands on the number line: the order of these numbers is
/// that of the values that are not NaN.
pub open spec fn float_place(value: Seq<u8>) -> int {
    if float_negative(value) {
        -(float_magnitude(value) as int)
    } else {
        float_magnitude(value) as int
    }
}

proof fn lemma_float_bits(value: Seq<u8>)
    requires
        value.len() > 0,
    ensures
        float_magnitude(value) < byte_range(value.len()) / 2,
        byte_range(value.len()) % 2 == 0,
        le_value(value) == float_magnitude(value) + if float_negative(value) {
            byte_range(value.len()) / 2
        } else {
            0
        },
{
    let front = value.drop_last();
    let b = byte_range(front.len()) as int;
    let cut = front.push((value.last() % 0x80) as u8);
    lemma_le_value_last(value);
    lemma_le_value_last(cut);
    lemma_le_value_bound(front);
    assert(cut.drop_last() =~= front);
    assert(byte_range(value.len()) == 256 * b);
    let l = value.last() as int;
    let m = (value.last() % 0x80) as int;
    assert(l == if l >= 0x80 {
        m + 0x80
    } else {
        m
    });
    assert((m + 0x80) * b == m * b + 128 * b) by (nonlinear_arith);
    assert(m * b <= 127 * b) by (nonlinear_arith)
        requires
            m <= 127,
            b >= 0,
    ;
}

/// Floating-point values sort by their place on the number line: of two values with the sign
/// bit the one with the greater magnitude comes first, of two without it the one with the
/// smaller, and every value with the sign bit comes before every one without it.
pub proof fn lemma_float_sort(col_type: ColumnType, a: Seq<u8>, b: Seq<u8>)
    requires
        col_type is Float32 || col_type is Float64,
        col_type.width() == Some(a.len()),
        col_type.width() == Some(b.len()),
    ensures
        float_negative(a) && float_negative(b) ==> sorts_before(col_type, a, b) == (
        float_magnitude(a) > float_magnitude(b)),
        !float_negative(a) && !float_negative(b) ==> sorts_before(col_type, a, b) == (
        float_magnitude(a) < float_magnitude(b)),
        float_negative(a) && !float_negative(b) ==> sorts_before(col_type, a, b),
        !float_negative(a) && float_negative(b) ==> !sorts_before(col_type, a, b),
        float_place(a) < float_place(b) ==> sorts_before(col_type, a, b),
        sorts_before(col_type, a, b) ==> float_place(a) <= float_place(b),
{
    lemma_float_bits(a);
    lemma_float_bits(b);
    lemma_be_bytes_sort(sort_number(col_type, a), sort_number(col_type, b), a.len());
}

/// Values of the other types sort as byte strings.
pub proof fn lemma_bytes_sort(col_type: ColumnType, a: Seq<u8>, b: Seq<u8>)
    requires
        col_type.variable() || col_type is UInt8 || col_type is Boolean
            || col_type is Embedding,
    ensures
        sorts_before(col_type, a, b) == lex_lt(a, b),
{
}

/// Whether a value of a column satisfies a comparison.
pub open spec fn satisfies(col_type: ColumnType, op: PruneOp, row: Seq<u8>, value: Seq<u8>) -> bool {
    match op {
        PruneOp::Eq => comparable(col_type, row) == comparable(col_type, value),
        PruneOp::Lt => sorts_before(col_type, row, value),
        PruneOp::Le => !sorts_before(col_type, value, row),
        PruneOp::Gt => sorts_before(col_type, value, row),
        PruneOp::Ge => !sorts_before(col_type, row, value),
    }
}

/// Whether a zone map leaves room for a value that satisfies a comparison. A
/// zone map with two empty ends says nothing.
pub open spec fn can_match(
    col_type: ColumnType,
    min: Seq<u8>,
    max: Seq<u8>,
    op: PruneOp,
    value: Seq<u8>,
) -> bool {
    (min.len() == 0 && max.len() == 0) || match op {
        PruneOp::Eq => !sorts_before(col_type, value, min) && !sorts_before(col_type, max, value),
        PruneOp::Lt => sorts_before(col_type, min, value),
        PruneOp::Le => !sorts_before(col_type, value, min),
        PruneOp::Gt => sorts_before(col_type, value, max),
        PruneOp::Ge => !sorts_before(col_type, max, value),
    }
}

/// A block that holds a matching row is never skipped.
pub proof fn lemma_pruning_sound(
    col_type: ColumnType,
    rows: Seq<Seq<u8>>,
    i: int,
    op: PruneOp,
    value: Seq<u8>,
)
    requires
        0 <= i < rows.len(),
        satisfies(col_type, op, rows[i], value),
    ensures
        can_match(col_type, least(col_type, rows), greatest(col_type, rows), op, value),
{
    lemma_zone_map_bounds(col_type, rows, i);
    let low = comparable(col_type, least(col_type, rows));
    let high = comparable(col_type, greatest(col_type, rows));
    let row = comparable(col_type, rows[i]);
    let v = comparable(col_type, value);
    match op {
        PruneOp::Eq => {},
        PruneOp::Lt => {
            lemma_lex_le_lt(low, row, v);
        },
        PruneOp::Le => {
            lemma_lex_le_le(low, row, v);
        },
        PruneOp::Gt => {
            lemma_lex_lt_le(v, row, high);
        },
        PruneOp::Ge => {
            lemma_lex_le_le(v, row, high);
        },
    }
}

/// Whether a value is below another one, as values of a column: by the numbers that they
/// spell, or else as byte strings.
pub open spec fn below(col_type: ColumnType, a: Seq<u8>, b: Seq<u8>) -> bool {
    match col_type {
        ColumnType::Int8 | ColumnType::Int16 | ColumnType::Int32 | ColumnType::Int64 =>
            signed_value(a) < signed_value(b),
        ColumnType::UInt16 | ColumnType::UInt32 | ColumnType::UInt64 => le_value(a) < le_value(b),
        ColumnType::Float32 | ColumnType::Float64 => float_place(a) < float_place(b),
        _ => lex_lt(a, b),
    }
}

/// Whether a value of a column meets a comparison.
pub open spec fn meets(col_type: ColumnType, op: PruneOp, row: Seq<u8>, value: Seq<u8>) -> bool {
    match op {
        PruneOp::Eq => row == value,
        PruneOp::Lt => below(col_type, row, value),
        PruneOp::Le => below(col_type, row, value) || row == value,
        PruneOp::Gt => below(col_type, value, row),
        PruneOp::Ge => below(col_type, value, row) || row == value,
    }
}

proof fn lemma_below_sorts(col_type: ColumnType, a: Seq<u8>, b: Seq<u8>)
    requires
        col_type.width() matches Some(width) ==> a.len() == width && b.len() == width,
        below(col_type, a, b),
    ensures
        sorts_before(col_type, a, b),
        !sorts_before(col_type, b, a),
{
    match col_type {
        ColumnType::Int8 | ColumnType::Int16 | ColumnType::Int32 | ColumnType::Int64 => {
            lemma_signed_sort(col_type, a, b);
        },
        ColumnType::UInt16 | ColumnType::UInt32 | ColumnType::UInt64 => {
            lemma_unsigned_sort(col_type, a, b);
        },
        ColumnType::Float32 | ColumnType::Float64 => {
            lemma_float_sort(col_type, a, b);
        },
        _ => {
            lemma_bytes_sort(col_type, a, b);
        },
    }
    lemma_lex_asymmetric(comparable(col_type, a), comparable(col_type, b));
}

/// A value that meets a comparison satisfies it.
pub proof fn lemma_meets_satisfies(
    col_type: ColumnType,
    op: PruneOp,
    row: Seq<u8>,
    value: Seq<u8>,
)
    requires
        col_type.width() matches Some(width) ==> row.len() == width && value.len() == width,
        meets(col_type, op, row, value),
    ensures
        satisfies(col_type, op, row, value),
{
    lemma_lex_irreflexive(comparable(col_type, row));
    if below(col_type, row, value) {
        lemma_below_sorts(col_type, row, value);
    }
    if below(col_type, value, row) {
        lemma_below_sorts(col_type, value, row);
    }
}

/// A block with a row whose value meets a comparison, by the size of numbers or as byte
/// strings, is never skipped for it.
pub proof fn lemma_match_never_skipped(
    col_type: ColumnType,
    rows: Seq<Seq<u8>>,
    i: int,
    op: PruneOp,
    value: Seq<u8>,
)
    requires
        0 <= i < rows.len(),
        col_type.width() matches Some(width) ==> rows[i].len() == width && value.len() == width,
        meets(col_type, op, rows[i], value),
    ensures
        can_match(col_type, least(col_type, rows), greatest(col_type, rows), op, value),
{
    lemma_meets_satisfies(col_type, op, rows[i], value);
    lemma_pruning_sound(col_type, rows, i, op, value);
}

/// The ends of a zone map are values of the column.
pub proof fn lemma_ends_are_values(col_type: ColumnType, rows: Seq<Seq<u8>>)
    requires
        rows.len() > 0,
    ensures
        rows.contains(least(col_type, rows)),
        rows.contains(greatest(col_type, rows)),
    decreases rows.len(),
{
    if rows.len() == 1 {
        assert(rows[0] == least(col_type, rows));
    } else {
        let front = rows.drop_last();
        lemma_ends_are_values(col_type, front);
        assert(rows[rows.len() - 1] == rows.last());
        let low = choose|i: int| 0 <= i < front.len() && front[i] == least(col_type, front);
        let high = choose|i: int| 0 <= i < front.len() && front[i] == greatest(col_type, front);
        assert(rows[low] == front[low]);
        assert(rows[high] == front[high]);
    }
}

/// A block that no row of meets an inequality is skipped for it, unless its zone map says
/// nothing; and one is skipped for an equality if all values lie on one side.
pub proof fn lemma_no_match_skipped(
    col_type: ColumnType,
    rows: Seq<Seq<u8>>,
    op: PruneOp,
    value: Seq<u8>,
)
    requires
        rows.len() > 0,
        least(col_type, rows).len() > 0 || greatest(col_type, rows).len() > 0,
    ensures
        op != PruneOp::Eq && (forall|i: int|
            0 <= i < rows.len() ==> !satisfies(col_type, op, #[trigger] rows[i], value))
            ==> !can_match(col_type, least(col_type, rows), greatest(col_type, rows), op, value),
        op == PruneOp::Eq && (forall|i: int|
            0 <= i < rows.len() ==> sorts_before(col_type, #[trigger] rows[i], value))
            ==> !can_match(col_type, least(col_type, rows), greatest(col_type, rows), op, value),
        op == PruneOp::Eq && (forall|i: int|
            0 <= i < rows.len() ==> sorts_before(col_type, value, #[trigger] rows[i]))
            ==> !can_match(col_type, least(col_type, rows), greatest(col_type, rows), op, value),
{
    lemma_ends_are_values(col_type, rows);
    let low = choose|i: int| 0 <= i < rows.len() && rows[i] == least(col_type, rows);
    let high = choose|i: int| 0 <= i < rows.len() && rows[i] == greatest(col_type, rows);
    assert(rows[low] == least(col_type, rows));
    assert(rows[high] == greatest(col_type, rows));
}

// Executable functions

/// The `width` low bytes of `value`, most significant first.
fn be_vec(value: u64, width: usize) -> (bytes: Vec<u8>)
    ensures
        bytes@ == be_bytes(value as nat, width as nat),
{
    let mut le: Vec<u8> = Vec::new();
    put_le(&mut le, value, width);
    assert(le@ =~= le_bytes(value as nat, width as nat));
    let mut bytes: Vec<u8> = Vec::new();
    let mut left: usize = le.len();
    while left > 0
        invariant
            left <= le@.len(),
            bytes@.len() == le@.len() - left,
            forall|j: int| 0 <= j < bytes@.len() ==> bytes@[j] == le@[le@.len() - 1 - j],
        decreases left,
    {
        left = left - 1;
        bytes.push(le[left]);
    }
    assert(bytes@ =~= le@.reverse());
    bytes
}

/// The byte form in which a value is compared lexicographically: big-endian
/// for unsigned integers, with the sign bit flipped for signed ones and for
/// positive floats, with all bits flipped for negative floats, and the bytes
/// themselves for everything else.
pub fn to_comparable_bytes(col_type: &ColumnType, value: &[u8]) -> (bytes: Vec<u8>)
    ensures
        bytes@ == comparable(*col_type, value@),
{
    let width: usize = match col_type.scalar_width() {
        Some(width) => width,
        None => {
            return slice_to_vec(value);
        },
    };
    if matches!(col_type, ColumnType::UInt8 | ColumnType::Boolean) || value.len() != width {
        return slice_to_vec(value);
    }
    proof {
        lemma_byte_range_values();
        assert(value@.subrange(0, width as int) =~= value@);
    }
    let n: u64 = get_le(value, 0, width);
    let half: u64 = match width {
        1 => 0x80,
        2 => 0x8000,
        4 => 0x8000_0000,
        _ => 0x8000_0000_0000_0000,
    };
    let sorted: u64 = match col_type {
        ColumnType::Int8 | ColumnType::Int16 | ColumnType::Int32 | ColumnType::Int64 => {
            if n >= half {
                n - half
            } else {
                n + half
            }
        },
        ColumnType::Float32 | ColumnType::Float64 => {
            if n >= half {
                half - 1 - (n - half)
            } else {
                n + half
            }
        },
        _ => n,
    };
    proof {
        assert(half == byte_range(value@.len()) / 2);
        assert(sorted == sort_number(*col_type, value@));
    }
    be_vec(sorted, width)
}

/// Extracts the zone map of a column from its values.
pub fn extract_zone_map(col_type: &ColumnType, values: &[Vec<u8>]) -> (zone_map: ZoneMap)
    ensures
        zone_map.min@ == least(*col_type, views(values@)),
        zone_map.max@ == greatest(*col_type, views(values@)),
{
    if values.len() == 0 {
        return ZoneMap { min: Vec::new(), max: Vec::new() };
    }
    let ghost rows = views(values@);
    let mut min_idx: usize = 0;
    let mut max_idx: usize = 0;
    let mut min_form = to_comparable_bytes(col_type, values[0].as_slice());
    let mut max_form = to_comparable_bytes(col_type, values[0].as_slice());
    let mut i: usize = 1;
    while i < values.len()
        invariant
            1 <= i <= values@.len(),
            rows == views(values@),
            min_idx < values@.len(),
            max_idx < values@.len(),
            rows[min_idx as int] == least(*col_type, rows.take(i as int)),
            rows[max_idx as int] == greatest(*col_type, rows.take(i as int)),
            min_form@ == comparable(*col_type, rows[min_idx as int]),
            max_form@ == comparable(*col_type, rows[max_idx as int]),
        decreases values@.len() - i,
    {
        proof {
            assert(rows.take(i + 1).drop_last() =~= rows.take(i as int));
        }
        let form = to_comparable_bytes(col_type, values[i].as_slice());
        let low = compare_bytes(form.as_slice(), min_form.as_slice());
        let high = compare_bytes(form.as_slice(), max_form.as_slice());
        if high != Compared::Less {
            max_idx = i;
            max_form = slice_to_vec(form.as_slice());
        }
        if low == Compared::Less {
            min_idx = i;
            min_form = form;
        }
        i = i + 1;
    }
    assert(rows.take(values@.len() as int) =~= rows);
    ZoneMap {
        min: slice_to_vec(values[min_idx].as_slice()),
        max: slice_to_vec(values[max_idx].as_slice()),
    }
}

/// Whether a block whose column has this zone map can hold a row that
/// satisfies `column <op> value`.
pub fn zone_map_can_match(
    col_type: &ColumnType,
    min: &[u8],
    max: &[u8],
    op: PruneOp,
    value: &[u8],
) -> (result: bool)
    ensures
        result == can_match(*col_type, min@, max@, op, value@),
{
    if min.len() == 0 && max.len() == 0 {
        return true;
    }
    let low = to_comparable_bytes(col_type, min);
    let high = to_comparable_bytes(col_type, max);
    let v = to_comparable_bytes(col_type, value);
    match op {
        PruneOp::Eq => compare_bytes(v.as_slice(), low.as_slice()) != Compared::Less
            && compare_bytes(high.as_slice(), v.as_slice()) != Compared::Less,
        PruneOp::Lt => compare_bytes(low.as_slice(), v.as_slice()) == Compared::Less,
        PruneOp::Le => compare_bytes(v.as_slice(), low.as_slice()) != Compared::Less,
        PruneOp::Gt => compare_bytes(v.as_slice(), high.as_slice()) == Compared::Less,
        PruneOp::Ge => compare_bytes(high.as_slice(), v.as_slice()) != Compared::Less,
    }
}

} // verus!
