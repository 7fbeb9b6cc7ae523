//! Byte strings: comparison, little-endian integers and copies.

use vstd::prelude::*;

verus! {

/// Whether two byte strings are equal.
pub fn bytes_equal(a: &[u8], b: &[u8]) -> (result: bool)
    ensures
        result == (a@ == b@),
{
    if a.len() != b.len() {
        return false;
    }
    let n: usize = a.len();
    let mut i: usize = 0;
    while i < n
        invariant
            i <= n,
            n == a@.len(),
            n == b@.len(),
            forall|j: int| 0 <= j < i ==> a@[j] == b@[j],
        decreases n - i,
    {
        if a[i] != b[i] {
            assert(a@[i as int] != b@[i as int]);
            return false;
        }
        i = i + 1;
    }
    assert(a@ =~= b@);
    true
}

/// Length of the longest common prefix of two byte strings.
pub fn common_prefix_len(a: &[u8], b: &[u8]) -> (n: usize)
    ensures
        n <= a@.len(),
        n <= b@.len(),
        forall|j: int| 0 <= j < n ==> a@[j] == b@[j],
        n < a@.len() && n < b@.len() ==> a@[n as int] != b@[n as int],
{
    let mut n: usize = 0;
    while n < a.len() && n < b.len() && a[n] == b[n]
        invariant
            n <= a@.len(),
            n <= b@.len(),
            forall|j: int| 0 <= j < n ==> a@[j] == b@[j],
        decreases a@.len() - n,
    {
        n = n + 1;
    }
    n
}

// Little-endian integers

/// 256 to the power `width`: the number of values that `width` bytes hold.
pub open spec fn byte_range(width: nat) -> nat
    decreases width,
{
    if width == 0 {
        1
    } else {
        256 * byte_range((width - 1) as nat)
    }
}

/// The `width` low bytes of `value`, least significant first.
pub open spec fn le_bytes(value: nat, width: nat) -> Seq<u8>
    decreases width,
{
    if width == 0 {
        Seq::<u8>::empty()
    } else {
        seq![(value % 256) as u8] + le_bytes(value / 256, (width - 1) as nat)
    }
}

/// The number that `bytes` spells, least significant byte first.
pub open spec fn le_value(bytes: Seq<u8>) -> nat
    decreases bytes.len(),
{
    if bytes.len() == 0 {
        0
    } else {
        bytes[0] as nat + 256 * le_value(bytes.skip(1))
    }
}

pub proof fn lemma_byte_range_pos(width: nat)
    ensures
        byte_range(width) > 0,
    decreases width,
{
    if width > 0 {
        lemma_byte_range_pos((width - 1) as nat);
    }
}

/// The ranges of the usual integer widths.
pub proof fn lemma_byte_range_values()
    ensures
        byte_range(1) == 0x100,
        byte_range(2) == 0x1_0000,
        byte_range(4) == 0x1_0000_0000,
        byte_range(8) == 0x1_0000_0000_0000_0000,
        byte_range(16) == 0x1_0000_0000_0000_0000_0000_0000_0000_0000,
{
    reveal_with_fuel(byte_range, 17);
}

pub proof fn lemma_le_bytes_len(value: nat, width: nat)
    ensures
        le_bytes(value, width).len() == width,
    decreases width,
{
    if width > 0 {
        lemma_le_bytes_len(value / 256, (width - 1) as nat);
    }
}

pub proof fn lemma_le_value_bound(bytes: Seq<u8>)
    ensures
        le_value(bytes) < byte_range(bytes.len()),
    decreases bytes.len(),
{
    if bytes.len() > 0 {
        lemma_le_value_bound(bytes.skip(1));
    }
}

/// Reading back what was written gives the value, up to the width.
pub proof fn lemma_le_value_of_bytes(value: nat, width: nat)
    ensures
        le_value(le_bytes(value, width)) == value % byte_range(width),
    decreases width,
{
    if width == 0 {
        assert(value % 1 == 0);
    } else {
        let w = (width - 1) as nat;
        lemma_le_value_of_bytes(value / 256, w);
        lemma_le_bytes_len(value / 256, w);
        lemma_byte_range_pos(w);
        let whole = le_bytes(value, width);
        assert(whole.skip(1) =~= le_bytes(value / 256, w));
        vstd::arithmetic::div_mod::lemma_mod_breakdown(value as int, 256, byte_range(w) as int);
    }
}

/// A value that fits is read back unchanged.
pub proof fn lemma_le_round_trip(value: nat, width: nat)
    requires
        value < byte_range(width),
    ensures
        le_bytes(value, width).len() == width,
        le_value(le_bytes(value, width)) == value,
{
    lemma_le_bytes_len(value, width);
    lemma_le_value_of_bytes(value, width);
    vstd::arithmetic::div_mod::lemma_small_mod(value, byte_range(width));
}

/// Bytes are what their value is written as.
pub proof fn lemma_le_bytes_of_value(bytes: Seq<u8>)
    ensures
        le_bytes(le_value(bytes), bytes.len()) == bytes,
    decreases bytes.len(),
{
    if bytes.len() > 0 {
        let rest = bytes.skip(1);
        lemma_le_bytes_of_value(rest);
        let value = le_value(bytes);
        assert(value % 256 == bytes[0] as nat);
        assert(value / 256 == le_value(rest));
        assert(seq![bytes[0]] + rest =~= bytes);
    } else {
        assert(bytes =~= Seq::<u8>::empty());
    }
}

/// Only the part of a value that fits the width is written.
pub proof fn lemma_le_bytes_mod(value: nat, width: nat)
    ensures
        le_bytes(value % byte_range(width), width) == le_bytes(value, width),
    decreases width,
{
    lemma_byte_range_pos(width);
    lemma_le_value_of_bytes(value, width);
    lemma_le_bytes_len(value, width);
    lemma_le_bytes_of_value(le_bytes(value, width));
}

/// The bytes of a value are its low bytes, then those of what is left.
pub proof fn lemma_le_bytes_split(value: nat, low: nat, high: nat)
    ensures
        le_bytes(value, low + high) == le_bytes(value, low) + le_bytes(
            value / byte_range(low),
            high,
        ),
    decreases low,
{
    if low == 0 {
        assert(value / 1 == value);
        assert(le_bytes(value, 0) + le_bytes(value, high) =~= le_bytes(value, high));
    } else {
        let less = (low - 1) as nat;
        lemma_byte_range_pos(less);
        lemma_le_bytes_split(value / 256, less, high);
        vstd::arithmetic::div_mod::lemma_div_denominator(
            value as int,
            256,
            byte_range(less) as int,
        );
        assert(le_bytes(value, low + high) =~= le_bytes(value, low) + le_bytes(
            value / byte_range(low),
            high,
        ));
    }
}

/// Appends the `width` low bytes of `value`.
pub fn put_le(out: &mut Vec<u8>, value: u64, width: usize)
    ensures
        final(out)@ == old(out)@ + le_bytes(value as nat, width as nat),
{
    let ghost start = out@;
    let mut rest: u64 = value;
    let mut left: usize = width;
    while left > 0
        invariant
            out@ + le_bytes(rest as nat, left as nat) == start + le_bytes(
                value as nat,
                width as nat,
            ),
        decreases left,
    {
        let ghost before = out@;
        let low: u8 = (rest % 256) as u8;
        out.push(low);
        proof {
            assert(before + le_bytes(rest as nat, left as nat) =~= out@ + le_bytes(
                (rest / 256) as nat,
                (left - 1) as nat,
            ));
        }
        rest = rest / 256;
        left = left - 1;
    }
    assert(out@ + le_bytes(rest as nat, 0) =~= out@);
}

/// Appends a 16-bit integer.
pub fn put_u16(out: &mut Vec<u8>, value: u16)
    ensures
        final(out)@ == old(out)@ + le_bytes(value as nat, 2),
{
    put_le(out, value as u64, 2);
}

/// Appends a 32-bit integer.
pub fn put_u32(out: &mut Vec<u8>, value: u32)
    ensures
        final(out)@ == old(out)@ + le_bytes(value as nat, 4),
{
    put_le(out, value as u64, 4);
}

/// Appends a 64-bit integer.
pub fn put_u64(out: &mut Vec<u8>, value: u64)
    ensures
        final(out)@ == old(out)@ + le_bytes(value as nat, 8),
{
    put_le(out, value, 8);
}

/// Reads the integer of `width` bytes at `pos`.
pub fn get_le(data: &[u8], pos: usize, width: usize) -> (value: u64)
    requires
        width <= 8,
        pos + width <= data@.len(),
    ensures
        value == le_value(data@.subrange(pos as int, pos + width)),
        value < byte_range(width as nat),
{
    assert(data.len() == data@.len());
    let mut value: u64 = 0;
    let mut left: usize = width;
    while left > 0
        invariant
            left <= width <= 8,
            pos + width <= data@.len(),
            data@.len() <= usize::MAX,
            value == le_value(data@.subrange(pos + left, pos + width)),
        decreases left,
    {
        let ghost rest = data@.subrange(pos + left, pos + width);
        let ghost longer = data@.subrange(pos + left - 1, pos + width);
        proof {
            assert(longer.skip(1) =~= rest);
            lemma_le_value_bound(rest);
            lemma_byte_range_monotone(rest.len(), 7);
            assert(byte_range(7) == 0x100_0000_0000_0000) by {
                reveal_with_fuel(byte_range, 8);
            }
        }
        left = left - 1;
        value = value * 256 + data[pos + left] as u64;
    }
    proof {
        lemma_le_value_bound(data@.subrange(pos as int, pos + width));
    }
    value
}

pub proof fn lemma_byte_range_monotone(a: nat, b: nat)
    requires
        a <= b,
    ensures
        byte_range(a) <= byte_range(b),
    decreases b,
{
    if a < b {
        lemma_byte_range_monotone(a, (b - 1) as nat);
        lemma_byte_range_pos((b - 1) as nat);
    }
}

/// Reads the 16-bit integer at `pos`.
pub fn get_u16(data: &[u8], pos: usize) -> (value: u16)
    requires
        pos + 2 <= data@.len(),
    ensures
        value == le_value(data@.subrange(pos as int, pos + 2)),
{
    proof {
        lemma_byte_range_values();
    }
    get_le(data, pos, 2) as u16
}

/// Reads the 32-bit integer at `pos`.
pub fn get_u32(data: &[u8], pos: usize) -> (value: u32)
    requires
        pos + 4 <= data@.len(),
    ensures
        value == le_value(data@.subrange(pos as int, pos + 4)),
{
    proof {
        lemma_byte_range_values();
    }
    get_le(data, pos, 4) as u32
}

/// Reads the 64-bit integer at `pos`.
pub fn get_u64(data: &[u8], pos: usize) -> (value: u64)
    requires
        pos + 8 <= data@.len(),
    ensures
        value == le_value(data@.subrange(pos as int, pos + 8)),
{
    get_le(data, pos, 8)
}

/// Appends all of `bytes`.
pub fn put_bytes(out: &mut Vec<u8>, bytes: &[u8])
    ensures
        final(out)@ == old(out)@ + bytes@,
{
    let ghost start = out@;
    out.extend_from_slice(bytes);
    assert(out@ =~= start + bytes@);
}

// Lexicographic order

/// Whether `a` comes before `b` in the lexicographic order of byte strings.
pub open spec fn lex_lt(a: Seq<u8>, b: Seq<u8>) -> bool
    decreases b.len(),
{
    if b.len() == 0 {
        false
    } else if a.len() == 0 {
        true
    } else if a[0] != b[0] {
        a[0] < b[0]
    } else {
        lex_lt(a.skip(1), b.skip(1))
    }
}

/// Whether `a` comes before `b` or equals it.
pub open spec fn lex_le(a: Seq<u8>, b: Seq<u8>) -> bool {
    !lex_lt(b, a)
}

/// No byte string comes before itself.
pub proof fn lemma_lex_irreflexive(a: Seq<u8>)
    ensures
        !lex_lt(a, a),
    decreases a.len(),
{
    if a.len() > 0 {
        lemma_lex_irreflexive(a.skip(1));
    }
}

/// Two byte strings are equal unless one comes before the other.
pub proof fn lemma_lex_total(a: Seq<u8>, b: Seq<u8>)
    ensures
        lex_lt(a, b) || lex_lt(b, a) || a == b,
    decreases a.len(),
{
    if a.len() > 0 && b.len() > 0 {
        if a[0] == b[0] {
            lemma_lex_total(a.skip(1), b.skip(1));
            if a.skip(1) == b.skip(1) {
                assert(seq![a[0]] + a.skip(1) =~= a);
                assert(seq![b[0]] + b.skip(1) =~= b);
            }
        }
    } else if a.len() == 0 && b.len() == 0 {
        assert(a =~= b);
    }
}

/// At most one of two byte strings comes before the other.
pub proof fn lemma_lex_asymmetric(a: Seq<u8>, b: Seq<u8>)
    ensures
        !(lex_lt(a, b) && lex_lt(b, a)),
    decreases a.len(),
{
    if a.len() > 0 && b.len() > 0 {
        lemma_lex_asymmetric(a.skip(1), b.skip(1));
    }
}

/// The order is transitive.
pub proof fn lemma_lex_transitive(a: Seq<u8>, b: Seq<u8>, c: Seq<u8>)
    requires
        lex_lt(a, b),
        lex_lt(b, c),
    ensures
        lex_lt(a, c),
    decreases a.len(),
{
    if a.len() > 0 && b.len() > 0 && c.len() > 0 {
        if a[0] == b[0] && b[0] == c[0] {
            lemma_lex_transitive(a.skip(1), b.skip(1), c.skip(1));
        }
    }
}

/// `a <= b < c` gives `a < c`.
pub proof fn lemma_lex_le_lt(a: Seq<u8>, b: Seq<u8>, c: Seq<u8>)
    requires
        lex_le(a, b),
        lex_lt(b, c),
    ensures
        lex_lt(a, c),
{
    lemma_lex_total(a, b);
    if lex_lt(a, b) {
        lemma_lex_transitive(a, b, c);
    }
}

/// `a < b <= c` gives `a < c`.
pub proof fn lemma_lex_lt_le(a: Seq<u8>, b: Seq<u8>, c: Seq<u8>)
    requires
        lex_lt(a, b),
        lex_le(b, c),
    ensures
        lex_lt(a, c),
{
    lemma_lex_total(b, c);
    if lex_lt(b, c) {
        lemma_lex_transitive(a, b, c);
    }
}

/// `a <= b <= c` gives `a <= c`.
pub proof fn lemma_lex_le_le(a: Seq<u8>, b: Seq<u8>, c: Seq<u8>)
    requires
        lex_le(a, b),
        lex_le(b, c),
    ensures
        lex_le(a, c),
{
    if lex_lt(c, a) {
        lemma_lex_lt_le(c, a, b);
    }
}

/// How two byte strings compare.
#[derive(Clone, Copy, PartialEq, Eq, Structural, Debug)]
pub enum Compared {
    Less,
    Equal,
    Greater,
}

/// Compares two byte strings lexicographically.
pub fn compare_bytes(a: &[u8], b: &[u8]) -> (result: Compared)
    ensures
        match result {
            Compared::Less => lex_lt(a@, b@),
            Compared::Equal => a@ == b@,
            Compared::Greater => lex_lt(b@, a@),
        },
        (result == Compared::Less) == lex_lt(a@, b@),
        (result == Compared::Equal) == (a@ == b@),
        (result == Compared::Greater) == lex_lt(b@, a@),
{
    proof {
        lemma_lex_asymmetric(a@, b@);
        lemma_lex_irreflexive(a@);
        assert(a@.skip(0) =~= a@);
        assert(b@.skip(0) =~= b@);
    }
    let mut i: usize = 0;
    while i < a.len() && i < b.len()
        invariant
            i <= a@.len(),
            i <= b@.len(),
            forall|j: int| 0 <= j < i ==> a@[j] == b@[j],
            lex_lt(a@, b@) == lex_lt(a@.skip(i as int), b@.skip(i as int)),
            lex_lt(b@, a@) == lex_lt(b@.skip(i as int), a@.skip(i as int)),
            !(lex_lt(a@, b@) && lex_lt(b@, a@)),
            !lex_lt(a@, a@),
        decreases a@.len() - i,
    {
        if a[i] < b[i] {
            return Compared::Less;
        }
        if a[i] > b[i] {
            return Compared::Greater;
        }
        proof {
            assert(a@.skip(i as int).skip(1) =~= a@.skip(i + 1));
            assert(b@.skip(i as int).skip(1) =~= b@.skip(i + 1));
        }
        i = i + 1;
    }
    if a.len() < b.len() {
        Compared::Less
    } else if a.len() > b.len() {
        Compared::Greater
    } else {
        assert(a@ =~= b@);
        Compared::Equal
    }
}

/// Whether `key` starts with `prefix`.
pub fn starts_with(key: &[u8], prefix: &[u8]) -> (result: bool)
    ensures
        result == prefix@.is_prefix_of(key@),
{
    if prefix.len() > key.len() {
        return false;
    }
    let n: usize = common_prefix_len(key, prefix);
    if n == prefix.len() {
        assert(prefix@ =~= key@.subrange(0, prefix@.len() as int));
        true
    } else {
        assert(key@.subrange(0, prefix@.len() as int)[n as int] == key@[n as int]);
        false
    }
}

// Lists of byte strings

/// The byte strings that a list holds.
pub open spec fn views(values: Seq<Vec<u8>>) -> Seq<Seq<u8>> {
    Seq::new(values.len(), |i: int| values[i]@)
}

} // verus!
