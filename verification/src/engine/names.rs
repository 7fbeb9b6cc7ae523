//! Names of the files in the data directory.
//!
//! SST files are named `sst_<id>.pax`, with a decimal id; the write-ahead log
//! is `wal.log`.

use vstd::arithmetic::power::{lemma_pow0, lemma_pow1, lemma_pow_adds, pow};
use vstd::prelude::*;
use vstd::slice::slice_subrange;

use crate::bytes::{bytes_equal, lex_lt, put_bytes};

verus! {

/// The bytes of `sst_`.
pub open spec fn sst_prefix() -> Seq<u8> {
    seq![115u8, 115u8, 116u8, 95u8]
}

/// The bytes of `.pax`.
pub open spec fn sst_suffix() -> Seq<u8> {
    seq![46u8, 112u8, 97u8, 120u8]
}

/// The bytes of `wal.log`.
pub open spec fn wal_name() -> Seq<u8> {
    seq![119u8, 97u8, 108u8, 46u8, 108u8, 111u8, 103u8]
}

/// Decimal digits of a number.
pub open spec fn digits(n: nat) -> Seq<u8>
    decreases n,
{
    if n < 10 {
        seq![(48 + n) as u8]
    } else {
        digits(n / 10).push((48 + n % 10) as u8)
    }
}

/// The number that decimal digits spell, `None` if there is another character.
pub open spec fn digits_value(text: Seq<u8>) -> Option<nat>
    decreases text.len(),
{
    if text.len() == 0 {
        Some(0)
    } else {
        match digits_value(text.drop_last()) {
            Some(n) => if 48 <= text.last() <= 57 {
                Some(10 * n + (text.last() - 48) as nat)
            } else {
                None
            },
            None => None,
        }
    }
}

/// The 64-bit number that a text spells in decimal, perhaps after a plus sign.
pub open spec fn parse_number(text: Seq<u8>) -> Option<u64> {
    let number = if text.len() > 0 && text[0] == 43 {
        text.skip(1)
    } else {
        text
    };
    if number.len() == 0 {
        None
    } else {
        match digits_value(number) {
            Some(n) => if n <= u64::MAX {
                Some(n as u64)
            } else {
                None
            },
            None => None,
        }
    }
}

/// Name of the SST file with an id.
pub open spec fn sst_name(id: u64) -> Seq<u8> {
    sst_prefix() + digits(id as nat) + sst_suffix()
}

/// Whether a name is that of an SST file.
pub open spec fn is_sst_name(name: Seq<u8>) -> bool {
    &&& name.len() >= 8
    &&& name.take(4) == sst_prefix()
    &&& name.skip(name.len() - 4) == sst_suffix()
}

/// The id in the name of an SST file.
pub open spec fn sst_name_id(name: Seq<u8>) -> Option<u64> {
    if is_sst_name(name) {
        parse_number(name.subrange(4, name.len() - 4))
    } else {
        None
    }
}

/// Decimal digits spell the number that they are of.
pub proof fn lemma_digits(n: nat)
    ensures
        digits(n).len() > 0,
        digits_value(digits(n)) == Some(n),
        48 <= digits(n)[0] <= 57,
    decreases n,
{
    reveal_with_fuel(digits_value, 2);
    if n < 10 {
        assert(digits(n).drop_last() =~= Seq::<u8>::empty());
    } else {
        lemma_digits(n / 10);
        assert(digits(n).drop_last() =~= digits(n / 10));
    }
}

/// The id is read back from the name of an SST file.
pub proof fn lemma_sst_name_round_trip(id: u64)
    ensures
        sst_name_id(sst_name(id)) == Some(id),
{
    let name = sst_name(id);
    lemma_digits(id as nat);
    assert(name.take(4) =~= sst_prefix());
    assert(name.skip(name.len() - 4) =~= sst_suffix());
    assert(name.subrange(4, name.len() - 4) =~= digits(id as nat));
}

proof fn lemma_longer_sorts(a: Seq<u8>, b: Seq<u8>, x: u8, y: u8)
    requires
        a.len() == b.len(),
        lex_lt(a, b) || a == b && x < y,
    ensures
        lex_lt(a.push(x), b.push(y)),
    decreases a.len(),
{
    if a.len() == 0 {
        assert(a.push(x)[0] == x && b.push(y)[0] == y);
    } else {
        assert(a.push(x).skip(1) =~= a.skip(1).push(x));
        assert(b.push(y).skip(1) =~= b.skip(1).push(y));
        if a[0] == b[0] {
            lemma_longer_sorts(a.skip(1), b.skip(1), x, y);
        }
    }
}

/// Decimal digits are the characters 0 to 9, with no 0 in front of others. There are as many
/// as the powers of ten say, and of two numbers with as many digits the greater one's sort
/// later.
pub proof fn lemma_digits_order(a: nat, b: nat)
    requires
        a < b,
    ensures
        forall|i: int| 0 <= i < digits(b).len() ==> 48 <= #[trigger] digits(b)[i] <= 57,
        digits(b)[0] != 48,
        pow(10, (digits(b).len() - 1) as nat) <= b < pow(10, digits(b).len()),
        digits(a).len() <= digits(b).len(),
        digits(a).len() == digits(b).len() ==> lex_lt(digits(a), digits(b)),
    decreases b,
{
    lemma_digits(a);
    lemma_digits(b);
    lemma_pow0(10);
    lemma_pow1(10);
    if b >= 10 {
        let d = digits(b).len();
        assert(0 < b / 10);
        if a / 10 < b / 10 {
            lemma_digits_order(a / 10, b / 10);
        } else {
            lemma_digits_order(0, b / 10);
        }
        assert(digits(b) == digits(b / 10).push((48 + b % 10) as u8));
        assert(digits(b)[0] == digits(b / 10)[0]);
        lemma_pow_adds(10, 1, (d - 2) as nat);
        lemma_pow_adds(10, 1, (d - 1) as nat);
        if a >= 10 {
            assert(digits(a) == digits(a / 10).push((48 + a % 10) as u8));
            if digits(a).len() == digits(b).len() {
                lemma_longer_sorts(
                    digits(a / 10),
                    digits(b / 10),
                    (48 + a % 10) as u8,
                    (48 + b % 10) as u8,
                );
            }
        }
    } else {
        assert(digits(a)[0] == 48 + a && digits(b)[0] == 48 + b);
    }
}

proof fn lemma_all_digits(text: Seq<u8>)
    ensures
        digits_value(text) is Some <==> forall|i: int|
            0 <= i < text.len() ==> 48 <= #[trigger] text[i] <= 57,
    decreases text.len(),
{
    if text.len() > 0 {
        let front = text.drop_last();
        lemma_all_digits(front);
        assert(text.last() == text[text.len() - 1]);
        if digits_value(front) is None {
            let i = choose|i: int| 0 <= i < front.len() && !(48 <= #[trigger] front[i] <= 57);
            assert(text[i] == front[i]);
        } else if 48 <= text.last() <= 57 {
            assert forall|i: int| 0 <= i < text.len() implies 48 <= #[trigger] text[i] <= 57 by {
                if i < front.len() {
                    assert(front[i] == text[i]);
                }
            }
        }
    }
}

/// A number that 64 bits hold is read back from its digits, alone or behind a plus sign; a
/// greater one is refused.
pub proof fn lemma_number_read(n: nat)
    ensures
        ({
            let number = if n <= u64::MAX {
                Some(n as u64)
            } else {
                None
            };
            &&& parse_number(digits(n)) == number
            &&& parse_number(seq![43u8] + digits(n)) == number
        }),
{
    lemma_digits(n);
    assert((seq![43u8] + digits(n)).skip(1) =~= digits(n));
}

/// A text is read as a number only if it has a digit, and nothing but digits behind the plus
/// sign that it may begin with.
pub proof fn lemma_number_refused(text: Seq<u8>, i: int)
    ensures
        text.len() == 0 ==> parse_number(text) is None,
        text.len() == 1 && text[0] == 43 ==> parse_number(text) is None,
        0 < i < text.len() && !(48 <= text[i] <= 57) ==> parse_number(text) is None,
        0 == i < text.len() && text[i] != 43 && !(48 <= text[i] <= 57) ==> parse_number(
            text,
        ) is None,
{
    if 0 <= i < text.len() {
        lemma_all_digits(text);
        lemma_all_digits(text.skip(1));
        if i > 0 {
            assert(text.skip(1)[i - 1] == text[i]);
        }
    }
}

/// The names of SST files are `sst_`, anything, and `.pax`; the id is what stands in between,
/// if it is a number.
pub proof fn lemma_sst_names(name: Seq<u8>, text: Seq<u8>)
    ensures
        is_sst_name(seq![115u8, 115u8, 116u8, 95u8] + text + seq![46u8, 112u8, 97u8, 120u8]),
        sst_name_id(seq![115u8, 115u8, 116u8, 95u8] + text + seq![46u8, 112u8, 97u8, 120u8])
            == parse_number(text),
        is_sst_name(name) ==> name == seq![115u8, 115u8, 116u8, 95u8] + name.subrange(
            4,
            name.len() - 4,
        ) + seq![46u8, 112u8, 97u8, 120u8],
        !is_sst_name(name) ==> sst_name_id(name) is None,
{
    let spelled = seq![115u8, 115u8, 116u8, 95u8] + text + seq![46u8, 112u8, 97u8, 120u8];
    assert(spelled.take(4) =~= sst_prefix());
    assert(spelled.skip(spelled.len() - 4) =~= sst_suffix());
    assert(spelled.subrange(4, spelled.len() - 4) =~= text);
    if is_sst_name(name) {
        assert(name =~= name.take(4) + name.subrange(4, name.len() - 4) + name.skip(
            name.len() - 4,
        ));
    }
}

fn sst_prefix_bytes() -> (bytes: Vec<u8>)
    ensures
        bytes@ == sst_prefix(),
{
    let bytes: Vec<u8> = vec![115, 115, 116, 95];
    assert(bytes@ =~= sst_prefix());
    bytes
}

fn sst_suffix_bytes() -> (bytes: Vec<u8>)
    ensures
        bytes@ == sst_suffix(),
{
    let bytes: Vec<u8> = vec![46, 112, 97, 120];
    assert(bytes@ =~= sst_suffix());
    bytes
}

/// Appends the decimal digits of a number.
pub fn put_digits(out: &mut Vec<u8>, n: u64)
    ensures
        final(out)@ == old(out)@ + digits(n as nat),
    decreases n,
{
    let ghost start = out@;
    if n >= 10 {
        put_digits(out, n / 10);
        out.push((48 + n % 10) as u8);
    } else {
        out.push((48 + n) as u8);
    }
    assert(out@ =~= start + digits(n as nat));
}

/// Name of the SST file with an id.
pub fn sst_file_name(id: u64) -> (name: Vec<u8>)
    ensures
        name@ == sst_name(id),
{
    let mut name: Vec<u8> = sst_prefix_bytes();
    put_digits(&mut name, id);
    put_bytes(&mut name, sst_suffix_bytes().as_slice());
    name
}

proof fn lemma_digits_grow(text: Seq<u8>, n: int)
    requires
        0 <= n <= text.len(),
    ensures
        digits_value(text.take(n)) is None ==> digits_value(text) is None,
        digits_value(text) matches Some(v) ==> digits_value(text.take(n)) matches Some(w) && w
            <= v,
    decreases text.len() - n,
{
    if n == text.len() {
        assert(text.take(n) =~= text);
    } else {
        lemma_digits_grow(text, n + 1);
        assert(text.take(n + 1).drop_last() =~= text.take(n));
    }
}

/// Reads a 64-bit number in decimal, perhaps after a plus sign.
pub fn parse_decimal(text: &[u8]) -> (number: Option<u64>)
    ensures
        number == parse_number(text@),
{
    let start: usize = if text.len() > 0 && text[0] == 43 { 1 } else { 0 };
    let ghost number = text@.skip(start as int);
    assert(start == 0 ==> number =~= text@);
    if start == text.len() {
        return None;
    }
    let mut value: u64 = 0;
    let mut i: usize = start;
    assert(number.take(0) =~= Seq::<u8>::empty());
    while i < text.len()
        invariant
            start <= i <= text@.len(),
            start < text@.len(),
            number == text@.skip(start as int),
            parse_number(text@) == (match digits_value(number) {
                Some(n) => if n <= u64::MAX {
                    Some(n as u64)
                } else {
                    None
                },
                None => None,
            }),
            digits_value(number.take(i - start)) == Some(value as nat),
        decreases text@.len() - i,
    {
        let byte: u8 = text[i];
        proof {
            assert(number.take(i + 1 - start).drop_last() =~= number.take(i - start));
            assert(number.take(i + 1 - start).last() == byte);
            lemma_digits_grow(number, i + 1 - start);
        }
        if byte < 48 || byte > 57 {
            return None;
        }
        let digit: u64 = (byte - 48) as u64;
        if value > (u64::MAX - digit) / 10 {
            return None;
        }
        value = value * 10 + digit;
        i = i + 1;
    }
    assert(number.take(i - start) =~= number);
    Some(value)
}

/// Whether a name is that of an SST file.
pub fn names_sst(name: &[u8]) -> (result: bool)
    ensures
        result == is_sst_name(name@),
{
    let n: usize = name.len();
    if n < 8 {
        return false;
    }
    let head = slice_subrange(name, 0, 4);
    let tail = slice_subrange(name, n - 4, n);
    assert(name@.subrange(0, 4) =~= name@.take(4));
    assert(name@.subrange(n - 4, n as int) =~= name@.skip(n - 4));
    bytes_equal(head, sst_prefix_bytes().as_slice()) && bytes_equal(
        tail,
        sst_suffix_bytes().as_slice(),
    )
}

/// The id in the name of an SST file, `None` if the name is no such name.
pub fn sst_id_of_name(name: &[u8]) -> (id: Option<u64>)
    ensures
        id == sst_name_id(name@),
{
    if names_sst(name) {
        parse_decimal(slice_subrange(name, 4, name.len() - 4))
    } else {
        None
    }
}

/// Whether a file belongs to a backup: the write-ahead log and the SST files
/// do.
pub fn is_backup_file(name: &[u8]) -> (result: bool)
    ensures
        result == (name@ == wal_name() || is_sst_name(name@)),
{
    let wal: Vec<u8> = vec![119, 97, 108, 46, 108, 111, 103];
    assert(wal@ =~= wal_name());
    bytes_equal(name, wal.as_slice()) || names_sst(name)
}

} // verus!
