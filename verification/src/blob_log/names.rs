//! Names of blob files: `blob_<id>.dat`, with a decimal id.

use vstd::prelude::*;
use vstd::slice::slice_subrange;

use crate::bytes::{bytes_equal, put_bytes, starts_with};
use crate::engine::names::{digits, lemma_digits, parse_decimal, parse_number, put_digits};

verus! {

/// The bytes of `blob_`.
pub open spec fn blob_prefix() -> Seq<u8> {
    seq![98u8, 108u8, 111u8, 98u8, 95u8]
}

/// The bytes of `.dat`.
pub open spec fn blob_suffix() -> Seq<u8> {
    seq![46u8, 100u8, 97u8, 116u8]
}

/// Name of the blob file with an id.
pub open spec fn blob_name(id: u64) -> Seq<u8> {
    blob_prefix() + digits(id as nat) + blob_suffix()
}

/// The id of the blob file with a name: a name that ends in `.dat` counts, and stands
/// for the file 0 unless it spells another id.
pub open spec fn blob_name_id(name: Seq<u8>) -> Option<u64> {
    if name.len() <= 4 || name.skip(name.len() - 4) != blob_suffix() {
        None
    } else {
        let stem = name.take(name.len() - 4);
        if blob_prefix().is_prefix_of(stem) {
            match parse_number(stem.skip(5)) {
                Some(id) => Some(id),
                None => Some(0),
            }
        } else {
            Some(0)
        }
    }
}

/// The id is read back from the name of a blob file.
pub proof fn lemma_blob_name_round_trip(id: u64)
    ensures
        blob_name_id(blob_name(id)) == Some(id),
{
    let name = blob_name(id);
    lemma_digits(id as nat);
    let stem = name.take(name.len() - 4);
    assert(name.skip(name.len() - 4) =~= blob_suffix());
    assert(stem =~= blob_prefix() + digits(id as nat));
    assert(stem.skip(5) =~= digits(id as nat));
    assert(blob_prefix().is_prefix_of(stem)) by {
        assert(blob_prefix() =~= stem.subrange(0, 5));
    }
}

/// A name that ends in `.dat` stands for a file: for the one whose number stands between
/// `blob_` and the end, or for file 0. Another name stands for none.
pub proof fn lemma_blob_names(name: Seq<u8>, text: Seq<u8>)
    ensures
        blob_name_id(
            seq![98u8, 108u8, 111u8, 98u8, 95u8] + text + seq![46u8, 100u8, 97u8, 116u8],
        ) == Some(
            match parse_number(text) {
                Some(id) => id,
                None => 0,
            },
        ),
        text.len() > 0 && text[0] != 98 ==> blob_name_id(
            text + seq![46u8, 100u8, 97u8, 116u8],
        ) == Some(0u64),
        blob_name_id(name) is Some ==> name.len() > 4 && name.skip(name.len() - 4) == seq![
            46u8,
            100u8,
            97u8,
            116u8,
        ],
{
    let spelled = seq![98u8, 108u8, 111u8, 98u8, 95u8] + text + seq![46u8, 100u8, 97u8, 116u8];
    let stem = spelled.take(spelled.len() - 4);
    assert(spelled.skip(spelled.len() - 4) =~= blob_suffix());
    assert(stem =~= blob_prefix() + text);
    assert(stem.skip(5) =~= text);
    assert(blob_prefix().is_prefix_of(stem)) by {
        assert(blob_prefix() =~= stem.subrange(0, 5));
    }
    if text.len() > 0 && text[0] != 98 {
        let other = text + seq![46u8, 100u8, 97u8, 116u8];
        assert(other.skip(other.len() - 4) =~= blob_suffix());
        assert(other.take(other.len() - 4) =~= text);
        if blob_prefix().is_prefix_of(text) {
            assert(blob_prefix()[0] == text.subrange(0, 5)[0]);
        }
    }
}

fn prefix_bytes() -> (bytes: Vec<u8>)
    ensures
        bytes@ == blob_prefix(),
{
    let bytes: Vec<u8> = vec![98, 108, 111, 98, 95];
    assert(bytes@ =~= blob_prefix());
    bytes
}

fn suffix_bytes() -> (bytes: Vec<u8>)
    ensures
        bytes@ == blob_suffix(),
{
    let bytes: Vec<u8> = vec![46, 100, 97, 116];
    assert(bytes@ =~= blob_suffix());
    bytes
}

/// Name of the blob file with an id.
pub fn blob_file_name(id: u64) -> (name: Vec<u8>)
    ensures
        name@ == blob_name(id),
{
    let mut name: Vec<u8> = prefix_bytes();
    put_digits(&mut name, id);
    put_bytes(&mut name, suffix_bytes().as_slice());
    name
}

/// The id of the blob file with a name, `None` if the name is not that of a blob file.
pub fn blob_id_of_name(name: &[u8]) -> (id: Option<u64>)
    ensures
        id == blob_name_id(name@),
{
    let n: usize = name.len();
    if n <= 4 {
        return None;
    }
    let tail = slice_subrange(name, n - 4, n);
    assert(tail@ =~= name@.skip(n - 4));
    if !bytes_equal(tail, suffix_bytes().as_slice()) {
        return None;
    }
    let stem = slice_subrange(name, 0, n - 4);
    assert(stem@ =~= name@.take(n - 4));
    if !starts_with(stem, prefix_bytes().as_slice()) {
        return Some(0);
    }
    let number = slice_subrange(stem, 5, stem.len());
    assert(number@ =~= stem@.skip(5));
    match parse_decimal(number) {
        Some(id) => Some(id),
        None => Some(0),
    }
}

} // verus!
