//! Values of any length, each behind its length.

use vstd::prelude::*;
use vstd::slice::{slice_subrange, slice_to_vec};

use crate::bytes::{get_u32, le_bytes, le_value, put_bytes, put_le, views};
use crate::bytes::{lemma_byte_range_values, lemma_le_round_trip};
use crate::error::Fault;

verus! {

/// A value behind its length.
pub open spec fn frame(value: Seq<u8>) -> Seq<u8> {
    le_bytes(value.len(), 4) + value
}

/// All values, each behind its length.
pub open spec fn framed(rows: Seq<Seq<u8>>) -> Seq<u8>
    decreases rows.len(),
{
    if rows.len() == 0 {
        Seq::<u8>::empty()
    } else {
        framed(rows.drop_last()) + frame(rows.last())
    }
}

/// The framed value at `pos`.
pub open spec fn framed_at(data: Seq<u8>, pos: int) -> Result<Seq<u8>, Fault> {
    if pos + 4 > data.len() {
        Err(Fault::ColumnTruncated)
    } else {
        let n = le_value(data.subrange(pos, pos + 4));
        if pos + 4 + n > data.len() {
            Err(Fault::ValueOutOfBounds)
        } else {
            Ok(data.subrange(pos + 4, pos + 4 + n))
        }
    }
}

/// The `count` framed values from `pos` on.
pub open spec fn parse_framed(data: Seq<u8>, pos: int, count: nat) -> Result<Seq<Seq<u8>>, Fault>
    decreases count,
{
    if count == 0 {
        Ok(Seq::<Seq<u8>>::empty())
    } else {
        match framed_at(data, pos) {
            Err(fault) => Err(fault),
            Ok(value) => match parse_framed(data, pos + 4 + value.len(), (count - 1) as nat) {
                Err(fault) => Err(fault),
                Ok(rest) => Ok(seq![value] + rest),
            },
        }
    }
}

/// The framed value `row` places after the one at `pos`.
pub open spec fn framed_row(data: Seq<u8>, pos: int, row: nat) -> Result<Seq<u8>, Fault>
    decreases row,
{
    match framed_at(data, pos) {
        Err(fault) => Err(fault),
        Ok(value) => if row == 0 {
            Ok(value)
        } else {
            framed_row(data, pos + 4 + value.len(), (row - 1) as nat)
        },
    }
}

/// Whether every value is short enough for its length to be stored.
pub open spec fn lengths_fit(rows: Seq<Seq<u8>>) -> bool {
    forall|i: int| 0 <= i < rows.len() ==> (#[trigger] rows[i]).len() <= u32::MAX
}

proof fn lemma_framed_prefix(rows: Seq<Seq<u8>>, i: int)
    requires
        0 <= i <= rows.len(),
    ensures
        framed(rows.take(i)).is_prefix_of(framed(rows)),
    decreases rows.len() - i,
{
    if i == rows.len() {
        assert(rows.take(i) =~= rows);
    } else {
        lemma_framed_prefix(rows, i + 1);
        assert(rows.take(i + 1).drop_last() =~= rows.take(i));
        let a = framed(rows.take(i));
        let b = framed(rows.take(i + 1));
        let c = framed(rows);
        assert forall|j: int| 0 <= j < a.len() implies a[j] == c[j] by {
            assert(a[j] == b[j]);
            assert(b[j] == c[j]);
        }
    }
}

proof fn lemma_framed_value_at(rows: Seq<Seq<u8>>, i: int)
    requires
        0 <= i < rows.len(),
        rows[i].len() <= u32::MAX,
    ensures
        framed_at(framed(rows), framed(rows.take(i)).len() as int) == Ok::<Seq<u8>, Fault>(rows[i]),
        framed(rows.take(i + 1)).len() == framed(rows.take(i)).len() + 4 + rows[i].len(),
{
    let data = framed(rows);
    let start = framed(rows.take(i)).len() as int;
    let value = rows[i];
    lemma_framed_prefix(rows, i + 1);
    assert(rows.take(i + 1).drop_last() =~= rows.take(i));
    lemma_byte_range_values();
    lemma_le_round_trip(value.len(), 4);
    let whole = framed(rows.take(i + 1));
    assert(whole == framed(rows.take(i)) + frame(value));
    assert forall|j: int| 0 <= j < whole.len() implies whole[j] == data[j] by {}
    assert(data.subrange(start, start + 4) =~= le_bytes(value.len(), 4)) by {
        assert forall|j: int| 0 <= j < 4 implies data.subrange(start, start + 4)[j]
            == le_bytes(value.len(), 4)[j] by {
            assert(whole[start + j] == frame(value)[j]);
        }
    }
    assert(data.subrange(start + 4, start + 4 + value.len()) =~= value) by {
        assert forall|j: int| 0 <= j < value.len() implies data.subrange(
            start + 4,
            start + 4 + value.len(),
        )[j] == value[j] by {
            assert(whole[start + 4 + j] == frame(value)[4 + j]);
        }
    }
}

proof fn lemma_parse_from(rows: Seq<Seq<u8>>, i: int)
    requires
        0 <= i <= rows.len(),
        lengths_fit(rows),
    ensures
        parse_framed(framed(rows), framed(rows.take(i)).len() as int, (rows.len() - i) as nat) == Ok::<
            Seq<Seq<u8>>,
            Fault,
        >(rows.skip(i)),
    decreases rows.len() - i,
{
    if i == rows.len() {
        assert(rows.skip(i) =~= Seq::<Seq<u8>>::empty());
    } else {
        lemma_framed_value_at(rows, i);
        lemma_parse_from(rows, i + 1);
        assert(seq![rows[i]] + rows.skip(i + 1) =~= rows.skip(i));
    }
}

/// Values are read back as they were framed.
pub proof fn lemma_framing_round_trip(rows: Seq<Seq<u8>>)
    requires
        lengths_fit(rows),
    ensures
        parse_framed(framed(rows), 0, rows.len()) == Ok::<Seq<Seq<u8>>, Fault>(rows),
{
    lemma_parse_from(rows, 0);
    assert(rows.take(0) =~= Seq::<Seq<u8>>::empty());
    assert(rows.skip(0) =~= rows);
}

/// Reading one row gives the same as reading them all.
pub proof fn lemma_framed_row_agrees(data: Seq<u8>, pos: int, count: nat, row: nat)
    requires
        row < count,
        parse_framed(data, pos, count) is Ok,
    ensures
        parse_framed(data, pos, count)->Ok_0.len() == count,
        framed_row(data, pos, row) == Ok::<Seq<u8>, Fault>(
            parse_framed(data, pos, count)->Ok_0[row as int],
        ),
    decreases count,
{
    let value = framed_at(data, pos)->Ok_0;
    let next = pos + 4 + value.len();
    lemma_parsed_len(data, pos, count);
    if row > 0 {
        lemma_framed_row_agrees(data, next, (count - 1) as nat, (row - 1) as nat);
    }
}

/// As many values come out as were asked for.
pub proof fn lemma_parsed_len(data: Seq<u8>, pos: int, count: nat)
    requires
        parse_framed(data, pos, count) is Ok,
    ensures
        parse_framed(data, pos, count)->Ok_0.len() == count,
    decreases count,
{
    if count > 0 {
        let value = framed_at(data, pos)->Ok_0;
        lemma_parsed_len(data, pos + 4 + value.len(), (count - 1) as nat);
    }
}

/// Writes all values, each behind its length.
pub fn write_framed(values: &[Vec<u8>]) -> (out: Vec<u8>)
    ensures
        out@ == framed(views(values@)),
{
    let mut out: Vec<u8> = Vec::new();
    let ghost rows = views(values@);
    let mut i: usize = 0;
    assert(rows.take(0) =~= Seq::<Seq<u8>>::empty());
    while i < values.len()
        invariant
            i <= values@.len(),
            rows == views(values@),
            out@ == framed(rows.take(i as int)),
        decreases values@.len() - i,
    {
        let ghost before = out@;
        put_le(&mut out, values[i].len() as u64, 4);
        put_bytes(&mut out, values[i].as_slice());
        proof {
            assert(rows.take(i + 1).drop_last() =~= rows.take(i as int));
            assert(out@ =~= before + frame(rows[i as int]));
        }
        i = i + 1;
    }
    assert(rows.take(values@.len() as int) =~= rows);
    out
}

/// `done` in front of what is still to come.
spec fn after(done: Seq<Seq<u8>>, rest: Result<Seq<Seq<u8>>, Fault>) -> Result<
    Seq<Seq<u8>>,
    Fault,
> {
    match rest {
        Err(fault) => Err(fault),
        Ok(rows) => Ok(done + rows),
    }
}

/// Reads `count` values, each behind its length.
pub fn read_framed(data: &[u8], count: u32) -> (result: Result<Vec<Vec<u8>>, Fault>)
    ensures
        match result {
            Ok(values) => parse_framed(data@, 0, count as nat) == Ok::<Seq<Seq<u8>>, Fault>(
                views(values@),
            ),
            Err(fault) => parse_framed(data@, 0, count as nat) == Err::<Seq<Seq<u8>>, Fault>(fault),
        },
{
    let mut values: Vec<Vec<u8>> = Vec::new();
    let mut pos: usize = 0;
    let mut left: u32 = count;
    let ghost all = parse_framed(data@, 0, count as nat);
    proof {
        if all is Ok {
            assert(views(values@) + all->Ok_0 =~= all->Ok_0);
        }
    }
    while left > 0
        invariant
            pos <= data@.len(),
            all == parse_framed(data@, 0, count as nat),
            all == after(views(values@), parse_framed(data@, pos as int, left as nat)),
        decreases left,
    {
        if data.len() - pos < 4 {
            return Err(Fault::ColumnTruncated);
        }
        let n: usize = get_u32(data, pos) as usize;
        let start: usize = pos + 4;
        if n > data.len() - start {
            return Err(Fault::ValueOutOfBounds);
        }
        let value = slice_to_vec(slice_subrange(data, start, start + n));
        let ghost old_rows = views(values@);
        let ghost v = value@;
        values.push(value);
        proof {
            assert(views(values@) =~= old_rows.push(v));
            let rest = parse_framed(data@, pos + 4 + n, (left - 1) as nat);
            if rest is Ok {
                assert(old_rows + (seq![v] + rest->Ok_0) =~= old_rows.push(v) + rest->Ok_0);
            }
        }
        pos = start + n;
        left = left - 1;
    }
    assert(views(values@) + Seq::<Seq<u8>>::empty() =~= views(values@));
    Ok(values)
}

/// Reads a single row without copying those before it.
pub fn read_framed_row(data: &[u8], target_row: u32) -> (result: Result<Vec<u8>, Fault>)
    ensures
        match result {
            Ok(value) => framed_row(data@, 0, target_row as nat) == Ok::<Seq<u8>, Fault>(value@),
            Err(fault) => framed_row(data@, 0, target_row as nat) == Err::<Seq<u8>, Fault>(fault),
        },
{
    let mut pos: usize = 0;
    let mut row: u32 = target_row;
    loop
        invariant
            pos <= data@.len(),
            framed_row(data@, 0, target_row as nat) == framed_row(data@, pos as int, row as nat),
        decreases row,
    {
        if data.len() - pos < 4 {
            return Err(Fault::ColumnTruncated);
        }
        let n: usize = get_u32(data, pos) as usize;
        let start: usize = pos + 4;
        if n > data.len() - start {
            return Err(Fault::ValueOutOfBounds);
        }
        if row == 0 {
            return Ok(slice_to_vec(slice_subrange(data, start, start + n)));
        }
        pos = start + n;
        row = row - 1;
    }
}

} // verus!
