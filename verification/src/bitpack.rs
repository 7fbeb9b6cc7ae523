//! Integers packed into as many bits as the largest one needs.

use vstd::arithmetic::div_mod::{
    lemma_div_denominator, lemma_fundamental_div_mod, lemma_fundamental_div_mod_converse,
    lemma_mod_multiples_vanish, lemma_small_mod,
};
use vstd::arithmetic::power2::{lemma_pow2_adds, lemma_pow2_pos, lemma_pow2_unfold, pow2};
use vstd::prelude::*;

use crate::bytes::{byte_range, le_bytes, le_value};
use crate::bytes::{lemma_le_bytes_of_value, lemma_le_round_trip};

verus! {

/// The values side by side in one number, `bits` bits for each, the first one lowest.
pub open spec fn packed_number(values: Seq<u64>, bits: nat) -> nat
    decreases values.len(),
{
    if values.len() == 0 {
        0
    } else {
        packed_number(values.drop_last(), bits) + pow2(((values.len() - 1) * bits) as nat) * (
        values.last() as nat % pow2(bits))
    }
}

/// The value at `index` in a number of values of `bits` bits.
pub open spec fn packed_value(number: nat, bits: nat, index: nat) -> nat {
    (number / pow2(index * bits)) % pow2(bits)
}

/// Number of bytes that hold `count` values of `bits` bits.
pub open spec fn packed_len(count: nat, bits: nat) -> nat {
    (count * bits + 7) / 8
}

/// The bytes have room for the bits of all values, and none is left over.
pub proof fn lemma_packed_len(count: nat, bits: nat)
    ensures
        8 * packed_len(count, bits) >= count * bits,
        8 * packed_len(count, bits) < count * bits + 8,
{
}

/// Number of bits of `value`: 0 for 0.
pub open spec fn bit_length(value: nat) -> nat
    decreases value,
{
    if value == 0 {
        0
    } else {
        1 + bit_length(value / 2)
    }
}

// Arithmetic

proof fn lemma_byte_range_pow2(width: nat)
    ensures
        byte_range(width) == pow2(8 * width),
    decreases width,
{
    if width == 0 {
        vstd::arithmetic::power2::lemma2_to64();
    } else {
        lemma_byte_range_pow2((width - 1) as nat);
        lemma_pow2_adds(8, (8 * (width - 1)) as nat);
        vstd::arithmetic::power2::lemma2_to64();
    }
}

/// A byte appended at the high end.
proof fn lemma_le_value_push(bytes: Seq<u8>, byte: u8)
    ensures
        le_value(bytes.push(byte)) == le_value(bytes) + byte_range(bytes.len()) * byte,
    decreases bytes.len(),
{
    if bytes.len() == 0 {
        assert(bytes.push(byte).skip(1) =~= Seq::<u8>::empty());
        assert(le_value(Seq::<u8>::empty()) == 0);
        assert(le_value(bytes) == 0);
        let r = byte_range(0);
        assert(r == 1);
        assert(r * byte == byte) by (nonlinear_arith)
            requires
                r == 1,
        ;
    } else {
        let rest = bytes.skip(1);
        lemma_le_value_push(rest, byte);
        assert(bytes.push(byte).skip(1) =~= rest.push(byte));
        let r = byte_range(rest.len());
        assert(byte_range(bytes.len()) == 256 * r);
        assert(bytes.push(byte)[0] == bytes[0]);
        assert(256 * (le_value(rest) + r * byte) == 256 * le_value(rest) + (256 * r) * byte)
            by (nonlinear_arith);
    }
}

proof fn lemma_packed_bound(values: Seq<u64>, bits: nat)
    ensures
        packed_number(values, bits) < pow2(values.len() * bits),
    decreases values.len(),
{
    if values.len() == 0 {
        assert(0 * bits == 0);
        vstd::arithmetic::power2::lemma2_to64();
    } else {
        let n = (values.len() - 1) as nat;
        lemma_packed_bound(values.drop_last(), bits);
        let low = packed_number(values.drop_last(), bits);
        let p = pow2(n * bits);
        let m = values.last() as nat % pow2(bits);
        lemma_pow2_pos(bits);
        lemma_pow2_adds(n * bits, bits);
        assert(n * bits + bits == values.len() * bits) by (nonlinear_arith)
            requires
                n + 1 == values.len(),
        ;
        let q = pow2(bits);
        assert(low + p * m < p * q) by (nonlinear_arith)
            requires
                low < p,
                0 <= m < q,
        ;
    }
}

/// The packed values fit into the bytes that are reserved for them.
pub proof fn lemma_packed_number_fits(values: Seq<u64>, bits: nat)
    ensures
        packed_number(values, bits) < byte_range(packed_len(values.len(), bits)),
{
    let used = values.len() * bits;
    let n = packed_len(values.len(), bits);
    lemma_packed_bound(values, bits);
    lemma_byte_range_pow2(n);
    if used < 8 * n {
        vstd::arithmetic::power2::lemma_pow2_strictly_increases(used, 8 * n);
    }
}

/// What was packed is found at its index.
pub proof fn lemma_packed_round_trip(values: Seq<u64>, bits: nat, index: nat)
    requires
        index < values.len(),
    ensures
        packed_value(packed_number(values, bits), bits, index) == values[index as int] as nat
            % pow2(bits),
    decreases values.len(),
{
    let n = (values.len() - 1) as nat;
    let low = packed_number(values.drop_last(), bits);
    let m = values.last() as nat % pow2(bits);
    let p = pow2(n * bits);
    let number = packed_number(values, bits);
    lemma_packed_bound(values.drop_last(), bits);
    lemma_pow2_pos(bits);
    lemma_pow2_pos(n * bits);
    if index == n {
        assert(number == m * p + low) by (nonlinear_arith)
            requires
                number == low + p * m,
        ;
        lemma_fundamental_div_mod_converse(number as int, p as int, m as int, low as int);
        lemma_small_mod(m, pow2(bits));
    } else {
        lemma_packed_round_trip(values.drop_last(), bits, index);
        let d = pow2(index * bits);
        let q = pow2(bits);
        let gap = (n - index - 1) as nat;
        let k = pow2(gap * bits);
        lemma_pow2_pos(index * bits);
        lemma_pow2_adds(index * bits, bits);
        lemma_pow2_adds(index * bits + bits, gap * bits);
        assert(index * bits + bits + gap * bits == n * bits) by (nonlinear_arith)
            requires
                gap == n - index - 1,
        ;
        assert(p == d * q * k);
        let t = k * m;
        assert(number == d * (q * t) + low) by (nonlinear_arith)
            requires
                number == low + p * m,
                p == d * q * k,
                t == k * m,
        ;
        lemma_fundamental_div_mod(low as int, d as int);
        let lq = low / d;
        let lr = low % d;
        assert(number == (q * t + lq) * d + lr) by (nonlinear_arith)
            requires
                number == d * (q * t) + low,
                low == d * lq + lr,
        ;
        lemma_fundamental_div_mod_converse(
            number as int,
            d as int,
            (q * t + lq) as int,
            lr as int,
        );
        assert(number / d == q * t + lq);
        lemma_mod_multiples_vanish(t as int, lq as int, q as int);
    }
}

proof fn lemma_packed_step(values: Seq<u64>, bits: nat, i: int)
    requires
        0 <= i < values.len(),
    ensures
        packed_number(values.take(i + 1), bits) == packed_number(values.take(i), bits) + pow2(
            (i * bits) as nat,
        ) * (values[i] as nat % pow2(bits)),
{
    assert(values.take(i + 1).drop_last() =~= values.take(i));
}

/// `bit_length` is the fewest bits that hold the value.
pub proof fn lemma_bit_length(value: nat)
    ensures
        value < pow2(bit_length(value)),
    decreases value,
{
    if value == 0 {
        vstd::arithmetic::power2::lemma2_to64();
    } else {
        lemma_bit_length(value / 2);
        lemma_pow2_unfold(bit_length(value));
    }
}

/// A value below a power of two has no more bits than its exponent.
pub proof fn lemma_bit_length_bound(value: nat, bits: nat)
    requires
        value < pow2(bits),
    ensures
        bit_length(value) <= bits,
    decreases bits,
{
    vstd::arithmetic::power2::lemma2_to64();
    if value > 0 {
        if bits == 0 {
            assert(false);
        }
        lemma_pow2_unfold(bits);
        lemma_bit_length_bound(value / 2, (bits - 1) as nat);
    }
}

// Executable functions

/// Number of bits of `value`.
pub fn bit_length_of(value: u64) -> (bits: u8)
    ensures
        bits == bit_length(value as nat),
        bits <= 64,
{
    proof {
        vstd::arithmetic::power2::lemma2_to64();
        vstd::arithmetic::power2::lemma2_to64_rest();
        lemma_bit_length_bound(value as nat, 64);
    }
    let mut rest: u64 = value;
    let mut bits: u8 = 0;
    while rest > 0
        invariant
            bit_length(value as nat) == bits + bit_length(rest as nat),
            bit_length(value as nat) <= 64,
        decreases rest,
    {
        rest = rest / 2;
        bits = bits + 1;
    }
    bits
}

/// Two to the power `exponent`.
fn power_of_two(exponent: usize) -> (power: u64)
    requires
        exponent < 64,
    ensures
        power == pow2(exponent as nat),
{
    proof {
        vstd::arithmetic::power2::lemma2_to64();
        vstd::arithmetic::power2::lemma2_to64_rest();
        if exponent < 63 {
            vstd::arithmetic::power2::lemma_pow2_strictly_increases(exponent as nat, 63);
        }
        vstd::bits::lemma_u64_shl_is_mul(1, exponent as u64);
    }
    1u64 << (exponent as u64)
}


/// Values that fit in their bits are unpacked as they were packed.
pub proof fn lemma_bitpack_round_trip(values: Seq<u64>, bits: nat, index: nat)
    requires
        index < values.len(),
        (values[index as int] as nat) < pow2(bits),
    ensures
        packed_value(
            le_value(le_bytes(packed_number(values, bits), packed_len(values.len(), bits))),
            bits,
            index,
        ) == values[index as int],
{
    lemma_packed_number_fits(values, bits);
    lemma_le_round_trip(packed_number(values, bits), packed_len(values.len(), bits));
    lemma_packed_round_trip(values, bits, index);
    lemma_small_mod(values[index as int] as nat, pow2(bits));
}

/// Packs the low `bits` bits of each value.
pub fn bitpack_encode(values: &[u64], bits: u8) -> (output: Vec<u8>)
    ensures
        output@ == le_bytes(
            packed_number(values@, bits as nat),
            packed_len(values@.len(), bits as nat),
        ),
{
    let mut output: Vec<u8> = Vec::new();
    let n: usize = values.len();
    let b: usize = bits as usize;
    let mut pending: u128 = 0;
    let mut pending_bits: usize = 0;
    let mut i: usize = 0;
    proof {
        vstd::arithmetic::power2::lemma2_to64();
        assert(values@.take(0) =~= Seq::<u64>::empty());
        assert(le_value(Seq::<u8>::empty()) == 0);
        assert(0 * bits == 0);
    }
    while i < n
        invariant
            n == values@.len(),
            b == bits,
            i <= n,
            pending_bits < 8,
            pending < pow2(pending_bits as nat),
            8 * output@.len() + pending_bits == i * b,
            le_value(output@) + byte_range(output@.len()) * pending == packed_number(
                values@.take(i as int),
                b as nat,
            ),
        decreases n - i,
    {
        let value: u64 = values[i];
        let low: u64 = low_bits(value, bits);
        let shift: u64 = power_of_two(pending_bits);
        let ghost p = pow2(pending_bits as nat);
        let ghost q = pow2(b as nat);
        proof {
            lemma_packed_step(values@, b as nat, i as int);
            lemma_byte_range_pow2(output@.len());
            lemma_pow2_adds(8 * output@.len(), pending_bits as nat);
            vstd::arithmetic::power2::lemma2_to64();
            if pending_bits < 7 {
                vstd::arithmetic::power2::lemma_pow2_strictly_increases(pending_bits as nat, 7);
            }
            assert(low * shift <= 0xffff_ffff_ffff_ffff * 128) by (nonlinear_arith)
                requires
                    0 <= low <= 0xffff_ffff_ffff_ffff,
                    0 <= shift <= 128,
            ;
            lemma_pow2_pos(b as nat);
            lemma_pow2_adds(pending_bits as nat, b as nat);
        }
        let ghost old_pending = pending;
        pending = pending + (low as u128) * (shift as u128);
        let mut have: usize = pending_bits + b;
        proof {
            let r = byte_range(output@.len());
            let low_n = low as nat;
            assert(r * (old_pending + low_n * p) == r * old_pending + (r * p) * low_n)
                by (nonlinear_arith);
            assert(old_pending + low_n * p < p * q) by (nonlinear_arith)
                requires
                    old_pending < p,
                    0 <= low_n < q,
            ;
            assert(i * b + b == (i + 1) * b) by (nonlinear_arith);
        }
        while have >= 8
            invariant
                pending < pow2(have as nat),
                8 * output@.len() + have == (i + 1) * b,
                le_value(output@) + byte_range(output@.len()) * pending == packed_number(
                    values@.take(i + 1),
                    b as nat,
                ),
            decreases have,
        {
            let byte: u8 = (pending % 256) as u8;
            let ghost old_out = output@;
            let ghost old_pending = pending;
            output.push(byte);
            pending = pending / 256;
            have = have - 8;
            proof {
                lemma_le_value_push(old_out, byte);
                let r = byte_range(old_out.len());
                assert(byte_range(output@.len()) == 256 * r);
                assert(r * old_pending == r * byte + (256 * r) * pending) by (nonlinear_arith)
                    requires
                        old_pending == byte + 256 * pending,
                ;
                lemma_pow2_adds(8, have as nat);
                vstd::arithmetic::power2::lemma2_to64();
                let h = pow2(have as nat);
                assert(pending < h) by (nonlinear_arith)
                    requires
                        256 * pending <= old_pending,
                        old_pending < 256 * h,
                ;
            }
        }
        pending_bits = have;
        i = i + 1;
    }
    proof {
        assert(values@.take(n as int) =~= values@);
        vstd::arithmetic::power2::lemma2_to64();
    }
    let ghost number = packed_number(values@, b as nat);
    if pending_bits > 0 {
        let ghost old_out = output@;
        proof {
            if pending_bits < 8 {
                vstd::arithmetic::power2::lemma_pow2_strictly_increases(pending_bits as nat, 8);
            }
            lemma_le_value_push(old_out, pending as u8);
        }
        output.push(pending as u8);
    } else {
        proof {
            assert(pending == 0);
            assert(byte_range(output@.len()) * pending == 0) by (nonlinear_arith)
                requires
                    pending == 0,
            ;
        }
    }
    proof {
        assert(le_value(output@) == number);
        lemma_le_bytes_of_value(output@);
        assert(output@.len() == packed_len(values@.len(), bits as nat));
    }
    output
}

/// The low `bits` bits of `value`.
fn low_bits(value: u64, bits: u8) -> (low: u64)
    ensures
        low == value as nat % pow2(bits as nat),
        low < pow2(bits as nat),
{
    proof {
        lemma_pow2_pos(bits as nat);
    }
    if bits >= 64 {
        proof {
            vstd::arithmetic::power2::lemma2_to64_rest();
            if bits > 64 {
                vstd::arithmetic::power2::lemma_pow2_strictly_increases(64, bits as nat);
            }
            lemma_small_mod(value as nat, pow2(bits as nat));
        }
        value
    } else {
        value % power_of_two(bits as usize)
    }
}

/// Unpacks `count` values of `bits` bits; bits beyond the data are 0.
pub fn bitpack_decode(data: &[u8], bits: u8, count: usize) -> (values: Vec<u64>)
    requires
        bits <= 64,
    ensures
        values@.len() == count,
        forall|i: int|
            0 <= i < count ==> #[trigger] values@[i] == packed_value(
                le_value(data@),
                bits as nat,
                i as nat,
            ),
{
    let b: usize = bits as usize;
    let ghost number = le_value(data@);
    let mut values: Vec<u64> = Vec::new();
    let mut pos: usize = 0;
    let mut pending: u128 = 0;
    let mut have: usize = 0;
    let size: u128 = if b == 64 {
        0x1_0000_0000_0000_0000
    } else {
        power_of_two(b) as u128
    };
    proof {
        vstd::arithmetic::power2::lemma2_to64();
        vstd::arithmetic::power2::lemma2_to64_rest();
        assert(data@.skip(0) =~= data@);
        assert(0 * b == 0);
        assert(number / 1 == number);
        lemma_pow2_pos(b as nat);
        if b < 64 {
            vstd::arithmetic::power2::lemma_pow2_strictly_increases(b as nat, 64);
        }
    }
    while values.len() < count
        invariant
            b == bits,
            b <= 64,
            size == pow2(b as nat),
            0 < size <= 0x1_0000_0000_0000_0000,
            number == le_value(data@),
            values@.len() <= count,
            pos <= data@.len(),
            have < 8,
            pending < pow2(have as nat),
            pending + pow2(have as nat) * le_value(data@.skip(pos as int)) == number / pow2(
                values@.len() * b as nat,
            ),
            forall|i: int|
                0 <= i < values@.len() ==> #[trigger] values@[i] == packed_value(
                    number,
                    b as nat,
                    i as nat,
                ),
        decreases count - values@.len(),
    {
        let ghost k = values@.len();
        let ghost quotient = number / pow2(k * b as nat);
        while have < b
            invariant
                b <= 64,
                have < b + 8,
                pos <= data@.len(),
                pending < pow2(have as nat),
                pending + pow2(have as nat) * le_value(data@.skip(pos as int)) == quotient,
            decreases b + 8 - have,
        {
            let ghost rest = data@.skip(pos as int);
            let ghost p = pow2(have as nat);
            let ghost old_pending = pending;
            let byte: u8 = if pos < data.len() {
                data[pos]
            } else {
                0
            };
            let shift: u64 = power_of_two(have);
            proof {
                vstd::arithmetic::power2::lemma2_to64();
                vstd::arithmetic::power2::lemma2_to64_rest();
                lemma_pow2_adds(have as nat, 8);
                if have < 64 {
                    vstd::arithmetic::power2::lemma_pow2_strictly_increases(have as nat, 64);
                }
                assert(byte * shift <= 255 * 0xffff_ffff_ffff_ffff) by (nonlinear_arith)
                    requires
                        0 <= byte <= 255,
                        0 <= shift <= 0xffff_ffff_ffff_ffff,
                ;
                assert(old_pending + byte * p < 256 * p) by (nonlinear_arith)
                    requires
                        old_pending < p,
                        0 <= byte <= 255,
                ;
            }
            pending = pending + (byte as u128) * (shift as u128);
            if pos < data.len() {
                proof {
                    assert(rest.skip(1) =~= data@.skip(pos + 1));
                    let tail = le_value(rest.skip(1));
                    assert(p * (byte + 256 * tail) == byte * p + (p * 256) * tail)
                        by (nonlinear_arith);
                }
                pos = pos + 1;
            } else {
                proof {
                    assert(rest.len() == 0);
                    assert(le_value(rest) == 0);
                    assert(p * 0 == 0) by (nonlinear_arith);
                    assert(pow2((have + 8) as nat) * 0 == 0) by (nonlinear_arith);
                    assert(0 * p == 0) by (nonlinear_arith);
                }
            }
            have = have + 8;
        }
        let value: u64 = (pending % size) as u64;
        let ghost old_pending = pending;
        let ghost q = pow2(b as nat);
        pending = pending / size;
        have = have - b;
        proof {
            let rest = le_value(data@.skip(pos as int));
            let h = pow2(have as nat);
            lemma_pow2_adds(have as nat, b as nat);
            lemma_fundamental_div_mod(old_pending as int, q as int);
            let t = pending + h * rest;
            assert(quotient == t * q + value) by (nonlinear_arith)
                requires
                    quotient == old_pending + (h * q) * rest,
                    old_pending == q * pending + value,
                    t == pending + h * rest,
            ;
            lemma_fundamental_div_mod_converse(quotient as int, q as int, t as int, value as int);
            assert(value == packed_value(number, b as nat, k));
            assert(pending < h) by (nonlinear_arith)
                requires
                    q * pending <= old_pending,
                    old_pending < h * q,
                    q > 0,
            ;
            lemma_pow2_pos(k * b as nat);
            lemma_div_denominator(number as int, pow2(k * b as nat) as int, q as int);
            lemma_pow2_adds(k * b as nat, b as nat);
            assert(k * b + b == (k + 1) * b) by (nonlinear_arith);
        }
        values.push(value);
    }
    values
}

} // verus!
