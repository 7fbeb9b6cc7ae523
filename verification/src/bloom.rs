//! Bloom filters: a quick answer to whether a file may hold a key.

use vstd::prelude::*;

use crate::bytes::{get_u32, get_u64, le_bytes, le_value, put_bytes, put_le, put_u32, put_u64};
use crate::bytes::{lemma_byte_range_values, lemma_le_round_trip, views};
use crate::hash::xxh3_64_of;

verus! {

/// Byte appended to a key for its second hash.
pub const SECOND_HASH_SUFFIX: u8 = 0x47;

/// Length of a serialized filter's header.
pub const FILTER_HEADER_LEN: usize = 12;

/// The natural logarithm of 2, in units of 10 to the power -16.
pub const LN_2_SCALED: u128 = 6931471805599453;

/// The scale of [`LN_2_SCALED`].
pub const LN_2_SCALE: u128 = 10000000000000000;

/// Half of [`LN_2_SCALE`], for rounding.
pub const LN_2_HALF: u128 = 5000000000000000;

/// Size of a Bloom filter.
#[derive(Clone, Copy, PartialEq, Eq, Structural, Debug)]
pub struct BloomSize {
    /// Number of bits.
    pub num_bits: u64,
    /// Number of bits that each key sets.
    pub num_hashes: u32,
}

impl BloomSize {
    /// There is a bit to set, and the bits fit in memory.
    pub open spec fn valid(&self) -> bool {
        0 < self.num_bits && bytes_for(self.num_bits as nat) <= usize::MAX
    }
}

/// Number of bytes that hold `num_bits` bits.
pub open spec fn bytes_for(num_bits: nat) -> nat {
    (num_bits + 7) as nat / 8
}

/// The bit of a filter with `size` bits that the hash function `j` gives a key: the
/// first hash of the key plus `j` times the second, in 64 bits.
pub open spec fn bit_place(key: Seq<u8>, j: int, size: nat) -> int {
    let h1 = xxh3_64_of(key);
    let h2 = xxh3_64_of(key.push(SECOND_HASH_SUFFIX));
    ((h1 + (j * h2) % 0x1_0000_0000_0000_0000) % 0x1_0000_0000_0000_0000) % (size as int)
}

/// Whether one of the hash functions gives the key this bit.
pub open spec fn key_sets(key: Seq<u8>, hashes: nat, size: nat, place: int) -> bool {
    exists|j: int| 0 <= j < hashes && #[trigger] bit_place(key, j, size) == place
}

/// The contents of a Bloom filter.
#[verifier::ext_equal]
pub ghost struct FilterView {
    /// Number of bits.
    pub size: nat,
    /// Number of bits that each key sets.
    pub hashes: nat,
    /// The bits, eight to a byte, lowest first.
    pub bytes: Seq<u8>,
}

impl FilterView {
    /// The bytes are as many as the bits need.
    pub open spec fn wf(self) -> bool {
        &&& self.size <= u64::MAX
        &&& self.hashes <= u32::MAX
        &&& self.bytes.len() == bytes_for(self.size)
    }

    /// Whether a bit is set.
    pub open spec fn bit(self, place: int) -> bool {
        (self.bytes[place / 8] >> ((place % 8) as u8)) & 1 == 1
    }

    /// Whether every bit of the key is set.
    pub open spec fn claims(self, key: Seq<u8>) -> bool {
        forall|j: int|
            0 <= j < self.hashes ==> self.bit(#[trigger] bit_place(key, j, self.size))
    }

    /// Whether this filter is `before` with the bits of the key set.
    pub open spec fn is_with_key(self, before: FilterView, key: Seq<u8>) -> bool {
        &&& self.size == before.size
        &&& self.hashes == before.hashes
        &&& self.bytes.len() == before.bytes.len()
        &&& forall|place: int|
            0 <= place < 8 * self.bytes.len() ==> (#[trigger] self.bit(place) == (before.bit(place)
                || key_sets(key, self.hashes, self.size, place)))
    }

    /// Whether the bits set are those of the keys.
    pub open spec fn holds_exactly(self, keys: Seq<Seq<u8>>) -> bool {
        forall|place: int|
            0 <= place < 8 * self.bytes.len() ==> (#[trigger] self.bit(place) == one_sets(
                keys,
                self.hashes,
                self.size,
                place,
            ))
    }

    /// The serialized filter: sizes, then bits.
    pub open spec fn serialized(self) -> Seq<u8> {
        le_bytes(self.size, 8) + le_bytes(self.hashes, 4) + self.bytes
    }
}

/// Whether one of the keys has this bit.
pub open spec fn one_sets(keys: Seq<Seq<u8>>, hashes: nat, size: nat, place: int) -> bool {
    exists|i: int| 0 <= i < keys.len() && key_sets(#[trigger] keys[i], hashes, size, place)
}

/// The filter that bytes start with, if they hold one.
pub open spec fn parse_filter(data: Seq<u8>) -> Option<FilterView> {
    if data.len() < FILTER_HEADER_LEN {
        None
    } else {
        let size = le_value(data.subrange(0, 8));
        let end = FILTER_HEADER_LEN + bytes_for(size);
        if data.len() < end {
            None
        } else {
            Some(
                FilterView {
                    size,
                    hashes: le_value(data.subrange(8, 12)),
                    bytes: data.subrange(FILTER_HEADER_LEN as int, end),
                },
            )
        }
    }
}

/// A key's bits stay set, whatever other keys are inserted, and its own insertion sets
/// them: a filter never denies a key that was inserted.
pub proof fn lemma_no_false_negatives(
    before: FilterView,
    after: FilterView,
    inserted: Seq<u8>,
    key: Seq<u8>,
)
    requires
        before.wf(),
        before.size > 0,
        after.is_with_key(before, inserted),
        before.claims(key) || key == inserted,
    ensures
        after.claims(key),
{
    assert forall|j: int| 0 <= j < after.hashes implies after.bit(
        #[trigger] bit_place(key, j, after.size),
    ) by {
        let place = bit_place(key, j, after.size);
        lemma_place_in_range(key, j, after.size);
        assert(after.bit(place) == (before.bit(place) || key_sets(
            inserted,
            after.hashes,
            after.size,
            place,
        )));
        if before.claims(key) {
            assert(before.bit(bit_place(key, j, before.size)));
        }
    }
}

proof fn lemma_place_in_range(key: Seq<u8>, j: int, size: nat)
    requires
        size > 0,
    ensures
        0 <= bit_place(key, j, size) < size,
{
    let h1 = xxh3_64_of(key);
    let h2 = xxh3_64_of(key.push(SECOND_HASH_SUFFIX));
    let sum = (h1 + (j * h2) % 0x1_0000_0000_0000_0000) % 0x1_0000_0000_0000_0000;
    vstd::arithmetic::div_mod::lemma_mod_bound(sum, size as int);
}

/// A filter that holds some keys exactly claims each of them.
pub proof fn lemma_held_keys_claimed(filter: FilterView, keys: Seq<Seq<u8>>, i: int)
    requires
        filter.wf(),
        filter.size > 0,
        filter.holds_exactly(keys),
        0 <= i < keys.len(),
    ensures
        filter.claims(keys[i]),
{
    assert forall|j: int| 0 <= j < filter.hashes implies filter.bit(
        #[trigger] bit_place(keys[i], j, filter.size),
    ) by {
        let place = bit_place(keys[i], j, filter.size);
        lemma_place_in_range(keys[i], j, filter.size);
        assert(key_sets(keys[i], filter.hashes, filter.size, place));
        assert(one_sets(keys, filter.hashes, filter.size, place));
        assert(filter.bit(place));
    }
}

/// A filter over no keys claims none.
pub proof fn lemma_empty_claims_none(filter: FilterView, key: Seq<u8>)
    requires
        filter.wf(),
        filter.size > 0,
        filter.hashes > 0,
        filter.holds_exactly(Seq::<Seq<u8>>::empty()),
    ensures
        !filter.claims(key),
{
    let place = bit_place(key, 0, filter.size);
    lemma_place_in_range(key, 0, filter.size);
    assert(!one_sets(Seq::<Seq<u8>>::empty(), filter.hashes, filter.size, place));
    assert(!filter.bit(place));
}

/// A filter claims all keys that it holds; over no keys it claims none.
pub proof fn lemma_all_claimed(filter: FilterView, keys: Seq<Seq<u8>>)
    requires
        filter.wf(),
        filter.size > 0,
        filter.hashes > 0,
        filter.holds_exactly(keys),
    ensures
        forall|i: int| 0 <= i < keys.len() ==> filter.claims(#[trigger] keys[i]),
        keys.len() == 0 ==> forall|key: Seq<u8>| !#[trigger] filter.claims(key),
{
    assert forall|i: int| 0 <= i < keys.len() implies filter.claims(#[trigger] keys[i]) by {
        lemma_held_keys_claimed(filter, keys, i);
    }
    if keys.len() == 0 {
        assert(keys =~= Seq::<Seq<u8>>::empty());
        assert forall|key: Seq<u8>| !#[trigger] filter.claims(key) by {
            lemma_empty_claims_none(filter, key);
        }
    }
}

/// Reading a serialized filter gives it back, whatever follows it.
pub proof fn lemma_filter_round_trip(filter: FilterView, rest: Seq<u8>)
    requires
        filter.wf(),
    ensures
        parse_filter(filter.serialized() + rest) == Some(filter),
{
    lemma_byte_range_values();
    lemma_le_round_trip(filter.size, 8);
    lemma_le_round_trip(filter.hashes, 4);
    let data = filter.serialized() + rest;
    assert(data.subrange(0, 8) =~= le_bytes(filter.size, 8));
    assert(data.subrange(8, 12) =~= le_bytes(filter.hashes, 4));
    assert(data.subrange(12, 12 + filter.bytes.len() as int) =~= filter.bytes);
}

/// A set of keys with no false negatives.
#[derive(Debug)]
pub struct BloomFilter {
    bits: Vec<u8>,
    num_bits: u64,
    num_hashes: u32,
}

impl View for BloomFilter {
    type V = FilterView;

    closed spec fn view(&self) -> FilterView {
        FilterView {
            size: self.num_bits as nat,
            hashes: self.num_hashes as nat,
            bytes: self.bits@,
        }
    }
}

/// Number of hash functions for a filter with this many bits for each key: the product
/// of the bits and the natural logarithm of 2, rounded, and at least one.
pub open spec fn hashes_for(bits_per_key: nat) -> nat {
    let rounded = (bits_per_key * LN_2_SCALED + LN_2_HALF) / (LN_2_SCALE as int);
    if rounded < 1 {
        1
    } else {
        rounded as nat
    }
}

/// Number of bits of a filter with this many bits for each key: at least a byte.
pub open spec fn size_for(num_keys: nat, bits_per_key: nat) -> nat {
    if num_keys * bits_per_key < 8 {
        8
    } else {
        num_keys * bits_per_key
    }
}

/// The number of hash functions is the whole number nearest to the bits of a key times the
/// natural logarithm of 2, which makes false positives rarest; there is at least one.
pub proof fn lemma_hash_count(bits_per_key: nat)
    requires
        bits_per_key > 0,
    ensures
        hashes_for(bits_per_key) >= 1,
        2 * (hashes_for(bits_per_key) * 10000000000000000 - bits_per_key * 6931471805599453)
            <= 10000000000000000,
        2 * (bits_per_key * 6931471805599453 - hashes_for(bits_per_key) * 10000000000000000)
            <= 10000000000000000,
{
    let shifted = bits_per_key * 6931471805599453 + 5000000000000000;
    assert(shifted >= 10000000000000000) by (nonlinear_arith)
        requires
            bits_per_key >= 1,
            shifted == bits_per_key * 6931471805599453 + 5000000000000000,
    ;
    assert(hashes_for(bits_per_key) == shifted / 10000000000000000);
}

/// A filter has the bits asked for each key, and at least a byte.
pub proof fn lemma_filter_size(num_keys: nat, bits_per_key: nat)
    ensures
        size_for(num_keys, bits_per_key) >= num_keys * bits_per_key,
        size_for(num_keys, bits_per_key) >= 8,
        size_for(num_keys, bits_per_key) == num_keys * bits_per_key || size_for(
            num_keys,
            bits_per_key,
        ) == 8,
{
}

impl BloomFilter {
    /// An empty filter.
    pub fn new(size: BloomSize) -> (filter: Self)
        requires
            size.valid(),
        ensures
            filter@.wf(),
            filter@.size == size.num_bits,
            filter@.hashes == size.num_hashes,
            filter@.bytes == Seq::new(bytes_for(size.num_bits as nat), |i: int| 0u8),
            filter@.holds_exactly(Seq::empty()),
    {
        let len: usize = if size.num_bits % 8 == 0 {
            (size.num_bits / 8) as usize
        } else {
            (size.num_bits / 8 + 1) as usize
        };
        let bits: Vec<u8> = vec![0u8; len];
        let filter = BloomFilter {
            bits,
            num_bits: size.num_bits,
            num_hashes: size.num_hashes,
        };
        proof {
            assert(filter@.bytes =~= Seq::new(bytes_for(size.num_bits as nat), |i: int| 0u8));
            assert forall|place: int| 0 <= place < 8 * filter@.bytes.len() implies (
            #[trigger] filter@.bit(place) == one_sets(
                Seq::empty(),
                filter@.hashes,
                filter@.size,
                place,
            )) by {
                let at = (place % 8) as u8;
                assert((0u8 >> at) & 1 == 0) by (bit_vector)
                    requires
                        at < 8,
                ;
            }
        }
        filter
    }

    /// An empty filter with this many bits for each of `num_keys` keys.
    pub fn with_bits_per_key(num_keys: usize, bits_per_key: u32) -> (filter: Self)
        requires
            num_keys > 0,
            bits_per_key > 0,
            num_keys * bits_per_key <= u64::MAX,
            bytes_for((num_keys * bits_per_key) as nat) <= usize::MAX,
        ensures
            filter@.wf(),
            filter@.size == size_for(num_keys as nat, bits_per_key as nat),
            filter@.hashes == hashes_for(bits_per_key as nat),
            filter@.bytes == Seq::new(bytes_for(filter@.size), |i: int| 0u8),
            filter@.holds_exactly(Seq::empty()),
    {
        let product: u64 = (num_keys as u64) * (bits_per_key as u64);
        let num_bits: u64 = if product < 8 {
            8
        } else {
            product
        };
        let scaled: u128 = (bits_per_key as u128) * LN_2_SCALED + LN_2_HALF;
        let rounded: u128 = scaled / LN_2_SCALE;
        let num_hashes: u32 = if rounded < 1 {
            1
        } else {
            rounded as u32
        };
        Self::new(BloomSize { num_bits, num_hashes })
    }

    /// The two hashes of a key.
    fn hash_pair(key: &[u8]) -> (hashes: (u64, u64))
        ensures
            hashes.0 == xxh3_64_of(key@),
            hashes.1 == xxh3_64_of(key@.push(SECOND_HASH_SUFFIX)),
    {
        let h1: u64 = xxhash_rust::xxh3::xxh3_64(key);
        let mut longer: Vec<u8> = Vec::new();
        put_bytes(&mut longer, key);
        longer.push(SECOND_HASH_SUFFIX);
        assert(longer@ =~= key@.push(SECOND_HASH_SUFFIX));
        let h2: u64 = xxhash_rust::xxh3::xxh3_64(longer.as_slice());
        (h1, h2)
    }

    /// The bit that hash function `i` gives.
    fn bit_index(&self, h1: u64, h2: u64, i: u32) -> (index: u64)
        requires
            self@.size > 0,
        ensures
            index == ((h1 + (i * h2) % 0x1_0000_0000_0000_0000) % 0x1_0000_0000_0000_0000) % (
            self@.size as int),
            index < self@.size,
    {
        h1.wrapping_add((i as u64).wrapping_mul(h2)) % self.num_bits
    }

    /// Sets the bits of a key.
    pub fn insert(&mut self, key: &[u8])
        requires
            old(self)@.wf(),
            old(self)@.size > 0,
        ensures
            final(self)@.wf(),
            final(self)@.is_with_key(old(self)@, key@),
            final(self)@.claims(key@),
            forall|other: Seq<u8>|
                old(self)@.claims(other) ==> #[trigger] final(self)@.claims(other),
    {
        let (h1, h2) = Self::hash_pair(key);
        let ghost before = self@;
        let mut i: u32 = 0;
        while i < self.num_hashes
            invariant
                i <= self.num_hashes,
                self@.wf(),
                self@.size > 0,
                self@.size == before.size,
                self@.hashes == before.hashes,
                self@.bytes.len() == before.bytes.len(),
                h1 == xxh3_64_of(key@),
                h2 == xxh3_64_of(key@.push(SECOND_HASH_SUFFIX)),
                forall|place: int|
                    0 <= place < 8 * self@.bytes.len() ==> (#[trigger] self@.bit(place) == (
                    before.bit(place) || key_sets(key@, i as nat, self@.size, place))),
            decreases self.num_hashes - i,
        {
            let index: u64 = self.bit_index(h1, h2, i);
            let ghost previous = self@;
            self.set_bit(index);
            proof {
                assert(index == bit_place(key@, i as int, self@.size));
                assert forall|place: int| 0 <= place < 8 * self@.bytes.len() implies (
                #[trigger] self@.bit(place) == (before.bit(place) || key_sets(
                    key@,
                    (i + 1) as nat,
                    self@.size,
                    place,
                ))) by {
                    assert(self@.bit(place) == (previous.bit(place) || place == index));
                    if key_sets(key@, i as nat, self@.size, place) {
                        let j = choose|j: int|
                            0 <= j < i && #[trigger] bit_place(key@, j, self@.size) == place;
                        assert(bit_place(key@, j, self@.size) == place);
                    }
                    if key_sets(key@, (i + 1) as nat, self@.size, place) {
                        let j = choose|j: int|
                            0 <= j < i + 1 && #[trigger] bit_place(key@, j, self@.size) == place;
                        assert(bit_place(key@, j, self@.size) == place);
                    }
                }
            }
            i = i + 1;
        }
        proof {
            lemma_no_false_negatives(before, self@, key@, key@);
            assert forall|other: Seq<u8>| before.claims(other) implies #[trigger] self@.claims(
                other,
            ) by {
                lemma_no_false_negatives(before, self@, key@, other);
            }
        }
    }

    /// Whether the filter may hold a key: `false` says that it was never inserted.
    pub fn may_contain(&self, key: &[u8]) -> (result: bool)
        requires
            self@.wf(),
            self@.size > 0,
        ensures
            result == self@.claims(key@),
    {
        let (h1, h2) = Self::hash_pair(key);
        let mut i: u32 = 0;
        while i < self.num_hashes
            invariant
                i <= self.num_hashes,
                self@.wf(),
                self@.size > 0,
                h1 == xxh3_64_of(key@),
                h2 == xxh3_64_of(key@.push(SECOND_HASH_SUFFIX)),
                forall|j: int|
                    0 <= j < i ==> self@.bit(#[trigger] bit_place(key@, j, self@.size)),
            decreases self.num_hashes - i,
        {
            let index: u64 = self.bit_index(h1, h2, i);
            proof {
                assert(index == bit_place(key@, i as int, self@.size));
            }
            if !self.get_bit(index) {
                return false;
            }
            i = i + 1;
        }
        true
    }

    /// Number of bits.
    pub fn num_bits(&self) -> (n: u64)
        ensures
            n == self@.size,
    {
        self.num_bits
    }

    /// Number of bits that each key sets.
    pub fn num_hashes(&self) -> (n: u32)
        ensures
            n == self@.hashes,
    {
        self.num_hashes
    }

    /// Sets a bit.
    fn set_bit(&mut self, index: u64)
        requires
            old(self)@.wf(),
            index < old(self)@.size,
        ensures
            final(self)@.wf(),
            final(self)@.size == old(self)@.size,
            final(self)@.hashes == old(self)@.hashes,
            final(self)@.bytes.len() == old(self)@.bytes.len(),
            forall|place: int|
                0 <= place < 8 * final(self)@.bytes.len() ==> (#[trigger] final(self)@.bit(place)
                    == (old(self)@.bit(place) || place == index)),
    {
        let ghost before = self@;
        assert(self.bits.len() == bytes_for(self.num_bits as nat));
        let byte_idx: usize = (index / 8) as usize;
        let bit_idx: u8 = (index % 8) as u8;
        let byte: u8 = self.bits[byte_idx];
        let with: u8 = byte | (1u8 << bit_idx);
        self.bits.set(byte_idx, with);
        proof {
            assert forall|place: int| 0 <= place < 8 * self@.bytes.len() implies (
            #[trigger] self@.bit(place) == (before.bit(place) || place == index)) by {
                let at = (place % 8) as u8;
                if place / 8 == byte_idx {
                    assert((with >> at) & 1 == 1 <==> ((byte >> at) & 1 == 1 || at == bit_idx))
                        by (bit_vector)
                        requires
                            with == byte | (1u8 << bit_idx),
                            at < 8,
                            bit_idx < 8,
                    ;
                    assert(self@.bytes[place / 8] == with);
                    assert(before.bytes[place / 8] == byte);
                } else {
                    assert(self@.bytes[place / 8] == before.bytes[place / 8]);
                }
            }
        }
    }

    /// Whether a bit is set.
    fn get_bit(&self, index: u64) -> (result: bool)
        requires
            self@.wf(),
            index < self@.size,
        ensures
            result == self@.bit(index as int),
    {
        assert(self.bits.len() == bytes_for(self.num_bits as nat));
        let byte_idx: usize = (index / 8) as usize;
        let bit_idx: u8 = (index % 8) as u8;
        (self.bits[byte_idx] >> bit_idx) & 1 == 1
    }

    /// The filter as bytes.
    pub fn serialize(&self) -> (data: Vec<u8>)
        ensures
            data@ == self@.serialized(),
    {
        let mut data: Vec<u8> = Vec::new();
        put_u64(&mut data, self.num_bits);
        put_u32(&mut data, self.num_hashes);
        put_bytes(&mut data, self.bits.as_slice());
        assert(data@ =~= self@.serialized());
        data
    }

    /// Reads the filter that bytes start with; `None` if they end early.
    pub fn deserialize(data: &[u8]) -> (filter: Option<Self>)
        ensures
            match filter {
                Some(f) => f@.wf() && parse_filter(data@) == Some(f@),
                None => parse_filter(data@) is None,
            },
    {
        if data.len() < FILTER_HEADER_LEN {
            return None;
        }
        let num_bits: u64 = get_u64(data, 0);
        let num_hashes: u32 = get_u32(data, 8);
        let expected: u64 = if num_bits % 8 == 0 {
            num_bits / 8
        } else {
            num_bits / 8 + 1
        };
        assert(expected == bytes_for(num_bits as nat));
        let left: usize = data.len() - FILTER_HEADER_LEN;
        if (left as u64) < expected {
            return None;
        }
        let len: usize = expected as usize;
        let bits: Vec<u8> = vstd::slice::slice_to_vec(
            vstd::slice::slice_subrange(data, FILTER_HEADER_LEN, FILTER_HEADER_LEN + len),
        );
        Some(BloomFilter { bits, num_bits, num_hashes })
    }
}

/// The contents of a file's filter.
#[verifier::ext_equal]
pub ghost struct SstFilterView {
    /// Id of the file.
    pub sst_id: u64,
    /// Level of the file.
    pub level: nat,
    /// The filter over the file's keys.
    pub filter: FilterView,
}

impl SstFilterView {
    /// The filter as bytes: id, level in four bytes, then the key filter.
    pub open spec fn serialized(self) -> Seq<u8> {
        le_bytes(self.sst_id as nat, 8) + le_bytes(self.level, 4) + self.filter.serialized()
    }
}

/// The file's filter that bytes start with, if they hold one.
pub open spec fn parse_sst_filter(data: Seq<u8>) -> Option<SstFilterView> {
    if data.len() < FILTER_HEADER_LEN {
        None
    } else {
        match parse_filter(data.skip(FILTER_HEADER_LEN as int)) {
            None => None,
            Some(filter) => Some(
                SstFilterView {
                    sst_id: le_value(data.subrange(0, 8)) as u64,
                    level: le_value(data.subrange(8, 12)),
                    filter,
                },
            ),
        }
    }
}

/// Reading a serialized file filter gives it back.
pub proof fn lemma_sst_filter_round_trip(view: SstFilterView)
    requires
        view.filter.wf(),
        view.level <= u32::MAX,
    ensures
        parse_sst_filter(view.serialized()) == Some(view),
{
    lemma_byte_range_values();
    lemma_le_round_trip(view.sst_id as nat, 8);
    lemma_le_round_trip(view.level, 4);
    let data = view.serialized();
    assert(data.subrange(0, 8) =~= le_bytes(view.sst_id as nat, 8));
    assert(data.subrange(8, 12) =~= le_bytes(view.level, 4));
    assert(data.skip(12) =~= view.filter.serialized() + Seq::<u8>::empty());
    lemma_filter_round_trip(view.filter, Seq::empty());
}

/// The Bloom filter over the keys of one file.
#[derive(Debug)]
pub struct SstBloomFilter {
    /// Id of the file.
    pub sst_id: u64,
    /// Level of the file.
    pub level: usize,
    /// The filter over the file's keys.
    pub filter: BloomFilter,
}

impl View for SstBloomFilter {
    type V = SstFilterView;

    open spec fn view(&self) -> SstFilterView {
        SstFilterView { sst_id: self.sst_id, level: self.level as nat, filter: self.filter@ }
    }
}

/// Inserts all of `keys` into an empty filter.
fn fill(filter: BloomFilter, keys: &[Vec<u8>]) -> (filled: BloomFilter)
    requires
        filter@.wf(),
        filter@.size > 0,
        filter@.holds_exactly(Seq::empty()),
    ensures
        filled@.wf(),
        filled@.size == filter@.size,
        filled@.hashes == filter@.hashes,
        filled@.holds_exactly(views(keys@)),
{
    let mut filled = filter;
    let mut i: usize = 0;
    assert(views(keys@).take(0) =~= Seq::empty());
    while i < keys.len()
        invariant
            i <= keys@.len(),
            filled@.wf(),
            filled@.size > 0,
            filled@.size == filter@.size,
            filled@.hashes == filter@.hashes,
            filled@.holds_exactly(views(keys@).take(i as int)),
        decreases keys@.len() - i,
    {
        let ghost before = filled@;
        let ghost done = views(keys@).take(i as int);
        filled.insert(keys[i].as_slice());
        proof {
            let more = views(keys@).take(i + 1);
            assert(more =~= done.push(keys@[i as int]@));
            assert forall|place: int| 0 <= place < 8 * filled@.bytes.len() implies (
            #[trigger] filled@.bit(place) == one_sets(
                more,
                filled@.hashes,
                filled@.size,
                place,
            )) by {
                lemma_one_more_sets(
                    done,
                    keys@[i as int]@,
                    filled@.hashes,
                    filled@.size,
                    place,
                );
                assert(before.bit(place) == one_sets(done, before.hashes, before.size, place));
            }
        }
        i = i + 1;
    }
    assert(views(keys@).take(i as int) =~= views(keys@));
    filled
}

proof fn lemma_one_more_sets(
    keys: Seq<Seq<u8>>,
    key: Seq<u8>,
    hashes: nat,
    size: nat,
    place: int,
)
    ensures
        one_sets(keys.push(key), hashes, size, place) == (one_sets(keys, hashes, size, place)
            || key_sets(key, hashes, size, place)),
{
    let more = keys.push(key);
    if one_sets(keys, hashes, size, place) {
        let k = choose|k: int|
            0 <= k < keys.len() && key_sets(#[trigger] keys[k], hashes, size, place);
        assert(more[k] == keys[k]);
    }
    if key_sets(key, hashes, size, place) {
        assert(more[keys.len() as int] == key);
    }
    if one_sets(more, hashes, size, place) {
        let k = choose|k: int|
            0 <= k < more.len() && key_sets(#[trigger] more[k], hashes, size, place);
        if k < keys.len() {
            assert(keys[k] == more[k]);
        }
    }
}

impl SstBloomFilter {
    /// A filter of a given size over the keys of a file.
    pub fn build(sst_id: u64, level: usize, keys: &[Vec<u8>], size: BloomSize) -> (built: Self)
        requires
            size.valid(),
        ensures
            built.sst_id == sst_id,
            built.level == level,
            built.filter@.wf(),
            built.filter@.size == size.num_bits,
            built.filter@.hashes == size.num_hashes,
            built.filter@.holds_exactly(views(keys@)),
    {
        let filter = fill(BloomFilter::new(size), keys);
        SstBloomFilter { sst_id, level, filter }
    }

    /// A filter over the keys of a file with this many bits for each key.
    pub fn build_with_bits_per_key(
        sst_id: u64,
        level: usize,
        keys: &[Vec<u8>],
        bits_per_key: u32,
    ) -> (built: Self)
        requires
            bits_per_key > 0,
            keys@.len() * bits_per_key <= u64::MAX,
            bytes_for((keys@.len() * bits_per_key) as nat) <= usize::MAX,
        ensures
            built.sst_id == sst_id,
            built.level == level,
            built.filter@.wf(),
            built.filter@.size == size_for(
                if keys@.len() == 0 {
                    1
                } else {
                    keys@.len()
                },
                bits_per_key as nat,
            ),
            built.filter@.hashes == hashes_for(bits_per_key as nat),
            built.filter@.holds_exactly(views(keys@)),
            forall|i: int| 0 <= i < keys@.len() ==> built.filter@.claims((#[trigger] keys@[i])@),
            keys@.len() == 0 ==> forall|key: Seq<u8>| !#[trigger] built.filter@.claims(key),
    {
        let num_keys: usize = if keys.len() == 0 {
            1
        } else {
            keys.len()
        };
        let filter = fill(BloomFilter::with_bits_per_key(num_keys, bits_per_key), keys);
        proof {
            lemma_all_claimed(filter@, views(keys@));
            assert forall|i: int| 0 <= i < keys@.len() implies filter@.claims(
                (#[trigger] keys@[i])@,
            ) by {
                assert(views(keys@)[i] == keys@[i]@);
            }
        }
        SstBloomFilter { sst_id, level, filter }
    }

    /// Whether the file may hold a key.
    pub fn check_key(&self, key: &[u8]) -> (result: bool)
        requires
            self@.filter.wf(),
            self@.filter.size > 0,
        ensures
            result == self@.filter.claims(key@),
    {
        self.filter.may_contain(key)
    }

    /// The filter as bytes.
    pub fn serialize(&self) -> (data: Vec<u8>)
        ensures
            data@ == self@.serialized(),
    {
        let filter_bytes = self.filter.serialize();
        let mut data: Vec<u8> = Vec::new();
        put_u64(&mut data, self.sst_id);
        put_le(&mut data, self.level as u64, 4);
        put_bytes(&mut data, filter_bytes.as_slice());
        assert(data@ =~= self@.serialized());
        data
    }

    /// Reads the filter that bytes start with; `None` if they end early.
    pub fn deserialize(data: &[u8]) -> (built: Option<Self>)
        ensures
            match built {
                Some(f) => f@.filter.wf() && parse_sst_filter(data@) == Some(f@),
                None => parse_sst_filter(data@) is None,
            },
    {
        if data.len() < FILTER_HEADER_LEN {
            return None;
        }
        let sst_id: u64 = get_u64(data, 0);
        let level: usize = get_u32(data, 8) as usize;
        let rest = vstd::slice::slice_subrange(data, FILTER_HEADER_LEN, data.len());
        assert(rest@ =~= data@.skip(FILTER_HEADER_LEN as int));
        match BloomFilter::deserialize(rest) {
            None => None,
            Some(filter) => Some(SstBloomFilter { sst_id, level, filter }),
        }
    }
}

/// The ids of the files whose filters claim a key, in the order of the filters.
pub open spec fn candidates(key: Seq<u8>, filters: Seq<SstBloomFilter>) -> Seq<u64>
    decreases filters.len(),
{
    if filters.len() == 0 {
        Seq::empty()
    } else {
        let before = candidates(key, filters.drop_last());
        if filters.last()@.filter.claims(key) {
            before.push(filters.last().sst_id)
        } else {
            before
        }
    }
}

/// The candidates come in the order of the filters.
pub proof fn lemma_candidates_in_order(
    key: Seq<u8>,
    a: Seq<SstBloomFilter>,
    b: Seq<SstBloomFilter>,
)
    ensures
        candidates(key, a + b) == candidates(key, a) + candidates(key, b),
    decreases b.len(),
{
    if b.len() == 0 {
        assert(a + b =~= a);
        assert(candidates(key, a) + candidates(key, b) =~= candidates(key, a));
    } else {
        lemma_candidates_in_order(key, a, b.drop_last());
        assert((a + b).drop_last() =~= a + b.drop_last());
        assert((a + b).last() == b.last());
        assert(candidates(key, a + b) =~= candidates(key, a) + candidates(key, b));
    }
}

/// A file is a candidate for a key exactly if its filter claims the key.
pub proof fn lemma_candidates(key: Seq<u8>, filters: Seq<SstBloomFilter>, sst_id: u64)
    ensures
        candidates(key, filters).contains(sst_id) <==> exists|i: int|
            #![trigger filters[i]]
            0 <= i < filters.len() && filters[i].sst_id == sst_id && filters[i]@.filter.claims(key),
    decreases filters.len(),
{
    if filters.len() > 0 {
        let front = filters.drop_last();
        lemma_candidates(key, front, sst_id);
        let before = candidates(key, front);
        if candidates(key, filters).contains(sst_id) {
            if before.contains(sst_id) {
                let i = choose|i: int|
                    #![trigger front[i]]
                    0 <= i < front.len() && front[i].sst_id == sst_id
                        && front[i]@.filter.claims(key);
                assert(filters[i] == front[i]);
            } else {
                let at = choose|at: int|
                    0 <= at < candidates(key, filters).len() && candidates(key, filters)[at]
                        == sst_id;
                assert(at == before.len()) by {
                    if at < before.len() {
                        assert(before[at] == sst_id);
                    }
                }
                assert(filters[filters.len() - 1] == filters.last());
            }
        }
        if exists|i: int|
            #![trigger filters[i]]
            0 <= i < filters.len() && filters[i].sst_id == sst_id
                && filters[i]@.filter.claims(key) {
            let i = choose|i: int|
                #![trigger filters[i]]
                0 <= i < filters.len() && filters[i].sst_id == sst_id
                    && filters[i]@.filter.claims(key);
            if i < front.len() {
                assert(front[i] == filters[i]);
                let at = choose|at: int| 0 <= at < before.len() && before[at] == sst_id;
                assert(candidates(key, filters)[at] == sst_id);
            } else {
                assert(candidates(key, filters)[before.len() as int] == sst_id);
            }
        }
    }
}

/// A file whose filter was built over its keys is a candidate for each of them.
pub proof fn lemma_holders_are_candidates(
    filters: Seq<SstBloomFilter>,
    i: int,
    keys: Seq<Seq<u8>>,
    k: int,
)
    requires
        0 <= i < filters.len(),
        filters[i]@.filter.wf(),
        filters[i]@.filter.size > 0,
        filters[i]@.filter.holds_exactly(keys),
        0 <= k < keys.len(),
    ensures
        candidates(keys[k], filters).contains(filters[i].sst_id),
{
    lemma_held_keys_claimed(filters[i]@.filter, keys, k);
    lemma_candidates(keys[k], filters, filters[i].sst_id);
}

/// The ids of the files that may hold a key.
pub fn filter_candidate_ssts(key: &[u8], filters: &[SstBloomFilter]) -> (ids: Vec<u64>)
    requires
        forall|i: int|
            0 <= i < filters@.len() ==> (#[trigger] filters@[i])@.filter.wf()
                && filters@[i]@.filter.size > 0,
    ensures
        ids@ == candidates(key@, filters@),
{
    let mut ids: Vec<u64> = Vec::new();
    let mut i: usize = 0;
    while i < filters.len()
        invariant
            i <= filters@.len(),
            forall|k: int|
                0 <= k < filters@.len() ==> (#[trigger] filters@[k])@.filter.wf()
                    && filters@[k]@.filter.size > 0,
            ids@ == candidates(key@, filters@.take(i as int)),
        decreases filters@.len() - i,
    {
        proof {
            assert(filters@.take(i + 1).drop_last() =~= filters@.take(i as int));
        }
        if filters[i].check_key(key) {
            ids.push(filters[i].sst_id);
        }
        i = i + 1;
    }
    assert(filters@.take(i as int) =~= filters@);
    ids
}

} // verus!
