//! Hash functions.

use vstd::prelude::*;

verus! {

/// The XXH3 hash of `data` in 64 bits.
pub uninterp spec fn xxh3_64_of(data: Seq<u8>) -> u64;

/// The XXH3 hash of `data` in 128 bits.
pub uninterp spec fn xxh3_128_of(data: Seq<u8>) -> u128;

/// `xxhash_rust::xxh3::xxh3_64` with the default secret and seed: the hash is a
/// function of the bytes alone.
pub assume_specification[ xxhash_rust::xxh3::xxh3_64 ](input: &[u8]) -> (hash: u64)
    ensures
        hash == xxh3_64_of(input@),
;

/// `xxhash_rust::xxh3::xxh3_128` with the default secret and seed: the hash is a
/// function of the bytes alone.
pub assume_specification[ xxhash_rust::xxh3::xxh3_128 ](input: &[u8]) -> (hash: u128)
    ensures
        hash == xxh3_128_of(input@),
;

} // verus!
