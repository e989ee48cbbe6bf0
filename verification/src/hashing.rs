//! The mapping from a key to the index of its bucket.

use vstd::prelude::*;

verus! {

/// The odd multiplier closest to `2^64` divided by the golden ratio. Multiplying
/// by it spreads keys that differ only in their low bits over the high bits too.
pub const MULTIPLIER: u64 = 11400714819323198549;

/// Whether `n` is a power of two.
pub open spec fn is_power_of_two(n: nat) -> bool
    decreases n,
{
    n == 1 || (n > 1 && n % 2 == 0 && is_power_of_two(n / 2))
}

/// The mixed form of a key: the product with [`MULTIPLIER`], modulo `2^64`.
pub open spec fn mixed(key: u64) -> u64 {
    ((key as nat * MULTIPLIER as nat) % 0x1_0000_0000_0000_0000) as u64
}

/// The bucket of `key` in an array whose length is `mask + 1`.
pub open spec fn masked_index(key: u64, mask: u64) -> nat {
    (mixed(key) & mask) as nat
}

/// The bucket of `key` in an array of `buckets` buckets.
pub open spec fn index_of(key: u64, buckets: nat) -> nat
    recommends
        0 < buckets <= u64::MAX,
{
    masked_index(key, (buckets - 1) as u64)
}

/// Doubling a power of two gives a power of two.
pub proof fn lemma_double_is_power_of_two(n: nat)
    requires
        is_power_of_two(n),
    ensures
        is_power_of_two(2 * n),
{
    assert((2 * n) / 2 == n);
}

/// A masked index never exceeds its mask.
pub proof fn lemma_masked_index_bound(key: u64, mask: u64)
    ensures
        masked_index(key, mask) <= mask,
{
    let h = mixed(key);
    assert(h & mask <= mask) by (bit_vector);
}

/// Mixes the bits of a key.
pub fn hash_u64(key: u64) -> (h: u64)
    ensures
        h == mixed(key),
{
    key.wrapping_mul(MULTIPLIER)
}

/// Computes the bucket of `key` under `mask`, the array length minus one.
pub fn calc_index(key: u64, mask: u64) -> (ix: usize)
    requires
        mask <= usize::MAX,
    ensures
        ix == masked_index(key, mask),
        ix <= mask,
{
    let h = hash_u64(key);
    proof {
        lemma_masked_index_bound(key, mask);
    }
    (h & mask) as usize
}

/// Computes the bucket of `key` in an array of `buckets` buckets.
pub fn bucket_index(key: u64, buckets: usize) -> (ix: usize)
    requires
        is_power_of_two(buckets as nat),
    ensures
        ix == index_of(key, buckets as nat),
        ix < buckets,
{
    calc_index(key, (buckets - 1) as u64)
}

} // verus!
