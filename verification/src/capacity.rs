//! How many buckets a table needs: the load factor and the sizes it grows
//! through.
//!
//! A load factor is counted in thousandths: 909 stands for a table that may
//! hold 0.909 pairs per bucket.

use vstd::prelude::*;
use crate::hashing::is_power_of_two;

verus! {

/// The load factor of a new table, in thousandths.
pub const DEFAULT_LOAD_FACTOR: usize = 909;

/// The length of the smallest bucket array that holds anything.
pub const MIN_BUCKETS: usize = 2;

/// The length beyond which a bucket array no longer grows.
pub const MAX_BUCKETS: usize = 0x4000_0000;

/// How full a table is: `pairs / buckets`, and zero where there is no bucket.
#[derive(Clone, Copy, Debug, PartialEq, Eq)]
pub struct LoadRate {
    pub pairs: usize,
    pub buckets: usize,
}

/// Whether `count` pairs in `buckets` buckets stay within the load factor:
/// `count / buckets <= load_factor / 1000`, without the division.
pub open spec fn within_load(count: nat, buckets: nat, load_factor: nat) -> bool {
    count * 1000 <= load_factor * buckets
}

/// The lengths a bucket array can have: zero, or a power of two from
/// [`MIN_BUCKETS`] to [`MAX_BUCKETS`].
pub open spec fn valid_size(buckets: nat) -> bool {
    buckets == 0 || (is_power_of_two(buckets) && MIN_BUCKETS <= buckets <= MAX_BUCKETS)
}

/// The length that follows `buckets` when the array grows once.
pub open spec fn doubled(buckets: nat) -> nat {
    if buckets == 0 {
        MIN_BUCKETS as nat
    } else {
        2 * buckets
    }
}

/// How far `buckets` is below [`MAX_BUCKETS`].
pub open spec fn room(buckets: nat) -> nat {
    if buckets < MAX_BUCKETS {
        (MAX_BUCKETS - buckets) as nat
    } else {
        0
    }
}

/// The length to which an array of `buckets` buckets grows to hold `count`
/// pairs: the first of `buckets`, `doubled(buckets)`, ... that is within the
/// load factor, or [`MAX_BUCKETS`] when none below it is.
pub open spec fn grown(buckets: nat, count: nat, load_factor: nat) -> nat
    decreases room(buckets),
{
    if within_load(count, buckets, load_factor) || buckets >= MAX_BUCKETS {
        buckets
    } else {
        grown(doubled(buckets), count, load_factor)
    }
}

/// Between two powers of two there is room for the double of the smaller.
pub proof fn lemma_power_of_two_gap(a: nat, b: nat)
    requires
        is_power_of_two(a),
        is_power_of_two(b),
        a < b,
    ensures
        2 * a <= b,
    decreases b,
{
    if a > 1 {
        lemma_power_of_two_gap(a / 2, b / 2);
    }
}

/// [`MAX_BUCKETS`] and [`MIN_BUCKETS`] are valid sizes.
pub proof fn lemma_limits_are_valid()
    ensures
        is_power_of_two(MIN_BUCKETS as nat),
        is_power_of_two(MAX_BUCKETS as nat),
        valid_size(MIN_BUCKETS as nat),
        valid_size(MAX_BUCKETS as nat),
{
    reveal_with_fuel(is_power_of_two, 32);
}

/// Growing once keeps a size valid, as long as it is below the maximum.
pub proof fn lemma_doubled_is_valid(buckets: nat)
    requires
        valid_size(buckets),
        buckets < MAX_BUCKETS,
    ensures
        valid_size(doubled(buckets)),
        buckets < doubled(buckets) <= MAX_BUCKETS,
{
    lemma_limits_are_valid();
    if buckets != 0 {
        lemma_power_of_two_gap(buckets, MAX_BUCKETS as nat);
        crate::hashing::lemma_double_is_power_of_two(buckets);
    }
}

/// What [`grown`] returns: a valid size, no smaller than the one it started
/// from, and within the load factor whenever [`MAX_BUCKETS`] is.
pub proof fn lemma_grown(buckets: nat, count: nat, load_factor: nat)
    requires
        valid_size(buckets),
    ensures
        valid_size(grown(buckets, count, load_factor)),
        buckets <= grown(buckets, count, load_factor),
        within_load(count, buckets, load_factor) ==> grown(buckets, count, load_factor) == buckets,
        within_load(count, MAX_BUCKETS as nat, load_factor) ==> within_load(
            count,
            grown(buckets, count, load_factor),
            load_factor,
        ),
        count > 0 ==> grown(buckets, count, load_factor) > 0,
    decreases room(buckets),
{
    if !(within_load(count, buckets, load_factor) || buckets >= MAX_BUCKETS) {
        lemma_doubled_is_valid(buckets);
        lemma_grown(doubled(buckets), count, load_factor);
    }
}

/// A table within the load factor for `more` pairs is within it for fewer, and
/// does not grow for them.
pub proof fn lemma_within_load_fewer(fewer: nat, more: nat, buckets: nat, load_factor: nat)
    requires
        fewer <= more,
        within_load(more, buckets, load_factor),
    ensures
        within_load(fewer, buckets, load_factor),
        grown(buckets, fewer, load_factor) == buckets,
{
}

/// Tests [`within_load`].
pub fn fits(count: usize, buckets: usize, load_factor: usize) -> (b: bool)
    ensures
        b == within_load(count as nat, buckets as nat, load_factor as nat),
{
    let wide_count: u128 = count as u128;
    let wide_buckets: u128 = buckets as u128;
    let wide_factor: u128 = load_factor as u128;
    assert(wide_count * 1000 <= 0xffff_ffff_ffff_ffff * 1000);
    assert(wide_factor * wide_buckets <= 0xffff_ffff_ffff_ffff * 0xffff_ffff_ffff_ffff)
        by (nonlinear_arith)
        requires
            wide_factor <= 0xffff_ffff_ffff_ffff,
            wide_buckets <= 0xffff_ffff_ffff_ffff,
    ;
    wide_count * 1000 <= wide_factor * wide_buckets
}

/// Computes [`grown`].
pub fn target_size(buckets: usize, count: usize, load_factor: usize) -> (size: usize)
    requires
        valid_size(buckets as nat),
    ensures
        size == grown(buckets as nat, count as nat, load_factor as nat),
        valid_size(size as nat),
        buckets <= size,
{
    let mut size: usize = buckets;
    proof {
        lemma_grown(buckets as nat, count as nat, load_factor as nat);
    }
    while !fits(count, size, load_factor) && size < MAX_BUCKETS
        invariant
            valid_size(size as nat),
            buckets <= size,
            grown(size as nat, count as nat, load_factor as nat) == grown(
                buckets as nat,
                count as nat,
                load_factor as nat,
            ),
        decreases MAX_BUCKETS - size,
    {
        proof {
            lemma_doubled_is_valid(size as nat);
        }
        size = if size == 0 {
            MIN_BUCKETS
        } else {
            2 * size
        };
    }
    size
}

} // verus!
