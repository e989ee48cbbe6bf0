use intmap::bucket::Bucket;
use intmap::capacity::{fits, target_size, DEFAULT_LOAD_FACTOR, MAX_BUCKETS, MIN_BUCKETS};
use intmap::hashing::{bucket_index, calc_index, hash_u64, MULTIPLIER};

#[test]
fn the_hash_is_a_wrapping_product() {
    assert_eq!(MULTIPLIER, 11400714819323198549);
    assert_eq!(hash_u64(0), 0);
    assert_eq!(hash_u64(1), 11400714819323198549);
    assert_eq!(hash_u64(2), 4354685564936845482);
    assert_eq!(hash_u64(u64::MAX), 7046029254386353067);
}

#[test]
fn the_index_is_the_hash_under_the_mask() {
    assert_eq!(calc_index(1, 3), 1);
    assert_eq!(calc_index(2, 3), 2);
    assert_eq!(calc_index(1, 0), 0);
    assert_eq!(calc_index(1, 7), 5);
    assert_eq!(bucket_index(1, 4), 1);
    assert_eq!(bucket_index(2, 4), 2);
    assert_eq!(bucket_index(12345, 1), 0);
}

#[test]
fn the_index_is_in_range_and_repeats() {
    let mut buckets = 1usize;
    while buckets <= 1 << 20 {
        for key in [0u64, 1, 2, 3, 1000, u64::MAX, 1 << 40] {
            let index = bucket_index(key, buckets);
            assert!(index < buckets);
            assert_eq!(index, bucket_index(key, buckets));
        }
        buckets *= 2;
    }
}

#[test]
fn sequential_keys_spread_over_the_buckets() {
    let mut used = vec![false; 16];
    for key in 0..16u64 {
        used[bucket_index(key, 16)] = true;
    }
    assert!(used.iter().filter(|u| **u).count() >= 8);
}

#[test]
fn within_load_is_a_product_test() {
    assert!(fits(0, 0, 909));
    assert!(!fits(1, 0, 909));
    assert!(fits(909, 1000, 909));
    assert!(!fits(910, 1000, 909));
    assert!(fits(1, 2, 909));
    assert!(!fits(2, 2, 909));
    assert!(fits(usize::MAX, usize::MAX, 1000));
    assert!(!fits(usize::MAX, usize::MAX, 999));
}

#[test]
fn the_target_size_is_the_first_that_fits() {
    assert_eq!(DEFAULT_LOAD_FACTOR, 909);
    assert_eq!(MIN_BUCKETS, 2);
    assert_eq!(MAX_BUCKETS, 1 << 30);
    assert_eq!(target_size(0, 0, 909), 0);
    assert_eq!(target_size(0, 1, 909), 2);
    assert_eq!(target_size(2, 2, 909), 4);
    assert_eq!(target_size(4, 3, 909), 4);
    assert_eq!(target_size(4, 4, 909), 8);
    assert_eq!(target_size(0, 100, 909), 128);
    assert_eq!(target_size(256, 100, 909), 256);
    assert_eq!(target_size(2, 100, 50_000), 2);
    assert_eq!(target_size(0, 3, 1), 4096);
}

#[test]
fn the_target_size_stops_at_the_largest() {
    assert_eq!(target_size(0, usize::MAX, 909), MAX_BUCKETS);
    assert_eq!(target_size(MAX_BUCKETS, usize::MAX, 1), MAX_BUCKETS);
}

#[test]
fn a_bucket_spills_to_the_heap_with_the_second_pair() {
    let mut bucket: Bucket<u64, u8> = Bucket::new();
    assert!(bucket.is_empty());
    assert!(matches!(bucket, Bucket::Inline(None)));
    bucket.push((1, 10));
    assert!(matches!(bucket, Bucket::Inline(Some((1, 10)))));
    assert_eq!(bucket.len(), 1);
    bucket.push((2, 20));
    assert!(matches!(bucket, Bucket::Heap(_)));
    assert_eq!(bucket.as_slice(), &[(1, 10), (2, 20)]);
    bucket.push((3, 30));
    assert_eq!(bucket.len(), 3);
    assert_eq!(bucket.get(2), &(3, 30));
}

#[test]
fn a_bucket_finds_swaps_and_pops() {
    let mut bucket: Bucket<u64, u8> = Bucket::new();
    assert_eq!(bucket.position(1), None);
    assert_eq!(bucket.pop(), None);
    for key in 1..=4u64 {
        bucket.push((key, key as u8));
    }
    assert_eq!(bucket.position(3), Some(2));
    assert_eq!(bucket.position(9), None);
    assert_eq!(bucket.swap_remove(0), (1, 1));
    assert_eq!(bucket.as_slice(), &[(4, 4), (2, 2), (3, 3)]);
    assert_eq!(bucket.pop(), Some((3, 3)));
    bucket.as_mut_slice()[1].1 = 22;
    assert_eq!(bucket.as_slice(), &[(4, 4), (2, 22)]);
    bucket.clear();
    assert!(bucket.is_empty());
    assert!(matches!(bucket, Bucket::Heap(_)));
    let mut single: Bucket<u64, u8> = Bucket::new();
    single.push((7, 70));
    assert_eq!(single.swap_remove(0), (7, 70));
    assert!(single.is_empty());
}

#[test]
fn a_bucket_gives_its_first_pair_and_keeps_the_order() {
    let mut bucket: Bucket<u64, u8> = Bucket::new();
    assert_eq!(bucket.pop_front(), None);
    assert!(matches!(bucket, Bucket::Inline(None)));
    bucket.push((1, 10));
    assert_eq!(bucket.pop_front(), Some((1, 10)));
    assert!(matches!(bucket, Bucket::Inline(None)));
    for key in 1..=4u64 {
        bucket.push((key, key as u8));
    }
    assert_eq!(bucket.pop_front(), Some((1, 1)));
    assert_eq!(bucket.as_slice(), &[(2, 2), (3, 3), (4, 4)]);
    assert_eq!(bucket.pop_front(), Some((2, 2)));
    assert_eq!(bucket.pop(), Some((4, 4)));
    assert_eq!(bucket.pop_front(), Some((3, 3)));
    assert_eq!(bucket.pop_front(), None);
    assert!(matches!(bucket, Bucket::Heap(_)));
}

#[test]
fn a_bucket_keeps_its_form_when_pairs_leave() {
    let mut bucket: Bucket<u64, u8> = Bucket::new();
    bucket.push((1, 10));
    assert_eq!(bucket.pop(), Some((1, 10)));
    assert!(matches!(bucket, Bucket::Inline(None)));
    bucket.push((1, 10));
    bucket.as_mut_slice()[0].1 = 11;
    assert!(matches!(bucket, Bucket::Inline(Some((1, 11)))));
    assert_eq!(bucket.swap_remove(0), (1, 11));
    assert!(matches!(bucket, Bucket::Inline(None)));
    bucket.push((1, 10));
    bucket.clear();
    assert!(matches!(bucket, Bucket::Inline(None)));
    bucket.push((1, 10));
    bucket.push((2, 20));
    assert_eq!(bucket.swap_remove(0), (1, 10));
    assert_eq!(bucket.pop(), Some((2, 20)));
    assert!(matches!(bucket, Bucket::Heap(_)));
    bucket.push((3, 30));
    assert!(matches!(bucket, Bucket::Heap(_)));
    assert_eq!(bucket.as_slice(), &[(3, 30)]);
}
