use intmap::capacity::LoadRate;
use intmap::hashing::bucket_index;
use intmap::IntMap;

fn keys_of(map: &IntMap<u64>) -> Vec<u64> {
    let mut keys = Vec::new();
    let mut view = map.keys();
    while let Some(key) = view.next() {
        keys.push(*key);
    }
    keys.sort();
    keys
}

#[test]
fn insert_overwrite_remove_and_checked_insert() {
    let mut map: IntMap<u64> = IntMap::with_capacity(0);
    assert_eq!(map.insert(1, 10), None);
    assert_eq!(map.insert(1, 20), Some(10));
    assert_eq!(map.get(1), Some(&20));
    assert_eq!(map.len(), 1);
    assert_eq!(map.remove(1), Some(20));
    assert!(map.is_empty());
    assert!(map.insert_checked(1, 99));
    assert!(!map.insert_checked(1, 100));
    assert_eq!(map.get(1), Some(&99));
}

#[test]
fn empty_table_answers_not_found() {
    let mut map: IntMap<u64> = IntMap::new();
    assert_eq!(map.capacity(), 0);
    assert_eq!(map.len(), 0);
    assert!(map.is_empty());
    assert_eq!(map.get(7), None);
    assert_eq!(map.get_mut(7), None);
    assert_eq!(map.remove(7), None);
    assert!(!map.contains_key(7));
    assert_eq!(map.collisions(), 0);
    assert_eq!(map.load(), 0);
    assert_eq!(map.load_rate(), LoadRate { pairs: 0, buckets: 0 });
    map.clear();
    map.retain(|_, _| true);
    assert_eq!(map.iter().count(), 0);
    assert_eq!(map.drain().count(), 0);
    assert_eq!(map.capacity(), 0);
}

#[test]
fn default_is_an_empty_table() {
    let map: IntMap<u8> = IntMap::default();
    assert!(map.is_empty());
    assert_eq!(map.capacity(), 0);
    assert_eq!(map.get_load_factor(), 909);
}

#[test]
fn inserting_twice_is_idempotent() {
    let mut map: IntMap<u64> = IntMap::new();
    assert_eq!(map.insert(42, 7), None);
    let len = map.len();
    let load = map.load();
    let capacity = map.capacity();
    assert_eq!(map.insert(42, 7), Some(7));
    assert_eq!(map.len(), len);
    assert_eq!(map.load(), load);
    assert_eq!(map.capacity(), capacity);
}

#[test]
fn the_table_grows_by_doubling() {
    let mut map: IntMap<u64> = IntMap::new();
    let mut seen = Vec::new();
    for key in 0..8u64 {
        map.insert(key, key);
        seen.push(map.capacity());
    }
    assert_eq!(seen, vec![2, 4, 4, 8, 8, 8, 8, 16]);
}

#[test]
fn growth_keeps_every_pair() {
    let mut map: IntMap<u64> = IntMap::new();
    map.set_load_factor(100);
    for key in 0..200u64 {
        assert_eq!(map.insert(key * 7919, key + 1), None);
    }
    assert_eq!(map.capacity(), 2048);
    assert_eq!(map.len(), 200);
    for key in 0..200u64 {
        assert_eq!(map.get(key * 7919), Some(&(key + 1)));
    }
    assert_eq!(keys_of(&map).len(), 200);
}

#[test]
fn load_and_load_rate_follow_the_count() {
    let mut map: IntMap<u64> = IntMap::with_capacity(100);
    assert_eq!(map.capacity(), 128);
    for key in 0..50u64 {
        map.insert(key, 0);
    }
    assert_eq!(map.load(), 50);
    assert_eq!(map.load_rate(), LoadRate { pairs: 50, buckets: 128 });
    assert_eq!(map.capacity(), 128);
}

#[test]
fn with_capacity_rounds_up_to_a_power_of_two() {
    assert_eq!(IntMap::<u8>::with_capacity(0).capacity(), 0);
    assert_eq!(IntMap::<u8>::with_capacity(1).capacity(), 2);
    assert_eq!(IntMap::<u8>::with_capacity(2).capacity(), 4);
    assert_eq!(IntMap::<u8>::with_capacity(100).capacity(), 128);
    assert_eq!(IntMap::<u8>::with_capacity(116).capacity(), 128);
    assert_eq!(IntMap::<u8>::with_capacity(117).capacity(), 256);
}

#[test]
fn reserve_grows_once_and_never_shrinks() {
    let mut map: IntMap<u64> = IntMap::new();
    map.insert(1, 1);
    map.insert(2, 2);
    assert_eq!(map.capacity(), 4);
    map.reserve(98);
    assert_eq!(map.capacity(), 128);
    map.reserve(1);
    assert_eq!(map.capacity(), 128);
    for key in 3..=100u64 {
        map.insert(key, key);
    }
    assert_eq!(map.capacity(), 128);
    assert_eq!(map.get(1), Some(&1));
    assert_eq!(map.get(100), Some(&100));
}

#[test]
fn the_load_factor_can_be_read_and_replaced() {
    let mut map: IntMap<u64> = IntMap::new();
    assert_eq!(map.get_load_factor(), 909);
    map.set_load_factor(10_000);
    assert_eq!(map.get_load_factor(), 10_000);
    for key in 0..20u64 {
        map.insert(key, key);
    }
    assert_eq!(map.capacity(), 2);
    assert_eq!(map.len(), 20);
    for key in 0..20u64 {
        assert_eq!(map.get(key), Some(&key));
    }
    assert_eq!(map.collisions(), 2);
}

#[test]
fn keys_in_one_bucket_collide() {
    let mut map: IntMap<u64> = IntMap::with_capacity(100);
    let buckets = map.capacity();
    let first = 1u64;
    let mut second = 2u64;
    while bucket_index(second, buckets) != bucket_index(first, buckets) {
        second += 1;
    }
    let mut third = 2u64;
    while bucket_index(third, buckets) == bucket_index(first, buckets) {
        third += 1;
    }
    map.insert(first, 0);
    map.insert(third, 0);
    assert_eq!(map.collisions(), 0);
    map.insert(second, 0);
    assert_eq!(map.capacity(), buckets);
    assert_eq!(map.collisions(), 1);
    assert_eq!(map.get(first), Some(&0));
    assert_eq!(map.get(second), Some(&0));
    map.remove(first);
    assert_eq!(map.collisions(), 0);
    assert_eq!(map.get(second), Some(&0));
}

#[test]
fn remove_and_clear_keep_the_buckets() {
    let mut map: IntMap<u64> = IntMap::new();
    for key in 0..10u64 {
        map.insert(key, key);
    }
    let capacity = map.capacity();
    assert_eq!(map.remove(3), Some(3));
    assert_eq!(map.remove(3), None);
    assert_eq!(map.len(), 9);
    assert_eq!(map.capacity(), capacity);
    map.clear();
    assert_eq!(map.len(), 0);
    assert_eq!(map.get(4), None);
    assert_eq!(map.capacity(), capacity);
}

#[test]
fn get_mut_changes_the_value_in_place() {
    let mut map: IntMap<u64> = IntMap::new();
    map.insert(5, 50);
    *map.get_mut(5).unwrap() += 1;
    assert_eq!(map.get(5), Some(&51));
    assert_eq!(map.len(), 1);
}

#[test]
fn retain_keeps_what_the_test_accepts() {
    let mut map: IntMap<u64> = IntMap::new();
    map.set_load_factor(5_000);
    for key in 0..100u64 {
        map.insert(key, key % 3);
    }
    map.retain(|key, value| *value != 0 && key != 1);
    assert_eq!(map.len(), 65);
    for key in 0..100u64 {
        let kept = key % 3 != 0 && key != 1;
        assert_eq!(map.contains_key(key), kept);
        if kept {
            assert_eq!(map.get(key), Some(&(key % 3)));
        }
    }
}

#[test]
fn a_clone_is_independent() {
    let mut map: IntMap<u64> = IntMap::new();
    map.set_load_factor(700);
    for key in 0..10u64 {
        map.insert(key, key);
    }
    let mut copy = map.clone();
    assert_eq!(copy.len(), 10);
    assert_eq!(copy.capacity(), map.capacity());
    assert_eq!(copy.get_load_factor(), 700);
    copy.insert(3, 33);
    copy.remove(4);
    assert_eq!(map.get(3), Some(&3));
    assert_eq!(map.get(4), Some(&4));
    assert_eq!(copy.get(3), Some(&33));
    assert_eq!(copy.get(4), None);
}

#[test]
fn debug_text_of_any_table() {
    let mut map: IntMap<u64> = IntMap::new();
    assert!(!format!("{:?}", map).is_empty());
    map.insert(1, 10);
    map.insert(2, 20);
    let text = format!("{:?}", map);
    assert!(text.contains("10"));
    assert!(text.contains("20"));
}

#[test]
fn large_keys_are_keys_like_any_other() {
    let mut map: IntMap<u64> = IntMap::new();
    assert_eq!(map.insert(u64::MAX, 1), None);
    assert_eq!(map.insert(0, 2), None);
    assert_eq!(map.insert(u64::MAX - 1, 3), None);
    assert_eq!(map.get(u64::MAX), Some(&1));
    assert_eq!(map.get(0), Some(&2));
    assert_eq!(map.remove(u64::MAX - 1), Some(3));
    assert_eq!(keys_of(&map), vec![0, u64::MAX]);
}
