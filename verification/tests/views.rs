use intmap::IntMap;

fn sample() -> IntMap<u64> {
    let mut map: IntMap<u64> = IntMap::new();
    for key in 0..20u64 {
        map.insert(key * 3, key);
    }
    map
}

#[test]
fn iter_yields_each_pair_once() {
    let map = sample();
    let mut seen = Vec::new();
    let mut view = map.iter();
    assert_eq!(view.size_hint(), (0, None));
    while let Some((key, value)) = view.next() {
        seen.push((*key, *value));
    }
    assert_eq!(view.next(), None);
    seen.sort();
    let expected: Vec<(u64, u64)> = (0..20u64).map(|key| (key * 3, key)).collect();
    assert_eq!(seen, expected);
    assert_eq!(map.iter().count(), 20);
}

#[test]
fn keys_and_values_project_the_pairs() {
    let map = sample();
    let mut keys = Vec::new();
    let mut view = map.keys();
    assert_eq!(view.size_hint(), (0, None));
    while let Some(key) = view.next() {
        keys.push(*key);
    }
    let mut values = Vec::new();
    let mut view = map.values();
    assert_eq!(view.size_hint(), (0, None));
    while let Some(value) = view.next() {
        values.push(*value);
    }
    let mut pairs = Vec::new();
    let mut view = map.iter();
    while let Some((key, value)) = view.next() {
        pairs.push((*key, *value));
    }
    let zipped: Vec<(u64, u64)> = keys.iter().copied().zip(values.iter().copied()).collect();
    assert_eq!(zipped, pairs);
    assert_eq!(map.keys().count(), 20);
    assert_eq!(map.values().count(), 20);
}

#[test]
fn iter_mut_changes_values_in_place() {
    let mut map = sample();
    let mut view = map.iter_mut();
    let mut steps = 0;
    while let Some((key, value)) = view.next() {
        assert_eq!(key, *value * 3);
        *value += 100;
        steps += 1;
    }
    assert_eq!(steps, 20);
    for key in 0..20u64 {
        assert_eq!(map.get(key * 3), Some(&(key + 100)));
    }
    assert_eq!(map.len(), 20);
    assert_eq!(map.iter_mut().count(), 20);
}

#[test]
fn values_mut_changes_values_in_place() {
    let mut map = sample();
    let mut view = map.values_mut();
    assert_eq!(view.size_hint(), (0, None));
    while let Some(value) = view.next() {
        *value *= 2;
    }
    for key in 0..20u64 {
        assert_eq!(map.get(key * 3), Some(&(key * 2)));
    }
    assert_eq!(map.values_mut().count(), 20);
}

#[test]
fn into_iter_hands_out_the_pairs_in_the_order_of_iter() {
    let map = sample();
    let mut borrowed = Vec::new();
    let mut view = map.iter();
    while let Some((key, value)) = view.next() {
        borrowed.push((*key, *value));
    }
    let mut owned = Vec::new();
    let mut view = map.into_iter();
    while let Some(pair) = view.next() {
        owned.push(pair);
    }
    assert_eq!(view.next(), None);
    assert_eq!(owned.len(), 20);
    assert_eq!(owned, borrowed);
}

#[test]
fn into_iter_goes_through_crowded_buckets_front_first() {
    let mut map: IntMap<u64> = IntMap::new();
    map.set_load_factor(20_000);
    for key in 0..30u64 {
        map.insert(key, key * 2);
    }
    assert_eq!(map.capacity(), 2);
    let mut borrowed = Vec::new();
    let mut view = map.iter();
    while let Some((key, value)) = view.next() {
        borrowed.push((*key, *value));
    }
    let mut owned = Vec::new();
    let mut view = map.into_iter();
    while let Some(pair) = view.next() {
        owned.push(pair);
    }
    assert_eq!(owned, borrowed);
}

#[test]
fn a_drain_run_to_the_end_empties_the_table() {
    let mut map = sample();
    let capacity = map.capacity();
    let mut seen = Vec::new();
    let mut view = map.drain();
    while let Some(pair) = view.next() {
        seen.push(pair);
    }
    assert_eq!(view.next(), None);
    seen.sort();
    let expected: Vec<(u64, u64)> = (0..20u64).map(|key| (key * 3, key)).collect();
    assert_eq!(seen, expected);
    assert_eq!(map.len(), 0);
    assert!(map.is_empty());
    assert_eq!(map.capacity(), capacity);
    assert_eq!(map.get(3), None);
}

#[test]
fn drain_count_is_the_length() {
    let mut map = sample();
    assert_eq!(map.drain().count(), 20);
    assert!(map.is_empty());
    assert_eq!(map.drain().count(), 0);
}

#[test]
fn a_drain_that_stops_early_leaves_the_rest() {
    let mut map = sample();
    let mut taken = Vec::new();
    {
        let mut view = map.drain();
        for _ in 0..5 {
            taken.push(view.next().unwrap());
        }
    }
    assert_eq!(map.len(), 15);
    for key in 0..20u64 {
        let was_taken = taken.contains(&(key * 3, key));
        assert_eq!(map.get(key * 3), if was_taken { None } else { Some(&key) });
    }
    assert_eq!(map.insert(1000, 1), None);
    assert_eq!(map.len(), 16);
}

#[test]
fn a_drain_yields_the_pairs_in_the_order_of_iter() {
    let mut map: IntMap<u64> = IntMap::new();
    map.set_load_factor(3_000);
    for key in 0..40u64 {
        map.insert(key * 5, key);
    }
    let mut borrowed = Vec::new();
    let mut view = map.iter();
    while let Some((key, value)) = view.next() {
        borrowed.push((*key, *value));
    }
    let mut taken = Vec::new();
    {
        let mut view = map.drain();
        for _ in 0..7 {
            taken.push(view.next().unwrap());
        }
    }
    assert_eq!(taken, borrowed[..7].to_vec());
    let mut left = Vec::new();
    let mut view = map.iter();
    while let Some((key, value)) = view.next() {
        left.push((*key, *value));
    }
    assert_eq!(left, borrowed[7..].to_vec());
    let mut rest = Vec::new();
    let mut view = map.drain();
    while let Some(pair) = view.next() {
        rest.push(pair);
    }
    assert_eq!(rest, borrowed[7..].to_vec());
    assert!(map.is_empty());
}

#[test]
fn entry_gives_the_value_or_stores_one() {
    let mut map: IntMap<u64> = IntMap::new();
    {
        let entry = map.entry(5);
        assert_eq!(entry.key(), 5);
        assert!(!entry.is_occupied());
        assert_eq!(entry.get(), None);
        let value = entry.or_insert(50);
        assert_eq!(*value, 50);
        *value += 1;
    }
    assert_eq!(map.get(5), Some(&51));
    assert_eq!(map.len(), 1);
    assert_eq!(map.capacity(), 2);
    {
        let entry = map.entry(5);
        assert!(entry.is_occupied());
        assert_eq!(entry.get(), Some(&51));
        assert_eq!(*entry.or_insert(99), 51);
    }
    assert_eq!(map.len(), 1);
    *map.entry(6).or_default() += 2;
    *map.entry(6).or_default() += 2;
    assert_eq!(map.get(6), Some(&4));
    assert_eq!(*map.entry(7).or_insert_with(|| 70), 70);
    assert_eq!(*map.entry(7).or_insert_with(|| 71), 70);
    assert_eq!(map.len(), 3);
    assert_eq!(map.capacity(), 4);
}

#[test]
fn an_entry_that_is_dropped_changes_nothing() {
    let mut map = sample();
    map.entry(1);
    map.entry(3);
    assert_eq!(map.len(), 20);
    assert_eq!(map.get(1), None);
    assert_eq!(map.get(3), Some(&1));
}

#[test]
fn from_iter_takes_the_last_value_of_a_key() {
    let pairs = vec![(1u64, 10u64), (2, 20), (1, 11), (3, 30), (2, 21), (1, 12)];
    let map = IntMap::from_iter(pairs);
    assert_eq!(map.len(), 3);
    assert_eq!(map.capacity(), 8);
    let mut seen = Vec::new();
    let mut view = map.iter();
    while let Some((key, value)) = view.next() {
        seen.push((*key, *value));
    }
    seen.sort();
    assert_eq!(seen, vec![(1, 12), (2, 21), (3, 30)]);
}

#[test]
fn from_iter_of_nothing_is_empty() {
    let map: IntMap<u64> = IntMap::from_iter(Vec::new());
    assert!(map.is_empty());
    assert_eq!(map.capacity(), 0);
    assert_eq!(map.iter().count(), 0);
}

#[test]
fn extend_inserts_in_order() {
    let mut map: IntMap<u64> = IntMap::new();
    map.insert(1, 1);
    map.insert(9, 9);
    map.extend(vec![(1, 100), (2, 200), (2, 201)]);
    assert_eq!(map.len(), 3);
    assert_eq!(map.get(1), Some(&100));
    assert_eq!(map.get(2), Some(&201));
    assert_eq!(map.get(9), Some(&9));
    assert_eq!(map.capacity(), 4);
}

#[test]
fn distinct_keys_make_as_many_pairs() {
    let pairs: Vec<(u64, u64)> = (0..64u64).map(|key| (key * key, key)).collect();
    let map = IntMap::from_iter(pairs);
    assert_eq!(map.len(), 64);
    assert_eq!(map.load(), 64);
    assert_eq!(map.capacity(), 128);
    assert_eq!(map.load_rate().pairs, 64);
    assert_eq!(map.load_rate().buckets, 128);
}
