use std::collections::HashMap;

use intmap::ops::{Capacity, Ctor, Key, LoadFactor, Op, Pairs, Value};
use intmap::IntMap;

struct Dice(u64);

impl Dice {
    fn roll(&mut self, sides: u64) -> u64 {
        self.0 = self.0.wrapping_mul(6364136223846793005).wrapping_add(1442695040888963407);
        (self.0 >> 33) % sides
    }

    fn key(&mut self) -> Key {
        if self.roll(11) < 10 {
            Key(self.roll(11))
        } else {
            Key(self.roll(u64::MAX))
        }
    }

    fn value(&mut self) -> Value {
        Value(self.roll(256) as u8)
    }

    fn pairs(&mut self) -> Pairs {
        let len = self.roll(100);
        let mut pairs = Vec::new();
        for _ in 0..len {
            pairs.push((self.key().0, self.value().0));
        }
        Pairs(pairs)
    }

    fn op(&mut self) -> Op {
        match self.roll(27) {
            0 => Op::SetLoadFactor(LoadFactor(100 + self.roll(9900) as usize)),
            1 => Op::GetLoadFactor,
            2 => Op::Reserve(Capacity(self.roll(101) as usize)),
            3 => Op::Insert((self.key(), self.value())),
            4 => Op::InsertChecked((self.key(), self.value())),
            5 => Op::Get(self.key()),
            6 => Op::GetMut(self.key()),
            7 => Op::Remove(self.key()),
            8 => Op::ContainsKey(self.key()),
            9 => Op::Clear,
            10 => Op::Retain(self.value()),
            11 => Op::IsEmpty,
            12 => Op::Iter,
            13 => Op::IterMut,
            14 => Op::Keys,
            15 => Op::Values,
            16 => Op::ValuesMut,
            17 => Op::Drain,
            18 => Op::Len,
            19 => Op::Load,
            20 => Op::LoadRate,
            21 => Op::Capacity,
            22 => Op::Collisions,
            23 => Op::Entry(self.key()),
            24 => Op::Clone,
            25 => Op::Debug,
            _ => Op::Extend(self.pairs()),
        }
    }
}

fn agree(map: &IntMap<u8>, reference: &HashMap<u64, u8>) {
    assert_eq!(map.len(), reference.len());
    for (key, value) in reference.iter() {
        assert_eq!(map.get(*key), Some(value));
    }
    let mut view = map.iter();
    while let Some((key, value)) = view.next() {
        assert_eq!(reference.get(key), Some(value));
    }
}

#[test]
fn every_ctor_makes_the_same_map_twice() {
    let ctors = vec![
        Ctor::New,
        Ctor::WithCapacity(Capacity(0)),
        Ctor::WithCapacity(Capacity(100)),
        Ctor::Default,
        Ctor::FromIter(Pairs(vec![])),
        Ctor::FromIter(Pairs(vec![(1, 1), (2, 2), (1, 3)])),
    ];
    for ctor in ctors.iter() {
        assert!(ctor.check());
        let (map, reference) = ctor.apply();
        agree(&map, &reference);
    }
    let (map, reference) = Ctor::FromIter(Pairs(vec![(1, 1), (2, 2), (1, 3)])).apply();
    assert_eq!(map.get(1), Some(&3));
    assert_eq!(reference.get(&1), Some(&3));
    assert_eq!(map.len(), 2);
    let (map, _) = Ctor::WithCapacity(Capacity(100)).apply();
    assert_eq!(map.capacity(), 128);
    let (map, _) = Ctor::WithCapacity(Capacity(0)).apply();
    assert_eq!(map.capacity(), 0);
    let (map, _) = Ctor::FromIter(Pairs(vec![(1, 1), (2, 2), (1, 3)])).apply();
    assert_eq!(map.capacity(), 4);
    let (map, _) = Ctor::New.apply();
    assert_eq!(map.capacity(), 0);
}

#[test]
fn ops_that_bring_no_key_keep_the_buckets() {
    let (mut map, mut reference) = Ctor::WithCapacity(Capacity(20)).apply();
    assert_eq!(map.capacity(), 32);
    assert!(Op::Extend(Pairs(vec![(1, 1), (2, 2), (3, 1)])).apply(&mut map, &mut reference));
    let quiet = vec![
        Op::Get(Key(1)),
        Op::GetMut(Key(1)),
        Op::ContainsKey(Key(9)),
        Op::Remove(Key(2)),
        Op::Retain(Value(1)),
        Op::Entry(Key(7)),
        Op::Iter,
        Op::IterMut,
        Op::Clone,
        Op::Drain,
        Op::Clear,
        Op::SetLoadFactor(LoadFactor(1)),
    ];
    for op in quiet.iter() {
        assert!(op.apply(&mut map, &mut reference), "{:?}", op);
        assert_eq!(map.capacity(), 32, "{:?}", op);
    }
    assert!(Op::Insert((Key(1), Value(1))).apply(&mut map, &mut reference));
    assert_eq!(map.capacity(), 1024);
}

#[test]
fn a_capacity_beyond_the_largest_table_is_not_admissible() {
    assert!(!Ctor::WithCapacity(Capacity(usize::MAX)).check());
    let map: IntMap<u8> = IntMap::new();
    assert!(!Op::Reserve(Capacity(usize::MAX)).check(&map));
    assert!(!Op::SetLoadFactor(LoadFactor(0)).check(&map));
    assert!(Op::SetLoadFactor(LoadFactor(1)).check(&map));
    assert!(Op::Reserve(Capacity(100)).check(&map));
}

#[test]
fn every_op_agrees_with_the_reference() {
    let mut dice = Dice(1);
    for round in 0..40 {
        let (mut map, mut reference) = if round % 2 == 0 {
            Ctor::New.apply()
        } else {
            Ctor::FromIter(dice.pairs()).apply()
        };
        for _ in 0..300 {
            let op = dice.op();
            assert!(op.check(&map), "{:?}", op);
            assert!(op.apply(&mut map, &mut reference), "{:?}", op);
            agree(&map, &reference);
        }
    }
}

#[test]
fn a_sequence_of_ops_is_applied_to_the_end() {
    let mut dice = Dice(7);
    let mut ops = Vec::new();
    for _ in 0..2000 {
        ops.push(dice.op());
    }
    let (mut map, mut reference) = Ctor::Default.apply();
    assert_eq!(Op::apply_all(&ops, &mut map, &mut reference), 2000);
    agree(&map, &reference);
    let again = ops.clone();
    let (mut second, mut second_reference) = Ctor::Default.apply();
    assert_eq!(Op::apply_all(&again, &mut second, &mut second_reference), 2000);
    agree(&second, &reference);
}

#[test]
fn a_sequence_stops_at_an_op_that_is_not_admissible() {
    let ops = vec![
        Op::Insert((Key(1), Value(1))),
        Op::SetLoadFactor(LoadFactor(0)),
        Op::Insert((Key(2), Value(2))),
    ];
    let (mut map, mut reference) = Ctor::New.apply();
    assert_eq!(Op::apply_all(&ops, &mut map, &mut reference), 1);
    assert_eq!(map.len(), 1);
    assert_eq!(reference.len(), 1);
}

#[test]
fn retain_removes_the_value_from_both() {
    let (mut map, mut reference) =
        Ctor::FromIter(Pairs(vec![(1, 5), (2, 6), (3, 5), (4, 7)])).apply();
    assert!(Op::Retain(Value(5)).apply(&mut map, &mut reference));
    assert_eq!(reference.len(), 2);
    assert_eq!(reference.get(&1), None);
    assert_eq!(reference.get(&2), Some(&6));
    assert_eq!(reference.get(&3), None);
    assert_eq!(reference.get(&4), Some(&7));
    agree(&map, &reference);
}

#[test]
fn set_load_factor_and_reserve_leave_the_map() {
    let (mut map, mut reference) = Ctor::FromIter(Pairs(vec![(1, 5), (2, 6)])).apply();
    assert!(Op::SetLoadFactor(LoadFactor(250)).apply(&mut map, &mut reference));
    assert_eq!(map.get_load_factor(), 250);
    assert_eq!(map.capacity(), 4);
    assert!(Op::Reserve(Capacity(10)).apply(&mut map, &mut reference));
    assert_eq!(map.capacity(), 64);
    agree(&map, &reference);
}

#[test]
fn drain_and_clear_empty_both() {
    let (mut map, mut reference) = Ctor::FromIter(Pairs(vec![(1, 5), (2, 6)])).apply();
    assert!(Op::Drain.apply(&mut map, &mut reference));
    assert!(map.is_empty());
    assert!(reference.is_empty());
    assert!(Op::Extend(Pairs(vec![(3, 1), (3, 2)])).apply(&mut map, &mut reference));
    assert_eq!(map.get(3), Some(&2));
    assert!(Op::Clear.apply(&mut map, &mut reference));
    assert!(map.is_empty());
    assert!(reference.is_empty());
}
