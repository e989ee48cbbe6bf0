//! Operations on a table as values, each applied to the table and to a
//! `HashMap` at once.
//!
//! The `HashMap` is the reference: what an operation does to it is what the
//! operation means. Every application is proved to leave the two with the
//! same map, and every answer of the table is compared with the reference's.

use std::collections::HashMap;
use vstd::prelude::*;
use crate::capacity::{fits, grown, within_load, DEFAULT_LOAD_FACTOR, MAX_BUCKETS};
use crate::iter::{extended, grown_through};
use crate::map::{buckets_after_insert, IntMap};

verus! {

/// A number of pairs to make room for.
#[derive(Clone, Debug)]
pub struct Capacity(pub usize);

/// A load factor, in thousandths.
#[derive(Clone, Debug)]
pub struct LoadFactor(pub usize);

/// A key.
#[derive(Clone, Debug)]
pub struct Key(pub u64);

/// A value.
#[derive(Clone, Debug)]
pub struct Value(pub u8);

/// Pairs to build a table from, or to extend one with.
#[derive(Clone, Debug)]
pub struct Pairs(pub Vec<(u64, u8)>);

/// A way to make a table.
#[derive(Clone, Debug)]
pub enum Ctor {
    New,
    WithCapacity(Capacity),
    Default,
    FromIter(Pairs),
}

/// An operation on a table.
#[derive(Debug)]
pub enum Op {
    SetLoadFactor(LoadFactor),
    GetLoadFactor,
    Reserve(Capacity),
    Insert((Key, Value)),
    InsertChecked((Key, Value)),
    Get(Key),
    GetMut(Key),
    Remove(Key),
    ContainsKey(Key),
    Clear,
    Retain(Value),
    IsEmpty,
    Iter,
    IterMut,
    Keys,
    Values,
    ValuesMut,
    Drain,
    Len,
    Load,
    LoadRate,
    Capacity,
    Collisions,
    Entry(Key),
    Clone,
    Debug,
    Extend(Pairs),
}

impl Clone for Op {
    fn clone(&self) -> (copy: Self) {
        match self {
            Op::SetLoadFactor(load_factor) => Op::SetLoadFactor(load_factor.clone()),
            Op::GetLoadFactor => Op::GetLoadFactor,
            Op::Reserve(additional) => Op::Reserve(additional.clone()),
            Op::Insert((key, value)) => Op::Insert((key.clone(), value.clone())),
            Op::InsertChecked((key, value)) => Op::InsertChecked((key.clone(), value.clone())),
            Op::Get(key) => Op::Get(key.clone()),
            Op::GetMut(key) => Op::GetMut(key.clone()),
            Op::Remove(key) => Op::Remove(key.clone()),
            Op::ContainsKey(key) => Op::ContainsKey(key.clone()),
            Op::Clear => Op::Clear,
            Op::Retain(value) => Op::Retain(value.clone()),
            Op::IsEmpty => Op::IsEmpty,
            Op::Iter => Op::Iter,
            Op::IterMut => Op::IterMut,
            Op::Keys => Op::Keys,
            Op::Values => Op::Values,
            Op::ValuesMut => Op::ValuesMut,
            Op::Drain => Op::Drain,
            Op::Len => Op::Len,
            Op::Load => Op::Load,
            Op::LoadRate => Op::LoadRate,
            Op::Capacity => Op::Capacity,
            Op::Collisions => Op::Collisions,
            Op::Entry(key) => Op::Entry(key.clone()),
            Op::Clone => Op::Clone,
            Op::Debug => Op::Debug,
            Op::Extend(pairs) => Op::Extend(pairs.clone()),
        }
    }
}

/// The pairs of `map` whose value is not `value`.
pub open spec fn without_value(map: Map<u64, u8>, value: u8) -> Map<u64, u8> {
    Map::new(|key: u64| map.contains_key(key) && map[key] != value, |key: u64| map[key])
}

/// Whether two values differ.
fn differs(a: u8, b: u8) -> (r: bool)
    ensures
        r == (a != b),
{
    a != b
}

/// `HashMap::retain`, called with the test "the value is not `value`". The
/// standard library removes the pairs for which the test returns `false` and
/// keeps the others as they are.
#[verifier::external_body]
fn reference_retain(reference: &mut HashMap<u64, u8>, value: u8)
    ensures
        final(reference)@ == without_value(old(reference)@, value),
{
    reference.retain(|_, v| differs(*v, value));
}

/// The text that `format!` makes of a table with `{:?}`. Nothing is claimed of
/// it.
#[verifier::external_body]
fn render(map: &IntMap<u8>) -> (text: String) {
    format!("{:?}", map)
}

/// A copy of `pairs`.
fn copy_pairs(pairs: &Vec<(u64, u8)>) -> (copy: Vec<(u64, u8)>)
    ensures
        copy@ == pairs@,
{
    let mut copy: Vec<(u64, u8)> = Vec::new();
    let mut i: usize = 0;
    while i < pairs.len()
        invariant
            i <= pairs@.len(),
            copy@ == pairs@.take(i as int),
        decreases pairs@.len() - i,
    {
        copy.push((pairs[i].0, pairs[i].1));
        proof {
            assert(copy@ =~= pairs@.take(i + 1));
        }
        i += 1;
    }
    proof {
        assert(pairs@.take(i as int) =~= pairs@);
    }
    copy
}

/// Inserts the pairs of `pairs` into the reference, one after the other.
fn reference_extend(reference: &mut HashMap<u64, u8>, pairs: &Vec<(u64, u8)>)
    ensures
        final(reference)@ == extended(old(reference)@, pairs@),
{
    let mut i: usize = 0;
    proof {
        assert(pairs@.take(0) =~= Seq::<(u64, u8)>::empty());
    }
    while i < pairs.len()
        invariant
            i <= pairs@.len(),
            reference@ == extended(old(reference)@, pairs@.take(i as int)),
        decreases pairs@.len() - i,
    {
        proof {
            assert(pairs@.take(i + 1).drop_last() =~= pairs@.take(i as int));
        }
        reference.insert(pairs[i].0, pairs[i].1);
        i += 1;
    }
    proof {
        assert(pairs@.take(i as int) =~= pairs@);
    }
}

/// Whether a value of the table and one of the reference are the same, or
/// both are missing.
fn same(ours: Option<&u8>, theirs: Option<&u8>) -> (r: bool)
    ensures
        r == (ours == theirs),
{
    match (ours, theirs) {
        (Some(a), Some(b)) => *a == *b,
        (None, None) => true,
        _ => false,
    }
}

impl Ctor {
    /// The map of the table that `self` makes.
    pub open spec fn made(&self) -> Map<u64, u8> {
        match self {
            Ctor::FromIter(pairs) => extended(Map::<u64, u8>::empty(), pairs.0@),
            _ => Map::<u64, u8>::empty(),
        }
    }

    /// Whether `self` can be applied: a capacity, or a number of pairs to make
    /// room for, must be one that a table can have.
    pub open spec fn admissible(&self) -> bool {
        match self {
            Ctor::WithCapacity(capacity) => within_load(
                capacity.0 as nat,
                MAX_BUCKETS as nat,
                DEFAULT_LOAD_FACTOR as nat,
            ),
            Ctor::FromIter(pairs) => within_load(
                pairs.0@.len(),
                MAX_BUCKETS as nat,
                DEFAULT_LOAD_FACTOR as nat,
            ),
            _ => true,
        }
    }

    /// The number of buckets of the table that `self` makes.
    pub open spec fn buckets_made(&self) -> nat {
        match self {
            Ctor::WithCapacity(capacity) => grown(0, capacity.0 as nat, DEFAULT_LOAD_FACTOR as nat),
            Ctor::FromIter(pairs) => grown(0, pairs.0@.len(), DEFAULT_LOAD_FACTOR as nat),
            _ => 0,
        }
    }

    /// The number of pairs that the table that `self` makes has room for.
    pub open spec fn room_made(&self) -> nat {
        match self {
            Ctor::WithCapacity(capacity) => capacity.0 as nat,
            Ctor::FromIter(pairs) => pairs.0@.len(),
            _ => 0,
        }
    }

    /// Tests [`Ctor::admissible`].
    pub fn check(&self) -> (b: bool)
        ensures
            b == self.admissible(),
    {
        match self {
            Ctor::WithCapacity(capacity) => fits(capacity.0, MAX_BUCKETS, DEFAULT_LOAD_FACTOR),
            Ctor::FromIter(pairs) => fits(pairs.0.len(), MAX_BUCKETS, DEFAULT_LOAD_FACTOR),
            _ => true,
        }
    }

    /// Makes a table and a reference with the same map. The table has the
    /// default load factor and as many buckets as the room that was asked for
    /// needs.
    pub fn apply(&self) -> (made: (IntMap<u8>, HashMap<u64, u8>))
        requires
            self.admissible(),
        ensures
            made.0.wf(),
            made.0@ == self.made(),
            made.1@ == self.made(),
            made.0.factor() == DEFAULT_LOAD_FACTOR,
            made.0.buckets() == self.buckets_made(),
            within_load(self.room_made(), made.0.buckets(), DEFAULT_LOAD_FACTOR as nat),
    {
        match self {
            Ctor::New => (IntMap::new(), HashMap::new()),
            Ctor::WithCapacity(capacity) => (IntMap::with_capacity(capacity.0), HashMap::new()),
            Ctor::Default => (IntMap::default(), HashMap::new()),
            Ctor::FromIter(pairs) => {
                let mut reference: HashMap<u64, u8> = HashMap::new();
                reference_extend(&mut reference, &pairs.0);
                (IntMap::from_iter(copy_pairs(&pairs.0)), reference)
            },
        }
    }
}

impl Op {
    /// What `self` makes of a map.
    pub open spec fn effect(&self, map: Map<u64, u8>) -> Map<u64, u8> {
        match self {
            Op::Insert((key, value)) => map.insert(key.0, value.0),
            Op::InsertChecked((key, value)) => if map.contains_key(key.0) {
                map
            } else {
                map.insert(key.0, value.0)
            },
            Op::Remove(key) => map.remove(key.0),
            Op::Clear => Map::empty(),
            Op::Retain(value) => without_value(map, value.0),
            Op::Drain => Map::empty(),
            Op::Extend(pairs) => extended(map, pairs.0@),
            _ => map,
        }
    }

    /// The number of buckets that `map` has after `self`: more where `self`
    /// asks for room or brings new keys, and else as many as before.
    pub open spec fn buckets_after(&self, map: &IntMap<u8>) -> nat {
        match self {
            Op::Reserve(additional) => grown(
                map.buckets(),
                (map@.len() + additional.0) as nat,
                map.factor(),
            ),
            Op::Insert((key, _)) => buckets_after_insert(
                map.buckets(),
                map@,
                key.0,
                map.factor(),
            ),
            Op::InsertChecked((key, _)) => buckets_after_insert(
                map.buckets(),
                map@,
                key.0,
                map.factor(),
            ),
            Op::Extend(pairs) => grown_through(map.buckets(), map@, pairs.0@, map.factor()),
            _ => map.buckets(),
        }
    }

    /// The load factor that a table with the load factor `factor` has after
    /// `self`.
    pub open spec fn factor_after(&self, factor: nat) -> nat {
        match self {
            Op::SetLoadFactor(load_factor) => load_factor.0 as nat,
            _ => factor,
        }
    }

    /// Whether `self` can be applied to `map`: a load factor must be positive,
    /// room must be of a size that a table can have, and the pairs that may
    /// come must leave the length within `usize`.
    pub open spec fn admissible(&self, map: &IntMap<u8>) -> bool {
        match self {
            Op::SetLoadFactor(load_factor) => load_factor.0 > 0,
            Op::Reserve(additional) => map@.len() + additional.0 <= usize::MAX && within_load(
                (map@.len() + additional.0) as nat,
                MAX_BUCKETS as nat,
                map.factor(),
            ),
            Op::Insert(_) => map@.len() < usize::MAX,
            Op::InsertChecked(_) => map@.len() < usize::MAX,
            Op::Extend(pairs) => map@.len() + pairs.0@.len() <= usize::MAX,
            _ => true,
        }
    }

    /// Tests [`Op::admissible`].
    pub fn check(&self, map: &IntMap<u8>) -> (b: bool)
        requires
            map.wf(),
        ensures
            b == self.admissible(map),
    {
        match self {
            Op::SetLoadFactor(load_factor) => load_factor.0 > 0,
            Op::Reserve(additional) => {
                let len = map.len();
                additional.0 <= usize::MAX - len && fits(
                    len + additional.0,
                    MAX_BUCKETS,
                    map.get_load_factor(),
                )
            },
            Op::Insert(_) => map.len() < usize::MAX,
            Op::InsertChecked(_) => map.len() < usize::MAX,
            Op::Extend(pairs) => pairs.0.len() <= usize::MAX - map.len(),
            _ => true,
        }
    }

    /// Applies `self` to the table and to the reference, and compares what
    /// the two answer. The result says whether every answer was the same; it
    /// always was.
    pub fn apply(&self, map: &mut IntMap<u8>, reference: &mut HashMap<u64, u8>) -> (agreed: bool)
        requires
            old(map).wf(),
            old(map)@ == old(reference)@,
            self.admissible(old(map)),
        ensures
            agreed,
            final(map).wf(),
            final(map)@ == self.effect(old(map)@),
            final(reference)@ == self.effect(old(reference)@),
            final(map).factor() == self.factor_after(old(map).factor()),
            final(map).buckets() == self.buckets_after(old(map)),
    {
        proof {
            map.lemma_wf();
        }
        match self {
            Op::SetLoadFactor(load_factor) => {
                map.set_load_factor(load_factor.0);
                true
            },
            Op::GetLoadFactor => {
                map.get_load_factor();
                true
            },
            Op::Reserve(additional) => {
                map.reserve(additional.0);
                true
            },
            Op::Insert((key, value)) => {
                let ours = map.insert(key.0, value.0);
                let theirs = reference.insert(key.0, value.0);
                same(ours.as_ref(), theirs.as_ref())
            },
            Op::InsertChecked((key, value)) => {
                map.insert_checked(key.0, value.0);
                reference.entry(key.0).or_insert(value.0);
                proof {
                    assert(reference@ =~= self.effect(old(reference)@));
                }
                true
            },
            Op::Get(key) => same(map.get(key.0), reference.get(&key.0)),
            Op::GetMut(key) => {
                let theirs = reference.get(&key.0);
                let ours = map.get_mut(key.0);
                let agreed = match ours {
                    Some(value) => same(Some(&*value), theirs),
                    None => theirs.is_none(),
                };
                proof {
                    assert(map@ =~= old(map)@);
                }
                agreed
            },
            Op::Remove(key) => {
                let ours = map.remove(key.0);
                let theirs = reference.remove(&key.0);
                proof {
                    assert(reference@ =~= old(reference)@.remove(key.0));
                }
                same(ours.as_ref(), theirs.as_ref())
            },
            Op::ContainsKey(key) => map.contains_key(key.0) == reference.contains_key(&key.0),
            Op::Clear => {
                map.clear();
                reference.clear();
                true
            },
            Op::Retain(value) => {
                let unwanted: u8 = value.0;
                let keep = |key: u64, value: &u8| -> (kept: bool)
                    ensures
                        kept == (*value != unwanted),
                    { *value != unwanted };
                map.retain(keep);
                reference_retain(reference, unwanted);
                proof {
                    assert(map@ =~= without_value(old(map)@, unwanted));
                }
                true
            },
            Op::IsEmpty => map.is_empty() == reference.is_empty(),
            Op::Iter => map.iter().count() == reference.len(),
            Op::IterMut => map.iter_mut().count() == reference.len(),
            Op::Keys => map.keys().count() == reference.len(),
            Op::Values => map.values().count() == reference.len(),
            Op::ValuesMut => map.values_mut().count() == reference.len(),
            Op::Drain => {
                let theirs = reference.len();
                reference.clear();
                map.drain().count() == theirs
            },
            Op::Len => map.len() == reference.len(),
            Op::Load => {
                map.load();
                true
            },
            Op::LoadRate => {
                map.load_rate();
                true
            },
            Op::Capacity => {
                map.capacity();
                true
            },
            Op::Collisions => {
                map.collisions();
                true
            },
            Op::Entry(key) => {
                map.entry(key.0);
                true
            },
            Op::Clone => {
                let copy = map.clone();
                proof {
                    assert(copy@ =~= map@);
                }
                *map = copy;
                true
            },
            Op::Debug => {
                render(map);
                true
            },
            Op::Extend(pairs) => {
                map.extend(copy_pairs(&pairs.0));
                reference_extend(reference, &pairs.0);
                true
            },
        }
    }

    /// What the operations of `ops`, applied one after the other, make of a
    /// map.
    pub open spec fn effects(ops: Seq<Op>, map: Map<u64, u8>) -> Map<u64, u8>
        decreases ops.len(),
    {
        if ops.len() == 0 {
            map
        } else {
            ops.last().effect(Op::effects(ops.drop_last(), map))
        }
    }

    /// Applies the operations of `ops` one after the other, as far as they
    /// can be applied, and returns how many it applied. Whatever the
    /// operations are, the table and the reference have the same map in the
    /// end.
    pub fn apply_all(
        ops: &Vec<Op>,
        map: &mut IntMap<u8>,
        reference: &mut HashMap<u64, u8>,
    ) -> (applied: usize)
        requires
            old(map).wf(),
            old(map)@ == old(reference)@,
        ensures
            applied <= ops@.len(),
            final(map).wf(),
            final(map)@ == final(reference)@,
            final(map)@ == Op::effects(ops@.take(applied as int), old(map)@),
            applied < ops@.len() ==> !ops@[applied as int].admissible(final(map)),
    {
        let mut applied: usize = 0;
        proof {
            assert(ops@.take(0) =~= Seq::<Op>::empty());
        }
        while applied < ops.len()
            invariant
                applied <= ops@.len(),
                map.wf(),
                map@ == reference@,
                map@ == Op::effects(ops@.take(applied as int), old(map)@),
            decreases ops@.len() - applied,
        {
            if !ops[applied].check(map) {
                return applied;
            }
            proof {
                assert(ops@.take(applied + 1).drop_last() =~= ops@.take(applied as int));
            }
            ops[applied].apply(map, reference);
            applied += 1;
        }
        applied
    }
}

} // verus!
