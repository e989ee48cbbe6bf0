//! The table itself: lookup, insertion, removal and growth.

use vstd::prelude::*;
use crate::bucket::{rows_of, take_front, Bucket};
use crate::capacity::{
    grown, lemma_grown, target_size, valid_size, within_load, LoadRate, DEFAULT_LOAD_FACTOR,
    MAX_BUCKETS,
};
use crate::flat::{
    empty_before, flat, lemma_flat_index, lemma_flat_lists, lemma_flat_update, lists, offset,
};
use crate::hashing::calc_index;
use crate::table::{
    all_empty, as_map, crowded, in_range, lemma_absent, lemma_all_empty, lemma_drop_empty,
    lemma_lookup, lemma_pop, lemma_pop_front, lemma_push, lemma_same_keys, lemma_set,
    lemma_set_any, lemma_swap_remove, lemma_where, placed, slot, unique, Rows,
};

verus! {

/// The value that `map` has for `key`, if it has one.
pub open spec fn lookup<V>(map: Map<u64, V>, key: u64) -> Option<V> {
    if map.contains_key(key) {
        Some(map[key])
    } else {
        None
    }
}

/// The number of buckets that a table of `buckets` buckets with the map `map`
/// has after a value was stored for `key`: as many as before where the map
/// has the key, and else as many as one pair more asks for.
pub open spec fn buckets_after_insert<V>(
    buckets: nat,
    map: Map<u64, V>,
    key: u64,
    load_factor: nat,
) -> nat {
    if map.contains_key(key) {
        buckets
    } else {
        grown(buckets, map.len() + 1, load_factor)
    }
}

/// Moving a key from one of two disjoint maps to the other leaves their union
/// as it was, and the maps disjoint.
pub proof fn lemma_move<V>(from: Map<u64, V>, to: Map<u64, V>, key: u64)
    requires
        from.contains_key(key),
        from.dom().disjoint(to.dom()),
    ensures
        from.remove(key).dom().disjoint(to.insert(key, from[key]).dom()),
        from.remove(key).union_prefer_right(to.insert(key, from[key])) =~= from.union_prefer_right(
            to,
        ),
{
}

/// A map from `u64` keys to values of type `V`.
#[derive(Debug)]
pub struct IntMap<V> {
    pub(crate) cache: Vec<Bucket<u64, V>>,
    pub(crate) count: usize,
    pub(crate) mod_mask: u64,
    pub(crate) load_factor: usize,
}

impl<V> View for IntMap<V> {
    type V = Map<u64, V>;

    open(crate) spec fn view(&self) -> Map<u64, V> {
        as_map(self.rows())
    }
}

impl<V> IntMap<V> {
    /// The contents of the buckets, bucket by bucket.
    pub open(crate) spec fn rows(&self) -> Rows<V> {
        rows_of(self.cache@)
    }

    /// The number of buckets.
    pub open(crate) spec fn buckets(&self) -> nat {
        self.cache@.len()
    }

    /// The load factor, in thousandths.
    pub open(crate) spec fn factor(&self) -> nat {
        self.load_factor as nat
    }

    /// The pairs of the table, bucket after bucket.
    pub open(crate) spec fn pairs(&self) -> Seq<(u64, V)> {
        flat(self.rows())
    }

    /// The invariant of the table: the number of buckets is zero or a power
    /// of two, every pair lies in the bucket of its key, no key occurs twice,
    /// the load factor is positive, and the count of pairs is kept.
    pub open(crate) spec fn wf(&self) -> bool {
        &&& valid_size(self.cache@.len())
        &&& self.mod_mask as int == (if self.cache@.len() == 0 {
            0
        } else {
            self.cache@.len() - 1
        })
        &&& self.load_factor > 0
        &&& unique(self.rows())
        &&& placed(self.rows())
        &&& self@.dom().finite()
        &&& self@.dom().len() == self.count
    }

    /// What a well-formed table lets its users know.
    pub proof fn lemma_wf(&self)
        requires
            self.wf(),
        ensures
            valid_size(self.buckets()),
            self.factor() > 0,
            self@.dom().finite(),
            self@.len() <= usize::MAX,
            unique(self.rows()),
            placed(self.rows()),
            self.rows().len() == self.buckets(),
            self@ == as_map(self.rows()),
    {
    }

    /// The pairs of a table list its map: each pair once, and nothing else.
    pub proof fn lemma_pairs(&self)
        requires
            self.wf(),
        ensures
            lists(self.pairs(), self@),
            self.pairs().len() <= usize::MAX,
    {
        lemma_flat_lists(self.rows());
    }

    /// An empty table without buckets.
    pub fn new() -> (map: Self)
        ensures
            map.wf(),
            map@ == Map::<u64, V>::empty(),
            map.buckets() == 0,
            map.factor() == DEFAULT_LOAD_FACTOR,
    {
        let map = IntMap {
            cache: Vec::new(),
            count: 0,
            mod_mask: 0,
            load_factor: DEFAULT_LOAD_FACTOR,
        };
        proof {
            lemma_all_empty(map.rows());
        }
        map
    }

    /// The number of pairs.
    pub fn len(&self) -> (n: usize)
        requires
            self.wf(),
        ensures
            n == self@.len(),
    {
        self.count
    }

    /// Whether the table holds no pair.
    pub fn is_empty(&self) -> (b: bool)
        requires
            self.wf(),
        ensures
            b == (self@.len() == 0),
            b == (self@ == Map::<u64, V>::empty()),
    {
        proof {
            if self@.len() == 0 {
                assert(self@.dom() =~= Set::empty());
                assert(self@ =~= Map::<u64, V>::empty());
            }
        }
        self.count == 0
    }

    /// The number of buckets.
    pub fn capacity(&self) -> (n: usize)
        ensures
            n == self.buckets(),
    {
        self.cache.len()
    }

    /// The load factor, in thousandths.
    pub fn get_load_factor(&self) -> (n: usize)
        ensures
            n == self.factor(),
    {
        self.load_factor
    }

    /// Replaces the load factor. The buckets stay as they are: the table
    /// grows, if it has to, when the next new key comes.
    pub fn set_load_factor(&mut self, load_factor: usize)
        requires
            old(self).wf(),
            load_factor > 0,
        ensures
            final(self).wf(),
            final(self)@ == old(self)@,
            final(self).buckets() == old(self).buckets(),
            final(self).factor() == load_factor,
    {
        self.load_factor = load_factor;
    }

    /// Whether `place` says where `key` is: the bucket and the place there of
    /// its pair, or nothing where the table lacks the key.
    pub open(crate) spec fn located(&self, key: u64, place: Option<(usize, usize)>) -> bool {
        match place {
            Some((i, j)) => {
                &&& in_range(self.rows(), i as int, j as int)
                &&& slot(self.rows(), i as int, j as int).0 == key
                &&& self@.contains_key(key)
                &&& self@[key] == slot(self.rows(), i as int, j as int).1
            },
            None => !self@.contains_key(key),
        }
    }

    /// Where `key` is: its bucket and its place there.
    pub(crate) fn find(&self, key: u64) -> (found: Option<(usize, usize)>)
        requires
            self.wf(),
        ensures
            self.located(key, found),
            found.is_some() == self@.contains_key(key),
    {
        if self.cache.len() == 0 {
            proof {
                lemma_absent(self.rows(), key);
            }
            return None;
        }
        let i = calc_index(key, self.mod_mask);
        match self.cache[i].position(key) {
            Some(j) => {
                proof {
                    lemma_lookup(self.rows(), i as int, j as int);
                }
                Some((i, j))
            },
            None => {
                proof {
                    lemma_absent(self.rows(), key);
                }
                None
            },
        }
    }

    /// The value of `key`, if the table holds one.
    pub fn get(&self, key: u64) -> (value: Option<&V>)
        requires
            self.wf(),
        ensures
            value == (if self@.contains_key(key) {
                Some(&self@[key])
            } else {
                None
            }),
    {
        match self.find(key) {
            Some((i, j)) => Some(&self.cache[i].get(j).1),
            None => None,
        }
    }

    /// Whether the table holds a value for `key`.
    pub fn contains_key(&self, key: u64) -> (b: bool)
        requires
            self.wf(),
        ensures
            b == self@.contains_key(key),
    {
        self.find(key).is_some()
    }

    /// Rebuilds the table with `size` buckets: every pair moves to the bucket
    /// that its key maps to in the new array.
    pub(crate) fn resize(&mut self, size: usize)
        requires
            old(self).wf(),
            valid_size(size as nat),
            size > old(self).buckets(),
        ensures
            final(self).wf(),
            final(self)@ == old(self)@,
            final(self).buckets() == size,
            final(self).factor() == old(self).factor(),
    {
        let mut fresh: Vec<Bucket<u64, V>> = Vec::new();
        let mut made: usize = 0;
        while made < size
            invariant
                made <= size,
                fresh@.len() == made,
                all_empty(rows_of(fresh@)),
            decreases size - made,
        {
            let ghost before = rows_of(fresh@);
            fresh.push(Bucket::new());
            made += 1;
            proof {
                assert(rows_of(fresh@) =~= before.push(Seq::empty()));
            }
        }
        let mask: u64 = (size - 1) as u64;
        proof {
            lemma_all_empty(rows_of(fresh@));
        }
        while self.cache.len() > 0
            invariant
                fresh@.len() == size,
                size >= 2,
                mask == size - 1,
                size <= MAX_BUCKETS,
                unique(rows_of(self.cache@)),
                unique(rows_of(fresh@)),
                placed(rows_of(fresh@)),
                as_map(rows_of(self.cache@)).dom().disjoint(as_map(rows_of(fresh@)).dom()),
                as_map(rows_of(self.cache@)).union_prefer_right(as_map(rows_of(fresh@))) == old(self)@,
                self.count == old(self).count,
                self.load_factor == old(self).load_factor,
            decreases self.cache@.len(), self.cache@.last()@.len(),
        {
            let last: usize = self.cache.len() - 1;
            let ghost source = rows_of(self.cache@);
            let ghost target = rows_of(fresh@);
            match self.cache[last].pop() {
                Some(pair) => {
                    let i = calc_index(pair.0, mask);
                    proof {
                        lemma_pop(source, last as int);
                        assert(rows_of(self.cache@) =~= source.update(
                            last as int,
                            source[last as int].drop_last(),
                        ));
                        lemma_push(target, i as int, pair.0, pair.1);
                        lemma_move(as_map(source), as_map(target), pair.0);
                    }
                    fresh[i].push(pair);
                    proof {
                        assert(rows_of(fresh@) =~= target.update(
                            i as int,
                            target[i as int].push(pair),
                        ));
                    }
                },
                None => {
                    proof {
                        lemma_drop_empty(source);
                        assert(rows_of(self.cache@) =~= source);
                    }
                    self.cache.pop();
                    proof {
                        assert(rows_of(self.cache@) =~= source.drop_last());
                    }
                },
            }
        }
        proof {
            lemma_all_empty(rows_of(self.cache@));
            assert(as_map(rows_of(fresh@)) =~= old(self)@);
            assert(rows_of(fresh@).len() == size);
        }
        self.cache = fresh;
        self.mod_mask = mask;
    }

    /// Grows the table, if it has to, so that `count` pairs are within the
    /// load factor.
    pub(crate) fn grow_for(&mut self, count: usize)
        requires
            old(self).wf(),
        ensures
            final(self).wf(),
            final(self)@ == old(self)@,
            final(self).buckets() == grown(old(self).buckets(), count as nat, old(self).factor()),
            final(self).factor() == old(self).factor(),
    {
        let size = target_size(self.cache.len(), count, self.load_factor);
        if size > self.cache.len() {
            self.resize(size);
        }
    }

    /// Ensures room for `additional` more pairs: afterwards the table can take
    /// them without growing.
    pub fn reserve(&mut self, additional: usize)
        requires
            old(self).wf(),
            old(self)@.len() + additional <= usize::MAX,
            within_load(
                (old(self)@.len() + additional) as nat,
                MAX_BUCKETS as nat,
                old(self).factor(),
            ),
        ensures
            final(self).wf(),
            final(self)@ == old(self)@,
            final(self).buckets() == grown(
                old(self).buckets(),
                (old(self)@.len() + additional) as nat,
                old(self).factor(),
            ),
            within_load(
                (old(self)@.len() + additional) as nat,
                final(self).buckets(),
                final(self).factor(),
            ),
            final(self).factor() == old(self).factor(),
    {
        proof {
            lemma_grown(self.buckets(), (self@.len() + additional) as nat, self.factor());
        }
        self.grow_for(self.count + additional);
    }

    /// An empty table with room for `capacity` pairs.
    pub fn with_capacity(capacity: usize) -> (map: Self)
        requires
            within_load(capacity as nat, MAX_BUCKETS as nat, DEFAULT_LOAD_FACTOR as nat),
        ensures
            map.wf(),
            map@ == Map::<u64, V>::empty(),
            map.buckets() == grown(0, capacity as nat, DEFAULT_LOAD_FACTOR as nat),
            within_load(capacity as nat, map.buckets(), DEFAULT_LOAD_FACTOR as nat),
            map.factor() == DEFAULT_LOAD_FACTOR,
    {
        let mut map = Self::new();
        map.reserve(capacity);
        map
    }

    /// Stores `value` for `key` and returns the value that `key` had before.
    /// A new value for a key takes the place of the old one among the pairs;
    /// a new key may make the table grow first.
    pub fn insert(&mut self, key: u64, value: V) -> (previous: Option<V>)
        requires
            old(self).wf(),
            old(self)@.len() < usize::MAX,
        ensures
            final(self).wf(),
            final(self)@ == old(self)@.insert(key, value),
            previous == lookup(old(self)@, key),
            old(self)@.contains_key(key) ==> exists|at: int|
                0 <= at < old(self).pairs().len() && (#[trigger] old(self).pairs()[at]).0 == key
                    && final(self).pairs() == old(self).pairs().update(at, (key, value)),
            final(self).buckets() == buckets_after_insert(
                old(self).buckets(),
                old(self)@,
                key,
                old(self).factor(),
            ),
            final(self).factor() == old(self).factor(),
    {
        match self.find(key) {
            Some((i, j)) => {
                let ghost before = self.rows();
                let ghost given = value;
                let mut value = value;
                let pairs = self.cache[i].as_mut_slice();
                std::mem::swap(&mut pairs[j].1, &mut value);
                proof {
                    lemma_set(before, i as int, j as int, given);
                    assert(self.rows() =~= before.update(
                        i as int,
                        before[i as int].update(j as int, (key, given)),
                    ));
                    lemma_flat_index(before, i as int, j as int);
                    lemma_flat_update(before, i as int, j as int, (key, given));
                    assert(old(self).pairs()[offset(before, i as int) + j].0 == key);
                }
                Some(value)
            },
            None => {
                proof {
                    lemma_grown(self.buckets(), (self@.len() + 1) as nat, self.factor());
                }
                self.grow_for(self.count + 1);
                self.push_new(key, value);
                None
            },
        }
    }

    /// Appends a pair whose key the table lacks to the bucket of the key, and
    /// returns the place of the pair.
    pub(crate) fn push_new(&mut self, key: u64, value: V) -> (place: (usize, usize))
        requires
            old(self).wf(),
            !old(self)@.contains_key(key),
            old(self).buckets() > 0,
            old(self)@.len() < usize::MAX,
        ensures
            final(self).wf(),
            final(self)@ == old(self)@.insert(key, value),
            final(self).buckets() == old(self).buckets(),
            final(self).factor() == old(self).factor(),
            in_range(final(self).rows(), place.0 as int, place.1 as int),
            slot(final(self).rows(), place.0 as int, place.1 as int) == (key, value),
    {
        let ghost before = self.rows();
        let i = calc_index(key, self.mod_mask);
        proof {
            lemma_push(before, i as int, key, value);
        }
        let j = self.cache[i].len();
        self.cache[i].push((key, value));
        self.count += 1;
        proof {
            assert(self.rows() =~= before.update(i as int, before[i as int].push((key, value))));
        }
        (i, j)
    }

    /// Stores `value` for `key` unless the table holds `key` already, and says
    /// whether it did.
    pub fn insert_checked(&mut self, key: u64, value: V) -> (inserted: bool)
        requires
            old(self).wf(),
            old(self)@.len() < usize::MAX,
        ensures
            final(self).wf(),
            inserted == !old(self)@.contains_key(key),
            final(self)@ == (if inserted {
                old(self)@.insert(key, value)
            } else {
                old(self)@
            }),
            final(self).buckets() == buckets_after_insert(
                old(self).buckets(),
                old(self)@,
                key,
                old(self).factor(),
            ),
            final(self).factor() == old(self).factor(),
    {
        if self.find(key).is_some() {
            return false;
        }
        proof {
            lemma_grown(self.buckets(), (self@.len() + 1) as nat, self.factor());
        }
        self.grow_for(self.count + 1);
        self.push_new(key, value);
        true
    }

    /// Removes `key` and returns the value it had.
    pub fn remove(&mut self, key: u64) -> (value: Option<V>)
        requires
            old(self).wf(),
        ensures
            final(self).wf(),
            final(self)@ == old(self)@.remove(key),
            value == lookup(old(self)@, key),
            final(self).buckets() == old(self).buckets(),
            final(self).factor() == old(self).factor(),
    {
        match self.find(key) {
            Some((i, j)) => {
                let ghost before = self.rows();
                proof {
                    lemma_swap_remove(before, i as int, j as int);
                }
                let pair = self.cache[i].swap_remove(j);
                self.count -= 1;
                proof {
                    assert(self.rows() =~= before.update(
                        i as int,
                        before[i as int].update(j as int, before[i as int].last()).drop_last(),
                    ));
                }
                Some(pair.1)
            },
            None => {
                proof {
                    assert(self@.remove(key) =~= self@);
                }
                None
            },
        }
    }

    /// The value of `key`, if the table holds one, for changing it in place.
    pub fn get_mut(&mut self, key: u64) -> (value: Option<&mut V>)
        requires
            old(self).wf(),
        ensures
            final(self).wf(),
            final(self).buckets() == old(self).buckets(),
            final(self).factor() == old(self).factor(),
            match value {
                Some(v) => {
                    &&& old(self)@.contains_key(key)
                    &&& *v == old(self)@[key]
                    &&& final(self)@ == old(self)@.insert(key, *final(v))
                },
                None => !old(self)@.contains_key(key) && final(self)@ == old(self)@,
            },
    {
        match self.find(key) {
            Some((i, j)) => Some(self.value_at(i, j)),
            None => None,
        }
    }

    /// The value of pair `j` of bucket `i`, for changing it in place. The pair
    /// keeps its key and its place.
    pub(crate) fn value_at(&mut self, i: usize, j: usize) -> (value: &mut V)
        requires
            old(self).wf(),
            in_range(old(self).rows(), i as int, j as int),
        ensures
            *value == slot(old(self).rows(), i as int, j as int).1,
            final(self).rows() =~= old(self).rows().update(
                i as int,
                old(self).rows()[i as int].update(
                    j as int,
                    (slot(old(self).rows(), i as int, j as int).0, *final(value)),
                ),
            ),
            final(self).wf(),
            final(self)@ == old(self)@.insert(
                slot(old(self).rows(), i as int, j as int).0,
                *final(value),
            ),
            final(self).buckets() == old(self).buckets(),
            final(self).factor() == old(self).factor(),
    {
        proof {
            lemma_set_any(self.rows(), i as int, j as int);
        }
        self.slot_mut(i, j)
    }

    /// The value of pair `j` of bucket `i`, borrowed from its bucket.
    fn slot_mut(&mut self, i: usize, j: usize) -> (value: &mut V)
        requires
            in_range(old(self).rows(), i as int, j as int),
        ensures
            *value == slot(old(self).rows(), i as int, j as int).1,
            final(self).rows() =~= old(self).rows().update(
                i as int,
                old(self).rows()[i as int].update(
                    j as int,
                    (slot(old(self).rows(), i as int, j as int).0, *final(value)),
                ),
            ),
            final(self).cache@.len() == old(self).cache@.len(),
            final(self).count == old(self).count,
            final(self).mod_mask == old(self).mod_mask,
            final(self).load_factor == old(self).load_factor,
    {
        let pairs = self.cache[i].as_mut_slice();
        &mut pairs[j].1
    }

    /// Removes every pair. The buckets stay.
    pub fn clear(&mut self)
        requires
            old(self).wf(),
        ensures
            final(self).wf(),
            final(self)@ == Map::<u64, V>::empty(),
            final(self).buckets() == old(self).buckets(),
            final(self).factor() == old(self).factor(),
    {
        let mut i: usize = 0;
        while i < self.cache.len()
            invariant
                i <= self.cache@.len(),
                self.cache@.len() == old(self).cache@.len(),
                self.mod_mask == old(self).mod_mask,
                self.load_factor == old(self).load_factor,
                forall|a: int| 0 <= a < i ==> (#[trigger] rows_of(self.cache@)[a]).len() == 0,
            decreases self.cache@.len() - i,
        {
            let ghost before = rows_of(self.cache@);
            self.cache[i].clear();
            proof {
                assert(rows_of(self.cache@) =~= before.update(i as int, Seq::empty()));
            }
            i += 1;
        }
        self.count = 0;
        proof {
            lemma_all_empty(self.rows());
        }
    }

    /// Keeps the pairs for which `keep` returns `true` and removes the others.
    pub fn retain<F: Fn(u64, &V) -> bool>(&mut self, keep: F)
        requires
            old(self).wf(),
            forall|key: u64|
                old(self)@.contains_key(key) ==> call_requires(keep, (key, &old(self)@[key])),
        ensures
            final(self).wf(),
            final(self)@.submap_of(old(self)@),
            forall|key: u64|
                old(self)@.contains_key(key) ==> call_ensures(
                    keep,
                    (key, &old(self)@[key]),
                    #[trigger] final(self)@.contains_key(key),
                ),
            final(self).buckets() == old(self).buckets(),
            final(self).factor() == old(self).factor(),
    {
        let mut i: usize = 0;
        let mut j: usize = 0;
        while i < self.cache.len()
            invariant
                i <= self.cache@.len(),
                i < self.cache@.len() ==> j <= self.cache@[i as int]@.len(),
                self.cache@.len() == old(self).cache@.len(),
                self.mod_mask == old(self).mod_mask,
                self.load_factor == old(self).load_factor,
                old(self).wf(),
                unique(self.rows()),
                placed(self.rows()),
                self@.dom().finite(),
                self@.dom().len() == self.count,
                forall|key: u64| #[trigger]
                    self@.contains_key(key) ==> old(self)@.contains_key(key) && old(self)@[key]
                        == self@[key],
                forall|key: u64|
                    old(self)@.contains_key(key) ==> call_requires(keep, (key, &old(self)@[key])),
                forall|key: u64|
                    old(self)@.contains_key(key) && !(#[trigger] self@.contains_key(key))
                        ==> call_ensures(keep, (key, &old(self)@[key]), false),
                forall|a: int, b: int|
                    in_range(self.rows(), a, b) && (a < i || (a == i && b < j)) ==> call_ensures(
                        keep,
                        ((#[trigger] slot(self.rows(), a, b)).0, &slot(self.rows(), a, b).1),
                        true,
                    ),
            decreases self.cache@.len() - i, self.cache@[i as int]@.len() - j,
        {
            if j < self.cache[i].len() {
                let ghost before = self.rows();
                let ghost was = self@;
                proof {
                    lemma_lookup(before, i as int, j as int);
                }
                let pair = self.cache[i].get(j);
                proof {
                    assert(*pair == slot(before, i as int, j as int));
                    assert(self@.contains_key(pair.0) && self@[pair.0] == pair.1);
                    assert(old(self)@.contains_key(pair.0) && old(self)@[pair.0] == pair.1);
                }
                if keep(pair.0, &pair.1) {
                    j += 1;
                } else {
                    proof {
                        lemma_swap_remove(before, i as int, j as int);
                    }
                    self.cache[i].swap_remove(j);
                    self.count -= 1;
                    proof {
                        let after = before.update(
                            i as int,
                            before[i as int].update(j as int, before[i as int].last()).drop_last(),
                        );
                        assert(self.rows() =~= after);
                        assert forall|a: int, b: int|
                            in_range(after, a, b) && (a < i || (a == i && b < j))
                                implies call_ensures(
                            keep,
                            ((#[trigger] slot(after, a, b)).0, &slot(after, a, b).1),
                            true,
                        ) by {
                            assert(in_range(before, a, b));
                            assert(slot(after, a, b) == slot(before, a, b));
                        }
                    }
                }
            } else {
                i += 1;
                j = 0;
            }
        }
        proof {
            let rows = self.rows();
            assert(self@.submap_of(old(self)@)) by {
                assert forall|key: u64| #[trigger]
                    self@.dom().contains(key) implies old(self)@.dom().contains(key) && self@[key]
                    == old(self)@[key] by {
                    assert(self@.contains_key(key));
                }
            }
            assert forall|key: u64| old(self)@.contains_key(key) implies call_ensures(
                keep,
                (key, &old(self)@[key]),
                #[trigger] self@.contains_key(key),
            ) by {
                if self@.contains_key(key) {
                    let at = lemma_where(rows, key);
                    assert(slot(rows, at.0, at.1).0 == key);
                }
            }
        }
    }

    /// Takes the first of the table's pairs out and returns it with the index
    /// of its bucket. The buckets before `cursor` are empty, so the search
    /// begins there.
    pub(crate) fn take_first(&mut self, cursor: usize) -> (found: Option<(usize, (u64, V))>)
        requires
            old(self).wf(),
            empty_before(old(self).rows(), cursor as int),
        ensures
            final(self).wf(),
            final(self).buckets() == old(self).buckets(),
            final(self).factor() == old(self).factor(),
            match found {
                Some((at, pair)) => {
                    &&& cursor <= at < old(self).buckets()
                    &&& empty_before(final(self).rows(), at as int)
                    &&& old(self).pairs().len() > 0
                    &&& pair == old(self).pairs()[0]
                    &&& final(self).pairs() == old(self).pairs().drop_first()
                    &&& old(self)@.contains_key(pair.0)
                    &&& old(self)@[pair.0] == pair.1
                    &&& final(self)@ == old(self)@.remove(pair.0)
                },
                None => {
                    &&& old(self).pairs().len() == 0
                    &&& old(self)@ == Map::<u64, V>::empty()
                    &&& *final(self) == *old(self)
                },
            },
    {
        let ghost before = self.rows();
        proof {
            lemma_flat_lists(before);
        }
        match take_front(&mut self.cache, cursor) {
            Some((at, pair)) => {
                proof {
                    lemma_pop_front(before, at as int);
                }
                self.count -= 1;
                Some((at, pair))
            },
            None => {
                proof {
                    assert(self@.dom() =~= Set::empty());
                    assert(self@ =~= Map::<u64, V>::empty());
                }
                None
            },
        }
    }

    /// The number of pairs, as the table's load.
    pub fn load(&self) -> (n: u64)
        requires
            self.wf(),
        ensures
            n == self@.len(),
    {
        self.count as u64
    }

    /// How full the table is: the number of pairs over the number of buckets.
    pub fn load_rate(&self) -> (rate: LoadRate)
        requires
            self.wf(),
        ensures
            rate.pairs == self@.len(),
            rate.buckets == self.buckets(),
    {
        LoadRate { pairs: self.count, buckets: self.cache.len() }
    }

    /// The number of buckets that hold more than one pair.
    pub open(crate) spec fn crowded_buckets(&self) -> nat {
        crowded(self.rows())
    }

    /// Counts the buckets that hold more than one pair.
    pub fn collisions(&self) -> (n: usize)
        ensures
            n == self.crowded_buckets(),
    {
        let mut n: usize = 0;
        let mut i: usize = 0;
        while i < self.cache.len()
            invariant
                i <= self.cache@.len(),
                n <= i,
                n == crowded(self.rows().take(i as int)),
            decreases self.cache@.len() - i,
        {
            proof {
                assert(self.rows().take(i + 1).drop_last() =~= self.rows().take(i as int));
            }
            if self.cache[i].len() > 1 {
                n += 1;
            }
            i += 1;
        }
        proof {
            assert(self.rows().take(i as int) =~= self.rows());
        }
        n
    }
}

impl<V> Default for IntMap<V> {
    /// An empty table, as [`IntMap::new`] makes it.
    fn default() -> (map: Self)
        ensures
            map.wf(),
            map@ == Map::<u64, V>::empty(),
            map.buckets() == 0,
            map.factor() == DEFAULT_LOAD_FACTOR,
    {
        IntMap::new()
    }
}

impl<V: Clone> Clone for IntMap<V> {
    /// A table with the same keys in the same buckets, and for each key a
    /// clone of its value.
    fn clone(&self) -> (copy: Self)
        ensures
            self.wf() ==> {
                &&& copy.wf()
                &&& copy@.dom() == self@.dom()
                &&& forall|key: u64| #[trigger]
                    self@.contains_key(key) ==> cloned(self@[key], copy@[key])
                &&& copy.buckets() == self.buckets()
                &&& copy.factor() == self.factor()
            },
    {
        let mut cache: Vec<Bucket<u64, V>> = Vec::new();
        let mut i: usize = 0;
        while i < self.cache.len()
            invariant
                i <= self.cache@.len(),
                cache@.len() == i,
                forall|a: int|
                    0 <= a < i ==> (#[trigger] rows_of(cache@)[a]).len() == self.rows()[a].len(),
                forall|a: int, b: int|
                    0 <= a < i && 0 <= b < self.rows()[a].len() ==> (#[trigger] slot(
                        rows_of(cache@),
                        a,
                        b,
                    )).0 == slot(self.rows(), a, b).0 && cloned(
                        slot(self.rows(), a, b).1,
                        slot(rows_of(cache@), a, b).1,
                    ),
            decreases self.cache@.len() - i,
        {
            let source = self.cache[i].as_slice();
            let mut bucket: Bucket<u64, V> = Bucket::new();
            let mut j: usize = 0;
            while j < source.len()
                invariant
                    j <= source@.len(),
                    source@ == self.cache@[i as int]@,
                    bucket@.len() == j,
                    forall|b: int|
                        0 <= b < j ==> (#[trigger] bucket@[b]).0 == source@[b].0 && cloned(
                            source@[b].1,
                            bucket@[b].1,
                        ),
                decreases source@.len() - j,
            {
                let value = source[j].1.clone();
                bucket.push((source[j].0, value));
                j += 1;
            }
            let ghost before = rows_of(cache@);
            let ghost made = bucket@;
            cache.push(bucket);
            proof {
                let after = rows_of(cache@);
                assert(after =~= before.push(made));
                assert(self.rows()[i as int] == source@);
                assert forall|a: int, b: int|
                    0 <= a < i + 1 && 0 <= b < self.rows()[a].len() implies (#[trigger] slot(
                    after,
                    a,
                    b,
                )).0 == slot(self.rows(), a, b).0 && cloned(
                    slot(self.rows(), a, b).1,
                    slot(after, a, b).1,
                ) by {
                    if a < i {
                        assert(slot(after, a, b) == slot(before, a, b));
                    } else {
                        assert(slot(after, a, b) == made[b]);
                    }
                }
            }
            i += 1;
        }
        let copy = IntMap {
            cache,
            count: self.count,
            mod_mask: self.mod_mask,
            load_factor: self.load_factor,
        };
        proof {
            if self.wf() {
                let rows = self.rows();
                let other = copy.rows();
                lemma_same_keys(rows, other);
                assert forall|key: u64| #[trigger] self@.contains_key(key) implies cloned(
                    self@[key],
                    copy@[key],
                ) by {
                    let at = lemma_where(rows, key);
                    assert(slot(other, at.0, at.1).0 == key);
                    lemma_lookup(other, at.0, at.1);
                }
            }
        }
        copy
    }
}

} // verus!
