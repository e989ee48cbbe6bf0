//! Views over the pairs of a table: borrowed, owned and draining.
//!
//! A view is a cursor with a `next` method. What it has yet to yield is a
//! sequence, `remaining()`, and `next` takes the first item off it.

use vstd::prelude::*;
use crate::bucket::{rows_of, take_front, Bucket};
use crate::flat::{
    empty_before, flat, lemma_flat_lists, lemma_rest_bound, lemma_rest_end, lemma_rest_skip,
    lemma_rest_start, lemma_rest_step, lemma_rest_update_any, lists, rest, within,
};
use crate::table::lemma_lookup;
use crate::capacity::{
    grown, lemma_within_load_fewer, within_load, DEFAULT_LOAD_FACTOR, MAX_BUCKETS,
};
use crate::map::{buckets_after_insert, IntMap};

verus! {

// ***************** Iter *********************

/// A view of the pairs of a bucket array, in the order of the buckets.
pub struct Iter<'a, K, V> {
    buckets: &'a [Bucket<K, V>],
    bucket: usize,
    position: usize,
}

impl<'a, K, V> Iter<'a, K, V> {
    /// The cursor lies within the buckets.
    pub closed spec fn wf(&self) -> bool {
        &&& self.bucket <= self.buckets@.len()
        &&& within(rows_of(self.buckets@), self.bucket as int, self.position as int)
    }

    /// The pairs that the view has yet to yield.
    pub closed spec fn remaining(&self) -> Seq<(K, V)> {
        rest(rows_of(self.buckets@), self.bucket as int, self.position as int)
    }

    /// A view of all the pairs of `buckets`.
    pub(crate) fn new(buckets: &'a [Bucket<K, V>]) -> (view: Self)
        ensures
            view.wf(),
            view.remaining() == flat(rows_of(buckets@)),
    {
        proof {
            lemma_rest_start(rows_of(buckets@));
        }
        Iter { buckets, bucket: 0, position: 0 }
    }

    /// Yields the next pair, if one is left.
    pub fn next(&mut self) -> (item: Option<(&'a K, &'a V)>)
        requires
            old(self).wf(),
        ensures
            final(self).wf(),
            old(self).remaining().len() == 0 ==> item.is_none() && final(self).remaining() == old(self).remaining(),
            old(self).remaining().len() > 0 ==> item == Some(
                (&old(self).remaining()[0].0, &old(self).remaining()[0].1),
            ) && final(self).remaining() == old(self).remaining().skip(1),
    {
        let buckets: &'a [Bucket<K, V>] = self.buckets;
        let ghost rows = rows_of(buckets@);
        while self.bucket < buckets.len()
            invariant
                self.wf(),
                self.buckets == buckets,
                rows == rows_of(buckets@),
                self.remaining() == old(self).remaining(),
            decreases buckets@.len() - self.bucket,
        {
            let bucket: &'a Bucket<K, V> = &buckets[self.bucket];
            if self.position < bucket.len() {
                let pair: &'a (K, V) = bucket.get(self.position);
                proof {
                    lemma_rest_step(rows, self.bucket as int, self.position as int);
                }
                self.position += 1;
                return Some((&pair.0, &pair.1));
            }
            proof {
                lemma_rest_skip(rows, self.bucket as int);
            }
            self.bucket += 1;
            self.position = 0;
        }
        proof {
            lemma_rest_end(rows);
        }
        None
    }

    /// The bounds on the number of pairs left. None is known without a walk
    /// through the buckets.
    pub fn size_hint(&self) -> (hint: (usize, Option<usize>))
        ensures
            hint == (0usize, None::<usize>),
    {
        (0, None)
    }

    /// Walks to the end and returns the number of pairs that were left.
    pub fn count(self) -> (n: usize)
        requires
            self.wf(),
            self.remaining().len() <= usize::MAX,
        ensures
            n == self.remaining().len(),
    {
        let mut view = self;
        let mut n: usize = 0;
        loop
            invariant
                view.wf(),
                n + view.remaining().len() == self.remaining().len(),
                self.remaining().len() <= usize::MAX,
            decreases view.remaining().len(),
        {
            match view.next() {
                Some(_) => {
                    n += 1;
                },
                None => {
                    return n;
                },
            }
        }
    }
}

// ***************** Keys Iter *********************

/// A view of the keys of a bucket array.
pub struct Keys<'a, K, V> {
    pub(crate) inner: Iter<'a, K, V>,
}

impl<'a, K, V> Keys<'a, K, V> {
    /// The cursor lies within the buckets.
    pub closed spec fn wf(&self) -> bool {
        self.inner.wf()
    }

    /// The keys that the view has yet to yield.
    pub closed spec fn remaining(&self) -> Seq<K> {
        self.inner.remaining().map_values(|pair: (K, V)| pair.0)
    }

    /// Yields the next key, if one is left.
    pub fn next(&mut self) -> (item: Option<&'a K>)
        requires
            old(self).wf(),
        ensures
            final(self).wf(),
            old(self).remaining().len() == 0 ==> item.is_none() && final(self).remaining() == old(self).remaining(),
            old(self).remaining().len() > 0 ==> item == Some(&old(self).remaining()[0]) && final(self).remaining() == old(self).remaining().skip(1),
    {
        let item = self.inner.next();
        proof {
            if old(self).remaining().len() > 0 {
                assert(final(self).remaining() =~= old(self).remaining().skip(1));
            }
        }
        match item {
            Some(pair) => Some(pair.0),
            None => None,
        }
    }

    /// The bounds on the number of keys left, as the inner view gives them.
    pub fn size_hint(&self) -> (hint: (usize, Option<usize>))
        ensures
            hint == (0usize, None::<usize>),
    {
        self.inner.size_hint()
    }

    /// Walks to the end and returns the number of keys that were left.
    pub fn count(self) -> (n: usize)
        requires
            self.wf(),
            self.remaining().len() <= usize::MAX,
        ensures
            n == self.remaining().len(),
    {
        self.inner.count()
    }
}

// ***************** Values Iter *********************

/// A view of the values of a bucket array.
pub struct Values<'a, K, V> {
    pub(crate) inner: Iter<'a, K, V>,
}

impl<'a, K, V> Values<'a, K, V> {
    /// The cursor lies within the buckets.
    pub closed spec fn wf(&self) -> bool {
        self.inner.wf()
    }

    /// The values that the view has yet to yield.
    pub closed spec fn remaining(&self) -> Seq<V> {
        self.inner.remaining().map_values(|pair: (K, V)| pair.1)
    }

    /// Yields the next value, if one is left.
    pub fn next(&mut self) -> (item: Option<&'a V>)
        requires
            old(self).wf(),
        ensures
            final(self).wf(),
            old(self).remaining().len() == 0 ==> item.is_none() && final(self).remaining() == old(self).remaining(),
            old(self).remaining().len() > 0 ==> item == Some(&old(self).remaining()[0]) && final(self).remaining() == old(self).remaining().skip(1),
    {
        let item = self.inner.next();
        proof {
            if old(self).remaining().len() > 0 {
                assert(final(self).remaining() =~= old(self).remaining().skip(1));
            }
        }
        match item {
            Some(pair) => Some(pair.1),
            None => None,
        }
    }

    /// The bounds on the number of values left, as the inner view gives them.
    pub fn size_hint(&self) -> (hint: (usize, Option<usize>))
        ensures
            hint == (0usize, None::<usize>),
    {
        self.inner.size_hint()
    }

    /// Walks to the end and returns the number of values that were left.
    pub fn count(self) -> (n: usize)
        requires
            self.wf(),
            self.remaining().len() <= usize::MAX,
        ensures
            n == self.remaining().len(),
    {
        self.inner.count()
    }
}

// ***************** Into Iter *********************

/// A view that owns the buckets and hands the pairs out, in the order of the
/// buckets.
pub struct IntoIter<K, V> {
    buckets: Vec<Bucket<K, V>>,
    bucket: usize,
}

impl<K, V> IntoIter<K, V> {
    /// The buckets before the cursor are empty.
    pub closed spec fn wf(&self) -> bool {
        empty_before(rows_of(self.buckets@), self.bucket as int)
    }

    /// The pairs that the view has yet to yield.
    pub closed spec fn remaining(&self) -> Seq<(K, V)> {
        flat(rows_of(self.buckets@))
    }

    /// A view of all the pairs of `buckets`.
    pub(crate) fn new(buckets: Vec<Bucket<K, V>>) -> (view: Self)
        ensures
            view.wf(),
            view.remaining() == flat(rows_of(buckets@)),
    {
        IntoIter { buckets, bucket: 0 }
    }

    /// Yields the next pair, if one is left.
    pub fn next(&mut self) -> (item: Option<(K, V)>)
        requires
            old(self).wf(),
        ensures
            final(self).wf(),
            old(self).remaining().len() == 0 ==> item.is_none() && final(self).remaining() == old(self).remaining(),
            old(self).remaining().len() > 0 ==> item == Some(old(self).remaining()[0]) && final(self).remaining() == old(self).remaining().skip(1),
    {
        match take_front(&mut self.buckets, self.bucket) {
            Some((at, pair)) => {
                proof {
                    let rows = rows_of(old(self).buckets@);
                    assert forall|a: int| 0 <= a < at && a < rows_of(self.buckets@).len() implies (
                    #[trigger] rows_of(self.buckets@)[a]).len() == 0 by {
                        assert(rows[a].len() == 0);
                    }
                }
                self.bucket = at;
                Some(pair)
            },
            None => None,
        }
    }
}

impl<V> IntMap<V> {
    /// A view of the pairs.
    pub fn iter(&self) -> (view: Iter<'_, u64, V>)
        requires
            self.wf(),
        ensures
            view.wf(),
            view.remaining() == self.pairs(),
            lists(view.remaining(), self@),
            view.remaining().len() <= usize::MAX,
    {
        proof {
            self.lemma_pairs();
        }
        Iter::new(self.cache.as_slice())
    }

    /// A view of the keys.
    pub fn keys(&self) -> (view: Keys<'_, u64, V>)
        requires
            self.wf(),
        ensures
            view.wf(),
            view.remaining() == self.pairs().map_values(|pair: (u64, V)| pair.0),
            view.remaining().len() == self@.len(),
            view.remaining().len() <= usize::MAX,
    {
        proof {
            self.lemma_pairs();
        }
        Keys { inner: self.iter() }
    }

    /// A view of the values.
    pub fn values(&self) -> (view: Values<'_, u64, V>)
        requires
            self.wf(),
        ensures
            view.wf(),
            view.remaining() == self.pairs().map_values(|pair: (u64, V)| pair.1),
            view.remaining().len() == self@.len(),
            view.remaining().len() <= usize::MAX,
    {
        proof {
            self.lemma_pairs();
        }
        Values { inner: self.iter() }
    }

    /// Gives the table up for a view that owns its pairs.
    pub fn into_iter(self) -> (view: IntoIter<u64, V>)
        requires
            self.wf(),
        ensures
            view.wf(),
            view.remaining() == self.pairs(),
            lists(view.remaining(), self@),
    {
        proof {
            self.lemma_pairs();
        }
        IntoIter::new(self.cache)
    }
}

// ***************** Drain Iter *********************

/// A view that takes the pairs out of a table, one with each step and in the
/// order of the buckets. Pairs that it has not yielded when it goes stay in
/// the table.
///
/// The fields are public so that contracts can speak of the table behind
/// the borrow. The buckets before `cursor` are empty.
pub struct Drain<'a, V> {
    pub map: &'a mut IntMap<V>,
    pub cursor: usize,
}

impl<'a, V> Drain<'a, V> {
    /// The table is well-formed and its buckets before the cursor are empty.
    pub closed spec fn wf(&self) -> bool {
        self.map.wf() && empty_before(self.map.rows(), self.cursor as int)
    }

    /// The pairs that the view has yet to yield: those of the table.
    pub open spec fn remaining(&self) -> Seq<(u64, V)> {
        self.map.pairs()
    }

    /// A draining view of `map`.
    pub(crate) fn new(map: &'a mut IntMap<V>) -> (view: Self)
        requires
            old(map).wf(),
        ensures
            view.wf(),
            *view.map == *old(map),
            *final(view.map) == *final(map),
    {
        Drain { map, cursor: 0 }
    }

    /// Takes the first pair out of the table and yields it; yields nothing
    /// when the table is empty.
    pub fn next(&mut self) -> (item: Option<(u64, V)>)
        requires
            old(self).wf(),
        ensures
            final(self).wf(),
            final(self).map.wf(),
            *final(final(self).map) == *final(old(self).map),
            final(self).map.buckets() == old(self).map.buckets(),
            final(self).map.factor() == old(self).map.factor(),
            match item {
                Some(pair) => {
                    &&& old(self).remaining().len() > 0
                    &&& pair == old(self).remaining()[0]
                    &&& final(self).remaining() == old(self).remaining().skip(1)
                    &&& old(self).map@.contains_key(pair.0)
                    &&& old(self).map@[pair.0] == pair.1
                    &&& final(self).map@ == old(self).map@.remove(pair.0)
                },
                None => {
                    &&& old(self).remaining().len() == 0
                    &&& old(self).map@ == Map::<u64, V>::empty()
                    &&& final(self).map@ == old(self).map@
                    &&& final(self).remaining() == old(self).remaining()
                },
            },
    {
        match self.map.take_first(self.cursor) {
            Some((at, pair)) => {
                self.cursor = at;
                Some(pair)
            },
            None => None,
        }
    }

    /// Takes every pair out of the table and returns how many there were.
    pub fn count(self) -> (n: usize)
        requires
            self.wf(),
        ensures
            n == old(self.map)@.len(),
            final(self.map).wf(),
            final(self.map)@ == Map::<u64, V>::empty(),
            final(self.map).buckets() == old(self.map).buckets(),
            final(self.map).factor() == old(self.map).factor(),
    {
        let mut view = self;
        let mut n: usize = 0;
        proof {
            view.map.lemma_wf();
        }
        loop
            invariant
                view.wf(),
                view.map.wf(),
                view.map@.dom().finite(),
                n + view.map@.len() == self.map@.len(),
                self.map@.len() <= usize::MAX,
                *final(view.map) == *final(self.map),
                view.map.buckets() == self.map.buckets(),
                view.map.factor() == self.map.factor(),
            decreases view.map@.len(),
        {
            match view.next() {
                Some(_) => {
                    n += 1;
                },
                None => {
                    return n;
                },
            }
        }
    }
}

// ***************** Iter Mut *********************

/// A view of the pairs of a table that lets the values be changed. It lends
/// one value at a time: the value that `next` yields is borrowed from the
/// view.
///
/// The fields are public so that contracts can speak of the table behind
/// the borrow.
pub struct IterMut<'a, V> {
    pub map: &'a mut IntMap<V>,
    pub bucket: usize,
    pub position: usize,
}

impl<'a, V> IterMut<'a, V> {
    /// The table is well-formed and the cursor lies within its buckets.
    pub closed spec fn wf(&self) -> bool {
        &&& self.map.wf()
        &&& within(self.map.rows(), self.bucket as int, self.position as int)
    }

    /// The pairs that the view has yet to yield.
    pub closed spec fn remaining(&self) -> Seq<(u64, V)> {
        rest(self.map.rows(), self.bucket as int, self.position as int)
    }

    /// A view of all the pairs of `map`.
    pub(crate) fn new(map: &'a mut IntMap<V>) -> (view: Self)
        requires
            old(map).wf(),
        ensures
            view.wf(),
            view.remaining() == old(map).pairs(),
            *view.map == *old(map),
            *final(view.map) == *final(map),
    {
        proof {
            lemma_rest_start(map.rows());
        }
        IterMut { map, bucket: 0, position: 0 }
    }

    /// Yields the key of the next pair and its value, for changing it in
    /// place, if a pair is left.
    pub fn next(&mut self) -> (item: Option<(u64, &mut V)>)
        requires
            old(self).wf(),
        ensures
            final(self).wf(),
            final(self).map.wf(),
            *final(final(self).map) == *final(old(self).map),
            final(self).map.buckets() == old(self).map.buckets(),
            final(self).map.factor() == old(self).map.factor(),
            match item {
                Some((key, value)) => {
                    &&& old(self).remaining().len() > 0
                    &&& key == old(self).remaining()[0].0
                    &&& *value == old(self).remaining()[0].1
                    &&& old(self).map@.contains_key(key)
                    &&& old(self).map@[key] == *value
                    &&& final(self).map@ == old(self).map@.insert(key, *final(value))
                    &&& final(self).remaining() == old(self).remaining().skip(1)
                },
                None => {
                    &&& old(self).remaining().len() == 0
                    &&& final(self).remaining() == old(self).remaining()
                    &&& final(self).map@ == old(self).map@
                },
            },
    {
        let ghost rows = self.map.rows();
        while self.bucket < self.map.cache.len()
            invariant
                self.wf(),
                *self.map == *old(self).map,
                *final(self.map) == *final(old(self).map),
                rows == self.map.rows(),
                self.remaining() == old(self).remaining(),
            decreases self.map.cache@.len() - self.bucket,
        {
            if self.position < self.map.cache[self.bucket].len() {
                let i = self.bucket;
                let j = self.position;
                let key = self.map.cache[i].get(j).0;
                proof {
                    lemma_rest_step(rows, i as int, j as int);
                    lemma_lookup(rows, i as int, j as int);
                    lemma_rest_update_any(rows, i as int, j as int);
                }
                self.position += 1;
                return Some((key, self.map.value_at(i, j)));
            }
            proof {
                lemma_rest_skip(rows, self.bucket as int);
            }
            self.bucket += 1;
            self.position = 0;
        }
        proof {
            lemma_rest_end(rows);
        }
        None
    }

    /// Walks to the end and returns the number of pairs that were left. The
    /// table's map stays as it is.
    pub fn count(self) -> (n: usize)
        requires
            self.wf(),
        ensures
            n == self.remaining().len(),
            final(self.map).wf(),
            final(self.map)@ == old(self.map)@,
            final(self.map).buckets() == old(self.map).buckets(),
            final(self.map).factor() == old(self.map).factor(),
    {
        let mut view = self;
        let mut n: usize = 0;
        proof {
            lemma_rest_bound(view.map.rows(), view.bucket as int, view.position as int);
            lemma_flat_lists(view.map.rows());
        }
        loop
            invariant
                view.wf(),
                n + view.remaining().len() == self.remaining().len(),
                self.remaining().len() <= usize::MAX,
                *final(view.map) == *final(self.map),
                view.map@ == self.map@,
                view.map.buckets() == self.map.buckets(),
                view.map.factor() == self.map.factor(),
            decreases view.remaining().len(),
        {
            match view.next() {
                Some((key, value)) => {
                    proof {
                        assert(view.map@ =~= self.map@);
                    }
                    n += 1;
                },
                None => {
                    return n;
                },
            }
        }
    }
}

// ***************** Values Mut *********************

/// A view of the values of a table that lets them be changed, one at a time.
pub struct ValuesMut<'a, V> {
    pub inner: IterMut<'a, V>,
}

impl<'a, V> ValuesMut<'a, V> {
    /// The table is well-formed and the cursor lies within its buckets.
    pub closed spec fn wf(&self) -> bool {
        self.inner.wf()
    }

    /// The values that the view has yet to yield.
    pub closed spec fn remaining(&self) -> Seq<V> {
        self.inner.remaining().map_values(|pair: (u64, V)| pair.1)
    }

    /// Yields the next value, for changing it in place, if one is left. In
    /// the table the changed value belongs to `key`, one of the keys that
    /// had the value before.
    pub fn next(&mut self) -> (item: Option<&mut V>)
        requires
            old(self).wf(),
        ensures
            final(self).wf(),
            final(self).inner.map.wf(),
            *final(final(self).inner.map) == *final(old(self).inner.map),
            final(self).inner.map.buckets() == old(self).inner.map.buckets(),
            final(self).inner.map.factor() == old(self).inner.map.factor(),
            match item {
                Some(value) => {
                    &&& old(self).remaining().len() > 0
                    &&& *value == old(self).remaining()[0]
                    &&& exists|key: u64|
                        {
                            &&& old(self).inner.map@.contains_key(key)
                            &&& old(self).inner.map@[key] == *value
                            &&& #[trigger] final(self).inner.map@ == old(self).inner.map@.insert(
                                key,
                                *final(value),
                            )
                        }
                    &&& final(self).remaining() == old(self).remaining().skip(1)
                },
                None => {
                    &&& old(self).remaining().len() == 0
                    &&& final(self).remaining() == old(self).remaining()
                    &&& final(self).inner.map@ == old(self).inner.map@
                },
            },
    {
        proof {
            if old(self).inner.remaining().len() > 0 {
                assert(old(self).inner.remaining().skip(1).map_values(|pair: (u64, V)| pair.1)
                    =~= old(self).remaining().skip(1));
            }
        }
        match self.inner.next() {
            Some((key, value)) => Some(value),
            None => None,
        }
    }

    /// The bounds on the number of values left. None is known without a walk
    /// through the buckets.
    pub fn size_hint(&self) -> (hint: (usize, Option<usize>))
        ensures
            hint == (0usize, None::<usize>),
    {
        (0, None)
    }

    /// Walks to the end and returns the number of values that were left. The
    /// table's map stays as it is.
    pub fn count(self) -> (n: usize)
        requires
            self.wf(),
        ensures
            n == self.remaining().len(),
            final(self.inner.map).wf(),
            final(self.inner.map)@ == old(self.inner.map)@,
            final(self.inner.map).buckets() == old(self.inner.map).buckets(),
            final(self.inner.map).factor() == old(self.inner.map).factor(),
    {
        self.inner.count()
    }
}

impl<V> IntMap<V> {
    /// A view that takes the pairs out of the table.
    pub fn drain(&mut self) -> (view: Drain<'_, V>)
        requires
            old(self).wf(),
        ensures
            view.wf(),
            view.remaining() == old(self).pairs(),
            lists(view.remaining(), old(self)@),
            *view.map == *old(self),
            *final(view.map) == *final(self),
    {
        proof {
            self.lemma_pairs();
        }
        Drain::new(self)
    }

    /// A view of the pairs that lets the values be changed.
    pub fn iter_mut(&mut self) -> (view: IterMut<'_, V>)
        requires
            old(self).wf(),
        ensures
            view.wf(),
            view.remaining() == old(self).pairs(),
            lists(view.remaining(), old(self)@),
            *view.map == *old(self),
            *final(view.map) == *final(self),
    {
        proof {
            self.lemma_pairs();
        }
        IterMut::new(self)
    }

    /// A view of the values that lets them be changed.
    pub fn values_mut(&mut self) -> (view: ValuesMut<'_, V>)
        requires
            old(self).wf(),
        ensures
            view.wf(),
            view.remaining() == old(self).pairs().map_values(|pair: (u64, V)| pair.1),
            view.remaining().len() == old(self)@.len(),
            *view.inner.map == *old(self),
            *final(view.inner.map) == *final(self),
    {
        proof {
            self.lemma_pairs();
        }
        ValuesMut { inner: IterMut::new(self) }
    }
}

// ***************** Extend *********************

/// The map that `map` becomes when the pairs of `pairs` are inserted one
/// after the other: for a key that comes twice, the later value stays.
pub open spec fn extended<V>(map: Map<u64, V>, pairs: Seq<(u64, V)>) -> Map<u64, V>
    decreases pairs.len(),
{
    if pairs.len() == 0 {
        map
    } else {
        extended(map, pairs.drop_last()).insert(pairs.last().0, pairs.last().1)
    }
}

/// The number of buckets that a table of `buckets` buckets with the map `map`
/// has when the pairs of `pairs` have been inserted one after the other.
pub open spec fn grown_through<V>(
    buckets: nat,
    map: Map<u64, V>,
    pairs: Seq<(u64, V)>,
    load_factor: nat,
) -> nat
    decreases pairs.len(),
{
    if pairs.len() == 0 {
        buckets
    } else {
        buckets_after_insert(
            grown_through(buckets, map, pairs.drop_last(), load_factor),
            extended(map, pairs.drop_last()),
            pairs.last().0,
            load_factor,
        )
    }
}

/// Inserting pairs adds at most as many keys as there are pairs, and a table
/// with room for all of them does not grow.
pub proof fn lemma_extended<V>(
    buckets: nat,
    map: Map<u64, V>,
    pairs: Seq<(u64, V)>,
    load_factor: nat,
)
    requires
        map.dom().finite(),
    ensures
        extended(map, pairs).dom().finite(),
        map.len() <= extended(map, pairs).len() <= map.len() + pairs.len(),
        within_load(map.len() + pairs.len(), buckets, load_factor) ==> grown_through(
            buckets,
            map,
            pairs,
            load_factor,
        ) == buckets,
    decreases pairs.len(),
{
    if pairs.len() > 0 {
        let front = pairs.drop_last();
        lemma_extended(buckets, map, front, load_factor);
        let before = extended(map, front);
        if within_load(map.len() + pairs.len(), buckets, load_factor) {
            lemma_within_load_fewer(
                map.len() + front.len(),
                map.len() + pairs.len(),
                buckets,
                load_factor,
            );
            lemma_within_load_fewer(
                before.len() + 1,
                map.len() + pairs.len(),
                buckets,
                load_factor,
            );
        }
    }
}

impl<V> IntMap<V> {
    /// Inserts the pairs of `pairs`, one after the other.
    pub fn extend(&mut self, pairs: Vec<(u64, V)>)
        requires
            old(self).wf(),
            old(self)@.len() + pairs@.len() <= usize::MAX,
        ensures
            final(self).wf(),
            final(self)@ == extended(old(self)@, pairs@),
            final(self).buckets() == grown_through(
                old(self).buckets(),
                old(self)@,
                pairs@,
                old(self).factor(),
            ),
            final(self).factor() == old(self).factor(),
    {
        let ghost all = pairs@;
        proof {
            assert(all.take(0) =~= Seq::<(u64, V)>::empty());
        }
        for elem in it: pairs
            invariant
                it.seq() == all,
                old(self).wf(),
                old(self)@.len() + all.len() <= usize::MAX,
                self.wf(),
                self@ == extended(old(self)@, all.take(it.index())),
                self.buckets() == grown_through(
                    old(self).buckets(),
                    old(self)@,
                    all.take(it.index()),
                    old(self).factor(),
                ),
                self.factor() == old(self).factor(),
        {
            proof {
                let done = all.take(it.index());
                lemma_extended(old(self).buckets(), old(self)@, done, old(self).factor());
                assert(all.take(it.index() + 1).drop_last() =~= done);
                assert(all.take(it.index() + 1).last() == elem);
            }
            self.insert(elem.0, elem.1);
        }
        proof {
            assert(all.take(all.len() as int) =~= all);
        }
    }

    /// A table of the pairs of `pairs`, inserted one after the other into a
    /// table that was made with room for all of them, so that it never grows.
    pub fn from_iter(pairs: Vec<(u64, V)>) -> (map: Self)
        requires
            within_load(pairs@.len(), MAX_BUCKETS as nat, DEFAULT_LOAD_FACTOR as nat),
        ensures
            map.wf(),
            map@ == extended(Map::<u64, V>::empty(), pairs@),
            map.factor() == DEFAULT_LOAD_FACTOR,
            map.buckets() == grown(0, pairs@.len(), DEFAULT_LOAD_FACTOR as nat),
            within_load(pairs@.len(), map.buckets(), DEFAULT_LOAD_FACTOR as nat),
    {
        let lower_bound = pairs.len();
        let mut map = IntMap::with_capacity(lower_bound);
        proof {
            lemma_extended(
                map.buckets(),
                Map::<u64, V>::empty(),
                pairs@,
                DEFAULT_LOAD_FACTOR as nat,
            );
        }
        map.extend(pairs);
        map
    }
}

} // verus!
