//! The entry of a key: one lookup, then the value that is there or a new one.

use vstd::prelude::*;
use crate::capacity::lemma_grown;
use crate::map::{buckets_after_insert, IntMap};

verus! {

/// The place of one key in a table, found once. It gives the value that the
/// key has, or stores one for it, without a second search.
///
/// The fields are public so that contracts can speak of the table behind
/// the borrow.
pub struct Entry<'a, V> {
    pub map: &'a mut IntMap<V>,
    pub key: u64,
    pub place: Option<(usize, usize)>,
}

impl<'a, V> Entry<'a, V> {
    /// The table is well-formed and `place` is where `key` is in it.
    pub closed spec fn wf(&self) -> bool {
        self.map.wf() && self.map.located(self.key, self.place)
    }

    /// The entry of `key` in `map`.
    pub(crate) fn new(key: u64, map: &'a mut IntMap<V>) -> (entry: Self)
        requires
            old(map).wf(),
        ensures
            entry.wf(),
            entry.key == key,
            *entry.map == *old(map),
            *final(entry.map) == *final(map),
    {
        let place = map.find(key);
        Entry { map, key, place }
    }

    /// The key.
    pub fn key(&self) -> (key: u64)
        ensures
            key == self.key,
    {
        self.key
    }

    /// Whether the table holds a value for the key.
    pub fn is_occupied(&self) -> (b: bool)
        requires
            self.wf(),
        ensures
            b == old(self.map)@.contains_key(self.key),
    {
        self.place.is_some()
    }

    /// The value of the key, if the table holds one.
    pub fn get(&self) -> (value: Option<&V>)
        requires
            self.wf(),
        ensures
            value == (if old(self.map)@.contains_key(self.key) {
                Some(&old(self.map)@[self.key])
            } else {
                None
            }),
    {
        match self.place {
            Some((i, j)) => Some(&self.map.cache[i].get(j).1),
            None => None,
        }
    }

    /// The value of the key, for changing it in place. Where the table lacks
    /// the key, `default` is stored for it first, and the table may grow.
    pub fn or_insert(self, default: V) -> (value: &'a mut V)
        requires
            self.wf(),
            self.map@.len() < usize::MAX,
        ensures
            *value == (if old(self.map)@.contains_key(self.key) {
                old(self.map)@[self.key]
            } else {
                default
            }),
            final(self.map).wf(),
            final(self.map)@ == old(self.map)@.insert(self.key, *final(value)),
            final(self.map).buckets() == buckets_after_insert(
                old(self.map).buckets(),
                old(self.map)@,
                self.key,
                old(self.map).factor(),
            ),
            final(self.map).factor() == old(self.map).factor(),
    {
        let Entry { map, key, place } = self;
        let (i, j) = match place {
            Some(at) => at,
            None => {
                proof {
                    lemma_grown(map.buckets(), (map@.len() + 1) as nat, map.factor());
                }
                map.grow_for(map.count + 1);
                map.push_new(key, default)
            },
        };
        map.value_at(i, j)
    }

    /// As [`Entry::or_insert`], with the value that `make` returns; `make` is
    /// called only where the table lacks the key.
    pub fn or_insert_with<F: FnOnce() -> V>(self, make: F) -> (value: &'a mut V)
        requires
            self.wf(),
            self.map@.len() < usize::MAX,
            call_requires(make, ()),
        ensures
            old(self.map)@.contains_key(self.key) ==> *value == old(self.map)@[self.key],
            !old(self.map)@.contains_key(self.key) ==> call_ensures(make, (), *value),
            final(self.map).wf(),
            final(self.map)@ == old(self.map)@.insert(self.key, *final(value)),
            final(self.map).buckets() == buckets_after_insert(
                old(self.map).buckets(),
                old(self.map)@,
                self.key,
                old(self.map).factor(),
            ),
            final(self.map).factor() == old(self.map).factor(),
    {
        let Entry { map, key, place } = self;
        let (i, j) = match place {
            Some(at) => at,
            None => {
                proof {
                    lemma_grown(map.buckets(), (map@.len() + 1) as nat, map.factor());
                }
                map.grow_for(map.count + 1);
                map.push_new(key, make())
            },
        };
        map.value_at(i, j)
    }
}

impl<'a, V: Default> Entry<'a, V> {
    /// As [`Entry::or_insert`], with the default value of `V`, which is made
    /// only where the table lacks the key.
    pub fn or_default(self) -> (value: &'a mut V)
        requires
            self.wf(),
            self.map@.len() < usize::MAX,
            call_requires(V::default, ()),
        ensures
            old(self.map)@.contains_key(self.key) ==> *value == old(self.map)@[self.key],
            !old(self.map)@.contains_key(self.key) ==> call_ensures(V::default, (), *value),
            final(self.map).wf(),
            final(self.map)@ == old(self.map)@.insert(self.key, *final(value)),
            final(self.map).buckets() == buckets_after_insert(
                old(self.map).buckets(),
                old(self.map)@,
                self.key,
                old(self.map).factor(),
            ),
            final(self.map).factor() == old(self.map).factor(),
    {
        self.or_insert_with(V::default)
    }
}

impl<V> IntMap<V> {
    /// The entry of `key`: its place in the table, found once.
    pub fn entry(&mut self, key: u64) -> (entry: Entry<'_, V>)
        requires
            old(self).wf(),
        ensures
            entry.wf(),
            entry.key == key,
            *entry.map == *old(self),
            *final(entry.map) == *final(self),
    {
        Entry::new(key, self)
    }
}

} // verus!
