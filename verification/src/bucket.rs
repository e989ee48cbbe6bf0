//! A bucket: the pairs whose keys share one index of the table.

use vstd::prelude::*;
use crate::flat::{empty_before, flat, lemma_flat_empty, lemma_flat_pop_front};

verus! {

/// A small ordered collection of pairs. One pair is held inline; a second one
/// moves the bucket's contents to the heap, where they stay.
#[derive(Debug)]
pub enum Bucket<K, V> {
    Inline(Option<(K, V)>),
    Heap(Vec<(K, V)>),
}

impl<K, V> View for Bucket<K, V> {
    type V = Seq<(K, V)>;

    open spec fn view(&self) -> Seq<(K, V)> {
        match self {
            Bucket::Inline(None) => Seq::empty(),
            Bucket::Inline(Some(pair)) => seq![*pair],
            Bucket::Heap(pairs) => pairs@,
        }
    }
}

/// The contents of a sequence of buckets: for each bucket, its pairs.
pub open spec fn rows_of<K, V>(buckets: Seq<Bucket<K, V>>) -> Seq<Seq<(K, V)>> {
    buckets.map_values(|bucket: Bucket<K, V>| bucket@)
}

impl<K, V> Bucket<K, V> {
    /// Whether the bucket keeps its pairs on the heap. A bucket that does not
    /// holds at most one pair, inline.
    pub open spec fn on_heap(&self) -> bool {
        self is Heap
    }

    /// An empty bucket. It is the inline form with nothing in it, so it owns
    /// no heap memory.
    pub fn new() -> (b: Self)
        ensures
            b == Bucket::<K, V>::Inline(None),
            b@ == Seq::<(K, V)>::empty(),
    {
        Bucket::Inline(None)
    }

    /// The number of pairs.
    pub fn len(&self) -> (n: usize)
        ensures
            n == self@.len(),
    {
        match self {
            Bucket::Inline(None) => 0,
            Bucket::Inline(Some(_)) => 1,
            Bucket::Heap(pairs) => pairs.len(),
        }
    }

    /// Whether the bucket holds no pair.
    pub fn is_empty(&self) -> (b: bool)
        ensures
            b == (self@.len() == 0),
    {
        self.len() == 0
    }

    /// The pairs, in order.
    pub fn as_slice(&self) -> (s: &[(K, V)])
        ensures
            s@ == self@,
    {
        match self {
            Bucket::Inline(slot) => slot.as_slice(),
            Bucket::Heap(pairs) => pairs.as_slice(),
        }
    }

    /// The pairs, in order, for changing them in place. The bucket keeps its
    /// form.
    pub fn as_mut_slice(&mut self) -> (s: &mut [(K, V)])
        ensures
            s@ == old(self)@,
            final(s)@ == final(self)@,
            final(self).on_heap() == old(self).on_heap(),
    {
        match self {
            Bucket::Inline(slot) => slot.as_mut_slice(),
            Bucket::Heap(pairs) => pairs.as_mut_slice(),
        }
    }

    /// The pair at `index`.
    pub fn get(&self, index: usize) -> (pair: &(K, V))
        requires
            index < self@.len(),
        ensures
            *pair == self@[index as int],
    {
        &self.as_slice()[index]
    }

    /// Appends a pair. An empty inline bucket takes it inline; an inline
    /// bucket that holds a pair moves to the heap with both; a bucket on the
    /// heap stays there.
    pub fn push(&mut self, pair: (K, V))
        ensures
            final(self)@ == old(self)@.push(pair),
            final(self).on_heap() == (old(self).on_heap() || old(self)@.len() == 1),
    {
        match self {
            Bucket::Heap(pairs) => {
                pairs.push(pair);
            },
            Bucket::Inline(slot) => {
                match slot.take() {
                    None => {
                        *self = Bucket::Inline(Some(pair));
                    },
                    Some(first) => {
                        let mut pairs: Vec<(K, V)> = Vec::new();
                        pairs.push(first);
                        pairs.push(pair);
                        *self = Bucket::Heap(pairs);
                    },
                }
            },
        }
        assert(final(self)@ =~= old(self)@.push(pair));
    }

    /// Removes the last pair and returns it, if there is one. The bucket
    /// keeps its form.
    pub fn pop(&mut self) -> (pair: Option<(K, V)>)
        ensures
            old(self)@.len() == 0 ==> pair.is_none() && final(self)@ == old(self)@,
            old(self)@.len() > 0 ==> pair == Some(old(self)@.last()) && final(self)@ == old(self)@.drop_last(),
            final(self).on_heap() == old(self).on_heap(),
    {
        let pair = match self {
            Bucket::Heap(pairs) => pairs.pop(),
            Bucket::Inline(slot) => slot.take(),
        };
        assert(old(self)@.len() > 0 ==> final(self)@ =~= old(self)@.drop_last());
        pair
    }

    /// Removes the first pair and returns it, if there is one. The pairs
    /// behind it move up, and the bucket keeps its form.
    pub fn pop_front(&mut self) -> (pair: Option<(K, V)>)
        ensures
            old(self)@.len() == 0 ==> pair.is_none() && final(self)@ == old(self)@,
            old(self)@.len() > 0 ==> pair == Some(old(self)@[0]) && final(self)@ == old(self)@.drop_first(),
            final(self).on_heap() == old(self).on_heap(),
    {
        let pair = match self {
            Bucket::Heap(pairs) => {
                if pairs.len() == 0 {
                    None
                } else {
                    Some(pairs.remove(0))
                }
            },
            Bucket::Inline(slot) => slot.take(),
        };
        assert(old(self)@.len() > 0 ==> final(self)@ =~= old(self)@.drop_first());
        pair
    }

    /// Removes the pair at `index` and returns it. The last pair takes its
    /// place, and the bucket keeps its form.
    pub fn swap_remove(&mut self, index: usize) -> (pair: (K, V))
        requires
            index < old(self)@.len(),
        ensures
            pair == old(self)@[index as int],
            final(self)@ == old(self)@.update(index as int, old(self)@.last()).drop_last(),
            final(self).on_heap() == old(self).on_heap(),
    {
        let pair = match self {
            Bucket::Heap(pairs) => pairs.swap_remove(index),
            Bucket::Inline(slot) => slot.take().unwrap(),
        };
        assert(final(self)@ =~= old(self)@.update(index as int, old(self)@.last()).drop_last());
        pair
    }

    /// Removes every pair. The bucket keeps its form: heap memory, once
    /// taken, is kept.
    pub fn clear(&mut self)
        ensures
            final(self)@ == Seq::<(K, V)>::empty(),
            final(self).on_heap() == old(self).on_heap(),
    {
        match self {
            Bucket::Heap(pairs) => {
                pairs.clear();
            },
            Bucket::Inline(slot) => {
                *slot = None;
            },
        }
    }
}

impl<V> Bucket<u64, V> {
    /// Whether some pair of `pairs` has the key `key`.
    pub open spec fn has_key(pairs: Seq<(u64, V)>, key: u64) -> bool {
        exists|j: int| 0 <= j < pairs.len() && (#[trigger] pairs[j]).0 == key
    }

    /// The index of the first pair with the key `key`.
    pub fn position(&self, key: u64) -> (found: Option<usize>)
        ensures
            match found {
                Some(j) => j < self@.len() && self@[j as int].0 == key && forall|i: int|
                    0 <= i < j ==> (#[trigger] self@[i]).0 != key,
                None => !Self::has_key(self@, key),
            },
    {
        let pairs = self.as_slice();
        let mut j: usize = 0;
        while j < pairs.len()
            invariant
                j <= pairs@.len(),
                pairs@ == self@,
                forall|i: int| 0 <= i < j ==> (#[trigger] self@[i]).0 != key,
            decreases pairs@.len() - j,
        {
            if pairs[j].0 == key {
                return Some(j);
            }
            j += 1;
        }
        None
    }
}

/// Takes the first pair out of the first bucket that holds one, beginning at
/// bucket `cursor`, and returns it with the index of that bucket.
pub fn take_front<K, V>(buckets: &mut Vec<Bucket<K, V>>, cursor: usize) -> (found: Option<
    (usize, (K, V)),
>)
    requires
        empty_before(rows_of(old(buckets)@), cursor as int),
    ensures
        final(buckets)@.len() == old(buckets)@.len(),
        match found {
            Some((at, pair)) => {
                &&& cursor <= at < old(buckets)@.len()
                &&& empty_before(rows_of(old(buckets)@), at as int)
                &&& rows_of(old(buckets)@)[at as int].len() > 0
                &&& pair == rows_of(old(buckets)@)[at as int][0]
                &&& flat(rows_of(old(buckets)@)).len() > 0
                &&& pair == flat(rows_of(old(buckets)@))[0]
                &&& rows_of(final(buckets)@) == rows_of(old(buckets)@).update(
                    at as int,
                    rows_of(old(buckets)@)[at as int].drop_first(),
                )
                &&& flat(rows_of(final(buckets)@)) == flat(rows_of(old(buckets)@)).drop_first()
            },
            None => {
                &&& flat(rows_of(old(buckets)@)).len() == 0
                &&& empty_before(rows_of(old(buckets)@), old(buckets)@.len() as int)
                &&& *final(buckets) == *old(buckets)
            },
        },
{
    let mut at: usize = cursor;
    let ghost rows = rows_of(buckets@);
    while at < buckets.len()
        invariant
            cursor <= at,
            *buckets == *old(buckets),
            rows == rows_of(buckets@),
            empty_before(rows, at as int),
        decreases buckets@.len() - at,
    {
        if !buckets[at].is_empty() {
            let pair = buckets[at].pop_front().unwrap();
            proof {
                lemma_flat_pop_front(rows, at as int);
                assert(rows_of(buckets@) =~= rows.update(at as int, rows[at as int].drop_first()));
            }
            return Some((at, pair));
        }
        at += 1;
    }
    proof {
        lemma_flat_empty(rows);
    }
    None
}

} // verus!
