//! What holds of the table's operations taken together.
//!
//! The operations are specified over the table's map, so each law is stated
//! over maps: what it says of a map holds of every table that has this map.

use vstd::prelude::*;
use crate::capacity::{lemma_grown, valid_size, within_load, MAX_BUCKETS};
use crate::flat::{lemma_crowded_bound, lemma_flat_lists, lists};
use crate::hashing::index_of;
use crate::iter::extended;
use crate::map::{buckets_after_insert, lookup, IntMap};
use crate::table::{in_range, lemma_crowded, lemma_lookup, lemma_where, slot};

verus! {

/// Storing the same value for the same key twice is as storing it once: the
/// second time the map, its length and the number of buckets stay, and the
/// value that was there is the one just stored. The first time nothing was
/// there, where the map lacked the key.
pub proof fn law_insert_twice<V>(
    map: Map<u64, V>,
    buckets: nat,
    load_factor: nat,
    key: u64,
    value: V,
)
    requires
        map.dom().finite(),
    ensures
        map.insert(key, value).insert(key, value) == map.insert(key, value),
        map.insert(key, value).insert(key, value).len() == map.insert(key, value).len(),
        lookup(map.insert(key, value), key) == Some(value),
        !map.contains_key(key) ==> lookup(map, key).is_none(),
        buckets_after_insert(
            buckets_after_insert(buckets, map, key, load_factor),
            map.insert(key, value),
            key,
            load_factor,
        ) == buckets_after_insert(buckets, map, key, load_factor),
{
    assert(map.insert(key, value).insert(key, value) =~= map.insert(key, value));
}

/// Storing a value for a key that the map has leaves the length as it is;
/// for a key that it lacks, the length grows by one.
pub proof fn law_insert_len<V>(map: Map<u64, V>, key: u64, value: V)
    requires
        map.dom().finite(),
    ensures
        map.insert(key, value).dom().finite(),
        map.insert(key, value).len() == (if map.contains_key(key) {
            map.len()
        } else {
            map.len() + 1
        }),
{
    if map.contains_key(key) {
        assert(map.insert(key, value).dom() =~= map.dom());
    }
}

/// Storing a value for one key leaves every other key with its value,
/// however the table grows for it: the number of buckets is no part of the
/// map.
pub proof fn law_insert_keeps_others<V>(map: Map<u64, V>, key: u64, value: V, other: u64)
    requires
        other != key,
    ensures
        map.insert(key, value).contains_key(other) == map.contains_key(other),
        map.contains_key(other) ==> map.insert(key, value)[other] == map[other],
{
}

/// A table grows to a valid size that is no smaller, and to one within the
/// load factor wherever the largest size is.
pub proof fn law_growth<V>(map: Map<u64, V>, buckets: nat, load_factor: nat, key: u64)
    requires
        valid_size(buckets),
    ensures
        valid_size(buckets_after_insert(buckets, map, key, load_factor)),
        buckets <= buckets_after_insert(buckets, map, key, load_factor),
        !map.contains_key(key) && within_load(
            map.len() + 1,
            MAX_BUCKETS as nat,
            load_factor,
        ) ==> within_load(
            map.len() + 1,
            buckets_after_insert(buckets, map, key, load_factor),
            load_factor,
        ),
{
    lemma_grown(buckets, map.len() + 1, load_factor);
}

/// What inserting the pairs of `pairs` one after the other makes of a map:
/// its keys are the keys of the map and those of the pairs, and of each key
/// of the pairs the value is that of the last pair with the key.
pub proof fn law_last_write_wins<V>(map: Map<u64, V>, pairs: Seq<(u64, V)>)
    ensures
        forall|key: u64|
            #![trigger extended(map, pairs).contains_key(key)]
            extended(map, pairs).contains_key(key) <==> (map.contains_key(key) || exists|i: int|
                0 <= i < pairs.len() && (#[trigger] pairs[i]).0 == key),
        forall|key: u64|
            #![trigger extended(map, pairs)[key]]
            map.contains_key(key) && !(exists|i: int|
                0 <= i < pairs.len() && (#[trigger] pairs[i]).0 == key) ==> extended(
                map,
                pairs,
            )[key] == map[key],
        forall|i: int|
            #![trigger pairs[i]]
            0 <= i < pairs.len() && (forall|j: int|
                i < j < pairs.len() ==> (#[trigger] pairs[j]).0 != pairs[i].0) ==> extended(
                map,
                pairs,
            )[pairs[i].0] == pairs[i].1,
    decreases pairs.len(),
{
    if pairs.len() > 0 {
        let front = pairs.drop_last();
        let last = pairs.len() - 1;
        law_last_write_wins(map, front);
        let before = extended(map, front);
        let after = extended(map, pairs);
        assert(after == before.insert(pairs[last].0, pairs[last].1));
        assert forall|key: u64|
            #![trigger after.contains_key(key)]
            after.contains_key(key) <==> (map.contains_key(key) || exists|i: int|
                0 <= i < pairs.len() && (#[trigger] pairs[i]).0 == key) by {
            if after.contains_key(key) && !map.contains_key(key) {
                if key == pairs[last].0 {
                    assert(pairs[last].0 == key);
                } else {
                    assert(before.contains_key(key));
                    let i = choose|i: int| 0 <= i < front.len() && (#[trigger] front[i]).0 == key;
                    assert(pairs[i].0 == key);
                }
            }
            if exists|i: int| 0 <= i < pairs.len() && (#[trigger] pairs[i]).0 == key {
                let i = choose|i: int| 0 <= i < pairs.len() && (#[trigger] pairs[i]).0 == key;
                if i < last {
                    assert(front[i].0 == key);
                    assert(before.contains_key(key));
                }
            }
        }
        assert forall|key: u64|
            #![trigger after[key]]
            map.contains_key(key) && !(exists|i: int|
                0 <= i < pairs.len() && (#[trigger] pairs[i]).0 == key) implies after[key]
            == map[key] by {
            assert(pairs[last].0 != key);
            assert forall|i: int| 0 <= i < front.len() implies (#[trigger] front[i]).0 != key by {
                assert(pairs[i].0 != key);
            }
            assert(before[key] == map[key]);
        }
        assert forall|i: int|
            #![trigger pairs[i]]
            0 <= i < pairs.len() && (forall|j: int|
                i < j < pairs.len() ==> (#[trigger] pairs[j]).0 != pairs[i].0) implies after[pairs[i].0]
            == pairs[i].1 by {
            if i < last {
                assert(pairs[last].0 != pairs[i].0);
                assert(front[i] == pairs[i]);
                assert forall|j: int| i < j < front.len() implies (#[trigger] front[j]).0
                    != front[i].0 by {
                    assert(pairs[j].0 != pairs[i].0);
                }
                assert(before[front[i].0] == front[i].1);
            }
        }
    }
}

/// Pairs with different keys, inserted into an empty map, make a map of as
/// many keys as there are pairs.
pub proof fn law_distinct_keys_len<V>(pairs: Seq<(u64, V)>)
    requires
        forall|i: int, j: int|
            0 <= i < j < pairs.len() ==> (#[trigger] pairs[i]).0 != (#[trigger] pairs[j]).0,
    ensures
        extended(Map::<u64, V>::empty(), pairs).dom().finite(),
        extended(Map::<u64, V>::empty(), pairs).len() == pairs.len(),
    decreases pairs.len(),
{
    if pairs.len() > 0 {
        let front = pairs.drop_last();
        let last = pairs.len() - 1;
        assert forall|i: int, j: int| 0 <= i < j < front.len() implies (#[trigger] front[i]).0 != (
        #[trigger] front[j]).0 by {
            assert(pairs[i].0 != pairs[j].0);
        }
        law_distinct_keys_len(front);
        law_last_write_wins(Map::<u64, V>::empty(), front);
        let before = extended(Map::<u64, V>::empty(), front);
        if before.contains_key(pairs[last].0) {
            let i = choose|i: int|
                0 <= i < front.len() && (#[trigger] front[i]).0 == pairs[last].0;
            assert(pairs[i].0 != pairs[last].0);
        }
    }
}

/// A full walk over a table built from `pairs` yields, for each key of
/// `pairs`, one pair: the key with the value of the last pair of `pairs` that
/// has the key. It yields nothing else, and as many pairs as the map has
/// keys.
pub proof fn law_round_trip<V>(pairs: Seq<(u64, V)>, yielded: Seq<(u64, V)>)
    requires
        lists(yielded, extended(Map::<u64, V>::empty(), pairs)),
    ensures
        yielded.len() == extended(Map::<u64, V>::empty(), pairs).len(),
        forall|a: int|
            #![trigger yielded[a]]
            0 <= a < yielded.len() ==> exists|i: int|
                0 <= i < pairs.len() && #[trigger] pairs[i] == yielded[a] && forall|j: int|
                    i < j < pairs.len() ==> (#[trigger] pairs[j]).0 != pairs[i].0,
        forall|i: int|
            #![trigger pairs[i]]
            0 <= i < pairs.len() ==> exists|a: int|
                0 <= a < yielded.len() && (#[trigger] yielded[a]).0 == pairs[i].0,
        forall|a: int, b: int|
            0 <= a < b < yielded.len() ==> (#[trigger] yielded[a]).0 != (#[trigger] yielded[b]).0,
{
    let map = extended(Map::<u64, V>::empty(), pairs);
    law_last_write_wins(Map::<u64, V>::empty(), pairs);
    assert forall|a: int|
        #![trigger yielded[a]]
        0 <= a < yielded.len() implies exists|i: int|
        0 <= i < pairs.len() && #[trigger] pairs[i] == yielded[a] && forall|j: int|
            i < j < pairs.len() ==> (#[trigger] pairs[j]).0 != pairs[i].0 by {
        let key = yielded[a].0;
        assert(map.contains_key(key));
        let i = last_with_key(pairs, key);
        lemma_last_with_key(pairs, key);
        assert(map[pairs[i].0] == pairs[i].1);
        assert(pairs[i] == yielded[a]);
    }
    assert forall|i: int|
        #![trigger pairs[i]]
        0 <= i < pairs.len() implies exists|a: int|
        0 <= a < yielded.len() && (#[trigger] yielded[a]).0 == pairs[i].0 by {
        let key = pairs[i].0;
        assert(map.contains_key(key));
        let a = choose|a: int| 0 <= a < yielded.len() && #[trigger] yielded[a] == (key, map[key]);
        assert(yielded[a].0 == key);
    }
}

/// The index of the last pair of `pairs` with the key `key`, or -1.
pub open spec fn last_with_key<V>(pairs: Seq<(u64, V)>, key: u64) -> int
    decreases pairs.len(),
{
    if pairs.len() == 0 {
        -1
    } else if pairs.last().0 == key {
        pairs.len() - 1
    } else {
        last_with_key(pairs.drop_last(), key)
    }
}

/// Where some pair has the key, [`last_with_key`] is the index of the last
/// such pair.
pub proof fn lemma_last_with_key<V>(pairs: Seq<(u64, V)>, key: u64)
    requires
        exists|i: int| 0 <= i < pairs.len() && (#[trigger] pairs[i]).0 == key,
    ensures
        0 <= last_with_key(pairs, key) < pairs.len(),
        pairs[last_with_key(pairs, key)].0 == key,
        forall|j: int|
            last_with_key(pairs, key) < j < pairs.len() ==> (#[trigger] pairs[j]).0 != key,
    decreases pairs.len(),
{
    if pairs.last().0 != key {
        let front = pairs.drop_last();
        let i = choose|i: int| 0 <= i < pairs.len() && (#[trigger] pairs[i]).0 == key;
        assert(front[i].0 == key);
        lemma_last_with_key(front, key);
        assert forall|j: int| last_with_key(pairs, key) < j < pairs.len() implies (
        #[trigger] pairs[j]).0 != key by {
            if j < front.len() {
                assert(front[j].0 != key);
            }
        }
    }
}

/// Two keys of a table that map to the same bucket make a crowded bucket.
pub proof fn law_shared_bucket_collides<V>(map: IntMap<V>, first: u64, second: u64)
    requires
        map.wf(),
        first != second,
        map@.contains_key(first),
        map@.contains_key(second),
        index_of(first, map.buckets()) == index_of(second, map.buckets()),
    ensures
        map.crowded_buckets() >= 1,
{
    let rows = map.rows();
    let a = lemma_where(rows, first);
    let b = lemma_where(rows, second);
    assert(index_of(slot(rows, a.0, a.1).0, rows.len()) == a.0);
    assert(index_of(slot(rows, b.0, b.1).0, rows.len()) == b.0);
    assert(a.0 == b.0 && a.1 != b.1);
    assert(rows[a.0].len() > 1);
    lemma_crowded(rows);
}

/// A table whose keys all map to different buckets has no crowded bucket.
pub proof fn law_own_buckets_collide_not<V>(map: IntMap<V>)
    requires
        map.wf(),
        forall|first: u64, second: u64|
            #![trigger map@.contains_key(first), map@.contains_key(second)]
            map@.contains_key(first) && map@.contains_key(second) && first != second ==> index_of(
                first,
                map.buckets(),
            ) != index_of(second, map.buckets()),
    ensures
        map.crowded_buckets() == 0,
{
    let rows = map.rows();
    lemma_crowded(rows);
    if exists|i: int| 0 <= i < rows.len() && (#[trigger] rows[i]).len() > 1 {
        let i = choose|i: int| 0 <= i < rows.len() && (#[trigger] rows[i]).len() > 1;
        assert(in_range(rows, i, 0) && in_range(rows, i, 1));
        lemma_lookup(rows, i, 0);
        lemma_lookup(rows, i, 1);
        let first = slot(rows, i, 0).0;
        let second = slot(rows, i, 1).0;
        assert(index_of(first, rows.len()) == i);
        assert(index_of(second, rows.len()) == i);
        assert(map@.contains_key(first) && map@.contains_key(second));
        assert(first != second);
    }
}

/// Every crowded bucket holds at least two pairs, so there are at most half
/// as many crowded buckets as pairs.
pub proof fn law_collisions_at_most_half<V>(map: IntMap<V>)
    requires
        map.wf(),
    ensures
        2 * map.crowded_buckets() <= map@.len(),
{
    lemma_crowded_bound(map.rows());
    lemma_flat_lists(map.rows());
}

/// A table with more pairs than buckets has a crowded bucket.
pub proof fn law_more_pairs_than_buckets_collide<V>(map: IntMap<V>)
    requires
        map.wf(),
        map@.len() > map.buckets(),
    ensures
        map.crowded_buckets() >= 1,
{
    lemma_crowded_bound(map.rows());
    lemma_flat_lists(map.rows());
}

} // verus!
