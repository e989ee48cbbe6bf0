//! The mathematical model of a bucket array: a sequence of sequences of pairs,
//! and the map that it stands for.

use vstd::prelude::*;
use crate::hashing::index_of;

verus! {

/// The contents of a bucket array: for each bucket, its pairs in order.
pub type Rows<V> = Seq<Seq<(u64, V)>>;

/// Whether `(i, j)` names a pair of `rows`: pair `j` of bucket `i`.
pub open spec fn in_range<V>(rows: Rows<V>, i: int, j: int) -> bool {
    0 <= i < rows.len() && 0 <= j < rows[i].len()
}

/// Pair `j` of bucket `i`.
pub open spec fn slot<V>(rows: Rows<V>, i: int, j: int) -> (u64, V) {
    rows[i][j]
}

/// Whether some pair of `rows` has the key `key`.
pub open spec fn holds_key<V>(rows: Rows<V>, key: u64) -> bool {
    exists|i: int, j: int| in_range(rows, i, j) && (#[trigger] slot(rows, i, j)).0 == key
}

/// The value that `rows` holds for `key`.
pub open spec fn value_of<V>(rows: Rows<V>, key: u64) -> V {
    let (i, j) = choose|i: int, j: int|
        in_range(rows, i, j) && (#[trigger] slot(rows, i, j)).0 == key;
    slot(rows, i, j).1
}

/// The map that `rows` stands for.
pub open spec fn as_map<V>(rows: Rows<V>) -> Map<u64, V> {
    Map::new(|key: u64| holds_key(rows, key), |key: u64| value_of(rows, key))
}

/// No key occurs twice in `rows`.
pub open spec fn unique<V>(rows: Rows<V>) -> bool {
    forall|i1: int, j1: int, i2: int, j2: int|
        in_range(rows, i1, j1) && in_range(rows, i2, j2) && (#[trigger] slot(rows, i1, j1)).0 == (
        #[trigger] slot(rows, i2, j2)).0 ==> i1 == i2 && j1 == j2
}

/// Every pair of `rows` lies in the bucket that its key maps to.
pub open spec fn placed<V>(rows: Rows<V>) -> bool {
    forall|i: int, j: int|
        in_range(rows, i, j) ==> index_of((#[trigger] slot(rows, i, j)).0, rows.len()) == i
}

/// Every bucket of `rows` is empty.
pub open spec fn all_empty<V>(rows: Rows<V>) -> bool {
    forall|i: int| 0 <= i < rows.len() ==> (#[trigger] rows[i]).len() == 0
}

/// A pair of `rows` is in the map, with its value.
pub proof fn lemma_lookup<V>(rows: Rows<V>, i: int, j: int)
    requires
        unique(rows),
        in_range(rows, i, j),
    ensures
        as_map(rows).contains_key(slot(rows, i, j).0),
        as_map(rows)[slot(rows, i, j).0] == slot(rows, i, j).1,
{
    let key = slot(rows, i, j).0;
    assert(holds_key(rows, key));
    let (ci, cj) = choose|i: int, j: int|
        in_range(rows, i, j) && (#[trigger] slot(rows, i, j)).0 == key;
    assert(ci == i && cj == j);
}

/// A key that its own bucket lacks is not in the map.
pub proof fn lemma_absent<V>(rows: Rows<V>, key: u64)
    requires
        placed(rows),
        rows.len() == 0 || forall|j: int|
            0 <= j < rows[index_of(key, rows.len()) as int].len() ==> (
            #[trigger] rows[index_of(key, rows.len()) as int][j]).0 != key,
    ensures
        !as_map(rows).contains_key(key),
{
    if holds_key(rows, key) {
        let (i, j) = choose|i: int, j: int|
            in_range(rows, i, j) && (#[trigger] slot(rows, i, j)).0 == key;
        assert(index_of(slot(rows, i, j).0, rows.len()) == i);
        assert(rows[i][j].0 == key);
    }
}

/// Empty buckets stand for the empty map.
pub proof fn lemma_all_empty<V>(rows: Rows<V>)
    requires
        all_empty(rows),
    ensures
        unique(rows),
        placed(rows),
        as_map(rows) =~= Map::<u64, V>::empty(),
{
    assert forall|key: u64| !holds_key(rows, key) by {
        if holds_key(rows, key) {
            let (i, j) = choose|i: int, j: int|
                in_range(rows, i, j) && (#[trigger] slot(rows, i, j)).0 == key;
            assert(rows[i].len() == 0);
        }
    }
}

/// Appending a pair with a new key to bucket `i` inserts it into the map.
pub proof fn lemma_push<V>(rows: Rows<V>, i: int, key: u64, value: V)
    requires
        unique(rows),
        0 <= i < rows.len(),
        !as_map(rows).contains_key(key),
    ensures
        unique(rows.update(i, rows[i].push((key, value)))),
        as_map(rows.update(i, rows[i].push((key, value)))) =~= as_map(rows).insert(key, value),
        placed(rows) && index_of(key, rows.len()) == i ==> placed(
            rows.update(i, rows[i].push((key, value))),
        ),
{
    let after = rows.update(i, rows[i].push((key, value)));
    let last = rows[i].len() as int;
    assert forall|a: int, b: int| in_range(after, a, b) implies (a == i && b == last && slot(
        after,
        a,
        b,
    ) == (key, value)) || (in_range(rows, a, b) && slot(after, a, b) == slot(rows, a, b)) by {}
    assert forall|a: int, b: int| in_range(rows, a, b) implies in_range(after, a, b) && slot(
        after,
        a,
        b,
    ) == slot(rows, a, b) by {}
    assert(in_range(after, i, last) && slot(after, i, last) == (key, value));
    assert forall|a1: int, b1: int, a2: int, b2: int|
        in_range(after, a1, b1) && in_range(after, a2, b2) && (#[trigger] slot(after, a1, b1)).0
            == (#[trigger] slot(after, a2, b2)).0 implies a1 == a2 && b1 == b2 by {
        if in_range(rows, a1, b1) {
            assert(slot(rows, a1, b1).0 == slot(after, a1, b1).0);
            assert(holds_key(rows, slot(rows, a1, b1).0));
        }
        if in_range(rows, a2, b2) {
            assert(slot(rows, a2, b2).0 == slot(after, a2, b2).0);
            assert(holds_key(rows, slot(rows, a2, b2).0));
        }
    }
    assert forall|k: u64| holds_key(after, k) <==> (k == key || holds_key(rows, k)) by {
        if holds_key(after, k) {
            let (a, b) = choose|a: int, b: int|
                in_range(after, a, b) && (#[trigger] slot(after, a, b)).0 == k;
            if in_range(rows, a, b) {
                assert(slot(rows, a, b).0 == k);
            }
        }
        if holds_key(rows, k) {
            let (a, b) = choose|a: int, b: int|
                in_range(rows, a, b) && (#[trigger] slot(rows, a, b)).0 == k;
            assert(slot(after, a, b).0 == k);
        }
    }
    assert forall|k: u64| holds_key(after, k) implies #[trigger] value_of(after, k) == as_map(
        rows,
    ).insert(key, value)[k] by {
        let (a, b) = choose|a: int, b: int|
            in_range(after, a, b) && (#[trigger] slot(after, a, b)).0 == k;
        if k == key {
            assert(slot(after, i, last).0 == slot(after, a, b).0);
        } else {
            assert(in_range(rows, a, b));
            lemma_lookup(rows, a, b);
        }
    }
}

/// Replacing the value of pair `j` of bucket `i` replaces it in the map.
pub proof fn lemma_set<V>(rows: Rows<V>, i: int, j: int, value: V)
    requires
        unique(rows),
        in_range(rows, i, j),
    ensures
        unique(rows.update(i, rows[i].update(j, (slot(rows, i, j).0, value)))),
        placed(rows) ==> placed(rows.update(i, rows[i].update(j, (slot(rows, i, j).0, value)))),
        as_map(rows.update(i, rows[i].update(j, (slot(rows, i, j).0, value)))) =~= as_map(
            rows,
        ).insert(slot(rows, i, j).0, value),
{
    let key = slot(rows, i, j).0;
    let after = rows.update(i, rows[i].update(j, (key, value)));
    assert forall|a: int, b: int| in_range(after, a, b) <==> in_range(rows, a, b) by {}
    assert forall|a: int, b: int| in_range(rows, a, b) implies (#[trigger] slot(after, a, b)).0
        == slot(rows, a, b).0 && ((a == i && b == j && slot(after, a, b).1 == value) || (!(a == i
        && b == j) && slot(after, a, b) == slot(rows, a, b))) by {}
    assert(unique(after)) by {
        assert forall|a1: int, b1: int, a2: int, b2: int|
            in_range(after, a1, b1) && in_range(after, a2, b2) && (#[trigger] slot(
                after,
                a1,
                b1,
            )).0 == (#[trigger] slot(after, a2, b2)).0 implies a1 == a2 && b1 == b2 by {
            assert(slot(rows, a1, b1).0 == slot(rows, a2, b2).0);
        }
    }
    if placed(rows) {
        assert forall|a: int, b: int| in_range(after, a, b) implies index_of(
            (#[trigger] slot(after, a, b)).0,
            after.len(),
        ) == a by {
            assert(slot(rows, a, b).0 == slot(after, a, b).0);
        }
    }
    assert forall|k: u64| holds_key(after, k) <==> holds_key(rows, k) by {
        if holds_key(after, k) {
            let (a, b) = choose|a: int, b: int|
                in_range(after, a, b) && (#[trigger] slot(after, a, b)).0 == k;
            assert(slot(rows, a, b).0 == k);
        }
        if holds_key(rows, k) {
            let (a, b) = choose|a: int, b: int|
                in_range(rows, a, b) && (#[trigger] slot(rows, a, b)).0 == k;
            assert(slot(after, a, b).0 == k);
        }
    }
    assert(holds_key(rows, key));
    assert forall|k: u64| holds_key(after, k) implies #[trigger] value_of(after, k) == as_map(
        rows,
    ).insert(key, value)[k] by {
        let (a, b) = choose|a: int, b: int|
            in_range(after, a, b) && (#[trigger] slot(after, a, b)).0 == k;
        lemma_lookup(rows, a, b);
        if k == key {
            assert(slot(rows, a, b).0 == slot(rows, i, j).0);
        }
    }
}

/// Removing pair `j` of bucket `i`, with the bucket's last pair moved into its
/// place, removes its key from the map.
pub proof fn lemma_swap_remove<V>(rows: Rows<V>, i: int, j: int)
    requires
        unique(rows),
        in_range(rows, i, j),
    ensures
        unique(rows.update(i, rows[i].update(j, rows[i].last()).drop_last())),
        placed(rows) ==> placed(rows.update(i, rows[i].update(j, rows[i].last()).drop_last())),
        as_map(rows.update(i, rows[i].update(j, rows[i].last()).drop_last())) =~= as_map(
            rows,
        ).remove(slot(rows, i, j).0),
        as_map(rows).contains_key(slot(rows, i, j).0),
        as_map(rows)[slot(rows, i, j).0] == slot(rows, i, j).1,
{
    let key = slot(rows, i, j).0;
    let last = rows[i].len() - 1;
    let after = rows.update(i, rows[i].update(j, rows[i].last()).drop_last());
    lemma_lookup(rows, i, j);
    // where each pair of `after` comes from
    let from = |a: int, b: int|
        if a == i && b == j {
            last
        } else {
            b
        };
    assert forall|a: int, b: int| in_range(after, a, b) implies in_range(rows, a, from(a, b))
        && #[trigger] slot(after, a, b) == slot(rows, a, from(a, b)) && !(a == i && from(a, b)
        == j) by {}
    assert(unique(after)) by {
        assert forall|a1: int, b1: int, a2: int, b2: int|
            in_range(after, a1, b1) && in_range(after, a2, b2) && (#[trigger] slot(
                after,
                a1,
                b1,
            )).0 == (#[trigger] slot(after, a2, b2)).0 implies a1 == a2 && b1 == b2 by {
            assert(slot(rows, a1, from(a1, b1)).0 == slot(rows, a2, from(a2, b2)).0);
        }
    }
    if placed(rows) {
        assert forall|a: int, b: int| in_range(after, a, b) implies index_of(
            (#[trigger] slot(after, a, b)).0,
            after.len(),
        ) == a by {
            assert(slot(rows, a, from(a, b)).0 == slot(after, a, b).0);
        }
    }
    assert forall|k: u64| holds_key(after, k) <==> (k != key && holds_key(rows, k)) by {
        if holds_key(after, k) {
            let (a, b) = choose|a: int, b: int|
                in_range(after, a, b) && (#[trigger] slot(after, a, b)).0 == k;
            assert(slot(rows, a, from(a, b)).0 == k);
            if k == key {
                assert(slot(rows, a, from(a, b)).0 == slot(rows, i, j).0);
            }
        }
        if k != key && holds_key(rows, k) {
            let (a, b) = choose|a: int, b: int|
                in_range(rows, a, b) && (#[trigger] slot(rows, a, b)).0 == k;
            if a == i && b == last {
                assert(slot(after, i, j).0 == k);
            } else {
                assert(slot(after, a, b).0 == k);
            }
        }
    }
    assert forall|k: u64| holds_key(after, k) implies #[trigger] value_of(after, k) == as_map(
        rows,
    )[k] by {
        let (a, b) = choose|a: int, b: int|
            in_range(after, a, b) && (#[trigger] slot(after, a, b)).0 == k;
        lemma_lookup(rows, a, from(a, b));
    }
}

/// Removing the last pair of bucket `i` removes its key from the map.
pub proof fn lemma_pop<V>(rows: Rows<V>, i: int)
    requires
        unique(rows),
        0 <= i < rows.len(),
        rows[i].len() > 0,
    ensures
        unique(rows.update(i, rows[i].drop_last())),
        placed(rows) ==> placed(rows.update(i, rows[i].drop_last())),
        as_map(rows.update(i, rows[i].drop_last())) =~= as_map(rows).remove(rows[i].last().0),
        as_map(rows).contains_key(rows[i].last().0),
        as_map(rows)[rows[i].last().0] == rows[i].last().1,
{
    let j = rows[i].len() - 1;
    assert(rows[i].update(j, rows[i].last()).drop_last() =~= rows[i].drop_last());
    assert(in_range(rows, i, j));
    lemma_swap_remove(rows, i, j);
}

/// An empty last bucket can go without changing the map.
pub proof fn lemma_drop_empty<V>(rows: Rows<V>)
    requires
        unique(rows),
        rows.len() > 0,
        rows.last().len() == 0,
    ensures
        unique(rows.drop_last()),
        as_map(rows.drop_last()) =~= as_map(rows),
{
    let after = rows.drop_last();
    assert forall|a: int, b: int| in_range(after, a, b) <==> in_range(rows, a, b) by {}
    assert forall|a: int, b: int| in_range(rows, a, b) implies #[trigger] slot(after, a, b)
        == slot(rows, a, b) by {}
    assert(unique(after)) by {
        assert forall|a1: int, b1: int, a2: int, b2: int|
            in_range(after, a1, b1) && in_range(after, a2, b2) && (#[trigger] slot(
                after,
                a1,
                b1,
            )).0 == (#[trigger] slot(after, a2, b2)).0 implies a1 == a2 && b1 == b2 by {
            assert(slot(rows, a1, b1).0 == slot(rows, a2, b2).0);
        }
    }
    assert forall|k: u64| holds_key(after, k) <==> holds_key(rows, k) by {
        if holds_key(after, k) {
            let (a, b) = choose|a: int, b: int|
                in_range(after, a, b) && (#[trigger] slot(after, a, b)).0 == k;
            assert(slot(rows, a, b).0 == k);
        }
        if holds_key(rows, k) {
            let (a, b) = choose|a: int, b: int|
                in_range(rows, a, b) && (#[trigger] slot(rows, a, b)).0 == k;
            assert(slot(after, a, b).0 == k);
        }
    }
    assert forall|k: u64| holds_key(after, k) implies #[trigger] value_of(after, k) == as_map(
        rows,
    )[k] by {
        let (a, b) = choose|a: int, b: int|
            in_range(after, a, b) && (#[trigger] slot(after, a, b)).0 == k;
        lemma_lookup(rows, a, b);
    }
}

/// The number of buckets of `rows` that hold more than one pair.
pub open spec fn crowded<V>(rows: Rows<V>) -> nat
    decreases rows.len(),
{
    if rows.len() == 0 {
        0
    } else {
        crowded(rows.drop_last()) + (if rows.last().len() > 1 {
            1nat
        } else {
            0nat
        })
    }
}

/// The number of crowded buckets is at most the number of buckets, is positive
/// where some bucket is crowded, and is zero where none is.
pub proof fn lemma_crowded<V>(rows: Rows<V>)
    ensures
        crowded(rows) <= rows.len(),
        (exists|i: int| 0 <= i < rows.len() && (#[trigger] rows[i]).len() > 1) <==> crowded(rows)
            > 0,
    decreases rows.len(),
{
    if rows.len() > 0 {
        let front = rows.drop_last();
        lemma_crowded(front);
        if crowded(front) > 0 {
            let i = choose|i: int| 0 <= i < front.len() && (#[trigger] front[i]).len() > 1;
            assert(rows[i].len() > 1);
        }
        if exists|i: int| 0 <= i < rows.len() && (#[trigger] rows[i]).len() > 1 {
            let i = choose|i: int| 0 <= i < rows.len() && (#[trigger] rows[i]).len() > 1;
            if i < rows.len() - 1 {
                assert(front[i].len() > 1);
            }
        }
    }
}

/// Rows of the same shape with the same keys stand for maps with the same
/// keys.
pub proof fn lemma_same_keys<V>(rows: Rows<V>, other: Rows<V>)
    requires
        unique(rows),
        rows.len() == other.len(),
        forall|i: int| 0 <= i < rows.len() ==> (#[trigger] rows[i]).len() == other[i].len(),
        forall|i: int, j: int|
            in_range(rows, i, j) ==> (#[trigger] slot(rows, i, j)).0 == slot(other, i, j).0,
    ensures
        unique(other),
        placed(rows) ==> placed(other),
        as_map(other).dom() =~= as_map(rows).dom(),
{
    assert forall|a: int, b: int| in_range(other, a, b) <==> in_range(rows, a, b) by {
        if 0 <= a < rows.len() {
            assert(rows[a].len() == other[a].len());
        }
    }
    assert(unique(other)) by {
        assert forall|a1: int, b1: int, a2: int, b2: int|
            in_range(other, a1, b1) && in_range(other, a2, b2) && (#[trigger] slot(
                other,
                a1,
                b1,
            )).0 == (#[trigger] slot(other, a2, b2)).0 implies a1 == a2 && b1 == b2 by {
            assert(slot(rows, a1, b1).0 == slot(rows, a2, b2).0);
        }
    }
    if placed(rows) {
        assert forall|a: int, b: int| in_range(other, a, b) implies index_of(
            (#[trigger] slot(other, a, b)).0,
            other.len(),
        ) == a by {
            assert(slot(rows, a, b).0 == slot(other, a, b).0);
        }
    }
    assert forall|k: u64| holds_key(other, k) <==> holds_key(rows, k) by {
        if holds_key(other, k) {
            let (a, b) = choose|a: int, b: int|
                in_range(other, a, b) && (#[trigger] slot(other, a, b)).0 == k;
            assert(slot(rows, a, b).0 == k);
        }
        if holds_key(rows, k) {
            let (a, b) = choose|a: int, b: int|
                in_range(rows, a, b) && (#[trigger] slot(rows, a, b)).0 == k;
            assert(slot(other, a, b).0 == k);
        }
    }
}

/// A key of the map lies somewhere in the rows, with its value.
pub proof fn lemma_where<V>(rows: Rows<V>, key: u64) -> (at: (int, int))
    requires
        unique(rows),
        as_map(rows).contains_key(key),
    ensures
        in_range(rows, at.0, at.1),
        slot(rows, at.0, at.1) == (key, as_map(rows)[key]),
{
    assert(holds_key(rows, key));
    let (i, j) = choose|i: int, j: int|
        in_range(rows, i, j) && (#[trigger] slot(rows, i, j)).0 == key;
    lemma_lookup(rows, i, j);
    (i, j)
}

/// Removing the first pair of bucket `i`, with the pairs behind it moved up,
/// removes its key from the map.
pub proof fn lemma_pop_front<V>(rows: Rows<V>, i: int)
    requires
        unique(rows),
        0 <= i < rows.len(),
        rows[i].len() > 0,
    ensures
        unique(rows.update(i, rows[i].drop_first())),
        placed(rows) ==> placed(rows.update(i, rows[i].drop_first())),
        as_map(rows.update(i, rows[i].drop_first())) =~= as_map(rows).remove(rows[i][0].0),
        as_map(rows).contains_key(rows[i][0].0),
        as_map(rows)[rows[i][0].0] == rows[i][0].1,
{
    let key = rows[i][0].0;
    let after = rows.update(i, rows[i].drop_first());
    assert(in_range(rows, i, 0));
    lemma_lookup(rows, i, 0);
    // where each pair of `after` comes from
    let from = |a: int, b: int|
        if a == i {
            b + 1
        } else {
            b
        };
    assert forall|a: int, b: int| in_range(after, a, b) implies in_range(rows, a, from(a, b))
        && #[trigger] slot(after, a, b) == slot(rows, a, from(a, b)) && !(a == i && from(a, b)
        == 0) by {}
    assert(unique(after)) by {
        assert forall|a1: int, b1: int, a2: int, b2: int|
            in_range(after, a1, b1) && in_range(after, a2, b2) && (#[trigger] slot(
                after,
                a1,
                b1,
            )).0 == (#[trigger] slot(after, a2, b2)).0 implies a1 == a2 && b1 == b2 by {
            assert(slot(rows, a1, from(a1, b1)).0 == slot(rows, a2, from(a2, b2)).0);
        }
    }
    if placed(rows) {
        assert forall|a: int, b: int| in_range(after, a, b) implies index_of(
            (#[trigger] slot(after, a, b)).0,
            after.len(),
        ) == a by {
            assert(slot(rows, a, from(a, b)).0 == slot(after, a, b).0);
        }
    }
    assert forall|k: u64| holds_key(after, k) <==> (k != key && holds_key(rows, k)) by {
        if holds_key(after, k) {
            let (a, b) = choose|a: int, b: int|
                in_range(after, a, b) && (#[trigger] slot(after, a, b)).0 == k;
            assert(slot(rows, a, from(a, b)).0 == k);
            if k == key {
                assert(slot(rows, a, from(a, b)).0 == slot(rows, i, 0).0);
            }
        }
        if k != key && holds_key(rows, k) {
            let (a, b) = choose|a: int, b: int|
                in_range(rows, a, b) && (#[trigger] slot(rows, a, b)).0 == k;
            if a == i {
                assert(b > 0);
                assert(slot(after, i, b - 1).0 == k);
            } else {
                assert(slot(after, a, b).0 == k);
            }
        }
    }
    assert forall|k: u64| holds_key(after, k) implies #[trigger] value_of(after, k) == as_map(
        rows,
    )[k] by {
        let (a, b) = choose|a: int, b: int|
            in_range(after, a, b) && (#[trigger] slot(after, a, b)).0 == k;
        lemma_lookup(rows, a, from(a, b));
    }
}

/// Replacing the value of pair `j` of bucket `i` replaces it in the map,
/// whatever the new value is.
pub proof fn lemma_set_any<V>(rows: Rows<V>, i: int, j: int)
    requires
        unique(rows),
        in_range(rows, i, j),
    ensures
        forall|value: V|
            #![trigger rows[i].update(j, (slot(rows, i, j).0, value))]
            {
                let after = rows.update(i, rows[i].update(j, (slot(rows, i, j).0, value)));
                &&& unique(after)
                &&& placed(rows) ==> placed(after)
                &&& as_map(after) == as_map(rows).insert(slot(rows, i, j).0, value)
                &&& as_map(after).dom() == as_map(rows).dom()
            },
{
    let key = slot(rows, i, j).0;
    lemma_lookup(rows, i, j);
    assert forall|value: V|
        #![trigger rows[i].update(j, (key, value))]
        {
            let after = rows.update(i, rows[i].update(j, (key, value)));
            &&& unique(after)
            &&& placed(rows) ==> placed(after)
            &&& as_map(after) == as_map(rows).insert(key, value)
            &&& as_map(after).dom() == as_map(rows).dom()
        } by {
        lemma_set(rows, i, j, value);
        assert(as_map(rows).insert(key, value).dom() =~= as_map(rows).dom());
    }
}

} // verus!
