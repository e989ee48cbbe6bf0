//! The pairs of a bucket array as one sequence, bucket after bucket.

use vstd::prelude::*;
use crate::table::{
    as_map, crowded, lemma_all_empty, lemma_drop_empty, lemma_pop, unique, Rows,
};

verus! {

/// The items of `rows` in one sequence: those of the first row, then those of
/// the second, and so on.
pub open spec fn flat<T>(rows: Seq<Seq<T>>) -> Seq<T>
    decreases rows.len(),
{
    if rows.len() == 0 {
        Seq::empty()
    } else {
        flat(rows.drop_last()) + rows.last()
    }
}

/// The number of items in the first `i` rows.
pub open spec fn offset<T>(rows: Seq<Seq<T>>, i: int) -> nat {
    flat(rows.take(i)).len()
}

/// Whether `pairs` lists the map `map`: each pair of the map once, and
/// nothing else.
pub open spec fn lists<V>(pairs: Seq<(u64, V)>, map: Map<u64, V>) -> bool {
    &&& map.dom().finite()
    &&& pairs.len() == map.dom().len()
    &&& forall|a: int|
        0 <= a < pairs.len() ==> map.contains_key((#[trigger] pairs[a]).0) && map[pairs[a].0]
            == pairs[a].1
    &&& forall|a: int, b: int|
        0 <= a < b < pairs.len() ==> (#[trigger] pairs[a]).0 != (#[trigger] pairs[b]).0
    &&& forall|key: u64| #[trigger]
        map.contains_key(key) ==> exists|a: int|
            0 <= a < pairs.len() && #[trigger] pairs[a] == (key, map[key])
}

/// The first `i + 1` rows hold what the first `i` hold, and row `i`.
pub proof fn lemma_flat_take<T>(rows: Seq<Seq<T>>, i: int)
    requires
        0 <= i < rows.len(),
    ensures
        flat(rows.take(i + 1)) == flat(rows.take(i)) + rows[i],
        offset(rows, i + 1) == offset(rows, i) + rows[i].len(),
{
    assert(rows.take(i + 1).drop_last() =~= rows.take(i));
}

/// The items of the first `i` rows open the sequence of all items.
pub proof fn lemma_flat_prefix<T>(rows: Seq<Seq<T>>, i: int)
    requires
        0 <= i <= rows.len(),
    ensures
        offset(rows, i) <= flat(rows).len(),
        flat(rows).take(offset(rows, i) as int) == flat(rows.take(i)),
    decreases rows.len(),
{
    if i == rows.len() {
        assert(rows.take(i) =~= rows);
        assert(flat(rows).take(flat(rows).len() as int) =~= flat(rows));
    } else {
        let front = rows.drop_last();
        lemma_flat_prefix(front, i);
        assert(front.take(i) =~= rows.take(i));
        assert(flat(rows).take(offset(rows, i) as int) =~= flat(front).take(
            offset(front, i) as int,
        ));
    }
}

/// Item `j` of row `i` stands at `offset(rows, i) + j` in the sequence of all
/// items.
pub proof fn lemma_flat_index<T>(rows: Seq<Seq<T>>, i: int, j: int)
    requires
        0 <= i < rows.len(),
        0 <= j < rows[i].len(),
    ensures
        offset(rows, i) + j < flat(rows).len(),
        flat(rows)[offset(rows, i) + j] == rows[i][j],
{
    lemma_flat_take(rows, i);
    lemma_flat_prefix(rows, i + 1);
    let upto = flat(rows.take(i + 1));
    assert(upto[offset(rows, i) + j] == rows[i][j]);
    assert(flat(rows).take(offset(rows, i + 1) as int)[offset(rows, i) + j] == flat(rows)[offset(
        rows,
        i,
    ) + j]);
}

/// Rows without a repeated key list the map that they stand for.
pub proof fn lemma_flat_lists<V>(rows: Rows<V>)
    requires
        unique(rows),
    ensures
        lists(flat(rows), as_map(rows)),
    decreases rows.len(), (if rows.len() > 0 { rows.last().len() } else { 0 }),
{
    let map = as_map(rows);
    if rows.len() == 0 {
        lemma_all_empty(rows);
    } else if rows.last().len() == 0 {
        lemma_drop_empty(rows);
        lemma_flat_lists(rows.drop_last());
        assert(flat(rows) =~= flat(rows.drop_last()));
    } else {
        let i = rows.len() - 1;
        let pair = rows[i].last();
        let fewer = rows.update(i, rows[i].drop_last());
        lemma_pop(rows, i);
        lemma_flat_lists(fewer);
        assert(fewer.drop_last() =~= rows.drop_last());
        assert(flat(rows) =~= flat(fewer).push(pair));
        let less = as_map(fewer);
        assert(map =~= less.insert(pair.0, pair.1));
        assert(!less.contains_key(pair.0));
        let all = flat(rows);
        let most = flat(fewer);
        assert forall|a: int| 0 <= a < all.len() implies map.contains_key((#[trigger] all[a]).0)
            && map[all[a].0] == all[a].1 by {
            if a < most.len() {
                assert(all[a] == most[a]);
            }
        }
        assert forall|a: int, b: int| 0 <= a < b < all.len() implies (#[trigger] all[a]).0 != (
        #[trigger] all[b]).0 by {
            assert(all[a] == most[a]);
            if b < most.len() {
                assert(all[b] == most[b]);
            }
        }
        assert forall|key: u64| #[trigger] map.contains_key(key) implies exists|a: int|
            0 <= a < all.len() && #[trigger] all[a] == (key, map[key]) by {
            if key == pair.0 {
                assert(all[most.len() as int] == (key, map[key]));
            } else {
                assert(less.contains_key(key));
                let a = choose|a: int| 0 <= a < most.len() && #[trigger] most[a] == (key, less[key]);
                assert(all[a] == (key, map[key]));
            }
        }
    }
}

/// Whether `(i, j)` is a place for a cursor in `rows`: before item `j` of row
/// `i`, after the last item of row `i`, or after the last row.
pub open spec fn within<T>(rows: Seq<Seq<T>>, i: int, j: int) -> bool {
    &&& 0 <= i <= rows.len()
    &&& i < rows.len() ==> 0 <= j <= rows[i].len()
    &&& i == rows.len() ==> j == 0
}

/// The items of `rows` from item `j` of row `i` on.
pub open spec fn rest<T>(rows: Seq<Seq<T>>, i: int, j: int) -> Seq<T> {
    flat(rows).skip(offset(rows, i) + j)
}

/// From the start, everything is left.
pub proof fn lemma_rest_start<T>(rows: Seq<Seq<T>>)
    ensures
        within(rows, 0, 0),
        rest(rows, 0, 0) == flat(rows),
{
    assert(rows.take(0) =~= Seq::<Seq<T>>::empty());
    assert(flat(rows).skip(0) =~= flat(rows));
}

/// After the last row, nothing is left.
pub proof fn lemma_rest_end<T>(rows: Seq<Seq<T>>)
    ensures
        rest(rows, rows.len() as int, 0).len() == 0,
{
    assert(rows.take(rows.len() as int) =~= rows);
}

/// Before item `j` of row `i`, that item is the first one left, and after it
/// the others are.
pub proof fn lemma_rest_step<T>(rows: Seq<Seq<T>>, i: int, j: int)
    requires
        0 <= i < rows.len(),
        0 <= j < rows[i].len(),
    ensures
        rest(rows, i, j).len() > 0,
        rest(rows, i, j)[0] == rows[i][j],
        rest(rows, i, j + 1) == rest(rows, i, j).skip(1),
{
    lemma_flat_index(rows, i, j);
    let at = offset(rows, i) + j;
    assert(flat(rows).skip(at).skip(1) =~= flat(rows).skip(at + 1));
}

/// At the end of row `i`, what is left begins with the next row.
pub proof fn lemma_rest_skip<T>(rows: Seq<Seq<T>>, i: int)
    requires
        0 <= i < rows.len(),
    ensures
        rest(rows, i + 1, 0) == rest(rows, i, rows[i].len() as int),
{
    lemma_flat_take(rows, i);
}

/// What is left is no longer than the sequence of all items.
pub proof fn lemma_rest_bound<T>(rows: Seq<Seq<T>>, i: int, j: int)
    requires
        within(rows, i, j),
    ensures
        offset(rows, i) + j <= flat(rows).len(),
        rest(rows, i, j).len() <= flat(rows).len(),
{
    if i == rows.len() {
        assert(rows.take(i) =~= rows);
    } else {
        lemma_flat_take(rows, i);
        lemma_flat_prefix(rows, i + 1);
    }
}

/// Replacing item `j` of row `i` changes nothing of what comes after it.
pub proof fn lemma_rest_update<T>(rows: Seq<Seq<T>>, i: int, j: int, item: T)
    requires
        0 <= i < rows.len(),
        0 <= j < rows[i].len(),
    ensures
        within(rows.update(i, rows[i].update(j, item)), i, j + 1),
        rest(rows.update(i, rows[i].update(j, item)), i, j + 1) == rest(rows, i, j + 1),
{
    let after = rows.update(i, rows[i].update(j, item));
    lemma_flat_update(rows, i, j, item);
    assert(after.take(i) =~= rows.take(i));
    lemma_flat_index(rows, i, j);
    assert(flat(after).skip(offset(rows, i) + j + 1) =~= flat(rows).skip(offset(rows, i) + j + 1));
}

/// Replacing item `j` of row `i` changes nothing of what comes after it,
/// whatever the new item is.
pub proof fn lemma_rest_update_any<T>(rows: Seq<Seq<T>>, i: int, j: int)
    requires
        0 <= i < rows.len(),
        0 <= j < rows[i].len(),
    ensures
        forall|item: T|
            #![trigger rows[i].update(j, item)]
            within(rows.update(i, rows[i].update(j, item)), i, j + 1) && rest(
                rows.update(i, rows[i].update(j, item)),
                i,
                j + 1,
            ) == rest(rows, i, j + 1),
{
    assert forall|item: T|
        #![trigger rows[i].update(j, item)]
        within(rows.update(i, rows[i].update(j, item)), i, j + 1) && rest(
            rows.update(i, rows[i].update(j, item)),
            i,
            j + 1,
        ) == rest(rows, i, j + 1) by {
        lemma_rest_update(rows, i, j, item);
    }
}

/// Replacing item `j` of row `i` replaces one item of the sequence of all
/// items.
pub proof fn lemma_flat_update<T>(rows: Seq<Seq<T>>, i: int, j: int, item: T)
    requires
        0 <= i < rows.len(),
        0 <= j < rows[i].len(),
    ensures
        offset(rows, i) + j < flat(rows).len(),
        flat(rows.update(i, rows[i].update(j, item))) == flat(rows).update(
            offset(rows, i) + j,
            item,
        ),
    decreases rows.len(),
{
    let after = rows.update(i, rows[i].update(j, item));
    let front = rows.drop_last();
    lemma_flat_index(rows, i, j);
    if i == rows.len() - 1 {
        assert(after.drop_last() =~= front);
        assert(rows.take(i) =~= front);
        assert(flat(after) =~= flat(rows).update(offset(rows, i) + j, item));
    } else {
        lemma_flat_update(front, i, j, item);
        assert(after.drop_last() =~= front.update(i, front[i].update(j, item)));
        assert(front.take(i) =~= rows.take(i));
        assert(flat(after) =~= flat(rows).update(offset(rows, i) + j, item));
    }
}

/// Whether the first `i` rows of `rows` are empty.
pub open spec fn empty_before<T>(rows: Seq<Seq<T>>, i: int) -> bool {
    forall|a: int| 0 <= a < i && a < rows.len() ==> (#[trigger] rows[a]).len() == 0
}

/// Empty rows hold no item.
pub proof fn lemma_flat_empty<T>(rows: Seq<Seq<T>>)
    requires
        empty_before(rows, rows.len() as int),
    ensures
        flat(rows).len() == 0,
    decreases rows.len(),
{
    if rows.len() > 0 {
        let front = rows.drop_last();
        assert forall|a: int| 0 <= a < front.len() implies (#[trigger] front[a]).len() == 0 by {
            assert(rows[a].len() == 0);
        }
        lemma_flat_empty(front);
        assert(rows[rows.len() - 1].len() == 0);
    }
}

/// Where the rows before row `i` are empty, the first item of row `i` is the
/// first of all items, and without it the others are left in their order.
pub proof fn lemma_flat_pop_front<T>(rows: Seq<Seq<T>>, i: int)
    requires
        0 <= i < rows.len(),
        rows[i].len() > 0,
        empty_before(rows, i),
    ensures
        flat(rows).len() > 0,
        flat(rows)[0] == rows[i][0],
        flat(rows.update(i, rows[i].drop_first())) == flat(rows).drop_first(),
    decreases rows.len(),
{
    let after = rows.update(i, rows[i].drop_first());
    let front = rows.drop_last();
    if i == rows.len() - 1 {
        assert forall|a: int| 0 <= a < front.len() implies (#[trigger] front[a]).len() == 0 by {
            assert(rows[a].len() == 0);
        }
        lemma_flat_empty(front);
        assert(after.drop_last() =~= front);
        assert(flat(rows) =~= rows[i]);
        assert(flat(after) =~= flat(rows).drop_first());
    } else {
        assert forall|a: int| 0 <= a < i && a < front.len() implies (#[trigger] front[a]).len()
            == 0 by {
            assert(rows[a].len() == 0);
        }
        lemma_flat_pop_front(front, i);
        assert(after.drop_last() =~= front.update(i, front[i].drop_first()));
        assert(flat(after) =~= flat(rows).drop_first());
    }
}

/// Each crowded bucket holds two pairs or more, and rows without a crowded
/// bucket hold no more pairs than there are rows.
pub proof fn lemma_crowded_bound<V>(rows: Rows<V>)
    ensures
        2 * crowded(rows) <= flat(rows).len(),
        crowded(rows) == 0 ==> flat(rows).len() <= rows.len(),
    decreases rows.len(),
{
    if rows.len() > 0 {
        lemma_crowded_bound(rows.drop_last());
    }
}

} // verus!
