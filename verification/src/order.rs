//! Putting items back into a recorded order: items whose key was recorded
//! come first, in the recorded order; the others follow in their own order.
//! Where a key was recorded more than once, its last place counts.

use vstd::prelude::*;

verus! {

/// The last place of `k` in `order`.
pub open spec fn last_place<K>(order: Seq<K>, k: K) -> Option<int>
    decreases order.len(),
{
    if order.len() == 0 {
        None
    } else if order.last() == k {
        Some(order.len() - 1)
    } else {
        last_place(order.drop_last(), k)
    }
}

/// The items whose key was not recorded before place `r`: recorded at `r` or
/// later, or not at all.
pub open spec fn unplaced<T, K>(items: Seq<T>, key: spec_fn(T) -> K, order: Seq<K>, r: int) -> Seq<T> {
    items.filter(
        |t: T|
            match last_place(order, key(t)) {
                Some(j) => j >= r,
                None => true,
            },
    )
}

/// The items with key `k`, in their order.
pub open spec fn with_key<T, K>(items: Seq<T>, key: spec_fn(T) -> K, k: K) -> Seq<T> {
    items.filter(|t: T| key(t) == k)
}

/// The items whose key is not `k`, in their order.
pub open spec fn without_key<T, K>(items: Seq<T>, key: spec_fn(T) -> K, k: K) -> Seq<T> {
    items.filter(|t: T| key(t) != k)
}

/// The items whose key was not recorded, in their order.
pub open spec fn unrecorded<T, K>(items: Seq<T>, key: spec_fn(T) -> K, order: Seq<K>) -> Seq<T> {
    items.filter(|t: T| last_place(order, key(t)) is None)
}

/// The items whose key was recorded before place `r`, in the recorded
/// order, each key's items in their own order.
pub open spec fn placed<T, K>(items: Seq<T>, key: spec_fn(T) -> K, order: Seq<K>, r: nat) -> Seq<T>
    decreases r,
{
    if r == 0 {
        Seq::empty()
    } else {
        let prev = placed(items, key, order, (r - 1) as nat);
        if last_place(order, order[r - 1]) == Some(r - 1) {
            prev + with_key(items, key, order[r - 1])
        } else {
            prev
        }
    }
}

/// The items put into the order `order`: those whose key was recorded, in
/// the recorded order (a key counting at its last place), then the others
/// in their own order.
pub open spec fn arranged<T, K>(items: Seq<T>, key: spec_fn(T) -> K, order: Seq<K>) -> Seq<T> {
    placed(items, key, order, order.len()) + unrecorded(items, key, order)
}

/// What `last_place` gives: a place holding the key, after which the key
/// does not come again; or no place, where the key is not recorded.
pub proof fn lemma_last_place<K>(order: Seq<K>, k: K)
    ensures
        match last_place(order, k) {
            Some(j) => 0 <= j < order.len() && order[j] == k && forall|i: int|
                j < i < order.len() ==> order[i] != k,
            None => forall|i: int| 0 <= i < order.len() ==> order[i] != k,
        },
    decreases order.len(),
{
    if order.len() > 0 {
        lemma_last_place(order.drop_last(), k);
        if order.last() != k {
            match last_place(order.drop_last(), k) {
                Some(j) => {
                    assert forall|i: int| j < i < order.len() implies order[i] != k by {
                        if i < order.len() - 1 {
                            assert(order[i] == order.drop_last()[i]);
                        }
                    }
                },
                None => {
                    assert forall|i: int| 0 <= i < order.len() implies order[i] != k by {
                        if i < order.len() - 1 {
                            assert(order[i] == order.drop_last()[i]);
                        }
                    }
                },
            }
        }
    }
}

/// Place `j` is the last place of the key it holds exactly when no later
/// place holds that key.
pub proof fn lemma_last_place_at<K>(order: Seq<K>, j: int)
    requires
        0 <= j < order.len(),
    ensures
        (last_place(order, order[j]) == Some(j)) <==> (forall|i: int| j < i < order.len() ==> #[trigger] order[i] != order[j]),
    decreases order.len(),
{
    lemma_last_place(order, order[j]);
    if forall|i: int| j < i < order.len() ==> #[trigger] order[i] != order[j] {
        if j == order.len() - 1 {
        } else {
            assert(order.last() != order[j]);
            let t = order.drop_last();
            assert(t[j] == order[j]);
            assert forall|i: int| j < i < t.len() implies t[i] != t[j] by {
                assert(t[i] == order[i]);
            }
            lemma_last_place_at(t, j);
        }
    }
}

/// Filtering twice is filtering once by both predicates.
pub proof fn lemma_filter_twice<T>(s: Seq<T>, p: spec_fn(T) -> bool, q: spec_fn(T) -> bool)
    ensures
        s.filter(p).filter(q) == s.filter(|t: T| p(t) && q(t)),
    decreases s.len(),
{
    reveal(Seq::filter);
    if s.len() > 0 {
        lemma_filter_twice(s.drop_last(), p, q);
        let f = s.drop_last().filter(p);
        if p(s.last()) {
            assert(f.push(s.last()).drop_last() =~= f);
        }
    }
}

/// Filters by predicates that agree on every element are the same.
pub proof fn lemma_filter_same<T>(s: Seq<T>, p: spec_fn(T) -> bool, q: spec_fn(T) -> bool)
    requires
        forall|t: T| #[trigger] p(t) == q(t),
    ensures
        s.filter(p) == s.filter(q),
{
    assert(p =~= q);
}

/// Taking the items with key `k` out of the unplaced ones at place `r`,
/// where `r` is the last place of `k`: they are all the items with key `k`,
/// and what stays is unplaced at `r + 1`.
pub proof fn lemma_place_step<T, K>(items: Seq<T>, key: spec_fn(T) -> K, order: Seq<K>, r: int)
    requires
        0 <= r < order.len(),
    ensures
        last_place(order, order[r]) == Some(r) ==> with_key(unplaced(items, key, order, r), key, order[r])
            == with_key(items, key, order[r]),
        last_place(order, order[r]) == Some(r) ==> without_key(unplaced(items, key, order, r), key, order[r])
            == unplaced(items, key, order, r + 1),
        last_place(order, order[r]) != Some(r) ==> unplaced(items, key, order, r) == unplaced(
            items,
            key,
            order,
            r + 1,
        ),
{
    let p = |t: T|
        match last_place(order, key(t)) {
            Some(j) => j >= r,
            None => true,
        };
    let p1 = |t: T|
        match last_place(order, key(t)) {
            Some(j) => j >= r + 1,
            None => true,
        };
    let q = |t: T| key(t) == order[r];
    let nq = |t: T| key(t) != order[r];
    assert forall|t: T| #[trigger] last_place(order, key(t)) == Some(r) implies key(t) == order[r] by {
        lemma_last_place(order, key(t));
    }
    if last_place(order, order[r]) == Some(r) {
        lemma_filter_twice(items, p, q);
        lemma_filter_same(items, |t: T| p(t) && q(t), q);
        lemma_filter_twice(items, p, nq);
        lemma_filter_same(items, |t: T| p(t) && nq(t), p1);
    } else {
        lemma_filter_same(items, p, p1);
    }
}

/// With keys that are all different, the items with the key of item `r` are
/// that item alone.
pub proof fn lemma_with_unique_key<T, K>(items: Seq<T>, key: spec_fn(T) -> K, r: int)
    requires
        0 <= r < items.len(),
        forall|a: int, b: int| 0 <= a < b < items.len() ==> key(items[a]) != key(items[b]),
    ensures
        with_key(items, key, key(items[r])) == seq![items[r]],
    decreases items.len(),
{
    reveal(Seq::filter);
    let k = key(items[r]);
    let q = |t: T| key(t) == k;
    let t = items.drop_last();
    if r == items.len() - 1 {
        assert forall|i: int| 0 <= i < t.len() implies !q(t[i]) by {
            assert(t[i] == items[i]);
        }
        lemma_filter_none(t, q);
        assert(seq![items[r]] =~= Seq::<T>::empty().push(items[r]));
    } else {
        assert forall|a: int, b: int| 0 <= a < b < t.len() implies key(t[a]) != key(t[b]) by {
            assert(t[a] == items[a] && t[b] == items[b]);
        }
        assert(t[r] == items[r]);
        lemma_with_unique_key(t, key, r);
        assert(!q(items.last()));
    }
}

/// Filtering by a predicate that no element meets leaves nothing.
pub proof fn lemma_filter_none<T>(s: Seq<T>, p: spec_fn(T) -> bool)
    requires
        forall|i: int| 0 <= i < s.len() ==> !p(s[i]),
    ensures
        s.filter(p) == Seq::<T>::empty(),
    decreases s.len(),
{
    reveal(Seq::filter);
    if s.len() > 0 {
        let t = s.drop_last();
        assert forall|i: int| 0 <= i < t.len() implies !p(t[i]) by {
            assert(t[i] == s[i]);
        }
        lemma_filter_none(t, p);
    }
}

/// Putting items back into the order just recorded from them leaves them
/// as they are, where their keys are all different: the recorded lines
/// never move.
pub proof fn lemma_arranged_as_recorded<T, K>(items: Seq<T>, key: spec_fn(T) -> K)
    requires
        forall|a: int, b: int| 0 <= a < b < items.len() ==> key(items[a]) != key(items[b]),
    ensures
        arranged(items, key, items.map_values(key)) == items,
{
    let order = items.map_values(key);
    assert forall|r: int| 0 <= r <= items.len() implies #[trigger] placed(items, key, order, r as nat) == items.take(r) by {
        lemma_placed_prefix(items, key, r);
    }
    assert(items.take(items.len() as int) =~= items);
    assert forall|i: int| 0 <= i < items.len() implies !(last_place(order, key(items[i])) is None) by {
        lemma_last_place(order, key(items[i]));
        assert(order[i] == key(items[i]));
    }
    lemma_filter_none(items, |t: T| last_place(order, key(t)) is None);
    assert(unrecorded(items, key, order) == Seq::<T>::empty());
    assert(items + Seq::<T>::empty() =~= items);
}

proof fn lemma_placed_prefix<T, K>(items: Seq<T>, key: spec_fn(T) -> K, r: int)
    requires
        0 <= r <= items.len(),
        forall|a: int, b: int| 0 <= a < b < items.len() ==> key(items[a]) != key(items[b]),
    ensures
        placed(items, key, items.map_values(key), r as nat) == items.take(r),
    decreases r,
{
    let order = items.map_values(key);
    if r == 0 {
        assert(items.take(0) =~= Seq::<T>::empty());
    } else {
        lemma_placed_prefix(items, key, r - 1);
        lemma_last_place_at(order, r - 1);
        assert forall|i: int| r - 1 < i < order.len() implies #[trigger] order[i] != order[r - 1] by {
            assert(order[i] == key(items[i]));
        }
        lemma_with_unique_key(items, key, r - 1);
        assert(items.take(r) =~= items.take(r - 1) + seq![items[r - 1]]);
    }
}

/// Appending an item to a sequence appends it to the items of its key, and
/// to no others.
pub proof fn lemma_key_push<T, K>(s: Seq<T>, x: T, key: spec_fn(T) -> K, k: K)
    ensures
        with_key(s.push(x), key, k) == (if key(x) == k {
            with_key(s, key, k).push(x)
        } else {
            with_key(s, key, k)
        }),
        without_key(s.push(x), key, k) == (if key(x) != k {
            without_key(s, key, k).push(x)
        } else {
            without_key(s, key, k)
        }),
{
    reveal(Seq::filter);
    assert(s.push(x).drop_last() =~= s);
}

/// Once every place has been passed, the unplaced items are those whose key
/// was not recorded.
pub proof fn lemma_unplaced_at_end<T, K>(items: Seq<T>, key: spec_fn(T) -> K, order: Seq<K>)
    ensures
        unplaced(items, key, order, order.len() as int) == unrecorded(items, key, order),
{
    let p = |t: T|
        match last_place(order, key(t)) {
            Some(j) => j >= order.len(),
            None => true,
        };
    let q = |t: T| last_place(order, key(t)) is None;
    assert forall|t: T| #[trigger] p(t) == q(t) by {
        lemma_last_place(order, key(t));
    }
    lemma_filter_same(items, p, q);
}

/// Nothing is unplaced before the first place but the items themselves.
pub proof fn lemma_unplaced_at_start<T, K>(items: Seq<T>, key: spec_fn(T) -> K, order: Seq<K>)
    ensures
        unplaced(items, key, order, 0) == items,
{
    let p = |t: T|
        match last_place(order, key(t)) {
            Some(j) => j >= 0,
            None => true,
        };
    assert forall|t: T| #[trigger] p(t) by {
        lemma_last_place(order, key(t));
    }
    lemma_filter_all(items, p);
}

/// Filtering by a predicate that every element meets keeps them all.
pub proof fn lemma_filter_all<T>(s: Seq<T>, p: spec_fn(T) -> bool)
    requires
        forall|t: T| #[trigger] p(t),
    ensures
        s.filter(p) == s,
    decreases s.len(),
{
    reveal(Seq::filter);
    if s.len() > 0 {
        lemma_filter_all(s.drop_last(), p);
        assert(s.drop_last().push(s.last()) =~= s);
    }
}

} // verus!
