//! Stable sorting, and the orders the table sorts by.

use vstd::prelude::*;
use vstd::string::StrSliceExecFns;

verus! {

/// `before` is a strict weak order: no item goes before itself, going
/// before is transitive, and items that neither go before the other stand
/// in the same place towards every third item.
pub open spec fn strict_weak<T>(before: spec_fn(T, T) -> bool) -> bool {
    &&& forall|a: T| !#[trigger] before(a, a)
    &&& forall|a: T, b: T, c: T|
        #![trigger before(a, b), before(b, c)]
        before(a, b) && before(b, c) ==> before(a, c)
    &&& forall|a: T, b: T, c: T|
        #![trigger before(a, b), before(b, a), before(a, c)]
        !before(a, b) && !before(b, a) && before(a, c) ==> before(b, c)
    &&& forall|a: T, b: T, c: T|
        #![trigger before(a, b), before(b, a), before(c, a)]
        !before(a, b) && !before(b, a) && before(c, a) ==> before(c, b)
}

/// `out` is `items` sorted stably by `before`, item `k` of `out` being item
/// `idx[k]` of `items`: every item appears once, no item goes before an
/// earlier one, and items that neither goes before the other keep their
/// order.
pub open spec fn sorted_stably<T>(items: Seq<T>, out: Seq<T>, before: spec_fn(T, T) -> bool, idx: Seq<int>) -> bool {
    &&& idx.len() == items.len()
    &&& out.len() == items.len()
    &&& forall|k: int| 0 <= k < out.len() ==> 0 <= #[trigger] idx[k] < items.len() && out[k] == items[idx[k]]
    &&& forall|k: int, l: int| 0 <= k < l < out.len() ==> #[trigger] idx[k] != #[trigger] idx[l]
    &&& forall|k: int, l: int| 0 <= k < l < out.len() ==> !before(#[trigger] out[l], #[trigger] out[k])
    &&& forall|k: int, l: int|
        0 <= k < l < out.len() && !before(#[trigger] out[k], #[trigger] out[l]) ==> idx[k] < idx[l]
}

/// Sorts `items` stably by `before`, which `precedes` computes.
pub fn stable_sort<T, F: Fn(&T, &T) -> bool>(items: Vec<T>, precedes: F, Ghost(before): Ghost<
    spec_fn(T, T) -> bool,
>) -> (out: Vec<T>)
    requires
        strict_weak(before),
        forall|a: T, b: T| #[trigger] precedes.requires((&a, &b)),
        forall|a: T, b: T, r: bool| precedes.ensures((&a, &b), r) ==> r == before(a, b),
    ensures
        exists|idx: Seq<int>| sorted_stably(items@, out@, before, idx),
{
    let ghost all = items@;
    let mut rest = items;
    let mut out: Vec<T> = Vec::new();
    let ghost mut idx: Seq<int> = Seq::empty();
    let mut i: usize = 0;
    assert(all.len() == rest.len());
    while rest.len() > 0
        invariant
            i <= all.len(),
            all.len() <= usize::MAX,
            rest@ == all.skip(i as int),
            strict_weak(before),
            forall|a: T, b: T| #[trigger] precedes.requires((&a, &b)),
            forall|a: T, b: T, r: bool| precedes.ensures((&a, &b), r) ==> r == before(a, b),
            sorted_stably(all.take(i as int), out@, before, idx),
            forall|k: int| 0 <= k < idx.len() ==> #[trigger] idx[k] < i,
        decreases rest@.len(),
    {
        let x = rest.remove(0);
        proof {
            assert(x == all[i as int]);
        }
        let mut p: usize = 0;
        while p < out.len() && !precedes(&x, &out[p])
            invariant
                p <= out@.len(),
                forall|a: T, b: T| #[trigger] precedes.requires((&a, &b)),
                forall|a: T, b: T, r: bool| precedes.ensures((&a, &b), r) ==> r == before(a, b),
                forall|k: int| 0 <= k < p ==> !before(x, #[trigger] out@[k]),
            decreases out@.len() - p,
        {
            p = p + 1;
        }
        let ghost old_out = out@;
        let ghost old_idx = idx;
        let ghost xv = x;
        proof {
            if p < old_out.len() {
                assert(before(xv, old_out[p as int]));
            }
        }
        out.insert(p, x);
        proof {
            idx = old_idx.insert(p as int, i as int);
            let n = out@.len();
            let t = all.take(i + 1);
            assert(out@ == old_out.insert(p as int, xv));
            assert forall|k: int| 0 <= k < n implies 0 <= #[trigger] idx[k] < t.len() && out@[k] == t[idx[k]] by {
                if k < p {
                    assert(out@[k] == old_out[k] && idx[k] == old_idx[k]);
                } else if k == p {
                } else {
                    assert(out@[k] == old_out[k - 1] && idx[k] == old_idx[k - 1]);
                }
            }
            assert forall|k: int, l: int| 0 <= k < l < n implies #[trigger] idx[k] != #[trigger] idx[l] by {
                if k != p && l != p {
                    let k0 = if k < p { k } else { k - 1 };
                    let l0 = if l < p { l } else { l - 1 };
                    assert(idx[k] == old_idx[k0] && idx[l] == old_idx[l0]);
                } else if k == p {
                    let l0 = l - 1;
                    assert(idx[l] == old_idx[l0]);
                } else {
                    assert(idx[k] == old_idx[k]);
                }
            }
            assert forall|k: int, l: int| 0 <= k < l < n implies !before(#[trigger] out@[l], #[trigger] out@[k]) by {
                if k != p && l != p {
                    let k0 = if k < p { k } else { k - 1 };
                    let l0 = if l < p { l } else { l - 1 };
                    assert(out@[k] == old_out[k0] && out@[l] == old_out[l0]);
                } else if l == p {
                    assert(out@[k] == old_out[k]);
                } else {
                    let m = l - 1;
                    assert(out@[l] == old_out[m]);
                    if before(old_out[m], xv) {
                        assert(before(xv, old_out[p as int]));
                        if m > p {
                            assert(!before(old_out[m], old_out[p as int]));
                        }
                    }
                }
            }
            assert forall|k: int, l: int|
                0 <= k < l < n && !before(#[trigger] out@[k], #[trigger] out@[l]) implies idx[k] < idx[l] by {
                if k != p && l != p {
                    let k0 = if k < p { k } else { k - 1 };
                    let l0 = if l < p { l } else { l - 1 };
                    assert(out@[k] == old_out[k0] && out@[l] == old_out[l0]);
                    assert(idx[k] == old_idx[k0] && idx[l] == old_idx[l0]);
                } else if l == p {
                    assert(idx[k] == old_idx[k]);
                } else {
                    let m = l - 1;
                    assert(out@[l] == old_out[m]);
                    let y = old_out[p as int];
                    assert(before(xv, y));
                    if m > p {
                        assert(!before(old_out[m], y));
                        if !before(y, old_out[m]) {
                            assert(before(xv, old_out[m]));
                        } else {
                            assert(before(xv, old_out[m]));
                        }
                    }
                }
            }
            assert forall|k: int| 0 <= k < idx.len() implies #[trigger] idx[k] < i + 1 by {
                if k < p {
                    assert(idx[k] == old_idx[k]);
                } else if k > p {
                    assert(idx[k] == old_idx[k - 1]);
                }
            }
        }
        i = i + 1;
        proof {
            assert(rest@ =~= all.skip(i as int));
        }
    }
    proof {
        assert(all.take(i as int) =~= all);
    }
    out
}

// ---------------------------------------------------------------------------
// Orders
// ---------------------------------------------------------------------------

/// How `a` compares with `b`: -1, 0 or 1.
pub open spec fn int_order(a: int, b: int) -> int {
    if a < b {
        -1
    } else if a > b {
        1
    } else {
        0
    }
}

/// How text `a` compares with text `b`, character by character by code
/// point, a text that runs out first being smaller (the order of `str`).
pub open spec fn text_order(a: Seq<char>, b: Seq<char>) -> int
    decreases a.len(),
{
    if a.len() == 0 {
        if b.len() == 0 {
            0
        } else {
            -1
        }
    } else if b.len() == 0 {
        1
    } else if (a[0] as int) < (b[0] as int) {
        -1
    } else if (a[0] as int) > (b[0] as int) {
        1
    } else {
        text_order(a.drop_first(), b.drop_first())
    }
}

/// Texts compare as a total order: they compare equal exactly when they are
/// equal, swapping them swaps the outcome, and smaller is transitive.
pub proof fn lemma_text_order_laws(a: Seq<char>, b: Seq<char>, c: Seq<char>)
    ensures
        (text_order(a, b) == 0) == (a == b),
        text_order(a, b) == -text_order(b, a),
        -1 <= text_order(a, b) <= 1,
        text_order(a, b) < 0 && text_order(b, c) < 0 ==> text_order(a, c) < 0,
    decreases a.len(),
{
    if a.len() == 0 || b.len() == 0 {
        if a.len() == 0 && b.len() == 0 {
            assert(a =~= b);
        }
    } else {
        let c1 = if c.len() > 0 {
            c.drop_first()
        } else {
            c
        };
        lemma_text_order_laws(a.drop_first(), b.drop_first(), c1);
        if a[0] == b[0] {
            if a.drop_first() == b.drop_first() {
                assert(a =~= b) by {
                    assert forall|i: int| 0 <= i < a.len() implies a[i] == b[i] by {
                        if i > 0 {
                            assert(a[i] == a.drop_first()[i - 1]);
                            assert(b[i] == b.drop_first()[i - 1]);
                        }
                    }
                }
            }
            if a == b {
                assert(a.drop_first() =~= b.drop_first());
            }
        } else {
            assert(a != b) by {
                if a == b {
                    assert(a[0] == b[0]);
                }
            }
        }
    }
}

/// The strict order that a comparison gives, ascending or descending.
pub open spec fn ordered_before(c: int, ascending: bool) -> bool {
    if ascending {
        c < 0
    } else {
        c > 0
    }
}

/// How `a` compares with `b`, as `text_order` says.
pub fn text_compare(a: &str, b: &str) -> (r: i8)
    ensures
        r == text_order(a@, b@),
{
    let n = a.unicode_len();
    let m = b.unicode_len();
    let mut i: usize = 0;
    assert(a@.skip(0) =~= a@);
    assert(b@.skip(0) =~= b@);
    while i < n && i < m
        invariant
            n == a@.len(),
            m == b@.len(),
            i <= n,
            i <= m,
            text_order(a@, b@) == text_order(a@.skip(i as int), b@.skip(i as int)),
        decreases n - i,
    {
        let x = a.get_char(i);
        let y = b.get_char(i);
        proof {
            assert(a@.skip(i as int)[0] == x);
            assert(b@.skip(i as int)[0] == y);
        }
        if (x as u32) < (y as u32) {
            return -1;
        }
        if (x as u32) > (y as u32) {
            return 1;
        }
        proof {
            assert(a@.skip(i as int).drop_first() =~= a@.skip(i + 1));
            assert(b@.skip(i as int).drop_first() =~= b@.skip(i + 1));
        }
        i = i + 1;
    }
    proof {
        assert(a@.skip(i as int).len() == n - i);
        assert(b@.skip(i as int).len() == m - i);
    }
    if i < n {
        1
    } else if i < m {
        -1
    } else {
        0
    }
}

/// The strict order of items by a key that `rel` compares: `a` goes before
/// `b` where its key is smaller, or larger when sorting descending.
pub open spec fn keyed_before<T, K>(key: spec_fn(T) -> K, rel: spec_fn(K, K) -> int, ascending: bool) -> spec_fn(
    T,
    T,
) -> bool {
    |a: T, b: T| ordered_before(rel(key(a), key(b)), ascending)
}

/// The comparison of texts.
pub open spec fn text_rel() -> spec_fn(Seq<char>, Seq<char>) -> int {
    |x: Seq<char>, y: Seq<char>| text_order(x, y)
}

/// The comparison of numbers.
pub open spec fn int_rel() -> spec_fn(int, int) -> int {
    |x: int, y: int| int_order(x, y)
}

/// `rel` compares as a total order.
pub open spec fn total_rel<K>(rel: spec_fn(K, K) -> int) -> bool {
    &&& forall|x: K, y: K| #[trigger] rel(x, y) == -rel(y, x)
    &&& forall|x: K, y: K| (#[trigger] rel(x, y) == 0) == (x == y)
    &&& forall|x: K, y: K, z: K| #![trigger rel(x, y), rel(y, z)] rel(x, y) < 0 && rel(y, z) < 0 ==> rel(x, z) < 0
}

/// Texts and numbers compare as total orders.
pub proof fn lemma_total_rels()
    ensures
        total_rel(text_rel()),
        total_rel(int_rel()),
{
    assert forall|x: Seq<char>, y: Seq<char>| #[trigger] text_rel()(x, y) == -text_rel()(y, x) by {
        lemma_text_order_laws(x, y, y);
    }
    assert forall|x: Seq<char>, y: Seq<char>| (#[trigger] text_rel()(x, y) == 0) == (x == y) by {
        lemma_text_order_laws(x, y, y);
    }
    assert forall|x: Seq<char>, y: Seq<char>, z: Seq<char>|
        #![trigger text_rel()(x, y), text_rel()(y, z)]
        text_rel()(x, y) < 0 && text_rel()(y, z) < 0 implies text_rel()(x, z) < 0 by {
        lemma_text_order_laws(x, y, z);
    }
}

/// Ordering items by a key that a total order compares is a strict weak
/// order, ascending or descending.
pub proof fn lemma_keyed_strict_weak<T, K>(key: spec_fn(T) -> K, rel: spec_fn(K, K) -> int, ascending: bool)
    requires
        total_rel(rel),
    ensures
        strict_weak(keyed_before(key, rel, ascending)),
{
    let before = keyed_before(key, rel, ascending);
    assert forall|a: T| !#[trigger] before(a, a) by {
        assert(rel(key(a), key(a)) == 0);
    }
    assert forall|a: T, b: T, c: T|
        #![trigger before(a, b), before(b, c)]
        before(a, b) && before(b, c) implies before(a, c) by {
        if ascending {
            assert(rel(key(a), key(b)) < 0 && rel(key(b), key(c)) < 0);
        } else {
            assert(rel(key(b), key(a)) == -rel(key(a), key(b)));
            assert(rel(key(c), key(b)) == -rel(key(b), key(c)));
            assert(rel(key(c), key(b)) < 0 && rel(key(b), key(a)) < 0);
            assert(rel(key(c), key(a)) < 0);
            assert(rel(key(a), key(c)) == -rel(key(c), key(a)));
        }
    }
    assert forall|a: T, b: T, c: T|
        #![trigger before(a, b), before(b, a), before(a, c)]
        !before(a, b) && !before(b, a) && before(a, c) implies before(b, c) by {
        assert(rel(key(b), key(a)) == -rel(key(a), key(b)));
        assert(rel(key(a), key(b)) == 0);
        assert(key(a) == key(b));
    }
    assert forall|a: T, b: T, c: T|
        #![trigger before(a, b), before(b, a), before(c, a)]
        !before(a, b) && !before(b, a) && before(c, a) implies before(c, b) by {
        assert(rel(key(b), key(a)) == -rel(key(a), key(b)));
        assert(rel(key(a), key(b)) == 0);
        assert(key(a) == key(b));
    }
}

} // verus!
