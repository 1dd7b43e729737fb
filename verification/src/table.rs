//! Keyed tables held as sequences of `(key, value)` pairs whose keys are all
//! different, and the maps that they stand for.

use vstd::prelude::*;

verus! {

/// No key occurs twice in `s`.
pub open spec fn distinct_keys<K, V>(s: Seq<(K, V)>) -> bool {
    forall|i: int, j: int| 0 <= i < s.len() && 0 <= j < s.len() && i != j ==> s[i].0 != s[j].0
}

/// `k` is the key of one of the pairs of `s`.
pub open spec fn has_key<K, V>(s: Seq<(K, V)>, k: K) -> bool {
    exists|i: int| 0 <= i < s.len() && s[i].0 == k
}

/// The map that the pairs of `s` stand for.
pub open spec fn keyed_map<K, V>(s: Seq<(K, V)>) -> Map<K, V> {
    Map::new(
        |k: K| has_key(s, k),
        |k: K| s[choose|i: int| 0 <= i < s.len() && s[i].0 == k].1,
    )
}

/// In a sequence with distinct keys, the map gives each key the value of its
/// own pair.
pub proof fn lemma_keyed_map_at<K, V>(s: Seq<(K, V)>, i: int)
    requires
        distinct_keys(s),
        0 <= i < s.len(),
    ensures
        keyed_map(s).contains_key(s[i].0),
        keyed_map(s)[s[i].0] == s[i].1,
{
    let k = s[i].0;
    assert(has_key(s, k));
    let j = choose|j: int| 0 <= j < s.len() && s[j].0 == k;
    assert(j == i);
}

/// A key that no pair holds is outside the map.
pub proof fn lemma_keyed_map_absent<K, V>(s: Seq<(K, V)>, k: K)
    requires
        forall|i: int| 0 <= i < s.len() ==> s[i].0 != k,
    ensures
        !keyed_map(s).contains_key(k),
{
}

/// Replacing the value of pair `i` replaces the value of its key in the map.
pub proof fn lemma_keyed_map_update<K, V>(s: Seq<(K, V)>, i: int, v: V)
    requires
        distinct_keys(s),
        0 <= i < s.len(),
    ensures
        distinct_keys(s.update(i, (s[i].0, v))),
        keyed_map(s.update(i, (s[i].0, v))) == keyed_map(s).insert(s[i].0, v),
{
    let t = s.update(i, (s[i].0, v));
    assert(distinct_keys(t)) by {
        assert forall|a: int, b: int| 0 <= a < t.len() && 0 <= b < t.len() && a != b implies t[a].0
            != t[b].0 by {
            assert(t[a].0 == s[a].0);
            assert(t[b].0 == s[b].0);
        }
    }
    let m = keyed_map(s).insert(s[i].0, v);
    assert forall|k: K| #[trigger] keyed_map(t).contains_key(k) <==> m.contains_key(k) by {
        if has_key(s, k) {
            let j = choose|j: int| 0 <= j < s.len() && s[j].0 == k;
            assert(t[j].0 == k);
        }
        if has_key(t, k) {
            let j = choose|j: int| 0 <= j < t.len() && t[j].0 == k;
            assert(s[j].0 == k);
        }
    }
    assert forall|k: K| #[trigger] keyed_map(t).contains_key(k) implies keyed_map(t)[k] == m[k] by {
        let j = choose|j: int| 0 <= j < t.len() && t[j].0 == k;
        lemma_keyed_map_at(t, j);
        assert(s[j].0 == k);
        lemma_keyed_map_at(s, j);
    }
    assert(keyed_map(t) =~= m);
}

/// Appending a pair with a new key inserts it into the map.
pub proof fn lemma_keyed_map_push<K, V>(s: Seq<(K, V)>, k: K, v: V)
    requires
        distinct_keys(s),
        !has_key(s, k),
    ensures
        distinct_keys(s.push((k, v))),
        keyed_map(s.push((k, v))) == keyed_map(s).insert(k, v),
{
    let t = s.push((k, v));
    assert(distinct_keys(t)) by {
        assert forall|a: int, b: int| 0 <= a < t.len() && 0 <= b < t.len() && a != b implies t[a].0
            != t[b].0 by {
            if a < s.len() && b < s.len() {
                assert(t[a] == s[a] && t[b] == s[b]);
            } else if a < s.len() {
                assert(t[a] == s[a]);
            } else if b < s.len() {
                assert(t[b] == s[b]);
            }
        }
    }
    let m = keyed_map(s).insert(k, v);
    assert forall|x: K| #[trigger] keyed_map(t).contains_key(x) <==> m.contains_key(x) by {
        if has_key(s, x) {
            let j = choose|j: int| 0 <= j < s.len() && s[j].0 == x;
            assert(t[j].0 == x);
        }
        if x == k {
            assert(t[s.len() as int].0 == k);
        }
        if has_key(t, x) && x != k {
            let j = choose|j: int| 0 <= j < t.len() && t[j].0 == x;
            assert(j < s.len());
            assert(s[j].0 == x);
        }
    }
    assert forall|x: K| #[trigger] keyed_map(t).contains_key(x) implies keyed_map(t)[x] == m[x] by {
        let j = choose|j: int| 0 <= j < t.len() && t[j].0 == x;
        lemma_keyed_map_at(t, j);
        if j < s.len() {
            assert(s[j] == t[j]);
            lemma_keyed_map_at(s, j);
        }
    }
    assert(keyed_map(t) =~= m);
}

/// A prefix of a sequence with distinct keys has distinct keys.
pub proof fn lemma_distinct_take<K, V>(s: Seq<(K, V)>, i: int)
    requires
        distinct_keys(s),
        0 <= i <= s.len(),
    ensures
        distinct_keys(s.take(i)),
{
    assert forall|a: int, b: int| 0 <= a < i && 0 <= b < i && a != b implies s.take(i)[a].0 != s.take(
        i,
    )[b].0 by {
        assert(s.take(i)[a] == s[a] && s.take(i)[b] == s[b]);
    }
}

/// The empty sequence stands for the empty map.
pub proof fn lemma_keyed_map_empty<K, V>()
    ensures
        distinct_keys(Seq::<(K, V)>::empty()),
        keyed_map(Seq::<(K, V)>::empty()) == Map::<K, V>::empty(),
{
    assert(keyed_map(Seq::<(K, V)>::empty()) =~= Map::<K, V>::empty());
}

/// The keys of `m` whose value meets `p`.
pub open spec fn keys_where<K, V>(m: Map<K, V>, p: spec_fn(V) -> bool) -> Set<K> {
    m.dom().filter(|k: K| p(m[k]))
}

/// How many pairs of `s` have a value that meets `p`.
pub open spec fn count_where<K, V>(s: Seq<(K, V)>, p: spec_fn(V) -> bool) -> nat
    decreases s.len(),
{
    if s.len() == 0 {
        0
    } else {
        count_where(s.drop_last(), p) + if p(s.last().1) {
            1nat
        } else {
            0nat
        }
    }
}

/// In a sequence with distinct keys, the keys whose value meets `p` are as
/// many as the pairs whose value meets it.
pub proof fn lemma_keys_where_count<K, V>(s: Seq<(K, V)>, p: spec_fn(V) -> bool)
    requires
        distinct_keys(s),
    ensures
        keys_where(keyed_map(s), p).finite(),
        keys_where(keyed_map(s), p).len() == count_where(s, p),
    decreases s.len(),
{
    if s.len() == 0 {
        lemma_keyed_map_empty::<K, V>();
        assert(keys_where(keyed_map(s), p) =~= Set::<K>::empty());
    } else {
        let t = s.drop_last();
        let (k, v) = s.last();
        assert(distinct_keys(t)) by {
            assert forall|a: int, b: int| 0 <= a < t.len() && 0 <= b < t.len() && a != b implies t[a].0
                != t[b].0 by {
                assert(t[a] == s[a] && t[b] == s[b]);
            }
        }
        assert(!has_key(t, k)) by {
            if has_key(t, k) {
                let j = choose|j: int| 0 <= j < t.len() && #[trigger] t[j].0 == k;
                assert(s[j].0 == s[s.len() - 1].0);
            }
        }
        assert(t.push((k, v)) =~= s);
        lemma_keyed_map_push(t, k, v);
        lemma_keys_where_count(t, p);
        let m = keyed_map(t);
        let before = keys_where(m, p);
        assert(!m.contains_key(k));
        if p(v) {
            assert(keys_where(keyed_map(s), p) =~= before.insert(k));
        } else {
            assert(keys_where(keyed_map(s), p) =~= before);
        }
    }
}

} // verus!
