//! Tables of key/value pairs held in a sequence with no key twice, and the
//! map such a table stands for.
use vstd::prelude::*;

verus! {

/// No key occurs twice.
pub open spec fn unique_keys<K, V>(s: Seq<(K, V)>) -> bool {
    forall|i: int, j: int| 0 <= i < j < s.len() ==> #[trigger] s[i].0 != #[trigger] s[j].0
}

/// Some position holds key `k`.
pub open spec fn has_key<K, V>(s: Seq<(K, V)>, k: K) -> bool {
    exists|i: int| 0 <= i < s.len() && #[trigger] s[i].0 == k
}

/// The map the table stands for.
pub open spec fn keyed_map<K, V>(s: Seq<(K, V)>) -> Map<K, V> {
    Map::new(
        |k: K| has_key(s, k),
        |k: K| s[choose|i: int| 0 <= i < s.len() && #[trigger] s[i].0 == k].1,
    )
}

/// What a map holds under `k`, if anything.
pub open spec fn map_get<K, V>(m: Map<K, V>, k: K) -> Option<V> {
    if m.contains_key(k) {
        Some(m[k])
    } else {
        None
    }
}

/// The entry at `i` is what the map gives for its key.
pub proof fn lemma_keyed_at<K, V>(s: Seq<(K, V)>, i: int)
    requires
        unique_keys(s),
        0 <= i < s.len(),
    ensures
        keyed_map(s).contains_key(s[i].0),
        keyed_map(s)[s[i].0] == s[i].1,
{
    let k = s[i].0;
    assert(s[i].0 == k);
    let j = choose|j: int| 0 <= j < s.len() && #[trigger] s[j].0 == k;
    assert(0 <= j < s.len() && s[j].0 == k);
    if j != i {
        if j < i {
            assert(s[j].0 != s[i].0);
        } else {
            assert(s[i].0 != s[j].0);
        }
    }
}

/// A key at no position is not in the map.
pub proof fn lemma_keyed_absent<K, V>(s: Seq<(K, V)>, k: K)
    requires
        forall|i: int| 0 <= i < s.len() ==> #[trigger] s[i].0 != k,
    ensures
        !keyed_map(s).contains_key(k),
{
}

/// Replacing the entry at `i` by one with the same key writes that key.
pub proof fn lemma_keyed_update<K, V>(s: Seq<(K, V)>, i: int, e: (K, V))
    requires
        unique_keys(s),
        0 <= i < s.len(),
        e.0 == s[i].0,
    ensures
        unique_keys(s.update(i, e)),
        keyed_map(s.update(i, e)) == keyed_map(s).insert(e.0, e.1),
{
    let t = s.update(i, e);
    assert(unique_keys(t)) by {
        assert forall|a: int, b: int| 0 <= a < b < t.len() implies #[trigger] t[a].0 != #[trigger] t[b].0 by {
            assert(s[a].0 != s[b].0);
        }
    }
    let m = keyed_map(s).insert(e.0, e.1);
    assert forall|k: K| #[trigger] keyed_map(t).contains_key(k) <==> m.contains_key(k) by {
        if keyed_map(t).contains_key(k) {
            let j = choose|j: int| 0 <= j < t.len() && #[trigger] t[j].0 == k;
            if j != i {
                assert(s[j].0 == k);
            }
        }
        if m.contains_key(k) && k != e.0 {
            let j = choose|j: int| 0 <= j < s.len() && #[trigger] s[j].0 == k;
            assert(t[j].0 == k);
        }
        if k == e.0 {
            assert(t[i].0 == k);
        }
    }
    assert forall|k: K| #[trigger] keyed_map(t).contains_key(k) implies keyed_map(t)[k] == m[k] by {
        let j = choose|j: int| 0 <= j < t.len() && #[trigger] t[j].0 == k;
        lemma_keyed_at(t, j);
        if j != i {
            assert(s[j] == t[j]);
            lemma_keyed_at(s, j);
        }
    }
    assert(keyed_map(t) =~= m);
}

/// Appending an entry whose key is new writes that key.
pub proof fn lemma_keyed_push<K, V>(s: Seq<(K, V)>, e: (K, V))
    requires
        unique_keys(s),
        !has_key(s, e.0),
    ensures
        unique_keys(s.push(e)),
        keyed_map(s.push(e)) == keyed_map(s).insert(e.0, e.1),
{
    let t = s.push(e);
    assert(unique_keys(t)) by {
        assert forall|a: int, b: int| 0 <= a < b < t.len() implies #[trigger] t[a].0 != #[trigger] t[b].0 by {
            if b == s.len() {
                assert(s[a].0 == t[a].0);
            } else {
                assert(s[a].0 != s[b].0);
            }
        }
    }
    let m = keyed_map(s).insert(e.0, e.1);
    assert forall|k: K| #[trigger] keyed_map(t).contains_key(k) <==> m.contains_key(k) by {
        if keyed_map(t).contains_key(k) {
            let j = choose|j: int| 0 <= j < t.len() && #[trigger] t[j].0 == k;
            if j < s.len() {
                assert(s[j].0 == k);
            }
        }
        if m.contains_key(k) && k != e.0 {
            let j = choose|j: int| 0 <= j < s.len() && #[trigger] s[j].0 == k;
            assert(t[j].0 == k);
        }
        if k == e.0 {
            assert(t[s.len() as int].0 == k);
        }
    }
    assert forall|k: K| #[trigger] keyed_map(t).contains_key(k) implies keyed_map(t)[k] == m[k] by {
        let j = choose|j: int| 0 <= j < t.len() && #[trigger] t[j].0 == k;
        lemma_keyed_at(t, j);
        if j < s.len() {
            assert(s[j] == t[j]);
            lemma_keyed_at(s, j);
        }
    }
    assert(keyed_map(t) =~= m);
}

} // verus!
