//! Sequences of (key, value) pairs read as maps.
use vstd::prelude::*;

verus! {

/// No key occurs twice.
pub open spec fn keys_distinct<K, V>(s: Seq<(K, V)>) -> bool {
    forall|i: int, j: int| 0 <= i < s.len() && 0 <= j < s.len() && i != j ==> s[i].0 != s[j].0
}

/// Whether `k` occurs as a key.
pub open spec fn has_key<K, V>(s: Seq<(K, V)>, k: K) -> bool {
    exists|i: int| 0 <= i < s.len() && s[i].0 == k
}

/// A position holding key `k`.
pub open spec fn index_of_key<K, V>(s: Seq<(K, V)>, k: K) -> int {
    choose|i: int| 0 <= i < s.len() && s[i].0 == k
}

/// The map from each key to the value beside it.
pub open spec fn to_map<K, V>(s: Seq<(K, V)>) -> Map<K, V> {
    Map::new(|k: K| has_key(s, k), |k: K| s[index_of_key(s, k)].1)
}

/// With distinct keys, each pair is an entry of the map.
pub proof fn lemma_to_map_index<K, V>(s: Seq<(K, V)>, i: int)
    requires
        keys_distinct(s),
        0 <= i < s.len(),
    ensures
        index_of_key(s, s[i].0) == i,
        to_map(s).contains_key(s[i].0),
        to_map(s)[s[i].0] == s[i].1,
{
    assert(has_key(s, s[i].0));
}

/// A key found in the map sits at some position.
pub proof fn lemma_to_map_key<K, V>(s: Seq<(K, V)>, k: K)
    requires
        to_map(s).contains_key(k),
    ensures
        0 <= index_of_key(s, k) < s.len(),
        s[index_of_key(s, k)].0 == k,
{
}

/// Appending a pair with a new key adds one entry.
pub proof fn lemma_to_map_push<K, V>(s: Seq<(K, V)>, k: K, v: V)
    requires
        keys_distinct(s),
        !to_map(s).contains_key(k),
    ensures
        keys_distinct(s.push((k, v))),
        to_map(s.push((k, v))) == to_map(s).insert(k, v),
{
    let t = s.push((k, v));
    assert forall|i: int, j: int| 0 <= i < t.len() && 0 <= j < t.len() && i != j implies t[i].0 != t[j].0 by {
        if i == s.len() {
            assert(!has_key(s, k));
            assert(t[j] == s[j]);
        } else if j == s.len() {
            assert(!has_key(s, k));
            assert(t[i] == s[i]);
        } else {
            assert(t[i] == s[i] && t[j] == s[j]);
        }
    }
    assert forall|x: K| #[trigger] to_map(t).contains_key(x) == to_map(s).insert(k, v).contains_key(x) by {
        if has_key(s, x) {
            let i = index_of_key(s, x);
            assert(t[i] == s[i]);
        }
        if x == k {
            assert(t[s.len() as int].0 == k);
        }
        if has_key(t, x) && x != k {
            let i = index_of_key(t, x);
            assert(i != s.len());
            assert(s[i] == t[i]);
        }
    }
    assert forall|x: K| to_map(t).contains_key(x) implies #[trigger] to_map(t)[x] == to_map(s).insert(k, v)[x] by {
        if x == k {
            lemma_to_map_index(t, s.len() as int);
        } else {
            let i = index_of_key(s, x);
            assert(has_key(s, x)) by {
                let j = index_of_key(t, x);
                assert(j != s.len());
                assert(s[j] == t[j]);
            }
            assert(t[i] == s[i]);
            lemma_to_map_index(t, i);
        }
    }
    assert(to_map(t) =~= to_map(s).insert(k, v));
}

/// Removing the pair at position `i` removes its entry.
pub proof fn lemma_to_map_remove<K, V>(s: Seq<(K, V)>, i: int)
    requires
        keys_distinct(s),
        0 <= i < s.len(),
    ensures
        keys_distinct(s.remove(i)),
        to_map(s.remove(i)) == to_map(s).remove(s[i].0),
{
    let t = s.remove(i);
    let k = s[i].0;
    assert forall|a: int| 0 <= a < t.len() implies #[trigger] t[a] == s[if a < i { a } else { a + 1 }] by {}
    assert forall|a: int, b: int| 0 <= a < t.len() && 0 <= b < t.len() && a != b implies t[a].0 != t[b].0 by {
        assert(t[a] == s[if a < i { a } else { a + 1 }]);
        assert(t[b] == s[if b < i { b } else { b + 1 }]);
    }
    assert forall|x: K| #[trigger] to_map(t).contains_key(x) == to_map(s).remove(k).contains_key(x) by {
        if has_key(t, x) {
            let a = index_of_key(t, x);
            let b = if a < i { a } else { a + 1 };
            assert(t[a] == s[b]);
            assert(b != i);
        }
        if has_key(s, x) && x != k {
            let b = index_of_key(s, x);
            assert(b != i);
            let a = if b < i { b } else { b - 1 };
            assert(t[a] == s[b]);
        }
    }
    assert forall|x: K| to_map(t).contains_key(x) implies #[trigger] to_map(t)[x] == to_map(s).remove(k)[x] by {
        let a = index_of_key(t, x);
        let b = if a < i { a } else { a + 1 };
        assert(t[a] == s[b]);
        lemma_to_map_index(t, a);
        lemma_to_map_index(s, b);
    }
    assert(to_map(t) =~= to_map(s).remove(k));
}

/// Two sequences with the same keys at every position give maps with the
/// same keys, each mapped to the value at its position in the second.
pub proof fn lemma_to_map_same_keys<K, V, W>(s: Seq<(K, V)>, t: Seq<(K, W)>)
    requires
        keys_distinct(s),
        s.len() == t.len(),
        forall|i: int| 0 <= i < s.len() ==> #[trigger] t[i].0 == s[i].0,
    ensures
        keys_distinct(t),
        to_map(t).dom() == to_map(s).dom(),
        forall|i: int| 0 <= i < s.len() ==> index_of_key(t, #[trigger] s[i].0) == i && to_map(t)[s[i].0] == t[i].1,
{
    assert forall|a: int, b: int| 0 <= a < t.len() && 0 <= b < t.len() && a != b implies t[a].0 != t[b].0 by {
        assert(t[a].0 == s[a].0 && t[b].0 == s[b].0);
    }
    assert forall|x: K| #[trigger] to_map(t).contains_key(x) == to_map(s).contains_key(x) by {
        if has_key(t, x) {
            let a = index_of_key(t, x);
            assert(s[a].0 == x);
        }
        if has_key(s, x) {
            let a = index_of_key(s, x);
            assert(t[a].0 == x);
        }
    }
    assert(to_map(t).dom() =~= to_map(s).dom());
    assert forall|i: int| 0 <= i < s.len() implies index_of_key(t, #[trigger] s[i].0) == i && to_map(t)[s[i].0] == t[i].1 by {
        lemma_to_map_index(t, i);
    }
}

/// Replacing the value at position `i` replaces the entry of its key.
pub proof fn lemma_to_map_update<K, V>(s: Seq<(K, V)>, i: int, v: V)
    requires
        keys_distinct(s),
        0 <= i < s.len(),
    ensures
        keys_distinct(s.update(i, (s[i].0, v))),
        to_map(s.update(i, (s[i].0, v))) == to_map(s).insert(s[i].0, v),
{
    let t = s.update(i, (s[i].0, v));
    assert forall|j: int| 0 <= j < s.len() implies #[trigger] t[j].0 == s[j].0 by {}
    lemma_to_map_same_keys(s, t);
    lemma_to_map_index(s, i);
    assert forall|k: K| #[trigger] to_map(t).contains_key(k) implies to_map(t)[k] == to_map(s).insert(s[i].0, v)[k] by {
        lemma_to_map_key(s, k);
        let j = index_of_key(s, k);
        lemma_to_map_index(s, j);
    }
    assert(to_map(t) =~= to_map(s).insert(s[i].0, v));
}

} // verus!
