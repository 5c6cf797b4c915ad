//! Sequences of entries read as finite maps: each entry has a key, and no
//! key occurs twice.

use vstd::prelude::*;

verus! {

/// No key occurs twice in `s`.
pub open spec fn distinct_keys<E, K>(s: Seq<E>, key: spec_fn(E) -> K) -> bool {
    forall|i: int, j: int| 0 <= i < j < s.len() ==> key(#[trigger] s[i]) != key(#[trigger] s[j])
}

/// Some entry of `s` has the key `k`.
pub open spec fn has_key<E, K>(s: Seq<E>, key: spec_fn(E) -> K, k: K) -> bool {
    exists|i: int| 0 <= i < s.len() && key(#[trigger] s[i]) == k
}

/// The position of an entry of `s` with the key `k`.
pub open spec fn index_of<E, K>(s: Seq<E>, key: spec_fn(E) -> K, k: K) -> int {
    choose|i: int| 0 <= i < s.len() && key(#[trigger] s[i]) == k
}

/// The map that `s` stands for: each key goes to the value of its entry.
pub open spec fn assoc_map<E, K, V>(s: Seq<E>, key: spec_fn(E) -> K, val: spec_fn(E) -> V) -> Map<K, V> {
    Map::new(|k: K| has_key(s, key, k), |k: K| val(s[index_of(s, key, k)]))
}

/// The map holds each entry under its key.
pub proof fn lemma_assoc_at<E, K, V>(s: Seq<E>, key: spec_fn(E) -> K, val: spec_fn(E) -> V, i: int)
    requires
        distinct_keys(s, key),
        0 <= i < s.len(),
    ensures
        has_key(s, key, key(s[i])),
        index_of(s, key, key(s[i])) == i,
        assoc_map(s, key, val).dom().contains(key(s[i])),
        assoc_map(s, key, val)[key(s[i])] == val(s[i]),
{
    let k = index_of(s, key, key(s[i]));
    if k < i {
        assert(key(s[k]) != key(s[i]));
    } else if i < k {
        assert(key(s[i]) != key(s[k]));
    }
}

/// A key without an entry is not in the map.
pub proof fn lemma_assoc_absent<E, K, V>(s: Seq<E>, key: spec_fn(E) -> K, val: spec_fn(E) -> V, k: K)
    requires
        forall|i: int| 0 <= i < s.len() ==> key(#[trigger] s[i]) != k,
    ensures
        !has_key(s, key, k),
        !assoc_map(s, key, val).dom().contains(k),
{
}

/// Replacing an entry by one with the same key replaces its value in the map.
pub proof fn lemma_assoc_update<E, K, V>(s: Seq<E>, key: spec_fn(E) -> K, val: spec_fn(E) -> V, i: int, t: Seq<E>)
    requires
        distinct_keys(s, key),
        0 <= i < s.len(),
        t.len() == s.len(),
        key(t[i]) == key(s[i]),
        forall|j: int| 0 <= j < s.len() && j != i ==> t[j] == s[j],
    ensures
        distinct_keys(t, key),
        assoc_map(t, key, val) == assoc_map(s, key, val).insert(key(s[i]), val(t[i])),
{
    assert forall|a: int, b: int| 0 <= a < b < t.len() implies key(#[trigger] t[a]) != key(#[trigger] t[b]) by {
        assert(key(t[a]) == key(s[a]));
        assert(key(t[b]) == key(s[b]));
        assert(key(s[a]) != key(s[b]));
    }
    assert forall|k: K| has_key(t, key, k) <==> has_key(s, key, k) by {
        if has_key(t, key, k) {
            let x = index_of(t, key, k);
            assert(key(s[x]) == k);
        }
        if has_key(s, key, k) {
            let x = index_of(s, key, k);
            assert(key(t[x]) == k);
        }
    }
    assert forall|k: K| has_key(t, key, k) implies assoc_map(t, key, val)[k] == assoc_map(s, key, val).insert(
        key(s[i]),
        val(t[i]),
    )[k] by {
        let x = index_of(t, key, k);
        lemma_assoc_at(t, key, val, x);
        assert(key(s[x]) == k);
        lemma_assoc_at(s, key, val, x);
    }
    lemma_assoc_at(s, key, val, i);
    assert(assoc_map(t, key, val) =~= assoc_map(s, key, val).insert(key(s[i]), val(t[i])));
}

/// A new entry at the back, under a key that had none, is a new entry in the map.
pub proof fn lemma_assoc_push<E, K, V>(s: Seq<E>, key: spec_fn(E) -> K, val: spec_fn(E) -> V, e: E)
    requires
        distinct_keys(s, key),
        !has_key(s, key, key(e)),
    ensures
        distinct_keys(s.push(e), key),
        assoc_map(s.push(e), key, val) == assoc_map(s, key, val).insert(key(e), val(e)),
{
    let t = s.push(e);
    assert forall|a: int, b: int| 0 <= a < b < t.len() implies key(#[trigger] t[a]) != key(#[trigger] t[b]) by {
        if b < s.len() {
            assert(key(s[a]) != key(s[b]));
        } else {
            assert(key(s[a]) != key(e));
        }
    }
    assert forall|k: K| has_key(t, key, k) <==> has_key(s, key, k) || k == key(e) by {
        if has_key(t, key, k) {
            let x = index_of(t, key, k);
            if x < s.len() {
                assert(key(s[x]) == k);
            }
        }
        if has_key(s, key, k) {
            let x = index_of(s, key, k);
            assert(key(t[x]) == k);
        }
        if k == key(e) {
            assert(key(t[s.len() as int]) == k);
        }
    }
    assert forall|k: K| has_key(t, key, k) implies assoc_map(t, key, val)[k] == assoc_map(s, key, val).insert(
        key(e),
        val(e),
    )[k] by {
        let x = index_of(t, key, k);
        lemma_assoc_at(t, key, val, x);
        if x < s.len() {
            assert(key(s[x]) == k);
            lemma_assoc_at(s, key, val, x);
        }
    }
    assert(assoc_map(t, key, val) =~= assoc_map(s, key, val).insert(key(e), val(e)));
}

/// Taking an entry out takes its key out of the map.
pub proof fn lemma_assoc_remove<E, K, V>(s: Seq<E>, key: spec_fn(E) -> K, val: spec_fn(E) -> V, i: int)
    requires
        distinct_keys(s, key),
        0 <= i < s.len(),
    ensures
        distinct_keys(s.remove(i), key),
        assoc_map(s.remove(i), key, val) == assoc_map(s, key, val).remove(key(s[i])),
{
    let t = s.remove(i);
    assert forall|a: int| 0 <= a < t.len() implies #[trigger] t[a] == s[if a < i { a } else { a + 1 }] by {}
    assert forall|a: int, b: int| 0 <= a < b < t.len() implies key(#[trigger] t[a]) != key(#[trigger] t[b]) by {
        let a2 = if a < i { a } else { a + 1 };
        let b2 = if b < i { b } else { b + 1 };
        assert(key(s[a2]) != key(s[b2]));
    }
    assert forall|k: K| has_key(t, key, k) <==> has_key(s, key, k) && k != key(s[i]) by {
        if has_key(t, key, k) {
            let x = index_of(t, key, k);
            let x2 = if x < i { x } else { x + 1 };
            assert(key(s[x2]) == k);
            if x2 < i {
                assert(key(s[x2]) != key(s[i]));
            } else {
                assert(key(s[i]) != key(s[x2]));
            }
        }
        if has_key(s, key, k) && k != key(s[i]) {
            let x = index_of(s, key, k);
            let x2 = if x < i { x } else { x - 1 };
            assert(key(t[x2]) == k);
        }
    }
    assert forall|k: K| has_key(t, key, k) implies assoc_map(t, key, val)[k] == assoc_map(s, key, val).remove(
        key(s[i]),
    )[k] by {
        let x = index_of(t, key, k);
        lemma_assoc_at(t, key, val, x);
        let x2 = if x < i { x } else { x + 1 };
        assert(key(s[x2]) == k);
        lemma_assoc_at(s, key, val, x2);
    }
    assert(assoc_map(t, key, val) =~= assoc_map(s, key, val).remove(key(s[i])));
}

/// Two sequences that agree in key and value at each position stand for
/// the same map.
pub proof fn lemma_assoc_congruent<E, K, V>(s: Seq<E>, t: Seq<E>, key: spec_fn(E) -> K, val: spec_fn(E) -> V)
    requires
        distinct_keys(s, key),
        s.len() == t.len(),
        forall|i: int| 0 <= i < s.len() ==> key(#[trigger] s[i]) == key(t[i]) && val(s[i]) == val(t[i]),
    ensures
        distinct_keys(t, key),
        assoc_map(t, key, val) == assoc_map(s, key, val),
{
    assert forall|a: int, b: int| 0 <= a < b < t.len() implies key(#[trigger] t[a]) != key(#[trigger] t[b]) by {
        assert(key(s[a]) == key(t[a]));
        assert(key(s[b]) == key(t[b]));
        assert(key(s[a]) != key(s[b]));
    }
    assert forall|k: K| has_key(t, key, k) <==> has_key(s, key, k) by {
        if has_key(t, key, k) {
            let x = index_of(t, key, k);
            assert(key(s[x]) == k);
        }
        if has_key(s, key, k) {
            let x = index_of(s, key, k);
            assert(key(s[x]) == key(t[x]));
        }
    }
    assert forall|k: K| has_key(t, key, k) implies assoc_map(t, key, val)[k] == assoc_map(s, key, val)[k] by {
        let x = index_of(t, key, k);
        lemma_assoc_at(t, key, val, x);
        assert(key(s[x]) == k);
        lemma_assoc_at(s, key, val, x);
        assert(val(s[x]) == val(t[x]));
    }
    assert(assoc_map(t, key, val) =~= assoc_map(s, key, val));
}

} // verus!
