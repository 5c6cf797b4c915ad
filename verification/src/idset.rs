//! Small sets of hashes and of client ids, kept in vectors.

use crate::hash::hash_eq;
use vstd::prelude::*;

verus! {

/// What a sequence holds after one more element was put at its back.
pub proof fn lemma_push_contains<T>(s: Seq<T>, x: T, y: T)
    ensures
        s.push(x).contains(y) <==> s.contains(y) || y == x,
{
    let t = s.push(x);
    if t.contains(y) {
        let i = choose|i: int| 0 <= i < t.len() && t[i] == y;
        if i < s.len() {
            assert(s[i] == y);
        }
    }
    if s.contains(y) {
        let i = choose|i: int| 0 <= i < s.len() && s[i] == y;
        assert(t[i] == y);
    }
    if y == x {
        assert(t[s.len() as int] == y);
    }
}

/// Whether `x` occurs in `v`.
pub fn contains_hash(v: &Vec<crate::hash::Hash>, x: &crate::hash::Hash) -> (r: bool)
    ensures
        r == v@.contains(*x),
{
    let mut i: usize = 0;
    while i < v.len()
        invariant
            0 <= i <= v@.len(),
            forall|j: int| 0 <= j < i ==> v@[j] != *x,
        decreases v@.len() - i,
    {
        if hash_eq(&v[i], x) {
            assert(v@[i as int] == *x);
            return true;
        }
        i = i + 1;
    }
    false
}

/// Adds `x` to the set held in `v` and says whether it was new.
pub fn insert_hash(v: &mut Vec<crate::hash::Hash>, x: crate::hash::Hash) -> (r: bool)
    ensures
        r == !old(v)@.contains(x),
        final(v)@.to_set() == old(v)@.to_set().insert(x),
        !r ==> final(v)@ == old(v)@,
{
    if contains_hash(v, &x) {
        assert(v@.to_set() =~= v@.to_set().insert(x));
        false
    } else {
        v.push(x);
        proof {
            assert forall|y: crate::hash::Hash| v@.contains(y) <==> old(v)@.contains(y) || y == x by {
                lemma_push_contains(old(v)@, x, y);
            }
            assert(v@.to_set() =~= old(v)@.to_set().insert(x));
        }
        true
    }
}

/// Takes every occurrence of `x` out of `v` and says whether there was one.
pub fn remove_hash(v: &mut Vec<crate::hash::Hash>, x: &crate::hash::Hash) -> (r: bool)
    ensures
        r == old(v)@.contains(*x),
        final(v)@.to_set() == old(v)@.to_set().remove(*x),
        !final(v)@.contains(*x),
{
    let mut kept: Vec<crate::hash::Hash> = Vec::new();
    let mut found = false;
    let mut i: usize = 0;
    assert(v@.take(0) =~= Seq::<crate::hash::Hash>::empty());
    while i < v.len()
        invariant
            0 <= i <= v@.len(),
            v@ == old(v)@,
            found == v@.take(i as int).contains(*x),
            forall|y: crate::hash::Hash| kept@.contains(y) <==> v@.take(i as int).contains(y) && y != *x,
        decreases v@.len() - i,
    {
        let item = v[i];
        let ghost a = v@.take(i as int);
        let ghost before = kept@;
        assert(v@.take(i + 1) =~= a.push(item));
        if hash_eq(&item, x) {
            found = true;
        } else {
            kept.push(item);
        }
        proof {
            lemma_push_contains(a, item, *x);
            assert forall|y: crate::hash::Hash| kept@.contains(y) <==> v@.take(i + 1).contains(y)
                && y != *x by {
                lemma_push_contains(a, item, y);
                lemma_push_contains(before, item, y);
                assert(before.contains(y) <==> a.contains(y) && y != *x);
            }
        }
        i = i + 1;
    }
    proof {
        assert(v@.take(v@.len() as int) =~= v@);
        assert(kept@.to_set() =~= old(v)@.to_set().remove(*x));
    }
    *v = kept;
    found
}

/// Whether `x` occurs in `v`.
pub fn contains_id(v: &Vec<usize>, x: usize) -> (r: bool)
    ensures
        r == v@.contains(x),
{
    let mut i: usize = 0;
    while i < v.len()
        invariant
            0 <= i <= v@.len(),
            forall|j: int| 0 <= j < i ==> v@[j] != x,
        decreases v@.len() - i,
    {
        if v[i] == x {
            return true;
        }
        i = i + 1;
    }
    false
}

/// Adds `x` to the set held in `v` and says whether it was new.
pub fn insert_id(v: &mut Vec<usize>, x: usize) -> (r: bool)
    ensures
        r == !old(v)@.contains(x),
        final(v)@.to_set() == old(v)@.to_set().insert(x),
        !r ==> final(v)@ == old(v)@,
{
    if contains_id(v, x) {
        assert(v@.to_set() =~= v@.to_set().insert(x));
        false
    } else {
        v.push(x);
        proof {
            assert forall|y: usize| v@.contains(y) <==> old(v)@.contains(y) || y == x by {
                lemma_push_contains(old(v)@, x, y);
            }
            assert(v@.to_set() =~= old(v)@.to_set().insert(x));
        }
        true
    }
}

/// Takes every occurrence of `x` out of `v` and says whether there was one.
pub fn remove_id(v: &mut Vec<usize>, x: usize) -> (r: bool)
    ensures
        r == old(v)@.contains(x),
        final(v)@.to_set() == old(v)@.to_set().remove(x),
        !final(v)@.contains(x),
{
    let mut kept: Vec<usize> = Vec::new();
    let mut found = false;
    let mut i: usize = 0;
    assert(v@.take(0) =~= Seq::<usize>::empty());
    while i < v.len()
        invariant
            0 <= i <= v@.len(),
            v@ == old(v)@,
            found == v@.take(i as int).contains(x),
            forall|y: usize| kept@.contains(y) <==> v@.take(i as int).contains(y) && y != x,
        decreases v@.len() - i,
    {
        let item = v[i];
        let ghost a = v@.take(i as int);
        let ghost before = kept@;
        assert(v@.take(i + 1) =~= a.push(item));
        if item == x {
            found = true;
        } else {
            kept.push(item);
        }
        proof {
            lemma_push_contains(a, item, x);
            assert forall|y: usize| kept@.contains(y) <==> v@.take(i + 1).contains(y) && y != x by {
                lemma_push_contains(a, item, y);
                lemma_push_contains(before, item, y);
                assert(before.contains(y) <==> a.contains(y) && y != x);
            }
        }
        i = i + 1;
    }
    proof {
        assert(v@.take(v@.len() as int) =~= v@);
        assert(kept@.to_set() =~= old(v)@.to_set().remove(x));
    }
    *v = kept;
    found
}

} // verus!
