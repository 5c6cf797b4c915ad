//! Version vectors: one counter for each writer, ordered pointwise.

use crate::hash::{hash_eq, Order};
use vstd::prelude::*;

verus! {

/// The counter of one writer.
#[derive(Clone, Copy, Debug)]
pub struct VersionEntry {
    pub writer: crate::hash::Hash,
    pub counter: u64,
}

/// No writer has two entries in `s`.
pub open spec fn distinct_writers(s: Seq<VersionEntry>) -> bool {
    forall|i: int, j: int| 0 <= i < j < s.len() ==> (#[trigger] s[i]).writer != (#[trigger] s[j]).writer
}

/// `writer` has an entry in `s`.
pub open spec fn has_writer(s: Seq<VersionEntry>, writer: crate::hash::Hash) -> bool {
    exists|i: int| 0 <= i < s.len() && (#[trigger] s[i]).writer == writer
}

/// The position of the entry of `writer` in `s`.
pub open spec fn writer_index(s: Seq<VersionEntry>, writer: crate::hash::Hash) -> int {
    choose|i: int| 0 <= i < s.len() && (#[trigger] s[i]).writer == writer
}

/// The entries of `s` as a map from writer to counter.
pub open spec fn counters(s: Seq<VersionEntry>) -> Map<crate::hash::Hash, u64> {
    Map::new(|w: crate::hash::Hash| has_writer(s, w), |w: crate::hash::Hash| s[writer_index(s, w)].counter)
}

/// The counter of `writer` in `m`; a writer without an entry stands at zero.
pub open spec fn count_in(m: Map<crate::hash::Hash, u64>, writer: crate::hash::Hash) -> nat {
    if m.dom().contains(writer) {
        m[writer] as nat
    } else {
        0
    }
}

/// `a` is below `b` or level with it: no writer stands higher in `a` than in `b`.
pub open spec fn vv_le(a: Map<crate::hash::Hash, u64>, b: Map<crate::hash::Hash, u64>) -> bool {
    forall|w: crate::hash::Hash| #[trigger] count_in(a, w) <= count_in(b, w)
}

/// `a` happened before `b`: it is below `b` and some writer stands lower in it.
pub open spec fn vv_lt(a: Map<crate::hash::Hash, u64>, b: Map<crate::hash::Hash, u64>) -> bool {
    vv_le(a, b) && !vv_le(b, a)
}

/// Every writer stands at the same count in both.
pub open spec fn vv_level(a: Map<crate::hash::Hash, u64>, b: Map<crate::hash::Hash, u64>) -> bool {
    vv_le(a, b) && vv_le(b, a)
}

/// Neither happened before the other, and they are not level.
pub open spec fn vv_concurrent(a: Map<crate::hash::Hash, u64>, b: Map<crate::hash::Hash, u64>) -> bool {
    !vv_le(a, b) && !vv_le(b, a)
}

/// The map holds each entry under its writer.
pub proof fn lemma_counters_at(s: Seq<VersionEntry>, i: int)
    requires
        distinct_writers(s),
        0 <= i < s.len(),
    ensures
        has_writer(s, s[i].writer),
        writer_index(s, s[i].writer) == i,
        counters(s).dom().contains(s[i].writer),
        counters(s)[s[i].writer] == s[i].counter,
{
    let k = writer_index(s, s[i].writer);
    if k < i {
        assert(s[k].writer != s[i].writer);
    } else if i < k {
        assert(s[i].writer != s[k].writer);
    }
}

/// Replacing the counter of an entry replaces it in the map.
pub proof fn lemma_counters_update(s: Seq<VersionEntry>, i: int, t: Seq<VersionEntry>)
    requires
        distinct_writers(s),
        0 <= i < s.len(),
        t.len() == s.len(),
        t[i].writer == s[i].writer,
        forall|j: int| 0 <= j < s.len() && j != i ==> t[j] == s[j],
    ensures
        distinct_writers(t),
        counters(t) == counters(s).insert(s[i].writer, t[i].counter),
{
    assert forall|a: int, b: int| 0 <= a < b < t.len() implies (#[trigger] t[a]).writer != (#[trigger] t[b]).writer by {
        assert(t[a].writer == s[a].writer);
        assert(t[b].writer == s[b].writer);
        assert(s[a].writer != s[b].writer);
    }
    assert forall|w: crate::hash::Hash| has_writer(t, w) <==> has_writer(s, w) by {
        if has_writer(t, w) {
            let k = writer_index(t, w);
            assert(s[k].writer == w);
        }
        if has_writer(s, w) {
            let k = writer_index(s, w);
            assert(t[k].writer == w);
        }
    }
    assert forall|w: crate::hash::Hash| has_writer(t, w) implies counters(t)[w] == counters(s).insert(
        s[i].writer,
        t[i].counter,
    )[w] by {
        let k = writer_index(t, w);
        lemma_counters_at(t, k);
        assert(s[k].writer == w);
        lemma_counters_at(s, k);
    }
    lemma_counters_at(s, i);
    assert(counters(t) =~= counters(s).insert(s[i].writer, t[i].counter));
}

/// A new entry at the back is a new entry in the map.
pub proof fn lemma_counters_push(s: Seq<VersionEntry>, e: VersionEntry)
    requires
        distinct_writers(s),
        !has_writer(s, e.writer),
    ensures
        distinct_writers(s.push(e)),
        counters(s.push(e)) == counters(s).insert(e.writer, e.counter),
{
    let t = s.push(e);
    assert forall|a: int, b: int| 0 <= a < b < t.len() implies (#[trigger] t[a]).writer != (#[trigger] t[b]).writer by {
        if b < s.len() {
            assert(s[a].writer != s[b].writer);
        } else {
            assert(s[a].writer != e.writer);
        }
    }
    assert forall|w: crate::hash::Hash| has_writer(t, w) <==> has_writer(s, w) || w == e.writer by {
        if has_writer(t, w) {
            let k = writer_index(t, w);
            if k < s.len() {
                assert(s[k].writer == w);
            }
        }
        if has_writer(s, w) {
            let k = writer_index(s, w);
            assert(t[k].writer == w);
        }
        if w == e.writer {
            assert(t[s.len() as int].writer == w);
        }
    }
    assert forall|w: crate::hash::Hash| has_writer(t, w) implies counters(t)[w] == counters(s).insert(
        e.writer,
        e.counter,
    )[w] by {
        let k = writer_index(t, w);
        lemma_counters_at(t, k);
        if k < s.len() {
            assert(s[k].writer == w);
            lemma_counters_at(s, k);
        }
    }
    assert(counters(t) =~= counters(s).insert(e.writer, e.counter));
}

/// Finds the entry of `writer`.
fn find_writer(entries: &Vec<VersionEntry>, writer: &crate::hash::Hash) -> (r: Option<usize>)
    ensures
        match r {
            Some(i) => i < entries@.len() && entries@[i as int].writer == *writer,
            None => !has_writer(entries@, *writer),
        },
{
    let mut i: usize = 0;
    while i < entries.len()
        invariant
            0 <= i <= entries@.len(),
            forall|j: int| 0 <= j < i ==> (#[trigger] entries@[j]).writer != *writer,
        decreases entries@.len() - i,
    {
        if hash_eq(&entries[i].writer, writer) {
            return Some(i);
        }
        i = i + 1;
    }
    None
}

/// For each writer, how many versions it has made.
#[derive(Debug)]
pub struct VersionVector {
    entries: Vec<VersionEntry>,
}

impl View for VersionVector {
    type V = Map<crate::hash::Hash, u64>;

    closed spec fn view(&self) -> Map<crate::hash::Hash, u64> {
        counters(self.entries@)
    }
}

impl Clone for VersionVector {
    fn clone(&self) -> (r: Self)
        ensures
            r@ == self@,
            self.wf() ==> r.wf(),
    {
        let mut entries: Vec<VersionEntry> = Vec::new();
        let mut i: usize = 0;
        while i < self.entries.len()
            invariant
                0 <= i <= self.entries@.len(),
                entries@ == self.entries@.take(i as int),
            decreases self.entries@.len() - i,
        {
            entries.push(self.entries[i]);
            assert(self.entries@.take(i + 1) =~= self.entries@.take(i as int).push(self.entries@[i as int]));
            i = i + 1;
        }
        assert(self.entries@.take(self.entries@.len() as int) =~= self.entries@);
        VersionVector { entries }
    }
}

impl VersionVector {
    /// No writer has two counters.
    pub closed spec fn wf(&self) -> bool {
        distinct_writers(self.entries@)
    }

    /// The count that `writer` stands at.
    pub open spec fn count(&self, writer: crate::hash::Hash) -> nat {
        count_in(self@, writer)
    }

    /// The vector in which every writer stands at zero.
    pub fn new() -> (r: Self)
        ensures
            r.wf(),
            r@ == Map::<crate::hash::Hash, u64>::empty(),
    {
        let r = VersionVector { entries: Vec::new() };
        assert(r@ =~= Map::<crate::hash::Hash, u64>::empty());
        r
    }

    /// The vector of the first version that `writer` makes: it stands at
    /// one, everyone else at zero.
    pub fn first(writer: crate::hash::Hash) -> (r: Self)
        ensures
            r.wf(),
            r@ == Map::<crate::hash::Hash, u64>::empty().insert(writer, 1),
    {
        let mut entries: Vec<VersionEntry> = Vec::new();
        let entry = VersionEntry { writer, counter: 1 };
        proof {
            lemma_counters_push(entries@, entry);
            assert(counters(entries@) =~= Map::<crate::hash::Hash, u64>::empty());
        }
        entries.push(entry);
        VersionVector { entries }
    }

    /// The count that `writer` stands at.
    pub fn get(&self, writer: &crate::hash::Hash) -> (r: u64)
        requires
            self.wf(),
        ensures
            r == self.count(*writer),
    {
        match find_writer(&self.entries, writer) {
            Some(i) => {
                proof {
                    lemma_counters_at(self.entries@, i as int);
                }
                self.entries[i].counter
            },
            None => 0,
        }
    }

    /// Sets the count of `writer`.
    pub fn set(&mut self, writer: crate::hash::Hash, counter: u64)
        requires
            old(self).wf(),
        ensures
            final(self).wf(),
            final(self)@ == old(self)@.insert(writer, counter),
    {
        match find_writer(&self.entries, &writer) {
            Some(i) => {
                self.entries[i].counter = counter;
                proof {
                    lemma_counters_update(old(self).entries@, i as int, self.entries@);
                }
            },
            None => {
                let entry = VersionEntry { writer, counter };
                proof {
                    lemma_counters_push(self.entries@, entry);
                }
                self.entries.push(entry);
            },
        }
    }

    /// Counts one more version of `writer`.
    pub fn increment(&mut self, writer: crate::hash::Hash)
        requires
            old(self).wf(),
            old(self).count(writer) < u64::MAX,
        ensures
            final(self).wf(),
            final(self)@ == old(self)@.insert(writer, (old(self).count(writer) + 1) as u64),
    {
        let current = self.get(&writer);
        self.set(writer, current + 1);
    }

    /// The writers with their counts, in no particular order.
    pub fn entries(&self) -> (r: &Vec<VersionEntry>)
        ensures
            counters(r@) == self@,
            self.wf() ==> distinct_writers(r@),
    {
        &self.entries
    }

    /// Whether no writer stands higher in `self` than in `other`.
    pub fn is_le(&self, other: &VersionVector) -> (r: bool)
        requires
            self.wf(),
            other.wf(),
        ensures
            r == vv_le(self@, other@),
    {
        let mut i: usize = 0;
        while i < self.entries.len()
            invariant
                0 <= i <= self.entries@.len(),
                self.wf(),
                other.wf(),
                forall|j: int| 0 <= j < i ==> (#[trigger] self.entries@[j]).counter <= count_in(other@, self.entries@[j].writer),
            decreases self.entries@.len() - i,
        {
            let theirs = other.get(&self.entries[i].writer);
            if self.entries[i].counter > theirs {
                proof {
                    lemma_counters_at(self.entries@, i as int);
                    let w = self.entries@[i as int].writer;
                    assert(count_in(self@, w) > count_in(other@, w));
                }
                return false;
            }
            i = i + 1;
        }
        proof {
            assert forall|w: crate::hash::Hash| #[trigger] count_in(self@, w) <= count_in(other@, w) by {
                if self@.dom().contains(w) {
                    let k = writer_index(self.entries@, w);
                    lemma_counters_at(self.entries@, k);
                    assert(self.entries@[k].counter <= count_in(other@, self.entries@[k].writer));
                }
            }
        }
        true
    }

    /// Whether `self` happened before `other`.
    pub fn less_than(&self, other: &VersionVector) -> (r: bool)
        requires
            self.wf(),
            other.wf(),
        ensures
            r == vv_lt(self@, other@),
    {
        self.is_le(other) && !other.is_le(self)
    }

    /// Compares two version vectors: `None` where they are concurrent.
    pub fn compare(&self, other: &VersionVector) -> (r: Option<Order>)
        requires
            self.wf(),
            other.wf(),
        ensures
            r == Some(Order::Equal) <==> vv_level(self@, other@),
            r == Some(Order::Less) <==> vv_lt(self@, other@),
            r == Some(Order::Greater) <==> vv_lt(other@, self@),
            r is None <==> vv_concurrent(self@, other@),
    {
        let below = self.is_le(other);
        let above = other.is_le(self);
        if below && above {
            Some(Order::Equal)
        } else if below {
            Some(Order::Less)
        } else if above {
            Some(Order::Greater)
        } else {
            None
        }
    }
}

/// Happened-before is a strict partial order: nothing happened before
/// itself, and what happened before something that happened before a third
/// happened before the third.
pub proof fn law_happened_before_is_strict_order(
    a: Map<crate::hash::Hash, u64>,
    b: Map<crate::hash::Hash, u64>,
    c: Map<crate::hash::Hash, u64>,
)
    ensures
        !vv_lt(a, a),
        vv_lt(a, b) ==> !vv_lt(b, a),
        vv_lt(a, b) && vv_lt(b, c) ==> vv_lt(a, c),
{
    if vv_lt(a, b) && vv_lt(b, c) {
        assert forall|w: crate::hash::Hash| #[trigger] count_in(a, w) <= count_in(c, w) by {
            assert(count_in(a, w) <= count_in(b, w));
            assert(count_in(b, w) <= count_in(c, w));
        }
        if vv_le(c, a) {
            assert forall|w: crate::hash::Hash| #[trigger] count_in(b, w) <= count_in(a, w) by {
                assert(count_in(b, w) <= count_in(c, w));
                assert(count_in(c, w) <= count_in(a, w));
            }
        }
    }
}

/// Of two version vectors exactly one holds: they are level, one happened
/// before the other, or they are concurrent.
pub proof fn law_comparison_is_exhaustive(a: Map<crate::hash::Hash, u64>, b: Map<crate::hash::Hash, u64>)
    ensures
        vv_level(a, b) || vv_lt(a, b) || vv_lt(b, a) || vv_concurrent(a, b),
        !(vv_level(a, b) && vv_lt(a, b)),
        !(vv_level(a, b) && vv_concurrent(a, b)),
        !(vv_lt(a, b) && vv_concurrent(a, b)),
        !(vv_lt(a, b) && vv_lt(b, a)),
{
}

/// A version vector happened before the one that counts one more version
/// of some writer.
pub proof fn law_increment_advances(a: Map<crate::hash::Hash, u64>, writer: crate::hash::Hash)
    requires
        count_in(a, writer) < u64::MAX,
    ensures
        vv_lt(a, a.insert(writer, (count_in(a, writer) + 1) as u64)),
{
    let b = a.insert(writer, (count_in(a, writer) + 1) as u64);
    assert forall|w: crate::hash::Hash| #[trigger] count_in(a, w) <= count_in(b, w) by {}
    assert(count_in(b, writer) > count_in(a, writer));
}

} // verus!
