//! Leaf nodes of the index and ordered sets of them.

use crate::hash::{append_hash, hash_eq, hash_le, hash_lt, hash_order, lemma_hash_lt_asymmetric, lemma_hash_lt_transitive, sha3_256, sha3_256_digest, Order};
use vstd::bytes::{spec_u64_to_le_bytes, u64_to_le_bytes};
use vstd::prelude::*;

verus! {

/// Leaf of a snapshot tree: where a block sits in a blob, which block it is,
/// and whether this replica believes the block to be absent locally.
#[derive(Clone, Copy, Debug)]
pub struct LeafNode {
    pub locator: crate::hash::Hash,
    pub block_id: crate::hash::Hash,
    pub is_missing: bool,
}

impl LeafNode {
    /// Creates a leaf node whose block is taken to be present in this replica.
    pub fn present(locator: crate::hash::Hash, block_id: crate::hash::Hash) -> (r: Self)
        ensures
            r == (LeafNode { locator, block_id, is_missing: false }),
    {
        Self { locator, block_id, is_missing: false }
    }

    /// Creates a leaf node whose block is taken to be missing in this replica.
    pub fn missing(locator: crate::hash::Hash, block_id: crate::hash::Hash) -> (r: Self)
        ensures
            r == (LeafNode { locator, block_id, is_missing: true }),
    {
        Self { locator, block_id, is_missing: true }
    }

    /// The same node, with its block taken to be missing.
    pub open spec fn spec_into_missing(self) -> LeafNode {
        LeafNode { locator: self.locator, block_id: self.block_id, is_missing: true }
    }

    /// Returns a node for the same block at the same locator, taken to be missing.
    pub fn into_missing(self) -> (r: Self)
        ensures
            r == self.spec_into_missing(),
    {
        Self { locator: self.locator, block_id: self.block_id, is_missing: true }
    }

    /// The locator hash this node is filed under.
    pub fn locator(&self) -> (r: &crate::hash::Hash)
        ensures
            *r == self.locator,
    {
        &self.locator
    }

    /// Whether two nodes agree in all three components.
    pub fn same_as(&self, other: &LeafNode) -> (r: bool)
        ensures
            r == (*self == *other),
    {
        hash_eq(&self.locator, &other.locator) && hash_eq(&self.block_id, &other.block_id)
            && self.is_missing == other.is_missing
    }
}

/// Gets the bucket of `locator` at the given inner layer: the byte of the
/// locator at that position.
pub fn get_bucket(locator: &crate::hash::Hash, inner_layer: usize) -> (r: u8)
    requires
        inner_layer < 32,
    ensures
        r == locator[inner_layer as int],
{
    locator[inner_layer]
}

/// A hash that is equal to another or above it is not below it.
proof fn lemma_hash_lt_asymmetric_or_equal(a: crate::hash::Hash, b: crate::hash::Hash)
    requires
        a == b || hash_lt(b, a),
    ensures
        !hash_lt(a, b),
{
    if hash_lt(a, b) {
        lemma_hash_lt_asymmetric(a, b);
    }
}

/// What a change to a leaf set did.
#[derive(Clone, Copy, Debug)]
pub enum ModifyStatus {
    /// The node was there with another block id, which is handed back.
    Updated(crate::hash::Hash),
    /// No node had the locator; one was added.
    Inserted,
    /// The node was there with the same block id.
    Unchanged,
}

/// The locators of `s` rise strictly from front to back.
pub open spec fn strictly_sorted(s: Seq<LeafNode>) -> bool {
    forall|i: int, j: int| 0 <= i < j < s.len() ==> hash_lt(#[trigger] s[i].locator, #[trigger] s[j].locator)
}

/// Some node of `s` is filed under `locator`.
pub open spec fn has_locator(s: Seq<LeafNode>, locator: crate::hash::Hash) -> bool {
    exists|i: int| 0 <= i < s.len() && (#[trigger] s[i]).locator == locator
}

/// `k` is the place where a node with `locator` goes into `s`: every node
/// before it has a smaller locator, every node from it on a larger one.
pub open spec fn is_slot(s: Seq<LeafNode>, locator: crate::hash::Hash, k: int) -> bool {
    &&& 0 <= k <= s.len()
    &&& forall|j: int| 0 <= j < k ==> hash_lt((#[trigger] s[j]).locator, locator)
    &&& forall|j: int| k <= j < s.len() ==> hash_lt(locator, (#[trigger] s[j]).locator)
}

/// `after` is what `before` becomes when the block `block_id` is filed
/// under `locator`, and `status` says what was done: nothing, where the
/// leaf was there with that block; the block id replaced, where the leaf
/// was there with another; a leaf put in at its place, with the block
/// taken to be present, where there was none.
pub open spec fn filed(
    before: Seq<LeafNode>,
    after: Seq<LeafNode>,
    locator: crate::hash::Hash,
    block_id: crate::hash::Hash,
    status: ModifyStatus,
) -> bool {
    match status {
        ModifyStatus::Unchanged => after == before && exists|i: int|
            0 <= i < before.len() && (#[trigger] before[i]).locator == locator && before[i].block_id == block_id,
        ModifyStatus::Updated(previous) => previous != block_id && exists|i: int|
            0 <= i < before.len() && (#[trigger] before[i]).locator == locator && before[i].block_id == previous && after
                == before.update(i, LeafNode { locator, block_id, is_missing: before[i].is_missing }),
        ModifyStatus::Inserted => exists|k: int| #[trigger]
            is_slot(before, locator, k) && after == before.insert(k, LeafNode { locator, block_id, is_missing: false }),
    }
}

/// A locator that has a slot in a sequence is not in it.
pub proof fn lemma_slot_excludes(s: Seq<LeafNode>, locator: crate::hash::Hash, k: int)
    requires
        is_slot(s, locator, k),
    ensures
        !has_locator(s, locator),
{
    if has_locator(s, locator) {
        let i = choose|i: int| 0 <= i < s.len() && (#[trigger] s[i]).locator == locator;
        if i < k {
            lemma_hash_lt_asymmetric(s[i].locator, locator);
        } else {
            lemma_hash_lt_asymmetric(locator, s[i].locator);
        }
    }
}

/// A locator has one place at most where it can go into a sequence, so
/// that what an insertion gives is determined.
pub proof fn law_slot_unique(s: Seq<LeafNode>, locator: crate::hash::Hash, k: int, m: int)
    requires
        is_slot(s, locator, k),
        is_slot(s, locator, m),
    ensures
        k == m,
{
    if k < m {
        lemma_hash_lt_asymmetric(s[k].locator, locator);
    } else if m < k {
        lemma_hash_lt_asymmetric(s[m].locator, locator);
    }
}

/// A leaf set files one node at most under a locator: in a strictly
/// sorted sequence a locator occurs at one position at most.
pub proof fn law_locator_occurs_once(s: Seq<LeafNode>, i: int, j: int)
    requires
        strictly_sorted(s),
        0 <= i < s.len(),
        0 <= j < s.len(),
        s[i].locator == s[j].locator,
    ensures
        i == j,
{
    if i < j {
        lemma_hash_lt_asymmetric(s[i].locator, s[j].locator);
    } else if j < i {
        lemma_hash_lt_asymmetric(s[j].locator, s[i].locator);
    }
}

/// The locators of `s` never fall from front to back.
pub open spec fn sorted(s: Seq<LeafNode>) -> bool {
    forall|i: int, j: int| 0 <= i < j < s.len() ==> hash_le(#[trigger] s[i].locator, #[trigger] s[j].locator)
}

/// No two nodes of `s` share a locator.
pub open spec fn distinct_locators(s: Seq<LeafNode>) -> bool {
    forall|i: int, j: int| 0 <= i < j < s.len() ==> #[trigger] s[i].locator != #[trigger] s[j].locator
}

/// `k` is the place behind the last node of `s` whose locator is not above
/// `locator`.
pub open spec fn is_upper_slot(s: Seq<LeafNode>, locator: crate::hash::Hash, k: int) -> bool {
    &&& 0 <= k <= s.len()
    &&& forall|j: int| 0 <= j < k ==> hash_le((#[trigger] s[j]).locator, locator)
    &&& forall|j: int| k <= j < s.len() ==> hash_lt(locator, (#[trigger] s[j]).locator)
}

/// What putting `x` at its upper slot does to a sorted sequence.
pub proof fn lemma_insert_at_upper_slot(s: Seq<LeafNode>, k: int, x: LeafNode)
    requires
        sorted(s),
        is_upper_slot(s, x.locator, k),
    ensures
        sorted(s.insert(k, x)),
        strictly_sorted(s.insert(k, x)) <==> strictly_sorted(s) && !has_locator(s, x.locator),
        forall|h: crate::hash::Hash| #[trigger] has_locator(s.insert(k, x), h) <==> has_locator(s, h) || h == x.locator,
        s.insert(k, x).to_multiset() == s.to_multiset().insert(x),
{
    broadcast use vstd::seq_lib::group_to_multiset_ensures;

    let t = s.insert(k, x);
    assert(t[k] == x);
    assert forall|i: int| 0 <= i < k implies #[trigger] t[i] == s[i] by {}
    assert forall|i: int| k < i < t.len() implies #[trigger] t[i] == s[i - 1] by {}
    assert forall|i: int, j: int| 0 <= i < j < t.len() implies hash_le(
        #[trigger] t[i].locator,
        #[trigger] t[j].locator,
    ) by {
        if j < k {
            assert(hash_le(s[i].locator, s[j].locator));
        } else if j == k {
            assert(hash_le(s[i].locator, x.locator));
        } else if i < k {
            assert(hash_le(s[i].locator, s[j - 1].locator));
        } else if i == k {
            assert(hash_lt(x.locator, s[j - 1].locator));
        } else {
            assert(hash_le(s[i - 1].locator, s[j - 1].locator));
        }
    }
    assert forall|h: crate::hash::Hash| has_locator(t, h) <==> has_locator(s, h) || h == x.locator by {
        if has_locator(t, h) {
            let i = choose|i: int| 0 <= i < t.len() && (#[trigger] t[i]).locator == h;
            if i < k {
                assert(s[i].locator == h);
            } else if i > k {
                assert(s[i - 1].locator == h);
            }
        }
        if has_locator(s, h) {
            let i = choose|i: int| 0 <= i < s.len() && (#[trigger] s[i]).locator == h;
            if i < k {
                assert(t[i].locator == h);
            } else {
                assert(t[i + 1].locator == h);
            }
        }
        if h == x.locator {
            assert(t[k].locator == h);
        }
    }
    if strictly_sorted(t) {
        assert forall|i: int, j: int| 0 <= i < j < s.len() implies hash_lt(
            #[trigger] s[i].locator,
            #[trigger] s[j].locator,
        ) by {
            let a = if i < k { i } else { i + 1 };
            let b = if j < k { j } else { j + 1 };
            assert(hash_lt(t[a].locator, t[b].locator));
        }
        if has_locator(s, x.locator) {
            let i = choose|i: int| 0 <= i < s.len() && (#[trigger] s[i]).locator == x.locator;
            if i < k {
                assert(hash_lt(t[i].locator, t[k].locator));
                lemma_hash_lt_asymmetric(t[i].locator, t[k].locator);
            } else {
                assert(hash_lt(t[k].locator, t[i + 1].locator));
                lemma_hash_lt_asymmetric(t[k].locator, t[i + 1].locator);
            }
        }
    }
    if strictly_sorted(s) && !has_locator(s, x.locator) {
        assert forall|i: int, j: int| 0 <= i < j < t.len() implies hash_lt(
            #[trigger] t[i].locator,
            #[trigger] t[j].locator,
        ) by {
            if j < k {
                assert(hash_lt(s[i].locator, s[j].locator));
            } else if j == k {
                assert(hash_le(s[i].locator, x.locator));
                assert(s[i].locator != x.locator);
            } else if i < k {
                assert(hash_lt(s[i].locator, s[j - 1].locator));
            } else if i == k {
                assert(hash_lt(x.locator, s[j - 1].locator));
            } else {
                assert(hash_lt(s[i - 1].locator, s[j - 1].locator));
            }
        }
    }
    assert(t.remove(k) =~= s);
    assert(t.remove(k).to_multiset() =~= t.to_multiset().remove(t[k]));
    assert(t.to_multiset().count(x) > 0) by {
        assert(t.contains(x));
    }
    assert(t.to_multiset() =~= s.to_multiset().insert(x));
}

/// What adding `x` at the back does to the locators of a sequence.
pub proof fn lemma_push_locators(s: Seq<LeafNode>, x: LeafNode)
    ensures
        distinct_locators(s.push(x)) <==> distinct_locators(s) && !has_locator(s, x.locator),
        forall|h: crate::hash::Hash| #[trigger] has_locator(s.push(x), h) <==> has_locator(s, h) || h == x.locator,
{
    let t = s.push(x);
    assert forall|h: crate::hash::Hash| has_locator(t, h) <==> has_locator(s, h) || h == x.locator by {
        if has_locator(t, h) {
            let i = choose|i: int| 0 <= i < t.len() && (#[trigger] t[i]).locator == h;
            if i < s.len() {
                assert(s[i].locator == h);
            }
        }
        if has_locator(s, h) {
            let i = choose|i: int| 0 <= i < s.len() && (#[trigger] s[i]).locator == h;
            assert(t[i].locator == h);
        }
        if h == x.locator {
            assert(t[s.len() as int].locator == h);
        }
    }
    if distinct_locators(t) {
        assert forall|i: int, j: int| 0 <= i < j < s.len() implies #[trigger] s[i].locator
            != #[trigger] s[j].locator by {
            assert(t[i].locator != t[j].locator);
        }
        if has_locator(s, x.locator) {
            let i = choose|i: int| 0 <= i < s.len() && (#[trigger] s[i]).locator == x.locator;
            assert(t[i].locator != t[s.len() as int].locator);
        }
    }
    if distinct_locators(s) && !has_locator(s, x.locator) {
        assert forall|i: int, j: int| 0 <= i < j < t.len() implies #[trigger] t[i].locator
            != #[trigger] t[j].locator by {
            if j < s.len() {
                assert(s[i].locator != s[j].locator);
            } else {
                assert(s[i].locator == t[i].locator);
            }
        }
    }
}

/// The bytes that the nodes of `s` contribute to the hash of a leaf set: for
/// each node in order, its locator and then its block id.
pub open spec fn nodes_bytes(s: Seq<LeafNode>) -> Seq<u8>
    decreases s.len(),
{
    if s.len() == 0 {
        Seq::<u8>::empty()
    } else {
        nodes_bytes(s.drop_last()) + s.last().locator@ + s.last().block_id@
    }
}

/// The byte string that is hashed for a leaf set: the number of nodes as
/// eight little-endian bytes, then `nodes_bytes`.
pub open spec fn leaf_set_preimage(s: Seq<LeafNode>) -> Seq<u8> {
    spec_u64_to_le_bytes(s.len() as u64) + nodes_bytes(s)
}

/// Whether a block is taken to be missing has no part in the hashed bytes.
pub proof fn lemma_nodes_bytes_ignore_missing(s: Seq<LeafNode>, t: Seq<LeafNode>)
    requires
        s.len() == t.len(),
        forall|i: int| 0 <= i < s.len() ==> (#[trigger] s[i]).locator == t[i].locator && s[i].block_id == t[i].block_id,
    ensures
        nodes_bytes(s) == nodes_bytes(t),
        leaf_set_preimage(s) == leaf_set_preimage(t),
    decreases s.len(),
{
    if s.len() > 0 {
        assert(s.last().locator == t.last().locator && s.last().block_id == t.last().block_id) by {
            assert(s[s.len() - 1].locator == t[s.len() - 1].locator);
        }
        assert forall|i: int| 0 <= i < s.drop_last().len() implies (#[trigger] s.drop_last()[i]).locator == t.drop_last()[i].locator
            && s.drop_last()[i].block_id == t.drop_last()[i].block_id by {
            assert(s[i].locator == t[i].locator);
        }
        lemma_nodes_bytes_ignore_missing(s.drop_last(), t.drop_last());
    }
}

/// Finds the place behind the last node whose locator is not above `locator`.
fn upper_slot(nodes: &Vec<LeafNode>, locator: &crate::hash::Hash) -> (k: usize)
    requires
        sorted(nodes@),
    ensures
        is_upper_slot(nodes@, *locator, k as int),
{
    let mut k: usize = 0;
    let mut found = false;
    while k < nodes.len() && !found
        invariant
            0 <= k <= nodes@.len(),
            sorted(nodes@),
            forall|j: int| 0 <= j < k ==> hash_le((#[trigger] nodes@[j]).locator, *locator),
            found ==> k < nodes@.len() && hash_lt(*locator, nodes@[k as int].locator),
        decreases nodes@.len() - k + (if found { 0int } else { 1int }),
    {
        match hash_order(&nodes[k].locator, locator) {
            Order::Greater => {
                found = true;
            },
            _ => {
                k = k + 1;
            },
        }
    }
    proof {
        if found {
            assert forall|j: int| k <= j < nodes@.len() implies hash_lt(
                *locator,
                (#[trigger] nodes@[j]).locator,
            ) by {
                if k < j {
                    assert(hash_le(nodes@[k as int].locator, nodes@[j].locator));
                    if nodes@[k as int].locator != nodes@[j].locator {
                        lemma_hash_lt_transitive(*locator, nodes@[k as int].locator, nodes@[j].locator);
                    }
                }
            }
        }
    }
    k
}

/// The node with its block taken to be missing or present, if it is for
/// this block, and as it is otherwise.
pub open spec fn marked(node: LeafNode, block_id: crate::hash::Hash, missing: bool) -> LeafNode {
    if node.block_id == block_id {
        LeafNode { locator: node.locator, block_id: node.block_id, is_missing: missing }
    } else {
        node
    }
}

/// The nodes after every node for `block_id` was marked.
pub open spec fn with_block_marked(s: Seq<LeafNode>, block_id: crate::hash::Hash, missing: bool) -> Seq<LeafNode> {
    s.map_values(|node: LeafNode| marked(node, block_id, missing))
}

/// Some node for `block_id` is not marked as `missing` says.
pub open spec fn marks_differ(s: Seq<LeafNode>, block_id: crate::hash::Hash, missing: bool) -> bool {
    exists|i: int| 0 <= i < s.len() && (#[trigger] s[i]).block_id == block_id && s[i].is_missing != missing
}

/// The hash of a leaf set does not depend on which of its blocks are taken
/// to be missing: two sets that hold the same locators with the same block
/// ids, in the same order, have the same hash.
pub proof fn law_hash_ignores_missing(a: LeafNodeSet, b: LeafNodeSet)
    requires
        a@.len() == b@.len(),
        forall|i: int| 0 <= i < a@.len() ==> (#[trigger] a@[i]).locator == b@[i].locator && a@[i].block_id == b@[i].block_id,
    ensures
        a.spec_hash() == b.spec_hash(),
{
    lemma_nodes_bytes_ignore_missing(a@, b@);
}

/// Collection that acts as an ordered set of leaf nodes, keyed and ordered
/// by locator.
#[derive(Debug)]
pub struct LeafNodeSet(Vec<LeafNode>);

impl View for LeafNodeSet {
    type V = Seq<LeafNode>;

    closed spec fn view(&self) -> Seq<LeafNode> {
        self.0@
    }
}

impl LeafNodeSet {
    /// The nodes are in strictly rising order of locator, so that no locator
    /// occurs twice.
    pub open spec fn wf(&self) -> bool {
        strictly_sorted(self@)
    }

    /// The empty set.
    pub fn new() -> (r: Self)
        ensures
            r@ == Seq::<LeafNode>::empty(),
            r.wf(),
    {
        LeafNodeSet(Vec::new())
    }

    /// Collects nodes into a set, ordering them by locator. The result holds
    /// exactly the given nodes; it is a well-formed set if and only if no
    /// two of them share a locator.
    pub fn from_nodes(nodes: Vec<LeafNode>) -> (r: Self)
        ensures
            sorted(r@),
            r@.to_multiset() == nodes@.to_multiset(),
            r.wf() <==> distinct_locators(nodes@),
    {
        broadcast use vstd::seq_lib::group_to_multiset_ensures;

        let mut out: Vec<LeafNode> = Vec::new();
        let mut i: usize = 0;
        assert(nodes@.take(0) =~= Seq::<LeafNode>::empty());
        while i < nodes.len()
            invariant
                0 <= i <= nodes@.len(),
                sorted(out@),
                out@.to_multiset() == nodes@.take(i as int).to_multiset(),
                forall|h: crate::hash::Hash| has_locator(out@, h) <==> has_locator(nodes@.take(i as int), h),
                strictly_sorted(out@) <==> distinct_locators(nodes@.take(i as int)),
            decreases nodes@.len() - i,
        {
            let x = nodes[i];
            let k = upper_slot(&out, &x.locator);
            let ghost before = out@;
            let ghost prefix = nodes@.take(i as int);
            out.insert(k, x);
            proof {
                lemma_insert_at_upper_slot(before, k as int, x);
                lemma_push_locators(prefix, x);
                assert(out@ == before.insert(k as int, x));
                assert(nodes@.take(i + 1) =~= prefix.push(x));
                vstd::seq_lib::to_multiset_build::<LeafNode>(prefix, x);
                assert(prefix.push(x).to_multiset() =~= prefix.to_multiset().insert(x));
                assert forall|h: crate::hash::Hash| has_locator(out@, h) <==> has_locator(
                    nodes@.take(i + 1),
                    h,
                ) by {
                    assert(has_locator(before.insert(k as int, x), h) <==> has_locator(before, h) || h
                        == x.locator);
                    assert(has_locator(prefix.push(x), h) <==> has_locator(prefix, h) || h
                        == x.locator);
                    assert(has_locator(before, h) <==> has_locator(prefix, h));
                }
            }
            i = i + 1;
        }
        assert(nodes@.take(nodes@.len() as int) =~= nodes@);
        LeafNodeSet(out)
    }

    /// Whether the nodes are in strictly rising order of locator, so that
    /// the collection is a set in order.
    pub fn is_well_formed(&self) -> (r: bool)
        ensures
            r == self.wf(),
    {
        let mut i: usize = 1;
        while i < self.0.len()
            invariant
                1 <= i,
                self.0@.len() > 0 ==> i <= self.0@.len(),
                forall|a: int, b: int| 0 <= a < b < i && b < self.0@.len() ==> hash_lt(
                    #[trigger] self.0@[a].locator,
                    #[trigger] self.0@[b].locator,
                ),
            decreases self.0@.len() - i,
        {
            match hash_order(&self.0[i - 1].locator, &self.0[i].locator) {
                Order::Less => {},
                _ => {
                    proof {
                        lemma_hash_lt_asymmetric_or_equal(self.0@[i - 1].locator, self.0@[i as int].locator);
                        assert(!hash_lt(self.0@[i - 1].locator, self.0@[i as int].locator));
                    }
                    return false;
                },
            }
            proof {
                assert forall|a: int, b: int| 0 <= a < b < i + 1 && b < self.0@.len() implies hash_lt(
                    #[trigger] self.0@[a].locator,
                    #[trigger] self.0@[b].locator,
                ) by {
                    if b == i && a < i - 1 {
                        lemma_hash_lt_transitive(self.0@[a].locator, self.0@[i - 1].locator, self.0@[i as int].locator);
                    }
                }
            }
            i = i + 1;
        }
        true
    }

    pub fn is_empty(&self) -> (r: bool)
        ensures
            r == (self@.len() == 0),
    {
        self.0.len() == 0
    }

    pub fn len(&self) -> (r: usize)
        ensures
            r == self@.len(),
    {
        self.0.len()
    }

    /// Finds the position of the node with the given locator, or else the
    /// position where such a node would have to be inserted.
    pub fn lookup(&self, locator: &crate::hash::Hash) -> (r: Result<usize, usize>)
        requires
            self.wf(),
        ensures
            match r {
                Ok(i) => i < self@.len() && self@[i as int].locator == *locator,
                Err(k) => is_slot(self@, *locator, k as int),
            },
    {
        let mut lo: usize = 0;
        let mut hi: usize = self.0.len();
        while lo < hi
            invariant
                self.wf(),
                0 <= lo <= hi <= self@.len(),
                forall|j: int| 0 <= j < lo ==> hash_lt((#[trigger] self@[j]).locator, *locator),
                forall|j: int| hi <= j < self@.len() ==> hash_lt(*locator, (#[trigger] self@[j]).locator),
            decreases hi - lo,
        {
            let mid: usize = lo + (hi - lo) / 2;
            match hash_order(&self.0[mid].locator, locator) {
                Order::Equal => {
                    return Ok(mid);
                },
                Order::Less => {
                    proof {
                        assert forall|j: int| 0 <= j < mid + 1 implies hash_lt(
                            (#[trigger] self@[j]).locator,
                            *locator,
                        ) by {
                            if j < mid {
                                lemma_hash_lt_transitive(self@[j].locator, self@[mid as int].locator, *locator);
                            }
                        }
                    }
                    lo = mid + 1;
                },
                Order::Greater => {
                    proof {
                        assert forall|j: int| mid <= j < self@.len() implies hash_lt(
                            *locator,
                            (#[trigger] self@[j]).locator,
                        ) by {
                            if mid < j {
                                lemma_hash_lt_transitive(*locator, self@[mid as int].locator, self@[j].locator);
                            }
                        }
                    }
                    hi = mid;
                },
            }
        }
        Err(lo)
    }

    /// The node filed under `locator`, if there is one.
    pub fn get(&self, locator: &crate::hash::Hash) -> (r: Option<&LeafNode>)
        requires
            self.wf(),
        ensures
            match r {
                Some(node) => node.locator == *locator && self@.contains(*node),
                None => !has_locator(self@, *locator),
            },
    {
        match self.lookup(locator) {
            Ok(index) => {
                assert(self@[index as int] == self@[index as int]);
                Some(&self.0[index])
            },
            Err(index) => {
                proof {
                    lemma_slot_excludes(self@, *locator, index as int);
                }
                None
            },
        }
    }

    /// Inserts a node for `locator` with the block taken to be present, or
    /// gives the node that is filed under `locator` the new block id.
    pub fn modify(&mut self, locator: &crate::hash::Hash, block_id: &crate::hash::Hash) -> (r:
        ModifyStatus)
        requires
            old(self).wf(),
        ensures
            final(self).wf(),
            (r is Inserted) <==> !has_locator(old(self)@, *locator),
            filed(old(self)@, final(self)@, *locator, *block_id, r),
            match r {
                ModifyStatus::Unchanged => final(self)@ == old(self)@ && exists|i: int|
                    0 <= i < old(self)@.len() && (#[trigger] old(self)@[i]).locator == *locator
                        && old(self)@[i].block_id == *block_id,
                ModifyStatus::Updated(previous) => previous != *block_id && exists|i: int|
                    0 <= i < old(self)@.len() && (#[trigger] old(self)@[i]).locator == *locator
                        && old(self)@[i].block_id == previous && final(self)@ == old(self)@.update(
                        i,
                        LeafNode {
                            locator: *locator,
                            block_id: *block_id,
                            is_missing: old(self)@[i].is_missing,
                        },
                    ),
                ModifyStatus::Inserted => exists|k: int| #[trigger]
                    is_slot(old(self)@, *locator, k) && final(self)@ == old(self)@.insert(
                        k,
                        LeafNode { locator: *locator, block_id: *block_id, is_missing: false },
                    ),
            },
    {
        match self.lookup(locator) {
            Ok(index) => {
                let node = self.0[index];
                if hash_eq(&node.block_id, block_id) {
                    ModifyStatus::Unchanged
                } else {
                    let updated = LeafNode {
                        locator: node.locator,
                        block_id: *block_id,
                        is_missing: node.is_missing,
                    };
                    self.0.set(index, updated);
                    assert(self@[index as int].locator == old(self)@[index as int].locator);
                    assert forall|i: int, j: int| 0 <= i < j < self@.len() implies hash_lt(
                        #[trigger] self@[i].locator,
                        #[trigger] self@[j].locator,
                    ) by {
                        assert(self@[i].locator == old(self)@[i].locator);
                        assert(self@[j].locator == old(self)@[j].locator);
                    }
                    ModifyStatus::Updated(node.block_id)
                }
            },
            Err(index) => {
                self.0.insert(
                    index,
                    LeafNode { locator: *locator, block_id: *block_id, is_missing: false },
                );
                proof {
                    lemma_slot_excludes(old(self)@, *locator, index as int);
                    let k = index as int;
                    assert forall|i: int, j: int| 0 <= i < j < self@.len() implies hash_lt(
                        #[trigger] self@[i].locator,
                        #[trigger] self@[j].locator,
                    ) by {
                        if j < k {
                            assert(self@[i] == old(self)@[i]);
                            assert(self@[j] == old(self)@[j]);
                        } else if j == k {
                            assert(self@[i] == old(self)@[i]);
                        } else if i < k {
                            assert(self@[i] == old(self)@[i]);
                            assert(self@[j] == old(self)@[j - 1]);
                        } else if i == k {
                            assert(self@[j] == old(self)@[j - 1]);
                        } else {
                            assert(self@[i] == old(self)@[i - 1]);
                            assert(self@[j] == old(self)@[j - 1]);
                        }
                    }
                }
                ModifyStatus::Inserted
            },
        }
    }

    /// Takes the node filed under `locator` out of the set.
    pub fn remove(&mut self, locator: &crate::hash::Hash) -> (r: Option<LeafNode>)
        requires
            old(self).wf(),
        ensures
            final(self).wf(),
            match r {
                Some(node) => node.locator == *locator && exists|i: int|
                    0 <= i < old(self)@.len() && #[trigger] old(self)@[i] == node && final(self)@
                        == old(self)@.remove(i),
                None => !has_locator(old(self)@, *locator) && final(self)@ == old(self)@,
            },
    {
        match self.lookup(locator) {
            Ok(index) => {
                let node = self.0.remove(index);
                proof {
                    let k = index as int;
                    assert(old(self)@[k] == node);
                    assert forall|i: int, j: int| 0 <= i < j < self@.len() implies hash_lt(
                        #[trigger] self@[i].locator,
                        #[trigger] self@[j].locator,
                    ) by {
                        let a = if i < k { i } else { i + 1 };
                        let b = if j < k { j } else { j + 1 };
                        assert(self@[i] == old(self)@[a]);
                        assert(self@[j] == old(self)@[b]);
                    }
                }
                Some(node)
            },
            Err(index) => {
                proof {
                    lemma_slot_excludes(self@, *locator, index as int);
                }
                None
            },
        }
    }

    /// Returns the same nodes with every block taken to be missing.
    pub fn into_missing(self) -> (r: Self)
        ensures
            r@.len() == self@.len(),
            forall|i: int| 0 <= i < self@.len() ==> #[trigger] r@[i] == self@[i].spec_into_missing(),
            self.wf() ==> r.wf(),
    {
        let mut nodes = self.0;
        let mut i: usize = 0;
        while i < nodes.len()
            invariant
                0 <= i <= nodes@.len(),
                nodes@.len() == self@.len(),
                forall|j: int| 0 <= j < i ==> #[trigger] nodes@[j] == self@[j].spec_into_missing(),
                forall|j: int| i <= j < nodes@.len() ==> #[trigger] nodes@[j] == self@[j],
            decreases nodes@.len() - i,
        {
            let node = nodes[i].into_missing();
            nodes.set(i, node);
            i = i + 1;
        }
        let r = LeafNodeSet(nodes);
        proof {
            if self.wf() {
                assert forall|a: int, b: int| 0 <= a < b < r@.len() implies hash_lt(
                    #[trigger] r@[a].locator,
                    #[trigger] r@[b].locator,
                ) by {
                    assert(r@[a] == self@[a].spec_into_missing());
                    assert(r@[b] == self@[b].spec_into_missing());
                }
            }
        }
        r
    }

    /// The hash of the set, as a specification: the SHA3-256 digest of
    /// `leaf_set_preimage`.
    pub open spec fn spec_hash(&self) -> Seq<u8> {
        sha3_256(leaf_set_preimage(self@))
    }

    /// The hash of the set without nodes.
    pub open spec fn spec_empty_hash() -> Seq<u8> {
        sha3_256(leaf_set_preimage(Seq::<LeafNode>::empty()))
    }

    /// The hash that identifies this collection of nodes in its parent.
    pub fn hash(&self) -> (r: crate::hash::Hash)
        ensures
            r@ == self.spec_hash(),
    {
        let mut buffer = u64_to_le_bytes(self.0.len() as u64);
        let mut i: usize = 0;
        while i < self.0.len()
            invariant
                0 <= i <= self@.len(),
                buffer@ == spec_u64_to_le_bytes(self@.len() as u64) + nodes_bytes(self@.take(i as int)),
            decreases self@.len() - i,
        {
            append_hash(&mut buffer, &self.0[i].locator);
            append_hash(&mut buffer, &self.0[i].block_id);
            proof {
                let next = self@.take(i + 1);
                assert(next.drop_last() =~= self@.take(i as int));
                assert(next.last() == self@[i as int]);
                assert(buffer@ =~= spec_u64_to_le_bytes(self@.len() as u64) + nodes_bytes(next));
            }
            i = i + 1;
        }
        assert(self@.take(self@.len() as int) =~= self@);
        sha3_256_digest(buffer.as_slice())
    }

    /// Takes the block to be missing, or present, in every node that is
    /// for it. Returns whether a node has changed.
    pub fn mark_block(&mut self, block_id: &crate::hash::Hash, missing: bool) -> (changed: bool)
        ensures
            final(self)@ == with_block_marked(old(self)@, *block_id, missing),
            changed == marks_differ(old(self)@, *block_id, missing),
            old(self).wf() ==> final(self).wf(),
    {
        let mut changed = false;
        let mut i: usize = 0;
        while i < self.0.len()
            invariant
                0 <= i <= self.0@.len(),
                self.0@.len() == old(self).0@.len(),
                forall|j: int| 0 <= j < i ==> #[trigger] self.0@[j] == marked(old(self).0@[j], *block_id, missing),
                forall|j: int| i <= j < self.0@.len() ==> #[trigger] self.0@[j] == old(self).0@[j],
                changed <==> exists|j: int|
                    0 <= j < i && (#[trigger] old(self).0@[j]).block_id == *block_id && old(self).0@[j].is_missing != missing,
            decreases self.0@.len() - i,
        {
            if hash_eq(&self.0[i].block_id, block_id) {
                if self.0[i].is_missing != missing {
                    changed = true;
                }
                self.0[i].is_missing = missing;
            }
            proof {
                let olds = old(self).0@;
                if changed {
                    if !(olds[i as int].block_id == *block_id && olds[i as int].is_missing != missing) {
                        let j = choose|j: int|
                            0 <= j < i && (#[trigger] olds[j]).block_id == *block_id && olds[j].is_missing != missing;
                        assert(0 <= j < i + 1);
                    }
                }
                if exists|j: int| 0 <= j < i + 1 && (#[trigger] olds[j]).block_id == *block_id && olds[j].is_missing != missing {
                    let j = choose|j: int|
                        0 <= j < i + 1 && (#[trigger] olds[j]).block_id == *block_id && olds[j].is_missing != missing;
                    if j < i {
                        assert(changed);
                    }
                }
            }
            i = i + 1;
        }
        proof {
            assert(self@ =~= with_block_marked(old(self)@, *block_id, missing));
            if old(self).wf() {
                assert forall|a: int, b: int| 0 <= a < b < self@.len() implies hash_lt(
                    #[trigger] self@[a].locator,
                    #[trigger] self@[b].locator,
                ) by {
                    assert(self@[a].locator == old(self)@[a].locator);
                    assert(self@[b].locator == old(self)@[b].locator);
                }
            }
        }
        changed
    }

    /// Notes that the block is held locally: every node for it takes it to
    /// be present. Returns whether a node has changed.
    pub fn mark_block_as_present(&mut self, block_id: &crate::hash::Hash) -> (changed: bool)
        ensures
            final(self)@ == with_block_marked(old(self)@, *block_id, false),
            changed == marks_differ(old(self)@, *block_id, false),
            old(self).wf() ==> final(self).wf(),
    {
        self.mark_block(block_id, false)
    }

    /// Notes that the block is not held locally: every node for it takes
    /// it to be missing. Returns whether a node has changed.
    pub fn mark_block_as_missing(&mut self, block_id: &crate::hash::Hash) -> (changed: bool)
        ensures
            final(self)@ == with_block_marked(old(self)@, *block_id, true),
            changed == marks_differ(old(self)@, *block_id, true),
            old(self).wf() ==> final(self).wf(),
    {
        self.mark_block(block_id, true)
    }

    /// The nodes in rising order of locator.
    pub fn iter(&self) -> (r: &Vec<LeafNode>)
        ensures
            r@ == self@,
    {
        &self.0
    }
}

} // verus!
