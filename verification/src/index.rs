//! Rules of the index: summaries of subtrees, how completeness spreads
//! towards the root, and what a replica accepts from a peer.

use crate::error::Error;
use crate::hash::{hash_eq, lemma_hash_view_injective};
use crate::leaf::{LeafNode, LeafNodeSet};
use crate::version_vector::{vv_le, VersionVector};
use vstd::prelude::*;

verus! {

/// Number of layers of inner nodes between a root and its leaves.
pub const INNER_LAYER_COUNT: usize = 3;

/// How many of the blocks below a node are held locally.
#[derive(Clone, Copy, Debug, PartialEq, Eq, Structural)]
pub enum BlockPresence {
    /// None of them.
    Absent,
    /// This many of them, and not all.
    Partial(u64),
    /// All of them.
    Full,
}

/// What is known of the subtree below a node.
#[derive(Clone, Copy, Debug, PartialEq, Eq, Structural)]
pub struct Summary {
    /// Every node of the subtree is in the local index.
    pub is_complete: bool,
    pub block_presence: BlockPresence,
}

/// The number of nodes of `s` whose block is taken to be present.
pub open spec fn present_count(s: Seq<LeafNode>) -> nat
    decreases s.len(),
{
    if s.len() == 0 {
        0
    } else {
        present_count(s.drop_last()) + (if s.last().is_missing { 0nat } else { 1nat })
    }
}

impl Summary {
    /// The summary of a subtree that is all there, blocks included.
    pub open spec fn spec_full() -> Summary {
        Summary { is_complete: true, block_presence: BlockPresence::Full }
    }

    /// The summary of a subtree of which nothing is known yet.
    pub open spec fn spec_incomplete() -> Summary {
        Summary { is_complete: false, block_presence: BlockPresence::Absent }
    }

    /// The summary of a subtree that is all there, blocks included.
    pub fn full() -> (r: Self)
        ensures
            r == Self::spec_full(),
    {
        Summary { is_complete: true, block_presence: BlockPresence::Full }
    }

    /// The summary of a subtree of which nothing is known yet.
    pub fn incomplete() -> (r: Self)
        ensures
            r == Self::spec_incomplete(),
    {
        Summary { is_complete: false, block_presence: BlockPresence::Absent }
    }

    /// The summary of a set of leaves, as a specification: the set is
    /// complete; its blocks are all present if none is missing, none if
    /// all are missing, and else as many as are not missing.
    pub open spec fn spec_from_leaves(s: Seq<LeafNode>) -> Summary {
        Summary {
            is_complete: true,
            block_presence: if present_count(s) == s.len() {
                BlockPresence::Full
            } else if present_count(s) == 0 {
                BlockPresence::Absent
            } else {
                BlockPresence::Partial(present_count(s) as u64)
            },
        }
    }

    /// The summary of a set of leaves.
    pub fn from_leaves(nodes: &LeafNodeSet) -> (r: Self)
        ensures
            r == Self::spec_from_leaves(nodes@),
    {
        let list = nodes.iter();
        let mut present: usize = 0;
        let mut i: usize = 0;
        assert(list@.take(0) =~= Seq::<LeafNode>::empty());
        while i < list.len()
            invariant
                0 <= i <= list@.len(),
                present == present_count(list@.take(i as int)),
                present <= i,
            decreases list@.len() - i,
        {
            proof {
                let next = list@.take(i + 1);
                assert(next.drop_last() =~= list@.take(i as int));
                assert(next.last() == list@[i as int]);
            }
            if !list[i].is_missing {
                present = present + 1;
            }
            i = i + 1;
        }
        assert(list@.take(list@.len() as int) =~= list@);
        let block_presence = if present == list.len() {
            BlockPresence::Full
        } else if present == 0 {
            BlockPresence::Absent
        } else {
            BlockPresence::Partial(present as u64)
        };
        Summary { is_complete: true, block_presence }
    }
}

/// Whether the children of an inner node are all there and complete. A
/// node whose hash is that of the empty collection has no children and is
/// complete; any other is complete where it has children and each of them is.
pub fn inner_children_complete(
    parent_hash: &crate::hash::Hash,
    empty_hash: &crate::hash::Hash,
    children_complete: &Vec<bool>,
) -> (r: bool)
    ensures
        r == (*parent_hash == *empty_hash || (children_complete@.len() > 0 && forall|i: int|
            0 <= i < children_complete@.len() ==> #[trigger] children_complete@[i])),
{
    if hash_eq(parent_hash, empty_hash) {
        return true;
    }
    if children_complete.len() == 0 {
        return false;
    }
    let mut i: usize = 0;
    while i < children_complete.len()
        invariant
            0 <= i <= children_complete@.len(),
            *parent_hash != *empty_hash,
            forall|j: int| 0 <= j < i ==> children_complete@[j],
        decreases children_complete@.len() - i,
    {
        if !children_complete[i] {
            assert(!children_complete@[i as int]);
            return false;
        }
        i = i + 1;
    }
    true
}

/// Whether the leaves below a node are all there: a node whose hash is
/// that of the empty leaf set has none; any other has them where it has one.
pub fn leaf_children_complete(parent_hash: &crate::hash::Hash, has_children: bool) -> (r: bool)
    ensures
        r == (parent_hash@ == LeafNodeSet::spec_empty_hash() || has_children),
{
    let empty = LeafNodeSet::new().hash();
    proof {
        if parent_hash@ == empty@ {
            lemma_hash_view_injective(*parent_hash, empty);
        }
    }
    hash_eq(parent_hash, &empty) || has_children
}

/// Which check tells whether the children of a node are all there.
#[derive(Clone, Copy, Debug, PartialEq, Eq, Structural)]
pub enum ChildrenCheck {
    /// The children are inner nodes: `inner_children_complete`.
    Inner,
    /// The children are leaves: `leaf_children_complete`.
    Leaf,
    /// The tree has no such layer.
    NoLayer,
}

/// Which check applies to a node of the given layer, the root being layer
/// zero: above the last inner layer the children are inner nodes, at it
/// they are leaves, and below it there is nothing.
pub fn children_check(layer: usize) -> (r: ChildrenCheck)
    ensures
        r == (if layer < INNER_LAYER_COUNT {
            ChildrenCheck::Inner
        } else if layer == INNER_LAYER_COUNT {
            ChildrenCheck::Leaf
        } else {
            ChildrenCheck::NoLayer
        }),
{
    if layer < INNER_LAYER_COUNT {
        ChildrenCheck::Inner
    } else if layer == INNER_LAYER_COUNT {
        ChildrenCheck::Leaf
    } else {
        ChildrenCheck::NoLayer
    }
}

/// What to do with a node when completeness spreads towards the root.
#[derive(Clone, Copy, Debug, PartialEq, Eq, Structural)]
pub enum CompletionStep {
    /// The node is not complete, or no such layer exists: stop here.
    Stop,
    /// Mark the root nodes with this hash as complete.
    MarkRoot,
    /// Mark the inner nodes with this hash as complete and go on with
    /// their parents, one layer up.
    MarkInnerAndAscend,
}

/// What to do with a node of the given layer, the root being layer zero,
/// whose children are complete or not.
pub fn completion_step(layer: usize, children_complete: bool) -> (r: CompletionStep)
    ensures
        r == (if layer > INNER_LAYER_COUNT || !children_complete {
            CompletionStep::Stop
        } else if layer == 0 {
            CompletionStep::MarkRoot
        } else {
            CompletionStep::MarkInnerAndAscend
        }),
{
    if layer > INNER_LAYER_COUNT || !children_complete {
        CompletionStep::Stop
    } else if layer == 0 {
        CompletionStep::MarkRoot
    } else {
        CompletionStep::MarkInnerAndAscend
    }
}

/// Whether a node has newly become complete.
pub fn became_complete(was_complete: bool, is_complete: bool) -> (r: bool)
    ensures
        r == (!was_complete && is_complete),
{
    !was_complete && is_complete
}

/// Takes in a set of leaves that a peer has sent for the node with the
/// hash `parent_hash`. A set with another hash, or one that is not in
/// order, is refused as malformed. What is accepted is the same set with
/// every block taken to be missing.
pub fn receive_leaf_nodes(parent_hash: &crate::hash::Hash, nodes: LeafNodeSet) -> (r: Result<LeafNodeSet, Error>)
    ensures
        match r {
            Ok(accepted) => nodes.wf() && nodes.spec_hash() == parent_hash@ && accepted.wf() && accepted@.len()
                == nodes@.len() && forall|i: int|
                0 <= i < nodes@.len() ==> #[trigger] accepted@[i] == nodes@[i].spec_into_missing(),
            Err(e) => e == Error::MalformedData && (!nodes.wf() || nodes.spec_hash() != parent_hash@),
        },
{
    if !nodes.is_well_formed() {
        return Err(Error::MalformedData);
    }
    let hash = nodes.hash();
    proof {
        if hash@ == parent_hash@ {
            lemma_hash_view_injective(hash, *parent_hash);
        }
    }
    if !hash_eq(&hash, parent_hash) {
        return Err(Error::MalformedData);
    }
    Ok(nodes.into_missing())
}

/// Whether a root that a peer has sent is news: there is no complete root
/// of that writer locally, or the one there is not at or above the version
/// vector of the new one.
pub fn is_newer_root(local: Option<&VersionVector>, incoming: &VersionVector) -> (r: bool)
    requires
        incoming.wf(),
        local is Some ==> local->Some_0.wf(),
    ensures
        r == (match local {
            Some(local) => !vv_le(incoming@, local@),
            None => true,
        }),
{
    match local {
        Some(local) => !incoming.is_le(local),
        None => true,
    }
}

/// What the server sends in answer to a request for the children of a node.
#[derive(Clone, Copy, Debug, PartialEq, Eq, Structural)]
pub struct ChildNodesReply {
    pub send_inner_nodes: bool,
    pub send_leaf_nodes: bool,
}

/// What the server sends in answer to a request for the children of a
/// node: each kind of children that it has.
pub fn child_nodes_reply(inner_count: usize, leaf_count: usize) -> (r: ChildNodesReply)
    ensures
        r.send_inner_nodes == (inner_count > 0),
        r.send_leaf_nodes == (leaf_count > 0),
{
    ChildNodesReply { send_inner_nodes: inner_count > 0, send_leaf_nodes: leaf_count > 0 }
}

/// What the server does with a request for a block.
#[derive(Clone, Copy, Debug, PartialEq, Eq, Structural)]
pub enum BlockReply {
    /// Send the block.
    Send,
    /// The block is not there: say nothing.
    Skip,
    /// Reading failed: give up on the connection.
    Fail(Error),
}

/// What the server does with a request for a block, given how reading the
/// block went.
pub fn block_reply(read: Result<(), Error>) -> (r: BlockReply)
    ensures
        r == (match read {
            Ok(_) => BlockReply::Send,
            Err(Error::BlockNotFound) => BlockReply::Skip,
            Err(e) => BlockReply::Fail(e),
        }),
{
    match read {
        Ok(_) => BlockReply::Send,
        Err(Error::BlockNotFound) => BlockReply::Skip,
        Err(e) => BlockReply::Fail(e),
    }
}

/// Whether the server announces a branch: only one whose root is complete.
pub fn announces_branch(root_summary: &Summary) -> (r: bool)
    ensures
        r == root_summary.is_complete,
{
    root_summary.is_complete
}

/// A node of a snapshot tree as far as completeness goes: whether it is
/// marked as complete, and its children.
pub struct TreeModel {
    pub is_complete: bool,
    pub children: Seq<TreeModel>,
}

/// Completeness never skips a generation in the tree of the given height:
/// a node that is marked as complete has only children that are marked so,
/// and the same holds below each child.
pub open spec fn downward_closed(node: TreeModel, height: nat) -> bool
    decreases height,
{
    height > 0 ==> forall|i: int|
        0 <= i < node.children.len() ==> (node.is_complete ==> (#[trigger] node.children[i]).is_complete)
            && downward_closed(node.children[i], (height - 1) as nat)
}

/// `below` is `node` or a descendant of it, no more than `depth` steps down.
pub open spec fn is_within(below: TreeModel, node: TreeModel, depth: nat) -> bool
    decreases depth,
{
    below == node || (depth > 0 && exists|i: int|
        0 <= i < node.children.len() && is_within(below, #[trigger] node.children[i], (depth - 1) as nat))
}

/// The rule by which an inner node is marked: it is complete only where
/// each of its children is.
pub open spec fn marked_by_rule(node: TreeModel) -> bool {
    node.is_complete ==> forall|i: int| 0 <= i < node.children.len() ==> (#[trigger] node.children[i]).is_complete
}

/// Marking a node by the rule keeps completeness from skipping a
/// generation, where it does not skip one below the children.
pub proof fn law_marking_keeps_downward_closed(node: TreeModel, height: nat)
    requires
        height > 0,
        marked_by_rule(node),
        forall|i: int| 0 <= i < node.children.len() ==> downward_closed(#[trigger] node.children[i], (height - 1) as nat),
    ensures
        downward_closed(node, height),
{
}

/// If a node is complete, so is every one of its descendants.
pub proof fn law_complete_nodes_have_complete_descendants(node: TreeModel, below: TreeModel, height: nat)
    requires
        downward_closed(node, height),
        node.is_complete,
        is_within(below, node, height),
    ensures
        below.is_complete,
    decreases height,
{
    if below != node {
        let i = choose|i: int|
            0 <= i < node.children.len() && is_within(below, #[trigger] node.children[i], (height - 1) as nat);
        law_complete_nodes_have_complete_descendants(node.children[i], below, (height - 1) as nat);
    }
}

} // verus!
