//! The stored inner nodes, and the walk that spreads completeness from a
//! node whose children were written towards the roots.

use crate::hash::hash_eq;
use crate::index::{
    children_check, completion_step, inner_children_complete, leaf_children_complete, ChildrenCheck, CompletionStep,
    INNER_LAYER_COUNT,
};
use crate::leaf::LeafNodeSet;
use crate::leaf_table::{kept_leaves, lemma_kept_leaves_congruent, LeafTable};
use crate::snapshot::{has_hash, has_snapshot, with_completed, RootModel, SnapshotTable};
use vstd::prelude::*;

verus! {

/// A stored inner node: the node that it hangs below, its bucket there,
/// its own hash, and whether everything below it is there.
#[derive(Clone, Copy, Debug)]
pub struct InnerRow {
    pub parent: crate::hash::Hash,
    pub bucket: u8,
    pub hash: crate::hash::Hash,
    pub is_complete: bool,
}

/// The row marked as complete if it has this hash, and as it is otherwise.
pub open spec fn marked_row(row: InnerRow, hash: crate::hash::Hash) -> InnerRow {
    if row.hash == hash {
        InnerRow { is_complete: true, ..row }
    } else {
        row
    }
}

/// The rows after every row with `hash` was marked as complete.
pub open spec fn with_marked(rows: Seq<InnerRow>, hash: crate::hash::Hash) -> Seq<InnerRow> {
    rows.map_values(|row: InnerRow| marked_row(row, hash))
}

/// Some row hangs below the node with the hash `parent`.
pub open spec fn has_child(rows: Seq<InnerRow>, parent: crate::hash::Hash) -> bool {
    exists|i: int| 0 <= i < rows.len() && (#[trigger] rows[i]).parent == parent
}

/// Every row that hangs below the node with the hash `parent` is complete.
pub open spec fn children_all_complete(rows: Seq<InnerRow>, parent: crate::hash::Hash) -> bool {
    forall|i: int| 0 <= i < rows.len() && (#[trigger] rows[i]).parent == parent ==> rows[i].is_complete
}

/// Whether each node that hangs below the node with the hash `parent` is
/// complete: one flag for each, in the order of the rows.
pub open spec fn children_flags(rows: Seq<InnerRow>, parent: crate::hash::Hash) -> Seq<bool>
    decreases rows.len(),
{
    if rows.len() == 0 {
        Seq::empty()
    } else if rows.last().parent == parent {
        children_flags(rows.drop_last(), parent).push(rows.last().is_complete)
    } else {
        children_flags(rows.drop_last(), parent)
    }
}

/// The flags of the children say whether there is a child and whether
/// every child is complete.
pub proof fn lemma_children_flags(rows: Seq<InnerRow>, parent: crate::hash::Hash)
    ensures
        children_flags(rows, parent).len() > 0 <==> has_child(rows, parent),
        (forall|k: int| 0 <= k < children_flags(rows, parent).len() ==> #[trigger] children_flags(rows, parent)[k])
            <==> children_all_complete(rows, parent),
    decreases rows.len(),
{
    if rows.len() > 0 {
        let rest = rows.drop_last();
        let last = rows.last();
        lemma_children_flags(rest, parent);
        let flags = children_flags(rows, parent);
        let before = children_flags(rest, parent);
        if has_child(rows, parent) {
            let i = choose|i: int| 0 <= i < rows.len() && (#[trigger] rows[i]).parent == parent;
            if i < rest.len() {
                assert(rest[i].parent == parent);
            }
        }
        if has_child(rest, parent) {
            let i = choose|i: int| 0 <= i < rest.len() && (#[trigger] rest[i]).parent == parent;
            assert(rows[i].parent == parent);
        }
        if last.parent == parent {
            assert(rows[rows.len() - 1].parent == parent);
        }
        if children_all_complete(rows, parent) {
            assert forall|i: int| 0 <= i < rest.len() && (#[trigger] rest[i]).parent == parent implies rest[i].is_complete by {
                assert(rows[i].parent == parent);
            }
            assert forall|k: int| 0 <= k < flags.len() implies #[trigger] flags[k] by {
                if k < before.len() {
                    assert(before[k]);
                } else {
                    assert(rows[rows.len() - 1].parent == parent);
                }
            }
        }
        if forall|k: int| 0 <= k < flags.len() ==> #[trigger] flags[k] {
            assert forall|k: int| 0 <= k < before.len() implies #[trigger] before[k] by {
                assert(flags[k]);
            }
            assert forall|i: int| 0 <= i < rows.len() && (#[trigger] rows[i]).parent == parent implies rows[i].is_complete by {
                if i < rest.len() {
                    assert(rest[i].parent == parent);
                } else {
                    assert(flags[before.len() as int]);
                }
            }
        }
    }
}

/// The hashes of the nodes that a node with the hash `hash` hangs below,
/// in the order of the rows.
pub open spec fn parent_hashes(rows: Seq<InnerRow>, hash: crate::hash::Hash) -> Seq<crate::hash::Hash>
    decreases rows.len(),
{
    if rows.len() == 0 {
        Seq::empty()
    } else if rows.last().hash == hash {
        parent_hashes(rows.drop_last(), hash).push(rows.last().parent)
    } else {
        parent_hashes(rows.drop_last(), hash)
    }
}

/// Whether the children of the node with the hash `hash` at `layer` are
/// all there and complete: for inner children, the node has the hash of
/// the empty collection, or it has children and each is complete; for
/// leaves, the node has the hash of the empty leaf set, or it has leaves.
pub open spec fn children_complete(
    rows: Seq<InnerRow>,
    empty_inner_hash: crate::hash::Hash,
    hash: crate::hash::Hash,
    layer: usize,
    has_leaf_children: bool,
) -> bool {
    if layer < INNER_LAYER_COUNT {
        hash == empty_inner_hash || (has_child(rows, hash) && children_all_complete(rows, hash))
    } else if layer == INNER_LAYER_COUNT {
        hash@ == LeafNodeSet::spec_empty_hash() || has_leaf_children
    } else {
        false
    }
}

/// What is done with a node of the given layer whose children are
/// complete or not.
pub open spec fn step_for(layer: usize, complete: bool) -> CompletionStep {
    if layer > INNER_LAYER_COUNT || !complete {
        CompletionStep::Stop
    } else if layer == 0 {
        CompletionStep::MarkRoot
    } else {
        CompletionStep::MarkInnerAndAscend
    }
}

/// Completeness does not skip a generation: below a complete root or
/// inner node, every inner node is complete.
pub open spec fn completeness_closed(roots: Seq<RootModel>, rows: Seq<InnerRow>) -> bool {
    &&& forall|i: int, c: int|
        0 <= i < rows.len() && 0 <= c < rows.len() && (#[trigger] rows[i]).is_complete && (#[trigger] rows[c]).parent
            == rows[i].hash ==> rows[c].is_complete
    &&& forall|r: int, c: int|
        0 <= r < roots.len() && 0 <= c < rows.len() && (#[trigger] roots[r]).summary.is_complete && (#[trigger] rows[c]).parent
            == roots[r].hash ==> rows[c].is_complete
}

/// The layers are apart where the walk starts: nothing hangs below the
/// hash of the empty collection, and where the walk starts at the layer
/// above the leaves, no inner node hangs below the starting node.
pub open spec fn layers_apart(rows: Seq<InnerRow>, empty_inner_hash: crate::hash::Hash, hash: crate::hash::Hash, layer: usize) -> bool {
    &&& !has_child(rows, empty_inner_hash)
    &&& layer >= INNER_LAYER_COUNT ==> !has_child(rows, hash)
}

/// `after` is `before` with some rows newly marked as complete, and
/// nothing else changed.
pub open spec fn only_marked(before: Seq<InnerRow>, after: Seq<InnerRow>) -> bool {
    &&& after.len() == before.len()
    &&& forall|i: int|
        0 <= i < before.len() ==> (#[trigger] after[i]).parent == before[i].parent && after[i].bucket == before[i].bucket
            && after[i].hash == before[i].hash && (before[i].is_complete ==> after[i].is_complete)
}

/// `after` is `before` with some roots newly marked as complete, and
/// nothing else changed.
pub open spec fn only_completed(before: Seq<RootModel>, after: Seq<RootModel>) -> bool {
    &&& after.len() == before.len()
    &&& forall|i: int|
        0 <= i < before.len() ==> (#[trigger] after[i]) == (RootModel {
            summary: crate::index::Summary {
                is_complete: after[i].summary.is_complete,
                block_presence: before[i].summary.block_presence,
            },
            ..before[i]
        }) && (before[i].summary.is_complete ==> after[i].summary.is_complete)
}

/// The tables after one step of the walk at the node with the hash `hash`.
pub open spec fn stepped(
    roots: Seq<RootModel>,
    rows: Seq<InnerRow>,
    hash: crate::hash::Hash,
    step: CompletionStep,
) -> (Seq<RootModel>, Seq<InnerRow>) {
    match step {
        CompletionStep::Stop => (roots, rows),
        CompletionStep::MarkRoot => (with_completed(roots, hash), rows),
        CompletionStep::MarkInnerAndAscend => (roots, with_marked(rows, hash)),
    }
}

/// The tables after the walk that starts at the node with the hash `hash`
/// at `layer`: the step at that node and, where it marks inner nodes, the
/// walk from each of their parents, one layer up, in the order in which
/// `parent_hashes` gives them.
pub open spec fn walked(
    roots: Seq<RootModel>,
    rows: Seq<InnerRow>,
    empty_inner_hash: crate::hash::Hash,
    hash: crate::hash::Hash,
    layer: usize,
    has_leaf_children: bool,
) -> (Seq<RootModel>, Seq<InnerRow>)
    decreases layer, 0nat,
{
    let step = step_for(layer, children_complete(rows, empty_inner_hash, hash, layer, has_leaf_children));
    let after = stepped(roots, rows, hash, step);
    if step is MarkInnerAndAscend && layer > 0 {
        walked_from_each(after.0, after.1, empty_inner_hash, parent_hashes(rows, hash), (layer - 1) as usize)
    } else {
        after
    }
}

/// The tables after the walks that start at each of `parents` at `layer`,
/// one after the other.
pub open spec fn walked_from_each(
    roots: Seq<RootModel>,
    rows: Seq<InnerRow>,
    empty_inner_hash: crate::hash::Hash,
    parents: Seq<crate::hash::Hash>,
    layer: usize,
) -> (Seq<RootModel>, Seq<InnerRow>)
    decreases layer, parents.len() + 1,
{
    if parents.len() == 0 {
        (roots, rows)
    } else {
        let first = walked(roots, rows, empty_inner_hash, parents[0], layer, false);
        walked_from_each(first.0, first.1, empty_inner_hash, parents.drop_first(), layer)
    }
}

/// A step of the walk keeps completeness from skipping a generation, where
/// the layers are apart, and only marks nodes as complete.
pub proof fn law_step_keeps_completeness_closed(
    roots: Seq<RootModel>,
    rows: Seq<InnerRow>,
    empty_inner_hash: crate::hash::Hash,
    hash: crate::hash::Hash,
    layer: usize,
    has_leaf_children: bool,
)
    ensures
        ({
            let step = step_for(layer, children_complete(rows, empty_inner_hash, hash, layer, has_leaf_children));
            let after = stepped(roots, rows, hash, step);
            &&& only_completed(roots, after.0)
            &&& only_marked(rows, after.1)
            &&& layers_apart(rows, empty_inner_hash, hash, layer) && completeness_closed(roots, rows)
                ==> completeness_closed(after.0, after.1)
        }),
{
    let step = step_for(layer, children_complete(rows, empty_inner_hash, hash, layer, has_leaf_children));
    let after = stepped(roots, rows, hash, step);
    if layers_apart(rows, empty_inner_hash, hash, layer) && completeness_closed(roots, rows) {
        let roots2 = after.0;
        let rows2 = after.1;
        assert forall|i: int, c: int|
            0 <= i < rows2.len() && 0 <= c < rows2.len() && (#[trigger] rows2[i]).is_complete && (#[trigger] rows2[c]).parent
                == rows2[i].hash implies rows2[c].is_complete by {
            assert(rows2[c].parent == rows[c].parent && rows2[i].hash == rows[i].hash);
            if rows[i].is_complete {
                assert(rows[c].is_complete);
            } else {
                // Newly marked: the row has the hash, and its children were checked.
                assert(rows[i].hash == hash);
                assert(rows[c].parent == hash);
                assert(has_child(rows, hash));
                assert(rows[c].is_complete);
            }
        }
        assert forall|r: int, c: int|
            0 <= r < roots2.len() && 0 <= c < rows2.len() && (#[trigger] roots2[r]).summary.is_complete && (
            #[trigger] rows2[c]).parent == roots2[r].hash implies rows2[c].is_complete by {
            assert(rows2[c].parent == rows[c].parent && roots2[r].hash == roots[r].hash);
            if roots[r].summary.is_complete {
                assert(rows[c].is_complete);
            } else {
                assert(roots[r].hash == hash);
                assert(rows[c].parent == hash);
                assert(has_child(rows, hash));
                assert(rows[c].is_complete);
            }
        }
    }
}

/// The table of stored inner nodes.
#[derive(Debug)]
pub struct InnerNodeTable {
    rows: Vec<InnerRow>,
}

impl View for InnerNodeTable {
    type V = Seq<InnerRow>;

    closed spec fn view(&self) -> Seq<InnerRow> {
        self.rows@
    }
}

impl InnerNodeTable {
    pub fn new() -> (r: Self)
        ensures
            r@ == Seq::<InnerRow>::empty(),
    {
        InnerNodeTable { rows: Vec::new() }
    }

    /// Stores an inner node.
    pub fn save(&mut self, row: InnerRow)
        ensures
            final(self)@ == old(self)@.push(row),
    {
        self.rows.push(row);
    }

    /// The rows, in the order in which they were stored.
    pub fn rows(&self) -> (r: &Vec<InnerRow>)
        ensures
            r@ == self@,
    {
        &self.rows
    }

    /// Whether each of the nodes below the node with the hash `parent` is
    /// complete, one flag for each of them, in the order of the rows.
    pub fn load_children_complete(&self, parent: &crate::hash::Hash) -> (r: Vec<bool>)
        ensures
            r@ == children_flags(self@, *parent),
    {
        let mut out: Vec<bool> = Vec::new();
        let mut i: usize = 0;
        assert(self.rows@.take(0) =~= Seq::<InnerRow>::empty());
        while i < self.rows.len()
            invariant
                0 <= i <= self.rows@.len(),
                out@ == children_flags(self.rows@.take(i as int), *parent),
            decreases self.rows@.len() - i,
        {
            proof {
                let next = self.rows@.take(i + 1);
                assert(next.drop_last() =~= self.rows@.take(i as int));
                assert(next.last() == self.rows@[i as int]);
            }
            if hash_eq(&self.rows[i].parent, parent) {
                out.push(self.rows[i].is_complete);
            }
            i = i + 1;
        }
        assert(self.rows@.take(self.rows@.len() as int) =~= self.rows@);
        out
    }

    /// The hashes of the nodes that a node with this hash hangs below.
    pub fn load_parent_hashes(&self, hash: &crate::hash::Hash) -> (r: Vec<crate::hash::Hash>)
        ensures
            r@ == parent_hashes(self@, *hash),
    {
        let mut out: Vec<crate::hash::Hash> = Vec::new();
        let mut i: usize = 0;
        assert(self.rows@.take(0) =~= Seq::<InnerRow>::empty());
        while i < self.rows.len()
            invariant
                0 <= i <= self.rows@.len(),
                out@ == parent_hashes(self.rows@.take(i as int), *hash),
            decreases self.rows@.len() - i,
        {
            proof {
                let next = self.rows@.take(i + 1);
                assert(next.drop_last() =~= self.rows@.take(i as int));
                assert(next.last() == self.rows@[i as int]);
            }
            if hash_eq(&self.rows[i].hash, hash) {
                out.push(self.rows[i].parent);
            }
            i = i + 1;
        }
        assert(self.rows@.take(self.rows@.len() as int) =~= self.rows@);
        out
    }

    /// Marks every node with this hash as complete.
    pub fn set_complete(&mut self, hash: &crate::hash::Hash)
        ensures
            final(self)@ == with_marked(old(self)@, *hash),
    {
        let mut i: usize = 0;
        while i < self.rows.len()
            invariant
                0 <= i <= self.rows@.len(),
                self.rows@.len() == old(self).rows@.len(),
                forall|j: int| 0 <= j < i ==> #[trigger] self.rows@[j] == marked_row(old(self).rows@[j], *hash),
                forall|j: int| i <= j < self.rows@.len() ==> #[trigger] self.rows@[j] == old(self).rows@[j],
            decreases self.rows@.len() - i,
        {
            if hash_eq(&self.rows[i].hash, hash) {
                self.rows[i].is_complete = true;
            }
            i = i + 1;
        }
        assert(self@ =~= with_marked(old(self)@, *hash));
    }
}

/// One step of the walk: checks the children of the node with the hash
/// `hash` at `layer` and, where they are all there, marks the root nodes
/// with that hash as complete, at layer zero, or the inner nodes with that
/// hash, below it. Returns the hashes of the nodes to go on with, one
/// layer up: the parents of the inner nodes that were marked.
pub fn mark_step(
    roots: &mut SnapshotTable,
    inner: &mut InnerNodeTable,
    empty_inner_hash: &crate::hash::Hash,
    hash: &crate::hash::Hash,
    layer: usize,
    has_leaf_children: bool,
) -> (parents: Vec<crate::hash::Hash>)
    requires
        old(roots).wf(),
    ensures
        final(roots).wf(),
        final(roots).next_id() == old(roots).next_id(),
        (final(roots).rows(), final(inner)@) == stepped(
            old(roots).rows(),
            old(inner)@,
            *hash,
            step_for(layer, children_complete(old(inner)@, *empty_inner_hash, *hash, layer, has_leaf_children)),
        ),
        parents@ == (if step_for(
            layer,
            children_complete(old(inner)@, *empty_inner_hash, *hash, layer, has_leaf_children),
        ) is MarkInnerAndAscend {
            parent_hashes(old(inner)@, *hash)
        } else {
            Seq::<crate::hash::Hash>::empty()
        }),
{
    let complete = match children_check(layer) {
        ChildrenCheck::Inner => {
            let flags = inner.load_children_complete(hash);
            proof {
                lemma_children_flags(inner@, *hash);
            }
            inner_children_complete(hash, empty_inner_hash, &flags)
        },
        ChildrenCheck::Leaf => leaf_children_complete(hash, has_leaf_children),
        ChildrenCheck::NoLayer => false,
    };
    match completion_step(layer, complete) {
        CompletionStep::Stop => Vec::new(),
        CompletionStep::MarkRoot => {
            roots.set_complete(hash);
            Vec::new()
        },
        CompletionStep::MarkInnerAndAscend => {
            let parents = inner.load_parent_hashes(hash);
            inner.set_complete(hash);
            parents
        },
    }
}

/// Detects snapshots that have been completely downloaded: starts at the
/// node with the hash `hash` at `layer`, whose children were written, and
/// walks towards the roots, marking as complete every node on the way
/// whose children are all there. `has_leaf_children` says whether leaves
/// are stored below the starting node.
pub fn detect_complete_snapshots(
    roots: &mut SnapshotTable,
    inner: &mut InnerNodeTable,
    empty_inner_hash: &crate::hash::Hash,
    hash: &crate::hash::Hash,
    layer: usize,
    has_leaf_children: bool,
)
    requires
        old(roots).wf(),
    ensures
        final(roots).wf(),
        final(roots).next_id() == old(roots).next_id(),
        (final(roots).rows(), final(inner)@) == walked(
            old(roots).rows(),
            old(inner)@,
            *empty_inner_hash,
            *hash,
            layer,
            has_leaf_children,
        ),
        only_completed(old(roots).rows(), final(roots).rows()),
        only_marked(old(inner)@, final(inner)@),
        layers_apart(old(inner)@, *empty_inner_hash, *hash, layer) && completeness_closed(old(roots).rows(), old(inner)@)
            ==> completeness_closed(final(roots).rows(), final(inner)@),
    decreases layer,
{
    proof {
        law_step_keeps_completeness_closed(
            roots.rows(),
            inner@,
            *empty_inner_hash,
            *hash,
            layer,
            has_leaf_children,
        );
    }
    let parents = mark_step(roots, inner, empty_inner_hash, hash, layer, has_leaf_children);
    let ghost apart = layers_apart(old(inner)@, *empty_inner_hash, *hash, layer) && completeness_closed(
        old(roots).rows(),
        old(inner)@,
    );
    let ghost first_roots = roots.rows();
    let ghost first_rows = inner@;
    proof {
        assert(parents@.skip(0) =~= parents@);
    }
    let mut k: usize = 0;
    while k < parents.len()
        invariant
            0 <= k <= parents@.len(),
            parents@.len() > 0 ==> 0 < layer <= INNER_LAYER_COUNT,
            roots.wf(),
            roots.next_id() == old(roots).next_id(),
            only_completed(first_roots, roots.rows()),
            only_marked(first_rows, inner@),
            only_completed(old(roots).rows(), first_roots),
            only_marked(old(inner)@, first_rows),
            apart ==> !has_child(inner@, *empty_inner_hash) && completeness_closed(roots.rows(), inner@),
            parents@.len() == 0 ==> roots.rows() == first_roots && inner@ == first_rows,
            parents@.len() > 0 ==> walked_from_each(
                roots.rows(),
                inner@,
                *empty_inner_hash,
                parents@.skip(k as int),
                (layer - 1) as usize,
            ) == walked_from_each(first_roots, first_rows, *empty_inner_hash, parents@, (layer - 1) as usize),
        decreases parents@.len() - k,
    {
        let ghost roots_before = roots.rows();
        let ghost rows_before = inner@;
        let parent = parents[k];
        detect_complete_snapshots(roots, inner, empty_inner_hash, &parent, layer - 1, false);
        proof {
            let rest = parents@.skip(k as int);
            assert(rest[0] == parent);
            assert(rest.drop_first() =~= parents@.skip(k + 1));
            lemma_only_marked_transitive(first_rows, rows_before, inner@);
            lemma_only_completed_transitive(first_roots, roots_before, roots.rows());
            if apart {
                assert(layers_apart(rows_before, *empty_inner_hash, parent, (layer - 1) as usize));
                lemma_no_child_kept(rows_before, inner@, *empty_inner_hash);
            }
        }
        k = k + 1;
    }
    proof {
        assert(parents@.skip(parents@.len() as int) =~= Seq::<crate::hash::Hash>::empty());
        lemma_only_marked_transitive(old(inner)@, first_rows, inner@);
        lemma_only_completed_transitive(old(roots).rows(), first_roots, roots.rows());
        if apart {
            lemma_no_child_kept(old(inner)@, first_rows, *empty_inner_hash);
        }
    }
}

/// Marking upon marking is marking.
pub proof fn lemma_only_marked_transitive(a: Seq<InnerRow>, b: Seq<InnerRow>, c: Seq<InnerRow>)
    requires
        only_marked(a, b),
        only_marked(b, c),
    ensures
        only_marked(a, c),
{
    assert forall|i: int| 0 <= i < a.len() implies (#[trigger] c[i]).parent == a[i].parent && c[i].bucket == a[i].bucket
        && c[i].hash == a[i].hash && (a[i].is_complete ==> c[i].is_complete) by {
        assert(b[i].parent == a[i].parent);
        assert(c[i].parent == b[i].parent);
    }
}

/// Completing upon completing is completing.
pub proof fn lemma_only_completed_transitive(a: Seq<RootModel>, b: Seq<RootModel>, c: Seq<RootModel>)
    requires
        only_completed(a, b),
        only_completed(b, c),
    ensures
        only_completed(a, c),
{
    assert forall|i: int| 0 <= i < a.len() implies (#[trigger] c[i]) == (RootModel {
        summary: crate::index::Summary {
            is_complete: c[i].summary.is_complete,
            block_presence: a[i].summary.block_presence,
        },
        ..a[i]
    }) && (a[i].summary.is_complete ==> c[i].summary.is_complete) by {
        assert(b[i].hash == a[i].hash);
        assert(c[i].hash == b[i].hash);
    }
}

/// Marking gives no node a child.
pub proof fn lemma_no_child_kept(before: Seq<InnerRow>, after: Seq<InnerRow>, parent: crate::hash::Hash)
    requires
        only_marked(before, after),
        !has_child(before, parent),
    ensures
        !has_child(after, parent),
{
    if has_child(after, parent) {
        let i = choose|i: int| 0 <= i < after.len() && (#[trigger] after[i]).parent == parent;
        assert(before[i].parent == parent);
    }
}

/// The node with the hash `hash` hangs below a root, no more than `depth`
/// inner nodes down.
pub open spec fn live(roots: Seq<RootModel>, rows: Seq<InnerRow>, hash: crate::hash::Hash, depth: nat) -> bool
    decreases depth,
{
    has_hash(roots, hash) || (depth > 0 && exists|i: int|
        0 <= i < rows.len() && (#[trigger] rows[i]).hash == hash && live(roots, rows, rows[i].parent, (depth - 1) as nat))
}

/// Which hashes are those of nodes that hang below a root, no more than
/// `depth` inner nodes down.
pub open spec fn live_within(roots: Seq<RootModel>, rows: Seq<InnerRow>, depth: nat) -> spec_fn(crate::hash::Hash) -> bool {
    |h: crate::hash::Hash| live(roots, rows, h, depth)
}

/// The rows of `rows` whose parent `keep` holds of, in their order.
pub open spec fn kept_inner(rows: Seq<InnerRow>, keep: spec_fn(crate::hash::Hash) -> bool) -> Seq<InnerRow>
    decreases rows.len(),
{
    if rows.len() == 0 {
        Seq::empty()
    } else if keep(rows.last().parent) {
        kept_inner(rows.drop_last(), keep).push(rows.last())
    } else {
        kept_inner(rows.drop_last(), keep)
    }
}

/// Which rows are kept depends only on what `keep` says of their parents.
pub proof fn lemma_kept_inner_congruent(
    rows: Seq<InnerRow>,
    keep: spec_fn(crate::hash::Hash) -> bool,
    other: spec_fn(crate::hash::Hash) -> bool,
)
    requires
        forall|i: int| 0 <= i < rows.len() ==> keep((#[trigger] rows[i]).parent) == other(rows[i].parent),
    ensures
        kept_inner(rows, keep) == kept_inner(rows, other),
    decreases rows.len(),
{
    if rows.len() > 0 {
        assert forall|i: int| 0 <= i < rows.drop_last().len() implies keep((#[trigger] rows.drop_last()[i]).parent) == other(
            rows.drop_last()[i].parent,
        ) by {
            assert(keep(rows[i].parent) == other(rows[i].parent));
        }
        lemma_kept_inner_congruent(rows.drop_last(), keep, other);
        assert(keep(rows[rows.len() - 1].parent) == other(rows[rows.len() - 1].parent));
    }
}

impl InnerNodeTable {
    /// Keeps the nodes that hang below one of `parents`, and drops the rest.
    pub fn retain_below(&mut self, parents: &Vec<crate::hash::Hash>)
        ensures
            final(self)@ == kept_inner(old(self)@, |h: crate::hash::Hash| parents@.contains(h)),
    {
        let ghost keep = |h: crate::hash::Hash| parents@.contains(h);
        let mut out: Vec<InnerRow> = Vec::new();
        let mut i: usize = 0;
        assert(self.rows@.take(0) =~= Seq::<InnerRow>::empty());
        while i < self.rows.len()
            invariant
                0 <= i <= self.rows@.len(),
                self.rows@ == old(self).rows@,
                keep == (|h: crate::hash::Hash| parents@.contains(h)),
                out@ == kept_inner(self.rows@.take(i as int), keep),
            decreases self.rows@.len() - i,
        {
            proof {
                let next = self.rows@.take(i + 1);
                assert(next.drop_last() =~= self.rows@.take(i as int));
                assert(next.last() == self.rows@[i as int]);
            }
            if crate::idset::contains_hash(parents, &self.rows[i].parent) {
                out.push(self.rows[i]);
            }
            i = i + 1;
        }
        assert(self.rows@.take(self.rows@.len() as int) =~= self.rows@);
        self.rows = out;
    }

    /// The hashes of `level`, and those of the nodes that hang below one
    /// of them.
    pub fn extend_live(&self, level: &Vec<crate::hash::Hash>) -> (r: Vec<crate::hash::Hash>)
        ensures
            forall|h: crate::hash::Hash|
                r@.contains(h) <==> level@.contains(h) || exists|i: int|
                    0 <= i < self@.len() && (#[trigger] self@[i]).hash == h && level@.contains(self@[i].parent),
    {
        let mut out: Vec<crate::hash::Hash> = Vec::new();
        let mut k: usize = 0;
        assert(level@.take(0) =~= Seq::<crate::hash::Hash>::empty());
        while k < level.len()
            invariant
                0 <= k <= level@.len(),
                out@ == level@.take(k as int),
            decreases level@.len() - k,
        {
            out.push(level[k]);
            assert(level@.take(k + 1) =~= level@.take(k as int).push(level@[k as int]));
            k = k + 1;
        }
        assert(level@.take(level@.len() as int) =~= level@);
        let mut i: usize = 0;
        while i < self.rows.len()
            invariant
                0 <= i <= self.rows@.len(),
                forall|h: crate::hash::Hash|
                    out@.contains(h) <==> level@.contains(h) || exists|j: int|
                        0 <= j < i && (#[trigger] self@[j]).hash == h && level@.contains(self@[j].parent),
            decreases self.rows@.len() - i,
        {
            let ghost before = out@;
            let take = crate::idset::contains_hash(level, &self.rows[i].parent);
            if take {
                out.push(self.rows[i].hash);
            }
            proof {
                let rows = self@;
                assert forall|h: crate::hash::Hash|
                    out@.contains(h) <==> level@.contains(h) || exists|j: int|
                        0 <= j < i + 1 && (#[trigger] rows[j]).hash == h && level@.contains(rows[j].parent) by {
                    if take {
                        crate::idset::lemma_push_contains(before, rows[i as int].hash, h);
                    }
                    if before.contains(h) && !level@.contains(h) {
                        let j = choose|j: int| 0 <= j < i && (#[trigger] rows[j]).hash == h && level@.contains(rows[j].parent);
                        assert(0 <= j < i + 1);
                    }
                    if exists|j: int| 0 <= j < i + 1 && (#[trigger] rows[j]).hash == h && level@.contains(rows[j].parent) {
                        let j = choose|j: int|
                            0 <= j < i + 1 && (#[trigger] rows[j]).hash == h && level@.contains(rows[j].parent);
                        if j < i {
                            assert(before.contains(h));
                        }
                    }
                }
            }
            i = i + 1;
        }
        out
    }
}

/// One more layer of what hangs below the roots.
pub proof fn lemma_live_step(
    roots: Seq<RootModel>,
    rows: Seq<InnerRow>,
    level: Seq<crate::hash::Hash>,
    next: Seq<crate::hash::Hash>,
    depth: nat,
)
    requires
        forall|h: crate::hash::Hash| level.contains(h) <==> live(roots, rows, h, depth),
        forall|h: crate::hash::Hash|
            next.contains(h) <==> level.contains(h) || exists|i: int|
                0 <= i < rows.len() && (#[trigger] rows[i]).hash == h && level.contains(rows[i].parent),
    ensures
        forall|h: crate::hash::Hash| next.contains(h) <==> live(roots, rows, h, depth + 1),
{
    assert forall|h: crate::hash::Hash| next.contains(h) <==> live(roots, rows, h, depth + 1) by {
        if level.contains(h) {
            lemma_live_deeper(roots, rows, h, depth);
        }
        if exists|i: int| 0 <= i < rows.len() && (#[trigger] rows[i]).hash == h && level.contains(rows[i].parent) {
            let i = choose|i: int| 0 <= i < rows.len() && (#[trigger] rows[i]).hash == h && level.contains(rows[i].parent);
            assert(live(roots, rows, rows[i].parent, depth));
        }
        if live(roots, rows, h, depth + 1) && !has_hash(roots, h) {
            let i = choose|i: int|
                0 <= i < rows.len() && (#[trigger] rows[i]).hash == h && live(roots, rows, rows[i].parent, depth);
            assert(level.contains(rows[i].parent));
        }
        if has_hash(roots, h) {
            assert(live(roots, rows, h, depth));
        }
    }
}

/// What hangs below a root within some depth does so within a greater one.
pub proof fn lemma_live_deeper(roots: Seq<RootModel>, rows: Seq<InnerRow>, hash: crate::hash::Hash, depth: nat)
    requires
        live(roots, rows, hash, depth),
    ensures
        live(roots, rows, hash, depth + 1),
    decreases depth,
{
    if !has_hash(roots, hash) {
        let i = choose|i: int|
            0 <= i < rows.len() && (#[trigger] rows[i]).hash == hash && live(roots, rows, rows[i].parent, (depth - 1) as nat);
        lemma_live_deeper(roots, rows, rows[i].parent, (depth - 1) as nat);
    }
}

/// Drops the inner nodes and the leaves that hang below no root any more:
/// an inner node stays where its parent hangs below a root within the
/// inner layers above it, a leaf where its parent does within all of them.
pub fn sweep_unreachable(roots: &SnapshotTable, inner: &mut InnerNodeTable, leaves: &mut LeafTable)
    ensures
        final(inner)@ == kept_inner(old(inner)@, live_within(roots.rows(), old(inner)@, (INNER_LAYER_COUNT - 1) as nat)),
        final(leaves)@ == kept_leaves(old(leaves)@, live_within(roots.rows(), old(inner)@, INNER_LAYER_COUNT as nat)),
{
    let level0 = roots.root_hashes();
    let level1 = inner.extend_live(&level0);
    let level2 = inner.extend_live(&level1);
    let level3 = inner.extend_live(&level2);
    proof {
        let r = roots.rows();
        let rows = inner@;
        assert forall|h: crate::hash::Hash| level0@.contains(h) <==> live(r, rows, h, 0) by {}
        lemma_live_step(r, rows, level0@, level1@, 0);
        lemma_live_step(r, rows, level1@, level2@, 1);
        lemma_live_step(r, rows, level2@, level3@, 2);
        assert forall|i: int| 0 <= i < rows.len() implies (|h: crate::hash::Hash| level2@.contains(h))(
            (#[trigger] rows[i]).parent,
        ) == live_within(r, rows, 2)(rows[i].parent) by {}
        lemma_kept_inner_congruent(rows, |h: crate::hash::Hash| level2@.contains(h), live_within(r, rows, 2));
        assert forall|i: int| 0 <= i < leaves@.len() implies (|h: crate::hash::Hash| level3@.contains(h))(
            (#[trigger] leaves@[i]).parent,
        ) == live_within(r, rows, 3)(leaves@[i].parent) by {}
        lemma_kept_leaves_congruent(leaves@, |h: crate::hash::Hash| level3@.contains(h), live_within(r, rows, 3));
    }
    inner.retain_below(&level2);
    leaves.retain_below(&level3);
}

/// Removes the snapshot with this id, and with it the inner nodes and the
/// leaves that hang below no other root. Returns whether there was such a
/// snapshot.
pub fn remove_snapshot(roots: &mut SnapshotTable, inner: &mut InnerNodeTable, leaves: &mut LeafTable, snapshot_id: u64) -> (r:
    bool)
    requires
        old(roots).wf(),
    ensures
        final(roots).wf(),
        final(roots).next_id() == old(roots).next_id(),
        r == has_snapshot(old(roots).rows(), snapshot_id),
        forall|row: RootModel|
            final(roots).rows().contains(row) <==> old(roots).rows().contains(row) && row.snapshot_id != snapshot_id,
        final(inner)@ == kept_inner(
            old(inner)@,
            live_within(final(roots).rows(), old(inner)@, (INNER_LAYER_COUNT - 1) as nat),
        ),
        final(leaves)@ == kept_leaves(old(leaves)@, live_within(final(roots).rows(), old(inner)@, INNER_LAYER_COUNT as nat)),
{
    let r = roots.remove_recursively(snapshot_id);
    sweep_unreachable(roots, inner, leaves);
    r
}

/// Removes the snapshots of `writer_id` that are older than the snapshot
/// `snapshot_id`, and with them the inner nodes and the leaves that hang
/// below no other root.
pub fn remove_snapshots_older(
    roots: &mut SnapshotTable,
    inner: &mut InnerNodeTable,
    leaves: &mut LeafTable,
    snapshot_id: u64,
    writer_id: &crate::hash::Hash,
)
    requires
        old(roots).wf(),
    ensures
        final(roots).wf(),
        final(roots).next_id() == old(roots).next_id(),
        forall|row: RootModel|
            #![trigger final(roots).rows().contains(row)]
            #![trigger old(roots).rows().contains(row)]
            final(roots).rows().contains(row) <==> old(roots).rows().contains(row) && !crate::snapshot::is_older(
                row,
                snapshot_id,
                *writer_id,
            ),
        final(inner)@ == kept_inner(
            old(inner)@,
            live_within(final(roots).rows(), old(inner)@, (INNER_LAYER_COUNT - 1) as nat),
        ),
        final(leaves)@ == kept_leaves(old(leaves)@, live_within(final(roots).rows(), old(inner)@, INNER_LAYER_COUNT as nat)),
{
    roots.remove_recursively_all_older(snapshot_id, writer_id);
    sweep_unreachable(roots, inner, leaves);
}

} // verus!
