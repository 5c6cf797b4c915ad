//! The stored leaf nodes of all snapshots, row by row.

use crate::block_store::{BlockModel, BlockStore, PutOutcome};
use crate::hash::hash_eq;
use crate::leaf::{distinct_locators, sorted, LeafNode, LeafNodeSet};
use vstd::prelude::*;

verus! {

/// A stored leaf node: the node that it hangs below, and the leaf.
#[derive(Clone, Copy, Debug)]
pub struct LeafRow {
    pub parent: crate::hash::Hash,
    pub locator: crate::hash::Hash,
    pub block_id: crate::hash::Hash,
    pub is_missing: bool,
}

/// `row` is filed for the same parent, locator and block as `other`.
pub open spec fn same_leaf(row: LeafRow, other: LeafRow) -> bool {
    row.parent == other.parent && row.locator == other.locator && row.block_id == other.block_id
}

/// Some row of `rows` is filed for the parent, locator and block of `row`.
pub open spec fn has_leaf(rows: Seq<LeafRow>, row: LeafRow) -> bool {
    exists|i: int| 0 <= i < rows.len() && same_leaf(#[trigger] rows[i], row)
}

/// No two rows are filed for the same parent, locator and block.
pub open spec fn one_row_per_leaf(rows: Seq<LeafRow>) -> bool {
    forall|i: int, j: int| 0 <= i < j < rows.len() ==> !same_leaf(#[trigger] rows[i], #[trigger] rows[j])
}

/// The rows after `row` was saved: it is added unless a row is filed for
/// its parent, locator and block, in which case nothing changes.
pub open spec fn saved(rows: Seq<LeafRow>, row: LeafRow) -> Seq<LeafRow> {
    if has_leaf(rows, row) {
        rows
    } else {
        rows.push(row)
    }
}

/// Some row hangs below the node with the hash `parent`.
pub open spec fn has_leaf_child(rows: Seq<LeafRow>, parent: crate::hash::Hash) -> bool {
    exists|i: int| 0 <= i < rows.len() && (#[trigger] rows[i]).parent == parent
}

/// The leaves that hang below the node with the hash `parent`, in the
/// order of the rows.
pub open spec fn leaf_children(rows: Seq<LeafRow>, parent: crate::hash::Hash) -> Seq<LeafNode>
    decreases rows.len(),
{
    if rows.len() == 0 {
        Seq::empty()
    } else if rows.last().parent == parent {
        leaf_children(rows.drop_last(), parent).push(
            LeafNode { locator: rows.last().locator, block_id: rows.last().block_id, is_missing: rows.last().is_missing },
        )
    } else {
        leaf_children(rows.drop_last(), parent)
    }
}

/// The row with its block taken to be missing or present, if it is for
/// this block, and as it is otherwise.
pub open spec fn marked_leaf(row: LeafRow, block_id: crate::hash::Hash, missing: bool) -> LeafRow {
    if row.block_id == block_id {
        LeafRow { is_missing: missing, ..row }
    } else {
        row
    }
}

/// The rows after every row for `block_id` was marked.
pub open spec fn with_leaves_marked(rows: Seq<LeafRow>, block_id: crate::hash::Hash, missing: bool) -> Seq<LeafRow> {
    rows.map_values(|row: LeafRow| marked_leaf(row, block_id, missing))
}

/// Every stored leaf that takes its block to be present has its block in
/// the store.
pub open spec fn leaves_present(rows: Seq<LeafRow>, store: Map<crate::hash::Hash, BlockModel>) -> bool {
    forall|i: int| 0 <= i < rows.len() && !(#[trigger] rows[i]).is_missing ==> store.dom().contains(rows[i].block_id)
}

/// Saving a leaf keeps every present block in the store, where the leaf
/// takes its block to be missing or the block is in the store. A row that
/// was there stays as it was, and no other row changes.
pub proof fn law_save_keeps_leaves_present(rows: Seq<LeafRow>, store: Map<crate::hash::Hash, BlockModel>, row: LeafRow)
    requires
        leaves_present(rows, store),
        row.is_missing || store.dom().contains(row.block_id),
    ensures
        leaves_present(saved(rows, row), store),
        has_leaf(saved(rows, row), row),
        forall|i: int| 0 <= i < rows.len() ==> #[trigger] saved(rows, row)[i] == rows[i],
        one_row_per_leaf(rows) ==> one_row_per_leaf(saved(rows, row)),
{
    let after = saved(rows, row);
    if !has_leaf(rows, row) {
        assert(same_leaf(after[rows.len() as int], row));
        assert forall|i: int| 0 <= i < after.len() && !(#[trigger] after[i]).is_missing implies store.dom().contains(
            after[i].block_id,
        ) by {
            if i < rows.len() {
                assert(after[i] == rows[i]);
            }
        }
        if one_row_per_leaf(rows) {
            assert forall|i: int, j: int| 0 <= i < j < after.len() implies !same_leaf(#[trigger] after[i], #[trigger] after[j]) by {
                if j < rows.len() {
                    assert(!same_leaf(rows[i], rows[j]));
                } else {
                    assert(after[i] == rows[i]);
                    if same_leaf(rows[i], row) {
                        assert(has_leaf(rows, row));
                    }
                }
            }
        }
    }
}

/// The rows of `rows` whose parent `keep` holds of, in their order.
pub open spec fn kept_leaves(rows: Seq<LeafRow>, keep: spec_fn(crate::hash::Hash) -> bool) -> Seq<LeafRow>
    decreases rows.len(),
{
    if rows.len() == 0 {
        Seq::empty()
    } else if keep(rows.last().parent) {
        kept_leaves(rows.drop_last(), keep).push(rows.last())
    } else {
        kept_leaves(rows.drop_last(), keep)
    }
}

/// Which rows are kept depends only on what `keep` says of their parents.
pub proof fn lemma_kept_leaves_congruent(
    rows: Seq<LeafRow>,
    keep: spec_fn(crate::hash::Hash) -> bool,
    other: spec_fn(crate::hash::Hash) -> bool,
)
    requires
        forall|i: int| 0 <= i < rows.len() ==> keep((#[trigger] rows[i]).parent) == other(rows[i].parent),
    ensures
        kept_leaves(rows, keep) == kept_leaves(rows, other),
    decreases rows.len(),
{
    if rows.len() > 0 {
        assert forall|i: int| 0 <= i < rows.drop_last().len() implies keep((#[trigger] rows.drop_last()[i]).parent) == other(
            rows.drop_last()[i].parent,
        ) by {
            assert(keep(rows[i].parent) == other(rows[i].parent));
        }
        lemma_kept_leaves_congruent(rows.drop_last(), keep, other);
        assert(keep(rows[rows.len() - 1].parent) == other(rows[rows.len() - 1].parent));
    }
}

/// Taking leaves away keeps every present block in the store.
pub proof fn law_kept_leaves_present(
    rows: Seq<LeafRow>,
    keep: spec_fn(crate::hash::Hash) -> bool,
    store: Map<crate::hash::Hash, BlockModel>,
)
    requires
        leaves_present(rows, store),
    ensures
        leaves_present(kept_leaves(rows, keep), store),
    decreases rows.len(),
{
    if rows.len() > 0 {
        let rest = rows.drop_last();
        assert forall|i: int| 0 <= i < rest.len() && !(#[trigger] rest[i]).is_missing implies store.dom().contains(
            rest[i].block_id,
        ) by {
            assert(!rows[i].is_missing);
        }
        law_kept_leaves_present(rest, keep, store);
        let after = kept_leaves(rows, keep);
        let before = kept_leaves(rest, keep);
        assert forall|i: int| 0 <= i < after.len() && !(#[trigger] after[i]).is_missing implies store.dom().contains(
            after[i].block_id,
        ) by {
            if i < before.len() {
                assert(after[i] == before[i]);
            } else {
                assert(after[i] == rows[rows.len() - 1]);
            }
        }
    }
}

/// The table of stored leaf nodes.
#[derive(Debug)]
pub struct LeafTable {
    rows: Vec<LeafRow>,
}

impl View for LeafTable {
    type V = Seq<LeafRow>;

    closed spec fn view(&self) -> Seq<LeafRow> {
        self.rows@
    }
}

impl LeafTable {
    pub fn new() -> (r: Self)
        ensures
            r@ == Seq::<LeafRow>::empty(),
    {
        LeafTable { rows: Vec::new() }
    }

    /// The rows, in the order in which they were stored.
    pub fn rows(&self) -> (r: &Vec<LeafRow>)
        ensures
            r@ == self@,
    {
        &self.rows
    }

    /// Saves a leaf below the node with the hash `parent`, unless it is
    /// there. Returns whether it was added.
    pub fn save(&mut self, parent: &crate::hash::Hash, node: &LeafNode) -> (added: bool)
        ensures
            final(self)@ == saved(
                old(self)@,
                LeafRow { parent: *parent, locator: node.locator, block_id: node.block_id, is_missing: node.is_missing },
            ),
            added == !has_leaf(
                old(self)@,
                LeafRow { parent: *parent, locator: node.locator, block_id: node.block_id, is_missing: node.is_missing },
            ),
    {
        let row = LeafRow { parent: *parent, locator: node.locator, block_id: node.block_id, is_missing: node.is_missing };
        let mut i: usize = 0;
        while i < self.rows.len()
            invariant
                0 <= i <= self.rows@.len(),
                self.rows@ == old(self).rows@,
                row == (LeafRow {
                    parent: *parent,
                    locator: node.locator,
                    block_id: node.block_id,
                    is_missing: node.is_missing,
                }),
                forall|j: int| 0 <= j < i ==> !same_leaf(#[trigger] self.rows@[j], row),
            decreases self.rows@.len() - i,
        {
            if hash_eq(&self.rows[i].parent, &row.parent) && hash_eq(&self.rows[i].locator, &row.locator) && hash_eq(
                &self.rows[i].block_id,
                &row.block_id,
            ) {
                assert(same_leaf(self.rows@[i as int], row));
                return false;
            }
            i = i + 1;
        }
        self.rows.push(row);
        true
    }

    /// Keeps the leaves that hang below one of `parents`, and drops the rest.
    pub fn retain_below(&mut self, parents: &Vec<crate::hash::Hash>)
        ensures
            final(self)@ == kept_leaves(old(self)@, |h: crate::hash::Hash| parents@.contains(h)),
    {
        let ghost keep = |h: crate::hash::Hash| parents@.contains(h);
        let mut out: Vec<LeafRow> = Vec::new();
        let mut i: usize = 0;
        assert(self.rows@.take(0) =~= Seq::<LeafRow>::empty());
        while i < self.rows.len()
            invariant
                0 <= i <= self.rows@.len(),
                self.rows@ == old(self).rows@,
                keep == (|h: crate::hash::Hash| parents@.contains(h)),
                out@ == kept_leaves(self.rows@.take(i as int), keep),
            decreases self.rows@.len() - i,
        {
            proof {
                let next = self.rows@.take(i + 1);
                assert(next.drop_last() =~= self.rows@.take(i as int));
                assert(next.last() == self.rows@[i as int]);
            }
            if crate::idset::contains_hash(parents, &self.rows[i].parent) {
                out.push(self.rows[i]);
            }
            i = i + 1;
        }
        assert(self.rows@.take(self.rows@.len() as int) =~= self.rows@);
        self.rows = out;
    }

    /// Whether leaves are stored below the node with the hash `parent`.
    pub fn has_children(&self, parent: &crate::hash::Hash) -> (r: bool)
        ensures
            r == has_leaf_child(self@, *parent),
    {
        let mut i: usize = 0;
        while i < self.rows.len()
            invariant
                0 <= i <= self.rows@.len(),
                forall|j: int| 0 <= j < i ==> (#[trigger] self.rows@[j]).parent != *parent,
            decreases self.rows@.len() - i,
        {
            if hash_eq(&self.rows[i].parent, parent) {
                return true;
            }
            i = i + 1;
        }
        false
    }

    /// The leaves below the node with the hash `parent`, ordered by
    /// locator. They are a set in order where no two of them share a
    /// locator.
    pub fn load_children(&self, parent: &crate::hash::Hash) -> (r: LeafNodeSet)
        ensures
            sorted(r@),
            r@.to_multiset() == leaf_children(self@, *parent).to_multiset(),
            r.wf() <==> distinct_locators(leaf_children(self@, *parent)),
    {
        let mut nodes: Vec<LeafNode> = Vec::new();
        let mut i: usize = 0;
        assert(self.rows@.take(0) =~= Seq::<LeafRow>::empty());
        while i < self.rows.len()
            invariant
                0 <= i <= self.rows@.len(),
                nodes@ == leaf_children(self.rows@.take(i as int), *parent),
            decreases self.rows@.len() - i,
        {
            proof {
                let next = self.rows@.take(i + 1);
                assert(next.drop_last() =~= self.rows@.take(i as int));
                assert(next.last() == self.rows@[i as int]);
            }
            if hash_eq(&self.rows[i].parent, parent) {
                let row = self.rows[i];
                nodes.push(if row.is_missing {
                    LeafNode::missing(row.locator, row.block_id)
                } else {
                    LeafNode::present(row.locator, row.block_id)
                });
            }
            i = i + 1;
        }
        assert(self.rows@.take(self.rows@.len() as int) =~= self.rows@);
        LeafNodeSet::from_nodes(nodes)
    }

    /// Takes the block to be missing, or present, in every leaf that is
    /// for it. Returns whether a leaf has changed.
    pub fn mark_block(&mut self, block_id: &crate::hash::Hash, missing: bool) -> (changed: bool)
        ensures
            final(self)@ == with_leaves_marked(old(self)@, *block_id, missing),
            changed == exists|i: int|
                0 <= i < old(self)@.len() && (#[trigger] old(self)@[i]).block_id == *block_id && old(self)@[i].is_missing
                    != missing,
    {
        let mut changed = false;
        let mut i: usize = 0;
        while i < self.rows.len()
            invariant
                0 <= i <= self.rows@.len(),
                self.rows@.len() == old(self).rows@.len(),
                forall|j: int| 0 <= j < i ==> #[trigger] self.rows@[j] == marked_leaf(old(self).rows@[j], *block_id, missing),
                forall|j: int| i <= j < self.rows@.len() ==> #[trigger] self.rows@[j] == old(self).rows@[j],
                changed <==> exists|j: int|
                    0 <= j < i && (#[trigger] old(self).rows@[j]).block_id == *block_id && old(self).rows@[j].is_missing
                        != missing,
            decreases self.rows@.len() - i,
        {
            if hash_eq(&self.rows[i].block_id, block_id) {
                if self.rows[i].is_missing != missing {
                    changed = true;
                }
                self.rows[i].is_missing = missing;
            }
            proof {
                let olds = old(self).rows@;
                if changed {
                    if !(olds[i as int].block_id == *block_id && olds[i as int].is_missing != missing) {
                        let j = choose|j: int|
                            0 <= j < i && (#[trigger] olds[j]).block_id == *block_id && olds[j].is_missing != missing;
                        assert(0 <= j < i + 1);
                    }
                }
                if exists|j: int| 0 <= j < i + 1 && (#[trigger] olds[j]).block_id == *block_id && olds[j].is_missing != missing {
                    let j = choose|j: int|
                        0 <= j < i + 1 && (#[trigger] olds[j]).block_id == *block_id && olds[j].is_missing != missing;
                    if j < i {
                        assert(changed);
                    }
                }
            }
            i = i + 1;
        }
        assert(self@ =~= with_leaves_marked(old(self)@, *block_id, missing));
        changed
    }
}

/// Takes in a block that has arrived: it is stored, and every stored leaf
/// that points to it takes it to be present from now on.
pub fn store_block(store: &mut BlockStore, leaves: &mut LeafTable, id: crate::hash::Hash, content: Vec<u8>, auth_tag: Vec<u8>) -> (r:
    PutOutcome)
    requires
        old(store).wf(),
        leaves_present(old(leaves)@, old(store)@),
    ensures
        final(store).wf(),
        leaves_present(final(leaves)@, final(store)@),
        r == (if old(store)@.dom().contains(id) {
            PutOutcome::AlreadyPresent
        } else {
            PutOutcome::Stored
        }),
        final(store)@ == (if old(store)@.dom().contains(id) {
            old(store)@
        } else {
            old(store)@.insert(id, BlockModel { content: content@, auth_tag: auth_tag@ })
        }),
        final(leaves)@ == with_leaves_marked(old(leaves)@, id, false),
{
    let r = store.put(id, content, auth_tag);
    let _ = leaves.mark_block(&id, false);
    proof {
        assert forall|i: int| 0 <= i < leaves@.len() && !(#[trigger] leaves@[i]).is_missing implies store@.dom().contains(
            leaves@[i].block_id,
        ) by {
            if old(leaves)@[i].block_id != id {
                assert(!old(leaves)@[i].is_missing);
            }
        }
    }
    r
}

/// Removes a block: it is taken out of the store, and every stored leaf
/// that points to it takes it to be missing again.
pub fn remove_block(store: &mut BlockStore, leaves: &mut LeafTable, id: &crate::hash::Hash) -> (r: bool)
    requires
        old(store).wf(),
        leaves_present(old(leaves)@, old(store)@),
    ensures
        final(store).wf(),
        leaves_present(final(leaves)@, final(store)@),
        r == old(store)@.dom().contains(*id),
        final(store)@ == old(store)@.remove(*id),
        final(leaves)@ == with_leaves_marked(old(leaves)@, *id, true),
{
    let r = store.remove(id);
    let _ = leaves.mark_block(id, true);
    proof {
        assert forall|i: int| 0 <= i < leaves@.len() && !(#[trigger] leaves@[i]).is_missing implies store@.dom().contains(
            leaves@[i].block_id,
        ) by {
            assert(old(leaves)@[i].block_id != *id);
            assert(!old(leaves)@[i].is_missing);
        }
    }
    r
}

} // verus!
