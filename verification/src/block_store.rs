//! The block store: encrypted blocks by block id. The store never looks
//! into a block.

use crate::assoc::{
    assoc_map, distinct_keys, has_key, lemma_assoc_absent, lemma_assoc_at, lemma_assoc_push, lemma_assoc_remove,
};
use crate::error::Error;
use crate::hash::hash_eq;
use crate::leaf::{has_locator, with_block_marked, LeafNode, LeafNodeSet, ModifyStatus};
use vstd::prelude::*;

verus! {

/// A stored block as a mathematical value: its ciphertext and its
/// authentication tag.
pub struct BlockModel {
    pub content: Seq<u8>,
    pub auth_tag: Seq<u8>,
}

/// A stored block.
#[derive(Debug)]
pub struct StoredBlock {
    pub id: crate::hash::Hash,
    pub content: Vec<u8>,
    pub auth_tag: Vec<u8>,
}

/// The id of a stored block.
pub open spec fn block_id_of() -> spec_fn(StoredBlock) -> crate::hash::Hash {
    |b: StoredBlock| b.id
}

/// What is stored of a block.
pub open spec fn block_of() -> spec_fn(StoredBlock) -> BlockModel {
    |b: StoredBlock| BlockModel { content: b.content@, auth_tag: b.auth_tag@ }
}

/// What putting a block into the store did.
#[derive(Clone, Copy, Debug, PartialEq, Eq, Structural)]
pub enum PutOutcome {
    Stored,
    AlreadyPresent,
}

/// The blocks that a replica holds.
#[derive(Debug)]
pub struct BlockStore {
    blocks: Vec<StoredBlock>,
}

impl View for BlockStore {
    type V = Map<crate::hash::Hash, BlockModel>;

    closed spec fn view(&self) -> Map<crate::hash::Hash, BlockModel> {
        assoc_map(self.blocks@, block_id_of(), block_of())
    }
}

impl BlockStore {
    /// Each block id has one row.
    pub closed spec fn wf(&self) -> bool {
        distinct_keys(self.blocks@, block_id_of())
    }

    pub fn new() -> (r: Self)
        ensures
            r.wf(),
            r@ == Map::<crate::hash::Hash, BlockModel>::empty(),
    {
        let r = BlockStore { blocks: Vec::new() };
        assert(r@ =~= Map::<crate::hash::Hash, BlockModel>::empty());
        r
    }

    /// Finds the row of a block.
    fn find(&self, id: &crate::hash::Hash) -> (r: Option<usize>)
        ensures
            match r {
                Some(i) => i < self.blocks@.len() && self.blocks@[i as int].id == *id,
                None => !self@.dom().contains(*id),
            },
    {
        let mut i: usize = 0;
        while i < self.blocks.len()
            invariant
                0 <= i <= self.blocks@.len(),
                forall|j: int| 0 <= j < i ==> (#[trigger] self.blocks@[j]).id != *id,
            decreases self.blocks@.len() - i,
        {
            if hash_eq(&self.blocks[i].id, id) {
                return Some(i);
            }
            i = i + 1;
        }
        proof {
            assert forall|j: int| 0 <= j < self.blocks@.len() implies block_id_of()(#[trigger] self.blocks@[j]) != *id by {
                assert(self.blocks@[j].id != *id);
            }
            lemma_assoc_absent(self.blocks@, block_id_of(), block_of(), *id);
        }
        None
    }

    /// Whether the block is in the store.
    pub fn contains(&self, id: &crate::hash::Hash) -> (r: bool)
        requires
            self.wf(),
        ensures
            r == self@.dom().contains(*id),
    {
        match self.find(id) {
            Some(i) => {
                proof {
                    lemma_assoc_at(self.blocks@, block_id_of(), block_of(), i as int);
                }
                true
            },
            None => false,
        }
    }

    /// Stores a block, unless one with this id is stored already.
    pub fn put(&mut self, id: crate::hash::Hash, content: Vec<u8>, auth_tag: Vec<u8>) -> (r: PutOutcome)
        requires
            old(self).wf(),
        ensures
            final(self).wf(),
            r == (if old(self)@.dom().contains(id) {
                PutOutcome::AlreadyPresent
            } else {
                PutOutcome::Stored
            }),
            final(self)@ == (if old(self)@.dom().contains(id) {
                old(self)@
            } else {
                old(self)@.insert(id, BlockModel { content: content@, auth_tag: auth_tag@ })
            }),
    {
        match self.find(&id) {
            Some(i) => {
                proof {
                    lemma_assoc_at(self.blocks@, block_id_of(), block_of(), i as int);
                }
                PutOutcome::AlreadyPresent
            },
            None => {
                let block = StoredBlock { id, content, auth_tag };
                proof {
                    assert(block_id_of()(block) == id);
                    assert(!has_key(self.blocks@, block_id_of(), id));
                    lemma_assoc_push(self.blocks@, block_id_of(), block_of(), block);
                }
                self.blocks.push(block);
                PutOutcome::Stored
            },
        }
    }

    /// The ciphertext and the authentication tag of a block.
    pub fn get(&self, id: &crate::hash::Hash) -> (r: Result<(&Vec<u8>, &Vec<u8>), Error>)
        requires
            self.wf(),
        ensures
            match r {
                Ok(pair) => self@.dom().contains(*id) && pair.0@ == self@[*id].content && pair.1@ == self@[*id].auth_tag,
                Err(e) => e == Error::BlockNotFound && !self@.dom().contains(*id),
            },
    {
        match self.find(id) {
            Some(i) => {
                proof {
                    lemma_assoc_at(self.blocks@, block_id_of(), block_of(), i as int);
                }
                Ok((&self.blocks[i].content, &self.blocks[i].auth_tag))
            },
            None => Err(Error::BlockNotFound),
        }
    }

    /// Takes a block out of the store. Returns whether it was there.
    pub fn remove(&mut self, id: &crate::hash::Hash) -> (r: bool)
        requires
            old(self).wf(),
        ensures
            final(self).wf(),
            r == old(self)@.dom().contains(*id),
            final(self)@ == old(self)@.remove(*id),
    {
        match self.find(id) {
            Some(i) => {
                proof {
                    lemma_assoc_at(self.blocks@, block_id_of(), block_of(), i as int);
                    lemma_assoc_remove(self.blocks@, block_id_of(), block_of(), i as int);
                }
                let _ = self.blocks.remove(i);
                true
            },
            None => {
                assert(self@.remove(*id) =~= self@);
                false
            },
        }
    }
}

/// Every leaf that takes its block to be present has its block in the store.
pub open spec fn blocks_present(leaves: Seq<LeafNode>, store: Map<crate::hash::Hash, BlockModel>) -> bool {
    forall|i: int| 0 <= i < leaves.len() && !(#[trigger] leaves[i]).is_missing ==> store.dom().contains(leaves[i].block_id)
}

/// Takes in a block that has arrived: it is stored, and the leaves that
/// point to it take it to be present from now on.
pub fn receive_block(
    store: &mut BlockStore,
    leaves: &mut LeafNodeSet,
    id: crate::hash::Hash,
    content: Vec<u8>,
    auth_tag: Vec<u8>,
) -> (r: PutOutcome)
    requires
        old(store).wf(),
        old(leaves).wf(),
        blocks_present(old(leaves)@, old(store)@),
    ensures
        final(store).wf(),
        final(leaves).wf(),
        blocks_present(final(leaves)@, final(store)@),
        final(store)@.dom().contains(id),
        r == (if old(store)@.dom().contains(id) {
            PutOutcome::AlreadyPresent
        } else {
            PutOutcome::Stored
        }),
        final(store)@ == (if old(store)@.dom().contains(id) {
            old(store)@
        } else {
            old(store)@.insert(id, BlockModel { content: content@, auth_tag: auth_tag@ })
        }),
        final(leaves)@ == with_block_marked(old(leaves)@, id, false),
{
    let r = store.put(id, content, auth_tag);
    let _ = leaves.mark_block_as_present(&id);
    proof {
        assert forall|i: int| 0 <= i < leaves@.len() && !(#[trigger] leaves@[i]).is_missing implies store@.dom().contains(
            leaves@[i].block_id,
        ) by {
            if old(leaves)@[i].block_id != id {
                assert(!old(leaves)@[i].is_missing);
            }
        }
    }
    r
}

/// Discards a block: it is taken out of the store, and the leaves that
/// point to it take it to be missing again.
pub fn discard_block(store: &mut BlockStore, leaves: &mut LeafNodeSet, id: &crate::hash::Hash) -> (r: bool)
    requires
        old(store).wf(),
        old(leaves).wf(),
        blocks_present(old(leaves)@, old(store)@),
    ensures
        final(store).wf(),
        final(leaves).wf(),
        blocks_present(final(leaves)@, final(store)@),
        r == old(store)@.dom().contains(*id),
        final(store)@ == old(store)@.remove(*id),
        final(leaves)@ == with_block_marked(old(leaves)@, *id, true),
{
    let r = store.remove(id);
    let _ = leaves.mark_block_as_missing(id);
    proof {
        assert forall|i: int| 0 <= i < leaves@.len() && !(#[trigger] leaves@[i]).is_missing implies store@.dom().contains(
            leaves@[i].block_id,
        ) by {
            assert(old(leaves)@[i].block_id != *id);
            assert(!old(leaves)@[i].is_missing);
        }
    }
    r
}

/// Files a leaf for a block that a writer has stored: a leaf under the
/// locator is made, with the block taken to be present, or the leaf that
/// is there gets the block id. A block that is not in the store is
/// refused, and nothing changes.
pub fn file_leaf(
    store: &BlockStore,
    leaves: &mut LeafNodeSet,
    locator: &crate::hash::Hash,
    block_id: &crate::hash::Hash,
) -> (r: Result<ModifyStatus, Error>)
    requires
        store.wf(),
        old(leaves).wf(),
        blocks_present(old(leaves)@, store@),
    ensures
        final(leaves).wf(),
        blocks_present(final(leaves)@, store@),
        match r {
            Ok(status) => store@.dom().contains(*block_id) && ((status is Inserted) <==> !has_locator(
                old(leaves)@,
                *locator,
            )) && crate::leaf::filed(old(leaves)@, final(leaves)@, *locator, *block_id, status),
            Err(e) => e == Error::BlockNotFound && !store@.dom().contains(*block_id) && final(leaves)@ == old(leaves)@,
        },
{
    if !store.contains(block_id) {
        return Err(Error::BlockNotFound);
    }
    let status = leaves.modify(locator, block_id);
    proof {
        match status {
            ModifyStatus::Unchanged => {},
            ModifyStatus::Updated(previous) => {
                let i = choose|i: int|
                    0 <= i < old(leaves)@.len() && (#[trigger] old(leaves)@[i]).locator == *locator && old(
                        leaves,
                    )@[i].block_id == previous && leaves@ == old(leaves)@.update(
                        i,
                        LeafNode { locator: *locator, block_id: *block_id, is_missing: old(leaves)@[i].is_missing },
                    );
                assert(leaves@[i].locator == *locator);
                assert forall|j: int| 0 <= j < leaves@.len() && !(#[trigger] leaves@[j]).is_missing implies store@.dom().contains(
                    leaves@[j].block_id,
                ) by {
                    if j != i {
                        assert(leaves@[j] == old(leaves)@[j]);
                    }
                }
            },
            ModifyStatus::Inserted => {
                let k = choose|k: int| #[trigger]
                    crate::leaf::is_slot(old(leaves)@, *locator, k) && leaves@ == old(leaves)@.insert(
                        k,
                        LeafNode { locator: *locator, block_id: *block_id, is_missing: false },
                    );
                law_new_leaf_keeps_blocks_present(
                    old(leaves)@,
                    store@,
                    k,
                    LeafNode { locator: *locator, block_id: *block_id, is_missing: false },
                );
                assert(leaves@[k].locator == *locator);
            },
        }
    }
    Ok(status)
}

/// A leaf that is written for a block that the store holds keeps every
/// present block in the store, whatever the leaf says of the block; and so
/// does any leaf that takes its block to be missing.
pub proof fn law_new_leaf_keeps_blocks_present(
    leaves: Seq<LeafNode>,
    store: Map<crate::hash::Hash, BlockModel>,
    k: int,
    node: LeafNode,
)
    requires
        blocks_present(leaves, store),
        0 <= k <= leaves.len(),
        node.is_missing || store.dom().contains(node.block_id),
    ensures
        blocks_present(leaves.insert(k, node), store),
{
    let t = leaves.insert(k, node);
    assert forall|i: int| 0 <= i < t.len() && !(#[trigger] t[i]).is_missing implies store.dom().contains(t[i].block_id) by {
        if i < k {
            assert(t[i] == leaves[i]);
        } else if i > k {
            assert(t[i] == leaves[i - 1]);
        }
    }
}

} // verus!
