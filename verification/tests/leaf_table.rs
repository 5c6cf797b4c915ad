use ouisync_core::block_store::{BlockStore, PutOutcome};
use ouisync_core::leaf::LeafNode;
use ouisync_core::leaf_table::{remove_block, store_block, LeafTable};

const PARENT0: [u8; 32] = [1u8; 32];
const PARENT1: [u8; 32] = [2u8; 32];
const BLOCK0: [u8; 32] = [10u8; 32];
const BLOCK1: [u8; 32] = [11u8; 32];

#[test]
fn a_leaf_is_saved_once() {
    let mut table = LeafTable::new();
    assert!(table.save(&PARENT0, &LeafNode::missing([5u8; 32], BLOCK0)));
    // The row is there: it stays as it is, also in what it says of the block.
    assert!(!table.save(&PARENT0, &LeafNode::present([5u8; 32], BLOCK0)));
    assert_eq!(table.rows().len(), 1);
    assert!(table.rows()[0].is_missing);

    // Another block under the same locator, and the same leaf below another parent.
    assert!(table.save(&PARENT0, &LeafNode::missing([5u8; 32], BLOCK1)));
    assert!(table.save(&PARENT1, &LeafNode::missing([5u8; 32], BLOCK0)));
    assert_eq!(table.rows().len(), 3);
}

#[test]
fn children_are_loaded_in_order_of_locator() {
    let mut table = LeafTable::new();
    table.save(&PARENT0, &LeafNode::missing([7u8; 32], BLOCK0));
    table.save(&PARENT1, &LeafNode::missing([6u8; 32], BLOCK0));
    table.save(&PARENT0, &LeafNode::missing([3u8; 32], BLOCK1));

    assert!(table.has_children(&PARENT0));
    assert!(!table.has_children(&[9u8; 32]));

    let children = table.load_children(&PARENT0);
    assert!(children.is_well_formed());
    let locators: Vec<[u8; 32]> = children.iter().iter().map(|node| *node.locator()).collect();
    assert_eq!(locators, vec![[3u8; 32], [7u8; 32]]);
    assert!(table.load_children(&[9u8; 32]).is_empty());
}

#[test]
fn blocks_and_leaves_stay_in_step() {
    let mut store = BlockStore::new();
    let mut table = LeafTable::new();
    table.save(&PARENT0, &LeafNode::missing([7u8; 32], BLOCK0));
    table.save(&PARENT1, &LeafNode::missing([6u8; 32], BLOCK0));
    table.save(&PARENT0, &LeafNode::missing([3u8; 32], BLOCK1));

    assert_eq!(store_block(&mut store, &mut table, BLOCK0, vec![1], vec![2]), PutOutcome::Stored);
    let missing: Vec<bool> = table.rows().iter().map(|row| row.is_missing).collect();
    assert_eq!(missing, vec![false, false, true]);
    assert_eq!(store_block(&mut store, &mut table, BLOCK0, vec![1], vec![2]), PutOutcome::AlreadyPresent);

    assert!(remove_block(&mut store, &mut table, &BLOCK0));
    assert!(table.rows().iter().all(|row| row.is_missing));
    assert!(!store.contains(&BLOCK0));
    assert!(!remove_block(&mut store, &mut table, &BLOCK0));
}
