use ouisync_core::block_store::{discard_block, file_leaf, receive_block, BlockStore, PutOutcome};
use ouisync_core::error::Error;
use ouisync_core::leaf::{LeafNode, LeafNodeSet, ModifyStatus};

const BLOCK0: [u8; 32] = [10u8; 32];
const BLOCK1: [u8; 32] = [11u8; 32];

#[test]
fn put_is_idempotent() {
    let mut store = BlockStore::new();
    assert!(!store.contains(&BLOCK0));
    assert_eq!(store.get(&BLOCK0).unwrap_err(), Error::BlockNotFound);

    assert_eq!(store.put(BLOCK0, vec![1, 2, 3], vec![9]), PutOutcome::Stored);
    assert!(store.contains(&BLOCK0));
    assert_eq!(store.put(BLOCK0, vec![4, 5, 6], vec![8]), PutOutcome::AlreadyPresent);

    let (content, auth_tag) = store.get(&BLOCK0).unwrap();
    assert_eq!(content, &vec![1, 2, 3]);
    assert_eq!(auth_tag, &vec![9]);
}

#[test]
fn remove_takes_the_block_out() {
    let mut store = BlockStore::new();
    store.put(BLOCK0, vec![1], vec![2]);
    store.put(BLOCK1, vec![3], vec![4]);
    assert!(store.remove(&BLOCK0));
    assert!(!store.remove(&BLOCK0));
    assert!(!store.contains(&BLOCK0));
    assert!(store.contains(&BLOCK1));
}

#[test]
fn a_received_block_is_marked_present() {
    let mut store = BlockStore::new();
    let mut leaves = LeafNodeSet::from_nodes(vec![
        LeafNode::missing([1u8; 32], BLOCK0),
        LeafNode::missing([2u8; 32], BLOCK1),
        LeafNode::missing([3u8; 32], BLOCK0),
    ]);

    assert_eq!(receive_block(&mut store, &mut leaves, BLOCK0, vec![7], vec![8]), PutOutcome::Stored);
    assert!(store.contains(&BLOCK0));
    assert!(!leaves.get(&[1u8; 32]).unwrap().is_missing);
    assert!(leaves.get(&[2u8; 32]).unwrap().is_missing);
    assert!(!leaves.get(&[3u8; 32]).unwrap().is_missing);

    assert!(discard_block(&mut store, &mut leaves, &BLOCK0));
    assert!(!store.contains(&BLOCK0));
    assert!(leaves.iter().iter().all(|node| node.is_missing));
}

#[test]
fn a_leaf_may_take_a_stored_block_to_be_missing() {
    // The flag says what the replica believes: a block that happens to be
    // in the store may still be taken to be missing, until it is marked.
    let mut store = BlockStore::new();
    store.put(BLOCK0, vec![1], vec![2]);
    let mut leaves = LeafNodeSet::from_nodes(vec![LeafNode::missing([1u8; 32], BLOCK0)]);
    assert!(leaves.get(&[1u8; 32]).unwrap().is_missing);

    assert!(leaves.mark_block_as_present(&BLOCK0));
    assert!(!leaves.get(&[1u8; 32]).unwrap().is_missing);
    assert!(!leaves.mark_block_as_present(&BLOCK0));
}

#[test]
fn a_leaf_is_filed_for_a_stored_block_only() {
    let mut store = BlockStore::new();
    let mut leaves = LeafNodeSet::new();

    assert_eq!(file_leaf(&store, &mut leaves, &[1u8; 32], &BLOCK0).unwrap_err(), Error::BlockNotFound);
    assert!(leaves.is_empty());

    store.put(BLOCK0, vec![1], vec![2]);
    store.put(BLOCK1, vec![3], vec![4]);
    assert!(matches!(file_leaf(&store, &mut leaves, &[1u8; 32], &BLOCK0), Ok(ModifyStatus::Inserted)));
    assert!(!leaves.get(&[1u8; 32]).unwrap().is_missing);
    assert!(matches!(file_leaf(&store, &mut leaves, &[1u8; 32], &BLOCK0), Ok(ModifyStatus::Unchanged)));
    match file_leaf(&store, &mut leaves, &[1u8; 32], &BLOCK1) {
        Ok(ModifyStatus::Updated(previous)) => assert_eq!(previous, BLOCK0),
        _ => panic!("expected an update"),
    }
    assert_eq!(leaves.get(&[1u8; 32]).unwrap().block_id, BLOCK1);
    assert_eq!(leaves.len(), 1);
}
