use ouisync_core::leaf::{get_bucket, LeafNode, LeafNodeSet, ModifyStatus};

fn hash_of(byte: u8) -> [u8; 32] {
    [byte; 32]
}

#[test]
fn leaf_node_constructors() {
    let present = LeafNode::present(hash_of(1), hash_of(2));
    assert!(!present.is_missing);
    assert_eq!(present.locator(), &hash_of(1));
    assert_eq!(present.block_id, hash_of(2));

    let missing = LeafNode::missing(hash_of(1), hash_of(2));
    assert!(missing.is_missing);

    let turned = present.into_missing();
    assert!(turned.same_as(&missing));
}

#[test]
fn bucket_is_byte_of_locator() {
    let mut locator = [0u8; 32];
    locator[0] = 7;
    locator[1] = 9;
    locator[2] = 11;
    assert_eq!(get_bucket(&locator, 0), 7);
    assert_eq!(get_bucket(&locator, 1), 9);
    assert_eq!(get_bucket(&locator, 2), 11);
}

#[test]
fn modify_inserts_in_order_and_updates() {
    let mut set = LeafNodeSet::new();
    assert!(set.is_empty());

    assert!(matches!(set.modify(&hash_of(5), &hash_of(50)), ModifyStatus::Inserted));
    assert!(matches!(set.modify(&hash_of(1), &hash_of(10)), ModifyStatus::Inserted));
    assert!(matches!(set.modify(&hash_of(9), &hash_of(90)), ModifyStatus::Inserted));
    assert_eq!(set.len(), 3);

    let locators: Vec<[u8; 32]> = set.iter().iter().map(|node| *node.locator()).collect();
    assert_eq!(locators, vec![hash_of(1), hash_of(5), hash_of(9)]);

    assert!(matches!(set.modify(&hash_of(5), &hash_of(50)), ModifyStatus::Unchanged));
    match set.modify(&hash_of(5), &hash_of(51)) {
        ModifyStatus::Updated(previous) => assert_eq!(previous, hash_of(50)),
        _ => panic!("expected an update"),
    }
    assert_eq!(set.get(&hash_of(5)).unwrap().block_id, hash_of(51));
    assert_eq!(set.len(), 3);
}

#[test]
fn remove_takes_the_node_out() {
    let mut set = LeafNodeSet::from_nodes(vec![
        LeafNode::present(hash_of(3), hash_of(30)),
        LeafNode::missing(hash_of(1), hash_of(10)),
    ]);
    assert!(set.remove(&hash_of(2)).is_none());
    let removed = set.remove(&hash_of(1)).unwrap();
    assert!(removed.same_as(&LeafNode::missing(hash_of(1), hash_of(10))));
    assert!(set.get(&hash_of(1)).is_none());
    assert_eq!(set.len(), 1);
}

#[test]
fn hash_ignores_missing_flag_and_tells_contents_apart() {
    let set = LeafNodeSet::from_nodes(vec![
        LeafNode::present(hash_of(3), hash_of(30)),
        LeafNode::present(hash_of(1), hash_of(10)),
    ]);
    let hash = set.hash();
    let other = LeafNodeSet::from_nodes(vec![LeafNode::present(hash_of(1), hash_of(10))]);
    assert_ne!(hash, other.hash());
    assert_ne!(hash, [3u8; 32]);

    let missing = set.into_missing();
    assert!(missing.iter().iter().all(|node| node.is_missing));
    assert_eq!(missing.hash(), hash);
}

#[test]
fn empty_set_hash_is_digest_of_eight_zero_bytes() {
    // SHA3-256 of eight zero bytes.
    let expected = hex::decode("48dda5bbe9171a6656206ec56c595c5834b6cf38c5fe71bcb44fe43833aee9df").unwrap();
    assert_eq!(LeafNodeSet::new().hash().to_vec(), expected);
}

#[test]
fn a_set_is_well_formed_when_no_locator_repeats() {
    assert!(LeafNodeSet::new().is_well_formed());
    let set = LeafNodeSet::from_nodes(vec![
        LeafNode::present(hash_of(3), hash_of(30)),
        LeafNode::present(hash_of(1), hash_of(10)),
        LeafNode::present(hash_of(2), hash_of(20)),
    ]);
    assert!(set.is_well_formed());
    let repeated = LeafNodeSet::from_nodes(vec![
        LeafNode::present(hash_of(3), hash_of(30)),
        LeafNode::present(hash_of(1), hash_of(10)),
        LeafNode::missing(hash_of(3), hash_of(31)),
    ]);
    assert_eq!(repeated.len(), 3);
    assert!(!repeated.is_well_formed());
}
