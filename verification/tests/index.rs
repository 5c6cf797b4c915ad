use ouisync_core::error::Error;
use ouisync_core::index::{
    announces_branch, became_complete, block_reply, child_nodes_reply, children_check, completion_step,
    inner_children_complete, is_newer_root, leaf_children_complete, receive_leaf_nodes, BlockPresence, BlockReply,
    ChildrenCheck, CompletionStep, Summary, INNER_LAYER_COUNT,
};
use ouisync_core::leaf::{LeafNode, LeafNodeSet};
use ouisync_core::version_vector::VersionVector;

fn hash_of(byte: u8) -> [u8; 32] {
    [byte; 32]
}

#[test]
fn summary_of_leaves_counts_the_present_blocks() {
    assert_eq!(Summary::from_leaves(&LeafNodeSet::new()), Summary::full());

    let all_present = LeafNodeSet::from_nodes(vec![
        LeafNode::present(hash_of(1), hash_of(10)),
        LeafNode::present(hash_of(2), hash_of(20)),
    ]);
    assert_eq!(
        Summary::from_leaves(&all_present),
        Summary { is_complete: true, block_presence: BlockPresence::Full }
    );

    let some_present = LeafNodeSet::from_nodes(vec![
        LeafNode::present(hash_of(1), hash_of(10)),
        LeafNode::missing(hash_of(2), hash_of(20)),
        LeafNode::missing(hash_of(3), hash_of(30)),
    ]);
    assert_eq!(
        Summary::from_leaves(&some_present),
        Summary { is_complete: true, block_presence: BlockPresence::Partial(1) }
    );

    assert_eq!(
        Summary::from_leaves(&some_present.into_missing()),
        Summary { is_complete: true, block_presence: BlockPresence::Absent }
    );
    assert_eq!(Summary::incomplete(), Summary { is_complete: false, block_presence: BlockPresence::Absent });
}

#[test]
fn inner_node_is_complete_when_all_children_are() {
    let empty = hash_of(0);
    let parent = hash_of(1);
    assert!(inner_children_complete(&empty, &empty, &vec![]));
    assert!(!inner_children_complete(&parent, &empty, &vec![]));
    assert!(inner_children_complete(&parent, &empty, &vec![true, true]));
    assert!(!inner_children_complete(&parent, &empty, &vec![true, false, true]));
}

#[test]
fn leaf_layer_is_complete_when_the_leaves_are_there() {
    let empty_hash = LeafNodeSet::new().hash();
    assert!(leaf_children_complete(&empty_hash, false));
    assert!(!leaf_children_complete(&hash_of(1), false));
    assert!(leaf_children_complete(&hash_of(1), true));
}

#[test]
fn completeness_spreads_towards_the_root() {
    assert_eq!(INNER_LAYER_COUNT, 3);
    assert_eq!(completion_step(0, true), CompletionStep::MarkRoot);
    assert_eq!(completion_step(1, true), CompletionStep::MarkInnerAndAscend);
    assert_eq!(completion_step(3, true), CompletionStep::MarkInnerAndAscend);
    assert_eq!(completion_step(4, true), CompletionStep::Stop);
    assert_eq!(completion_step(0, false), CompletionStep::Stop);
    assert_eq!(completion_step(2, false), CompletionStep::Stop);

    assert!(became_complete(false, true));
    assert!(!became_complete(true, true));
    assert!(!became_complete(false, false));
    assert!(!became_complete(true, false));
}

#[test]
fn leaves_from_a_peer_are_checked_against_the_parent_hash() {
    let nodes = LeafNodeSet::from_nodes(vec![
        LeafNode::present(hash_of(1), hash_of(10)),
        LeafNode::present(hash_of(2), hash_of(20)),
    ]);
    let parent_hash = nodes.hash();

    let accepted = receive_leaf_nodes(&parent_hash, nodes).unwrap();
    assert_eq!(accepted.len(), 2);
    assert!(accepted.iter().iter().all(|node| node.is_missing));
    assert_eq!(accepted.get(&hash_of(2)).unwrap().block_id, hash_of(20));

    let other = LeafNodeSet::from_nodes(vec![LeafNode::present(hash_of(1), hash_of(11))]);
    assert_eq!(receive_leaf_nodes(&parent_hash, other).unwrap_err(), Error::MalformedData);
}

#[test]
fn stale_roots_are_refused() {
    let writer = hash_of(1);
    let other = hash_of(2);
    let local = VersionVector::first(writer);
    let mut newer = VersionVector::first(writer);
    newer.increment(writer);

    assert!(is_newer_root(None, &local));
    assert!(!is_newer_root(Some(&local), &local));
    assert!(!is_newer_root(Some(&newer), &local));
    assert!(is_newer_root(Some(&local), &newer));
    // A concurrent one is news as well.
    assert!(is_newer_root(Some(&local), &VersionVector::first(other)));
}

#[test]
fn server_replies() {
    let reply = child_nodes_reply(3, 0);
    assert!(reply.send_inner_nodes && !reply.send_leaf_nodes);
    let reply = child_nodes_reply(0, 2);
    assert!(!reply.send_inner_nodes && reply.send_leaf_nodes);
    let reply = child_nodes_reply(0, 0);
    assert!(!reply.send_inner_nodes && !reply.send_leaf_nodes);

    assert_eq!(block_reply(Ok(())), BlockReply::Send);
    assert_eq!(block_reply(Err(Error::BlockNotFound)), BlockReply::Skip);
    assert_eq!(block_reply(Err(Error::Crypto)), BlockReply::Fail(Error::Crypto));

    assert!(announces_branch(&Summary::full()));
    assert!(!announces_branch(&Summary::incomplete()));
}

#[test]
fn the_layer_tells_which_children_to_check() {
    assert_eq!(children_check(0), ChildrenCheck::Inner);
    assert_eq!(children_check(2), ChildrenCheck::Inner);
    assert_eq!(children_check(3), ChildrenCheck::Leaf);
    assert_eq!(children_check(4), ChildrenCheck::NoLayer);
}

#[test]
fn leaves_that_are_not_a_set_in_order_are_refused() {
    // Two nodes under one locator.
    let nodes = LeafNodeSet::from_nodes(vec![
        LeafNode::present(hash_of(1), hash_of(10)),
        LeafNode::present(hash_of(1), hash_of(11)),
    ]);
    assert!(!nodes.is_well_formed());
    let parent_hash = nodes.hash();
    assert_eq!(receive_leaf_nodes(&parent_hash, nodes).unwrap_err(), Error::MalformedData);
}
