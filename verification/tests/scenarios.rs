use ouisync_core::blob::{Blob, SeekFrom};
use ouisync_core::block_store::{receive_block, BlockStore};
use ouisync_core::directory::{Content, EntryType};
use ouisync_core::hash::Order;
use ouisync_core::index::{receive_leaf_nodes, BlockPresence, Summary};
use ouisync_core::leaf::{LeafNode, LeafNodeSet};
use ouisync_core::tracker::Tracker;
use ouisync_core::tracker_model::OfferState;
use ouisync_core::version_vector::VersionVector;

const WRITER_A: [u8; 32] = [1u8; 32];
const WRITER_B: [u8; 32] = [2u8; 32];

#[test]
fn single_writer_write_read() {
    // The writer files `hello.txt` and writes to it.
    let mut root = Content::new();
    root.insert("hello.txt".to_owned(), WRITER_A, EntryType::File, VersionVector::first(WRITER_A)).unwrap();
    let mut file = Blob::create();
    file.write(b"hi");
    file.mark_flushed();

    // Opening it again gives the same bytes, and the entry stands at one
    // version of the writer.
    file.seek(SeekFrom::Start(0));
    assert_eq!(file.read_to_end(), b"hi");
    let entry = root.lookup_version(&"hello.txt".to_owned(), &WRITER_A).unwrap();
    assert_eq!(entry.version_vector.get(&WRITER_A), 1);
    assert_eq!(entry.version_vector.entries().len(), 1);
}

#[test]
fn fork_across_writers_leaves_two_concurrent_entries() {
    let name = "a.txt".to_owned();
    let mut root = Content::new();
    let (blob_a, _) = root.insert(name.clone(), WRITER_A, EntryType::File, VersionVector::first(WRITER_A)).unwrap();
    let mut file_a = Blob::create();
    file_a.write(b"small");

    // The other writer forks the file into its own branch and writes there.
    let (blob_b, removed) = root.insert(name.clone(), WRITER_B, EntryType::File, VersionVector::first(WRITER_B)).unwrap();
    assert!(removed.is_empty());
    let mut file_b = Blob::create();
    file_b.write(b"large");

    file_a.seek(SeekFrom::Start(0));
    file_b.seek(SeekFrom::Start(0));
    assert_eq!(file_a.read_to_end(), b"small");
    assert_eq!(file_b.read_to_end(), b"large");

    let versions = root.lookup(&name).unwrap();
    assert_eq!(versions.len(), 2);
    let by_a = root.lookup_version(&name, &WRITER_A).unwrap();
    let by_b = root.lookup_version(&name, &WRITER_B).unwrap();
    assert_eq!(by_a.blob_id, blob_a);
    assert_eq!(by_b.blob_id, blob_b);
    assert_eq!(by_a.version_vector.compare(&by_b.version_vector), None);
    assert_ne!(by_a.version_vector.compare(&by_b.version_vector), Some(Order::Equal));
}

#[test]
fn only_one_of_many_clients_accepts() {
    let num_clients = 10;
    let mut tracker = Tracker::new();
    let clients: Vec<usize> = (0..num_clients).map(|_| tracker.client()).collect();
    let block = [7u8; 32];

    tracker.require(block);
    for client in &clients {
        tracker.offer(*client, block, OfferState::Approved);
    }

    let accepted: Vec<[u8; 32]> = clients.iter().filter_map(|client| tracker.try_accept(*client)).collect();
    assert_eq!(accepted, vec![block]);

    // Nobody gets it until it is released or completed.
    for client in &clients {
        assert_eq!(tracker.try_accept(*client), None);
    }
    tracker.complete(block);
    for client in &clients {
        assert_eq!(tracker.try_accept(*client), None);
    }
}

#[test]
fn snapshot_arrives_before_its_blocks() {
    // The writer's leaves for a file of three blocks.
    let blocks = [[10u8; 32], [11u8; 32], [12u8; 32]];
    let sent = LeafNodeSet::from_nodes(vec![
        LeafNode::present([1u8; 32], blocks[0]),
        LeafNode::present([2u8; 32], blocks[1]),
        LeafNode::present([3u8; 32], blocks[2]),
    ]);
    let parent_hash = sent.hash();

    // The other replica has the nodes and none of the blocks yet: the
    // snapshot is complete, and every block is taken to be missing.
    let mut leaves = receive_leaf_nodes(&parent_hash, sent).unwrap();
    let mut store = BlockStore::new();
    assert_eq!(
        Summary::from_leaves(&leaves),
        Summary { is_complete: true, block_presence: BlockPresence::Absent }
    );
    assert!(leaves.iter().iter().all(|node| node.is_missing));
    assert_eq!(leaves.hash(), parent_hash);

    // The blocks arrive in some order.
    for (step, index) in [2usize, 0, 1].into_iter().enumerate() {
        receive_block(&mut store, &mut leaves, blocks[index], vec![index as u8], vec![]);
        let expected = if step == 2 { BlockPresence::Full } else { BlockPresence::Partial(step as u64 + 1) };
        assert_eq!(Summary::from_leaves(&leaves).block_presence, expected);
    }
    assert!(leaves.iter().iter().all(|node| !node.is_missing));
    assert_eq!(leaves.hash(), parent_hash);
}
