use ouisync_core::error::Error;
use ouisync_core::index::{BlockPresence, Summary};
use ouisync_core::snapshot::{Proof, RootNode, SnapshotTable};
use ouisync_core::version_vector::VersionVector;

const WRITER0: [u8; 32] = [1u8; 32];
const WRITER1: [u8; 32] = [2u8; 32];
const HASH0: [u8; 32] = [10u8; 32];
const HASH1: [u8; 32] = [11u8; 32];

fn make_proof(writer_id: [u8; 32], hash: [u8; 32]) -> Proof {
    Proof { writer_id, version_vector: VersionVector::first(writer_id), hash, signature: [5u8; 64] }
}

#[test]
fn empty_root_node() {
    let node = RootNode::empty(WRITER0, HASH0, [7u8; 64]);
    assert_eq!(node.snapshot_id, 0);
    assert_eq!(node.proof.writer_id, WRITER0);
    assert_eq!(node.proof.hash, HASH0);
    assert_eq!(node.proof.signature, [7u8; 64]);
    assert_eq!(node.proof.version_vector.get(&WRITER0), 0);
    assert_eq!(node.summary, Summary { is_complete: true, block_presence: BlockPresence::Full });
}

#[test]
fn a_new_proof_changes_version_vector_and_signature_only() {
    let node = RootNode::empty(WRITER0, HASH0, [7u8; 64]);
    let mut new_proof = make_proof(WRITER0, HASH0);
    new_proof.signature = [8u8; 64];
    let node = node.with_proof(new_proof);
    assert_eq!(node.snapshot_id, 0);
    assert_eq!(node.proof.writer_id, WRITER0);
    assert_eq!(node.proof.hash, HASH0);
    assert_eq!(node.proof.signature, [8u8; 64]);
    assert_eq!(node.proof.version_vector.get(&WRITER0), 1);
    assert_eq!(node.summary, Summary::full());
}

#[test]
fn one_row_per_writer_and_hash() {
    let mut table = SnapshotTable::new();
    assert_eq!(table.create(make_proof(WRITER0, HASH0), Summary::incomplete()), Ok(1));
    assert_eq!(table.create(make_proof(WRITER0, HASH0), Summary::full()), Err(Error::EntryExists));
    // The same hash by another writer, and another hash by the same writer.
    assert_eq!(table.create(make_proof(WRITER1, HASH0), Summary::incomplete()), Ok(2));
    assert_eq!(table.create(make_proof(WRITER0, HASH1), Summary::incomplete()), Ok(3));
    assert_eq!(table.len(), 3);
    assert_eq!(table.get(0).summary, Summary::incomplete());

    let mut writers = table.load_writer_ids(&HASH0);
    writers.sort();
    assert_eq!(writers, vec![WRITER0, WRITER1]);
    assert!(table.load_writer_ids(&[99u8; 32]).is_empty());
}

#[test]
fn latest_complete_snapshot_of_a_writer() {
    let mut table = SnapshotTable::new();
    assert_eq!(table.load_latest_complete_by_writer(&WRITER0).unwrap_err(), Error::EntryNotFound);

    table.create(make_proof(WRITER0, HASH0), Summary::full()).unwrap();
    table.create(make_proof(WRITER1, HASH0), Summary::full()).unwrap();
    table.create(make_proof(WRITER0, HASH1), Summary::incomplete()).unwrap();

    assert_eq!(table.load_latest_complete_by_writer(&WRITER0).unwrap().snapshot_id, 1);
    assert_eq!(table.load_latest_complete_by_writer(&WRITER1).unwrap().snapshot_id, 2);

    assert!(table.update_summaries(&HASH1, Summary::full()));
    assert_eq!(table.load_latest_complete_by_writer(&WRITER0).unwrap().snapshot_id, 3);
}

#[test]
fn update_summaries_is_idempotent() {
    let mut table = SnapshotTable::new();
    table.create(make_proof(WRITER0, HASH0), Summary::incomplete()).unwrap();
    table.create(make_proof(WRITER1, HASH0), Summary::incomplete()).unwrap();
    table.create(make_proof(WRITER0, HASH1), Summary::incomplete()).unwrap();

    let summary = Summary { is_complete: true, block_presence: BlockPresence::Partial(2) };
    assert!(table.update_summaries(&HASH0, summary));
    assert_eq!(table.get(0).summary, summary);
    assert_eq!(table.get(1).summary, summary);
    assert_eq!(table.get(2).summary, Summary::incomplete());

    assert!(!table.update_summaries(&HASH0, summary));
    assert_eq!(table.get(0).summary, summary);
    assert_eq!(table.get(1).summary, summary);
    assert_eq!(table.get(2).summary, Summary::incomplete());

    // An incomplete summary never reports completion.
    assert!(!table.update_summaries(&HASH1, Summary::incomplete()));
}

#[test]
fn older_snapshots_of_a_branch_are_removed() {
    let mut table = SnapshotTable::new();
    table.create(make_proof(WRITER0, HASH0), Summary::full()).unwrap();
    table.create(make_proof(WRITER1, HASH0), Summary::full()).unwrap();
    table.create(make_proof(WRITER0, HASH1), Summary::full()).unwrap();
    table.create(make_proof(WRITER0, [12u8; 32]), Summary::full()).unwrap();

    table.remove_recursively_all_older(4, &WRITER0);
    assert_eq!(table.len(), 2);
    assert_eq!(table.get(0).snapshot_id, 2);
    assert_eq!(table.get(1).snapshot_id, 4);

    assert!(!table.remove_recursively(1));
    assert!(table.remove_recursively(2));
    assert_eq!(table.len(), 1);
    assert_eq!(table.get(0).snapshot_id, 4);

    // Ids are not used again.
    assert_eq!(table.create(make_proof(WRITER1, HASH1), Summary::full()), Ok(5));
}

#[test]
fn update_summaries_of_a_hash_without_root_nodes() {
    let mut table = SnapshotTable::new();
    table.create(make_proof(WRITER0, HASH0), Summary::incomplete()).unwrap();

    // No root node has the hash: nothing becomes complete, the first time
    // or the second, and nothing changes.
    assert!(!table.update_summaries(&HASH1, Summary::full()));
    assert!(!table.update_summaries(&HASH1, Summary::full()));
    assert_eq!(table.len(), 1);
    assert_eq!(table.get(0).summary, Summary::incomplete());
}

#[test]
fn update_proof_changes_one_row() {
    let mut table = SnapshotTable::new();
    table.create(make_proof(WRITER0, HASH0), Summary::incomplete()).unwrap();
    table.create(make_proof(WRITER1, HASH0), Summary::full()).unwrap();
    assert_eq!(table.next_snapshot_id(), 3);
    assert_eq!(table.find_snapshot(2), Some(1));
    assert_eq!(table.find_snapshot(7), None);

    let mut new_proof = make_proof(WRITER0, HASH0);
    new_proof.version_vector.increment(WRITER0);
    new_proof.signature = [6u8; 64];
    assert!(table.update_proof(1, new_proof));

    let row = table.get(0);
    assert_eq!(row.snapshot_id, 1);
    assert_eq!(row.proof.writer_id, WRITER0);
    assert_eq!(row.proof.hash, HASH0);
    assert_eq!(row.proof.version_vector.get(&WRITER0), 2);
    assert_eq!(row.proof.signature, [6u8; 64]);
    assert_eq!(row.summary, Summary::incomplete());

    let other = table.get(1);
    assert_eq!(other.proof.version_vector.get(&WRITER1), 1);
    assert_eq!(other.proof.signature, [5u8; 64]);
    assert_eq!(other.summary, Summary::full());

    // No such snapshot: nothing to update.
    assert!(!table.update_proof(9, make_proof(WRITER0, HASH0)));
    assert_eq!(table.len(), 2);
}

#[test]
fn previous_complete_snapshot_of_a_writer() {
    let mut table = SnapshotTable::new();
    table.create(make_proof(WRITER0, HASH0), Summary::full()).unwrap();
    table.create(make_proof(WRITER1, HASH0), Summary::full()).unwrap();
    table.create(make_proof(WRITER0, HASH1), Summary::incomplete()).unwrap();
    table.create(make_proof(WRITER0, [12u8; 32]), Summary::full()).unwrap();

    assert_eq!(table.load_prev(4, &WRITER0).unwrap().snapshot_id, 1);
    assert_eq!(table.load_prev(5, &WRITER0).unwrap().snapshot_id, 4);
    assert_eq!(table.load_prev(1, &WRITER0).unwrap_err(), Error::EntryNotFound);
    assert_eq!(table.load_prev(2, &WRITER1).unwrap_err(), Error::EntryNotFound);
    assert_eq!(table.load_prev(3, &WRITER1).unwrap().snapshot_id, 2);
}

#[test]
fn latest_complete_snapshot_of_each_writer() {
    let mut table = SnapshotTable::new();
    assert!(table.load_all_latest_complete().is_empty());

    table.create(make_proof(WRITER0, HASH0), Summary::full()).unwrap();
    table.create(make_proof(WRITER1, HASH0), Summary::full()).unwrap();
    table.create(make_proof(WRITER0, HASH1), Summary::full()).unwrap();
    table.create(make_proof(WRITER1, HASH1), Summary::incomplete()).unwrap();
    table.create(make_proof([3u8; 32], HASH0), Summary::incomplete()).unwrap();

    let mut ids: Vec<u64> = table
        .load_all_latest_complete()
        .into_iter()
        .map(|position| table.get(position).snapshot_id)
        .collect();
    ids.sort();
    assert_eq!(ids, vec![2, 3]);
}

#[test]
fn a_root_from_a_peer_is_taken_in() {
    let mut table = SnapshotTable::new();

    // The signature does not verify.
    assert_eq!(table.receive_root(make_proof(WRITER0, HASH0), false), Err(Error::MalformedData));
    assert_eq!(table.len(), 0);

    // News: stored as incomplete.
    assert_eq!(table.receive_root(make_proof(WRITER0, HASH0), true), Ok(Some(1)));
    assert_eq!(table.get(0).summary, Summary::incomplete());
    // The writer has that snapshot.
    assert_eq!(table.receive_root(make_proof(WRITER0, HASH0), true), Ok(None));

    // Once the snapshot is complete, a root at the same version vector is stale.
    assert!(table.update_summaries(&HASH0, Summary::full()));
    assert_eq!(table.receive_root(make_proof(WRITER0, HASH1), true), Ok(None));
    assert_eq!(table.len(), 1);

    // A later one is news.
    let mut later = make_proof(WRITER0, HASH1);
    later.version_vector.increment(WRITER0);
    assert_eq!(table.receive_root(later, true), Ok(Some(2)));
    assert_eq!(table.len(), 2);
}
