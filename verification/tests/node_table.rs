use ouisync_core::index::Summary;
use ouisync_core::leaf::LeafNodeSet;
use ouisync_core::leaf::LeafNode;
use ouisync_core::leaf_table::LeafTable;
use ouisync_core::node_table::{
    detect_complete_snapshots, mark_step, remove_snapshot, remove_snapshots_older, InnerNodeTable, InnerRow,
};
use ouisync_core::snapshot::{Proof, SnapshotTable};
use ouisync_core::version_vector::VersionVector;

const WRITER: [u8; 32] = [1u8; 32];
const EMPTY: [u8; 32] = [0u8; 32];
const ROOT: [u8; 32] = [10u8; 32];
const A: [u8; 32] = [11u8; 32];
const B: [u8; 32] = [12u8; 32];
const B2: [u8; 32] = [13u8; 32];
const C: [u8; 32] = [14u8; 32];

fn row(parent: [u8; 32], hash: [u8; 32]) -> InnerRow {
    InnerRow { parent, bucket: 0, hash, is_complete: false }
}

fn tables(rows: Vec<InnerRow>) -> (SnapshotTable, InnerNodeTable) {
    let mut roots = SnapshotTable::new();
    roots
        .create(
            Proof { writer_id: WRITER, version_vector: VersionVector::first(WRITER), hash: ROOT, signature: [0u8; 64] },
            Summary::incomplete(),
        )
        .unwrap();
    let mut inner = InnerNodeTable::new();
    for row in rows {
        inner.save(row);
    }
    (roots, inner)
}

fn flags(inner: &InnerNodeTable) -> Vec<bool> {
    inner.rows().iter().map(|row| row.is_complete).collect()
}

#[test]
fn completeness_reaches_the_root() {
    // One node on each layer, and leaves below the last.
    let (mut roots, mut inner) = tables(vec![row(ROOT, A), row(A, B), row(B, C)]);

    detect_complete_snapshots(&mut roots, &mut inner, &EMPTY, &C, 3, true);

    assert_eq!(flags(&inner), vec![true, true, true]);
    assert!(roots.get(0).summary.is_complete);
    assert_eq!(roots.get(0).summary.block_presence, Summary::incomplete().block_presence);
}

#[test]
fn completeness_stops_below_an_incomplete_sibling() {
    let (mut roots, mut inner) = tables(vec![row(ROOT, A), row(A, B), row(A, B2), row(B, C)]);

    detect_complete_snapshots(&mut roots, &mut inner, &EMPTY, &C, 3, true);

    // `C` and `B` are complete; `A` has the incomplete child `B2`.
    assert_eq!(flags(&inner), vec![false, true, false, true]);
    assert!(!roots.get(0).summary.is_complete);
}

#[test]
fn nothing_is_marked_without_children() {
    let (mut roots, mut inner) = tables(vec![row(ROOT, A), row(A, B), row(B, C)]);

    // No leaves below `C`.
    detect_complete_snapshots(&mut roots, &mut inner, &EMPTY, &C, 3, false);
    assert_eq!(flags(&inner), vec![false, false, false]);

    // No such layer.
    detect_complete_snapshots(&mut roots, &mut inner, &EMPTY, &C, 4, true);
    assert_eq!(flags(&inner), vec![false, false, false]);

    // `B` has the child `C`, which is not complete.
    detect_complete_snapshots(&mut roots, &mut inner, &EMPTY, &B, 2, false);
    assert_eq!(flags(&inner), vec![false, false, false]);
    assert!(!roots.get(0).summary.is_complete);
}

#[test]
fn empty_collections_are_complete() {
    // A node with the hash of the empty leaf set needs no leaves.
    let empty_leaves = LeafNodeSet::new().hash();
    let (mut roots, mut inner) = tables(vec![row(ROOT, A), row(A, B), row(B, empty_leaves)]);
    detect_complete_snapshots(&mut roots, &mut inner, &EMPTY, &empty_leaves, 3, false);
    assert_eq!(flags(&inner), vec![true, true, true]);
    assert!(roots.get(0).summary.is_complete);

    // A root with the hash of the empty collection of inner nodes needs no children.
    let (mut roots, mut inner) = tables(vec![]);
    detect_complete_snapshots(&mut roots, &mut inner, &ROOT, &ROOT, 0, false);
    assert!(roots.get(0).summary.is_complete);
}

#[test]
fn one_step_marks_and_names_the_parents() {
    let (mut roots, mut inner) = tables(vec![row(A, C), row(B, C), row(B2, A)]);

    assert_eq!(mark_step(&mut roots, &mut inner, &EMPTY, &C, 3, true), vec![A, B]);
    assert_eq!(flags(&inner), vec![true, true, false]);

    // Stopped: nothing marked, nowhere to go on.
    assert_eq!(mark_step(&mut roots, &mut inner, &EMPTY, &A, 3, false), Vec::<[u8; 32]>::new());
    assert_eq!(flags(&inner), vec![true, true, false]);
    assert_eq!(inner.load_children_complete(&B), vec![true]);
    assert_eq!(inner.load_parent_hashes(&A), vec![B2]);
}

fn hashes(inner: &InnerNodeTable) -> Vec<[u8; 32]> {
    inner.rows().iter().map(|row| row.hash).collect()
}

#[test]
fn removing_a_root_removes_what_hangs_below_it_alone() {
    const OTHER_ROOT: [u8; 32] = [20u8; 32];
    const D: [u8; 32] = [21u8; 32];

    // Two roots. `A`, `B`, `C` hang below the first; `D` below the second, and `B` below `D` as well.
    let (mut roots, mut inner) = tables(vec![row(ROOT, A), row(A, B), row(B, C), row(OTHER_ROOT, D), row(D, B)]);
    roots
        .create(
            Proof { writer_id: [2u8; 32], version_vector: VersionVector::first([2u8; 32]), hash: OTHER_ROOT, signature: [0u8; 64] },
            Summary::incomplete(),
        )
        .unwrap();
    let mut leaves = LeafTable::new();
    leaves.save(&C, &LeafNode::missing([1u8; 32], [2u8; 32]));
    leaves.save(&A, &LeafNode::missing([3u8; 32], [4u8; 32]));

    assert!(!remove_snapshot(&mut roots, &mut inner, &mut leaves, 9));
    assert_eq!(hashes(&inner), vec![A, B, C, D, B]);

    assert!(remove_snapshot(&mut roots, &mut inner, &mut leaves, 1));
    assert_eq!(roots.len(), 1);
    // `A` and the `B` below it are gone; `D`, the `B` below it and `C` below `B` stay.
    assert_eq!(hashes(&inner), vec![C, D, B]);
    assert_eq!(leaves.rows().len(), 1);
    assert_eq!(leaves.rows()[0].parent, C);

    assert!(remove_snapshot(&mut roots, &mut inner, &mut leaves, 2));
    assert!(hashes(&inner).is_empty());
    assert!(leaves.rows().is_empty());
}

#[test]
fn removing_older_snapshots_cascades() {
    let (mut roots, mut inner) = tables(vec![row(ROOT, A), row(A, B)]);
    roots
        .create(
            Proof { writer_id: WRITER, version_vector: VersionVector::first(WRITER), hash: [30u8; 32], signature: [0u8; 64] },
            Summary::incomplete(),
        )
        .unwrap();
    inner.save(row([30u8; 32], B2));
    let mut leaves = LeafTable::new();

    remove_snapshots_older(&mut roots, &mut inner, &mut leaves, 2, &WRITER);
    assert_eq!(roots.len(), 1);
    assert_eq!(hashes(&inner), vec![B2]);
}
