//! Snapshots: the signed root nodes of the writers' trees, and the table
//! that holds one row for each of them.

use crate::error::Error;
use crate::hash::hash_eq;
use crate::index::Summary;
use crate::version_vector::{vv_le, VersionVector};
use vstd::prelude::*;

verus! {

/// What a writer signs to vouch for a snapshot.
#[derive(Debug)]
pub struct Proof {
    pub writer_id: crate::hash::Hash,
    pub version_vector: VersionVector,
    pub hash: crate::hash::Hash,
    pub signature: [u8; 64],
}

/// A root node as a mathematical value.
pub struct RootModel {
    pub snapshot_id: u64,
    pub writer_id: crate::hash::Hash,
    pub version_vector: Map<crate::hash::Hash, u64>,
    pub hash: crate::hash::Hash,
    pub signature: [u8; 64],
    pub summary: Summary,
}

/// The head of a writer's tree at one point in time.
#[derive(Debug)]
pub struct RootNode {
    pub snapshot_id: u64,
    pub proof: Proof,
    pub summary: Summary,
}

impl View for RootNode {
    type V = RootModel;

    open spec fn view(&self) -> RootModel {
        RootModel {
            snapshot_id: self.snapshot_id,
            writer_id: self.proof.writer_id,
            version_vector: self.proof.version_vector@,
            hash: self.proof.hash,
            signature: self.proof.signature,
            summary: self.summary,
        }
    }
}

impl RootNode {
    /// The root node of a tree without children, not stored anywhere: its
    /// hash is that of the empty collection of inner nodes, nobody has
    /// made a version yet, and nothing is missing.
    pub fn empty(writer_id: crate::hash::Hash, empty_hash: crate::hash::Hash, signature: [u8; 64]) -> (r: Self)
        ensures
            r.proof.version_vector.wf(),
            r@ == (RootModel {
                snapshot_id: 0,
                writer_id,
                version_vector: Map::empty(),
                hash: empty_hash,
                signature,
                summary: Summary::spec_full(),
            }),
    {
        RootNode {
            snapshot_id: 0,
            proof: Proof { writer_id, version_vector: VersionVector::new(), hash: empty_hash, signature },
            summary: Summary::full(),
        }
    }

    /// The node with a new proof. Only the version vector and the
    /// signature can change: the new proof is by the same writer for the
    /// same hash.
    pub fn with_proof(self, new_proof: Proof) -> (r: Self)
        requires
            new_proof.writer_id == self.proof.writer_id,
            new_proof.hash == self.proof.hash,
        ensures
            r@ == (RootModel { version_vector: new_proof.version_vector@, signature: new_proof.signature, ..self@ }),
            r.proof.version_vector == new_proof.version_vector,
    {
        RootNode { snapshot_id: self.snapshot_id, proof: new_proof, summary: self.summary }
    }
}

/// The rows as mathematical values.
pub open spec fn row_models(rows: Seq<RootNode>) -> Seq<RootModel> {
    rows.map_values(|r: RootNode| r@)
}

/// No two rows are by the same writer for the same hash.
pub open spec fn one_row_per_writer_and_hash(rows: Seq<RootModel>) -> bool {
    forall|i: int, j: int|
        0 <= i < j < rows.len() ==> !((#[trigger] rows[i]).writer_id == (#[trigger] rows[j]).writer_id && rows[i].hash
            == rows[j].hash)
}

/// The snapshot ids rise strictly along the rows and stay below `next_id`.
pub open spec fn ids_rising(rows: Seq<RootModel>, next_id: u64) -> bool {
    &&& forall|i: int, j: int| 0 <= i < j < rows.len() ==> (#[trigger] rows[i]).snapshot_id < (#[trigger] rows[j]).snapshot_id
    &&& forall|i: int| 0 <= i < rows.len() ==> (#[trigger] rows[i]).snapshot_id < next_id
}

/// Some row is by `writer_id` for `hash`.
pub open spec fn has_row(rows: Seq<RootModel>, writer_id: crate::hash::Hash, hash: crate::hash::Hash) -> bool {
    exists|i: int| 0 <= i < rows.len() && (#[trigger] rows[i]).writer_id == writer_id && rows[i].hash == hash
}

/// Some row has `hash`.
pub open spec fn has_hash(rows: Seq<RootModel>, hash: crate::hash::Hash) -> bool {
    exists|i: int| 0 <= i < rows.len() && (#[trigger] rows[i]).hash == hash
}

/// Some row with `hash` is complete.
pub open spec fn any_complete(rows: Seq<RootModel>, hash: crate::hash::Hash) -> bool {
    exists|i: int| 0 <= i < rows.len() && (#[trigger] rows[i]).hash == hash && rows[i].summary.is_complete
}

/// The row with the version vector and the signature of a new proof if it
/// is the snapshot `snapshot_id`, and as it is otherwise.
pub open spec fn reproved(
    row: RootModel,
    snapshot_id: u64,
    version_vector: Map<crate::hash::Hash, u64>,
    signature: [u8; 64],
) -> RootModel {
    if row.snapshot_id == snapshot_id {
        RootModel { version_vector, signature, ..row }
    } else {
        row
    }
}

/// The rows after the proof of the snapshot `snapshot_id` was replaced.
pub open spec fn with_proof_of(
    rows: Seq<RootModel>,
    snapshot_id: u64,
    version_vector: Map<crate::hash::Hash, u64>,
    signature: [u8; 64],
) -> Seq<RootModel> {
    rows.map_values(|row: RootModel| reproved(row, snapshot_id, version_vector, signature))
}

/// Some row is the snapshot `snapshot_id`.
pub open spec fn has_snapshot(rows: Seq<RootModel>, snapshot_id: u64) -> bool {
    exists|i: int| 0 <= i < rows.len() && (#[trigger] rows[i]).snapshot_id == snapshot_id
}

/// The row marked as complete if it has this hash, and as it is otherwise.
pub open spec fn completed(row: RootModel, hash: crate::hash::Hash) -> RootModel {
    if row.hash == hash {
        RootModel { summary: Summary { is_complete: true, block_presence: row.summary.block_presence }, ..row }
    } else {
        row
    }
}

/// The rows after every row with `hash` was marked as complete.
pub open spec fn with_completed(rows: Seq<RootModel>, hash: crate::hash::Hash) -> Seq<RootModel> {
    rows.map_values(|row: RootModel| completed(row, hash))
}

/// The row with a new summary if it has this hash, and as it is otherwise.
pub open spec fn summarised(row: RootModel, hash: crate::hash::Hash, summary: Summary) -> RootModel {
    if row.hash == hash {
        RootModel { summary, ..row }
    } else {
        row
    }
}

/// The rows after the summary of every row with `hash` was set.
pub open spec fn with_summaries(rows: Seq<RootModel>, hash: crate::hash::Hash, summary: Summary) -> Seq<RootModel> {
    rows.map_values(|row: RootModel| summarised(row, hash, summary))
}

/// `row` is the latest complete snapshot of `writer_id` among `rows`.
pub open spec fn is_latest_complete(rows: Seq<RootModel>, writer_id: crate::hash::Hash, row: RootModel) -> bool {
    &&& rows.contains(row)
    &&& row.writer_id == writer_id
    &&& row.summary.is_complete
    &&& forall|i: int|
        0 <= i < rows.len() && (#[trigger] rows[i]).writer_id == writer_id && rows[i].summary.is_complete
            ==> rows[i].snapshot_id <= row.snapshot_id
}

/// `row` is the latest complete snapshot of `writer_id` among those of
/// `rows` that are older than the snapshot `bound`.
pub open spec fn is_latest_complete_before(rows: Seq<RootModel>, writer_id: crate::hash::Hash, bound: u64, row: RootModel) -> bool {
    &&& rows.contains(row)
    &&& row.writer_id == writer_id
    &&& row.summary.is_complete
    &&& row.snapshot_id < bound
    &&& forall|i: int|
        0 <= i < rows.len() && (#[trigger] rows[i]).writer_id == writer_id && rows[i].summary.is_complete
            && rows[i].snapshot_id < bound ==> rows[i].snapshot_id <= row.snapshot_id
}

/// No row of `writer_id` that is older than the snapshot `bound` is complete.
pub open spec fn no_complete_before(rows: Seq<RootModel>, writer_id: crate::hash::Hash, bound: u64) -> bool {
    forall|i: int|
        0 <= i < rows.len() ==> !((#[trigger] rows[i]).writer_id == writer_id && rows[i].summary.is_complete
            && rows[i].snapshot_id < bound)
}

/// The root with the version vector `version_vector` by `writer_id` is
/// stale: the latest complete snapshot of that writer is at that version
/// vector or beyond it.
pub open spec fn is_stale(rows: Seq<RootModel>, writer_id: crate::hash::Hash, version_vector: Map<crate::hash::Hash, u64>) -> bool {
    exists|i: int|
        0 <= i < rows.len() && is_latest_complete(rows, writer_id, #[trigger] rows[i]) && vv_le(
            version_vector,
            rows[i].version_vector,
        )
}

/// No row of `writer_id` is complete.
pub open spec fn no_complete(rows: Seq<RootModel>, writer_id: crate::hash::Hash) -> bool {
    forall|i: int| 0 <= i < rows.len() ==> !((#[trigger] rows[i]).writer_id == writer_id && rows[i].summary.is_complete)
}

/// `row` is older than the snapshot `snapshot_id` on the branch of `writer_id`.
pub open spec fn is_older(row: RootModel, snapshot_id: u64, writer_id: crate::hash::Hash) -> bool {
    row.snapshot_id < snapshot_id && row.writer_id == writer_id
}

/// The table of snapshots.
#[derive(Debug)]
pub struct SnapshotTable {
    rows: Vec<RootNode>,
    next_id: u64,
}

impl SnapshotTable {
    /// The rows, in the order of their snapshot ids.
    pub closed spec fn rows(&self) -> Seq<RootModel> {
        row_models(self.rows@)
    }

    /// The id that the next snapshot gets.
    pub closed spec fn next_id(&self) -> u64 {
        self.next_id
    }

    /// Each writer has one row for a hash at most, the snapshot ids rise
    /// along the rows, and the version vectors are in order.
    pub closed spec fn wf(&self) -> bool {
        &&& one_row_per_writer_and_hash(self.rows())
        &&& ids_rising(self.rows(), self.next_id)
        &&& forall|i: int| 0 <= i < self.rows@.len() ==> (#[trigger] self.rows@[i]).proof.version_vector.wf()
    }

    /// A table in order has exactly one row for each writer and hash that
    /// it has a row for, and its snapshot ids rise along the rows.
    pub proof fn law_one_row_per_writer_and_hash(&self)
        requires
            self.wf(),
        ensures
            one_row_per_writer_and_hash(self.rows()),
            ids_rising(self.rows(), self.next_id()),
    {
    }

    /// A table without rows. Snapshot ids start at one.
    pub fn new() -> (r: Self)
        ensures
            r.wf(),
            r.rows() == Seq::<RootModel>::empty(),
            r.next_id() == 1,
    {
        let r = SnapshotTable { rows: Vec::new(), next_id: 1 };
        assert(r.rows() =~= Seq::<RootModel>::empty());
        r
    }

    /// The number of rows.
    pub fn len(&self) -> (r: usize)
        ensures
            r == self.rows().len(),
    {
        self.rows.len()
    }

    /// The row at a position.
    pub fn get(&self, index: usize) -> (r: &RootNode)
        requires
            index < self.rows().len(),
        ensures
            r@ == self.rows()[index as int],
            self.wf() ==> r.proof.version_vector.wf(),
    {
        &self.rows[index]
    }

    /// Creates a root node with the given proof, unless the writer has one
    /// for the same hash. Returns the id of the new snapshot.
    pub fn create(&mut self, proof: Proof, summary: Summary) -> (r: Result<u64, Error>)
        requires
            old(self).wf(),
            proof.version_vector.wf(),
            !has_row(old(self).rows(), proof.writer_id, proof.hash) ==> old(self).next_id() < u64::MAX,
        ensures
            final(self).wf(),
            match r {
                Ok(snapshot_id) => !has_row(old(self).rows(), proof.writer_id, proof.hash) && snapshot_id == old(self).next_id()
                    && final(self).next_id() == snapshot_id + 1 && final(self).rows() == old(self).rows().push(
                    RootModel {
                        snapshot_id,
                        writer_id: proof.writer_id,
                        version_vector: proof.version_vector@,
                        hash: proof.hash,
                        signature: proof.signature,
                        summary,
                    },
                ),
                Err(e) => e == Error::EntryExists && has_row(old(self).rows(), proof.writer_id, proof.hash) && final(self).rows()
                    == old(self).rows() && final(self).next_id() == old(self).next_id(),
            },
    {
        let mut i: usize = 0;
        while i < self.rows.len()
            invariant
                0 <= i <= self.rows@.len(),
                self.rows@ == old(self).rows@,
                self.next_id == old(self).next_id,
                old(self).wf(),
                forall|j: int|
                    0 <= j < i ==> !((#[trigger] self.rows()[j]).writer_id == proof.writer_id && self.rows()[j].hash
                        == proof.hash),
            decreases self.rows@.len() - i,
        {
            if hash_eq(&self.rows[i].proof.writer_id, &proof.writer_id) && hash_eq(&self.rows[i].proof.hash, &proof.hash) {
                assert(self.rows()[i as int].writer_id == proof.writer_id && self.rows()[i as int].hash == proof.hash);
                return Err(Error::EntryExists);
            }
            i = i + 1;
        }
        let snapshot_id = self.next_id;
        let node = RootNode { snapshot_id, proof, summary };
        let ghost before = self.rows@;
        self.rows.push(node);
        self.next_id = snapshot_id + 1;
        proof {
            assert(self.rows() =~= row_models(before).push(node@));
            let old_rows = row_models(before);
            let new_rows = self.rows();
            assert forall|a: int, b: int| 0 <= a < b < new_rows.len() implies !((#[trigger] new_rows[a]).writer_id == (
            #[trigger] new_rows[b]).writer_id && new_rows[a].hash == new_rows[b].hash) by {
                if b < old_rows.len() {
                    assert(new_rows[a] == old_rows[a] && new_rows[b] == old_rows[b]);
                } else {
                    assert(new_rows[a] == old_rows[a]);
                }
            }
            assert forall|a: int, b: int| 0 <= a < b < new_rows.len() implies (#[trigger] new_rows[a]).snapshot_id < (
            #[trigger] new_rows[b]).snapshot_id by {
                if b < old_rows.len() {
                    assert(new_rows[a] == old_rows[a] && new_rows[b] == old_rows[b]);
                } else {
                    assert(new_rows[a] == old_rows[a]);
                }
            }
            assert forall|a: int| 0 <= a < new_rows.len() implies (#[trigger] new_rows[a]).snapshot_id < self.next_id by {
                if a < old_rows.len() {
                    assert(new_rows[a] == old_rows[a]);
                }
            }
            assert forall|a: int| 0 <= a < self.rows@.len() implies (#[trigger] self.rows@[a]).proof.version_vector.wf() by {
                if a < before.len() {
                    assert(self.rows@[a] == before[a]);
                }
            }
        }
        Ok(snapshot_id)
    }

    /// The latest complete snapshot of the writer.
    pub fn load_latest_complete_by_writer(&self, writer_id: &crate::hash::Hash) -> (r: Result<&RootNode, Error>)
        requires
            self.wf(),
        ensures
            match r {
                Ok(node) => is_latest_complete(self.rows(), *writer_id, node@) && node.proof.version_vector.wf(),
                Err(e) => e == Error::EntryNotFound && no_complete(self.rows(), *writer_id),
            },
    {
        let mut i: usize = self.rows.len();
        while i > 0
            invariant
                0 <= i <= self.rows@.len(),
                self.wf(),
                forall|j: int|
                    i <= j < self.rows@.len() ==> !((#[trigger] self.rows()[j]).writer_id == *writer_id
                        && self.rows()[j].summary.is_complete),
            decreases i,
        {
            i = i - 1;
            if hash_eq(&self.rows[i].proof.writer_id, writer_id) && self.rows[i].summary.is_complete {
                proof {
                    let rows = self.rows();
                    assert(rows[i as int] == self.rows@[i as int]@);
                    assert(rows.contains(rows[i as int]));
                    assert forall|j: int|
                        0 <= j < rows.len() && (#[trigger] rows[j]).writer_id == *writer_id
                            && rows[j].summary.is_complete implies rows[j].snapshot_id <= rows[i as int].snapshot_id by {
                        if j < i {
                            assert(rows[j].snapshot_id < rows[i as int].snapshot_id);
                        }
                    }
                }
                return Ok(&self.rows[i]);
            }
        }
        Err(Error::EntryNotFound)
    }

    /// The latest complete snapshot of the writer among those that are
    /// older than the snapshot `snapshot_id`.
    pub fn load_prev(&self, snapshot_id: u64, writer_id: &crate::hash::Hash) -> (r: Result<&RootNode, Error>)
        requires
            self.wf(),
        ensures
            match r {
                Ok(node) => is_latest_complete_before(self.rows(), *writer_id, snapshot_id, node@)
                    && node.proof.version_vector.wf(),
                Err(e) => e == Error::EntryNotFound && no_complete_before(self.rows(), *writer_id, snapshot_id),
            },
    {
        let mut i: usize = self.rows.len();
        while i > 0
            invariant
                0 <= i <= self.rows@.len(),
                self.wf(),
                forall|j: int|
                    i <= j < self.rows@.len() ==> !((#[trigger] self.rows()[j]).writer_id == *writer_id
                        && self.rows()[j].summary.is_complete && self.rows()[j].snapshot_id < snapshot_id),
            decreases i,
        {
            i = i - 1;
            if self.rows[i].snapshot_id < snapshot_id && self.rows[i].summary.is_complete && hash_eq(
                &self.rows[i].proof.writer_id,
                writer_id,
            ) {
                proof {
                    let rows = self.rows();
                    assert(rows[i as int] == self.rows@[i as int]@);
                    assert(rows.contains(rows[i as int]));
                    assert forall|j: int|
                        0 <= j < rows.len() && (#[trigger] rows[j]).writer_id == *writer_id && rows[j].summary.is_complete
                            && rows[j].snapshot_id < snapshot_id implies rows[j].snapshot_id <= rows[i as int].snapshot_id by {
                        if j < i {
                            assert(rows[j].snapshot_id < rows[i as int].snapshot_id);
                        }
                    }
                }
                return Ok(&self.rows[i]);
            }
        }
        Err(Error::EntryNotFound)
    }

    /// The positions of the latest complete snapshots, one for each writer
    /// that has a complete snapshot.
    pub fn load_all_latest_complete(&self) -> (r: Vec<usize>)
        requires
            self.wf(),
        ensures
            forall|k: int|
                0 <= k < r@.len() ==> (#[trigger] r@[k]) < self.rows().len() && is_latest_complete(
                    self.rows(),
                    self.rows()[r@[k] as int].writer_id,
                    self.rows()[r@[k] as int],
                ),
            forall|j: int|
                0 <= j < self.rows().len() && (#[trigger] self.rows()[j]).summary.is_complete ==> exists|k: int|
                    0 <= k < r@.len() && self.rows()[(#[trigger] r@[k]) as int].writer_id == self.rows()[j].writer_id,
            forall|a: int, b: int|
                0 <= a < b < r@.len() ==> self.rows()[(#[trigger] r@[a]) as int].writer_id != self.rows()[(
                #[trigger] r@[b]) as int].writer_id,
    {
        let mut out: Vec<usize> = Vec::new();
        let mut i: usize = self.rows.len();
        while i > 0
            invariant
                0 <= i <= self.rows@.len(),
                self.wf(),
                forall|k: int| 0 <= k < out@.len() ==> i <= (#[trigger] out@[k]) < self.rows@.len() && self.rows()[out@[k] as int].summary.is_complete,
                forall|k: int, j: int|
                    0 <= k < out@.len() && i <= j < self.rows@.len() && (#[trigger] self.rows()[j]).writer_id
                        == self.rows()[(#[trigger] out@[k]) as int].writer_id && self.rows()[j].summary.is_complete ==> j
                        <= out@[k],
                forall|j: int|
                    i <= j < self.rows@.len() && (#[trigger] self.rows()[j]).summary.is_complete ==> exists|k: int|
                        0 <= k < out@.len() && self.rows()[(#[trigger] out@[k]) as int].writer_id == self.rows()[j].writer_id,
                forall|a: int, b: int|
                    0 <= a < b < out@.len() ==> self.rows()[(#[trigger] out@[a]) as int].writer_id != self.rows()[(
                    #[trigger] out@[b]) as int].writer_id,
            decreases i,
        {
            i = i - 1;
            let ghost before = out@;
            if self.rows[i].summary.is_complete {
                let mut found = false;
                let mut k: usize = 0;
                while k < out.len()
                    invariant
                        0 <= k <= out@.len(),
                        i < self.rows@.len(),
                        forall|m: int| 0 <= m < out@.len() ==> (#[trigger] out@[m]) < self.rows@.len(),
                        found <==> exists|m: int|
                            0 <= m < k && self.rows()[(#[trigger] out@[m]) as int].writer_id == self.rows()[i as int].writer_id,
                    decreases out@.len() - k,
                {
                    if hash_eq(&self.rows[out[k]].proof.writer_id, &self.rows[i].proof.writer_id) {
                        found = true;
                    }
                    proof {
                        if found {
                            if self.rows()[out@[k as int] as int].writer_id != self.rows()[i as int].writer_id {
                                let m = choose|m: int|
                                    0 <= m < k && self.rows()[(#[trigger] out@[m]) as int].writer_id == self.rows()[i as int].writer_id;
                                assert(0 <= m < k + 1);
                            }
                        }
                        if exists|m: int|
                            0 <= m < k + 1 && self.rows()[(#[trigger] out@[m]) as int].writer_id == self.rows()[i as int].writer_id {
                            let m = choose|m: int|
                                0 <= m < k + 1 && self.rows()[(#[trigger] out@[m]) as int].writer_id == self.rows()[i as int].writer_id;
                            if m < k {
                                assert(found);
                            }
                        }
                    }
                    k = k + 1;
                }
                if !found {
                    out.push(i);
                    proof {
                        let rows = self.rows();
                        assert(out@[before.len() as int] == i);
                        assert forall|m: int, j: int|
                            0 <= m < out@.len() && i <= j < self.rows@.len() && (#[trigger] rows[j]).writer_id == rows[(
                            #[trigger] out@[m]) as int].writer_id && rows[j].summary.is_complete implies j <= out@[m] by {
                            if m < before.len() {
                                assert(out@[m] == before[m]);
                                if j == i {
                                    assert(i < before[m]);
                                }
                            } else {
                                if j > i {
                                    let w = choose|w: int|
                                        0 <= w < before.len() && rows[(#[trigger] before[w]) as int].writer_id == rows[j].writer_id;
                                    assert(rows[before[w] as int].writer_id == rows[i as int].writer_id);
                                    assert(false);
                                }
                            }
                        }
                        assert forall|j: int|
                            i <= j < self.rows@.len() && (#[trigger] rows[j]).summary.is_complete implies exists|m: int|
                            0 <= m < out@.len() && rows[(#[trigger] out@[m]) as int].writer_id == rows[j].writer_id by {
                            if j == i {
                                assert(rows[out@[before.len() as int] as int].writer_id == rows[j].writer_id);
                            } else {
                                let w = choose|w: int|
                                    0 <= w < before.len() && rows[(#[trigger] before[w]) as int].writer_id == rows[j].writer_id;
                                assert(out@[w] == before[w]);
                            }
                        }
                        assert forall|a: int, b: int| 0 <= a < b < out@.len() implies rows[(#[trigger] out@[a]) as int].writer_id
                            != rows[(#[trigger] out@[b]) as int].writer_id by {
                            assert(out@[a] == before[a]);
                            if b < before.len() {
                                assert(out@[b] == before[b]);
                            }
                        }
                        assert forall|m: int| 0 <= m < out@.len() implies i <= (#[trigger] out@[m]) < self.rows@.len()
                            && rows[out@[m] as int].summary.is_complete by {
                            if m < before.len() {
                                assert(out@[m] == before[m]);
                            }
                        }
                    }
                } else {
                    proof {
                        let rows = self.rows();
                        let w = choose|w: int|
                            0 <= w < out@.len() && rows[(#[trigger] out@[w]) as int].writer_id == rows[i as int].writer_id;
                        assert forall|j: int|
                            i <= j < self.rows@.len() && (#[trigger] rows[j]).summary.is_complete implies exists|m: int|
                            0 <= m < out@.len() && rows[(#[trigger] out@[m]) as int].writer_id == rows[j].writer_id by {
                            if j == i {
                                assert(rows[out@[w] as int].writer_id == rows[j].writer_id);
                            }
                        }
                    }
                }
            }
        }
        proof {
            let rows = self.rows();
            assert forall|k: int| 0 <= k < out@.len() implies (#[trigger] out@[k]) < rows.len() && is_latest_complete(
                rows,
                rows[out@[k] as int].writer_id,
                rows[out@[k] as int],
            ) by {
                let c = out@[k] as int;
                assert(rows.contains(rows[c]));
                assert forall|j: int|
                    0 <= j < rows.len() && (#[trigger] rows[j]).writer_id == rows[c].writer_id && rows[j].summary.is_complete implies rows[j].snapshot_id
                    <= rows[c].snapshot_id by {
                    assert(j <= c);
                    if j < c {
                        assert(rows[j].snapshot_id < rows[c].snapshot_id);
                    }
                }
            }
        }
        out
    }

    /// Takes in a root node that a peer has sent. `verified` says whether
    /// its signature verifies against its writer id. An unverified root is
    /// refused as malformed. A root that is stale, or that the writer has
    /// a snapshot for already, is passed over. Any other is stored as
    /// incomplete, and the id of the new snapshot is returned.
    pub fn receive_root(&mut self, proof: Proof, verified: bool) -> (r: Result<Option<u64>, Error>)
        requires
            old(self).wf(),
            proof.version_vector.wf(),
            !has_row(old(self).rows(), proof.writer_id, proof.hash) ==> old(self).next_id() < u64::MAX,
        ensures
            final(self).wf(),
            match r {
                Err(e) => e == Error::MalformedData && !verified && final(self).rows() == old(self).rows() && final(self).next_id() == old(self).next_id(),
                Ok(None) => verified && (is_stale(old(self).rows(), proof.writer_id, proof.version_vector@) || has_row(
                    old(self).rows(),
                    proof.writer_id,
                    proof.hash,
                )) && final(self).rows() == old(self).rows() && final(self).next_id() == old(self).next_id(),
                Ok(Some(snapshot_id)) => verified && !is_stale(old(self).rows(), proof.writer_id, proof.version_vector@)
                    && !has_row(old(self).rows(), proof.writer_id, proof.hash) && snapshot_id == old(self).next_id()
                    && final(self).next_id() == snapshot_id + 1 && final(self).rows() == old(self).rows().push(
                    RootModel {
                        snapshot_id,
                        writer_id: proof.writer_id,
                        version_vector: proof.version_vector@,
                        hash: proof.hash,
                        signature: proof.signature,
                        summary: Summary::spec_incomplete(),
                    },
                ),
            },
    {
        if !verified {
            return Err(Error::MalformedData);
        }
        let is_news = match self.load_latest_complete_by_writer(&proof.writer_id) {
            Ok(local) => {
                let news = !proof.version_vector.is_le(&local.proof.version_vector);
                proof {
                    let rows = self.rows();
                    let w = choose|w: int| 0 <= w < rows.len() && rows[w] == local@;
                    if news {
                        assert forall|i: int|
                            0 <= i < rows.len() && is_latest_complete(rows, proof.writer_id, #[trigger] rows[i]) implies !vv_le(
                            proof.version_vector@,
                            rows[i].version_vector,
                        ) by {
                            assert(rows[i].snapshot_id <= rows[w].snapshot_id);
                            assert(rows[w].snapshot_id <= rows[i].snapshot_id);
                            if i < w {
                                assert(rows[i].snapshot_id < rows[w].snapshot_id);
                            } else if w < i {
                                assert(rows[w].snapshot_id < rows[i].snapshot_id);
                            }
                        }
                    } else {
                        assert(is_latest_complete(rows, proof.writer_id, rows[w]));
                    }
                }
                news
            },
            Err(_) => {
                proof {
                    let rows = self.rows();
                    assert forall|i: int| 0 <= i < rows.len() implies !is_latest_complete(
                        rows,
                        proof.writer_id,
                        #[trigger] rows[i],
                    ) by {
                        assert(!(rows[i].writer_id == proof.writer_id && rows[i].summary.is_complete));
                    }
                }
                true
            },
        };
        if !is_news {
            return Ok(None);
        }
        match self.create(proof, Summary::incomplete()) {
            Ok(snapshot_id) => Ok(Some(snapshot_id)),
            Err(_) => Ok(None),
        }
    }

    /// The hashes of the root nodes.
    pub fn root_hashes(&self) -> (r: Vec<crate::hash::Hash>)
        ensures
            forall|h: crate::hash::Hash| r@.contains(h) <==> has_hash(self.rows(), h),
    {
        let mut out: Vec<crate::hash::Hash> = Vec::new();
        let mut i: usize = 0;
        while i < self.rows.len()
            invariant
                0 <= i <= self.rows@.len(),
                forall|h: crate::hash::Hash|
                    out@.contains(h) <==> exists|j: int| 0 <= j < i && (#[trigger] self.rows()[j]).hash == h,
            decreases self.rows@.len() - i,
        {
            let ghost before = out@;
            out.push(self.rows[i].proof.hash);
            proof {
                let rows = self.rows();
                assert forall|h: crate::hash::Hash|
                    out@.contains(h) <==> exists|j: int| 0 <= j < i + 1 && (#[trigger] rows[j]).hash == h by {
                    crate::idset::lemma_push_contains(before, rows[i as int].hash, h);
                    if before.contains(h) {
                        let j = choose|j: int| 0 <= j < i && (#[trigger] rows[j]).hash == h;
                        assert(0 <= j < i + 1);
                    }
                    if exists|j: int| 0 <= j < i + 1 && (#[trigger] rows[j]).hash == h {
                        let j = choose|j: int| 0 <= j < i + 1 && (#[trigger] rows[j]).hash == h;
                        if j < i {
                            assert(before.contains(h));
                        }
                    }
                }
            }
            i = i + 1;
        }
        out
    }

    /// The writers that have a snapshot with this hash, in the order of
    /// their snapshots.
    pub fn load_writer_ids(&self, hash: &crate::hash::Hash) -> (r: Vec<crate::hash::Hash>)
        ensures
            forall|w: crate::hash::Hash| r@.contains(w) <==> has_row(self.rows(), w, *hash),
    {
        let mut out: Vec<crate::hash::Hash> = Vec::new();
        let mut i: usize = 0;
        while i < self.rows.len()
            invariant
                0 <= i <= self.rows@.len(),
                forall|w: crate::hash::Hash|
                    out@.contains(w) <==> exists|j: int|
                        0 <= j < i && (#[trigger] self.rows()[j]).writer_id == w && self.rows()[j].hash == *hash,
            decreases self.rows@.len() - i,
        {
            let ghost before = out@;
            if hash_eq(&self.rows[i].proof.hash, hash) {
                out.push(self.rows[i].proof.writer_id);
            }
            proof {
                let rows = self.rows();
                assert forall|w: crate::hash::Hash|
                    out@.contains(w) <==> exists|j: int|
                        0 <= j < i + 1 && (#[trigger] rows[j]).writer_id == w && rows[j].hash == *hash by {
                    crate::idset::lemma_push_contains(before, rows[i as int].writer_id, w);
                    if before.contains(w) {
                        let j = choose|j: int| 0 <= j < i && (#[trigger] rows[j]).writer_id == w && rows[j].hash == *hash;
                        assert(0 <= j < i + 1);
                    }
                    if exists|j: int| 0 <= j < i + 1 && (#[trigger] rows[j]).writer_id == w && rows[j].hash == *hash {
                        let j = choose|j: int|
                            0 <= j < i + 1 && (#[trigger] rows[j]).writer_id == w && rows[j].hash == *hash;
                        if j < i {
                            assert(before.contains(w));
                        }
                    }
                }
            }
            i = i + 1;
        }
        out
    }

    /// The position of the snapshot with this id, if there is one.
    pub fn find_snapshot(&self, snapshot_id: u64) -> (r: Option<usize>)
        ensures
            match r {
                Some(i) => i < self.rows().len() && self.rows()[i as int].snapshot_id == snapshot_id,
                None => !has_snapshot(self.rows(), snapshot_id),
            },
    {
        let mut i: usize = 0;
        while i < self.rows.len()
            invariant
                0 <= i <= self.rows@.len(),
                forall|j: int| 0 <= j < i ==> (#[trigger] self.rows()[j]).snapshot_id != snapshot_id,
            decreases self.rows@.len() - i,
        {
            if self.rows[i].snapshot_id == snapshot_id {
                return Some(i);
            }
            i = i + 1;
        }
        None
    }

    /// Replaces the proof of the snapshot `snapshot_id`: its version vector
    /// and its signature become those of the new proof, and nothing else
    /// changes, in that row or in any other. The new proof is by the
    /// writer of that snapshot and for its hash. Returns whether there is
    /// such a snapshot.
    pub fn update_proof(&mut self, snapshot_id: u64, new_proof: Proof) -> (r: bool)
        requires
            old(self).wf(),
            new_proof.version_vector.wf(),
            forall|i: int|
                0 <= i < old(self).rows().len() && (#[trigger] old(self).rows()[i]).snapshot_id == snapshot_id
                    ==> old(self).rows()[i].writer_id == new_proof.writer_id && old(self).rows()[i].hash == new_proof.hash,
        ensures
            final(self).wf(),
            final(self).next_id() == old(self).next_id(),
            r == has_snapshot(old(self).rows(), snapshot_id),
            final(self).rows() == with_proof_of(old(self).rows(), snapshot_id, new_proof.version_vector@, new_proof.signature),
    {
        match self.find_snapshot(snapshot_id) {
            Some(i) => {
                let ghost vv = new_proof.version_vector@;
                let ghost signature = new_proof.signature;
                self.rows[i].proof = new_proof;
                proof {
                    let olds = old(self).rows();
                    let news = self.rows();
                    assert forall|j: int| 0 <= j < news.len() implies news[j] == with_proof_of(olds, snapshot_id, vv, signature)[j] by {
                        if j != i {
                            assert(self.rows@[j] == old(self).rows@[j]);
                            if j < i {
                                assert(olds[j].snapshot_id < olds[i as int].snapshot_id);
                            } else {
                                assert(olds[i as int].snapshot_id < olds[j].snapshot_id);
                            }
                        } else {
                            assert(olds[j].writer_id == news[j].writer_id && olds[j].hash == news[j].hash);
                        }
                    }
                    assert(news =~= with_proof_of(olds, snapshot_id, vv, signature));
                    assert forall|a: int, b: int| 0 <= a < b < news.len() implies !((#[trigger] news[a]).writer_id == (
                    #[trigger] news[b]).writer_id && news[a].hash == news[b].hash) by {
                        assert(!(olds[a].writer_id == olds[b].writer_id && olds[a].hash == olds[b].hash));
                    }
                    assert forall|a: int, b: int| 0 <= a < b < news.len() implies (#[trigger] news[a]).snapshot_id < (
                    #[trigger] news[b]).snapshot_id by {
                        assert(olds[a].snapshot_id < olds[b].snapshot_id);
                    }
                    assert forall|a: int| 0 <= a < news.len() implies (#[trigger] news[a]).snapshot_id < self.next_id by {
                        assert(olds[a].snapshot_id < old(self).next_id);
                    }
                    assert forall|a: int| 0 <= a < self.rows@.len() implies (#[trigger] self.rows@[a]).proof.version_vector.wf() by {
                        if a != i {
                            assert(self.rows@[a] == old(self).rows@[a]);
                        }
                    }
                }
                true
            },
            None => {
                proof {
                    let olds = old(self).rows();
                    assert(olds =~= with_proof_of(olds, snapshot_id, new_proof.version_vector@, new_proof.signature));
                }
                false
            },
        }
    }

    /// The id that the next snapshot will get.
    pub fn next_snapshot_id(&self) -> (r: u64)
        ensures
            r == self.next_id(),
    {
        self.next_id
    }

    /// Marks every root node with this hash as complete. What is known of
    /// the blocks below it stays.
    pub fn set_complete(&mut self, hash: &crate::hash::Hash)
        requires
            old(self).wf(),
        ensures
            final(self).wf(),
            final(self).next_id() == old(self).next_id(),
            final(self).rows() == with_completed(old(self).rows(), *hash),
    {
        let mut i: usize = 0;
        while i < self.rows.len()
            invariant
                0 <= i <= self.rows@.len(),
                self.rows@.len() == old(self).rows@.len(),
                self.next_id == old(self).next_id,
                forall|j: int| 0 <= j < i ==> (#[trigger] self.rows@[j])@ == completed(old(self).rows@[j]@, *hash),
                forall|j: int| i <= j < self.rows@.len() ==> (#[trigger] self.rows@[j]) == old(self).rows@[j],
                forall|j: int| 0 <= j < self.rows@.len() ==> (#[trigger] self.rows@[j]).proof.version_vector.wf(),
            decreases self.rows@.len() - i,
        {
            let ghost rows_before = self.rows@;
            if hash_eq(&self.rows[i].proof.hash, hash) {
                self.rows[i].summary.is_complete = true;
            }
            proof {
                assert(rows_before[i as int] == old(self).rows@[i as int]);
                assert(self.rows@[i as int]@ == completed(old(self).rows@[i as int]@, *hash));
                assert forall|j: int| 0 <= j < i implies (#[trigger] self.rows@[j])@ == completed(old(self).rows@[j]@, *hash) by {
                    assert(self.rows@[j] == rows_before[j]);
                }
            }
            i = i + 1;
        }
        proof {
            let olds = old(self).rows();
            let news = self.rows();
            assert forall|j: int| 0 <= j < news.len() implies news[j] == with_completed(olds, *hash)[j] by {
                assert(self.rows@[j]@ == completed(old(self).rows@[j]@, *hash));
            }
            assert(news =~= with_completed(olds, *hash));
            assert forall|a: int, b: int| 0 <= a < b < news.len() implies !((#[trigger] news[a]).writer_id == (
            #[trigger] news[b]).writer_id && news[a].hash == news[b].hash) by {
                assert(!(olds[a].writer_id == olds[b].writer_id && olds[a].hash == olds[b].hash));
            }
            assert forall|a: int, b: int| 0 <= a < b < news.len() implies (#[trigger] news[a]).snapshot_id < (
            #[trigger] news[b]).snapshot_id by {
                assert(olds[a].snapshot_id < olds[b].snapshot_id);
            }
            assert forall|a: int| 0 <= a < news.len() implies (#[trigger] news[a]).snapshot_id < self.next_id by {
                assert(olds[a].snapshot_id < old(self).next_id);
            }
        }
    }

    /// Sets the summary of every root node with this hash. Returns whether
    /// the nodes became complete: there are such nodes, the new summary is
    /// complete, and none of them was.
    pub fn update_summaries(&mut self, hash: &crate::hash::Hash, summary: Summary) -> (r: bool)
        requires
            old(self).wf(),
        ensures
            final(self).wf(),
            final(self).next_id() == old(self).next_id(),
            final(self).rows() == with_summaries(old(self).rows(), *hash, summary),
            r == (has_hash(old(self).rows(), *hash) && !any_complete(old(self).rows(), *hash) && summary.is_complete),
    {
        let mut found = false;
        let mut was_complete = false;
        let mut i: usize = 0;
        while i < self.rows.len()
            invariant
                0 <= i <= self.rows@.len(),
                self.rows@.len() == old(self).rows@.len(),
                self.next_id == old(self).next_id,
                found <==> exists|j: int| 0 <= j < i && (#[trigger] old(self).rows()[j]).hash == *hash,
                forall|j: int| 0 <= j < i ==> (#[trigger] self.rows@[j])@ == summarised(old(self).rows@[j]@, *hash, summary),
                forall|j: int| i <= j < self.rows@.len() ==> (#[trigger] self.rows@[j]) == old(self).rows@[j],
                forall|j: int| 0 <= j < self.rows@.len() ==> (#[trigger] self.rows@[j]).proof.version_vector.wf(),
                was_complete <==> exists|j: int|
                    0 <= j < i && (#[trigger] old(self).rows()[j]).hash == *hash && old(self).rows()[j].summary.is_complete,
            decreases self.rows@.len() - i,
        {
            let ghost rows_before = self.rows@;
            if hash_eq(&self.rows[i].proof.hash, hash) {
                found = true;
                if self.rows[i].summary.is_complete {
                    was_complete = true;
                }
                self.rows[i].summary = summary;
            }
            proof {
                let olds = old(self).rows();
                if found {
                    if olds[i as int].hash != *hash {
                        let j = choose|j: int| 0 <= j < i && (#[trigger] olds[j]).hash == *hash;
                        assert(0 <= j < i + 1);
                    }
                }
                if exists|j: int| 0 <= j < i + 1 && (#[trigger] olds[j]).hash == *hash {
                    let j = choose|j: int| 0 <= j < i + 1 && (#[trigger] olds[j]).hash == *hash;
                    if j < i {
                        assert(found);
                    }
                }
                assert(rows_before[i as int] == old(self).rows@[i as int]);
                assert(olds[i as int] == old(self).rows@[i as int]@);
                assert(self.rows@[i as int]@ == summarised(old(self).rows@[i as int]@, *hash, summary));
                assert forall|j: int| 0 <= j < i implies (#[trigger] self.rows@[j])@ == summarised(
                    old(self).rows@[j]@,
                    *hash,
                    summary,
                ) by {
                    assert(self.rows@[j] == rows_before[j]);
                }
                if was_complete {
                    if !(olds[i as int].hash == *hash && olds[i as int].summary.is_complete) {
                        let j = choose|j: int|
                            0 <= j < i && (#[trigger] olds[j]).hash == *hash && olds[j].summary.is_complete;
                        assert(0 <= j < i + 1);
                    }
                }
                if exists|j: int| 0 <= j < i + 1 && (#[trigger] olds[j]).hash == *hash && olds[j].summary.is_complete {
                    let j = choose|j: int|
                        0 <= j < i + 1 && (#[trigger] olds[j]).hash == *hash && olds[j].summary.is_complete;
                    if j < i {
                        assert(was_complete);
                    }
                }
            }
            i = i + 1;
        }
        proof {
            let olds = old(self).rows();
            let news = self.rows();
            assert forall|j: int| 0 <= j < news.len() implies news[j] == with_summaries(olds, *hash, summary)[j] by {
                assert(self.rows@[j]@ == summarised(old(self).rows@[j]@, *hash, summary));
            }
            assert(news =~= with_summaries(olds, *hash, summary));
            assert forall|a: int, b: int| 0 <= a < b < news.len() implies !((#[trigger] news[a]).writer_id == (
            #[trigger] news[b]).writer_id && news[a].hash == news[b].hash) by {
                assert(!(olds[a].writer_id == olds[b].writer_id && olds[a].hash == olds[b].hash));
            }
            assert forall|a: int, b: int| 0 <= a < b < news.len() implies (#[trigger] news[a]).snapshot_id < (
            #[trigger] news[b]).snapshot_id by {
                assert(olds[a].snapshot_id < olds[b].snapshot_id);
            }
            assert forall|a: int| 0 <= a < news.len() implies (#[trigger] news[a]).snapshot_id < self.next_id by {
                assert(olds[a].snapshot_id < old(self).next_id);
            }
        }
        found && !was_complete && summary.is_complete
    }

    /// Removes the snapshot with this id, if there is one. Returns whether
    /// there was one.
    pub fn remove_recursively(&mut self, snapshot_id: u64) -> (r: bool)
        requires
            old(self).wf(),
        ensures
            final(self).wf(),
            final(self).next_id() == old(self).next_id(),
            r == (exists|i: int| 0 <= i < old(self).rows().len() && (#[trigger] old(self).rows()[i]).snapshot_id == snapshot_id),
            forall|row: RootModel|
                final(self).rows().contains(row) <==> old(self).rows().contains(row) && row.snapshot_id != snapshot_id,
    {
        let mut i: usize = 0;
        while i < self.rows.len()
            invariant
                0 <= i <= self.rows@.len(),
                self.rows@ == old(self).rows@,
                self.next_id == old(self).next_id,
                old(self).wf(),
                forall|j: int| 0 <= j < i ==> (#[trigger] self.rows()[j]).snapshot_id != snapshot_id,
            decreases self.rows@.len() - i,
        {
            if self.rows[i].snapshot_id == snapshot_id {
                let _ = self.rows.remove(i);
                proof {
                    let olds = old(self).rows();
                    let news = self.rows();
                    let k = i as int;
                    assert(olds[k].snapshot_id == snapshot_id);
                    assert(news =~= olds.remove(k));
                    assert forall|a: int| 0 <= a < news.len() implies #[trigger] news[a] == olds[if a < k { a } else { a + 1 }] by {}
                    assert forall|row: RootModel| news.contains(row) <==> olds.contains(row) && row.snapshot_id
                        != snapshot_id by {
                        if news.contains(row) {
                            let a = choose|a: int| 0 <= a < news.len() && news[a] == row;
                            let a2 = if a < k { a } else { a + 1 };
                            assert(olds[a2] == row);
                            if a2 < k {
                                assert(olds[a2].snapshot_id < olds[k].snapshot_id);
                            } else {
                                assert(olds[k].snapshot_id < olds[a2].snapshot_id);
                            }
                        }
                        if olds.contains(row) && row.snapshot_id != snapshot_id {
                            let a = choose|a: int| 0 <= a < olds.len() && olds[a] == row;
                            let a2 = if a < k { a } else { a - 1 };
                            assert(news[a2] == row);
                        }
                    }
                    assert forall|a: int, b: int| 0 <= a < b < news.len() implies !((#[trigger] news[a]).writer_id == (
                    #[trigger] news[b]).writer_id && news[a].hash == news[b].hash) by {
                        let a2 = if a < k { a } else { a + 1 };
                        let b2 = if b < k { b } else { b + 1 };
                        assert(!(olds[a2].writer_id == olds[b2].writer_id && olds[a2].hash == olds[b2].hash));
                    }
                    assert forall|a: int, b: int| 0 <= a < b < news.len() implies (#[trigger] news[a]).snapshot_id < (
                    #[trigger] news[b]).snapshot_id by {
                        let a2 = if a < k { a } else { a + 1 };
                        let b2 = if b < k { b } else { b + 1 };
                        assert(olds[a2].snapshot_id < olds[b2].snapshot_id);
                    }
                    assert forall|a: int| 0 <= a < news.len() implies (#[trigger] news[a]).snapshot_id < self.next_id by {
                        let a2 = if a < k { a } else { a + 1 };
                        assert(olds[a2].snapshot_id < old(self).next_id);
                    }
                    assert forall|a: int| 0 <= a < self.rows@.len() implies (#[trigger] self.rows@[a]).proof.version_vector.wf() by {
                        let a2 = if a < k { a } else { a + 1 };
                        assert(self.rows@[a] == old(self).rows@[a2]);
                    }
                }
                return true;
            }
            i = i + 1;
        }
        proof {
            let olds = old(self).rows();
            assert forall|row: RootModel| olds.contains(row) implies row.snapshot_id != snapshot_id by {
                let a = choose|a: int| 0 <= a < olds.len() && olds[a] == row;
                assert(self.rows()[a].snapshot_id != snapshot_id);
            }
        }
        false
    }

    /// Removes the snapshots of `writer_id` that are older than the
    /// snapshot `snapshot_id`.
    pub fn remove_recursively_all_older(&mut self, snapshot_id: u64, writer_id: &crate::hash::Hash)
        requires
            old(self).wf(),
        ensures
            final(self).wf(),
            final(self).next_id() == old(self).next_id(),
            forall|row: RootModel|
                #![trigger final(self).rows().contains(row)]
                #![trigger old(self).rows().contains(row)]
                final(self).rows().contains(row) <==> old(self).rows().contains(row) && !is_older(
                    row,
                    snapshot_id,
                    *writer_id,
                ),
    {
        let mut kept: Vec<RootNode> = Vec::new();
        let mut rest: Vec<RootNode> = Vec::new();
        core::mem::swap(&mut rest, &mut self.rows);
        let ghost orig = rest@;
        let ghost next_id = self.next_id;
        // Take the rows off the back, keep those that stay, and put them
        // back in their order afterwards.
        while rest.len() > 0
            invariant
                rest@.len() <= orig.len(),
                rest@ == orig.take(rest@.len() as int),
                self.next_id == next_id,
                forall|k: int| 0 <= k < kept@.len() ==> (#[trigger] kept@[k]).proof.version_vector.wf(),
                forall|k: int| 0 <= k < orig.len() ==> (#[trigger] orig[k]).proof.version_vector.wf(),
                one_row_per_writer_and_hash(row_models(orig)),
                ids_rising(row_models(orig), next_id),
                forall|k: int|
                    0 <= k < kept@.len() ==> exists|j: int|
                        rest@.len() <= j < orig.len() && orig[j] == #[trigger] kept@[k] && !is_older(
                            orig[j]@,
                            snapshot_id,
                            *writer_id,
                        ),
                forall|j: int|
                    rest@.len() <= j < orig.len() && !is_older((#[trigger] orig[j])@, snapshot_id, *writer_id)
                        ==> kept@.contains(orig[j]),
                forall|a: int, b: int|
                    0 <= a < b < kept@.len() ==> (#[trigger] kept@[a]).snapshot_id > (#[trigger] kept@[b]).snapshot_id,
                kept@.len() > 0 ==> exists|j: int|
                    rest@.len() <= j < orig.len() && orig[j] == kept@[kept@.len() - 1] && forall|m: int|
                        rest@.len() <= m < j ==> is_older((#[trigger] orig[m])@, snapshot_id, *writer_id),
            decreases rest@.len(),
        {
            let ghost n = rest@.len() as int;
            let ghost kept_before = kept@;
            let node = rest.pop().unwrap();
            proof {
                assert(node == orig[n - 1]);
                assert(rest@ =~= orig.take(n - 1));
            }
            if node.snapshot_id < snapshot_id && hash_eq(&node.proof.writer_id, writer_id) {
                proof {
                    assert(is_older(orig[n - 1]@, snapshot_id, *writer_id));
                    assert forall|k: int| 0 <= k < kept@.len() implies exists|j: int|
                        n - 1 <= j < orig.len() && orig[j] == #[trigger] kept@[k] && !is_older(
                            orig[j]@,
                            snapshot_id,
                            *writer_id,
                        ) by {
                        let j = choose|j: int|
                            n <= j < orig.len() && orig[j] == kept@[k] && !is_older(orig[j]@, snapshot_id, *writer_id);
                        assert(n - 1 <= j);
                    }
                    if kept@.len() > 0 {
                        let j = choose|j: int|
                            n <= j < orig.len() && orig[j] == kept@[kept@.len() - 1] && forall|m: int|
                                n <= m < j ==> is_older((#[trigger] orig[m])@, snapshot_id, *writer_id);
                        assert(n - 1 <= j < orig.len() && orig[j] == kept@[kept@.len() - 1] && forall|m: int|
                            n - 1 <= m < j ==> is_older((#[trigger] orig[m])@, snapshot_id, *writer_id));
                    }
                }
            } else {
                proof {
                    assert(!is_older(orig[n - 1]@, snapshot_id, *writer_id));
                    if kept@.len() > 0 {
                        let j = choose|j: int|
                            n <= j < orig.len() && orig[j] == kept@[kept@.len() - 1] && forall|m: int|
                                n <= m < j ==> is_older((#[trigger] orig[m])@, snapshot_id, *writer_id);
                        assert(row_models(orig)[n - 1].snapshot_id < row_models(orig)[j].snapshot_id);
                    }
                }
                kept.push(node);
                proof {
                    assert forall|k: int| 0 <= k < kept@.len() implies exists|j: int|
                        n - 1 <= j < orig.len() && orig[j] == #[trigger] kept@[k] && !is_older(
                            orig[j]@,
                            snapshot_id,
                            *writer_id,
                        ) by {
                        if k < kept_before.len() {
                            let j = choose|j: int|
                                n <= j < orig.len() && orig[j] == kept_before[k] && !is_older(
                                    orig[j]@,
                                    snapshot_id,
                                    *writer_id,
                                );
                            assert(n - 1 <= j);
                        } else {
                            assert(orig[n - 1] == kept@[k]);
                        }
                    }
                    assert forall|j: int|
                        n - 1 <= j < orig.len() && !is_older((#[trigger] orig[j])@, snapshot_id, *writer_id) implies kept@.contains(
                        orig[j],
                    ) by {
                        crate::idset::lemma_push_contains(kept_before, node, orig[j]);
                    }
                    assert forall|a: int, b: int| 0 <= a < b < kept@.len() implies (#[trigger] kept@[a]).snapshot_id > (
                    #[trigger] kept@[b]).snapshot_id by {
                        if b == kept_before.len() {
                            let j = choose|j: int|
                                n <= j < orig.len() && orig[j] == kept_before[a] && !is_older(
                                    orig[j]@,
                                    snapshot_id,
                                    *writer_id,
                                );
                            assert(row_models(orig)[n - 1].snapshot_id < row_models(orig)[j].snapshot_id);
                        }
                    }
                    assert(n - 1 <= n - 1 < orig.len() && orig[n - 1] == kept@[kept@.len() - 1] && forall|m: int|
                        n - 1 <= m < n - 1 ==> is_older((#[trigger] orig[m])@, snapshot_id, *writer_id));
                }
            }
        }
        // `kept` holds the rows that stay, the latest first.
        let ghost reversed = kept@;
        let mut out: Vec<RootNode> = Vec::new();
        while kept.len() > 0
            invariant
                kept@.len() <= reversed.len(),
                kept@ == reversed.take(kept@.len() as int),
                out@.len() == reversed.len() - kept@.len(),
                forall|k: int| 0 <= k < out@.len() ==> #[trigger] out@[k] == reversed[reversed.len() - 1 - k],
            decreases kept@.len(),
        {
            let ghost n = kept@.len() as int;
            let node = kept.pop().unwrap();
            assert(node == reversed[n - 1]);
            assert(kept@ =~= reversed.take(n - 1));
            out.push(node);
        }
        self.rows = out;
        proof {
            let news = self.rows();
            let olds = row_models(orig);
            assert(old(self).rows() == olds);
            assert forall|k: int| 0 <= k < news.len() implies #[trigger] news[k] == reversed[reversed.len() - 1 - k]@ by {
                assert(self.rows@[k] == reversed[reversed.len() - 1 - k]);
            }
            assert forall|row: RootModel| news.contains(row) <==> olds.contains(row) && !is_older(
                row,
                snapshot_id,
                *writer_id,
            ) by {
                if news.contains(row) {
                    let k = choose|k: int| 0 <= k < news.len() && news[k] == row;
                    let k2 = reversed.len() - 1 - k;
                    let j = choose|j: int|
                        0 <= j < orig.len() && orig[j] == reversed[k2] && !is_older(orig[j]@, snapshot_id, *writer_id);
                    assert(olds[j] == row);
                }
                if olds.contains(row) && !is_older(row, snapshot_id, *writer_id) {
                    let j = choose|j: int| 0 <= j < olds.len() && olds[j] == row;
                    assert(orig[j]@ == row);
                    assert(reversed.contains(orig[j]));
                    let k2 = choose|k2: int| 0 <= k2 < reversed.len() && reversed[k2] == orig[j];
                    let k = reversed.len() - 1 - k2;
                    assert(news[k] == row);
                }
            }
            assert forall|a: int, b: int| 0 <= a < b < news.len() implies (#[trigger] news[a]).snapshot_id < (
            #[trigger] news[b]).snapshot_id by {
                let a2 = reversed.len() - 1 - a;
                let b2 = reversed.len() - 1 - b;
                assert(reversed[b2].snapshot_id > reversed[a2].snapshot_id);
            }
            assert forall|a: int| 0 <= a < news.len() implies (#[trigger] news[a]).snapshot_id < self.next_id by {
                let a2 = reversed.len() - 1 - a;
                let j = choose|j: int|
                    0 <= j < orig.len() && orig[j] == reversed[a2] && !is_older(orig[j]@, snapshot_id, *writer_id);
                assert(olds[j].snapshot_id < next_id);
            }
            assert forall|a: int, b: int| 0 <= a < b < news.len() implies !((#[trigger] news[a]).writer_id == (
            #[trigger] news[b]).writer_id && news[a].hash == news[b].hash) by {
                let a2 = reversed.len() - 1 - a;
                let b2 = reversed.len() - 1 - b;
                let ja = choose|j: int|
                    0 <= j < orig.len() && orig[j] == reversed[a2] && !is_older(orig[j]@, snapshot_id, *writer_id);
                let jb = choose|j: int|
                    0 <= j < orig.len() && orig[j] == reversed[b2] && !is_older(orig[j]@, snapshot_id, *writer_id);
                assert(olds[ja] == news[a] && olds[jb] == news[b]);
                assert(news[a].snapshot_id < news[b].snapshot_id);
                if ja < jb {
                    assert(!(olds[ja].writer_id == olds[jb].writer_id && olds[ja].hash == olds[jb].hash));
                } else if jb < ja {
                    assert(olds[jb].snapshot_id < olds[ja].snapshot_id);
                }
            }
            assert forall|a: int| 0 <= a < self.rows@.len() implies (#[trigger] self.rows@[a]).proof.version_vector.wf() by {
                let a2 = reversed.len() - 1 - a;
                assert(self.rows@[a] == reversed[a2]);
            }
        }
    }
}

/// Setting the summaries of a hash is idempotent: doing it twice in a row
/// with the same summary leaves the rows as the first time has left them,
/// and the second time reports that nothing became complete.
pub proof fn law_update_summaries_idempotent(rows: Seq<RootModel>, hash: crate::hash::Hash, summary: Summary)
    ensures
        with_summaries(with_summaries(rows, hash, summary), hash, summary) == with_summaries(rows, hash, summary),
        !(has_hash(with_summaries(rows, hash, summary), hash) && !any_complete(
            with_summaries(rows, hash, summary),
            hash,
        ) && summary.is_complete),
{
    let once = with_summaries(rows, hash, summary);
    assert(with_summaries(once, hash, summary) =~= once);
    if has_hash(once, hash) && summary.is_complete {
        let i = choose|i: int| 0 <= i < once.len() && (#[trigger] once[i]).hash == hash;
        assert(once[i].hash == hash && once[i].summary.is_complete);
    }
}

} // verus!
