//! The contents of a directory: for each name, the versions of the entry by
//! author, each with its version vector.

use crate::assoc::{
    assoc_map, distinct_keys, has_key, index_of, lemma_assoc_absent, lemma_assoc_at, lemma_assoc_congruent, lemma_assoc_push,
    lemma_assoc_remove, lemma_assoc_update,
};
use crate::error::Error;
use crate::hash::hash_eq;
use crate::version_vector::{count_in, vv_lt, VersionVector};
use vstd::prelude::*;

verus! {

/// What an entry of a directory is.
#[derive(Clone, Copy, Debug, PartialEq, Eq, Structural)]
pub enum EntryType {
    File,
    Directory,
}

/// One version of an entry, as a mathematical value.
pub struct EntryModel {
    pub entry_type: EntryType,
    pub blob_id: crate::hash::Hash,
    pub version_vector: Map<crate::hash::Hash, u64>,
}

/// One version of an entry: what it is, the blob that holds it, and its
/// version vector.
#[derive(Debug)]
pub struct EntryData {
    pub entry_type: EntryType,
    pub blob_id: crate::hash::Hash,
    pub version_vector: VersionVector,
}

impl View for EntryData {
    type V = EntryModel;

    open spec fn view(&self) -> EntryModel {
        EntryModel {
            entry_type: self.entry_type,
            blob_id: self.blob_id,
            version_vector: self.version_vector@,
        }
    }
}

impl Clone for EntryData {
    fn clone(&self) -> (r: Self)
        ensures
            r@ == self@,
            self.version_vector.wf() ==> r.version_vector.wf(),
    {
        EntryData {
            entry_type: self.entry_type,
            blob_id: self.blob_id,
            version_vector: self.version_vector.clone(),
        }
    }
}

impl EntryData {
    /// Whether two versions are the same in type, blob and version vector.
    pub fn same_as(&self, other: &EntryData) -> (r: bool)
        requires
            self.version_vector.wf(),
            other.version_vector.wf(),
        ensures
            r == (self.entry_type == other.entry_type && self.blob_id == other.blob_id
                && crate::version_vector::vv_level(self.version_vector@, other.version_vector@)),
    {
        self.entry_type == other.entry_type && hash_eq(&self.blob_id, &other.blob_id)
            && self.version_vector.is_le(&other.version_vector) && other.version_vector.is_le(
            &self.version_vector,
        )
    }
}

/// The version of an entry that one author has made.
#[derive(Debug)]
pub struct Version {
    pub author: crate::hash::Hash,
    pub data: EntryData,
}

impl Clone for Version {
    fn clone(&self) -> (r: Self)
        ensures
            r.author == self.author,
            r.data@ == self.data@,
            self.data.version_vector.wf() ==> r.data.version_vector.wf(),
    {
        Version { author: self.author, data: self.data.clone() }
    }
}

/// The author of a version.
pub open spec fn author_of() -> spec_fn(Version) -> crate::hash::Hash {
    |v: Version| v.author
}

/// The data of a version.
pub open spec fn data_of() -> spec_fn(Version) -> EntryModel {
    |v: Version| v.data@
}

/// The versions of an entry as a map from author to data.
pub open spec fn versions_map(s: Seq<Version>) -> Map<crate::hash::Hash, EntryModel> {
    assoc_map(s, author_of(), data_of())
}

/// Each author has one version in `s`, and each version vector is in order.
pub open spec fn versions_wf(s: Seq<Version>) -> bool {
    &&& distinct_keys(s, author_of())
    &&& forall|i: int| 0 <= i < s.len() ==> (#[trigger] s[i]).data.version_vector.wf()
}

/// Finds the version that `author` has made.
pub fn find_author(versions: &Vec<Version>, author: &crate::hash::Hash) -> (r: Option<usize>)
    ensures
        match r {
            Some(i) => i < versions@.len() && versions@[i as int].author == *author,
            None => !versions_map(versions@).dom().contains(*author),
        },
{
    let mut i: usize = 0;
    while i < versions.len()
        invariant
            0 <= i <= versions@.len(),
            forall|j: int| 0 <= j < i ==> (#[trigger] versions@[j]).author != *author,
        decreases versions@.len() - i,
    {
        if hash_eq(&versions[i].author, author) {
            return Some(i);
        }
        i = i + 1;
    }
    proof {
        assert forall|j: int| 0 <= j < versions@.len() implies author_of()(#[trigger] versions@[j]) != *author by {
            assert(versions@[j].author != *author);
        }
        lemma_assoc_absent(versions@, author_of(), data_of(), *author);
    }
    None
}

/// Takes the version of `author` out of `versions`.
pub fn remove_author(versions: &mut Vec<Version>, author: &crate::hash::Hash) -> (r: Option<Version>)
    requires
        versions_wf(old(versions)@),
    ensures
        versions_wf(final(versions)@),
        versions_map(final(versions)@) == versions_map(old(versions)@).remove(*author),
        match r {
            Some(v) => v.author == *author && versions_map(old(versions)@).dom().contains(*author) && v.data@
                == versions_map(old(versions)@)[*author] && v.data.version_vector.wf(),
            None => !versions_map(old(versions)@).dom().contains(*author),
        },
{
    match find_author(versions, author) {
        Some(i) => {
            proof {
                lemma_assoc_at(versions@, author_of(), data_of(), i as int);
                lemma_assoc_remove(versions@, author_of(), data_of(), i as int);
            }
            let v = versions.remove(i);
            proof {
                assert forall|j: int| 0 <= j < versions@.len() implies (#[trigger] versions@[j]).data.version_vector.wf() by {
                    let j2 = if j < i { j } else { j + 1 };
                    assert(versions@[j] == old(versions)@[j2]);
                }
            }
            Some(v)
        },
        None => {
            assert(versions_map(versions@).remove(*author) =~= versions_map(versions@));
            None
        },
    }
}

/// Files `version` under its author, in place of a version that the author
/// had made before.
pub fn put_version(versions: &mut Vec<Version>, version: Version)
    requires
        versions_wf(old(versions)@),
        version.data.version_vector.wf(),
    ensures
        versions_wf(final(versions)@),
        versions_map(final(versions)@) == versions_map(old(versions)@).insert(version.author, version.data@),
{
    let ghost author = version.author;
    let ghost data = version.data@;
    let _ = remove_author(versions, &version.author);
    proof {
        assert(!versions_map(versions@).dom().contains(author));
        assert(author_of()(version) == author);
        assert(!has_key(versions@, author_of(), author));
        lemma_assoc_push(versions@, author_of(), data_of(), version);
        assert(versions_map(old(versions)@).remove(author).insert(author, data) =~= versions_map(old(versions)@).insert(
            author,
            data,
        ));
        assert forall|j: int| 0 <= j < versions@.push(version).len() implies (#[trigger] versions@.push(
            version,
        )[j]).data.version_vector.wf() by {
            if j < versions@.len() {
                assert(versions@.push(version)[j] == versions@[j]);
            }
        }
    }
    versions.push(version);
}

/// Copies the versions of an entry.
pub fn clone_versions(versions: &Vec<Version>) -> (r: Vec<Version>)
    requires
        versions_wf(versions@),
    ensures
        versions_wf(r@),
        versions_map(r@) == versions_map(versions@),
{
    let mut out: Vec<Version> = Vec::new();
    let mut i: usize = 0;
    while i < versions.len()
        invariant
            0 <= i <= versions@.len(),
            versions_wf(versions@),
            out@.len() == i,
            forall|j: int| 0 <= j < i ==> (#[trigger] out@[j]).author == versions@[j].author && out@[j].data@ == versions@[j].data@
                && out@[j].data.version_vector.wf(),
        decreases versions@.len() - i,
    {
        let copy = versions[i].clone();
        out.push(copy);
        i = i + 1;
    }
    proof {
        assert forall|j: int| 0 <= j < versions@.len() implies author_of()(#[trigger] versions@[j]) == author_of()(out@[j])
            && data_of()(versions@[j]) == data_of()(out@[j]) by {
            assert(out@[j].author == versions@[j].author);
        }
        lemma_assoc_congruent(versions@, out@, author_of(), data_of());
    }
    out
}

/// `v` stays when `author` files a version with the vector `vv`: it is by
/// someone else and did not happen before the new version.
pub open spec fn stays(v: EntryModel, by: crate::hash::Hash, author: crate::hash::Hash, vv: Map<crate::hash::Hash, u64>) -> bool {
    by != author && !vv_lt(v.version_vector, vv)
}

/// `v` is outdated when `author` files a version with the vector `vv`: it
/// is by someone else and happened before the new version.
pub open spec fn outdated(v: EntryModel, by: crate::hash::Hash, author: crate::hash::Hash, vv: Map<crate::hash::Hash, u64>) -> bool {
    by != author && vv_lt(v.version_vector, vv)
}

/// The versions by others that stay when `author` files a version with the
/// vector `vv`.
pub open spec fn staying_versions(
    vs: Map<crate::hash::Hash, EntryModel>,
    author: crate::hash::Hash,
    vv: Map<crate::hash::Hash, u64>,
) -> Map<crate::hash::Hash, EntryModel> {
    Map::new(|a: crate::hash::Hash| vs.dom().contains(a) && stays(vs[a], a, author, vv), |a: crate::hash::Hash| vs[a])
}

/// The blobs of the versions by others that are outdated when `author`
/// files a version with the vector `vv`.
pub open spec fn outdated_blobs(
    vs: Map<crate::hash::Hash, EntryModel>,
    author: crate::hash::Hash,
    vv: Map<crate::hash::Hash, u64>,
) -> Set<crate::hash::Hash> {
    Set::new(
        |b: crate::hash::Hash|
            exists|a: crate::hash::Hash| vs.dom().contains(a) && outdated(#[trigger] vs[a], a, author, vv) && vs[a].blob_id == b,
    )
}

/// The blob ids of the versions by the given authors, in their order.
pub open spec fn blobs_of(vs: Map<crate::hash::Hash, EntryModel>, authors: Seq<crate::hash::Hash>) -> Seq<crate::hash::Hash> {
    authors.map_values(|a: crate::hash::Hash| vs[a].blob_id)
}

/// `authors` lists each author of a version that is outdated when
/// `author` files a version with the vector `vv`, once, and nobody else.
pub open spec fn lists_outdated_authors(
    vs: Map<crate::hash::Hash, EntryModel>,
    author: crate::hash::Hash,
    vv: Map<crate::hash::Hash, u64>,
    authors: Seq<crate::hash::Hash>,
) -> bool {
    &&& authors.no_duplicates()
    &&& forall|a: crate::hash::Hash| #[trigger] authors.contains(a) <==> vs.dom().contains(a) && outdated(vs[a], a, author, vv)
}

/// `removed` holds the blob id of each version by others that is outdated
/// when `author` files a version with the vector `vv`: one id for each
/// such version, in some order, and nothing else.
pub open spec fn holds_outdated_blobs(
    vs: Map<crate::hash::Hash, EntryModel>,
    author: crate::hash::Hash,
    vv: Map<crate::hash::Hash, u64>,
    removed: Seq<crate::hash::Hash>,
) -> bool {
    exists|authors: Seq<crate::hash::Hash>|
        #[trigger] lists_outdated_authors(vs, author, vv, authors) && blobs_of(vs, authors) == removed
}

/// The blob ids that an insertion returns are those of the outdated
/// versions, one for each: the list holds exactly their ids, and as many
/// ids as there are outdated versions.
pub proof fn law_outdated_blobs_counted(
    vs: Map<crate::hash::Hash, EntryModel>,
    author: crate::hash::Hash,
    vv: Map<crate::hash::Hash, u64>,
    removed: Seq<crate::hash::Hash>,
)
    requires
        holds_outdated_blobs(vs, author, vv, removed),
    ensures
        removed.to_set() == outdated_blobs(vs, author, vv),
        removed.len() == Set::new(|a: crate::hash::Hash| vs.dom().contains(a) && outdated(vs[a], a, author, vv)).len(),
{
    let authors = choose|authors: Seq<crate::hash::Hash>|
        #[trigger] lists_outdated_authors(vs, author, vv, authors) && blobs_of(vs, authors) == removed;
    assert forall|b: crate::hash::Hash| removed.to_set().contains(b) <==> outdated_blobs(vs, author, vv).contains(b) by {
        if removed.contains(b) {
            let i = choose|i: int| 0 <= i < removed.len() && removed[i] == b;
            assert(authors.contains(authors[i]));
            assert(vs[authors[i]].blob_id == b);
        }
        if outdated_blobs(vs, author, vv).contains(b) {
            let a = choose|a: crate::hash::Hash|
                vs.dom().contains(a) && outdated(#[trigger] vs[a], a, author, vv) && vs[a].blob_id == b;
            assert(authors.contains(a));
            let i = choose|i: int| 0 <= i < authors.len() && authors[i] == a;
            assert(removed[i] == b);
        }
    }
    assert(removed.to_set() =~= outdated_blobs(vs, author, vv));
    authors.unique_seq_to_set();
    assert(authors.to_set() =~= Set::new(|a: crate::hash::Hash| vs.dom().contains(a) && outdated(vs[a], a, author, vv)));
}

/// Splits the versions of an entry for the filing of a version by `author`
/// with the vector `vv`: the versions by others that stay, and the blob ids
/// of those by others that are outdated, one for each. The author's own
/// version is dropped.
pub fn retain_current(versions: Vec<Version>, author: &crate::hash::Hash, vv: &VersionVector) -> (r: (
    Vec<Version>,
    Vec<crate::hash::Hash>,
))
    requires
        versions_wf(versions@),
        vv.wf(),
    ensures
        versions_wf(r.0@),
        versions_map(r.0@) == staying_versions(versions_map(versions@), *author, vv@),
        holds_outdated_blobs(versions_map(versions@), *author, vv@, r.1@),
{
    let ghost orig = versions@;
    let ghost all = versions_map(versions@);
    let ghost mut authors: Seq<crate::hash::Hash> = Seq::empty();
    let mut rest = versions;
    let mut kept: Vec<Version> = Vec::new();
    let mut removed: Vec<crate::hash::Hash> = Vec::new();
    proof {
        assert(removed@ =~= blobs_of(all, authors));
    }
    while rest.len() > 0
        invariant
            vv.wf(),
            versions_wf(orig),
            all == versions_map(orig),
            rest@.len() <= orig.len(),
            rest@ == orig.take(rest@.len() as int),
            versions_wf(kept@),
            forall|a: crate::hash::Hash| #[trigger]
                versions_map(kept@).dom().contains(a) <==> exists|i: int|
                    rest@.len() <= i < orig.len() && (#[trigger] orig[i]).author == a && stays(orig[i].data@, a, *author, vv@),
            forall|a: crate::hash::Hash| #[trigger]
                versions_map(kept@).dom().contains(a) ==> versions_map(kept@)[a] == all[a],
            removed@ == blobs_of(all, authors),
            authors.no_duplicates(),
            forall|a: crate::hash::Hash| #[trigger]
                authors.contains(a) <==> exists|i: int|
                    rest@.len() <= i < orig.len() && (#[trigger] orig[i]).author == a && outdated(
                        orig[i].data@,
                        a,
                        *author,
                        vv@,
                    ),
        decreases rest@.len(),
    {
        let ghost n = rest@.len() as int;
        let ghost kept_before = kept@;
        let ghost removed_before = removed@;
        let ghost authors_before = authors;
        let v = rest.pop().unwrap();
        proof {
            assert(v == orig[n - 1]);
            assert(rest@ =~= orig.take(n - 1));
            lemma_assoc_at(orig, author_of(), data_of(), n - 1);
            assert(all[v.author] == v.data@);
        }
        if hash_eq(&v.author, author) {
            // The author's own version: dropped.
        } else if v.data.version_vector.less_than(vv) {
            removed.push(v.data.blob_id);
            proof {
                authors = authors.push(v.author);
                assert(removed@ =~= blobs_of(all, authors));
                if authors_before.contains(v.author) {
                    let i = choose|i: int|
                        n <= i < orig.len() && (#[trigger] orig[i]).author == v.author && outdated(
                            orig[i].data@,
                            v.author,
                            *author,
                            vv@,
                        );
                    assert(author_of()(orig[n - 1]) != author_of()(orig[i]));
                }
                assert forall|x: int, y: int| 0 <= x < y < authors.len() implies authors[x] != authors[y] by {
                    if y == authors_before.len() {
                        assert(authors_before.contains(authors_before[x]));
                    } else {
                        assert(authors_before[x] != authors_before[y]);
                    }
                }
            }
        } else {
            proof {
                if versions_map(kept@).dom().contains(v.author) {
                    let i = choose|i: int|
                        n <= i < orig.len() && (#[trigger] orig[i]).author == v.author && stays(
                            orig[i].data@,
                            v.author,
                            *author,
                            vv@,
                        );
                    assert(author_of()(orig[n - 1]) != author_of()(orig[i]));
                }
                assert(author_of()(v) == v.author);
                assert(!has_key(kept@, author_of(), v.author));
                lemma_assoc_push(kept@, author_of(), data_of(), v);
                assert forall|j: int| 0 <= j < kept@.push(v).len() implies (#[trigger] kept@.push(
                    v,
                )[j]).data.version_vector.wf() by {
                    if j < kept@.len() {
                        assert(kept@.push(v)[j] == kept@[j]);
                    }
                }
            }
            kept.push(v);
        }
        proof {
            let is_kept = v.author != *author && !vv_lt(v.data@.version_vector, vv@);
            let is_out = v.author != *author && vv_lt(v.data@.version_vector, vv@);
            assert forall|a: crate::hash::Hash| #[trigger]
                versions_map(kept@).dom().contains(a) <==> exists|i: int|
                    n - 1 <= i < orig.len() && (#[trigger] orig[i]).author == a && stays(orig[i].data@, a, *author, vv@) by {
                if versions_map(kept_before).dom().contains(a) {
                    let i = choose|i: int|
                        n <= i < orig.len() && (#[trigger] orig[i]).author == a && stays(orig[i].data@, a, *author, vv@);
                    assert(n - 1 <= i);
                }
                if is_kept && a == v.author {
                    assert(orig[n - 1].author == a && stays(orig[n - 1].data@, a, *author, vv@));
                }
                if exists|i: int|
                    n - 1 <= i < orig.len() && (#[trigger] orig[i]).author == a && stays(orig[i].data@, a, *author, vv@) {
                    let i = choose|i: int|
                        n - 1 <= i < orig.len() && (#[trigger] orig[i]).author == a && stays(
                            orig[i].data@,
                            a,
                            *author,
                            vv@,
                        );
                    if i >= n {
                        assert(versions_map(kept_before).dom().contains(a));
                    }
                }
            }
            assert forall|a: crate::hash::Hash| #[trigger]
                authors.contains(a) <==> exists|i: int|
                    n - 1 <= i < orig.len() && (#[trigger] orig[i]).author == a && outdated(
                        orig[i].data@,
                        a,
                        *author,
                        vv@,
                    ) by {
                if is_out {
                    crate::idset::lemma_push_contains(authors_before, v.author, a);
                }
                if authors_before.contains(a) {
                    let i = choose|i: int|
                        n <= i < orig.len() && (#[trigger] orig[i]).author == a && outdated(orig[i].data@, a, *author, vv@);
                    assert(n - 1 <= i);
                }
                if is_out && a == v.author {
                    assert(orig[n - 1].author == a && outdated(orig[n - 1].data@, a, *author, vv@));
                }
                if exists|i: int|
                    n - 1 <= i < orig.len() && (#[trigger] orig[i]).author == a && outdated(
                        orig[i].data@,
                        a,
                        *author,
                        vv@,
                    ) {
                    let i = choose|i: int|
                        n - 1 <= i < orig.len() && (#[trigger] orig[i]).author == a && outdated(
                            orig[i].data@,
                            a,
                            *author,
                            vv@,
                        );
                    if i >= n {
                        assert(authors_before.contains(a));
                    }
                }
            }
        }
    }
    proof {
        let target = staying_versions(all, *author, vv@);
        assert forall|a: crate::hash::Hash| versions_map(kept@).dom().contains(a) <==> target.dom().contains(a) by {
            if versions_map(kept@).dom().contains(a) {
                let i = choose|i: int|
                    0 <= i < orig.len() && (#[trigger] orig[i]).author == a && stays(orig[i].data@, a, *author, vv@);
                lemma_assoc_at(orig, author_of(), data_of(), i);
            }
            if target.dom().contains(a) {
                let i = index_of(orig, author_of(), a);
                lemma_assoc_at(orig, author_of(), data_of(), i);
                assert(orig[i].author == a && stays(orig[i].data@, a, *author, vv@));
            }
        }
        assert(versions_map(kept@) =~= target);
        assert forall|a: crate::hash::Hash| #[trigger]
            authors.contains(a) <==> all.dom().contains(a) && outdated(all[a], a, *author, vv@) by {
            if authors.contains(a) {
                let i = choose|i: int|
                    0 <= i < orig.len() && (#[trigger] orig[i]).author == a && outdated(orig[i].data@, a, *author, vv@);
                lemma_assoc_at(orig, author_of(), data_of(), i);
            }
            if all.dom().contains(a) && outdated(all[a], a, *author, vv@) {
                let i = index_of(orig, author_of(), a);
                lemma_assoc_at(orig, author_of(), data_of(), i);
                assert(orig[i].author == a && outdated(orig[i].data@, a, *author, vv@));
            }
        }
        assert(lists_outdated_authors(all, *author, vv@, authors));
    }
    (kept, removed)
}

/// An entry of a directory: its name and the versions of it.
#[derive(Debug)]
pub struct NamedEntry {
    pub name: String,
    pub versions: Vec<Version>,
}

/// The name of an entry.
pub open spec fn name_of() -> spec_fn(NamedEntry) -> Seq<char> {
    |e: NamedEntry| e.name@
}

/// The versions of an entry, by author.
pub open spec fn versions_of() -> spec_fn(NamedEntry) -> Map<crate::hash::Hash, EntryModel> {
    |e: NamedEntry| versions_map(e.versions@)
}

/// The entries of a directory as a map from name to versions.
pub open spec fn entries_map(s: Seq<NamedEntry>) -> Map<Seq<char>, Map<crate::hash::Hash, EntryModel>> {
    assoc_map(s, name_of(), versions_of())
}

/// Each name has one entry in `s`, and the versions of each entry are in order.
pub open spec fn entries_wf(s: Seq<NamedEntry>) -> bool {
    &&& distinct_keys(s, name_of())
    &&& forall|i: int| 0 <= i < s.len() ==> versions_wf((#[trigger] s[i]).versions@)
}

/// The contents of a directory as a mathematical value.
pub struct ContentModel {
    /// For each name, the versions of the entry by author.
    pub entries: Map<Seq<char>, Map<crate::hash::Hash, EntryModel>>,
    /// There are changes that were not written out yet.
    pub dirty: bool,
}

impl ContentModel {
    /// The versions of the entry `name`; none where there is no such entry.
    pub open spec fn versions(self, name: Seq<char>) -> Map<crate::hash::Hash, EntryModel> {
        if self.entries.dom().contains(name) {
            self.entries[name]
        } else {
            Map::empty()
        }
    }

    /// `author` may file a version of `name` with the vector `vv`: it has
    /// none yet, or the one it has is of the same type and happened before.
    pub open spec fn insert_allowed(
        self,
        name: Seq<char>,
        author: crate::hash::Hash,
        entry_type: EntryType,
        vv: Map<crate::hash::Hash, u64>,
    ) -> bool {
        self.versions(name).dom().contains(author) ==> self.versions(name)[author].entry_type == entry_type && vv_lt(
            self.versions(name)[author].version_vector,
            vv,
        )
    }

    /// The contents after `author` has filed a version of `name`: it takes
    /// the place of the author's earlier version and of every version by
    /// others that happened before it; the other versions stay.
    pub open spec fn insert(
        self,
        name: Seq<char>,
        author: crate::hash::Hash,
        entry_type: EntryType,
        vv: Map<crate::hash::Hash, u64>,
        blob_id: crate::hash::Hash,
    ) -> ContentModel {
        ContentModel {
            entries: self.entries.insert(
                name,
                staying_versions(self.versions(name), author, vv).insert(
                    author,
                    EntryModel { entry_type, blob_id, version_vector: vv },
                ),
            ),
            dirty: true,
        }
    }

    /// The contents after the entry `name` was taken out.
    pub open spec fn remove(self, name: Seq<char>) -> ContentModel {
        ContentModel { entries: self.entries.remove(name), dirty: true }
    }

    /// The local writer may not take over the version of `name` by
    /// `author`: it has a version of its own that did not happen before it.
    pub open spec fn modify_blocked(self, name: Seq<char>, author: crate::hash::Hash, local: crate::hash::Hash) -> bool {
        &&& author != local
        &&& self.versions(name).dom().contains(local)
        &&& !vv_lt(self.versions(name)[local].version_vector, self.versions(name)[author].version_vector)
    }

    /// The contents after the local writer has taken over the version of
    /// `name` by `author`: the version is filed under `local`, with one
    /// more version counted for `local`.
    pub open spec fn modify_entry(self, name: Seq<char>, author: crate::hash::Hash, local: crate::hash::Hash) -> ContentModel {
        let v = self.versions(name)[author];
        ContentModel {
            entries: self.entries.insert(
                name,
                self.versions(name).remove(author).insert(
                    local,
                    EntryModel {
                        version_vector: v.version_vector.insert(local, (count_in(v.version_vector, local) + 1) as u64),
                        ..v
                    },
                ),
            ),
            dirty: true,
        }
    }

    /// The versions of the entry `name`, if there is such an entry.
    pub open spec fn saved(self, name: Seq<char>) -> Option<Map<crate::hash::Hash, EntryModel>> {
        if self.entries.dom().contains(name) {
            Some(self.entries[name])
        } else {
            None
        }
    }

    /// The contents with the entry `name` and the dirty flag put back to
    /// saved values.
    pub open spec fn restore(self, name: Seq<char>, saved: Option<Map<crate::hash::Hash, EntryModel>>, dirty: bool) -> ContentModel {
        ContentModel {
            entries: match saved {
                Some(versions) => self.entries.insert(name, versions),
                None => self.entries.remove(name),
            },
            dirty,
        }
    }
}

/// Finds the entry with the given name.
pub fn find_name(entries: &Vec<NamedEntry>, name: &String) -> (r: Option<usize>)
    ensures
        match r {
            Some(i) => i < entries@.len() && entries@[i as int].name@ == name@,
            None => !entries_map(entries@).dom().contains(name@),
        },
{
    let mut i: usize = 0;
    while i < entries.len()
        invariant
            0 <= i <= entries@.len(),
            forall|j: int| 0 <= j < i ==> (#[trigger] entries@[j]).name@ != name@,
        decreases entries@.len() - i,
    {
        if entries[i].name == *name {
            return Some(i);
        }
        i = i + 1;
    }
    proof {
        assert forall|j: int| 0 <= j < entries@.len() implies name_of()(#[trigger] entries@[j]) != name@ by {
            assert(entries@[j].name@ != name@);
        }
        lemma_assoc_absent(entries@, name_of(), versions_of(), name@);
    }
    None
}

/// The contents of a directory.
#[derive(Debug)]
pub struct Content {
    entries: Vec<NamedEntry>,
    dirty: bool,
}

impl View for Content {
    type V = ContentModel;

    closed spec fn view(&self) -> ContentModel {
        ContentModel { entries: entries_map(self.entries@), dirty: self.dirty }
    }
}

impl Content {
    /// Each name has one entry, each author one version of an entry.
    pub closed spec fn wf(&self) -> bool {
        entries_wf(self.entries@)
    }

    /// The contents of a new directory: no entries, and not written out yet.
    pub fn new() -> (r: Self)
        ensures
            r.wf(),
            r@.entries == Map::<Seq<char>, Map<crate::hash::Hash, EntryModel>>::empty(),
            r@.dirty,
    {
        let r = Content { entries: Vec::new(), dirty: true };
        assert(r@.entries =~= Map::<Seq<char>, Map<crate::hash::Hash, EntryModel>>::empty());
        r
    }

    /// Whether there are changes that were not written out yet.
    pub fn is_dirty(&self) -> (r: bool)
        ensures
            r == self@.dirty,
    {
        self.dirty
    }

    /// Notes that the contents were written out.
    pub fn mark_clean(&mut self)
        ensures
            final(self)@ == (ContentModel { dirty: false, ..old(self)@ }),
            old(self).wf() ==> final(self).wf(),
    {
        self.dirty = false;
    }

    /// Whether the directory has no entries.
    pub fn is_empty(&self) -> (r: bool)
        requires
            self.wf(),
        ensures
            r == (self@.entries.dom() == Set::<Seq<char>>::empty()),
    {
        proof {
            if self.entries@.len() > 0 {
                lemma_assoc_at(self.entries@, name_of(), versions_of(), 0);
            } else {
                assert(self@.entries.dom() =~= Set::<Seq<char>>::empty());
            }
        }
        self.entries.len() == 0
    }

    /// The entries with their versions, in no particular order.
    pub fn entries(&self) -> (r: &Vec<NamedEntry>)
        ensures
            entries_map(r@) == self@.entries,
            self.wf() ==> entries_wf(r@),
    {
        &self.entries
    }

    /// The versions of the entry `name`.
    pub fn lookup(&self, name: &String) -> (r: Result<&Vec<Version>, Error>)
        requires
            self.wf(),
        ensures
            match r {
                Ok(versions) => self@.entries.dom().contains(name@) && versions_map(versions@) == self@.entries[name@]
                    && versions_wf(versions@),
                Err(e) => e == Error::EntryNotFound && !self@.entries.dom().contains(name@),
            },
    {
        match find_name(&self.entries, name) {
            Some(i) => {
                proof {
                    lemma_assoc_at(self.entries@, name_of(), versions_of(), i as int);
                }
                Ok(&self.entries[i].versions)
            },
            None => Err(Error::EntryNotFound),
        }
    }

    /// The version of the entry `name` that `author` has made.
    pub fn lookup_version(&self, name: &String, author: &crate::hash::Hash) -> (r: Result<&EntryData, Error>)
        requires
            self.wf(),
        ensures
            match r {
                Ok(data) => self@.versions(name@).dom().contains(*author) && data@ == self@.versions(name@)[*author]
                    && data.version_vector.wf(),
                Err(e) => e == Error::EntryNotFound && !self@.versions(name@).dom().contains(*author),
            },
    {
        match find_name(&self.entries, name) {
            Some(i) => {
                proof {
                    lemma_assoc_at(self.entries@, name_of(), versions_of(), i as int);
                }
                match find_author(&self.entries[i].versions, author) {
                    Some(k) => {
                        proof {
                            lemma_assoc_at(self.entries@[i as int].versions@, author_of(), data_of(), k as int);
                        }
                        Ok(&self.entries[i].versions[k].data)
                    },
                    None => Err(Error::EntryNotFound),
                }
            },
            None => Err(Error::EntryNotFound),
        }
    }

    /// Takes the entry `name` out, with all its versions.
    pub fn remove(&mut self, name: &String) -> (r: Result<(), Error>)
        requires
            old(self).wf(),
        ensures
            final(self).wf(),
            match r {
                Ok(_) => old(self)@.entries.dom().contains(name@) && final(self)@ == old(self)@.remove(name@),
                Err(e) => e == Error::EntryNotFound && !old(self)@.entries.dom().contains(name@) && final(self)@ == old(
                    self,
                )@,
            },
    {
        match find_name(&self.entries, name) {
            Some(i) => {
                proof {
                    lemma_assoc_at(self.entries@, name_of(), versions_of(), i as int);
                    lemma_assoc_remove(self.entries@, name_of(), versions_of(), i as int);
                }
                let _ = self.entries.remove(i);
                self.dirty = true;
                proof {
                    assert forall|j: int| 0 <= j < self.entries@.len() implies versions_wf(
                        (#[trigger] self.entries@[j]).versions@,
                    ) by {
                        let j2 = if j < i { j } else { j + 1 };
                        assert(self.entries@[j] == old(self).entries@[j2]);
                    }
                }
                Ok(())
            },
            None => Err(Error::EntryNotFound),
        }
    }

    /// Files a version of `name` by `author`, held in the blob `blob_id`.
    /// It takes the place of the author's earlier version and of the
    /// versions by others that happened before it; their blob ids are
    /// returned, for the caller to dispose of the blobs. Where the author
    /// has a version of another type, or one that did not happen before the
    /// new one, nothing changes.
    pub fn insert_with(
        &mut self,
        name: String,
        author: crate::hash::Hash,
        entry_type: EntryType,
        version_vector: VersionVector,
        blob_id: crate::hash::Hash,
    ) -> (r: Result<Vec<crate::hash::Hash>, Error>)
        requires
            old(self).wf(),
            version_vector.wf(),
        ensures
            final(self).wf(),
            match r {
                Ok(removed) => old(self)@.insert_allowed(name@, author, entry_type, version_vector@) && final(self)@
                    == old(self)@.insert(name@, author, entry_type, version_vector@, blob_id) && holds_outdated_blobs(
                    old(self)@.versions(name@),
                    author,
                    version_vector@,
                    removed@,
                ),
                Err(e) => e == Error::EntryExists && !old(self)@.insert_allowed(
                    name@,
                    author,
                    entry_type,
                    version_vector@,
                ) && final(self)@ == old(self)@,
            },
    {
        let ghost vv = version_vector@;
        let i = match find_name(&self.entries, &name) {
            Some(i) => i,
            None => {
                let version = Version { author, data: EntryData { entry_type, blob_id, version_vector } };
                let mut versions: Vec<Version> = Vec::new();
                proof {
                    assert(versions_map(versions@) =~= Map::<crate::hash::Hash, EntryModel>::empty());
                    assert(author_of()(version) == author);
                    lemma_assoc_push(versions@, author_of(), data_of(), version);
                    assert(staying_versions(Map::<crate::hash::Hash, EntryModel>::empty(), author, vv) =~= Map::<
                        crate::hash::Hash,
                        EntryModel,
                    >::empty());
                }
                versions.push(version);
                let entry = NamedEntry { name, versions };
                proof {
                    assert(name_of()(entry) == name@);
                    assert(!has_key(self.entries@, name_of(), name@));
                    lemma_assoc_push(self.entries@, name_of(), versions_of(), entry);
                    assert forall|j: int| 0 <= j < self.entries@.push(entry).len() implies versions_wf(
                        (#[trigger] self.entries@.push(entry)[j]).versions@,
                    ) by {
                        if j < self.entries@.len() {
                            assert(self.entries@.push(entry)[j] == self.entries@[j]);
                        }
                    }
                }
                self.entries.push(entry);
                self.dirty = true;
                let removed: Vec<crate::hash::Hash> = Vec::new();
                proof {
                    let nobody = Seq::<crate::hash::Hash>::empty();
                    let none = Map::<crate::hash::Hash, EntryModel>::empty();
                    assert(lists_outdated_authors(none, author, vv, nobody));
                    assert(blobs_of(none, nobody) =~= removed@);
                }
                return Ok(removed);
            },
        };
        proof {
            lemma_assoc_at(self.entries@, name_of(), versions_of(), i as int);
        }
        match find_author(&self.entries[i].versions, &author) {
            Some(k) => {
                proof {
                    lemma_assoc_at(self.entries@[i as int].versions@, author_of(), data_of(), k as int);
                }
                let same_type = self.entries[i].versions[k].data.entry_type == entry_type;
                if !same_type || !self.entries[i].versions[k].data.version_vector.less_than(&version_vector) {
                    return Err(Error::EntryExists);
                }
            },
            None => {},
        }
        let mut taken: Vec<Version> = Vec::new();
        core::mem::swap(&mut taken, &mut self.entries[i].versions);
        let (mut kept, removed) = retain_current(taken, &author, &version_vector);
        let version = Version { author, data: EntryData { entry_type, blob_id, version_vector } };
        proof {
            assert(author_of()(version) == author);
            assert(!versions_map(kept@).dom().contains(author));
            assert(!has_key(kept@, author_of(), author));
            lemma_assoc_push(kept@, author_of(), data_of(), version);
            assert forall|j: int| 0 <= j < kept@.push(version).len() implies (#[trigger] kept@.push(
                version,
            )[j]).data.version_vector.wf() by {
                if j < kept@.len() {
                    assert(kept@.push(version)[j] == kept@[j]);
                }
            }
        }
        kept.push(version);
        self.entries[i].versions = kept;
        self.dirty = true;
        proof {
            assert(name_of()(self.entries@[i as int]) == name_of()(old(self).entries@[i as int]));
            lemma_assoc_update(old(self).entries@, name_of(), versions_of(), i as int, self.entries@);
            assert forall|j: int| 0 <= j < self.entries@.len() implies versions_wf((#[trigger] self.entries@[j]).versions@) by {
                if j != i {
                    assert(self.entries@[j] == old(self).entries@[j]);
                }
            }
        }
        Ok(removed)
    }

    /// Puts a version of `name` in place as it was read from the store: it
    /// is filed under its author, in place of a version that the author
    /// had, and no other version is touched.
    pub fn load_version(&mut self, name: String, version: Version)
        requires
            old(self).wf(),
            version.data.version_vector.wf(),
        ensures
            final(self).wf(),
            final(self)@ == (ContentModel {
                entries: old(self)@.entries.insert(name@, old(self)@.versions(name@).insert(version.author, version.data@)),
                dirty: old(self)@.dirty,
            }),
    {
        match find_name(&self.entries, &name) {
            Some(i) => {
                proof {
                    lemma_assoc_at(self.entries@, name_of(), versions_of(), i as int);
                }
                put_version(&mut self.entries[i].versions, version);
                proof {
                    assert(name_of()(self.entries@[i as int]) == name_of()(old(self).entries@[i as int]));
                    lemma_assoc_update(old(self).entries@, name_of(), versions_of(), i as int, self.entries@);
                    assert forall|j: int| 0 <= j < self.entries@.len() implies versions_wf(
                        (#[trigger] self.entries@[j]).versions@,
                    ) by {
                        if j != i {
                            assert(self.entries@[j] == old(self).entries@[j]);
                        }
                    }
                }
            },
            None => {
                let mut versions: Vec<Version> = Vec::new();
                proof {
                    assert(versions_map(versions@) =~= Map::<crate::hash::Hash, EntryModel>::empty());
                }
                put_version(&mut versions, version);
                let entry = NamedEntry { name, versions };
                proof {
                    assert(name_of()(entry) == name@);
                    assert(!has_key(self.entries@, name_of(), name@));
                    lemma_assoc_push(self.entries@, name_of(), versions_of(), entry);
                    assert forall|j: int| 0 <= j < self.entries@.push(entry).len() implies versions_wf(
                        (#[trigger] self.entries@.push(entry)[j]).versions@,
                    ) by {
                        if j < self.entries@.len() {
                            assert(self.entries@.push(entry)[j] == self.entries@[j]);
                        }
                    }
                }
                self.entries.push(entry);
            },
        }
    }

    /// Files a version of `name` by `author` in a blob with a fresh random
    /// id, which is returned with the blob ids of the versions that the new
    /// one has replaced.
    pub fn insert(
        &mut self,
        name: String,
        author: crate::hash::Hash,
        entry_type: EntryType,
        version_vector: VersionVector,
    ) -> (r: Result<(crate::hash::Hash, Vec<crate::hash::Hash>), Error>)
        requires
            old(self).wf(),
            version_vector.wf(),
        ensures
            final(self).wf(),
            match r {
                Ok(pair) => old(self)@.insert_allowed(name@, author, entry_type, version_vector@) && final(self)@
                    == old(self)@.insert(name@, author, entry_type, version_vector@, pair.0) && holds_outdated_blobs(
                    old(self)@.versions(name@),
                    author,
                    version_vector@,
                    pair.1@,
                ),
                Err(e) => e == Error::EntryExists && !old(self)@.insert_allowed(
                    name@,
                    author,
                    entry_type,
                    version_vector@,
                ) && final(self)@ == old(self)@,
            },
    {
        let blob_id = random_blob_id();
        match self.insert_with(name, author, entry_type, version_vector, blob_id) {
            Ok(removed) => Ok((blob_id, removed)),
            Err(e) => Err(e),
        }
    }

    /// Makes the version of `name` by `*author_id` the local writer's own:
    /// it is filed under `local_id`, with one more version counted for
    /// `local_id`, in place of what the local writer had. Where the local
    /// writer has a version that did not happen before the author's,
    /// nothing changes.
    pub fn modify_entry(&mut self, name: &String, author_id: &mut crate::hash::Hash, local_id: crate::hash::Hash) -> (r:
        Result<(), Error>)
        requires
            old(self).wf(),
            old(self)@.versions(name@).dom().contains(*old(author_id)) ==> count_in(
                old(self)@.versions(name@)[*old(author_id)].version_vector,
                local_id,
            ) < u64::MAX,
        ensures
            final(self).wf(),
            match r {
                Ok(_) => old(self)@.versions(name@).dom().contains(*old(author_id)) && !old(self)@.modify_blocked(
                    name@,
                    *old(author_id),
                    local_id,
                ) && final(self)@ == old(self)@.modify_entry(name@, *old(author_id), local_id) && *final(author_id)
                    == local_id,
                Err(e) => final(self)@ == old(self)@ && *final(author_id) == *old(author_id) && (if old(
                    self,
                )@.versions(name@).dom().contains(*old(author_id)) {
                    e == Error::EntryExists && old(self)@.modify_blocked(name@, *old(author_id), local_id)
                } else {
                    e == Error::EntryNotFound
                }),
            },
    {
        let author = *author_id;
        let i = match find_name(&self.entries, name) {
            Some(i) => i,
            None => {
                return Err(Error::EntryNotFound);
            },
        };
        proof {
            lemma_assoc_at(self.entries@, name_of(), versions_of(), i as int);
        }
        let k = match find_author(&self.entries[i].versions, &author) {
            Some(k) => k,
            None => {
                return Err(Error::EntryNotFound);
            },
        };
        proof {
            lemma_assoc_at(self.entries@[i as int].versions@, author_of(), data_of(), k as int);
        }
        if !hash_eq(&author, &local_id) {
            match find_author(&self.entries[i].versions, &local_id) {
                Some(l) => {
                    proof {
                        lemma_assoc_at(self.entries@[i as int].versions@, author_of(), data_of(), l as int);
                    }
                    if !self.entries[i].versions[l].data.version_vector.less_than(
                        &self.entries[i].versions[k].data.version_vector,
                    ) {
                        return Err(Error::EntryExists);
                    }
                },
                None => {},
            }
        }
        let ghost before = versions_map(self.entries@[i as int].versions@);
        let mut version = match remove_author(&mut self.entries[i].versions, &author) {
            Some(version) => version,
            None => {
                assert(false);
                return Err(Error::EntryNotFound);
            },
        };
        version.data.version_vector.increment(local_id);
        version.author = local_id;
        put_version(&mut self.entries[i].versions, version);
        *author_id = local_id;
        self.dirty = true;
        proof {
            assert(name_of()(self.entries@[i as int]) == name_of()(old(self).entries@[i as int]));
            lemma_assoc_update(old(self).entries@, name_of(), versions_of(), i as int, self.entries@);
            assert forall|j: int| 0 <= j < self.entries@.len() implies versions_wf((#[trigger] self.entries@[j]).versions@) by {
                if j != i {
                    assert(self.entries@[j] == old(self).entries@[j]);
                }
            }
        }
        Ok(())
    }

    /// Saves what `rollback` needs to undo a change to the entry `name`.
    pub fn backup(&self, name: &String, author_id: &crate::hash::Hash) -> (r: EntryBackup)
        requires
            self.wf(),
        ensures
            r.wf(),
            r.author_id == *author_id,
            r.dirty == self@.dirty,
            r.saved() == self@.saved(name@),
    {
        let versions = match find_name(&self.entries, name) {
            Some(i) => {
                proof {
                    lemma_assoc_at(self.entries@, name_of(), versions_of(), i as int);
                }
                Some(clone_versions(&self.entries[i].versions))
            },
            None => None,
        };
        EntryBackup { author_id: *author_id, versions, dirty: self.dirty }
    }

    /// Puts the entry `name`, the author id and the dirty flag back to what
    /// `backup` holds.
    pub fn rollback(&mut self, name: &String, author_id: &mut crate::hash::Hash, backup: EntryBackup)
        requires
            old(self).wf(),
            backup.wf(),
        ensures
            final(self).wf(),
            final(self)@ == old(self)@.restore(name@, backup.saved(), backup.dirty),
            *final(author_id) == backup.author_id,
    {
        *author_id = backup.author_id;
        self.dirty = backup.dirty;
        let found = find_name(&self.entries, name);
        match backup.versions {
            Some(versions) => {
                match found {
                    Some(i) => {
                        proof {
                            lemma_assoc_at(self.entries@, name_of(), versions_of(), i as int);
                        }
                        self.entries[i].versions = versions;
                        proof {
                            assert(name_of()(self.entries@[i as int]) == name_of()(old(self).entries@[i as int]));
                            lemma_assoc_update(old(self).entries@, name_of(), versions_of(), i as int, self.entries@);
                            assert forall|j: int| 0 <= j < self.entries@.len() implies versions_wf(
                                (#[trigger] self.entries@[j]).versions@,
                            ) by {
                                if j != i {
                                    assert(self.entries@[j] == old(self).entries@[j]);
                                }
                            }
                        }
                    },
                    None => {
                        let entry = NamedEntry { name: name.clone(), versions };
                        proof {
                            assert(name_of()(entry) == name@);
                            assert(!has_key(self.entries@, name_of(), name@));
                            lemma_assoc_push(self.entries@, name_of(), versions_of(), entry);
                            assert forall|j: int| 0 <= j < self.entries@.push(entry).len() implies versions_wf(
                                (#[trigger] self.entries@.push(entry)[j]).versions@,
                            ) by {
                                if j < self.entries@.len() {
                                    assert(self.entries@.push(entry)[j] == self.entries@[j]);
                                }
                            }
                        }
                        self.entries.push(entry);
                    },
                }
            },
            None => {
                match found {
                    Some(i) => {
                        proof {
                            lemma_assoc_at(self.entries@, name_of(), versions_of(), i as int);
                            lemma_assoc_remove(self.entries@, name_of(), versions_of(), i as int);
                        }
                        let _ = self.entries.remove(i);
                        proof {
                            assert forall|j: int| 0 <= j < self.entries@.len() implies versions_wf(
                                (#[trigger] self.entries@[j]).versions@,
                            ) by {
                                let j2 = if j < i { j } else { j + 1 };
                                assert(self.entries@[j] == old(self).entries@[j2]);
                            }
                        }
                    },
                    None => {
                        assert(self@.entries.remove(name@) =~= self@.entries);
                    },
                }
            },
        }
    }
}

/// What is saved of an entry before a change that may have to be undone:
/// who its author was, its versions if it was there, and the dirty flag.
#[derive(Debug)]
pub struct EntryBackup {
    pub author_id: crate::hash::Hash,
    pub versions: Option<Vec<Version>>,
    pub dirty: bool,
}

impl EntryBackup {
    /// The saved versions are in order.
    pub open spec fn wf(&self) -> bool {
        match self.versions {
            Some(versions) => versions_wf(versions@),
            None => true,
        }
    }

    /// The saved versions as a map, if the entry was there.
    pub open spec fn saved(&self) -> Option<Map<crate::hash::Hash, EntryModel>> {
        match self.versions {
            Some(versions) => Some(versions_map(versions@)),
            None => None,
        }
    }
}

/// Calls `rand::random` for 32 bytes: the id of a new blob. Nothing is
/// claimed of the bytes.
#[verifier::external_body]
fn random_blob_id() -> (r: crate::hash::Hash) {
    rand::random()
}

/// Undoing a change to an entry restores the contents: whatever was done to
/// the versions of one name and to the dirty flag, putting back what was
/// saved of them before gives the contents as they were.
pub proof fn law_rollback_restores(before: ContentModel, after: ContentModel, name: Seq<char>)
    requires
        forall|other: Seq<char>| other != name ==> (before.entries.dom().contains(other) <==> after.entries.dom().contains(
            other,
        )),
        forall|other: Seq<char>| other != name && before.entries.dom().contains(other) ==> #[trigger] before.entries[other]
            == after.entries[other],
    ensures
        after.restore(name, before.saved(name), before.dirty) == before,
{
    assert(after.restore(name, before.saved(name), before.dirty).entries =~= before.entries);
}

/// Undoing `modify_entry` restores the contents as they were before it.
pub proof fn law_modify_entry_undone(m: ContentModel, name: Seq<char>, author: crate::hash::Hash, local: crate::hash::Hash)
    requires
        m.entries.dom().contains(name),
    ensures
        m.modify_entry(name, author, local).restore(name, m.saved(name), m.dirty) == m,
{
    law_rollback_restores(m, m.modify_entry(name, author, local), name);
}

} // verus!
