//! Directories of a branch, kept in an arena: each directory knows its
//! parent by position, and the entry under which the parent holds it.

use crate::directory::{Content, ContentModel, EntryType};
use crate::error::Error;
use crate::version_vector::{count_in, VersionVector};
use vstd::prelude::*;

verus! {

/// Where a directory hangs.
#[derive(Debug)]
pub enum Parent {
    /// Nowhere: it is the root.
    Root,
    /// In the directory at `parent_id`, under the entry `entry_name` by
    /// `entry_author`.
    Sub { parent_id: usize, entry_name: String, entry_author: crate::hash::Hash },
}

/// Where a directory hangs, as a mathematical value.
pub enum ParentModel {
    Root,
    Sub { parent_id: usize, entry_name: Seq<char>, entry_author: crate::hash::Hash },
}

impl View for Parent {
    type V = ParentModel;

    open spec fn view(&self) -> ParentModel {
        match *self {
            Parent::Root => ParentModel::Root,
            Parent::Sub { parent_id, entry_name, entry_author } => ParentModel::Sub {
                parent_id,
                entry_name: entry_name@,
                entry_author,
            },
        }
    }
}

/// A directory in the arena.
#[derive(Debug)]
pub struct DirNode {
    pub content: Content,
    pub parent: Parent,
}

/// A directory in the arena, as a mathematical value.
pub struct DirModel {
    pub content: ContentModel,
    pub parent: ParentModel,
}

impl View for DirNode {
    type V = DirModel;

    open spec fn view(&self) -> DirModel {
        DirModel { content: self.content@, parent: self.parent@ }
    }
}

/// The directories as mathematical values.
pub open spec fn dir_models(dirs: Seq<DirNode>) -> Seq<DirModel> {
    dirs.map_values(|d: DirNode| d@)
}

/// Every directory but the root hangs in one at an earlier position, so
/// that the way up from any directory ends at the root.
pub open spec fn parents_come_first(m: Seq<DirModel>) -> bool {
    forall|i: int|
        0 <= i < m.len() ==> match (#[trigger] m[i]).parent {
            ParentModel::Root => true,
            ParentModel::Sub { parent_id, .. } => parent_id < i,
        }
}

/// The count of `local` in the version of `name` by `author` in the
/// directory at `i`.
pub open spec fn entry_count(m: Seq<DirModel>, i: int, name: Seq<char>, author: crate::hash::Hash, local: crate::hash::Hash) -> nat {
    count_in(m[i].content.versions(name)[author].version_vector, local)
}

/// In the directories up to position `upto`, no version counts as many
/// versions of `local` as the counter can hold.
pub open spec fn counts_bounded(m: Seq<DirModel>, upto: int, local: crate::hash::Hash) -> bool {
    forall|i: int, name: Seq<char>, author: crate::hash::Hash|
        0 <= i <= upto && i < m.len() && m[i].content.versions(name).dom().contains(author) ==> #[trigger] entry_count(
            m,
            i,
            name,
            author,
            local,
        ) < u64::MAX
}

/// The directory at `dir_id` with another content.
pub open spec fn with_content(m: Seq<DirModel>, dir_id: int, content: ContentModel) -> Seq<DirModel> {
    m.update(dir_id, DirModel { content, parent: m[dir_id].parent })
}

/// The directory at `dir_id` with a parent entry by another author.
pub open spec fn with_entry_author(m: Seq<DirModel>, dir_id: int, author: crate::hash::Hash) -> Seq<DirModel> {
    match m[dir_id].parent {
        ParentModel::Root => m,
        ParentModel::Sub { parent_id, entry_name, entry_author } => m.update(
            dir_id,
            DirModel {
                content: m[dir_id].content,
                parent: ParentModel::Sub { parent_id, entry_name, entry_author: author },
            },
        ),
    }
}

/// What taking over the entry `name` by `author` in the directory at
/// `dir_id` gives, all the way up: the entry is taken over there, then the
/// entry of that directory in its parent, and so on up to the root. Where
/// a step fails, the whole fails with the error of that step.
pub open spec fn chain_modified(
    m: Seq<DirModel>,
    dir_id: int,
    name: Seq<char>,
    author: crate::hash::Hash,
    local: crate::hash::Hash,
) -> Result<Seq<DirModel>, Error>
    decreases dir_id,
{
    if !(0 <= dir_id < m.len()) || !m[dir_id].content.versions(name).dom().contains(author) {
        Err(Error::EntryNotFound)
    } else if m[dir_id].content.modify_blocked(name, author, local) {
        Err(Error::EntryExists)
    } else {
        let here = with_content(m, dir_id, m[dir_id].content.modify_entry(name, author, local));
        match m[dir_id].parent {
            ParentModel::Root => Ok(here),
            ParentModel::Sub { parent_id, entry_name, entry_author } => if parent_id < dir_id {
                match chain_modified(here, parent_id as int, entry_name, entry_author, local) {
                    Ok(up) => Ok(with_entry_author(up, dir_id, local)),
                    Err(e) => Err(e),
                }
            } else {
                Err(Error::EntryNotFound)
            },
        }
    }
}

/// What creating a subdirectory has given: the position of the new
/// directory, the id of its blob, and the blob ids of the versions that
/// its entry has replaced in the parent, for the caller to dispose of.
#[derive(Debug)]
pub struct CreatedDirectory {
    pub dir_id: usize,
    pub blob_id: crate::hash::Hash,
    pub removed: Vec<crate::hash::Hash>,
}

/// What forking a directory into the local branch does.
#[derive(Clone, Copy, Debug, PartialEq, Eq, Structural)]
pub enum ForkStep {
    /// The directory is in the local branch: it is its own fork.
    Keep,
    /// The directory is a root: open the root of the local branch, or
    /// create it.
    OpenOrCreateRoot,
    /// The fork of the parent holds a local directory under the name:
    /// open it.
    OpenLocal,
    /// The fork of the parent holds no local entry under the name: create
    /// the directory there.
    CreateInParent,
}

/// What forking a directory into the local branch does, once its parent,
/// if it has one, is forked. `local_entry` is the type of the entry that
/// the fork of the parent holds under the name of the directory for the
/// local writer, if it holds one. A local entry that is a file stands in
/// the way.
pub fn fork_step(is_local: bool, has_parent: bool, local_entry: Option<EntryType>) -> (r: Result<ForkStep, Error>)
    ensures
        r == (if is_local {
            Ok::<ForkStep, Error>(ForkStep::Keep)
        } else if !has_parent {
            Ok::<ForkStep, Error>(ForkStep::OpenOrCreateRoot)
        } else {
            match local_entry {
                Some(EntryType::Directory) => Ok::<ForkStep, Error>(ForkStep::OpenLocal),
                Some(EntryType::File) => Err::<ForkStep, Error>(Error::EntryNotDirectory),
                None => Ok::<ForkStep, Error>(ForkStep::CreateInParent),
            }
        }),
{
    if is_local {
        Ok(ForkStep::Keep)
    } else if !has_parent {
        Ok(ForkStep::OpenOrCreateRoot)
    } else {
        match local_entry {
            Some(EntryType::Directory) => Ok(ForkStep::OpenLocal),
            Some(EntryType::File) => Err(Error::EntryNotDirectory),
            None => Ok(ForkStep::CreateInParent),
        }
    }
}

/// The directories of a branch.
#[derive(Debug)]
pub struct DirectoryArena {
    dirs: Vec<DirNode>,
}

impl View for DirectoryArena {
    type V = Seq<DirModel>;

    closed spec fn view(&self) -> Seq<DirModel> {
        dir_models(self.dirs@)
    }
}

impl DirectoryArena {
    /// The contents of each directory are in order, and parents come first.
    pub closed spec fn wf(&self) -> bool {
        &&& parents_come_first(self@)
        &&& forall|i: int| 0 <= i < self.dirs@.len() ==> (#[trigger] self.dirs@[i]).content.wf()
    }

    /// In an arena in order, the way up from any directory ends at the root.
    pub proof fn law_parents_come_first(&self)
        requires
            self.wf(),
        ensures
            parents_come_first(self@),
    {
    }

    /// An arena with an empty root directory at position zero.
    pub fn new() -> (r: Self)
        ensures
            r.wf(),
            r@.len() == 1,
            r@[0].parent == ParentModel::Root,
            r@[0].content.entries == Map::<Seq<char>, Map<crate::hash::Hash, crate::directory::EntryModel>>::empty(),
            r@[0].content.dirty,
    {
        let mut dirs: Vec<DirNode> = Vec::new();
        dirs.push(DirNode { content: Content::new(), parent: Parent::Root });
        DirectoryArena { dirs }
    }

    /// The number of directories.
    pub fn len(&self) -> (r: usize)
        ensures
            r == self@.len(),
    {
        self.dirs.len()
    }

    /// The directory at a position.
    pub fn get(&self, dir_id: usize) -> (r: &DirNode)
        requires
            dir_id < self@.len(),
        ensures
            r@ == self@[dir_id as int],
            self.wf() ==> r.content.wf(),
    {
        &self.dirs[dir_id]
    }

    /// Creates a subdirectory of the directory at `parent_id`: an entry
    /// for it is filed in the parent, by `author` at its first version, and
    /// the new directory is added to the arena. Returns its position.
    pub fn create_directory(&mut self, parent_id: usize, name: String, author: crate::hash::Hash) -> (r: Result<
        CreatedDirectory,
        Error,
    >)
        requires
            old(self).wf(),
            parent_id < old(self)@.len(),
        ensures
            final(self).wf(),
            match r {
                Ok(created) => created.dir_id == old(self)@.len() && final(self)@.len() == old(self)@.len() + 1 && old(
                    self,
                )@[parent_id as int].content.insert_allowed(
                    name@,
                    author,
                    EntryType::Directory,
                    Map::<crate::hash::Hash, u64>::empty().insert(author, 1),
                ) && final(self)@[created.dir_id as int] == (DirModel {
                    content: ContentModel { entries: Map::empty(), dirty: true },
                    parent: ParentModel::Sub { parent_id, entry_name: name@, entry_author: author },
                }) && final(self)@[parent_id as int] == (DirModel {
                    content: old(self)@[parent_id as int].content.insert(
                        name@,
                        author,
                        EntryType::Directory,
                        Map::<crate::hash::Hash, u64>::empty().insert(author, 1),
                        created.blob_id,
                    ),
                    parent: old(self)@[parent_id as int].parent,
                }) && crate::directory::holds_outdated_blobs(
                    old(self)@[parent_id as int].content.versions(name@),
                    author,
                    Map::<crate::hash::Hash, u64>::empty().insert(author, 1),
                    created.removed@,
                ) && forall|i: int|
                    0 <= i < old(self)@.len() && i != parent_id ==> #[trigger] final(self)@[i] == old(self)@[i],
                Err(e) => e == Error::EntryExists && !old(self)@[parent_id as int].content.insert_allowed(
                    name@,
                    author,
                    EntryType::Directory,
                    Map::<crate::hash::Hash, u64>::empty().insert(author, 1),
                ) && final(self)@ == old(self)@,
            },
    {
        let entry_name = name.clone();
        let inserted = self.dirs[parent_id].content.insert(name, author, EntryType::Directory, VersionVector::first(author));
        match inserted {
            Ok((blob_id, removed)) => {
                let ghost before = self.dirs@;
                let dir_id = self.dirs.len();
                let node = DirNode {
                    content: Content::new(),
                    parent: Parent::Sub { parent_id, entry_name, entry_author: author },
                };
                self.dirs.push(node);
                proof {
                    assert(self@ =~= dir_models(before).push(node@));
                    assert forall|i: int| 0 <= i < self@.len() implies match (#[trigger] self@[i]).parent {
                        ParentModel::Root => true,
                        ParentModel::Sub { parent_id, .. } => parent_id < i,
                    } by {
                        if i < old(self)@.len() {
                            assert(self@[i].parent == old(self)@[i].parent);
                        }
                    }
                    assert forall|i: int| 0 <= i < self.dirs@.len() implies (#[trigger] self.dirs@[i]).content.wf() by {
                        if i < before.len() && i != parent_id {
                            assert(self.dirs@[i] == old(self).dirs@[i]);
                        }
                    }
                    assert forall|i: int| 0 <= i < old(self)@.len() && i != parent_id implies #[trigger] self@[i] == old(
                        self,
                    )@[i] by {
                        assert(self.dirs@[i] == old(self).dirs@[i]);
                    }
                }
                Ok(CreatedDirectory { dir_id, blob_id, removed })
            },
            Err(e) => {
                proof {
                    assert(self@ =~= old(self)@);
                    assert forall|i: int| 0 <= i < self.dirs@.len() implies (#[trigger] self.dirs@[i]).content.wf() by {
                        if i != parent_id {
                            assert(self.dirs@[i] == old(self).dirs@[i]);
                        }
                    }
                }
                Err(e)
            },
        }
    }

    /// Files a version of `name` by `author` in the directory at `dir_id`,
    /// as `Content::insert_with` does. The other directories stay as they are.
    pub fn insert_entry(
        &mut self,
        dir_id: usize,
        name: String,
        author: crate::hash::Hash,
        entry_type: EntryType,
        version_vector: VersionVector,
        blob_id: crate::hash::Hash,
    ) -> (r: Result<Vec<crate::hash::Hash>, Error>)
        requires
            old(self).wf(),
            dir_id < old(self)@.len(),
            version_vector.wf(),
        ensures
            final(self).wf(),
            final(self)@.len() == old(self)@.len(),
            forall|i: int| 0 <= i < old(self)@.len() && i != dir_id ==> #[trigger] final(self)@[i] == old(self)@[i],
            final(self)@[dir_id as int].parent == old(self)@[dir_id as int].parent,
            match r {
                Ok(removed) => old(self)@[dir_id as int].content.insert_allowed(name@, author, entry_type, version_vector@)
                    && final(self)@[dir_id as int].content == old(self)@[dir_id as int].content.insert(
                    name@,
                    author,
                    entry_type,
                    version_vector@,
                    blob_id,
                ) && crate::directory::holds_outdated_blobs(
                    old(self)@[dir_id as int].content.versions(name@),
                    author,
                    version_vector@,
                    removed@,
                ),
                Err(e) => e == Error::EntryExists && !old(self)@[dir_id as int].content.insert_allowed(
                    name@,
                    author,
                    entry_type,
                    version_vector@,
                ) && final(self)@[dir_id as int].content == old(self)@[dir_id as int].content,
            },
    {
        let r = self.dirs[dir_id].content.insert_with(name, author, entry_type, version_vector, blob_id);
        proof {
            assert forall|i: int| 0 <= i < old(self)@.len() && i != dir_id implies #[trigger] self@[i] == old(self)@[i] by {
                assert(self.dirs@[i] == old(self).dirs@[i]);
            }
            assert forall|i: int| 0 <= i < self@.len() implies match (#[trigger] self@[i]).parent {
                ParentModel::Root => true,
                ParentModel::Sub { parent_id, .. } => parent_id < i,
            } by {
                assert(self@[i].parent == old(self)@[i].parent);
            }
            assert forall|i: int| 0 <= i < self.dirs@.len() implies (#[trigger] self.dirs@[i]).content.wf() by {
                if i != dir_id {
                    assert(self.dirs@[i] == old(self).dirs@[i]);
                }
            }
        }
        r
    }

    /// Takes over, for the local writer, the entry `name` by `*author_id`
    /// in the directory at `dir_id`, and then the entry of each directory
    /// on the way up in its parent, up to the root. All of it happens or
    /// none of it: where a step fails, what was done is undone.
    pub fn modify_entry_chain(
        &mut self,
        dir_id: usize,
        name: &String,
        author_id: &mut crate::hash::Hash,
        local_id: crate::hash::Hash,
    ) -> (r: Result<(), Error>)
        requires
            old(self).wf(),
            dir_id < old(self)@.len(),
            counts_bounded(old(self)@, dir_id as int, local_id),
        ensures
            final(self).wf(),
            match r {
                Ok(_) => chain_modified(old(self)@, dir_id as int, name@, *old(author_id), local_id) == Ok::<
                    Seq<DirModel>,
                    Error,
                >(final(self)@) && *final(author_id) == local_id,
                Err(e) => chain_modified(old(self)@, dir_id as int, name@, *old(author_id), local_id) == Err::<
                    Seq<DirModel>,
                    Error,
                >(e) && final(self)@ == old(self)@ && *final(author_id) == *old(author_id),
            },
        decreases dir_id,
    {
        let ghost m = self@;
        let ghost author = *author_id;
        proof {
            assert(self.dirs@[dir_id as int]@ == m[dir_id as int]);
            if m[dir_id as int].content.versions(name@).dom().contains(author) {
                assert(entry_count(m, dir_id as int, name@, author, local_id) < u64::MAX);
            }
        }
        let backup = self.dirs[dir_id].content.backup(name, author_id);
        match self.dirs[dir_id].content.modify_entry(name, author_id, local_id) {
            Ok(_) => {},
            Err(e) => {
                proof {
                    assert(self@ =~= m);
                    assert forall|i: int| 0 <= i < self.dirs@.len() implies (#[trigger] self.dirs@[i]).content.wf() by {
                        if i != dir_id {
                            assert(self.dirs@[i] == old(self).dirs@[i]);
                        }
                    }
                }
                return Err(e);
            },
        }
        let ghost here = self@;
        proof {
            assert(here =~= with_content(m, dir_id as int, m[dir_id as int].content.modify_entry(name@, author, local_id)));
            assert forall|i: int| 0 <= i < self.dirs@.len() implies (#[trigger] self.dirs@[i]).content.wf() by {
                if i != dir_id {
                    assert(self.dirs@[i] == old(self).dirs@[i]);
                }
            }
            assert(parents_come_first(here)) by {
                assert forall|i: int| 0 <= i < here.len() implies match (#[trigger] here[i]).parent {
                    ParentModel::Root => true,
                    ParentModel::Sub { parent_id, .. } => parent_id < i,
                } by {
                    assert(here[i].parent == m[i].parent);
                }
            }
        }
        let up = match &self.dirs[dir_id].parent {
            Parent::Root => None,
            Parent::Sub { parent_id, entry_name, entry_author } => Some((*parent_id, entry_name.clone(), *entry_author)),
        };
        match up {
            None => Ok(()),
            Some((parent_id, entry_name, entry_author)) => {
                let mut parent_author = entry_author;
                proof {
                    assert(m[dir_id as int].parent == (ParentModel::Sub {
                        parent_id,
                        entry_name: entry_name@,
                        entry_author,
                    }));
                    assert(parent_id < dir_id);
                    assert forall|i: int, n: Seq<char>, a: crate::hash::Hash|
                        0 <= i <= parent_id && i < here.len() && here[i].content.versions(n).dom().contains(a) implies #[trigger] entry_count(
                        here,
                        i,
                        n,
                        a,
                        local_id,
                    ) < u64::MAX by {
                        assert(here[i] == m[i]);
                        assert(entry_count(m, i, n, a, local_id) < u64::MAX);
                    }
                }
                match self.modify_entry_chain(parent_id, &entry_name, &mut parent_author, local_id) {
                    Ok(_) => {
                        let ghost risen = self@;
                        proof {
                            lemma_chain_keeps_shape(here, parent_id as int, entry_name@, entry_author, local_id);
                            assert(risen.len() == here.len());
                            assert(self.dirs@.len() == risen.len());
                        }
                        self.dirs[dir_id].parent = Parent::Sub { parent_id, entry_name, entry_author: parent_author };
                        proof {
                            assert(risen[dir_id as int].parent == here[dir_id as int].parent);
                            assert(self@ =~= with_entry_author(risen, dir_id as int, local_id));
                            assert forall|i: int| 0 <= i < self@.len() implies match (#[trigger] self@[i]).parent {
                                ParentModel::Root => true,
                                ParentModel::Sub { parent_id, .. } => parent_id < i,
                            } by {
                                if i != dir_id {
                                    assert(self@[i] == risen[i]);
                                }
                            }
                        }
                        Ok(())
                    },
                    Err(e) => {
                        let ghost stuck = self.dirs@;
                        proof {
                            assert(self@ == here);
                            assert(self.dirs@.len() == here.len());
                            assert(self.dirs@[dir_id as int]@ == here[dir_id as int]);
                        }
                        self.dirs[dir_id].content.rollback(name, author_id, backup);
                        proof {
                            let before = m[dir_id as int].content;
                            assert(before.entries.dom().contains(name@));
                            crate::directory::law_modify_entry_undone(before, name@, author, local_id);
                            assert(self.dirs@[dir_id as int].content@ == before);
                            assert forall|i: int| 0 <= i < self@.len() implies self@[i] == m[i] by {
                                if i != dir_id {
                                    assert(self.dirs@[i] == stuck[i]);
                                    assert(dir_models(stuck)[i] == here[i]);
                                    assert(here[i] == m[i]);
                                } else {
                                    assert(self.dirs@[i].parent == stuck[i].parent);
                                    assert(dir_models(stuck)[i].parent == m[i].parent);
                                }
                            }
                            assert(self@ =~= m);
                            assert forall|i: int| 0 <= i < self.dirs@.len() implies (#[trigger] self.dirs@[i]).content.wf() by {
                                if i != dir_id {
                                    assert(self.dirs@[i] == stuck[i]);
                                }
                            }
                        }
                        Err(e)
                    },
                }
            },
        }
    }
}

/// Taking entries over on the way up changes no directory's parent
/// position or entry name, and adds or removes no directory.
pub proof fn lemma_chain_keeps_shape(
    m: Seq<DirModel>,
    dir_id: int,
    name: Seq<char>,
    author: crate::hash::Hash,
    local: crate::hash::Hash,
)
    requires
        chain_modified(m, dir_id, name, author, local) is Ok,
    ensures
        chain_modified(m, dir_id, name, author, local)->Ok_0.len() == m.len(),
        forall|i: int|
            dir_id < i < m.len() ==> #[trigger] chain_modified(m, dir_id, name, author, local)->Ok_0[i] == m[i],
    decreases dir_id,
{
    let here = with_content(m, dir_id, m[dir_id].content.modify_entry(name, author, local));
    match m[dir_id].parent {
        ParentModel::Root => {},
        ParentModel::Sub { parent_id, entry_name, entry_author } => {
            lemma_chain_keeps_shape(here, parent_id as int, entry_name, entry_author, local);
        },
    }
}

/// Taking an entry over all the way up is all or nothing: where it fails,
/// no directory has changed; where it goes through, the entry and the
/// entry of each directory on the way up are the local writer's.
pub proof fn law_chain_gives_local_entries(
    m: Seq<DirModel>,
    dir_id: int,
    name: Seq<char>,
    author: crate::hash::Hash,
    local: crate::hash::Hash,
)
    requires
        parents_come_first(m),
        chain_modified(m, dir_id, name, author, local) is Ok,
    ensures
        chain_modified(m, dir_id, name, author, local)->Ok_0[dir_id].content.versions(name).dom().contains(local),
        m[dir_id].parent is Sub ==> chain_modified(m, dir_id, name, author, local)->Ok_0[dir_id].parent->entry_author
            == local,
{
    let here = with_content(m, dir_id, m[dir_id].content.modify_entry(name, author, local));
    assert(here[dir_id].content.versions(name).dom().contains(local));
    match m[dir_id].parent {
        ParentModel::Root => {},
        ParentModel::Sub { parent_id, entry_name, entry_author } => {
            lemma_chain_keeps_shape(here, parent_id as int, entry_name, entry_author, local);
        },
    }
}

} // verus!
