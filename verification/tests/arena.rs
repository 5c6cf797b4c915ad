use ouisync_core::arena::{fork_step, DirectoryArena, ForkStep, Parent};
use ouisync_core::directory::EntryType;
use ouisync_core::error::Error;
use ouisync_core::version_vector::VersionVector;

const WRITER_A: [u8; 32] = [1u8; 32];
const WRITER_B: [u8; 32] = [2u8; 32];
const BLOB: [u8; 32] = [9u8; 32];

fn nested() -> (DirectoryArena, usize) {
    let mut arena = DirectoryArena::new();
    let dir = arena.create_directory(0, "dir".to_owned(), WRITER_A).unwrap().dir_id;
    arena
        .insert_entry(dir, "file.txt".to_owned(), WRITER_A, EntryType::File, VersionVector::first(WRITER_A), BLOB)
        .unwrap();
    (arena, dir)
}

#[test]
fn subdirectory_hangs_in_its_parent() {
    let (arena, dir) = nested();
    assert_eq!(arena.len(), 2);
    assert_eq!(dir, 1);
    assert!(matches!(arena.get(0).parent, Parent::Root));
    match &arena.get(dir).parent {
        Parent::Sub { parent_id, entry_name, entry_author } => {
            assert_eq!(*parent_id, 0);
            assert_eq!(entry_name, "dir");
            assert_eq!(*entry_author, WRITER_A);
        }
        Parent::Root => panic!("expected a parent"),
    }
    let entry = arena.get(0).content.lookup_version(&"dir".to_owned(), &WRITER_A).unwrap();
    assert_eq!(entry.entry_type, EntryType::Directory);
    assert_eq!(entry.version_vector.get(&WRITER_A), 1);
}

#[test]
fn a_name_is_used_once_by_a_writer() {
    let (mut arena, _) = nested();
    assert_eq!(arena.create_directory(0, "dir".to_owned(), WRITER_A).unwrap_err(), Error::EntryExists);
    assert_eq!(arena.len(), 2);
}

#[test]
fn taking_an_entry_over_goes_up_to_the_root() {
    let (mut arena, dir) = nested();
    let mut author = WRITER_A;

    arena.modify_entry_chain(dir, &"file.txt".to_owned(), &mut author, WRITER_B).unwrap();

    assert_eq!(author, WRITER_B);
    // The file is the local writer's now, one version on.
    let file = arena.get(dir).content.lookup_version(&"file.txt".to_owned(), &WRITER_B).unwrap();
    assert_eq!(file.blob_id, BLOB);
    assert_eq!(file.version_vector.get(&WRITER_A), 1);
    assert_eq!(file.version_vector.get(&WRITER_B), 1);
    assert!(arena.get(dir).content.lookup_version(&"file.txt".to_owned(), &WRITER_A).is_err());
    // And so is the entry of the directory in the root.
    let entry = arena.get(0).content.lookup_version(&"dir".to_owned(), &WRITER_B).unwrap();
    assert_eq!(entry.version_vector.get(&WRITER_A), 1);
    assert_eq!(entry.version_vector.get(&WRITER_B), 1);
    assert!(arena.get(0).content.lookup_version(&"dir".to_owned(), &WRITER_A).is_err());
    assert!(matches!(&arena.get(dir).parent, Parent::Sub { entry_author, .. } if *entry_author == WRITER_B));

    // Once more, as the local writer: one more version all the way up.
    arena.modify_entry_chain(dir, &"file.txt".to_owned(), &mut author, WRITER_B).unwrap();
    let file = arena.get(dir).content.lookup_version(&"file.txt".to_owned(), &WRITER_B).unwrap();
    assert_eq!(file.version_vector.get(&WRITER_B), 2);
    let entry = arena.get(0).content.lookup_version(&"dir".to_owned(), &WRITER_B).unwrap();
    assert_eq!(entry.version_vector.get(&WRITER_B), 2);
}

#[test]
fn a_failure_on_the_way_up_undoes_everything() {
    let (mut arena, dir) = nested();
    // The local writer has a concurrent version of the directory in the root.
    arena
        .insert_entry(0, "dir".to_owned(), WRITER_B, EntryType::Directory, VersionVector::first(WRITER_B), [8u8; 32])
        .unwrap();
    let dirty_before = arena.get(dir).content.is_dirty();

    let mut author = WRITER_A;
    assert_eq!(
        arena.modify_entry_chain(dir, &"file.txt".to_owned(), &mut author, WRITER_B).unwrap_err(),
        Error::EntryExists
    );

    assert_eq!(author, WRITER_A);
    let file = arena.get(dir).content.lookup_version(&"file.txt".to_owned(), &WRITER_A).unwrap();
    assert_eq!(file.version_vector.get(&WRITER_A), 1);
    assert_eq!(file.version_vector.get(&WRITER_B), 0);
    assert!(arena.get(dir).content.lookup_version(&"file.txt".to_owned(), &WRITER_B).is_err());
    assert_eq!(arena.get(dir).content.is_dirty(), dirty_before);
    assert!(matches!(&arena.get(dir).parent, Parent::Sub { entry_author, .. } if *entry_author == WRITER_A));
    assert_eq!(arena.get(0).content.lookup(&"dir".to_owned()).unwrap().len(), 2);
}

#[test]
fn taking_over_what_is_not_there() {
    let (mut arena, dir) = nested();
    let mut author = WRITER_A;
    assert_eq!(
        arena.modify_entry_chain(dir, &"none.txt".to_owned(), &mut author, WRITER_B).unwrap_err(),
        Error::EntryNotFound
    );
    assert_eq!(author, WRITER_A);
}

#[test]
fn forking_a_directory() {
    // In the local branch already, whatever else holds.
    assert_eq!(fork_step(true, true, None), Ok(ForkStep::Keep));
    assert_eq!(fork_step(true, false, Some(EntryType::File)), Ok(ForkStep::Keep));
    // A root of another branch.
    assert_eq!(fork_step(false, false, None), Ok(ForkStep::OpenOrCreateRoot));
    // A subdirectory of another branch.
    assert_eq!(fork_step(false, true, Some(EntryType::Directory)), Ok(ForkStep::OpenLocal));
    assert_eq!(fork_step(false, true, None), Ok(ForkStep::CreateInParent));
    assert_eq!(fork_step(false, true, Some(EntryType::File)), Err(Error::EntryNotDirectory));
}

#[test]
fn creating_a_directory_files_its_blob_in_the_parent() {
    let mut arena = DirectoryArena::new();
    // The other writer has an older version of the name, which the new directory outdates.
    arena
        .insert_entry(0, "dir".to_owned(), WRITER_B, EntryType::Directory, VersionVector::new(), BLOB)
        .unwrap();

    let created = arena.create_directory(0, "dir".to_owned(), WRITER_A).unwrap();

    assert_eq!(created.dir_id, 1);
    assert_eq!(created.removed, vec![BLOB]);
    let entry = arena.get(0).content.lookup_version(&"dir".to_owned(), &WRITER_A).unwrap();
    assert_eq!(entry.blob_id, created.blob_id);
    assert_eq!(arena.get(0).content.lookup(&"dir".to_owned()).unwrap().len(), 1);
    assert!(arena.get(0).content.is_dirty());
    assert!(arena.get(1).content.is_empty());
}
