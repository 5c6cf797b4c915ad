use ouisync_core::directory::{Content, EntryType};
use ouisync_core::error::Error;
use ouisync_core::hash::Order;
use ouisync_core::version_vector::VersionVector;

const ID0: [u8; 32] = [1u8; 32];
const ID1: [u8; 32] = [2u8; 32];
const BLOB0: [u8; 32] = [10u8; 32];
const BLOB1: [u8; 32] = [11u8; 32];

fn name() -> String {
    "foo.txt".to_owned()
}

#[test]
fn insert_entry_newer_than_existing() {
    // Both orders of the two ids, to catch a dependency on their order.
    let id0: [u8; 32] = rand::random();
    let id1: [u8; 32] = rand::random();

    for (a_author, b_author) in [(id0, id1), (id1, id0)] {
        let mut content = Content::new();

        let a_vv = VersionVector::first(a_author);
        let removed = content.insert_with(name(), a_author, EntryType::File, a_vv.clone(), BLOB0).unwrap();
        assert!(removed.is_empty());

        let b_vv = {
            let mut vv = a_vv;
            vv.increment(b_author);
            vv
        };

        let removed = content.insert_with(name(), b_author, EntryType::File, b_vv.clone(), BLOB1).unwrap();
        assert_eq!(removed, vec![BLOB0]);

        let entries = content.entries();
        assert_eq!(entries.len(), 1);
        assert_eq!(entries[0].name, name());
        assert_eq!(entries[0].versions.len(), 1);
        let version = &entries[0].versions[0];
        assert_eq!(version.author, b_author);
        assert_eq!(version.data.blob_id, BLOB1);
        assert_eq!(version.data.version_vector.compare(&b_vv), Some(Order::Equal));
        assert_eq!(version.data.version_vector.get(&a_author), 1);
        assert_eq!(version.data.version_vector.get(&b_author), 1);
    }
}

#[test]
fn insert_against_own_slot_needs_a_later_version() {
    let mut content = Content::new();
    let mut later = VersionVector::first(ID0);
    later.increment(ID0);
    content.insert_with(name(), ID0, EntryType::File, later.clone(), BLOB0).unwrap();
    content.mark_clean();

    // The same version vector.
    assert_eq!(
        content.insert_with(name(), ID0, EntryType::File, later.clone(), BLOB1).unwrap_err(),
        Error::EntryExists
    );
    // An earlier one.
    assert_eq!(
        content.insert_with(name(), ID0, EntryType::File, VersionVector::first(ID0), BLOB1).unwrap_err(),
        Error::EntryExists
    );
    // A concurrent one.
    assert_eq!(
        content.insert_with(name(), ID0, EntryType::File, VersionVector::first(ID1), BLOB1).unwrap_err(),
        Error::EntryExists
    );
    // A later one of another type.
    let mut latest = later.clone();
    latest.increment(ID0);
    assert_eq!(
        content.insert_with(name(), ID0, EntryType::Directory, latest.clone(), BLOB1).unwrap_err(),
        Error::EntryExists
    );

    // Nothing has changed.
    assert!(!content.is_dirty());
    let data = content.lookup_version(&name(), &ID0).unwrap();
    assert_eq!(data.blob_id, BLOB0);
    assert_eq!(data.version_vector.get(&ID0), 2);

    // A later one of the same type goes through.
    assert!(content.insert_with(name(), ID0, EntryType::File, latest, BLOB1).unwrap().is_empty());
    assert!(content.is_dirty());
    assert_eq!(content.lookup_version(&name(), &ID0).unwrap().blob_id, BLOB1);
}

#[test]
fn concurrent_versions_are_kept_side_by_side() {
    let mut content = Content::new();
    content.insert_with(name(), ID0, EntryType::File, VersionVector::first(ID0), BLOB0).unwrap();
    let removed = content.insert_with(name(), ID1, EntryType::File, VersionVector::first(ID1), BLOB1).unwrap();
    assert!(removed.is_empty());

    let versions = content.lookup(&name()).unwrap();
    assert_eq!(versions.len(), 2);
    assert_eq!(content.lookup_version(&name(), &ID0).unwrap().blob_id, BLOB0);
    assert_eq!(content.lookup_version(&name(), &ID1).unwrap().blob_id, BLOB1);
}

#[test]
fn insert_makes_up_a_blob_id_and_files_it() {
    let mut content = Content::new();
    let (blob_id, removed) = content.insert(name(), ID0, EntryType::Directory, VersionVector::first(ID0)).unwrap();
    assert!(removed.is_empty());
    let data = content.lookup_version(&name(), &ID0).unwrap();
    assert_eq!(data.blob_id, blob_id);
    assert_eq!(data.entry_type, EntryType::Directory);
}

#[test]
fn remove_takes_all_versions_of_the_name() {
    let mut content = Content::new();
    assert!(content.is_empty());
    assert_eq!(content.remove(&name()).unwrap_err(), Error::EntryNotFound);

    content.insert_with(name(), ID0, EntryType::File, VersionVector::first(ID0), BLOB0).unwrap();
    content.insert_with(name(), ID1, EntryType::File, VersionVector::first(ID1), BLOB1).unwrap();
    content.mark_clean();
    assert!(!content.is_empty());

    content.remove(&name()).unwrap();
    assert!(content.is_dirty());
    assert!(content.is_empty());
    assert_eq!(content.lookup(&name()).unwrap_err(), Error::EntryNotFound);
    assert_eq!(content.lookup_version(&name(), &ID0).unwrap_err(), Error::EntryNotFound);
}

#[test]
fn modify_entry_takes_the_version_over() {
    let mut content = Content::new();
    content.insert_with(name(), ID0, EntryType::File, VersionVector::first(ID0), BLOB0).unwrap();
    content.mark_clean();

    let mut author = ID0;
    content.modify_entry(&name(), &mut author, ID1).unwrap();

    assert_eq!(author, ID1);
    assert!(content.is_dirty());
    assert_eq!(content.lookup_version(&name(), &ID0).unwrap_err(), Error::EntryNotFound);
    let data = content.lookup_version(&name(), &ID1).unwrap();
    assert_eq!(data.blob_id, BLOB0);
    assert_eq!(data.version_vector.get(&ID0), 1);
    assert_eq!(data.version_vector.get(&ID1), 1);

    // Modifying one's own version counts one more version.
    content.modify_entry(&name(), &mut author, ID1).unwrap();
    assert_eq!(content.lookup_version(&name(), &ID1).unwrap().version_vector.get(&ID1), 2);
}

#[test]
fn modify_entry_does_not_overwrite_a_concurrent_local_version() {
    let mut content = Content::new();
    content.insert_with(name(), ID0, EntryType::File, VersionVector::first(ID0), BLOB0).unwrap();
    content.insert_with(name(), ID1, EntryType::File, VersionVector::first(ID1), BLOB1).unwrap();
    content.mark_clean();

    let mut author = ID0;
    assert_eq!(content.modify_entry(&name(), &mut author, ID1).unwrap_err(), Error::EntryExists);
    assert_eq!(author, ID0);
    assert!(!content.is_dirty());
    assert_eq!(content.lookup(&name()).unwrap().len(), 2);
}

#[test]
fn modify_entry_of_what_is_not_there() {
    let mut content = Content::new();
    let mut author = ID0;
    assert_eq!(content.modify_entry(&name(), &mut author, ID1).unwrap_err(), Error::EntryNotFound);

    content.insert_with(name(), ID1, EntryType::File, VersionVector::first(ID1), BLOB1).unwrap();
    assert_eq!(content.modify_entry(&name(), &mut author, ID1).unwrap_err(), Error::EntryNotFound);
    assert_eq!(author, ID0);
}

#[test]
fn rollback_undoes_modify_entry() {
    let mut content = Content::new();
    content.insert_with(name(), ID0, EntryType::File, VersionVector::first(ID0), BLOB0).unwrap();
    content.mark_clean();

    let mut author = ID0;
    let backup = content.backup(&name(), &author);
    content.modify_entry(&name(), &mut author, ID1).unwrap();
    content.rollback(&name(), &mut author, backup);

    assert_eq!(author, ID0);
    assert!(!content.is_dirty());
    let data = content.lookup_version(&name(), &ID0).unwrap();
    assert_eq!(data.version_vector.get(&ID0), 1);
    assert_eq!(data.version_vector.get(&ID1), 0);
    assert_eq!(content.lookup_version(&name(), &ID1).unwrap_err(), Error::EntryNotFound);
}

#[test]
fn rollback_of_an_entry_that_was_not_there_removes_it() {
    let mut content = Content::new();
    let mut author = ID0;
    let backup = content.backup(&name(), &author);
    content.insert_with(name(), ID0, EntryType::File, VersionVector::first(ID0), BLOB0).unwrap();
    content.rollback(&name(), &mut author, backup);
    assert!(content.is_empty());
    assert!(content.is_dirty());
}

#[test]
fn each_outdated_version_gives_one_blob_id() {
    // Two versions that happen to point to the same blob are both outdated
    // by a third: the blob id is returned once for each.
    let third = [3u8; 32];
    let mut content = Content::new();
    content.insert_with(name(), ID0, EntryType::File, VersionVector::first(ID0), BLOB0).unwrap();
    content.insert_with(name(), ID1, EntryType::File, VersionVector::first(ID1), BLOB0).unwrap();

    let mut vv = VersionVector::first(ID0);
    vv.increment(ID1);
    vv.increment(third);
    let removed = content.insert_with(name(), third, EntryType::File, vv, BLOB1).unwrap();
    assert_eq!(removed, vec![BLOB0, BLOB0]);
    assert_eq!(content.lookup(&name()).unwrap().len(), 1);
}
