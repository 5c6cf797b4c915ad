use ouisync_core::cache::{cache_create_step, cache_step, sweep, CacheEntry, CacheStep};
use ouisync_core::error::Error;

#[test]
fn an_open_directory_is_shared() {
    assert_eq!(cache_step(Some(true)), CacheStep::Reuse);
    // The entry is there, but no handle is left.
    assert_eq!(cache_step(Some(false)), CacheStep::OpenAndFile);
    assert_eq!(cache_step(None), CacheStep::OpenAndFile);
}

#[test]
fn a_new_directory_needs_a_free_slot() {
    assert_eq!(cache_create_step(None), Ok(()));
    assert_eq!(cache_create_step(Some(true)), Err(Error::EntryExists));
    assert_eq!(cache_create_step(Some(false)), Err(Error::EntryExists));
}

#[test]
fn sweeping_drops_the_dead_entries() {
    let entries = vec![
        CacheEntry { key: [1u8; 32], is_alive: true },
        CacheEntry { key: [2u8; 32], is_alive: false },
        CacheEntry { key: [3u8; 32], is_alive: true },
    ];
    let keys: Vec<[u8; 32]> = sweep(&entries).iter().map(|entry| entry.key).collect();
    assert_eq!(keys, vec![[1u8; 32], [3u8; 32]]);
    assert!(sweep(&vec![]).is_empty());
}
