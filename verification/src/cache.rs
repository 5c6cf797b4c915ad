//! The cache of open subdirectories: which handle a caller gets, and which
//! entries are swept.

use crate::error::Error;
use vstd::prelude::*;

verus! {

/// What opening a directory through the cache does.
#[derive(Clone, Copy, Debug, PartialEq, Eq, Structural)]
pub enum CacheStep {
    /// The directory is open: hand out the state that is shared.
    Reuse,
    /// The directory is not open: open it and file it in the cache.
    OpenAndFile,
}

/// What opening a directory through the cache does. `slot` says whether an
/// entry is filed for the directory and, if one is, whether a handle to
/// the directory is still alive.
pub fn cache_step(slot: Option<bool>) -> (r: CacheStep)
    ensures
        r == (match slot {
            Some(true) => CacheStep::Reuse,
            _ => CacheStep::OpenAndFile,
        }),
{
    match slot {
        Some(true) => CacheStep::Reuse,
        _ => CacheStep::OpenAndFile,
    }
}

/// Whether a new directory can be filed in the cache: only where no entry
/// is filed for it, alive or not.
pub fn cache_create_step(slot: Option<bool>) -> (r: Result<(), Error>)
    ensures
        r == (match slot {
            Some(_) => Err::<(), Error>(Error::EntryExists),
            None => Ok::<(), Error>(()),
        }),
{
    match slot {
        Some(_) => Err(Error::EntryExists),
        None => Ok(()),
    }
}

/// An entry of the cache: the directory that it is for, and whether a
/// handle to the directory is still alive.
#[derive(Clone, Copy, Debug)]
pub struct CacheEntry {
    pub key: crate::hash::Hash,
    pub is_alive: bool,
}

/// The entries of `entries` that are alive, in their order.
pub open spec fn alive_entries(entries: Seq<CacheEntry>) -> Seq<CacheEntry>
    decreases entries.len(),
{
    if entries.len() == 0 {
        Seq::empty()
    } else if entries.last().is_alive {
        alive_entries(entries.drop_last()).push(entries.last())
    } else {
        alive_entries(entries.drop_last())
    }
}

/// Sweeps the cache: the entries whose directory has no handle left go.
pub fn sweep(entries: &Vec<CacheEntry>) -> (r: Vec<CacheEntry>)
    ensures
        r@ == alive_entries(entries@),
{
    let mut out: Vec<CacheEntry> = Vec::new();
    let mut i: usize = 0;
    assert(entries@.take(0) =~= Seq::<CacheEntry>::empty());
    while i < entries.len()
        invariant
            0 <= i <= entries@.len(),
            out@ == alive_entries(entries@.take(i as int)),
        decreases entries@.len() - i,
    {
        proof {
            let next = entries@.take(i + 1);
            assert(next.drop_last() =~= entries@.take(i as int));
            assert(next.last() == entries@[i as int]);
        }
        if entries[i].is_alive {
            out.push(entries[i]);
        }
        i = i + 1;
    }
    assert(entries@.take(entries@.len() as int) =~= entries@);
    out
}

/// After a sweep every entry is alive, and every entry that was alive is
/// still there.
pub proof fn law_sweep_keeps_the_living(entries: Seq<CacheEntry>)
    ensures
        forall|k: int| 0 <= k < alive_entries(entries).len() ==> (#[trigger] alive_entries(entries)[k]).is_alive,
        forall|i: int| 0 <= i < entries.len() && (#[trigger] entries[i]).is_alive ==> alive_entries(entries).contains(entries[i]),
    decreases entries.len(),
{
    if entries.len() > 0 {
        let rest = entries.drop_last();
        law_sweep_keeps_the_living(rest);
        let swept = alive_entries(entries);
        let before = alive_entries(rest);
        assert forall|k: int| 0 <= k < swept.len() implies (#[trigger] swept[k]).is_alive by {
            if k < before.len() {
                assert(before[k].is_alive);
            }
        }
        assert forall|i: int| 0 <= i < entries.len() && (#[trigger] entries[i]).is_alive implies swept.contains(entries[i]) by {
            if i < rest.len() {
                assert(rest[i].is_alive);
                assert(before.contains(entries[i]));
                let k = choose|k: int| 0 <= k < before.len() && before[k] == entries[i];
                assert(swept[k] == entries[i]);
            } else {
                assert(swept[swept.len() - 1] == entries[i]);
            }
        }
    }
}

} // verus!
