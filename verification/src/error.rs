//! The errors that the library reports.

use vstd::prelude::*;

verus! {

/// Why an operation did not go through.
#[derive(Clone, Copy, Debug, PartialEq, Eq, Structural)]
pub enum Error {
    /// The entry, block or snapshot is not there.
    EntryNotFound,
    /// The block is not in the block store.
    BlockNotFound,
    /// An entry stands in the way: the new version does not dominate it.
    EntryExists,
    /// A file was asked for and the entry is a directory.
    EntryIsDirectory,
    /// A directory was asked for and the entry is a file.
    EntryNotDirectory,
    /// The directory still has entries.
    DirectoryNotEmpty,
    /// The access mode at hand does not permit the operation.
    PermissionDenied,
    /// Data could not be decoded, or a hash or signature did not match.
    MalformedData,
    /// Decryption failed.
    Crypto,
    /// The operation is not available here.
    OperationNotSupported,
}

} // verus!
