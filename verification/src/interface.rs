//! What the outer layers of the system agree on with the core: the numbers
//! that stand for modes and types, how errors are encoded, and small
//! decisions of the command line and of the mounted file system.

use crate::directory::EntryType;
use crate::error::Error;
use crate::network_state::BoundAddr;
use vstd::prelude::*;

verus! {

/// How much a message in the log matters.
#[derive(Clone, Copy, Debug, PartialEq, Eq, Structural)]
pub enum LogLevel {
    Error,
    Warn,
    Info,
    Debug,
    Trace,
}

impl LogLevel {
    /// The number that stands for a level: one for errors up to five for traces.
    pub open spec fn spec_to_num(self) -> u8 {
        match self {
            LogLevel::Error => 1,
            LogLevel::Warn => 2,
            LogLevel::Info => 3,
            LogLevel::Debug => 4,
            LogLevel::Trace => 5,
        }
    }

    /// The number that stands for a level.
    pub fn to_num(self) -> (r: u8)
        ensures
            r == self.spec_to_num(),
    {
        match self {
            LogLevel::Error => 1,
            LogLevel::Warn => 2,
            LogLevel::Info => 3,
            LogLevel::Debug => 4,
            LogLevel::Trace => 5,
        }
    }

    /// The level that a number stands for, if it stands for one.
    pub fn from_num(num: u8) -> (r: Option<Self>)
        ensures
            match r {
                Some(level) => level.spec_to_num() == num,
                None => num == 0 || num > 5,
            },
    {
        if num == 1 {
            Some(LogLevel::Error)
        } else if num == 2 {
            Some(LogLevel::Warn)
        } else if num == 3 {
            Some(LogLevel::Info)
        } else if num == 4 {
            Some(LogLevel::Debug)
        } else if num == 5 {
            Some(LogLevel::Trace)
        } else {
            None
        }
    }
}

/// What the holder of a repository may do with it. A higher mode allows
/// what the lower ones allow.
#[derive(Clone, Copy, Debug, PartialEq, Eq, Structural)]
pub enum AccessMode {
    Blind,
    Read,
    Write,
}

pub const ACCESS_MODE_BLIND: u8 = 0;

pub const ACCESS_MODE_READ: u8 = 1;

pub const ACCESS_MODE_WRITE: u8 = 2;

pub const ENTRY_TYPE_INVALID: u8 = 0;

pub const ENTRY_TYPE_FILE: u8 = 1;

pub const ENTRY_TYPE_DIRECTORY: u8 = 2;

pub const NETWORK_EVENT_PROTOCOL_VERSION_MISMATCH: u8 = 0;

pub const NETWORK_EVENT_PEER_SET_CHANGE: u8 = 1;

impl AccessMode {
    /// The number that stands for a mode.
    pub open spec fn spec_to_num(self) -> u8 {
        match self {
            AccessMode::Blind => ACCESS_MODE_BLIND,
            AccessMode::Read => ACCESS_MODE_READ,
            AccessMode::Write => ACCESS_MODE_WRITE,
        }
    }

    /// Whether the mode allows what `needed` allows.
    pub fn allows(self, needed: AccessMode) -> (r: bool)
        ensures
            r == (needed.spec_to_num() <= self.spec_to_num()),
    {
        access_mode_to_num(needed) <= access_mode_to_num(self)
    }

    /// Refuses an operation that needs more than the mode allows.
    pub fn check(self, needed: AccessMode) -> (r: Result<(), Error>)
        ensures
            match r {
                Ok(_) => needed.spec_to_num() <= self.spec_to_num(),
                Err(e) => e == Error::PermissionDenied && needed.spec_to_num() > self.spec_to_num(),
            },
    {
        if self.allows(needed) {
            Ok(())
        } else {
            Err(Error::PermissionDenied)
        }
    }
}

/// The mode that a number stands for.
pub fn access_mode_from_num(num: u8) -> (r: Result<AccessMode, Error>)
    ensures
        match r {
            Ok(mode) => mode.spec_to_num() == num,
            Err(e) => e == Error::MalformedData && num > ACCESS_MODE_WRITE,
        },
{
    if num == ACCESS_MODE_BLIND {
        Ok(AccessMode::Blind)
    } else if num == ACCESS_MODE_READ {
        Ok(AccessMode::Read)
    } else if num == ACCESS_MODE_WRITE {
        Ok(AccessMode::Write)
    } else {
        Err(Error::MalformedData)
    }
}

/// The number that stands for a mode.
pub fn access_mode_to_num(mode: AccessMode) -> (r: u8)
    ensures
        r == mode.spec_to_num(),
{
    match mode {
        AccessMode::Blind => ACCESS_MODE_BLIND,
        AccessMode::Read => ACCESS_MODE_READ,
        AccessMode::Write => ACCESS_MODE_WRITE,
    }
}

/// The number that stands for the type of an entry.
pub fn entry_type_to_num(entry_type: EntryType) -> (r: u8)
    ensures
        r == (match entry_type {
            EntryType::File => ENTRY_TYPE_FILE,
            EntryType::Directory => ENTRY_TYPE_DIRECTORY,
        }),
{
    match entry_type {
        EntryType::File => ENTRY_TYPE_FILE,
        EntryType::Directory => ENTRY_TYPE_DIRECTORY,
    }
}

/// The number for what a lookup of an entry has given: the number of its
/// type, or the one for "no such entry" where there is none. Any other
/// failure stays a failure.
pub fn entry_type_or_invalid(lookup: Result<EntryType, Error>) -> (r: Result<u8, Error>)
    ensures
        r == (match lookup {
            Ok(EntryType::File) => Ok::<u8, Error>(ENTRY_TYPE_FILE),
            Ok(EntryType::Directory) => Ok::<u8, Error>(ENTRY_TYPE_DIRECTORY),
            Err(Error::EntryNotFound) => Ok::<u8, Error>(ENTRY_TYPE_INVALID),
            Err(e) => Err::<u8, Error>(e),
        }),
{
    match lookup {
        Ok(entry_type) => Ok(entry_type_to_num(entry_type)),
        Err(Error::EntryNotFound) => Ok(ENTRY_TYPE_INVALID),
        Err(e) => Err(e),
    }
}

/// An event of the network that subscribers are told of.
#[derive(Clone, Copy, Debug, PartialEq, Eq, Structural)]
pub enum NetworkEvent {
    ProtocolVersionMismatch,
    PeerSetChange,
}

/// The number that stands for a network event.
pub fn network_event_to_num(event: NetworkEvent) -> (r: u8)
    ensures
        r == (match event {
            NetworkEvent::ProtocolVersionMismatch => NETWORK_EVENT_PROTOCOL_VERSION_MISMATCH,
            NetworkEvent::PeerSetChange => NETWORK_EVENT_PEER_SET_CHANGE,
        }),
{
    match event {
        NetworkEvent::ProtocolVersionMismatch => NETWORK_EVENT_PROTOCOL_VERSION_MISMATCH,
        NetworkEvent::PeerSetChange => NETWORK_EVENT_PEER_SET_CHANGE,
    }
}

/// An error as bytes: its code as two bytes, the higher first, then its message.
pub open spec fn spec_encode_error(code: u16, message: Seq<u8>) -> Seq<u8> {
    seq![(code >> 8) as u8, code as u8] + message
}

/// Encodes an error for the caller on the other side of the interface.
pub fn encode_error(code: u16, message: &[u8]) -> (r: Vec<u8>)
    ensures
        r@ == spec_encode_error(code, message@),
{
    let mut out: Vec<u8> = Vec::new();
    out.push((code >> 8) as u8);
    out.push(code as u8);
    let mut i: usize = 0;
    while i < message.len()
        invariant
            0 <= i <= message@.len(),
            out@ == seq![(code >> 8) as u8, code as u8] + message@.take(i as int),
        decreases message@.len() - i,
    {
        out.push(message[i]);
        assert(message@.take(i + 1) =~= message@.take(i as int).push(message@[i as int]));
        assert(out@ =~= seq![(code >> 8) as u8, code as u8] + message@.take(i + 1));
        i = i + 1;
    }
    assert(message@.take(message@.len() as int) =~= message@);
    out
}

/// How a local password guards a kind of access.
#[derive(Clone, Copy, Debug, PartialEq, Eq, Structural)]
pub enum KeyGuard {
    /// This kind of access is not to be had.
    Unavailable,
    /// To be had without a password.
    Open,
    /// To be had with the password.
    Password,
}

/// How reading and writing a repository are guarded locally.
#[derive(Clone, Copy, Debug, PartialEq, Eq, Structural)]
pub struct LocalAccess {
    pub read: KeyGuard,
    pub write: KeyGuard,
}

/// How a new repository is guarded, given which local passwords were set
/// and what the share token allows. A blind token gives a blind replica. A
/// read token gives reading, with the read password where one was set. A
/// write token gives reading likewise; writing is open where no password
/// was set at all, needs the write password where one was set, and is not
/// to be had where only a read password was set.
pub fn local_access_for(has_read_password: bool, has_write_password: bool, token: AccessMode) -> (r: LocalAccess)
    ensures
        r == (match token {
            AccessMode::Blind => LocalAccess { read: KeyGuard::Unavailable, write: KeyGuard::Unavailable },
            AccessMode::Read => LocalAccess {
                read: if has_read_password { KeyGuard::Password } else { KeyGuard::Open },
                write: KeyGuard::Unavailable,
            },
            AccessMode::Write => LocalAccess {
                read: if has_read_password { KeyGuard::Password } else { KeyGuard::Open },
                write: if has_write_password {
                    KeyGuard::Password
                } else if has_read_password {
                    KeyGuard::Unavailable
                } else {
                    KeyGuard::Open
                },
            },
        }),
{
    let read = if has_read_password {
        KeyGuard::Password
    } else {
        KeyGuard::Open
    };
    match token {
        AccessMode::Blind => LocalAccess { read: KeyGuard::Unavailable, write: KeyGuard::Unavailable },
        AccessMode::Read => LocalAccess { read, write: KeyGuard::Unavailable },
        AccessMode::Write => {
            let write = if has_write_password {
                KeyGuard::Password
            } else if has_read_password {
                KeyGuard::Unavailable
            } else {
                KeyGuard::Open
            };
            LocalAccess { read, write }
        },
    }
}

/// The addresses to bind to, of those that were given: QUIC over IPv4 and
/// IPv6, then TCP over IPv4 and IPv6.
pub fn bind_addrs(
    quic_v4: Option<BoundAddr>,
    quic_v6: Option<BoundAddr>,
    tcp_v4: Option<BoundAddr>,
    tcp_v6: Option<BoundAddr>,
) -> (r: Vec<BoundAddr>)
    ensures
        r@ == given(quic_v4) + given(quic_v6) + given(tcp_v4) + given(tcp_v6),
{
    let mut out: Vec<BoundAddr> = Vec::new();
    match quic_v4 {
        Some(addr) => {
            out.push(addr);
        },
        None => {},
    }
    match quic_v6 {
        Some(addr) => {
            out.push(addr);
        },
        None => {},
    }
    match tcp_v4 {
        Some(addr) => {
            out.push(addr);
        },
        None => {},
    }
    match tcp_v6 {
        Some(addr) => {
            out.push(addr);
        },
        None => {},
    }
    assert(out@ =~= given(quic_v4) + given(quic_v6) + given(tcp_v4) + given(tcp_v6));
    out
}

/// An address that may not have been given, as a sequence of one or none.
pub open spec fn given(addr: Option<BoundAddr>) -> Seq<BoundAddr> {
    match addr {
        Some(addr) => seq![addr],
        None => Seq::empty(),
    }
}

/// Where a database is kept.
#[derive(Clone, Copy, Debug, PartialEq, Eq, Structural)]
pub enum StoreKind {
    /// In memory, gone when the program ends.
    Memory,
    /// In a file.
    File,
}

/// Where the databases are kept: in memory if temporary ones were asked for.
pub fn store_kind(temp: bool) -> (r: StoreKind)
    ensures
        r == (if temp {
            StoreKind::Memory
        } else {
            StoreKind::File
        }),
{
    if temp {
        StoreKind::Memory
    } else {
        StoreKind::File
    }
}

/// `i` is the position of the first colon in `input`.
pub open spec fn first_colon(input: Seq<u8>, i: int) -> bool {
    &&& 0 <= i < input.len()
    &&& input[i] == 58u8
    &&& forall|j: int| 0 <= j < i ==> input[j] != 58u8
}

/// Reads a mount point of the form `NAME:PATH`: the name is what stands
/// before the first colon, the path what stands behind it. Without a colon
/// there is no mount point.
pub fn parse_mount_point(input: &[u8]) -> (r: Option<(Vec<u8>, Vec<u8>)>)
    ensures
        match r {
            Some(pair) => exists|i: int| #[trigger]
                first_colon(input@, i) && pair.0@ == input@.take(i) && pair.1@ == input@.skip(i + 1),
            None => forall|j: int| 0 <= j < input@.len() ==> input@[j] != 58u8,
        },
{
    let mut i: usize = 0;
    while i < input.len()
        invariant
            0 <= i <= input@.len(),
            forall|j: int| 0 <= j < i ==> input@[j] != 58u8,
        decreases input@.len() - i,
    {
        if input[i] == 58u8 {
            let mut name: Vec<u8> = Vec::new();
            let mut k: usize = 0;
            while k < i
                invariant
                    0 <= k <= i < input@.len(),
                    name@ == input@.take(k as int),
                decreases i - k,
            {
                name.push(input[k]);
                assert(input@.take(k + 1) =~= input@.take(k as int).push(input@[k as int]));
                k = k + 1;
            }
            let mut path: Vec<u8> = Vec::new();
            let mut m: usize = i + 1;
            assert(input@.subrange(i + 1, i + 1) =~= Seq::<u8>::empty());
            while m < input.len()
                invariant
                    i + 1 <= m <= input@.len(),
                    path@ == input@.subrange(i + 1, m as int),
                decreases input@.len() - m,
            {
                path.push(input[m]);
                assert(input@.subrange(i + 1, m + 1) =~= input@.subrange(i + 1, m as int).push(input@[m as int]));
                m = m + 1;
            }
            assert(input@.subrange(i + 1, input@.len() as int) =~= input@.skip(i + 1));
            assert(first_colon(input@, i as int));
            return Some((name, path));
        }
        i = i + 1;
    }
    None
}

/// What reading the device id from the configuration has given.
#[derive(Clone, Copy, Debug, PartialEq, Eq, Structural)]
pub enum ConfigRead {
    Found,
    NotFound,
    Failed,
}

/// What to do about the device id.
#[derive(Clone, Copy, Debug, PartialEq, Eq, Structural)]
pub enum DeviceIdStep {
    /// Use the id that was read.
    Use,
    /// Make up a new id and store it.
    Generate,
    /// Report the failure.
    Fail,
}

/// What to do about the device id, given what reading it has given: an id
/// that is there is used, one that is not there is made up, and any other
/// failure is reported.
pub fn device_id_step(read: ConfigRead) -> (r: DeviceIdStep)
    ensures
        r == (match read {
            ConfigRead::Found => DeviceIdStep::Use,
            ConfigRead::NotFound => DeviceIdStep::Generate,
            ConfigRead::Failed => DeviceIdStep::Fail,
        }),
{
    match read {
        ConfigRead::Found => DeviceIdStep::Use,
        ConfigRead::NotFound => DeviceIdStep::Generate,
        ConfigRead::Failed => DeviceIdStep::Fail,
    }
}

/// Whether copying a file goes on after a read: it does as long as a read
/// fills the buffer.
pub fn copy_goes_on(read_len: usize, buffer_len: usize) -> (r: bool)
    ensures
        r == (read_len >= buffer_len),
{
    read_len >= buffer_len
}

/// What a mounted file system tells the kernel of an error.
#[derive(Clone, Copy, Debug, PartialEq, Eq, Structural)]
pub enum ErrorCode {
    /// Input or output failed.
    Io,
    /// No such entry.
    NoEntry,
    /// The entry exists.
    Exists,
    /// Not a directory.
    NotDirectory,
    /// Is a directory.
    IsDirectory,
    /// The directory is not empty.
    NotEmpty,
    /// Not permitted.
    AccessDenied,
    /// Not supported.
    NotSupported,
}

/// What a mounted file system tells the kernel of an error.
pub fn to_error_code(error: Error) -> (r: ErrorCode)
    ensures
        r == (match error {
            Error::MalformedData | Error::Crypto => ErrorCode::Io,
            Error::BlockNotFound | Error::EntryNotFound => ErrorCode::NoEntry,
            Error::EntryExists => ErrorCode::Exists,
            Error::EntryNotDirectory => ErrorCode::NotDirectory,
            Error::EntryIsDirectory => ErrorCode::IsDirectory,
            Error::DirectoryNotEmpty => ErrorCode::NotEmpty,
            Error::PermissionDenied => ErrorCode::AccessDenied,
            Error::OperationNotSupported => ErrorCode::NotSupported,
        }),
{
    match error {
        Error::MalformedData | Error::Crypto => ErrorCode::Io,
        Error::BlockNotFound | Error::EntryNotFound => ErrorCode::NoEntry,
        Error::EntryExists => ErrorCode::Exists,
        Error::EntryNotDirectory => ErrorCode::NotDirectory,
        Error::EntryIsDirectory => ErrorCode::IsDirectory,
        Error::DirectoryNotEmpty => ErrorCode::NotEmpty,
        Error::PermissionDenied => ErrorCode::AccessDenied,
        Error::OperationNotSupported => ErrorCode::NotSupported,
    }
}

/// Refuses an entry that is not a directory.
pub fn check_is_directory(entry_type: EntryType) -> (r: Result<(), Error>)
    ensures
        r == (match entry_type {
            EntryType::Directory => Ok::<(), Error>(()),
            EntryType::File => Err::<(), Error>(Error::EntryNotDirectory),
        }),
{
    match entry_type {
        EntryType::Directory => Ok(()),
        EntryType::File => Err(Error::EntryNotDirectory),
    }
}

/// Takes an entry for a file, and refuses a directory.
pub fn expect_file(entry_type: EntryType) -> (r: Result<(), Error>)
    ensures
        r == (match entry_type {
            EntryType::File => Ok::<(), Error>(()),
            EntryType::Directory => Err::<(), Error>(Error::EntryIsDirectory),
        }),
{
    match entry_type {
        EntryType::File => Ok(()),
        EntryType::Directory => Err(Error::EntryIsDirectory),
    }
}

/// The permission bits of an entry in a mounted file system: read for
/// files, read and search for directories.
pub fn permissions(entry_type: EntryType) -> (r: u16)
    ensures
        r == (match entry_type {
            EntryType::File => 0o444u16,
            EntryType::Directory => 0o555u16,
        }),
{
    match entry_type {
        EntryType::File => 0o444,
        EntryType::Directory => 0o555,
    }
}

/// How a directory listing goes on from an offset.
#[derive(Clone, Copy, Debug, PartialEq, Eq, Structural)]
pub struct ReaddirPlan {
    /// List the directory itself, as `.`, with the next offset one.
    pub emit_dot: bool,
    /// List the parent, as `..`, with the next offset two.
    pub emit_dotdot: bool,
    /// The number of entries of the directory to pass over.
    pub skip: u64,
    /// What is added to the position of an entry to get the offset behind it.
    pub offset_base: u64,
}

/// How a directory listing goes on from `offset`. The root, which has no
/// parent, lists no `..`; the entries follow `.` and `..`. A negative
/// offset is refused.
pub fn readdir_plan(offset: i64, has_parent: bool) -> (r: Option<ReaddirPlan>)
    ensures
        match r {
            Some(plan) => offset >= 0 && plan.emit_dot == (offset == 0) && plan.emit_dotdot == (offset <= 1
                && has_parent) && plan.offset_base == (if has_parent { 3int } else { 2int }) && plan.skip == (if offset
                >= plan.offset_base - 1 {
                offset - (plan.offset_base - 1)
            } else {
                0
            }),
            None => offset < 0,
        },
{
    if offset < 0 {
        return None;
    }
    let first: u64 = if has_parent {
        2
    } else {
        1
    };
    let at = offset as u64;
    let skip = if at >= first {
        at - first
    } else {
        0
    };
    Some(ReaddirPlan { emit_dot: offset == 0, emit_dotdot: offset <= 1 && has_parent, skip, offset_base: first + 1 })
}

/// What a component of a path is.
#[derive(Clone, Copy, Debug, PartialEq, Eq, Structural)]
pub enum PathComponentKind {
    /// A drive or the like in front of the path.
    Prefix,
    /// The root.
    RootDir,
    /// The directory itself, written as a dot.
    CurDir,
    /// The parent, written as two dots.
    ParentDir,
    /// A name.
    Normal,
}

/// What walking a path does at a component.
#[derive(Clone, Copy, Debug, PartialEq, Eq, Structural)]
pub enum PathStep {
    /// Stay in the directory.
    Stay,
    /// Go into the entry of this name, making the directory if need be.
    Descend,
}

/// What walking a path does at a component: the root and the dot change
/// nothing, a name leads one level down, and paths that are not
/// normalised, or that carry a prefix, are refused.
pub fn path_step(kind: PathComponentKind) -> (r: Result<PathStep, Error>)
    ensures
        r == (match kind {
            PathComponentKind::RootDir | PathComponentKind::CurDir => Ok::<PathStep, Error>(PathStep::Stay),
            PathComponentKind::Normal => Ok::<PathStep, Error>(PathStep::Descend),
            PathComponentKind::Prefix | PathComponentKind::ParentDir => Err::<PathStep, Error>(
                Error::OperationNotSupported,
            ),
        }),
{
    match kind {
        PathComponentKind::RootDir | PathComponentKind::CurDir => Ok(PathStep::Stay),
        PathComponentKind::Normal => Ok(PathStep::Descend),
        PathComponentKind::Prefix | PathComponentKind::ParentDir => Err(Error::OperationNotSupported),
    }
}

} // verus!
