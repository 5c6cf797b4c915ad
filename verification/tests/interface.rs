use ouisync_core::directory::EntryType;
use ouisync_core::error::Error;
use ouisync_core::interface::{
    access_mode_from_num, access_mode_to_num, bind_addrs, check_is_directory, copy_goes_on, device_id_step,
    encode_error, entry_type_or_invalid, entry_type_to_num, expect_file, local_access_for, network_event_to_num,
    parse_mount_point, permissions, readdir_plan, store_kind, to_error_code, AccessMode, ConfigRead, DeviceIdStep,
    ErrorCode, KeyGuard, LocalAccess, LogLevel, NetworkEvent, ReaddirPlan, StoreKind, ENTRY_TYPE_DIRECTORY,
    ENTRY_TYPE_FILE, ENTRY_TYPE_INVALID,
};
use ouisync_core::network_state::{BoundAddr, Family, Transport};

#[test]
fn access_mode_constants() {
    for mode in [AccessMode::Blind, AccessMode::Read, AccessMode::Write] {
        assert_eq!(access_mode_from_num(access_mode_to_num(mode)).unwrap(), mode);
    }
}

#[test]
fn access_mode_numbers() {
    assert_eq!(access_mode_to_num(AccessMode::Blind), 0);
    assert_eq!(access_mode_to_num(AccessMode::Read), 1);
    assert_eq!(access_mode_to_num(AccessMode::Write), 2);
    assert_eq!(access_mode_from_num(3).unwrap_err(), Error::MalformedData);
    assert_eq!(access_mode_from_num(255).unwrap_err(), Error::MalformedData);
}

#[test]
fn higher_modes_allow_what_lower_ones_allow() {
    assert!(AccessMode::Write.allows(AccessMode::Read));
    assert!(AccessMode::Write.allows(AccessMode::Blind));
    assert!(AccessMode::Read.allows(AccessMode::Read));
    assert!(!AccessMode::Read.allows(AccessMode::Write));
    assert!(!AccessMode::Blind.allows(AccessMode::Read));
    assert_eq!(AccessMode::Blind.check(AccessMode::Write), Err(Error::PermissionDenied));
    assert_eq!(AccessMode::Write.check(AccessMode::Write), Ok(()));
}

#[test]
fn log_level_numbers() {
    let levels = [LogLevel::Error, LogLevel::Warn, LogLevel::Info, LogLevel::Debug, LogLevel::Trace];
    for (index, level) in levels.into_iter().enumerate() {
        assert_eq!(level.to_num() as usize, index + 1);
        assert_eq!(LogLevel::from_num(level.to_num()), Some(level));
    }
    assert_eq!(LogLevel::from_num(0), None);
    assert_eq!(LogLevel::from_num(6), None);
}

#[test]
fn entry_type_numbers() {
    assert_eq!(entry_type_to_num(EntryType::File), ENTRY_TYPE_FILE);
    assert_eq!(entry_type_to_num(EntryType::Directory), ENTRY_TYPE_DIRECTORY);
    assert_eq!((ENTRY_TYPE_INVALID, ENTRY_TYPE_FILE, ENTRY_TYPE_DIRECTORY), (0, 1, 2));

    assert_eq!(entry_type_or_invalid(Ok(EntryType::Directory)), Ok(2));
    assert_eq!(entry_type_or_invalid(Err(Error::EntryNotFound)), Ok(0));
    assert_eq!(entry_type_or_invalid(Err(Error::PermissionDenied)), Err(Error::PermissionDenied));
}

#[test]
fn network_event_numbers() {
    assert_eq!(network_event_to_num(NetworkEvent::ProtocolVersionMismatch), 0);
    assert_eq!(network_event_to_num(NetworkEvent::PeerSetChange), 1);
}

#[test]
fn error_is_encoded_as_code_and_message() {
    assert_eq!(encode_error(0x0102, b"hi"), vec![1, 2, b'h', b'i']);
    assert_eq!(encode_error(7, b""), vec![0, 7]);
}

#[test]
fn local_access_follows_passwords_and_token() {
    let blind = LocalAccess { read: KeyGuard::Unavailable, write: KeyGuard::Unavailable };
    for read in [false, true] {
        for write in [false, true] {
            assert_eq!(local_access_for(read, write, AccessMode::Blind), blind);
        }
    }
    for write in [false, true] {
        assert_eq!(
            local_access_for(false, write, AccessMode::Read),
            LocalAccess { read: KeyGuard::Open, write: KeyGuard::Unavailable }
        );
        assert_eq!(
            local_access_for(true, write, AccessMode::Read),
            LocalAccess { read: KeyGuard::Password, write: KeyGuard::Unavailable }
        );
    }
    assert_eq!(
        local_access_for(false, false, AccessMode::Write),
        LocalAccess { read: KeyGuard::Open, write: KeyGuard::Open }
    );
    assert_eq!(
        local_access_for(true, false, AccessMode::Write),
        LocalAccess { read: KeyGuard::Password, write: KeyGuard::Unavailable }
    );
    assert_eq!(
        local_access_for(false, true, AccessMode::Write),
        LocalAccess { read: KeyGuard::Open, write: KeyGuard::Password }
    );
    assert_eq!(
        local_access_for(true, true, AccessMode::Write),
        LocalAccess { read: KeyGuard::Password, write: KeyGuard::Password }
    );
}

#[test]
fn given_addresses_are_bound_in_order() {
    let addr = |transport, family, port| BoundAddr { transport, family, port, is_unspecified: true, is_global: false };
    let quic_v6 = addr(Transport::Quic, Family::V6, 2);
    let tcp_v4 = addr(Transport::Tcp, Family::V4, 3);
    assert_eq!(bind_addrs(None, Some(quic_v6), Some(tcp_v4), None), vec![quic_v6, tcp_v4]);
    assert!(bind_addrs(None, None, None, None).is_empty());
}

#[test]
fn mount_point_is_split_at_the_first_colon() {
    assert_eq!(parse_mount_point(b"repo:/mnt/x"), Some((b"repo".to_vec(), b"/mnt/x".to_vec())));
    assert_eq!(parse_mount_point(b"a:b:c"), Some((b"a".to_vec(), b"b:c".to_vec())));
    assert_eq!(parse_mount_point(b":"), Some((vec![], vec![])));
    assert_eq!(parse_mount_point(b"no colon"), None);
    assert_eq!(parse_mount_point(b""), None);
}

#[test]
fn small_decisions() {
    assert_eq!(store_kind(true), StoreKind::Memory);
    assert_eq!(store_kind(false), StoreKind::File);

    assert_eq!(device_id_step(ConfigRead::Found), DeviceIdStep::Use);
    assert_eq!(device_id_step(ConfigRead::NotFound), DeviceIdStep::Generate);
    assert_eq!(device_id_step(ConfigRead::Failed), DeviceIdStep::Fail);

    assert!(copy_goes_on(32, 32));
    assert!(!copy_goes_on(31, 32));
    assert!(!copy_goes_on(0, 32));
}

#[test]
fn errors_for_the_kernel() {
    assert_eq!(to_error_code(Error::MalformedData), ErrorCode::Io);
    assert_eq!(to_error_code(Error::Crypto), ErrorCode::Io);
    assert_eq!(to_error_code(Error::BlockNotFound), ErrorCode::NoEntry);
    assert_eq!(to_error_code(Error::EntryNotFound), ErrorCode::NoEntry);
    assert_eq!(to_error_code(Error::EntryExists), ErrorCode::Exists);
    assert_eq!(to_error_code(Error::EntryNotDirectory), ErrorCode::NotDirectory);
    assert_eq!(to_error_code(Error::EntryIsDirectory), ErrorCode::IsDirectory);
    assert_eq!(to_error_code(Error::DirectoryNotEmpty), ErrorCode::NotEmpty);
    assert_eq!(to_error_code(Error::PermissionDenied), ErrorCode::AccessDenied);
    assert_eq!(to_error_code(Error::OperationNotSupported), ErrorCode::NotSupported);
}

#[test]
fn entries_of_a_mounted_file_system() {
    assert_eq!(check_is_directory(EntryType::Directory), Ok(()));
    assert_eq!(check_is_directory(EntryType::File), Err(Error::EntryNotDirectory));
    assert_eq!(expect_file(EntryType::File), Ok(()));
    assert_eq!(expect_file(EntryType::Directory), Err(Error::EntryIsDirectory));
    assert_eq!(permissions(EntryType::File), 0o444);
    assert_eq!(permissions(EntryType::Directory), 0o555);
}

#[test]
fn directory_listing_goes_on_from_an_offset() {
    assert_eq!(readdir_plan(-1, true), None);
    // A directory with a parent: `.` has offset 1, `..` offset 2, and the
    // entry at position k the offset k + 3.
    assert_eq!(
        readdir_plan(0, true),
        Some(ReaddirPlan { emit_dot: true, emit_dotdot: true, skip: 0, offset_base: 3 })
    );
    assert_eq!(
        readdir_plan(1, true),
        Some(ReaddirPlan { emit_dot: false, emit_dotdot: true, skip: 0, offset_base: 3 })
    );
    assert_eq!(
        readdir_plan(2, true),
        Some(ReaddirPlan { emit_dot: false, emit_dotdot: false, skip: 0, offset_base: 3 })
    );
    assert_eq!(
        readdir_plan(5, true),
        Some(ReaddirPlan { emit_dot: false, emit_dotdot: false, skip: 3, offset_base: 3 })
    );
    // The root has no `..`: the entry at position k has the offset k + 2.
    assert_eq!(
        readdir_plan(0, false),
        Some(ReaddirPlan { emit_dot: true, emit_dotdot: false, skip: 0, offset_base: 2 })
    );
    assert_eq!(
        readdir_plan(1, false),
        Some(ReaddirPlan { emit_dot: false, emit_dotdot: false, skip: 0, offset_base: 2 })
    );
    assert_eq!(
        readdir_plan(4, false),
        Some(ReaddirPlan { emit_dot: false, emit_dotdot: false, skip: 3, offset_base: 2 })
    );
}
