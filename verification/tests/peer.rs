use ouisync_core::connection::Endpoint;
use ouisync_core::error::Error;
use ouisync_core::interface::{path_step, PathComponentKind, PathStep};
use ouisync_core::network_state::{Connectivity, HandshakeVerdict};
use ouisync_core::peer::{
    after_reserve, begin_attempt, metadata_flag, reconnects, uses_side_channels, AttemptStep, BrokerSet,
    ConnectionEvent, ConnectionState, NetworkCore, PeerSource, ReserveStep, INITIAL_RETRY_INTERVAL_MS,
    MAX_RETRY_INTERVAL_MS,
};

const PEER0: [u8; 32] = [1u8; 32];
const PEER1: [u8; 32] = [2u8; 32];

fn endpoint(port: u16) -> Endpoint {
    Endpoint { is_v6: false, ip: 0x0a00_0001, port }
}

#[test]
fn connection_goes_from_connecting_to_released() {
    let state = ConnectionState::Connecting;
    assert!(state.retries_on_failure());

    let state = state.next(ConnectionEvent::Connected);
    assert!(matches!(state, ConnectionState::Handshaking));
    assert!(state.retries_on_failure());

    let state = state.next(ConnectionEvent::HandshakeDone(PEER0));
    assert!(matches!(state, ConnectionState::Active(peer) if peer == PEER0));
    assert!(!state.retries_on_failure());

    let state = state.next(ConnectionEvent::Ended);
    assert!(matches!(state, ConnectionState::Released));
    assert!(matches!(state.next(ConnectionEvent::Connected), ConnectionState::Released));
    assert!(matches!(state.next(ConnectionEvent::HandshakeDone(PEER0)), ConnectionState::Released));
}

#[test]
fn events_out_of_turn_change_nothing() {
    assert!(matches!(
        ConnectionState::Connecting.next(ConnectionEvent::HandshakeDone(PEER0)),
        ConnectionState::Connecting
    ));
    assert!(matches!(
        ConnectionState::Active(PEER0).next(ConnectionEvent::HandshakeDone(PEER1)),
        ConnectionState::Active(peer) if peer == PEER0
    ));
    assert!(matches!(ConnectionState::Handshaking.next(ConnectionEvent::Ended), ConnectionState::Released));
}

#[test]
fn attempts_to_reach_a_peer() {
    assert_eq!(begin_attempt(false, true, false), AttemptStep::Proceed);
    assert_eq!(begin_attempt(true, true, false), AttemptStep::Stop);
    assert_eq!(begin_attempt(false, false, false), AttemptStep::Stop);
    assert_eq!(begin_attempt(false, true, true), AttemptStep::Stop);

    assert_eq!(after_reserve(PeerSource::Dht, None), ReserveStep::Connect);
    assert_eq!(after_reserve(PeerSource::Dht, Some(PeerSource::Dht)), ReserveStep::Stop);
    assert_eq!(after_reserve(PeerSource::Dht, Some(PeerSource::Listener)), ReserveStep::AwaitRelease);

    assert!(reconnects(HandshakeVerdict::Proceed, false));
    assert!(!reconnects(HandshakeVerdict::Proceed, true));
    assert!(!reconnects(HandshakeVerdict::Failed, false));
    assert!(!reconnects(HandshakeVerdict::SelfConnection, false));
    assert!(!reconnects(HandshakeVerdict::Mismatch(9), false));

    assert_eq!((INITIAL_RETRY_INTERVAL_MS, MAX_RETRY_INTERVAL_MS), (100, 8000));
}

#[test]
fn settings_default_to_off() {
    assert!(metadata_flag(Ok(Some(true))));
    assert!(!metadata_flag(Ok(Some(false))));
    assert!(!metadata_flag(Ok(None)));
    assert!(!metadata_flag(Err(())));

    assert!(uses_side_channels(Connectivity::Full));
    assert!(!uses_side_channels(Connectivity::LocalOnly));
    assert!(!uses_side_channels(Connectivity::Disabled));
}

#[test]
fn network_notes_versions_and_own_addresses() {
    let mut network = NetworkCore::new(3);
    assert_eq!(network.highest_seen_protocol_version, 3);
    assert!(!network.is_shutdown);

    // A peer that is one version ahead: the observers are told once.
    assert!(network.on_handshake(endpoint(1), HandshakeVerdict::Mismatch(4)));
    assert!(!network.on_handshake(endpoint(2), HandshakeVerdict::Mismatch(4)));
    assert_eq!(network.highest_seen_protocol_version, 4);
    assert_eq!(network.this_version, 3);

    assert!(!network.is_own_address(&endpoint(1)));
    assert!(!network.on_handshake(endpoint(1), HandshakeVerdict::SelfConnection));
    assert!(network.is_own_address(&endpoint(1)));
    assert!(!network.is_own_address(&endpoint(2)));
    assert!(!network.on_handshake(endpoint(1), HandshakeVerdict::SelfConnection));
    assert_eq!(network.our_addresses.len(), 1);

    assert!(!network.on_handshake(endpoint(3), HandshakeVerdict::Proceed));
    assert!(!network.on_handshake(endpoint(3), HandshakeVerdict::Failed));
    assert!(!network.is_own_address(&endpoint(3)));

    assert!(network.shutdown());
    assert!(!network.shutdown());
    assert!(network.is_shutdown);
}

#[test]
fn a_broker_lives_as_long_as_it_has_connections() {
    let mut brokers = BrokerSet::new();
    assert!(!brokers.has_broker(&PEER0));

    assert!(brokers.add_connection(PEER0));
    assert!(!brokers.add_connection(PEER0));
    assert!(brokers.add_connection(PEER1));

    assert!(!brokers.remove_connection(&PEER0));
    assert!(brokers.has_broker(&PEER0));
    assert_eq!(brokers.connection_count(&PEER0), 1);
    assert_eq!(brokers.connection_count(&PEER1), 1);
    assert!(brokers.remove_connection(&PEER0));
    assert_eq!(brokers.connection_count(&PEER0), 0);
    assert!(!brokers.has_broker(&PEER0));
    assert!(!brokers.remove_connection(&PEER0));
    assert!(brokers.has_broker(&PEER1));
}

#[test]
fn walking_a_path() {
    assert_eq!(path_step(PathComponentKind::RootDir), Ok(PathStep::Stay));
    assert_eq!(path_step(PathComponentKind::CurDir), Ok(PathStep::Stay));
    assert_eq!(path_step(PathComponentKind::Normal), Ok(PathStep::Descend));
    assert_eq!(path_step(PathComponentKind::ParentDir), Err(Error::OperationNotSupported));
    assert_eq!(path_step(PathComponentKind::Prefix), Err(Error::OperationNotSupported));
}
