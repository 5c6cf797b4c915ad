use ouisync_core::network_state::{
    check_handshake_prefix, component_on_request, disconnects_on_bind, encode_handshake_prefix, judge_handshake,
    local_discovery_on_bind, local_discovery_port, on_protocol_mismatch, port_forwarding_on_bind, port_mappings,
    BoundAddr, ComponentAction, ComponentState, Connectivity, DisableReason, Family, HandshakeError, HandshakeVerdict,
    IpProtocol, PeerPort, PortMapping, Transport,
};

const MAGIC: [u8; 4] = [9, 8, 7, 6];

fn addr(transport: Transport, family: Family, port: u16, is_unspecified: bool, is_global: bool) -> BoundAddr {
    BoundAddr { transport, family, port, is_unspecified, is_global }
}

#[test]
fn component_state_switches() {
    let mut state: ComponentState<u32> = ComponentState::disabled(DisableReason::Explicit);
    assert!(!state.is_enabled());
    assert!(state.is_disabled(DisableReason::Explicit));
    assert!(!state.is_disabled(DisableReason::Implicit));

    assert_eq!(state.enable(7), None);
    assert!(state.is_enabled());
    assert!(!state.is_disabled(DisableReason::Explicit));
    assert_eq!(state.enable(8), Some(7));

    assert_eq!(state.disable_if_enabled(DisableReason::Implicit), Some(8));
    assert!(state.is_disabled(DisableReason::Implicit));
    // Off already: the reason stays.
    assert_eq!(state.disable_if_enabled(DisableReason::Explicit), None);
    assert!(state.is_disabled(DisableReason::Implicit));

    assert_eq!(state.disable(DisableReason::Explicit), None);
    assert!(state.is_disabled(DisableReason::Explicit));
}

#[test]
fn connectivity_is_inferred_from_the_bound_addresses() {
    assert_eq!(Connectivity::infer(&vec![]), Connectivity::Disabled);
    let local = addr(Transport::Tcp, Family::V4, 1, false, false);
    assert_eq!(Connectivity::infer(&vec![local]), Connectivity::LocalOnly);
    let unspecified = addr(Transport::Quic, Family::V4, 2, true, false);
    assert_eq!(Connectivity::infer(&vec![local, unspecified]), Connectivity::Full);
    let global = addr(Transport::Quic, Family::V6, 3, false, true);
    assert_eq!(Connectivity::infer(&vec![local, global]), Connectivity::Full);
}

#[test]
fn components_follow_the_binding() {
    let off_by_user: ComponentState<u8> = ComponentState::disabled(DisableReason::Explicit);
    let off_by_network: ComponentState<u8> = ComponentState::disabled(DisableReason::Implicit);
    let on: ComponentState<u8> = ComponentState::Enabled(1);

    assert_eq!(port_forwarding_on_bind(&off_by_user, Connectivity::Full), ComponentAction::Keep);
    assert_eq!(port_forwarding_on_bind(&off_by_network, Connectivity::Full), ComponentAction::Start);
    assert_eq!(port_forwarding_on_bind(&on, Connectivity::Full), ComponentAction::Start);
    assert_eq!(
        port_forwarding_on_bind(&on, Connectivity::LocalOnly),
        ComponentAction::Stop(DisableReason::Implicit)
    );
    assert_eq!(port_forwarding_on_bind(&off_by_user, Connectivity::Disabled), ComponentAction::Keep);

    assert_eq!(local_discovery_on_bind(&off_by_user, true), ComponentAction::Keep);
    assert_eq!(local_discovery_on_bind(&off_by_network, true), ComponentAction::Start);
    assert_eq!(local_discovery_on_bind(&on, false), ComponentAction::Stop(DisableReason::Implicit));

    assert_eq!(component_on_request(&on, true, true), ComponentAction::Keep);
    assert_eq!(component_on_request(&off_by_user, true, true), ComponentAction::Start);
    assert_eq!(component_on_request(&off_by_user, true, false), ComponentAction::Stop(DisableReason::Implicit));
    assert_eq!(component_on_request(&on, false, true), ComponentAction::Stop(DisableReason::Explicit));

    assert!(!disconnects_on_bind(Connectivity::Full));
    assert!(disconnects_on_bind(Connectivity::LocalOnly));
    assert!(disconnects_on_bind(Connectivity::Disabled));
}

#[test]
fn local_discovery_prefers_tcp_over_ipv4() {
    let quic4 = addr(Transport::Quic, Family::V4, 10, true, false);
    let tcp6 = addr(Transport::Tcp, Family::V6, 11, true, false);
    let tcp4 = addr(Transport::Tcp, Family::V4, 12, true, false);
    assert_eq!(local_discovery_port(&vec![quic4, tcp6, tcp4]), Some(PeerPort::Tcp(12)));
    assert_eq!(local_discovery_port(&vec![tcp6, quic4]), Some(PeerPort::Quic(10)));
    assert_eq!(local_discovery_port(&vec![tcp6]), None);
}

#[test]
fn ports_are_mapped_for_ipv4_listeners_only() {
    let quic4 = addr(Transport::Quic, Family::V4, 10, true, false);
    let tcp6 = addr(Transport::Tcp, Family::V6, 11, true, false);
    let tcp4 = addr(Transport::Tcp, Family::V4, 12, true, false);
    assert_eq!(
        port_mappings(&vec![quic4, tcp6, tcp4]),
        vec![
            PortMapping { internal: 10, external: 10, protocol: IpProtocol::Udp },
            PortMapping { internal: 12, external: 12, protocol: IpProtocol::Tcp },
        ]
    );
}

#[test]
fn protocol_mismatch_is_told_once_per_new_version() {
    let ours = 5;
    let mut highest = ours;
    assert!(on_protocol_mismatch(&mut highest, ours, ours + 1));
    assert_eq!(highest, 6);
    assert!(!on_protocol_mismatch(&mut highest, ours, ours + 1));
    assert_eq!(highest, 6);
    assert!(on_protocol_mismatch(&mut highest, ours, 9));
    assert_eq!(highest, 9);
    assert!(!on_protocol_mismatch(&mut highest, ours, 7));
    assert_eq!(highest, 9);
}

#[test]
fn handshake_prefix_is_magic_then_version_big_endian() {
    assert_eq!(encode_handshake_prefix(&MAGIC, 0x0102_0304), vec![9, 8, 7, 6, 1, 2, 3, 4]);
    assert_eq!(encode_handshake_prefix(&MAGIC, 1), vec![9, 8, 7, 6, 0, 0, 0, 1]);
}

#[test]
fn handshake_prefix_is_judged() {
    let ours = 7;
    assert_eq!(check_handshake_prefix(&MAGIC, ours, &[9, 8, 7, 6, 0, 0, 0, 7]), Ok(7));
    assert_eq!(check_handshake_prefix(&MAGIC, ours, &[9, 8, 7, 6, 0, 0, 0, 3]), Ok(3));
    assert_eq!(
        check_handshake_prefix(&MAGIC, ours, &[9, 8, 7, 6, 0, 0, 0, 8]),
        Err(HandshakeError::ProtocolVersionMismatch(8))
    );
    assert_eq!(
        check_handshake_prefix(&MAGIC, ours, &[9, 8, 7, 6, 0, 0, 1, 0]),
        Err(HandshakeError::ProtocolVersionMismatch(256))
    );
    assert_eq!(check_handshake_prefix(&MAGIC, ours, &[9, 8, 7, 5, 0, 0, 0, 7]), Err(HandshakeError::BadMagic));

    // What one side encodes, the other reads.
    let sent = encode_handshake_prefix(&MAGIC, 0xDEAD_BEEF);
    let mut received = [0u8; 8];
    received.copy_from_slice(&sent);
    assert_eq!(check_handshake_prefix(&MAGIC, u32::MAX, &received), Ok(0xDEAD_BEEF));
}

#[test]
fn handshake_outcome_is_judged() {
    let this = [1u8; 32];
    let that = [2u8; 32];
    assert_eq!(judge_handshake(&this, &Ok(that)), HandshakeVerdict::Proceed);
    assert_eq!(judge_handshake(&this, &Ok(this)), HandshakeVerdict::SelfConnection);
    assert_eq!(
        judge_handshake(&this, &Err(HandshakeError::ProtocolVersionMismatch(4))),
        HandshakeVerdict::Mismatch(4)
    );
    assert_eq!(judge_handshake(&this, &Err(HandshakeError::BadMagic)), HandshakeVerdict::Failed);
    assert_eq!(judge_handshake(&this, &Err(HandshakeError::Timeout)), HandshakeVerdict::Failed);
    assert_eq!(judge_handshake(&this, &Err(HandshakeError::Fatal)), HandshakeVerdict::Failed);
}
