//! Decisions of the network layer that depend on nothing but state: which
//! components run, what a set of bound addresses allows, and what follows
//! from a handshake.

use crate::hash::hash_eq;
use vstd::prelude::*;

verus! {

/// Why a component does not run.
#[derive(Clone, Copy, Debug, PartialEq, Eq, Structural)]
pub enum DisableReason {
    /// Switched off because the network as a whole cannot support it.
    Implicit,
    /// Switched off by request.
    Explicit,
}

/// A component of the network that runs, holding what it needs to run, or
/// is switched off for a reason.
#[derive(Debug)]
pub enum ComponentState<T> {
    Enabled(T),
    Disabled(DisableReason),
}

impl<T> ComponentState<T> {
    /// A component that is switched off.
    pub fn disabled(reason: DisableReason) -> (r: Self)
        ensures
            r == ComponentState::<T>::Disabled(reason),
    {
        ComponentState::Disabled(reason)
    }

    pub fn is_enabled(&self) -> (r: bool)
        ensures
            r == (*self is Enabled),
    {
        match self {
            ComponentState::Enabled(_) => true,
            ComponentState::Disabled(_) => false,
        }
    }

    /// Whether the component is switched off for this very reason.
    pub fn is_disabled(&self, reason: DisableReason) -> (r: bool)
        ensures
            r == (*self == ComponentState::<T>::Disabled(reason)),
    {
        match self {
            ComponentState::Disabled(current) => *current == reason,
            ComponentState::Enabled(_) => false,
        }
    }

    /// Switches the component off and hands back what it ran with.
    pub fn disable(&mut self, reason: DisableReason) -> (r: Option<T>)
        ensures
            *final(self) == ComponentState::<T>::Disabled(reason),
            r == (match *old(self) {
                ComponentState::Enabled(payload) => Some(payload),
                ComponentState::Disabled(_) => None,
            }),
    {
        let mut previous = ComponentState::Disabled(reason);
        core::mem::swap(self, &mut previous);
        match previous {
            ComponentState::Enabled(payload) => Some(payload),
            ComponentState::Disabled(_) => None,
        }
    }

    /// Switches the component off if it runs; one that is off stays off
    /// for the reason it had.
    pub fn disable_if_enabled(&mut self, reason: DisableReason) -> (r: Option<T>)
        ensures
            *final(self) == (if *old(self) is Enabled {
                ComponentState::<T>::Disabled(reason)
            } else {
                *old(self)
            }),
            r == (match *old(self) {
                ComponentState::Enabled(payload) => Some(payload),
                ComponentState::Disabled(_) => None,
            }),
    {
        if self.is_enabled() {
            self.disable(reason)
        } else {
            None
        }
    }

    /// Switches the component on with `payload` and hands back what it ran
    /// with before.
    pub fn enable(&mut self, payload: T) -> (r: Option<T>)
        ensures
            *final(self) == ComponentState::<T>::Enabled(payload),
            r == (match *old(self) {
                ComponentState::Enabled(previous) => Some(previous),
                ComponentState::Disabled(_) => None,
            }),
    {
        let mut previous = ComponentState::Enabled(payload);
        core::mem::swap(self, &mut previous);
        match previous {
            ComponentState::Enabled(payload) => Some(payload),
            ComponentState::Disabled(_) => None,
        }
    }
}

/// The transport of a peer address.
#[derive(Clone, Copy, Debug, PartialEq, Eq, Structural)]
pub enum Transport {
    Quic,
    Tcp,
}

/// The address family of a peer address.
#[derive(Clone, Copy, Debug, PartialEq, Eq, Structural)]
pub enum Family {
    V4,
    V6,
}

/// What the network layer reads of an address that it is bound to.
#[derive(Clone, Copy, Debug, PartialEq, Eq, Structural)]
pub struct BoundAddr {
    pub transport: Transport,
    pub family: Family,
    pub port: u16,
    /// The address is the unspecified one of its family.
    pub is_unspecified: bool,
    /// The address is globally routable.
    pub is_global: bool,
}

/// What a set of bound addresses allows.
#[derive(Clone, Copy, Debug, PartialEq, Eq, Structural)]
pub enum Connectivity {
    /// Bound to nothing.
    Disabled,
    /// Bound to local addresses only.
    LocalOnly,
    /// Bound to an address that the outside can reach.
    Full,
}

/// Some address of `addrs` is unspecified or global.
pub open spec fn reaches_outside(addrs: Seq<BoundAddr>) -> bool {
    exists|i: int| 0 <= i < addrs.len() && ((#[trigger] addrs[i]).is_unspecified || addrs[i].is_global)
}

impl Connectivity {
    /// What `addrs` allows, as a specification.
    pub open spec fn spec_infer(addrs: Seq<BoundAddr>) -> Connectivity {
        if addrs.len() == 0 {
            Connectivity::Disabled
        } else if reaches_outside(addrs) {
            Connectivity::Full
        } else {
            Connectivity::LocalOnly
        }
    }

    /// What a set of bound addresses allows.
    pub fn infer(addrs: &Vec<BoundAddr>) -> (r: Self)
        ensures
            r == Self::spec_infer(addrs@),
    {
        if addrs.len() == 0 {
            return Connectivity::Disabled;
        }
        let mut i: usize = 0;
        while i < addrs.len()
            invariant
                0 <= i <= addrs@.len(),
                forall|j: int| 0 <= j < i ==> !((#[trigger] addrs@[j]).is_unspecified || addrs@[j].is_global),
            decreases addrs@.len() - i,
        {
            if addrs[i].is_unspecified || addrs[i].is_global {
                return Connectivity::Full;
            }
            i = i + 1;
        }
        Connectivity::LocalOnly
    }
}

/// What to do about a component when the network is bound anew or the
/// user asks for the component.
#[derive(Clone, Copy, Debug, PartialEq, Eq, Structural)]
pub enum ComponentAction {
    /// Leave it as it is.
    Keep,
    /// Start it, in place of what runs.
    Start,
    /// Switch it off for the given reason.
    Stop(DisableReason),
}

/// What to do about port forwarding after the network was bound: with full
/// connectivity it starts unless the user has switched it off; otherwise a
/// running one stops.
pub fn port_forwarding_on_bind<T>(state: &ComponentState<T>, connectivity: Connectivity) -> (r: ComponentAction)
    ensures
        r == (match connectivity {
            Connectivity::Full => if *state == ComponentState::<T>::Disabled(DisableReason::Explicit) {
                ComponentAction::Keep
            } else {
                ComponentAction::Start
            },
            _ => if *state is Enabled {
                ComponentAction::Stop(DisableReason::Implicit)
            } else {
                ComponentAction::Keep
            },
        }),
{
    match connectivity {
        Connectivity::Full => {
            if state.is_disabled(DisableReason::Explicit) {
                ComponentAction::Keep
            } else {
                ComponentAction::Start
            }
        },
        Connectivity::LocalOnly | Connectivity::Disabled => {
            if state.is_enabled() {
                ComponentAction::Stop(DisableReason::Implicit)
            } else {
                ComponentAction::Keep
            }
        },
    }
}

/// What to do about local discovery after the network was bound: unless
/// the user has switched it off, it starts where there is a port to
/// announce and stops where there is none.
pub fn local_discovery_on_bind<T>(state: &ComponentState<T>, has_port: bool) -> (r: ComponentAction)
    ensures
        r == (if *state == ComponentState::<T>::Disabled(DisableReason::Explicit) {
            ComponentAction::Keep
        } else if has_port {
            ComponentAction::Start
        } else {
            ComponentAction::Stop(DisableReason::Implicit)
        }),
{
    if state.is_disabled(DisableReason::Explicit) {
        ComponentAction::Keep
    } else if has_port {
        ComponentAction::Start
    } else {
        ComponentAction::Stop(DisableReason::Implicit)
    }
}

/// What to do when the user switches a component on or off: switching on
/// what runs changes nothing; switching on starts it where `can_start`
/// says that it can run, and else notes that it cannot; switching off
/// stops it.
pub fn component_on_request<T>(state: &ComponentState<T>, enabled: bool, can_start: bool) -> (r: ComponentAction)
    ensures
        r == (if enabled {
            if *state is Enabled {
                ComponentAction::Keep
            } else if can_start {
                ComponentAction::Start
            } else {
                ComponentAction::Stop(DisableReason::Implicit)
            }
        } else {
            ComponentAction::Stop(DisableReason::Explicit)
        }),
{
    if enabled {
        if state.is_enabled() {
            ComponentAction::Keep
        } else if can_start {
            ComponentAction::Start
        } else {
            ComponentAction::Stop(DisableReason::Implicit)
        }
    } else {
        ComponentAction::Stop(DisableReason::Explicit)
    }
}

/// Whether the peers are to be disconnected after the network was bound:
/// with anything less than full connectivity they are.
pub fn disconnects_on_bind(connectivity: Connectivity) -> (r: bool)
    ensures
        r == (connectivity != Connectivity::Full),
{
    match connectivity {
        Connectivity::Full => false,
        Connectivity::LocalOnly | Connectivity::Disabled => true,
    }
}

/// The port that local discovery announces.
#[derive(Clone, Copy, Debug, PartialEq, Eq, Structural)]
pub enum PeerPort {
    Tcp(u16),
    Quic(u16),
}

/// `i` is the first position of `addrs` with this transport over IPv4.
pub open spec fn first_v4(addrs: Seq<BoundAddr>, transport: Transport, i: int) -> bool {
    &&& 0 <= i < addrs.len()
    &&& addrs[i].transport == transport
    &&& addrs[i].family == Family::V4
    &&& forall|j: int| 0 <= j < i ==> !((#[trigger] addrs[j]).transport == transport && addrs[j].family == Family::V4)
}

/// No address of `addrs` has this transport over IPv4.
pub open spec fn no_v4(addrs: Seq<BoundAddr>, transport: Transport) -> bool {
    forall|j: int| 0 <= j < addrs.len() ==> !((#[trigger] addrs[j]).transport == transport && addrs[j].family == Family::V4)
}

/// Finds the first address with this transport over IPv4.
pub fn find_first_v4(addrs: &Vec<BoundAddr>, transport: Transport) -> (r: Option<usize>)
    ensures
        match r {
            Some(i) => first_v4(addrs@, transport, i as int),
            None => no_v4(addrs@, transport),
        },
{
    let mut i: usize = 0;
    while i < addrs.len()
        invariant
            0 <= i <= addrs@.len(),
            forall|j: int| 0 <= j < i ==> !((#[trigger] addrs@[j]).transport == transport && addrs@[j].family == Family::V4),
        decreases addrs@.len() - i,
    {
        if addrs[i].transport == transport && addrs[i].family == Family::V4 {
            return Some(i);
        }
        i = i + 1;
    }
    None
}

/// The port that local discovery announces: that of the first TCP listener
/// over IPv4, else that of the first QUIC listener over IPv4, else none.
pub fn local_discovery_port(addrs: &Vec<BoundAddr>) -> (r: Option<PeerPort>)
    ensures
        match r {
            Some(PeerPort::Tcp(port)) => exists|i: int| #[trigger] first_v4(addrs@, Transport::Tcp, i) && addrs@[i].port == port,
            Some(PeerPort::Quic(port)) => no_v4(addrs@, Transport::Tcp) && exists|i: int| #[trigger]
                first_v4(addrs@, Transport::Quic, i) && addrs@[i].port == port,
            None => no_v4(addrs@, Transport::Tcp) && no_v4(addrs@, Transport::Quic),
        },
{
    match find_first_v4(addrs, Transport::Tcp) {
        Some(i) => Some(PeerPort::Tcp(addrs[i].port)),
        None => match find_first_v4(addrs, Transport::Quic) {
            Some(i) => Some(PeerPort::Quic(addrs[i].port)),
            None => None,
        },
    }
}

/// The protocol that a port mapping is for.
#[derive(Clone, Copy, Debug, PartialEq, Eq, Structural)]
pub enum IpProtocol {
    Udp,
    Tcp,
}

/// A port to be forwarded by the gateway.
#[derive(Clone, Copy, Debug, PartialEq, Eq, Structural)]
pub struct PortMapping {
    pub internal: u16,
    pub external: u16,
    pub protocol: IpProtocol,
}

/// The mapping for one listener over IPv4: its port to the same port, UDP
/// for QUIC and TCP for TCP.
pub open spec fn mapping_of(addr: BoundAddr) -> PortMapping {
    PortMapping {
        internal: addr.port,
        external: addr.port,
        protocol: match addr.transport {
            Transport::Quic => IpProtocol::Udp,
            Transport::Tcp => IpProtocol::Tcp,
        },
    }
}

/// The mappings for the listeners `addrs`: one for each over IPv4, in order.
pub open spec fn spec_port_mappings(addrs: Seq<BoundAddr>) -> Seq<PortMapping>
    decreases addrs.len(),
{
    if addrs.len() == 0 {
        Seq::empty()
    } else if addrs.last().family == Family::V4 {
        spec_port_mappings(addrs.drop_last()).push(mapping_of(addrs.last()))
    } else {
        spec_port_mappings(addrs.drop_last())
    }
}

/// The ports to be forwarded for the given listeners.
pub fn port_mappings(addrs: &Vec<BoundAddr>) -> (r: Vec<PortMapping>)
    ensures
        r@ == spec_port_mappings(addrs@),
{
    let mut out: Vec<PortMapping> = Vec::new();
    let mut i: usize = 0;
    assert(addrs@.take(0) =~= Seq::<BoundAddr>::empty());
    while i < addrs.len()
        invariant
            0 <= i <= addrs@.len(),
            out@ == spec_port_mappings(addrs@.take(i as int)),
        decreases addrs@.len() - i,
    {
        let addr = addrs[i];
        proof {
            let next = addrs@.take(i + 1);
            assert(next.drop_last() =~= addrs@.take(i as int));
            assert(next.last() == addr);
        }
        match addr.family {
            Family::V4 => {
                let protocol = match addr.transport {
                    Transport::Quic => IpProtocol::Udp,
                    Transport::Tcp => IpProtocol::Tcp,
                };
                out.push(PortMapping { internal: addr.port, external: addr.port, protocol });
            },
            Family::V6 => {},
        }
        i = i + 1;
    }
    assert(addrs@.take(addrs@.len() as int) =~= addrs@);
    out
}

/// The highest version seen, after a peer has announced `their_version`.
pub open spec fn highest_after(highest_seen: u32, their_version: u32) -> u32 {
    if highest_seen < their_version {
        their_version
    } else {
        highest_seen
    }
}

/// Notes that a peer has announced a protocol version above ours. Returns
/// whether the observers are to be told: the version is above every
/// version seen so far.
pub fn on_protocol_mismatch(highest_seen: &mut u32, our_version: u32, their_version: u32) -> (notify: bool)
    requires
        our_version < their_version,
    ensures
        notify == (*old(highest_seen) < their_version),
        *final(highest_seen) == highest_after(*old(highest_seen), their_version),
{
    if *highest_seen < their_version {
        *highest_seen = their_version;
        true
    } else {
        false
    }
}

/// Each version that peers announce is told to the observers once: after a
/// version was noted, noting it again tells nobody and changes nothing.
pub proof fn law_mismatch_told_once(highest_seen: u32, their_version: u32)
    ensures
        !(highest_after(highest_seen, their_version) < their_version),
        highest_after(highest_after(highest_seen, their_version), their_version) == highest_after(
            highest_seen,
            their_version,
        ),
{
}

/// Why a handshake failed.
#[derive(Clone, Copy, Debug, PartialEq, Eq, Structural)]
pub enum HandshakeError {
    /// The peer speaks a later version of the protocol.
    ProtocolVersionMismatch(u32),
    /// The peer did not open with the magic bytes.
    BadMagic,
    /// The peer took too long.
    Timeout,
    /// The transport failed.
    Fatal,
}

/// The bytes that open a connection: the magic bytes, then the protocol
/// version as four bytes, the most significant first.
pub open spec fn spec_handshake_prefix(magic: Seq<u8>, version: u32) -> Seq<u8> {
    magic + seq![(version >> 24) as u8, (version >> 16) as u8, (version >> 8) as u8, version as u8]
}

/// The bytes that open a connection.
pub fn encode_handshake_prefix(magic: &[u8; 4], version: u32) -> (r: Vec<u8>)
    ensures
        r@ == spec_handshake_prefix(magic@, version),
{
    let mut out: Vec<u8> = Vec::new();
    out.push(magic[0]);
    out.push(magic[1]);
    out.push(magic[2]);
    out.push(magic[3]);
    out.push((version >> 24) as u8);
    out.push((version >> 16) as u8);
    out.push((version >> 8) as u8);
    out.push(version as u8);
    assert(out@ =~= spec_handshake_prefix(magic@, version));
    out
}

/// The version that four bytes stand for, the most significant first.
pub open spec fn spec_version_from_bytes(b0: u8, b1: u8, b2: u8, b3: u8) -> u32 {
    ((b0 as u32) << 24) | ((b1 as u32) << 16) | ((b2 as u32) << 8) | (b3 as u32)
}

/// Reads what opens a connection and judges it: the first four bytes must
/// be the magic bytes, and the version that follows must not be above ours.
/// Returns the peer's version.
pub fn check_handshake_prefix(magic: &[u8; 4], our_version: u32, received: &[u8; 8]) -> (r: Result<u32, HandshakeError>)
    ensures
        match r {
            Ok(version) => received@.take(4) == magic@ && version == spec_version_from_bytes(
                received[4],
                received[5],
                received[6],
                received[7],
            ) && version <= our_version,
            Err(e) => if received@.take(4) == magic@ {
                e == HandshakeError::ProtocolVersionMismatch(
                    spec_version_from_bytes(received[4], received[5], received[6], received[7]),
                ) && spec_version_from_bytes(received[4], received[5], received[6], received[7]) > our_version
            } else {
                e == HandshakeError::BadMagic
            },
        },
{
    if received[0] != magic[0] || received[1] != magic[1] || received[2] != magic[2] || received[3] != magic[3] {
        proof {
            if received@.take(4) == magic@ {
                assert(received@.take(4)[0] == magic@[0]);
                assert(received@.take(4)[1] == magic@[1]);
                assert(received@.take(4)[2] == magic@[2]);
                assert(received@.take(4)[3] == magic@[3]);
            }
        }
        return Err(HandshakeError::BadMagic);
    }
    assert(received@.take(4) =~= magic@);
    let version = ((received[4] as u32) << 24) | ((received[5] as u32) << 16) | ((received[6] as u32) << 8) | (
    received[7] as u32);
    if version > our_version {
        Err(HandshakeError::ProtocolVersionMismatch(version))
    } else {
        Ok(version)
    }
}

/// Reading back the version from the bytes that encode it gives the version.
pub proof fn law_version_round_trip(version: u32)
    ensures
        spec_version_from_bytes((version >> 24) as u8, (version >> 16) as u8, (version >> 8) as u8, version as u8)
            == version,
{
    assert(((((version >> 24) as u8) as u32) << 24) | ((((version >> 16) as u8) as u32) << 16) | ((((version >> 8) as u8) as u32)
        << 8) | ((version as u8) as u32) == version) by (bit_vector);
}

/// What becomes of a connection after the handshake.
#[derive(Clone, Copy, Debug, PartialEq, Eq, Structural)]
pub enum HandshakeVerdict {
    /// The peer speaks a later version: tell the observers and drop it.
    Mismatch(u32),
    /// The handshake failed otherwise: drop the connection.
    Failed,
    /// The peer is this very replica: note its address as our own and drop it.
    SelfConnection,
    /// The connection is in order.
    Proceed,
}

/// Judges the outcome of a handshake. `peer` is the runtime id that the
/// peer has proved to hold, or why the handshake failed.
pub fn judge_handshake(this_runtime_id: &crate::hash::Hash, peer: &Result<crate::hash::Hash, HandshakeError>) -> (r:
    HandshakeVerdict)
    ensures
        r == (match *peer {
            Ok(that) => if that == *this_runtime_id {
                HandshakeVerdict::SelfConnection
            } else {
                HandshakeVerdict::Proceed
            },
            Err(HandshakeError::ProtocolVersionMismatch(version)) => HandshakeVerdict::Mismatch(version),
            Err(_) => HandshakeVerdict::Failed,
        }),
{
    match peer {
        Ok(that) => {
            if hash_eq(that, this_runtime_id) {
                HandshakeVerdict::SelfConnection
            } else {
                HandshakeVerdict::Proceed
            }
        },
        Err(HandshakeError::ProtocolVersionMismatch(version)) => HandshakeVerdict::Mismatch(*version),
        Err(_) => HandshakeVerdict::Failed,
    }
}

} // verus!
