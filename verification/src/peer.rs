//! Connections to peers: the life of one connection, the attempts to reach
//! a peer, and the brokers that hold the connections to each peer.

use crate::assoc::{
    assoc_map, distinct_keys, has_key, lemma_assoc_absent, lemma_assoc_at, lemma_assoc_push, lemma_assoc_remove,
    lemma_assoc_update,
};
use crate::connection::Endpoint;
use crate::hash::hash_eq;
use crate::network_state::{highest_after, HandshakeVerdict};
use vstd::prelude::*;

verus! {

/// Milliseconds to wait before the second attempt to reach a peer.
pub const INITIAL_RETRY_INTERVAL_MS: u64 = 100;

/// Milliseconds beyond which the wait between attempts does not grow.
pub const MAX_RETRY_INTERVAL_MS: u64 = 8000;

/// How a peer came to be known.
#[derive(Clone, Copy, Debug, PartialEq, Eq, Structural)]
pub enum PeerSource {
    UserProvided,
    Listener,
    LocalDiscovery,
    Dht,
    PeerExchange,
}

/// Where a connection stands.
#[derive(Clone, Copy, Debug)]
pub enum ConnectionState {
    Connecting,
    Handshaking,
    /// Up, with the peer of this runtime id.
    Active(crate::hash::Hash),
    Released,
}

/// What happens to a connection.
#[derive(Clone, Copy, Debug)]
pub enum ConnectionEvent {
    /// The transport is up.
    Connected,
    /// The handshake went through with the peer of this runtime id.
    HandshakeDone(crate::hash::Hash),
    /// Something failed, or the connection has ended.
    Ended,
}

impl ConnectionState {
    /// The state that follows, as a specification: a connection goes from
    /// connecting over the handshake to active, and from anywhere to
    /// released. An event that does not fit leaves the state as it is.
    pub open spec fn spec_next(self, event: ConnectionEvent) -> ConnectionState {
        match (self, event) {
            (ConnectionState::Released, _) => ConnectionState::Released,
            (_, ConnectionEvent::Ended) => ConnectionState::Released,
            (ConnectionState::Connecting, ConnectionEvent::Connected) => ConnectionState::Handshaking,
            (ConnectionState::Handshaking, ConnectionEvent::HandshakeDone(peer)) => ConnectionState::Active(peer),
            (state, _) => state,
        }
    }

    /// The state that follows an event.
    pub fn next(self, event: ConnectionEvent) -> (r: Self)
        ensures
            r == self.spec_next(event),
    {
        match (self, event) {
            (ConnectionState::Released, _) => ConnectionState::Released,
            (_, ConnectionEvent::Ended) => ConnectionState::Released,
            (ConnectionState::Connecting, ConnectionEvent::Connected) => ConnectionState::Handshaking,
            (ConnectionState::Handshaking, ConnectionEvent::HandshakeDone(peer)) => ConnectionState::Active(peer),
            (state, _) => state,
        }
    }

    /// Whether a failure now is one to try again after: the connection
    /// has not become active yet.
    pub fn retries_on_failure(&self) -> (r: bool)
        ensures
            r == (*self is Connecting || *self is Handshaking),
    {
        match self {
            ConnectionState::Connecting | ConnectionState::Handshaking => true,
            ConnectionState::Active(_) | ConnectionState::Released => false,
        }
    }
}

/// A released connection stays released, and a connection becomes active
/// only through a handshake.
pub proof fn law_connection_life(state: ConnectionState, event: ConnectionEvent)
    ensures
        state is Released ==> state.spec_next(event) is Released,
        state.spec_next(event) is Active && !(state is Active) ==> state is Handshaking && event is HandshakeDone,
{
}

/// What an attempt to reach a peer does first.
#[derive(Clone, Copy, Debug, PartialEq, Eq, Structural)]
pub enum AttemptStep {
    /// Give the peer up: the network is shut down, the peer is not seen
    /// any more, or its address is our own.
    Stop,
    /// Wait as the backoff says, then reserve the connection.
    Proceed,
}

/// What an attempt to reach a peer does first.
pub fn begin_attempt(is_shutdown: bool, addr_is_seen: bool, addr_is_own: bool) -> (r: AttemptStep)
    ensures
        r == (if is_shutdown || !addr_is_seen || addr_is_own {
            AttemptStep::Stop
        } else {
            AttemptStep::Proceed
        }),
{
    if is_shutdown || !addr_is_seen || addr_is_own {
        AttemptStep::Stop
    } else {
        AttemptStep::Proceed
    }
}

/// What an attempt does once it has asked for the connection to the peer.
#[derive(Clone, Copy, Debug, PartialEq, Eq, Structural)]
pub enum ReserveStep {
    /// The connection is ours: connect.
    Connect,
    /// Someone who knows the peer from the same source holds it: give up.
    Stop,
    /// Someone who knows the peer from another source holds it: wait for
    /// the release, then try again.
    AwaitRelease,
}

/// What an attempt does once it has asked for the connection. `holder` is
/// the source of whoever holds the connection, if someone does.
pub fn after_reserve(source: PeerSource, holder: Option<PeerSource>) -> (r: ReserveStep)
    ensures
        r == (match holder {
            None => ReserveStep::Connect,
            Some(theirs) => if theirs == source {
                ReserveStep::Stop
            } else {
                ReserveStep::AwaitRelease
            },
        }),
{
    match holder {
        None => ReserveStep::Connect,
        Some(theirs) => if theirs == source {
            ReserveStep::Stop
        } else {
            ReserveStep::AwaitRelease
        },
    }
}

/// Whether the peer is worth another attempt once a connection to it has
/// ended: it is where the handshake went through with a peer other than
/// ourselves and the network was not shut down meanwhile.
pub fn reconnects(verdict: HandshakeVerdict, is_shutdown: bool) -> (r: bool)
    ensures
        r == (verdict == HandshakeVerdict::Proceed && !is_shutdown),
{
    match verdict {
        HandshakeVerdict::Proceed => !is_shutdown,
        _ => false,
    }
}

/// What a stored setting says, read with a default: a setting that is not
/// stored, or that cannot be read, counts as off.
pub fn metadata_flag(read: Result<Option<bool>, ()>) -> (r: bool)
    ensures
        r == (match read {
            Ok(Some(value)) => value,
            _ => false,
        }),
{
    match read {
        Ok(Some(value)) => value,
        _ => false,
    }
}

/// Whether the discovery over the wider network gets sockets to work
/// with: only where the bound addresses reach outside.
pub fn uses_side_channels(connectivity: crate::network_state::Connectivity) -> (r: bool)
    ensures
        r == (connectivity == crate::network_state::Connectivity::Full),
{
    match connectivity {
        crate::network_state::Connectivity::Full => true,
        _ => false,
    }
}

/// The plain state of the network: whether it was shut down, the highest
/// protocol version that a peer has announced, and the addresses that have
/// turned out to be our own.
#[derive(Debug)]
pub struct NetworkCore {
    pub this_version: u32,
    pub highest_seen_protocol_version: u32,
    pub is_shutdown: bool,
    pub our_addresses: Vec<Endpoint>,
}

impl NetworkCore {
    /// The state of a network that has just been made: it runs, has seen
    /// no version but its own, and knows none of its addresses.
    pub fn new(this_version: u32) -> (r: Self)
        ensures
            r.this_version == this_version,
            r.highest_seen_protocol_version == this_version,
            !r.is_shutdown,
            r.our_addresses@ == Seq::<Endpoint>::empty(),
    {
        NetworkCore {
            this_version,
            highest_seen_protocol_version: this_version,
            is_shutdown: false,
            our_addresses: Vec::new(),
        }
    }

    /// Whether the address has turned out to be our own.
    pub fn is_own_address(&self, addr: &Endpoint) -> (r: bool)
        ensures
            r == self.our_addresses@.contains(*addr),
    {
        let mut i: usize = 0;
        while i < self.our_addresses.len()
            invariant
                0 <= i <= self.our_addresses@.len(),
                forall|j: int| 0 <= j < i ==> self.our_addresses@[j] != *addr,
            decreases self.our_addresses@.len() - i,
        {
            if self.our_addresses[i] == *addr {
                return true;
            }
            i = i + 1;
        }
        false
    }

    /// Notes an address as our own.
    pub fn note_own_address(&mut self, addr: Endpoint)
        ensures
            final(self).our_addresses@.to_set() == old(self).our_addresses@.to_set().insert(addr),
            final(self).this_version == old(self).this_version,
            final(self).highest_seen_protocol_version == old(self).highest_seen_protocol_version,
            final(self).is_shutdown == old(self).is_shutdown,
    {
        if !self.is_own_address(&addr) {
            self.our_addresses.push(addr);
            proof {
                assert forall|x: Endpoint| self.our_addresses@.contains(x) <==> old(self).our_addresses@.contains(x) || x
                    == addr by {
                    crate::idset::lemma_push_contains(old(self).our_addresses@, addr, x);
                }
            }
        }
        assert(self.our_addresses@.to_set() =~= old(self).our_addresses@.to_set().insert(addr));
    }

    /// Shuts the network down. Returns whether it ran until now.
    pub fn shutdown(&mut self) -> (r: bool)
        ensures
            r == !old(self).is_shutdown,
            final(self).is_shutdown,
            final(self).our_addresses == old(self).our_addresses,
            final(self).this_version == old(self).this_version,
            final(self).highest_seen_protocol_version == old(self).highest_seen_protocol_version,
    {
        let ran = !self.is_shutdown;
        self.is_shutdown = true;
        ran
    }

    /// Takes in the verdict on a handshake with the peer at `addr`: a later
    /// version is noted, and an address of ourselves is noted as our own.
    /// Returns whether the observers of protocol versions are to be told.
    pub fn on_handshake(&mut self, addr: Endpoint, verdict: HandshakeVerdict) -> (notify: bool)
        ensures
            final(self).this_version == old(self).this_version,
            final(self).is_shutdown == old(self).is_shutdown,
            match verdict {
                HandshakeVerdict::Mismatch(version) => notify == (old(self).highest_seen_protocol_version < version)
                    && final(self).highest_seen_protocol_version == highest_after(
                    old(self).highest_seen_protocol_version,
                    version,
                ) && final(self).our_addresses == old(self).our_addresses,
                HandshakeVerdict::SelfConnection => !notify && final(self).highest_seen_protocol_version == old(
                    self,
                ).highest_seen_protocol_version && final(self).our_addresses@.to_set() == old(
                    self,
                ).our_addresses@.to_set().insert(addr),
                _ => !notify && final(self).highest_seen_protocol_version == old(self).highest_seen_protocol_version
                    && final(self).our_addresses == old(self).our_addresses,
            },
    {
        match verdict {
            HandshakeVerdict::Mismatch(version) => {
                if self.highest_seen_protocol_version < version {
                    self.highest_seen_protocol_version = version;
                    true
                } else {
                    false
                }
            },
            HandshakeVerdict::SelfConnection => {
                self.note_own_address(addr);
                false
            },
            _ => false,
        }
    }
}

/// The connections that the broker of one peer holds, by their number.
#[derive(Clone, Copy, Debug)]
pub struct BrokerEntry {
    pub peer: crate::hash::Hash,
    pub connections: usize,
}

/// The peer of a broker.
pub open spec fn peer_of() -> spec_fn(BrokerEntry) -> crate::hash::Hash {
    |e: BrokerEntry| e.peer
}

/// The number of connections of a broker.
pub open spec fn connections_of() -> spec_fn(BrokerEntry) -> usize {
    |e: BrokerEntry| e.connections
}

/// The brokers: one for each peer that we are connected to.
#[derive(Debug)]
pub struct BrokerSet {
    brokers: Vec<BrokerEntry>,
}

impl View for BrokerSet {
    type V = Map<crate::hash::Hash, usize>;

    closed spec fn view(&self) -> Map<crate::hash::Hash, usize> {
        assoc_map(self.brokers@, peer_of(), connections_of())
    }
}

impl BrokerSet {
    /// Each peer has one broker, and each broker has a connection.
    pub closed spec fn wf(&self) -> bool {
        &&& distinct_keys(self.brokers@, peer_of())
        &&& forall|i: int| 0 <= i < self.brokers@.len() ==> (#[trigger] self.brokers@[i]).connections > 0
    }

    /// Each broker of a set in order has a connection.
    pub proof fn law_brokers_have_connections(&self, peer: crate::hash::Hash)
        requires
            self.wf(),
            self@.dom().contains(peer),
        ensures
            self@[peer] > 0,
    {
        let i = crate::assoc::index_of(self.brokers@, peer_of(), peer);
        lemma_assoc_at(self.brokers@, peer_of(), connections_of(), i);
    }

    pub fn new() -> (r: Self)
        ensures
            r.wf(),
            r@ == Map::<crate::hash::Hash, usize>::empty(),
    {
        let r = BrokerSet { brokers: Vec::new() };
        assert(r@ =~= Map::<crate::hash::Hash, usize>::empty());
        r
    }

    /// Finds the broker of a peer.
    fn find(&self, peer: &crate::hash::Hash) -> (r: Option<usize>)
        ensures
            match r {
                Some(i) => i < self.brokers@.len() && self.brokers@[i as int].peer == *peer,
                None => !self@.dom().contains(*peer),
            },
    {
        let mut i: usize = 0;
        while i < self.brokers.len()
            invariant
                0 <= i <= self.brokers@.len(),
                forall|j: int| 0 <= j < i ==> (#[trigger] self.brokers@[j]).peer != *peer,
            decreases self.brokers@.len() - i,
        {
            if hash_eq(&self.brokers[i].peer, peer) {
                return Some(i);
            }
            i = i + 1;
        }
        proof {
            assert forall|j: int| 0 <= j < self.brokers@.len() implies peer_of()(#[trigger] self.brokers@[j]) != *peer by {
                assert(self.brokers@[j].peer != *peer);
            }
            lemma_assoc_absent(self.brokers@, peer_of(), connections_of(), *peer);
        }
        None
    }

    /// Counts a new connection to a peer. Returns whether a broker is to
    /// be made for the peer: it had none.
    pub fn add_connection(&mut self, peer: crate::hash::Hash) -> (created: bool)
        requires
            old(self).wf(),
            old(self)@.dom().contains(peer) ==> old(self)@[peer] < usize::MAX,
        ensures
            final(self).wf(),
            created == !old(self)@.dom().contains(peer),
            final(self)@ == old(self)@.insert(
                peer,
                if old(self)@.dom().contains(peer) {
                    (old(self)@[peer] + 1) as usize
                } else {
                    1
                },
            ),
    {
        match self.find(&peer) {
            Some(i) => {
                proof {
                    lemma_assoc_at(self.brokers@, peer_of(), connections_of(), i as int);
                }
                self.brokers[i].connections = self.brokers[i].connections + 1;
                proof {
                    assert(peer_of()(self.brokers@[i as int]) == peer_of()(old(self).brokers@[i as int]));
                    lemma_assoc_update(old(self).brokers@, peer_of(), connections_of(), i as int, self.brokers@);
                    assert forall|j: int| 0 <= j < self.brokers@.len() implies (#[trigger] self.brokers@[j]).connections
                        > 0 by {
                        if j != i {
                            assert(self.brokers@[j] == old(self).brokers@[j]);
                        }
                    }
                }
                false
            },
            None => {
                let entry = BrokerEntry { peer, connections: 1 };
                proof {
                    assert(peer_of()(entry) == peer);
                    assert(!has_key(self.brokers@, peer_of(), peer));
                    lemma_assoc_push(self.brokers@, peer_of(), connections_of(), entry);
                    assert forall|j: int| 0 <= j < self.brokers@.push(entry).len() implies (#[trigger] self.brokers@.push(
                        entry,
                    )[j]).connections > 0 by {
                        if j < self.brokers@.len() {
                            assert(self.brokers@.push(entry)[j] == self.brokers@[j]);
                        }
                    }
                }
                self.brokers.push(entry);
                true
            },
        }
    }

    /// Counts out a connection to a peer that has ended. Returns whether
    /// the broker of the peer is to be removed: it has no connection left.
    pub fn remove_connection(&mut self, peer: &crate::hash::Hash) -> (removed: bool)
        requires
            old(self).wf(),
        ensures
            final(self).wf(),
            removed == (old(self)@.dom().contains(*peer) && old(self)@[*peer] == 1),
            final(self)@ == (if !old(self)@.dom().contains(*peer) {
                old(self)@
            } else if old(self)@[*peer] == 1 {
                old(self)@.remove(*peer)
            } else {
                old(self)@.insert(*peer, (old(self)@[*peer] - 1) as usize)
            }),
    {
        match self.find(peer) {
            Some(i) => {
                proof {
                    lemma_assoc_at(self.brokers@, peer_of(), connections_of(), i as int);
                }
                if self.brokers[i].connections == 1 {
                    proof {
                        lemma_assoc_remove(self.brokers@, peer_of(), connections_of(), i as int);
                    }
                    let _ = self.brokers.remove(i);
                    proof {
                        assert forall|j: int| 0 <= j < self.brokers@.len() implies (#[trigger] self.brokers@[j]).connections
                            > 0 by {
                            let j2 = if j < i { j } else { j + 1 };
                            assert(self.brokers@[j] == old(self).brokers@[j2]);
                        }
                    }
                    true
                } else {
                    self.brokers[i].connections = self.brokers[i].connections - 1;
                    proof {
                        assert(peer_of()(self.brokers@[i as int]) == peer_of()(old(self).brokers@[i as int]));
                        lemma_assoc_update(old(self).brokers@, peer_of(), connections_of(), i as int, self.brokers@);
                        assert forall|j: int| 0 <= j < self.brokers@.len() implies (#[trigger] self.brokers@[j]).connections
                            > 0 by {
                            if j != i {
                                assert(self.brokers@[j] == old(self).brokers@[j]);
                            }
                        }
                    }
                    false
                }
            },
            None => false,
        }
    }

    /// The number of connections to a peer.
    pub fn connection_count(&self, peer: &crate::hash::Hash) -> (r: usize)
        requires
            self.wf(),
        ensures
            r == (if self@.dom().contains(*peer) {
                self@[*peer]
            } else {
                0
            }),
    {
        match self.find(peer) {
            Some(i) => {
                proof {
                    lemma_assoc_at(self.brokers@, peer_of(), connections_of(), i as int);
                }
                self.brokers[i].connections
            },
            None => 0,
        }
    }

    /// Whether a broker for the peer is there.
    pub fn has_broker(&self, peer: &crate::hash::Hash) -> (r: bool)
        requires
            self.wf(),
        ensures
            r == self@.dom().contains(*peer),
    {
        match self.find(peer) {
            Some(i) => {
                proof {
                    lemma_assoc_at(self.brokers@, peer_of(), connections_of(), i as int);
                }
                true
            },
            None => false,
        }
    }
}

} // verus!
