//! Connection bookkeeping: one connection per peer address, and the sets of
//! readers and writers that a connection to a peer is made of.

use crate::assoc::{
    assoc_map, distinct_keys, has_key, lemma_assoc_absent, lemma_assoc_at, lemma_assoc_push, lemma_assoc_remove,
};
use crate::idset::{contains_id, remove_id};
use vstd::prelude::*;

verus! {

/// The socket address of a peer.
#[derive(Clone, Copy, Debug, PartialEq, Eq, Structural)]
pub struct Endpoint {
    /// The address is an IPv6 one.
    pub is_v6: bool,
    /// The bytes of the IP address as one number.
    pub ip: u128,
    pub port: u16,
}

/// A connection that is reserved: to whom, and under which id.
#[derive(Clone, Copy, Debug, PartialEq, Eq, Structural)]
pub struct Reservation {
    pub addr: Endpoint,
    pub id: u64,
}

/// The address of a reservation.
pub open spec fn addr_of() -> spec_fn(Reservation) -> Endpoint {
    |r: Reservation| r.addr
}

/// The id of a reservation.
pub open spec fn id_of() -> spec_fn(Reservation) -> u64 {
    |r: Reservation| r.id
}

/// Keeps a connection to a peer reserved. It is to be handed back with
/// `ConnectionDeduplicator::release` when the connection ends.
#[derive(Debug)]
pub struct ConnectionPermit {
    pub addr: Endpoint,
    pub id: u64,
}

/// Half of a connection permit: one for the reading and one for the
/// writing side of a connection. Handing back either releases the permit.
#[derive(Debug)]
pub struct ConnectionPermitHalf(pub ConnectionPermit);

impl ConnectionPermit {
    /// Splits the permit into two halves for the same reservation.
    pub fn split(self) -> (r: (ConnectionPermitHalf, ConnectionPermitHalf))
        ensures
            r.0.0.addr == self.addr && r.0.0.id == self.id,
            r.1.0.addr == self.addr && r.1.0.id == self.id,
    {
        (ConnectionPermitHalf(ConnectionPermit { addr: self.addr, id: self.id }), ConnectionPermitHalf(self))
    }
}

/// Prevents a second connection to a peer that we are connected to.
#[derive(Debug)]
pub struct ConnectionDeduplicator {
    next_id: u64,
    connections: Vec<Reservation>,
}

/// The id after `id`, starting over after the last.
pub open spec fn id_after(id: u64) -> u64 {
    if id == u64::MAX {
        0
    } else {
        (id + 1) as u64
    }
}

impl ConnectionDeduplicator {
    /// Each address is reserved once at most.
    pub closed spec fn wf(&self) -> bool {
        distinct_keys(self.connections@, addr_of())
    }

    /// The reserved addresses, each with the id of its permit.
    pub closed spec fn reserved(&self) -> Map<Endpoint, u64> {
        assoc_map(self.connections@, addr_of(), id_of())
    }

    /// The id that the next permit gets.
    pub closed spec fn next_id(&self) -> u64 {
        self.next_id
    }

    pub fn new() -> (r: Self)
        ensures
            r.wf(),
            r.reserved() == Map::<Endpoint, u64>::empty(),
            r.next_id() == 0,
    {
        let r = ConnectionDeduplicator { next_id: 0, connections: Vec::new() };
        assert(r.reserved() =~= Map::<Endpoint, u64>::empty());
        r
    }

    /// Finds the reservation of `addr`.
    fn find(&self, addr: &Endpoint) -> (r: Option<usize>)
        ensures
            match r {
                Some(i) => i < self.connections@.len() && self.connections@[i as int].addr == *addr,
                None => !self.reserved().dom().contains(*addr),
            },
    {
        let mut i: usize = 0;
        while i < self.connections.len()
            invariant
                0 <= i <= self.connections@.len(),
                forall|j: int| 0 <= j < i ==> (#[trigger] self.connections@[j]).addr != *addr,
            decreases self.connections@.len() - i,
        {
            if self.connections[i].addr == *addr {
                return Some(i);
            }
            i = i + 1;
        }
        proof {
            assert forall|j: int| 0 <= j < self.connections@.len() implies addr_of()(#[trigger] self.connections@[j])
                != *addr by {
                assert(self.connections@[j].addr != *addr);
            }
            lemma_assoc_absent(self.connections@, addr_of(), id_of(), *addr);
        }
        None
    }

    /// Reserves the connection to `addr`, unless it is reserved already.
    pub fn reserve(&mut self, addr: Endpoint) -> (r: Option<ConnectionPermit>)
        requires
            old(self).wf(),
        ensures
            final(self).wf(),
            match r {
                Some(permit) => !old(self).reserved().dom().contains(addr) && permit.addr == addr && permit.id == old(self).next_id() && final(self).reserved() == old(self).reserved().insert(addr, permit.id) && final(self).next_id() == id_after(old(self).next_id()),
                None => old(self).reserved().dom().contains(addr) && final(self).reserved() == old(self).reserved()
                    && final(self).next_id() == old(self).next_id(),
            },
    {
        match self.find(&addr) {
            Some(i) => {
                proof {
                    lemma_assoc_at(self.connections@, addr_of(), id_of(), i as int);
                }
                None
            },
            None => {
                let id = self.next_id;
                self.next_id = if id == u64::MAX {
                    0
                } else {
                    id + 1
                };
                let reservation = Reservation { addr, id };
                proof {
                    assert(addr_of()(reservation) == addr);
                    assert(!has_key(self.connections@, addr_of(), addr));
                    lemma_assoc_push(self.connections@, addr_of(), id_of(), reservation);
                }
                self.connections.push(reservation);
                Some(ConnectionPermit { addr, id })
            },
        }
    }

    /// Hands a permit back. The address becomes free if it is this permit
    /// that holds it; a permit that was handed back before, or whose
    /// address was reserved anew since, changes nothing. Returns whether
    /// the address became free.
    pub fn release(&mut self, permit: &ConnectionPermit) -> (r: bool)
        requires
            old(self).wf(),
        ensures
            final(self).wf(),
            final(self).next_id() == old(self).next_id(),
            r == (old(self).reserved().dom().contains(permit.addr) && old(self).reserved()[permit.addr] == permit.id),
            final(self).reserved() == (if r {
                old(self).reserved().remove(permit.addr)
            } else {
                old(self).reserved()
            }),
    {
        match self.find(&permit.addr) {
            Some(i) => {
                proof {
                    lemma_assoc_at(self.connections@, addr_of(), id_of(), i as int);
                }
                if self.connections[i].id == permit.id {
                    proof {
                        lemma_assoc_remove(self.connections@, addr_of(), id_of(), i as int);
                    }
                    let _ = self.connections.remove(i);
                    true
                } else {
                    false
                }
            },
            None => false,
        }
    }
}

/// The readers of a connection to a peer, by their number.
#[derive(Debug)]
pub struct ReaderSet {
    pub count: usize,
}

/// What a read on a set of readers does next.
#[derive(Debug)]
pub enum ReadStep<M> {
    /// Hand this message to the consumer.
    Deliver(M),
    /// A reader has ended: read again.
    Retry,
    /// No reader is left: the connection is over.
    End,
}

impl ReaderSet {
    pub fn new() -> (r: Self)
        ensures
            r.count == 0,
    {
        ReaderSet { count: 0 }
    }

    /// Counts one more reader.
    pub fn add(&mut self)
        requires
            old(self).count < usize::MAX,
        ensures
            final(self).count == old(self).count + 1,
    {
        self.count = self.count + 1;
    }

    /// Whether a read can go on: some reader is left.
    pub fn can_read(&self) -> (r: bool)
        ensures
            r == (self.count > 0),
    {
        self.count > 0
    }

    /// Takes in what a reader has sent: a message, or `None` when the
    /// reader has ended, which counts it out.
    pub fn on_read<M>(&mut self, event: Option<M>) -> (r: ReadStep<M>)
        ensures
            match event {
                Some(message) => r == ReadStep::Deliver(message) && final(self).count == old(self).count,
                None => final(self).count == (if old(self).count > 0 {
                    (old(self).count - 1) as usize
                } else {
                    0
                }) && r == (if final(self).count == 0 {
                    ReadStep::<M>::End
                } else {
                    ReadStep::<M>::Retry
                }),
            },
    {
        match event {
            Some(message) => ReadStep::Deliver(message),
            None => {
                if self.count > 0 {
                    self.count = self.count - 1;
                }
                if self.count == 0 {
                    ReadStep::End
                } else {
                    ReadStep::Retry
                }
            },
        }
    }
}

/// The writers of a connection to a peer, by id. A message is written to
/// any one of them; a writer that fails is dropped.
#[derive(Debug)]
pub struct WriterSet {
    pub next_id: usize,
    pub writers: Vec<usize>,
}

impl WriterSet {
    pub fn new() -> (r: Self)
        ensures
            r.next_id == 0,
            r.writers@ == Seq::<usize>::empty(),
    {
        WriterSet { next_id: 0, writers: Vec::new() }
    }

    /// Adds a writer and returns its id.
    pub fn add(&mut self) -> (id: usize)
        ensures
            id == old(self).next_id,
            final(self).next_id == (if old(self).next_id == usize::MAX {
                0
            } else {
                (old(self).next_id + 1) as usize
            }),
            final(self).writers@ == (if old(self).writers@.contains(id) {
                old(self).writers@
            } else {
                old(self).writers@.push(id)
            }),
    {
        let id = self.next_id;
        self.next_id = if id == usize::MAX {
            0
        } else {
            id + 1
        };
        if !contains_id(&self.writers, id) {
            self.writers.push(id);
        }
        id
    }

    /// A writer to try, if one is left.
    pub fn pick_writer(&self) -> (r: Option<usize>)
        ensures
            match r {
                Some(id) => self.writers@.contains(id),
                None => self.writers@.len() == 0,
            },
    {
        if self.writers.len() == 0 {
            None
        } else {
            assert(self.writers@.contains(self.writers@[0]));
            Some(self.writers[0])
        }
    }

    /// Takes in how writing to the writer `id` went. Returns whether the
    /// message is out; a writer that has failed is dropped.
    pub fn on_write(&mut self, id: usize, ok: bool) -> (done: bool)
        ensures
            done == ok,
            ok ==> final(self).writers@ == old(self).writers@,
            !ok ==> final(self).writers@.to_set() == old(self).writers@.to_set().remove(id),
            final(self).next_id == old(self).next_id,
    {
        if !ok {
            let _ = remove_id(&mut self.writers, id);
        }
        ok
    }
}

} // verus!
