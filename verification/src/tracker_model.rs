//! The missing-parts tracker as a mathematical state machine: which part is
//! wanted, who offers it, and who has taken on fetching it.

use vstd::prelude::*;

verus! {

/// How a part is offered.
#[derive(Clone, Copy, Debug, PartialEq, Eq, Structural)]
pub enum OfferState {
    /// The request still waits for approval.
    Pending,
    /// The request is approved with the offer.
    Approved,
}

/// What is known of one missing part.
pub struct PartModel {
    /// The clients that have offered the part.
    pub offering: Set<usize>,
    /// The client that has taken on fetching it, if any.
    pub accepted_by: Option<usize>,
    /// The part is wanted.
    pub required: bool,
    /// Fetching the part is permitted.
    pub approved: bool,
}

/// The state of a part of which nothing is known yet.
pub open spec fn fresh_part() -> PartModel {
    PartModel { offering: Set::empty(), accepted_by: None, required: false, approved: false }
}

/// The state of the tracker: the known parts, and for each live client the
/// parts that it offers.
pub struct TrackerModel {
    pub parts: Map<crate::hash::Hash, PartModel>,
    pub clients: Map<usize, Set<crate::hash::Hash>>,
}

impl PartModel {
    /// Some client offers the part.
    pub open spec fn is_offered(self) -> bool {
        exists|c: usize| self.offering.contains(c)
    }

    /// The part after `client` has let go of it, if it held it.
    pub open spec fn unaccept_by(self, client: usize) -> PartModel {
        if self.accepted_by == Some(client) {
            PartModel { accepted_by: None, ..self }
        } else {
            self
        }
    }

    /// The part after `client` has withdrawn its offer.
    pub open spec fn withdrawn_by(self, client: usize) -> PartModel {
        PartModel { offering: self.offering.remove(client), ..self }.unaccept_by(client)
    }
}

impl TrackerModel {
    /// The tracker that knows no part and no client.
    pub open spec fn empty() -> TrackerModel {
        TrackerModel { parts: Map::empty(), clients: Map::empty() }
    }

    /// What is known of `part`; of an unknown part, nothing.
    pub open spec fn part(self, part: crate::hash::Hash) -> PartModel {
        if self.parts.dom().contains(part) {
            self.parts[part]
        } else {
            fresh_part()
        }
    }

    /// `client` is live and offers `part`.
    pub open spec fn offers(self, client: usize, part: crate::hash::Hash) -> bool {
        self.clients.dom().contains(client) && self.clients[client].contains(part)
    }

    /// The two sides of the bookkeeping agree: a part lists a client as
    /// offering exactly when that client is live and lists the part; and a
    /// part is held only by a client that offers it.
    pub open spec fn consistent(self) -> bool {
        &&& forall|p: crate::hash::Hash, c: usize|
            #![trigger self.parts[p].offering.contains(c)]
            #![trigger self.offers(c, p)]
            (self.parts.dom().contains(p) && self.parts[p].offering.contains(c)) <==> self.offers(c, p)
        &&& forall|p: crate::hash::Hash|
            self.parts.dom().contains(p) && (#[trigger] self.parts[p]).accepted_by is Some
                ==> self.parts[p].offering.contains(self.parts[p].accepted_by->Some_0)
    }

    /// The state after `part` was marked as wanted.
    pub open spec fn require(self, part: crate::hash::Hash) -> TrackerModel {
        TrackerModel {
            parts: self.parts.insert(part, PartModel { required: true, ..self.part(part) }),
            clients: self.clients,
        }
    }

    /// Marking `part` as wanted wakes the waiting acceptors: it was not
    /// wanted before, and someone offers it.
    pub open spec fn require_notifies(self, part: crate::hash::Hash) -> bool {
        !self.part(part).required && self.part(part).is_offered()
    }

    /// The state after `part` was approved. An unknown part stays unknown.
    pub open spec fn approve(self, part: crate::hash::Hash) -> TrackerModel {
        if self.parts.dom().contains(part) {
            TrackerModel {
                parts: self.parts.insert(part, PartModel { approved: true, ..self.parts[part] }),
                clients: self.clients,
            }
        } else {
            self
        }
    }

    /// Approving `part` wakes the waiting acceptors: it is known, was not
    /// approved before, is wanted and someone offers it.
    pub open spec fn approve_notifies(self, part: crate::hash::Hash) -> bool {
        &&& self.parts.dom().contains(part)
        &&& !self.parts[part].approved
        &&& self.parts[part].required
        &&& self.parts[part].is_offered()
    }

    /// The state after a new client with the id `client` has joined.
    pub open spec fn join(self, client: usize) -> TrackerModel {
        TrackerModel { parts: self.parts, clients: self.clients.insert(client, Set::empty()) }
    }

    /// The state after `client` has offered `part`. An offer that the client
    /// has made before changes nothing.
    pub open spec fn offer(self, client: usize, part: crate::hash::Hash, state: OfferState) -> TrackerModel {
        if self.clients[client].contains(part) {
            self
        } else {
            TrackerModel {
                parts: self.parts.insert(
                    part,
                    PartModel {
                        offering: self.part(part).offering.insert(client),
                        approved: self.part(part).approved || state == OfferState::Approved,
                        ..self.part(part)
                    },
                ),
                clients: self.clients.insert(client, self.clients[client].insert(part)),
            }
        }
    }

    /// `client` may take on `part`: it offers it, and the part is wanted,
    /// approved and held by nobody.
    pub open spec fn acceptable(self, client: usize, part: crate::hash::Hash) -> bool {
        &&& self.offers(client, part)
        &&& self.parts.dom().contains(part)
        &&& self.parts[part].required
        &&& self.parts[part].approved
        &&& self.parts[part].accepted_by is None
    }

    /// The state after `client` has taken on `part`.
    pub open spec fn accept(self, client: usize, part: crate::hash::Hash) -> TrackerModel {
        TrackerModel {
            parts: self.parts.insert(part, PartModel { accepted_by: Some(client), ..self.parts[part] }),
            clients: self.clients,
        }
    }

    /// The state after `part` was fetched: it is forgotten, and no client
    /// offers it any more. An unknown part changes nothing.
    pub open spec fn complete(self, part: crate::hash::Hash) -> TrackerModel {
        if self.parts.dom().contains(part) {
            TrackerModel {
                parts: self.parts.remove(part),
                clients: Map::new(
                    |c: usize| self.clients.dom().contains(c),
                    |c: usize| self.clients[c].remove(part),
                ),
            }
        } else {
            self
        }
    }

    /// The state after `client` gave up on `part` without fetching it: its
    /// offer is withdrawn and the part is free for the others. Where the
    /// client is gone or does not offer the part, nothing changes.
    pub open spec fn release(self, client: usize, part: crate::hash::Hash) -> TrackerModel {
        if self.offers(client, part) {
            TrackerModel {
                parts: self.parts.insert(part, self.part(part).withdrawn_by(client)),
                clients: self.clients.insert(client, self.clients[client].remove(part)),
            }
        } else {
            self
        }
    }

    /// Giving up on `part` wakes the waiting acceptors: the client held it.
    pub open spec fn release_notifies(self, client: usize, part: crate::hash::Hash) -> bool {
        self.offers(client, part) && self.part(part).accepted_by == Some(client)
    }

    /// The state after `client` has left: it is gone from the table, and
    /// every part that it offered has lost its offer and, where the client
    /// held the part, its holder.
    pub open spec fn leave(self, client: usize) -> TrackerModel {
        TrackerModel {
            parts: Map::new(
                |p: crate::hash::Hash| self.parts.dom().contains(p),
                |p: crate::hash::Hash|
                    if self.clients[client].contains(p) {
                        self.parts[p].withdrawn_by(client)
                    } else {
                        self.parts[p]
                    },
            ),
            clients: self.clients.remove(client),
        }
    }

    /// The leaving of `client` wakes the waiting acceptors: it held a part
    /// among those it offered.
    pub open spec fn leave_notifies(self, client: usize) -> bool {
        exists|p: crate::hash::Hash|
            self.offers(client, p) && self.parts.dom().contains(p) && (#[trigger] self.parts[p]).accepted_by == Some(client)
    }
}

/// Marking a part as wanted keeps the bookkeeping consistent.
pub proof fn lemma_require_consistent(m: TrackerModel, part: crate::hash::Hash)
    requires
        m.consistent(),
    ensures
        m.require(part).consistent(),
{
    let n = m.require(part);
    assert forall|p: crate::hash::Hash, c: usize|
        #![trigger n.parts[p].offering.contains(c)]
        #![trigger n.offers(c, p)]
        (n.parts.dom().contains(p) && n.parts[p].offering.contains(c)) <==> n.offers(c, p) by {
        assert((m.parts.dom().contains(p) && m.parts[p].offering.contains(c)) <==> m.offers(c, p));
    }
    assert forall|p: crate::hash::Hash|
        n.parts.dom().contains(p) && (#[trigger] n.parts[p]).accepted_by is Some implies n.parts[p].offering.contains(
        n.parts[p].accepted_by->Some_0,
    ) by {
        if m.parts.dom().contains(p) {
            assert(m.parts[p].accepted_by == n.parts[p].accepted_by);
        }
    }
}

/// Approving a part keeps the bookkeeping consistent.
pub proof fn lemma_approve_consistent(m: TrackerModel, part: crate::hash::Hash)
    requires
        m.consistent(),
    ensures
        m.approve(part).consistent(),
{
    let n = m.approve(part);
    assert forall|p: crate::hash::Hash, c: usize|
        #![trigger n.parts[p].offering.contains(c)]
        #![trigger n.offers(c, p)]
        (n.parts.dom().contains(p) && n.parts[p].offering.contains(c)) <==> n.offers(c, p) by {
        assert((m.parts.dom().contains(p) && m.parts[p].offering.contains(c)) <==> m.offers(c, p));
    }
    assert forall|p: crate::hash::Hash|
        n.parts.dom().contains(p) && (#[trigger] n.parts[p]).accepted_by is Some implies n.parts[p].offering.contains(
        n.parts[p].accepted_by->Some_0,
    ) by {
        assert(m.parts[p].accepted_by == n.parts[p].accepted_by);
    }
}

/// The joining of a client under a vacant id keeps the bookkeeping consistent.
pub proof fn lemma_join_consistent(m: TrackerModel, client: usize)
    requires
        m.consistent(),
        !m.clients.dom().contains(client),
    ensures
        m.join(client).consistent(),
{
    let n = m.join(client);
    assert forall|p: crate::hash::Hash, c: usize|
        #![trigger n.parts[p].offering.contains(c)]
        #![trigger n.offers(c, p)]
        (n.parts.dom().contains(p) && n.parts[p].offering.contains(c)) <==> n.offers(c, p) by {
        assert((m.parts.dom().contains(p) && m.parts[p].offering.contains(c)) <==> m.offers(c, p));
    }
}

/// An offer by a live client keeps the bookkeeping consistent.
pub proof fn lemma_offer_consistent(m: TrackerModel, client: usize, part: crate::hash::Hash, state: OfferState)
    requires
        m.consistent(),
        m.clients.dom().contains(client),
    ensures
        m.offer(client, part, state).consistent(),
{
    let n = m.offer(client, part, state);
    assert forall|p: crate::hash::Hash, c: usize|
        #![trigger n.parts[p].offering.contains(c)]
        #![trigger n.offers(c, p)]
        (n.parts.dom().contains(p) && n.parts[p].offering.contains(c)) <==> n.offers(c, p) by {
        assert((m.parts.dom().contains(p) && m.parts[p].offering.contains(c)) <==> m.offers(c, p));
    }
    assert forall|p: crate::hash::Hash|
        n.parts.dom().contains(p) && (#[trigger] n.parts[p]).accepted_by is Some implies n.parts[p].offering.contains(
        n.parts[p].accepted_by->Some_0,
    ) by {
        if m.parts.dom().contains(p) {
            assert(m.parts[p].accepted_by == n.parts[p].accepted_by);
        }
    }
}

/// Taking on an acceptable part keeps the bookkeeping consistent.
pub proof fn lemma_accept_consistent(m: TrackerModel, client: usize, part: crate::hash::Hash)
    requires
        m.consistent(),
        m.acceptable(client, part),
    ensures
        m.accept(client, part).consistent(),
{
    let n = m.accept(client, part);
    assert forall|p: crate::hash::Hash, c: usize|
        #![trigger n.parts[p].offering.contains(c)]
        #![trigger n.offers(c, p)]
        (n.parts.dom().contains(p) && n.parts[p].offering.contains(c)) <==> n.offers(c, p) by {
        assert((m.parts.dom().contains(p) && m.parts[p].offering.contains(c)) <==> m.offers(c, p));
    }
    assert forall|p: crate::hash::Hash|
        n.parts.dom().contains(p) && (#[trigger] n.parts[p]).accepted_by is Some implies n.parts[p].offering.contains(
        n.parts[p].accepted_by->Some_0,
    ) by {
        if p == part {
            assert(m.offers(client, part));
            assert(m.parts[part].offering.contains(client));
        } else {
            assert(m.parts[p].accepted_by == n.parts[p].accepted_by);
        }
    }
}

/// The completion of a part keeps the bookkeeping consistent.
pub proof fn lemma_complete_consistent(m: TrackerModel, part: crate::hash::Hash)
    requires
        m.consistent(),
    ensures
        m.complete(part).consistent(),
{
    let n = m.complete(part);
    assert forall|p: crate::hash::Hash, c: usize|
        #![trigger n.parts[p].offering.contains(c)]
        #![trigger n.offers(c, p)]
        (n.parts.dom().contains(p) && n.parts[p].offering.contains(c)) <==> n.offers(c, p) by {
        assert((m.parts.dom().contains(p) && m.parts[p].offering.contains(c)) <==> m.offers(c, p));
    }
    assert forall|p: crate::hash::Hash|
        n.parts.dom().contains(p) && (#[trigger] n.parts[p]).accepted_by is Some implies n.parts[p].offering.contains(
        n.parts[p].accepted_by->Some_0,
    ) by {
        assert(m.parts[p].accepted_by == n.parts[p].accepted_by);
    }
}

/// Giving up on a part keeps the bookkeeping consistent.
pub proof fn lemma_release_consistent(m: TrackerModel, client: usize, part: crate::hash::Hash)
    requires
        m.consistent(),
    ensures
        m.release(client, part).consistent(),
{
    let n = m.release(client, part);
    if m.offers(client, part) {
        assert(m.parts.dom().contains(part) && m.parts[part].offering.contains(client));
    }
    assert forall|p: crate::hash::Hash, c: usize|
        #![trigger n.parts[p].offering.contains(c)]
        #![trigger n.offers(c, p)]
        (n.parts.dom().contains(p) && n.parts[p].offering.contains(c)) <==> n.offers(c, p) by {
        assert((m.parts.dom().contains(p) && m.parts[p].offering.contains(c)) <==> m.offers(c, p));
    }
    assert forall|p: crate::hash::Hash|
        n.parts.dom().contains(p) && (#[trigger] n.parts[p]).accepted_by is Some implies n.parts[p].offering.contains(
        n.parts[p].accepted_by->Some_0,
    ) by {
        assert(m.parts[p].accepted_by is Some);
        assert(m.parts[p].offering.contains(m.parts[p].accepted_by->Some_0));
    }
}

/// The leaving of a live client keeps the bookkeeping consistent.
pub proof fn lemma_leave_consistent(m: TrackerModel, client: usize)
    requires
        m.consistent(),
        m.clients.dom().contains(client),
    ensures
        m.leave(client).consistent(),
{
    let n = m.leave(client);
    assert forall|p: crate::hash::Hash, c: usize|
        #![trigger n.parts[p].offering.contains(c)]
        #![trigger n.offers(c, p)]
        (n.parts.dom().contains(p) && n.parts[p].offering.contains(c)) <==> n.offers(c, p) by {
        assert((m.parts.dom().contains(p) && m.parts[p].offering.contains(c)) <==> m.offers(c, p));
        assert((m.parts.dom().contains(p) && m.parts[p].offering.contains(client)) <==> m.offers(client, p));
    }
    assert forall|p: crate::hash::Hash|
        n.parts.dom().contains(p) && (#[trigger] n.parts[p]).accepted_by is Some implies n.parts[p].offering.contains(
        n.parts[p].accepted_by->Some_0,
    ) by {
        assert(m.parts[p].accepted_by is Some);
        assert(m.parts[p].offering.contains(m.parts[p].accepted_by->Some_0));
        assert((m.parts.dom().contains(p) && m.parts[p].offering.contains(client)) <==> m.offers(client, p));
    }
}

/// At most one client holds a part: once a client has taken on a part, no
/// client can take it on until it is released or completed.
pub proof fn law_single_holder(m: TrackerModel, client: usize, part: crate::hash::Hash, other: usize)
    requires
        m.acceptable(client, part),
    ensures
        !m.accept(client, part).acceptable(other, part),
{
}

/// A part that its holder gives up is free for the others: every other
/// client that offers it can take it on at once.
pub proof fn law_release_frees_part(m: TrackerModel, holder: usize, part: crate::hash::Hash, other: usize)
    requires
        m.consistent(),
        m.offers(holder, part),
        m.offers(other, part),
        other != holder,
        m.part(part).accepted_by == Some(holder),
        m.part(part).required,
        m.part(part).approved,
    ensures
        m.release(holder, part).acceptable(other, part),
        m.release_notifies(holder, part),
{
    assert(m.parts.dom().contains(part) && m.parts[part].offering.contains(holder));
}

/// A holder that leaves frees its part: every other client that offers it
/// can take it on at once.
pub proof fn law_leave_frees_part(m: TrackerModel, holder: usize, part: crate::hash::Hash, other: usize)
    requires
        m.consistent(),
        m.offers(holder, part),
        m.offers(other, part),
        other != holder,
        m.part(part).accepted_by == Some(holder),
        m.part(part).required,
        m.part(part).approved,
    ensures
        m.leave(holder).acceptable(other, part),
        m.leave_notifies(holder),
{
    assert(m.parts.dom().contains(part) && m.parts[part].offering.contains(holder));
}

/// A leaving client leaks nothing: afterwards no part lists it as offering
/// or as holder.
pub proof fn law_leave_forgets_client(m: TrackerModel, client: usize, part: crate::hash::Hash)
    requires
        m.consistent(),
        m.clients.dom().contains(client),
        m.parts.dom().contains(part),
    ensures
        !m.leave(client).parts[part].offering.contains(client),
        m.leave(client).parts[part].accepted_by != Some(client),
        !m.leave(client).clients.dom().contains(client),
{
    assert((m.parts.dom().contains(part) && m.parts[part].offering.contains(client)) <==> m.offers(client, part));
    if m.parts[part].accepted_by == Some(client) {
        assert(m.parts[part].accepted_by is Some);
        assert(m.parts[part].offering.contains(m.parts[part].accepted_by->Some_0));
    }
}

/// A completed part is gone: it is unknown afterwards, and no client offers it.
pub proof fn law_complete_forgets_part(m: TrackerModel, part: crate::hash::Hash, client: usize)
    requires
        m.parts.dom().contains(part),
    ensures
        !m.complete(part).parts.dom().contains(part),
        !m.complete(part).offers(client, part),
{
}

/// Marking a part as wanted twice is the same as marking it once, and the
/// second time wakes nobody.
pub proof fn law_require_idempotent(m: TrackerModel, part: crate::hash::Hash)
    ensures
        m.require(part).require(part) == m.require(part),
        !m.require(part).require_notifies(part),
{
    assert(m.require(part).require(part).parts =~= m.require(part).parts);
}

/// Approving a part twice is the same as approving it once, and the second
/// time wakes nobody.
pub proof fn law_approve_idempotent(m: TrackerModel, part: crate::hash::Hash)
    ensures
        m.approve(part).approve(part) == m.approve(part),
        !m.approve(part).approve_notifies(part),
{
    assert(m.approve(part).approve(part).parts =~= m.approve(part).parts);
}

} // verus!
