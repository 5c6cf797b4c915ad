//! The missing-parts tracker: decides which peer fetches which missing block,
//! so that no block is asked for twice and none is stranded when a peer
//! goes away.

use crate::client_table::{
    no_entries, table_contains, table_entries, table_get, table_insert, table_new, table_swap, table_try_remove,
    OfferTable,
};
use crate::hash::hash_eq;
use crate::idset::{insert_hash, insert_id, remove_hash, remove_id};
use crate::tracker_model::{
    fresh_part, lemma_accept_consistent, lemma_approve_consistent, lemma_complete_consistent, lemma_join_consistent,
    lemma_leave_consistent, lemma_offer_consistent, lemma_release_consistent, lemma_require_consistent, OfferState,
    PartModel, TrackerModel,
};
use vstd::prelude::*;

verus! {

/// What the tracker keeps for one missing part.
#[derive(Debug)]
pub struct MissingPartState {
    pub offering_clients: Vec<usize>,
    pub accepted_by: Option<usize>,
    pub required: bool,
    pub approved: bool,
}

impl View for MissingPartState {
    type V = PartModel;

    open spec fn view(&self) -> PartModel {
        PartModel {
            offering: self.offering_clients@.to_set(),
            accepted_by: self.accepted_by,
            required: self.required,
            approved: self.approved,
        }
    }
}

impl MissingPartState {
    /// Lets go of the part if `client_id` holds it, and says whether it did.
    pub fn unaccept_by(&mut self, client_id: usize) -> (r: bool)
        ensures
            r == (old(self).accepted_by == Some(client_id)),
            final(self)@ == old(self)@.unaccept_by(client_id),
            final(self).offering_clients == old(self).offering_clients,
    {
        match self.accepted_by {
            Some(accepted_by) => {
                if accepted_by == client_id {
                    self.accepted_by = None;
                    return true;
                }
            },
            None => {},
        }
        false
    }
}

/// A part and what is kept for it.
#[derive(Debug)]
pub struct PartEntry {
    pub part_id: crate::hash::Hash,
    pub state: MissingPartState,
}

/// No part has two entries in `s`.
pub open spec fn distinct_parts(s: Seq<PartEntry>) -> bool {
    forall|i: int, j: int| 0 <= i < j < s.len() ==> (#[trigger] s[i]).part_id != (#[trigger] s[j]).part_id
}

/// `part` has an entry in `s`.
pub open spec fn has_part(s: Seq<PartEntry>, part: crate::hash::Hash) -> bool {
    exists|i: int| 0 <= i < s.len() && (#[trigger] s[i]).part_id == part
}

/// The position of the entry of `part` in `s`.
pub open spec fn part_index(s: Seq<PartEntry>, part: crate::hash::Hash) -> int {
    choose|i: int| 0 <= i < s.len() && (#[trigger] s[i]).part_id == part
}

/// The entries of `s` as a map from part to state.
pub open spec fn parts_map(s: Seq<PartEntry>) -> Map<crate::hash::Hash, PartModel> {
    Map::new(|p: crate::hash::Hash| has_part(s, p), |p: crate::hash::Hash| s[part_index(s, p)].state@)
}

/// `client` holds `part` in `s`.
pub open spec fn held_by(s: Seq<PartEntry>, part: crate::hash::Hash, client: usize) -> bool {
    has_part(s, part) && s[part_index(s, part)].state.accepted_by == Some(client)
}

/// The offers in a client table as sets.
pub open spec fn clients_map(m: Map<usize, Seq<crate::hash::Hash>>) -> Map<usize, Set<crate::hash::Hash>> {
    Map::new(|c: usize| m.dom().contains(c), |c: usize| m[c].to_set())
}

/// The map holds each entry under its part.
pub proof fn lemma_parts_map_at(s: Seq<PartEntry>, i: int)
    requires
        distinct_parts(s),
        0 <= i < s.len(),
    ensures
        has_part(s, s[i].part_id),
        part_index(s, s[i].part_id) == i,
        parts_map(s).dom().contains(s[i].part_id),
        parts_map(s)[s[i].part_id] == s[i].state@,
{
    let k = part_index(s, s[i].part_id);
    if k < i {
        assert(s[k].part_id != s[i].part_id);
    } else if i < k {
        assert(s[i].part_id != s[k].part_id);
    }
}

/// Replacing the state of an entry replaces it in the map.
pub proof fn lemma_parts_map_update(s: Seq<PartEntry>, i: int, t: Seq<PartEntry>)
    requires
        distinct_parts(s),
        0 <= i < s.len(),
        t.len() == s.len(),
        t[i].part_id == s[i].part_id,
        forall|j: int| 0 <= j < s.len() && j != i ==> t[j] == s[j],
    ensures
        distinct_parts(t),
        parts_map(t) == parts_map(s).insert(s[i].part_id, t[i].state@),
{
    assert forall|a: int, b: int| 0 <= a < b < t.len() implies (#[trigger] t[a]).part_id != (#[trigger] t[b]).part_id by {
        assert(t[a].part_id == s[a].part_id);
        assert(t[b].part_id == s[b].part_id);
        assert(s[a].part_id != s[b].part_id);
    }
    assert forall|p: crate::hash::Hash| has_part(t, p) <==> has_part(s, p) by {
        if has_part(t, p) {
            let k = part_index(t, p);
            assert(s[k].part_id == p);
        }
        if has_part(s, p) {
            let k = part_index(s, p);
            assert(t[k].part_id == p);
        }
    }
    assert forall|p: crate::hash::Hash| has_part(t, p) implies parts_map(t)[p] == parts_map(s).insert(
        s[i].part_id,
        t[i].state@,
    )[p] by {
        let k = part_index(t, p);
        lemma_parts_map_at(t, k);
        assert(s[k].part_id == p);
        lemma_parts_map_at(s, k);
    }
    lemma_parts_map_at(s, i);
    assert(parts_map(t) =~= parts_map(s).insert(s[i].part_id, t[i].state@));
}

/// A new entry at the back is a new entry in the map.
pub proof fn lemma_parts_map_push(s: Seq<PartEntry>, e: PartEntry)
    requires
        distinct_parts(s),
        !has_part(s, e.part_id),
    ensures
        distinct_parts(s.push(e)),
        parts_map(s.push(e)) == parts_map(s).insert(e.part_id, e.state@),
{
    let t = s.push(e);
    assert forall|a: int, b: int| 0 <= a < b < t.len() implies (#[trigger] t[a]).part_id != (#[trigger] t[b]).part_id by {
        if b < s.len() {
            assert(s[a].part_id != s[b].part_id);
        } else {
            assert(s[a].part_id != e.part_id);
        }
    }
    assert forall|p: crate::hash::Hash| has_part(t, p) <==> has_part(s, p) || p == e.part_id by {
        if has_part(t, p) {
            let k = part_index(t, p);
            if k < s.len() {
                assert(s[k].part_id == p);
            }
        }
        if has_part(s, p) {
            let k = part_index(s, p);
            assert(t[k].part_id == p);
        }
        if p == e.part_id {
            assert(t[s.len() as int].part_id == p);
        }
    }
    assert forall|p: crate::hash::Hash| has_part(t, p) implies parts_map(t)[p] == parts_map(s).insert(
        e.part_id,
        e.state@,
    )[p] by {
        let k = part_index(t, p);
        lemma_parts_map_at(t, k);
        if k < s.len() {
            assert(s[k].part_id == p);
            lemma_parts_map_at(s, k);
        }
    }
    assert(parts_map(t) =~= parts_map(s).insert(e.part_id, e.state@));
}

/// Taking an entry out takes it out of the map.
pub proof fn lemma_parts_map_remove(s: Seq<PartEntry>, i: int)
    requires
        distinct_parts(s),
        0 <= i < s.len(),
    ensures
        distinct_parts(s.remove(i)),
        parts_map(s.remove(i)) == parts_map(s).remove(s[i].part_id),
{
    let t = s.remove(i);
    assert forall|a: int| 0 <= a < t.len() implies #[trigger] t[a] == s[if a < i { a } else { a + 1 }] by {}
    assert forall|a: int, b: int| 0 <= a < b < t.len() implies (#[trigger] t[a]).part_id != (#[trigger] t[b]).part_id by {
        let a2 = if a < i { a } else { a + 1 };
        let b2 = if b < i { b } else { b + 1 };
        assert(s[a2].part_id != s[b2].part_id);
    }
    assert forall|p: crate::hash::Hash| has_part(t, p) <==> has_part(s, p) && p != s[i].part_id by {
        if has_part(t, p) {
            let k = part_index(t, p);
            let k2 = if k < i { k } else { k + 1 };
            assert(s[k2].part_id == p);
            if k2 < i {
                assert(s[k2].part_id != s[i].part_id);
            } else {
                assert(s[i].part_id != s[k2].part_id);
            }
        }
        if has_part(s, p) && p != s[i].part_id {
            let k = part_index(s, p);
            let k2 = if k < i { k } else { k - 1 };
            assert(t[k2].part_id == p);
        }
    }
    assert forall|p: crate::hash::Hash| has_part(t, p) implies parts_map(t)[p] == parts_map(s).remove(
        s[i].part_id,
    )[p] by {
        let k = part_index(t, p);
        lemma_parts_map_at(t, k);
        let k2 = if k < i { k } else { k + 1 };
        assert(s[k2].part_id == p);
        lemma_parts_map_at(s, k2);
    }
    assert(parts_map(t) =~= parts_map(s).remove(s[i].part_id));
}

/// A list of client ids is empty exactly when it offers nothing.
pub proof fn lemma_offered_iff_nonempty(state: MissingPartState)
    ensures
        state@.is_offered() <==> state.offering_clients@.len() > 0,
{
    if state.offering_clients@.len() > 0 {
        assert(state.offering_clients@.contains(state.offering_clients@[0]));
        assert(state@.offering.contains(state.offering_clients@[0]));
    }
    if state@.is_offered() {
        let c = choose|c: usize| state@.offering.contains(c);
        assert(state.offering_clients@.contains(c));
    }
}

/// Finds the entry of `part`.
pub fn find_part(parts: &Vec<PartEntry>, part: &crate::hash::Hash) -> (r: Option<usize>)
    ensures
        match r {
            Some(i) => i < parts@.len() && parts@[i as int].part_id == *part,
            None => !has_part(parts@, *part),
        },
{
    let mut i: usize = 0;
    while i < parts.len()
        invariant
            0 <= i <= parts@.len(),
            forall|j: int| 0 <= j < i ==> (#[trigger] parts@[j]).part_id != *part,
        decreases parts@.len() - i,
    {
        if hash_eq(&parts[i].part_id, part) {
            return Some(i);
        }
        i = i + 1;
    }
    None
}

/// Helper for tracking required missing parts.
pub struct Tracker {
    parts: Vec<PartEntry>,
    clients: OfferTable,
}

impl View for Tracker {
    type V = TrackerModel;

    closed spec fn view(&self) -> TrackerModel {
        TrackerModel { parts: parts_map(self.parts@), clients: clients_map(table_entries(self.clients)) }
    }
}

impl Tracker {
    /// The tracker's bookkeeping is in order: each part has one entry, and
    /// the state is consistent.
    pub closed spec fn wf(&self) -> bool {
        distinct_parts(self.parts@) && self@.consistent()
    }

    /// The two sides of the bookkeeping of a tracker in order agree: a part
    /// lists a client as offering exactly when the client lists the part,
    /// and a part is held only by a client that offers it.
    pub proof fn law_bookkeeping_consistent(&self)
        requires
            self.wf(),
        ensures
            self@.consistent(),
    {
    }

    /// A tracker that knows no part and no client.
    pub fn new() -> (r: Self)
        ensures
            r.wf(),
            r@ == TrackerModel::empty(),
    {
        let r = Tracker { parts: Vec::new(), clients: table_new() };
        proof {
            assert(parts_map(r.parts@) =~= Map::<crate::hash::Hash, PartModel>::empty());
            assert(clients_map(no_entries()) =~= Map::<usize, Set<crate::hash::Hash>>::empty());
        }
        r
    }

    /// Whether a client with this id is live.
    pub fn has_client(&self, client_id: usize) -> (r: bool)
        ensures
            r == self@.clients.dom().contains(client_id),
    {
        table_contains(&self.clients, client_id)
    }

    /// Marks the part as wanted. Returns whether the waiting acceptors are to
    /// be woken.
    pub fn require(&mut self, part_id: crate::hash::Hash) -> (notify: bool)
        requires
            old(self).wf(),
        ensures
            final(self).wf(),
            final(self)@ == old(self)@.require(part_id),
            notify == old(self)@.require_notifies(part_id),
    {
        proof {
            lemma_require_consistent(self@, part_id);
        }
        match find_part(&self.parts, &part_id) {
            Some(i) => {
                proof {
                    lemma_parts_map_at(self.parts@, i as int);
                    lemma_offered_iff_nonempty(self.parts@[i as int].state);
                }
                if self.parts[i].state.required {
                    assert(self@.require(part_id).parts =~= self@.parts);
                    return false;
                }
                self.parts[i].state.required = true;
                proof {
                    lemma_parts_map_update(old(self).parts@, i as int, self.parts@);
                }
                self.parts[i].state.offering_clients.len() > 0
            },
            None => {
                let entry = PartEntry {
                    part_id,
                    state: MissingPartState {
                        offering_clients: Vec::new(),
                        accepted_by: None,
                        required: true,
                        approved: false,
                    },
                };
                proof {
                    lemma_parts_map_push(self.parts@, entry);
                    assert(entry.state@.offering =~= fresh_part().offering);
                    lemma_offered_iff_nonempty(entry.state);
                }
                self.parts.push(entry);
                false
            },
        }
    }

    /// Approves the part, if it is known. Returns whether the waiting
    /// acceptors are to be woken.
    pub fn approve(&mut self, part_id: crate::hash::Hash) -> (notify: bool)
        requires
            old(self).wf(),
        ensures
            final(self).wf(),
            final(self)@ == old(self)@.approve(part_id),
            notify == old(self)@.approve_notifies(part_id),
    {
        proof {
            lemma_approve_consistent(self@, part_id);
        }
        match find_part(&self.parts, &part_id) {
            Some(i) => {
                proof {
                    lemma_parts_map_at(self.parts@, i as int);
                    lemma_offered_iff_nonempty(self.parts@[i as int].state);
                }
                if self.parts[i].state.approved {
                    assert(self@.approve(part_id).parts =~= self@.parts);
                    return false;
                }
                self.parts[i].state.approved = true;
                proof {
                    lemma_parts_map_update(old(self).parts@, i as int, self.parts@);
                }
                self.parts[i].state.required && self.parts[i].state.offering_clients.len() > 0
            },
            None => false,
        }
    }

    /// Lets a new client join and returns its id.
    pub fn client(&mut self) -> (client_id: usize)
        requires
            old(self).wf(),
        ensures
            final(self).wf(),
            !old(self)@.clients.dom().contains(client_id),
            final(self)@ == old(self)@.join(client_id),
    {
        let client_id = table_insert(&mut self.clients, Vec::new());
        proof {
            lemma_join_consistent(old(self)@, client_id);
            assert(Seq::<crate::hash::Hash>::empty().to_set() =~= Set::<crate::hash::Hash>::empty());
            assert(self@.clients =~= old(self)@.join(client_id).clients);
        }
        client_id
    }

    /// Offers the part on behalf of the client. Returns whether this client
    /// offers the part for the first time, and whether the waiting acceptors
    /// are to be woken.
    pub fn offer(&mut self, client_id: usize, part_id: crate::hash::Hash, state: OfferState) -> (r: (bool, bool))
        requires
            old(self).wf(),
            old(self)@.clients.dom().contains(client_id),
        ensures
            final(self).wf(),
            final(self)@ == old(self)@.offer(client_id, part_id, state),
            r.0 == !old(self)@.clients[client_id].contains(part_id),
            r.1 == (r.0 && state == OfferState::Approved),
    {
        proof {
            lemma_offer_consistent(self@, client_id, part_id, state);
        }
        let ghost before = table_entries(self.clients);
        let mut offers = table_swap(&mut self.clients, client_id, Vec::new());
        let first = insert_hash(&mut offers, part_id);
        let ghost after = offers@;
        let _ = table_swap(&mut self.clients, client_id, offers);
        proof {
            assert(table_entries(self.clients) =~= before.insert(client_id, after));
        }
        if !first {
            proof {
                assert(table_entries(self.clients) =~= before);
            }
            return (false, false);
        }
        proof {
            assert(clients_map(table_entries(self.clients)) =~= old(self)@.clients.insert(
                client_id,
                old(self)@.clients[client_id].insert(part_id),
            ));
        }
        let approved = match state {
            OfferState::Approved => true,
            OfferState::Pending => false,
        };
        match find_part(&self.parts, &part_id) {
            Some(i) => {
                proof {
                    lemma_parts_map_at(self.parts@, i as int);
                }
                insert_id(&mut self.parts[i].state.offering_clients, client_id);
                if approved {
                    self.parts[i].state.approved = true;
                }
                proof {
                    lemma_parts_map_update(old(self).parts@, i as int, self.parts@);
                }
            },
            None => {
                let mut offering_clients: Vec<usize> = Vec::new();
                offering_clients.push(client_id);
                let entry = PartEntry {
                    part_id,
                    state: MissingPartState { offering_clients, accepted_by: None, required: false, approved },
                };
                proof {
                    lemma_parts_map_push(self.parts@, entry);
                    assert(entry.state@.offering =~= fresh_part().offering.insert(client_id)) by {
                        crate::idset::lemma_push_contains(Seq::<usize>::empty(), client_id, client_id);
                        assert forall|c: usize| entry.state.offering_clients@.contains(c) <==> c == client_id by {
                            crate::idset::lemma_push_contains(Seq::<usize>::empty(), client_id, c);
                        }
                    }
                }
                self.parts.push(entry);
            },
        }
        (true, approved)
    }

    /// Takes on, for the client, a part that it offers and that is wanted,
    /// approved and held by nobody, if there is one.
    pub fn try_accept(&mut self, client_id: usize) -> (r: Option<crate::hash::Hash>)
        requires
            old(self).wf(),
            old(self)@.clients.dom().contains(client_id),
        ensures
            final(self).wf(),
            match r {
                Some(part_id) => old(self)@.acceptable(client_id, part_id) && final(self)@ == old(self)@.accept(
                    client_id,
                    part_id,
                ),
                None => final(self)@ == old(self)@ && forall|p: crate::hash::Hash|
                    !#[trigger] old(self)@.acceptable(client_id, p),
            },
    {
        let offers = match table_get(&self.clients, client_id) {
            Some(offers) => offers,
            None => {
                return None;
            },
        };
        let mut j: usize = 0;
        while j < offers.len()
            invariant
                0 <= j <= offers@.len(),
                self.parts@ == old(self).parts@,
                self.clients == old(self).clients,
                old(self).wf(),
                offers@ == table_entries(self.clients)[client_id],
                table_entries(self.clients).dom().contains(client_id),
                forall|k: int| 0 <= k < j ==> !old(self)@.acceptable(client_id, #[trigger] offers@[k]),
            decreases offers@.len() - j,
        {
            let part_id = offers[j];
            match find_part(&self.parts, &part_id) {
                Some(i) => {
                    proof {
                        lemma_parts_map_at(self.parts@, i as int);
                    }
                    if self.parts[i].state.required && self.parts[i].state.approved
                        && self.parts[i].state.accepted_by.is_none() {
                        proof {
                            assert(offers@.contains(offers@[j as int]));
                            assert(old(self)@.acceptable(client_id, part_id));
                            lemma_accept_consistent(old(self)@, client_id, part_id);
                        }
                        self.parts[i].state.accepted_by = Some(client_id);
                        proof {
                            lemma_parts_map_update(old(self).parts@, i as int, self.parts@);
                        }
                        return Some(part_id);
                    }
                },
                None => {},
            }
            j = j + 1;
        }
        proof {
            assert forall|p: crate::hash::Hash| !#[trigger] old(self)@.acceptable(client_id, p) by {
                if old(self)@.acceptable(client_id, p) {
                    assert(offers@.contains(p));
                    let k = choose|k: int| 0 <= k < offers@.len() && offers@[k] == p;
                    assert(!old(self)@.acceptable(client_id, offers@[k]));
                }
            }
        }
        None
    }

    /// Marks the part as fetched: it is forgotten, and taken out of the
    /// offers of every client.
    pub fn complete(&mut self, part_id: crate::hash::Hash)
        requires
            old(self).wf(),
        ensures
            final(self).wf(),
            final(self)@ == old(self)@.complete(part_id),
    {
        proof {
            lemma_complete_consistent(self@, part_id);
        }
        let i = match find_part(&self.parts, &part_id) {
            Some(i) => i,
            None => {
                return ;
            },
        };
        proof {
            lemma_parts_map_at(self.parts@, i as int);
            lemma_parts_map_remove(self.parts@, i as int);
        }
        let entry = self.parts.remove(i);
        let ghost before = table_entries(self.clients);
        let mut k: usize = 0;
        while k < entry.state.offering_clients.len()
            invariant
                0 <= k <= entry.state.offering_clients@.len(),
                self.parts@ == old(self).parts@.remove(i as int),
                table_entries(self.clients).dom() == before.dom(),
                forall|c: usize| #[trigger]
                    before.dom().contains(c) ==> table_entries(self.clients)[c].to_set() == (if entry.state.offering_clients@.take(
                        k as int,
                    ).contains(c) {
                        before[c].to_set().remove(part_id)
                    } else {
                        before[c].to_set()
                    }),
            decreases entry.state.offering_clients@.len() - k,
        {
            let c = entry.state.offering_clients[k];
            let ghost seen = entry.state.offering_clients@.take(k as int);
            let ghost current = table_entries(self.clients);
            assert(entry.state.offering_clients@.take(k + 1) =~= seen.push(c));
            if table_contains(&self.clients, c) {
                let mut offers = table_swap(&mut self.clients, c, Vec::new());
                remove_hash(&mut offers, &part_id);
                let ghost after = offers@;
                let _ = table_swap(&mut self.clients, c, offers);
                proof {
                    assert(table_entries(self.clients) =~= current.insert(c, after));
                    assert(table_entries(self.clients).dom() =~= before.dom());
                    assert(before[c].to_set().remove(part_id).remove(part_id) =~= before[c].to_set().remove(part_id));
                }
            }
            proof {
                assert forall|d: usize| #[trigger]
                    before.dom().contains(d) implies table_entries(self.clients)[d].to_set() == (if seen.push(c).contains(
                    d,
                ) {
                    before[d].to_set().remove(part_id)
                } else {
                    before[d].to_set()
                }) by {
                    crate::idset::lemma_push_contains(seen, c, d);
                }
            }
            k = k + 1;
        }
        proof {
            let list = entry.state.offering_clients@;
            assert(list.take(list.len() as int) =~= list);
            let m = old(self)@;
            assert(m.parts[part_id].offering == list.to_set());
            assert forall|c: usize| #[trigger]
                before.dom().contains(c) implies table_entries(self.clients)[c].to_set() == before[c].to_set().remove(
                part_id,
            ) by {
                if !list.contains(c) {
                    assert(!m.parts[part_id].offering.contains(c));
                    assert(!m.offers(c, part_id));
                    assert(before[c].to_set().remove(part_id) =~= before[c].to_set());
                }
            }
            assert(self@.clients =~= m.complete(part_id).clients);
        }
    }

    /// Gives up, for the client, on a part that it had taken on or offered:
    /// its offer is withdrawn and the part is free for others. Returns
    /// whether the waiting acceptors are to be woken.
    pub fn release(&mut self, client_id: usize, part_id: crate::hash::Hash) -> (notify: bool)
        requires
            old(self).wf(),
        ensures
            final(self).wf(),
            final(self)@ == old(self)@.release(client_id, part_id),
            notify == old(self)@.release_notifies(client_id, part_id),
    {
        proof {
            lemma_release_consistent(self@, client_id, part_id);
        }
        if !table_contains(&self.clients, client_id) {
            return false;
        }
        let ghost before = table_entries(self.clients);
        let mut offers = table_swap(&mut self.clients, client_id, Vec::new());
        let removed = remove_hash(&mut offers, &part_id);
        let ghost after = offers@;
        let _ = table_swap(&mut self.clients, client_id, offers);
        proof {
            assert(table_entries(self.clients) =~= before.insert(client_id, after));
        }
        if !removed {
            proof {
                assert(after.to_set() =~= before[client_id].to_set());
                assert(self@.clients =~= old(self)@.clients);
            }
            return false;
        }
        proof {
            assert(old(self)@.offers(client_id, part_id));
            assert(old(self)@.parts.dom().contains(part_id) && old(self)@.parts[part_id].offering.contains(client_id));
            assert(self@.clients =~= old(self)@.release(client_id, part_id).clients);
        }
        match find_part(&self.parts, &part_id) {
            Some(i) => {
                proof {
                    lemma_parts_map_at(self.parts@, i as int);
                }
                remove_id(&mut self.parts[i].state.offering_clients, client_id);
                let notify = self.parts[i].state.unaccept_by(client_id);
                proof {
                    lemma_parts_map_update(old(self).parts@, i as int, self.parts@);
                }
                notify
            },
            None => {
                assert(false);
                false
            },
        }
    }

    /// Lets the client leave: it is taken off the table, its offers are
    /// withdrawn, and what it held is free for others. Returns whether the
    /// waiting acceptors are to be woken.
    pub fn drop_client(&mut self, client_id: usize) -> (notify: bool)
        requires
            old(self).wf(),
            old(self)@.clients.dom().contains(client_id),
        ensures
            final(self).wf(),
            final(self)@ == old(self)@.leave(client_id),
            notify == old(self)@.leave_notifies(client_id),
    {
        proof {
            lemma_leave_consistent(self@, client_id);
        }
        let offers = match table_try_remove(&mut self.clients, client_id) {
            Some(offers) => offers,
            None => {
                assert(false);
                return false;
            },
        };
        proof {
            assert(self@.clients =~= old(self)@.leave(client_id).clients);
        }
        let ghost before = self.parts@;
        let mut notify = false;
        let mut k: usize = 0;
        while k < offers.len()
            invariant
                0 <= k <= offers@.len(),
                before == old(self).parts@,
                distinct_parts(before),
                table_entries(self.clients) == table_entries(old(self).clients).remove(client_id),
                self.parts@.len() == before.len(),
                forall|i: int| 0 <= i < before.len() ==> (#[trigger] self.parts@[i]).part_id == before[i].part_id,
                forall|i: int|
                    0 <= i < before.len() ==> (#[trigger] self.parts@[i]).state@ == (if offers@.take(k as int).contains(
                        before[i].part_id,
                    ) {
                        before[i].state@.withdrawn_by(client_id)
                    } else {
                        before[i].state@
                    }),
                notify <==> exists|j: int| 0 <= j < k && held_by(before, #[trigger] offers@[j], client_id),
            decreases offers@.len() - k,
        {
            let part_id = offers[k];
            let ghost seen = offers@.take(k as int);
            let ghost current = self.parts@;
            assert(offers@.take(k + 1) =~= seen.push(part_id));
            match find_part(&self.parts, &part_id) {
                Some(i) => {
                    proof {
                        assert(before[i as int].part_id == part_id);
                        lemma_parts_map_at(before, i as int);
                    }
                    remove_id(&mut self.parts[i].state.offering_clients, client_id);
                    let held = self.parts[i].state.unaccept_by(client_id);
                    if held {
                        notify = true;
                    }
                    proof {
                        let b = before[i as int].state@;
                        assert(current[i as int].state@.withdrawn_by(client_id) == self.parts@[i as int].state@);
                        assert(b.withdrawn_by(client_id).withdrawn_by(client_id) == b.withdrawn_by(client_id)) by {
                            assert(b.offering.remove(client_id).remove(client_id) =~= b.offering.remove(client_id));
                        }
                        if held {
                            assert(held_by(before, offers@[k as int], client_id));
                        } else if held_by(before, part_id, client_id) {
                            assert(seen.contains(part_id));
                            let j = choose|j: int| 0 <= j < seen.len() && seen[j] == part_id;
                            assert(held_by(before, offers@[j], client_id));
                        }
                    }
                },
                None => {
                    proof {
                        assert forall|i: int| 0 <= i < before.len() implies before[i].part_id != part_id by {
                            assert(self.parts@[i].part_id == before[i].part_id);
                        }
                        assert(!has_part(before, part_id));
                    }
                },
            }
            proof {
                assert forall|i: int|
                    0 <= i < before.len() implies (#[trigger] self.parts@[i]).state@ == (if seen.push(part_id).contains(
                    before[i].part_id,
                ) {
                    before[i].state@.withdrawn_by(client_id)
                } else {
                    before[i].state@
                }) by {
                    crate::idset::lemma_push_contains(seen, part_id, before[i].part_id);
                    assert(current[i].state@ == (if seen.contains(before[i].part_id) {
                        before[i].state@.withdrawn_by(client_id)
                    } else {
                        before[i].state@
                    }));
                    if before[i].part_id != part_id {
                        assert(self.parts@[i].state@ == current[i].state@);
                    }
                }
            }
            k = k + 1;
        }
        proof {
            assert(offers@.take(offers@.len() as int) =~= offers@);
            let m = old(self)@;
            let n = m.leave(client_id);
            assert(m.clients[client_id] == offers@.to_set());
            assert forall|a: int, b: int| 0 <= a < b < self.parts@.len() implies (#[trigger] self.parts@[a]).part_id
                != (#[trigger] self.parts@[b]).part_id by {
                assert(before[a].part_id != before[b].part_id);
            }
            assert forall|p: crate::hash::Hash| has_part(self.parts@, p) <==> has_part(before, p) by {
                if has_part(self.parts@, p) {
                    let i = part_index(self.parts@, p);
                    assert(before[i].part_id == p);
                }
                if has_part(before, p) {
                    let i = part_index(before, p);
                    assert(self.parts@[i].part_id == p);
                }
            }
            assert forall|p: crate::hash::Hash| has_part(before, p) implies parts_map(self.parts@)[p] == n.parts[p] by {
                let i = part_index(before, p);
                lemma_parts_map_at(before, i);
                assert(self.parts@[i].part_id == p);
                lemma_parts_map_at(self.parts@, i);
            }
            assert(self@.parts =~= n.parts);
            if notify {
                let j = choose|j: int| 0 <= j < offers@.len() && held_by(before, #[trigger] offers@[j], client_id);
                assert(offers@.contains(offers@[j]));
                let i = part_index(before, offers@[j]);
                lemma_parts_map_at(before, i);
                assert(m.offers(client_id, offers@[j]));
            }
            if m.leave_notifies(client_id) {
                let p = choose|p: crate::hash::Hash|
                    m.offers(client_id, p) && m.parts.dom().contains(p) && (#[trigger] m.parts[p]).accepted_by == Some(
                        client_id,
                    );
                assert(offers@.contains(p));
                let j = choose|j: int| 0 <= j < offers@.len() && offers@[j] == p;
                let i = part_index(before, p);
                lemma_parts_map_at(before, i);
                assert(held_by(before, offers@[j], client_id));
            }
        }
        notify
    }

    /// Lets each of the clients try to take on a part, one after the
    /// other. No part is handed out twice; a client gets a part that it
    /// could take on at the start; and a client goes empty only where
    /// every part that it could take on at the start went to a client
    /// before it.
    pub fn accept_each(&mut self, clients: &Vec<usize>) -> (r: Vec<Option<crate::hash::Hash>>)
        requires
            old(self).wf(),
            forall|k: int| 0 <= k < clients@.len() ==> old(self)@.clients.dom().contains(#[trigger] clients@[k]),
        ensures
            final(self).wf(),
            handed_out_once(old(self)@, clients@, r@),
    {
        let mut out: Vec<Option<crate::hash::Hash>> = Vec::new();
        let mut k: usize = 0;
        while k < clients.len()
            invariant
                0 <= k <= clients@.len(),
                out@.len() == k,
                self.wf(),
                self@.clients == old(self)@.clients,
                forall|j: int| 0 <= j < clients@.len() ==> old(self)@.clients.dom().contains(#[trigger] clients@[j]),
                forall|c: usize, p: crate::hash::Hash|
                    #[trigger] self@.acceptable(c, p) <==> old(self)@.acceptable(c, p) && !out@.contains(Some(p)),
                forall|i: int, j: int| 0 <= i < j < k && (#[trigger] out@[i]) is Some ==> out@[i] != #[trigger] out@[j],
                forall|j: int|
                    0 <= j < k && (#[trigger] out@[j]) is Some ==> old(self)@.acceptable(clients@[j], out@[j]->Some_0),
                forall|j: int, p: crate::hash::Hash|
                    0 <= j < k && (#[trigger] out@[j]) is None && #[trigger] old(self)@.acceptable(clients@[j], p)
                        ==> exists|i: int| 0 <= i < j && out@[i] == Some(p),
            decreases clients@.len() - k,
        {
            let ghost before = self@;
            let ghost given = out@;
            let client = clients[k];
            let got = self.try_accept(client);
            out.push(got);
            proof {
                assert forall|c: usize, p: crate::hash::Hash|
                    #[trigger] self@.acceptable(c, p) <==> old(self)@.acceptable(c, p) && !out@.contains(Some(p)) by {
                    crate::idset::lemma_push_contains(given, got, Some(p));
                    assert(before.acceptable(c, p) <==> old(self)@.acceptable(c, p) && !given.contains(Some(p)));
                    match got {
                        Some(q) => {
                            assert(before.acceptable(client, q));
                            if p != q {
                                assert(self@.parts[p] == before.parts[p]);
                            }
                        },
                        None => {},
                    }
                }
                assert forall|i: int, j: int| 0 <= i < j < k + 1 && (#[trigger] out@[i]) is Some implies out@[i]
                    != #[trigger] out@[j] by {
                    if j == k {
                        match got {
                            Some(q) => {
                                assert(before.acceptable(client, q));
                                assert(!given.contains(Some(q)));
                                if out@[i] == got {
                                    assert(given[i] == Some(q));
                                    assert(given.contains(Some(q)));
                                }
                            },
                            None => {},
                        }
                    } else {
                        assert(out@[i] == given[i] && out@[j] == given[j]);
                    }
                }
                assert forall|j: int| 0 <= j < k + 1 && (#[trigger] out@[j]) is Some implies old(self)@.acceptable(
                    clients@[j],
                    out@[j]->Some_0,
                ) by {
                    if j == k {
                        assert(before.acceptable(client, got->Some_0));
                    } else {
                        assert(out@[j] == given[j]);
                    }
                }
                assert forall|j: int, p: crate::hash::Hash|
                    0 <= j < k + 1 && (#[trigger] out@[j]) is None && #[trigger] old(self)@.acceptable(
                        clients@[j],
                        p,
                    ) implies exists|i: int| 0 <= i < j && out@[i] == Some(p) by {
                    if j == k {
                        assert(!before.acceptable(client, p));
                        assert(given.contains(Some(p)));
                        let i = choose|i: int| 0 <= i < given.len() && given[i] == Some(p);
                        assert(out@[i] == Some(p));
                    } else {
                        assert(out@[j] == given[j]);
                        let i = choose|i: int| 0 <= i < j && given[i] == Some(p);
                        assert(out@[i] == Some(p));
                    }
                }
            }
            k = k + 1;
        }
        out
    }
}

/// What letting each of `clients` try once to take on a part gives, from
/// the state `m`: no part is handed out twice; a client gets a part that
/// it could take on in `m`; and a client goes empty only where every part
/// that it could take on in `m` went to a client before it.
pub open spec fn handed_out_once(m: TrackerModel, clients: Seq<usize>, given: Seq<Option<crate::hash::Hash>>) -> bool {
    &&& given.len() == clients.len()
    &&& forall|i: int, j: int| 0 <= i < j < given.len() && (#[trigger] given[i]) is Some ==> given[i] != #[trigger] given[j]
    &&& forall|j: int| 0 <= j < given.len() && (#[trigger] given[j]) is Some ==> m.acceptable(clients[j], given[j]->Some_0)
    &&& forall|j: int, p: crate::hash::Hash|
        0 <= j < given.len() && (#[trigger] given[j]) is None && #[trigger] m.acceptable(clients[j], p) ==> exists|i: int|
            0 <= i < j && given[i] == Some(p)
}

/// Where many clients all offer one part and can take on nothing else,
/// and each tries once, exactly one of them gets the part: the first. All
/// the others go empty, for as long as the part is held.
pub proof fn law_one_of_many_accepts(
    m: TrackerModel,
    clients: Seq<usize>,
    given: Seq<Option<crate::hash::Hash>>,
    part: crate::hash::Hash,
)
    requires
        handed_out_once(m, clients, given),
        clients.len() > 0,
        forall|k: int| 0 <= k < clients.len() ==> #[trigger] m.acceptable(clients[k], part),
        forall|k: int, p: crate::hash::Hash| 0 <= k < clients.len() && p != part ==> !#[trigger] m.acceptable(clients[k], p),
    ensures
        given[0] == Some(part),
        forall|k: int| 0 < k < given.len() ==> (#[trigger] given[k]) is None,
{
    assert(m.acceptable(clients[0], part));
    if given[0] is None {
        let i = choose|i: int| 0 <= i < 0 && given[i] == Some(part);
        assert(false);
    }
    let q = given[0]->Some_0;
    assert(m.acceptable(clients[0], q));
    assert(q == part);
    assert forall|k: int| 0 < k < given.len() implies (#[trigger] given[k]) is None by {
        if given[k] is Some {
            let p = given[k]->Some_0;
            assert(m.acceptable(clients[k], p));
            assert(p == part);
            assert(given[0] != given[k]);
        }
    }
}

} // verus!
