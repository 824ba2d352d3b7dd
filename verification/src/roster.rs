//! The roster of connected clients: which client is represented by which entity.

use std::collections::HashMap;

use vstd::prelude::*;
use vstd::std_specs::iter::IteratorSpec;

use crate::protocol::ClientId;

verus! {

broadcast use vstd::std_specs::hash::group_hash_axioms;

/// The bits that identify the entity representing a client in the world.
pub type EntityId = u64;

/// The clients that are connected, each with the entity that represents it.
pub struct ActiveClients(HashMap<ClientId, EntityId>);

impl View for ActiveClients {
    type V = Map<ClientId, EntityId>;

    closed spec fn view(&self) -> Map<ClientId, EntityId> {
        self.0@
    }
}

impl ActiveClients {
    /// A roster with no client in it.
    pub fn empty() -> (roster: Self)
        ensures
            roster@ == Map::<ClientId, EntityId>::empty(),
    {
        ActiveClients(HashMap::new())
    }

    /// Records that `client_id` is represented by `entity`, and gives back the
    /// entity that represented it before, if any.
    pub fn insert(&mut self, client_id: ClientId, entity: EntityId) -> (previous: Option<EntityId>)
        ensures
            final(self)@ == old(self)@.insert(client_id, entity),
            previous == (if old(self)@.contains_key(client_id) {
                Some(old(self)@[client_id])
            } else {
                None
            }),
    {
        self.0.insert(client_id, entity)
    }

    /// Forgets `client_id`, and gives back the entity that represented it, if any.
    pub fn remove(&mut self, client_id: ClientId) -> (removed: Option<EntityId>)
        ensures
            final(self)@ == old(self)@.remove(client_id),
            removed == (if old(self)@.contains_key(client_id) {
                Some(old(self)@[client_id])
            } else {
                None
            }),
    {
        self.0.remove(&client_id)
    }

    /// The entity that represents `client_id`, if it is connected.
    pub fn get(&self, client_id: ClientId) -> (entity: Option<EntityId>)
        ensures
            entity == (if self@.contains_key(client_id) {
                Some(self@[client_id])
            } else {
                None
            }),
    {
        match self.0.get(&client_id) {
            Some(e) => Some(*e),
            None => None,
        }
    }

    /// Whether `client_id` is connected.
    pub fn contains(&self, client_id: ClientId) -> (present: bool)
        ensures
            present == self@.contains_key(client_id),
    {
        self.0.contains_key(&client_id)
    }

    /// How many clients are connected.
    pub fn len(&self) -> (n: usize)
        ensures
            n == self@.len(),
    {
        self.0.len()
    }

    /// Every connected client, each once, in the order in which the map is walked.
    pub fn client_ids(&self) -> (ids: Vec<ClientId>)
        ensures
            ids@.no_duplicates(),
            ids@.to_set() == self@.dom(),
            ids@.len() == self@.len(),
    {
        let mut ids: Vec<ClientId> = Vec::new();
        for k in it: self.0.keys()
            invariant
                ids@ == it.seq().take(it.index() as int).unref(),
        {
            ids.push(*k);
        }
        proof {
            let keys = vstd::std_specs::hash::spec_keys_iter(&self.0);
            assert(ids@ =~= keys.remaining().unref());
        }
        ids
    }
}

/// A lookup gives back what was recorded last for a client, and recording a
/// client that was not on the roster and then forgetting it gives back the
/// roster as it was.
pub proof fn lemma_record_then_forget(roster: Map<ClientId, EntityId>, client_id: ClientId, entity: EntityId)
    ensures
        roster.insert(client_id, entity).contains_key(client_id),
        roster.insert(client_id, entity)[client_id] == entity,
        !roster.contains_key(client_id) ==> roster.insert(client_id, entity).remove(client_id) == roster,
{
    if !roster.contains_key(client_id) {
        assert(roster.insert(client_id, entity).remove(client_id) =~= roster);
    }
}

/// No two connected clients are represented by the same entity.
pub open spec fn distinct_entities(roster: Map<ClientId, EntityId>) -> bool {
    forall|a: ClientId, b: ClientId|
        #![trigger roster[a], roster[b]]
        roster.contains_key(a) && roster.contains_key(b) && a != b ==> roster[a] != roster[b]
}

/// Distinct clients stay on distinct entities: recording a client with an
/// entity that no client is represented by, or forgetting a client, keeps every
/// connected client on an entity of its own.
pub proof fn lemma_entities_stay_distinct(
    roster: Map<ClientId, EntityId>,
    client_id: ClientId,
    entity: EntityId,
)
    requires
        distinct_entities(roster),
    ensures
        !roster.values().contains(entity) ==> distinct_entities(roster.insert(client_id, entity)),
        distinct_entities(roster.remove(client_id)),
{
    if !roster.values().contains(entity) {
        let after = roster.insert(client_id, entity);
        assert forall|a: ClientId, b: ClientId|
            after.contains_key(a) && after.contains_key(b) && a != b implies #[trigger] after[a]
            != #[trigger] after[b] by {
            if a == client_id {
                assert(roster.contains_key(b) && roster[b] == after[b]);
                assert(roster.values().contains(roster[b]));
            } else if b == client_id {
                assert(roster.contains_key(a) && roster[a] == after[a]);
                assert(roster.values().contains(roster[a]));
            }
        }
    }
    let removed = roster.remove(client_id);
    assert forall|a: ClientId, b: ClientId|
        removed.contains_key(a) && removed.contains_key(b) && a != b implies #[trigger] removed[a]
        != #[trigger] removed[b] by {
        assert(roster[a] == removed[a] && roster[b] == removed[b]);
    }
}

} // verus!
