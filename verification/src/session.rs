//! The decisions that server and client take when clients come and go, and
//! what the messages that the server sends do to what a client knows.

use vstd::prelude::*;

use crate::protocol::{ClientId, ServerChannel, ServerMessage};
use crate::roster::{ActiveClients, EntityId};

verus! {

/// A message that the server sends to one client on one channel.
#[derive(Clone, Copy, Debug, PartialEq, Eq, Structural)]
pub struct Outgoing {
    pub recipient: ClientId,
    pub channel: ServerChannel,
    pub message: ServerMessage,
}

/// The client that a roster message is about.
pub open spec fn subject(message: ServerMessage) -> ClientId {
    match message {
        ServerMessage::ClientJoined(id) => id,
        ServerMessage::ClientLeft(id) => id,
    }
}

/// The recipients of a batch of messages, in order.
pub open spec fn recipients(out: Seq<Outgoing>) -> Seq<ClientId> {
    out.map_values(|o: Outgoing| o.recipient)
}

/// The clients that a batch of messages is about, in order.
pub open spec fn subjects(out: Seq<Outgoing>) -> Seq<ClientId> {
    out.map_values(|o: Outgoing| subject(o.message))
}

/// The batch that tells `newcomer`, on the roster channel, of each client in
/// `already` exactly once, and of no other client.
pub open spec fn is_welcome(out: Seq<Outgoing>, newcomer: ClientId, already: Set<ClientId>) -> bool {
    &&& forall|i: int|
        0 <= i < out.len() ==> {
            &&& (#[trigger] out[i]).recipient == newcomer
            &&& out[i].channel == ServerChannel::ServerMessages
            &&& out[i].message is ClientJoined
        }
    &&& subjects(out).no_duplicates()
    &&& subjects(out).to_set() == already
}

/// The batch that sends `message`, on the roster channel, to each client of
/// `audience` exactly once, and to no other client.
pub open spec fn is_broadcast(out: Seq<Outgoing>, message: ServerMessage, audience: Set<ClientId>) -> bool {
    &&& forall|i: int|
        0 <= i < out.len() ==> {
            &&& (#[trigger] out[i]).message == message
            &&& out[i].channel == ServerChannel::ServerMessages
        }
    &&& recipients(out).no_duplicates()
    &&& recipients(out).to_set() == audience
}

impl ActiveClients {
    /// Handles the connection of `client_id`, represented by the freshly spawned
    /// `entity`: the newcomer is told of every client that was connected before
    /// it, and it joins the roster.
    pub fn connect_client(&mut self, client_id: ClientId, entity: EntityId) -> (out: Vec<Outgoing>)
        ensures
            final(self)@ == old(self)@.insert(client_id, entity),
            is_welcome(out@, client_id, old(self)@.dom()),
            out@.len() == old(self)@.len(),
    {
        let ids = self.client_ids();
        let mut out: Vec<Outgoing> = Vec::new();
        let n = ids.len();
        for i in 0..n
            invariant
                n == ids@.len(),
                out@.len() == i,
                forall|j: int|
                    0 <= j < i ==> #[trigger] out@[j] == (Outgoing {
                        recipient: client_id,
                        channel: ServerChannel::ServerMessages,
                        message: ServerMessage::ClientJoined(ids@[j]),
                    }),
        {
            out.push(
                Outgoing {
                    recipient: client_id,
                    channel: ServerChannel::ServerMessages,
                    message: ServerMessage::ClientJoined(ids[i]),
                },
            );
        }
        assert(subjects(out@) =~= ids@);
        self.insert(client_id, entity);
        out
    }

    /// Sends `message` on the roster channel to every connected client.
    pub fn announce(&self, message: ServerMessage) -> (out: Vec<Outgoing>)
        ensures
            is_broadcast(out@, message, self@.dom()),
            out@.len() == self@.len(),
    {
        let ids = self.client_ids();
        let mut out: Vec<Outgoing> = Vec::new();
        let n = ids.len();
        for i in 0..n
            invariant
                n == ids@.len(),
                out@.len() == i,
                forall|j: int|
                    0 <= j < i ==> #[trigger] out@[j] == (Outgoing {
                        recipient: ids@[j],
                        channel: ServerChannel::ServerMessages,
                        message: message,
                    }),
        {
            out.push(
                Outgoing { recipient: ids[i], channel: ServerChannel::ServerMessages, message: message },
            );
        }
        assert(recipients(out@) =~= ids@);
        out
    }
}


/// What a client knows of the roster after it reads one roster message.
pub open spec fn apply_message(known: Set<ClientId>, message: ServerMessage) -> Set<ClientId> {
    match message {
        ServerMessage::ClientJoined(id) => known.insert(id),
        ServerMessage::ClientLeft(id) => known.remove(id),
    }
}

/// What a client knows of the roster after it reads `messages` in order.
pub open spec fn apply_messages(known: Set<ClientId>, messages: Seq<ServerMessage>) -> Set<ClientId>
    decreases messages.len(),
{
    if messages.len() == 0 {
        known
    } else {
        apply_message(apply_messages(known, messages.drop_last()), messages.last())
    }
}

/// The messages of a batch that reach `client`, in the order in which they are sent.
pub open spec fn messages_for(out: Seq<Outgoing>, client: ClientId) -> Seq<ServerMessage>
    decreases out.len(),
{
    if out.len() == 0 {
        Seq::empty()
    } else {
        let rest = messages_for(out.drop_last(), client);
        if out.last().recipient == client {
            rest.push(out.last().message)
        } else {
            rest
        }
    }
}

/// Which client a roster message asks a client to spawn a representation for.
pub fn entity_to_spawn(message: ServerMessage) -> (spawn: Option<ClientId>)
    ensures
        spawn == (match message {
            ServerMessage::ClientJoined(id) => Some(id),
            ServerMessage::ClientLeft(_) => None::<ClientId>,
        }),
{
    match message {
        ServerMessage::ClientJoined(id) => Some(id),
        ServerMessage::ClientLeft(_) => None,
    }
}

impl ActiveClients {
    /// Applies a roster message on a client: a joined client is recorded with
    /// the entity `spawned` for it; a client that left is forgotten, and the
    /// entity that represented it, if any, is handed back to be despawned.
    pub fn apply_server_message(&mut self, message: ServerMessage, spawned: EntityId) -> (despawn:
        Option<EntityId>)
        ensures
            match message {
                ServerMessage::ClientJoined(id) => {
                    &&& final(self)@ == old(self)@.insert(id, spawned)
                    &&& despawn is None
                },
                ServerMessage::ClientLeft(id) => {
                    &&& final(self)@ == old(self)@.remove(id)
                    &&& despawn == (if old(self)@.contains_key(id) {
                        Some(old(self)@[id])
                    } else {
                        None
                    })
                },
            },
            final(self)@.dom() == apply_message(old(self)@.dom(), message),
    {
        match message {
            ServerMessage::ClientJoined(id) => {
                self.insert(id, spawned);
                None
            },
            ServerMessage::ClientLeft(id) => self.remove(id),
        }
    }
}

proof fn lemma_messages_for_concat(a: Seq<Outgoing>, b: Seq<Outgoing>, client: ClientId)
    ensures
        messages_for(a + b, client) == messages_for(a, client) + messages_for(b, client),
    decreases b.len(),
{
    if b.len() == 0 {
        assert(a + b =~= a);
        assert(messages_for(b, client) =~= Seq::<ServerMessage>::empty());
        assert(messages_for(a, client) + messages_for(b, client) =~= messages_for(a, client));
    } else {
        lemma_messages_for_concat(a, b.drop_last(), client);
        assert((a + b).drop_last() =~= a + b.drop_last());
        assert((a + b).last() == b.last());
        let ma = messages_for(a, client);
        let mb = messages_for(b.drop_last(), client);
        if b.last().recipient == client {
            assert(ma + mb.push(b.last().message) =~= (ma + mb).push(b.last().message));
        }
    }
}

proof fn lemma_messages_for_single_recipient(out: Seq<Outgoing>, to: ClientId, client: ClientId)
    requires
        forall|i: int| 0 <= i < out.len() ==> (#[trigger] out[i]).recipient == to,
    ensures
        messages_for(out, client) == (if client == to {
            out.map_values(|o: Outgoing| o.message)
        } else {
            Seq::empty()
        }),
    decreases out.len(),
{
    if out.len() > 0 {
        let rest = out.drop_last();
        assert forall|i: int| 0 <= i < rest.len() implies (#[trigger] rest[i]).recipient == to by {
            assert(rest[i] == out[i]);
        }
        lemma_messages_for_single_recipient(rest, to, client);
        assert(out[out.len() - 1].recipient == to);
        if client == to {
            assert(rest.map_values(|o: Outgoing| o.message).push(out.last().message)
                =~= out.map_values(|o: Outgoing| o.message));
        }
    } else {
        assert(out.map_values(|o: Outgoing| o.message) =~= Seq::<ServerMessage>::empty());
    }
}

proof fn lemma_messages_for_same_message(out: Seq<Outgoing>, message: ServerMessage, client: ClientId)
    requires
        forall|i: int| 0 <= i < out.len() ==> (#[trigger] out[i]).message == message,
        recipients(out).no_duplicates(),
    ensures
        messages_for(out, client) == (if recipients(out).contains(client) {
            seq![message]
        } else {
            Seq::<ServerMessage>::empty()
        }),
    decreases out.len(),
{
    if out.len() > 0 {
        let rest = out.drop_last();
        assert(recipients(rest) =~= recipients(out).drop_last());
        assert forall|i: int| 0 <= i < rest.len() implies (#[trigger] rest[i]).message == message by {
            assert(rest[i] == out[i]);
        }
        assert(recipients(rest).no_duplicates()) by {
            assert forall|i: int, j: int|
                0 <= i < recipients(rest).len() && 0 <= j < recipients(rest).len() && i != j
                implies recipients(rest)[i] != recipients(rest)[j] by {
                assert(recipients(rest)[i] == recipients(out)[i]);
                assert(recipients(rest)[j] == recipients(out)[j]);
            }
        }
        lemma_messages_for_same_message(rest, message, client);
        let last = out.len() - 1;
        assert(out.last() == out[last]);
        assert(recipients(out)[last] == out[last].recipient);
        if out.last().recipient == client {
            assert(recipients(out).contains(client));
            assert(!recipients(rest).contains(client)) by {
                if recipients(rest).contains(client) {
                    let k = choose|k: int| 0 <= k < recipients(rest).len() && recipients(rest)[k] == client;
                    assert(recipients(out)[k] == client);
                }
            }
            assert(Seq::<ServerMessage>::empty().push(message) =~= seq![message]);
        } else {
            assert(recipients(out).contains(client) == recipients(rest).contains(client)) by {
                if recipients(out).contains(client) {
                    let k = choose|k: int| 0 <= k < recipients(out).len() && recipients(out)[k] == client;
                    assert(k != last);
                    assert(recipients(rest)[k] == client);
                }
                if recipients(rest).contains(client) {
                    let k = choose|k: int| 0 <= k < recipients(rest).len() && recipients(rest)[k] == client;
                    assert(recipients(out)[k] == client);
                }
            }
        }
    } else {
        assert(!recipients(out).contains(client));
    }
}

proof fn lemma_apply_messages_concat(known: Set<ClientId>, a: Seq<ServerMessage>, b: Seq<ServerMessage>)
    ensures
        apply_messages(known, a + b) == apply_messages(apply_messages(known, a), b),
    decreases b.len(),
{
    if b.len() == 0 {
        assert(a + b =~= a);
    } else {
        lemma_apply_messages_concat(known, a, b.drop_last());
        assert((a + b).drop_last() =~= a + b.drop_last());
        assert((a + b).last() == b.last());
    }
}

proof fn lemma_apply_single(known: Set<ClientId>, message: ServerMessage)
    ensures
        apply_messages(known, seq![message]) == apply_message(known, message),
{
    let one = seq![message];
    assert(one.drop_last() =~= Seq::<ServerMessage>::empty());
    assert(apply_messages(known, one.drop_last()) == known);
}

proof fn lemma_apply_joined(known: Set<ClientId>, out: Seq<Outgoing>)
    requires
        forall|i: int| 0 <= i < out.len() ==> (#[trigger] out[i]).message is ClientJoined,
    ensures
        apply_messages(known, out.map_values(|o: Outgoing| o.message)) == known.union(subjects(out).to_set()),
    decreases out.len(),
{
    let msgs = out.map_values(|o: Outgoing| o.message);
    if out.len() == 0 {
        assert(subjects(out).to_set() =~= Set::<ClientId>::empty());
        assert(known.union(Set::<ClientId>::empty()) =~= known);
    } else {
        let rest = out.drop_last();
        assert forall|i: int| 0 <= i < rest.len() implies (#[trigger] rest[i]).message is ClientJoined by {
            assert(rest[i] == out[i]);
        }
        lemma_apply_joined(known, rest);
        assert(msgs.drop_last() =~= rest.map_values(|o: Outgoing| o.message));
        let last = out.len() - 1;
        assert(out[last].message is ClientJoined);
        assert(subjects(out) =~= subjects(rest).push(subject(out[last].message)));
        assert(subjects(out).to_set() =~= subjects(rest).to_set().insert(subject(out[last].message))) by {
            subjects(rest).lemma_push_to_set_commute(subject(out[last].message));
        }
        assert(known.union(subjects(out).to_set()) =~= known.union(subjects(rest).to_set()).insert(
            subject(out[last].message),
        ));
    }
}

/// A client that connects learns the whole roster: the welcome batch that the
/// server sends it on connection, followed by the announcement of its own
/// arrival to every connected client, make a client that knew nothing know
/// exactly the clients that are connected once it has joined.
pub proof fn lemma_newcomer_learns_roster(
    roster: Map<ClientId, EntityId>,
    newcomer: ClientId,
    entity: EntityId,
    welcome: Seq<Outgoing>,
    joined: Seq<Outgoing>,
)
    requires
        is_welcome(welcome, newcomer, roster.dom()),
        is_broadcast(joined, ServerMessage::ClientJoined(newcomer), roster.insert(newcomer, entity).dom()),
    ensures
        apply_messages(Set::empty(), messages_for(welcome + joined, newcomer)) == roster.insert(
            newcomer,
            entity,
        ).dom(),
{
    let after = roster.insert(newcomer, entity);
    lemma_messages_for_concat(welcome, joined, newcomer);
    lemma_messages_for_single_recipient(welcome, newcomer, newcomer);
    lemma_messages_for_same_message(joined, ServerMessage::ClientJoined(newcomer), newcomer);
    assert(after.dom().contains(newcomer));
    assert(recipients(joined).contains(newcomer));
    let w = welcome.map_values(|o: Outgoing| o.message);
    lemma_apply_messages_concat(Set::empty(), w, seq![ServerMessage::ClientJoined(newcomer)]);
    lemma_apply_joined(Set::empty(), welcome);
    assert(Set::<ClientId>::empty().union(roster.dom()) =~= roster.dom());
    lemma_apply_single(roster.dom(), ServerMessage::ClientJoined(newcomer));
    assert(roster.dom().insert(newcomer) =~= after.dom());
}


/// Every client stays in step with the server's roster through a connection:
/// once the welcome batch and the announcement of the newcomer have been read,
/// the newcomer (who knew nothing) and every client connected before it (who
/// knew the roster) know exactly the clients connected after it joined.
pub proof fn lemma_connection_keeps_clients_in_step(
    roster: Map<ClientId, EntityId>,
    newcomer: ClientId,
    entity: EntityId,
    welcome: Seq<Outgoing>,
    joined: Seq<Outgoing>,
    client: ClientId,
)
    requires
        is_welcome(welcome, newcomer, roster.dom()),
        is_broadcast(joined, ServerMessage::ClientJoined(newcomer), roster.insert(newcomer, entity).dom()),
        roster.insert(newcomer, entity).dom().contains(client),
    ensures
        apply_messages(
            if client == newcomer { Set::empty() } else { roster.dom() },
            messages_for(welcome + joined, client),
        ) == roster.insert(newcomer, entity).dom(),
{
    if client == newcomer {
        lemma_newcomer_learns_roster(roster, newcomer, entity, welcome, joined);
    } else {
        let after = roster.insert(newcomer, entity);
        lemma_messages_for_concat(welcome, joined, client);
        lemma_messages_for_single_recipient(welcome, newcomer, client);
        lemma_messages_for_same_message(joined, ServerMessage::ClientJoined(newcomer), client);
        assert(recipients(joined).contains(client));
        assert(messages_for(welcome + joined, client) =~= seq![ServerMessage::ClientJoined(newcomer)]);
        lemma_apply_single(roster.dom(), ServerMessage::ClientJoined(newcomer));
        assert(roster.dom().insert(newcomer) =~= after.dom());
    }
}

/// Every client stays in step with the server's roster through a departure:
/// the client that left is sent nothing, and each client still connected, who
/// knew the roster, knows exactly the remaining clients once it has read the
/// announcement.
pub proof fn lemma_departure_keeps_clients_in_step(
    roster: Map<ClientId, EntityId>,
    gone: ClientId,
    left: Seq<Outgoing>,
    client: ClientId,
)
    requires
        roster.dom().contains(gone),
        is_broadcast(left, ServerMessage::ClientLeft(gone), roster.remove(gone).dom()),
    ensures
        messages_for(left, gone) == Seq::<ServerMessage>::empty(),
        roster.remove(gone).dom().contains(client) ==> apply_messages(
            roster.dom(),
            messages_for(left, client),
        ) == roster.remove(gone).dom(),
{
    lemma_messages_for_same_message(left, ServerMessage::ClientLeft(gone), gone);
    lemma_messages_for_same_message(left, ServerMessage::ClientLeft(gone), client);
    assert(!recipients(left).to_set().contains(gone));
    if roster.remove(gone).dom().contains(client) {
        assert(recipients(left).to_set().contains(client));
        lemma_apply_single(roster.dom(), ServerMessage::ClientLeft(gone));
        assert(roster.dom().remove(gone) =~= roster.remove(gone).dom());
    }
}

/// The snapshot entries that a client can apply: for each entry, in order,
/// whose client it knows, the entry's position and the entity that represents
/// that client.
pub open spec fn matched_updates(roster: Map<ClientId, EntityId>, ids: Seq<ClientId>) -> Seq<
    (usize, EntityId),
>
    decreases ids.len(),
{
    if ids.len() == 0 {
        Seq::empty()
    } else {
        let rest = matched_updates(roster, ids.drop_last());
        if roster.contains_key(ids.last()) {
            rest.push(((ids.len() - 1) as usize, roster[ids.last()]))
        } else {
            rest
        }
    }
}

/// `matched` pairs every position of `ids` whose client is on the roster with
/// that client's entity, each exactly once, in increasing order of position,
/// and holds nothing else.
pub open spec fn is_exact_match(
    roster: Map<ClientId, EntityId>,
    ids: Seq<ClientId>,
    matched: Seq<(usize, EntityId)>,
) -> bool {
    &&& forall|j: int|
        0 <= j < matched.len() ==> {
            &&& (#[trigger] matched[j]).0 < ids.len()
            &&& roster.contains_key(ids[matched[j].0 as int])
            &&& matched[j].1 == roster[ids[matched[j].0 as int]]
        }
    &&& forall|j: int, k: int|
        0 <= j < k < matched.len() ==> (#[trigger] matched[j]).0 < (#[trigger] matched[k]).0
    &&& forall|i: int|
        0 <= i < ids.len() && roster.contains_key(#[trigger] ids[i]) ==> exists|j: int|
            0 <= j < matched.len() && #[trigger] matched[j] == (i as usize, roster[ids[i]])
}

/// Matching a snapshot leaves out no entry whose client is known and adds no
/// other: its result is exactly the positions of the snapshot whose client is
/// on the roster, in increasing order, each with that client's entity.
pub proof fn lemma_match_is_exact(roster: Map<ClientId, EntityId>, ids: Seq<ClientId>)
    requires
        ids.len() <= usize::MAX,
    ensures
        is_exact_match(roster, ids, matched_updates(roster, ids)),
    decreases ids.len(),
{
    if ids.len() > 0 {
        let rest_ids = ids.drop_last();
        lemma_match_is_exact(roster, rest_ids);
        let rest = matched_updates(roster, rest_ids);
        let m = matched_updates(roster, ids);
        let last = ids.len() - 1;
        assert forall|j: int| 0 <= j < rest.len() implies (#[trigger] rest[j]).0 < last by {}
        assert forall|j: int|
            0 <= j < m.len() implies {
                &&& (#[trigger] m[j]).0 < ids.len()
                &&& roster.contains_key(ids[m[j].0 as int])
                &&& m[j].1 == roster[ids[m[j].0 as int]]
            } by {
            if j < rest.len() {
                assert(m[j] == rest[j]);
                assert(rest_ids[rest[j].0 as int] == ids[rest[j].0 as int]);
            }
        }
        assert forall|j: int, k: int| 0 <= j < k < m.len() implies (#[trigger] m[j]).0 < (
        #[trigger] m[k]).0 by {
            assert(m[j] == rest[j]);
            if k < rest.len() {
                assert(m[k] == rest[k]);
            }
        }
        assert forall|i: int|
            0 <= i < ids.len() && roster.contains_key(#[trigger] ids[i]) implies exists|j: int|
                0 <= j < m.len() && #[trigger] m[j] == (i as usize, roster[ids[i]]) by {
            if i < last {
                assert(rest_ids[i] == ids[i]);
                let j = choose|j: int| 0 <= j < rest.len() && #[trigger] rest[j] == (i as usize, roster[rest_ids[i]]);
                assert(m[j] == rest[j]);
            } else {
                assert(m[rest.len() as int] == (i as usize, roster[ids[i]]));
            }
        }
    }
}

impl ActiveClients {
    /// Pairs the entries of a snapshot, given by the client each is about, with
    /// the entities that represent those clients here; entries about clients
    /// that are not known here are passed over.
    pub fn match_updates(&self, update_ids: &Vec<ClientId>) -> (matched: Vec<(usize, EntityId)>)
        ensures
            matched@ == matched_updates(self@, update_ids@),
            is_exact_match(self@, update_ids@, matched@),
    {
        let mut matched: Vec<(usize, EntityId)> = Vec::new();
        let n = update_ids.len();
        for i in 0..n
            invariant
                n == update_ids@.len(),
                matched@ == matched_updates(self@, update_ids@.take(i as int)),
        {
            let id = update_ids[i];
            let ghost prefix = update_ids@.take(i + 1);
            assert(prefix.drop_last() =~= update_ids@.take(i as int));
            assert(prefix.last() == id);
            match self.get(id) {
                Some(entity) => {
                    matched.push((i, entity));
                },
                None => {},
            }
        }
        assert(update_ids@.take(n as int) =~= update_ids@);
        proof {
            lemma_match_is_exact(self@, update_ids@);
        }
        matched
    }
}

/// The identifier a client picks for itself from the time since the epoch, in
/// milliseconds: the low 64 bits of that count.
pub fn client_id_from_millis(millis: u128) -> (id: ClientId)
    ensures
        id == millis % 0x1_0000_0000_0000_0000,
{
    let id = millis as u64;
    assert(id == millis % 0x1_0000_0000_0000_0000) by (bit_vector)
        requires
            id == millis as u64,
    ;
    id
}

} // verus!
