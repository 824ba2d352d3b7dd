//! Channels and messages of the wire protocol.

use vstd::prelude::*;

verus! {

/// The identifier that the transport gives a connected client.
pub type ClientId = u64;

/// What the server can send on its `ServerMessages` channel.
#[derive(Clone, Copy, Debug, PartialEq, Eq, Structural)]
pub enum ServerMessage {
    ClientJoined(ClientId),
    ClientLeft(ClientId),
}

/// The channels on which the server sends.
#[derive(Clone, Copy, Debug, PartialEq, Eq, Structural)]
pub enum ServerChannel {
    ServerMessages,
    NetworkedEntities,
}

/// The channels on which a client sends.
#[derive(Clone, Copy, Debug, PartialEq, Eq, Structural)]
pub enum ClientChannel {
    ClientInput,
}

/// The channel number that the transport uses for a server channel.
pub open spec fn server_channel_id(channel: ServerChannel) -> u8 {
    match channel {
        ServerChannel::ServerMessages => 0,
        ServerChannel::NetworkedEntities => 1,
    }
}

/// The channel number that the transport uses for a client channel.
pub open spec fn client_channel_id(channel: ClientChannel) -> u8 {
    match channel {
        ClientChannel::ClientInput => 0,
    }
}

impl From<ServerChannel> for u8 {
    fn from(value: ServerChannel) -> (id: u8) {
        match value {
            ServerChannel::ServerMessages => 0,
            ServerChannel::NetworkedEntities => 1,
        }
    }
}

impl vstd::std_specs::convert::FromSpecImpl<ServerChannel> for u8 {
    open spec fn obeys_from_spec() -> bool {
        true
    }

    open spec fn from_spec(v: ServerChannel) -> u8 {
        server_channel_id(v)
    }
}

impl From<ClientChannel> for u8 {
    fn from(value: ClientChannel) -> (id: u8) {
        match value {
            ClientChannel::ClientInput => 0,
        }
    }
}

impl vstd::std_specs::convert::FromSpecImpl<ClientChannel> for u8 {
    open spec fn obeys_from_spec() -> bool {
        true
    }

    open spec fn from_spec(v: ClientChannel) -> u8 {
        client_channel_id(v)
    }
}

/// A component that marks the representation of a connected client.
#[derive(Clone, Copy, Debug, PartialEq, Eq, Structural)]
pub struct Client(pub ClientId);

/// Distinct server channels travel on distinct channel numbers, so a receiver
/// never mistakes a roster message for an entity snapshot.
pub proof fn lemma_server_channels_distinct(a: ServerChannel, b: ServerChannel)
    ensures
        server_channel_id(a) == server_channel_id(b) <==> a == b,
{
}

} // verus!
