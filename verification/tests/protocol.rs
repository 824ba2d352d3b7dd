use multiplayer::protocol::{Client, ClientChannel, ServerChannel, ServerMessage};

#[test]
fn server_channels_have_their_numbers() {
    assert_eq!(u8::from(ServerChannel::ServerMessages), 0);
    assert_eq!(u8::from(ServerChannel::NetworkedEntities), 1);
    let via_into: u8 = ServerChannel::NetworkedEntities.into();
    assert_eq!(via_into, 1);
}

#[test]
fn client_channel_has_its_number() {
    assert_eq!(u8::from(ClientChannel::ClientInput), 0);
}

#[test]
fn server_channel_numbers_are_distinct() {
    assert_ne!(u8::from(ServerChannel::ServerMessages), u8::from(ServerChannel::NetworkedEntities));
}

#[test]
fn messages_compare_by_variant_and_client() {
    assert_eq!(ServerMessage::ClientJoined(4), ServerMessage::ClientJoined(4));
    assert_ne!(ServerMessage::ClientJoined(4), ServerMessage::ClientLeft(4));
    assert_ne!(ServerMessage::ClientJoined(4), ServerMessage::ClientJoined(5));
    assert_eq!(Client(9).0, 9);
}
