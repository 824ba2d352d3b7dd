use multiplayer::protocol::{ServerChannel, ServerMessage};
use multiplayer::roster::ActiveClients;
use multiplayer::session::{client_id_from_millis, entity_to_spawn, Outgoing};

fn roster_of(entries: &[(u64, u64)]) -> ActiveClients {
    let mut roster = ActiveClients::empty();
    for (id, entity) in entries {
        roster.insert(*id, *entity);
    }
    roster
}

fn sorted_subjects(out: &[Outgoing]) -> Vec<u64> {
    let mut ids: Vec<u64> = out
        .iter()
        .map(|o| match o.message {
            ServerMessage::ClientJoined(id) => id,
            ServerMessage::ClientLeft(id) => id,
        })
        .collect();
    ids.sort();
    ids
}

#[test]
fn first_client_is_welcomed_with_nothing() {
    let mut roster = ActiveClients::empty();
    let out = roster.connect_client(1, 100);
    assert!(out.is_empty());
    assert_eq!(roster.get(1), Some(100));
}

#[test]
fn newcomer_is_told_of_each_earlier_client() {
    let mut roster = roster_of(&[(1, 100), (2, 200)]);
    let out = roster.connect_client(3, 300);
    assert_eq!(out.len(), 2);
    for o in &out {
        assert_eq!(o.recipient, 3);
        assert_eq!(o.channel, ServerChannel::ServerMessages);
        assert!(matches!(o.message, ServerMessage::ClientJoined(_)));
    }
    assert_eq!(sorted_subjects(&out), vec![1, 2]);
    assert_eq!(roster.get(3), Some(300));
    assert_eq!(roster.len(), 3);
}

#[test]
fn announcement_reaches_every_client_once() {
    let roster = roster_of(&[(1, 100), (2, 200), (3, 300)]);
    let out = roster.announce(ServerMessage::ClientJoined(3));
    let mut recipients: Vec<u64> = out.iter().map(|o| o.recipient).collect();
    recipients.sort();
    assert_eq!(recipients, vec![1, 2, 3]);
    for o in &out {
        assert_eq!(o.message, ServerMessage::ClientJoined(3));
        assert_eq!(o.channel, ServerChannel::ServerMessages);
    }
}

#[test]
fn announcement_to_empty_roster_sends_nothing() {
    let roster = ActiveClients::empty();
    assert!(roster.announce(ServerMessage::ClientLeft(1)).is_empty());
}

#[test]
fn departure_is_announced_to_the_others_only() {
    let mut roster = roster_of(&[(1, 100), (2, 200), (3, 300)]);
    assert_eq!(roster.remove(2), Some(200));
    let out = roster.announce(ServerMessage::ClientLeft(2));
    let mut recipients: Vec<u64> = out.iter().map(|o| o.recipient).collect();
    recipients.sort();
    assert_eq!(recipients, vec![1, 3]);
}

#[test]
fn clients_stay_in_step_with_the_server() {
    // The server's roster and what each client knows, replayed by the rules.
    let mut server = ActiveClients::empty();
    let mut views: Vec<(u64, ActiveClients)> = Vec::new();
    for (id, entity) in [(10u64, 1u64), (20, 2), (30, 3)] {
        let mut batch = server.connect_client(id, entity);
        batch.extend(server.announce(ServerMessage::ClientJoined(id)));
        views.push((id, ActiveClients::empty()));
        for o in &batch {
            let view = &mut views.iter_mut().find(|(c, _)| *c == o.recipient).unwrap().1;
            view.apply_server_message(o.message, o.recipient + 1000);
        }
    }
    let removed = server.remove(20);
    assert_eq!(removed, Some(2));
    let batch = server.announce(ServerMessage::ClientLeft(20));
    for o in &batch {
        assert_ne!(o.recipient, 20);
        let view = &mut views.iter_mut().find(|(c, _)| *c == o.recipient).unwrap().1;
        view.apply_server_message(o.message, 0);
    }
    let mut expected = server.client_ids();
    expected.sort();
    assert_eq!(expected, vec![10, 30]);
    for (id, view) in &views {
        if *id != 20 {
            let mut known = view.client_ids();
            known.sort();
            assert_eq!(known, expected);
        }
    }
}

#[test]
fn joined_message_records_the_spawned_entity() {
    let mut roster = ActiveClients::empty();
    assert_eq!(entity_to_spawn(ServerMessage::ClientJoined(5)), Some(5));
    assert_eq!(roster.apply_server_message(ServerMessage::ClientJoined(5), 55), None);
    assert_eq!(roster.get(5), Some(55));
}

#[test]
fn left_message_hands_back_entity_to_despawn() {
    let mut roster = roster_of(&[(5, 55)]);
    assert_eq!(entity_to_spawn(ServerMessage::ClientLeft(5)), None);
    assert_eq!(roster.apply_server_message(ServerMessage::ClientLeft(5), 0), Some(55));
    assert_eq!(roster.get(5), None);
    assert_eq!(roster.apply_server_message(ServerMessage::ClientLeft(5), 0), None);
}

#[test]
fn snapshot_entries_match_known_clients_in_order() {
    let roster = roster_of(&[(1, 100), (3, 300)]);
    let matched = roster.match_updates(&vec![3, 2, 1, 4]);
    assert_eq!(matched, vec![(0, 300), (2, 100)]);
    assert!(roster.match_updates(&vec![]).is_empty());
}

#[test]
fn client_id_keeps_low_bits_of_millis() {
    assert_eq!(client_id_from_millis(1_725_029_869_000), 1_725_029_869_000);
    assert_eq!(client_id_from_millis((1u128 << 64) + 5), 5);
    assert_eq!(client_id_from_millis(u128::MAX), u64::MAX);
}
