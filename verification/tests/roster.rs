use multiplayer::roster::ActiveClients;

#[test]
fn empty_roster_has_no_client() {
    let roster = ActiveClients::empty();
    assert_eq!(roster.len(), 0);
    assert_eq!(roster.get(1), None);
    assert!(!roster.contains(1));
    assert!(roster.client_ids().is_empty());
}

#[test]
fn insert_then_get_gives_the_entity() {
    let mut roster = ActiveClients::empty();
    assert_eq!(roster.insert(7, 70), None);
    assert_eq!(roster.get(7), Some(70));
    assert!(roster.contains(7));
    assert_eq!(roster.len(), 1);
}

#[test]
fn insert_again_replaces_and_returns_previous() {
    let mut roster = ActiveClients::empty();
    roster.insert(7, 70);
    assert_eq!(roster.insert(7, 71), Some(70));
    assert_eq!(roster.get(7), Some(71));
    assert_eq!(roster.len(), 1);
}

#[test]
fn remove_returns_entity_then_forgets() {
    let mut roster = ActiveClients::empty();
    roster.insert(1, 10);
    roster.insert(2, 20);
    assert_eq!(roster.remove(1), Some(10));
    assert_eq!(roster.get(1), None);
    assert_eq!(roster.remove(1), None);
    assert_eq!(roster.get(2), Some(20));
    assert_eq!(roster.len(), 1);
}

#[test]
fn insert_then_remove_restores_roster() {
    let mut roster = ActiveClients::empty();
    roster.insert(1, 10);
    roster.insert(5, 50);
    roster.remove(5);
    let mut ids = roster.client_ids();
    ids.sort();
    assert_eq!(ids, vec![1]);
    assert_eq!(roster.get(1), Some(10));
}

#[test]
fn client_ids_lists_each_client_once() {
    let mut roster = ActiveClients::empty();
    for id in [3u64, 1, 2, 3] {
        roster.insert(id, id * 10);
    }
    let mut ids = roster.client_ids();
    ids.sort();
    assert_eq!(ids, vec![1, 2, 3]);
}

#[test]
fn clients_keep_entities_of_their_own() {
    let mut roster = ActiveClients::empty();
    roster.connect_client(1, 10);
    roster.connect_client(2, 20);
    roster.connect_client(3, 30);
    roster.remove(2);
    roster.connect_client(4, 40);
    let ids = roster.client_ids();
    let mut entities: Vec<u64> = ids.iter().map(|id| roster.get(*id).unwrap()).collect();
    entities.sort();
    entities.dedup();
    assert_eq!(entities.len(), ids.len());
    assert_eq!(entities, vec![10, 30, 40]);
}
