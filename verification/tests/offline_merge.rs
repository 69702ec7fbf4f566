use betsync::collections::SortedMap;
use betsync::{BetKind, LocalClient};

#[test]
fn offline_clients_merge_to_the_same_state() {
    let mut rights: SortedMap<String, u64> = SortedMap::new();
    rights.insert("A".to_string(), 60);
    rights.insert("B".to_string(), 40);

    let mut a = LocalClient::new("A");
    a.create_table("Offline Merge");
    a.join_table_with_rights("liam", "Liam", 100, rights);
    a.start_round("round-1", "dealer");

    let mut b = LocalClient::new("B");
    b.ingest_many(a.log.operations.clone());

    a.set_online(false);
    b.set_online(false);
    a.place_bet("liam", "round-1", 50, BetKind::Odd).unwrap();
    b.place_bet("liam", "round-1", 30, BetKind::Even).unwrap();

    a.ingest_many(b.log.operations.clone());
    b.ingest_many(a.log.operations.clone());

    assert_eq!(a.state, b.state);
    assert_eq!(a.state.visible_bets().len(), 2);
    assert_eq!(a.state.player_balance("liam"), 20);
    assert_eq!(a.state.available_rights("liam", "A"), 10);
    assert_eq!(a.state.available_rights("liam", "B"), 10);
}

#[test]
fn offline_operations_are_queued_once_and_handed_over() {
    let mut a = LocalClient::new("A");
    a.create_table("Queue");
    assert!(a.is_online());
    assert!(a.take_unsynced().is_empty());

    a.set_online(false);
    assert!(!a.is_online());
    let joined = a.join_table("liam", "Liam", 100);
    let created = a.create_round("round-1", "dealer");
    a.queue_unsynced(joined.clone());

    let queued = a.take_unsynced();
    assert_eq!(queued.len(), 2);
    assert_eq!(queued[0].op_id, joined.op_id);
    assert_eq!(queued[1].op_id, created.op_id);
    assert!(a.take_unsynced().is_empty());
}
