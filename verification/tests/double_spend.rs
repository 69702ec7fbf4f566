use betsync::collections::SortedMap;
use betsync::crdt::PNCounter;
use betsync::{BetKind, LocalClient};

#[test]
fn pn_counter_converges_but_can_produce_negative_balance() {
    let mut base = PNCounter::default();
    base.increment("bank", 100);

    let mut replica_a = base.clone();
    let mut replica_b = base;
    replica_a.decrement("A", 80);
    replica_b.decrement("B", 80);

    let merged = replica_a.merge(&replica_b);
    assert_eq!(merged.value(), -60);
}

#[test]
fn bounded_spending_rights_prevent_offline_double_spend() {
    let mut rights: SortedMap<String, u64> = SortedMap::new();
    rights.insert("A".to_string(), 60);
    rights.insert("B".to_string(), 40);

    let mut a = LocalClient::new("A");
    a.create_table("Bounded");
    a.join_table_with_rights("liam", "Liam", 100, rights);
    a.start_round("round-1", "dealer");

    let mut b = LocalClient::new("B");
    b.ingest_many(a.log.operations.clone());

    assert!(a.place_bet("liam", "round-1", 80, BetKind::Odd).is_err());
    assert!(b.place_bet("liam", "round-1", 80, BetKind::Even).is_err());

    a.place_bet("liam", "round-1", 50, BetKind::Odd).unwrap();
    b.place_bet("liam", "round-1", 30, BetKind::Even).unwrap();

    a.ingest_many(b.log.operations.clone());
    b.ingest_many(a.log.operations.clone());

    assert_eq!(a.state, b.state);
    assert_eq!(a.state.player_balance("liam"), 20);
    assert!(a.state.player_balance("liam") >= 0);
}

#[test]
fn refused_bet_reports_the_rights_of_the_replica() {
    let mut a = LocalClient::new("A");
    a.create_table("Refusals");
    a.join_table("liam", "Liam", 100);
    a.start_round("round-1", "dealer");

    let error = a.place_bet("liam", "round-1", 150, BetKind::High).unwrap_err();
    assert_eq!(error, "insufficient spending rights on replica A: have 100, need 150");
    assert_eq!(
        a.place_bet("nobody", "round-1", 1, BetKind::High).unwrap_err(),
        "player nobody has not joined"
    );
    assert_eq!(
        a.place_bet("liam", "round-9", 1, BetKind::High).unwrap_err(),
        "round round-9 does not exist"
    );
    a.close_betting("round-1").unwrap();
    assert_eq!(
        a.place_bet("liam", "round-1", 1, BetKind::High).unwrap_err(),
        "round round-1 is not open for betting"
    );
    assert_eq!(a.close_betting("round-1").unwrap_err(), "round round-1 is not open");
    assert_eq!(
        a.resolve_round("round-1", 7).unwrap_err(),
        "dice result must be 1 through 6"
    );
    assert_eq!(
        a.resolve_round("round-2", 3).unwrap_err(),
        "round round-2 is not closed"
    );
    assert_eq!(
        a.transfer_spending_rights("liam", "B", 101).unwrap_err(),
        "insufficient spending rights on replica A: have 100, need 101"
    );
}

#[test]
fn transferred_rights_can_be_spent_on_the_receiving_replica() {
    let mut a = LocalClient::new("A");
    a.create_table("Transfers");
    a.join_table("liam", "Liam", 100);
    a.start_round("round-1", "dealer");
    a.transfer_spending_rights("liam", "B", 70).unwrap();
    assert_eq!(a.state.available_rights("liam", "A"), 30);
    assert_eq!(a.state.available_rights("liam", "B"), 70);

    let mut b = LocalClient::new("B");
    b.ingest_many(a.log.operations.clone());
    assert!(b.place_bet("liam", "round-1", 70, BetKind::Odd).is_ok());
    assert!(b.place_bet("liam", "round-1", 1, BetKind::Odd).is_err());
}

#[test]
fn rights_stay_non_negative_after_offline_transfers_and_bets_merge() {
    let mut rights: SortedMap<String, u64> = SortedMap::new();
    rights.insert("A".to_string(), 60);
    rights.insert("B".to_string(), 40);

    let mut a = LocalClient::new("A");
    a.create_table("Rights");
    a.join_table_with_rights("liam", "Liam", 100, rights);
    a.start_round("round-1", "dealer");
    let mut b = LocalClient::new("B");
    b.ingest_many(a.log.operations.clone());
    a.set_online(false);
    b.set_online(false);

    a.transfer_spending_rights("liam", "B", 60).unwrap();
    assert!(a.place_bet("liam", "round-1", 1, BetKind::Odd).is_err());
    b.place_bet("liam", "round-1", 40, BetKind::Even).unwrap();
    assert!(b.place_bet("liam", "round-1", 1, BetKind::Even).is_err());

    a.ingest_many(b.log.operations.clone());
    b.ingest_many(a.log.operations.clone());

    assert_eq!(a.state, b.state);
    assert_eq!(a.state.available_rights("liam", "A"), 0);
    assert_eq!(a.state.available_rights("liam", "B"), 60);
    assert_eq!(a.state.player_balance("liam"), 60);
}
