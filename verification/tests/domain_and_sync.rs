use betsync::domain::{Bet, Round};
use betsync::server::OperationStore;
use betsync::sync::{LamportClock, OperationLog};
use betsync::{BetKind, BetSyncState, Operation, OperationKind, RoundPhase};

fn table(op_id: &str, time: u64, name: &str) -> Operation {
    Operation::fixed(
        op_id,
        "A",
        time,
        OperationKind::CreateTable {
            table_id: "main".to_string(),
            name: name.to_string(),
        },
    )
}

#[test]
fn bet_kinds_parse_print_and_pay_as_documented() {
    assert_eq!(BetKind::parse("ODD"), Ok(BetKind::Odd));
    assert_eq!("even".parse::<BetKind>(), Ok(BetKind::Even));
    assert_eq!(BetKind::parse("exact:4"), Ok(BetKind::Exact(4)));
    assert_eq!(BetKind::parse("Exact6"), Ok(BetKind::Exact(6)));
    assert_eq!(
        BetKind::parse("exact:0"),
        Err("exact bet must be exact:1 through exact:6".to_string())
    );
    assert_eq!(
        BetKind::parse("exact7"),
        Err("exact bet must be exact1 through exact6".to_string())
    );
    assert_eq!(
        BetKind::parse("banana"),
        Err("bet kind must be odd, even, high, low, exact:N, or exactN".to_string())
    );
    assert_eq!(BetKind::Exact(3).as_text(), "exact:3");
    assert_eq!(BetKind::High.as_text(), "high");

    assert!(BetKind::Odd.wins(5));
    assert!(!BetKind::Odd.wins(4));
    assert!(BetKind::Even.wins(2));
    assert!(BetKind::High.wins(4));
    assert!(!BetKind::High.wins(3));
    assert!(BetKind::Low.wins(3));
    assert!(BetKind::Exact(2).wins(2));
    assert!(!BetKind::Exact(2).wins(3));
    assert_eq!(BetKind::Odd.multiplier(), 2);
    assert_eq!(BetKind::Low.multiplier(), 2);
    assert_eq!(BetKind::Exact(1).multiplier(), 6);
}

#[test]
fn rounds_move_through_their_phases_in_order() {
    let mut round = Round::new("round-1", "dealer");
    assert_eq!(round.phase, RoundPhase::Created);
    assert!(!round.close());
    assert!(round.open());
    assert_eq!(round.phase, RoundPhase::BettingOpen);
    assert!(!round.resolve(3));
    assert!(round.close());
    assert!(round.resolve(3));
    assert_eq!(round.phase, RoundPhase::Resolved);
    assert_eq!(round.result, Some(3));
    assert!(!round.open());
}

#[test]
fn lamport_clock_ticks_and_catches_up() {
    let mut clock = LamportClock::new();
    assert_eq!(clock.tick(), 1);
    clock.observe(7);
    assert_eq!(clock.now(), 7);
    clock.observe(3);
    assert_eq!(clock.now(), 7);
    assert_eq!(clock.tick(), 8);
}

#[test]
fn new_operations_carry_replica_time_and_a_random_id() {
    let operation = Operation::new(
        "A",
        3,
        OperationKind::OpenBetting {
            round_id: "round-1".to_string(),
        },
    );
    assert!(operation.op_id.starts_with("A-3-"));
    let unique = &operation.op_id[4..];
    assert_eq!(unique.len(), 32);
    assert!(unique.chars().all(|c| c.is_ascii_hexdigit() && !c.is_ascii_uppercase()));
    assert_eq!(unique.as_bytes()[12], b'4');
    assert!(matches!(unique.as_bytes()[16], b'8' | b'9' | b'a' | b'b'));
    let other = Operation::new(
        "A",
        3,
        OperationKind::OpenBetting {
            round_id: "round-1".to_string(),
        },
    );
    assert_ne!(operation.op_id, other.op_id);
}

#[test]
fn operation_log_keeps_one_operation_per_id_in_replay_order() {
    let mut log = OperationLog::default();
    assert!(log.insert(table("z", 2, "late")));
    assert!(log.insert(table("y", 1, "early")));
    assert!(!log.insert(table("y", 1, "other")));
    let added = log.merge(vec![table("x", 1, "tie"), table("z", 2, "again")]);
    assert_eq!(added, 1);
    let sorted: Vec<String> = log
        .sorted_operations()
        .into_iter()
        .map(|operation| operation.op_id)
        .collect();
    assert_eq!(sorted, vec!["x".to_string(), "y".to_string(), "z".to_string()]);
}

#[test]
fn store_hands_out_what_a_client_has_not_seen() {
    let mut store = OperationStore::default();
    assert!(store.insert(table("a", 1, "one")));
    assert!(store.insert(table("b", 2, "two")));
    assert!(!store.insert(table("a", 1, "one")));
    assert_eq!(store.len(), 2);
    let missing = store.missing_for(&["a".to_string()]);
    assert_eq!(missing.len(), 1);
    assert_eq!(missing[0].op_id, "b");
    assert_eq!(store.missing_for(&[]).len(), 2);
}

#[test]
fn state_reports_the_active_round_and_the_table_name() {
    let operations = vec![
        table("t1", 1, "first"),
        table("t2", 2, "second"),
        Operation::fixed(
            "r1",
            "A",
            3,
            OperationKind::CreateRound {
                round_id: "round-1".to_string(),
                dealer_id: "dealer".to_string(),
            },
        ),
        Operation::fixed(
            "r2",
            "A",
            4,
            OperationKind::CreateRound {
                round_id: "round-2".to_string(),
                dealer_id: "dealer".to_string(),
            },
        ),
        Operation::fixed(
            "close",
            "A",
            5,
            OperationKind::CloseBetting {
                round_id: "round-2".to_string(),
            },
        ),
    ];
    let state = BetSyncState::from_operations(&operations);
    assert_eq!(state.table_name.value, Some("second".to_string()));
    assert_eq!(state.active_round_id(), Some("round-2".to_string()));
    assert_eq!(state.round_phase("round-1"), Some(RoundPhase::Created));
    assert_eq!(state.round_phase("round-3"), None);
    assert!(state.rejected_operations.contains_key(&"close".to_string()));
    assert_eq!(state.player_balance("nobody"), 0);
    assert_eq!(state.available_rights("nobody", "A"), 0);
    let bets: Vec<Bet> = Vec::new();
    assert_eq!(state.visible_bets().len(), bets.len());
}

fn round_op(op_id: &str, replica: &str, time: u64, kind: OperationKind) -> Operation {
    Operation::fixed(op_id, replica, time, kind)
}

#[test]
fn a_bet_placed_while_betting_was_open_at_its_origin_counts_after_a_close() {
    let operations = vec![
        round_op(
            "join",
            "A",
            1,
            OperationKind::JoinTable {
                table_id: "main".to_string(),
                player_id: "liam".to_string(),
                display_name: "Liam".to_string(),
                starting_chips: 100,
                initial_rights: betsync::collections::SortedMap::new(),
            },
        ),
        round_op(
            "create",
            "A",
            2,
            OperationKind::CreateRound {
                round_id: "round-1".to_string(),
                dealer_id: "dealer".to_string(),
            },
        ),
        round_op("open", "A", 3, OperationKind::OpenBetting { round_id: "round-1".to_string() }),
        round_op("close", "B", 4, OperationKind::CloseBetting { round_id: "round-1".to_string() }),
        round_op(
            "late-bet",
            "A",
            5,
            OperationKind::PlaceBet {
                bet_id: "bet-1".to_string(),
                player_id: "liam".to_string(),
                round_id: "round-1".to_string(),
                amount: 30,
                bet_kind: BetKind::Odd,
                origin_round_phase: RoundPhase::BettingOpen,
            },
        ),
        round_op(
            "closed-bet",
            "A",
            6,
            OperationKind::PlaceBet {
                bet_id: "bet-2".to_string(),
                player_id: "liam".to_string(),
                round_id: "round-1".to_string(),
                amount: 10,
                bet_kind: BetKind::Even,
                origin_round_phase: RoundPhase::BettingClosed,
            },
        ),
    ];
    let state = BetSyncState::from_operations(&operations);
    assert_eq!(state.round_phase("round-1"), Some(RoundPhase::BettingClosed));
    assert_eq!(state.visible_bets().len(), 1);
    assert_eq!(state.player_balance("liam"), 70);
    assert_eq!(state.available_rights("liam", "A"), 70);
    assert!(!state.rejected_operations.contains_key(&"late-bet".to_string()));
    assert!(state.rejected_operations.contains_key(&"closed-bet".to_string()));
}

#[test]
fn every_bet_kind_reads_back_from_its_text_in_any_case() {
    let mut kinds = vec![BetKind::Odd, BetKind::Even, BetKind::High, BetKind::Low];
    for n in 1..=6u8 {
        kinds.push(BetKind::Exact(n));
    }
    for kind in kinds {
        let text = kind.as_text();
        assert_eq!(text.parse::<BetKind>(), Ok(kind));
        assert_eq!(BetKind::parse(&text.to_ascii_uppercase()), Ok(kind));
    }
    assert_eq!(BetKind::parse("ODD"), Ok(BetKind::Odd));
    assert_eq!(BetKind::parse("exact4"), Ok(BetKind::Exact(4)));
    assert!(BetKind::parse("exact:7").is_err());
    assert!(BetKind::parse("exact0").is_err());
    assert!(BetKind::parse("exact:x").is_err());
    assert!(BetKind::parse("seven").is_err());
}

#[test]
fn rebuilding_from_a_permutation_of_the_operations_gives_the_same_state() {
    let operations = vec![
        table("t1", 1, "first"),
        table("t2", 2, "second"),
        Operation::fixed(
            "r1",
            "B",
            2,
            OperationKind::CreateRound {
                round_id: "round-1".to_string(),
                dealer_id: "dealer".to_string(),
            },
        ),
        Operation::fixed("o1", "A", 3, OperationKind::OpenBetting { round_id: "round-1".to_string() }),
    ];
    let mut reversed = operations.clone();
    reversed.reverse();
    let forward = BetSyncState::from_operations(&operations);
    let backward = BetSyncState::from_operations(&reversed);
    assert_eq!(forward, backward);
    assert_eq!(forward.round_phase("round-1"), Some(RoundPhase::BettingOpen));
    assert_eq!(forward.table_name.value, Some("second".to_string()));
}
