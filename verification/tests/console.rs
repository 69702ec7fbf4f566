use betsync::console::{normalize_server_addr, read_u64, Action, Console, Reply};

fn run(console: &mut Console, line: &str) -> Reply {
    console.execute(line)
}

fn lines(reply: &Reply) -> Vec<String> {
    reply.lines.clone()
}

#[test]
fn console_records_a_table_a_split_join_and_a_round() {
    let mut console = Console::new("A", false);
    let reply = run(&mut console, "create-table Friday");
    assert_eq!(reply.publish.len(), 1);
    assert!(matches!(reply.action, Action::Continue));

    let reply = run(&mut console, "join-split liam Liam A:60 broken B:40");
    assert_eq!(lines(&reply), vec!["rights entry must look like A:60".to_string()]);
    assert_eq!(reply.publish.len(), 1);

    let reply = run(&mut console, "start-round");
    assert_eq!(reply.publish.len(), 2);

    let reply = run(&mut console, "balance");
    assert_eq!(lines(&reply), vec!["liam balance: 100".to_string()]);

    let reply = run(&mut console, "bet odd 70");
    assert_eq!(
        lines(&reply),
        vec!["bet rejected: insufficient spending rights on replica A: have 60, need 70".to_string()]
    );
    let reply = run(&mut console, "bet odd 50");
    assert_eq!(reply.publish.len(), 1);

    let reply = run(&mut console, "rights");
    assert_eq!(
        lines(&reply),
        vec![
            "liam@A: 10 rights".to_string(),
            "liam@B: 40 rights".to_string(),
            "total spent: 50".to_string()
        ]
    );

    let reply = run(&mut console, "close-round");
    assert_eq!(reply.publish.len(), 1);
    let reply = run(&mut console, "resolve 3");
    assert_eq!(reply.publish.len(), 2);
    let reply = run(&mut console, "balance liam");
    assert_eq!(lines(&reply), vec!["liam balance: 150".to_string()]);
    assert_eq!(console.replica().state.round_phase("round-3"), Some(betsync::RoundPhase::Resolved));
}

#[test]
fn console_reports_usage_and_unknown_commands() {
    let mut console = Console::new("A", false);
    assert!(matches!(run(&mut console, "   ").action, Action::Continue));
    assert!(matches!(run(&mut console, "help").action, Action::Help));
    assert!(matches!(run(&mut console, "exit").action, Action::Quit));
    assert!(matches!(run(&mut console, "state").action, Action::ShowState));
    assert!(matches!(run(&mut console, "show-log").action, Action::ShowLog));
    assert_eq!(
        lines(&run(&mut console, "online")),
        vec!["no --server was configured".to_string()]
    );
    assert_eq!(
        lines(&run(&mut console, "dance")),
        vec!["unknown command dance; try help".to_string()]
    );
    assert_eq!(
        lines(&run(&mut console, "bet odd")),
        vec!["usage: bet <odd|even|high|low|exactN> <amount> [player_id] [round_id]".to_string()]
    );
    assert_eq!(
        lines(&run(&mut console, "bet odd 5")),
        vec!["join first or pass player_id".to_string()]
    );
    assert_eq!(
        lines(&run(&mut console, "bet odd 5 liam")),
        vec!["start a round first or pass round_id".to_string()]
    );
    assert_eq!(
        lines(&run(&mut console, "balance")),
        vec!["usage: balance [player_id]".to_string()]
    );
    assert_eq!(
        lines(&run(&mut console, "rights nobody")),
        vec!["nobody has no spending-right counter".to_string()]
    );
    assert_eq!(
        lines(&run(&mut console, "resend x")),
        vec!["unknown operation x".to_string()]
    );
    assert_eq!(
        lines(&run(&mut console, "close-round")),
        vec!["usage: close-round [round_id]".to_string()]
    );
    match run(&mut console, "bet banana 5").action {
        Action::Fail(message) => assert_eq!(
            message,
            "bet kind must be odd, even, high, low, exact:N, or exactN"
        ),
        other => panic!("unexpected {other:?}"),
    }
    match run(&mut console, "resolve seven").action {
        Action::Fail(message) => assert_eq!(message, "parse dice result"),
        other => panic!("unexpected {other:?}"),
    }
    match run(&mut console, "join-split liam Liam A:x B:1").action {
        Action::Fail(message) => assert_eq!(message, "parse rights amount"),
        other => panic!("unexpected {other:?}"),
    }
}

#[test]
fn console_queues_offline_work_and_hands_it_over_on_reconnect() {
    let mut console = Console::new("B", true);
    let reply = run(&mut console, "offline");
    assert!(matches!(reply.action, Action::Disconnect));
    assert_eq!(lines(&reply), vec!["offline mode enabled".to_string()]);
    run(&mut console, "join Sam");
    assert_eq!(
        console.replica().state.player_balance("sam"),
        100
    );
    assert!(matches!(run(&mut console, "online").action, Action::Reconnect));
    let failed = console.reconnect_failed("refused");
    assert_eq!(failed, "could not reconnect: refused");
    let (queued, line) = console.reconnected();
    assert_eq!(queued.len(), 1);
    assert_eq!(line, "online; sent 1 queued operations");
    let reply = run(&mut console, &format!("resend {}", queued[0].op_id));
    assert_eq!(reply.publish.len(), 1);
    assert_eq!(reply.after, vec![format!("resent {}", queued[0].op_id)]);

    console.send_failed(queued[0].clone());
    assert!(!console.replica().is_online());

    let mut other = Console::new("C", false);
    assert!(other.receive(queued[0].clone()));
    assert!(!other.receive(queued[0].clone()));
    assert_eq!(other.replica().state.player_balance("sam"), 100);
}

#[test]
fn numbers_and_addresses_are_read_as_the_command_line_expects() {
    assert_eq!(read_u64("42"), Some(42));
    assert_eq!(read_u64("+7"), Some(7));
    assert_eq!(read_u64("18446744073709551615"), Some(u64::MAX));
    assert_eq!(read_u64("18446744073709551616"), None);
    assert_eq!(read_u64("-1"), None);
    assert_eq!(read_u64(""), None);
    assert_eq!(read_u64("+"), None);
    assert_eq!(read_u64("12a"), None);
    assert_eq!(normalize_server_addr("localhost"), "localhost:8080");
    assert_eq!(normalize_server_addr("10.0.0.1:9000"), "10.0.0.1:9000");
}

#[test]
fn first_split_join_on_a_new_console_is_sent_at_lamport_time_one() {
    let mut console = Console::new("A", true);
    let reply = run(&mut console, "join-split liam Liam A:60 B:40");
    assert_eq!(reply.publish.len(), 1);
    let operation = &reply.publish[0];
    assert_eq!(operation.replica_id, "A");
    assert_eq!(operation.lamport_time, 1);
    match &operation.kind {
        betsync::OperationKind::JoinTable {
            table_id,
            player_id,
            display_name,
            starting_chips,
            initial_rights,
        } => {
            assert_eq!(table_id, "main");
            assert_eq!(player_id, "liam");
            assert_eq!(display_name, "Liam");
            assert_eq!(*starting_chips, 100);
            assert_eq!(initial_rights.len(), 2);
            assert_eq!(initial_rights.get(&"A".to_string()), Some(&60));
            assert_eq!(initial_rights.get(&"B".to_string()), Some(&40));
        }
        other => panic!("unexpected {other:?}"),
    }
    assert!(console.replica().unsynced_operations.is_empty());
}
