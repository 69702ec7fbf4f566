use betsync::frontend::{ActionRequest, FrontendDemo};

fn action(name: &str, replica: Option<&str>, amount: Option<u64>, bet_kind: Option<&str>) -> ActionRequest {
    ActionRequest {
        action: name.to_string(),
        replica: replica.map(|r| r.to_string()),
        amount,
        bet_kind: bet_kind.map(|k| k.to_string()),
        dice: None,
    }
}

#[test]
fn frontend_demo_applies_offline_bets_and_merges() {
    let mut demo = FrontendDemo::new();
    demo.apply(ActionRequest {
        action: "toggle-online".to_string(),
        replica: Some("B".to_string()),
        amount: None,
        bet_kind: None,
        dice: None,
    });
    demo.apply(ActionRequest {
        action: "bet".to_string(),
        replica: Some("A".to_string()),
        amount: Some(50),
        bet_kind: Some("odd".to_string()),
        dice: None,
    });
    demo.apply(ActionRequest {
        action: "bet".to_string(),
        replica: Some("B".to_string()),
        amount: Some(30),
        bet_kind: Some("even".to_string()),
        dice: None,
    });

    assert!(!demo.snapshot().states_equal);
    demo.apply(ActionRequest {
        action: "toggle-online".to_string(),
        replica: Some("B".to_string()),
        amount: None,
        bet_kind: None,
        dice: None,
    });

    let snapshot = demo.snapshot();
    assert!(snapshot.states_equal);
    assert_eq!(snapshot.clients[0].balance, 20);
    assert_eq!(snapshot.clients[0].bets.len(), 2);
}

#[test]
fn frontend_demo_reports_refusals_and_keeps_the_latest_messages() {
    let mut demo = FrontendDemo::new();
    let snapshot = demo.snapshot();
    assert!(snapshot.states_equal);
    assert_eq!(
        snapshot.messages,
        vec!["demo reset: Liam has 100 chips split as A:60 and B:40".to_string()]
    );
    assert_eq!(snapshot.clients[0].rights_a, 60);
    assert_eq!(snapshot.clients[1].rights_b, 40);
    assert_eq!(snapshot.clients[0].operation_count, 4);

    let snapshot = demo.apply(action("dance", None, None, None));
    assert_eq!(snapshot.messages[0], "rejected: unknown action dance");
    let snapshot = demo.apply(action("bet", Some("C"), None, None));
    assert_eq!(snapshot.messages[0], "rejected: unknown replica C");
    let snapshot = demo.apply(action("bet", Some("A"), Some(61), None));
    assert_eq!(
        snapshot.messages[0],
        "rejected: insufficient spending rights on replica A: have 60, need 61"
    );
    let snapshot = demo.apply(action("bet", None, None, Some("exact:9")));
    assert_eq!(snapshot.messages[0], "rejected: exact bet must be exact:1 through exact:6");
    let snapshot = demo.apply(action("toggle-online", None, None, None));
    assert_eq!(snapshot.messages[0], "rejected: missing replica");
    let snapshot = demo.apply(action("toggle-online", Some("A"), None, None));
    assert_eq!(snapshot.messages[0], "replica A is offline");
    assert!(!snapshot.clients[0].online);
    let snapshot = demo.apply(action("pn-failure", None, None, None));
    assert_eq!(snapshot.pn_failure_balance, Some(-60));
    assert_eq!(snapshot.messages[0], "PN-counter failure calculated");
    demo.apply(action("sync", None, None, None));
    demo.apply(action("sync", None, None, None));
    let snapshot = demo.apply(action("sync", None, None, None));
    assert_eq!(snapshot.messages.len(), 8);
    assert_eq!(snapshot.messages[0], "merged operation logs between A and B");
    assert_eq!(
        snapshot.messages[7],
        "rejected: insufficient spending rights on replica A: have 60, need 61"
    );
}

#[test]
fn frontend_demo_closes_and_resolves_the_round() {
    let mut demo = FrontendDemo::new();
    demo.apply(action("bet", Some("A"), Some(20), Some("odd")));
    let snapshot = demo.apply(action("close-round", None, None, None));
    assert!(snapshot.messages[0].starts_with("replica A closed betting ("));
    let snapshot = demo.apply(ActionRequest {
        action: "resolve-round".to_string(),
        replica: None,
        amount: None,
        bet_kind: None,
        dice: Some(3),
    });
    assert_eq!(
        snapshot.messages[0],
        "replica A resolved round with dice 3; emitted 2 operations"
    );
    assert!(snapshot.states_equal);
    assert_eq!(snapshot.clients[1].balance, 120);
    let round = snapshot.clients[1].round.as_ref().unwrap();
    assert_eq!(round.result, Some(3));
    let snapshot = demo.apply(action("close-round", None, None, None));
    assert_eq!(snapshot.messages[0], "rejected: round round-1 is not open");
}
