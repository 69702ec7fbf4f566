use betsync::frontend::{route, Route};
use betsync::simulation::{pn_double_spend_balance, simulate_double_spend, simulate_offline_merge, split_table};

#[test]
fn offline_merge_scenario_converges_with_both_bets() {
    let report = simulate_offline_merge().unwrap();
    assert_eq!(report.a_bets, 2);
    assert_eq!(report.b_bets, 2);
    assert_eq!(report.a_balance, 20);
    assert_eq!(report.b_balance, 20);
    assert!(report.states_equal);
    assert_ne!(report.a_operation, report.b_operation);
}

#[test]
fn double_spend_scenario_contrasts_the_two_counters() {
    assert_eq!(pn_double_spend_balance(), Some(-60));
    let report = simulate_double_spend().unwrap();
    assert_eq!(report.pn_balance, -60);
    assert!(report.a_rejected);
    assert!(report.b_rejected);
    assert_eq!(report.merged_balance, 20);
    assert_eq!(report.rights_a, 10);
    assert_eq!(report.rights_b, 10);
    assert!(report.states_equal);
}

#[test]
fn split_table_copies_the_setup_to_replica_b() {
    let (a, b) = split_table("Setup");
    assert_eq!(a.log.operations.len(), 4);
    assert_eq!(a.state, b.state);
    assert_eq!(b.state.available_rights("liam", "B"), 40);
    assert_eq!(b.clock.now(), 4);
}

#[test]
fn demo_requests_are_routed_by_method_and_path() {
    assert_eq!(route("GET", "/"), Route::Index);
    assert_eq!(route("GET", "/index.html"), Route::Index);
    assert_eq!(route("GET", "/styles.css"), Route::Styles);
    assert_eq!(route("GET", "/app.js"), Route::Script);
    assert_eq!(route("GET", "/api/state"), Route::State);
    assert_eq!(route("POST", "/api/action"), Route::Action);
    assert_eq!(route("POST", "/api/state"), Route::NotFound);
    assert_eq!(route("GET", "/missing"), Route::NotFound);
}
