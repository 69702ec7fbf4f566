use betsync::server::session::{accept, greet};
use betsync::server::OperationStore;
use betsync::sync::protocol::ClientWireMessage;
use betsync::{Operation, OperationKind};

fn op(id: &str, time: u64) -> Operation {
    Operation::fixed(
        id,
        "A",
        time,
        OperationKind::OpenBetting {
            round_id: "round-1".to_string(),
        },
    )
}

#[test]
fn server_greets_with_the_missing_operations_and_relays_new_ones() {
    let mut store = OperationStore::default();
    let (relayed, line) = accept(&mut store, ClientWireMessage::Operation(op("a-1", 1))).unwrap();
    assert_eq!(relayed.op_id, "a-1");
    assert_eq!(line, "accepted operation a-1 from A; log size 1");
    assert!(accept(&mut store, ClientWireMessage::Operation(op("a-1", 1))).is_none());
    accept(&mut store, ClientWireMessage::Operation(op("a-2", 2))).unwrap();
    assert!(accept(
        &mut store,
        ClientWireMessage::Hello {
            replica_id: "B".to_string(),
            seen_operations: vec![],
        }
    )
    .is_none());

    let hello = ClientWireMessage::Hello {
        replica_id: "B".to_string(),
        seen_operations: vec!["a-1".to_string()],
    };
    let (greeting, missing) = greet(&store, &hello).unwrap();
    assert_eq!(greeting, "connected as B; sending 1 missing operations");
    assert_eq!(missing.len(), 1);
    assert_eq!(missing[0].op_id, "a-2");

    assert_eq!(
        greet(&store, &ClientWireMessage::Operation(op("a-3", 3))).unwrap_err(),
        "first message must be Hello"
    );
}

#[test]
fn a_client_that_takes_in_the_missing_operations_holds_every_stored_id() {
    let mut store = OperationStore::default();
    for (id, time) in [("a-1", 1), ("a-2", 2), ("a-3", 3)] {
        accept(&mut store, ClientWireMessage::Operation(op(id, time))).unwrap();
    }
    let mut log = betsync::sync::OperationLog::default();
    assert!(log.insert(op("a-2", 2)));
    assert!(log.insert(op("b-9", 9)));

    let hello = ClientWireMessage::Hello {
        replica_id: "B".to_string(),
        seen_operations: log.ids(),
    };
    let (greeting, missing) = greet(&store, &hello).unwrap();
    assert_eq!(greeting, "connected as B; sending 2 missing operations");
    assert_eq!(log.merge(missing), 2);
    for id in ["a-1", "a-2", "a-3", "b-9"] {
        assert!(log.contains(id));
    }
}
