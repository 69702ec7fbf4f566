//! The messages that clients and the sync server exchange, one JSON object per line.
use vstd::prelude::*;
use crate::sync::Operation;

verus! {

/// What a client sends: a greeting with the operations it has seen, then operations.
#[derive(Debug, Clone)]
pub enum ClientWireMessage {
    Hello { replica_id: String, seen_operations: Vec<String> },
    Operation(Operation),
}

/// What the server sends: informational text and operations.
#[derive(Debug, Clone)]
pub enum ServerWireMessage {
    Info { message: String },
    Operation(Operation),
}

} // verus!
