//! BetSync: replicated fake-chip betting built on custom CRDTs, an operation log
//! with Lamport ordering, and deterministic state reconstruction.
pub mod collections;
pub mod crdt;
pub mod domain;
pub mod text;
pub mod sync;
pub mod client;
pub mod server;
pub mod frontend;
pub mod simulation;
mod scenario;
pub mod console;

pub use client::LocalClient;
pub use domain::{BetKind, BetSyncState, RoundPhase};
pub use sync::{Operation, OperationKind};
