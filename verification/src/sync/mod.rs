//! Operations, their Lamport clock, the operation log and the wire messages.
pub mod lamport_clock;
pub mod operation;
pub mod operation_log;
pub mod protocol;

pub use lamport_clock::LamportClock;
pub use operation::{Operation, OperationKind};
pub use operation_log::OperationLog;
