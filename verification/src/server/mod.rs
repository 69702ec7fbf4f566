//! The sync server's store of operations and its decisions for each connection.
pub mod operation_store;
pub mod session;

pub use operation_store::OperationStore;
