//! The local client: creates operations, applies them at once, queues them while
//! offline, and rebuilds its state from its operation log.
pub mod client;
pub mod convergence;

pub use client::LocalClient;
