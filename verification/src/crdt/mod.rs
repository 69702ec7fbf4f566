//! The replicated data types: last-writer-wins register, observed-remove set,
//! positive-negative counter and bounded counter of spending rights.
pub mod bounded_counter;
pub mod lww_register;
pub mod or_set;
pub mod pn_counter;

pub use bounded_counter::BoundedCounter;
pub use lww_register::LwwRegister;
pub use or_set::OrSet;
pub use pn_counter::PNCounter;
