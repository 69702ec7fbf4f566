//! The betting domain: dice bets, rounds and the state rebuilt from operations.
pub mod bet;
pub mod round;
pub mod state;

pub use bet::{Bet, BetKind};
pub use round::{Round, RoundPhase};
pub use state::BetSyncState;
