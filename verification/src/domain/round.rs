//! A betting round and its lifecycle: Created -> BettingOpen -> BettingClosed -> Resolved.
use vstd::prelude::*;
use crate::text::{Duplicate, SameValue};

verus! {

#[derive(Debug, Copy, Clone, PartialEq, Eq, Structural, PartialOrd, Ord)]
pub enum RoundPhase {
    Created,
    BettingOpen,
    BettingClosed,
    Resolved,
}

#[derive(Debug, Clone, PartialEq, Eq)]
pub struct Round {
    pub id: String,
    pub dealer_id: String,
    pub phase: RoundPhase,
    pub result: Option<u8>,
}

/// The model of a round.
pub struct RoundModel {
    pub id: Seq<char>,
    pub dealer_id: Seq<char>,
    pub phase: RoundPhase,
    pub result: Option<u8>,
}

impl DeepView for Round {
    type V = RoundModel;

    open spec fn deep_view(&self) -> RoundModel {
        RoundModel { id: self.id@, dealer_id: self.dealer_id@, phase: self.phase, result: self.result }
    }
}

impl View for Round {
    type V = RoundModel;

    open spec fn view(&self) -> RoundModel {
        self.deep_view()
    }
}

pub open spec fn round_new(id: Seq<char>, dealer_id: Seq<char>) -> RoundModel {
    RoundModel { id, dealer_id, phase: RoundPhase::Created, result: None }
}

/// Opening betting: allowed only from `Created`.
pub open spec fn round_open(r: RoundModel) -> (RoundModel, bool) {
    if r.phase != RoundPhase::Created {
        (r, false)
    } else {
        (RoundModel { phase: RoundPhase::BettingOpen, ..r }, true)
    }
}

/// Closing betting: allowed only from `BettingOpen`.
pub open spec fn round_close(r: RoundModel) -> (RoundModel, bool) {
    if r.phase != RoundPhase::BettingOpen {
        (r, false)
    } else {
        (RoundModel { phase: RoundPhase::BettingClosed, ..r }, true)
    }
}

/// Resolving with a dice result: allowed only from `BettingClosed` and for a result
/// from 1 to 6.
pub open spec fn round_resolve(r: RoundModel, dice: u8) -> (RoundModel, bool) {
    if r.phase != RoundPhase::BettingClosed || !(1 <= dice <= 6) {
        (r, false)
    } else {
        (RoundModel { phase: RoundPhase::Resolved, result: Some(dice), ..r }, true)
    }
}

impl Round {
    pub fn new(id: &str, dealer_id: &str) -> (r: Self)
        ensures
            r@ == round_new(id@, dealer_id@),
    {
        Round { id: id.to_owned(), dealer_id: dealer_id.to_owned(), phase: RoundPhase::Created, result: None }
    }

    pub fn open(&mut self) -> (changed: bool)
        ensures
            (final(self)@, changed) == round_open(old(self)@),
    {
        if self.phase != RoundPhase::Created {
            return false;
        }
        self.phase = RoundPhase::BettingOpen;
        true
    }

    pub fn close(&mut self) -> (changed: bool)
        ensures
            (final(self)@, changed) == round_close(old(self)@),
    {
        if self.phase != RoundPhase::BettingOpen {
            return false;
        }
        self.phase = RoundPhase::BettingClosed;
        true
    }

    pub fn resolve(&mut self, dice: u8) -> (changed: bool)
        ensures
            (final(self)@, changed) == round_resolve(old(self)@, dice),
    {
        if self.phase != RoundPhase::BettingClosed || !(1 <= dice && dice <= 6) {
            return false;
        }
        self.phase = RoundPhase::Resolved;
        self.result = Some(dice);
        true
    }
}

impl SameValue for Round {
    fn same_value(&self, other: &Self) -> (r: bool) {
        let same_result = match (self.result, other.result) {
            (Some(x), Some(y)) => x == y,
            (None, None) => true,
            _ => false,
        };
        self.id.same_value(&other.id) && self.dealer_id.same_value(&other.dealer_id) && self.phase == other.phase
            && same_result
    }
}

impl Duplicate for Round {
    open spec fn valid(&self) -> bool {
        true
    }

    fn duplicate(&self) -> (r: Self) {
        Round {
            id: self.id.clone(),
            dealer_id: self.dealer_id.clone(),
            phase: self.phase,
            result: self.result,
        }
    }
}

/// The place of a phase in the lifecycle `Created -> BettingOpen -> BettingClosed
/// -> Resolved`.
pub open spec fn phase_rank(p: RoundPhase) -> int {
    match p {
        RoundPhase::Created => 0,
        RoundPhase::BettingOpen => 1,
        RoundPhase::BettingClosed => 2,
        RoundPhase::Resolved => 3,
    }
}

/// A round moves through its lifecycle one phase at a time and never back: each
/// transition is either refused, leaving the round as it was, or moves it to the
/// next phase, keeping its id and dealer; only resolving sets the result.
pub proof fn lemma_round_lifecycle(r: RoundModel, dice: u8)
    ensures
        ({
            let (r2, moved) = round_open(r);
            if moved {
                phase_rank(r2.phase) == phase_rank(r.phase) + 1 && r2 == RoundModel { phase: r2.phase, ..r }
            } else {
                r2 == r
            }
        }),
        ({
            let (r2, moved) = round_close(r);
            if moved {
                phase_rank(r2.phase) == phase_rank(r.phase) + 1 && r2 == RoundModel { phase: r2.phase, ..r }
            } else {
                r2 == r
            }
        }),
        ({
            let (r2, moved) = round_resolve(r, dice);
            if moved {
                phase_rank(r2.phase) == phase_rank(r.phase) + 1 && r2.id == r.id && r2.dealer_id == r.dealer_id
                    && r2.result == Some(dice)
            } else {
                r2 == r
            }
        }),
{
}

/// When each transition is allowed: opening only a created round, closing only an
/// open one, resolving only a closed one and only with a dice result from 1 to 6.
pub proof fn lemma_round_transitions_allowed(r: RoundModel, dice: u8)
    ensures
        round_open(r).1 == (r.phase == RoundPhase::Created),
        round_close(r).1 == (r.phase == RoundPhase::BettingOpen),
        round_resolve(r, dice).1 == (r.phase == RoundPhase::BettingClosed && 1 <= dice && dice <= 6),
        round_open(r).1 ==> round_open(r).0.phase == RoundPhase::BettingOpen,
        round_close(r).1 ==> round_close(r).0.phase == RoundPhase::BettingClosed,
        round_resolve(r, dice).1 ==> round_resolve(r, dice).0.phase == RoundPhase::Resolved,
{
}

} // verus!
