//! A Lamport clock: ticks for local events and catches up with observed times.
use vstd::prelude::*;

verus! {

#[derive(Debug, Clone, PartialEq, Eq)]
pub struct LamportClock {
    time: u64,
}

impl View for LamportClock {
    type V = u64;

    closed spec fn view(&self) -> u64 {
        self.time
    }
}

impl LamportClock {
    pub fn new() -> (r: Self)
        ensures
            r@ == 0,
    {
        LamportClock { time: 0 }
    }

    /// Advances the clock by one and returns the new time.
    pub fn tick(&mut self) -> (t: u64)
        requires
            old(self)@ < u64::MAX,
        ensures
            final(self)@ == old(self)@ + 1,
            t == final(self)@,
    {
        self.time = self.time + 1;
        self.time
    }

    /// Moves the clock up to `remote_time` if that is later.
    pub fn observe(&mut self, remote_time: u64)
        ensures
            final(self)@ == if old(self)@ >= remote_time { old(self)@ } else { remote_time },
    {
        if remote_time > self.time {
            self.time = remote_time;
        }
    }

    pub fn now(&self) -> (t: u64)
        ensures
            t == self@,
    {
        self.time
    }
}

impl Default for LamportClock {
    fn default() -> (r: Self)
        ensures
            r@ == 0,
    {
        Self::new()
    }
}

} // verus!
