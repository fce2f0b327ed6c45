//! Monotonically-advancing simulation clock.

use vstd::prelude::*;

verus! {

/// The current simulated instant, as an order key (smaller is earlier; 0 is the start).
#[derive(Debug, Default, Clone, Copy)]
pub struct SimClock {
    pub time: u64,
}

impl SimClock {
    pub fn new() -> (c: Self)
        ensures
            c.time == 0,
    {
        SimClock { time: 0 }
    }

    /// Advance to `t`; time never goes backwards.
    pub fn advance_to(&mut self, t: u64)
        requires
            old(self).time <= t,
        ensures
            final(self).time == t,
            old(self).time <= final(self).time,
    {
        self.time = t;
    }
}

} // verus!
