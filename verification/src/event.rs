//! Events of the single-station simulation driven by [`crate::sim::Simulation`].

use vstd::prelude::*;

use crate::heap::Keyed;

verus! {

#[derive(Debug, Clone, Copy, PartialEq, Eq, Structural)]
pub enum EventKind {
    Arrival { job_id: u64 },
    Departure { job_id: u64, server_id: usize },
}

/// A timestamped event; `timestamp` is an order key (smaller is earlier).
#[derive(Debug, Clone, Copy)]
pub struct Event {
    pub timestamp: u64,
    pub kind: EventKind,
}

impl Event {
    pub fn new(timestamp: u64, kind: EventKind) -> (e: Self)
        ensures
            e.timestamp == timestamp,
            e.kind == kind,
    {
        Event { timestamp, kind }
    }
}

impl Keyed for Event {
    open spec fn primary(&self) -> u64 {
        self.timestamp
    }

    open spec fn secondary(&self) -> u64 {
        0
    }

    fn keys(&self) -> (r: (u64, u64)) {
        (self.timestamp, 0)
    }
}

} // verus!
