//! Event calendar: the priority queue of future events at the heart of the engine.
//!
//! Timestamps are `u64` order keys: a smaller key is an earlier instant.

use vstd::multiset::Multiset;
use vstd::prelude::*;

use crate::heap::{Keyed, MinHeap};

verus! {

broadcast use vstd::seq_lib::group_to_multiset_ensures, vstd::multiset::group_multiset_axioms;

/// What happens at an instant of a single-station simulation.
#[derive(Debug, Clone, Copy, PartialEq, Eq, Structural)]
pub enum EventKind {
    Arrival { job_id: u64 },
    /// `epoch` identifies the service period that scheduled this departure.
    Departure { job_id: u64, server_id: usize, epoch: u64 },
}

/// A timestamped event.
#[derive(Debug, Clone, Copy)]
pub struct Event<K> {
    pub timestamp: u64,
    pub kind: K,
}

impl<K> Event<K> {
    pub fn new(timestamp: u64, kind: K) -> (e: Self)
        ensures
            e.timestamp == timestamp,
            e.kind == kind,
    {
        Event { timestamp, kind }
    }
}

impl<K: Copy> Keyed for Event<K> {
    open spec fn primary(&self) -> u64 {
        self.timestamp
    }

    open spec fn secondary(&self) -> u64 {
        0
    }

    fn keys(&self) -> (r: (u64, u64)) {
        (self.timestamp, 0)
    }
}

/// `e` is a pending event of `m` and nothing in `m` is earlier.
pub open spec fn is_next<E: Keyed>(m: Multiset<E>, e: E) -> bool {
    &&& m.count(e) > 0
    &&& forall|y: E| m.contains(y) ==> e.primary() <= y.primary()
}

/// Min-queue of future events ordered by timestamp.
#[derive(Debug)]
pub struct EventCalendar<E: Keyed + Copy> {
    heap: MinHeap<E>,
}

impl<E: Keyed + Copy> EventCalendar<E> {
    /// The events waiting in the calendar.
    pub closed spec fn pending(&self) -> Multiset<E> {
        self.heap.items()
    }

    pub fn new() -> (c: Self)
        ensures
            c.pending() == Multiset::<E>::empty(),
    {
        EventCalendar { heap: MinHeap::new() }
    }

    pub fn len(&self) -> (n: usize)
        ensures
            n == self.pending().len(),
    {
        self.heap.len()
    }

    pub fn push(&mut self, event: E)
        ensures
            final(self).pending() == old(self).pending().insert(event),
    {
        self.heap.push(event);
    }

    /// The earliest event, left in the calendar, or `None` if the calendar is empty.
    pub fn peek_next(&self) -> (r: Option<E>)
        ensures
            match r {
                None => self.pending().len() == 0,
                Some(e) => is_next(self.pending(), e),
            },
    {
        proof {
            vstd::seq_lib::to_multiset_len(self.heap@);
        }
        self.heap.peek()
    }

    /// Removes and returns the earliest event, or `None` if the calendar is empty.
    pub fn pop_next(&mut self) -> (r: Option<E>)
        ensures
            match r {
                None => old(self).pending().len() == 0 && final(self).pending() == old(self).pending(),
                Some(e) => {
                    &&& is_next(old(self).pending(), e)
                    &&& final(self).pending() == old(self).pending().remove(e)
                    &&& final(self).pending().len() + 1 == old(self).pending().len()
                },
            },
    {
        let r = self.heap.pop();
        proof {
            vstd::seq_lib::to_multiset_len(old(self).heap@);
            vstd::seq_lib::to_multiset_len(self.heap@);
        }
        r
    }

    /// Removes and returns the earliest event when it is due no later than `end`;
    /// otherwise leaves the calendar as it was and returns `None`.
    pub fn pop_until(&mut self, end: u64) -> (r: Option<E>)
        ensures
            match r {
                None => {
                    &&& final(self).pending() == old(self).pending()
                    &&& forall|e: E| #[trigger] old(self).pending().contains(e) ==> end < e.primary()
                },
                Some(e) => {
                    &&& is_next(old(self).pending(), e)
                    &&& e.primary() <= end
                    &&& final(self).pending() == old(self).pending().remove(e)
                },
            },
    {
        match self.pop_next() {
            None => None,
            Some(e) => {
                let (t, _) = e.keys();
                if t > end {
                    self.push(e);
                    proof {
                        assert(self.pending() =~= old(self).pending());
                    }
                    None
                } else {
                    Some(e)
                }
            },
        }
    }
}

/// Events leave the calendar in timestamp order: whatever is popped after the
/// earliest event is no earlier than it.
pub proof fn lemma_pops_in_timestamp_order<E: Keyed>(m: Multiset<E>, first: E, second: E)
    requires
        is_next(m, first),
        is_next(m.remove(first), second),
    ensures
        first.primary() <= second.primary(),
{
    assert(m.contains(second));
}

} // verus!
