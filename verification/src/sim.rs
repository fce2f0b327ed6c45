//! Single-station simulation loop: drains the event calendar in timestamp order.

use vstd::multiset::Multiset;
use vstd::prelude::*;

use crate::calendar::{is_next, EventCalendar};
use crate::clock::SimClock;
use crate::event::Event;

verus! {

broadcast use vstd::seq_lib::group_to_multiset_ensures, vstd::multiset::group_multiset_axioms;

#[derive(Debug)]
pub struct Simulation {
    pub clock: SimClock,
    calendar: EventCalendar<Event>,
}

impl Default for Simulation {
    fn default() -> (s: Self)
        ensures
            s.now() == 0,
            s.pending() == Multiset::<Event>::empty(),
    {
        Simulation::new()
    }
}

impl Simulation {
    /// Events scheduled but not yet processed.
    pub closed spec fn pending(&self) -> Multiset<Event> {
        self.calendar.pending()
    }

    /// The clock's current instant.
    pub closed spec fn now(&self) -> u64 {
        self.clock.time
    }

    /// Processing every pending event up to `end_time` keeps the clock monotone:
    /// none of them lies before the clock.
    pub open spec fn runnable_until(&self, end_time: u64) -> bool {
        forall|e: Event| #[trigger] self.pending().contains(e) && e.timestamp <= end_time ==> self.now() <= e.timestamp
    }

    pub fn new() -> (s: Self)
        ensures
            s.now() == 0,
            s.pending() == Multiset::<Event>::empty(),
    {
        Simulation { clock: SimClock::new(), calendar: EventCalendar::new() }
    }

    /// The clock's current instant, read from the public clock.
    pub fn time(&self) -> (t: u64)
        ensures
            t == self.now(),
    {
        self.clock.time
    }

    pub fn schedule(&mut self, event: Event)
        ensures
            final(self).now() == old(self).now(),
            final(self).pending() == old(self).pending().insert(event),
    {
        self.calendar.push(event);
    }

    /// The timestamp of the earliest pending event, if any.
    pub fn next_time(&self) -> (r: Option<u64>)
        ensures
            match r {
                None => self.pending().len() == 0,
                Some(ts) => exists|e: Event| #[trigger] is_next(self.pending(), e) && e.timestamp == ts,
            },
    {
        let next = self.calendar.peek_next();
        match next {
            None => None,
            Some(e) => {
                assert(is_next(self.pending(), e));
                Some(e.timestamp)
            },
        }
    }

    /// Whether a run up to `end_time` keeps the clock monotone is decided by the
    /// earliest pending event alone: it lies after the horizon or not before the clock.
    pub proof fn lemma_runnable_iff_next(&self, e: Event, end_time: u64)
        requires
            is_next(self.pending(), e),
        ensures
            self.runnable_until(end_time) <==> (end_time < e.timestamp || self.now() <= e.timestamp),
    {
        assert(self.pending().contains(e));
    }

    /// Processes, in timestamp order, every pending event no later than `end_time`,
    /// advancing the clock to each; later events stay pending. Returns the processed
    /// events in the order they were handled.
    pub fn run_until(&mut self, end_time: u64) -> (processed: Vec<Event>)
        requires
            old(self).runnable_until(end_time),
        ensures
            old(self).pending() == final(self).pending().add(processed@.to_multiset()),
            forall|i: int, j: int|
                #![trigger processed@[i], processed@[j]]
                0 <= i <= j < processed@.len() ==> processed@[i].timestamp <= processed@[j].timestamp,
            forall|i: int|
                #![trigger processed@[i]]
                0 <= i < processed@.len() ==> old(self).now() <= processed@[i].timestamp
                    <= end_time,
            forall|e: Event| final(self).pending().contains(e) ==> end_time < e.timestamp,
            processed@.len() == 0 ==> final(self).now() == old(self).now(),
            processed@.len() > 0 ==> final(self).now() == processed@.last().timestamp,
            old(self).now() <= final(self).now(),
            old(self).now() <= end_time ==> forall|e: Event|
                final(self).pending().contains(e) ==> final(self).now() <= e.timestamp,
    {
        let mut processed: Vec<Event> = Vec::new();
        loop
            invariant
                self.runnable_until(end_time),
                old(self).pending() == self.pending().add(processed@.to_multiset()),
                forall|i: int, j: int|
                    #![trigger processed@[i], processed@[j]]
                    0 <= i <= j < processed@.len() ==> processed@[i].timestamp
                        <= processed@[j].timestamp,
                forall|i: int|
                    #![trigger processed@[i]]
                    0 <= i < processed@.len() ==> old(self).now() <= processed@[i].timestamp
                        <= end_time,
                forall|i: int, e: Event|
                    0 <= i < processed@.len() && self.pending().contains(e)
                        ==> processed@[i].timestamp <= e.timestamp,
                processed@.len() == 0 ==> self.now() == old(self).now(),
                processed@.len() > 0 ==> self.now() == processed@.last().timestamp,
            ensures
                old(self).pending() == self.pending().add(processed@.to_multiset()),
                forall|i: int, j: int|
                    #![trigger processed@[i], processed@[j]]
                    0 <= i <= j < processed@.len() ==> processed@[i].timestamp
                        <= processed@[j].timestamp,
                forall|i: int|
                    #![trigger processed@[i]]
                    0 <= i < processed@.len() ==> old(self).now() <= processed@[i].timestamp
                        <= end_time,
                forall|e: Event| self.pending().contains(e) ==> end_time < e.timestamp,
                processed@.len() == 0 ==> self.now() == old(self).now(),
                processed@.len() > 0 ==> self.now() == processed@.last().timestamp,
            decreases self.pending().len(),
        {
            let ghost before = self.pending();
            let ghost done = processed@;
            match self.calendar.pop_next() {
                None => {
                    break;
                },
                Some(ev) => {
                    if ev.timestamp > end_time {
                        self.calendar.push(ev);
                        proof {
                            assert(self.pending() =~= before);
                        }
                        break;
                    }
                    assert(before.contains(ev));
                    self.clock.advance_to(ev.timestamp);
                    processed.push(ev);
                    proof {
                        assert(processed@ =~= done.push(ev));
                        assert(processed@.to_multiset() == done.to_multiset().insert(ev));
                        assert(self.pending().add(processed@.to_multiset()) =~= before.add(
                            done.to_multiset(),
                        ));
                        assert forall|i: int, j: int|
                            0 <= i <= j < processed@.len() implies processed@[i].timestamp
                            <= processed@[j].timestamp by {
                            if j == processed@.len() - 1 && i < j {
                                assert(done[i] == processed@[i]);
                            }
                        }
                        assert forall|i: int, e: Event|
                            0 <= i < processed@.len() && self.pending().contains(
                                e,
                            ) implies processed@[i].timestamp <= e.timestamp by {
                            assert(before.contains(e));
                        }
                        assert forall|e: Event| #[trigger]
                            self.pending().contains(e) && e.timestamp <= end_time implies self.now()
                            <= e.timestamp by {
                            assert(before.contains(e));
                        }
                    }
                },
            }
        }
        processed
    }
}

} // verus!
