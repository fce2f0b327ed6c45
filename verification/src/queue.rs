//! Waiting-room disciplines: first-come-first-served and shortest-remaining-processing-time.
//!
//! A queued job is a pair `(job_id, remaining)`, where `remaining` is an order key
//! for the job's outstanding work (smaller means less work left).

use std::collections::VecDeque;
use vstd::multiset::Multiset;
use vstd::prelude::*;

use crate::heap::{is_least, key_le, Keyed, MinHeap};

verus! {

broadcast use vstd::seq_lib::group_to_multiset_ensures, vstd::multiset::group_multiset_axioms,
    vstd::std_specs::vecdeque::group_vec_dequeue_axioms;

/// A waiting job and its outstanding work.
#[derive(Debug, Clone, Copy)]
pub struct QueuedJob {
    pub job_id: u64,
    pub remaining: u64,
}

pub open spec fn queued(job_id: u64, remaining: u64) -> QueuedJob {
    QueuedJob { job_id, remaining }
}

/// SRPT order: least remaining work first, then lowest job id.
impl Keyed for QueuedJob {
    open spec fn primary(&self) -> u64 {
        self.remaining
    }

    open spec fn secondary(&self) -> u64 {
        self.job_id
    }

    fn keys(&self) -> (r: (u64, u64)) {
        (self.remaining, self.job_id)
    }
}

/// Jobs served in arrival order.
#[derive(Debug)]
pub struct FcfsQueue {
    inner: VecDeque<QueuedJob>,
}

impl FcfsQueue {
    /// The queued jobs, front first.
    pub closed spec fn jobs(&self) -> Seq<QueuedJob> {
        self.inner@
    }

    pub fn new() -> (q: Self)
        ensures
            q.jobs() == Seq::<QueuedJob>::empty(),
    {
        FcfsQueue { inner: VecDeque::new() }
    }

    pub fn push(&mut self, job_id: u64, remaining: u64)
        ensures
            final(self).jobs() == old(self).jobs().push(queued(job_id, remaining)),
    {
        self.inner.push_back(QueuedJob { job_id, remaining });
    }

    pub fn pop(&mut self) -> (r: Option<QueuedJob>)
        ensures
            match r {
                None => old(self).jobs().len() == 0 && final(self).jobs() == old(self).jobs(),
                Some(x) => {
                    &&& old(self).jobs().len() > 0
                    &&& x == old(self).jobs()[0]
                    &&& final(self).jobs() == old(self).jobs().drop_first()
                },
            },
    {
        let r = self.inner.pop_front();
        proof {
            if r is Some {
                assert(self.inner@ =~= old(self).inner@.drop_first());
            }
        }
        r
    }

    pub fn len(&self) -> (n: usize)
        ensures
            n == self.jobs().len(),
    {
        self.inner.len()
    }
}

/// Jobs served least-remaining-work first (ties: lowest job id).
#[derive(Debug)]
pub struct SrptQueue {
    heap: MinHeap<QueuedJob>,
}

impl SrptQueue {
    pub closed spec fn jobs(&self) -> Multiset<QueuedJob> {
        self.heap.items()
    }

    pub fn new() -> (q: Self)
        ensures
            q.jobs() == Multiset::<QueuedJob>::empty(),
    {
        SrptQueue { heap: MinHeap::new() }
    }

    pub fn push(&mut self, job_id: u64, remaining: u64)
        ensures
            final(self).jobs() == old(self).jobs().insert(queued(job_id, remaining)),
    {
        self.heap.push(QueuedJob { job_id, remaining });
    }

    pub fn pop(&mut self) -> (r: Option<QueuedJob>)
        ensures
            match r {
                None => old(self).jobs().len() == 0 && final(self).jobs() == old(self).jobs(),
                Some(x) => {
                    &&& old(self).jobs().count(x) > 0
                    &&& is_least(x, old(self).jobs())
                    &&& final(self).jobs() == old(self).jobs().remove(x)
                },
            },
    {
        let r = self.heap.pop();
        proof {
            vstd::seq_lib::to_multiset_len(old(self).heap@);
        }
        r
    }

    pub fn len(&self) -> (n: usize)
        ensures
            n == self.jobs().len(),
    {
        self.heap.len()
    }
}

/// Scheduling discipline for the waiting queue.
#[derive(Debug)]
pub enum SimQueue {
    Fcfs(FcfsQueue),
    Srpt(SrptQueue),
}

impl SimQueue {
    /// All queued `(job_id, remaining)` pairs.
    pub open spec fn jobs(&self) -> Multiset<QueuedJob> {
        match self {
            SimQueue::Fcfs(q) => q.jobs().to_multiset(),
            SimQueue::Srpt(q) => q.jobs(),
        }
    }

    /// Arrival order of the queued jobs (first-come-first-served only).
    pub open spec fn arrival_order(&self) -> Seq<QueuedJob> {
        match self {
            SimQueue::Fcfs(q) => q.jobs(),
            SimQueue::Srpt(_) => Seq::empty(),
        }
    }

    pub fn fcfs() -> (q: Self)
        ensures
            q is Fcfs,
            q.arrival_order() == Seq::<QueuedJob>::empty(),
            q.jobs() == Multiset::<QueuedJob>::empty(),
    {
        SimQueue::Fcfs(FcfsQueue::new())
    }

    pub fn srpt() -> (q: Self)
        ensures
            q is Srpt,
            q.jobs() == Multiset::<QueuedJob>::empty(),
    {
        SimQueue::Srpt(SrptQueue::new())
    }

    pub fn push(&mut self, job_id: u64, remaining: u64)
        ensures
            final(self).jobs() == old(self).jobs().insert(queued(job_id, remaining)),
            (*final(self) is Fcfs) == (*old(self) is Fcfs),
            *old(self) is Fcfs ==> final(self).arrival_order() == old(self).arrival_order().push(
                queued(job_id, remaining),
            ),
    {
        match self {
            SimQueue::Fcfs(q) => q.push(job_id, remaining),
            SimQueue::Srpt(q) => q.push(job_id, remaining),
        }
    }

    /// Removes the next job to serve, as `(job_id, remaining)`: the oldest under FCFS,
    /// the one with least remaining work under SRPT.
    pub fn pop(&mut self) -> (r: Option<(u64, u64)>)
        ensures
            (*final(self) is Fcfs) == (*old(self) is Fcfs),
            match r {
                None => old(self).jobs().len() == 0 && final(self).jobs() == old(self).jobs(),
                Some(x) => {
                    let j = queued(x.0, x.1);
                    &&& old(self).jobs().count(j) > 0
                    &&& final(self).jobs() == old(self).jobs().remove(j)
                    &&& *old(self) is Fcfs ==> {
                        &&& j == old(self).arrival_order()[0]
                        &&& final(self).arrival_order() == old(self).arrival_order().drop_first()
                    }
                    &&& *old(self) is Srpt ==> is_least(j, old(self).jobs())
                },
            },
    {
        let r = match self {
            SimQueue::Fcfs(q) => {
                let ghost s = q.jobs();
                let r = q.pop();
                proof {
                    if r is Some {
                        assert(s =~= seq![s[0]] + s.drop_first());
                        vstd::seq_lib::lemma_multiset_commutative(seq![s[0]], s.drop_first());
                        assert(seq![s[0]].to_multiset() =~= Multiset::empty().insert(s[0]));
                        assert(s.to_multiset() =~= s.drop_first().to_multiset().insert(s[0]));
                    } else {
                        vstd::seq_lib::to_multiset_len(s);
                    }
                }
                r
            },
            SimQueue::Srpt(q) => q.pop(),
        };
        match r {
            Some(j) => Some((j.job_id, j.remaining)),
            None => None,
        }
    }

    pub fn len(&self) -> (n: usize)
        ensures
            n == self.jobs().len(),
    {
        match self {
            SimQueue::Fcfs(q) => {
                proof {
                    vstd::seq_lib::to_multiset_len(q.jobs());
                }
                q.len()
            },
            SimQueue::Srpt(q) => q.len(),
        }
    }
}

} // verus!
