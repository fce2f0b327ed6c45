//! A single server, tracking its current job and service epoch.
//!
//! The epoch counter invalidates stale departure events after SRPT preemption:
//! each call to `begin` increments it; the corresponding departure event stores
//! the epoch, and `is_current_epoch` rejects any event that no longer matches.

use vstd::prelude::*;

verus! {

#[derive(Debug, Default)]
pub struct Server {
    current_job: Option<u64>,
    /// Order key of the scheduled departure instant; used to compute remaining service.
    pub departure_time: u64,
    epoch: u64,
}

impl Server {
    /// The job in service, if any.
    pub closed spec fn job(&self) -> Option<u64> {
        self.current_job
    }

    /// Order key of the scheduled departure instant.
    pub closed spec fn departure(&self) -> u64 {
        self.departure_time
    }

    /// The epoch of the latest service period.
    pub closed spec fn epoch(&self) -> u64 {
        self.epoch
    }

    /// `after` is `before` once `job_id` has begun service, departing at `departure_at`,
    /// under the returned `epoch`.
    pub open spec fn began(before: Server, after: Server, job_id: u64, departure_at: u64, epoch: u64) -> bool {
        &&& after.job() == Some(job_id)
        &&& after.departure() == departure_at
        &&& after.epoch() == before.epoch() + 1
        &&& epoch == after.epoch()
    }

    pub fn new() -> (s: Self)
        ensures
            s.job() is None,
            s.epoch() == 0,
            s.departure() == 0,
    {
        Server { current_job: None, departure_time: 0, epoch: 0 }
    }

    /// The scheduled departure instant, read from the public field.
    pub fn departure_time(&self) -> (t: u64)
        ensures
            t == self.departure(),
    {
        self.departure_time
    }

    pub fn is_idle(&self) -> (r: bool)
        ensures
            r == (self.job() is None),
    {
        self.current_job.is_none()
    }

    pub fn current_job(&self) -> (r: Option<u64>)
        ensures
            r == self.job(),
    {
        self.current_job
    }

    /// Start serving `job_id`, recording when its departure is expected.
    /// Returns the new epoch (stored in the departure event for validation).
    pub fn begin(&mut self, job_id: u64, departure_at: u64) -> (epoch: u64)
        requires
            old(self).job() is None,
            old(self).epoch() < u64::MAX,
        ensures
            Server::began(*old(self), *final(self), job_id, departure_at, epoch),
    {
        self.current_job = Some(job_id);
        self.departure_time = departure_at;
        self.epoch = self.epoch + 1;
        self.epoch
    }

    /// Mark server as busy without scheduling a departure.
    pub fn start_bare(&mut self, job_id: u64)
        requires
            old(self).job() is None,
        ensures
            final(self).job() == Some(job_id),
            final(self).epoch() == old(self).epoch(),
            final(self).departure() == old(self).departure(),
    {
        self.current_job = Some(job_id);
    }

    pub fn finish(&mut self)
        requires
            old(self).job() is Some,
        ensures
            final(self).job() is None,
            final(self).epoch() == old(self).epoch(),
            final(self).departure() == old(self).departure(),
    {
        self.current_job = None;
    }

    pub fn is_current_epoch(&self, epoch: u64) -> (r: bool)
        ensures
            r == (epoch == self.epoch()),
    {
        epoch == self.epoch
    }
}

/// Once a new service period begins, no epoch handed out earlier is current:
/// a departure scheduled before it is recognised as stale.
pub proof fn lemma_begin_invalidates_earlier_epochs(
    before: Server,
    after: Server,
    job_id: u64,
    departure_at: u64,
    epoch: u64,
    earlier: u64,
)
    requires
        Server::began(before, after, job_id, departure_at, epoch),
        earlier <= before.epoch(),
    ensures
        earlier != after.epoch(),
        epoch == after.epoch(),
{
}

} // verus!
