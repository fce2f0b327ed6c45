//! LLM inference scheduling: the admission and batching decisions of a shared-GPU
//! serving model.
//!
//! The GPU runs "iterations": at most one prefill chunk of the request being
//! prefilled, then one decode step for every request in the decode batch (unless an
//! unchunked prefill occupied the whole iteration).
//!
//! - `chunk_size == 0` (Orca): a whole prompt is prefilled in one iteration, and that
//!   iteration runs no decode step.
//! - `chunk_size > 0` (Sarathi-Serve): each iteration prefills one chunk of at most
//!   `chunk_size` tokens, then runs a decode step for the batch.
//!
//! Two admission policies control when a prefilled request enters the decode batch:
//! - `RequestLevel`: only when the batch is empty (one request at a time);
//! - `IterationLevel` (Orca): whenever KV-cache space and the batch cap allow.
//!
//! Requests that cannot be admitted wait in FIFO order; the head of that queue
//! blocks the ones behind it.
//!
//! This module holds the state machine: which request is prefilled, which are in
//! the batch, how many KV-cache slots are in use, and what the next iteration must
//! do. Timing (how long an iteration takes) and latency statistics belong to the caller.

use std::collections::{HashMap, VecDeque};
use vstd::prelude::*;

verus! {

broadcast use vstd::std_specs::hash::group_hash_axioms, vstd::std_specs::vecdeque::group_vec_dequeue_axioms;

/// Admission policy: when can a prefilled request enter the decode batch?
#[derive(Debug, Clone, Copy, PartialEq, Eq, Structural)]
pub enum LlmPolicy {
    /// Admit only when the decode batch is completely empty (one request at a time).
    RequestLevel,
    /// Admit at every iteration boundary as long as KV-cache and batch limits allow.
    IterationLevel,
}

impl LlmPolicy {
    /// Short display label of the policy.
    pub fn label(&self) -> (r: &'static str)
        ensures
            *self == LlmPolicy::RequestLevel ==> r@ == "request-level"@,
            *self == LlmPolicy::IterationLevel ==> r@ == "iter-level "@,
    {
        match self {
            LlmPolicy::RequestLevel => "request-level",
            LlmPolicy::IterationLevel => "iter-level ",
        }
    }
}

/// The integer capacities of the GPU.
#[derive(Debug, Clone, Copy)]
pub struct BatchLimits {
    /// Total KV-cache capacity in tokens across all concurrently active requests.
    pub kv_capacity: usize,
    /// Hard cap on the number of requests in the decode batch.
    pub max_batch_size: usize,
    /// Prompt tokens prefilled per iteration; `0` prefills a whole prompt at once.
    pub chunk_size: usize,
}

/// A request's progress.
#[derive(Debug, Clone, Copy)]
pub struct Request {
    pub prompt_len: usize,
    pub output_len: usize,
    pub tokens_generated: usize,
    pub tokens_prefilled: usize,
    /// KV-cache slots held: `prompt_len` at admission, +1 per decode step.
    pub kv_slots: usize,
    /// Whether the first output token has been produced.
    pub first_token_sent: bool,
}

/// The work the next GPU iteration has to do.
#[derive(Debug, Clone, Copy)]
pub struct IterationWork {
    /// Prompt tokens of the prefill chunk (0 when nothing is being prefilled).
    pub prefill_tokens: usize,
    /// Requests in the decode batch.
    pub batch_size: usize,
    /// Whether prompts are prefilled whole (`chunk_size == 0`), so that an iteration
    /// with a prefill runs no decode step.
    pub unchunked: bool,
}

/// What one GPU iteration did.
#[derive(Debug)]
pub struct IterationOutcome {
    /// Whether a decode step ran.
    pub decoded: bool,
    /// Requests that produced their first token in this iteration, in batch order.
    pub first_tokens: Vec<u64>,
    /// Requests that finished in this iteration, in batch order.
    pub completed: Vec<u64>,
    /// The work of the next iteration.
    pub next: IterationWork,
}

/// Abstract state of the scheduler.
pub struct SchedulerState {
    pub policy: LlmPolicy,
    pub limits: BatchLimits,
    pub requests: Map<u64, Request>,
    pub prefill_queue: Seq<u64>,
    pub being_prefilled: Option<u64>,
    pub kv_wait: Seq<u64>,
    pub batch: Seq<u64>,
    pub iteration_scheduled: bool,
    pub completed: u64,
}

// ── The model ────────────────────────────────────────────────────────────────

/// KV-cache slots held by the requests `ids`.
pub open spec fn kv_sum(ids: Seq<u64>, reqs: Map<u64, Request>) -> int
    decreases ids.len(),
{
    if ids.len() == 0 {
        0
    } else {
        kv_sum(ids.drop_last(), reqs) + reqs[ids.last()].kv_slots
    }
}

/// KV-cache slots in use: those held by the decode batch.
pub open spec fn kv_in_use(s: SchedulerState) -> int {
    kv_sum(s.batch, s.requests)
}

/// Prompt tokens of the requests `ids`.
pub open spec fn prompt_sum(ids: Seq<u64>, reqs: Map<u64, Request>) -> int
    decreases ids.len(),
{
    if ids.len() == 0 {
        0
    } else {
        reqs[ids[0]].prompt_len + prompt_sum(ids.drop_first(), reqs)
    }
}

/// The most KV-cache slots in use once an iteration's prefill has finished: what is in
/// use now, or at most the capacity when the finished request joins the batch.
pub open spec fn kv_ceiling(s: SchedulerState) -> int {
    if kv_in_use(s) >= s.limits.kv_capacity {
        kv_in_use(s)
    } else {
        s.limits.kv_capacity as int
    }
}

/// A prefilled request of `prompt_len` tokens may join the batch now.
pub open spec fn can_admit(s: SchedulerState, prompt_len: int) -> bool {
    &&& kv_in_use(s) + prompt_len <= s.limits.kv_capacity
    &&& s.batch.len() < s.limits.max_batch_size
    &&& (s.policy == LlmPolicy::IterationLevel || s.batch.len() == 0)
}

/// `id` joins the batch, reserving KV-cache slots for its prompt.
pub open spec fn join_batch(s: SchedulerState, id: u64) -> SchedulerState {
    let r = s.requests[id];
    SchedulerState {
        requests: s.requests.insert(id, Request { kv_slots: r.prompt_len, ..r }),
        batch: s.batch.push(id),
        ..s
    }
}

/// A request whose prefill just finished joins the batch or waits for KV-cache space.
pub open spec fn try_admit(s: SchedulerState, id: u64) -> SchedulerState {
    if can_admit(s, s.requests[id].prompt_len as int) {
        join_batch(s, id)
    } else {
        SchedulerState { kv_wait: s.kv_wait.push(id), ..s }
    }
}

/// Admits waiting requests in FIFO order while the head fits.
pub open spec fn admit_waiting(s: SchedulerState) -> SchedulerState
    decreases s.kv_wait.len(),
{
    if s.kv_wait.len() > 0 && can_admit(s, s.requests[s.kv_wait[0]].prompt_len as int) {
        admit_waiting(join_batch(SchedulerState { kv_wait: s.kv_wait.drop_first(), ..s }, s.kv_wait[0]))
    } else {
        s
    }
}

/// When nothing is being prefilled, the oldest queued request still known starts its prefill.
pub open spec fn try_start_prefill(s: SchedulerState) -> SchedulerState
    decreases s.prefill_queue.len(),
{
    if s.being_prefilled is Some || s.prefill_queue.len() == 0 {
        s
    } else {
        let id = s.prefill_queue[0];
        let rest = SchedulerState { prefill_queue: s.prefill_queue.drop_first(), ..s };
        if s.requests.contains_key(id) {
            SchedulerState { being_prefilled: Some(id), ..rest }
        } else {
            try_start_prefill(rest)
        }
    }
}

/// Prompt tokens of `id` processed by its next prefill chunk.
pub open spec fn prefill_chunk(s: SchedulerState, id: u64) -> int {
    let remaining = s.requests[id].prompt_len - s.requests[id].tokens_prefilled;
    if s.limits.chunk_size > 0 && s.limits.chunk_size < remaining {
        s.limits.chunk_size as int
    } else {
        remaining
    }
}

/// The work of the next iteration.
pub open spec fn next_work(s: SchedulerState) -> IterationWork {
    IterationWork {
        prefill_tokens: match s.being_prefilled {
            Some(id) => prefill_chunk(s, id) as usize,
            None => 0,
        },
        batch_size: s.batch.len() as usize,
        unchunked: s.limits.chunk_size == 0,
    }
}

/// The request record of an arrival: its prompt is capped by the KV-cache capacity.
pub open spec fn arriving_request(s: SchedulerState, prompt_len: usize, output_len: usize) -> Request {
    Request {
        prompt_len: if prompt_len < s.limits.kv_capacity { prompt_len } else { s.limits.kv_capacity },
        output_len,
        tokens_generated: 0,
        tokens_prefilled: 0,
        kv_slots: 0,
        first_token_sent: false,
    }
}

/// The state once an arrival is recorded and queued for prefill.
pub open spec fn enqueued(s: SchedulerState, id: u64, prompt_len: usize, output_len: usize) -> SchedulerState {
    SchedulerState {
        requests: s.requests.insert(id, arriving_request(s, prompt_len, output_len)),
        prefill_queue: s.prefill_queue.push(id),
        ..s
    }
}

/// A new request arrives with the sampled lengths; its prompt is capped by the
/// KV-cache capacity. It starts prefilling at once when the GPU is idle.
pub open spec fn arrival(s: SchedulerState, id: u64, prompt_len: usize, output_len: usize) -> SchedulerState {
    let s1 = enqueued(s, id, prompt_len, output_len);
    if !s.iteration_scheduled {
        try_start_prefill(s1)
    } else {
        s1
    }
}

/// `id` finishes with the current decode step.
pub open spec fn finishes(reqs: Map<u64, Request>, id: u64) -> bool {
    reqs[id].tokens_generated + 1 >= reqs[id].output_len
}

/// The request after producing one more token.
pub open spec fn bumped(r: Request) -> Request {
    Request {
        tokens_generated: (r.tokens_generated + 1) as usize,
        kv_slots: (r.kv_slots + 1) as usize,
        first_token_sent: true,
        ..r
    }
}

/// Requests after a decode step of `batch`: every batch member produced one token;
/// those that reached their output length are gone.
pub open spec fn decoded_requests(reqs: Map<u64, Request>, batch: Seq<u64>) -> Map<u64, Request> {
    Map::new(
        |id: u64| reqs.contains_key(id) && !(batch.contains(id) && finishes(reqs, id)),
        |id: u64|
            if batch.contains(id) {
                bumped(reqs[id])
            } else {
                reqs[id]
            },
    )
}

/// Batch members that finish with the current decode step.
pub open spec fn finishing(reqs: Map<u64, Request>) -> spec_fn(u64) -> bool {
    |id: u64| finishes(reqs, id)
}

/// Batch members that stay after the current decode step.
pub open spec fn continuing(reqs: Map<u64, Request>) -> spec_fn(u64) -> bool {
    |id: u64| !finishes(reqs, id)
}

/// Batch members that have not produced a token yet.
pub open spec fn awaiting_first_token(reqs: Map<u64, Request>) -> spec_fn(u64) -> bool {
    |id: u64| !reqs[id].first_token_sent
}

/// The state right after a decode step: every batch member produced one token, the
/// finished ones left, and the KV slots they held are free.
pub open spec fn decoded_state(s: SchedulerState) -> SchedulerState {
    SchedulerState {
        requests: decoded_requests(s.requests, s.batch),
        batch: s.batch.filter(continuing(s.requests)),
        completed: (s.completed + s.batch.filter(finishing(s.requests)).len()) as u64,
        ..s
    }
}

/// One decode step for the batch, then admission of waiting requests. Also yields
/// the requests that produced their first token and those that finished.
pub open spec fn decode(s: SchedulerState) -> (SchedulerState, Seq<u64>, Seq<u64>) {
    (
        admit_waiting(decoded_state(s)),
        s.batch.filter(awaiting_first_token(s.requests)),
        s.batch.filter(finishing(s.requests)),
    )
}

/// The request being prefilled processes its next chunk; when its prompt is done it
/// leaves prefill and tries to join the batch.
pub open spec fn prefill_step(s: SchedulerState) -> SchedulerState {
    match s.being_prefilled {
        Some(id) => {
            let r = s.requests[id];
            let r2 = Request { tokens_prefilled: (r.tokens_prefilled + prefill_chunk(s, id)) as usize, ..r };
            let s1 = SchedulerState { requests: s.requests.insert(id, r2), ..s };
            if r2.tokens_prefilled >= r2.prompt_len {
                try_admit(SchedulerState { being_prefilled: None, ..s1 }, id)
            } else {
                s1
            }
        },
        None => s,
    }
}

/// Whether the iteration that starts in `s` runs a decode step.
pub open spec fn decodes(s: SchedulerState) -> bool {
    let blocked = s.being_prefilled is Some && s.limits.chunk_size == 0;
    prefill_step(s).batch.len() > 0 && !blocked
}

/// One GPU iteration: prefill chunk, decode step (unless blocked by an unchunked
/// prefill), then the next prefill starts if the GPU has none. Yields the new state,
/// the requests that produced their first token and those that finished.
pub open spec fn iteration(s: SchedulerState) -> (SchedulerState, Seq<u64>, Seq<u64>) {
    let s0 = SchedulerState { iteration_scheduled: false, ..s };
    let s1 = prefill_step(s0);
    let (s2, firsts, completions) = if decodes(s0) {
        decode(s1)
    } else {
        (s1, Seq::empty(), Seq::empty())
    };
    let s3 = if s2.being_prefilled is None {
        try_start_prefill(s2)
    } else {
        s2
    };
    (s3, firsts, completions)
}

/// What holds of every reachable state.
pub open spec fn scheduler_inv(s: SchedulerState) -> bool {
    &&& s.batch.no_duplicates()
    &&& s.kv_wait.no_duplicates()
    &&& s.prefill_queue.no_duplicates()
    &&& forall|i: int| 0 <= i < s.batch.len() ==> s.requests.contains_key(#[trigger] s.batch[i])
    &&& forall|i: int| 0 <= i < s.kv_wait.len() ==> s.requests.contains_key(#[trigger] s.kv_wait[i])
    &&& forall|i: int|
        0 <= i < s.prefill_queue.len() ==> s.requests.contains_key(#[trigger] s.prefill_queue[i])
    &&& s.batch.disjoint(s.kv_wait)
    &&& s.batch.disjoint(s.prefill_queue)
    &&& s.kv_wait.disjoint(s.prefill_queue)
    &&& (s.being_prefilled matches Some(id) ==> {
        &&& s.requests.contains_key(id)
        &&& !s.batch.contains(id)
        &&& !s.kv_wait.contains(id)
        &&& !s.prefill_queue.contains(id)
    })
    &&& forall|id: u64| #[trigger]
        s.requests.contains_key(id) ==> s.requests[id].tokens_prefilled <= s.requests[id].prompt_len
    &&& forall|i: int|
        0 <= i < s.batch.len() ==> s.requests[#[trigger] s.batch[i]].tokens_generated
            <= s.requests[s.batch[i]].kv_slots
    &&& forall|id: u64|
        s.requests.contains_key(id) && !s.batch.contains(id) ==> #[trigger] s.requests[id].tokens_generated
            == 0
    &&& s.batch.len() <= s.limits.max_batch_size
    &&& (s.policy == LlmPolicy::RequestLevel ==> s.batch.len() <= 1)
}

// ── The scheduler ────────────────────────────────────────────────────────────

/// The scheduling state machine of the shared-GPU model.
pub struct InferenceScheduler {
    policy: LlmPolicy,
    limits: BatchLimits,
    requests: HashMap<u64, Request>,
    prefill_queue: VecDeque<u64>,
    /// The request currently being chunked across iterations.
    being_prefilled: Option<u64>,
    kv_wait: VecDeque<u64>,
    decode_batch: Vec<u64>,
    /// Prevents double-scheduling of iterations.
    iteration_scheduled: bool,
    kv_used: usize,
    completed: u64,
}

impl View for InferenceScheduler {
    type V = SchedulerState;

    closed spec fn view(&self) -> SchedulerState {
        SchedulerState {
            policy: self.policy,
            limits: self.limits,
            requests: self.requests@,
            prefill_queue: self.prefill_queue@,
            being_prefilled: self.being_prefilled,
            kv_wait: self.kv_wait@,
            batch: self.decode_batch@,
            iteration_scheduled: self.iteration_scheduled,
            completed: self.completed,
        }
    }
}

impl InferenceScheduler {
    /// The state satisfies the invariant and the KV counter matches the batch.
    pub closed spec fn wf(&self) -> bool {
        &&& scheduler_inv(self@)
        &&& self.kv_used == kv_in_use(self@)
    }

    pub fn new(policy: LlmPolicy, limits: BatchLimits) -> (s: Self)
        ensures
            s.wf(),
            s@.policy == policy,
            s@.limits == limits,
            s@.requests == Map::<u64, Request>::empty(),
            s@.prefill_queue == Seq::<u64>::empty(),
            s@.being_prefilled is None,
            s@.kv_wait == Seq::<u64>::empty(),
            s@.batch == Seq::<u64>::empty(),
            !s@.iteration_scheduled,
            s@.completed == 0,
    {
        let s = InferenceScheduler {
            policy,
            limits,
            requests: HashMap::new(),
            prefill_queue: VecDeque::new(),
            being_prefilled: None,
            kv_wait: VecDeque::new(),
            decode_batch: Vec::new(),
            iteration_scheduled: false,
            kv_used: 0,
            completed: 0,
        };
        proof {
            assert(s@.batch.len() == 0);
        }
        s
    }

    pub fn policy(&self) -> (p: LlmPolicy)
        ensures
            p == self@.policy,
    {
        self.policy
    }

    pub fn limits(&self) -> (l: BatchLimits)
        ensures
            l == self@.limits,
    {
        self.limits
    }

    /// KV-cache slots in use.
    pub fn kv_used(&self) -> (n: usize)
        requires
            self.wf(),
        ensures
            n == kv_in_use(self@),
    {
        self.kv_used
    }

    /// Requests in the decode batch.
    pub fn batch_len(&self) -> (n: usize)
        ensures
            n == self@.batch.len(),
    {
        self.decode_batch.len()
    }

    /// Requests finished so far.
    pub fn completed(&self) -> (n: u64)
        ensures
            n == self@.completed,
    {
        self.completed
    }

    /// Whether `req_id` is a known, unfinished request.
    pub fn has_request(&self, req_id: u64) -> (r: bool)
        ensures
            r == self@.requests.contains_key(req_id),
    {
        self.requests.contains_key(&req_id)
    }

    /// Records that the caller scheduled the iteration it was handed.
    pub fn commit_iteration(&mut self)
        requires
            old(self).wf(),
        ensures
            final(self).wf(),
            final(self)@ == (SchedulerState { iteration_scheduled: true, ..old(self)@ }),
    {
        self.iteration_scheduled = true;
    }

    /// The work of the next iteration.
    pub fn next_work(&self) -> (w: IterationWork)
        requires
            self.wf(),
        ensures
            w == next_work(self@),
    {
        let prefill_tokens: usize = match self.being_prefilled {
            Some(id) => {
                let r: Request = *self.requests.get(&id).unwrap();
                let remaining: usize = r.prompt_len - r.tokens_prefilled;
                if self.limits.chunk_size > 0 && self.limits.chunk_size < remaining {
                    self.limits.chunk_size
                } else {
                    remaining
                }
            },
            None => 0,
        };
        IterationWork {
            prefill_tokens,
            batch_size: self.decode_batch.len(),
            unchunked: self.limits.chunk_size == 0,
        }
    }

    /// The iteration the caller must schedule, unless one is already scheduled.
    pub fn ensure_iteration_scheduled(&self) -> (w: Option<IterationWork>)
        requires
            self.wf(),
        ensures
            w == (if self@.iteration_scheduled {
                None
            } else {
                Some(next_work(self@))
            }),
    {
        if self.iteration_scheduled {
            None
        } else {
            Some(self.next_work())
        }
    }

    fn can_admit(&self, prompt_len: usize) -> (r: bool)
        requires
            self.wf(),
        ensures
            r == can_admit(self@, prompt_len as int),
    {
        prompt_len <= self.limits.kv_capacity && self.kv_used <= self.limits.kv_capacity - prompt_len
            && self.decode_batch.len() < self.limits.max_batch_size && (self.policy
            == LlmPolicy::IterationLevel || self.decode_batch.len() == 0)
    }

    fn join_batch(&mut self, id: u64)
        requires
            old(self).wf(),
            old(self)@.requests.contains_key(id),
            !old(self)@.batch.contains(id),
            !old(self)@.kv_wait.contains(id),
            !old(self)@.prefill_queue.contains(id),
            old(self)@.being_prefilled != Some(id),
            can_admit(old(self)@, old(self)@.requests[id].prompt_len as int),
        ensures
            final(self).wf(),
            final(self)@ == join_batch(old(self)@, id),
    {
        proof {
            lemma_join_batch(self@, id);
        }
        let r: Request = *self.requests.get(&id).unwrap();
        self.kv_used = self.kv_used + r.prompt_len;
        self.requests.insert(
            id,
            Request {
                prompt_len: r.prompt_len,
                output_len: r.output_len,
                tokens_generated: r.tokens_generated,
                tokens_prefilled: r.tokens_prefilled,
                kv_slots: r.prompt_len,
                first_token_sent: r.first_token_sent,
            },
        );
        self.decode_batch.push(id);
        proof {
            assert(self@.requests =~= join_batch(old(self)@, id).requests);
        }
    }

    fn try_admit(&mut self, id: u64)
        requires
            old(self).wf(),
            old(self)@.requests.contains_key(id),
            !old(self)@.batch.contains(id),
            !old(self)@.kv_wait.contains(id),
            !old(self)@.prefill_queue.contains(id),
            old(self)@.being_prefilled != Some(id),
        ensures
            final(self).wf(),
            final(self)@ == try_admit(old(self)@, id),
    {
        proof {
            lemma_try_admit(self@, id);
        }
        let prompt_len: usize = self.requests.get(&id).unwrap().prompt_len;
        if self.can_admit(prompt_len) {
            self.join_batch(id);
        } else {
            self.kv_wait.push_back(id);
        }
    }

    fn admit_waiting(&mut self)
        requires
            old(self).wf(),
        ensures
            final(self).wf(),
            final(self)@ == admit_waiting(old(self)@),
    {
        let ghost target = admit_waiting(self@);
        loop
            invariant
                self.wf(),
                admit_waiting(self@) == target,
            ensures
                self.wf(),
                self@ == target,
            decreases self@.kv_wait.len(),
        {
            if self.kv_wait.len() == 0 {
                break;
            }
            let id: u64 = self.kv_wait[0];
            proof {
                assert(self@.kv_wait[0] == id);
                assert(self@.requests.contains_key(self@.kv_wait[0]));
            }
            let prompt_len: usize = self.requests.get(&id).unwrap().prompt_len;
            if !self.can_admit(prompt_len) {
                break;
            }
            proof {
                lemma_pop_waiting(self@);
            }
            self.kv_wait.pop_front();
            self.join_batch(id);
        }
    }

    fn try_start_prefill(&mut self)
        requires
            old(self).wf(),
        ensures
            final(self).wf(),
            final(self)@ == try_start_prefill(old(self)@),
    {
        if self.being_prefilled.is_some() {
            return;
        }
        let ghost target = try_start_prefill(self@);
        loop
            invariant_except_break
                self.being_prefilled is None,
            invariant
                self.wf(),
                try_start_prefill(self@) == target,
            ensures
                self.wf(),
                self@ == target,
            decreases self@.prefill_queue.len(),
        {
            let ghost before = self@;
            match self.prefill_queue.pop_front() {
                None => {
                    break;
                },
                Some(id) => {
                    proof {
                        lemma_pop_queue(before);
                        assert(self@.prefill_queue =~= before.prefill_queue.drop_first());
                    }
                    if self.requests.contains_key(&id) {
                        self.being_prefilled = Some(id);
                        break;
                    }
                },
            }
        }
    }

    fn prefill_step(&mut self)
        requires
            old(self).wf(),
        ensures
            final(self).wf(),
            final(self)@ == prefill_step(old(self)@),
    {
        proof {
            lemma_prefill_step(self@);
        }
        if let Some(id) = self.being_prefilled {
            proof {
                lemma_prefill_progress(self@, id);
            }
            let r: Request = *self.requests.get(&id).unwrap();
            let remaining: usize = r.prompt_len - r.tokens_prefilled;
            let chunk: usize = if self.limits.chunk_size > 0 && self.limits.chunk_size < remaining {
                self.limits.chunk_size
            } else {
                remaining
            };
            let r2 = Request {
                prompt_len: r.prompt_len,
                output_len: r.output_len,
                tokens_generated: r.tokens_generated,
                tokens_prefilled: r.tokens_prefilled + chunk,
                kv_slots: r.kv_slots,
                first_token_sent: r.first_token_sent,
            };
            self.requests.insert(id, r2);
            if r2.tokens_prefilled >= r2.prompt_len {
                self.being_prefilled = None;
                self.try_admit(id);
            }
        }
    }

    /// One decode step for the batch, then admission of waiting requests. Returns the
    /// requests that produced their first token and those that finished.
    fn do_decode_step(&mut self) -> (r: (Vec<u64>, Vec<u64>))
        requires
            old(self).wf(),
            kv_in_use(old(self)@) + old(self)@.batch.len() <= usize::MAX,
            old(self)@.completed + old(self)@.batch.len() <= u64::MAX,
        ensures
            final(self).wf(),
            final(self)@ == decode(old(self)@).0,
            r.0@ == decode(old(self)@).1,
            r.1@ == decode(old(self)@).2,
    {
        let ghost s = self@;
        let ghost reqs = s.requests;
        let ghost b = s.batch;
        proof {
            lemma_decode(s);
            lemma_filter_facts(b, finishing(reqs));
            lemma_filter_facts(b, continuing(reqs));
        }
        let b_len: usize = self.decode_batch.len();
        self.kv_used = self.kv_used + b_len;
        let mut first_tokens: Vec<u64> = Vec::new();
        let mut completions: Vec<u64> = Vec::new();
        let mut kept: Vec<u64> = Vec::new();
        let mut k: usize = 0;
        while k < b_len
            invariant
                scheduler_inv(s),
                reqs == s.requests,
                b == s.batch,
                kv_in_use(s) + b.len() <= usize::MAX,
                b_len == b.len(),
                k <= b_len,
                self.decode_batch@ == b,
                self.kv_used == kv_in_use(s) + b_len,
                self.requests@ == Map::new(
                    |id: u64| reqs.contains_key(id),
                    |id: u64|
                        if b.take(k as int).contains(id) {
                            bumped(reqs[id])
                        } else {
                            reqs[id]
                        },
                ),
                first_tokens@ == b.take(k as int).filter(awaiting_first_token(reqs)),
                completions@ == b.take(k as int).filter(finishing(reqs)),
                kept@ == b.take(k as int).filter(continuing(reqs)),
                self.policy == s.policy,
                self.limits == s.limits,
                self.prefill_queue@ == s.prefill_queue,
                self.being_prefilled == s.being_prefilled,
                self.kv_wait@ == s.kv_wait,
                self.iteration_scheduled == s.iteration_scheduled,
                self.completed == s.completed,
            decreases b_len - k,
        {
            let id: u64 = self.decode_batch[k];
            proof {
                assert(b[k as int] == id);
                assert(reqs.contains_key(b[k as int]));
                assert(!b.take(k as int).contains(id)) by {
                    if b.take(k as int).contains(id) {
                        let j = choose|j: int| 0 <= j < k && b.take(k as int)[j] == id;
                        assert(b[j] == id);
                    }
                }
                lemma_kv_sum_member(b, reqs, k as int);
            }
            let r: Request = *self.requests.get(&id).unwrap();
            let r2 = Request {
                prompt_len: r.prompt_len,
                output_len: r.output_len,
                tokens_generated: r.tokens_generated + 1,
                tokens_prefilled: r.tokens_prefilled,
                kv_slots: r.kv_slots + 1,
                first_token_sent: true,
            };
            if !r.first_token_sent {
                first_tokens.push(id);
            }
            if r2.tokens_generated >= r2.output_len {
                completions.push(id);
            } else {
                kept.push(id);
            }
            self.requests.insert(id, r2);
            proof {
                let t = b.take(k as int);
                let t1 = b.take(k + 1);
                assert(t1 =~= t.push(id));
                t.lemma_filter_push(id, awaiting_first_token(reqs));
                t.lemma_filter_push(id, finishing(reqs));
                t.lemma_filter_push(id, continuing(reqs));
                assert(r2 == bumped(reqs[id]));
                assert forall|x: u64| t1.contains(x) <==> (t.contains(x) || x == id) by {
                    if t1.contains(x) && x != id {
                        let j = choose|j: int| 0 <= j < t1.len() && t1[j] == x;
                        assert(t[j] == x);
                    }
                    if t.contains(x) {
                        let j = choose|j: int| 0 <= j < t.len() && t[j] == x;
                        assert(t1[j] == x);
                    }
                    if x == id {
                        assert(t1[k as int] == x);
                    }
                }
                assert(self.requests@ =~= Map::new(
                    |x: u64| reqs.contains_key(x),
                    |x: u64|
                        if t1.contains(x) {
                            bumped(reqs[x])
                        } else {
                            reqs[x]
                        },
                ));
            }
            k = k + 1;
        }
        let ghost r1 = self.requests@;
        proof {
            assert(b.take(b_len as int) =~= b);
            assert forall|i: int| 0 <= i < b.len() implies r1[#[trigger] b[i]].kv_slots == reqs[b[i]].kv_slots
                + 1 by {
                lemma_kv_sum_member(b, reqs, i);
                assert(b.contains(b[i]));
            }
            lemma_kv_split(b, reqs, r1, continuing(reqs), finishing(reqs));
            lemma_kv_sum_nonneg(kept@, r1);
        }
        let ghost c_all = completions@;
        let completed_ids: Vec<u64> = completions.clone();
        proof {
            assert(completed_ids@ =~= c_all);
            assert(c_all.no_duplicates());
        }
        loop
            invariant
                scheduler_inv(s),
                reqs == s.requests,
                b == s.batch,
                c_all == b.filter(finishing(reqs)),
                c_all.no_duplicates(),
                c_all.len() <= b.len(),
                forall|x: u64| #[trigger] c_all.contains(x) <==> (b.contains(x) && finishes(reqs, x)),
                forall|x: u64| #[trigger] kept@.contains(x) <==> (b.contains(x) && !finishes(reqs, x)),
                kept@ == b.filter(continuing(reqs)),
                completions@ == c_all.take(completions@.len() as int),
                completions@.len() <= c_all.len(),
                r1 == Map::new(
                    |id: u64| reqs.contains_key(id),
                    |id: u64|
                        if b.contains(id) {
                            bumped(reqs[id])
                        } else {
                            reqs[id]
                        },
                ),
                self.requests@ == Map::new(
                    |x: u64| r1.contains_key(x) && !(c_all.contains(x) && !completions@.contains(x)),
                    |x: u64| r1[x],
                ),
                self.kv_used == kv_sum(kept@, r1) + kv_sum(completions@, r1),
                self.completed == s.completed + (c_all.len() - completions@.len()),
                s.completed + b.len() <= u64::MAX,
                self.decode_batch@ == b,
                self.policy == s.policy,
                self.limits == s.limits,
                self.prefill_queue@ == s.prefill_queue,
                self.being_prefilled == s.being_prefilled,
                self.kv_wait@ == s.kv_wait,
                self.iteration_scheduled == s.iteration_scheduled,
            ensures
                completions@.len() == 0,
                self.requests@ == Map::new(
                    |x: u64| r1.contains_key(x) && !c_all.contains(x),
                    |x: u64| r1[x],
                ),
                self.kv_used == kv_sum(kept@, r1),
                self.completed == s.completed + c_all.len(),
                self.decode_batch@ == b,
                self.policy == s.policy,
                self.limits == s.limits,
                self.prefill_queue@ == s.prefill_queue,
                self.being_prefilled == s.being_prefilled,
                self.kv_wait@ == s.kv_wait,
                self.iteration_scheduled == s.iteration_scheduled,
            decreases completions@.len(),
        {
            let ghost cur = completions@;
            match completions.pop() {
                None => {
                    proof {
                        assert(self.requests@ =~= Map::new(
                            |x: u64| r1.contains_key(x) && !c_all.contains(x),
                            |x: u64| r1[x],
                        ));
                        assert(kv_sum(cur, r1) == 0);
                    }
                    break;
                },
                Some(id) => {
                    proof {
                        assert(cur.drop_last() == completions@);
                        assert(cur.last() == id);
                        assert(c_all[cur.len() - 1] == id);
                        assert(c_all.contains(id));
                        assert(b.contains(id));
                        assert(!completions@.contains(id)) by {
                            if completions@.contains(id) {
                                let j = choose|j: int| 0 <= j < completions@.len() && completions@[j] == id;
                                assert(c_all[j] == id);
                            }
                        }
                        assert(cur.contains(id)) by {
                            assert(cur[cur.len() - 1] == id);
                        }
                        lemma_kv_sum_nonneg(completions@, r1);
                        lemma_kv_sum_nonneg(kept@, r1);
                        let j = choose|j: int| 0 <= j < b.len() && b[j] == id;
                        assert(reqs.contains_key(b[j]));
                        assert(r1.contains_key(id));
                        assert(kv_sum(cur, r1) == kv_sum(completions@, r1) + r1[id].kv_slots);
                    }
                    let removed: Request = self.requests.remove(&id).unwrap();
                    self.kv_used = self.kv_used - removed.kv_slots;
                    self.completed = self.completed + 1;
                    proof {
                        assert(completions@ =~= c_all.take(completions@.len() as int));
                        assert forall|x: u64| cur.contains(x) <==> (completions@.contains(x) || x == id) by {
                            if cur.contains(x) && x != id {
                                let j = choose|j: int| 0 <= j < cur.len() && cur[j] == x;
                                assert(completions@[j] == x);
                            }
                            if completions@.contains(x) {
                                let j = choose|j: int| 0 <= j < completions@.len() && completions@[j] == x;
                                assert(cur[j] == x);
                            }
                        }
                        assert(self.requests@ =~= Map::new(
                            |x: u64| r1.contains_key(x) && !(c_all.contains(x) && !completions@.contains(x)),
                            |x: u64| r1[x],
                        ));
                    }
                },
            }
        }
        self.decode_batch = kept;
        proof {
            let s1 = decoded_state(s);
            assert(self.requests@ =~= s1.requests);
            assert forall|i: int| 0 <= i < s1.batch.len() implies r1[#[trigger] s1.batch[i]].kv_slots
                == s1.requests[s1.batch[i]].kv_slots by {
                assert(s1.batch.contains(s1.batch[i]));
            }
            lemma_kv_sum_frame(s1.batch, r1, s1.requests);
            assert(self@ == s1);
        }
        self.admit_waiting();
        (first_tokens, completed_ids)
    }

    /// One GPU iteration: the prefill chunk, then a decode step unless an unchunked
    /// prefill occupied the iteration, then the next prefill starts if the GPU has none.
    pub fn on_iteration(&mut self) -> (out: IterationOutcome)
        requires
            old(self).wf(),
            kv_ceiling(old(self)@) + old(self)@.limits.max_batch_size <= usize::MAX,
            old(self)@.completed + old(self)@.limits.max_batch_size <= u64::MAX,
        ensures
            final(self).wf(),
            final(self)@ == iteration(old(self)@).0,
            out.first_tokens@ == iteration(old(self)@).1,
            out.completed@ == iteration(old(self)@).2,
            out.decoded == decodes(SchedulerState { iteration_scheduled: false, ..old(self)@ }),
            out.next == next_work(final(self)@),
    {
        proof {
            lemma_iteration_keeps_invariant(self@);
            lemma_kv_sum_nonneg(self@.batch, self@.requests);
        }
        self.iteration_scheduled = false;
        let ghost s0 = self@;
        let prefill_was_running: bool = self.being_prefilled.is_some();
        proof {
            lemma_prefill_step(s0);
        }
        self.prefill_step();
        let blocked: bool = prefill_was_running && self.limits.chunk_size == 0;
        let decoded: bool = self.decode_batch.len() > 0 && !blocked;
        let (first_tokens, completed) = if decoded {
            self.do_decode_step()
        } else {
            (Vec::new(), Vec::new())
        };
        if self.being_prefilled.is_none() {
            self.try_start_prefill();
        }
        let next = self.next_work();
        IterationOutcome { decoded, first_tokens, completed, next }
    }

    /// A request arrives with sampled prompt and output lengths. Returns the
    /// iteration to schedule when none is scheduled yet.
    pub fn on_arrival(&mut self, req_id: u64, prompt_len: usize, output_len: usize) -> (w: Option<IterationWork>)
        requires
            old(self).wf(),
            !old(self)@.requests.contains_key(req_id),
        ensures
            final(self).wf(),
            final(self)@ == arrival(old(self)@, req_id, prompt_len, output_len),
            w == (if final(self)@.iteration_scheduled {
                None
            } else {
                Some(next_work(final(self)@))
            }),
    {
        proof {
            lemma_enqueue(self@, req_id, prompt_len, output_len);
        }
        let prompt: usize = if prompt_len < self.limits.kv_capacity {
            prompt_len
        } else {
            self.limits.kv_capacity
        };
        self.requests.insert(
            req_id,
            Request {
                prompt_len: prompt,
                output_len,
                tokens_generated: 0,
                tokens_prefilled: 0,
                kv_slots: 0,
                first_token_sent: false,
            },
        );
        self.prefill_queue.push_back(req_id);
        proof {
            assert(self@ == enqueued(old(self)@, req_id, prompt_len, output_len));
        }
        if !self.iteration_scheduled {
            self.try_start_prefill();
        }
        self.ensure_iteration_scheduled()
    }
}


// ── Lemmas ───────────────────────────────────────────────────────────────────

proof fn lemma_kv_sum_push(ids: Seq<u64>, x: u64, reqs: Map<u64, Request>)
    ensures
        kv_sum(ids.push(x), reqs) == kv_sum(ids, reqs) + reqs[x].kv_slots,
{
    assert(ids.push(x).drop_last() =~= ids);
}

proof fn lemma_kv_sum_frame(ids: Seq<u64>, r1: Map<u64, Request>, r2: Map<u64, Request>)
    requires
        forall|i: int| 0 <= i < ids.len() ==> r1[#[trigger] ids[i]].kv_slots == r2[ids[i]].kv_slots,
    ensures
        kv_sum(ids, r1) == kv_sum(ids, r2),
    decreases ids.len(),
{
    if ids.len() > 0 {
        let t = ids.drop_last();
        assert forall|i: int| 0 <= i < t.len() implies r1[#[trigger] t[i]].kv_slots == r2[t[i]].kv_slots by {
            assert(t[i] == ids[i]);
        }
        lemma_kv_sum_frame(t, r1, r2);
        assert(ids[ids.len() - 1] == ids.last());
    }
}

proof fn lemma_kv_sum_member(ids: Seq<u64>, reqs: Map<u64, Request>, i: int)
    requires
        0 <= i < ids.len(),
    ensures
        reqs[ids[i]].kv_slots <= kv_sum(ids, reqs),
    decreases ids.len(),
{
    let t = ids.drop_last();
    lemma_kv_sum_nonneg(t, reqs);
    if i < ids.len() - 1 {
        lemma_kv_sum_member(t, reqs, i);
        assert(t[i] == ids[i]);
    }
}

proof fn lemma_kv_sum_nonneg(ids: Seq<u64>, reqs: Map<u64, Request>)
    ensures
        kv_sum(ids, reqs) >= 0,
    decreases ids.len(),
{
    if ids.len() > 0 {
        lemma_kv_sum_nonneg(ids.drop_last(), reqs);
    }
}

proof fn lemma_filter_facts(s: Seq<u64>, p: spec_fn(u64) -> bool)
    ensures
        s.filter(p).len() <= s.len(),
        forall|x: u64| #[trigger] s.filter(p).contains(x) <==> (s.contains(x) && p(x)),
        s.no_duplicates() ==> s.filter(p).no_duplicates(),
    decreases s.len(),
{
    broadcast use vstd::seq_lib::group_seq_properties;

    s.lemma_filter_len(p);
    if s.len() > 0 {
        let t = s.drop_last();
        let x = s.last();
        assert(s =~= t.push(x));
        lemma_filter_facts(t, p);
        t.lemma_filter_push(x, p);
        assert forall|y: u64| s.filter(p).contains(y) <==> (s.contains(y) && p(y)) by {
            if s.contains(y) && y != x {
                let k = choose|k: int| 0 <= k < s.len() && s[k] == y;
                assert(t[k] == y);
            }
        }
        if s.no_duplicates() {
            assert(t.no_duplicates()) by {
                assert forall|a: int, b: int| 0 <= a < t.len() && 0 <= b < t.len() && a != b implies t[a] != t[b] by {
                    assert(t[a] == s[a] && t[b] == s[b]);
                }
            }
            if p(x) {
                assert(!t.contains(x)) by {
                    if t.contains(x) {
                        let k = choose|k: int| 0 <= k < t.len() && t[k] == x;
                        assert(s[k] == x && s[s.len() - 1] == x);
                    }
                }
                assert(!t.filter(p).contains(x));
                let f = t.filter(p);
                assert forall|a: int, b: int|
                    0 <= a < f.push(x).len() && 0 <= b < f.push(x).len() && a != b implies f.push(x)[a]
                    != f.push(x)[b] by {
                    if a == f.len() {
                        assert(f.contains(f.push(x)[b]));
                    } else if b == f.len() {
                        assert(f.contains(f.push(x)[a]));
                    }
                }
            }
        }
    } else {
        assert(s.filter(p).len() == 0);
    }
}

proof fn lemma_kv_split(
    b: Seq<u64>,
    r0: Map<u64, Request>,
    r1: Map<u64, Request>,
    p: spec_fn(u64) -> bool,
    q: spec_fn(u64) -> bool,
)
    requires
        forall|i: int| 0 <= i < b.len() ==> r1[#[trigger] b[i]].kv_slots == r0[b[i]].kv_slots + 1,
        forall|x: u64| #[trigger] q(x) == !p(x),
    ensures
        kv_sum(b, r0) + b.len() == kv_sum(b.filter(p), r1) + kv_sum(b.filter(q), r1),
    decreases b.len(),
{
    if b.len() == 0 {
        assert(b.filter(p).len() == 0) by { b.lemma_filter_len(p); }
        assert(b.filter(q).len() == 0) by { b.lemma_filter_len(q); }
    } else {
        let t = b.drop_last();
        let x = b.last();
        assert(b =~= t.push(x));
        assert forall|i: int| 0 <= i < t.len() implies r1[#[trigger] t[i]].kv_slots == r0[t[i]].kv_slots + 1 by {
            assert(t[i] == b[i]);
        }
        lemma_kv_split(t, r0, r1, p, q);
        t.lemma_filter_push(x, p);
        t.lemma_filter_push(x, q);
        lemma_kv_sum_push(t.filter(p), x, r1);
        lemma_kv_sum_push(t.filter(q), x, r1);
        assert(r1[x].kv_slots == r0[x].kv_slots + 1) by {
            assert(b[b.len() - 1] == x);
        }
    }
}

/// Joining the batch keeps the invariant and reserves exactly the prompt's KV slots.
proof fn lemma_join_batch(s: SchedulerState, id: u64)
    requires
        scheduler_inv(s),
        s.requests.contains_key(id),
        !s.batch.contains(id),
        !s.kv_wait.contains(id),
        !s.prefill_queue.contains(id),
        s.being_prefilled != Some(id),
        can_admit(s, s.requests[id].prompt_len as int),
    ensures
        scheduler_inv(join_batch(s, id)),
        kv_in_use(join_batch(s, id)) == kv_in_use(s) + s.requests[id].prompt_len,
{
    broadcast use vstd::seq_lib::group_seq_properties;

    let t = join_batch(s, id);
    assert forall|i: int| 0 <= i < s.batch.len() implies t.requests[#[trigger] s.batch[i]].kv_slots
        == s.requests[s.batch[i]].kv_slots by {
        assert(s.batch[i] != id);
    }
    lemma_kv_sum_frame(s.batch, t.requests, s.requests);
    lemma_kv_sum_push(s.batch, id, t.requests);
    assert(t.batch.no_duplicates()) by {
        assert forall|a: int, b: int|
            0 <= a < t.batch.len() && 0 <= b < t.batch.len() && a != b implies t.batch[a] != t.batch[b] by {
            if a == s.batch.len() {
                assert(s.batch.contains(t.batch[b]));
            } else if b == s.batch.len() {
                assert(s.batch.contains(t.batch[a]));
            }
        }
    }
    assert forall|i: int| 0 <= i < t.batch.len() implies t.requests[#[trigger] t.batch[i]].tokens_generated
        <= t.requests[t.batch[i]].kv_slots by {
        if i < s.batch.len() {
            assert(t.batch[i] == s.batch[i]);
            assert(s.batch[i] != id);
        }
    }
    assert forall|id2: u64| t.requests.contains_key(id2) && !t.batch.contains(id2) implies #[trigger] t.requests[id2].tokens_generated == 0 by {
        assert(id2 != id);
    }
    assert(t.batch.disjoint(t.kv_wait)) by {
        assert forall|a: int, b: int| 0 <= a < t.batch.len() && 0 <= b < t.kv_wait.len() implies t.batch[a] != t.kv_wait[b] by {
            if a == s.batch.len() {
                assert(s.kv_wait.contains(t.kv_wait[b]));
            }
        }
    }
    assert(t.batch.disjoint(t.prefill_queue)) by {
        assert forall|a: int, b: int| 0 <= a < t.batch.len() && 0 <= b < t.prefill_queue.len() implies t.batch[a] != t.prefill_queue[b] by {
            if a == s.batch.len() {
                assert(s.prefill_queue.contains(t.prefill_queue[b]));
            }
        }
    }
}

/// Admitting waiting requests keeps the invariant.
proof fn lemma_admit_waiting(s: SchedulerState)
    requires
        scheduler_inv(s),
    ensures
        scheduler_inv(admit_waiting(s)),
    decreases s.kv_wait.len(),
{
    broadcast use vstd::seq_lib::group_seq_properties;

    if s.kv_wait.len() > 0 && can_admit(s, s.requests[s.kv_wait[0]].prompt_len as int) {
        let id = s.kv_wait[0];
        let s1 = SchedulerState { kv_wait: s.kv_wait.drop_first(), ..s };
        lemma_pop_waiting(s);
        lemma_join_batch(s1, id);
        lemma_admit_waiting(join_batch(s1, id));
    }
}

/// Taking the head off the waiting queue keeps the invariant and the head is then
/// tracked nowhere but in `requests`.
proof fn lemma_pop_waiting(s: SchedulerState)
    requires
        scheduler_inv(s),
        s.kv_wait.len() > 0,
    ensures
        ({
            let s1 = SchedulerState { kv_wait: s.kv_wait.drop_first(), ..s };
            let id = s.kv_wait[0];
            &&& scheduler_inv(s1)
            &&& s1.requests.contains_key(id)
            &&& !s1.batch.contains(id)
            &&& !s1.kv_wait.contains(id)
            &&& !s1.prefill_queue.contains(id)
            &&& s1.being_prefilled != Some(id)
            &&& kv_in_use(s1) == kv_in_use(s)
        }),
{
    broadcast use vstd::seq_lib::group_seq_properties;

    let s1 = SchedulerState { kv_wait: s.kv_wait.drop_first(), ..s };
    let id = s.kv_wait[0];
    assert(!s1.kv_wait.contains(id)) by {
        if s1.kv_wait.contains(id) {
            let k = choose|k: int| 0 <= k < s1.kv_wait.len() && s1.kv_wait[k] == id;
            assert(s.kv_wait[k + 1] == id);
        }
    }
    assert(!s.batch.contains(id)) by {
        if s.batch.contains(id) {
            let k = choose|k: int| 0 <= k < s.batch.len() && s.batch[k] == id;
            assert(s.batch[k] != s.kv_wait[0]);
        }
    }
    assert(!s.prefill_queue.contains(id)) by {
        if s.prefill_queue.contains(id) {
            let k = choose|k: int| 0 <= k < s.prefill_queue.len() && s.prefill_queue[k] == id;
            assert(s.kv_wait[0] != s.prefill_queue[k]);
        }
    }
    assert(s.kv_wait.contains(id));
    assert forall|i: int| 0 <= i < s1.kv_wait.len() implies s1.requests.contains_key(#[trigger] s1.kv_wait[i]) by {
        assert(s1.kv_wait[i] == s.kv_wait[i + 1]);
    }
    assert(s1.kv_wait.no_duplicates()) by {
        assert forall|a: int, b: int| 0 <= a < s1.kv_wait.len() && 0 <= b < s1.kv_wait.len() && a != b implies s1.kv_wait[a] != s1.kv_wait[b] by {
            assert(s1.kv_wait[a] == s.kv_wait[a + 1] && s1.kv_wait[b] == s.kv_wait[b + 1]);
        }
    }
    assert(s1.batch.disjoint(s1.kv_wait)) by {
        assert forall|a: int, b: int| 0 <= a < s1.batch.len() && 0 <= b < s1.kv_wait.len() implies s1.batch[a] != s1.kv_wait[b] by {
            assert(s1.kv_wait[b] == s.kv_wait[b + 1]);
        }
    }
    assert(s1.kv_wait.disjoint(s1.prefill_queue)) by {
        assert forall|a: int, b: int| 0 <= a < s1.kv_wait.len() && 0 <= b < s1.prefill_queue.len() implies s1.kv_wait[a] != s1.prefill_queue[b] by {
            assert(s1.kv_wait[a] == s.kv_wait[a + 1]);
        }
    }
    assert(s1.being_prefilled matches Some(bp) ==> !s1.kv_wait.contains(bp)) by {
        if let Some(bp) = s1.being_prefilled {
            if s1.kv_wait.contains(bp) {
                let k = choose|k: int| 0 <= k < s1.kv_wait.len() && s1.kv_wait[k] == bp;
                assert(s.kv_wait[k + 1] == bp);
            }
        }
    }
}

/// Taking the head off the prefill queue keeps the invariant, and the head is then
/// tracked nowhere but in `requests`.
proof fn lemma_pop_queue(s: SchedulerState)
    requires
        scheduler_inv(s),
        s.prefill_queue.len() > 0,
        s.being_prefilled is None,
    ensures
        ({
            let s1 = SchedulerState { prefill_queue: s.prefill_queue.drop_first(), ..s };
            let id = s.prefill_queue[0];
            &&& scheduler_inv(s1)
            &&& scheduler_inv(SchedulerState { being_prefilled: Some(id), ..s1 })
        }),
{
    broadcast use vstd::seq_lib::group_seq_properties;

    let s1 = SchedulerState { prefill_queue: s.prefill_queue.drop_first(), ..s };
    let id = s.prefill_queue[0];
    assert(!s1.prefill_queue.contains(id)) by {
        if s1.prefill_queue.contains(id) {
            let k = choose|k: int| 0 <= k < s1.prefill_queue.len() && s1.prefill_queue[k] == id;
            assert(s.prefill_queue[k + 1] == id);
        }
    }
    assert(!s.batch.contains(id)) by {
        if s.batch.contains(id) {
            let k = choose|k: int| 0 <= k < s.batch.len() && s.batch[k] == id;
            assert(s.batch[k] != s.prefill_queue[0]);
        }
    }
    assert(!s.kv_wait.contains(id)) by {
        if s.kv_wait.contains(id) {
            let k = choose|k: int| 0 <= k < s.kv_wait.len() && s.kv_wait[k] == id;
            assert(s.kv_wait[k] != s.prefill_queue[0]);
        }
    }
    assert forall|i: int| 0 <= i < s1.prefill_queue.len() implies s1.requests.contains_key(#[trigger] s1.prefill_queue[i]) by {
        assert(s1.prefill_queue[i] == s.prefill_queue[i + 1]);
    }
    assert(s1.prefill_queue.no_duplicates()) by {
        assert forall|a: int, b: int| 0 <= a < s1.prefill_queue.len() && 0 <= b < s1.prefill_queue.len() && a != b implies s1.prefill_queue[a] != s1.prefill_queue[b] by {
            assert(s1.prefill_queue[a] == s.prefill_queue[a + 1] && s1.prefill_queue[b] == s.prefill_queue[b + 1]);
        }
    }
    assert(s1.batch.disjoint(s1.prefill_queue)) by {
        assert forall|a: int, b: int| 0 <= a < s1.batch.len() && 0 <= b < s1.prefill_queue.len() implies s1.batch[a] != s1.prefill_queue[b] by {
            assert(s1.prefill_queue[b] == s.prefill_queue[b + 1]);
        }
    }
    assert(s1.kv_wait.disjoint(s1.prefill_queue)) by {
        assert forall|a: int, b: int| 0 <= a < s1.kv_wait.len() && 0 <= b < s1.prefill_queue.len() implies s1.kv_wait[a] != s1.prefill_queue[b] by {
            assert(s1.prefill_queue[b] == s.prefill_queue[b + 1]);
        }
    }
    assert(s.prefill_queue.contains(id));
}

/// Starting a prefill keeps the invariant and touches neither requests, batch nor
/// waiting queue.
proof fn lemma_try_start_prefill(s: SchedulerState)
    requires
        scheduler_inv(s),
    ensures
        scheduler_inv(try_start_prefill(s)),
        try_start_prefill(s).requests == s.requests,
        try_start_prefill(s).batch == s.batch,
        try_start_prefill(s).kv_wait == s.kv_wait,
        try_start_prefill(s).completed == s.completed,
        try_start_prefill(s).iteration_scheduled == s.iteration_scheduled,
        try_start_prefill(s).policy == s.policy,
        try_start_prefill(s).limits == s.limits,
    decreases s.prefill_queue.len(),
{
    if !(s.being_prefilled is Some || s.prefill_queue.len() == 0) {
        lemma_pop_queue(s);
        let rest = SchedulerState { prefill_queue: s.prefill_queue.drop_first(), ..s };
        if !s.requests.contains_key(s.prefill_queue[0]) {
            lemma_try_start_prefill(rest);
        }
    }
}

/// Recording and queueing an arrival with a fresh id keeps the invariant and the KV use.
proof fn lemma_enqueue(s: SchedulerState, id: u64, prompt_len: usize, output_len: usize)
    requires
        scheduler_inv(s),
        !s.requests.contains_key(id),
    ensures
        scheduler_inv(enqueued(s, id, prompt_len, output_len)),
        kv_in_use(enqueued(s, id, prompt_len, output_len)) == kv_in_use(s),
{
    broadcast use vstd::seq_lib::group_seq_properties;

    let prompt = if prompt_len < s.limits.kv_capacity { prompt_len } else { s.limits.kv_capacity };
    let r = Request {
        prompt_len: prompt,
        output_len,
        tokens_generated: 0,
        tokens_prefilled: 0,
        kv_slots: 0,
        first_token_sent: false,
    };
    let s1 = SchedulerState {
        requests: s.requests.insert(id, r),
        prefill_queue: s.prefill_queue.push(id),
        ..s
    };
    assert(!s.batch.contains(id)) by {
        if s.batch.contains(id) {
            let k = choose|k: int| 0 <= k < s.batch.len() && s.batch[k] == id;
            assert(s.requests.contains_key(s.batch[k]));
        }
    }
    assert(!s.kv_wait.contains(id)) by {
        if s.kv_wait.contains(id) {
            let k = choose|k: int| 0 <= k < s.kv_wait.len() && s.kv_wait[k] == id;
            assert(s.requests.contains_key(s.kv_wait[k]));
        }
    }
    assert(!s.prefill_queue.contains(id)) by {
        if s.prefill_queue.contains(id) {
            let k = choose|k: int| 0 <= k < s.prefill_queue.len() && s.prefill_queue[k] == id;
            assert(s.requests.contains_key(s.prefill_queue[k]));
        }
    }
    assert forall|i: int| 0 <= i < s.batch.len() implies s1.requests[#[trigger] s.batch[i]].kv_slots
        == s.requests[s.batch[i]].kv_slots by {
        assert(s.batch[i] != id);
    }
    lemma_kv_sum_frame(s.batch, s1.requests, s.requests);
    assert forall|i: int| 0 <= i < s1.prefill_queue.len() implies s1.requests.contains_key(#[trigger] s1.prefill_queue[i]) by {
        if i < s.prefill_queue.len() {
            assert(s1.prefill_queue[i] == s.prefill_queue[i]);
        }
    }
    assert(s1.prefill_queue.no_duplicates()) by {
        assert forall|a: int, b: int| 0 <= a < s1.prefill_queue.len() && 0 <= b < s1.prefill_queue.len() && a != b implies s1.prefill_queue[a] != s1.prefill_queue[b] by {
            if a == s.prefill_queue.len() {
                assert(s.prefill_queue.contains(s1.prefill_queue[b]));
            } else if b == s.prefill_queue.len() {
                assert(s.prefill_queue.contains(s1.prefill_queue[a]));
            }
        }
    }
    assert(s1.batch.disjoint(s1.prefill_queue)) by {
        assert forall|a: int, b: int| 0 <= a < s1.batch.len() && 0 <= b < s1.prefill_queue.len() implies s1.batch[a] != s1.prefill_queue[b] by {
            if b == s.prefill_queue.len() {
                assert(s.batch.contains(s1.batch[a]));
            }
        }
    }
    assert(s1.kv_wait.disjoint(s1.prefill_queue)) by {
        assert forall|a: int, b: int| 0 <= a < s1.kv_wait.len() && 0 <= b < s1.prefill_queue.len() implies s1.kv_wait[a] != s1.prefill_queue[b] by {
            if b == s.prefill_queue.len() {
                assert(s.kv_wait.contains(s1.kv_wait[a]));
            }
        }
    }
    assert forall|i: int| 0 <= i < s1.batch.len() implies s1.requests[#[trigger] s1.batch[i]].tokens_generated
        <= s1.requests[s1.batch[i]].kv_slots by {
        assert(s.batch[i] != id);
    }
    assert(scheduler_inv(s1));
}

/// Every arrival of a request with a fresh id keeps the scheduler invariant (no
/// request tracked twice, the batch within its cap, one request at a time under the
/// request-level policy) and reserves no KV slots.
pub proof fn lemma_arrival_keeps_invariant(s: SchedulerState, id: u64, prompt_len: usize, output_len: usize)
    requires
        scheduler_inv(s),
        !s.requests.contains_key(id),
    ensures
        scheduler_inv(arrival(s, id, prompt_len, output_len)),
        kv_in_use(arrival(s, id, prompt_len, output_len)) == kv_in_use(s),
{
    lemma_enqueue(s, id, prompt_len, output_len);
    if !s.iteration_scheduled {
        lemma_try_start_prefill(enqueued(s, id, prompt_len, output_len));
    }
}

/// A request tracked nowhere but in `requests` joins the waiting queue; the invariant
/// is kept.
proof fn lemma_wait(s: SchedulerState, id: u64)
    requires
        scheduler_inv(s),
        s.requests.contains_key(id),
        !s.batch.contains(id),
        !s.kv_wait.contains(id),
        !s.prefill_queue.contains(id),
        s.being_prefilled != Some(id),
    ensures
        scheduler_inv(SchedulerState { kv_wait: s.kv_wait.push(id), ..s }),
{
    broadcast use vstd::seq_lib::group_seq_properties;

    let s3 = SchedulerState { kv_wait: s.kv_wait.push(id), ..s };
    assert(s3.kv_wait.no_duplicates()) by {
        assert forall|a: int, b: int| 0 <= a < s3.kv_wait.len() && 0 <= b < s3.kv_wait.len() && a != b implies s3.kv_wait[a] != s3.kv_wait[b] by {
            if a == s.kv_wait.len() {
                assert(s.kv_wait.contains(s3.kv_wait[b]));
            } else if b == s.kv_wait.len() {
                assert(s.kv_wait.contains(s3.kv_wait[a]));
            }
        }
    }
    assert forall|i: int| 0 <= i < s3.kv_wait.len() implies s3.requests.contains_key(#[trigger] s3.kv_wait[i]) by {
        if i < s.kv_wait.len() {
            assert(s3.kv_wait[i] == s.kv_wait[i]);
        }
    }
    assert(s3.batch.disjoint(s3.kv_wait)) by {
        assert forall|a: int, b: int| 0 <= a < s3.batch.len() && 0 <= b < s3.kv_wait.len() implies s3.batch[a] != s3.kv_wait[b] by {
            if b == s.kv_wait.len() {
                assert(s.batch.contains(s3.batch[a]));
            }
        }
    }
    assert(s3.kv_wait.disjoint(s3.prefill_queue)) by {
        assert forall|a: int, b: int| 0 <= a < s3.kv_wait.len() && 0 <= b < s3.prefill_queue.len() implies s3.kv_wait[a] != s3.prefill_queue[b] by {
            if a == s.kv_wait.len() {
                assert(s.prefill_queue.contains(s3.prefill_queue[b]));
            }
        }
    }
}

/// A request whose prefill finished joins the batch or the waiting queue; the
/// invariant is kept and KV use either stays or stays within capacity.
proof fn lemma_try_admit(s: SchedulerState, id: u64)
    requires
        scheduler_inv(s),
        s.requests.contains_key(id),
        !s.batch.contains(id),
        !s.kv_wait.contains(id),
        !s.prefill_queue.contains(id),
        s.being_prefilled != Some(id),
    ensures
        scheduler_inv(try_admit(s, id)),
        kv_in_use(try_admit(s, id)) == kv_in_use(s) || kv_in_use(try_admit(s, id))
            <= s.limits.kv_capacity,
        try_admit(s, id).batch.contains(id) ==> kv_in_use(try_admit(s, id)) <= s.limits.kv_capacity,
{
    broadcast use vstd::seq_lib::group_seq_properties;

    if can_admit(s, s.requests[id].prompt_len as int) {
        lemma_join_batch(s, id);
    } else {
        lemma_wait(s, id);
    }
}

/// The request being prefilled records its next chunk; the invariant and the KV use
/// are kept, and when its prompt is complete it can leave prefill.
proof fn lemma_prefill_progress(s: SchedulerState, id: u64)
    requires
        scheduler_inv(s),
        s.being_prefilled == Some(id),
    ensures
        ({
            let r = s.requests[id];
            let r2 = Request { tokens_prefilled: (r.tokens_prefilled + prefill_chunk(s, id)) as usize, ..r };
            let s1 = SchedulerState { requests: s.requests.insert(id, r2), ..s };
            let s2 = SchedulerState { being_prefilled: None, ..s1 };
            &&& r.tokens_prefilled + prefill_chunk(s, id) <= r.prompt_len
            &&& scheduler_inv(s1)
            &&& kv_in_use(s1) == kv_in_use(s)
            &&& scheduler_inv(s2)
            &&& s2.requests.contains_key(id)
            &&& !s2.batch.contains(id)
            &&& !s2.kv_wait.contains(id)
            &&& !s2.prefill_queue.contains(id)
        }),
{
    let r = s.requests[id];
    let r2 = Request { tokens_prefilled: (r.tokens_prefilled + prefill_chunk(s, id)) as usize, ..r };
    let s1 = SchedulerState { requests: s.requests.insert(id, r2), ..s };
    assert forall|i: int| 0 <= i < s.batch.len() implies s1.requests[#[trigger] s.batch[i]].kv_slots
        == s.requests[s.batch[i]].kv_slots by {
        assert(s.batch[i] != id);
    }
    lemma_kv_sum_frame(s.batch, s1.requests, s.requests);
    assert forall|i: int| 0 <= i < s1.batch.len() implies s1.requests[#[trigger] s1.batch[i]].tokens_generated
        <= s1.requests[s1.batch[i]].kv_slots by {
        assert(s.batch[i] != id);
    }
}

/// A prefill chunk keeps the invariant; the KV slots in use either stay the same or,
/// when the finished request joins the batch, stay within capacity.
proof fn lemma_prefill_step(s: SchedulerState)
    requires
        scheduler_inv(s),
    ensures
        scheduler_inv(prefill_step(s)),
        kv_in_use(prefill_step(s)) == kv_in_use(s) || kv_in_use(prefill_step(s))
            <= s.limits.kv_capacity,
        prefill_step(s).limits == s.limits,
        prefill_step(s).policy == s.policy,
        prefill_step(s).completed == s.completed,
        prefill_step(s).iteration_scheduled == s.iteration_scheduled,
        prefill_step(s).prefill_queue == s.prefill_queue,
{
    if let Some(id) = s.being_prefilled {
        lemma_prefill_progress(s, id);
        let r = s.requests[id];
        let r2 = Request { tokens_prefilled: (r.tokens_prefilled + prefill_chunk(s, id)) as usize, ..r };
        let s1 = SchedulerState { requests: s.requests.insert(id, r2), ..s };
        if r2.tokens_prefilled >= r2.prompt_len {
            let s2 = SchedulerState { being_prefilled: None, ..s1 };
            lemma_try_admit(s2, id);
        }
    }
}

/// A decode step (with the admissions that follow it) keeps the invariant.
proof fn lemma_decode(s: SchedulerState)
    requires
        scheduler_inv(s),
        kv_in_use(s) + s.batch.len() <= usize::MAX,
    ensures
        scheduler_inv(decoded_state(s)),
        scheduler_inv(decode(s).0),
{
    broadcast use vstd::seq_lib::group_seq_properties;

    let reqs = s.requests;
    let b = s.batch;
    let going = continuing(reqs);
    let dm = decoded_requests(reqs, b);
    let kept = b.filter(going);
    let s1 = decoded_state(s);
    lemma_filter_facts(b, going);
    assert forall|i: int| 0 <= i < kept.len() implies s1.requests.contains_key(#[trigger] kept[i]) by {
        assert(kept.contains(kept[i]));
        let k = choose|k: int| 0 <= k < b.len() && b[k] == kept[i];
        assert(reqs.contains_key(b[k]));
    }
    assert forall|i: int| 0 <= i < s.kv_wait.len() implies s1.requests.contains_key(#[trigger] s.kv_wait[i]) by {
        assert(!b.contains(s.kv_wait[i])) by {
            if b.contains(s.kv_wait[i]) {
                let k = choose|k: int| 0 <= k < b.len() && b[k] == s.kv_wait[i];
            }
        }
    }
    assert forall|i: int| 0 <= i < s.prefill_queue.len() implies s1.requests.contains_key(#[trigger] s.prefill_queue[i]) by {
        assert(!b.contains(s.prefill_queue[i])) by {
            if b.contains(s.prefill_queue[i]) {
                let k = choose|k: int| 0 <= k < b.len() && b[k] == s.prefill_queue[i];
            }
        }
    }
    assert(kept.disjoint(s.kv_wait)) by {
        assert forall|a: int, c: int| 0 <= a < kept.len() && 0 <= c < s.kv_wait.len() implies kept[a] != s.kv_wait[c] by {
            assert(kept.contains(kept[a]));
            if kept[a] == s.kv_wait[c] {
                let k = choose|k: int| 0 <= k < b.len() && b[k] == kept[a];
            }
        }
    }
    assert(kept.disjoint(s.prefill_queue)) by {
        assert forall|a: int, c: int| 0 <= a < kept.len() && 0 <= c < s.prefill_queue.len() implies kept[a] != s.prefill_queue[c] by {
            assert(kept.contains(kept[a]));
            if kept[a] == s.prefill_queue[c] {
                let k = choose|k: int| 0 <= k < b.len() && b[k] == kept[a];
            }
        }
    }
    assert forall|id: u64| #[trigger] dm.contains_key(id) implies dm[id].tokens_prefilled <= dm[id].prompt_len by {
        assert(reqs.contains_key(id));
    }
    assert forall|i: int| 0 <= i < kept.len() implies dm[#[trigger] kept[i]].tokens_generated
        <= dm[kept[i]].kv_slots by {
        assert(kept.contains(kept[i]));
        let k = choose|k: int| 0 <= k < b.len() && b[k] == kept[i];
        lemma_kv_sum_member(b, reqs, k);
    }
    assert forall|id: u64| dm.contains_key(id) && !kept.contains(id) implies #[trigger] dm[id].tokens_generated == 0 by {
        assert(!b.contains(id));
    }
    if let Some(bp) = s.being_prefilled {
        assert(dm.contains_key(bp));
    }
    lemma_admit_waiting(s1);
}

/// Every GPU iteration keeps the scheduler invariant (no request tracked twice, the
/// batch within its cap, one request at a time under the request-level policy),
/// whenever the counters cannot overflow.
pub proof fn lemma_iteration_keeps_invariant(s: SchedulerState)
    requires
        scheduler_inv(s),
        kv_ceiling(s) + s.limits.max_batch_size <= usize::MAX,
    ensures
        scheduler_inv(iteration(s).0),
{
    let s0 = SchedulerState { iteration_scheduled: false, ..s };
    let s1 = prefill_step(s0);
    lemma_prefill_step(s0);
    lemma_kv_sum_nonneg(s.batch, s.requests);
    let s2 = if decodes(s0) {
        lemma_decode(s1);
        decode(s1).0
    } else {
        s1
    };
    if s2.being_prefilled is None {
        lemma_try_start_prefill(s2);
    }
}

/// Waiting requests join the batch in FIFO order: the admitted ones are a prefix of
/// the waiting queue, appended to the batch in that order, and the rest keep waiting.
pub proof fn lemma_admit_waiting_fifo(s: SchedulerState)
    ensures
        ({
            let t = admit_waiting(s);
            let n = s.kv_wait.len() - t.kv_wait.len();
            &&& 0 <= n <= s.kv_wait.len()
            &&& t.kv_wait == s.kv_wait.skip(n)
            &&& t.batch == s.batch + s.kv_wait.take(n)
        }),
    decreases s.kv_wait.len(),
{
    if s.kv_wait.len() > 0 && can_admit(s, s.requests[s.kv_wait[0]].prompt_len as int) {
        let s1 = join_batch(SchedulerState { kv_wait: s.kv_wait.drop_first(), ..s }, s.kv_wait[0]);
        lemma_admit_waiting_fifo(s1);
        let t = admit_waiting(s1);
        let m = s1.kv_wait.len() - t.kv_wait.len();
        assert(t.kv_wait =~= s.kv_wait.skip(m + 1));
        assert(t.batch =~= s.batch + s.kv_wait.take(m + 1));
    } else {
        assert(s.kv_wait.skip(0) =~= s.kv_wait);
        assert(s.batch + s.kv_wait.take(0) =~= s.batch);
    }
}

/// Admission stops only at a head of the waiting queue that cannot join the batch
/// (head-of-line blocking): requests behind it keep waiting even if they would fit.
pub proof fn lemma_admit_waiting_stops_at_blocked_head(s: SchedulerState)
    ensures
        admit_waiting(s).kv_wait.len() > 0 ==> !can_admit(
            admit_waiting(s),
            admit_waiting(s).requests[admit_waiting(s).kv_wait[0]].prompt_len as int,
        ),
    decreases s.kv_wait.len(),
{
    if s.kv_wait.len() > 0 && can_admit(s, s.requests[s.kv_wait[0]].prompt_len as int) {
        lemma_admit_waiting_stops_at_blocked_head(
            join_batch(SchedulerState { kv_wait: s.kv_wait.drop_first(), ..s }, s.kv_wait[0]),
        );
    }
}

/// Admission from the waiting queue never leaves the KV cache over capacity: if any
/// waiting request joined the batch, the KV slots in use afterwards fit the capacity.
pub proof fn lemma_admit_waiting_within_capacity(s: SchedulerState)
    requires
        scheduler_inv(s),
    ensures
        admit_waiting(s).batch.len() > s.batch.len() ==> kv_in_use(admit_waiting(s))
            <= s.limits.kv_capacity,
        admit_waiting(s).batch.len() >= s.batch.len(),
        admit_waiting(s).batch.len() == s.batch.len() ==> admit_waiting(s) == s,
        admit_waiting(s).limits == s.limits,
    decreases s.kv_wait.len(),
{
    if s.kv_wait.len() > 0 && can_admit(s, s.requests[s.kv_wait[0]].prompt_len as int) {
        let id = s.kv_wait[0];
        let s0 = SchedulerState { kv_wait: s.kv_wait.drop_first(), ..s };
        lemma_pop_waiting(s);
        lemma_join_batch(s0, id);
        let s1 = join_batch(s0, id);
        lemma_admit_waiting_within_capacity(s1);
    }
}

/// A request whose prefill completes joins the batch only if the KV slots in use then
/// fit the capacity; otherwise it waits.
pub proof fn lemma_prefill_admission_within_capacity(s: SchedulerState, id: u64)
    requires
        scheduler_inv(s),
        s.being_prefilled == Some(id),
    ensures
        prefill_step(s).batch.contains(id) ==> kv_in_use(prefill_step(s)) <= s.limits.kv_capacity,
        prefill_step(s).batch.contains(id) || prefill_step(s).being_prefilled == Some(id)
            || prefill_step(s).kv_wait.contains(id),
{
    broadcast use vstd::seq_lib::group_seq_properties;

    lemma_prefill_progress(s, id);
    let r = s.requests[id];
    let r2 = Request { tokens_prefilled: (r.tokens_prefilled + prefill_chunk(s, id)) as usize, ..r };
    let s1 = SchedulerState { requests: s.requests.insert(id, r2), ..s };
    if r2.tokens_prefilled >= r2.prompt_len {
        let s2 = SchedulerState { being_prefilled: None, ..s1 };
        lemma_try_admit(s2, id);
        if !can_admit(s2, s2.requests[id].prompt_len as int) {
            assert(try_admit(s2, id).kv_wait == s2.kv_wait.push(id));
            assert(try_admit(s2, id).kv_wait[s2.kv_wait.len() as int] == id);
        }
    }
}

/// Chunked prefill bounds the prefill work of an iteration by `chunk_size`; without
/// chunking, an iteration that prefills runs no decode step. Either way a request
/// being prefilled keeps the GPU until its prompt is done: an arrival never takes
/// its place.
pub proof fn lemma_prefill_chunking(s: SchedulerState, id: u64, prompt_len: usize, output_len: usize)
    requires
        scheduler_inv(s),
        !s.requests.contains_key(id),
    ensures
        s.limits.chunk_size > 0 ==> next_work(s).prefill_tokens <= s.limits.chunk_size,
        s.limits.chunk_size == 0 && s.being_prefilled is Some ==> !decodes(s),
        s.being_prefilled is Some ==> arrival(s, id, prompt_len, output_len).being_prefilled
            == s.being_prefilled,
{
    if let Some(b) = s.being_prefilled {
        assert(s.requests.contains_key(b));
    }
}

proof fn lemma_prompt_sum_frame(ids: Seq<u64>, r1: Map<u64, Request>, r2: Map<u64, Request>)
    requires
        forall|i: int| 0 <= i < ids.len() ==> r1[#[trigger] ids[i]].prompt_len == r2[ids[i]].prompt_len,
    ensures
        prompt_sum(ids, r1) == prompt_sum(ids, r2),
    decreases ids.len(),
{
    if ids.len() > 0 {
        let t = ids.drop_first();
        assert forall|i: int| 0 <= i < t.len() implies r1[#[trigger] t[i]].prompt_len == r2[t[i]].prompt_len by {
            assert(t[i] == ids[i + 1]);
        }
        lemma_prompt_sum_frame(t, r1, r2);
    }
}

proof fn lemma_kv_sum_grown(ids: Seq<u64>, r0: Map<u64, Request>, r1: Map<u64, Request>)
    requires
        forall|i: int| 0 <= i < ids.len() ==> r1[#[trigger] ids[i]].kv_slots == r0[ids[i]].kv_slots + 1,
    ensures
        kv_sum(ids, r1) == kv_sum(ids, r0) + ids.len(),
    decreases ids.len(),
{
    if ids.len() > 0 {
        let t = ids.drop_last();
        assert forall|i: int| 0 <= i < t.len() implies r1[#[trigger] t[i]].kv_slots == r0[t[i]].kv_slots + 1 by {
            assert(t[i] == ids[i]);
        }
        lemma_kv_sum_grown(t, r0, r1);
        assert(ids[ids.len() - 1] == ids.last());
    }
}

/// Admission from the waiting queue reserves, for each admitted request, exactly the
/// KV slots of its prompt: the slots in use grow by the admitted prompts' total, every
/// admitted request holds its prompt's slots, and the other requests are left as they were.
pub proof fn lemma_admit_waiting_reserves_prompts(s: SchedulerState)
    requires
        scheduler_inv(s),
    ensures
        ({
            let t = admit_waiting(s);
            let admitted = s.kv_wait.take(s.kv_wait.len() - t.kv_wait.len());
            &&& kv_in_use(t) == kv_in_use(s) + prompt_sum(admitted, s.requests)
            &&& forall|i: int|
                0 <= i < admitted.len() ==> t.requests[#[trigger] admitted[i]].kv_slots
                    == s.requests[admitted[i]].prompt_len
            &&& forall|k: u64| !admitted.contains(k) ==> #[trigger] t.requests[k] == s.requests[k]
        }),
    decreases s.kv_wait.len(),
{
    broadcast use vstd::seq_lib::group_seq_properties;

    lemma_admit_waiting_fifo(s);
    if s.kv_wait.len() > 0 && can_admit(s, s.requests[s.kv_wait[0]].prompt_len as int) {
        let id = s.kv_wait[0];
        let s0 = SchedulerState { kv_wait: s.kv_wait.drop_first(), ..s };
        lemma_pop_waiting(s);
        lemma_join_batch(s0, id);
        let s1 = join_batch(s0, id);
        lemma_admit_waiting_reserves_prompts(s1);
        lemma_admit_waiting_fifo(s1);
        let t = admit_waiting(s1);
        assert(t == admit_waiting(s));
        let m = s1.kv_wait.len() - t.kv_wait.len();
        let a1 = s1.kv_wait.take(m);
        let admitted = s.kv_wait.take(s.kv_wait.len() - t.kv_wait.len());
        assert(admitted.len() == m + 1);
        assert(admitted[0] == id);
        assert(admitted.drop_first() =~= a1);
        assert forall|i: int| 0 <= i < a1.len() implies s1.requests[#[trigger] a1[i]].prompt_len
            == s.requests[a1[i]].prompt_len by {
            if a1[i] == id {
                assert(s1.kv_wait.contains(id));
            }
        }
        lemma_prompt_sum_frame(a1, s1.requests, s.requests);
        assert(!a1.contains(id));
        assert forall|i: int| 0 <= i < admitted.len() implies t.requests[#[trigger] admitted[i]].kv_slots
            == s.requests[admitted[i]].prompt_len by {
            if i > 0 {
                assert(admitted[i] == a1[i - 1]);
                if a1[i - 1] == id {
                    assert(a1.contains(id));
                }
            }
        }
        assert forall|k: u64| !admitted.contains(k) implies #[trigger] t.requests[k] == s.requests[k] by {
            assert(k != id) by {
                assert(admitted.contains(admitted[0]));
            }
            assert(!a1.contains(k)) by {
                if a1.contains(k) {
                    let j = choose|j: int| 0 <= j < a1.len() && a1[j] == k;
                    assert(admitted[j + 1] == k);
                }
            }
        }
    } else {
        assert(s.kv_wait.take(0) =~= Seq::<u64>::empty());
    }
}

/// A decode step frees exactly what the finished requests hold: every batch member
/// gains one KV slot, and the finished ones give back all of theirs, so the slots in
/// use grow by the batch size less the finished requests' slots after their last token.
pub proof fn lemma_decode_kv_accounting(s: SchedulerState)
    requires
        scheduler_inv(s),
        kv_in_use(s) + s.batch.len() <= usize::MAX,
    ensures
        ({
            let done = s.batch.filter(finishing(s.requests));
            kv_in_use(decoded_state(s)) == kv_in_use(s) + s.batch.len() - (kv_sum(done, s.requests)
                + done.len())
        }),
{
    broadcast use vstd::seq_lib::group_seq_properties;

    let reqs = s.requests;
    let b = s.batch;
    let grown = Map::new(
        |id: u64| reqs.contains_key(id),
        |id: u64|
            if b.contains(id) {
                bumped(reqs[id])
            } else {
                reqs[id]
            },
    );
    let kept = b.filter(continuing(reqs));
    let done = b.filter(finishing(reqs));
    let dm = decoded_requests(reqs, b);
    assert forall|i: int| 0 <= i < b.len() implies grown[#[trigger] b[i]].kv_slots == reqs[b[i]].kv_slots + 1 by {
        assert(b.contains(b[i]));
        lemma_kv_sum_member(b, reqs, i);
    }
    lemma_kv_split(b, reqs, grown, continuing(reqs), finishing(reqs));
    lemma_filter_facts(b, continuing(reqs));
    lemma_filter_facts(b, finishing(reqs));
    assert forall|i: int| 0 <= i < kept.len() implies dm[#[trigger] kept[i]].kv_slots == grown[kept[i]].kv_slots by {
        assert(kept.contains(kept[i]));
        let k = choose|k: int| 0 <= k < b.len() && b[k] == kept[i];
        assert(reqs.contains_key(b[k]));
    }
    lemma_kv_sum_frame(kept, dm, grown);
    assert forall|i: int| 0 <= i < done.len() implies grown[#[trigger] done[i]].kv_slots == reqs[done[i]].kv_slots + 1 by {
        assert(done.contains(done[i]));
        let k = choose|k: int| 0 <= k < b.len() && b[k] == done[i];
        assert(reqs.contains_key(b[k]));
        lemma_kv_sum_member(b, reqs, k);
    }
    lemma_kv_sum_grown(done, reqs, grown);
}

/// An arrival while an iteration is already scheduled only records the request and
/// queues it for prefill: nothing starts prefilling, nothing joins or leaves the batch,
/// and the committed iteration does exactly the work it was scheduled with.
pub proof fn lemma_arrival_while_scheduled_only_enqueues(
    s: SchedulerState,
    id: u64,
    prompt_len: usize,
    output_len: usize,
)
    requires
        scheduler_inv(s),
        !s.requests.contains_key(id),
        s.iteration_scheduled,
    ensures
        ({
            let t = arrival(s, id, prompt_len, output_len);
            &&& t.being_prefilled == s.being_prefilled
            &&& t.prefill_queue == s.prefill_queue.push(id)
            &&& t.batch == s.batch
            &&& t.kv_wait == s.kv_wait
            &&& t.completed == s.completed
            &&& t.iteration_scheduled
            &&& t.requests.contains_key(id)
            &&& t.requests[id].tokens_prefilled == 0
            &&& t.requests[id].tokens_generated == 0
            &&& t.requests[id].kv_slots == 0
            &&& t.requests[id].output_len == output_len
            &&& t.requests[id].prompt_len <= prompt_len
            &&& t.requests[id].prompt_len <= s.limits.kv_capacity
            &&& (t.requests[id].prompt_len == prompt_len || t.requests[id].prompt_len
                == s.limits.kv_capacity)
            &&& forall|k: u64| k != id ==> #[trigger] t.requests.contains_key(k) == s.requests.contains_key(k)
                && t.requests[k] == s.requests[k]
            &&& next_work(t) == next_work(s)
        }),
{
    if let Some(bp) = s.being_prefilled {
        assert(s.requests.contains_key(bp));
        assert(bp != id);
    }
}

/// A request whose prefill just finished joins the batch exactly when there is room for
/// it: its prompt fits the free KV-cache slots, the batch is below its cap, and the
/// policy allows it (iteration-level batching, or an empty batch). It then holds its
/// prompt's slots. Otherwise it waits at the back of the KV wait queue. Requests
/// already waiting play no part in the decision.
pub proof fn lemma_try_admit_joins_iff_room(s: SchedulerState, id: u64)
    ensures
        ({
            let t = try_admit(s, id);
            let room = kv_in_use(s) + s.requests[id].prompt_len <= s.limits.kv_capacity
                && s.batch.len() < s.limits.max_batch_size && (s.policy == LlmPolicy::IterationLevel
                || s.batch.len() == 0);
            &&& room ==> t.batch == s.batch.push(id) && t.kv_wait == s.kv_wait
                && t.requests[id].kv_slots == s.requests[id].prompt_len
            &&& !room ==> t.batch == s.batch && t.kv_wait == s.kv_wait.push(id) && t.requests
                == s.requests
            &&& t.prefill_queue == s.prefill_queue
            &&& t.being_prefilled == s.being_prefilled
        }),
{
}

/// Admission from the waiting queue takes its head whenever there is room for it: its
/// prompt fits the free KV-cache slots, the batch is below its cap, and the policy
/// allows it. The head is then the next member of the batch.
pub proof fn lemma_admit_waiting_takes_head_with_room(s: SchedulerState)
    requires
        s.kv_wait.len() > 0,
        kv_in_use(s) + s.requests[s.kv_wait[0]].prompt_len <= s.limits.kv_capacity,
        s.batch.len() < s.limits.max_batch_size,
        s.policy == LlmPolicy::IterationLevel || s.batch.len() == 0,
    ensures
        admit_waiting(s).batch.len() > s.batch.len(),
        admit_waiting(s).batch[s.batch.len() as int] == s.kv_wait[0],
        admit_waiting(s).kv_wait.len() < s.kv_wait.len(),
{
    let s1 = join_batch(SchedulerState { kv_wait: s.kv_wait.drop_first(), ..s }, s.kv_wait[0]);
    lemma_admit_waiting_fifo(s1);
    assert(admit_waiting(s) == admit_waiting(s1));
    assert(s1.batch[s.batch.len() as int] == s.kv_wait[0]);
    let n = s1.kv_wait.len() - admit_waiting(s1).kv_wait.len();
    assert(admit_waiting(s1).batch[s.batch.len() as int] == (s1.batch + s1.kv_wait.take(n))[s.batch.len() as int]);
}

/// An arrival while no iteration is scheduled and nothing is being prefilled claims
/// the GPU: the oldest request queued for prefill (the new one, when the queue was
/// empty) starts its prefill, and the others keep their order in the queue.
pub proof fn lemma_arrival_when_idle_starts_oldest(
    s: SchedulerState,
    id: u64,
    prompt_len: usize,
    output_len: usize,
)
    requires
        scheduler_inv(s),
        !s.requests.contains_key(id),
        !s.iteration_scheduled,
        s.being_prefilled is None,
    ensures
        ({
            let t = arrival(s, id, prompt_len, output_len);
            let q = s.prefill_queue.push(id);
            &&& t.being_prefilled == Some(q[0])
            &&& t.prefill_queue == q.drop_first()
            &&& t.batch == s.batch
            &&& t.kv_wait == s.kv_wait
            &&& t.requests.contains_key(id)
        }),
{
    let q = s.prefill_queue.push(id);
    if s.prefill_queue.len() > 0 {
        assert(q[0] == s.prefill_queue[0]);
        assert(s.requests.contains_key(s.prefill_queue[0]));
    }
}

} // verus!
