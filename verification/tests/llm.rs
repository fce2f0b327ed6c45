use des::llm::{BatchLimits, InferenceScheduler, LlmPolicy};

fn limits(kv_capacity: usize, chunk_size: usize) -> BatchLimits {
    BatchLimits { kv_capacity, max_batch_size: 16, chunk_size }
}

#[test]
fn policy_labels() {
    assert_eq!(LlmPolicy::RequestLevel.label(), "request-level");
    assert_eq!(LlmPolicy::IterationLevel.label(), "iter-level ");
}

#[test]
fn iteration_level_batches_requests_and_frees_kv_on_completion() {
    let mut s = InferenceScheduler::new(LlmPolicy::IterationLevel, limits(100, 0));
    let w = s.on_arrival(0, 10, 2).expect("GPU idle: an iteration is due");
    assert_eq!((w.prefill_tokens, w.batch_size, w.unchunked), (10, 0, true));
    s.commit_iteration();
    assert!(s.on_arrival(1, 20, 1).is_none());
    assert!(s.has_request(1));

    // Unchunked prefill of request 0: it joins the batch, no decode step runs.
    let out = s.on_iteration();
    assert!(!out.decoded);
    assert_eq!(s.batch_len(), 1);
    assert_eq!(s.kv_used(), 10);
    assert_eq!((out.next.prefill_tokens, out.next.batch_size), (20, 1));

    s.commit_iteration();
    let out = s.on_iteration();
    assert!(!out.decoded);
    assert_eq!(s.batch_len(), 2);
    assert_eq!(s.kv_used(), 30);
    assert_eq!((out.next.prefill_tokens, out.next.batch_size), (0, 2));

    // First decode step: both produce a token, request 1 is done.
    let out = s.on_iteration();
    assert!(out.decoded);
    assert_eq!(out.first_tokens, vec![0, 1]);
    assert_eq!(out.completed, vec![1]);
    assert_eq!(s.kv_used(), 11);
    assert_eq!(s.batch_len(), 1);
    assert_eq!(s.completed(), 1);
    assert!(!s.has_request(1));

    let out = s.on_iteration();
    assert!(out.decoded);
    assert!(out.first_tokens.is_empty());
    assert_eq!(out.completed, vec![0]);
    assert_eq!(s.kv_used(), 0);
    assert_eq!(s.batch_len(), 0);
    assert_eq!(s.completed(), 2);
    assert_eq!((out.next.prefill_tokens, out.next.batch_size), (0, 0));
}

#[test]
fn request_level_serves_one_request_at_a_time() {
    let mut s = InferenceScheduler::new(LlmPolicy::RequestLevel, limits(100, 0));
    s.on_arrival(0, 10, 2);
    s.commit_iteration();
    s.on_arrival(1, 20, 1);
    s.on_iteration();
    assert_eq!(s.batch_len(), 1);
    // Request 1 finishes prefill but must wait for the batch to drain.
    s.on_iteration();
    assert_eq!(s.batch_len(), 1);
    assert_eq!(s.kv_used(), 10);
    let out = s.on_iteration();
    assert_eq!(out.first_tokens, vec![0]);
    assert!(out.completed.is_empty());
    assert_eq!(s.batch_len(), 1);
    // Request 0 finishes; request 1 is admitted in the same iteration.
    let out = s.on_iteration();
    assert_eq!(out.completed, vec![0]);
    assert_eq!(s.batch_len(), 1);
    assert_eq!(s.kv_used(), 20);
    let out = s.on_iteration();
    assert_eq!(out.first_tokens, vec![1]);
    assert_eq!(out.completed, vec![1]);
    assert_eq!(s.kv_used(), 0);
}

#[test]
fn kv_capacity_holds_back_requests_until_space_frees() {
    let mut s = InferenceScheduler::new(LlmPolicy::IterationLevel, limits(30, 0));
    s.on_arrival(0, 25, 1);
    s.commit_iteration();
    s.on_arrival(1, 10, 1);
    s.on_iteration(); // request 0 prefilled and admitted: 25 slots
    assert_eq!(s.kv_used(), 25);
    s.on_iteration(); // request 1 prefilled: 25 + 10 > 30, it waits
    assert_eq!(s.batch_len(), 1);
    assert_eq!(s.kv_used(), 25);
    let out = s.on_iteration(); // request 0 decodes and finishes, request 1 joins
    assert_eq!(out.completed, vec![0]);
    assert_eq!(s.batch_len(), 1);
    assert_eq!(s.kv_used(), 10);
}

#[test]
fn prompts_are_capped_by_kv_capacity() {
    let mut s = InferenceScheduler::new(LlmPolicy::IterationLevel, limits(8, 0));
    let w = s.on_arrival(0, 50, 1).unwrap();
    assert_eq!(w.prefill_tokens, 8);
}

#[test]
fn chunked_prefill_splits_prompt_and_keeps_decoding() {
    let mut s = InferenceScheduler::new(LlmPolicy::IterationLevel, limits(100, 4));
    let w = s.on_arrival(0, 3, 3).unwrap();
    assert_eq!((w.prefill_tokens, w.unchunked), (3, false));
    s.commit_iteration();
    s.on_arrival(1, 10, 1);
    let out = s.on_iteration(); // request 0 prefilled in one chunk, joins, decodes at once
    assert!(out.decoded);
    assert_eq!(out.first_tokens, vec![0]);
    assert_eq!(out.next.prefill_tokens, 4);
    let out = s.on_iteration(); // chunk 1 of request 1, decode continues
    assert!(out.decoded);
    assert_eq!(out.next.prefill_tokens, 4);
    let out = s.on_iteration(); // chunk 2; request 0 finishes
    assert_eq!(out.completed, vec![0]);
    assert_eq!(out.next.prefill_tokens, 2);
    let out = s.on_iteration(); // last chunk of 2 tokens: request 1 joins and decodes
    assert!(out.decoded);
    assert_eq!(out.completed, vec![1]);
    assert_eq!(out.next.prefill_tokens, 0);
    assert_eq!(s.completed(), 2);
}

#[test]
fn waiting_requests_join_in_fifo_order() {
    let mut s = InferenceScheduler::new(LlmPolicy::IterationLevel, limits(24, 0));
    s.on_arrival(0, 14, 1);
    s.commit_iteration();
    s.on_arrival(1, 20, 1);
    s.on_arrival(2, 11, 1);
    s.on_iteration(); // request 0 joins: 14 slots
    s.on_iteration(); // request 1 does not fit (14 + 20 > 24): waits
    s.on_iteration(); // request 2 does not fit (14 + 11 > 24): waits behind 1
    assert_eq!(s.batch_len(), 1);
    assert_eq!(s.kv_used(), 14);
    // Request 0 finishes; the head (1) joins, request 2 still does not fit behind it.
    let out = s.on_iteration();
    assert_eq!(out.completed, vec![0]);
    assert_eq!(s.batch_len(), 1);
    assert_eq!(s.kv_used(), 20);
    let out = s.on_iteration();
    assert_eq!(out.completed, vec![1]);
    assert_eq!(s.kv_used(), 11);
    let out = s.on_iteration();
    assert_eq!(out.completed, vec![2]);
    assert_eq!(s.kv_used(), 0);
    assert_eq!(s.completed(), 3);
}

#[test]
fn decode_step_frees_what_finished_requests_hold() {
    // Batch of two holding 10 and 20 KV slots: each gains a slot, and the finished
    // one gives back its 21, so 30 + 2 - 21 remain.
    let mut s = InferenceScheduler::new(LlmPolicy::IterationLevel, limits(100, 0));
    s.on_arrival(0, 10, 2);
    s.commit_iteration();
    s.on_arrival(1, 20, 1);
    s.on_iteration();
    s.on_iteration();
    assert_eq!(s.kv_used(), 30);
    let out = s.on_iteration();
    assert_eq!(out.completed, vec![1]);
    assert_eq!(s.kv_used(), 30 + 2 - 21);
}

#[test]
fn waiting_request_joins_with_its_prompt_slots_once_space_frees() {
    let mut s = InferenceScheduler::new(LlmPolicy::IterationLevel, limits(25, 0));
    s.on_arrival(0, 10, 1);
    s.commit_iteration();
    s.on_arrival(1, 20, 1);
    s.on_iteration();
    assert_eq!(s.kv_used(), 10);
    // Request 1's prompt does not fit beside request 0: it waits.
    s.on_iteration();
    assert_eq!(s.batch_len(), 1);
    assert_eq!(s.kv_used(), 10);
    // Request 0 finishes and frees its slots; request 1 joins holding its prompt's 20.
    let out = s.on_iteration();
    assert_eq!(out.completed, vec![0]);
    assert_eq!(s.batch_len(), 1);
    assert_eq!(s.kv_used(), 20);
}
