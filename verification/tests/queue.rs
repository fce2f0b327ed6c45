use des::heap::MinHeap;
use des::queue::{QueuedJob, SimQueue};

#[test]
fn fcfs_serves_in_arrival_order() {
    let mut q = SimQueue::fcfs();
    q.push(3, 30);
    q.push(1, 10);
    q.push(2, 20);
    assert_eq!(q.len(), 3);
    assert_eq!(q.pop(), Some((3, 30)));
    assert_eq!(q.pop(), Some((1, 10)));
    q.push(4, 5);
    assert_eq!(q.pop(), Some((2, 20)));
    assert_eq!(q.pop(), Some((4, 5)));
    assert_eq!(q.pop(), None);
    assert_eq!(q.len(), 0);
}

#[test]
fn srpt_serves_least_remaining_then_lowest_id() {
    let mut q = SimQueue::srpt();
    let remaining = |x: f64| x.to_bits();
    q.push(3, remaining(3.0));
    q.push(1, remaining(5.0));
    q.push(7, remaining(0.5));
    q.push(2, remaining(3.0));
    assert_eq!(q.len(), 4);
    assert_eq!(q.pop(), Some((7, remaining(0.5))));
    assert_eq!(q.pop(), Some((2, remaining(3.0))));
    assert_eq!(q.pop(), Some((3, remaining(3.0))));
    assert_eq!(q.pop(), Some((1, remaining(5.0))));
    assert_eq!(q.pop(), None);
}

#[test]
fn min_heap_hands_out_items_in_key_order() {
    let mut h: MinHeap<QueuedJob> = MinHeap::new();
    let input: [(u64, u64); 8] = [(1, 9), (2, 3), (3, 3), (4, 0), (5, 12), (6, 3), (7, 1), (8, 0)];
    for &(job_id, remaining) in input.iter() {
        h.push(QueuedJob { job_id, remaining });
    }
    assert_eq!(h.len(), 8);
    let mut out: Vec<(u64, u64)> = Vec::new();
    while let Some(j) = h.pop() {
        out.push((j.remaining, j.job_id));
    }
    assert_eq!(
        out,
        vec![(0, 4), (0, 8), (1, 7), (3, 2), (3, 3), (3, 6), (9, 1), (12, 5)]
    );
    assert!(h.pop().is_none());
}
