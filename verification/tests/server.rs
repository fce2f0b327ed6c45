use des::server::Server;

#[test]
fn begin_returns_fresh_epoch_and_invalidates_older_ones() {
    let mut s = Server::new();
    assert!(s.is_idle());
    assert_eq!(s.current_job(), None);
    let e1 = s.begin(10, 5.0f64.to_bits());
    assert_eq!(e1, 1);
    assert!(!s.is_idle());
    assert_eq!(s.current_job(), Some(10));
    assert_eq!(s.departure_time, 5.0f64.to_bits());
    assert!(s.is_current_epoch(e1));
    // Preempt: the job is taken off and another one begins.
    s.finish();
    assert!(s.is_idle());
    let e2 = s.begin(11, 7.0f64.to_bits());
    assert_eq!(e2, 2);
    assert!(!s.is_current_epoch(e1));
    assert!(s.is_current_epoch(e2));
}

#[test]
fn start_bare_keeps_epoch() {
    let mut s = Server::new();
    s.start_bare(4);
    assert_eq!(s.current_job(), Some(4));
    assert!(s.is_current_epoch(0));
    s.finish();
    assert!(s.is_idle());
}

#[test]
fn departure_time_getter_reads_the_field() {
    let mut s = Server::new();
    assert_eq!(s.departure_time(), 0);
    s.begin(3, 9.0f64.to_bits());
    assert_eq!(s.departure_time(), 9.0f64.to_bits());
    assert_eq!(s.departure_time(), s.departure_time);
}
