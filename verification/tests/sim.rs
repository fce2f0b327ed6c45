use des::event::{Event, EventKind};
use des::sim::Simulation;

fn arrival(t: f64, id: u64) -> Event {
    Event::new(t.to_bits(), EventKind::Arrival { job_id: id })
}

fn departure(t: f64, job: u64, server: usize) -> Event {
    Event::new(
        t.to_bits(),
        EventKind::Departure {
            job_id: job,
            server_id: server,
        },
    )
}

#[test]
fn processes_events_in_order() {
    let mut sim = Simulation::new();
    sim.schedule(arrival(3.0, 3));
    sim.schedule(arrival(1.0, 1));
    sim.schedule(departure(2.5, 1, 0));
    sim.schedule(arrival(1.5, 2));
    sim.run_until(f64::INFINITY.to_bits());
    assert_eq!(sim.clock.time, 3.0f64.to_bits());
}

#[test]
fn stops_before_end_time() {
    let mut sim = Simulation::new();
    sim.schedule(arrival(1.0, 1));
    sim.schedule(arrival(5.0, 2));
    sim.run_until(3.0f64.to_bits());
    // Only the t=1.0 event should have been processed.
    assert_eq!(sim.clock.time, 1.0f64.to_bits());
}

#[test]
fn empty_simulation_runs_cleanly() {
    let mut sim = Simulation::new();
    sim.run_until(100.0f64.to_bits());
    assert_eq!(sim.clock.time, 0.0f64.to_bits());
}

#[test]
fn run_until_returns_processed_events_in_order_and_keeps_the_rest() {
    let mut sim = Simulation::default();
    sim.schedule(arrival(3.0, 3));
    sim.schedule(arrival(1.0, 1));
    sim.schedule(departure(2.5, 1, 0));
    sim.schedule(arrival(1.5, 2));
    sim.schedule(arrival(9.0, 9));
    let done = sim.run_until(3.0f64.to_bits());
    let times: Vec<f64> = done.iter().map(|e| f64::from_bits(e.timestamp)).collect();
    assert_eq!(times, vec![1.0, 1.5, 2.5, 3.0]);
    assert!(matches!(done[2].kind, EventKind::Departure { job_id: 1, server_id: 0 }));
    assert_eq!(sim.clock.time, 3.0f64.to_bits());
    // The event after the horizon is still pending and comes out on the next run.
    let rest = sim.run_until(f64::INFINITY.to_bits());
    assert_eq!(rest.len(), 1);
    assert!(matches!(rest[0].kind, EventKind::Arrival { job_id: 9 }));
    assert_eq!(sim.clock.time, 9.0f64.to_bits());
    assert!(sim.run_until(f64::INFINITY.to_bits()).is_empty());
}

#[test]
fn next_time_reports_the_earliest_pending_event() {
    let mut sim = Simulation::new();
    assert_eq!(sim.next_time(), None);
    sim.schedule(arrival(4.0, 1));
    sim.schedule(arrival(2.0, 2));
    assert_eq!(sim.next_time(), Some(2.0f64.to_bits()));
    sim.run_until(2.0f64.to_bits());
    assert_eq!(sim.next_time(), Some(4.0f64.to_bits()));
    assert_eq!(sim.clock.time, 2.0f64.to_bits());
}

#[test]
fn time_reads_the_clock_and_never_goes_back() {
    let mut sim = Simulation::new();
    assert_eq!(sim.time(), 0);
    sim.schedule(arrival(2.0, 1));
    sim.run_until(5.0f64.to_bits());
    assert_eq!(sim.time(), 2.0f64.to_bits());
    assert_eq!(sim.time(), sim.clock.time);
    // Nothing pending: a later run leaves the clock where it was.
    sim.run_until(8.0f64.to_bits());
    assert_eq!(sim.time(), 2.0f64.to_bits());
}
