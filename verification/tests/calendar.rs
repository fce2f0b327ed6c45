use des::calendar::{Event, EventCalendar, EventKind};

fn arrival(t: f64, id: u64) -> Event<EventKind> {
    Event::new(t.to_bits(), EventKind::Arrival { job_id: id })
}

#[test]
fn pops_in_timestamp_order() {
    let mut cal = EventCalendar::new();
    cal.push(arrival(3.0, 3));
    cal.push(arrival(1.0, 1));
    cal.push(arrival(2.0, 2));
    assert_eq!(cal.pop_next().unwrap().timestamp, 1.0f64.to_bits());
    assert_eq!(cal.pop_next().unwrap().timestamp, 2.0f64.to_bits());
    assert_eq!(cal.pop_next().unwrap().timestamp, 3.0f64.to_bits());
    assert!(cal.pop_next().is_none());
}

#[test]
fn empty_calendar_returns_none() {
    let mut cal: EventCalendar<Event<EventKind>> = EventCalendar::new();
    assert!(cal.pop_next().is_none());
}

#[test]
fn handles_equal_timestamps() {
    let mut cal = EventCalendar::new();
    cal.push(arrival(1.0, 1));
    cal.push(arrival(1.0, 2));
    assert_eq!(cal.pop_next().unwrap().timestamp, 1.0f64.to_bits());
    assert_eq!(cal.pop_next().unwrap().timestamp, 1.0f64.to_bits());
}

#[test]
fn calendar_pops_many_events_sorted_and_keeps_payloads() {
    let mut cal = EventCalendar::new();
    let times = [9u64, 4, 7, 1, 8, 2, 6, 3, 5, 0, 4, 7];
    for (i, &t) in times.iter().enumerate() {
        cal.push(Event::new(
            t,
            EventKind::Departure { job_id: i as u64, server_id: i, epoch: t },
        ));
    }
    assert_eq!(cal.len(), times.len());
    let mut last: u64 = 0;
    let mut seen: usize = 0;
    while let Some(e) = cal.pop_next() {
        assert!(e.timestamp >= last);
        last = e.timestamp;
        match e.kind {
            EventKind::Departure { job_id, server_id, epoch } => {
                assert_eq!(times[job_id as usize], e.timestamp);
                assert_eq!(server_id as u64, job_id);
                assert_eq!(epoch, e.timestamp);
            }
            EventKind::Arrival { .. } => panic!("unexpected arrival"),
        }
        seen += 1;
    }
    assert_eq!(seen, times.len());
    assert_eq!(cal.len(), 0);
}

#[test]
fn calendar_interleaved_push_and_pop() {
    let mut cal = EventCalendar::new();
    cal.push(arrival(5.0, 1));
    cal.push(arrival(2.0, 2));
    assert_eq!(cal.pop_next().unwrap().timestamp, 2.0f64.to_bits());
    cal.push(arrival(1.0, 3));
    cal.push(arrival(7.0, 4));
    let e = cal.pop_next().unwrap();
    assert_eq!(e.timestamp, 1.0f64.to_bits());
    assert!(matches!(e.kind, EventKind::Arrival { job_id: 3 }));
    assert_eq!(cal.pop_next().unwrap().timestamp, 5.0f64.to_bits());
    assert_eq!(cal.pop_next().unwrap().timestamp, 7.0f64.to_bits());
    assert!(cal.pop_next().is_none());
}

#[test]
fn pop_until_takes_only_due_events() {
    let mut cal = EventCalendar::new();
    cal.push(arrival(4.0, 4));
    cal.push(arrival(1.0, 1));
    cal.push(arrival(2.0, 2));
    let end = 2.0f64.to_bits();
    assert_eq!(cal.pop_until(end).unwrap().timestamp, 1.0f64.to_bits());
    assert_eq!(cal.pop_until(end).unwrap().timestamp, 2.0f64.to_bits());
    assert!(cal.pop_until(end).is_none());
    // The later event stays pending.
    assert_eq!(cal.len(), 1);
    assert_eq!(cal.pop_next().unwrap().timestamp, 4.0f64.to_bits());
    assert!(cal.pop_until(end).is_none());
}
