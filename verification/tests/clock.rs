use des::clock::SimClock;

#[test]
fn advances_forward() {
    let mut clock = SimClock::new();
    clock.advance_to(1.0f64.to_bits());
    clock.advance_to(1.0f64.to_bits());
    clock.advance_to(5.0f64.to_bits());
    assert_eq!(clock.time, 5.0f64.to_bits());
    assert_eq!(f64::from_bits(clock.time), 5.0);
}

#[test]
fn clock_starts_at_zero() {
    let clock = SimClock::new();
    assert_eq!(f64::from_bits(clock.time), 0.0);
}
