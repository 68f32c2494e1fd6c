use coffee_stations::time::{Duration, Instant, TICK_HZ};

fn at(ticks: u64) -> Instant {
    Instant { ticks }
}

fn span(ticks: u64) -> Duration {
    Duration { ticks }
}

#[test]
fn tick_rate_is_that_of_the_clock() {
    assert_eq!(TICK_HZ, embassy_time::TICK_HZ);
}

#[test]
fn instants_add_and_subtract() {
    assert_eq!(at(7).checked_add(span(5)), Some(at(12)));
    assert_eq!(at(u64::MAX).checked_add(span(0)), Some(at(u64::MAX)));
    assert_eq!(at(u64::MAX).checked_add(span(1)), None);
    assert_eq!(at(7).checked_sub(span(5)), Some(at(2)));
    assert_eq!(at(7).checked_sub(span(7)), Some(at(0)));
    assert_eq!(at(7).checked_sub(span(8)), None);
}

#[test]
fn durations_add() {
    assert_eq!(span(7).checked_add(span(5)), Some(span(12)));
    assert_eq!(span(u64::MAX).checked_add(span(1)), None);
}

#[test]
fn time_between_instants() {
    assert_eq!(at(12).checked_duration_since(at(5)), Some(span(7)));
    assert_eq!(at(5).checked_duration_since(at(5)), Some(span(0)));
    assert_eq!(at(5).checked_duration_since(at(12)), None);
}

#[test]
fn milliseconds_round_down() {
    assert_eq!(at(1_999).as_millis(), 1);
    assert_eq!(at(2_000).as_millis(), 2);
    assert_eq!(at(u64::MAX).as_millis(), 18_446_744_073_709_551);
    assert_eq!(Instant::from_millis(3), at(3_000));
}

#[test]
fn spans_of_seconds_and_milliseconds() {
    assert_eq!(Duration::from_secs(3), span(3_000_000));
    assert_eq!(Duration::from_millis(500), span(500_000));
}

#[test]
fn clock_does_not_go_back() {
    let first = Instant::now();
    let second = Instant::now();
    assert!(second.checked_duration_since(first).is_some());
}
