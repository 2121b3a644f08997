use minesweeper::timer::Timer;
use std::time::Duration;

// Without sleeping this exercises the state machine: a stopped timer is
// frozen, so repeated readings agree, and reset returns it to zero.
#[test]
fn timer_state_machine() {
    let mut timer = Timer::new();
    assert_eq!(timer.time(), Duration::ZERO);
    assert_eq!(timer.time_as_secs(), 0);
    assert!(!timer.is_running());

    timer.start();
    assert!(timer.is_running());

    timer.stop();
    assert!(!timer.is_running());
    let frozen = timer.time();
    assert_eq!(timer.time(), frozen);
    assert_eq!(timer.time(), frozen);
    let secs = timer.time_as_secs();
    assert_eq!(timer.time_as_secs(), secs);

    timer.resume();
    assert!(timer.is_running());
    timer.stop();
    assert!(!timer.is_running());
    assert!(timer.time() >= frozen);

    timer.reset();
    assert!(!timer.is_running());
    assert_eq!(timer.time(), Duration::ZERO);
    assert_eq!(timer.time_as_secs(), 0);
}

// A running timer never reports less than its frozen total.
#[test]
fn timer_monotonic_over_stops() {
    let mut timer = Timer::new();
    timer.start();
    timer.stop();
    let first = timer.time();
    timer.resume();
    timer.stop();
    let second = timer.time();
    assert!(second >= first);
}
