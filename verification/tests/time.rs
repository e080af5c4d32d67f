use ntl::time::{instant_of, Clock, ManualClock, SystemClock, NANOS_PER_HOUR, NANOS_PER_SEC};

#[test]
fn manual_clock_advances() {
    let mut c = ManualClock::starting_at(1_000);
    assert_eq!(c.now_ns(), 1_000);
    c.advance_ns(500);
    assert_eq!(c.now_ns(), 1_500);
    c.advance_secs(1);
    assert_eq!(c.now_ns(), 1_500 + NANOS_PER_SEC);
}

#[test]
fn manual_clock_advances_hours() {
    let mut c = ManualClock::starting_at(0);
    c.advance_hours(24);
    assert_eq!(c.now_ns(), 24 * NANOS_PER_HOUR);
    let hours = c.now_ns() as f64 / NANOS_PER_HOUR as f64;
    assert!((hours as f32 - 24.0).abs() < 1e-3);
}

#[test]
fn system_clock_is_after_2020() {
    // 2020-01-01 in nanoseconds: a sanity check that the clock is real.
    assert!(SystemClock.now_ns() > 1_577_836_800_000_000_000);
}

#[test]
fn readings_of_the_host_are_held_within_range() {
    assert_eq!(instant_of(None), 0, "a clock before the epoch reads as the epoch");
    assert_eq!(instant_of(Some(5)), 5);
    assert_eq!(instant_of(Some(u128::MAX)), u64::MAX);
}

#[test]
fn a_manual_clock_does_not_overflow() {
    let mut c = ManualClock::starting_at(1);
    c.advance_hours(u64::MAX);
    assert_eq!(c.now_ns(), 0, "the largest step wraps around");
}
