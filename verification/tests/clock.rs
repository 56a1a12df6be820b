//! Transaction times.

use varve_engine::clock::{wall_from, Clock, MonotonicClock, SystemClockFactory};
use varve_engine::types::Instant;

#[test]
fn next_is_strictly_increasing_under_bursts() {
    let mut clock = MonotonicClock::new();
    let mut prev = clock.next();
    for _ in 0..10_000 {
        let t = clock.next();
        assert!(t > prev);
        prev = t;
    }
}

#[test]
fn watermark_does_not_advance_and_is_at_least_the_last_assigned_time() {
    let mut clock = MonotonicClock::new();
    let assigned = clock.next();
    assert!(clock.watermark() >= assigned);
    let w1 = clock.watermark();
    let w2 = clock.watermark();
    assert!(w2 >= w1);
    assert!(clock.next() > assigned);
}

#[test]
fn advance_to_floors_future_ticks() {
    let mut clock = MonotonicClock::new();
    let far_future = Instant::from_micros(i64::MAX - 10);
    clock.advance_to(far_future);
    assert!(clock.next() > far_future);
    assert!(clock.watermark() > far_future);
}

#[test]
fn advance_to_never_moves_backwards() {
    let mut clock = MonotonicClock::new();
    let t = clock.next();
    clock.advance_to(Instant::from_micros(0));
    assert!(clock.next() > t);
}

#[test]
fn system_factory_builds_a_clock() {
    assert_eq!(SystemClockFactory.name(), "system");
    let mut clock = SystemClockFactory.build();
    assert!(clock.next() > Instant::from_micros(0));
}

#[test]
fn times_follow_the_wall_clock_or_the_last_time() {
    let mut clock = MonotonicClock::new();
    assert_eq!(clock.next_at(100).as_micros(), 100);
    assert_eq!(clock.next_at(100).as_micros(), 101);
    assert_eq!(clock.next_at(50).as_micros(), 102);
    assert_eq!(clock.watermark_at(50).as_micros(), 102);
    assert_eq!(clock.watermark_at(500).as_micros(), 500);
    clock.advance_to(Instant::from_micros(1_000));
    assert_eq!(clock.next_at(200).as_micros(), 1_001);
}

#[test]
fn wall_readings_are_clamped() {
    assert_eq!(wall_from(None), 0);
    assert_eq!(wall_from(Some(17)), 17);
    assert_eq!(wall_from(Some(u128::MAX)), i64::MAX);
}

#[test]
fn the_wall_clock_is_read() {
    // 2020-01-01 in microseconds: any later reading will do.
    assert!(varve_engine::clock::wall_us() > 1_577_836_800_000_000);
}
