use redis_kv::clock::Clock;
use std::time::{SystemTime, UNIX_EPOCH};

fn system_millis() -> u64 {
    SystemTime::now()
        .duration_since(UNIX_EPOCH)
        .unwrap()
        .as_millis() as u64
}

#[test]
fn should_follow_the_system_clock() {
    let before = system_millis();
    let now = Clock::new().now();
    let after = system_millis();
    assert!(before <= now);
    assert!(now <= after);
    // Later than the first day of 2020, so it is milliseconds and not seconds.
    assert!(now > 1_577_836_800_000);
}

#[test]
fn should_freeze_at_the_current_time() {
    let before = system_millis();
    let mut clock = Clock::new();
    clock.mock_freeze();
    let after = system_millis();
    let frozen = clock.now();
    assert!(before <= frozen);
    assert!(frozen <= after);
    assert_eq!(frozen, clock.now());
    clock.mock_freeze();
    assert_eq!(frozen, clock.now());
}

#[test]
fn should_set_and_advance_mock_time() {
    let mut clock = Clock::new();
    clock.mock_set_time(1_000);
    assert_eq!(1_000, clock.now());
    clock.mock_advance(29);
    assert_eq!(1_029, clock.now());
    clock.mock_advance(1);
    assert_eq!(1_030, clock.now());
    clock.mock_advance(0);
    assert_eq!(1_030, clock.now());
    clock.mock_set_time(0);
    assert_eq!(0, clock.now());
}

#[test]
fn should_stop_at_the_largest_time() {
    let mut clock = Clock::new();
    clock.mock_set_time(u64::MAX - 1);
    clock.mock_advance(1);
    assert_eq!(u64::MAX, clock.now());
    clock.mock_advance(5);
    assert_eq!(u64::MAX, clock.now());
    clock.mock_set_time(7);
    clock.mock_advance(u64::MAX);
    assert_eq!(u64::MAX, clock.now());
}

#[test]
fn should_advance_a_running_clock_from_now() {
    let before = system_millis();
    let mut clock = Clock::new();
    clock.mock_advance(60_000);
    let after = system_millis();
    assert!(before + 60_000 <= clock.now());
    assert!(clock.now() <= after + 60_000);
    assert_eq!(clock.now(), clock.now());
}

#[test]
fn should_revert_to_the_system_clock() {
    let mut clock = Clock::new();
    clock.mock_set_time(5);
    assert_eq!(5, clock.now());
    clock.mock_disable();
    let before = system_millis();
    let now = clock.now();
    assert!(before <= now);
    assert!(now <= system_millis());
}
