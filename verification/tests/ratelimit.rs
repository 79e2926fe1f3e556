use sailwind_online::ratelimit::RateLimiter;

#[test]
fn first_trade_is_always_allowed() {
    let mut rl = RateLimiter::new(250);
    assert!(rl.allow(1, 1000));
}

#[test]
fn a_second_trade_inside_the_window_is_rejected() {
    let mut rl = RateLimiter::new(250);
    assert!(rl.allow(1, 1000));
    assert!(!rl.allow(1, 1100));
    assert!(rl.allow(1, 1250));
}

#[test]
fn trade_after_the_window_is_allowed() {
    let mut rl = RateLimiter::new(250);
    assert!(rl.allow(1, 1000));
    assert!(rl.allow(1, 1300));
}

#[test]
fn the_throttle_is_aggregate_per_player_and_rotation_proof() {
    let mut rl = RateLimiter::new(250);
    assert!(rl.allow(1, 1000));
    assert!(rl.allow(2, 1000));
    assert!(!rl.allow(1, 1050));
}

#[test]
fn clear_keeps_storage_bounded_to_active_keys() {
    let mut rl = RateLimiter::new(250);
    for key in 0..10_000u64 {
        assert!(rl.allow(key, 1_000));
        rl.clear(key);
    }
    assert_eq!(rl.tracked_count(), 0);
}

#[test]
fn admission_does_not_scan_all_tracked_keys() {
    let mut rl = RateLimiter::new(250);
    for key in 0..10_000 {
        assert!(rl.allow(key, 1_000));
    }
    assert_eq!(rl.tracked_count(), 10_000);
    assert!(!rl.allow(9_999, 1_001));
}

#[test]
fn timestamp_rollback_does_not_bypass_the_window() {
    let mut rl = RateLimiter::new(250);
    assert!(rl.allow(1, 1_000));
    assert!(!rl.allow(1, 900));
    assert!(!rl.allow(1, 1_249));
    assert!(rl.allow(1, 1_250));
}

#[test]
fn clear_drops_a_players_entry() {
    let mut rl = RateLimiter::new(250);
    assert!(rl.allow(1, 1000));
    assert_eq!(rl.tracked_count(), 1);
    rl.clear(1);
    assert_eq!(rl.tracked_count(), 0);
    assert!(rl.allow(1, 1050));
}

#[test]
fn zero_interval_never_throttles_and_never_stores() {
    let mut rl = RateLimiter::new(0);
    assert!(rl.allow(1, 1000));
    assert!(rl.allow(1, 1000));
    assert_eq!(rl.tracked_count(), 0);
}

#[test]
fn rejected_attempt_does_not_extend_the_cooldown() {
    let mut rl = RateLimiter::new(100);
    assert!(rl.allow(5, 0));
    assert!(!rl.allow(5, 99));
    assert_eq!(rl.last_accepted_ms(5), Some(0));
    assert!(rl.allow(5, 100));
    assert_eq!(rl.last_accepted_ms(5), Some(100));
    assert_eq!(rl.last_accepted_ms(6), None);
}

#[test]
fn extreme_timestamps_saturate_instead_of_wrapping() {
    let mut rl = RateLimiter::new(i64::MAX);
    assert!(rl.allow(1, i64::MIN));
    assert!(rl.allow(1, i64::MAX));
    assert!(!rl.allow(1, i64::MIN));
    let mut negative = RateLimiter::new(-5);
    assert!(negative.allow(1, 0));
    assert_eq!(negative.tracked_count(), 0);
}
