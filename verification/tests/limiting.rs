use login_limiter::limiter::{RateLimitConfig, RateLimiter, LIMIT_CAP, WINDOW_MS};

#[test]
fn limit_is_clamped_to_cap() {
    let c = RateLimitConfig::new(100);
    assert_eq!(c.max_requests_per_window, 45);
    assert_eq!(c.window_ms, 30_000);
}

#[test]
fn limit_zero_is_clamped_to_one() {
    let c = RateLimitConfig::new(0);
    assert_eq!(c.max_requests_per_window, 1);
}

#[test]
fn limit_in_range_is_kept() {
    assert_eq!(RateLimitConfig::new(30).max_requests_per_window, 30);
    assert_eq!(RateLimitConfig::new(1).max_requests_per_window, 1);
    assert_eq!(RateLimitConfig::new(45).max_requests_per_window, 45);
    assert_eq!(RateLimitConfig::new(46).max_requests_per_window, LIMIT_CAP);
}

#[test]
fn admits_until_window_full_then_reports_residual_wait() {
    let mut rl = RateLimiter::new(RateLimitConfig::new(2));
    assert_eq!(rl.try_acquire(0), None);
    assert_eq!(rl.try_acquire(5), None);
    // Window holds instants 0 and 5: the third attempt at 10 must wait
    // exactly until instant 0 ages out, at 30000.
    assert_eq!(rl.try_acquire(10), Some(WINDOW_MS - 10));
    // Still one millisecond early at 29999: not evicted prematurely.
    assert_eq!(rl.try_acquire(29_999), Some(1));
    // At 30000 the full window has elapsed since instant 0: it is evicted
    // and the send is admitted.
    assert_eq!(rl.try_acquire(30_000), None);
}

#[test]
fn single_slot_window() {
    let mut rl = RateLimiter::new(RateLimitConfig::new(1));
    assert_eq!(rl.try_acquire(100), None);
    assert_eq!(rl.try_acquire(101), Some(WINDOW_MS - 1));
    assert_eq!(rl.try_acquire(100 + WINDOW_MS), None);
}

#[test]
fn eviction_is_lazy_but_exact() {
    let mut rl = RateLimiter::new(RateLimitConfig::new(3));
    assert_eq!(rl.try_acquire(0), None);
    assert_eq!(rl.try_acquire(1), None);
    assert_eq!(rl.try_acquire(2), None);
    // All three slots taken; the oldest ages out at 30000 exactly.
    assert_eq!(rl.try_acquire(29_999), Some(1));
    assert_eq!(rl.try_acquire(30_000), None);
    // Only one instant was evicted for the admission above: the next
    // attempt still waits for the instant recorded at 1.
    assert_eq!(rl.try_acquire(30_000), Some(1));
    assert_eq!(rl.try_acquire(30_001), None);
}
