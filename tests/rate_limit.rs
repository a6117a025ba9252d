use taskboard::rate_limit::conventional::RateLimiter;
use taskboard::rate_limit::pre::FastPreRateLimiter;
use taskboard::rate_limit::AdmissionLimiter;

/// An IPv4 address in IPv6-mapped form, as the limiters key clients.
fn v4(a: u8, b: u8, c: u8, d: u8) -> u128 {
    0xffff_0000_0000 | (a as u128) << 24 | (b as u128) << 16 | (c as u128) << 8 | d as u128
}

#[test]
fn pre_filter_admits_threshold_then_rejects() {
    let mut limiter = FastPreRateLimiter::new(20, 60);
    let client = v4(10, 0, 0, 1);
    for _ in 0..20 {
        assert!(!limiter.rate_limit(client));
    }
    assert!(limiter.rate_limit(client));
    assert!(limiter.rate_limit(client));
}

#[test]
fn pre_filter_clients_in_other_cells_are_independent() {
    let mut limiter = FastPreRateLimiter::new(8, 60);
    let a = v4(10, 0, 0, 1);
    let b = v4(11, 1, 2, 3);
    for _ in 0..8 {
        assert!(!limiter.rate_limit(a));
    }
    assert!(limiter.rate_limit(a));
    for _ in 0..8 {
        assert!(!limiter.rate_limit(b));
    }
    assert!(limiter.rate_limit(b));
}

#[test]
fn pre_filter_zero_threshold_rejects_everything() {
    let mut limiter = FastPreRateLimiter::new(0, 60);
    assert!(limiter.rate_limit(v4(1, 2, 3, 4)));
}

#[test]
fn pre_filter_ticks_clear_every_shard_once_per_window() {
    let mut limiter = FastPreRateLimiter::new(4, 60);
    assert_eq!(limiter.tick_secs(), 16);
    let client = v4(192, 168, 1, 1);
    for _ in 0..4 {
        assert!(!limiter.rate_limit(client));
    }
    assert!(limiter.rate_limit(client));
    for _ in 0..4 {
        limiter.tick();
    }
    for _ in 0..4 {
        assert!(!limiter.rate_limit(client));
    }
    assert!(limiter.rate_limit(client));
}

#[test]
fn exact_stage_admits_threshold_then_rejects() {
    let mut limiter = RateLimiter::new(3, 60);
    let client = v4(10, 0, 0, 7);
    for _ in 0..3 {
        assert!(!limiter.rate_limit(client));
    }
    assert!(limiter.rate_limit(client));
    assert!(!limiter.rate_limit(v4(10, 0, 0, 8)));
}

#[test]
fn exact_stage_forgets_after_a_window() {
    let mut limiter = RateLimiter::new(2, 60);
    assert_eq!(limiter.tick_secs(), 31);
    let client = v4(10, 0, 0, 9);
    assert!(!limiter.rate_limit(client));
    assert!(!limiter.rate_limit(client));
    assert!(limiter.rate_limit(client));
    limiter.tick();
    assert!(limiter.rate_limit(client));
    limiter.tick();
    assert!(!limiter.rate_limit(client));
}

#[test]
fn exact_stage_counts_both_generations() {
    let mut limiter = RateLimiter::new(3, 60);
    let client = v4(10, 0, 0, 10);
    assert!(!limiter.rate_limit(client));
    assert!(!limiter.rate_limit(client));
    limiter.tick();
    assert!(!limiter.rate_limit(client));
    assert!(limiter.rate_limit(client));
}

#[test]
fn combined_rejects_when_either_stage_does() {
    let clients = [v4(10, 0, 0, 1), v4(10, 0, 0, 2), v4(10, 0, 0, 1), v4(172, 16, 0, 1)];
    let mut requests = Vec::new();
    for round in 0..12 {
        requests.push(clients[round % clients.len()]);
        requests.push(clients[0]);
    }
    let mut combined = AdmissionLimiter::new(6, 60, 9, 60);
    let mut pre = FastPreRateLimiter::new(6, 60);
    let mut exact = RateLimiter::new(9, 60);
    let mut rejected = 0;
    for &client in &requests {
        let by_pre = pre.rate_limit(client);
        let by_exact = exact.rate_limit(client);
        let by_both = combined.should_reject(client);
        assert_eq!(by_both, by_pre || by_exact);
        if by_both {
            rejected += 1;
        }
    }
    assert!(rejected > 0);
}

#[test]
fn combined_exact_stage_limits_below_pre_filter() {
    let mut combined = AdmissionLimiter::new(20, 60, 2, 60);
    assert_eq!(combined.pre_tick_secs(), 16);
    assert_eq!(combined.exact_tick_secs(), 31);
    let client = v4(8, 8, 8, 8);
    assert!(!combined.should_reject(client));
    assert!(!combined.should_reject(client));
    assert!(combined.should_reject(client));
    combined.tick_exact();
    combined.tick_exact();
    assert!(!combined.should_reject(client));
    combined.tick_pre();
}

#[test]
fn combined_matches_stages_across_exact_ticks() {
    let a = v4(10, 0, 0, 1);
    let b = v4(11, 0, 0, 2);
    let mut combined = AdmissionLimiter::new(5, 60, 3, 60);
    let mut pre = FastPreRateLimiter::new(5, 60);
    let mut exact = RateLimiter::new(3, 60);
    for round in 0..30 {
        if round % 7 == 6 {
            combined.tick_exact();
            exact.tick();
            continue;
        }
        let client = if round % 3 == 0 { b } else { a };
        let by_pre = pre.rate_limit(client);
        let by_exact = exact.rate_limit(client);
        assert_eq!(combined.should_reject(client), by_pre || by_exact);
    }
}
