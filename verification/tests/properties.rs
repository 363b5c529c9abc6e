//! Concrete instances of the limiter's stated properties, plus the
//! construction errors, the counters, and boundary cases.

use rhythm::ConfigError;
use rhythm::RateLimiter;

const SECOND: u64 = 1_000_000_000;

#[test]
fn construction_rejects_zero_bucket_size() {
    let r: Result<RateLimiter, ConfigError> = RateLimiter::new(0, 1, SECOND);
    assert_eq!(r.err(), Some(ConfigError::ZeroBucketSize));
}

#[test]
fn construction_rejects_zero_refill_rate() {
    let r = RateLimiter::new(10, 0, SECOND);
    assert_eq!(r.err(), Some(ConfigError::ZeroRefillRate));
}

#[test]
fn construction_rejects_zero_refill_interval() {
    let r = RateLimiter::new(10, 1, 0);
    assert_eq!(r.err(), Some(ConfigError::ZeroRefillInterval));
}

#[test]
fn construction_reports_the_first_zero_parameter() {
    assert_eq!(RateLimiter::new(0, 0, 0).err(), Some(ConfigError::ZeroBucketSize));
    assert_eq!(RateLimiter::new(1, 0, 0).err(), Some(ConfigError::ZeroRefillRate));
}

/// Exactly the first `capacity` immediate requests are admitted; the next
/// one is denied.
#[test]
fn burst_capacity_is_exact() {
    let mut rl = RateLimiter::new(3, 1, SECOND).unwrap();
    let k = "alpha".to_string();
    for _ in 0..3 {
        assert!(rl.request(k.clone(), 0));
    }
    assert!(!rl.request(k.clone(), 0));
    assert!(!rl.request(k.clone(), 0));
}

/// The reference trace: capacity 4, rate 1, interval one second, key "user":
/// requests 0 through 3 admitted, request 4 denied.
#[test]
fn reference_trace_capacity_four() {
    let mut rl = RateLimiter::new(4, 1, SECOND).unwrap();
    let k = "user".to_string();
    let outcomes: Vec<bool> = (0..5).map(|_| rl.request(k.clone(), 0)).collect();
    assert_eq!(outcomes, vec![true, true, true, true, false]);
}

/// Exhausting one key's bucket never affects another key's outcome.
#[test]
fn keys_are_independent() {
    let mut rl = RateLimiter::new(2, 1, SECOND).unwrap();
    let k1 = "first".to_string();
    let k2 = "second".to_string();
    assert!(rl.request(k1.clone(), 0));
    assert!(rl.request(k1.clone(), 0));
    assert!(!rl.request(k1.clone(), 0));
    assert!(!rl.request(k1.clone(), 0));
    // k2 still gets its full burst.
    assert!(rl.request(k2.clone(), 0));
    assert!(rl.request(k2.clone(), 0));
    assert!(!rl.request(k2.clone(), 0));
}

/// After one full interval past exhaustion, min(rate, capacity) requests are
/// admitted again, and never more than the capacity.
#[test]
fn refill_grants_min_of_rate_and_capacity() {
    // rate 2 < capacity 5: two tokens come back.
    let mut rl = RateLimiter::new(5, 2, SECOND).unwrap();
    let k = "worker".to_string();
    for _ in 0..5 {
        assert!(rl.request(k.clone(), 0));
    }
    assert!(!rl.request(k.clone(), 0));
    assert!(rl.request(k.clone(), SECOND));
    assert!(rl.request(k.clone(), SECOND));
    assert!(!rl.request(k.clone(), SECOND));

    // rate 7 > capacity 3: the cap wins, even after a long wait.
    let mut rl2 = RateLimiter::new(3, 7, SECOND).unwrap();
    let j = "burst".to_string();
    for _ in 0..3 {
        assert!(rl2.request(j.clone(), 0));
    }
    assert!(!rl2.request(j.clone(), 0));
    for _ in 0..3 {
        assert!(rl2.request(j.clone(), 100 * SECOND));
    }
    assert!(!rl2.request(j.clone(), 100 * SECOND));
}

/// The same `(key, timestamp)` sequence always yields the same outcomes.
#[test]
fn outcomes_are_deterministic() {
    let calls: Vec<(&str, u64)> = vec![
        ("a", 0),
        ("b", 0),
        ("a", 0),
        ("a", SECOND / 2),
        ("a", SECOND),
        ("b", SECOND),
        ("a", 3 * SECOND / 2),
    ];
    let run = || {
        let mut rl = RateLimiter::new(2, 1, SECOND).unwrap();
        calls
            .iter()
            .map(|(k, t)| rl.request(k.to_string(), *t))
            .collect::<Vec<bool>>()
    };
    let first = run();
    let second = run();
    assert_eq!(first, second);
}

/// Repeated refills over the same span credit exactly what a single refill
/// would: intermediate requests that trigger refills early and often never
/// mint extra tokens, and the remainder anchoring loses none.
#[test]
fn refills_do_not_drift() {
    let mut rl = RateLimiter::new(4, 1, SECOND).unwrap();
    let k = "steady".to_string();
    for _ in 0..4 {
        assert!(rl.request(k.clone(), 0));
    }
    // Each denied request still reconciles the bucket with the clock.
    assert!(!rl.request(k.clone(), 400_000_000));
    assert!(!rl.request(k.clone(), 800_000_000));
    // One full interval since the start: exactly one token, despite the
    // intermediate refills.
    assert!(rl.request(k.clone(), SECOND));
    assert!(!rl.request(k.clone(), SECOND));
    // One and a half intervals: the half interval of credit was not lost to
    // truncation; the anchor sits at one second, so at two seconds the next
    // token arrives.
    assert!(!rl.request(k.clone(), 3 * SECOND / 2));
    assert!(rl.request(k.clone(), 2 * SECOND));
    assert!(!rl.request(k.clone(), 2 * SECOND));
}

/// After `set_vip`, the very next request is admitted whatever the key's
/// history, and the bucket behaves as freshly built with the VIP parameters.
#[test]
fn vip_overrides_an_exhausted_key() {
    let mut rl = RateLimiter::new(1, 1, SECOND).unwrap();
    let k = "important".to_string();
    assert!(rl.request(k.clone(), 0));
    assert!(!rl.request(k.clone(), 0));
    rl.set_vip(k.clone(), 2, 5, 0);
    // Fresh allotment of 2, then denial, then 2 back after one interval
    // (rate 5 caps at size 2).
    assert!(rl.request(k.clone(), 0));
    assert!(rl.request(k.clone(), 0));
    assert!(!rl.request(k.clone(), 0));
    assert!(rl.request(k.clone(), SECOND));
    assert!(rl.request(k.clone(), SECOND));
    assert!(!rl.request(k.clone(), SECOND));
}

/// Calling `set_vip` again refreshes the bucket to full, by design.
#[test]
fn vip_refreshes_to_full_each_time() {
    let mut rl = RateLimiter::new(1, 1, SECOND).unwrap();
    let k = "refreshed".to_string();
    rl.set_vip(k.clone(), 3, 1, 0);
    assert!(rl.request(k.clone(), 0));
    assert!(rl.request(k.clone(), 0));
    rl.set_vip(k.clone(), 3, 1, 0);
    assert!(rl.request(k.clone(), 0));
    assert!(rl.request(k.clone(), 0));
    assert!(rl.request(k.clone(), 0));
    assert!(!rl.request(k.clone(), 0));
}

/// The VIP scenario: defaults 10/1, VIP bucket of 100 at rate 10; the VIP is
/// admitted on all 100 immediate requests while a normal key gets 10.
#[test]
fn vip_scenario_hundred_versus_ten() {
    let mut rl = RateLimiter::new(10, 1, SECOND).unwrap();
    let vip = "vip".to_string();
    let normal = "normal".to_string();
    rl.set_vip(vip.clone(), 100, 10, 0);
    let mut vip_admitted = 0;
    let mut normal_admitted = 0;
    for _ in 0..100 {
        if rl.request(vip.clone(), 0) {
            vip_admitted += 1;
        }
        if rl.request(normal.clone(), 0) {
            normal_admitted += 1;
        }
    }
    assert_eq!(vip_admitted, 100);
    assert_eq!(normal_admitted, 10);
}

/// A bucket idle for longer than `age` is pruned; one touched within `age`
/// survives, the boundary (exactly `age`) included.
#[test]
fn prune_drops_only_idle_buckets() {
    let mut rl = RateLimiter::new(2, 1, SECOND).unwrap();
    let old_key = "idle".to_string();
    let fresh_key = "busy".to_string();
    rl.request(old_key.clone(), 0);
    rl.request(fresh_key.clone(), 5 * SECOND);
    assert_eq!(rl.bucket_count(), 2);

    // At 10 s with age 5 s: "idle" is 10 s old (gone); "busy" is exactly 5 s
    // old (kept: the boundary survives).
    rl.prune(5 * SECOND, 10 * SECOND);
    assert!(!rl.contains_key(&old_key));
    assert!(rl.contains_key(&fresh_key));
    assert_eq!(rl.bucket_count(), 1);

    // One nanosecond past the boundary, "busy" goes too.
    rl.prune(5 * SECOND, 10 * SECOND + 1);
    assert!(!rl.contains_key(&fresh_key));
    assert_eq!(rl.bucket_count(), 0);
}

/// A pruned key starts over with a full default bucket.
#[test]
fn pruned_key_starts_fresh() {
    let mut rl = RateLimiter::new(2, 1, SECOND).unwrap();
    let k = "phoenix".to_string();
    assert!(rl.request(k.clone(), 0));
    assert!(rl.request(k.clone(), 0));
    assert!(!rl.request(k.clone(), 0));
    rl.prune(SECOND, 10 * SECOND);
    assert!(!rl.contains_key(&k));
    // Recreated with the default burst of 2.
    assert!(rl.request(k.clone(), 10 * SECOND));
    assert!(rl.request(k.clone(), 10 * SECOND));
    assert!(!rl.request(k.clone(), 10 * SECOND));
}

/// Aggregate and per-key counters track admitted and denied requests.
#[test]
fn counters_track_outcomes() {
    let mut rl = RateLimiter::new(2, 1, SECOND).unwrap();
    let k1 = "one".to_string();
    let k2 = "two".to_string();
    assert_eq!(rl.allowed_total(), 0);
    assert_eq!(rl.denied_total(), 0);
    rl.request(k1.clone(), 0);
    rl.request(k1.clone(), 0);
    rl.request(k1.clone(), 0);
    rl.request(k2.clone(), 0);
    assert_eq!(rl.allowed_total(), 3);
    assert_eq!(rl.denied_total(), 1);
    assert_eq!(rl.key_stats(&k1), Some((2, 1)));
    assert_eq!(rl.key_stats(&k2), Some((1, 0)));
    assert_eq!(rl.key_stats(&"absent".to_string()), None);
}

/// A timestamp earlier than the bucket's anchor credits nothing and breaks
/// nothing: the clock appearing to run backwards is a no-op refill.
#[test]
fn earlier_timestamp_is_harmless() {
    let mut rl = RateLimiter::new(1, 1, SECOND).unwrap();
    let k = "rewind".to_string();
    assert!(rl.request(k.clone(), 5 * SECOND));
    assert!(!rl.request(k.clone(), 0));
    assert!(!rl.request(k.clone(), 5 * SECOND));
    assert!(rl.request(k.clone(), 6 * SECOND));
}

/// The largest representable parameters work: a full-size bucket and a
/// timestamp at the far end of the clock.
#[test]
fn extreme_parameters() {
    let mut rl = RateLimiter::new(u32::MAX, u32::MAX, u64::MAX).unwrap();
    let k = "edge".to_string();
    assert!(rl.request(k.clone(), 0));
    assert!(rl.request(k.clone(), u64::MAX));
    assert_eq!(rl.allowed_total(), 2);
}

/// Within a mixed stream of traffic, one key's requests see exactly the
/// decisions they would see running alone, in the same order.
#[test]
fn outcomes_serialize_per_key() {
    let calls: Vec<(&str, u64)> = vec![
        ("k", 0),
        ("noise", 0),
        ("k", 0),
        ("noise", 0),
        ("noise", SECOND / 4),
        ("k", SECOND / 2),
        ("k", SECOND),
        ("noise", SECOND),
    ];
    let mut mixed = RateLimiter::new(2, 1, SECOND).unwrap();
    let mixed_outcomes: Vec<bool> = calls
        .iter()
        .filter_map(|(key, t)| {
            let admitted = mixed.request(key.to_string(), *t);
            if *key == "k" { Some(admitted) } else { None }
        })
        .collect();
    let mut alone = RateLimiter::new(2, 1, SECOND).unwrap();
    let alone_outcomes: Vec<bool> = calls
        .iter()
        .filter(|(key, _)| *key == "k")
        .map(|(key, t)| alone.request(key.to_string(), *t))
        .collect();
    assert_eq!(mixed_outcomes, alone_outcomes);
    assert_eq!(alone_outcomes, vec![true, true, false, true]);
}

/// A fresh limiter holds no buckets; pruning it is a no-op.
#[test]
fn empty_limiter_has_no_buckets() {
    let mut rl = RateLimiter::new(1, 1, SECOND).unwrap();
    assert_eq!(rl.bucket_count(), 0);
    assert!(!rl.contains_key(&"anyone".to_string()));
    rl.prune(SECOND, 10 * SECOND);
    assert_eq!(rl.bucket_count(), 0);
    assert_eq!(rl.allowed_total(), 0);
    assert_eq!(rl.denied_total(), 0);
}
