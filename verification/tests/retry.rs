use sidecar_proxy::binary64::Binary64;
use sidecar_proxy::config::{ProxyConfig, RetryConfig};
use sidecar_proxy::proxy::retry::{Attempt, ExponentialBackoff, RetryPolicy, Step};
use std::sync::Arc;

fn number(x: f64) -> Binary64 {
    Binary64::from_bits(x.to_bits())
}

fn create_test_config() -> Arc<ProxyConfig> {
    let mut config = ProxyConfig::default_config();
    config.retry = RetryConfig {
        enabled: true,
        max_attempts: 3,
        backoff_ms: 100,
        backoff_multiplier: number(2.0),
        retry_on: vec!["5xx".to_string(), "timeout".to_string()],
    };
    Arc::new(config)
}

/// Runs an operation by the policy, and notes the delays.
fn run<F: FnMut() -> Result<i32, String>>(
    policy: &RetryPolicy,
    mut operation: F,
) -> (Result<i32, String>, Vec<u64>) {
    let mut attempt = policy.start();
    let mut delays = Vec::new();
    loop {
        let outcome = operation();
        let text = match &outcome {
            Ok(_) => String::new(),
            Err(e) => e.clone(),
        };
        match policy.execute(attempt, outcome, &text) {
            Step::Done(result) => return (result, delays),
            Step::RetryAfter { delay_ms, next } => {
                delays.push(delay_ms);
                attempt = next;
            }
        }
    }
}

#[test]
fn test_retry_success_on_first_attempt() {
    let retry_policy = RetryPolicy::new(create_test_config());
    let mut call_count = 0;
    let (result, delays) = run(&retry_policy, || {
        call_count += 1;
        Ok(42)
    });
    assert_eq!(result.unwrap(), 42);
    assert_eq!(call_count, 1);
    assert!(delays.is_empty());
}

#[test]
fn test_retry_success_after_failures() {
    let retry_policy = RetryPolicy::new(create_test_config());
    let mut call_count = 0;
    let (result, delays) = run(&retry_policy, || {
        call_count += 1;
        if call_count < 3 {
            Err("500 Internal Server Error".to_string())
        } else {
            Ok(42)
        }
    });
    assert_eq!(result.unwrap(), 42);
    assert_eq!(call_count, 3);
    assert_eq!(delays, vec![100, 200]);
}

#[test]
fn test_retry_exhausted() {
    let retry_policy = RetryPolicy::new(create_test_config());
    let mut call_count = 0;
    let (result, _) = run(&retry_policy, || {
        call_count += 1;
        Err("500 Internal Server Error".to_string())
    });
    assert!(result.is_err());
    assert_eq!(call_count, 3);
}

#[test]
fn test_non_retryable_error() {
    let retry_policy = RetryPolicy::new(create_test_config());
    let mut call_count = 0;
    let (result, _) = run(&retry_policy, || {
        call_count += 1;
        Err("400 Bad Request".to_string())
    });
    assert!(result.is_err());
    assert_eq!(call_count, 1);
}

#[test]
fn test_exponential_backoff() {
    let backoff = ExponentialBackoff::new(100, 10 * 1000, number(2.0), false);
    let draw = number(0.5);
    assert_eq!(backoff.delay(1, draw), 100);
    assert_eq!(backoff.delay(2, draw), 200);
    assert_eq!(backoff.delay(3, draw), 400);
}

#[test]
fn a_policy_that_is_off_tries_once() {
    let mut config = ProxyConfig::default_config();
    config.retry.enabled = false;
    config.retry.max_attempts = 0;
    let policy = RetryPolicy::new(Arc::new(config));
    let mut calls = 0;
    let (result, _) = run(&policy, || {
        calls += 1;
        Err("timeout".to_string())
    });
    assert_eq!(result, Err("timeout".to_string()));
    assert_eq!(calls, 1);
}

fn policy_on(conditions: &[&str]) -> RetryPolicy {
    let mut config = ProxyConfig::default_config();
    config.retry.retry_on = conditions.iter().map(|c| c.to_string()).collect();
    RetryPolicy::new(Arc::new(config))
}

#[test]
fn conditions_name_errors() {
    let p = policy_on(&["5xx"]);
    for code in ["500", "502", "503", "504"] {
        assert!(p.should_retry(&format!("status {}", code)));
    }
    assert!(!p.should_retry("501 Not Implemented"));
    assert!(!p.should_retry("timeout"));
    let p = policy_on(&["timeout"]);
    assert!(p.should_retry("Operation TIMED OUT"));
    assert!(p.should_retry("Timeout"));
    assert!(!p.should_retry("time out"));
    let p = policy_on(&["connection_error"]);
    assert!(p.should_retry("Connection refused"));
    assert!(p.should_retry("NETWORK unreachable"));
    assert!(!p.should_retry("500"));
    let p = policy_on(&["dns_error"]);
    assert!(p.should_retry("DNS failure"));
    assert!(p.should_retry("name resolution failed"));
    let p = policy_on(&["429"]);
    assert!(p.should_retry("429 Too Many Requests"));
    assert!(!p.should_retry("500"));
    let p = policy_on(&["ABC"]);
    assert!(!p.should_retry("ABC"));
    assert!(!policy_on(&[]).should_retry("500"));
    assert!(policy_on(&[""]).should_retry("anything"));
}

#[test]
fn lower_case_goes_beyond_ascii() {
    let p = policy_on(&["\u{e4}rger"]);
    assert!(p.should_retry("\u{c4}RGER"));
    assert!(!p.should_retry_lowered("\u{c4}RGER"));
}

#[test]
fn jitter_lengthens_the_delay_by_less_than_half() {
    let policy = RetryPolicy::new(create_test_config());
    let mut seen = std::collections::BTreeSet::new();
    for _ in 0..500 {
        match policy.execute_with_jitter::<i32, i32>(policy.start(), Err(1), "timeout") {
            Some(Step::RetryAfter { delay_ms, next }) => {
                assert!(delay_ms >= 100 && delay_ms < 150);
                assert_eq!(next, Attempt { number: 2, backoff_ms: 200 });
                seen.insert(delay_ms);
            }
            _ => panic!("no retry"),
        }
    }
    assert!(seen.len() > 10);
    let last = Attempt { number: 3, backoff_ms: 0 };
    assert!(matches!(
        policy.execute_with_jitter::<i32, i32>(last, Err(1), "timeout"),
        Some(Step::Done(Err(1)))
    ));
    assert!(matches!(
        policy.execute_with_jitter::<i32, i32>(last, Ok(2), ""),
        Some(Step::Done(Ok(2)))
    ));
    let short = Attempt { number: 1, backoff_ms: 1 };
    assert!(policy.execute_with_jitter::<i32, i32>(short, Err(1), "timeout").is_none());
    assert!(policy.execute_with_jitter::<i32, i32>(short, Err(1), "400").is_some());
    let long = Attempt { number: 1, backoff_ms: u64::MAX };
    assert!(policy.execute_with_jitter::<i32, i32>(long, Err(1), "timeout").is_none());
    assert_eq!(RetryPolicy::jittered(100, 7), 107);
}

#[test]
fn the_backoff_grows_like_a_double() {
    let mut config = ProxyConfig::default_config();
    config.retry.backoff_multiplier = number(1.7);
    let policy = RetryPolicy::new(Arc::new(config));
    let mut backoff: u64 = 1000;
    let mut attempt = policy.start();
    for number in 2..20 {
        attempt = policy.following(attempt);
        backoff = (backoff as f64 * 1.7) as u64;
        assert_eq!(attempt, Attempt { number, backoff_ms: backoff });
    }
}

#[test]
fn delays_are_limited_and_jittered() {
    let b = ExponentialBackoff::new(100, 1000, number(2.0), false);
    for attempt in 1..70 {
        assert!(b.delay(attempt, number(0.0)) <= 1000);
    }
    assert_eq!(b.delay(5, number(0.0)), 1000);
    assert_eq!(b.delay(0, number(0.0)), 50);
    assert_eq!(b.delay(u32::MAX, number(0.0)), 25);
    let j = ExponentialBackoff::new(100, 1000, number(2.0), true);
    assert_eq!(j.delay(1, number(0.0)), 90);
    assert_eq!(j.delay(1, number(0.5)), 100);
    assert_eq!(j.delay(1, number(0.75)), 105);
    let draw = 0.123456789;
    let delay_ms: f64 = 400.0;
    let range = delay_ms * 0.1;
    let expected = (delay_ms + (draw * range * 2.0 - range)).max(0.0) as u64;
    assert_eq!(j.delay(3, number(draw)), expected);
}

#[test]
fn errors_tell_their_message() {
    let e = RetryPolicy::create_retryable_error("gone".to_string(), true, Some(503));
    assert_eq!(e.text(), "gone");
    assert!(e.retryable);
    assert_eq!(e.status_code, Some(503));
}

#[test]
fn delays_grow_by_the_multiplier() {
    let b = ExponentialBackoff::new(7, 1_000_000, number(3.0), false);
    let mut expected = 7;
    for attempt in 1..12 {
        assert_eq!(b.delay(attempt, number(0.0)), std::cmp::min(expected, 1_000_000));
        expected *= 3;
    }
}

#[test]
fn delays_do_not_fall() {
    for multiplier in [1.0, 1.0 + f64::EPSILON, 1.1, 1.5, 2.7, 1e300, f64::INFINITY] {
        for (base, max) in [(0, 10), (7, 1_000_000), (900, 800), (3, (1 << 53) - 1)] {
            let b = ExponentialBackoff::new(base, max, number(multiplier), false);
            assert_eq!(b.delay(1, number(0.0)), std::cmp::min(base, max));
            for attempt in 1..300 {
                let d = b.delay(attempt, number(0.0));
                assert!(d <= b.delay(attempt + 1, number(0.0)));
                assert!(d <= max);
            }
        }
    }
    let mut c = RetryConfig {
        enabled: true,
        max_attempts: 9,
        backoff_ms: 10,
        backoff_multiplier: number(1.5),
        retry_on: vec!["x".to_string()],
    };
    let delays = |c: &RetryConfig| {
        let mut config = ProxyConfig::default_config();
        config.retry = c.clone();
        run(&RetryPolicy::new(Arc::new(config)), || Err("x".to_string())).1
    };
    assert_eq!(delays(&c), vec![10, 15, 22, 33, 49, 73, 109, 163]);
    c.backoff_multiplier = number(1.0);
    assert_eq!(delays(&c), vec![10; 8]);
}

#[test]
fn jitter_moves_delays_by_a_tenth() {
    for (base, multiplier) in [(1, 1.1), (10, 1.37), (99, 2.0), (12345, 1.0)] {
        let plain = ExponentialBackoff::new(base, 1 << 40, number(multiplier), false);
        let moved = ExponentialBackoff::new(base, 1 << 40, number(multiplier), true);
        for attempt in 1..60 {
            let d = plain.delay(attempt, number(0.0));
            for draw in [0.0, 0.25, 0.5, 0.75, 1.0 - f64::EPSILON / 2.0] {
                let j = moved.delay(attempt, number(draw));
                assert!(10 * j <= 11 * d + 10);
                assert!(9 * d <= 10 * j + 10);
            }
        }
    }
    // A delay just below ten, and delays where doubles are coarse.
    let just_below = ExponentialBackoff::new(5, 100, number(2.0 - f64::EPSILON), true);
    assert_eq!(just_below.delay(2, number(1.0 - f64::EPSILON / 2.0)), 10);
    for base in [(1u64 << 53) - 1, 1 << 53, (5 << 50) + 1, (1 << 52) + 9] {
        let moved = ExponentialBackoff::new(base, base, number(1.0), true);
        for draw in [0.0, 0.3, 1.0 - f64::EPSILON / 2.0] {
            let j = moved.delay(3, number(draw));
            assert!(10 * j <= 11 * base + 10);
            assert!(9 * base <= 10 * j + 10);
        }
    }
    let top = ExponentialBackoff::new(1000, 1000, number(2.0), true);
    assert_eq!(top.delay(9, number(0.75)), 1050);
}
