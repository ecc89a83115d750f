use sidecar_proxy::config::{CircuitBreakerConfig, ProxyConfig};
use sidecar_proxy::proxy::circuit_breaker::{CircuitBreaker, CircuitState};
use std::sync::Arc;
use std::time::{Duration, Instant};

fn create_test_config() -> Arc<ProxyConfig> {
    let mut config = ProxyConfig::default_config();
    config.circuit_breaker = CircuitBreakerConfig {
        enabled: true,
        failure_threshold: 3,
        recovery_timeout_ms: 1000,
        half_open_max_calls: 2,
    };
    Arc::new(config)
}

const MS: u64 = 1_000_000;

#[test]
fn test_circuit_breaker_closed_state() {
    let mut cb = CircuitBreaker::new(create_test_config());
    assert!(cb.can_execute("test-service"));
    assert_eq!(cb.get_state("test-service"), Some(CircuitState::Closed));
}

#[test]
fn test_circuit_breaker_opens_after_failures() {
    let mut cb = CircuitBreaker::new(create_test_config());
    for _ in 0..3 {
        cb.record_failure("test-service");
    }
    assert_eq!(cb.get_state("test-service"), Some(CircuitState::Open));
    assert!(!cb.can_execute("test-service"));
}

#[test]
fn test_circuit_breaker_half_open_transition() {
    let mut cb = CircuitBreaker::new(create_test_config());
    for _ in 0..3 {
        cb.record_failure("test-service");
    }
    let start = Instant::now();
    while start.elapsed() < Duration::from_millis(1100) {}
    assert!(cb.can_execute("test-service"));
    assert_eq!(cb.get_state("test-service"), Some(CircuitState::HalfOpen));
}

#[test]
fn a_breaker_that_is_off_lets_everything_pass() {
    let mut config = ProxyConfig::default_config();
    config.circuit_breaker.enabled = false;
    let mut cb = CircuitBreaker::new(Arc::new(config));
    for _ in 0..100 {
        cb.record_failure("a");
    }
    assert!(cb.can_execute("a"));
    assert_eq!(cb.get_state("a"), None);
    assert_eq!(cb.get_failure_count("a"), 0);
}

#[test]
fn the_breaker_stays_open_until_its_time_is_over() {
    let mut cb = CircuitBreaker::new(create_test_config());
    for _ in 0..3 {
        cb.record_failure_at("a", 5 * MS);
    }
    assert!(!cb.can_execute_at("a", 5 * MS));
    assert!(!cb.can_execute_at("a", 1005 * MS - 1));
    assert!(cb.can_execute_at("a", 1005 * MS));
    assert_eq!(cb.get_state("a"), Some(CircuitState::HalfOpen));
}

#[test]
fn a_success_clears_the_failures() {
    let mut cb = CircuitBreaker::new(create_test_config());
    cb.record_failure_at("a", 0);
    cb.record_failure_at("a", 0);
    assert_eq!(cb.get_failure_count("a"), 2);
    cb.record_success("a");
    assert_eq!(cb.get_failure_count("a"), 0);
    cb.record_failure_at("a", 0);
    cb.record_failure_at("a", 0);
    assert_eq!(cb.get_state("a"), Some(CircuitState::Closed));
    cb.record_failure_at("a", 0);
    assert_eq!(cb.get_state("a"), Some(CircuitState::Open));
}

#[test]
fn trial_calls_are_limited_to_the_configured_number() {
    let mut cb = CircuitBreaker::new(create_test_config());
    for _ in 0..3 {
        cb.record_failure_at("a", 0);
    }
    assert!(cb.can_execute_at("a", 1000 * MS));
    assert!(cb.can_execute_at("a", 1000 * MS));
    assert!(!cb.can_execute_at("a", 1000 * MS));
}

#[test]
fn trial_calls_that_succeed_close_the_breaker() {
    let mut cb = CircuitBreaker::new(create_test_config());
    for _ in 0..3 {
        cb.record_failure_at("a", 0);
    }
    assert!(cb.can_execute_at("a", 1000 * MS));
    cb.record_success("a");
    assert_eq!(cb.get_state("a"), Some(CircuitState::HalfOpen));
    cb.record_success("a");
    assert_eq!(cb.get_state("a"), Some(CircuitState::Closed));
    assert_eq!(cb.get_failure_count("a"), 0);
}

#[test]
fn a_trial_call_that_fails_opens_the_breaker_again() {
    let mut cb = CircuitBreaker::new(create_test_config());
    for _ in 0..3 {
        cb.record_failure_at("a", 0);
    }
    assert!(cb.can_execute_at("a", 1000 * MS));
    cb.record_failure_at("a", 1001 * MS);
    assert_eq!(cb.get_state("a"), Some(CircuitState::Open));
    assert_eq!(cb.get_failure_count("a"), 3);
    assert!(!cb.can_execute_at("a", 2000 * MS));
    assert!(cb.can_execute_at("a", 2001 * MS));
}

#[test]
fn services_have_breakers_of_their_own() {
    let mut cb = CircuitBreaker::new(create_test_config());
    for _ in 0..3 {
        cb.record_failure_at("a", 0);
    }
    cb.record_failure_at("b", 0);
    let mut all = cb.get_all_states();
    all.sort_by(|x, y| x.0.cmp(&y.0));
    assert_eq!(
        all,
        vec![
            ("a".to_string(), CircuitState::Open, 3),
            ("b".to_string(), CircuitState::Closed, 1),
        ]
    );
    cb.reset("a");
    assert_eq!(cb.get_state("a"), Some(CircuitState::Closed));
    assert_eq!(cb.get_failure_count("a"), 0);
    cb.reset("c");
    assert_eq!(cb.get_state("c"), None);
}

#[test]
fn closed_below_the_threshold() {
    let mut cb = CircuitBreaker::new(create_test_config());
    let mut seed: u64 = 7;
    let mut now: u64 = 0;
    for _ in 0..3000 {
        seed = seed.wrapping_mul(6364136223846793005).wrapping_add(1442695040888963407);
        now += (seed >> 40) % (400 * MS);
        match (seed >> 33) % 4 {
            0 => {
                cb.can_execute_at("s", now);
            }
            1 => cb.record_success("s"),
            _ => cb.record_failure_at("s", now),
        }
        let count = cb.get_failure_count("s");
        assert!(count <= 3);
        assert_eq!(cb.get_state("s").unwrap() == CircuitState::Closed, count < 3);
    }
}
