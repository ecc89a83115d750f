use sidecar_proxy::clock::Clock;
use sidecar_proxy::config::ProxyConfig;
use sidecar_proxy::registry::Registry;
use sidecar_proxy::text;

#[test]
fn texts_are_compared_and_searched() {
    assert!(text::same("abc", "abc"));
    assert!(!text::same("abc", "abd"));
    assert!(text::starts_with("Bearer x", "Bearer "));
    assert!(!text::starts_with("Bear", "Bearer "));
    assert!(text::contains("hello", "ell"));
    assert!(text::contains("hello", ""));
    assert!(text::contains("", ""));
    assert!(text::contains("hello", "lo"));
    assert!(!text::contains("hello", "lol"));
    assert!(!text::contains("", "a"));
    assert_eq!(text::without_prefix("Bearer x", "Bearer "), Some("x".to_string()));
    assert_eq!(text::without_prefix("Basic x", "Bearer "), None);
    assert_eq!(text::join("a", "b"), "ab");
    assert_eq!(text::chars_of("a\u{e4}"), vec!['a', '\u{e4}']);
}

#[test]
fn numbers_are_written_and_read() {
    for n in [0, 7, 10, 99, 100, 12345, u64::MAX] {
        assert_eq!(text::to_decimal(n), n.to_string());
        assert_eq!(text::parse_u64(&n.to_string()), Some(n));
    }
    for s in [
        "", "+", "-1", "1a", "a1", " 1", "1 ", "+5", "++5", "007", "18446744073709551616",
        "99999999999999999999999", "18446744073709551615", "1_000", "\u{663}",
    ] {
        assert_eq!(text::parse_u64(s), s.parse::<u64>().ok(), "{:?}", s);
    }
}

#[test]
fn a_registry_holds_items_by_name() {
    let mut r: Registry<u32> = Registry::new();
    assert_eq!(r.len(), 0);
    assert_eq!(r.get("a"), None);
    for i in 0..10u32 {
        r.insert(&format!("n{}", i), i);
    }
    r.insert("n3", 33);
    assert_eq!(r.len(), 10);
    assert_eq!(r.get("n3"), Some(&33));
    *r.get_mut("n4").unwrap() += 40;
    assert_eq!(r.get("n4"), Some(&44));
    assert!(r.get_mut("x").is_none());
    r.remove("n0");
    r.remove("n9");
    r.remove("n9");
    assert_eq!(r.len(), 8);
    assert!(!r.contains("n0"));
    for i in [1u32, 2, 5, 6, 7, 8] {
        assert_eq!(r.get(&format!("n{}", i)), Some(&i));
    }
    let mut names = r.names();
    names.sort();
    assert_eq!(names, vec!["n1", "n2", "n3", "n4", "n5", "n6", "n7", "n8"]);
}

#[test]
fn the_clock_goes_on() {
    let clock = Clock::new();
    let first = clock.now();
    let mut later = clock.now();
    while later <= first {
        later = clock.now();
    }
    assert!(later > first);
}

#[test]
fn the_sample_configuration() {
    let c = ProxyConfig::default_config();
    assert_eq!(c.server.bind_address, "0.0.0.0");
    assert_eq!(c.server.port, 8000);
    assert_eq!(c.upstream.services.len(), 1);
    assert_eq!(c.upstream.services[0].0, "example-service");
    assert_eq!(c.upstream.get("example-service").unwrap().endpoints[0].port, 8080);
    assert!(c.upstream.get("other").is_none());
    assert_eq!(f64::from_bits(c.retry.backoff_multiplier.bits), 2.0);
    assert_eq!(f64::from_bits(c.observability.tracing.sampling_rate.bits), 0.1);
    assert_eq!(f64::from_bits(c.ai.decision_threshold.bits), 0.8);
    assert_eq!(c.security.rate_limiting.burst_size, 2000);
    assert_eq!(c.retry.retry_on, vec!["5xx", "timeout"]);
    assert!(c.upstream.discovery.config.is_empty());
}
