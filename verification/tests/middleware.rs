use sidecar_proxy::config::ProxyConfig;
use sidecar_proxy::http;
use sidecar_proxy::http::{Reply, RequestHead};
use sidecar_proxy::proxy::middleware::{
    AuthenticationMiddleware, AuthorizationMiddleware, CorsMiddleware, LoggingMiddleware,
    MetricsMiddleware, Middleware, MiddlewareChain, Moment, RateLimitingMiddleware, TokenBucket,
};
use sidecar_proxy::binary64::Binary64;
use std::sync::Arc;

const SECOND: u64 = 1_000_000_000;

fn request(method: &str, path: &str) -> RequestHead {
    RequestHead::new(method.to_string(), path.to_string(), Some(path.to_string()))
}

fn at(now: u64) -> Moment {
    Moment { now, request_id: "id-1".to_string() }
}

fn field(headers: &hyper::HeaderMap, name: &str) -> Option<String> {
    headers.get(name).map(|v| v.to_str().unwrap().to_string())
}

fn limits(rate: u32, burst: u32, extractor: &str) -> Arc<ProxyConfig> {
    let mut c = ProxyConfig::default_config();
    c.security.rate_limiting.enabled = true;
    c.security.rate_limiting.requests_per_second = rate;
    c.security.rate_limiting.burst_size = burst;
    c.security.rate_limiting.key_extractor = extractor.to_string();
    Arc::new(c)
}

#[test]
fn a_full_bucket_admits_a_burst() {
    let mut m = RateLimitingMiddleware::new(limits(1, 5, "ip"));
    for _ in 0..5 {
        assert!(m.can_proceed("k", 7));
    }
    assert!(!m.can_proceed("k", 7));
    assert!(m.can_proceed("other", 7));
    assert!(!m.can_proceed("k", 7 + SECOND / 2));
    assert!(m.can_proceed("k", 7 + SECOND));
    assert!(!m.can_proceed("k", 7 + SECOND));
    for _ in 0..5 {
        assert!(m.can_proceed("k", 100 * SECOND));
    }
    assert!(!m.can_proceed("k", 100 * SECOND));
}

#[test]
fn buckets_fill_like_doubles() {
    let number = |x: f64| Binary64::from_bits(x.to_bits());
    let mut b = TokenBucket {
        tokens: number(0.3),
        last_refill: 0,
        capacity: number(10.0),
        refill_rate: number(3.0),
    };
    let mut tokens: f64 = 0.3;
    let mut last: u64 = 0;
    for now in [123_456_789u64, 600_000_000, 1_234_567_890, 1_234_567_890, 5_000_000_001] {
        let d = std::time::Duration::from_nanos(now - last);
        tokens = (tokens + d.as_secs_f64() * 3.0).min(10.0);
        last = now;
        let expected = tokens >= 1.0;
        if expected {
            tokens -= 1.0;
        }
        assert_eq!(b.consume_token(now), expected);
        assert_eq!(f64::from_bits(b.tokens.bits), tokens);
    }
    assert!(b.consume_token(0));
    assert_eq!(b.last_refill, 0);
}

#[test]
fn keys_come_from_where_they_are_looked_for() {
    let mut req = request("GET", "/");
    http::set_field(&mut req.headers, "x-rate-limit-key", "customer");
    http::set_field(&mut req.headers, "authorization", "Bearer token");
    let key = |e: &str, req: &RequestHead| {
        RateLimitingMiddleware::new(limits(1, 1, e)).extract_key(req, "1.2.3.4")
    };
    assert_eq!(key("ip", &req), "1.2.3.4");
    assert_eq!(key("header", &req), "customer");
    assert_eq!(key("jwt_claim", &req), "token");
    assert_eq!(key("other", &req), "1.2.3.4");
    let bare = request("GET", "/");
    assert_eq!(key("header", &bare), "1.2.3.4");
    assert_eq!(key("jwt_claim", &bare), "1.2.3.4");
    http::set_field(&mut req.headers, "authorization", "Basic token");
    assert_eq!(key("jwt_claim", &req), "1.2.3.4");
    req.headers.insert("x-rate-limit-key", hyper::header::HeaderValue::from_bytes(b"\xff").unwrap());
    assert_eq!(key("header", &req), "1.2.3.4");
}

#[test]
fn a_request_that_comes_too_soon_is_told_so() {
    let mut m = RateLimitingMiddleware::new(limits(1, 0, "ip"));
    let reply = m.process_request(&mut request("GET", "/"), "1.1.1.1", &at(0)).unwrap_err();
    assert_eq!(reply.status, 429);
    assert_eq!(reply.body, "Rate limit exceeded");
    assert_eq!(field(&reply.headers, "Retry-After"), Some("60".to_string()));
    assert!(m.process_response(&mut Reply::new(200, ""), "1.1.1.1", 0).is_ok());
}

fn authenticates(method: &str, header: Option<(&'static str, &str)>) -> bool {
    let mut c = ProxyConfig::default_config();
    c.security.authentication.method = method.to_string();
    let m = AuthenticationMiddleware::new(Arc::new(c));
    let mut req = request("GET", "/");
    if let Some((name, value)) = header {
        http::set_field(&mut req.headers, name, value);
    }
    m.authenticate(&req)
}

#[test]
fn requests_show_who_they_come_from() {
    assert!(authenticates("jwt", Some(("authorization", "Bearer 12345678901"))));
    assert!(!authenticates("jwt", Some(("authorization", "Bearer 1234567890"))));
    assert!(!authenticates("jwt", Some(("authorization", "12345678901234567890"))));
    assert!(!authenticates("jwt", None));
    assert!(authenticates("oauth2", Some(("authorization", "Bearer "))));
    assert!(!authenticates("oauth2", Some(("authorization", "bearer x"))));
    assert!(!authenticates("oauth2", None));
    assert!(authenticates("mtls", Some(("x-client-cert", "anything"))));
    assert!(!authenticates("mtls", None));
    assert!(authenticates("none", None));
}

#[test]
fn a_stranger_is_told_to_authenticate() {
    let mut m = AuthenticationMiddleware::new(Arc::new(ProxyConfig::default_config()));
    assert!(m.validate_jwt("12345678901"));
    assert!(!m.validate_jwt(""));
    assert!(m.validate_oauth2("Bearer x"));
    let reply = m.process_request(&mut request("GET", "/"), "1.1.1.1", &at(0)).unwrap_err();
    assert_eq!(reply.status, 401);
    assert_eq!(reply.body, "Authentication required");
    assert_eq!(field(&reply.headers, "WWW-Authenticate"), Some("Bearer".to_string()));
}

#[test]
fn policies_allow_requests() {
    let mut c = ProxyConfig::default_config();
    c.security.authorization.policies =
        vec!["GET:/api/users".to_string(), "allow POST:/api and more".to_string()];
    let mut m = AuthorizationMiddleware::new(Arc::new(c));
    assert!(m.check_authorization(&request("GET", "/api/users")));
    assert!(m.check_authorization(&request("GET", "/api")));
    assert!(m.check_authorization(&request("POST", "/api")));
    assert!(!m.check_authorization(&request("POST", "/api/users")));
    assert!(!m.check_authorization(&request("DELETE", "/api")));
    assert!(m.check_authorization(&request("DELETE", "/health")));
    assert!(m.check_authorization(&request("DELETE", "/metrics")));
    assert!(!m.check_authorization(&request("GET", "/health/x")));
    let reply = m.process_request(&mut request("PUT", "/x"), "1.1.1.1", &at(0)).unwrap_err();
    assert_eq!((reply.status, reply.body.as_str()), (403, "Access denied"));
    assert!(reply.headers.is_empty());
}

#[test]
fn logging_gives_requests_an_identifier() {
    let mut m = LoggingMiddleware::new(Arc::new(ProxyConfig::default_config()));
    let mut req = request("GET", "/");
    req.headers.append("x-request-id", "old".parse().unwrap());
    req.headers.append("x-request-id", "older".parse().unwrap());
    assert!(m.process_request(&mut req, "1.1.1.1", &at(0)).is_ok());
    let values: Vec<&str> =
        req.headers.get_all("x-request-id").iter().map(|v| v.to_str().unwrap()).collect();
    assert_eq!(values, vec!["id-1"]);
}

#[test]
fn metrics_count_requests_and_keep_times() {
    let mut m = MetricsMiddleware::new(Arc::new(ProxyConfig::default_config()));
    let mut req = request("GET", "/");
    assert!(m.process_request(&mut req, "1.1.1.1", &at(5)).is_ok());
    assert_eq!(req.started, Some(5));
    assert_eq!(m.request_count(), 1);
    let mut reply = Reply::new(200, "");
    assert!(m.process_response(&mut reply, "1.1.1.1", 9).is_ok());
    assert!(m.response_times().is_empty());
    for i in 0..1002 {
        reply.started = Some(5);
        assert!(m.process_response(&mut reply, "1.1.1.1", 5 + i).is_ok());
    }
    assert_eq!(m.response_times().len(), 1000);
    assert_eq!(m.response_times()[0], 2);
    assert_eq!(m.response_times()[999], 1001);
}

#[test]
fn preflight_requests_are_answered() {
    let mut m = CorsMiddleware::new(Arc::new(ProxyConfig::default_config()));
    assert!(m.process_request(&mut request("GET", "/"), "1.1.1.1", &at(0)).is_ok());
    let reply = m.process_request(&mut request("OPTIONS", "/"), "1.1.1.1", &at(0)).unwrap_err();
    assert_eq!((reply.status, reply.body.as_str()), (200, ""));
    let get = |name: &str| field(&reply.headers, name).unwrap();
    assert_eq!(get("Access-Control-Allow-Origin"), "*");
    assert_eq!(get("Access-Control-Allow-Methods"), "GET, POST, PUT, DELETE, OPTIONS");
    assert_eq!(get("Access-Control-Allow-Headers"), "Content-Type, Authorization");
    assert_eq!(get("Access-Control-Max-Age"), "86400");
    assert_eq!(reply.headers.len(), 4);
    let mut reply = Reply::new(200, "x");
    assert!(m.process_response(&mut reply, "1.1.1.1", 0).is_ok());
    assert_eq!(field(&reply.headers, "access-control-allow-origin"), Some("*".to_string()));
    assert_eq!(field(&reply.headers, "access-control-allow-credentials"), Some("true".to_string()));
    assert_eq!(reply.body, "x");
}

fn strict() -> ProxyConfig {
    let mut c = ProxyConfig::default_config();
    c.security.rate_limiting.enabled = true;
    c.security.rate_limiting.burst_size = 2;
    c.security.rate_limiting.requests_per_second = 1;
    c.security.authentication.enabled = true;
    c.security.authorization.enabled = true;
    c.security.authorization.policies = vec!["GET:/a".to_string(), "OPTIONS:/a".to_string()];
    c
}

fn signed(method: &str, path: &str) -> RequestHead {
    let mut req = request(method, path);
    http::set_field(&mut req.headers, "authorization", "Bearer 12345678901");
    req
}

#[test]
fn the_first_stage_that_objects_answers() {
    let mut chain = MiddlewareChain::new(Arc::new(strict()));
    let mut status = |req: &mut RequestHead, now: u64| {
        match chain.process_request_at(req, "1.1.1.1", &at(now)) {
            Ok(()) => 0,
            Err(reply) => reply.status,
        }
    };
    let mut stranger = request("GET", "/a");
    assert_eq!(status(&mut stranger, 0), 401);
    assert_eq!(field(&stranger.headers, "x-request-id"), None);
    assert_eq!(stranger.started, None);
    assert_eq!(status(&mut signed("GET", "/b"), 0), 403);
    assert_eq!(status(&mut signed("GET", "/a"), 0), 429);
    assert_eq!(status(&mut signed("GET", "/a"), SECOND), 0);
    let mut preflight = signed("OPTIONS", "/a");
    assert_eq!(status(&mut preflight, 2 * SECOND), 200);
    assert_eq!(field(&preflight.headers, "x-request-id"), Some("id-1".to_string()));
    let mut good = signed("GET", "/a");
    assert_eq!(status(&mut good, 3 * SECOND), 0);
    assert_eq!(good.started, Some(3 * SECOND));
}

#[test]
fn identifiers_are_random_uuids() {
    let mut chain = MiddlewareChain::new(Arc::new(ProxyConfig::default_config()));
    let mut ids = Vec::new();
    for _ in 0..20 {
        let mut req = request("GET", "/");
        assert!(chain.process_request(&mut req, "1.1.1.1").is_ok());
        ids.push(field(&req.headers, "x-request-id").unwrap());
    }
    for id in &ids {
        let chars: Vec<char> = id.chars().collect();
        assert_eq!(chars.len(), 36);
        for (i, c) in chars.iter().enumerate() {
            if [8, 13, 18, 23].contains(&i) {
                assert_eq!(*c, '-');
            } else {
                assert!(c.is_ascii_hexdigit() && !c.is_ascii_uppercase());
            }
        }
        assert_eq!(chars[14], '4');
        assert!(['8', '9', 'a', 'b'].contains(&chars[19]));
    }
    ids.sort();
    ids.dedup();
    assert_eq!(ids.len(), 20);
}

#[test]
fn replies_go_through_the_chain() {
    let mut chain = MiddlewareChain::new(Arc::new(strict()));
    let mut reply = Reply::new(204, "body");
    assert!(chain.process_response(&mut reply, "1.1.1.1").is_ok());
    assert_eq!(reply.status, 204);
    assert_eq!(reply.body, "body");
    assert_eq!(field(&reply.headers, "access-control-allow-origin"), Some("*".to_string()));
    assert!(chain.process_response_at(&mut reply, "1.1.1.1", 3).is_ok());
}

#[test]
fn headers_have_room_for_a_while() {
    let mut req = request("GET", "/");
    assert!(http::room_for(&req.headers, 6554));
    assert!(!http::room_for(&req.headers, 6555));
    for i in 0..6553 {
        let name = hyper::header::HeaderName::from_bytes(format!("h{}", i).as_bytes()).unwrap();
        req.headers.insert(name, "v".parse().unwrap());
    }
    assert!(http::room_for(&req.headers, 1));
    assert!(!http::room_for(&req.headers, 2));
    http::set_field(&mut req.headers, "x-request-id", "a");
    assert!(http::room_for(&req.headers, 0));
    assert!(!http::room_for(&req.headers, 1));
    assert_eq!(http::get_field(&req.headers, "x-request-id"), Some("a".to_string()));
    assert!(!http::has_field(&req.headers, "missing"));
}

#[test]
fn buckets_fill_by_the_second() {
    let mut m = RateLimitingMiddleware::new(limits(3, 10, "ip"));
    for _ in 0..10 {
        assert!(m.can_proceed("k", 0));
    }
    assert!(!m.can_proceed("k", 0));
    for _ in 0..6 {
        assert!(m.can_proceed("k", 2 * SECOND));
    }
    assert!(!m.can_proceed("k", 2 * SECOND));
    for _ in 0..10 {
        assert!(m.can_proceed("k", 1000 * SECOND));
    }
    assert!(!m.can_proceed("k", 1000 * SECOND));
}

#[test]
fn clients_are_limited_apart() {
    let mut c = ProxyConfig::default_config();
    c.security.rate_limiting.burst_size = 1;
    let mut chain = MiddlewareChain::new(Arc::new(c));
    let mut passes = |ip: &str| chain.process_request_at(&mut request("GET", "/"), ip, &at(0)).is_ok();
    assert!(passes("1.1.1.1"));
    assert!(!passes("1.1.1.1"));
    assert!(passes("2.2.2.2"));
}

#[test]
fn clients_get_their_burst_and_their_rate() {
    let mut m = RateLimitingMiddleware::new(limits(7, 10, "ip"));
    let mut granted: u64 = 0;
    let mut now: u64 = 3;
    let mut seed: u64 = 1;
    for _ in 0..2000 {
        seed = seed.wrapping_mul(6364136223846793005).wrapping_add(1442695040888963407);
        now += (seed >> 33) % 40_000_000;
        m.can_proceed("other", now);
        if m.can_proceed("k", now) {
            granted += 1;
        }
        assert!(granted * SECOND <= 10 * SECOND + 7 * (now - 3));
    }
    assert!(granted > 10);
    let mut none = RateLimitingMiddleware::new(limits(7, 0, "ip"));
    for i in 0..10 {
        assert!(!none.can_proceed("k", i * SECOND));
    }
}

#[test]
fn idle_time_earns_a_burst_at_most() {
    let mut m = RateLimitingMiddleware::new(limits(1000, 4, "ip"));
    for round in 0..5 {
        let granted = (0..50).filter(|_| m.can_proceed("k", round * 1000 * SECOND)).count();
        assert_eq!(granted, 4);
    }
}

#[test]
fn stages_that_add_nothing_take_crowded_requests() {
    let mut req = request("GET", "/");
    for i in 0..7000 {
        let name: hyper::header::HeaderName = format!("x-{}", i).parse().unwrap();
        req.headers.insert(name, "v".parse().unwrap());
    }
    let mut m = RateLimitingMiddleware::new(limits(1, 1, "ip"));
    assert!(m.process_request(&mut req, "1.1.1.1", &at(0)).is_ok());
    assert!(m.process_request(&mut req, "1.1.1.1", &at(0)).is_err());
}
