use sidecar_proxy::ai::agent::Advice;
use sidecar_proxy::config::ProxyConfig;
use sidecar_proxy::http;
use sidecar_proxy::http::{Reply, RequestHead};
use sidecar_proxy::proxy::circuit_breaker::CircuitState;
use sidecar_proxy::proxy::load_balancer::HealthChange;
use sidecar_proxy::proxy::middleware::Moment;
use sidecar_proxy::proxy::server;
use sidecar_proxy::proxy::server::{Admission, ProxyMetrics};
use sidecar_proxy::proxy::ProxyServer;

const MS: u64 = 1_000_000;

fn request(service: Option<&str>) -> RequestHead {
    let mut req = RequestHead::new("GET".to_string(), "/x".to_string(), Some("/x?y=1".to_string()));
    if let Some(name) = service {
        http::set_field(&mut req.headers, "x-service-name", name);
    }
    req
}

fn config() -> ProxyConfig {
    let mut c = ProxyConfig::default_config();
    c.circuit_breaker.failure_threshold = 2;
    c.circuit_breaker.recovery_timeout_ms = 10;
    c
}

fn status(a: &Admission) -> u16 {
    match a {
        Admission::Answered(reply) => reply.status,
        Admission::Forward { .. } => 0,
    }
}

fn ask(s: &mut ProxyServer, service: &str, now: u64) -> Admission {
    let at = Moment { now, request_id: "id".to_string() };
    s.handle_request_at(&mut request(Some(service)), "1.1.1.1", &at, 0, now)
}

#[test]
fn requests_go_to_healthy_endpoints() {
    let mut s = ProxyServer::new(config(), false);
    let mut req = request(Some("example-service"));
    match s.handle_request(&mut req, "1.1.1.1") {
        Admission::Forward { service, endpoint } => {
            assert_eq!(service, "example-service");
            assert_eq!(endpoint, "127.0.0.1:8080");
        }
        Admission::Answered(reply) => panic!("{}", reply.status),
    }
    assert!(http::has_field(&req.headers, "x-request-id"));
    assert_eq!(s.record_health_check("example-service", 0, None), HealthChange::NowUnhealthy);
    match s.handle_request(&mut request(Some("example-service")), "1.1.1.1") {
        Admission::Answered(reply) => {
            assert_eq!((reply.status, reply.body.as_str()), (502, "No healthy upstream servers"));
        }
        Admission::Forward { .. } => panic!("forwarded"),
    }
}

#[test]
fn a_request_without_a_service_goes_to_the_default() {
    assert_eq!(ProxyServer::extract_service_name(&request(None)), "default");
    assert_eq!(ProxyServer::extract_service_name(&request(Some("a"))), "a");
    let mut s = ProxyServer::new(config(), false);
    assert_eq!(status(&s.handle_request(&mut request(None), "1.1.1.1")), 502);
}

#[test]
fn an_open_breaker_keeps_requests_back() {
    let mut s = ProxyServer::new(config(), false);
    for _ in 0..2 {
        assert_eq!(status(&ask(&mut s, "example-service", 0)), 0);
        let reply = s.complete_at("example-service", None, None, "1.1.1.1", 0, 0);
        assert_eq!((reply.status, reply.body.as_str()), (500, "Internal server error"));
        assert!(http::has_field(&reply.headers, "access-control-allow-origin"));
    }
    match ask(&mut s, "example-service", MS) {
        Admission::Answered(reply) => {
            assert_eq!((reply.status, reply.body.as_str()), (503, "Service temporarily unavailable"));
        }
        Admission::Forward { .. } => panic!("forwarded"),
    }
    assert_eq!(status(&ask(&mut s, "example-service", 10 * MS)), 0);
}

#[test]
fn the_endpoint_is_chosen_before_the_breaker_is_asked() {
    let mut s = ProxyServer::new(config(), false);
    for _ in 0..2 {
        s.complete_at("example-service", None, None, "1.1.1.1", 0, 0);
    }
    assert_eq!(status(&ask(&mut s, "example-service", 0)), 503);
    s.record_health_check("example-service", 0, None);
    assert_eq!(status(&ask(&mut s, "example-service", 0)), 502);
}

/// Sends a request at a time and lets it be answered at another.
fn exchange(s: &mut ProxyServer, from: u64, to: u64) -> Reply {
    let at = Moment { now: from, request_id: "id".to_string() };
    let mut req = request(Some("example-service"));
    let admission = s.handle_request_at(&mut req, "1.1.1.1", &at, 0, from);
    assert_eq!(status(&admission), 0);
    let outcome = Some(Reply::new(201, "made"));
    s.complete_at("example-service", outcome, req.started, "1.1.1.1", to, to)
}

#[test]
fn requests_are_counted_once() {
    let mut s = ProxyServer::new(config(), false);
    let reply = exchange(&mut s, 0, 7 * MS);
    assert_eq!((reply.status, reply.body.as_str()), (201, "made"));
    ask(&mut s, "example-service", 0);
    s.complete("example-service", None, None, "1.1.1.1");
    ask(&mut s, "nowhere", 0);
    assert_eq!(
        s.metrics_text(),
        "# HELP proxy_requests_total Total number of requests\n\
         # TYPE proxy_requests_total counter\n\
         proxy_requests_total 3\n\
         # HELP proxy_requests_successful_total Total number of successful requests\n\
         # TYPE proxy_requests_successful_total counter\n\
         proxy_requests_successful_total 1\n\
         # HELP proxy_requests_failed_total Total number of failed requests\n\
         # TYPE proxy_requests_failed_total counter\n\
         proxy_requests_failed_total 1\n\
         # HELP proxy_response_time_histogram Response time distribution in milliseconds\n\
         # TYPE proxy_response_time_histogram histogram\n\
         proxy_response_time_histogram_bucket{le=\"5\"} 0\n\
         proxy_response_time_histogram_bucket{le=\"10\"} 1\n\
         proxy_response_time_histogram_bucket{le=\"25\"} 1\n\
         proxy_response_time_histogram_bucket{le=\"50\"} 1\n\
         proxy_response_time_histogram_bucket{le=\"100\"} 1\n\
         proxy_response_time_histogram_bucket{le=\"250\"} 1\n\
         proxy_response_time_histogram_bucket{le=\"500\"} 1\n\
         proxy_response_time_histogram_bucket{le=\"1000\"} 1\n\
         proxy_response_time_histogram_bucket{le=\"2500\"} 1\n\
         proxy_response_time_histogram_bucket{le=\"5000\"} 1\n\
         proxy_response_time_histogram_bucket{le=\"10000\"} 1\n\
         proxy_response_time_histogram_bucket{le=\"+Inf\"} 1\n\
         proxy_response_time_histogram_sum 7\n\
         proxy_response_time_histogram_count 1\n\
         # HELP proxy_circuit_breaker_state Circuit breaker states (0 closed, 1 open, 2 half-open)\n\
         # TYPE proxy_circuit_breaker_state gauge\n\
         proxy_circuit_breaker_state{service=\"example-service\"} 0\n"
    );
}

#[test]
fn metrics_are_rendered() {
    let mut m = ProxyMetrics::default();
    m.total_requests = 5;
    m.successful_requests = 3;
    m.failed_requests = 2;
    let rows = vec![
        ("a".to_string(), CircuitState::Open, 7),
        ("b\"\\\n".to_string(), CircuitState::HalfOpen, 0),
        ("c".to_string(), CircuitState::Closed, 1),
    ];
    let times = vec![5 * MS, 5 * MS + 1, 30 * MS + 999_999, 20_000 * MS];
    let text = m.render(&times, &rows);
    let lines: Vec<&str> = text.lines().collect();
    for line in [
        "proxy_requests_total 5",
        "proxy_requests_successful_total 3",
        "proxy_requests_failed_total 2",
        "proxy_response_time_histogram_bucket{le=\"5\"} 1",
        "proxy_response_time_histogram_bucket{le=\"10\"} 2",
        "proxy_response_time_histogram_bucket{le=\"25\"} 2",
        "proxy_response_time_histogram_bucket{le=\"50\"} 3",
        "proxy_response_time_histogram_bucket{le=\"10000\"} 3",
        "proxy_response_time_histogram_bucket{le=\"+Inf\"} 4",
        "proxy_response_time_histogram_sum 20040",
        "proxy_response_time_histogram_count 4",
        "proxy_circuit_breaker_state{service=\"a\"} 1",
        "proxy_circuit_breaker_state{service=\"b\\\"\\\\\\n\"} 2",
        "proxy_circuit_breaker_state{service=\"c\"} 0",
    ] {
        assert!(lines.contains(&line), "{}", line);
    }
    let empty = ProxyMetrics::default().render(&Vec::new(), &Vec::new());
    assert!(empty.contains("proxy_requests_total 0\n"));
    assert!(empty.contains("proxy_response_time_histogram_count 0\n"));
    assert!(empty.ends_with("# TYPE proxy_circuit_breaker_state gauge\n"));
}

#[test]
fn the_states_of_all_breakers_are_shown() {
    let mut c = config();
    let mut second = c.upstream.services[0].clone();
    second.0 = "other-service".to_string();
    c.upstream.services.push(second);
    let mut s = ProxyServer::new(c, false);
    for _ in 0..2 {
        s.complete_at("example-service", None, None, "1.1.1.1", 0, 0);
    }
    ask(&mut s, "other-service", 0);
    let text = s.metrics_text();
    assert!(text.contains("proxy_circuit_breaker_state{service=\"example-service\"} 1\n"));
    assert!(text.contains("proxy_circuit_breaker_state{service=\"other-service\"} 0\n"));
    ask(&mut s, "example-service", 10 * MS);
    let text = s.metrics_text();
    assert!(text.contains("proxy_circuit_breaker_state{service=\"example-service\"} 2\n"));
}

#[test]
fn failed_calls_are_timed_too() {
    let mut s = ProxyServer::new(config(), false);
    ask(&mut s, "example-service", 0);
    s.complete_at("example-service", None, Some(MS), "1.1.1.1", 0, 3 * MS);
    s.complete_at("example-service", None, None, "1.1.1.1", 0, 3 * MS);
    let text = s.metrics_text();
    assert!(text.contains("proxy_response_time_histogram_sum 2\n"));
    assert!(text.contains("proxy_response_time_histogram_count 1\n"));
}

#[test]
fn successes_and_failures_are_within_the_total() {
    let mut s = ProxyServer::new(config(), false);
    for i in 0..4 {
        exchange(&mut s, i, i);
        ask(&mut s, "nowhere", i);
    }
    ask(&mut s, "example-service", 0);
    s.complete("example-service", None, None, "1.1.1.1");
    let text = s.metrics_text();
    assert!(text.contains("proxy_requests_total 9\n"));
    assert!(text.contains("proxy_requests_successful_total 4\n"));
    assert!(text.contains("proxy_requests_failed_total 1\n"));
}

#[test]
fn a_request_that_is_refused_is_answered_by_the_middleware() {
    let mut c = config();
    c.security.authentication.enabled = true;
    let mut s = ProxyServer::new(c, false);
    assert_eq!(status(&s.handle_request(&mut request(None), "1.1.1.1")), 401);
}

#[test]
fn requests_are_made_ready() {
    let mut req = request(None);
    let plan = server::forward_request(&mut req, "127.0.0.1:8080").unwrap();
    assert_eq!(plan.uri, "http://127.0.0.1:8080/x?y=1");
    assert_eq!(plan.method, "GET");
    assert_eq!(http::get_field(&req.headers, "x-forwarded-proto"), Some("http".to_string()));
    assert_eq!(http::get_field(&req.headers, "x-forwarded-for"), Some("127.0.0.1".to_string()));
    let mut bare = RequestHead::new("PURGE".to_string(), "*".to_string(), None);
    let plan = server::forward_request(&mut bare, "h:1").unwrap();
    assert_eq!(plan.uri, "http://h:1/");
    assert_eq!(plan.method, "GET");
    for method in ["POST", "PUT", "DELETE", "PATCH", "HEAD", "OPTIONS"] {
        let mut req = RequestHead::new(method.to_string(), "/".to_string(), None);
        assert_eq!(server::forward_request(&mut req, "h:1").unwrap().method, method);
    }
    let mut bad = request(None);
    assert!(server::forward_request(&mut bad, "not a host").is_none());
    assert!(!http::has_field(&bad.headers, "x-forwarded-for"));
    assert!(server::plan_forward(&mut bad, "u".to_string(), false).is_none());
}

#[test]
fn replies_are_relayed() {
    let mut headers = hyper::HeaderMap::new();
    headers.append("set-cookie", "a".parse().unwrap());
    headers.append("set-cookie", "b".parse().unwrap());
    let reply = server::relay(404, headers, &vec![b'o', b'k', 0xff]);
    assert_eq!(reply.status, 404);
    assert_eq!(reply.body, "ok\u{fffd}");
    assert_eq!(reply.headers.get_all("set-cookie").iter().count(), 2);
    assert_eq!(reply.started, None);
}

#[test]
fn addresses_come_from_the_configuration() {
    let s = ProxyServer::new(config(), false);
    assert_eq!(s.listen_address(), "0.0.0.0:8000");
    assert_eq!(s.metrics_address(), Some("0.0.0.0:9090".to_string()));
    let mut c = config();
    c.observability.metrics.enabled = false;
    assert_eq!(ProxyServer::new(c, false).metrics_address(), None);
}

#[test]
fn connections_are_tracked() {
    let mut s = ProxyServer::new(config(), false);
    s.connection_opened("1.1.1.1:5");
    s.connection_opened("1.1.1.1:6");
    s.connection_opened("1.1.1.1:6");
    assert_eq!(s.connection_count(), 2);
    s.connection_closed("1.1.1.1:5");
    s.connection_closed("1.1.1.1:7");
    assert_eq!(s.connection_count(), 1);
}

#[test]
fn connections_are_limited() {
    let mut c = config();
    c.server.max_connections = 2;
    let mut s = ProxyServer::new(c, false);
    assert!(s.connection_opened("1.1.1.1:5"));
    assert!(s.connection_opened("1.1.1.1:6"));
    assert!(!s.connection_opened("1.1.1.1:7"));
    assert_eq!(s.connection_count(), 2);
    s.connection_closed("1.1.1.1:5");
    assert!(s.connection_opened("1.1.1.1:7"));
}

#[test]
fn there_is_an_agent_only_if_both_want_one() {
    let mut c = config();
    assert!(ProxyServer::new(c, true).agent_mut().is_none());
    c = config();
    c.ai.enabled = true;
    assert!(ProxyServer::new(c, false).agent_mut().is_none());
    c = config();
    c.ai.enabled = true;
    let mut s = ProxyServer::new(c, true);
    assert!(s.agent_mut().is_some());
    assert!(s.monitor().is_none());
}

#[test]
fn the_agent_watches_the_server() {
    let mut c = config();
    c.ai.enabled = true;
    c.ai.autonomous_mode = true;
    c.ai.endpoint = Some("http://ai/decisions".to_string());
    let mut s = ProxyServer::new(c, true);
    assert!(matches!(s.monitor().unwrap().advice, Advice::Nothing));
    ask(&mut s, "example-service", 0);
    s.complete("example-service", None, None, "1.1.1.1");
    let analysis = s.monitor().unwrap();
    assert_eq!(f64::from_bits(analysis.health.error_rate.bits), 1.0);
    match analysis.advice {
        Advice::Executed(_, execution) => {
            assert_eq!(execution.report_to, Some("http://ai/decisions".to_string()));
            assert_eq!(execution.notices.len(), 2);
        }
        _ => panic!("not executed"),
    }
    assert!(analysis.finding.is_some());
    assert_eq!(s.agent_mut().unwrap().get_decision_history().len(), 1);
}

#[test]
fn retries_follow_the_configuration() {
    let s = ProxyServer::new(config(), false);
    assert_eq!(s.retry_policy().start().backoff_ms, 1000);
    assert_eq!(s.load_balancer().endpoint_count("example-service"), 1);
    assert_eq!(s.draw_for("example-service"), 0);
}

#[test]
fn services_fail_apart() {
    let mut c = config();
    let mut second = c.upstream.services[0].clone();
    second.0 = "other-service".to_string();
    c.upstream.services.push(second);
    let mut s = ProxyServer::new(c, false);
    for _ in 0..2 {
        s.complete_at("example-service", None, None, "1.1.1.1", 0, 0);
    }
    assert_eq!(status(&ask(&mut s, "example-service", 0)), 503);
    assert_eq!(status(&ask(&mut s, "other-service", 0)), 0);
}
