use sidecar_proxy::config::{EndpointConfig, ProxyConfig};
use sidecar_proxy::proxy::hash_ring::ConsistentHashRing;
use sidecar_proxy::proxy::load_balancer::{HealthChange, LoadBalancer};
use std::collections::hash_map::DefaultHasher;
use std::collections::BTreeMap;
use std::hash::{Hash, Hasher};
use std::sync::Arc;

fn endpoint(address: &str, port: u16, weight: u32) -> EndpointConfig {
    EndpointConfig {
        address: address.to_string(),
        port,
        weight,
        metadata: vec![("zone".to_string(), "a".to_string())],
    }
}

fn balancer(algorithm: &str, endpoints: Vec<EndpointConfig>) -> LoadBalancer {
    let mut config = ProxyConfig::default_config();
    config.load_balancing.algorithm = algorithm.to_string();
    config.upstream.services[0].0 = "s".to_string();
    config.upstream.services[0].1.endpoints = endpoints;
    LoadBalancer::new(Arc::new(config))
}

fn three() -> Vec<EndpointConfig> {
    vec![endpoint("a", 1, 1), endpoint("b", 2, 2), endpoint("c", 3, 3)]
}

fn pick(lb: &mut LoadBalancer) -> String {
    lb.select_endpoint("s").unwrap()
}

#[test]
fn turns_go_round() {
    let mut lb = balancer("round_robin", three());
    let picks: Vec<String> = (0..4).map(|_| pick(&mut lb)).collect();
    assert_eq!(picks, vec!["a:1", "b:2", "c:3", "a:1"]);
}

#[test]
fn an_unknown_algorithm_takes_turns() {
    let mut lb = balancer("fastest", three());
    assert_eq!(pick(&mut lb), "a:1");
    assert_eq!(pick(&mut lb), "b:2");
}

#[test]
fn an_unknown_service_has_no_endpoint() {
    let mut lb = balancer("round_robin", three());
    assert_eq!(lb.select_endpoint("t"), None);
    assert_eq!(lb.endpoint_count("t"), 0);
    assert_eq!(lb.endpoint_count("s"), 3);
    assert!(lb.endpoint("s", 3).is_none());
}

#[test]
fn unhealthy_endpoints_are_left_out() {
    let mut lb = balancer("round_robin", three());
    assert_eq!(lb.record_health_check("s", 1, Some(500)), HealthChange::NowUnhealthy);
    assert_eq!(lb.record_health_check("s", 1, None), HealthChange::Unchanged);
    let picks: Vec<String> = (0..3).map(|_| pick(&mut lb)).collect();
    assert_eq!(picks, vec!["a:1", "c:3", "a:1"]);
    assert_eq!(lb.record_health_check("s", 1, Some(299)), HealthChange::NowHealthy);
    assert_eq!(lb.record_health_check("s", 1, Some(300)), HealthChange::NowUnhealthy);
    assert_eq!(lb.record_health_check("s", 1, Some(200)), HealthChange::NowHealthy);
    assert_eq!(lb.record_health_check("s", 1, Some(199)), HealthChange::NowUnhealthy);
    assert_eq!(lb.record_health_check("s", 7, None), HealthChange::Unchanged);
    assert_eq!(lb.record_health_check("t", 0, None), HealthChange::Unchanged);
    lb.record_health_check("s", 0, None);
    lb.record_health_check("s", 2, None);
    assert_eq!(lb.select_endpoint("s"), None);
}

#[test]
fn least_connections_takes_the_first_of_equals() {
    let mut lb = balancer("least_connections", three());
    assert_eq!(pick(&mut lb), "a:1");
    lb.record_health_check("s", 0, None);
    assert_eq!(pick(&mut lb), "b:2");
}

#[test]
fn shares_follow_weights() {
    let mut lb = balancer("weighted_round_robin", three());
    let mut picks = Vec::new();
    for draw in 0..6 {
        picks.push(lb.select_endpoint_with("s", draw).unwrap());
    }
    assert_eq!(picks, vec!["a:1", "b:2", "b:2", "c:3", "c:3", "c:3"]);
    lb.record_health_check("s", 1, None);
    let mut picks = Vec::new();
    for draw in 0..4 {
        picks.push(lb.select_endpoint_with("s", draw).unwrap());
    }
    assert_eq!(picks, vec!["a:1", "c:3", "c:3", "c:3"]);
}

#[test]
fn draws_are_random_but_fit() {
    let mut lb = balancer("weighted_round_robin", three());
    let mut seen = [false; 3];
    for _ in 0..2000 {
        assert!(lb.draw_for("s") < 6);
        match pick(&mut lb).as_str() {
            "a:1" => seen[0] = true,
            "b:2" => seen[1] = true,
            "c:3" => seen[2] = true,
            other => panic!("{}", other),
        }
    }
    assert_eq!(seen, [true; 3]);
}

#[test]
fn without_weights_the_first_is_taken() {
    let mut lb = balancer("weighted_round_robin", vec![endpoint("a", 1, 0), endpoint("b", 2, 0)]);
    assert_eq!(pick(&mut lb), "a:1");
    assert_eq!(pick(&mut lb), "a:1");
}

#[test]
fn consistent_hashing_is_steady_and_skips_the_unhealthy() {
    let mut lb = balancer("consistent_hash", three());
    let first = pick(&mut lb);
    for _ in 0..5 {
        assert_eq!(pick(&mut lb), first);
    }
    let index = ["a:1", "b:2", "c:3"].iter().position(|h| *h == first).unwrap();
    lb.record_health_check("s", index, None);
    let second = pick(&mut lb);
    assert_ne!(second, first);
    lb.record_health_check("s", index, Some(200));
    assert_eq!(pick(&mut lb), first);
}

#[test]
fn growth_moves_places_to_the_new_endpoint_only() {
    let names = |n: usize| -> Vec<String> { (0..n).map(|i| format!("host{}:80", i)).collect() };
    let small = ConsistentHashRing::new(&names(4), 150);
    let large = ConsistentHashRing::new(&names(5), 150);
    let mut moved = 0;
    for k in 0..500 {
        let key = format!("key{}", k);
        let before = small.get_endpoint(&key, &vec![true; 4]).unwrap();
        let after = large.get_endpoint(&key, &vec![true; 5]).unwrap();
        if before != after {
            assert_eq!(after, 4);
            moved += 1;
        }
    }
    assert!(moved > 0 && moved < 300);
}

#[test]
fn removal_moves_the_places_of_the_endpoint_only() {
    let names: Vec<String> = (0..5).map(|i| format!("host{}:80", i)).collect();
    let whole = ConsistentHashRing::new(&names, 150);
    for taken in 0..5 {
        let mut fewer = names.clone();
        fewer.remove(taken);
        let rest = ConsistentHashRing::new(&fewer, 150);
        for k in 0..200 {
            let key = format!("key{}", k);
            let before = whole.get_endpoint(&key, &vec![true; 5]).unwrap();
            let after = rest.get_endpoint(&key, &vec![true; 4]).unwrap();
            if before != taken {
                assert_eq!(fewer[after], names[before]);
            } else {
                assert_ne!(fewer[after], names[before]);
            }
        }
    }
}

#[test]
fn endpoints_of_one_host_serve_for_each_other() {
    let mut lb = balancer("consistent_hash", vec![endpoint("a", 1, 1), endpoint("a", 1, 1)]);
    assert_eq!(lb.select_endpoint("s"), Some("a:1".to_string()));
    lb.record_health_check("s", 1, None);
    assert_eq!(lb.select_endpoint("s"), Some("a:1".to_string()));
    lb.record_health_check("s", 0, None);
    assert_eq!(lb.select_endpoint("s"), None);
    lb.record_health_check("s", 1, Some(200));
    assert_eq!(lb.select_endpoint("s"), Some("a:1".to_string()));
}

#[test]
fn the_ring_agrees_with_a_sorted_map() {
    let hash = |text: &str| {
        let mut hasher = DefaultHasher::new();
        text.hash(&mut hasher);
        hasher.finish()
    };
    let names: Vec<String> = vec!["x:1".to_string(), "y:2".to_string(), "z:3".to_string()];
    let mut ring = BTreeMap::new();
    for (e, name) in names.iter().enumerate() {
        for i in 0..150 {
            ring.insert(hash(&format!("{}:{}", name, i)), e);
        }
    }
    let built = ConsistentHashRing::new(&names, 150);
    for k in 0..200 {
        let key = format!("key{}", k);
        let at = hash(&key);
        let expected = ring.range(at..).next().or_else(|| ring.iter().next()).map(|(_, e)| *e);
        assert_eq!(built.get_endpoint(&key, &vec![true; 3]), expected);
        let only = built.get_endpoint(&key, &vec![false, true, false]);
        assert_eq!(only, Some(1));
        assert_eq!(built.get_endpoint(&key, &vec![false; 3]), None);
    }
    assert_eq!(ConsistentHashRing::new(&vec![], 150).get_endpoint("k", &vec![]), None);
    assert_eq!(ConsistentHashRing::new(&names, 0).get_endpoint("k", &vec![true; 3]), None);
}

#[test]
fn statistics_follow_replies() {
    let mut lb = balancer("round_robin", three());
    lb.update_endpoint_stats("s", "b:2", 100, true);
    lb.update_endpoint_stats("s", "b:2", 200, false);
    lb.update_endpoint_stats("s", "nowhere:1", 7, false);
    lb.update_endpoint_stats("t", "b:2", 7, false);
    let e = lb.endpoint("s", 1).unwrap();
    assert_eq!(e.total_requests, 2);
    assert_eq!(e.failed_requests, 1);
    assert_eq!(f64::from_bits(e.avg_response_time.bits), 0.9 * 100.0 + 0.1 * 200.0);
    assert_eq!(e.metadata, vec![("zone".to_string(), "a".to_string())]);
    assert_eq!(lb.endpoint("s", 0).unwrap().total_requests, 0);
}

#[test]
fn services_with_checks_are_checked() {
    let mut config = ProxyConfig::default_config();
    let lb = LoadBalancer::new(Arc::new(ProxyConfig::default_config()));
    assert_eq!(lb.checked_services(), vec!["example-service".to_string()]);
    assert_eq!(
        lb.health_check_url("example-service", 0),
        Some("http://127.0.0.1:8080/health".to_string())
    );
    assert_eq!(lb.health_check_url("example-service", 1), None);
    assert_eq!(lb.health_check_url("other", 0), None);
    config.upstream.services[0].1.health_check.enabled = false;
    let lb = LoadBalancer::new(Arc::new(config));
    assert!(lb.checked_services().is_empty());
    assert_eq!(lb.health_check_url("example-service", 0), None);
}
