use sidecar_proxy::ai::agent::{
    Action, Advice, AiAgent, AlertSeverity, Anomaly, AnomalyType, DecisionType, Level,
    RequestFeatures, SystemHealth,
};
use sidecar_proxy::ai::anomaly_detection::{AnomalyDetector, AnomalyThresholds, Finding, Piece};
use sidecar_proxy::ai::decision_engine::{Condition, DecisionEngine, DecisionRule};
use sidecar_proxy::ai::learning;
use sidecar_proxy::ai::learning::{LearningEngine, ModelType, Prediction, Training};
use sidecar_proxy::binary64::Binary64;
use sidecar_proxy::clock::Timestamp;
use sidecar_proxy::config::ProxyConfig;
use sidecar_proxy::http;
use sidecar_proxy::http::{Reply, RequestHead};
use sidecar_proxy::proxy::server::ProxyMetrics;
use std::sync::Arc;

fn b(x: f64) -> Binary64 {
    Binary64::from_bits(x.to_bits())
}

fn f(x: Binary64) -> f64 {
    f64::from_bits(x.to_bits())
}

fn time() -> Timestamp {
    Timestamp { seconds: 1_700_000_000, nanos: 5 }
}

fn default_config() -> Arc<ProxyConfig> {
    Arc::new(ProxyConfig::default_config())
}

fn create_test_features() -> RequestFeatures {
    RequestFeatures {
        method: "GET".to_string(),
        path: "/api/test".to_string(),
        status_code: 200,
        response_time_ms: 100,
        request_size: 1024,
        response_size: 2048,
        user_agent: "test-agent".to_string(),
        timestamp: time(),
    }
}

fn create_test_health() -> SystemHealth {
    SystemHealth {
        total_requests: 1000,
        successful_requests: 950,
        failed_requests: 50,
        avg_response_time: b(200.0),
        error_rate: b(0.05),
        active_connections: 100,
        upstream_health: vec![("default".to_string(), true)],
        timestamp: time(),
    }
}

/// The description of a finding, with its numbers written out.
fn description(finding: &Finding) -> String {
    let mut text = String::new();
    for piece in &finding.description {
        match piece {
            Piece::Text(t) => text.push_str(t),
            Piece::Number(n) => text.push_str(&format!("{}", f(*n))),
            Piece::TwoPlaces(n) => text.push_str(&format!("{:.2}", f(*n))),
        }
    }
    text
}

#[test]
fn test_anomaly_detector_creation() {
    let detector = AnomalyDetector::new(default_config());
    let stats = detector.get_statistics();
    assert_eq!(stats.monitored_paths, 0);
    assert_eq!(stats.monitored_ips, 0);
}

#[test]
fn test_high_latency_detection() {
    let mut detector = AnomalyDetector::new(default_config());
    let mut features = create_test_features();
    features.response_time_ms = 10000;
    let anomaly = detector.detect_anomaly(&features);
    assert!(anomaly.is_some());
    let anomaly = anomaly.unwrap();
    assert!(matches!(anomaly.anomaly_type, AnomalyType::HighLatency));
    assert_eq!(f(anomaly.severity), 1.0);
    assert_eq!(description(&anomaly), "High response time: 10000ms for GET /api/test");
}

#[test]
fn test_security_threat_detection() {
    let mut detector = AnomalyDetector::new(default_config());
    let mut features = create_test_features();
    features.path = "/api/test?id=1' OR '1'='1".to_string();
    let anomaly = detector.detect_anomaly(&features);
    assert!(anomaly.is_some());
    let anomaly = anomaly.unwrap();
    assert!(matches!(anomaly.anomaly_type, AnomalyType::SecurityThreat));
}

#[test]
fn test_normal_request_no_anomaly() {
    let mut detector = AnomalyDetector::new(default_config());
    let features = create_test_features();
    let anomaly = detector.detect_anomaly(&features);
    assert!(anomaly.is_none());
}

fn threat_of(path: &str, user_agent: &str) -> Option<(f64, String)> {
    let mut detector = AnomalyDetector::new(default_config());
    let mut features = create_test_features();
    features.path = path.to_string();
    features.user_agent = user_agent.to_string();
    detector.detect_anomaly(&features).map(|a| {
        assert_eq!(a.anomaly_type, AnomalyType::SecurityThreat);
        assert_eq!(a.features.path, path);
        (f(a.severity), description(&a))
    })
}

#[test]
fn attacks_are_noticed() {
    let sql = |p: &str| Some((0.9, format!("Potential SQL injection attempt: {}", p)));
    assert_eq!(threat_of("/?q=UNION all Select", "x"), sql("/?q=UNION all Select"));
    assert_eq!(threat_of("/?q=' or 1=1", "x"), sql("/?q=' or 1=1"));
    let xss = |p: &str| Some((0.8, format!("Potential XSS attempt: {}", p)));
    assert_eq!(threat_of("/<SCRIPT>", "x"), xss("/<SCRIPT>"));
    assert_eq!(threat_of("/javascript:x", "x"), xss("/javascript:x"));
    assert_eq!(threat_of("/?onerror=x", "x"), xss("/?onerror=x"));
    let up = |p: &str| Some((0.7, format!("Potential directory traversal attempt: {}", p)));
    assert_eq!(threat_of("/../etc", "x"), up("/../etc"));
    assert_eq!(threat_of("/..\\etc", "x"), up("/..\\etc"));
    for agent in ["SQLmap/1", "Nikto", "nmap", "masscan"] {
        assert_eq!(
            threat_of("/", agent),
            Some((0.95, format!("Suspicious user agent: {}", agent)))
        );
    }
    assert_eq!(threat_of("/union", "curl"), None);
    assert_eq!(threat_of("/or'1", "curl"), None);
}

#[test]
fn unusual_replies_stand_out() {
    let mut detector = AnomalyDetector::new(default_config());
    let mut features = create_test_features();
    let mut average = 0.0;
    for n in 1..=20u64 {
        assert!(detector.detect_anomaly(&features).is_none());
        average = (average * (n - 1) as f64 + 100.0) / n as f64;
    }
    features.response_time_ms = 1000;
    average = (average * 20.0 + 1000.0) / 21.0;
    let anomaly = detector.detect_anomaly(&features).unwrap();
    assert_eq!(anomaly.anomaly_type, AnomalyType::UnusualTrafficPattern);
    let ratio = 1000.0 / average;
    assert_eq!(f(anomaly.severity), (ratio / 10.0f64).min(1.0));
    assert_eq!(
        description(&anomaly),
        format!("Unusual response time for path /api/test: 1000ms vs avg {}ms", average)
    );
    let stats = detector.get_statistics();
    assert_eq!((stats.monitored_paths, stats.monitored_ips), (1, 1));
    assert_eq!(stats.response_time_samples, 21);
}

#[test]
fn kept_samples_are_limited() {
    let mut detector = AnomalyDetector::new(default_config());
    let mut features = create_test_features();
    for i in 0..1005 {
        features.path = format!("/p{}", i % 7);
        features.status_code = if i % 2 == 0 { 404 } else { 200 };
        detector.update_statistics(&features, time());
    }
    let stats = detector.get_statistics();
    assert_eq!(stats.response_time_samples, 1000);
    assert_eq!(stats.monitored_paths, 7);
    assert_eq!(stats.monitored_ips, 1);
}

#[test]
fn thresholds_can_be_changed() {
    let mut detector = AnomalyDetector::new(default_config());
    let old = detector.get_statistics().thresholds;
    assert_eq!(f(old.response_time_percentile_99), 5000.0);
    assert_eq!(f(old.error_rate_threshold), 0.05);
    assert_eq!(f(old.request_rate_threshold), 1000.0);
    assert_eq!(f(old.unusual_pattern_threshold), 0.8);
    assert_eq!(f(old.security_threat_threshold), 0.9);
    detector.update_thresholds(AnomalyThresholds { response_time_percentile_99: b(50.0), ..old });
    assert!(detector.detect_anomaly(&create_test_features()).is_some());
}

#[test]
fn the_state_of_the_proxy_is_watched() {
    let detector = AnomalyDetector::new(default_config());
    let mut health = create_test_health();
    assert!(detector.detect_system_anomaly(&health).is_none());
    health.error_rate = b(0.0612);
    let a = detector.detect_system_anomaly(&health).unwrap();
    assert_eq!(a.anomaly_type, AnomalyType::ErrorSpike);
    assert_eq!(f(a.severity), 1.0);
    assert_eq!(description(&a), "Error rate spike: 6.12% (threshold: 5.00%)");
    assert_eq!(a.features.path, "/system/health");
    assert_eq!(a.features.method, "SYSTEM");
    let mut health = create_test_health();
    health.avg_response_time = b(6000.5);
    let a = detector.detect_system_anomaly(&health).unwrap();
    assert_eq!(a.anomaly_type, AnomalyType::HighLatency);
    assert_eq!(
        description(&a),
        "High average response time: 6000.50ms (threshold: 5000.00ms)"
    );
    let mut health = create_test_health();
    health.upstream_health =
        vec![("a".to_string(), false), ("b".to_string(), true), ("c".to_string(), false)];
    let a = detector.detect_system_anomaly(&health).unwrap();
    assert_eq!(a.anomaly_type, AnomalyType::ResourceExhaustion);
    assert_eq!(f(a.severity), 2.0 / 3.0);
    assert_eq!(description(&a), "Multiple upstream services unhealthy: 2/3");
    health.upstream_health.pop();
    assert!(detector.detect_system_anomaly(&health).is_none());
}

#[test]
fn test_error_rate_rule() {
    let engine = DecisionEngine::new(default_config());
    let mut health = create_test_health();
    health.error_rate = b(0.06);
    let decision = engine.analyze_health(&health);
    assert!(decision.is_some());
    let decision = decision.unwrap();
    assert!(matches!(decision.decision_type, DecisionType::CircuitBreakerOpen));
    assert_eq!(
        decision.reasoning,
        "Rule 'High Error Rate' triggered based on system health"
    );
    assert_eq!(f(decision.confidence), 0.9);
    assert_eq!(decision.actions.len(), 2);
}

#[test]
fn test_response_time_rule() {
    let engine = DecisionEngine::new(default_config());
    let mut health = create_test_health();
    health.avg_response_time = b(6000.0);
    let decision = engine.analyze_health(&health);
    assert!(decision.is_some());
    let decision = decision.unwrap();
    assert!(matches!(decision.decision_type, DecisionType::AdjustRateLimit));
}

#[test]
fn test_no_rule_triggered() {
    let engine = DecisionEngine::new(default_config());
    let health = create_test_health();
    let decision = engine.analyze_health(&health);
    assert!(decision.is_none());
}

#[test]
fn an_unhealthy_service_reroutes_traffic() {
    let engine = DecisionEngine::new(default_config());
    let mut health = create_test_health();
    health.upstream_health[0].1 = false;
    let decision = engine.analyze_health(&health).unwrap();
    assert_eq!(decision.decision_type, DecisionType::RouteTraffic);
    assert_eq!(f(decision.confidence), 0.95);
    health.upstream_health[0].0 = "other".to_string();
    assert!(engine.analyze_health(&health).is_none());
}

fn rule(name: &str, condition: Condition) -> DecisionRule {
    DecisionRule {
        name: name.to_string(),
        condition,
        decision_type: DecisionType::ScaleUp,
        actions: vec![],
        confidence: b(0.5),
        enabled: true,
    }
}

#[test]
fn conditions_are_put_together() {
    let decides = |condition: Condition| {
        let mut engine = DecisionEngine::new(default_config());
        engine.add_rule(rule("mine", condition));
        engine.analyze_health(&create_test_health()).is_some()
    };
    assert!(decides(Condition::RequestRateAbove(999)));
    assert!(!decides(Condition::RequestRateAbove(1000)));
    assert!(decides(Condition::And(vec![])));
    assert!(!decides(Condition::Or(vec![])));
    assert!(!decides(Condition::AnomalyDetected(AnomalyType::ErrorSpike)));
    let yes = || Condition::RequestRateAbove(1);
    let no = || Condition::RequestRateAbove(u64::MAX);
    assert!(!decides(Condition::And(vec![yes(), no()])));
    assert!(decides(Condition::Or(vec![no(), Condition::And(vec![yes(), yes()])])));
    assert!(!decides(Condition::UpstreamUnhealthy("default".to_string())));
    assert!(!decides(Condition::ErrorRateAbove(b(f64::NAN))));
}

#[test]
fn rules_are_added_switched_and_removed() {
    let mut engine = DecisionEngine::new(default_config());
    let names: Vec<&str> = engine.get_rules().iter().map(|r| r.name.as_str()).collect();
    assert_eq!(
        names,
        vec!["High Error Rate", "High Response Time", "Upstream Unhealthy", "Critical System State"]
    );
    assert_eq!(f(engine.get_rules()[3].confidence), 0.99);
    let mut health = create_test_health();
    health.error_rate = b(0.5);
    health.avg_response_time = b(20000.0);
    assert!(engine.disable_rule("High Error Rate"));
    assert_eq!(
        engine.analyze_health(&health).unwrap().decision_type,
        DecisionType::AdjustRateLimit
    );
    assert!(engine.disable_rule("High Response Time"));
    assert_eq!(engine.analyze_health(&health).unwrap().decision_type, DecisionType::SecurityAlert);
    assert!(engine.enable_rule("High Error Rate"));
    assert_eq!(
        engine.analyze_health(&health).unwrap().decision_type,
        DecisionType::CircuitBreakerOpen
    );
    assert!(!engine.enable_rule("nothing"));
    assert!(!engine.disable_rule("nothing"));
    engine.add_rule(rule("mine", Condition::And(vec![])));
    assert_eq!(engine.get_rules().len(), 5);
    assert!(engine.remove_rule("mine"));
    assert!(!engine.remove_rule("mine"));
    assert_eq!(engine.get_rules().len(), 4);
}

#[test]
fn every_anomaly_has_an_answer() {
    let engine = DecisionEngine::new(default_config());
    let answer = |anomaly_type: AnomalyType| {
        let d = engine
            .handle_anomaly(&Anomaly {
                anomaly_type,
                severity: b(0.4),
                description: "D".to_string(),
                features: create_test_features(),
            })
            .unwrap();
        assert_eq!(d.reasoning, "Anomaly detected: D");
        assert_eq!(f(d.confidence), 0.4);
        let alert = match d.actions.last().unwrap() {
            Action::AlertOperator { message, severity } => (message.clone(), *severity),
            _ => panic!("no alert"),
        };
        (d.decision_type, d.actions.len(), alert)
    };
    assert_eq!(
        answer(AnomalyType::HighLatency),
        (
            DecisionType::AdjustRateLimit,
            2,
            ("High latency detected: D".to_string(), AlertSeverity::Medium)
        )
    );
    assert_eq!(
        answer(AnomalyType::UnusualTrafficPattern),
        (
            DecisionType::SecurityAlert,
            2,
            ("Unusual traffic pattern: D".to_string(), AlertSeverity::High)
        )
    );
    assert_eq!(
        answer(AnomalyType::ErrorSpike),
        (
            DecisionType::CircuitBreakerOpen,
            2,
            ("Error spike detected: D".to_string(), AlertSeverity::High)
        )
    );
    assert_eq!(
        answer(AnomalyType::SecurityThreat),
        (
            DecisionType::BlockTraffic,
            2,
            ("Security threat detected: D".to_string(), AlertSeverity::Critical)
        )
    );
    assert_eq!(
        answer(AnomalyType::ResourceExhaustion),
        (
            DecisionType::ScaleUp,
            1,
            ("Resource exhaustion: D".to_string(), AlertSeverity::Critical)
        )
    );
}

#[test]
fn test_learning_engine_creation() {
    let engine = LearningEngine::new(default_config());
    let models = engine.get_model_info();
    assert_eq!(models.len(), 1);
    assert!(matches!(models[0].model_type, ModelType::LogisticRegression));
}

#[test]
fn test_feature_extraction() {
    let engine = LearningEngine::new(default_config());
    let features = create_test_features();
    let feature_vector = engine.extract_feature_vector(&features);
    assert_eq!(feature_vector.len(), 10);
    assert_eq!(f(feature_vector[0]), 1.0);
    let rest: Vec<f64> = feature_vector[1..].iter().map(|x| f(*x)).collect();
    assert_eq!(rest, vec![0.0, 0.0, 0.0, 0.0, 1.0, 0.0, 0.0, 0.0, 0.09]);
}

#[test]
fn test_model_update() {
    let mut config = ProxyConfig::default_config();
    config.ai.learning_enabled = true;
    let mut engine = LearningEngine::new(Arc::new(config));
    let features = create_test_features();
    engine.update_model(&features);
    let (buffer_size, _) = engine.get_training_stats();
    assert_eq!(buffer_size, 1);
}

#[test]
fn nothing_is_learned_when_learning_is_off() {
    let mut config = ProxyConfig::default_config();
    config.ai.learning_enabled = false;
    let mut engine = LearningEngine::new(Arc::new(config));
    assert!(!engine.update_model(&create_test_features()));
    assert_eq!(engine.get_training_stats().0, 0);
    assert_eq!(engine.get_training_stats().1.sample_count, 0);
}

/// Means and deviations as the machine computes them.
struct Stats {
    mean: f64,
    std: f64,
    count: usize,
}

impl Stats {
    fn add(&mut self, x: f64) {
        let n = self.count as f64;
        self.count += 1;
        let new_n = self.count as f64;
        let delta = x - self.mean;
        self.mean += delta / new_n;
        let delta2 = x - self.mean;
        self.std = ((n * (self.std * self.std) + delta * delta2) / new_n).sqrt();
    }
}

#[test]
fn statistics_are_those_of_the_machine() {
    let mut engine = LearningEngine::new(default_config());
    let mut expected = Stats { mean: 0.0, std: 0.0, count: 0 };
    let mut features = create_test_features();
    for i in 0..300u64 {
        features.response_time_ms = 50 + (i * 37) % 101;
        engine.update_model(&features);
        expected.add(features.response_time_ms as f64);
        let (_, stats) = engine.get_training_stats();
        assert_eq!(f(stats.response_time_mean), expected.mean);
        assert_eq!(f(stats.response_time_std), expected.std);
        assert_eq!(f(stats.request_size_mean), 1024.0);
        assert_eq!(f(stats.request_size_std), 0.0);
    }
    features.response_time_ms = 500;
    let vector = engine.extract_feature_vector(&features);
    assert_eq!(f(vector[1]), (500.0 - expected.mean) / expected.std);
    let (_, stats) = engine.get_training_stats();
    assert!(stats.is_anomaly_heuristic(&features));
    features.response_time_ms = 100;
    assert!(!stats.is_anomaly_heuristic(&features));
    features.status_code = 500;
    assert!(stats.is_anomaly_heuristic(&features));
    features.status_code = 499;
    assert!(!stats.is_anomaly_heuristic(&features));
}

#[test]
fn few_requests_are_all_ordinary() {
    let mut engine = LearningEngine::new(default_config());
    let mut features = create_test_features();
    features.status_code = 500;
    for _ in 0..99 {
        engine.update_model(&features);
    }
    let (_, stats) = engine.get_training_stats();
    assert!(!stats.is_anomaly_heuristic(&features));
    engine.update_model(&features);
    let (_, stats) = engine.get_training_stats();
    assert!(stats.is_anomaly_heuristic(&features));
}

fn powers(training: &Training) -> Vec<Binary64> {
    training.exponents().iter().map(|x| b(f(*x).exp())).collect()
}

fn train(engine: &mut LearningEngine) -> bool {
    let mut training = engine.retrain_models().unwrap();
    while !training.is_done() {
        let p = powers(&training);
        training.step(&p);
    }
    let p = powers(&training);
    engine.adopt(training, &p)
}

fn numbered(i: u64) -> RequestFeatures {
    let mut features = create_test_features();
    features.response_time_ms = 90 + i % 21;
    if i % 10 == 9 && i > 200 {
        features.status_code = 503;
        features.method = "POST".to_string();
        features.response_time_ms = 400;
    }
    features
}

#[test]
fn models_are_trained_as_the_machine_would() {
    let mut engine = LearningEngine::new(default_config());
    assert!(engine.retrain_models().is_none());
    let mut due = Vec::new();
    for i in 0..1000u64 {
        if engine.update_model(&numbered(i)) {
            due.push(i);
        }
    }
    assert_eq!(due, vec![999]);
    // The same training on doubles.
    let mut shadow = LearningEngine::new(default_config());
    let mut labels: Vec<f64> = Vec::new();
    for i in 0..1000u64 {
        shadow.update_model(&numbered(i));
        let (_, stats) = shadow.get_training_stats();
        labels.push(if stats.is_anomaly_heuristic(&numbered(i)) { 1.0 } else { 0.0 });
    }
    let rows: Vec<Vec<f64>> = (0..1000u64)
        .map(|i| engine.extract_feature_vector(&numbered(i)).iter().map(|x| f(*x)).collect())
        .collect();
    let predict = |w: &Vec<f64>, x: &Vec<f64>| {
        let mut dot = 0.0;
        for i in 0..10 {
            dot += w[i] * x[i];
        }
        1.0 / (1.0 + (-dot as f64).exp())
    };
    let mut w = vec![0.0f64; 10];
    for _ in 0..100 {
        let mut g = vec![0.0f64; 10];
        for (x, label) in rows.iter().zip(labels.iter()) {
            let error = predict(&w, x) - label;
            for i in 0..10 {
                g[i] += error * x[i] * 1.0;
            }
        }
        for i in 0..10 {
            w[i] -= 0.01 * g[i] / 1000.0;
        }
    }
    let mut correct = 0;
    for (x, label) in rows.iter().zip(labels.iter()) {
        let class: f64 = if predict(&w, x) > 0.5 { 1.0 } else { 0.0 };
        if (class - label).abs() < 0.1 {
            correct += 1;
        }
    }
    assert!(train(&mut engine));
    let model = &engine.get_model_info()[0];
    let trained: Vec<f64> = model.parameters.iter().map(|x| f(*x)).collect();
    assert_eq!(trained, w);
    assert_eq!(f(model.accuracy), correct as f64 / 1000.0);
    assert_eq!(model.training_samples, 1000);
    assert!(!train(&mut engine));
}

#[test]
fn predictions_come_from_the_model() {
    let engine = LearningEngine::new(default_config());
    match engine.predict_anomaly(&create_test_features()) {
        Prediction::Logistic { exponent } => {
            assert_eq!(f(exponent), 0.0);
            assert_eq!(f(learning::logistic_regression_predict(b(f(exponent).exp()))), 0.5);
        }
        Prediction::Value(_) => panic!("no logistic model"),
    }
    let w = vec![b(1.0), b(2.0), b(3.0)];
    let x = vec![b(0.5), b(0.25)];
    assert_eq!(f(learning::linear_regression_predict(&w, &x)), 1.0);
    assert_eq!(f(learning::linear_regression_predict(&vec![], &x)), 0.0);
}

#[test]
fn kept_requests_are_limited() {
    let mut engine = LearningEngine::new(default_config());
    let features = create_test_features();
    let mut due = 0;
    for _ in 0..10_500 {
        if engine.update_model(&features) {
            due += 1;
        }
    }
    assert_eq!(engine.get_training_stats().0, 10_000);
    assert_eq!(due, 10 + 500);
}

#[test]
fn features_are_read_from_request_and_reply() {
    let mut req =
        RequestHead::new("PUT".to_string(), "/p".to_string(), Some("/p?q".to_string()));
    let mut resp = Reply::new(404, "");
    let features = AiAgent::extract_features(&req, &resp, 17);
    assert_eq!(features.method, "PUT");
    assert_eq!(features.path, "/p");
    assert_eq!(features.status_code, 404);
    assert_eq!(features.response_time_ms, 17);
    assert_eq!((features.request_size, features.response_size), (0, 0));
    assert_eq!(features.user_agent, "");
    assert!(features.timestamp.seconds > 1_600_000_000);
    http::set_field(&mut req.headers, "content-length", "123");
    http::set_field(&mut req.headers, "user-agent", "curl/8");
    http::set_field(&mut resp.headers, "content-length", "x");
    let features = AiAgent::extract_features(&req, &resp, 17);
    assert_eq!((features.request_size, features.response_size), (123, 0));
    assert_eq!(features.user_agent, "curl/8");
}

#[test]
fn health_is_collected_from_the_metrics() {
    let mut metrics = ProxyMetrics::default();
    let health = AiAgent::collect_system_health(&metrics);
    assert_eq!((f(health.error_rate), f(health.avg_response_time)), (0.0, 0.0));
    metrics.total_requests = 3;
    metrics.failed_requests = 1;
    metrics.response_times = vec![10, 20, 25];
    metrics.upstream_health.insert("a", true);
    metrics.upstream_health.insert("b", false);
    let mut health = AiAgent::collect_system_health(&metrics);
    assert_eq!(f(health.error_rate), 1.0 / 3.0);
    assert_eq!(f(health.avg_response_time), 55.0 / 3.0);
    health.upstream_health.sort();
    assert_eq!(
        health.upstream_health,
        vec![("a".to_string(), true), ("b".to_string(), false)]
    );
    assert_eq!(health.active_connections, 0);
}

fn agent(autonomous: bool, threshold: f64) -> AiAgent {
    let mut config = ProxyConfig::default_config();
    config.ai.autonomous_mode = autonomous;
    config.ai.decision_threshold = b(threshold);
    AiAgent::new(Arc::new(config))
}

fn failing() -> ProxyMetrics {
    let mut metrics = ProxyMetrics::default();
    metrics.total_requests = 10;
    metrics.failed_requests = 5;
    metrics
}

#[test]
fn only_an_autonomous_agent_acts() {
    let mut a = agent(false, 0.8);
    assert!(matches!(a.analyze_system_health(&failing()).advice, Advice::Recommended(_)));
    assert!(a.get_decision_history().is_empty());
    let mut a = agent(true, 0.95);
    assert!(matches!(a.analyze_system_health(&failing()).advice, Advice::Withheld(_)));
    assert!(a.get_decision_history().is_empty());
    let mut a = agent(true, 0.9);
    match a.analyze_system_health(&failing()).advice {
        Advice::Executed(decision, execution) => {
            assert_eq!(decision.decision_type, DecisionType::CircuitBreakerOpen);
            assert_eq!(execution.report_to, None);
            assert_eq!(execution.notices[0].level, Level::Info);
            assert_eq!(
                execution.notices[0].text,
                "Opening circuit breaker for service default"
            );
            assert_eq!(execution.notices[1].level, Level::Warn);
            assert_eq!(
                execution.notices[1].text,
                "HIGH ALERT: High error rate detected, opening circuit breaker"
            );
        }
        _ => panic!("not executed"),
    }
    assert_eq!(a.get_decision_history().len(), 1);
    assert!(matches!(
        a.analyze_system_health(&ProxyMetrics::default()).advice,
        Advice::Nothing
    ));
}

#[test]
fn actions_are_announced() {
    let s = |x: &str| x.to_string();
    let line = |a: Action| {
        let n = AiAgent::execute_action(&a);
        (n.level, n.text)
    };
    assert_eq!(
        line(Action::AddEndpoint { service: s("s"), endpoint: s("e") }),
        (Level::Info, s("Adding endpoint e to service s"))
    );
    assert_eq!(
        line(Action::RemoveEndpoint { service: s("s"), endpoint: s("e") }),
        (Level::Info, s("Removing endpoint e from service s"))
    );
    assert_eq!(
        line(Action::AdjustWeight { service: s("s"), endpoint: s("e"), weight: 7 }),
        (Level::Info, s("Adjusting weight of endpoint e in service s to 7"))
    );
    assert_eq!(
        line(Action::UpdateRateLimit { requests_per_second: 9 }),
        (Level::Info, s("Updating rate limit to 9 requests/second"))
    );
    assert_eq!(
        line(Action::CloseCircuitBreaker { service: s("s") }),
        (Level::Info, s("Closing circuit breaker for service s"))
    );
    assert_eq!(
        line(Action::BlockIp { ip: s("i"), duration_seconds: 60 }),
        (Level::Warn, s("Blocking IP i for 60 seconds"))
    );
    for (severity, level, text) in [
        (AlertSeverity::Low, Level::Info, "LOW ALERT: m"),
        (AlertSeverity::Medium, Level::Warn, "MEDIUM ALERT: m"),
        (AlertSeverity::High, Level::Warn, "HIGH ALERT: m"),
        (AlertSeverity::Critical, Level::Error, "CRITICAL ALERT: m"),
    ] {
        assert_eq!(
            line(Action::AlertOperator { message: s("m"), severity }),
            (level, s(text))
        );
    }
}

#[test]
fn the_agent_looks_at_requests() {
    let mut a = agent(true, 0.8);
    let mut req = RequestHead::new("GET".to_string(), "/../x".to_string(), None);
    http::set_field(&mut req.headers, "user-agent", "x");
    let analysis = a.analyze_request_response(&req, &Reply::new(200, ""), 5);
    assert!(!analysis.training_due);
    let finding = analysis.finding.unwrap();
    let text = description(&finding);
    let anomaly = finding.described(text);
    let (decision, execution) = a.handle_anomaly(&anomaly).unwrap();
    assert_eq!(decision.decision_type, DecisionType::BlockTraffic);
    assert_eq!(execution.notices[0].text, "Blocking IP suspicious-ip for 3600 seconds");
    assert_eq!(a.get_decision_history().len(), 1);
    assert!(a.start_training().is_none());
}

#[test]
fn only_an_autonomous_agent_answers_and_alerts() {
    let mut a = agent(false, 0.8);
    let anomaly = Anomaly {
        anomaly_type: AnomalyType::SecurityThreat,
        severity: b(0.7),
        description: "x".to_string(),
        features: create_test_features(),
    };
    assert!(a.handle_anomaly(&anomaly).is_none());
    assert!(a.raise_alert("x").is_none());
    assert_eq!(a.get_decision_history().len(), 0);
    let mut a = agent(true, 0.8);
    assert!(a.handle_anomaly(&anomaly).is_some());
    assert!(a.raise_alert("x").is_some());
    assert_eq!(a.get_decision_history().len(), 2);
}

#[test]
fn decisions_are_remembered_up_to_a_limit() {
    let mut a = agent(true, 0.8);
    for i in 0..1003 {
        a.raise_alert(&format!("n{}", i));
    }
    let history = a.get_decision_history();
    assert_eq!(history.len(), 1000);
    assert_eq!(history[0].reasoning, "System anomaly detected: n3");
    assert_eq!(history[999].reasoning, "System anomaly detected: n1002");
    let (decision, execution) = a.raise_alert("Z").unwrap();
    assert_eq!(decision.decision_type, DecisionType::SecurityAlert);
    assert_eq!(f(decision.confidence), 0.9);
    assert_eq!(execution.notices[0].text, "HIGH ALERT: System anomaly: Z");
}

#[test]
fn an_agent_trains_its_model() {
    let mut a = agent(true, 0.8);
    for i in 0..150 {
        a.analyze_features(numbered(i));
    }
    let mut training = a.start_training().unwrap();
    assert_eq!(training.sample_count(), 150);
    let p = powers(&training);
    training.step(&p);
    assert!(!training.is_done());
    let p = powers(&training);
    assert_eq!(f(training.evaluate_model(&p)), 1.0);
    assert!(a.finish_training(training, &p));
    let mut again = a.start_training().unwrap();
    let p = powers(&again);
    again.step(&p);
    let p = powers(&again);
    assert!(!a.finish_training(again, &p));
}

#[test]
fn shares_stay_within_one() {
    let mut metrics = ProxyMetrics::default();
    for (failed, total, expected) in [(0, 7, 0.0), (7, 7, 1.0), (3, 4, 0.75)] {
        metrics.failed_requests = failed;
        metrics.total_requests = total;
        assert_eq!(f(AiAgent::collect_system_health(&metrics).error_rate), expected);
    }
    let detector = AnomalyDetector::new(default_config());
    let mut health = create_test_health();
    health.error_rate = b(1.0);
    assert_eq!(f(detector.detect_system_anomaly(&health).unwrap().severity), 1.0);
    health.error_rate = b(0.0);
    health.upstream_health = vec![("a".to_string(), false)];
    assert_eq!(f(detector.detect_system_anomaly(&health).unwrap().severity), 1.0);
}
