//! The agent: it looks at requests and at the health of the proxy, and acts on what it
//! finds.
use super::anomaly_detection;
use super::anomaly_detection::{AnomalyDetector, DetectorModel, Finding};
use super::decision_engine;
use super::decision_engine::{DecisionEngine, DecisionRule};
use super::learning;
use super::learning::{LearnerModel, LearningEngine, Training};
use crate::binary64;
use crate::binary64::Binary64;
use crate::clock;
use crate::clock::Timestamp;
use crate::config::ProxyConfig;
use crate::http;
use crate::http::{Reply, RequestHead};
use crate::precision;
use crate::proxy::server::ProxyMetrics;
use crate::text;
use std::sync::Arc;
use vstd::prelude::*;
use vstd::string::StringExecFns;

verus! {

#[derive(Debug)]
pub struct SystemHealth {
    pub total_requests: u64,
    pub successful_requests: u64,
    pub failed_requests: u64,
    /// In milliseconds.
    pub avg_response_time: Binary64,
    pub error_rate: Binary64,
    pub active_connections: u64,
    /// The services, and whether they are healthy.
    pub upstream_health: Vec<(String, bool)>,
    pub timestamp: Timestamp,
}

#[derive(Debug)]
pub struct AiDecision {
    pub decision_type: DecisionType,
    pub confidence: Binary64,
    pub reasoning: String,
    pub actions: Vec<Action>,
    pub timestamp: Timestamp,
}

#[derive(Debug, Clone, Copy, PartialEq, Eq, Structural)]
pub enum DecisionType {
    ScaleUp,
    ScaleDown,
    CircuitBreakerOpen,
    CircuitBreakerClose,
    RouteTraffic,
    BlockTraffic,
    AdjustRateLimit,
    HealthCheckAdjustment,
    LoadBalancingChange,
    SecurityAlert,
}

#[derive(Debug)]
pub enum Action {
    AddEndpoint { service: String, endpoint: String },
    RemoveEndpoint { service: String, endpoint: String },
    AdjustWeight { service: String, endpoint: String, weight: u32 },
    UpdateRateLimit { requests_per_second: u32 },
    OpenCircuitBreaker { service: String },
    CloseCircuitBreaker { service: String },
    BlockIp { ip: String, duration_seconds: u64 },
    AlertOperator { message: String, severity: AlertSeverity },
}

#[derive(Debug, Clone, Copy, PartialEq, Eq, Structural)]
pub enum AlertSeverity {
    Low,
    Medium,
    High,
    Critical,
}

#[derive(Debug, Clone, Copy, PartialEq, Eq, Structural)]
pub enum AnomalyType {
    HighLatency,
    UnusualTrafficPattern,
    ErrorSpike,
    SecurityThreat,
    ResourceExhaustion,
}

#[derive(Debug)]
pub struct RequestFeatures {
    pub method: String,
    pub path: String,
    pub status_code: u16,
    pub response_time_ms: u64,
    pub request_size: u64,
    pub response_size: u64,
    pub user_agent: String,
    pub timestamp: Timestamp,
}

#[derive(Debug)]
pub struct Anomaly {
    pub anomaly_type: AnomalyType,
    pub severity: Binary64,
    pub description: String,
    pub features: RequestFeatures,
}

impl Clone for Action {
    fn clone(&self) -> (r: Self)
        ensures
            r == *self,
    {
        match self {
            Action::AddEndpoint { service, endpoint } => Action::AddEndpoint {
                service: service.clone(),
                endpoint: endpoint.clone(),
            },
            Action::RemoveEndpoint { service, endpoint } => Action::RemoveEndpoint {
                service: service.clone(),
                endpoint: endpoint.clone(),
            },
            Action::AdjustWeight { service, endpoint, weight } => Action::AdjustWeight {
                service: service.clone(),
                endpoint: endpoint.clone(),
                weight: *weight,
            },
            Action::UpdateRateLimit { requests_per_second } => Action::UpdateRateLimit {
                requests_per_second: *requests_per_second,
            },
            Action::OpenCircuitBreaker { service } => Action::OpenCircuitBreaker {
                service: service.clone(),
            },
            Action::CloseCircuitBreaker { service } => Action::CloseCircuitBreaker {
                service: service.clone(),
            },
            Action::BlockIp { ip, duration_seconds } => Action::BlockIp {
                ip: ip.clone(),
                duration_seconds: *duration_seconds,
            },
            Action::AlertOperator { message, severity } => Action::AlertOperator {
                message: message.clone(),
                severity: *severity,
            },
        }
    }
}

/// The same actions again.
pub fn copy_actions(actions: &Vec<Action>) -> (r: Vec<Action>)
    ensures
        r@ == actions@,
{
    let mut r: Vec<Action> = Vec::new();
    let mut i: usize = 0;
    while i < actions.len()
        invariant
            i <= actions@.len(),
            r@ == actions@.take(i as int),
        decreases actions@.len() - i,
    {
        r.push(actions[i].clone());
        i = i + 1;
        assert(r@ =~= actions@.take(i as int));
    }
    assert(r@ =~= actions@);
    r
}

impl AiDecision {
    /// The two decisions say the same.
    pub open spec fn same_as(self, other: AiDecision) -> bool {
        &&& self.decision_type == other.decision_type
        &&& self.confidence == other.confidence
        &&& self.reasoning@ == other.reasoning@
        &&& self.actions@ == other.actions@
        &&& self.timestamp == other.timestamp
    }
}

impl Clone for AiDecision {
    fn clone(&self) -> (r: Self)
        ensures
            r.same_as(*self),
    {
        AiDecision {
            decision_type: self.decision_type,
            confidence: self.confidence,
            reasoning: self.reasoning.clone(),
            actions: copy_actions(&self.actions),
            timestamp: self.timestamp,
        }
    }
}

impl Clone for RequestFeatures {
    fn clone(&self) -> (r: Self)
        ensures
            r == *self,
    {
        RequestFeatures {
            method: self.method.clone(),
            path: self.path.clone(),
            status_code: self.status_code,
            response_time_ms: self.response_time_ms,
            request_size: self.request_size,
            response_size: self.response_size,
            user_agent: self.user_agent.clone(),
            timestamp: self.timestamp,
        }
    }
}

/// How many decisions are kept.
pub const KEPT_DECISIONS: usize = 1000;

#[derive(Debug, Clone, Copy, PartialEq, Eq, Structural)]
pub enum Level {
    Info,
    Warn,
    Error,
}

/// A line for the log.
#[derive(Debug)]
pub struct Notice {
    pub level: Level,
    pub text: String,
}

/// What is left to do about a decision that is carried out: lines for the log, and the
/// service that is told of it.
pub struct Execution {
    pub notices: Vec<Notice>,
    pub report_to: Option<String>,
}

/// What the rules come to.
pub enum Advice {
    Nothing,
    /// A decision that is not sure enough.
    Withheld(AiDecision),
    /// A decision that is carried out.
    Executed(AiDecision, Execution),
    /// A decision that is only recommended.
    Recommended(AiDecision),
}

/// What a look at the proxy came to.
pub struct HealthAnalysis {
    pub health: SystemHealth,
    pub advice: Advice,
    pub finding: Option<Finding>,
}

/// What a look at a request came to.
pub struct RequestAnalysis {
    pub features: RequestFeatures,
    pub finding: Option<Finding>,
    pub training_due: bool,
}

/// The first `n` times, added up in order.
pub open spec fn total_time(times: Seq<u64>, n: nat) -> Binary64
    decreases n,
{
    if n == 0 {
        Binary64 { bits: 0 }
    } else {
        total_time(times, (n - 1) as nat).sum(Binary64::of_nat(times[n - 1] as nat))
    }
}

/// The mean of the times; zero, where there are none.
pub open spec fn average_time(times: Seq<u64>) -> Binary64 {
    if times.len() > 0 {
        total_time(times, times.len()).quotient(Binary64::of_nat(times.len()))
    } else {
        Binary64 { bits: 0 }
    }
}

/// The share of requests that failed; zero, where there were none.
pub open spec fn failure_share(failed: u64, total: u64) -> Binary64 {
    if total > 0 {
        Binary64::of_nat(failed as nat).quotient(Binary64::of_nat(total as nat))
    } else {
        Binary64 { bits: 0 }
    }
}

/// The list holds every name once, with what it stands for.
pub open spec fn lists(list: Seq<(String, bool)>, map: Map<Seq<char>, bool>) -> bool {
    &&& forall|i: int|
        0 <= i < list.len() ==> map.contains_key((#[trigger] list[i]).0@) && map[list[i].0@]
            == list[i].1
    &&& forall|name: Seq<char>| #[trigger]
        map.contains_key(name) ==> exists|i: int|
            0 <= i < list.len() && (#[trigger] list[i]).0@ == name
    &&& forall|i: int, j: int|
        0 <= i < j < list.len() ==> (#[trigger] list[i]).0@ != (#[trigger] list[j]).0@
}

/// The health that the metrics show.
pub open spec fn is_health_of(h: SystemHealth, m: ProxyMetrics) -> bool {
    &&& h.total_requests == m.total_requests
    &&& h.successful_requests == m.successful_requests
    &&& h.failed_requests == m.failed_requests
    &&& h.error_rate == failure_share(m.failed_requests, m.total_requests)
    &&& h.avg_response_time == average_time(m.response_times@)
    &&& h.active_connections == 0
    &&& lists(h.upstream_health@, m.upstream_health@)
}

/// The size that a message says it has; zero, where it does not.
pub open spec fn stated_size(fields: Map<Seq<char>, Seq<Seq<u8>>>) -> u64 {
    match http::field_text(fields, "content-length"@) {
        Some(text) => match text::parsed(text) {
            Some(n) => n,
            None => 0,
        },
        None => 0,
    }
}

/// What a request and its reply came to.
pub open spec fn are_features_of(
    f: RequestFeatures,
    req: RequestHead,
    resp: Reply,
    response_time_ms: u64,
) -> bool {
    &&& f.method@ == req@.method
    &&& f.path@ == req@.path
    &&& f.status_code == resp@.status
    &&& f.response_time_ms == response_time_ms
    &&& f.request_size == stated_size(req@.fields)
    &&& f.response_size == stated_size(resp@.fields)
    &&& f.user_agent@ == (match http::field_text(req@.fields, "user-agent"@) {
        Some(text) => text,
        None => ""@,
    })
}

/// How an alert is announced.
pub open spec fn alert_line(severity: AlertSeverity, message: Seq<char>) -> (Level, Seq<char>) {
    match severity {
        AlertSeverity::Critical => (Level::Error, "CRITICAL ALERT: "@ + message),
        AlertSeverity::High => (Level::Warn, "HIGH ALERT: "@ + message),
        AlertSeverity::Medium => (Level::Warn, "MEDIUM ALERT: "@ + message),
        AlertSeverity::Low => (Level::Info, "LOW ALERT: "@ + message),
    }
}

/// The line of the log for an action.
pub open spec fn action_line(a: Action) -> (Level, Seq<char>) {
    match a {
        Action::AddEndpoint { service, endpoint } => (
            Level::Info,
            "Adding endpoint "@ + endpoint@ + " to service "@ + service@,
        ),
        Action::RemoveEndpoint { service, endpoint } => (
            Level::Info,
            "Removing endpoint "@ + endpoint@ + " from service "@ + service@,
        ),
        Action::AdjustWeight { service, endpoint, weight } => (
            Level::Info,
            "Adjusting weight of endpoint "@ + endpoint@ + " in service "@ + service@ + " to "@
                + text::decimal(weight as nat),
        ),
        Action::UpdateRateLimit { requests_per_second } => (
            Level::Info,
            "Updating rate limit to "@ + text::decimal(requests_per_second as nat)
                + " requests/second"@,
        ),
        Action::OpenCircuitBreaker { service } => (
            Level::Info,
            "Opening circuit breaker for service "@ + service@,
        ),
        Action::CloseCircuitBreaker { service } => (
            Level::Info,
            "Closing circuit breaker for service "@ + service@,
        ),
        Action::BlockIp { ip, duration_seconds } => (
            Level::Warn,
            "Blocking IP "@ + ip@ + " for "@ + text::decimal(duration_seconds as nat)
                + " seconds"@,
        ),
        Action::AlertOperator { message, severity } => alert_line(severity, message@),
    }
}

/// What is left to do about a decision.
pub open spec fn is_execution_of(x: Execution, d: AiDecision, c: ProxyConfig) -> bool {
    &&& x.notices@.len() == d.actions@.len()
    &&& forall|i: int|
        0 <= i < x.notices@.len() ==> ((#[trigger] x.notices@[i]).level, x.notices@[i].text@)
            == action_line(d.actions@[i])
    &&& x.report_to is Some == c.ai.endpoint is Some
    &&& x.report_to is Some ==> x.report_to->0@ == c.ai.endpoint->0@
}

/// The decisions that are kept, after one more.
pub open spec fn remembers(before: Seq<AiDecision>, d: AiDecision, after: Seq<AiDecision>) -> bool {
    let all = before.push(d);
    if all.len() > KEPT_DECISIONS {
        after == all.skip(1)
    } else {
        after == all
    }
}

/// The decision about an anomaly of the proxy itself, of which this text tells.
pub open spec fn is_system_alert(d: AiDecision, anomaly: Seq<char>) -> bool {
    &&& d.timestamp.well_formed()
    &&& d.decision_type == DecisionType::SecurityAlert
    &&& d.confidence.bits == 0x3FEC_CCCC_CCCC_CCCD
    &&& d.reasoning@ == "System anomaly detected: "@ + anomaly
    &&& d.actions@.len() == 1
    &&& decision_engine::is_alert(
        d.actions@[0],
        "System anomaly: "@ + anomaly,
        AlertSeverity::High,
    )
}

/// A decision is carried out, or recommended, if it is sure enough.
pub open spec fn is_sure(d: AiDecision, c: ProxyConfig) -> bool {
    !d.confidence.nan() && !c.ai.decision_threshold.nan() && !c.ai.decision_threshold.above(
        d.confidence,
    )
}

pub struct AiAgent {
    config: Arc<ProxyConfig>,
    decision_engine: DecisionEngine,
    learning_engine: LearningEngine,
    anomaly_detector: AnomalyDetector,
    decision_history: Vec<AiDecision>,
}

impl AiAgent {
    pub closed spec fn config(&self) -> ProxyConfig {
        *self.config
    }

    pub closed spec fn rules(&self) -> Seq<DecisionRule> {
        self.decision_engine@
    }

    pub closed spec fn detector(&self) -> DetectorModel {
        self.anomaly_detector@
    }

    pub closed spec fn learner(&self) -> LearnerModel {
        self.learning_engine@
    }

    /// The decisions that were carried out, the latest at the end.
    pub closed spec fn history(&self) -> Seq<AiDecision> {
        self.decision_history@
    }

    pub closed spec fn well_formed(&self) -> bool {
        &&& self.anomaly_detector.well_formed()
        &&& self.learning_engine.config() == *self.config
        &&& self.learning_engine@.models.len() > 0
        &&& self.learning_engine@.buffer.len() <= learning::KEPT_REQUESTS
        &&& self.decision_history@.len() <= KEPT_DECISIONS
    }

    /// Everything but the history is as it was.
    pub open spec fn differs_in_history(&self, before: AiAgent) -> bool {
        &&& self.config() == before.config()
        &&& self.rules() == before.rules()
        &&& self.detector() == before.detector()
        &&& self.learner() == before.learner()
    }

    pub fn new(config: Arc<ProxyConfig>) -> (r: Self)
        ensures
            r.well_formed(),
            r.config() == *config,
            decision_engine::are_default_rules(r.rules()),
            r.detector() == (DetectorModel {
                thresholds: anomaly_detection::default_thresholds(),
                response_times: Seq::empty(),
                paths: Map::empty(),
                clients: Map::empty(),
            }),
            r.learner().models.len() == 1,
            learning::is_first_model(r.learner().models[0]),
            r.learner().buffer.len() == 0,
            r.learner().stats == learning::no_statistics(),
            r.history() == Seq::<AiDecision>::empty(),
    {
        AiAgent {
            decision_engine: DecisionEngine::new(config.clone()),
            learning_engine: LearningEngine::new(config.clone()),
            anomaly_detector: AnomalyDetector::new(config.clone()),
            decision_history: Vec::new(),
            config,
        }
    }

    /// What a look at a request came to, and what the agent knows after it.
    pub open spec fn looked_at(&self, before: AiAgent, r: RequestAnalysis) -> bool {
        &&& self.config() == before.config()
        &&& self.rules() == before.rules()
        &&& self.history() == before.history()
        &&& exists|now: Timestamp|
            now.well_formed() && self.detector() == #[trigger] anomaly_detection::observed(
                before.detector(),
                r.features,
                now,
            )
        &&& anomaly_detection::finding(r.finding) == anomaly_detection::found(
            self.detector(),
            r.features,
            text::lowered(r.features.path@),
            text::lowered(r.features.user_agent@),
        )
        &&& r.finding matches Some(f) ==> f.features == r.features
        &&& before.config().ai.learning_enabled ==> self.learner() == learning::learned(
            before.learner(),
            r.features,
        ) && r.training_due == learning::is_training_due(self.learner())
        &&& !before.config().ai.learning_enabled ==> self.learner() == before.learner()
            && !r.training_due
    }

    /// Looks at a request and its reply: whether something is out of the ordinary, and what
    /// there is to learn from them.
    pub fn analyze_request_response(
        &mut self,
        req: &RequestHead,
        resp: &Reply,
        response_time_ms: u64,
    ) -> (r: RequestAnalysis)
        requires
            old(self).well_formed(),
        ensures
            final(self).well_formed(),
            are_features_of(r.features, *req, *resp, response_time_ms),
            final(self).looked_at(*old(self), r),
    {
        self.analyze_features(Self::extract_features(req, resp, response_time_ms))
    }

    /// Looks at what a request and its reply came to.
    pub fn analyze_features(&mut self, features: RequestFeatures) -> (r: RequestAnalysis)
        requires
            old(self).well_formed(),
        ensures
            final(self).well_formed(),
            r.features == features,
            final(self).looked_at(*old(self), r),
    {
        let ghost before = self.detector();
        let finding: Option<Finding> = self.anomaly_detector.detect_anomaly(&features);
        proof {
            let now = choose|now: Timestamp|
                now.well_formed() && self.anomaly_detector@
                    == #[trigger] anomaly_detection::observed(before, features, now);
            assert(self.detector() == anomaly_detection::observed(before, features, now));
        }
        let training_due: bool = self.learning_engine.update_model(&features);
        RequestAnalysis { features, finding, training_due }
    }

    /// What an agent does about an anomaly, and the history after it: a decision is carried out
    /// and remembered exactly if the agent acts on its own.
    pub open spec fn acts(
        &self,
        done: Option<(AiDecision, Execution)>,
        history: Seq<AiDecision>,
    ) -> bool {
        match done {
            Some((d, x)) => {
                &&& self.config().ai.autonomous_mode
                &&& is_execution_of(x, d, self.config())
                &&& exists|e: AiDecision|
                    e.same_as(d) && #[trigger] remembers(self.history(), e, history)
            },
            None => !self.config().ai.autonomous_mode && history == self.history(),
        }
    }

    /// Decides what to do about an anomaly of a request and does it, if the agent acts on its
    /// own. Otherwise nothing is decided.
    pub fn handle_anomaly(&mut self, anomaly: &Anomaly) -> (r: Option<(AiDecision, Execution)>)
        requires
            old(self).well_formed(),
        ensures
            final(self).well_formed(),
            final(self).differs_in_history(*old(self)),
            old(self).acts(r, final(self).history()),
            r matches Some(done) ==> decision_engine::is_answer(done.0, *anomaly),
    {
        if !self.config.ai.autonomous_mode {
            return None;
        }
        let decision: Option<AiDecision> = self.decision_engine.handle_anomaly(anomaly);
        match decision {
            Some(decision) => {
                let execution: Execution = self.execute_decision(&decision);
                Some((decision, execution))
            },
            None => None,
        }
    }

    /// Looks at the health of the proxy. What the rules come to is carried out if the agent
    /// acts on its own, and recommended otherwise.
    pub fn analyze_system_health(&mut self, metrics: &ProxyMetrics) -> (r: HealthAnalysis)
        requires
            old(self).well_formed(),
            metrics.well_formed(),
        ensures
            final(self).well_formed(),
            final(self).differs_in_history(*old(self)),
            is_health_of(r.health, *metrics),
            old(self).advises(r.health, r.advice, final(self).history()),
            anomaly_detection::finding(r.finding) == anomaly_detection::system_finding(
                old(self).detector().thresholds,
                r.health,
            ),
    {
        let health: SystemHealth = Self::collect_system_health(metrics);
        let advice: Advice = self.advise(&health);
        let finding: Option<Finding> = self.anomaly_detector.detect_system_anomaly(&health);
        HealthAnalysis { health, advice, finding }
    }

    /// What the rules come to, and the history after it.
    pub open spec fn advises(
        &self,
        h: SystemHealth,
        advice: Advice,
        history: Seq<AiDecision>,
    ) -> bool {
        match advice {
            Advice::Nothing => {
                &&& forall|i: int|
                    0 <= i < self.rules().len() ==> !decision_engine::is_triggered(
                        #[trigger] self.rules()[i],
                        h,
                    )
                &&& history == self.history()
            },
            Advice::Withheld(d) => {
                &&& self.is_rules_decision(h, d)
                &&& !is_sure(d, self.config())
                &&& history == self.history()
            },
            Advice::Executed(d, x) => {
                &&& self.is_rules_decision(h, d)
                &&& is_sure(d, self.config())
                &&& self.config().ai.autonomous_mode
                &&& is_execution_of(x, d, self.config())
                &&& exists|e: AiDecision|
                    e.same_as(d) && #[trigger] remembers(self.history(), e, history)
            },
            Advice::Recommended(d) => {
                &&& self.is_rules_decision(h, d)
                &&& is_sure(d, self.config())
                &&& !self.config().ai.autonomous_mode
                &&& history == self.history()
            },
        }
    }

    /// The decision of the first rule that is triggered.
    pub open spec fn is_rules_decision(&self, h: SystemHealth, d: AiDecision) -> bool {
        exists|i: int| #[trigger]
            decision_engine::is_first_triggered(self.rules(), h, i)
                && decision_engine::is_decision_of(d, self.rules()[i])
    }

    /// Asks the rules about this health.
    pub fn advise(&mut self, health: &SystemHealth) -> (r: Advice)
        requires
            old(self).well_formed(),
        ensures
            final(self).well_formed(),
            final(self).differs_in_history(*old(self)),
            old(self).advises(*health, r, final(self).history()),
    {
        let decision: Option<AiDecision> = self.decision_engine.analyze_health(health);
        assert(self.rules() == self.decision_engine@);
        match decision {
            Some(decision) => {
                assert(self.is_rules_decision(*health, decision));
                if decision.confidence.at_least(self.config.ai.decision_threshold) {
                    if self.config.ai.autonomous_mode {
                        let execution: Execution = self.execute_decision(&decision);
                        Advice::Executed(decision, execution)
                    } else {
                        Advice::Recommended(decision)
                    }
                } else {
                    Advice::Withheld(decision)
                }
            },
            None => Advice::Nothing,
        }
    }

    /// Alerts the operator to an anomaly of the proxy itself, of which this text tells, if the
    /// agent acts on its own. Otherwise nothing is decided.
    pub fn raise_alert(&mut self, anomaly: &str) -> (r: Option<(AiDecision, Execution)>)
        requires
            old(self).well_formed(),
        ensures
            final(self).well_formed(),
            final(self).differs_in_history(*old(self)),
            old(self).acts(r, final(self).history()),
            r matches Some(done) ==> is_system_alert(done.0, anomaly@),
    {
        if !self.config.ai.autonomous_mode {
            return None;
        }
        let decision = AiDecision {
            decision_type: DecisionType::SecurityAlert,
            confidence: Binary64 { bits: 0x3FEC_CCCC_CCCC_CCCD },
            reasoning: text::join("System anomaly detected: ", anomaly),
            actions: vec![
                Action::AlertOperator {
                    message: text::join("System anomaly: ", anomaly),
                    severity: AlertSeverity::High,
                },
            ],
            timestamp: clock::utc_now(),
        };
        let execution: Execution = self.execute_decision(&decision);
        Some((decision, execution))
    }

    /// The health that the metrics show.
    pub fn collect_system_health(metrics: &ProxyMetrics) -> (r: SystemHealth)
        requires
            metrics.well_formed(),
        ensures
            is_health_of(r, *metrics),
            r.timestamp.well_formed(),
    {
        let zero: Binary64 = Binary64 { bits: 0 };
        let error_rate: Binary64 = if metrics.total_requests > 0 {
            Binary64::from_u64(metrics.failed_requests).over(
                Binary64::from_u64(metrics.total_requests),
            )
        } else {
            zero
        };
        let mut total: Binary64 = zero;
        let mut i: usize = 0;
        while i < metrics.response_times.len()
            invariant
                i <= metrics.response_times@.len(),
                total == total_time(metrics.response_times@, i as nat),
            decreases metrics.response_times@.len() - i,
        {
            total = total.plus(Binary64::from_u64(metrics.response_times[i]));
            i = i + 1;
        }
        let avg_response_time: Binary64 = if metrics.response_times.len() > 0 {
            total.over(Binary64::from_u64(metrics.response_times.len() as u64))
        } else {
            zero
        };
        SystemHealth {
            total_requests: metrics.total_requests,
            successful_requests: metrics.successful_requests,
            failed_requests: metrics.failed_requests,
            avg_response_time,
            error_rate,
            active_connections: 0,
            upstream_health: list_health(metrics),
            timestamp: clock::utc_now(),
        }
    }

    /// What a request and its reply came to.
    pub fn extract_features(req: &RequestHead, resp: &Reply, response_time_ms: u64) -> (r:
        RequestFeatures)
        ensures
            are_features_of(r, *req, *resp, response_time_ms),
            r.timestamp.well_formed(),
    {
        proof {
            reveal_strlit("user-agent");
        }
        RequestFeatures {
            method: req.method.clone(),
            path: req.path.clone(),
            status_code: resp.status,
            response_time_ms,
            request_size: read_size(&req.headers),
            response_size: read_size(&resp.headers),
            user_agent: match http::get_field(&req.headers, "user-agent") {
                Some(text) => text,
                None => "".to_string(),
            },
            timestamp: clock::utc_now(),
        }
    }

    /// Carries out a decision, and remembers it.
    pub fn execute_decision(&mut self, decision: &AiDecision) -> (r: Execution)
        requires
            old(self).well_formed(),
        ensures
            final(self).well_formed(),
            final(self).differs_in_history(*old(self)),
            exists|d: AiDecision|
                d.same_as(*decision) && #[trigger] remembers(
                    old(self).history(),
                    d,
                    final(self).history(),
                ),
            is_execution_of(r, *decision, old(self).config()),
    {
        let copy: AiDecision = decision.clone();
        let ghost kept = copy;
        let ghost all = self.decision_history@.push(copy);
        self.decision_history.push(copy);
        if self.decision_history.len() > KEPT_DECISIONS {
            self.decision_history.remove(0);
            assert(self.decision_history@ =~= all.skip(1));
        }
        assert(remembers(old(self).history(), kept, self.history()));
        let mut notices: Vec<Notice> = Vec::new();
        let mut i: usize = 0;
        while i < decision.actions.len()
            invariant
                i <= decision.actions@.len(),
                notices@.len() == i,
                forall|k: int|
                    0 <= k < i ==> ((#[trigger] notices@[k]).level, notices@[k].text@)
                        == action_line(decision.actions@[k]),
            decreases decision.actions@.len() - i,
        {
            notices.push(Self::execute_action(&decision.actions[i]));
            i = i + 1;
        }
        let report_to: Option<String> = match &self.config.ai.endpoint {
            Some(endpoint) => Some(endpoint.clone()),
            None => None,
        };
        Execution { notices, report_to }
    }

    /// Carries out an action: so far, by a line in the log.
    pub fn execute_action(action: &Action) -> (r: Notice)
        ensures
            (r.level, r.text@) == action_line(*action),
    {
        match action {
            Action::AddEndpoint { service, endpoint } => {
                let mut text: String = text::join("Adding endpoint ", endpoint.as_str());
                text.append(" to service ");
                text.append(service.as_str());
                Notice { level: Level::Info, text }
            },
            Action::RemoveEndpoint { service, endpoint } => {
                let mut text: String = text::join("Removing endpoint ", endpoint.as_str());
                text.append(" from service ");
                text.append(service.as_str());
                Notice { level: Level::Info, text }
            },
            Action::AdjustWeight { service, endpoint, weight } => {
                let mut text: String = text::join(
                    "Adjusting weight of endpoint ",
                    endpoint.as_str(),
                );
                text.append(" in service ");
                text.append(service.as_str());
                text.append(" to ");
                text.append(text::to_decimal(*weight as u64).as_str());
                Notice { level: Level::Info, text }
            },
            Action::UpdateRateLimit { requests_per_second } => {
                let mut text: String = text::join(
                    "Updating rate limit to ",
                    text::to_decimal(*requests_per_second as u64).as_str(),
                );
                text.append(" requests/second");
                Notice { level: Level::Info, text }
            },
            Action::OpenCircuitBreaker { service } => Notice {
                level: Level::Info,
                text: text::join("Opening circuit breaker for service ", service.as_str()),
            },
            Action::CloseCircuitBreaker { service } => Notice {
                level: Level::Info,
                text: text::join("Closing circuit breaker for service ", service.as_str()),
            },
            Action::BlockIp { ip, duration_seconds } => {
                let mut text: String = text::join("Blocking IP ", ip.as_str());
                text.append(" for ");
                text.append(text::to_decimal(*duration_seconds).as_str());
                text.append(" seconds");
                Notice { level: Level::Warn, text }
            },
            Action::AlertOperator { message, severity } => match severity {
                AlertSeverity::Critical => Notice {
                    level: Level::Error,
                    text: text::join("CRITICAL ALERT: ", message.as_str()),
                },
                AlertSeverity::High => Notice {
                    level: Level::Warn,
                    text: text::join("HIGH ALERT: ", message.as_str()),
                },
                AlertSeverity::Medium => Notice {
                    level: Level::Warn,
                    text: text::join("MEDIUM ALERT: ", message.as_str()),
                },
                AlertSeverity::Low => Notice {
                    level: Level::Info,
                    text: text::join("LOW ALERT: ", message.as_str()),
                },
            },
        }
    }

    /// Starts to train the model anew, if there is enough to train with.
    pub fn start_training(&self) -> (r: Option<Training>)
        ensures
            r is Some == learning::can_train(self.learner()),
            r matches Some(t) ==> t.well_formed() && t@ == learning::new_training(self.learner()),
    {
        self.learning_engine.retrain_models()
    }

    /// Takes over what a training came to, if it is better than what there is, where these are
    /// the powers of e to the exponents of the training.
    pub fn finish_training(&mut self, training: Training, powers: &Vec<Binary64>) -> (r: bool)
        requires
            old(self).well_formed(),
            training.well_formed(),
            powers@.len() == training@.rows.len(),
        ensures
            final(self).well_formed(),
            final(self).config() == old(self).config(),
            final(self).rules() == old(self).rules(),
            final(self).detector() == old(self).detector(),
            final(self).history() == old(self).history(),
            final(self).learner().buffer == old(self).learner().buffer,
            final(self).learner().stats == old(self).learner().stats,
            old(self).learner().models.len() > 0,
            r == learning::accuracy_of(training@.labels, powers@).above(
                old(self).learner().models[0].accuracy,
            ),
            !r ==> final(self).learner() == old(self).learner(),
            r ==> {
                &&& final(self).learner().models.len() == old(self).learner().models.len()
                &&& forall|i: int|
                    1 <= i < old(self).learner().models.len()
                        ==> #[trigger] final(self).learner().models[i]
                        == old(self).learner().models[i]
                &&& final(self).learner().models[0].model_type
                    == old(self).learner().models[0].model_type
                &&& final(self).learner().models[0].parameters@ == training@.parameters
                &&& final(self).learner().models[0].accuracy == learning::accuracy_of(
                    training@.labels,
                    powers@,
                )
                &&& final(self).learner().models[0].training_samples == training@.rows.len()
            },
    {
        self.learning_engine.adopt(training, powers)
    }

    pub fn get_decision_history(&self) -> (r: Vec<AiDecision>)
        ensures
            r@.len() == self.history().len(),
            forall|i: int| 0 <= i < r@.len() ==> (#[trigger] r@[i]).same_as(self.history()[i]),
    {
        let mut r: Vec<AiDecision> = Vec::new();
        let mut i: usize = 0;
        while i < self.decision_history.len()
            invariant
                i <= self.decision_history@.len(),
                r@.len() == i,
                forall|k: int| 0 <= k < i ==> (#[trigger] r@[k]).same_as(self.decision_history@[k]),
            decreases self.decision_history@.len() - i,
        {
            r.push(self.decision_history[i].clone());
            i = i + 1;
        }
        r
    }
}

fn read_size(headers: &hyper::HeaderMap) -> (r: u64)
    ensures
        r == stated_size(http::header_fields(*headers)),
{
    proof {
        reveal_strlit("content-length");
    }
    match http::get_field(headers, "content-length") {
        Some(text) => match text::parse_u64(text.as_str()) {
            Some(n) => n,
            None => 0,
        },
        None => 0,
    }
}

/// The services of the metrics, and whether they are healthy.
fn list_health(metrics: &ProxyMetrics) -> (r: Vec<(String, bool)>)
    requires
        metrics.well_formed(),
    ensures
        lists(r@, metrics.upstream_health@),
{
    let names: Vec<String> = metrics.upstream_health.names();
    let mut r: Vec<(String, bool)> = Vec::new();
    let mut i: usize = 0;
    while i < names.len()
        invariant
            i <= names@.len(),
            metrics.well_formed(),
            forall|k: int|
                0 <= k < names@.len() ==> metrics.upstream_health@.contains_key(
                    #[trigger] names@[k]@,
                ),
            r@.len() == i,
            forall|k: int|
                0 <= k < i ==> (#[trigger] r@[k]).0@ == names@[k]@ && r@[k].1
                    == metrics.upstream_health@[names@[k]@],
        decreases names@.len() - i,
    {
        let name: String = names[i].clone();
        let healthy: bool = match metrics.upstream_health.get(name.as_str()) {
            Some(healthy) => *healthy,
            None => false,
        };
        r.push((name, healthy));
        i = i + 1;
    }
    proof {
        assert forall|k: int| 0 <= k < r@.len() implies metrics.upstream_health@.contains_key(
            (#[trigger] r@[k]).0@,
        ) && metrics.upstream_health@[r@[k].0@] == r@[k].1 by {
            assert(names@[k]@ == r@[k].0@);
        }
        assert forall|name: Seq<char>| #[trigger]
            metrics.upstream_health@.contains_key(name) implies exists|k: int|
            0 <= k < r@.len() && (#[trigger] r@[k]).0@ == name by {
            let k = choose|k: int| 0 <= k < names@.len() && #[trigger] names@[k]@ == name;
            assert(r@[k].0@ == name);
        }
        assert forall|k: int, l: int| 0 <= k < l < r@.len() implies (#[trigger] r@[k]).0@ != (
        #[trigger] r@[l]).0@ by {
            assert(names@[k]@ != names@[l]@);
        }
    }
    r
}

/// As long as no more requests failed than came, the error rate is one at most.
pub proof fn error_rates_are_at_most_one(failed: u64, total: u64)
    requires
        failed <= total <= 0x20_0000_0000_0000,
    ensures
        !failure_share(failed, total).above(Binary64::one()),
        !failure_share(failed, total).negative(),
        !failure_share(failed, total).nan(),
{
    if total > 0 {
        let unit = vstd::arithmetic::power2::pow2(binary64::UNIT_PLACES as nat);
        let (x, y) = (Binary64::of_nat(failed as nat), Binary64::of_nat(total as nat));
        vstd::arithmetic::power2::lemma_pow2_pos(binary64::UNIT_PLACES as nat);
        binary64::whole_numbers_are_exact(failed as nat);
        binary64::whole_numbers_are_exact(total as nat);
        binary64::order_is_that_of_values(x, y);
        assert(failed * unit <= total * unit && 0 < total * unit) by (nonlinear_arith)
            requires
                failed <= total,
                0 < total,
                unit > 0,
        ;
        binary64::shares_are_at_most_one(x, y);
    }
}

/// No more decisions are kept than there is room for, and the latest one is among them.
pub proof fn kept_decisions_are_limited(
    before: Seq<AiDecision>,
    d: AiDecision,
    after: Seq<AiDecision>,
)
    requires
        before.len() <= KEPT_DECISIONS,
        remembers(before, d, after),
    ensures
        after.len() <= KEPT_DECISIONS,
        after.last() == d,
{
}

/// An agent that does not act on its own carries out nothing that its rules come to, answers
/// no anomaly and raises no alert. One that does always answers and alerts.
pub proof fn only_an_autonomous_agent_acts(
    agent: AiAgent,
    h: SystemHealth,
    advice: Advice,
    advised: Seq<AiDecision>,
    done: Option<(AiDecision, Execution)>,
    answered: Seq<AiDecision>,
)
    requires
        agent.advises(h, advice, advised),
        agent.acts(done, answered),
    ensures
        !agent.config().ai.autonomous_mode ==> {
            &&& !(advice is Executed)
            &&& advised == agent.history()
            &&& done is None
            &&& answered == agent.history()
        },
        agent.config().ai.autonomous_mode ==> done is Some,
{
}

impl AiAgent {
    /// An agent keeps no more decisions than there is room for.
    pub proof fn histories_are_limited(&self)
        requires
            self.well_formed(),
        ensures
            self.history().len() <= KEPT_DECISIONS,
    {
    }
}

/// The times together, as a whole number.
pub open spec fn whole_sum(times: Seq<u64>) -> nat
    decreases times.len(),
{
    if times.len() == 0 {
        0
    } else {
        whole_sum(times.drop_last()) + times.last() as nat
    }
}

proof fn lemma_total_time(times: Seq<u64>, n: nat)
    requires
        n <= times.len(),
        whole_sum(times) <= 0x20_0000_0000_0000,
    ensures
        total_time(times, n) == Binary64::of_nat(whole_sum(times.take(n as int))),
        whole_sum(times.take(n as int)) <= whole_sum(times),
    decreases times.len(), n,
{
    binary64::zero_is_zero();
    if n == 0 {
        assert(times.take(0) =~= Seq::<u64>::empty());
    } else {
        let m = (n - 1) as nat;
        lemma_total_time(times, m);
        assert(times.take(n as int).drop_last() =~= times.take(m as int));
        lemma_sum_grows(times, n);
        binary64::whole_numbers_add_and_multiply(
            whole_sum(times.take(m as int)),
            times[m as int] as nat,
        );
    }
}

proof fn lemma_sum_grows(times: Seq<u64>, n: nat)
    requires
        n <= times.len(),
    ensures
        whole_sum(times.take(n as int)) <= whole_sum(times),
    decreases times.len(),
{
    if n == times.len() {
        assert(times.take(n as int) =~= times);
    } else {
        lemma_sum_grows(times.drop_last(), n);
        assert(times.drop_last().take(n as int) =~= times.take(n as int));
    }
}

/// The mean time is the sum of all times over their number, as long as doubles are exact: where
/// the sum is a multiple of the number, it is that multiple. Of no times it is zero.
pub proof fn mean_times_are_exact(times: Seq<u64>, mean: nat)
    requires
        whole_sum(times) <= 0x20_0000_0000_0000,
    ensures
        times.len() > 0 ==> average_time(times) == Binary64::of_nat(whole_sum(times)).quotient(
            Binary64::of_nat(times.len()),
        ),
        times.len() > 0 && whole_sum(times) == mean * times.len() ==> average_time(times)
            == Binary64::of_nat(mean),
        times.len() == 0 ==> average_time(times) == (Binary64 { bits: 0 }),
{
    lemma_total_time(times, times.len());
    assert(times.take(times.len() as int) =~= times);
    if times.len() > 0 && whole_sum(times) == mean * times.len() {
        precision::multiples_divide_evenly(mean, times.len());
    }
}

/// Every time counts once in the sum, wherever it stands.
pub proof fn every_time_is_summed(before: Seq<u64>, time: u64, after: Seq<u64>)
    ensures
        whole_sum(before.push(time) + after) == whole_sum(before + after) + time,
        whole_sum(Seq::empty()) == 0,
    decreases after.len(),
{
    let all = before.push(time) + after;
    if after.len() == 0 {
        assert(all =~= before.push(time));
        assert(before + after =~= before);
        assert(before.push(time).drop_last() =~= before);
    } else {
        every_time_is_summed(before, time, after.drop_last());
        assert(all.drop_last() =~= before.push(time) + after.drop_last());
        assert((before + after).drop_last() =~= before + after.drop_last());
    }
}

/// The error rate is one where all requests failed and zero where none did or none came; of the
/// same number, more failures are no lower rate; and it is above a half exactly if more than
/// half of the requests failed.
pub proof fn error_rates_follow_failures(few: u64, many: u64, total: u64)
    requires
        few <= many <= total <= 0x10_0000_0000_0000,
    ensures
        !failure_share(few, total).above(failure_share(many, total)),
        total > 0 ==> failure_share(total, total) == Binary64::one(),
        failure_share(0, total) == (Binary64 { bits: 0 }),
        total > 0 ==> failure_share(few, total) == Binary64::of_nat(few as nat).quotient(
            Binary64::of_nat(total as nat),
        ),
        total > 0 ==> (failure_share(few, total).above((Binary64 { bits: 0x3FE0_0000_0000_0000 }))
            <==> 2 * few > total),
{
    if total > 0 {
        precision::shares_follow_counts(few as nat, many as nat, total as nat);
        precision::halves_are_told_apart(few as nat, total as nat);
    }
}

/// A health shows what the metrics count, and lists every service of the metrics once, with its
/// health, and no other.
pub proof fn healths_show_the_metrics(
    h: SystemHealth,
    m: ProxyMetrics,
    name: Seq<char>,
    i: int,
    j: int,
)
    requires
        is_health_of(h, m),
    ensures
        h.total_requests == m.total_requests,
        h.successful_requests == m.successful_requests,
        h.failed_requests == m.failed_requests,
        h.error_rate == failure_share(m.failed_requests, m.total_requests),
        h.avg_response_time == average_time(m.response_times@),
        h.active_connections == 0,
        m.upstream_health@.contains_key(name) ==> exists|k: int|
            0 <= k < h.upstream_health@.len() && (#[trigger] h.upstream_health@[k]).0@ == name
                && h.upstream_health@[k].1 == m.upstream_health@[name],
        0 <= i < h.upstream_health@.len() ==> m.upstream_health@.contains_key(
            h.upstream_health@[i].0@,
        ) && h.upstream_health@[i].1 == m.upstream_health@[h.upstream_health@[i].0@],
        0 <= i < j < h.upstream_health@.len() ==> h.upstream_health@[i].0@
            != h.upstream_health@[j].0@,
{
    if m.upstream_health@.contains_key(name) {
        let k = choose|k: int|
            0 <= k < h.upstream_health@.len() && (#[trigger] h.upstream_health@[k]).0@ == name;
        assert(h.upstream_health@[k].0@ == name);
    }
}

/// A message has the size that its header for it says, in decimal; and none where the header is
/// missing or says no number.
pub proof fn sizes_are_read_from_headers(
    fields: Map<Seq<char>, Seq<Seq<u8>>>,
    n: u64,
    other: Seq<char>,
    i: int,
)
    ensures
        stated_size(fields.insert("content-length"@, seq![http::ascii(text::decimal(n as nat))]))
            == n,
        !fields.contains_key("content-length"@) ==> stated_size(fields) == 0,
        http::is_visible_text(other) && 1 <= i < other.len() && !('0' <= other[i] <= '9')
            ==> stated_size(fields.insert("content-length"@, seq![http::ascii(other)])) == 0,
{
    let d = text::decimal(n as nat);
    text::decimals_are_read_back(n);
    text::decimals_can_be_shown(n);
    http::texts_are_shown_again(d);
    if http::is_visible_text(other) && 1 <= i < other.len() && !('0' <= other[i] <= '9') {
        http::texts_are_shown_again(other);
        text::other_texts_are_no_numbers(other, i);
    }
}

/// What is looked at of a request and its reply is theirs: the method, the path and the user
/// agent of the request, the status of the reply, and the size of each.
pub proof fn features_are_those_of_the_request(
    f: RequestFeatures,
    req: RequestHead,
    resp: Reply,
    ms: u64,
    agent: Seq<char>,
)
    requires
        are_features_of(f, req, resp, ms),
    ensures
        f.method@ == req@.method,
        f.path@ == req@.path,
        f.status_code == resp@.status,
        f.response_time_ms == ms,
        f.request_size == stated_size(req@.fields),
        f.response_size == stated_size(resp@.fields),
        !req@.fields.contains_key("user-agent"@) ==> f.user_agent@ == ""@,
        http::is_visible_text(agent) && req@.fields.contains_key("user-agent"@)
            && req@.fields["user-agent"@] == seq![http::ascii(agent)] ==> f.user_agent@ == agent,
{
    if http::is_visible_text(agent) {
        http::texts_are_shown_again(agent);
    }
}

/// Every action of a decision has its line, at its place, and there is no other line; the
/// service that is told of the decision is the configured one. A line names what its action is
/// about.
pub proof fn every_action_has_its_line(x: Execution, d: AiDecision, c: ProxyConfig, i: int)
    requires
        is_execution_of(x, d, c),
    ensures
        x.notices@.len() == d.actions@.len(),
        c.ai.endpoint is None ==> x.report_to is None,
        c.ai.endpoint matches Some(endpoint) ==> x.report_to is Some && x.report_to->0@
            == endpoint@,
        0 <= i < d.actions@.len() ==> {
            let line = x.notices@[i].text@;
            match d.actions@[i] {
                Action::AddEndpoint { service, endpoint } => line == "Adding endpoint "@ + endpoint@
                    + " to service "@ + service@,
                Action::RemoveEndpoint { service, endpoint } => line == "Removing endpoint "@
                    + endpoint@ + " from service "@ + service@,
                Action::AdjustWeight { service, endpoint, weight } => line
                    == "Adjusting weight of endpoint "@ + endpoint@ + " in service "@ + service@
                    + " to "@ + text::decimal(weight as nat),
                Action::UpdateRateLimit { requests_per_second } => line
                    == "Updating rate limit to "@ + text::decimal(requests_per_second as nat)
                    + " requests/second"@,
                Action::OpenCircuitBreaker { service } => line
                    == "Opening circuit breaker for service "@ + service@,
                Action::CloseCircuitBreaker { service } => line
                    == "Closing circuit breaker for service "@ + service@,
                Action::BlockIp { ip, duration_seconds } => line == "Blocking IP "@ + ip@ + " for "@
                    + text::decimal(duration_seconds as nat) + " seconds"@,
                Action::AlertOperator { message, severity } => line == (match severity {
                    AlertSeverity::Critical => "CRITICAL ALERT: "@,
                    AlertSeverity::High => "HIGH ALERT: "@,
                    AlertSeverity::Medium => "MEDIUM ALERT: "@,
                    AlertSeverity::Low => "LOW ALERT: "@,
                }) + message@,
            }
        },
        0 <= i < d.actions@.len() ==> (x.notices@[i].level == Level::Error <==> (d.actions@[i]
            matches Action::AlertOperator { severity, .. } && severity == AlertSeverity::Critical)),
        0 <= i < d.actions@.len() ==> (x.notices@[i].level == Level::Warn <==> d.actions@[i]
            is BlockIp || (d.actions@[i] matches Action::AlertOperator { severity, .. } && (severity
            == AlertSeverity::High || severity == AlertSeverity::Medium))),
{
    if 0 <= i < d.actions@.len() {
        let n = x.notices@[i];
        assert((n.level, n.text@) == action_line(d.actions@[i]));
    }
}

/// Decisions are remembered in order: the new one is the last, and of the others only the
/// oldest is given up, when there is no room.
pub proof fn the_latest_decisions_are_remembered(
    before: Seq<AiDecision>,
    d: AiDecision,
    after: Seq<AiDecision>,
)
    requires
        before.len() <= 1000,
        remembers(before, d, after),
    ensures
        after.last() == d,
        before.len() < 1000 ==> after.drop_last() == before,
        before.len() == 1000 ==> after.drop_last() == before.skip(1),
{
    if before.len() < 1000 {
        assert(after.drop_last() =~= before);
    } else {
        assert(after.drop_last() =~= before.skip(1));
    }
}

/// What becomes of the decision of a rule: one that is surer than the threshold, or just as
/// sure, is carried out if the agent acts on its own and recommended if not; one that is less
/// sure is withheld. Without a rule that holds there is no decision.
pub proof fn sure_decisions_are_acted_on(
    agent: AiAgent,
    h: SystemHealth,
    advice: Advice,
    history: Seq<AiDecision>,
    i: int,
)
    requires
        agent.advises(h, advice, history),
        agent.config().ai.decision_threshold.finite(),
        forall|k: int|
            0 <= k < agent.rules().len() ==> (#[trigger] agent.rules()[k]).confidence.finite(),
    ensures
        0 <= i < agent.rules().len() && agent.rules()[i].enabled && decision_engine::holds(
            agent.rules()[i].condition,
            h,
        ) && (forall|k: int|
            0 <= k < i ==> !(#[trigger] agent.rules()[k]).enabled || !decision_engine::holds(
                agent.rules()[k].condition,
                h,
            )) ==> {
            let sure = agent.rules()[i].confidence.value()
                >= agent.config().ai.decision_threshold.value();
            &&& sure && agent.config().ai.autonomous_mode <==> advice is Executed
            &&& sure && !agent.config().ai.autonomous_mode <==> advice is Recommended
            &&& !sure <==> advice is Withheld
            &&& advice is Executed ==> advice->Executed_0.decision_type
                == agent.rules()[i].decision_type && advice->Executed_0.actions@
                == agent.rules()[i].actions@
            &&& advice is Recommended ==> advice->Recommended_0.decision_type
                == agent.rules()[i].decision_type
        },
        (forall|k: int|
            0 <= k < agent.rules().len() ==> !(#[trigger] agent.rules()[k]).enabled
                || !decision_engine::holds(agent.rules()[k].condition, h)) ==> advice is Nothing,
        !(advice is Executed) ==> history == agent.history(),
{
    let rules = agent.rules();
    let threshold = agent.config().ai.decision_threshold;
    if 0 <= i < rules.len() && rules[i].enabled && decision_engine::holds(rules[i].condition, h)
        && (forall|k: int|
        0 <= k < i ==> !(#[trigger] rules[k]).enabled || !decision_engine::holds(
            rules[k].condition,
            h,
        )) {
        assert forall|k: int| 0 <= k < i implies !decision_engine::is_triggered(
            #[trigger] rules[k],
            h,
        ) by {}
        assert(decision_engine::is_triggered(rules[i], h));
        assert(decision_engine::is_first_triggered(rules, h, i));
        assert forall|j: int| #[trigger]
            decision_engine::is_first_triggered(rules, h, j) implies j == i by {
            if j < i {
                assert(decision_engine::is_triggered(rules[j], h));
            } else if j > i {
                assert(!decision_engine::is_triggered(rules[i], h));
            }
        }
        binary64::order_is_that_of_values(threshold, rules[i].confidence);
    }
}

/// The alert about an anomaly of the proxy tells of it in its reason and in its message, and is
/// a high one.
pub proof fn alerts_tell_of_their_anomaly(d: AiDecision, anomaly: Seq<char>)
    requires
        is_system_alert(d, anomaly),
    ensures
        d.decision_type == DecisionType::SecurityAlert,
        d.reasoning@ == "System anomaly detected: "@ + anomaly,
        d.actions@.len() == 1,
        d.actions@[0] is AlertOperator,
        d.actions@[0]->AlertOperator_message@ == "System anomaly: "@ + anomaly,
        d.actions@[0]->AlertOperator_severity == AlertSeverity::High,
{
}

/// Whatever is found out about a request, the request is taken into the statistics, and learned
/// from where learning is on; and nothing else about the agent changes.
pub proof fn every_request_is_taken_in(before: AiAgent, after: AiAgent, r: RequestAnalysis)
    requires
        after.looked_at(before, r),
    ensures
        after.config() == before.config(),
        after.rules() == before.rules(),
        after.history() == before.history(),
        after.detector().paths.contains_key(r.features.path@),
        exists|now: Timestamp|
            after.detector() == #[trigger] anomaly_detection::observed(
                before.detector(),
                r.features,
                now,
            ),
        before.config().ai.learning_enabled ==> after.learner() == learning::learned(
            before.learner(),
            r.features,
        ),
        !before.config().ai.learning_enabled ==> after.learner() == before.learner()
            && !r.training_due,
        before.config().ai.learning_enabled ==> (r.training_due <==> after.learner().buffer.len()
            > 0 && after.learner().buffer.len() % 1000 == 0),
        anomaly_detection::finding(r.finding) == anomaly_detection::found(
            after.detector(),
            r.features,
            text::lowered(r.features.path@),
            text::lowered(r.features.user_agent@),
        ),
        r.finding is Some ==> r.finding->0.features == r.features,
{
    let now = choose|now: Timestamp|
        now.well_formed() && after.detector() == #[trigger] anomaly_detection::observed(
            before.detector(),
            r.features,
            now,
        );
    assert(after.detector() == anomaly_detection::observed(before.detector(), r.features, now));
}

/// What an agent does about an anomaly it remembers, as the latest of its decisions, and tells
/// of by a line for every action.
pub proof fn what_is_done_is_remembered(
    agent: AiAgent,
    done: Option<(AiDecision, Execution)>,
    history: Seq<AiDecision>,
)
    requires
        agent.acts(done, history),
        agent.history().len() <= 1000,
    ensures
        done matches Some(both) ==> {
            &&& history.len() > 0
            &&& history.last().decision_type == both.0.decision_type
            &&& history.last().confidence == both.0.confidence
            &&& history.last().reasoning@ == both.0.reasoning@
            &&& history.last().actions@ == both.0.actions@
            &&& both.1.notices@.len() == both.0.actions@.len()
            &&& agent.history().len() < 1000 ==> history.drop_last() == agent.history()
        },
        done is None ==> history == agent.history(),
{
    if done is Some {
        let both = done->0;
        let e = choose|e: AiDecision|
            e.same_as(both.0) && #[trigger] remembers(agent.history(), e, history);
        the_latest_decisions_are_remembered(agent.history(), e, history);
    }
}

} // verus!
