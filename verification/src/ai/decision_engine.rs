//! Decisions: rules about the health of the proxy, and answers to anomalies.
use super::agent::{
    copy_actions, Action, AiDecision, AlertSeverity, Anomaly, AnomalyType, DecisionType,
    SystemHealth,
};
use crate::binary64;
use crate::binary64::Binary64;
use crate::clock;
use crate::config::ProxyConfig;
use crate::text;
use std::sync::Arc;
use vstd::prelude::*;
use vstd::string::StringExecFns;

verus! {

#[derive(Debug)]
pub struct DecisionRule {
    pub name: String,
    pub condition: Condition,
    pub decision_type: DecisionType,
    pub actions: Vec<Action>,
    pub confidence: Binary64,
    pub enabled: bool,
}

#[derive(Debug)]
pub enum Condition {
    ErrorRateAbove(Binary64),
    ResponseTimeAbove(Binary64),
    RequestRateAbove(u64),
    UpstreamUnhealthy(String),
    AnomalyDetected(AnomalyType),
    And(Vec<Condition>),
    Or(Vec<Condition>),
}

/// The condition holds of this health. Anomalies are none of its matters.
pub open spec fn holds(c: Condition, h: SystemHealth) -> bool
    decreases c,
{
    match c {
        Condition::ErrorRateAbove(threshold) => h.error_rate.above(threshold),
        Condition::ResponseTimeAbove(threshold) => h.avg_response_time.above(threshold),
        Condition::RequestRateAbove(threshold) => h.total_requests > threshold,
        Condition::UpstreamUnhealthy(service) => is_unhealthy(h, service@),
        Condition::AnomalyDetected(_) => false,
        Condition::And(conditions) => forall|i: int|
            0 <= i < conditions@.len() ==> holds(#[trigger] conditions@[i], h),
        Condition::Or(conditions) => exists|i: int|
            0 <= i < conditions@.len() && holds(#[trigger] conditions@[i], h),
    }
}

/// A service of this name is listed as not healthy.
pub open spec fn is_unhealthy(h: SystemHealth, service: Seq<char>) -> bool {
    exists|i: int|
        0 <= i < h.upstream_health@.len() && (#[trigger] h.upstream_health@[i]).0@ == service
            && !h.upstream_health@[i].1
}

/// Whether the condition holds of this health.
pub fn evaluate_condition(condition: &Condition, health: &SystemHealth) -> (r: bool)
    ensures
        r == holds(*condition, *health),
    decreases *condition,
{
    match condition {
        Condition::ErrorRateAbove(threshold) => health.error_rate.greater_than(*threshold),
        Condition::ResponseTimeAbove(threshold) => health.avg_response_time.greater_than(
            *threshold,
        ),
        Condition::RequestRateAbove(threshold) => health.total_requests > *threshold,
        Condition::UpstreamUnhealthy(service) => lists_unhealthy(health, service.as_str()),
        Condition::AnomalyDetected(_) => false,
        Condition::And(conditions) => {
            let mut i: usize = 0;
            while i < conditions.len()
                invariant
                    i <= conditions@.len(),
                    *condition is And,
                    condition->And_0 == *conditions,
                    forall|k: int| 0 <= k < i ==> holds(#[trigger] conditions@[k], *health),
                decreases conditions@.len() - i,
            {
                assert(decreases_to!(*condition => condition->And_0));
                if !evaluate_condition(&conditions[i], health) {
                    return false;
                }
                i = i + 1;
            }
            true
        },
        Condition::Or(conditions) => {
            let mut i: usize = 0;
            while i < conditions.len()
                invariant
                    i <= conditions@.len(),
                    *condition is Or,
                    condition->Or_0 == *conditions,
                    forall|k: int| 0 <= k < i ==> !holds(#[trigger] conditions@[k], *health),
                decreases conditions@.len() - i,
            {
                assert(decreases_to!(*condition => condition->Or_0));
                if evaluate_condition(&conditions[i], health) {
                    return true;
                }
                i = i + 1;
            }
            false
        },
    }
}

fn lists_unhealthy(health: &SystemHealth, service: &str) -> (r: bool)
    ensures
        r == is_unhealthy(*health, service@),
{
    let mut i: usize = 0;
    while i < health.upstream_health.len()
        invariant
            i <= health.upstream_health@.len(),
            forall|k: int|
                0 <= k < i ==> (#[trigger] health.upstream_health@[k]).0@ != service@
                    || health.upstream_health@[k].1,
        decreases health.upstream_health@.len() - i,
    {
        if text::same(health.upstream_health[i].0.as_str(), service)
            && !health.upstream_health[i].1 {
            return true;
        }
        i = i + 1;
    }
    false
}

/// An alert with this message.
pub open spec fn is_alert(a: Action, message: Seq<char>, severity: AlertSeverity) -> bool {
    a matches Action::AlertOperator { message: m, severity: s } && m@ == message && s == severity
}

/// An order to open the breaker of a service.
pub open spec fn is_breaker_order(a: Action, service: Seq<char>) -> bool {
    a matches Action::OpenCircuitBreaker { service: s } && s@ == service
}

/// An order to limit the rate of requests.
pub open spec fn is_rate_order(a: Action, rate: u32) -> bool {
    a matches Action::UpdateRateLimit { requests_per_second } && requests_per_second == rate
}

/// A rule with this name, decision and confidence, that is on.
pub open spec fn is_rule(
    r: DecisionRule,
    name: Seq<char>,
    decision_type: DecisionType,
    confidence: u64,
) -> bool {
    &&& r.name@ == name
    &&& r.decision_type == decision_type
    &&& r.confidence.bits == confidence
    &&& r.enabled
}

/// The rules that an engine starts with: on many errors, on slow replies, on a service that
/// is not healthy, and on many errors and slow replies together.
pub open spec fn are_default_rules(rules: Seq<DecisionRule>) -> bool {
    &&& rules.len() == 4
    &&& is_rule(
        rules[0],
        "High Error Rate"@,
        DecisionType::CircuitBreakerOpen,
        0x3FEC_CCCC_CCCC_CCCD,
    )
    &&& rules[0].condition == Condition::ErrorRateAbove(Binary64 { bits: 0x3FA9_9999_9999_999A })
    &&& rules[0].actions@.len() == 2
    &&& is_breaker_order(rules[0].actions@[0], "default"@)
    &&& is_alert(
        rules[0].actions@[1],
        "High error rate detected, opening circuit breaker"@,
        AlertSeverity::High,
    )
    &&& is_rule(
        rules[1],
        "High Response Time"@,
        DecisionType::AdjustRateLimit,
        0x3FE9_9999_9999_999A,
    )
    &&& rules[1].condition == Condition::ResponseTimeAbove(Binary64 { bits: 0x40B3_8800_0000_0000 })
    &&& rules[1].actions@.len() == 2
    &&& is_rate_order(rules[1].actions@[0], 100)
    &&& is_alert(
        rules[1].actions@[1],
        "High response time detected, reducing rate limit"@,
        AlertSeverity::Medium,
    )
    &&& is_rule(
        rules[2],
        "Upstream Unhealthy"@,
        DecisionType::RouteTraffic,
        0x3FEE_6666_6666_6666,
    )
    &&& rules[2].condition matches Condition::UpstreamUnhealthy(service) && service@ == "default"@
    &&& rules[2].actions@.len() == 1
    &&& is_alert(
        rules[2].actions@[0],
        "Upstream service unhealthy, rerouting traffic"@,
        AlertSeverity::High,
    )
    &&& is_rule(
        rules[3],
        "Critical System State"@,
        DecisionType::SecurityAlert,
        0x3FEF_AE14_7AE1_47AE,
    )
    &&& rules[3].condition matches Condition::And(both) && both@ == seq![
        Condition::ErrorRateAbove(Binary64 { bits: 0x3FB9_9999_9999_999A }),
        Condition::ResponseTimeAbove(Binary64 { bits: 0x40C3_8800_0000_0000 }),
    ]
    &&& rules[3].actions@.len() == 1
    &&& is_alert(
        rules[3].actions@[0],
        "Critical system state: high error rate and response time"@,
        AlertSeverity::Critical,
    )
}

/// The rule is on and its condition holds.
pub open spec fn is_triggered(r: DecisionRule, h: SystemHealth) -> bool {
    r.enabled && holds(r.condition, h)
}

/// Of the rules that are triggered, `i` is the first.
pub open spec fn is_first_triggered(rules: Seq<DecisionRule>, h: SystemHealth, i: int) -> bool {
    &&& 0 <= i < rules.len()
    &&& is_triggered(rules[i], h)
    &&& forall|j: int| 0 <= j < i ==> !is_triggered(#[trigger] rules[j], h)
}

/// The decision of a rule.
pub open spec fn is_decision_of(d: AiDecision, r: DecisionRule) -> bool {
    &&& d.timestamp.well_formed()
    &&& d.decision_type == r.decision_type
    &&& d.confidence == r.confidence
    &&& d.reasoning@ == "Rule '"@ + r.name@ + "' triggered based on system health"@
    &&& d.actions@ == r.actions@
}

/// The kind of decision that an anomaly calls for.
pub open spec fn decision_for(anomaly_type: AnomalyType) -> DecisionType {
    match anomaly_type {
        AnomalyType::HighLatency => DecisionType::AdjustRateLimit,
        AnomalyType::UnusualTrafficPattern => DecisionType::SecurityAlert,
        AnomalyType::ErrorSpike => DecisionType::CircuitBreakerOpen,
        AnomalyType::SecurityThreat => DecisionType::BlockTraffic,
        AnomalyType::ResourceExhaustion => DecisionType::ScaleUp,
    }
}

/// The actions that an anomaly calls for.
pub open spec fn are_actions_for(
    actions: Seq<Action>,
    anomaly_type: AnomalyType,
    description: Seq<char>,
) -> bool {
    match anomaly_type {
        AnomalyType::HighLatency => {
            &&& actions.len() == 2
            &&& actions[0] matches Action::AdjustWeight { service, endpoint, weight } && service@
                == "default"@ && endpoint@ == "slow-endpoint"@ && weight == 10
            &&& is_alert(
                actions[1],
                "High latency detected: "@ + description,
                AlertSeverity::Medium,
            )
        },
        AnomalyType::UnusualTrafficPattern => {
            &&& actions.len() == 2
            &&& is_rate_order(actions[0], 100)
            &&& is_alert(
                actions[1],
                "Unusual traffic pattern: "@ + description,
                AlertSeverity::High,
            )
        },
        AnomalyType::ErrorSpike => {
            &&& actions.len() == 2
            &&& is_breaker_order(actions[0], "default"@)
            &&& is_alert(actions[1], "Error spike detected: "@ + description, AlertSeverity::High)
        },
        AnomalyType::SecurityThreat => {
            &&& actions.len() == 2
            &&& actions[0] matches Action::BlockIp { ip, duration_seconds } && ip@
                == "suspicious-ip"@ && duration_seconds == 3600
            &&& is_alert(
                actions[1],
                "Security threat detected: "@ + description,
                AlertSeverity::Critical,
            )
        },
        AnomalyType::ResourceExhaustion => {
            &&& actions.len() == 1
            &&& is_alert(
                actions[0],
                "Resource exhaustion: "@ + description,
                AlertSeverity::Critical,
            )
        },
    }
}

/// The answer to an anomaly.
pub open spec fn is_answer(d: AiDecision, a: Anomaly) -> bool {
    &&& d.timestamp.well_formed()
    &&& d.decision_type == decision_for(a.anomaly_type)
    &&& d.confidence == a.severity
    &&& d.reasoning@ == "Anomaly detected: "@ + a.description@
    &&& are_actions_for(d.actions@, a.anomaly_type, a.description@)
}

/// The first rule of a name.
pub open spec fn is_first_named(rules: Seq<DecisionRule>, name: Seq<char>, i: int) -> bool {
    &&& 0 <= i < rules.len()
    &&& rules[i].name@ == name
    &&& forall|j: int| 0 <= j < i ==> (#[trigger] rules[j]).name@ != name
}

/// Some rule has this name.
pub open spec fn has_rule(rules: Seq<DecisionRule>, name: Seq<char>) -> bool {
    exists|i: int| 0 <= i < rules.len() && (#[trigger] rules[i]).name@ == name
}

/// The rules with the first one of a name turned on or off.
pub open spec fn switched(rules: Seq<DecisionRule>, name: Seq<char>, on: bool) -> Seq<
    DecisionRule,
> {
    if has_rule(rules, name) {
        let i = choose|i: int| is_first_named(rules, name, i);
        rules.update(i, DecisionRule { enabled: on, ..rules[i] })
    } else {
        rules
    }
}

/// The rules without the first one of a name.
pub open spec fn without(rules: Seq<DecisionRule>, name: Seq<char>) -> Seq<DecisionRule> {
    if has_rule(rules, name) {
        rules.remove(choose|i: int| is_first_named(rules, name, i))
    } else {
        rules
    }
}

pub struct DecisionEngine {
    config: Arc<ProxyConfig>,
    rules: Vec<DecisionRule>,
}

impl DecisionEngine {
    /// The rules, in the order in which they are tried.
    pub closed spec fn view(&self) -> Seq<DecisionRule> {
        self.rules@
    }

    pub fn new(config: Arc<ProxyConfig>) -> (r: Self)
        ensures
            are_default_rules(r@),
    {
        DecisionEngine { config, rules: Self::create_default_rules() }
    }

    /// The decision of the first rule that is triggered.
    pub fn analyze_health(&self, health: &SystemHealth) -> (r: Option<AiDecision>)
        ensures
            r is Some <==> exists|i: int| is_first_triggered(self@, *health, i),
            r is None <==> forall|i: int|
                0 <= i < self@.len() ==> !is_triggered(#[trigger] self@[i], *health),
            r matches Some(d) ==> exists|i: int|
                is_first_triggered(self@, *health, i) && is_decision_of(d, self@[i]),
    {
        let mut i: usize = 0;
        while i < self.rules.len()
            invariant
                i <= self.rules@.len(),
                forall|j: int| 0 <= j < i ==> !is_triggered(#[trigger] self@[j], *health),
            decreases self.rules@.len() - i,
        {
            let rule: &DecisionRule = &self.rules[i];
            if rule.enabled && evaluate_condition(&rule.condition, health) {
                proof {
                    assert(is_triggered(self@[i as int], *health));
                    assert(is_first_triggered(self@, *health, i as int));
                }
                let mut reasoning: String = text::join("Rule '", rule.name.as_str());
                reasoning.append("' triggered based on system health");
                return Some(
                    AiDecision {
                        decision_type: rule.decision_type,
                        confidence: rule.confidence,
                        reasoning,
                        actions: copy_actions(&rule.actions),
                        timestamp: clock::utc_now(),
                    },
                );
            }
            i = i + 1;
        }
        None
    }

    /// What to do about an anomaly.
    pub fn handle_anomaly(&self, anomaly: &Anomaly) -> (r: Option<AiDecision>)
        ensures
            r is Some,
            is_answer(r->0, *anomaly),
    {
        let description: &str = anomaly.description.as_str();
        let decision_type: DecisionType = match anomaly.anomaly_type {
            AnomalyType::HighLatency => DecisionType::AdjustRateLimit,
            AnomalyType::UnusualTrafficPattern => DecisionType::SecurityAlert,
            AnomalyType::ErrorSpike => DecisionType::CircuitBreakerOpen,
            AnomalyType::SecurityThreat => DecisionType::BlockTraffic,
            AnomalyType::ResourceExhaustion => DecisionType::ScaleUp,
        };
        let actions: Vec<Action> = match anomaly.anomaly_type {
            AnomalyType::HighLatency => vec![
                Action::AdjustWeight {
                    service: "default".to_string(),
                    endpoint: "slow-endpoint".to_string(),
                    weight: 10,
                },
                Action::AlertOperator {
                    message: text::join("High latency detected: ", description),
                    severity: AlertSeverity::Medium,
                },
            ],
            AnomalyType::UnusualTrafficPattern => vec![
                Action::UpdateRateLimit { requests_per_second: 100 },
                Action::AlertOperator {
                    message: text::join("Unusual traffic pattern: ", description),
                    severity: AlertSeverity::High,
                },
            ],
            AnomalyType::ErrorSpike => vec![
                Action::OpenCircuitBreaker { service: "default".to_string() },
                Action::AlertOperator {
                    message: text::join("Error spike detected: ", description),
                    severity: AlertSeverity::High,
                },
            ],
            AnomalyType::SecurityThreat => vec![
                Action::BlockIp { ip: "suspicious-ip".to_string(), duration_seconds: 3600 },
                Action::AlertOperator {
                    message: text::join("Security threat detected: ", description),
                    severity: AlertSeverity::Critical,
                },
            ],
            AnomalyType::ResourceExhaustion => vec![
                Action::AlertOperator {
                    message: text::join("Resource exhaustion: ", description),
                    severity: AlertSeverity::Critical,
                },
            ],
        };
        Some(
            AiDecision {
                decision_type,
                confidence: anomaly.severity,
                reasoning: text::join("Anomaly detected: ", description),
                actions,
                timestamp: clock::utc_now(),
            },
        )
    }

    pub fn create_default_rules() -> (r: Vec<DecisionRule>)
        ensures
            are_default_rules(r@),
    {
        vec![
            DecisionRule {
                name: "High Error Rate".to_string(),
                condition: Condition::ErrorRateAbove(Binary64 { bits: 0x3FA9_9999_9999_999A }),
                decision_type: DecisionType::CircuitBreakerOpen,
                actions: vec![
                    Action::OpenCircuitBreaker { service: "default".to_string() },
                    Action::AlertOperator {
                        message: "High error rate detected, opening circuit breaker".to_string(),
                        severity: AlertSeverity::High,
                    },
                ],
                confidence: Binary64 { bits: 0x3FEC_CCCC_CCCC_CCCD },
                enabled: true,
            },
            DecisionRule {
                name: "High Response Time".to_string(),
                condition: Condition::ResponseTimeAbove(Binary64 { bits: 0x40B3_8800_0000_0000 }),
                decision_type: DecisionType::AdjustRateLimit,
                actions: vec![
                    Action::UpdateRateLimit { requests_per_second: 100 },
                    Action::AlertOperator {
                        message: "High response time detected, reducing rate limit".to_string(),
                        severity: AlertSeverity::Medium,
                    },
                ],
                confidence: Binary64 { bits: 0x3FE9_9999_9999_999A },
                enabled: true,
            },
            DecisionRule {
                name: "Upstream Unhealthy".to_string(),
                condition: Condition::UpstreamUnhealthy("default".to_string()),
                decision_type: DecisionType::RouteTraffic,
                actions: vec![
                    Action::AlertOperator {
                        message: "Upstream service unhealthy, rerouting traffic".to_string(),
                        severity: AlertSeverity::High,
                    },
                ],
                confidence: Binary64 { bits: 0x3FEE_6666_6666_6666 },
                enabled: true,
            },
            DecisionRule {
                name: "Critical System State".to_string(),
                condition: Condition::And(
                    vec![
                        Condition::ErrorRateAbove(Binary64 { bits: 0x3FB9_9999_9999_999A }),
                        Condition::ResponseTimeAbove(Binary64 { bits: 0x40C3_8800_0000_0000 }),
                    ],
                ),
                decision_type: DecisionType::SecurityAlert,
                actions: vec![
                    Action::AlertOperator {
                        message:
                            "Critical system state: high error rate and response time".to_string(),
                        severity: AlertSeverity::Critical,
                    },
                ],
                confidence: Binary64 { bits: 0x3FEF_AE14_7AE1_47AE },
                enabled: true,
            },
        ]
    }

    /// Adds a rule, to be tried after those that are there.
    pub fn add_rule(&mut self, rule: DecisionRule)
        ensures
            final(self)@ == old(self)@.push(rule),
    {
        self.rules.push(rule);
    }

    /// The first rule of a name, or the number of rules where there is none.
    fn find_rule(&self, name: &str) -> (r: usize)
        ensures
            r <= self.rules@.len(),
            r < self.rules@.len() <==> has_rule(self@, name@),
            r < self.rules@.len() ==> r == choose|i: int| is_first_named(self@, name@, i),
    {
        let mut i: usize = 0;
        while i < self.rules.len()
            invariant
                i <= self.rules@.len(),
                forall|j: int| 0 <= j < i ==> (#[trigger] self.rules@[j]).name@ != name@,
            decreases self.rules@.len() - i,
        {
            if text::same(self.rules[i].name.as_str(), name) {
                proof {
                    assert(is_first_named(self@, name@, i as int));
                    let c = choose|c: int| is_first_named(self@, name@, c);
                    assert(is_first_named(self@, name@, c));
                    assert(self.rules@[c].name@ == name@ && self.rules@[i as int].name@ == name@);
                }
                return i;
            }
            i = i + 1;
        }
        i
    }

    /// Removes the first rule of a name, and tells whether there was one.
    pub fn remove_rule(&mut self, name: &str) -> (r: bool)
        ensures
            r == has_rule(old(self)@, name@),
            final(self)@ == without(old(self)@, name@),
    {
        let i: usize = self.find_rule(name);
        if i < self.rules.len() {
            self.rules.remove(i);
            true
        } else {
            false
        }
    }

    /// Turns the first rule of a name on, and tells whether there was one.
    pub fn enable_rule(&mut self, name: &str) -> (r: bool)
        ensures
            r == has_rule(old(self)@, name@),
            final(self)@ == switched(old(self)@, name@, true),
    {
        let i: usize = self.find_rule(name);
        if i < self.rules.len() {
            self.rules[i].enabled = true;
            true
        } else {
            false
        }
    }

    /// Turns the first rule of a name off, and tells whether there was one.
    pub fn disable_rule(&mut self, name: &str) -> (r: bool)
        ensures
            r == has_rule(old(self)@, name@),
            final(self)@ == switched(old(self)@, name@, false),
    {
        let i: usize = self.find_rule(name);
        if i < self.rules.len() {
            self.rules[i].enabled = false;
            true
        } else {
            false
        }
    }

    pub fn get_rules(&self) -> (r: &[DecisionRule])
        ensures
            r@ == self@,
    {
        self.rules.as_slice()
    }
}

/// What the rules that an engine starts with come to: many errors decide first, slow
/// replies second, and the service that is not healthy third. The rule on both together
/// never comes first.
pub proof fn default_rules_decide(rules: Seq<DecisionRule>, h: SystemHealth, i: int)
    requires
        are_default_rules(rules),
    ensures
        is_first_triggered(rules, h, i) <==> (if h.error_rate.above(
            (Binary64 { bits: 0x3FA9_9999_9999_999A }),
        ) {
            i == 0
        } else if h.avg_response_time.above((Binary64 { bits: 0x40B3_8800_0000_0000 })) {
            i == 1
        } else {
            i == 2 && is_unhealthy(h, "default"@)
        }),
{
    reveal_with_fuel(holds, 3);
    let both = rules[3].condition->And_0;
    assert(both@[0] == Condition::ErrorRateAbove(Binary64 { bits: 0x3FB9_9999_9999_999A }));
    if holds(rules[3].condition, h) {
        assert(holds(both@[0], h));
    }
    assert(is_triggered(rules[0], h) == h.error_rate.above(
        (Binary64 { bits: 0x3FA9_9999_9999_999A }),
    ));
    assert(is_triggered(rules[1], h) == h.avg_response_time.above(
        (Binary64 { bits: 0x40B3_8800_0000_0000 }),
    ));
    assert(is_triggered(rules[2], h) == is_unhealthy(h, "default"@));
}

proof fn lemma_first_named(rules: Seq<DecisionRule>, name: Seq<char>, i: int)
    requires
        0 <= i < rules.len(),
        rules[i].name@ == name,
    ensures
        exists|j: int| is_first_named(rules, name, j),
    decreases i,
{
    if exists|j: int| 0 <= j < i && (#[trigger] rules[j]).name@ == name {
        let j = choose|j: int| 0 <= j < i && (#[trigger] rules[j]).name@ == name;
        lemma_first_named(rules, name, j);
    } else {
        assert(is_first_named(rules, name, i));
    }
}

/// The later of two switches of a rule counts.
pub proof fn last_switch_counts(rules: Seq<DecisionRule>, name: Seq<char>, first: bool, last: bool)
    ensures
        switched(switched(rules, name, first), name, last) == switched(rules, name, last),
{
    if has_rule(rules, name) {
        let w = choose|w: int| 0 <= w < rules.len() && (#[trigger] rules[w]).name@ == name;
        lemma_first_named(rules, name, w);
        let i = choose|i: int| is_first_named(rules, name, i);
        assert(is_first_named(rules, name, i));
        let once = switched(rules, name, first);
        assert(once[i].name@ == name);
        assert(is_first_named(once, name, i));
        let j = choose|j: int| is_first_named(once, name, j);
        assert(is_first_named(once, name, j));
        assert(once[j].name@ == name);
        assert(j == i);
        assert(switched(once, name, last) =~= switched(rules, name, last));
    }
}

/// A rule that is turned off decides nothing.
pub proof fn a_rule_turned_off_decides_nothing(
    rules: Seq<DecisionRule>,
    name: Seq<char>,
    h: SystemHealth,
    i: int,
)
    requires
        is_first_named(rules, name, i),
    ensures
        !is_triggered(switched(rules, name, false)[i], h),
{
    assert(rules[i].name@ == name);
    let j = choose|j: int| is_first_named(rules, name, j);
    assert(is_first_named(rules, name, j));
    assert(rules[j].name@ == name);
    assert(j == i);
}

/// Taking out a rule that was just added, under a name of its own, leaves the rules as they
/// were.
pub proof fn removal_undoes_addition(rules: Seq<DecisionRule>, rule: DecisionRule)
    requires
        !has_rule(rules, rule.name@),
    ensures
        without(rules.push(rule), rule.name@) == rules,
{
    let more = rules.push(rule);
    let n = rules.len() as int;
    assert(more[n].name@ == rule.name@);
    assert forall|j: int| 0 <= j < n implies (#[trigger] more[j]).name@ != rule.name@ by {
        assert(rules[j].name@ != rule.name@);
    }
    assert(is_first_named(more, rule.name@, n));
    let i = choose|i: int| is_first_named(more, rule.name@, i);
    assert(is_first_named(more, rule.name@, i));
    assert(more[i].name@ == rule.name@);
    assert(i == n);
    assert(more.remove(n) =~= rules);
}

/// A condition on a service holds wherever in the list an entry names the service as not
/// healthy, and does not where no entry does.
pub proof fn an_unhealthy_entry_counts_wherever_it_stands(
    h: SystemHealth,
    service: String,
    before: Seq<(String, bool)>,
    entry: (String, bool),
    after: Seq<(String, bool)>,
)
    requires
        h.upstream_health@ == before.push(entry) + after,
    ensures
        entry.0@ == service@ && !entry.1 ==> holds(Condition::UpstreamUnhealthy(service), h),
        (forall|i: int|
            0 <= i < h.upstream_health@.len() ==> (#[trigger] h.upstream_health@[i]).0@ != service@
                || h.upstream_health@[i].1) ==> !holds(Condition::UpstreamUnhealthy(service), h),
{
    assert(h.upstream_health@[before.len() as int] == entry);
}

/// With the rules that an engine starts with, few errors and fast replies, traffic is routed
/// anew exactly if the service `default` is listed as not healthy, anywhere in the list.
pub proof fn an_unhealthy_default_reroutes_traffic(
    rules: Seq<DecisionRule>,
    h: SystemHealth,
    i: int,
)
    requires
        are_default_rules(rules),
        !h.error_rate.above((Binary64 { bits: 0x3FA9_9999_9999_999A })),
        !h.avg_response_time.above((Binary64 { bits: 0x40B3_8800_0000_0000 })),
    ensures
        0 <= i < h.upstream_health@.len() && h.upstream_health@[i].0@ == "default"@
            && !h.upstream_health@[i].1 ==> is_first_triggered(rules, h, 2)
            && rules[2].decision_type == DecisionType::RouteTraffic,
        (forall|k: int|
            0 <= k < h.upstream_health@.len() ==> (#[trigger] h.upstream_health@[k]).0@
                != "default"@ || h.upstream_health@[k].1) ==> forall|k: int|
            !#[trigger] is_first_triggered(rules, h, k),
{
    default_rules_decide(rules, h, 2);
    assert forall|k: int|
        (forall|k: int|
            0 <= k < h.upstream_health@.len() ==> (#[trigger] h.upstream_health@[k]).0@
                != "default"@ || h.upstream_health@[k].1) implies !#[trigger] is_first_triggered(
        rules,
        h,
        k,
    ) by {
        default_rules_decide(rules, h, k);
    }
}

/// A limit is passed only by what is more: the limit itself does not pass it, and what passes a
/// higher limit passes a lower one. Of finite numbers the values decide.
pub proof fn limits_are_passed_by_more(
    h: SystemHealth,
    low: Binary64,
    high: Binary64,
    few: u64,
    many: u64,
)
    requires
        !low.nan() && !high.nan() && !low.above(high),
        few <= many,
    ensures
        holds(Condition::ErrorRateAbove(high), h) ==> holds(Condition::ErrorRateAbove(low), h),
        holds(Condition::ResponseTimeAbove(high), h) ==> holds(
            Condition::ResponseTimeAbove(low),
            h,
        ),
        holds(Condition::RequestRateAbove(many), h) ==> holds(Condition::RequestRateAbove(few), h),
        !holds(Condition::ErrorRateAbove(h.error_rate), h),
        !holds(Condition::ResponseTimeAbove(h.avg_response_time), h),
        holds(Condition::RequestRateAbove(few), h) <==> few < h.total_requests,
        h.error_rate.finite() && low.finite() ==> (holds(Condition::ErrorRateAbove(low), h)
            <==> h.error_rate.value() > low.value()),
        h.avg_response_time.finite() && low.finite() ==> (holds(
            Condition::ResponseTimeAbove(low),
            h,
        ) <==> h.avg_response_time.value() > low.value()),
{
    if low.finite() {
        if h.error_rate.finite() {
            binary64::order_is_that_of_values(h.error_rate, low);
        }
        if h.avg_response_time.finite() {
            binary64::order_is_that_of_values(h.avg_response_time, low);
        }
    }
}

/// A conjunction holds exactly if each of its parts does, a choice exactly if one of them does,
/// whatever the place of that part; an empty conjunction holds and an empty choice does not.
/// A condition on anomalies never holds of a health.
pub proof fn conditions_combine(
    all: Vec<Condition>,
    h: SystemHealth,
    before: Seq<Condition>,
    part: Condition,
    after: Seq<Condition>,
)
    requires
        all@ == before.push(part) + after,
    ensures
        holds(Condition::And(all), h) ==> holds(part, h),
        holds(part, h) ==> holds(Condition::Or(all), h),
        !holds(part, h) ==> !holds(Condition::And(all), h),
        (forall|i: int| 0 <= i < all@.len() ==> holds(#[trigger] all@[i], h)) ==> holds(
            Condition::And(all),
            h,
        ),
        (forall|i: int| 0 <= i < all@.len() ==> !holds(#[trigger] all@[i], h)) ==> !holds(
            Condition::Or(all),
            h,
        ),
        forall|none: Vec<Condition>|
            none@.len() == 0 ==> #[trigger] holds(Condition::And(none), h) && !holds(
                Condition::Or(none),
                h,
            ),
        forall|a: AnomalyType| !#[trigger] holds(Condition::AnomalyDetected(a), h),
{
    reveal_with_fuel(holds, 4);
    let n = before.len() as int;
    assert(all@[n] == part);
    let (and, or) = (Condition::And(all), Condition::Or(all));
    if holds(and, h) {
        assert(holds(and->And_0@[n], h));
    }
    if holds(all@[n], h) {
        assert(holds(or->Or_0@[n], h));
    }
}

/// Rules are tried in order: rules that are off, or do not hold, before the first one that is
/// on and holds change nothing, and neither do any rules after it. What is decided is what that
/// rule says.
pub proof fn the_first_rule_that_holds_decides(
    before: Seq<DecisionRule>,
    rule: DecisionRule,
    after: Seq<DecisionRule>,
    h: SystemHealth,
    i: int,
    d: AiDecision,
)
    requires
        forall|k: int|
            0 <= k < before.len() ==> !(#[trigger] before[k]).enabled || !holds(
                before[k].condition,
                h,
            ),
        rule.enabled,
        holds(rule.condition, h),
    ensures
        is_first_triggered(before.push(rule) + after, h, i) <==> i == before.len(),
        is_triggered((before.push(rule) + after)[before.len() as int], h),
        is_decision_of(d, rule) ==> {
            &&& d.decision_type == rule.decision_type
            &&& d.confidence == rule.confidence
            &&& d.actions@ == rule.actions@
            &&& d.reasoning@ == "Rule '"@ + rule.name@ + "' triggered based on system health"@
        },
{
    let all = before.push(rule) + after;
    let n = before.len() as int;
    assert(all[n] == rule);
    assert forall|k: int| 0 <= k < n implies !is_triggered(#[trigger] all[k], h) by {
        assert(all[k] == before[k]);
    }
    assert(is_first_triggered(all, h, n));
    if is_first_triggered(all, h, i) && i != n {
        if i > n {
            assert(!is_triggered(all[n], h));
        }
    }
}

/// Where no rule is on and holds, none decides.
pub proof fn rules_that_do_not_hold_decide_nothing(rules: Seq<DecisionRule>, h: SystemHealth)
    requires
        forall|k: int|
            0 <= k < rules.len() ==> !(#[trigger] rules[k]).enabled || !holds(
                rules[k].condition,
                h,
            ),
    ensures
        forall|k: int| 0 <= k < rules.len() ==> !is_triggered(#[trigger] rules[k], h),
        forall|k: int| !#[trigger] is_first_triggered(rules, h, k),
{
}

/// The answer to an anomaly is as sure as the anomaly is severe, speaks of it in its reason and
/// in an alert at the end, and orders what the kind of anomaly calls for.
pub proof fn answers_fit_their_anomalies(d: AiDecision, a: Anomaly)
    requires
        is_answer(d, a),
    ensures
        d.confidence == a.severity,
        d.reasoning@ == "Anomaly detected: "@ + a.description@,
        d.actions@.len() >= 1,
        d.actions@.last() is AlertOperator,
        exists|start: Seq<char>|
            d.actions@.last()->AlertOperator_message@ == #[trigger] (start + a.description@),
        d.actions@.last()->AlertOperator_severity == AlertSeverity::Critical <==> (a.anomaly_type
            == AnomalyType::SecurityThreat || a.anomaly_type == AnomalyType::ResourceExhaustion),
        d.actions@.last()->AlertOperator_severity == AlertSeverity::Medium <==> a.anomaly_type
            == AnomalyType::HighLatency,
        d.actions@.last()->AlertOperator_severity != AlertSeverity::Low,
        d.decision_type == DecisionType::BlockTraffic <==> a.anomaly_type
            == AnomalyType::SecurityThreat,
        d.decision_type == DecisionType::ScaleUp <==> a.anomaly_type
            == AnomalyType::ResourceExhaustion,
        d.decision_type == DecisionType::CircuitBreakerOpen <==> a.anomaly_type
            == AnomalyType::ErrorSpike,
        d.decision_type == DecisionType::AdjustRateLimit <==> a.anomaly_type
            == AnomalyType::HighLatency,
        d.decision_type == DecisionType::SecurityAlert <==> a.anomaly_type
            == AnomalyType::UnusualTrafficPattern,
        a.anomaly_type == AnomalyType::SecurityThreat <==> d.actions@[0] is BlockIp,
        a.anomaly_type == AnomalyType::ErrorSpike <==> d.actions@[0] is OpenCircuitBreaker,
        a.anomaly_type == AnomalyType::HighLatency <==> d.actions@[0] is AdjustWeight,
        a.anomaly_type == AnomalyType::UnusualTrafficPattern <==> d.actions@[0] is UpdateRateLimit,
{
    let message = d.actions@.last()->AlertOperator_message@;
    match a.anomaly_type {
        AnomalyType::HighLatency => {
            assert(message == "High latency detected: "@ + a.description@);
        },
        AnomalyType::UnusualTrafficPattern => {
            assert(message == "Unusual traffic pattern: "@ + a.description@);
        },
        AnomalyType::ErrorSpike => {
            assert(message == "Error spike detected: "@ + a.description@);
        },
        AnomalyType::SecurityThreat => {
            assert(message == "Security threat detected: "@ + a.description@);
        },
        AnomalyType::ResourceExhaustion => {
            assert(message == "Resource exhaustion: "@ + a.description@);
        },
    }
}

/// To switch a rule changes whether it is on, and nothing else of it or of the other rules; to
/// take it out leaves the others in their order. The rule is the first of its name, wherever
/// that stands; without one, nothing changes.
pub proof fn rules_are_changed_one_at_a_time(
    before: Seq<DecisionRule>,
    rule: DecisionRule,
    after: Seq<DecisionRule>,
    name: Seq<char>,
    on: bool,
)
    requires
        forall|k: int| 0 <= k < before.len() ==> (#[trigger] before[k]).name@ != name,
    ensures
        ({
            let all = before.push(rule) + after;
            rule.name@ == name ==> {
                &&& has_rule(all, name)
                &&& switched(all, name, on) == before.push(DecisionRule { enabled: on, ..rule })
                    + after
                &&& without(all, name) == before + after
            }
        }),
        !has_rule(before, name),
        switched(before, name, on) == before,
        without(before, name) == before,
{
    let all = before.push(rule) + after;
    let n = before.len() as int;
    if rule.name@ == name {
        assert(all[n].name@ == name);
        assert forall|k: int| 0 <= k < n implies (#[trigger] all[k]).name@ != name by {
            assert(all[k] == before[k]);
        }
        assert(is_first_named(all, name, n));
        let i = choose|i: int| is_first_named(all, name, i);
        assert(is_first_named(all, name, i));
        assert(all[i].name@ == name);
        assert(i == n);
        assert(switched(all, name, on) =~= before.push(DecisionRule { enabled: on, ..rule })
            + after);
        assert(without(all, name) =~= before + after);
    }
}

} // verus!
