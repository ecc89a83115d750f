//! Anomalies: requests and states of the proxy that are out of the ordinary.
use super::agent::{Anomaly, AnomalyType, RequestFeatures, SystemHealth};
use crate::binary64;
use crate::binary64::Binary64;
use crate::clock;
use crate::clock::Timestamp;
use crate::config::ProxyConfig;
use crate::precision;
use crate::registry::Registry;
use crate::text;
use std::collections::VecDeque;
use std::sync::Arc;
use vstd::prelude::*;
use vstd::string::StringExecFns;

verus! {

/// How many response times are kept.
pub const KEPT_SAMPLES: usize = 1000;

#[derive(Debug, Clone, Copy, PartialEq, Eq, Structural)]
pub struct AnomalyThresholds {
    /// In milliseconds.
    pub response_time_percentile_99: Binary64,
    pub error_rate_threshold: Binary64,
    /// In requests per minute.
    pub request_rate_threshold: Binary64,
    pub unusual_pattern_threshold: Binary64,
    pub security_threat_threshold: Binary64,
}

#[derive(Debug, Clone, Copy, PartialEq, Eq, Structural)]
pub struct AnomalyDetectionStats {
    pub monitored_paths: usize,
    pub monitored_ips: usize,
    pub response_time_samples: usize,
    pub thresholds: AnomalyThresholds,
}

/// A part of a description.
pub enum Piece {
    Text(String),
    /// A number, with as many digits as tell it from others.
    Number(Binary64),
    /// A number with two decimal places.
    TwoPlaces(Binary64),
}

/// An anomaly whose description is still in pieces.
pub struct Finding {
    pub anomaly_type: AnomalyType,
    pub severity: Binary64,
    pub description: Vec<Piece>,
    pub features: RequestFeatures,
}

/// A part of a description, as a value.
pub enum PieceModel {
    Text(Seq<char>),
    Number(Binary64),
    TwoPlaces(Binary64),
}

/// What a finding says, as a value.
#[verifier::ext_equal]
pub struct FindingModel {
    pub anomaly_type: AnomalyType,
    pub severity: Binary64,
    pub description: Seq<PieceModel>,
}

impl Piece {
    pub open spec fn view(&self) -> PieceModel {
        match self {
            Piece::Text(text) => PieceModel::Text(text@),
            Piece::Number(n) => PieceModel::Number(*n),
            Piece::TwoPlaces(n) => PieceModel::TwoPlaces(*n),
        }
    }
}

impl Finding {
    pub open spec fn view(&self) -> FindingModel {
        FindingModel {
            anomaly_type: self.anomaly_type,
            severity: self.severity,
            description: self.description@.map_values(|p: Piece| p@),
        }
    }

    /// The anomaly, with its description written out.
    pub fn described(self, description: String) -> (r: Anomaly)
        ensures
            r.anomaly_type == self.anomaly_type,
            r.severity == self.severity,
            r.description == description,
            r.features == self.features,
    {
        Anomaly {
            anomaly_type: self.anomaly_type,
            severity: self.severity,
            description,
            features: self.features,
        }
    }
}

/// Values with their times, the latest at the end.
struct TimeSeriesData {
    timestamps: VecDeque<Timestamp>,
    values: VecDeque<Binary64>,
    max_size: usize,
}

/// The series with one more value; if it is full, the oldest goes.
pub open spec fn with_point(series: Seq<(Timestamp, Binary64)>, max_size: nat, point: (
    Timestamp,
    Binary64,
)) -> Seq<(Timestamp, Binary64)> {
    if series.len() >= max_size {
        series.skip(1).push(point)
    } else {
        series.push(point)
    }
}

impl TimeSeriesData {
    spec fn well_formed(&self) -> bool {
        &&& self.timestamps@.len() == self.values@.len()
        &&& self.values@.len() <= self.max_size
        &&& self.max_size > 0
    }

    spec fn view(&self) -> Seq<(Timestamp, Binary64)> {
        Seq::new(self.values@.len(), |i: int| (self.timestamps@[i], self.values@[i]))
    }

    fn new(max_size: usize) -> (r: Self)
        requires
            max_size > 0,
        ensures
            r.well_formed(),
            r.max_size == max_size,
            r@ == Seq::<(Timestamp, Binary64)>::empty(),
    {
        TimeSeriesData {
            timestamps: VecDeque::with_capacity(max_size),
            values: VecDeque::with_capacity(max_size),
            max_size,
        }
    }

    fn add_point(&mut self, timestamp: Timestamp, value: Binary64)
        requires
            old(self).well_formed(),
        ensures
            final(self).well_formed(),
            final(self).max_size == old(self).max_size,
            final(self)@ == with_point(old(self)@, old(self).max_size as nat, (timestamp, value)),
    {
        if self.timestamps.len() >= self.max_size {
            self.timestamps.pop_front();
            self.values.pop_front();
        }
        self.timestamps.push_back(timestamp);
        self.values.push_back(value);
        assert(self@ =~= with_point(old(self)@, old(self).max_size as nat, (timestamp, value)));
    }
}

/// What is known of the requests to a path.
#[derive(Debug, Clone, Copy, PartialEq, Eq, Structural)]
pub struct PathStatistics {
    pub request_count: u64,
    pub avg_response_time: Binary64,
    pub error_count: u64,
    pub last_seen: Timestamp,
}

/// What is known of the requests of a client.
struct IpStatistics {
    request_count: u64,
    error_count: u64,
    blocked_count: u64,
    first_seen: Timestamp,
    last_seen: Timestamp,
    user_agents: Registry<u64>,
}

/// What is known of the requests of a client, as a value.
#[verifier::ext_equal]
pub struct ClientModel {
    pub request_count: u64,
    pub error_count: u64,
    pub blocked_count: u64,
    pub first_seen: Timestamp,
    pub last_seen: Timestamp,
    /// How often each user agent was seen.
    pub user_agents: Map<Seq<char>, u64>,
}

impl IpStatistics {
    spec fn view(&self) -> ClientModel {
        ClientModel {
            request_count: self.request_count,
            error_count: self.error_count,
            blocked_count: self.blocked_count,
            first_seen: self.first_seen,
            last_seen: self.last_seen,
            user_agents: self.user_agents@,
        }
    }
}

/// What a detector has gathered.
#[verifier::ext_equal]
pub struct DetectorModel {
    pub thresholds: AnomalyThresholds,
    pub response_times: Seq<(Timestamp, Binary64)>,
    pub paths: Map<Seq<char>, PathStatistics>,
    pub clients: Map<Seq<char>, ClientModel>,
}

/// The thresholds that a detector starts with.
pub open spec fn default_thresholds() -> AnomalyThresholds {
    AnomalyThresholds {
        response_time_percentile_99: Binary64 { bits: 0x40B3_8800_0000_0000 },
        error_rate_threshold: Binary64 { bits: 0x3FA9_9999_9999_999A },
        request_rate_threshold: Binary64 { bits: 0x408F_4000_0000_0000 },
        unusual_pattern_threshold: Binary64 { bits: 0x3FE9_9999_9999_999A },
        security_threat_threshold: Binary64 { bits: 0x3FEC_CCCC_CCCC_CCCD },
    }
}

/// A path of which nothing is known.
pub open spec fn new_path(now: Timestamp) -> PathStatistics {
    PathStatistics {
        request_count: 0,
        avg_response_time: Binary64 { bits: 0 },
        error_count: 0,
        last_seen: now,
    }
}

/// The average after one more value.
pub open spec fn running_average(average: Binary64, count: u64, ms: u64) -> Binary64 {
    average.product(Binary64::of_nat(count as nat)).sum(Binary64::of_nat(ms as nat)).quotient(
        Binary64::of_nat(count.wrapping_add(1) as nat),
    )
}

/// A path after one more request.
pub open spec fn path_with(p: PathStatistics, f: RequestFeatures, now: Timestamp) -> PathStatistics {
    PathStatistics {
        request_count: p.request_count.wrapping_add(1),
        avg_response_time: running_average(
            p.avg_response_time,
            p.request_count,
            f.response_time_ms,
        ),
        error_count: if f.status_code >= 400 {
            p.error_count.wrapping_add(1)
        } else {
            p.error_count
        },
        last_seen: now,
    }
}

/// A client of which nothing is known.
pub open spec fn new_client(now: Timestamp) -> ClientModel {
    ClientModel {
        request_count: 0,
        error_count: 0,
        blocked_count: 0,
        first_seen: now,
        last_seen: now,
        user_agents: Map::empty(),
    }
}

/// A client after one more request.
pub open spec fn client_with(c: ClientModel, f: RequestFeatures, now: Timestamp) -> ClientModel {
    let seen = if c.user_agents.contains_key(f.user_agent@) {
        c.user_agents[f.user_agent@]
    } else {
        0
    };
    ClientModel {
        request_count: c.request_count.wrapping_add(1),
        error_count: if f.status_code >= 400 {
            c.error_count.wrapping_add(1)
        } else {
            c.error_count
        },
        last_seen: now,
        user_agents: c.user_agents.insert(f.user_agent@, seen.wrapping_add(1)),
        ..c
    }
}

/// The statistics after one more request. Clients are not told apart yet.
pub open spec fn observed(m: DetectorModel, f: RequestFeatures, now: Timestamp) -> DetectorModel {
    let path = if m.paths.contains_key(f.path@) {
        m.paths[f.path@]
    } else {
        new_path(now)
    };
    let client = if m.clients.contains_key("unknown"@) {
        m.clients["unknown"@]
    } else {
        new_client(now)
    };
    DetectorModel {
        response_times: with_point(
            m.response_times,
            KEPT_SAMPLES as nat,
            (now, Binary64::of_nat(f.response_time_ms as nat)),
        ),
        paths: m.paths.insert(f.path@, path_with(path, f, now)),
        clients: m.clients.insert("unknown"@, client_with(client, f, now)),
        ..m
    }
}

/// A finding that is described by a text alone.
pub open spec fn plain(anomaly_type: AnomalyType, severity: Binary64, text: Seq<char>) -> Option<
    FindingModel,
> {
    Some(FindingModel { anomaly_type, severity, description: seq![PieceModel::Text(text)] })
}

/// The ratio of the two, but no more than one.
pub open spec fn capped_ratio(x: Binary64, y: Binary64) -> Binary64 {
    x.quotient(y).lesser(Binary64::one())
}

/// The request took longer than the threshold.
pub open spec fn slow_reply(t: AnomalyThresholds, f: RequestFeatures) -> Option<FindingModel> {
    let time = Binary64::of_nat(f.response_time_ms as nat);
    if time.above(t.response_time_percentile_99) {
        plain(
            AnomalyType::HighLatency,
            capped_ratio(time, t.response_time_percentile_99),
            "High response time: "@ + text::decimal(f.response_time_ms as nat) + "ms for "@
                + f.method@ + " "@ + f.path@,
        )
    } else {
        None
    }
}

/// The request took more than five times as long as is usual on its path, of which more
/// than ten requests are known.
pub open spec fn unusual_reply(
    paths: Map<Seq<char>, PathStatistics>,
    f: RequestFeatures,
) -> Option<FindingModel> {
    let usual = paths[f.path@];
    let ratio = Binary64::of_nat(f.response_time_ms as nat).quotient(usual.avg_response_time);
    if paths.contains_key(f.path@) && ratio.above(Binary64 { bits: 0x4014_0000_0000_0000 })
        && usual.request_count > 10 {
        Some(
            FindingModel {
                anomaly_type: AnomalyType::UnusualTrafficPattern,
                severity: capped_ratio(ratio, Binary64 { bits: 0x4024_0000_0000_0000 }),
                description: seq![
                    PieceModel::Text(
                        "Unusual response time for path "@ + f.path@ + ": "@ + text::decimal(
                            f.response_time_ms as nat,
                        ) + "ms vs avg "@,
                    ),
                    PieceModel::Number(usual.avg_response_time),
                    PieceModel::Text("ms"@),
                ],
            },
        )
    } else {
        None
    }
}

/// A path, in lower case, that looks like an injection of SQL: a union of selections, or
/// a quote and a comparison that is always true.
pub open spec fn looks_like_sql(path: Seq<char>) -> bool {
    ||| text::occurs(path, "union"@) && text::occurs(path, "select"@)
    ||| text::occurs(path, "'"@) && text::occurs(path, "or"@) && (text::occurs(path, "1=1"@)
        || text::occurs(path, "1'='1"@))
}

/// A path, in lower case, that looks like a script.
pub open spec fn looks_like_script(path: Seq<char>) -> bool {
    text::occurs(path, "<script"@) || text::occurs(path, "javascript:"@) || text::occurs(
        path,
        "onerror="@,
    )
}

/// A path, in lower case, that leaves its directory.
pub open spec fn looks_like_traversal(path: Seq<char>) -> bool {
    text::occurs(path, "../"@) || text::occurs(path, "..\\"@)
}

/// A user agent, in lower case, that is known to look for weak spots.
pub open spec fn looks_like_scanner(user_agent: Seq<char>) -> bool {
    text::occurs(user_agent, "sqlmap"@) || text::occurs(user_agent, "nikto"@) || text::occurs(
        user_agent,
        "nmap"@,
    ) || text::occurs(user_agent, "masscan"@)
}

/// The request looks like an attack, where its path and its user agent in lower case are
/// these.
pub open spec fn threat(f: RequestFeatures, path: Seq<char>, user_agent: Seq<char>) -> Option<
    FindingModel,
> {
    if looks_like_sql(path) {
        plain(
            AnomalyType::SecurityThreat,
            Binary64 { bits: 0x3FEC_CCCC_CCCC_CCCD },
            "Potential SQL injection attempt: "@ + f.path@,
        )
    } else if looks_like_script(path) {
        plain(
            AnomalyType::SecurityThreat,
            Binary64 { bits: 0x3FE9_9999_9999_999A },
            "Potential XSS attempt: "@ + f.path@,
        )
    } else if looks_like_traversal(path) {
        plain(
            AnomalyType::SecurityThreat,
            Binary64 { bits: 0x3FE6_6666_6666_6666 },
            "Potential directory traversal attempt: "@ + f.path@,
        )
    } else if looks_like_scanner(user_agent) {
        plain(
            AnomalyType::SecurityThreat,
            Binary64 { bits: 0x3FEE_6666_6666_6666 },
            "Suspicious user agent: "@ + f.user_agent@,
        )
    } else {
        None
    }
}

/// What is found out about a request: that it was slow, or else that it was unusual, or
/// else that it looks like an attack.
pub open spec fn found(
    m: DetectorModel,
    f: RequestFeatures,
    path: Seq<char>,
    user_agent: Seq<char>,
) -> Option<FindingModel> {
    if slow_reply(m.thresholds, f) is Some {
        slow_reply(m.thresholds, f)
    } else if unusual_reply(m.paths, f) is Some {
        unusual_reply(m.paths, f)
    } else {
        threat(f, path, user_agent)
    }
}

/// What an optional finding says.
pub open spec fn finding(r: Option<Finding>) -> Option<FindingModel> {
    match r {
        Some(f) => Some(f@),
        None => None,
    }
}

/// How many of the services are not healthy.
pub open spec fn unhealthy_count(services: Seq<(String, bool)>) -> nat
    decreases services.len(),
{
    if services.len() == 0 {
        0
    } else {
        unhealthy_count(services.drop_last()) + (if services.last().1 {
            0nat
        } else {
            1nat
        })
    }
}

/// Hundredths.
pub open spec fn percent(x: Binary64) -> Binary64 {
    x.product(Binary64 { bits: 0x4059_0000_0000_0000 })
}

/// What is found out about the state of the proxy: many errors, or else slow replies, or
/// else that more than half of the services are not healthy.
pub open spec fn system_finding(t: AnomalyThresholds, h: SystemHealth) -> Option<FindingModel> {
    let unhealthy = unhealthy_count(h.upstream_health@);
    let ratio = Binary64::of_nat(unhealthy).quotient(Binary64::of_nat(h.upstream_health@.len()));
    if h.error_rate.above(t.error_rate_threshold) {
        Some(
            FindingModel {
                anomaly_type: AnomalyType::ErrorSpike,
                severity: capped_ratio(h.error_rate, t.error_rate_threshold),
                description: seq![
                    PieceModel::Text("Error rate spike: "@),
                    PieceModel::TwoPlaces(percent(h.error_rate)),
                    PieceModel::Text("% (threshold: "@),
                    PieceModel::TwoPlaces(percent(t.error_rate_threshold)),
                    PieceModel::Text("%)"@),
                ],
            },
        )
    } else if h.avg_response_time.above(t.response_time_percentile_99) {
        Some(
            FindingModel {
                anomaly_type: AnomalyType::HighLatency,
                severity: capped_ratio(h.avg_response_time, t.response_time_percentile_99),
                description: seq![
                    PieceModel::Text("High average response time: "@),
                    PieceModel::TwoPlaces(h.avg_response_time),
                    PieceModel::Text("ms (threshold: "@),
                    PieceModel::TwoPlaces(t.response_time_percentile_99),
                    PieceModel::Text("ms)"@),
                ],
            },
        )
    } else if unhealthy > 0 && ratio.above(Binary64 { bits: 0x3FE0_0000_0000_0000 }) {
        plain(
            AnomalyType::ResourceExhaustion,
            ratio,
            "Multiple upstream services unhealthy: "@ + text::decimal(unhealthy) + "/"@
                + text::decimal(h.upstream_health@.len()),
        )
    } else {
        None
    }
}

/// The features that stand for the proxy itself.
pub open spec fn are_system_features(f: RequestFeatures) -> bool {
    &&& f.method@ == "SYSTEM"@
    &&& f.path@ == "/system/health"@
    &&& f.status_code == 200
    &&& f.response_time_ms == 0
    &&& f.request_size == 0
    &&& f.response_size == 0
    &&& f.user_agent@ == "system"@
}

/// A finding that a text describes.
fn plain_finding(
    anomaly_type: AnomalyType,
    severity: Binary64,
    description: String,
    features: RequestFeatures,
) -> (r: Option<Finding>)
    ensures
        finding(r) == plain(anomaly_type, severity, description@),
        r is Some,
        r->0.features == features,
{
    let r = Finding { anomaly_type, severity, description: vec![Piece::Text(description)], features };
    assert(r@.description =~= seq![PieceModel::Text(description@)]);
    Some(r)
}

pub struct AnomalyDetector {
    config: Arc<ProxyConfig>,
    thresholds: AnomalyThresholds,
    response_times: TimeSeriesData,
    path_patterns: Registry<PathStatistics>,
    ip_patterns: Registry<IpStatistics>,
}

impl AnomalyDetector {
    pub closed spec fn view(&self) -> DetectorModel {
        DetectorModel {
            thresholds: self.thresholds,
            response_times: self.response_times@,
            paths: self.path_patterns@,
            clients: self.ip_patterns@.map_values(|c: IpStatistics| c@),
        }
    }

    pub closed spec fn well_formed(&self) -> bool {
        &&& self.response_times.well_formed()
        &&& self.response_times.max_size == KEPT_SAMPLES
        &&& self.path_patterns.well_formed()
        &&& self.ip_patterns.well_formed()
        &&& forall|name: Seq<char>| #[trigger]
            self.ip_patterns@.contains_key(name)
                ==> self.ip_patterns@[name].user_agents.well_formed()
    }

    pub fn new(config: Arc<ProxyConfig>) -> (r: Self)
        ensures
            r.well_formed(),
            r@ == (DetectorModel {
                thresholds: default_thresholds(),
                response_times: Seq::empty(),
                paths: Map::empty(),
                clients: Map::empty(),
            }),
    {
        let r = AnomalyDetector {
            config,
            thresholds: AnomalyThresholds {
                response_time_percentile_99: Binary64 { bits: 0x40B3_8800_0000_0000 },
                error_rate_threshold: Binary64 { bits: 0x3FA9_9999_9999_999A },
                request_rate_threshold: Binary64 { bits: 0x408F_4000_0000_0000 },
                unusual_pattern_threshold: Binary64 { bits: 0x3FE9_9999_9999_999A },
                security_threat_threshold: Binary64 { bits: 0x3FEC_CCCC_CCCC_CCCD },
            },
            response_times: TimeSeriesData::new(KEPT_SAMPLES),
            path_patterns: Registry::new(),
            ip_patterns: Registry::new(),
        };
        assert(r@.clients =~= Map::<Seq<char>, ClientModel>::empty());
        r
    }

    /// Takes a request into the statistics, and tells what is out of the ordinary about it.
    pub fn detect_anomaly(&mut self, features: &RequestFeatures) -> (r: Option<Finding>)
        requires
            old(self).well_formed(),
        ensures
            final(self).well_formed(),
            exists|now: Timestamp|
                now.well_formed() && final(self)@ == #[trigger] observed(
                    old(self)@,
                    *features,
                    now,
                ),
            finding(r) == found(
                final(self)@,
                *features,
                text::lowered(features.path@),
                text::lowered(features.user_agent@),
            ),
            r matches Some(f) ==> f.features == *features,
    {
        let now: Timestamp = clock::utc_now();
        self.update_statistics(features, now);
        let path: String = text::to_lower(features.path.as_str());
        let user_agent: String = text::to_lower(features.user_agent.as_str());
        self.classify(features, path.as_str(), user_agent.as_str())
    }

    /// What is out of the ordinary about a request, where its path and its user agent in
    /// lower case are these.
    pub fn classify(&self, features: &RequestFeatures, path: &str, user_agent: &str) -> (r: Option<
        Finding,
    >)
        requires
            self.well_formed(),
        ensures
            finding(r) == found(self@, *features, path@, user_agent@),
            r matches Some(f) ==> f.features == *features,
    {
        let slow: Option<Finding> = self.detect_high_latency(features);
        if slow.is_some() {
            return slow;
        }
        let unusual: Option<Finding> = self.detect_unusual_traffic_pattern(features);
        if unusual.is_some() {
            return unusual;
        }
        Self::detect_security_threat(features, path, user_agent)
    }

    /// Takes a request into the statistics.
    pub fn update_statistics(&mut self, features: &RequestFeatures, now: Timestamp)
        requires
            old(self).well_formed(),
        ensures
            final(self).well_formed(),
            final(self)@ == observed(old(self)@, *features, now),
    {
        let time: Binary64 = Binary64::from_u64(features.response_time_ms);
        self.response_times.add_point(now, time);
        let mut path: PathStatistics = match self.path_patterns.get(features.path.as_str()) {
            Some(path) => *path,
            None => PathStatistics {
                request_count: 0,
                avg_response_time: Binary64 { bits: 0 },
                error_count: 0,
                last_seen: now,
            },
        };
        let before: Binary64 = path.avg_response_time.times(
            Binary64::from_u64(path.request_count),
        );
        path.request_count = path.request_count.wrapping_add(1);
        path.avg_response_time = before.plus(time).over(Binary64::from_u64(path.request_count));
        if features.status_code >= 400 {
            path.error_count = path.error_count.wrapping_add(1);
        }
        path.last_seen = now;
        self.path_patterns.insert(features.path.as_str(), path);
        if !self.ip_patterns.contains("unknown") {
            self.ip_patterns.insert(
                "unknown",
                IpStatistics {
                    request_count: 0,
                    error_count: 0,
                    blocked_count: 0,
                    first_seen: now,
                    last_seen: now,
                    user_agents: Registry::new(),
                },
            );
        }
        match self.ip_patterns.get_mut("unknown") {
            Some(client) => {
                client.record(features, now);
            },
            None => {},
        }
        assert(self@.clients =~= observed(old(self)@, *features, now).clients);
    }

    /// A request that took longer than the threshold.
    pub fn detect_high_latency(&self, features: &RequestFeatures) -> (r: Option<Finding>)
        ensures
            finding(r) == slow_reply(self@.thresholds, *features),
            r matches Some(f) ==> f.features == *features,
    {
        let time: Binary64 = Binary64::from_u64(features.response_time_ms);
        let limit: Binary64 = self.thresholds.response_time_percentile_99;
        if time.greater_than(limit) {
            let severity: Binary64 = time.over(limit).min(Binary64 { bits: 0x3FF0_0000_0000_0000 });
            let mut description: String = "High response time: ".to_string();
            description.append(text::to_decimal(features.response_time_ms).as_str());
            description.append("ms for ");
            description.append(features.method.as_str());
            description.append(" ");
            description.append(features.path.as_str());
            return plain_finding(
                AnomalyType::HighLatency,
                severity,
                description,
                features.clone(),
            );
        }
        None
    }

    /// A request that took much longer than is usual on its path.
    pub fn detect_unusual_traffic_pattern(&self, features: &RequestFeatures) -> (r: Option<Finding>)
        requires
            self.well_formed(),
        ensures
            finding(r) == unusual_reply(self@.paths, *features),
            r matches Some(f) ==> f.features == *features,
    {
        match self.path_patterns.get(features.path.as_str()) {
            Some(usual) => {
                let ratio: Binary64 = Binary64::from_u64(features.response_time_ms).over(
                    usual.avg_response_time,
                );
                if ratio.greater_than(Binary64 { bits: 0x4014_0000_0000_0000 })
                    && usual.request_count > 10 {
                    let severity: Binary64 = ratio.over(
                        Binary64 { bits: 0x4024_0000_0000_0000 },
                    ).min(Binary64 { bits: 0x3FF0_0000_0000_0000 });
                    let mut start: String = "Unusual response time for path ".to_string();
                    start.append(features.path.as_str());
                    start.append(": ");
                    start.append(text::to_decimal(features.response_time_ms).as_str());
                    start.append("ms vs avg ");
                    let r = Finding {
                        anomaly_type: AnomalyType::UnusualTrafficPattern,
                        severity,
                        description: vec![
                            Piece::Text(start),
                            Piece::Number(usual.avg_response_time),
                            Piece::Text("ms".to_string()),
                        ],
                        features: features.clone(),
                    };
                    assert(r@.description =~= unusual_reply(self@.paths, *features)->0.description);
                    return Some(r);
                }
                None
            },
            None => None,
        }
    }

    /// A request that looks like an attack, where its path and its user agent in lower case
    /// are these.
    pub fn detect_security_threat(features: &RequestFeatures, path: &str, user_agent: &str) -> (r:
        Option<Finding>)
        ensures
            finding(r) == threat(*features, path@, user_agent@),
            r matches Some(f) ==> f.features == *features,
    {
        if (text::contains(path, "union") && text::contains(path, "select")) || (text::contains(
            path,
            "'",
        ) && text::contains(path, "or") && (text::contains(path, "1=1") || text::contains(
            path,
            "1'='1",
        ))) {
            return plain_finding(
                AnomalyType::SecurityThreat,
                Binary64 { bits: 0x3FEC_CCCC_CCCC_CCCD },
                text::join("Potential SQL injection attempt: ", features.path.as_str()),
                features.clone(),
            );
        }
        if text::contains(path, "<script") || text::contains(path, "javascript:")
            || text::contains(path, "onerror=") {
            return plain_finding(
                AnomalyType::SecurityThreat,
                Binary64 { bits: 0x3FE9_9999_9999_999A },
                text::join("Potential XSS attempt: ", features.path.as_str()),
                features.clone(),
            );
        }
        if text::contains(path, "../") || text::contains(path, "..\\") {
            return plain_finding(
                AnomalyType::SecurityThreat,
                Binary64 { bits: 0x3FE6_6666_6666_6666 },
                text::join("Potential directory traversal attempt: ", features.path.as_str()),
                features.clone(),
            );
        }
        if text::contains(user_agent, "sqlmap") || text::contains(user_agent, "nikto")
            || text::contains(user_agent, "nmap") || text::contains(user_agent, "masscan") {
            return plain_finding(
                AnomalyType::SecurityThreat,
                Binary64 { bits: 0x3FEE_6666_6666_6666 },
                text::join("Suspicious user agent: ", features.user_agent.as_str()),
                features.clone(),
            );
        }
        None
    }

    /// What is out of the ordinary about the state of the proxy.
    pub fn detect_system_anomaly(&self, health: &SystemHealth) -> (r: Option<Finding>)
        ensures
            finding(r) == system_finding(self@.thresholds, *health),
            r matches Some(f) ==> are_system_features(f.features),
    {
        let t: AnomalyThresholds = self.thresholds;
        let one: Binary64 = Binary64 { bits: 0x3FF0_0000_0000_0000 };
        let hundred: Binary64 = Binary64 { bits: 0x4059_0000_0000_0000 };
        if health.error_rate.greater_than(t.error_rate_threshold) {
            let r = Finding {
                anomaly_type: AnomalyType::ErrorSpike,
                severity: health.error_rate.over(t.error_rate_threshold).min(one),
                description: vec![
                    Piece::Text("Error rate spike: ".to_string()),
                    Piece::TwoPlaces(health.error_rate.times(hundred)),
                    Piece::Text("% (threshold: ".to_string()),
                    Piece::TwoPlaces(t.error_rate_threshold.times(hundred)),
                    Piece::Text("%)".to_string()),
                ],
                features: Self::create_dummy_features(),
            };
            assert(r@.description =~= system_finding(t, *health)->0.description);
            return Some(r);
        }
        if health.avg_response_time.greater_than(t.response_time_percentile_99) {
            let r = Finding {
                anomaly_type: AnomalyType::HighLatency,
                severity: health.avg_response_time.over(t.response_time_percentile_99).min(one),
                description: vec![
                    Piece::Text("High average response time: ".to_string()),
                    Piece::TwoPlaces(health.avg_response_time),
                    Piece::Text("ms (threshold: ".to_string()),
                    Piece::TwoPlaces(t.response_time_percentile_99),
                    Piece::Text("ms)".to_string()),
                ],
                features: Self::create_dummy_features(),
            };
            assert(r@.description =~= system_finding(t, *health)->0.description);
            return Some(r);
        }
        let unhealthy: usize = count_unhealthy(&health.upstream_health);
        if unhealthy > 0 {
            let total: usize = health.upstream_health.len();
            let ratio: Binary64 = Binary64::from_u64(unhealthy as u64).over(
                Binary64::from_u64(total as u64),
            );
            if ratio.greater_than(Binary64 { bits: 0x3FE0_0000_0000_0000 }) {
                let mut description: String = "Multiple upstream services unhealthy: ".to_string();
                description.append(text::to_decimal(unhealthy as u64).as_str());
                description.append("/");
                description.append(text::to_decimal(total as u64).as_str());
                return plain_finding(
                    AnomalyType::ResourceExhaustion,
                    ratio,
                    description,
                    Self::create_dummy_features(),
                );
            }
        }
        None
    }

    fn create_dummy_features() -> (r: RequestFeatures)
        ensures
            are_system_features(r),
    {
        RequestFeatures {
            method: "SYSTEM".to_string(),
            path: "/system/health".to_string(),
            status_code: 200,
            response_time_ms: 0,
            request_size: 0,
            response_size: 0,
            user_agent: "system".to_string(),
            timestamp: clock::utc_now(),
        }
    }

    pub fn update_thresholds(&mut self, thresholds: AnomalyThresholds)
        requires
            old(self).well_formed(),
        ensures
            final(self).well_formed(),
            final(self)@ == (DetectorModel { thresholds, ..old(self)@ }),
    {
        self.thresholds = thresholds;
    }

    pub fn get_statistics(&self) -> (r: AnomalyDetectionStats)
        requires
            self.well_formed(),
        ensures
            r.monitored_paths == self@.paths.dom().len(),
            r.monitored_ips == self@.clients.dom().len(),
            r.response_time_samples == self@.response_times.len(),
            r.thresholds == self@.thresholds,
    {
        assert(self@.clients.dom() =~= self.ip_patterns@.dom());
        AnomalyDetectionStats {
            monitored_paths: self.path_patterns.len(),
            monitored_ips: self.ip_patterns.len(),
            response_time_samples: self.response_times.values.len(),
            thresholds: self.thresholds,
        }
    }
}

fn count_unhealthy(services: &Vec<(String, bool)>) -> (r: usize)
    ensures
        r == unhealthy_count(services@),
        r <= services@.len(),
{
    let mut r: usize = 0;
    let mut i: usize = 0;
    while i < services.len()
        invariant
            r <= i <= services@.len(),
            r == unhealthy_count(services@.take(i as int)),
        decreases services@.len() - i,
    {
        assert(services@.take(i + 1).drop_last() =~= services@.take(i as int));
        if !services[i].1 {
            r = r + 1;
        }
        i = i + 1;
    }
    assert(services@.take(i as int) =~= services@);
    r
}

impl IpStatistics {
    fn record(&mut self, features: &RequestFeatures, now: Timestamp)
        requires
            old(self).user_agents.well_formed(),
        ensures
            final(self).user_agents.well_formed(),
            final(self)@ == client_with(old(self)@, *features, now),
    {
        self.request_count = self.request_count.wrapping_add(1);
        self.last_seen = now;
        if features.status_code >= 400 {
            self.error_count = self.error_count.wrapping_add(1);
        }
        let seen: u64 = match self.user_agents.get(features.user_agent.as_str()) {
            Some(seen) => *seen,
            None => 0,
        };
        self.user_agents.insert(features.user_agent.as_str(), seen.wrapping_add(1));
    }
}

/// A request that looks like an attack never goes unnoticed.
pub proof fn attacks_are_noticed(
    m: DetectorModel,
    f: RequestFeatures,
    path: Seq<char>,
    user_agent: Seq<char>,
)
    requires
        looks_like_sql(path) || looks_like_script(path) || looks_like_traversal(path)
            || looks_like_scanner(user_agent),
    ensures
        found(m, f, path, user_agent) is Some,
{
}

/// A request that is neither slow nor unusual nor looks like an attack is left alone.
pub proof fn ordinary_requests_are_left_alone(
    m: DetectorModel,
    f: RequestFeatures,
    path: Seq<char>,
    user_agent: Seq<char>,
)
    requires
        !Binary64::of_nat(f.response_time_ms as nat).above(
            m.thresholds.response_time_percentile_99,
        ),
        !m.paths.contains_key(f.path@) || m.paths[f.path@].request_count <= 10,
        !looks_like_sql(path) && !looks_like_script(path) && !looks_like_traversal(path),
        !looks_like_scanner(user_agent),
    ensures
        found(m, f, path, user_agent) is None,
{
}

/// No anomaly is more severe than one.
pub proof fn severities_are_at_most_one(
    m: DetectorModel,
    f: RequestFeatures,
    path: Seq<char>,
    user_agent: Seq<char>,
    h: SystemHealth,
)
    requires
        h.upstream_health@.len() <= 0x20_0000_0000_0000,
    ensures
        found(m, f, path, user_agent) matches Some(a) ==> !a.severity.above(Binary64::one()),
        system_finding(m.thresholds, h) matches Some(a) ==> !a.severity.above(Binary64::one()),
{
    let all = h.upstream_health@.len();
    let some = unhealthy_count(h.upstream_health@);
    lemma_unhealthy_count(h.upstream_health@);
    if some > 0 {
        let unit = vstd::arithmetic::power2::pow2(binary64::UNIT_PLACES as nat);
        vstd::arithmetic::power2::lemma_pow2_pos(binary64::UNIT_PLACES as nat);
        binary64::whole_numbers_are_exact(all);
        binary64::whole_numbers_are_exact(some);
        binary64::order_is_that_of_values(Binary64::of_nat(some), Binary64::of_nat(all));
        assert(0 < some * unit <= all * unit) by (nonlinear_arith)
            requires
                0 < some <= all,
                unit > 0,
        ;
        binary64::shares_are_at_most_one(Binary64::of_nat(some), Binary64::of_nat(all));
    }
}

proof fn lemma_unhealthy_count(services: Seq<(String, bool)>)
    ensures
        unhealthy_count(services) <= services.len(),
    decreases services.len(),
{
    if services.len() > 0 {
        lemma_unhealthy_count(services.drop_last());
    }
}

/// No more values are kept than there is room for.
pub proof fn kept_samples_are_limited(
    series: Seq<(Timestamp, Binary64)>,
    max_size: nat,
    point: (Timestamp, Binary64),
)
    requires
        series.len() <= max_size,
        max_size > 0,
    ensures
        with_point(series, max_size, point).len() <= max_size,
        with_point(series, max_size, point).last() == point,
{
}

/// The text stands somewhere in the whole.
pub open spec fn stands(whole: Seq<char>, part: Seq<char>) -> bool {
    !text::stands_nowhere(whole, part)
}

/// An attack is told by its marks, wherever in the path or in the user agent they stand: SQL
/// first, scripts second, a way out of the directory third, and the name of a scanner last. It
/// is as severe as its kind is. A request without any of the marks is no attack.
pub proof fn attacks_are_told_by_their_marks(
    f: RequestFeatures,
    path: Seq<char>,
    user_agent: Seq<char>,
)
    ensures
        ({
            let r = threat(f, path, user_agent);
            let sql = stands(path, "union"@) && stands(path, "select"@) || stands(path, "'"@)
                && stands(path, "or"@) && (stands(path, "1=1"@) || stands(path, "1'='1"@));
            let script = stands(path, "<script"@) || stands(path, "javascript:"@) || stands(
                path,
                "onerror="@,
            );
            let way_out = stands(path, "../"@) || stands(path, "..\\"@);
            let scanner = stands(user_agent, "sqlmap"@) || stands(user_agent, "nikto"@) || stands(
                user_agent,
                "nmap"@,
            ) || stands(user_agent, "masscan"@);
            &&& r is Some <==> sql || script || way_out || scanner
            &&& r is Some ==> r->0.anomaly_type == AnomalyType::SecurityThreat
                && r->0.description.len() == 1
            &&& sql ==> r->0.severity.bits == 0x3FEC_CCCC_CCCC_CCCD && r->0.description[0]
                == PieceModel::Text("Potential SQL injection attempt: "@ + f.path@)
            &&& script && !sql ==> r->0.severity.bits == 0x3FE9_9999_9999_999A
                && r->0.description[0] == PieceModel::Text("Potential XSS attempt: "@ + f.path@)
            &&& way_out && !sql && !script ==> r->0.severity.bits == 0x3FE6_6666_6666_6666
                && r->0.description[0] == PieceModel::Text(
                "Potential directory traversal attempt: "@ + f.path@,
            )
            &&& scanner && !sql && !script && !way_out ==> r->0.severity.bits
                == 0x3FEE_6666_6666_6666 && r->0.description[0] == PieceModel::Text(
                "Suspicious user agent: "@ + f.user_agent@,
            )
        }),
{
    text::what_stands_nowhere_is_no_part(path, "union"@);
    text::what_stands_nowhere_is_no_part(path, "select"@);
    text::what_stands_nowhere_is_no_part(path, "'"@);
    text::what_stands_nowhere_is_no_part(path, "or"@);
    text::what_stands_nowhere_is_no_part(path, "1=1"@);
    text::what_stands_nowhere_is_no_part(path, "1'='1"@);
    text::what_stands_nowhere_is_no_part(path, "<script"@);
    text::what_stands_nowhere_is_no_part(path, "javascript:"@);
    text::what_stands_nowhere_is_no_part(path, "onerror="@);
    text::what_stands_nowhere_is_no_part(path, "../"@);
    text::what_stands_nowhere_is_no_part(path, "..\\"@);
    text::what_stands_nowhere_is_no_part(user_agent, "sqlmap"@);
    text::what_stands_nowhere_is_no_part(user_agent, "nikto"@);
    text::what_stands_nowhere_is_no_part(user_agent, "nmap"@);
    text::what_stands_nowhere_is_no_part(user_agent, "masscan"@);
}

/// A request that took more than its threshold is slow, one that took the threshold or less is
/// not; and a slow one is as severe as can be. What is found of it comes before everything
/// else.
pub proof fn requests_past_the_threshold_are_slow(
    m: DetectorModel,
    f: RequestFeatures,
    path: Seq<char>,
    user_agent: Seq<char>,
    limit: nat,
)
    requires
        0 < limit <= 0x20_0000_0000_0000,
        f.response_time_ms <= 0x20_0000_0000_0000,
        m.thresholds.response_time_percentile_99 == Binary64::of_nat(limit),
    ensures
        slow_reply(m.thresholds, f) is Some <==> f.response_time_ms > limit,
        f.response_time_ms > limit ==> {
            &&& found(m, f, path, user_agent) == slow_reply(m.thresholds, f)
            &&& found(m, f, path, user_agent)->0.anomaly_type == AnomalyType::HighLatency
            &&& found(m, f, path, user_agent)->0.severity == Binary64::one()
            &&& found(m, f, path, user_agent)->0.description == seq![
                PieceModel::Text(
                    "High response time: "@ + text::decimal(f.response_time_ms as nat)
                        + "ms for "@ + f.method@ + " "@ + f.path@,
                ),
            ]
        },
        f.response_time_ms <= limit ==> found(m, f, path, user_agent) == (if unusual_reply(
            m.paths,
            f,
        ) is Some {
            unusual_reply(m.paths, f)
        } else {
            threat(f, path, user_agent)
        }),
{
    let time = Binary64::of_nat(f.response_time_ms as nat);
    let bound = Binary64::of_nat(limit);
    lemma_whole_order(f.response_time_ms as nat, limit);
    if f.response_time_ms > limit {
        lemma_ratio_is_capped(f.response_time_ms as nat, limit);
    }
}

proof fn lemma_whole_order(a: nat, b: nat)
    requires
        a <= 0x20_0000_0000_0000,
        b <= 0x20_0000_0000_0000,
    ensures
        Binary64::of_nat(a).above(Binary64::of_nat(b)) <==> a > b,
{
    let unit = vstd::arithmetic::power2::pow2(binary64::UNIT_PLACES as nat);
    vstd::arithmetic::power2::lemma_pow2_pos(binary64::UNIT_PLACES as nat);
    binary64::whole_numbers_are_exact(a);
    binary64::whole_numbers_are_exact(b);
    binary64::order_is_that_of_values(Binary64::of_nat(a), Binary64::of_nat(b));
    assert(a * unit > b * unit <==> a > b) by (nonlinear_arith)
        requires
            unit > 0,
    ;
}

/// A ratio of one or more is capped to one.
proof fn lemma_ratio_is_capped(a: nat, b: nat)
    requires
        0 < b <= a <= 0x20_0000_0000_0000,
    ensures
        capped_ratio(Binary64::of_nat(a), Binary64::of_nat(b)) == Binary64::one(),
{
    binary64::whole_numbers_are_finite(a);
    binary64::whole_numbers_are_finite(b);
    binary64::whole_numbers_keep_order(b, a);
    precision::shares_follow_counts(b, b, b);
    precision::quotients_keep_order(
        Binary64::of_nat(b),
        Binary64::of_nat(a),
        Binary64::of_nat(b),
    );
}

/// A request is unusual if its path is known by more than ten requests and it took more than
/// five times as long as these on average.
pub proof fn unusual_is_five_times_the_average(
    paths: Map<Seq<char>, PathStatistics>,
    f: RequestFeatures,
    average: nat,
)
    requires
        f.response_time_ms <= 0x20_0000_0000_0000,
        0 < average <= 0x1_0000_0000_0000,
        paths.contains_key(f.path@) ==> paths[f.path@].avg_response_time == Binary64::of_nat(
            average,
        ),
    ensures
        unusual_reply(paths, f) is Some <==> paths.contains_key(f.path@)
            && paths[f.path@].request_count > 10 && f.response_time_ms > 5 * average,
        unusual_reply(paths, f) is Some ==> unusual_reply(paths, f)->0.anomaly_type
            == AnomalyType::UnusualTrafficPattern,
        unusual_reply(paths, f) is Some ==> unusual_reply(paths, f)->0.description.len() == 3
            && unusual_reply(paths, f)->0.description[1] == PieceModel::Number(
            paths[f.path@].avg_response_time,
        ),
{
    lemma_five();
    let five = Binary64 { bits: 0x4014_0000_0000_0000 };
    let unit = vstd::arithmetic::power2::pow2(binary64::UNIT_PLACES as nat);
    assert(five.value() * 1 == 5 * unit);
    precision::ratios_are_told_apart(f.response_time_ms as nat, average, five, 5, 1);
}

proof fn lemma_five()
    ensures
        ({
            let five = Binary64 { bits: 0x4014_0000_0000_0000 };
            &&& five.finite() && !five.negative() && five.magnitude() >= binary64::FRACTION
            &&& five.value() == 5 * vstd::arithmetic::power2::pow2(binary64::UNIT_PLACES as nat)
        }),
{
    vstd::arithmetic::power2::lemma2_to64();
    vstd::arithmetic::power2::lemma2_to64_rest();
    binary64::lemma_units_of_fields(0x401, 0x4_0000_0000_0000);
    vstd::arithmetic::power2::lemma_pow2_adds(50, 1024);
}

/// Every service that is not healthy counts once, wherever in the list it stands, and no other
/// does.
pub proof fn every_unhealthy_service_counts(
    before: Seq<(String, bool)>,
    entry: (String, bool),
    after: Seq<(String, bool)>,
)
    ensures
        unhealthy_count(before.push(entry) + after) == unhealthy_count(before + after) + (
        if entry.1 {
            0int
        } else {
            1
        }),
        unhealthy_count(Seq::empty()) == 0,
    decreases after.len(),
{
    let all = before.push(entry) + after;
    if after.len() == 0 {
        assert(all =~= before.push(entry));
        assert(before + after =~= before);
        assert(before.push(entry).drop_last() =~= before);
    } else {
        every_unhealthy_service_counts(before, entry, after.drop_last());
        assert(all.drop_last() =~= before.push(entry) + after.drop_last());
        assert((before + after).drop_last() =~= before + after.drop_last());
        assert(all.last() == after.last() && (before + after).last() == after.last());
    }
}

/// The proxy is out of the ordinary by too many errors, or else by slow replies, or else if more
/// than half of its services are not healthy; and by nothing else. The last is as severe as the
/// share of these services is great.
pub proof fn the_state_of_the_proxy_is_told(t: AnomalyThresholds, h: SystemHealth)
    requires
        h.upstream_health@.len() <= 0x1_0000_0000_0000,
    ensures
        ({
            let r = system_finding(t, h);
            let unhealthy = unhealthy_count(h.upstream_health@);
            let errors = h.error_rate.above(t.error_rate_threshold);
            let slow = h.avg_response_time.above(t.response_time_percentile_99);
            let ill = 2 * unhealthy > h.upstream_health@.len();
            &&& r is Some <==> errors || slow || ill
            &&& errors ==> r->0.anomaly_type == AnomalyType::ErrorSpike && r->0.description == seq![
                PieceModel::Text("Error rate spike: "@),
                PieceModel::TwoPlaces(h.error_rate.product(Binary64::of_nat(100))),
                PieceModel::Text("% (threshold: "@),
                PieceModel::TwoPlaces(t.error_rate_threshold.product(Binary64::of_nat(100))),
                PieceModel::Text("%)"@),
            ]
            &&& slow && !errors ==> r->0.anomaly_type == AnomalyType::HighLatency
                && r->0.description == seq![
                PieceModel::Text("High average response time: "@),
                PieceModel::TwoPlaces(h.avg_response_time),
                PieceModel::Text("ms (threshold: "@),
                PieceModel::TwoPlaces(t.response_time_percentile_99),
                PieceModel::Text("ms)"@),
            ]
            &&& ill && !errors && !slow ==> {
                &&& r->0.anomaly_type == AnomalyType::ResourceExhaustion
                &&& r->0.severity == Binary64::of_nat(unhealthy).quotient(
                    Binary64::of_nat(h.upstream_health@.len()),
                )
                &&& r->0.description == seq![
                    PieceModel::Text(
                        "Multiple upstream services unhealthy: "@ + text::decimal(unhealthy)
                            + "/"@ + text::decimal(h.upstream_health@.len()),
                    ),
                ]
            }
        }),
{
    let unhealthy = unhealthy_count(h.upstream_health@);
    let n = h.upstream_health@.len();
    super::learning::lemma_hundred();
    lemma_unhealthy_count(h.upstream_health@);
    if n > 0 {
        precision::halves_are_told_apart(unhealthy, n);
    }
}

/// What took longer than the threshold, by however little, is as severe as can be.
pub proof fn spikes_are_as_severe_as_can_be(t: AnomalyThresholds, h: SystemHealth)
    requires
        t.error_rate_threshold.finite() && !t.error_rate_threshold.negative()
            && !t.error_rate_threshold.zero(),
        t.response_time_percentile_99.finite() && !t.response_time_percentile_99.negative()
            && !t.response_time_percentile_99.zero(),
        h.error_rate.finite(),
        h.avg_response_time.finite(),
        h.error_rate.above(t.error_rate_threshold) || h.avg_response_time.above(
            t.response_time_percentile_99,
        ),
    ensures
        system_finding(t, h)->0.severity == Binary64::one(),
{
    if h.error_rate.above(t.error_rate_threshold) {
        lemma_more_is_one(h.error_rate, t.error_rate_threshold);
    } else {
        lemma_more_is_one(h.avg_response_time, t.response_time_percentile_99);
    }
}

proof fn lemma_more_is_one(x: Binary64, y: Binary64)
    requires
        x.finite(),
        y.finite() && !y.negative() && !y.zero(),
        x.above(y),
    ensures
        capped_ratio(x, y) == Binary64::one(),
{
    precision::over_itself_is_one(y);
    precision::quotients_keep_order(y, x, y);
}

/// A series keeps the latest values: the new one is the last, and of the others only the oldest
/// is given up, when there is no room.
pub proof fn the_latest_values_are_kept(
    series: Seq<(Timestamp, Binary64)>,
    max_size: nat,
    point: (Timestamp, Binary64),
)
    requires
        0 < max_size,
        series.len() <= max_size,
    ensures
        with_point(series, max_size, point).last() == point,
        series.len() < max_size ==> with_point(series, max_size, point).drop_last() == series,
        series.len() == max_size ==> with_point(series, max_size, point).drop_last()
            == series.skip(1),
{
    let all = with_point(series, max_size, point);
    if series.len() < max_size {
        assert(all.drop_last() =~= series);
    } else {
        assert(all.drop_last() =~= series.skip(1));
    }
}

/// A request counts for its own path and for its client, and for no other path; an error, which
/// is a status of 400 or more, counts as one. Its time is the latest that is kept, and the
/// thresholds stay.
pub proof fn requests_count_for_their_path(
    m: DetectorModel,
    f: RequestFeatures,
    now: Timestamp,
    other: Seq<char>,
)
    requires
        m.response_times.len() <= 1000,
        m.paths.contains_key(f.path@) ==> m.paths[f.path@].request_count < u64::MAX
            && m.paths[f.path@].error_count < u64::MAX,
        m.clients.contains_key("unknown"@) ==> m.clients["unknown"@].request_count < u64::MAX
            && m.clients["unknown"@].error_count < u64::MAX,
    ensures
        ({
            let after = observed(m, f, now);
            let p = after.paths[f.path@];
            let c = after.clients["unknown"@];
            let error: int = if f.status_code >= 400 {
                1
            } else {
                0
            };
            &&& after.thresholds == m.thresholds
            &&& after.response_times.last() == (now, Binary64::of_nat(f.response_time_ms as nat))
            &&& m.response_times.len() < 1000 ==> after.response_times.drop_last()
                == m.response_times
            &&& after.paths.contains_key(f.path@)
            &&& p.last_seen == now
            &&& m.paths.contains_key(f.path@) ==> p.request_count
                == m.paths[f.path@].request_count + 1 && p.error_count
                == m.paths[f.path@].error_count + error
            &&& !m.paths.contains_key(f.path@) ==> p.request_count == 1 && p.error_count == error
                && p.avg_response_time == Binary64::of_nat(f.response_time_ms as nat)
            &&& other != f.path@ ==> after.paths.contains_key(other) == m.paths.contains_key(other)
                && after.paths[other] == m.paths[other]
            &&& after.clients.contains_key("unknown"@)
            &&& c.last_seen == now
            &&& m.clients.contains_key("unknown"@) ==> {
                let before = m.clients["unknown"@];
                &&& c.request_count == before.request_count + 1
                &&& c.error_count == before.error_count + error
                &&& c.first_seen == before.first_seen
                &&& c.blocked_count == before.blocked_count
            }
            &&& !m.clients.contains_key("unknown"@) ==> c.request_count == 1 && c.error_count
                == error && c.first_seen == now && c.blocked_count == 0
            &&& other != "unknown"@ ==> after.clients.contains_key(other)
                == m.clients.contains_key(other) && after.clients[other] == m.clients[other]
        }),
{
    let after = observed(m, f, now);
    the_latest_values_are_kept(
        m.response_times,
        1000,
        (now, Binary64::of_nat(f.response_time_ms as nat)),
    );
    averages_start_with_the_first_value(f.response_time_ms);
}

/// Each user agent of a client is counted for itself.
pub proof fn user_agents_are_counted_apart(
    c: ClientModel,
    f: RequestFeatures,
    now: Timestamp,
    other: Seq<char>,
)
    requires
        c.user_agents.contains_key(f.user_agent@) ==> c.user_agents[f.user_agent@] < u64::MAX,
    ensures
        ({
            let after = client_with(c, f, now).user_agents;
            &&& after.contains_key(f.user_agent@)
            &&& c.user_agents.contains_key(f.user_agent@) ==> after[f.user_agent@]
                == c.user_agents[f.user_agent@] + 1
            &&& !c.user_agents.contains_key(f.user_agent@) ==> after[f.user_agent@] == 1
            &&& other != f.user_agent@ ==> after.contains_key(other) == c.user_agents.contains_key(
                other,
            ) && after[other] == c.user_agents[other]
        }),
{
}

/// The average of one value is the value.
proof fn averages_start_with_the_first_value(ms: u64)
    ensures
        running_average(Binary64 { bits: 0 }, 0, ms) == Binary64::of_nat(ms as nat),
{
    let zero = Binary64 { bits: 0 };
    let value = Binary64::of_nat(ms as nat);
    binary64::zero_is_zero();
    binary64::zero_stays_zero(zero);
    binary64::whole_numbers_are_finite(ms as nat);
    binary64::neutral_numbers(value);
    binary64::one_is_one();
}

/// The average of whole numbers is theirs: where the values so far and the new one together are
/// a whole multiple of their number, it is that multiple, as long as doubles are exact.
pub proof fn averages_of_whole_values_are_exact(average: nat, count: u64, ms: u64, next: nat)
    requires
        count < u64::MAX,
        average * count + ms == next * (count + 1),
        average * count + ms <= 0x20_0000_0000_0000,
        average <= 0x20_0000_0000_0000,
        count <= 0x20_0000_0000_0000,
    ensures
        running_average(Binary64::of_nat(average), count, ms) == Binary64::of_nat(next),
{
    let n = (average * count) as nat;
    assert(n >= 0) by (nonlinear_arith)
        requires
            n == average * count,
            average >= 0,
            count >= 0,
    ;
    binary64::whole_numbers_add_and_multiply(average, count as nat);
    binary64::whole_numbers_add_and_multiply(n, ms as nat);
    precision::multiples_divide_evenly(next, (count + 1) as nat);
}

/// An unusual request is as severe as its time is in tenths of ten times the average, and as
/// severe as can be from ten times on.
pub proof fn unusual_requests_grow_severe(
    paths: Map<Seq<char>, PathStatistics>,
    f: RequestFeatures,
    average: nat,
    times: nat,
)
    requires
        paths.contains_key(f.path@),
        paths[f.path@].avg_response_time == Binary64::of_nat(average),
        paths[f.path@].request_count > 10,
        0 < average <= 0x1_0000_0000_0000,
        f.response_time_ms == times * average,
        f.response_time_ms <= 0x20_0000_0000_0000,
        times > 5,
    ensures
        unusual_reply(paths, f) is Some,
        times >= 10 ==> unusual_reply(paths, f)->0.severity == Binary64::one(),
        times < 10 ==> unusual_reply(paths, f)->0.severity == Binary64::of_nat(times).quotient(
            Binary64::of_nat(10),
        ),
        unusual_reply(paths, f)->0.description == seq![
            PieceModel::Text(
                "Unusual response time for path "@ + f.path@ + ": "@ + text::decimal(
                    f.response_time_ms as nat,
                ) + "ms vs avg "@,
            ),
            PieceModel::Number(Binary64::of_nat(average)),
            PieceModel::Text("ms"@),
        ],
{
    assert(times * average > 5 * average && times <= times * average) by (nonlinear_arith)
        requires
            times > 5,
            average > 0,
    ;
    unusual_is_five_times_the_average(paths, f, average);
    precision::multiples_divide_evenly(times, average);
    lemma_ten();
    if times >= 10 {
        lemma_ratio_is_capped(times, 10);
    } else {
        lemma_share_is_not_capped(times);
    }
}

proof fn lemma_share_is_not_capped(times: nat)
    requires
        times < 10,
    ensures
        capped_ratio(Binary64::of_nat(times), Binary64::of_nat(10)) == Binary64::of_nat(
            times,
        ).quotient(Binary64::of_nat(10)),
{
    binary64::whole_numbers_are_finite(times);
    binary64::whole_numbers_are_finite(10);
    binary64::whole_numbers_keep_order(times, 10);
    binary64::shares_are_at_most_one(Binary64::of_nat(times), Binary64::of_nat(10));
}

/// The double of ten.
proof fn lemma_ten()
    ensures
        Binary64::of_nat(10) == (Binary64 { bits: 0x4024_0000_0000_0000 }),
{
    let unit = vstd::arithmetic::power2::pow2(binary64::UNIT_PLACES as nat);
    let m = 0x4024_0000_0000_0000nat;
    vstd::arithmetic::power2::lemma2_to64();
    vstd::arithmetic::power2::lemma2_to64_rest();
    binary64::lemma_units_of_fields(0x402, 0x4_0000_0000_0000);
    vstd::arithmetic::power2::lemma_pow2_adds(49, 1025);
    assert(binary64::units(m) == 10 * unit);
    binary64::lemma_round_is_exact(m, 1);
    assert(binary64::units(m) * 1 == binary64::units(m));
}

} // verus!
