//! The server: what becomes of a request, from its arrival to the reply.
//!
//! A request goes through the middleware, to the service that it names, to an endpoint of
//! that service, and past the circuit breaker. Then it is forwarded, and what comes back
//! goes through the middleware again.
use super::circuit_breaker;
use super::circuit_breaker::{CircuitBreaker, CircuitBreakerState, CircuitState};
use super::exposition;
use super::load_balancer;
use super::load_balancer::{LoadBalancer, LoadBalancingAlgorithm, Pool};
use super::middleware;
use super::middleware::{ChainModel, MiddlewareChain, Moment};
use super::retry::RetryPolicy;
use crate::ai::agent;
use crate::ai::agent::{AiAgent, HealthAnalysis};
use crate::ai::anomaly_detection;
use crate::ai::decision_engine;
use crate::clock::Clock;
use crate::config::{ProxyConfig, RetryConfig};
use crate::http;
use crate::http::{has_room, Reply, ReplyModel, RequestHead, RequestModel};
use crate::registry::Registry;
use crate::text;
use hyper::header::HeaderMap;
use std::sync::Arc;
use vstd::prelude::*;
use vstd::string::StringExecFns;

verus! {

/// What the proxy counts. Counters go up to their limit and round.
pub struct ProxyMetrics {
    pub total_requests: u64,
    pub successful_requests: u64,
    pub failed_requests: u64,
    pub active_connections: u64,
    /// In milliseconds.
    pub response_times: Vec<u64>,
    /// The services, and whether they are healthy.
    pub upstream_health: Registry<bool>,
}

impl ProxyMetrics {
    pub open spec fn well_formed(&self) -> bool {
        self.upstream_health.well_formed()
    }

    /// The counters in the text format of Prometheus.
    pub open spec fn counters(&self) -> Seq<char> {
        "# HELP proxy_requests_total Total number of requests\n"@
            + "# TYPE proxy_requests_total counter\n"@ + "proxy_requests_total "@ + text::decimal(
            self.total_requests as nat,
        ) + "\n"@
            + "# HELP proxy_requests_successful_total Total number of successful requests\n"@
            + "# TYPE proxy_requests_successful_total counter\n"@
            + "proxy_requests_successful_total "@ + text::decimal(self.successful_requests as nat)
            + "\n"@ + "# HELP proxy_requests_failed_total Total number of failed requests\n"@
            + "# TYPE proxy_requests_failed_total counter\n"@ + "proxy_requests_failed_total "@
            + text::decimal(self.failed_requests as nat) + "\n"@
    }

    /// The counters, the distribution of some response times, in nanoseconds, and the states
    /// of some breakers, in the text format of Prometheus.
    pub open spec fn text(
        &self,
        times: Seq<u64>,
        rows: Seq<(Seq<char>, CircuitState)>,
    ) -> Seq<char> {
        self.counters() + exposition::histogram(times) + exposition::states(rows)
    }

    /// The counters, the distribution of some response times, in nanoseconds, and the states
    /// of some breakers, in the text format of Prometheus.
    pub fn render(
        &self,
        response_times: &Vec<u64>,
        breakers: &Vec<(String, CircuitState, u32)>,
    ) -> (r: String)
        requires
            response_times@.len() <= middleware::KEPT_TIMES,
        ensures
            r@ == self.text(response_times@, exposition::rows_of(breakers@)),
    {
        let mut r: String =
            "# HELP proxy_requests_total Total number of requests\n".to_string();
        r.append("# TYPE proxy_requests_total counter\n");
        r.append("proxy_requests_total ");
        r.append(text::to_decimal(self.total_requests).as_str());
        r.append("\n");
        r.append("# HELP proxy_requests_successful_total Total number of successful requests\n");
        r.append("# TYPE proxy_requests_successful_total counter\n");
        r.append("proxy_requests_successful_total ");
        r.append(text::to_decimal(self.successful_requests).as_str());
        r.append("\n");
        r.append("# HELP proxy_requests_failed_total Total number of failed requests\n");
        r.append("# TYPE proxy_requests_failed_total counter\n");
        r.append("proxy_requests_failed_total ");
        r.append(text::to_decimal(self.failed_requests).as_str());
        r.append("\n");
        assert(r@ =~= self.counters());
        r.append(exposition::render_histogram(response_times).as_str());
        r.append(exposition::render_states(breakers).as_str());
        r
    }
}

impl Default for ProxyMetrics {
    fn default() -> (r: Self)
        ensures
            r.well_formed(),
            r.total_requests == 0,
            r.successful_requests == 0,
            r.failed_requests == 0,
            r.active_connections == 0,
            r.response_times@ == Seq::<u64>::empty(),
            r.upstream_health@ == Map::<Seq<char>, bool>::empty(),
    {
        ProxyMetrics {
            total_requests: 0,
            successful_requests: 0,
            failed_requests: 0,
            active_connections: 0,
            response_times: Vec::new(),
            upstream_health: Registry::new(),
        }
    }
}

#[derive(Debug, Clone, Copy, PartialEq, Eq, Structural)]
pub struct ConnectionInfo {
    /// In nanoseconds of the server's clock.
    pub established_at: u64,
    pub requests_count: u64,
    pub bytes_sent: u64,
    pub bytes_received: u64,
}

/// What becomes of a request.
pub enum Admission {
    /// It is answered here.
    Answered(Reply),
    /// It goes to this endpoint of this service.
    Forward { service: String, endpoint: String },
}

/// How a request is sent on.
pub struct ForwardPlan {
    pub method: String,
    pub uri: String,
}

/// What the server keeps of requests.
#[verifier::ext_equal]
pub struct ServerModel {
    pub total: u64,
    pub successful: u64,
    pub failed: u64,
    pub chain: ChainModel,
    /// The services by name.
    pub pools: Map<Seq<char>, Pool>,
    /// The breakers by service.
    pub breakers: Map<Seq<char>, CircuitBreakerState>,
}

/// The service that a request names.
pub open spec fn service_of(req: RequestModel) -> Seq<char> {
    match http::field_text(req.fields, "x-service-name"@) {
        Some(name) => name,
        None => "default"@,
    }
}

/// The endpoint that the request goes to, if the service has a healthy one.
pub open spec fn endpoint_for(
    algorithm: LoadBalancingAlgorithm,
    pools: Map<Seq<char>, Pool>,
    service: Seq<char>,
    draw: u32,
) -> Option<Seq<char>> {
    if pools.contains_key(service) {
        load_balancer::chosen_host(algorithm, pools[service], draw)
    } else {
        None
    }
}

/// The services after a request to one of them.
pub open spec fn pools_after(
    algorithm: LoadBalancingAlgorithm,
    pools: Map<Seq<char>, Pool>,
    service: Seq<char>,
) -> Map<Seq<char>, Pool> {
    if pools.contains_key(service) {
        pools.insert(service, load_balancer::after_choice(algorithm, pools[service]))
    } else {
        pools
    }
}

/// The breaker lets a call to the service go out.
pub open spec fn breaker_allows(
    c: ProxyConfig,
    breakers: Map<Seq<char>, CircuitBreakerState>,
    service: Seq<char>,
    now: u64,
) -> bool {
    !c.circuit_breaker.enabled || circuit_breaker::ask(
        circuit_breaker::state_in(breakers, service),
        c.circuit_breaker,
        now,
    ).0
}

/// The breakers after one of them was asked.
pub open spec fn breakers_asked(
    c: ProxyConfig,
    breakers: Map<Seq<char>, CircuitBreakerState>,
    service: Seq<char>,
    now: u64,
) -> Map<Seq<char>, CircuitBreakerState> {
    if c.circuit_breaker.enabled {
        breakers.insert(
            service,
            circuit_breaker::ask(
                circuit_breaker::state_in(breakers, service),
                c.circuit_breaker,
                now,
            ).1,
        )
    } else {
        breakers
    }
}

/// The reply where no endpoint of the service is healthy.
pub open spec fn no_upstream() -> ReplyModel {
    http::reply_of(502, "No healthy upstream servers"@)
}

/// The reply where the breaker of the service is open.
pub open spec fn unavailable() -> ReplyModel {
    http::reply_of(503, "Service temporarily unavailable"@)
}

/// The reply where forwarding failed.
pub open spec fn internal_error() -> ReplyModel {
    http::reply_of(500, "Internal server error"@)
}

/// The answer says this.
pub open spec fn answers(a: Admission, reply: ReplyModel) -> bool {
    a matches Admission::Answered(r) && r@ == reply
}

/// The request goes to this endpoint.
pub open spec fn forwards(a: Admission, service: Seq<char>, endpoint: Seq<char>) -> bool {
    a matches Admission::Forward { service: s, endpoint: e } && s@ == service && e@ == endpoint
}

/// What becomes of a request that came from `client_ip`: the middleware comes first, then
/// the choice of an endpoint, then the breaker.
pub open spec fn admits(
    c: ProxyConfig,
    algorithm: LoadBalancingAlgorithm,
    s: ServerModel,
    req: RequestModel,
    client_ip: Seq<char>,
    at: Moment,
    draw: u32,
    now: u64,
    s_after: ServerModel,
    req_after: RequestModel,
    r: Admission,
) -> bool {
    let verdict = middleware::judged(c, s.chain, req, client_ip, at.now);
    let service = service_of(req_after);
    let endpoint = endpoint_for(algorithm, s.pools, service, draw);
    let seen = ServerModel {
        total: s.total.wrapping_add(1),
        chain: middleware::after_request(c, s.chain, req, client_ip, at.now),
        ..s
    };
    let sent = ServerModel { pools: pools_after(algorithm, s.pools, service), ..seen };
    &&& req_after == middleware::marked_request(c, req, verdict, at)
    &&& if !(verdict is Pass) {
        s_after == seen && answers(r, middleware::verdict_reply(verdict))
    } else if endpoint is None {
        s_after == sent && answers(r, no_upstream())
    } else {
        &&& s_after == (ServerModel {
            breakers: breakers_asked(c, s.breakers, service, now),
            ..sent
        })
        &&& if breaker_allows(c, s.breakers, service, now) {
            forwards(r, service, endpoint->0)
        } else {
            answers(r, unavailable())
        }
    }
}

/// The server after a call that came back, or did not.
pub open spec fn after_call(
    c: ProxyConfig,
    s: ServerModel,
    service: Seq<char>,
    success: bool,
    now: u64,
) -> ServerModel {
    let state = circuit_breaker::state_in(s.breakers, service);
    ServerModel {
        successful: if success {
            s.successful.wrapping_add(1)
        } else {
            s.successful
        },
        failed: if success {
            s.failed
        } else {
            s.failed.wrapping_add(1)
        },
        breakers: if !c.circuit_breaker.enabled {
            s.breakers
        } else if success {
            s.breakers.insert(service, circuit_breaker::succeed(state, c.circuit_breaker))
        } else {
            s.breakers.insert(service, circuit_breaker::fail(state, c.circuit_breaker, now))
        },
        ..s
    }
}

/// The reply that goes back, before the middleware has worked on it. It knows when the
/// request came.
pub open spec fn raw_reply(outcome: Option<ReplyModel>, started: Option<u64>) -> ReplyModel {
    match outcome {
        Some(reply) => ReplyModel { started, ..reply },
        None => ReplyModel { started, ..internal_error() },
    }
}

/// What an optional reply says.
pub open spec fn reply_model(outcome: Option<Reply>) -> Option<ReplyModel> {
    match outcome {
        Some(reply) => Some(reply@),
        None => None,
    }
}

/// The server after a call for a request that came at `started`, with the times of the
/// breaker's and of the chain's clock.
pub open spec fn after_completion(
    c: ProxyConfig,
    s: ServerModel,
    service: Seq<char>,
    outcome: Option<ReplyModel>,
    started: Option<u64>,
    now: u64,
    chain_now: u64,
) -> ServerModel {
    let called = after_call(c, s, service, outcome is Some, now);
    ServerModel {
        chain: middleware::after_reply(c, called.chain, started, chain_now),
        ..called
    }
}

/// Where a request goes at an endpoint: its path and query, or the root.
pub open spec fn target(endpoint: Seq<char>, req: RequestModel) -> Seq<char> {
    "http://"@ + endpoint + (match req.path_and_query {
        Some(text) => text,
        None => "/"@,
    })
}

/// The method that a request is sent on with: its own, if it is a usual one, or `GET`.
pub open spec fn sent_method(method: Seq<char>) -> Seq<char> {
    if method == "POST"@ || method == "PUT"@ || method == "DELETE"@ || method == "PATCH"@ || method
        == "HEAD"@ || method == "OPTIONS"@ {
        method
    } else {
        "GET"@
    }
}

/// The request with the marks of the proxy.
pub open spec fn forwarded(req: RequestModel) -> RequestModel {
    RequestModel {
        fields: req.fields.insert("x-forwarded-proto"@, seq![http::ascii("http"@)]).insert(
            "x-forwarded-for"@,
            seq![http::ascii("127.0.0.1"@)],
        ),
        ..req
    }
}

/// A text can be read as a URI.
pub uninterp spec fn is_uri(text: Seq<char>) -> bool;

/// `http::Uri`'s `from_str` reads a URI from a text or fails, which depends on the text alone.
#[verifier::external_body]
fn reads_as_uri(text: &str) -> (r: bool)
    ensures
        r == is_uri(text@),
{
    text.parse::<hyper::Uri>().is_ok()
}

/// The text of bytes, with a mark in place of what is not UTF-8.
pub uninterp spec fn lossy_text(bytes: Seq<u8>) -> Seq<char>;

/// `std`'s `String::from_utf8_lossy` reads bytes as text, which depends on the bytes alone.
#[verifier::external_body]
fn read_lossy(bytes: &Vec<u8>) -> (r: String)
    ensures
        r@ == lossy_text(bytes@),
{
    String::from_utf8_lossy(bytes).to_string()
}

/// The reply that an endpoint gave, to be passed on.
pub fn relay(status: u16, headers: HeaderMap, body: &Vec<u8>) -> (r: Reply)
    ensures
        r@ == (ReplyModel {
            status,
            fields: http::header_fields(headers),
            body: lossy_text(body@),
            started: None,
        }),
{
    relay_text(status, headers, read_lossy(body))
}

/// The reply that an endpoint gave, where its body reads so.
pub fn relay_text(status: u16, headers: HeaderMap, body: String) -> (r: Reply)
    ensures
        r@ == (ReplyModel {
            status,
            fields: http::header_fields(headers),
            body: body@,
            started: None,
        }),
{
    Reply { status, headers, body, started: None }
}

/// Makes a request ready to be sent to an endpoint, if the target can be read as a URI.
pub fn forward_request(req: &mut RequestHead, endpoint: &str) -> (r: Option<ForwardPlan>)
    requires
        has_room(old(req)@.fields, 2),
    ensures
        r is Some == is_uri(target(endpoint@, old(req)@)),
        r is None ==> final(req)@ == old(req)@,
        r matches Some(plan) ==> plan.uri@ == target(endpoint@, old(req)@) && plan.method@
            == sent_method(old(req)@.method) && final(req)@ == forwarded(old(req)@),
{
    let uri: String = target_of(req, endpoint);
    let readable: bool = reads_as_uri(uri.as_str());
    plan_forward(req, uri, readable)
}

/// Where a request goes at an endpoint.
pub fn target_of(req: &RequestHead, endpoint: &str) -> (r: String)
    ensures
        r@ == target(endpoint@, req@),
{
    let mut uri: String = text::join("http://", endpoint);
    match &req.path_and_query {
        Some(text) => {
            uri.append(text.as_str());
        },
        None => {
            uri.append("/");
        },
    }
    uri
}

/// Makes a request ready to be sent, if its target is readable.
pub fn plan_forward(req: &mut RequestHead, uri: String, readable: bool) -> (r: Option<ForwardPlan>)
    requires
        has_room(old(req)@.fields, 2),
    ensures
        r is Some == readable,
        r is None ==> final(req)@ == old(req)@,
        r matches Some(plan) ==> plan.uri@ == uri@ && plan.method@ == sent_method(
            old(req)@.method,
        ) && final(req)@ == forwarded(old(req)@),
{
    if !readable {
        return None;
    }
    proof {
        reveal_strlit("x-forwarded-proto");
        reveal_strlit("http");
        reveal_strlit("x-forwarded-for");
        reveal_strlit("127.0.0.1");
        http::lemma_room(req@.fields, "x-forwarded-proto"@, seq![http::ascii("http"@)], 2);
    }
    http::set_field(&mut req.headers, "x-forwarded-proto", "http");
    http::set_field(&mut req.headers, "x-forwarded-for", "127.0.0.1");
    let own: &str = req.method.as_str();
    let method: String = if text::same(own, "POST") || text::same(own, "PUT") || text::same(
        own,
        "DELETE",
    ) || text::same(own, "PATCH") || text::same(own, "HEAD") || text::same(own, "OPTIONS") {
        own.to_owned()
    } else {
        "GET".to_string()
    };
    Some(ForwardPlan { method, uri })
}

pub struct ProxyServer {
    config: Arc<ProxyConfig>,
    load_balancer: LoadBalancer,
    circuit_breaker: CircuitBreaker,
    retry_policy: RetryPolicy,
    middleware_chain: MiddlewareChain,
    active_connections: Registry<ConnectionInfo>,
    clock: Clock,
    ai_agent: Option<AiAgent>,
    metrics: ProxyMetrics,
}

impl ProxyServer {
    pub closed spec fn config(&self) -> ProxyConfig {
        *self.config
    }

    pub closed spec fn view(&self) -> ServerModel {
        ServerModel {
            total: self.metrics.total_requests,
            successful: self.metrics.successful_requests,
            failed: self.metrics.failed_requests,
            chain: self.middleware_chain@,
            pools: self.load_balancer@,
            breakers: self.circuit_breaker@,
        }
    }

    pub closed spec fn algorithm(&self) -> LoadBalancingAlgorithm {
        self.load_balancer.algorithm()
    }

    /// The connections by the address of the client.
    pub closed spec fn connections(&self) -> Map<Seq<char>, ConnectionInfo> {
        self.active_connections@
    }

    /// The settings of the retries.
    pub closed spec fn retry_config(&self) -> RetryConfig {
        self.retry_policy.config()
    }

    pub closed spec fn parts_sound(&self) -> bool {
        &&& self.load_balancer.well_formed()
        &&& self.load_balancer.config() == *self.config
        &&& self.circuit_breaker.well_formed()
        &&& self.circuit_breaker.settings() == self.config.circuit_breaker
        &&& self.retry_policy.config() == self.config.retry
        &&& self.middleware_chain.well_formed()
        &&& self.middleware_chain.config() == *self.config
        &&& self.active_connections.well_formed()
    }

    pub open spec fn well_formed(&self) -> bool {
        &&& self.parts_sound()
        &&& self.metrics().well_formed()
        &&& self.metrics().total_requests == self@.total
        &&& self.metrics().successful_requests == self@.successful
        &&& self.metrics().failed_requests == self@.failed
        &&& self.agent() matches Some(agent) ==> agent.well_formed() && agent.config()
            == self.config()
    }

    pub closed spec fn agent(&self) -> Option<AiAgent> {
        self.ai_agent
    }

    pub closed spec fn metrics(&self) -> ProxyMetrics {
        self.metrics
    }

    /// What is counted besides requests is as it was.
    pub open spec fn keeps_measures(&self, before: Self) -> bool {
        &&& self.metrics().active_connections == before.metrics().active_connections
        &&& self.metrics().response_times == before.metrics().response_times
        &&& self.metrics().upstream_health == before.metrics().upstream_health
    }

    /// The draw can decide about a request to this service.
    pub open spec fn suits(&self, service: Seq<char>, draw: u32) -> bool {
        self.algorithm() == LoadBalancingAlgorithm::WeightedRoundRobin
            && self@.pools.contains_key(service) ==> draw < load_balancer::healthy_weight(
            self@.pools[service].endpoints,
        ) || load_balancer::healthy_weight(self@.pools[service].endpoints) == 0
    }

    /// A request to this service is decided by a draw: the choice is by weight, and there is
    /// weight.
    pub open spec fn takes_draw(&self, service: Seq<char>) -> bool {
        &&& self.algorithm() == LoadBalancingAlgorithm::WeightedRoundRobin
        &&& self@.pools.contains_key(service)
        &&& load_balancer::healthy_weight(self@.pools[service].endpoints) > 0
    }

    /// A draw that can decide about a request to this service: any number below the weight
    /// of its healthy endpoints, or zero where no draw is taken.
    pub fn draw_for(&self, service: &str) -> (r: u32)
        requires
            self.well_formed(),
        ensures
            self.takes_draw(service@) ==> r < load_balancer::healthy_weight(
                self@.pools[service@].endpoints,
            ),
            !self.takes_draw(service@) ==> r == 0,
            self.suits(service@, r),
    {
        self.load_balancer.draw_for(service)
    }

    /// A server that nothing has come to yet. There is an agent if both the caller and the
    /// configuration want one.
    pub fn new(config: ProxyConfig, ai_enabled: bool) -> (r: Self)
        requires
            config.well_formed(),
            LoadBalancer::weights_fit(config),
        ensures
            r.well_formed(),
            r.config() == config,
            r.retry_config() == config.retry,
            r.algorithm() == load_balancer::algorithm_named(config.load_balancing.algorithm@),
            r@.total == 0,
            r@.successful == 0,
            r@.failed == 0,
            r@.chain == (ChainModel { buckets: Map::empty(), requests: 0, times: Seq::empty() }),
            r@.breakers == Map::<Seq<char>, CircuitBreakerState>::empty(),
            forall|name: Seq<char>| #[trigger]
                r@.pools.contains_key(name) <==> config.upstream.position(name)
                    < config.upstream.services@.len(),
            forall|name: Seq<char>| #[trigger]
                r@.pools.contains_key(name) ==> load_balancer::pool_made_from(
                    r@.pools[name],
                    config.upstream.services@[config.upstream.position(name)].1.endpoints@,
                ),
            r.connections() == Map::<Seq<char>, ConnectionInfo>::empty(),
            r.metrics().active_connections == 0,
            r.metrics().response_times@ == Seq::<u64>::empty(),
            r.metrics().upstream_health@ == Map::<Seq<char>, bool>::empty(),
            r.agent() is Some == (ai_enabled && config.ai.enabled),
            r.agent() matches Some(agent) ==> decision_engine::are_default_rules(agent.rules())
                && agent.history() == Seq::<agent::AiDecision>::empty(),
    {
        let config: Arc<ProxyConfig> = Arc::new(config);
        let ai_agent: Option<AiAgent> = if ai_enabled && config.ai.enabled {
            Some(AiAgent::new(config.clone()))
        } else {
            None
        };
        ProxyServer {
            load_balancer: LoadBalancer::new(config.clone()),
            circuit_breaker: CircuitBreaker::new(config.clone()),
            retry_policy: RetryPolicy::new(config.clone()),
            middleware_chain: MiddlewareChain::new(config.clone()),
            active_connections: Registry::new(),
            clock: Clock::new(),
            ai_agent,
            metrics: ProxyMetrics::default(),
            config,
        }
    }

    /// The address that the server listens on.
    pub fn listen_address(&self) -> (r: String)
        ensures
            r@ == self.config().server.bind_address@ + ":"@ + text::decimal(
                self.config().server.port as nat,
            ),
    {
        let mut r: String = text::join(self.config.server.bind_address.as_str(), ":");
        r.append(text::to_decimal(self.config.server.port as u64).as_str());
        r
    }

    /// The address that the metrics are served on, if they are on.
    pub fn metrics_address(&self) -> (r: Option<String>)
        ensures
            r is Some == self.config().observability.metrics.enabled,
            r is Some ==> r->0@ == "0.0.0.0:"@ + text::decimal(
                self.config().observability.metrics.prometheus_port as nat,
            ),
    {
        if !self.config.observability.metrics.enabled {
            return None;
        }
        Some(
            text::join(
                "0.0.0.0:",
                text::to_decimal(
                    self.config.observability.metrics.prometheus_port as u64,
                ).as_str(),
            ),
        )
    }

    /// Takes note of a new connection, unless there are as many as there may be. The result
    /// is whether the connection may stay.
    pub fn connection_opened(&mut self, client: &str) -> (r: bool)
        requires
            old(self).well_formed(),
        ensures
            final(self).well_formed(),
            final(self).config() == old(self).config(),
            final(self).keeps_measures(*old(self)),
            final(self)@ == old(self)@,
            final(self).agent() == old(self).agent(),
            r == (old(self).connections().dom().len() < old(self).config().server.max_connections),
            !r ==> final(self).connections() == old(self).connections(),
            r ==> exists|now: u64|
                final(self).connections() == old(self).connections().insert(
                    client@,
                    #[trigger] new_connection(now),
                ),
    {
        if self.active_connections.len() >= self.config.server.max_connections {
            return false;
        }
        let now: u64 = self.clock.now();
        let info = ConnectionInfo {
            established_at: now,
            requests_count: 0,
            bytes_sent: 0,
            bytes_received: 0,
        };
        assert(info == new_connection(now));
        self.active_connections.insert(client, info);
        true
    }

    /// Takes note of the end of a connection.
    pub fn connection_closed(&mut self, client: &str)
        requires
            old(self).well_formed(),
        ensures
            final(self).well_formed(),
            final(self).config() == old(self).config(),
            final(self).keeps_measures(*old(self)),
            final(self)@ == old(self)@,
            final(self).agent() == old(self).agent(),
            final(self).connections() == old(self).connections().remove(client@),
    {
        self.active_connections.remove(client);
    }

    /// How many connections there are.
    pub fn connection_count(&self) -> (r: usize)
        requires
            self.well_formed(),
        ensures
            r == self.connections().dom().len(),
    {
        self.active_connections.len()
    }

    /// The service that a request names.
    pub fn extract_service_name(req: &RequestHead) -> (r: String)
        ensures
            r@ == service_of(req@),
    {
        proof {
            reveal_strlit("x-service-name");
        }
        match http::get_field(&req.headers, "x-service-name") {
            Some(name) => name,
            None => "default".to_string(),
        }
    }

    /// Decides what becomes of a request.
    pub fn handle_request(&mut self, req: &mut RequestHead, client_ip: &str) -> (r: Admission)
        requires
            old(self).well_formed(),
            has_room(old(req)@.fields, 1),
        ensures
            final(self).well_formed(),
            final(self).config() == old(self).config(),
            final(self).keeps_measures(*old(self)),
            final(self).algorithm() == old(self).algorithm(),
            final(self).connections() == old(self).connections(),
            final(self).agent() == old(self).agent(),
            exists|at: Moment, draw: u32, now: u64|
                middleware::is_random_uuid(at.request_id@) && old(self).suits(
                    service_of(final(req)@),
                    draw,
                ) && #[trigger] admits(
                    old(self).config(),
                    old(self).algorithm(),
                    old(self)@,
                    old(req)@,
                    client_ip@,
                    at,
                    draw,
                    now,
                    final(self)@,
                    final(req)@,
                    r,
                ),
    {
        let at: Moment = self.middleware_chain.moment();
        let now: u64 = self.circuit_breaker.now();
        let service: String = Self::extract_service_name(req);
        let draw: u32 = self.draw_for(service.as_str());
        proof {
            lemma_marks_keep_service(
                self.config(),
                req@,
                middleware::judged(self.config(), self@.chain, req@, client_ip@, at.now),
                at,
            );
        }
        let r: Admission = self.handle_request_at(req, client_ip, &at, draw, now);
        assert(admits(
            old(self).config(),
            old(self).algorithm(),
            old(self)@,
            old(req)@,
            client_ip@,
            at,
            draw,
            now,
            self@,
            req@,
            r,
        ));
        r
    }

    /// Decides what becomes of a request, where the times, the identifier and the draw are
    /// these.
    pub fn handle_request_at(
        &mut self,
        req: &mut RequestHead,
        client_ip: &str,
        at: &Moment,
        draw: u32,
        now: u64,
    ) -> (r: Admission)
        requires
            old(self).well_formed(),
            has_room(old(req)@.fields, 1),
            http::is_visible_text(at.request_id@),
            old(self).suits(service_of(old(req)@), draw),
        ensures
            final(self).well_formed(),
            final(self).config() == old(self).config(),
            final(self).keeps_measures(*old(self)),
            final(self).algorithm() == old(self).algorithm(),
            final(self).connections() == old(self).connections(),
            final(self).agent() == old(self).agent(),
            admits(
                old(self).config(),
                old(self).algorithm(),
                old(self)@,
                old(req)@,
                client_ip@,
                *at,
                draw,
                now,
                final(self)@,
                final(req)@,
                r,
            ),
    {
        proof {
            lemma_marks_keep_service(
                self.config(),
                req@,
                middleware::judged(self.config(), self@.chain, req@, client_ip@, at.now),
                *at,
            );
        }
        self.metrics.total_requests = self.metrics.total_requests.wrapping_add(1);
        match self.middleware_chain.process_request_at(req, client_ip, at) {
            Ok(()) => {},
            Err(reply) => {
                return Admission::Answered(reply);
            },
        }
        let service: String = Self::extract_service_name(req);
        match self.load_balancer.select_endpoint_with(service.as_str(), draw) {
            Some(endpoint) => {
                if self.circuit_breaker.can_execute_at(service.as_str(), now) {
                    Admission::Forward { service, endpoint }
                } else {
                    Admission::Answered(Reply::new(503, "Service temporarily unavailable"))
                }
            },
            None => Admission::Answered(Reply::new(502, "No healthy upstream servers")),
        }
    }

    /// Takes note of what came back of a call to a service, and makes the reply. Where
    /// nothing came back, the reply says so. The call was for a request that came at
    /// `started`, if that is known.
    pub fn complete(
        &mut self,
        service: &str,
        outcome: Option<Reply>,
        started: Option<u64>,
        client_ip: &str,
    ) -> (r: Reply)
        requires
            old(self).well_formed(),
            has_room(raw_reply(reply_model(outcome), started).fields, 2),
        ensures
            final(self).well_formed(),
            final(self).config() == old(self).config(),
            final(self).keeps_measures(*old(self)),
            final(self).algorithm() == old(self).algorithm(),
            final(self).connections() == old(self).connections(),
            final(self).agent() == old(self).agent(),
            r@ == middleware::shared(raw_reply(reply_model(outcome), started)),
            exists|now: u64, chain_now: u64|
                final(self)@ == #[trigger] after_completion(
                    old(self).config(),
                    old(self)@,
                    service@,
                    reply_model(outcome),
                    started,
                    now,
                    chain_now,
                ),
    {
        let now: u64 = self.circuit_breaker.now();
        let chain_now: u64 = self.middleware_chain.now();
        self.complete_at(service, outcome, started, client_ip, now, chain_now)
    }

    /// As `complete`, where the times of the breaker's and of the chain's clock are these.
    pub fn complete_at(
        &mut self,
        service: &str,
        outcome: Option<Reply>,
        started: Option<u64>,
        client_ip: &str,
        now: u64,
        chain_now: u64,
    ) -> (r: Reply)
        requires
            old(self).well_formed(),
            has_room(raw_reply(reply_model(outcome), started).fields, 2),
        ensures
            final(self).well_formed(),
            final(self).config() == old(self).config(),
            final(self).keeps_measures(*old(self)),
            final(self).algorithm() == old(self).algorithm(),
            final(self).connections() == old(self).connections(),
            final(self).agent() == old(self).agent(),
            r@ == middleware::shared(raw_reply(reply_model(outcome), started)),
            final(self)@ == after_completion(
                old(self).config(),
                old(self)@,
                service@,
                reply_model(outcome),
                started,
                now,
                chain_now,
            ),
    {
        let mut reply: Reply = match outcome {
            Some(reply) => {
                self.metrics.successful_requests = self.metrics.successful_requests.wrapping_add(1);
                self.circuit_breaker.record_success(service);
                reply
            },
            None => {
                self.metrics.failed_requests = self.metrics.failed_requests.wrapping_add(1);
                self.circuit_breaker.record_failure_at(service, now);
                Reply::new(500, "Internal server error")
            },
        };
        reply.started = started;
        match self.middleware_chain.process_response_at(&mut reply, client_ip, chain_now) {
            Ok(()) => reply,
            Err(other) => other,
        }
    }

    /// The policy by which calls are tried again.
    pub fn retry_policy(&self) -> (r: &RetryPolicy)
        ensures
            r.config() == self.retry_config(),
    {
        &self.retry_policy
    }

    /// The balancer, to look at its services.
    pub fn load_balancer(&self) -> (r: &LoadBalancer)
        requires
            self.well_formed(),
        ensures
            r.well_formed(),
            r@ == self@.pools,
            r.config() == self.config(),
            r.algorithm() == self.algorithm(),
    {
        &self.load_balancer
    }

    /// A health check of endpoint `i` of a service was answered with a status, or not at all.
    pub fn record_health_check(&mut self, service: &str, i: usize, status: Option<u16>) -> (r:
        load_balancer::HealthChange)
        requires
            old(self).well_formed(),
        ensures
            final(self).well_formed(),
            final(self).config() == old(self).config(),
            final(self).keeps_measures(*old(self)),
            final(self).algorithm() == old(self).algorithm(),
            final(self).connections() == old(self).connections(),
            final(self).agent() == old(self).agent(),
            ({
                let known = old(self)@.pools.contains_key(service@) && i < old(
                    self,
                )@.pools[service@].endpoints.len();
                let up = load_balancer::is_healthy_reply(status);
                let was = old(self)@.pools[service@].endpoints[i as int].healthy;
                &&& final(self)@ == (if known {
                    ServerModel {
                        pools: old(self)@.pools.insert(
                            service@,
                            load_balancer::pool_with_health(
                                old(self)@.pools[service@],
                                i as int,
                                up,
                            ),
                        ),
                        ..old(self)@
                    }
                } else {
                    old(self)@
                })
                &&& r == (if !known || was == up {
                    load_balancer::HealthChange::Unchanged
                } else if up {
                    load_balancer::HealthChange::NowHealthy
                } else {
                    load_balancer::HealthChange::NowUnhealthy
                })
            }),
    {
        self.load_balancer.record_health_check(service, i, status)
    }

    /// The agent, if there is one, to be asked and told.
    pub fn agent_mut(&mut self) -> (r: Option<&mut AiAgent>)
        requires
            old(self).well_formed(),
        ensures
            final(self).config() == old(self).config(),
            final(self).keeps_measures(*old(self)),
            final(self).algorithm() == old(self).algorithm(),
            final(self).connections() == old(self).connections(),
            final(self)@ == old(self)@,
            r is Some == old(self).agent() is Some,
            r is None ==> final(self).well_formed() && final(self).agent() is None,
            r matches Some(agent) ==> {
                &&& *agent == old(self).agent()->0
                &&& final(self).agent() == Some(*final(agent))
                &&& final(agent).well_formed() && final(agent).config() == old(self).config()
                    ==> final(self).well_formed()
            },
    {
        match &mut self.ai_agent {
            Some(agent) => Some(agent),
            None => None,
        }
    }

    /// What the server has counted: the requests, the latest response times, and each service
    /// that has a breaker with its state, in no particular order.
    pub fn metrics_text(&self) -> (r: String)
        requires
            self.well_formed(),
        ensures
            exists|rows: Seq<(Seq<char>, CircuitState)>| #[trigger]
                exposition::lists(rows, self@.breakers) && r@ == self.metrics().text(
                    self@.chain.times,
                    rows,
                ),
    {
        let times: Vec<u64> = self.middleware_chain.response_times();
        let states: Vec<(String, CircuitState, u32)> = self.circuit_breaker.get_all_states();
        proof {
            lemma_rows_list(states@, self.circuit_breaker@);
            assert(self@.breakers == self.circuit_breaker@);
            assert(exposition::lists(exposition::rows_of(states@), self@.breakers));
        }
        self.metrics.render(&times, &states)
    }

    /// Lets the agent look at the health of the proxy, if there is one and it acts on its
    /// own.
    pub fn monitor(&mut self) -> (r: Option<HealthAnalysis>)
        requires
            old(self).well_formed(),
        ensures
            final(self).well_formed(),
            final(self).config() == old(self).config(),
            final(self).keeps_measures(*old(self)),
            final(self)@ == old(self)@,
            r is Some == (old(self).agent() is Some && old(self).config().ai.autonomous_mode),
            r is None ==> final(self).agent() == old(self).agent(),
            r matches Some(analysis) ==> {
                let before = old(self).agent()->0;
                let after = final(self).agent()->0;
                &&& final(self).agent() is Some
                &&& after.differs_in_history(before)
                &&& agent::is_health_of(analysis.health, old(self).metrics())
                &&& before.advises(analysis.health, analysis.advice, after.history())
                &&& anomaly_detection::finding(analysis.finding)
                    == anomaly_detection::system_finding(
                    before.detector().thresholds,
                    analysis.health,
                )
            },
    {
        if !self.config.ai.autonomous_mode {
            return None;
        }
        match &mut self.ai_agent {
            Some(agent) => Some(agent.analyze_system_health(&self.metrics)),
            None => None,
        }
    }
}

/// A connection that was just opened.
pub open spec fn new_connection(now: u64) -> ConnectionInfo {
    ConnectionInfo { established_at: now, requests_count: 0, bytes_sent: 0, bytes_received: 0 }
}

/// Rows that describe each breaker once list the breakers.
proof fn lemma_rows_list(
    states: Seq<(String, CircuitState, u32)>,
    breakers: Map<Seq<char>, CircuitBreakerState>,
)
    requires
        forall|i: int|
            0 <= i < states.len() ==> circuit_breaker::row_describes(
                #[trigger] states[i],
                states[i].0@,
                breakers,
            ),
        forall|name: Seq<char>| #[trigger]
            breakers.contains_key(name) ==> exists|i: int|
                0 <= i < states.len() && #[trigger] states[i].0@ == name,
        forall|i: int, j: int|
            0 <= i < j < states.len() ==> #[trigger] states[i].0@ != #[trigger] states[j].0@,
    ensures
        exposition::lists(exposition::rows_of(states), breakers),
{
    let rows = exposition::rows_of(states);
    assert forall|name: Seq<char>| #[trigger] breakers.contains_key(name) implies exists|i: int|
        0 <= i < rows.len() && (#[trigger] rows[i]).0 == name by {
        let i = choose|i: int| 0 <= i < states.len() && #[trigger] states[i].0@ == name;
        assert(rows[i].0 == name);
    }
    assert forall|i: int, j: int| 0 <= i < j < rows.len() implies (#[trigger] rows[i]).0 != (
    #[trigger] rows[j]).0 by {
        assert(states[i].0@ != states[j].0@);
    }
}

/// The marks that the middleware puts on a request leave the name of its service.
proof fn lemma_marks_keep_service(
    c: ProxyConfig,
    req: RequestModel,
    v: middleware::Verdict,
    at: Moment,
)
    ensures
        service_of(middleware::marked_request(c, req, v, at)) == service_of(req),
{
    reveal_strlit("x-service-name");
    reveal_strlit("x-request-id");
    assert("x-service-name"@.len() != "x-request-id"@.len());
}

/// A request that is forwarded goes to a healthy endpoint of the service that it names.
pub proof fn requests_go_to_healthy_endpoints(
    c: ProxyConfig,
    algorithm: LoadBalancingAlgorithm,
    s: ServerModel,
    req: RequestModel,
    client_ip: Seq<char>,
    at: Moment,
    draw: u32,
    now: u64,
    s_after: ServerModel,
    req_after: RequestModel,
    r: Admission,
)
    requires
        admits(c, algorithm, s, req, client_ip, at, draw, now, s_after, req_after, r),
        r is Forward,
        algorithm == LoadBalancingAlgorithm::WeightedRoundRobin && s.pools.contains_key(
            service_of(req),
        ) ==> draw < load_balancer::healthy_weight(s.pools[service_of(req)].endpoints)
            || load_balancer::healthy_weight(s.pools[service_of(req)].endpoints) == 0,
    ensures
        s.pools.contains_key(service_of(req)),
        exists|i: int|
            0 <= i < s.pools[service_of(req)].endpoints.len() && (
            #[trigger] s.pools[service_of(req)].endpoints[i]).healthy && forwards(
                r,
                service_of(req),
                load_balancer::host(s.pools[service_of(req)].endpoints[i]),
            ),
{
    let verdict = middleware::judged(c, s.chain, req, client_ip, at.now);
    lemma_marks_keep_service(c, req, verdict, at);
    let p = s.pools[service_of(req)];
    load_balancer::chosen_endpoints_are_healthy(algorithm, p, draw);
    let i = load_balancer::chosen(algorithm, p, draw)->0;
    assert(p.endpoints[i].healthy);
}

/// While the breaker of a service is open and its time is not over, no request goes to that
/// service; a request that would have gone there is told so.
pub proof fn an_open_breaker_keeps_requests_back(
    c: ProxyConfig,
    algorithm: LoadBalancingAlgorithm,
    s: ServerModel,
    req: RequestModel,
    client_ip: Seq<char>,
    at: Moment,
    draw: u32,
    now: u64,
    s_after: ServerModel,
    req_after: RequestModel,
    r: Admission,
)
    requires
        admits(c, algorithm, s, req, client_ip, at, draw, now, s_after, req_after, r),
        c.circuit_breaker.enabled,
        circuit_breaker::state_in(s.breakers, service_of(req)).state
            == circuit_breaker::CircuitState::Open,
        !circuit_breaker::recovered(
            circuit_breaker::state_in(s.breakers, service_of(req)),
            c.circuit_breaker,
            now,
        ),
    ensures
        r is Answered,
        middleware::judged(c, s.chain, req, client_ip, at.now) is Pass && endpoint_for(
            algorithm,
            s.pools,
            service_of(req),
            draw,
        ) is Some ==> answers(r, unavailable()),
{
    lemma_marks_keep_service(
        c,
        req,
        middleware::judged(c, s.chain, req, client_ip, at.now),
        at,
    );
}

/// Every request is counted once when it comes. One that is forwarded is counted once more
/// when its call is over, as a success or as a failure; one that is answered is not.
pub proof fn requests_are_counted_once(
    c: ProxyConfig,
    algorithm: LoadBalancingAlgorithm,
    s: ServerModel,
    req: RequestModel,
    client_ip: Seq<char>,
    at: Moment,
    draw: u32,
    now: u64,
    s_after: ServerModel,
    req_after: RequestModel,
    r: Admission,
    service: Seq<char>,
    outcome: Option<ReplyModel>,
    started: Option<u64>,
    later: u64,
    chain_later: u64,
)
    requires
        admits(c, algorithm, s, req, client_ip, at, draw, now, s_after, req_after, r),
    ensures
        s_after.total == s.total.wrapping_add(1),
        s_after.successful == s.successful,
        s_after.failed == s.failed,
        ({
            let done = after_completion(c, s_after, service, outcome, started, later, chain_later);
            &&& done.total == s_after.total
            &&& outcome is Some ==> done.successful == s.successful.wrapping_add(1)
                && done.failed == s.failed
            &&& outcome is None ==> done.successful == s.successful && done.failed
                == s.failed.wrapping_add(1)
        }),
{
}

/// A server at some time, with how many requests came, how many of them succeeded and failed,
/// and how many of the forwarded ones are still out.
pub struct Standing {
    pub server: ServerModel,
    pub came: nat,
    pub succeeded: nat,
    pub failed: nat,
    pub out: nat,
}

/// A request comes, and goes out if it is forwarded.
pub open spec fn arrival(
    c: ProxyConfig,
    algorithm: LoadBalancingAlgorithm,
    before: Standing,
    after: Standing,
) -> bool {
    exists|
        req: RequestModel,
        client_ip: Seq<char>,
        at: Moment,
        draw: u32,
        now: u64,
        req_after: RequestModel,
        r: Admission,
    | #[trigger]
        admits(
            c,
            algorithm,
            before.server,
            req,
            client_ip,
            at,
            draw,
            now,
            after.server,
            req_after,
            r,
        ) && after == (Standing {
            server: after.server,
            came: before.came + 1,
            out: before.out + if r is Forward {
                1nat
            } else {
                0
            },
            ..before
        })
}

/// The call of a request that was out is over.
pub open spec fn ending(c: ProxyConfig, before: Standing, after: Standing) -> bool {
    &&& before.out > 0
    &&& exists|
        service: Seq<char>,
        outcome: Option<ReplyModel>,
        started: Option<u64>,
        now: u64,
        chain_now: u64,
    |
        after.server == #[trigger] after_completion(
            c,
            before.server,
            service,
            outcome,
            started,
            now,
            chain_now,
        ) && after == (if outcome is Some {
            Standing {
                server: after.server,
                succeeded: before.succeeded + 1,
                out: (before.out - 1) as nat,
                ..before
            }
        } else {
            Standing {
                server: after.server,
                failed: before.failed + 1,
                out: (before.out - 1) as nat,
                ..before
            }
        })
}

/// Something happens that is no request, such as a health check.
pub open spec fn aside(before: Standing, after: Standing) -> bool {
    &&& after == (Standing { server: after.server, ..before })
    &&& after.server.total == before.server.total
    &&& after.server.successful == before.server.successful
    &&& after.server.failed == before.server.failed
}

/// What happens between one time and the next.
pub open spec fn happens(
    c: ProxyConfig,
    algorithm: LoadBalancingAlgorithm,
    run: Seq<Standing>,
    i: int,
) -> bool {
    ||| arrival(c, algorithm, run[i], run[i + 1])
    ||| ending(c, run[i], run[i + 1])
    ||| aside(run[i], run[i + 1])
}

/// The counters of a server show the numbers of a standing, each up to its limit and round.
pub open spec fn shows(s: Standing) -> bool {
    &&& s.server.total == s.came % 0x1_0000_0000_0000_0000
    &&& s.server.successful == s.succeeded % 0x1_0000_0000_0000_0000
    &&& s.server.failed == s.failed % 0x1_0000_0000_0000_0000
}

/// From a server that nothing has come to, whatever requests come and whatever becomes of
/// them: the counters show how many came, succeeded and failed, and those that succeeded,
/// those that failed and those that are out are never more than those that came. So, as long
/// as no counter has gone round, the successes and failures that the server shows are never
/// more than the total that it shows.
pub proof fn successes_and_failures_are_within_the_total(
    c: ProxyConfig,
    algorithm: LoadBalancingAlgorithm,
    run: Seq<Standing>,
    i: int,
)
    requires
        0 <= i < run.len(),
        run[0].came == 0 && run[0].succeeded == 0 && run[0].failed == 0 && run[0].out == 0,
        shows(run[0]),
        forall|k: int| 0 <= k < run.len() - 1 ==> #[trigger] happens(c, algorithm, run, k),
    ensures
        shows(run[i]),
        run[i].succeeded + run[i].failed + run[i].out <= run[i].came <= i,
        run[i].came <= u64::MAX ==> run[i].server.successful + run[i].server.failed
            <= run[i].server.total,
    decreases i,
{
    if i > 0 {
        let k = i - 1;
        successes_and_failures_are_within_the_total(c, algorithm, run, k);
        assert(happens(c, algorithm, run, k));
    }
}

/// A request ends in one of four ways. The middleware answers it, or there is no endpoint and
/// it is told so, or the breaker is open and it is told so, or it is forwarded. However it
/// ends, no outcome is put down for any service, and no request is counted as a success or a
/// failure. One that was forwarded and brought nothing back is answered as an error.
pub proof fn requests_end_in_one_of_four_ways(
    c: ProxyConfig,
    algorithm: LoadBalancingAlgorithm,
    s: ServerModel,
    req: RequestModel,
    client_ip: Seq<char>,
    at: Moment,
    draw: u32,
    now: u64,
    s_after: ServerModel,
    req_after: RequestModel,
    r: Admission,
    started: Option<u64>,
)
    requires
        admits(c, algorithm, s, req, client_ip, at, draw, now, s_after, req_after, r),
    ensures
        ({
            let verdict = middleware::judged(c, s.chain, req, client_ip, at.now);
            let service = service_of(req);
            let endpoint = endpoint_for(algorithm, s.pools, service, draw);
            let allowed = breaker_allows(c, s.breakers, service, now);
            &&& !(verdict is Pass) ==> answers(r, middleware::verdict_reply(verdict))
            &&& verdict is Pass && endpoint is None ==> answers(r, no_upstream())
                && no_upstream().status == 502
            &&& verdict is Pass && endpoint is Some && !allowed ==> answers(r, unavailable())
                && unavailable().status == 503
            &&& verdict is Pass && endpoint is Some && allowed ==> forwards(
                r,
                service,
                endpoint->0,
            )
        }),
        s_after.total == s.total.wrapping_add(1),
        s_after.successful == s.successful && s_after.failed == s.failed,
        r is Answered && !answers(r, unavailable()) ==> s_after.breakers == s.breakers,
        forall|name: Seq<char>|
            same_failures(
                #[trigger] circuit_breaker::state_in(s_after.breakers, name),
                circuit_breaker::state_in(s.breakers, name),
            ),
        raw_reply(None, started).status == 500,
{
    lemma_marks_keep_service(
        c,
        req,
        middleware::judged(c, s.chain, req, client_ip, at.now),
        at,
    );
}

/// The same failures are put down.
pub open spec fn same_failures(a: CircuitBreakerState, b: CircuitBreakerState) -> bool {
    a.failure_count == b.failure_count && a.last_failure_time == b.last_failure_time
}

/// A call to one service leaves the breakers of the others as they are.
pub proof fn services_fail_apart(
    c: ProxyConfig,
    s: ServerModel,
    service: Seq<char>,
    outcome: Option<ReplyModel>,
    started: Option<u64>,
    now: u64,
    chain_now: u64,
    other: Seq<char>,
)
    requires
        other != service,
    ensures
        circuit_breaker::state_in(
            after_completion(c, s, service, outcome, started, now, chain_now).breakers,
            other,
        ) == circuit_breaker::state_in(s.breakers, other),
{
}

/// What a completed call does to the breaker of its service, where breakers are on. A reply
/// takes the failures of a closed breaker back; on trial it is one success more, and as many as
/// are configured close the breaker, without failures. A call that brought nothing back is one
/// failure more of a closed breaker, which opens at the threshold; on trial it opens the
/// breaker again. With breakers off, nothing is put down.
pub proof fn outcomes_reach_the_breaker(
    c: ProxyConfig,
    s: ServerModel,
    service: Seq<char>,
    reply: ReplyModel,
    started: Option<u64>,
    now: u64,
    chain_now: u64,
)
    requires
        s.breakers.contains_key(service),
        circuit_breaker::reachable(s.breakers[service], c.circuit_breaker),
    ensures
        ({
            let before = s.breakers[service];
            let served = after_completion(c, s, service, Some(reply), started, now, chain_now);
            let failed = after_completion(c, s, service, None, started, now, chain_now);
            let good = served.breakers[service];
            let bad = failed.breakers[service];
            let most = c.circuit_breaker.half_open_max_calls;
            let threshold = c.circuit_breaker.failure_threshold;
            &&& c.circuit_breaker.enabled ==> {
                &&& served.breakers.contains_key(service)
                &&& failed.breakers.contains_key(service)
                &&& before.state == CircuitState::Closed ==> {
                    &&& good.state == CircuitState::Closed
                    &&& good.failure_count == 0
                    &&& bad.failure_count == before.failure_count + 1
                    &&& bad.last_failure_time == Some(now)
                    &&& bad.state == CircuitState::Open <==> before.failure_count + 1 >= threshold
                    &&& bad.state != CircuitState::HalfOpen
                }
                &&& before.state == CircuitState::HalfOpen ==> {
                    &&& before.success_count + 1 < most ==> good == (CircuitBreakerState {
                        success_count: (before.success_count + 1) as u32,
                        ..before
                    })
                    &&& before.success_count + 1 >= most ==> good.state == CircuitState::Closed
                        && good.failure_count == 0
                    &&& bad.state == CircuitState::Open
                    &&& bad.last_failure_time == Some(now)
                }
                &&& before.state == CircuitState::Open ==> {
                    &&& good == before
                    &&& bad.state == CircuitState::Open
                    &&& bad.last_failure_time == Some(now)
                }
            }
            &&& !c.circuit_breaker.enabled ==> served.breakers == s.breakers && failed.breakers
                == s.breakers
        }),
{
}

/// The first outcome of a service is put down as one after none.
pub proof fn first_outcomes_reach_the_breaker(
    c: ProxyConfig,
    s: ServerModel,
    service: Seq<char>,
    reply: ReplyModel,
    started: Option<u64>,
    now: u64,
    chain_now: u64,
)
    requires
        c.circuit_breaker.enabled,
        !s.breakers.contains_key(service),
    ensures
        ({
            let served = after_completion(c, s, service, Some(reply), started, now, chain_now);
            let failed = after_completion(c, s, service, None, started, now, chain_now);
            &&& served.breakers[service].state == CircuitState::Closed
            &&& served.breakers[service].failure_count == 0
            &&& failed.breakers[service].failure_count == 1
            &&& failed.breakers[service].last_failure_time == Some(now)
            &&& failed.breakers[service].state == CircuitState::Open
                <==> c.circuit_breaker.failure_threshold <= 1
        }),
{
}

/// A completed call leaves the services and their turns, the token buckets and all other
/// breakers as they are. Where metrics are on and it is known when the request came, the time
/// since then is kept as the latest of the response times, after those that were kept.
pub proof fn completions_keep_the_rest(
    c: ProxyConfig,
    s: ServerModel,
    service: Seq<char>,
    other: Seq<char>,
    outcome: Option<ReplyModel>,
    started: Option<u64>,
    now: u64,
    chain_now: u64,
)
    ensures
        ({
            let done = after_completion(c, s, service, outcome, started, now, chain_now);
            &&& done.pools == s.pools
            &&& done.chain.buckets == s.chain.buckets
            &&& done.chain.requests == s.chain.requests
            &&& other != service ==> done.breakers.contains_key(other) == s.breakers.contains_key(
                other,
            ) && done.breakers[other] == s.breakers[other]
            &&& !c.observability.metrics.enabled || started is None ==> done.chain.times
                == s.chain.times
            &&& c.observability.metrics.enabled && started is Some && started->0 <= chain_now ==> {
                &&& done.chain.times.len() > 0
                &&& done.chain.times.last() == chain_now - started->0
                &&& s.chain.times.len() < 1000 ==> done.chain.times.drop_last() == s.chain.times
                &&& s.chain.times.len() == 1000 ==> done.chain.times.drop_last()
                    == s.chain.times.skip(1)
            }
        }),
{
    let done = after_completion(c, s, service, outcome, started, now, chain_now);
    if c.observability.metrics.enabled && started is Some && started->0 <= chain_now {
        let all = s.chain.times.push((chain_now - started->0) as u64);
        if s.chain.times.len() < 1000 {
            assert(done.chain.times == all);
            assert(done.chain.times.drop_last() =~= s.chain.times);
        } else if s.chain.times.len() == 1000 {
            assert(done.chain.times == all.skip(1));
            assert(done.chain.times.drop_last() =~= s.chain.times.skip(1));
        }
    }
}

/// A request and what became of it, from the server before it to the server after its call.
pub struct Exchange {
    pub before: ServerModel,
    pub req: RequestModel,
    pub client_ip: Seq<char>,
    pub at: Moment,
    pub draw: u32,
    pub now: u64,
    pub admitted: ServerModel,
    pub req_after: RequestModel,
    pub r: Admission,
    pub reply: ReplyModel,
    pub started: Option<u64>,
    pub later: u64,
    pub chain_later: u64,
    pub after: ServerModel,
}

/// The request is for the service, no middleware objects, the service has a healthy endpoint,
/// and once the request has come it is answered.
pub open spec fn is_served(
    c: ProxyConfig,
    algorithm: LoadBalancingAlgorithm,
    service: Seq<char>,
    x: Exchange,
) -> bool {
    &&& comes_through(c, algorithm, service, x)
    &&& x.after == after_completion(
        c,
        x.admitted,
        service,
        Some(x.reply),
        x.started,
        x.later,
        x.chain_later,
    )
}

/// The request is for the service, no middleware objects, and the service has a healthy
/// endpoint.
pub open spec fn comes_through(
    c: ProxyConfig,
    algorithm: LoadBalancingAlgorithm,
    service: Seq<char>,
    x: Exchange,
) -> bool {
    &&& admits(
        c,
        algorithm,
        x.before,
        x.req,
        x.client_ip,
        x.at,
        x.draw,
        x.now,
        x.admitted,
        x.req_after,
        x.r,
    )
    &&& service_of(x.req) == service
    &&& middleware::judged(c, x.before.chain, x.req, x.client_ip, x.at.now) is Pass
    &&& endpoint_for(algorithm, x.before.pools, service, x.draw) is Some
}

proof fn lemma_trial(
    c: ProxyConfig,
    algorithm: LoadBalancingAlgorithm,
    service: Seq<char>,
    run: Seq<Exchange>,
    n: int,
)
    requires
        c.circuit_breaker.enabled,
        c.circuit_breaker.half_open_max_calls >= 1,
        run.len() == c.circuit_breaker.half_open_max_calls,
        0 <= n < run.len(),
        forall|k: int| 0 <= k < run.len() ==> is_served(c, algorithm, service, #[trigger] run[k]),
        forall|k: int| 0 <= k < run.len() - 1 ==> (#[trigger] run[k]).after == run[k + 1].before,
        run[0].before.breakers.contains_key(service),
        run[0].before.breakers[service].state == CircuitState::Open,
        run[0].before.breakers[service].last_failure_time is Some,
        run[0].before.breakers[service].last_failure_time->0
            + c.circuit_breaker.recovery_timeout_ms * 1_000_000 <= run[0].now,
    ensures
        run[n].r is Forward,
        run[n].after.breakers.contains_key(service),
        n + 1 < run.len() ==> {
            let b = run[n].after.breakers[service];
            &&& b.state == CircuitState::HalfOpen
            &&& b.half_open_calls == n + 1
            &&& b.success_count == n + 1
        },
        n + 1 == run.len() ==> run[n].after.breakers[service].state == CircuitState::Closed
            && run[n].after.breakers[service].failure_count == 0,
    decreases n,
{
    let x = run[n];
    assert(is_served(c, algorithm, service, run[n]));
    lemma_marks_keep_service(
        c,
        x.req,
        middleware::judged(c, x.before.chain, x.req, x.client_ip, x.at.now),
        x.at,
    );
    if n > 0 {
        lemma_trial(c, algorithm, service, run, n - 1);
        assert(run[n - 1].after == run[n].before);
    }
}

/// A service recovers: from an open breaker whose time is over, as many requests as trial calls
/// are configured, each answered before the next one comes, are all forwarded, close the breaker
/// and leave it without failures; and so the request after them is forwarded too.
pub proof fn answered_trials_close_the_breaker(
    c: ProxyConfig,
    algorithm: LoadBalancingAlgorithm,
    service: Seq<char>,
    run: Seq<Exchange>,
    next: Exchange,
)
    requires
        c.circuit_breaker.enabled,
        c.circuit_breaker.half_open_max_calls >= 1,
        run.len() == c.circuit_breaker.half_open_max_calls,
        forall|k: int| 0 <= k < run.len() ==> is_served(c, algorithm, service, #[trigger] run[k]),
        forall|k: int| 0 <= k < run.len() - 1 ==> (#[trigger] run[k]).after == run[k + 1].before,
        run[0].before.breakers.contains_key(service),
        run[0].before.breakers[service].state == CircuitState::Open,
        run[0].before.breakers[service].last_failure_time is Some,
        run[0].before.breakers[service].last_failure_time->0
            + c.circuit_breaker.recovery_timeout_ms * 1_000_000 <= run[0].now,
        comes_through(c, algorithm, service, next),
        next.before == run.last().after,
    ensures
        forall|k: int| 0 <= k < run.len() ==> (#[trigger] run[k]).r is Forward,
        run.last().after.breakers[service].state == CircuitState::Closed,
        run.last().after.breakers[service].failure_count == 0,
        next.r is Forward,
{
    assert forall|k: int| 0 <= k < run.len() implies (#[trigger] run[k]).r is Forward by {
        lemma_trial(c, algorithm, service, run, k);
    }
    lemma_trial(c, algorithm, service, run, run.len() - 1);
    lemma_marks_keep_service(
        c,
        next.req,
        middleware::judged(c, next.before.chain, next.req, next.client_ip, next.at.now),
        next.at,
    );
}

/// A request that no middleware objects to, for a service with a healthy endpoint, is forwarded
/// while the breaker of the service is closed, while nothing is known of the service, and
/// wherever breakers are off; and it goes to the endpoint that the balancer chooses among those
/// of the service. Only the turn of that service changes among the services.
pub proof fn healthy_services_are_served(
    c: ProxyConfig,
    algorithm: LoadBalancingAlgorithm,
    service: Seq<char>,
    other: Seq<char>,
    x: Exchange,
)
    requires
        comes_through(c, algorithm, service, x),
    ensures
        !c.circuit_breaker.enabled || !x.before.breakers.contains_key(service)
            || x.before.breakers[service].state == CircuitState::Closed ==> x.r is Forward,
        x.r is Forward ==> {
            &&& x.before.pools.contains_key(service)
            &&& x.r->service@ == service
            &&& Some(x.r->endpoint@) == load_balancer::chosen_host(
                algorithm,
                x.before.pools[service],
                x.draw,
            )
        },
        x.admitted.pools.dom() == x.before.pools.dom(),
        other != service && x.before.pools.contains_key(other) ==> x.admitted.pools[other]
            == x.before.pools[other],
        x.admitted.pools[service].endpoints == x.before.pools[service].endpoints,
        other != service ==> x.admitted.breakers.contains_key(other)
            == x.before.breakers.contains_key(other) && x.admitted.breakers[other]
            == x.before.breakers[other],
{
    lemma_marks_keep_service(
        c,
        x.req,
        middleware::judged(c, x.before.chain, x.req, x.client_ip, x.at.now),
        x.at,
    );
    load_balancer::other_choices_change_nothing(algorithm, x.before.pools[service]);
    assert(x.admitted.pools.dom() =~= x.before.pools.dom());
}

/// A service is named by the first value of the header for it, and `default` where the header
/// is missing or cannot be shown.
pub proof fn the_header_names_the_service(req: RequestModel, name: Seq<char>, more: Seq<Seq<u8>>)
    ensures
        !req.fields.contains_key("x-service-name"@) ==> service_of(req) == "default"@,
        http::is_visible_text(name) && req.fields.contains_key("x-service-name"@)
            && req.fields["x-service-name"@] == seq![http::ascii(name)] + more ==> service_of(req)
            == name,
{
    let values = seq![http::ascii(name)] + more;
    if http::is_visible_text(name) {
        http::texts_are_shown_again(name);
        assert(values[0] == http::ascii(name));
    }
}

/// A request is sent on with its own method, if that is one of the seven usual ones, and with
/// `GET` otherwise; to its own path and query at the endpoint, or to the root; and with the
/// marks of the proxy in place of what stood in their fields, all others as they were.
pub proof fn requests_are_sent_on_as_they_came(
    req: RequestModel,
    endpoint: Seq<char>,
    name: Seq<char>,
)
    ensures
        req.method == "GET"@ || req.method == "POST"@ || req.method == "PUT"@ || req.method
            == "DELETE"@ || req.method == "PATCH"@ || req.method == "HEAD"@ || req.method
            == "OPTIONS"@ ==> sent_method(req.method) == req.method,
        sent_method(req.method) == req.method || sent_method(req.method) == "GET"@,
        req.path_and_query matches Some(rest) ==> target(endpoint, req) == "http://"@ + endpoint
            + rest,
        req.path_and_query is None ==> target(endpoint, req) == "http://"@ + endpoint + "/"@,
        forwarded(req).method == req.method,
        forwarded(req).path == req.path,
        forwarded(req).path_and_query == req.path_and_query,
        forwarded(req).started == req.started,
        name != "x-forwarded-proto"@ && name != "x-forwarded-for"@ ==> forwarded(
            req,
        ).fields.contains_key(name) == req.fields.contains_key(name) && forwarded(req).fields[name]
            == req.fields[name],
        forwarded(req).fields["x-forwarded-for"@] == seq![http::ascii("127.0.0.1"@)],
        forwarded(req).fields["x-forwarded-proto"@] == seq![http::ascii("http"@)],
{
    reveal_strlit("x-forwarded-proto");
    reveal_strlit("x-forwarded-for");
    assert("x-forwarded-proto"@.len() != "x-forwarded-for"@.len());
}

/// The reply that goes back is the one that came, or an error where none came; and it knows
/// when the request came.
pub proof fn replies_go_back_as_they_came(reply: ReplyModel, started: Option<u64>)
    ensures
        raw_reply(Some(reply), started).status == reply.status,
        raw_reply(Some(reply), started).body == reply.body,
        raw_reply(Some(reply), started).fields == reply.fields,
        raw_reply(Some(reply), started).started == started,
        raw_reply(None, started).status == 500,
        raw_reply(None, started).body == "Internal server error"@,
        raw_reply(None, started).fields == Map::<Seq<char>, Seq<Seq<u8>>>::empty(),
        raw_reply(None, started).started == started,
{
}

impl ProxyMetrics {
    /// The served text has a line for each counter, with its number in decimal.
    pub proof fn every_counter_has_its_line(
        &self,
        times: Seq<u64>,
        rows: Seq<(Seq<char>, CircuitState)>,
    )
        ensures
            text::occurs(
                self.text(times, rows),
                "proxy_requests_total "@ + text::decimal(self.total_requests as nat) + "\n"@,
            ),
            text::occurs(
                self.text(times, rows),
                "proxy_requests_successful_total "@ + text::decimal(
                    self.successful_requests as nat,
                ) + "\n"@,
            ),
            text::occurs(
                self.text(times, rows),
                "proxy_requests_failed_total "@ + text::decimal(self.failed_requests as nat)
                    + "\n"@,
            ),
            text::occurs(self.text(times, rows), exposition::histogram(times)),
            text::occurs(self.text(times, rows), exposition::states(rows)),
    {
        let total = "proxy_requests_total "@ + text::decimal(self.total_requests as nat) + "\n"@;
        let good = "proxy_requests_successful_total "@ + text::decimal(
            self.successful_requests as nat,
        ) + "\n"@;
        let bad = "proxy_requests_failed_total "@ + text::decimal(self.failed_requests as nat)
            + "\n"@;
        let a = "# HELP proxy_requests_total Total number of requests\n"@
            + "# TYPE proxy_requests_total counter\n"@;
        let b = "# HELP proxy_requests_successful_total Total number of successful requests\n"@
            + "# TYPE proxy_requests_successful_total counter\n"@;
        let c = "# HELP proxy_requests_failed_total Total number of failed requests\n"@
            + "# TYPE proxy_requests_failed_total counter\n"@;
        let h = exposition::histogram(times);
        let t = exposition::states(rows);
        assert(self.counters() == a + total + b + good + c + bad) by {
            let one = |n: u64| text::decimal(n as nat);
            lemma_counters(
                a,
                "proxy_requests_total "@,
                one(self.total_requests),
                "# HELP proxy_requests_successful_total Total number of successful requests\n"@,
                "# TYPE proxy_requests_successful_total counter\n"@,
                "proxy_requests_successful_total "@,
                one(self.successful_requests),
                "# HELP proxy_requests_failed_total Total number of failed requests\n"@,
                "# TYPE proxy_requests_failed_total counter\n"@,
                "proxy_requests_failed_total "@,
                one(self.failed_requests),
                "\n"@,
            );
        }
        lemma_parts_stand(a, total, b, good, c, bad, h, t);
    }
}

proof fn lemma_counters(
    a: Seq<char>,
    n: Seq<char>,
    x: Seq<char>,
    b: Seq<char>,
    b2: Seq<char>,
    o: Seq<char>,
    y: Seq<char>,
    c: Seq<char>,
    c2: Seq<char>,
    p: Seq<char>,
    z: Seq<char>,
    end: Seq<char>,
)
    ensures
        a + n + x + end + b + b2 + o + y + end + c + c2 + p + z + end == a + (n + x + end) + (b
            + b2) + (o + y + end) + (c + c2) + (p + z + end),
{
    let first = a + (n + x + end);
    assert(a + n + x + end =~= first);
    let second = first + (b + b2) + (o + y + end);
    assert(first + b + b2 + o + y + end =~= second);
    assert(second + c + c2 + p + z + end =~= second + (c + c2) + (p + z + end));
}

proof fn lemma_parts_stand(
    a: Seq<char>,
    x: Seq<char>,
    b: Seq<char>,
    y: Seq<char>,
    c: Seq<char>,
    z: Seq<char>,
    h: Seq<char>,
    t: Seq<char>,
)
    ensures
        text::occurs(a + x + b + y + c + z + h + t, x),
        text::occurs(a + x + b + y + c + z + h + t, y),
        text::occurs(a + x + b + y + c + z + h + t, z),
        text::occurs(a + x + b + y + c + z + h + t, h),
        text::occurs(a + x + b + y + c + z + h + t, t),
{
    let whole = a + x + b + y + c + z + h + t;
    let none = Seq::<char>::empty();
    text::parts_stand_anywhere(a, x, b + y + c + z + h + t);
    assert(whole =~= a + x + (b + y + c + z + h + t));
    text::parts_stand_anywhere(a + x + b, y, c + z + h + t);
    assert(whole =~= (a + x + b) + y + (c + z + h + t));
    text::parts_stand_anywhere(a + x + b + y + c, z, h + t);
    assert(whole =~= (a + x + b + y + c) + z + (h + t));
    text::parts_stand_anywhere(a + x + b + y + c + z, h, t);
    text::parts_stand_anywhere(a + x + b + y + c + z + h, t, none);
    assert(whole =~= whole + none);
}

/// A request goes through the middleware once: what the stages keep of it, and the marks they
/// leave on it, are the server's and the request's afterwards. Only an arrival is counted.
pub proof fn requests_go_through_the_middleware(
    c: ProxyConfig,
    algorithm: LoadBalancingAlgorithm,
    x: Exchange,
)
    requires
        admits(
            c,
            algorithm,
            x.before,
            x.req,
            x.client_ip,
            x.at,
            x.draw,
            x.now,
            x.admitted,
            x.req_after,
            x.r,
        ),
    ensures
        x.admitted.chain == middleware::after_request(
            c,
            x.before.chain,
            x.req,
            x.client_ip,
            x.at.now,
        ),
        x.req_after == middleware::marked_request(
            c,
            x.req,
            middleware::judged(c, x.before.chain, x.req, x.client_ip, x.at.now),
            x.at,
        ),
        x.admitted.total == x.before.total.wrapping_add(1),
        x.admitted.successful == x.before.successful,
        x.admitted.failed == x.before.failed,
        !(middleware::judged(c, x.before.chain, x.req, x.client_ip, x.at.now) is Pass)
            ==> x.admitted.pools == x.before.pools && x.admitted.breakers == x.before.breakers,
{
}

/// A connection starts when it is opened, with nothing sent or received yet.
pub proof fn connections_start_empty(now: u64)
    ensures
        new_connection(now).established_at == now,
        new_connection(now).requests_count == 0,
        new_connection(now).bytes_sent == 0,
        new_connection(now).bytes_received == 0,
{
}

/// Turns go on with the requests: one that finds an endpoint by turns takes the turn of its
/// service, and by any other algorithm nothing changes among the services. So two requests in a
/// row to a service with several healthy endpoints go to different ones.
pub proof fn requests_take_turns(
    c: ProxyConfig,
    algorithm: LoadBalancingAlgorithm,
    service: Seq<char>,
    x: Exchange,
    y: Exchange,
)
    requires
        comes_through(c, algorithm, service, x),
    ensures
        x.before.pools.contains_key(service),
        algorithm == LoadBalancingAlgorithm::RoundRobin && x.before.pools[service].turn < usize::MAX
            ==> x.admitted.pools[service].turn == x.before.pools[service].turn + 1,
        algorithm != LoadBalancingAlgorithm::RoundRobin ==> x.admitted.pools[service]
            == x.before.pools[service],
        algorithm == LoadBalancingAlgorithm::RoundRobin && comes_through(c, algorithm, service, y)
            && y.before.pools == x.admitted.pools && x.before.pools[service].turn < usize::MAX
            && load_balancer::healthy(x.before.pools[service].endpoints).len() > 1
            ==> load_balancer::chosen(algorithm, x.before.pools[service], x.draw)
            != load_balancer::chosen(algorithm, y.before.pools[service], y.draw),
{
    lemma_marks_keep_service(
        c,
        x.req,
        middleware::judged(c, x.before.chain, x.req, x.client_ip, x.at.now),
        x.at,
    );
    let p = x.before.pools[service];
    load_balancer::other_choices_change_nothing(algorithm, p);
    if p.turn < usize::MAX {
        load_balancer::turns_follow_the_list(p.endpoints, p.turn, x.draw, 0);
    }
    if algorithm == LoadBalancingAlgorithm::RoundRobin && p.turn < usize::MAX
        && load_balancer::healthy(p.endpoints).len() > 1 {
        load_balancer::turns_go_round(p.endpoints, p.turn, 0, 1, x.draw);
        let q = Pool { endpoints: p.endpoints, turn: (p.turn + 1) as usize };
        assert(x.admitted.pools[service] == q);
        assert(load_balancer::chosen(algorithm, q, x.draw) == load_balancer::chosen(
            algorithm,
            q,
            y.draw,
        ));
    }
}

} // verus!
