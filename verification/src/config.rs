//! The configuration of the proxy.
use crate::binary64::Binary64;
use crate::text;
use std::collections::HashMap;
use vstd::prelude::*;

verus! {

/// `serde_json::Value`, carried through and never read here.
#[verifier::external_type_specification]
#[verifier::external_body]
pub struct ExJsonValue(serde_json::Value);

#[derive(Debug, Clone)]
pub struct ProxyConfig {
    pub server: ServerConfig,
    pub upstream: UpstreamConfig,
    pub load_balancing: LoadBalancingConfig,
    pub circuit_breaker: CircuitBreakerConfig,
    pub retry: RetryConfig,
    pub observability: ObservabilityConfig,
    pub ai: AiConfig,
    pub security: SecurityConfig,
}

#[derive(Debug, Clone)]
pub struct ServerConfig {
    pub bind_address: String,
    pub port: u16,
    pub tls: Option<TlsConfig>,
    pub max_connections: usize,
    pub connection_timeout_ms: u64,
    pub request_timeout_ms: u64,
}

#[derive(Debug, Clone)]
pub struct TlsConfig {
    pub cert_path: String,
    pub key_path: String,
    pub ca_path: Option<String>,
    pub verify_client: bool,
}

/// The services by name; no name stands twice.
#[derive(Debug, Clone)]
pub struct UpstreamConfig {
    pub services: Vec<(String, ServiceConfig)>,
    pub discovery: ServiceDiscoveryConfig,
}

#[derive(Debug, Clone)]
pub struct ServiceConfig {
    pub endpoints: Vec<EndpointConfig>,
    pub health_check: HealthCheckConfig,
    pub timeout_ms: u64,
}

#[derive(Debug, Clone)]
pub struct EndpointConfig {
    pub address: String,
    pub port: u16,
    pub weight: u32,
    pub metadata: Vec<(String, String)>,
}

#[derive(Debug, Clone)]
pub struct ServiceDiscoveryConfig {
    /// "static", "consul", "etcd" or "kubernetes".
    pub provider: String,
    pub config: HashMap<String, serde_json::Value>,
}

#[derive(Debug, Clone)]
pub struct HealthCheckConfig {
    pub enabled: bool,
    pub path: String,
    pub interval_ms: u64,
    pub timeout_ms: u64,
    pub healthy_threshold: u32,
    pub unhealthy_threshold: u32,
}

#[derive(Debug, Clone)]
pub struct LoadBalancingConfig {
    /// "round_robin", "least_connections", "weighted_round_robin" or "consistent_hash".
    pub algorithm: String,
    pub sticky_sessions: bool,
    pub session_affinity_key: Option<String>,
}

#[derive(Debug, Clone)]
pub struct CircuitBreakerConfig {
    pub enabled: bool,
    pub failure_threshold: u32,
    pub recovery_timeout_ms: u64,
    pub half_open_max_calls: u32,
}

#[derive(Debug, Clone)]
pub struct RetryConfig {
    pub enabled: bool,
    pub max_attempts: u32,
    pub backoff_ms: u64,
    pub backoff_multiplier: Binary64,
    /// HTTP status codes or kinds of error.
    pub retry_on: Vec<String>,
}

#[derive(Debug, Clone)]
pub struct ObservabilityConfig {
    pub metrics: MetricsConfig,
    pub tracing: TracingConfig,
    pub logging: LoggingConfig,
}

#[derive(Debug, Clone)]
pub struct MetricsConfig {
    pub enabled: bool,
    pub prometheus_port: u16,
    pub custom_metrics: Vec<String>,
}

#[derive(Debug, Clone)]
pub struct TracingConfig {
    pub enabled: bool,
    pub jaeger_endpoint: Option<String>,
    pub sampling_rate: Binary64,
}

#[derive(Debug, Clone)]
pub struct LoggingConfig {
    pub level: String,
    /// "json" or "text".
    pub format: String,
    /// "stdout" or "file".
    pub output: String,
    pub file_path: Option<String>,
}

#[derive(Debug, Clone)]
pub struct AiConfig {
    pub enabled: bool,
    /// "openai", "azure" or "anthropic".
    pub provider: String,
    pub api_key: Option<String>,
    pub endpoint: Option<String>,
    pub model: String,
    pub autonomous_mode: bool,
    pub decision_threshold: Binary64,
    pub learning_enabled: bool,
}

#[derive(Debug, Clone)]
pub struct SecurityConfig {
    pub rate_limiting: RateLimitConfig,
    pub authentication: AuthConfig,
    pub authorization: AuthzConfig,
}

#[derive(Debug, Clone)]
pub struct RateLimitConfig {
    pub enabled: bool,
    pub requests_per_second: u32,
    pub burst_size: u32,
    /// "ip", "header" or "jwt_claim".
    pub key_extractor: String,
}

#[derive(Debug, Clone)]
pub struct AuthConfig {
    pub enabled: bool,
    /// "jwt", "oauth2" or "mtls".
    pub method: String,
    pub config: HashMap<String, serde_json::Value>,
}

#[derive(Debug, Clone)]
pub struct AuthzConfig {
    pub enabled: bool,
    /// "opa", "casbin" or "builtin".
    pub policy_engine: String,
    pub policies: Vec<String>,
}

impl UpstreamConfig {
    /// No service is named twice.
    pub open spec fn names_distinct(&self) -> bool {
        forall|i: int, j: int|
            0 <= i < j < self.services@.len() ==> #[trigger] self.services@[i].0@
                != #[trigger] self.services@[j].0@
    }

    /// The position of a service, or the number of services where there is none.
    pub open spec fn position(&self, name: Seq<char>) -> int
        recommends
            self.names_distinct(),
    {
        if exists|i: int| 0 <= i < self.services@.len() && #[trigger] self.services@[i].0@ == name {
            choose|i: int| 0 <= i < self.services@.len() && #[trigger] self.services@[i].0@ == name
        } else {
            self.services@.len() as int
        }
    }

    /// A service stands at the position of its name.
    pub proof fn lemma_position(&self, i: int)
        requires
            self.names_distinct(),
            0 <= i < self.services@.len(),
        ensures
            self.position(self.services@[i].0@) == i,
    {
        let name = self.services@[i].0@;
        let p = self.position(name);
        assert(self.services@[p].0@ == name);
    }

    /// At the position of a name stands the service of that name, if there is one.
    pub proof fn lemma_position_of(&self, name: Seq<char>)
        ensures
            0 <= self.position(name) <= self.services@.len(),
            self.position(name) < self.services@.len() ==> self.services@[self.position(name)].0@
                == name,
    {
    }

    /// The configuration of the service with this name.
    pub fn get(&self, name: &str) -> (r: Option<&ServiceConfig>)
        requires
            self.names_distinct(),
        ensures
            r is Some == (self.position(name@) < self.services@.len()),
            r is Some ==> *r->0 == self.services@[self.position(name@)].1,
    {
        let mut i: usize = 0;
        while i < self.services.len()
            invariant
                i <= self.services.len(),
                self.names_distinct(),
                forall|k: int| 0 <= k < i ==> #[trigger] self.services@[k].0@ != name@,
            decreases self.services.len() - i,
        {
            if text::same(self.services[i].0.as_str(), name) {
                proof {
                    assert(self.services@[i as int].0@ == name@);
                    let p = self.position(name@);
                    assert(self.services@[p].0@ == name@);
                    assert(p == i);
                }
                return Some(&self.services[i].1);
            }
            i = i + 1;
        }
        None
    }
}

/// The endpoint of the sample configuration.
pub open spec fn is_sample_endpoint(e: EndpointConfig) -> bool {
    &&& e.address@ == "127.0.0.1"@
    &&& e.port == 8080
    &&& e.weight == 100
    &&& e.metadata@.len() == 0
}

/// The service of the sample configuration.
pub open spec fn is_sample_service(s: ServiceConfig) -> bool {
    &&& s.endpoints@.len() == 1
    &&& is_sample_endpoint(s.endpoints@[0])
    &&& s.health_check.enabled
    &&& s.health_check.path@ == "/health"@
    &&& s.health_check.interval_ms == 30000
    &&& s.health_check.timeout_ms == 5000
    &&& s.health_check.healthy_threshold == 2
    &&& s.health_check.unhealthy_threshold == 3
    &&& s.timeout_ms == 30000
}

impl ProxyConfig {
    pub open spec fn well_formed(&self) -> bool {
        self.upstream.names_distinct()
    }

    /// The configuration that a sample file holds.
    pub fn default_config() -> (c: ProxyConfig)
        ensures
            c.well_formed(),
            c.server.bind_address@ == "0.0.0.0"@,
            c.server.port == 8000,
            c.server.tls is None,
            c.server.max_connections == 10000,
            c.server.connection_timeout_ms == 30000,
            c.server.request_timeout_ms == 30000,
            c.upstream.services@.len() == 1,
            c.upstream.services@[0].0@ == "example-service"@,
            is_sample_service(c.upstream.services@[0].1),
            c.upstream.discovery.provider@ == "static"@,
            c.upstream.discovery.config@.dom() == Set::<String>::empty(),
            c.load_balancing.algorithm@ == "round_robin"@,
            !c.load_balancing.sticky_sessions,
            c.load_balancing.session_affinity_key is None,
            c.circuit_breaker.enabled,
            c.circuit_breaker.failure_threshold == 5,
            c.circuit_breaker.recovery_timeout_ms == 60000,
            c.circuit_breaker.half_open_max_calls == 3,
            c.retry.enabled,
            c.retry.max_attempts == 3,
            c.retry.backoff_ms == 1000,
            c.retry.backoff_multiplier.bits == 0x4000_0000_0000_0000,
            c.retry.retry_on@.len() == 2,
            c.retry.retry_on@[0]@ == "5xx"@,
            c.retry.retry_on@[1]@ == "timeout"@,
            c.observability.metrics.enabled,
            c.observability.metrics.prometheus_port == 9090,
            c.observability.metrics.custom_metrics@.len() == 0,
            c.observability.tracing.enabled,
            c.observability.tracing.jaeger_endpoint is None,
            c.observability.tracing.sampling_rate.bits == 0x3FB9_9999_9999_999A,
            c.observability.logging.level@ == "info"@,
            c.observability.logging.format@ == "json"@,
            c.observability.logging.output@ == "stdout"@,
            c.observability.logging.file_path is None,
            !c.ai.enabled,
            c.ai.provider@ == "openai"@,
            c.ai.api_key is None,
            c.ai.endpoint is None,
            c.ai.model@ == "gpt-4"@,
            !c.ai.autonomous_mode,
            c.ai.decision_threshold.bits == 0x3FE9_9999_9999_999A,
            c.ai.learning_enabled,
            c.security.rate_limiting.enabled,
            c.security.rate_limiting.requests_per_second == 1000,
            c.security.rate_limiting.burst_size == 2000,
            c.security.rate_limiting.key_extractor@ == "ip"@,
            !c.security.authentication.enabled,
            c.security.authentication.method@ == "jwt"@,
            c.security.authentication.config@.dom() == Set::<String>::empty(),
            !c.security.authorization.enabled,
            c.security.authorization.policy_engine@ == "builtin"@,
            c.security.authorization.policies@.len() == 0,
    {
        let mut services: Vec<(String, ServiceConfig)> = Vec::new();
        services.push(
            (
                "example-service".to_string(),
                ServiceConfig {
                    endpoints: vec![
                        EndpointConfig {
                            address: "127.0.0.1".to_string(),
                            port: 8080,
                            weight: 100,
                            metadata: Vec::new(),
                        },
                    ],
                    health_check: HealthCheckConfig {
                        enabled: true,
                        path: "/health".to_string(),
                        interval_ms: 30000,
                        timeout_ms: 5000,
                        healthy_threshold: 2,
                        unhealthy_threshold: 3,
                    },
                    timeout_ms: 30000,
                },
            ),
        );
        ProxyConfig {
            server: ServerConfig {
                bind_address: "0.0.0.0".to_string(),
                port: 8000,
                tls: None,
                max_connections: 10000,
                connection_timeout_ms: 30000,
                request_timeout_ms: 30000,
            },
            upstream: UpstreamConfig {
                services,
                discovery: ServiceDiscoveryConfig {
                    provider: "static".to_string(),
                    config: HashMap::new(),
                },
            },
            load_balancing: LoadBalancingConfig {
                algorithm: "round_robin".to_string(),
                sticky_sessions: false,
                session_affinity_key: None,
            },
            circuit_breaker: CircuitBreakerConfig {
                enabled: true,
                failure_threshold: 5,
                recovery_timeout_ms: 60000,
                half_open_max_calls: 3,
            },
            retry: RetryConfig {
                enabled: true,
                max_attempts: 3,
                backoff_ms: 1000,
                backoff_multiplier: Binary64 { bits: 0x4000_0000_0000_0000 },
                retry_on: vec!["5xx".to_string(), "timeout".to_string()],
            },
            observability: ObservabilityConfig {
                metrics: MetricsConfig {
                    enabled: true,
                    prometheus_port: 9090,
                    custom_metrics: Vec::new(),
                },
                tracing: TracingConfig {
                    enabled: true,
                    jaeger_endpoint: None,
                    sampling_rate: Binary64 { bits: 0x3FB9_9999_9999_999A },
                },
                logging: LoggingConfig {
                    level: "info".to_string(),
                    format: "json".to_string(),
                    output: "stdout".to_string(),
                    file_path: None,
                },
            },
            ai: AiConfig {
                enabled: false,
                provider: "openai".to_string(),
                api_key: None,
                endpoint: None,
                model: "gpt-4".to_string(),
                autonomous_mode: false,
                decision_threshold: Binary64 { bits: 0x3FE9_9999_9999_999A },
                learning_enabled: true,
            },
            security: SecurityConfig {
                rate_limiting: RateLimitConfig {
                    enabled: true,
                    requests_per_second: 1000,
                    burst_size: 2000,
                    key_extractor: "ip".to_string(),
                },
                authentication: AuthConfig {
                    enabled: false,
                    method: "jwt".to_string(),
                    config: HashMap::new(),
                },
                authorization: AuthzConfig {
                    enabled: false,
                    policy_engine: "builtin".to_string(),
                    policies: Vec::new(),
                },
            },
        }
    }
}

} // verus!
