//! The parts of the proxy that decide on requests.
pub mod circuit_breaker;
pub mod exposition;
pub mod hash_ring;
pub mod jitter;
pub mod load_balancer;
pub mod middleware;
pub mod rate_bound;
pub mod retry;
pub mod server;

pub use server::ProxyServer;
