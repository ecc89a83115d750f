//! A sidecar proxy: load balancing, circuit breaking, retries, middleware, and an agent that
//! watches over them.
pub mod ai;
pub mod binary64;
pub mod clock;
pub mod config;
pub mod http;
pub mod precision;
pub mod proxy;
mod random;
pub mod registry;
pub mod text;
