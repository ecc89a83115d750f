//! The part of the proxy that watches it and decides what to do.
pub mod agent;
pub mod anomaly_detection;
pub mod decision_engine;
pub mod learning;

pub use agent::AiAgent;
