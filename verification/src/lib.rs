//! Loglumen core: an in-memory telemetry event store with an aggregation and
//! query engine. Remote agents push structured events; the store accumulates
//! them append-only, and the aggregation layer derives per-category and
//! per-node statistics for a dashboard.

pub mod config;
pub mod event;
pub mod order;
pub mod stats;
pub mod store;
