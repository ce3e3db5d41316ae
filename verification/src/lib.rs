//! A load-generation harness for benchmarking a server or proxy: one session
//! per target sends a fixed probe, measures each round trip, and the run is
//! reduced to a latency summary.
//!
//! This crate holds the decisions and the arithmetic of such a run. Sockets,
//! timers and task scheduling stay with the caller, which performs the
//! commands the state machines hand out and reports back what happened.

pub mod aggregator;
pub mod client;
pub mod config;
pub mod session;
pub mod stats;
