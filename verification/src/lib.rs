//! The sampling, aggregation and windowing engine of a live latency
//! monitor: a fixed-capacity sliding chart series, a rolling
//! block-average aggregator, a probe configuration with its position
//! counter, and the per-tick state transition that drives them.

pub mod addr;
pub mod app;
pub mod ping;
pub mod series;
pub mod statistics;
