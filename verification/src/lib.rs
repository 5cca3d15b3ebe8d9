//! Disk I/O latency exporter core: trace-line parsing, event correlation,
//! device-name resolution and latency histograms, together with the decision
//! logic of the poll-driven server loop that ties them together.

pub mod correlate;
pub mod decimal;
pub mod device;
pub mod metrics;
pub mod server;
pub mod text;
pub mod trace;
