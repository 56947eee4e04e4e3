//! An in-process metrics collection core: a registry interning named
//! counters, gauges and histograms behind stable identifiers, together with
//! a statsd line-protocol encoder and a datagram chunker that never splits
//! a metric line across two datagrams.

pub mod recorder;
pub mod registry;
pub mod statsd;
