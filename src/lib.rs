//! A statsd server core: the metric line parser, the bucket store that
//! aggregates samples between flushes, the administrative command protocol,
//! and the decisions of the event loop that ties them together.
pub mod clock;
pub mod laws;
pub mod bucket;
pub mod buckets;
pub mod metric;
pub mod server;
pub mod text;

