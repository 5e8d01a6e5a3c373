//! Distribution substrate for a fleet of synthetic-monitoring workers.
//!
//! Workers coordinate through a shared store: each publishes heartbeats,
//! takes a position on a consistent-hash ring, owns a contiguous range of
//! buckets, schedules the health checks that hash into that range, and
//! aggregates the probe results into time-weighted uptime metrics.

pub mod checks;
pub mod graph;
pub mod internode;
pub mod membership;
pub mod metrics;
pub mod placement;
pub mod probe;
pub mod regions;
pub mod ring;
pub mod scheduler;
pub mod sorting;
pub mod text;
pub mod timegrid;

pub use ring::{NodePosition, RingRange, RingRangeIterator};
