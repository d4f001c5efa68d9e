//! Pipeline-assembly core for a host process-metrics agent.
//!
//! A data-flow graph of named stages (extract, transform, load) is declared
//! as data, validated, and resolved into concrete queue wiring before any
//! stage runs.  The surrounding runtime (task spawning, OS sampling, the
//! scrape server) lives outside this crate; everything here is plain,
//! verified logic.

pub mod datapoint;
pub mod graph;
pub mod otel;
pub mod prom;
pub mod queue;
pub mod supervisor;
pub mod transform;
