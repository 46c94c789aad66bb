//! Simulated clusters: what to run, what each step does, and what to make of
//! the samples.
//!
//! Times are nanoseconds of virtual time since the run began, unless a name says
//! milliseconds. Whoever runs a scenario advances virtual time and polls the
//! nodes; all that has to be decided on the way is decided here.

pub mod counters;
pub mod fanout;
pub mod headline;
pub mod laws;
pub mod plan;
pub mod run;
pub mod scenario;
pub mod workload;

pub use counters::CountingHandle;
pub use headline::{Headline, NodeMetrics, TickSnapshot};
pub use scenario::{
    LinkAction, LinkModel, NetworkModel, Scenario, ScenarioKind, ScheduledNetworkChange, Workload,
};
