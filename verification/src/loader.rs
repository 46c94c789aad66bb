//! A load generator: who sends what when, what comes back, and how much of it
//! should have been let through.

pub mod config;
pub mod http;
pub mod laws;
pub mod schedule;
pub mod summary;

pub use config::{Backend, Config};
pub use http::{content_length, find_header_end, parse_http_target, HttpTarget};
pub use schedule::{
    expected_allowed_per_window, expected_allowed_total, expected_attempts_total, tenant_phase_ns,
    TenantSchedule,
};
pub use summary::{Counters, Outcome};
