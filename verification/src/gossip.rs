//! Per-origin counter gossip: the state of one node, event by event.
//!
//! The event loop itself lives with the sockets and timers. It hands each event
//! to a handler here, hands what a handler asks to be sent to the network, and
//! applies the rows that come out to a downstream store.

pub mod admin;
pub mod aggregate;
pub mod clock;
pub mod convergence;
pub mod events;
pub mod mirror;
pub mod node;
pub mod sampling;
pub mod sim;
pub mod upkeep;
