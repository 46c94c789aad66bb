//! Distributed rate limiting: per-origin counters kept in a CRDT, exchanged in
//! bounded gossip frames, and read back through sliding admission windows.

pub mod bench;
pub mod bytes;
pub mod cells;
pub mod config;
pub mod crdt;
pub mod discovery;
pub mod endpoints;
pub mod engine;
pub mod gossip;
pub mod limiter;
pub mod loader;
pub mod messages;
pub mod period;
pub mod requests;
pub mod rules;
pub mod seqs;
pub mod standalone;
pub mod startup;
pub mod text;
pub mod time;
pub mod window;
pub mod wire;
