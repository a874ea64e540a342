//! Task missions whose tasks run in dependency order.
//!
//! The library holds the decisions of the scheduler: configuration checks,
//! the dependency graph and its execution levels, the per-task state machine,
//! the listener registry of the event system, and the propagation of a stop
//! request to every task that depends on the stopped one.
pub mod types;
pub mod ids;
pub mod clock;
pub mod graph;
mod seq_facts;
pub mod text;
pub mod topology;
pub mod config;
pub mod event;
pub mod interval;
pub mod task;
pub mod mission;
