//! Execution of optimized plans: resource locks, caching, retry policies,
//! reference resolution, and the scheduler that drives a run.
//!
//! Nothing here waits or talks to the outside: each step takes what the
//! outside reported and says what to do next.

pub mod bench;
pub mod builtin;
pub mod cache;
pub mod calls;
pub mod config;
pub mod conformance;
pub mod dispatch;
pub mod drive;
pub mod engine;
pub mod equivalence;
pub mod error;
pub mod fanout;
pub mod finish;
pub mod history;
pub mod layered;
pub mod locks;
pub mod meaning;
pub mod model;
pub mod policy;
pub mod prepared;
pub mod progress;
pub mod registry;
pub mod resolve;
pub mod result;
pub mod scheduler;
pub mod schema;
pub mod turns;
pub mod units;
pub mod upkeep;
pub mod wiring;
