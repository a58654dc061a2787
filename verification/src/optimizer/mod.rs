//! Safe optimization passes for effect-aware tool plans.

pub mod batch;
pub mod cost;
pub mod dce;
pub mod dedup;
pub mod explain;
pub mod pipeline;
pub mod report;
pub mod rewrite;
