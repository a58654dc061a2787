//! Validation and dependency graph construction for plans.
//!
//! [`validate::validate`] checks a plan structurally (ids, tools, references,
//! cycles, effect declarations) and produces an execution graph: the
//! dependency map, conservative parallel execution layers, and per-node
//! effects with resource templates substituted from each node's input.

pub mod layers;
pub mod order;
pub mod resolved;
pub mod rounds;
pub mod validate;
