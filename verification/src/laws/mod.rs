//! What the operations are for: relations between inputs and results that
//! hold of every call.

pub mod adapters;
pub mod calls;
pub mod conditions;
pub mod costs;
pub mod documents;
pub mod gates;
pub mod layered;
pub mod layers;
pub mod optimizer;
pub mod outcomes;
pub mod planner;
pub mod protocol;
pub mod recipes;
pub mod reports;
pub mod retries;
pub mod runs;
pub mod server;
pub mod setup;
pub mod templates;
pub mod validation;
pub mod values;
