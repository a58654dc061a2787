use vstd::prelude::*;

pub mod adapters;
pub mod canonical;
pub mod command;
pub mod configure;
pub mod effects;
pub mod fields;
pub mod graph;
pub mod json;
pub mod laws;
pub mod optimizer;
pub mod ordered;
pub mod plan;
pub mod planner;
pub mod quality;
pub mod reading;
pub mod refs;
pub mod runtime;
pub mod scan;
pub mod serve;
pub mod text;
pub mod value;

verus! {

} // verus!
