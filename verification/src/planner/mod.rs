//! Intent-to-plan compiler and recipe expansion for agent tool calls.
//!
//! Two higher-level inputs lower into executable plans:
//!
//! - **Intent plans**: agent-authored steps whose dependencies are derived
//!   from `$ref`s plus explicit `after` ordering.
//! - **Recipes**: compact declarative shapes (`fan_out`, `map_reduce`,
//!   `pipeline`) that expand into many nodes, optionally parameterized with
//!   `{"$param": "name"}` placeholders.

pub mod intent;
pub mod mining;
pub mod recipes;
