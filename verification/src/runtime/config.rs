//! Per-run configuration.

use vstd::prelude::*;

use crate::runtime::result::ResultMode;

verus! {

/// What to do when a node fails.
#[derive(Clone, Copy, Debug, PartialEq, Eq, Structural)]
pub enum ErrorMode {
    /// Stop scheduling new nodes, drain in-flight work, return partials.
    FailFast,
    /// Keep executing nodes whose dependencies succeeded; only nodes that
    /// (transitively) reference the failed output are skipped.
    Continue,
}

impl Default for ErrorMode {
    fn default() -> (r: Self)
        ensures
            r == ErrorMode::FailFast,
    {
        ErrorMode::FailFast
    }
}

/// Per-run configuration.
#[derive(Clone, Copy, Debug, PartialEq, Eq)]
pub struct RunConfig {
    /// Failure handling mode.
    pub on_error: ErrorMode,
    /// How much detail the result carries.
    pub result_mode: ResultMode,
    /// Whether the tool cache is consulted.
    pub use_cache: bool,
    /// Global ceiling on concurrent dispatches (`None` = unbounded).
    pub max_concurrency: Option<usize>,
    /// Timeout applied to calls whose effects declare none.
    pub default_timeout_ms: Option<u64>,
    /// Per-output byte budget; larger outputs are replaced by a truncation
    /// marker in the result (reference resolution always sees full values).
    pub max_output_bytes: Option<usize>,
}

/// The default configuration: fail-fast, full result, cache enabled.
pub open spec fn default_config() -> RunConfig {
    RunConfig {
        on_error: ErrorMode::FailFast,
        result_mode: ResultMode::Full,
        use_cache: true,
        max_concurrency: None,
        default_timeout_ms: None,
        max_output_bytes: None,
    }
}

impl RunConfig {
    /// Default configuration: fail-fast, full result, cache enabled.
    pub fn new() -> (r: Self)
        ensures
            r == default_config(),
    {
        RunConfig {
            on_error: ErrorMode::FailFast,
            result_mode: ResultMode::Full,
            use_cache: true,
            max_concurrency: None,
            default_timeout_ms: None,
            max_output_bytes: None,
        }
    }

    /// Sets the failure handling mode.
    pub fn with_on_error(self, mode: ErrorMode) -> (r: Self)
        ensures
            r == (RunConfig { on_error: mode, ..self }),
    {
        RunConfig { on_error: mode, ..self }
    }

    /// Sets the result shaping mode.
    pub fn with_result_mode(self, mode: ResultMode) -> (r: Self)
        ensures
            r == (RunConfig { result_mode: mode, ..self }),
    {
        RunConfig { result_mode: mode, ..self }
    }

    /// Enables or disables the tool cache for this run.
    pub fn with_cache(self, use_cache: bool) -> (r: Self)
        ensures
            r == (RunConfig { use_cache, ..self }),
    {
        RunConfig { use_cache, ..self }
    }

    /// Sets the global concurrency ceiling.
    pub fn with_max_concurrency(self, limit: usize) -> (r: Self)
        ensures
            r == (RunConfig { max_concurrency: Some(limit), ..self }),
    {
        RunConfig { max_concurrency: Some(limit), ..self }
    }

    /// Sets the default timeout for tools that declare none.
    pub fn with_default_timeout_ms(self, timeout_ms: u64) -> (r: Self)
        ensures
            r == (RunConfig { default_timeout_ms: Some(timeout_ms), ..self }),
    {
        RunConfig { default_timeout_ms: Some(timeout_ms), ..self }
    }

    /// Sets the per-output byte budget.
    pub fn with_max_output_bytes(self, max_bytes: usize) -> (r: Self)
        ensures
            r == (RunConfig { max_output_bytes: Some(max_bytes), ..self }),
    {
        RunConfig { max_output_bytes: Some(max_bytes), ..self }
    }
}

impl Default for RunConfig {
    fn default() -> (r: Self)
        ensures
            r == default_config(),
    {
        RunConfig::new()
    }
}

} // verus!
