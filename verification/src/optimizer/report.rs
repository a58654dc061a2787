//! What the optimizer did and what it estimates.

use vstd::prelude::*;

use crate::optimizer::batch::BatchV;

verus! {

use crate::optimizer::dedup::removals_view;
use crate::ordered::views;
use crate::text::texts_view;

/// A node removed by deduplication.
#[derive(Clone, Debug, PartialEq, Eq)]
pub struct DeduplicatedNode {
    /// The removed node id.
    pub removed: String,
    /// The surviving node whose output replaces it.
    pub canonical: String,
}

/// A compiler-selected batch: same layer, same tool, batchable effects.
#[derive(Clone, Debug, PartialEq, Eq)]
pub struct BatchGroup {
    /// Adapter that executes the batch.
    pub adapter: String,
    /// Tool shared by every node in the batch.
    pub tool: String,
    /// Member node ids.
    pub nodes: Vec<String>,
}

/// Aggregate before/after estimates.
///
/// `estimated_llm_turns_before` assumes the serial-agent baseline: one
/// model-visible tool call (and therefore one feedback turn) per node. The
/// compiled plan is one composite call, so `estimated_llm_turns_after` is 1
/// for any non-empty plan. Cost estimates are only present when at least one
/// tool declares cost metadata.
#[derive(Clone, Copy, Debug, PartialEq, Eq)]
pub struct OptimizationSummary {
    /// Tool calls a serial agent would make (original node count).
    pub estimated_tool_calls_before: usize,
    /// Model-visible dispatches after dedup, elimination, and batching.
    pub estimated_tool_calls_after: usize,
    /// LLM feedback turns for the serial baseline.
    pub estimated_llm_turns_before: usize,
    /// LLM feedback turns for the compiled plan (1 when non-empty).
    pub estimated_llm_turns_after: usize,
    /// Estimated serial wall time from declared costs, in milliseconds.
    pub estimated_serial_ms: Option<u64>,
    /// Estimated compiled wall time from declared costs, in milliseconds.
    pub estimated_compiled_ms: Option<u64>,
    /// Estimated result tokens before optimization.
    pub estimated_tokens_before: Option<u64>,
    /// Estimated result tokens after optimization.
    pub estimated_tokens_after: Option<u64>,
}

/// Report of the transformations applied by the optimizer.
#[derive(Clone, Debug, PartialEq, Eq)]
pub struct OptimizationReport {
    /// Names of the passes that ran, in order.
    pub passes: Vec<String>,
    /// Duplicate nodes removed, with their canonical survivor.
    pub deduplicated: Vec<DeduplicatedNode>,
    /// Pure nodes eliminated because nothing (outputs or effectful nodes)
    /// depends on them. Only runs when the plan declares outputs.
    pub eliminated: Vec<String>,
    /// Same-layer, same-tool groups selected for one `call_batch` dispatch.
    /// Groups are already split by the tool's `batch_size` limit, so this is
    /// exactly what the runtime dispatches.
    pub batch_groups: Vec<BatchGroup>,
    /// Aggregate estimates before/after compilation.
    pub summary: OptimizationSummary,
}

/// A report as a mathematical value.
#[verifier::ext_equal]
pub struct ReportV {
    pub passes: Seq<Seq<char>>,
    pub deduplicated: Seq<(Seq<char>, Seq<char>)>,
    pub eliminated: Seq<Seq<char>>,
    pub batch_groups: Seq<BatchV>,
    pub summary: OptimizationSummary,
}

impl View for OptimizationReport {
    type V = ReportV;

    open spec fn view(&self) -> ReportV {
        ReportV {
            passes: texts_view(self.passes@),
            deduplicated: removals_view(self.deduplicated@),
            eliminated: texts_view(self.eliminated@),
            batch_groups: views(self.batch_groups@),
            summary: self.summary,
        }
    }
}

/// The summary of nothing.
pub open spec fn no_summary() -> OptimizationSummary {
    OptimizationSummary {
        estimated_tool_calls_before: 0,
        estimated_tool_calls_after: 0,
        estimated_llm_turns_before: 0,
        estimated_llm_turns_after: 0,
        estimated_serial_ms: None,
        estimated_compiled_ms: None,
        estimated_tokens_before: None,
        estimated_tokens_after: None,
    }
}

impl Default for OptimizationSummary {
    fn default() -> (r: Self)
        ensures
            r == no_summary(),
    {
        OptimizationSummary {
            estimated_tool_calls_before: 0,
            estimated_tool_calls_after: 0,
            estimated_llm_turns_before: 0,
            estimated_llm_turns_after: 0,
            estimated_serial_ms: None,
            estimated_compiled_ms: None,
            estimated_tokens_before: None,
            estimated_tokens_after: None,
        }
    }
}

impl Default for OptimizationReport {
    fn default() -> (r: Self)
        ensures
            r@ == (ReportV {
                passes: Seq::empty(),
                deduplicated: Seq::empty(),
                eliminated: Seq::empty(),
                batch_groups: Seq::empty(),
                summary: no_summary(),
            }),
    {
        let r = OptimizationReport {
            passes: Vec::new(),
            deduplicated: Vec::new(),
            eliminated: Vec::new(),
            batch_groups: Vec::new(),
            summary: OptimizationSummary::default(),
        };
        assert(r@.passes =~= Seq::empty());
        assert(r@.deduplicated =~= Seq::empty());
        assert(r@.eliminated =~= Seq::empty());
        assert(r@.batch_groups =~= Seq::empty());
        r
    }
}

} // verus!
