//! What a benchmark reports of a run beside its times.

use vstd::prelude::*;

use crate::runtime::result::{RunResult, TraceEvent, TraceStatus};

verus! {

/// What one side of a comparison did in its last run.
#[derive(Clone, Copy, Debug, PartialEq, Eq)]
pub struct SideCounts {
    pub estimated_tool_calls: usize,
    pub estimated_llm_turns: usize,
    pub trace_events: usize,
    pub cache_hits: usize,
}

/// How many of the first `k` events are cache hits.
pub open spec fn hits(trace: Seq<TraceEvent>, k: int) -> nat
    decreases k,
{
    if k <= 0 {
        0
    } else {
        hits(trace, k - 1) + if trace[k - 1].status == TraceStatus::CacheHit {
            1nat
        } else {
            0nat
        }
    }
}

/// What a run counts as one side of a comparison. The compiled side is taken
/// at the optimizer's estimate; the other makes one call and one turn for each
/// node that succeeded.
pub fn side_counts(result: &RunResult, compiled: bool) -> (r: SideCounts)
    ensures
        r.estimated_tool_calls == (if compiled {
            result.optimization.summary.estimated_tool_calls_after
        } else {
            result.metrics.nodes_succeeded
        }),
        r.estimated_llm_turns == (if compiled {
            result.optimization.summary.estimated_llm_turns_after
        } else {
            result.metrics.nodes_succeeded
        }),
        r.trace_events == result.trace@.len(),
        r.cache_hits == hits(result.trace@, result.trace@.len() as int),
{
    let mut cache_hits: usize = 0;
    let mut i: usize = 0;
    while i < result.trace.len()
        invariant
            i <= result.trace@.len(),
            cache_hits <= i,
            cache_hits == hits(result.trace@, i as int),
        decreases result.trace.len() - i,
    {
        if result.trace[i].status == TraceStatus::CacheHit {
            cache_hits = cache_hits + 1;
        }
        i = i + 1;
    }
    SideCounts {
        estimated_tool_calls: if compiled {
            result.optimization.summary.estimated_tool_calls_after
        } else {
            result.metrics.nodes_succeeded
        },
        estimated_llm_turns: if compiled {
            result.optimization.summary.estimated_llm_turns_after
        } else {
            result.metrics.nodes_succeeded
        },
        trace_events: result.trace.len(),
        cache_hits,
    }
}

/// The shortest and the longest of the times, or zeros when there are none.
pub fn shortest_and_longest(times: &Vec<u64>) -> (r: (u64, u64))
    ensures
        times@.len() == 0 ==> r == (0u64, 0u64),
        times@.len() > 0 ==> times@.contains(r.0) && times@.contains(r.1),
        forall|i: int| 0 <= i < times@.len() ==> r.0 <= #[trigger] times@[i] <= r.1,
{
    if times.len() == 0 {
        return (0, 0);
    }
    let mut low: u64 = times[0];
    let mut high: u64 = times[0];
    let mut i: usize = 1;
    assert(times@.contains(times@[0]));
    while i < times.len()
        invariant
            1 <= i <= times@.len(),
            times@.contains(low),
            times@.contains(high),
            forall|j: int| 0 <= j < i ==> low <= #[trigger] times@[j] <= high,
        decreases times.len() - i,
    {
        assert(times@.contains(times@[i as int]));
        if times[i] < low {
            low = times[i];
        }
        if times[i] > high {
            high = times[i];
        }
        i = i + 1;
    }
    (low, high)
}

} // verus!
