//! Compiler-opportunity mining over observed tool calls.
//!
//! Hosts feed the sequence of tool calls an agent actually made;
//! [`suggest_recipes`] finds runs of consecutive same-tool calls, the
//! signal that a loop of model turns was spent on deterministic
//! orchestration, and proposes ready-to-fill [`RecipePlan`]s.

use vstd::prelude::*;

use crate::json::{Json, Value};
use crate::plan::CURRENT_VERSION;
use crate::planner::recipes::{FanOutRecipe, FanOutV, Recipe, RecipePlan, RecipePlanV, RecipeV, DEFAULT_NODE_PREFIX};
use crate::text::{concat2, decimal_text, same_text};

verus! {

use crate::json::values_view;
use crate::ordered::views;
use crate::text::decimal;

/// One tool call observed in an agent transcript.
#[derive(Debug, PartialEq)]
pub struct ObservedCall {
    /// Tool name as the agent called it.
    pub tool: String,
    /// The call input.
    pub input: Value,
}

/// An observed call as a mathematical value.
pub struct CallV {
    pub tool: Seq<char>,
    pub input: Json,
}

impl View for ObservedCall {
    type V = CallV;

    open spec fn view(&self) -> CallV {
        CallV { tool: self.tool@, input: self.input@ }
    }
}

/// Kind of a mined suggestion.
#[derive(Clone, Copy, Debug, PartialEq, Eq, Structural)]
pub enum SuggestionKind {
    /// A run of same-tool calls that could be one fan-out recipe.
    FanOut,
}

/// A mined compiler opportunity.
#[derive(Debug, PartialEq)]
pub struct Suggestion {
    /// Suggestion kind.
    pub kind: SuggestionKind,
    /// Tool the run called.
    pub tool: String,
    /// How many consecutive calls the run contained.
    pub occurrences: usize,
    /// Zero-based index of the first call of the run in the input slice.
    pub start_index: usize,
    /// A ready recipe carrying the observed inputs as items. The `tools`
    /// map is intentionally empty: the host must declare the tool's adapter
    /// and effects before running it.
    pub recipe: RecipePlan,
    /// Human-readable rationale.
    pub reason: String,
}

/// A suggestion as a mathematical value.
pub struct SuggestionV {
    pub kind: SuggestionKind,
    pub tool: Seq<char>,
    pub occurrences: int,
    pub start_index: int,
    pub recipe: RecipePlanV,
    pub reason: Seq<char>,
}

impl View for Suggestion {
    type V = SuggestionV;

    open spec fn view(&self) -> SuggestionV {
        SuggestionV {
            kind: self.kind,
            tool: self.tool@,
            occurrences: self.occurrences as int,
            start_index: self.start_index as int,
            recipe: self.recipe@,
            reason: self.reason@,
        }
    }
}

/// Default minimum run length worth suggesting.
pub const DEFAULT_MIN_OCCURRENCES: usize = 3;

/// The position behind the calls from `i` on that call `tool`.
pub open spec fn run_end(calls: Seq<CallV>, tool: Seq<char>, i: int) -> int
    decreases calls.len() - i,
{
    if 0 <= i < calls.len() && calls[i].tool == tool {
        run_end(calls, tool, i + 1)
    } else {
        i
    }
}

/// What is suggested for the run of calls from `start` to `end`.
pub open spec fn suggestion(calls: Seq<CallV>, start: int, end: int) -> SuggestionV {
    let tool = calls[start].tool;
    let count = decimal((end - start) as nat);
    SuggestionV {
        kind: SuggestionKind::FanOut,
        tool,
        occurrences: end - start,
        start_index: start,
        recipe: RecipePlanV {
            version: CURRENT_VERSION@,
            name: Some(tool + " fan-out ("@ + count + " calls)"@),
            params: Seq::empty(),
            tools: Seq::empty(),
            recipe: RecipeV::FanOut(
                FanOutV {
                    tool,
                    items: Seq::new((end - start) as nat, |i: int| calls[start + i].input),
                    items_ref: None,
                    node_prefix: DEFAULT_NODE_PREFIX@,
                    input_key: None,
                },
            ),
            outputs: Seq::empty(),
        },
        reason: count + " consecutive '"@ + tool
            + "' calls; if they are independent, one fan-out recipe replaces "@ + count
            + " model-visible tool calls with one"@,
    }
}

/// The calls from `start` to `end` are a run: all call one tool, and the run
/// cannot be made longer on either side.
pub open spec fn is_run(calls: Seq<CallV>, start: int, end: int) -> bool {
    &&& 0 <= start < end <= calls.len()
    &&& forall|i: int| start <= i < end ==> (#[trigger] calls[i]).tool == calls[start].tool
    &&& start > 0 ==> calls[start - 1].tool != calls[start].tool
    &&& end < calls.len() ==> calls[end].tool != calls[start].tool
}

/// The suggestions for the calls from position `i` on.
pub open spec fn suggestions_from(calls: Seq<CallV>, least: int, i: int) -> Seq<SuggestionV>
    decreases calls.len() - i,
{
    if 0 <= i < calls.len() {
        let end = run_end(calls, calls[i].tool, i);
        if i < end <= calls.len() {
            let rest = suggestions_from(calls, least, end);
            if end - i >= least {
                seq![suggestion(calls, i, end)] + rest
            } else {
                rest
            }
        } else {
            Seq::empty()
        }
    } else {
        Seq::empty()
    }
}

proof fn lemma_run_end(calls: Seq<CallV>, tool: Seq<char>, i: int)
    requires
        0 <= i <= calls.len(),
    ensures
        i <= run_end(calls, tool, i) <= calls.len(),
        forall|j: int|
            i <= j < run_end(calls, tool, i) ==> (#[trigger] calls[j]).tool == tool,
        run_end(calls, tool, i) < calls.len() ==> calls[run_end(calls, tool, i)].tool != tool,
    decreases calls.len() - i,
{
    if i < calls.len() && calls[i].tool == tool {
        lemma_run_end(calls, tool, i + 1);
    }
}

proof fn lemma_suggestions_are_runs(calls: Seq<CallV>, least: int, i: int, k: int)
    requires
        0 <= i <= calls.len(),
        0 < i < calls.len() ==> calls[i - 1].tool != calls[i].tool,
        0 <= k < suggestions_from(calls, least, i).len(),
    ensures
        exists|start: int, end: int| #[trigger]
            is_run(calls, start, end) && i <= start && end - start >= least && suggestions_from(
                calls,
                least,
                i,
            )[k] == suggestion(calls, start, end),
    decreases calls.len() - i,
{
    if i < calls.len() {
        let end = run_end(calls, calls[i].tool, i);
        lemma_run_end(calls, calls[i].tool, i);
        assert(end > i);
        let rest = suggestions_from(calls, least, end);
        assert(calls[end - 1].tool == calls[i].tool);
        if end - i >= least && k == 0 {
            assert(is_run(calls, i, end));
        } else {
            let q = if end - i >= least {
                k - 1
            } else {
                k
            };
            assert(suggestions_from(calls, least, i)[k] == rest[q]);
            lemma_suggestions_are_runs(calls, least, end, q);
            let (s, e) = choose|s: int, e: int| #[trigger]
                is_run(calls, s, e) && end <= s && e - s >= least && rest[q] == suggestion(
                    calls,
                    s,
                    e,
                );
            assert(is_run(calls, s, e));
        }
    }
}

proof fn lemma_runs_are_suggested(calls: Seq<CallV>, least: int, i: int, start: int, end: int)
    requires
        0 <= i <= calls.len(),
        is_run(calls, start, end),
        i <= start,
        end - start >= least,
    ensures
        suggestions_from(calls, least, i).contains(suggestion(calls, start, end)),
    decreases calls.len() - i,
{
    let stop = run_end(calls, calls[i].tool, i);
    lemma_run_end(calls, calls[i].tool, i);
    assert(stop > i);
    let all = suggestions_from(calls, least, i);
    let rest = suggestions_from(calls, least, stop);
    if start < stop {
        if start > i {
            assert(calls[start - 1].tool == calls[start].tool);
        }
        assert(start == i);
        if end < stop {
            assert(calls[end].tool == calls[start].tool);
        }
        if stop < end {
            assert(calls[stop].tool == calls[start].tool);
        }
        assert(all[0] == suggestion(calls, start, end));
    } else {
        lemma_runs_are_suggested(calls, least, stop, start, end);
        let p = choose|p: int| 0 <= p < rest.len() && rest[p] == suggestion(calls, start, end);
        if stop - i >= least {
            assert(all[p + 1] == rest[p]);
        } else {
            assert(all[p] == rest[p]);
        }
    }
}

/// Exactly the maximal runs of at least the required length are suggested.
pub proof fn runs_are_suggested(calls: Seq<CallV>, least: int, s: SuggestionV)
    ensures
        suggestions_from(calls, least, 0).contains(s) <==> exists|start: int, end: int| #[trigger]
            is_run(calls, start, end) && end - start >= least && s == suggestion(calls, start, end),
{
    let all = suggestions_from(calls, least, 0);
    if all.contains(s) {
        let k = choose|k: int| 0 <= k < all.len() && all[k] == s;
        lemma_suggestions_are_runs(calls, least, 0, k);
    }
    if exists|start: int, end: int| #[trigger]
        is_run(calls, start, end) && end - start >= least && s == suggestion(calls, start, end) {
        let (start, end) = choose|start: int, end: int| #[trigger]
            is_run(calls, start, end) && end - start >= least && s == suggestion(calls, start, end);
        lemma_runs_are_suggested(calls, least, 0, start, end);
    }
}

fn make_suggestion(calls: &[ObservedCall], start: usize, end: usize) -> (r: Suggestion)
    requires
        start < end <= calls@.len(),
    ensures
        r@ == suggestion(views(calls@), start as int, end as int),
{
    let ghost all = views(calls@);
    let tool = calls[start].tool.as_str();
    let mut items: Vec<Value> = Vec::new();
    let mut i: usize = start;
    while i < end
        invariant
            start <= i <= end <= calls@.len(),
            all == views(calls@),
            items@.len() == i - start,
            forall|j: int| 0 <= j < items@.len() ==> (#[trigger] items@[j])@ == all[start + j].input,
        decreases end - i,
    {
        assert(all[i as int] == calls@[i as int]@);
        items.push(calls[i].input.clone());
        i = i + 1;
    }
    let ghost want = suggestion(all, start as int, end as int);
    let run: usize = end - start;
    let count = decimal_text(run as u64);
    let mut name = concat2(tool, " fan-out (");
    name.push_str(count.as_str());
    name.push_str(" calls)");
    let mut reason = concat2(count.as_str(), " consecutive '");
    reason.push_str(tool);
    reason.push_str("' calls; if they are independent, one fan-out recipe replaces ");
    reason.push_str(count.as_str());
    reason.push_str(" model-visible tool calls with one");
    assert(values_view(items@) =~= Seq::new(
        (end - start) as nat,
        |i: int| all[start + i].input,
    ));
    let recipe = RecipePlan::new(Recipe::FanOut(FanOutRecipe::new(tool, items))).with_name(
        name.as_str(),
    );
    Suggestion {
        kind: SuggestionKind::FanOut,
        tool: tool.to_owned(),
        occurrences: run,
        start_index: start,
        recipe,
        reason,
    }
}

/// Scans `calls` for runs of at least `min_occurrences` consecutive calls of
/// the same tool and returns one fan-out suggestion per run.
pub fn suggest_recipes(calls: &[ObservedCall], min_occurrences: usize) -> (r: Vec<Suggestion>)
    ensures
        views(r@) == suggestions_from(views(calls@), min_occurrences as int, 0),
{
    let ghost all = views(calls@);
    let ghost least = min_occurrences as int;
    let mut out: Vec<Suggestion> = Vec::new();
    let mut index: usize = 0;
    assert(views(out@) + suggestions_from(all, least, 0) =~= suggestions_from(all, least, 0));
    while index < calls.len()
        invariant
            index <= calls@.len(),
            all == views(calls@),
            least == min_occurrences,
            views(out@) + suggestions_from(all, least, index as int) == suggestions_from(all, least, 0),
        decreases calls.len() - index,
    {
        let ghost tool = all[index as int].tool;
        let mut end: usize = index + 1;
        assert(all[index as int] == calls@[index as int]@);
        while end < calls.len() && same_text(calls[end].tool.as_str(), calls[index].tool.as_str())
            invariant
                index < end <= calls@.len(),
                all == views(calls@),
                tool == all[index as int].tool,
                tool == calls@[index as int].tool@,
                run_end(all, tool, index as int) == run_end(all, tool, end as int),
            decreases calls.len() - end,
        {
            assert(all[end as int] == calls@[end as int]@);
            end = end + 1;
        }
        assert(run_end(all, tool, end as int) == end);
        let ghost before = views(out@);
        let ghost rest = suggestions_from(all, least, end as int);
        if end - index >= min_occurrences {
            let one = make_suggestion(calls, index, end);
            let ghost s = one@;
            out.push(one);
            proof {
                assert(views(out@) =~= before.push(s));
                assert(before.push(s) + rest =~= before + (seq![s] + rest));
            }
        }
        index = end;
    }
    assert(views(out@) + Seq::empty() =~= views(out@));
    out
}

} // verus!
