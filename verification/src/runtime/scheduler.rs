//! Dependency-driven scheduling.
//!
//! Nodes start as soon as their dependencies finish; there is no layer
//! barrier. Effect safety is enforced by a resource lock table (reads share,
//! writes exclude, same-tool commutative writes overlap, undeclared effects
//! run alone), which preserves the guarantees of the layered model while
//! letting independent branches overlap.
//!
//! Failures never abort in-flight work: the scheduler stops starting units (in
//! fail-fast mode), drains what is running, and reports a partial result with
//! per-node errors and skips.

use vstd::prelude::*;

use crate::adapters::api::ToolExecutionError;
use crate::json::Value;
use crate::ordered::{StrMap, StrSet};
use crate::plan::{Node, When};
use crate::runtime::config::ErrorMode;
use crate::runtime::dispatch::{member_from_plan, PreparedMember};
use crate::runtime::engine::Program;
use crate::runtime::error::resolution_error;
use crate::runtime::locks::{LockTable, RequestV};
use crate::runtime::model::{MemberV, ProgramV, RunV};
use crate::runtime::policy::CallPolicy;
use crate::runtime::resolve::{resolve_input, resolve_value_ref, substitute_item};
use crate::runtime::result::{RunMetrics, SkipReason, TraceEvent, TraceStatus};
use crate::runtime::schema::{input_rejection, schema_violation};
use crate::text::wrapped;

verus! {

use crate::graph::rounds::ints;
use crate::json::values_view;
use crate::optimizer::batch::has_node;
use crate::ordered::{gives, map_view, map_view_insert, pairs_view_lookup, views};
use crate::runtime::model::{
    after_error, after_failure, after_skip, after_success, data_deps, dead, fan_out_items,
    input_rejected, item_violates, member_verdict, node_of, poisoned, prepared, settled,
    some_item_violates, tool_load, when_verdict, with_event,
};
use crate::text::texts_view;

broadcast use crate::json::group_json_views;

/// A unit that was dispatched, with the nodes that went out.
#[derive(Debug)]
pub struct Flight {
    pub unit: usize,
    pub nodes: Vec<String>,
}

impl View for Flight {
    type V = (int, Seq<Seq<char>>);

    open spec fn view(&self) -> (int, Seq<Seq<char>>) {
        (self.unit as int, texts_view(self.nodes@))
    }
}

/// What changes during a run.
pub struct RunState {
    pub ready: Vec<usize>,
    pub blocked: Vec<usize>,
    pub running: Vec<Flight>,
    /// How many units each unit still waits for.
    pub remaining: Vec<usize>,
    pub outputs: StrMap<Value>,
    pub errors: StrMap<ToolExecutionError>,
    pub skipped: StrMap<SkipReason>,
    pub trace: Vec<TraceEvent>,
    pub metrics: RunMetrics,
    pub stop: Option<SkipReason>,
    pub locks: LockTable,
    pub tool_in_flight: StrMap<usize>,
    pub done: Ghost<Set<int>>,
}

impl View for RunState {
    type V = RunV;

    open spec fn view(&self) -> RunV {
        RunV {
            ready: ints(self.ready@).to_set(),
            blocked: ints(self.blocked@),
            running: views(self.running@),
            done: self.done@,
            outputs: map_view(self.outputs),
            errors: map_view(self.errors),
            skipped: map_view(self.skipped),
            trace: views(self.trace@),
            metrics: self.metrics,
            stop: self.stop,
        }
    }
}

/// The locks that running units hold.
pub open spec fn held_locks(p: ProgramV, running: Seq<(int, Seq<Seq<char>>)>) -> Seq<RequestV> {
    Seq::new(running.len(), |i: int| p.units[running[i].0].lock)
}

/// How many units of the tool are counted as running.
pub open spec fn counted(loads: Map<Seq<char>, usize>, tool: Seq<char>) -> nat {
    if loads.dom().contains(tool) {
        loads[tool] as nat
    } else {
        0
    }
}

impl RunState {
    /// The counters and locks agree with which units run and are over.
    pub open spec fn linked(&self, p: ProgramV) -> bool {
        &&& self.ready@.no_duplicates()
        &&& self.remaining@.len() == p.units.len()
        &&& forall|u: int|
            0 <= u < p.units.len() ==> (#[trigger] self.remaining@[u]) == p.deps[u].difference(
                self.done@,
            ).len()
        &&& self.locks@ == held_locks(p, self@.running).to_multiset()
        &&& forall|tool: Seq<char>| #[trigger]
            counted(self.tool_in_flight@, tool) == tool_load(p, self@.running, tool)
    }
}

/// The bookkeeping of units is the same in both states.
pub open spec fn same_units(a: RunState, b: RunState) -> bool {
    &&& a.ready == b.ready
    &&& a.blocked == b.blocked
    &&& a.running == b.running
    &&& a.remaining == b.remaining
    &&& a.locks == b.locks
    &&& a.tool_in_flight == b.tool_in_flight
    &&& a.done == b.done
}

// ---------------------------------------------------------------------------
// Nodes
// ---------------------------------------------------------------------------

/// Whether the node is over.
pub fn is_settled(st: &RunState, node: &str) -> (r: bool)
    ensures
        r == settled(st@, node@),
{
    st.outputs.contains_key(node) || st.errors.contains_key(node) || st.skipped.contains_key(node)
}

/// Whether a node that this one refers to failed or was skipped.
pub fn is_poisoned(p: &Program, st: &RunState, node: &str) -> (r: bool)
    requires
        p.wf(),
        has_node(p.plan@.nodes, node@),
    ensures
        r == poisoned(p@, st@, node@),
{
    let ghost wanted = data_deps(node_of(p@, node@));
    let deps = match p.data_deps.get(node) {
        Some(deps) => deps,
        None => {
            return false;
        },
    };
    let mut i: usize = 0;
    while i < deps.len()
        invariant
            i <= deps.items().len(),
            deps@ == wanted,
            wanted == data_deps(node_of(p@, node@)),
            forall|j: int| 0 <= j < i ==> !dead(st@, #[trigger] deps.items()[j]),
        decreases deps.items().len() - i,
    {
        let dep = deps.item_at(i);
        if st.errors.contains_key(dep) || st.skipped.contains_key(dep) {
            assert(deps@.contains(dep@));
            assert(dead(st@, dep@));
            return true;
        }
        i = i + 1;
    }
    proof {
        assert forall|d: Seq<char>| wanted.contains(d) implies !dead(st@, d) by {
            let j = choose|j: int| 0 <= j < deps.items().len() && deps.items()[j] == d;
            assert(!dead(st@, deps.items()[j]));
        }
    }
    false
}

/// Records an event.
pub fn push_event(st: &mut RunState, event: TraceEvent)
    ensures
        final(st)@ == with_event(old(st)@, event@),
        same_units(*old(st), *final(st)),
{
    let ghost e = event@;
    let ghost before = st@.trace;
    st.trace.push(event);
    assert(st@.trace =~= before.push(e));
    assert(st@ =~= with_event(old(st)@, e));
}

/// Skips the node.
pub fn complete_skip(p: &Program, st: &mut RunState, node: &str, reason: SkipReason, now: u64)
    requires
        p.wf(),
        has_node(p.plan@.nodes, node@),
        old(st).metrics.nodes_skipped < usize::MAX,
    ensures
        final(st)@ == after_skip(p@, old(st)@, node@, reason, now),
        same_units(*old(st), *final(st)),
{
    let tool = p.node(node).tool.as_str();
    push_event(st, TraceEvent::new(node, tool, TraceStatus::Skipped, now));
    let ghost mid = *st;
    st.metrics.nodes_skipped = st.metrics.nodes_skipped + 1;
    st.skipped.insert(node.to_owned(), reason);
    proof {
        map_view_insert(mid.skipped, st.skipped, node@, reason);
        assert(st@ =~= after_skip(p@, old(st)@, node@, reason, now));
    }
}

/// Records the failure of the node.
pub fn record_failure(p: &Program, st: &mut RunState, node: &str, error: ToolExecutionError)
    requires
        old(st).metrics.nodes_failed < usize::MAX,
    ensures
        final(st)@ == after_failure(p@, old(st)@, node@, error@),
        same_units(*old(st), *final(st)),
{
    let ghost before = *st;
    st.metrics.nodes_failed = st.metrics.nodes_failed + 1;
    st.errors.insert(node.to_owned(), error);
    if st.stop.is_none() && p.config.on_error == ErrorMode::FailFast {
        st.stop = Some(SkipReason::NotRun);
    }
    proof {
        map_view_insert(before.errors, st.errors, node@, error);
        assert(st@ =~= after_failure(p@, before@, node@, error@));
    }
}

/// Fails the node before it is dispatched.
pub fn complete_error(
    p: &Program,
    st: &mut RunState,
    node: &str,
    error: ToolExecutionError,
    now: u64,
)
    requires
        p.wf(),
        has_node(p.plan@.nodes, node@),
        old(st).metrics.nodes_failed < usize::MAX,
    ensures
        final(st)@ == after_error(p@, old(st)@, node@, error@, now),
        same_units(*old(st), *final(st)),
{
    let tool = p.node(node).tool.as_str();
    push_event(
        st,
        TraceEvent::new(node, tool, TraceStatus::Failed, now).with_duration(0).with_error(&error),
    );
    record_failure(p, st, node, error);
}

/// Records the output of the node.
pub fn record_output(st: &mut RunState, node: &str, output: Value)
    requires
        old(st).metrics.nodes_succeeded < usize::MAX,
    ensures
        final(st)@ == after_success(old(st)@, node@, output@),
        same_units(*old(st), *final(st)),
{
    let ghost before = *st;
    st.metrics.nodes_succeeded = st.metrics.nodes_succeeded + 1;
    st.outputs.insert(node.to_owned(), output);
    proof {
        map_view_insert(before.outputs, st.outputs, node@, output);
        assert(st@ =~= after_success(before@, node@, output@));
    }
}

// ---------------------------------------------------------------------------
// Preparation
// ---------------------------------------------------------------------------

/// Whether the condition holds.
pub fn evaluate_when(st: &RunState, when: &When) -> (r: Result<bool, ToolExecutionError>)
    ensures
        match (r, when_verdict(when@, st@.outputs)) {
            (Ok(b), Ok(m)) => b == m,
            (Err(e), Err(m)) => e@ == m,
            _ => false,
        },
{
    let value = match resolve_value_ref(&when.target, &st.outputs) {
        Ok(value) => value,
        Err(e) => {
            return Err(resolution_error(e));
        },
    };
    let verdict = match &when.equals {
        Some(expected) => value.same(expected),
        None => match &value {
            Value::Null => false,
            Value::Bool(b) => *b,
            _ => true,
        },
    };
    Ok(verdict != when.not)
}

fn resolve_items(st: &RunState, node: &Node) -> (r: Result<Option<Vec<Value>>, ToolExecutionError>)
    ensures
        match (r, fan_out_items(node@, st@.outputs)) {
            (Ok(Some(v)), Ok(Some(m))) => values_view(v@) == m,
            (Ok(None), Ok(None)) => true,
            (Err(e), Err(m)) => e@ == m,
            _ => false,
        },
{
    match &node.for_each {
        None => Ok(None),
        Some(items_ref) => match resolve_value_ref(items_ref, &st.outputs) {
            Err(e) => Err(resolution_error(e)),
            Ok(Value::Array(items)) => Ok(Some(items)),
            Ok(_) => Err(
                ToolExecutionError::coded(
                    wrapped(
                        "for_each of node '",
                        node.id.as_str(),
                        "' must resolve to an array",
                    ).as_str(),
                    "invalid_for_each",
                ),
            ),
        },
    }
}

/// The first objection to an input that the node would hand to its tool.
fn check_input(p: &Program, node: &Node, input: &Value, items: &Option<Vec<Value>>) -> (r: Option<
    String,
>)
    ensures
        r is Some == input_rejected(
            p@,
            node@,
            input@,
            match items {
                Some(v) => Some(values_view(v@)),
                None => None,
            },
        ),
{
    let schema = match p.schemas.get(node.tool.as_str()) {
        Some(schema) => schema,
        None => {
            return None;
        },
    };
    let list = match items {
        Some(list) => list,
        None => {
            return schema_violation(schema, input);
        },
    };
    let ghost js = values_view(list@);
    let mut i: usize = 0;
    while i < list.len()
        invariant
            i <= list@.len(),
            js == values_view(list@),
            *items is Some,
            items->0@ == list@,
            p@.schemas.dom().contains(node@.tool),
            p@.schemas[node@.tool] == schema@,
            forall|j: int| 0 <= j < i ==> !item_violates(schema@, input@, #[trigger] js[j]),
        decreases list.len() - i,
    {
        assert(js[i as int] == list@[i as int]@);
        if let Ok(one) = substitute_item(input, &list[i]) {
            let verdict = schema_violation(schema, &one);
            if verdict.is_some() {
                assert(item_violates(schema@, input@, js[i as int]));
                assert(some_item_violates(schema@, input@, js));
                return verdict;
            }
        }
        i = i + 1;
    }
    None
}

/// Resolves and checks the input of the node; a fan-out node's input is
/// checked once for each item. What the validator says of an input that it
/// rejects is left open: [`input_rejection`] makes the failure of it.
pub fn prepare_one(p: &Program, st: &RunState, node: &Node) -> (r: Result<
    PreparedMember,
    ToolExecutionError,
>)
    ensures
        exists|reason: Seq<char>| gives(
            r,
            #[trigger] prepared(p@, st@.outputs, node@, reason),
        ),
{
    let ghost silent = Seq::<char>::empty();
    let ghost silently = prepared(p@, st@.outputs, node@, silent);
    let input = match resolve_input(&node.input, &st.outputs) {
        Ok(input) => input,
        Err(e) => {
            return Err(resolution_error(e));
        },
    };
    let items = match resolve_items(st, node) {
        Ok(items) => items,
        Err(e) => {
            return Err(e);
        },
    };
    if let Some(reason) = check_input(p, node, &input, &items) {
        let error = input_rejection(node.id.as_str(), node.tool.as_str(), reason.as_str());
        let ghost said = prepared(p@, st@.outputs, node@, reason@);
        assert(said == Err::<crate::runtime::dispatch::PreparedV, _>(error@));
        return Err(error);
    }
    p.plan.tools.prove_sorted();
    proof {
        pairs_view_lookup(p.plan.tools, node@.tool);
    }
    let effects = match p.plan.tools.get(node.tool.as_str()) {
        Some(spec) => match &spec.effects {
            Some(effects) => Some(effects),
            None => None,
        },
        None => None,
    };
    let policy = CallPolicy::from_effects(effects, p.config.default_timeout_ms);
    let reads = match p.effects.get(node.id.as_str()) {
        Some(effects) => effects.reads.clone(),
        None => StrSet::new(),
    };
    Ok(member_from_plan(node, &p.plan, input, items, policy, reads))
}

/// What becomes of a member when its unit is tried.
pub enum Verdict {
    /// It is over already.
    Settled,
    /// It is skipped.
    Skip(SkipReason),
    /// It fails before it is dispatched.
    Fail(ToolExecutionError),
    /// It is dispatched.
    Go(PreparedMember),
}

impl View for Verdict {
    type V = MemberV;

    open spec fn view(&self) -> MemberV {
        match self {
            Verdict::Settled => MemberV::Settled,
            Verdict::Skip(reason) => MemberV::Skip(*reason),
            Verdict::Fail(e) => MemberV::Fail(e@),
            Verdict::Go(m) => MemberV::Go(m@),
        }
    }
}

/// Decides what becomes of a member when its unit is tried. What the validator
/// says of an input that it rejects is left open.
pub fn judge(p: &Program, st: &RunState, id: &str) -> (r: Verdict)
    requires
        p.wf(),
        has_node(p.plan@.nodes, id@),
    ensures
        exists|reason: Seq<char>| r@ == #[trigger] member_verdict(p@, st@, id@, reason),
{
    let ghost silently = member_verdict(p@, st@, id@, Seq::empty());
    let node = p.node(id);
    if is_settled(st, id) {
        return Verdict::Settled;
    }
    if is_poisoned(p, st, id) {
        return Verdict::Skip(SkipReason::FailedDependency);
    }
    if let Some(when) = &node.when {
        match evaluate_when(st, when) {
            Ok(true) => {},
            Ok(false) => {
                return Verdict::Skip(SkipReason::Condition);
            },
            Err(e) => {
                return Verdict::Fail(e);
            },
        }
    }
    if p.blocked_tools.contains(node.tool.as_str()) {
        return Verdict::Fail(
            ToolExecutionError::coded(
                wrapped("tool '", node.tool.as_str(), "' is blocked in this runtime").as_str(),
                "blocked_tool",
            ),
        );
    }
    let attempt = prepare_one(p, st, node);
    let ghost reason = choose|reason: Seq<char>| gives(
        attempt,
        #[trigger] prepared(p@, st@.outputs, node@, reason),
    );
    let ghost said = member_verdict(p@, st@, id@, reason);
    match attempt {
        Ok(member) => Verdict::Go(member),
        Err(e) => Verdict::Fail(e),
    }
}

} // verus!
