//! Reports: what a run says of itself, what keeps it from starting, and what
//! an explanation says of a plan.

use vstd::prelude::*;

use crate::adapters::api::ToolErrorV;
use crate::graph::resolved::ResolvedV;
use crate::graph::validate::GraphV;
use crate::plan::{NodeV, PlanV, ToolSpecV};
use crate::refs::RefV;
use crate::runtime::model::{ProgramV, RunV};
use crate::runtime::registry::RegistryV;
use crate::runtime::result::{RunStatus, SkipReason};
use crate::runtime::wiring::StartFaultV;

verus! {

use crate::optimizer::batch::has_node;
use crate::optimizer::explain::{conflicting, in_layers, missing_effects, unordered_apart};
use crate::ordered::{has_key, lookup};
use crate::runtime::finish::{accounted, output_errors, reported_errors, run_status, stored};
use crate::runtime::model::{dead, poisoned, settled};
use crate::runtime::registry::capabilities_in;
use crate::runtime::resolve::resolved_ref;
use crate::runtime::schema::is_no_schema;
use crate::runtime::wiring::{
    adapter_error, blocked_in, has_bad_schema, schemas_error, schemas_of, start_error, tool_schema,
};

// ---------------------------------------------------------------------------
// Ends of runs
// ---------------------------------------------------------------------------

/// A cancelled run is reported as cancelled, whatever else happened. Any
/// other succeeded exactly when there is nothing to report.
pub proof fn runs_succeed_without_errors(
    stop: Option<SkipReason>,
    errors: Map<Seq<char>, ToolErrorV>,
    key: Seq<char>,
)
    ensures
        run_status(stop, errors) == RunStatus::Cancelled <==> stop == Some(SkipReason::Cancelled),
        run_status(stop, errors) == RunStatus::Success ==> !errors.dom().contains(key),
        run_status(stop, errors) == RunStatus::Failed ==> exists|k: Seq<char>|
            #[trigger] errors.dom().contains(k),
        stop != Some(SkipReason::Cancelled) && errors.dom().contains(key) ==> run_status(
            stop,
            errors,
        ) == RunStatus::Failed,
{
    if run_status(stop, errors) == RunStatus::Failed {
        if forall|k: Seq<char>| !#[trigger] errors.dom().contains(k) {
            assert(errors =~= Map::<Seq<char>, ToolErrorV>::empty());
        }
    }
}

/// A node that a run leaves is skipped: for a node it needed, when that one
/// failed or was skipped, and otherwise for what stopped the run.
pub proof fn left_nodes_say_why(p: ProgramV, s: RunV, nodes: Seq<NodeV>, k: int, now: u64)
    requires
        0 <= k < nodes.len(),
        !settled(accounted(p, s, nodes, k, now), nodes[k].id),
    ensures
        ({
            let before = accounted(p, s, nodes, k, now);
            let end = accounted(p, s, nodes, k + 1, now);
            let id = nodes[k].id;
            &&& end.skipped.dom().contains(id)
            &&& poisoned(p, before, id) ==> end.skipped[id] == SkipReason::FailedDependency
            &&& !poisoned(p, before, id) && s.stop is None ==> end.skipped[id] == SkipReason::NotRun
            &&& !poisoned(p, before, id) ==> (s.stop matches Some(reason) ==> end.skipped[id]
                == reason)
            &&& end.trace.len() == before.trace.len() + 1
            &&& end.trace.last().node == id
        }),
{
}

proof fn lemma_output_errors(outputs: Seq<(Seq<char>, RefV)>, s: RunV, k: int)
    requires
        0 <= k <= outputs.len(),
    ensures
        forall|i: int|
            0 <= i < k && resolved_ref((#[trigger] outputs[i]).1, s.outputs) is Err && !dead(
                s,
                outputs[i].1.node,
            ) ==> exists|x: int|
                0 <= x < output_errors(outputs, s, k).len() && (#[trigger] output_errors(
                    outputs,
                    s,
                    k,
                )[x]).0 == "outputs."@ + outputs[i].0,
        forall|x: int|
            0 <= x < output_errors(outputs, s, k).len() ==> {
                let e = #[trigger] output_errors(outputs, s, k)[x];
                &&& e.1.code == Some("unresolved_output"@)
                &&& exists|i: int|
                    0 <= i < k && e.0 == "outputs."@ + (#[trigger] outputs[i]).0 && resolved_ref(
                        outputs[i].1,
                        s.outputs,
                    ) is Err && !dead(s, outputs[i].1.node)
            },
    decreases k,
{
    if k > 0 {
        lemma_output_errors(outputs, s, k - 1);
        let before = output_errors(outputs, s, k - 1);
        let all = output_errors(outputs, s, k);
        assert forall|i: int|
            0 <= i < k && resolved_ref((#[trigger] outputs[i]).1, s.outputs) is Err && !dead(
                s,
                outputs[i].1.node,
            ) implies exists|x: int|
            0 <= x < all.len() && (#[trigger] all[x]).0 == "outputs."@ + outputs[i].0 by {
            if i < k - 1 {
                let x = choose|x: int|
                    0 <= x < before.len() && (#[trigger] before[x]).0 == "outputs."@ + outputs[i].0;
                assert(all[x] == before[x]);
            } else {
                assert(all[before.len() as int].0 == "outputs."@ + outputs[i].0);
            }
        }
        assert forall|x: int| 0 <= x < all.len() implies {
            let e = #[trigger] all[x];
            &&& e.1.code == Some("unresolved_output"@)
            &&& exists|i: int|
                0 <= i < k && e.0 == "outputs."@ + (#[trigger] outputs[i]).0 && resolved_ref(
                    outputs[i].1,
                    s.outputs,
                ) is Err && !dead(s, outputs[i].1.node)
        } by {
            if x < before.len() {
                assert(all[x] == before[x]);
            } else {
                assert(all[x].0 == "outputs."@ + outputs[k - 1].0);
            }
        }
    }
}

proof fn lemma_stored<T>(m: Map<Seq<char>, T>, list: Seq<(Seq<char>, T)>, k: int, key: Seq<char>)
    requires
        0 <= k <= list.len(),
    ensures
        stored(m, list, k).dom().contains(key) <==> m.dom().contains(key) || exists|x: int|
            0 <= x < k && (#[trigger] list[x]).0 == key,
    decreases k,
{
    if k > 0 {
        lemma_stored(m, list, k - 1, key);
        if list[k - 1].0 == key {
            assert(stored(m, list, k).dom().contains(key));
        }
    }
}

/// A run reports the failures of its nodes, and every declared output that
/// has no value although its node did not fail.
pub proof fn unresolved_outputs_are_reported(
    outputs: Seq<(Seq<char>, RefV)>,
    s: RunV,
    key: Seq<char>,
)
    ensures
        reported_errors(outputs, s).dom().contains(key) <==> {
            ||| s.errors.dom().contains(key)
            ||| exists|i: int|
                0 <= i < outputs.len() && key == "outputs."@ + (#[trigger] outputs[i]).0
                    && resolved_ref(outputs[i].1, s.outputs) is Err && !dead(s, outputs[i].1.node)
        },
{
    let n = outputs.len() as int;
    lemma_output_errors(outputs, s, n);
    let list = output_errors(outputs, s, n);
    lemma_stored(s.errors, list, list.len() as int, key);
    if exists|i: int|
        0 <= i < outputs.len() && key == "outputs."@ + (#[trigger] outputs[i]).0 && resolved_ref(
            outputs[i].1,
            s.outputs,
        ) is Err && !dead(s, outputs[i].1.node) {
        let i = choose|i: int|
            0 <= i < outputs.len() && key == "outputs."@ + (#[trigger] outputs[i]).0 && resolved_ref(
                outputs[i].1,
                s.outputs,
            ) is Err && !dead(s, outputs[i].1.node);
        let x = choose|x: int|
            0 <= x < list.len() && (#[trigger] list[x]).0 == "outputs."@ + outputs[i].0;
        assert(list[x].0 == key);
    }
}

// ---------------------------------------------------------------------------
// Starts of runs
// ---------------------------------------------------------------------------

proof fn lemma_adapter_error(tools: Seq<(Seq<char>, ToolSpecV)>, adapters: Set<Seq<char>>, from: int)
    requires
        0 <= from <= tools.len(),
    ensures
        adapter_error(tools, adapters, from) is None <==> forall|i: int|
            from <= i < tools.len() ==> adapters.contains((#[trigger] tools[i]).1.adapter),
        adapter_error(tools, adapters, from) matches Some(e) ==> e is MissingAdapter && exists|i: int|
            from <= i < tools.len() && !adapters.contains((#[trigger] tools[i]).1.adapter)
                && e->MissingAdapter_adapter == tools[i].1.adapter,
    decreases tools.len() - from,
{
    if from < tools.len() {
        lemma_adapter_error(tools, adapters, from + 1);
        assert(tools[from].1.adapter == tools[from].1.adapter);
    }
}

proof fn lemma_schemas_error(tools: Seq<(Seq<char>, ToolSpecV)>, r: RegistryV, from: int)
    requires
        0 <= from <= tools.len(),
    ensures
        schemas_error(tools, r, from) is None <==> forall|i: int|
            from <= i < tools.len() ==> !has_bad_schema(r, (#[trigger] tools[i]).0, tools[i].1),
        schemas_error(tools, r, from) matches Some(e) ==> e is InvalidInputSchema && exists|i: int|
            from <= i < tools.len() && has_bad_schema(r, (#[trigger] tools[i]).0, tools[i].1)
                && e->InvalidInputSchema_tool == tools[i].0,
    decreases tools.len() - from,
{
    if from < tools.len() {
        lemma_schemas_error(tools, r, from + 1);
        assert(tools[from].0 == tools[from].0);
    }
}

/// The input schema that the registry holds for the tool cannot be used.
pub open spec fn unusable(r: RegistryV, tool: (Seq<char>, ToolSpecV)) -> bool {
    capabilities_in(r, tool.1.adapter, tool.0) matches Some(c) && (c.input_schema matches Some(j)
        && is_no_schema(j))
}

/// A run starts exactly when the adapter of every declared tool is
/// registered and every input schema can be used. A missing adapter is
/// reported first, and what is reported is true.
pub proof fn runs_start_when_nothing_is_missing(plan: PlanV, r: RegistryV)
    ensures
        start_error(plan, r) is None <==> forall|i: int|
            0 <= i < plan.tools.len() ==> r.adapters.contains((#[trigger] plan.tools[i]).1.adapter)
                && !unusable(r, plan.tools[i]),
        start_error(plan, r) matches Some(StartFaultV::MissingAdapter { adapter }) ==> exists|
            i: int,
        |
            0 <= i < plan.tools.len() && (#[trigger] plan.tools[i]).1.adapter == adapter
                && !r.adapters.contains(adapter),
        start_error(plan, r) matches Some(StartFaultV::InvalidInputSchema { tool }) ==> exists|
            i: int,
        |
            0 <= i < plan.tools.len() && (#[trigger] plan.tools[i]).0 == tool && unusable(
                r,
                plan.tools[i],
            ),
        (exists|i: int|
            0 <= i < plan.tools.len() && !r.adapters.contains((#[trigger] plan.tools[i]).1.adapter))
            ==> start_error(plan, r) is Some && start_error(plan, r)->0 is MissingAdapter,
{
    lemma_adapter_error(plan.tools, r.adapters, 0);
    lemma_schemas_error(plan.tools, r, 0);
    assert forall|i: int| 0 <= i < plan.tools.len() implies unusable(r, #[trigger] plan.tools[i])
        == has_bad_schema(r, plan.tools[i].0, plan.tools[i].1) by {
    }
}

/// A run may not call the declared tools that the registry blocks, and
/// checks inputs against the schemas that the registry holds.
pub proof fn runs_keep_to_their_registry(
    tools: Seq<(Seq<char>, ToolSpecV)>,
    r: RegistryV,
    k: int,
    tool: Seq<char>,
    j: int,
)
    requires
        0 <= j < k <= tools.len(),
        forall|i: int| j < i < k ==> (#[trigger] tools[i]).0 != tools[j].0,
    ensures
        blocked_in(tools, r).contains(tool) <==> has_key(tools, tool) && r.blocked.contains(tool),
        tool_schema(r, tools[j].0, tools[j].1) matches Some(schema) ==> schemas_of(
            tools,
            r,
            k,
        ).dom().contains(tools[j].0) && schemas_of(tools, r, k)[tools[j].0] == schema,
        capabilities_in(r, tools[j].1.adapter, tools[j].0) matches Some(c) ==> tool_schema(
            r,
            tools[j].0,
            tools[j].1,
        ) == c.input_schema,
        capabilities_in(r, tools[j].1.adapter, tools[j].0) is None ==> tool_schema(
            r,
            tools[j].0,
            tools[j].1,
        ) is None,
    decreases k,
{
    if j < k - 1 {
        assert(tools[k - 1].0 != tools[j].0);
        runs_keep_to_their_registry(tools, r, k - 1, tool, j);
    }
}

// ---------------------------------------------------------------------------
// Explanations
// ---------------------------------------------------------------------------

/// The node declares that it touches the resource.
pub open spec fn touches(e: ResolvedV, r: Seq<char>) -> bool {
    e.declared && (e.reads.contains(r) || e.writes.contains(r))
}

/// Two nodes of the plan that touch a resource, at least one of them to write
/// it, and that stand apart without one waiting for the other, are both
/// reported for the resource.
pub proof fn conflicts_are_reported(
    plan: PlanV,
    g: GraphV,
    r: Seq<char>,
    a: Seq<char>,
    b: Seq<char>,
)
    requires
        a != b,
        has_node(plan.nodes, a),
        has_node(plan.nodes, b),
        in_layers(g, a),
        in_layers(g, b),
        lookup(g.resolved_effects, a) is Some,
        lookup(g.resolved_effects, b) is Some,
        touches(lookup(g.resolved_effects, a)->0, r),
        touches(lookup(g.resolved_effects, b)->0, r),
        lookup(g.resolved_effects, a)->0.writes.contains(r) || lookup(
            g.resolved_effects,
            b,
        )->0.writes.contains(r),
        unordered_apart(g, a, b),
    ensures
        conflicting(plan, g, r).contains(a),
        conflicting(plan, g, r).contains(b),
{
    crate::optimizer::explain::unordered_nodes_have_no_chain(g, a, b);
    assert(unordered_apart(g, b, a));
}

/// A node that is reported for a resource touches it, and so does another
/// node that it stands apart from; one of the two writes it.
pub proof fn reported_conflicts_are_there(plan: PlanV, g: GraphV, r: Seq<char>, a: Seq<char>)
    requires
        conflicting(plan, g, r).contains(a),
    ensures
        lookup(g.resolved_effects, a) matches Some(e) && touches(e, r) && (exists|b: Seq<char>|
            b != a && #[trigger] unordered_apart(g, a, b) && (lookup(g.resolved_effects, b) matches Some(
                f,
            ) && touches(f, r) && (e.writes.contains(r) || f.writes.contains(r)))),
{
}

/// A node of unknown effects is reported exactly when it stands apart from a
/// node that it could otherwise have run beside.
pub proof fn missing_effects_are_reported(plan: PlanV, g: GraphV, id: Seq<char>)
    requires
        has_node(plan.nodes, id),
        in_layers(g, id),
        lookup(g.resolved_effects, id) is Some,
    ensures
        lookup(g.resolved_effects, id)->0.declared ==> !missing_effects(plan, g).contains(id),
        !lookup(g.resolved_effects, id)->0.declared ==> (missing_effects(plan, g).contains(id)
            <==> exists|o: Seq<char>|
            o != id && in_layers(g, o) && #[trigger] unordered_apart(g, id, o)),
{
}

} // verus!
