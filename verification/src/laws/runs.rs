//! Runs: what is tried, what goes out, what is recorded, and when a run
//! stops.

use vstd::prelude::*;

use crate::adapters::api::ToolErrorV;
use crate::graph::resolved::ResolvedV;
use crate::json::Json;
use crate::optimizer::batch::BatchV;
use crate::plan::{NodeV, PlanV, ToolSpecV};
use crate::runtime::config::ErrorMode;
use crate::runtime::dispatch::{NodeResultV, OutcomeV, PreparedV};
use crate::runtime::error::RuntimeErrorV;
use crate::runtime::history::StepV;
use crate::runtime::model::{MemberV, ProgramV, RunV, TurnV, UnitV};
use crate::runtime::result::{SkipReason, TraceStatus};

verus! {

use crate::graph::validate::flattened;
use crate::optimizer::cost::{call_ms, cost_of};
use crate::ordered::lookup;
use crate::refs::refs_in;
use crate::runtime::dispatch::{covers, result_nodes};
use crate::runtime::history::after_steps;
use crate::runtime::locks::may_overlap;
use crate::runtime::model::{
    admits, after_error, after_outcome, after_results, after_tries, after_try, after_unit, cancelled, data_deps,
    dead, drains, fan_out_items, initial, is_next, item_violates, landed, leftovers_settled, member_verdict,
    node_of, poisoned, prepared, rounds, scheduled, settled, settled_members, settles,
    some_item_violates, tool_load,
    tried,
};
use crate::runtime::resolve::{filled, resolved, resolved_ref};
use crate::runtime::schema::violates;
use crate::runtime::wiring::{
    group_demand, group_unit, last_position, node_unit, unit_cost_of, unit_deps_of, unit_key,
};

// ---------------------------------------------------------------------------
// Dependencies
// ---------------------------------------------------------------------------

/// A node is poisoned by what its input, its fan-out source and its condition
/// refer to, and by nothing that it merely waits for.
pub proof fn only_data_poisons(node: NodeV, d: Seq<char>)
    requires
        refs_in(node.input) is Ok,
    ensures
        data_deps(node).contains(d) <==> {
            ||| exists|i: int|
                0 <= i < refs_in(node.input)->Ok_0.len() && (#[trigger] refs_in(
                    node.input,
                )->Ok_0[i]).node == d
            ||| node.for_each matches Some(r) && r.node == d
            ||| node.when matches Some(w) && w.target.node == d
        },
        data_deps(node) == data_deps(NodeV { depends_on: Seq::empty(), ..node }),
{
    let bare = NodeV { depends_on: Seq::empty(), ..node };
    crate::laws::validation::nodes_depend_on_what_they_mention(bare, d);
    assert(crate::graph::validate::node_deps(bare) =~= data_deps(bare));
}

/// A node whose data comes from a node that failed or was skipped is skipped
/// for that; any other is not.
pub proof fn lost_data_skips_nodes(p: ProgramV, s: RunV, id: Seq<char>, d: Seq<char>, reason: Seq<char>)
    requires
        !settled(s, id),
    ensures
        data_deps(node_of(p, id)).contains(d) && (s.errors.dom().contains(d)
            || s.skipped.dom().contains(d)) ==> member_verdict(p, s, id, reason) == MemberV::Skip(
            SkipReason::FailedDependency,
        ),
        (forall|x: Seq<char>| #[trigger]
            data_deps(node_of(p, id)).contains(x) ==> !s.errors.dom().contains(x)
                && !s.skipped.dom().contains(x)) ==> member_verdict(p, s, id, reason)
            != MemberV::Skip(SkipReason::FailedDependency),
{
    if data_deps(node_of(p, id)).contains(d) && (s.errors.dom().contains(d)
        || s.skipped.dom().contains(d)) {
        assert(data_deps(node_of(p, id)).contains(d) && dead(s, d));
    }
}

// ---------------------------------------------------------------------------
// Preparation
// ---------------------------------------------------------------------------

/// A fan-out runs over the elements of the list that its source resolves to,
/// in order; a source that is no list is an error.
pub proof fn fan_outs_run_over_lists(node: NodeV, outputs: Map<Seq<char>, Json>, items: Seq<Json>)
    ensures
        node.for_each is None ==> fan_out_items(node, outputs) == Ok::<
            Option<Seq<Json>>,
            ToolErrorV,
        >(None),
        node.for_each matches Some(r) ==> {
            &&& resolved_ref(r, outputs) == Ok::<Json, RuntimeErrorV>(Json::List(items))
                ==> fan_out_items(node, outputs) == Ok::<Option<Seq<Json>>, ToolErrorV>(Some(items))
            &&& (resolved_ref(r, outputs) matches Ok(v) ==> (!(v is List) ==> fan_out_items(
                node,
                outputs,
            ) is Err && fan_out_items(node, outputs)->Err_0.code == Some("invalid_for_each"@)))
            &&& resolved_ref(r, outputs) is Err ==> fan_out_items(node, outputs) is Err
        },
{
}

/// What goes out is the node with its input resolved and its own items, under
/// the declarations of its tool.
pub proof fn prepared_calls_carry_resolved_inputs(
    p: ProgramV,
    outputs: Map<Seq<char>, Json>,
    node: NodeV,
    reason: Seq<char>,
    m: PreparedV,
)
    requires
        prepared(p, outputs, node, reason) == Ok::<PreparedV, ToolErrorV>(m),
    ensures
        m.node == node.id,
        resolved(node.input, outputs) == Ok::<Json, RuntimeErrorV>(m.input),
        fan_out_items(node, outputs) == Ok::<Option<Seq<Json>>, ToolErrorV>(m.items),
        p.effects.dom().contains(node.id) ==> m.reads == p.effects[node.id].reads,
        lookup(p.plan.tools, node.tool) matches Some(t) ==> {
            &&& m.version == t.version
            &&& t.effects matches Some(e) ==> {
                &&& m.cacheable == (e.pure || e.cacheable)
                &&& m.batchable == e.batchable
            }
            &&& t.effects is None ==> !m.cacheable && !m.batchable
            &&& t.limits matches Some(l) ==> (l.batch_size matches Some(b) ==> m.batch_size == b)
        },
        m.policy == crate::runtime::policy::policy_for(
            crate::graph::validate::tool_effects(p.plan.tools, node.tool),
            p.config.default_timeout_ms,
        ),
{
}

/// A call of a blocked tool fails with `blocked_tool` and never goes out.
pub proof fn blocked_tools_are_refused(p: ProgramV, s: RunV, id: Seq<char>, reason: Seq<char>)
    requires
        !settled(s, id),
        !poisoned(p, s, id),
        node_of(p, id).when is None,
        p.blocked_tools.contains(node_of(p, id).tool),
    ensures
        member_verdict(p, s, id, reason) matches MemberV::Fail(e) && e.code == Some(
            "blocked_tool"@,
        ),
{
}

/// A node that is not over, whose data is there, that has no condition, calls
/// no blocked tool and can be prepared goes out.
pub proof fn sound_nodes_go_out(p: ProgramV, s: RunV, id: Seq<char>, reason: Seq<char>)
    requires
        !settled(s, id),
        !poisoned(p, s, id),
        node_of(p, id).when is None,
        !p.blocked_tools.contains(node_of(p, id).tool),
        prepared(p, s.outputs, node_of(p, id), reason) is Ok,
    ensures
        member_verdict(p, s, id, reason) == MemberV::Go(
            prepared(p, s.outputs, node_of(p, id), reason)->Ok_0,
        ),
{
}

// ---------------------------------------------------------------------------
// Admission and order
// ---------------------------------------------------------------------------

/// A unit may start while there is room under the limit of the run and that of
/// its tool and it conflicts with nothing that runs, and not otherwise.
pub proof fn units_start_while_there_is_room(
    p: ProgramV,
    running: Seq<(int, Seq<Seq<char>>)>,
    u: int,
)
    requires
        !p.serial,
        lookup(p.plan.tools, p.units[u].tool) is Some,
    ensures
        ({
            let spec = lookup(p.plan.tools, p.units[u].tool)->0;
            let load = tool_load(p, running, p.units[u].tool);
            let clash = exists|i: int|
                0 <= i < running.len() && !may_overlap(
                    p.units[(#[trigger] running[i]).0].lock,
                    p.units[u].lock,
                );
            &&& p.config.max_concurrency is None && (spec.limits matches Some(l)
                ==> l.max_concurrency is None) ==> (admits(p, running, u) <==> !clash)
            &&& p.config.max_concurrency matches Some(n) ==> (running.len() >= n ==> !admits(
                p,
                running,
                u,
            ))
            &&& spec.limits matches Some(l) ==> (l.max_concurrency matches Some(n) ==> (load >= n
                ==> !admits(p, running, u)))
            &&& (p.config.max_concurrency matches Some(n) ==> running.len() < n) && (
            spec.limits matches Some(l) ==> (l.max_concurrency matches Some(n) ==> load < n))
                && !clash ==> admits(p, running, u)
        }),
{
}

/// How many running units call the tool: each one that does counts one.
pub proof fn running_calls_are_counted(
    p: ProgramV,
    running: Seq<(int, Seq<Seq<char>>)>,
    u: int,
    ids: Seq<Seq<char>>,
    tool: Seq<char>,
)
    ensures
        tool_load(p, Seq::empty(), tool) == 0,
        p.units[u].tool == tool ==> tool_load(p, running.push((u, ids)), tool) == tool_load(
            p,
            running,
            tool,
        ) + 1,
        p.units[u].tool != tool ==> tool_load(p, running.push((u, ids)), tool) == tool_load(
            p,
            running,
            tool,
        ),
{
    assert(running.push((u, ids)).drop_last() =~= running);
}

/// The unit that is tried next has the highest priority of those that are
/// ready, and of equals it comes first.
pub proof fn the_highest_priority_is_next(p: ProgramV, ready: Set<int>, u: int, v: int)
    requires
        is_next(p, ready, u),
        ready.contains(v),
    ensures
        ready.contains(u),
        p.keys[u] >= p.keys[v],
        p.keys[u] == p.keys[v] ==> u <= v,
{
}

/// Priority is the estimated cost of the dispatch, as the estimates have it:
/// the most expensive unit goes first.
pub proof fn costly_units_come_first(
    tools: Seq<(Seq<char>, ToolSpecV)>,
    tool: Seq<char>,
    calls: nat,
    unit: UnitV,
    layers: Seq<Seq<Seq<char>>>,
)
    ensures
        unit_cost_of(tools, tool, calls) == call_ms(cost_of(tools, tool), calls),
        unit_key(unit, layers, false) == unit.cost,
{
    let c = cost_of(tools, tool);
    let per = crate::optimizer::cost::or_zero(c.per_call_ms);
    assert(per * calls >= 0) by (nonlinear_arith)
        requires
            per >= 0,
            calls >= 0,
    ;
    assert(0 * calls == 0) by (nonlinear_arith);
}

proof fn lemma_last_position(flat: Seq<Seq<char>>, i: int)
    requires
        0 <= i < flat.len(),
        flat.no_duplicates(),
    ensures
        last_position(flat, flat[i]) == Some(i),
    decreases flat.len(),
{
    if i < flat.len() - 1 {
        assert(flat[flat.len() - 1] != flat[i]);
        let front = flat.drop_last();
        assert(front.no_duplicates()) by {
            assert forall|a: int, b: int| 0 <= a < front.len() && 0 <= b < front.len() && a != b implies front[a]
                != front[b] by {
                assert(flat[a] != flat[b]);
            }
        }
        assert(front[i] == flat[i]);
        lemma_last_position(front, i);
    }
}

/// A serial run takes the nodes in the order of the layers: what stands
/// earlier has the higher priority.
pub proof fn serial_runs_follow_the_layers(
    a: UnitV,
    b: UnitV,
    layers: Seq<Seq<Seq<char>>>,
    i: int,
    j: int,
)
    requires
        flattened(layers, layers.len() as int).no_duplicates(),
        0 <= i < j < flattened(layers, layers.len() as int).len(),
        flattened(layers, layers.len() as int).len() <= usize::MAX,
        a.members.len() > 0,
        b.members.len() > 0,
        a.members[0] == flattened(layers, layers.len() as int)[i],
        b.members[0] == flattened(layers, layers.len() as int)[j],
    ensures
        unit_key(a, layers, true) > unit_key(b, layers, true),
{
    lemma_last_position(flattened(layers, layers.len() as int), i);
    lemma_last_position(flattened(layers, layers.len() as int), j);
}

// ---------------------------------------------------------------------------
// Units
// ---------------------------------------------------------------------------

/// A batch demands what its members demand together: it reads and writes what
/// one of them does, and has the world to itself where one of them declares
/// nothing.
pub proof fn batches_demand_what_their_members_do(
    effects: Map<Seq<char>, ResolvedV>,
    nodes: Seq<Seq<char>>,
    k: int,
    r: Seq<char>,
)
    requires
        0 <= k <= nodes.len(),
        forall|i: int| 0 <= i < k ==> effects[#[trigger] nodes[i]].declared,
    ensures
        group_demand(effects, nodes, k).reads.contains(r) <==> exists|i: int|
            0 <= i < k && effects[#[trigger] nodes[i]].reads.contains(r),
        group_demand(effects, nodes, k).writes.contains(r) <==> exists|i: int|
            0 <= i < k && effects[#[trigger] nodes[i]].writes.contains(r),
        !group_demand(effects, nodes, k).world,
    decreases k,
{
    if k > 0 {
        batches_demand_what_their_members_do(effects, nodes, k - 1, r);
        assert(effects[nodes[k - 1]].declared);
        let g = group_demand(effects, nodes, k);
        if g.reads.contains(r) && !effects[nodes[k - 1]].reads.contains(r) {
            let i = choose|i: int| 0 <= i < k - 1 && effects[#[trigger] nodes[i]].reads.contains(r);
            assert(effects[nodes[i]].reads.contains(r));
        }
        if g.writes.contains(r) && !effects[nodes[k - 1]].writes.contains(r) {
            let i = choose|i: int| 0 <= i < k - 1 && effects[#[trigger] nodes[i]].writes.contains(r);
            assert(effects[nodes[i]].writes.contains(r));
        }
    }
}

/// A unit of a batch has the members of the batch, and one of a node that node
/// alone; either calls the tool of its members through its adapter.
pub proof fn units_carry_their_calls(
    plan: PlanV,
    effects: Map<Seq<char>, ResolvedV>,
    g: BatchV,
    node: NodeV,
    t: ToolSpecV,
)
    requires
        lookup(plan.tools, node.tool) == Some(t),
    ensures
        group_unit(plan, effects, g).members == g.nodes,
        group_unit(plan, effects, g).tool == g.tool,
        group_unit(plan, effects, g).adapter == g.adapter,
        group_unit(plan, effects, g).batch,
        node_unit(plan, effects, node).members == seq![node.id],
        node_unit(plan, effects, node).tool == node.tool,
        node_unit(plan, effects, node).adapter == t.adapter,
        !node_unit(plan, effects, node).batch,
{
}

/// A unit waits for another exactly where one of its members depends on one of
/// the other's.
pub proof fn units_wait_for_dependencies_of_members(
    units: Seq<UnitV>,
    deps: Map<Seq<char>, Set<Seq<char>>>,
    u: int,
    v: int,
)
    requires
        0 <= u < units.len(),
        0 <= v < units.len(),
        u != v,
    ensures
        forall|m: Seq<char>, d: Seq<char>|
            #![trigger units[u].members.contains(m), units[v].members.contains(d)]
            units[u].members.contains(m) && units[v].members.contains(d) && deps.dom().contains(m)
                && deps[m].contains(d) ==> unit_deps_of(units, deps)[u].contains(v),
        unit_deps_of(units, deps)[u].contains(v) ==> exists|m: Seq<char>, d: Seq<char>|
            #![trigger units[u].members.contains(m), units[v].members.contains(d)]
            units[u].members.contains(m) && units[v].members.contains(d) && deps.dom().contains(m)
                && deps[m].contains(d),
{
}

// ---------------------------------------------------------------------------
// Landing
// ---------------------------------------------------------------------------

proof fn lemma_results(p: ProgramV, s: RunV, results: Seq<NodeResultV>, k: int, i: int)
    requires
        0 <= k <= results.len(),
        result_nodes(results).no_duplicates(),
    ensures
        0 <= i < k ==> {
            let t = after_results(p, s, results, k);
            &&& results[i].result matches Ok(v) ==> t.outputs.dom().contains(results[i].node)
                && t.outputs[results[i].node] == v
            &&& results[i].result matches Err(e) ==> t.errors.dom().contains(results[i].node)
                && t.errors[results[i].node] == e
        },
    decreases k,
{
    if k > 0 {
        lemma_results(p, s, results, k - 1, i);
        if 0 <= i < k - 1 {
            assert(result_nodes(results)[i] != result_nodes(results)[k - 1]);
        }
    }
}

proof fn lemma_results_others(p: ProgramV, s: RunV, results: Seq<NodeResultV>, k: int, id: Seq<char>)
    requires
        0 <= k <= results.len(),
        forall|i: int| 0 <= i < k ==> (#[trigger] results[i]).node != id,
    ensures
        ({
            let t = after_results(p, s, results, k);
            &&& t.outputs.dom().contains(id) == s.outputs.dom().contains(id)
            &&& t.errors.dom().contains(id) == s.errors.dom().contains(id)
            &&& s.outputs.dom().contains(id) ==> t.outputs[id] == s.outputs[id]
            &&& s.errors.dom().contains(id) ==> t.errors[id] == s.errors[id]
            &&& t.skipped == s.skipped
            &&& t.running == s.running
            &&& t.done == s.done
        }),
    decreases k,
{
    if k > 0 {
        lemma_results_others(p, s, results, k - 1, id);
        assert(results[k - 1].node != id);
    }
}

/// A report is recorded as it is: each node that it has an output for has that
/// output, each that it has an error for has that error, and every other node
/// stays as it was. The unit is over, and what was blocked may be tried again.
pub proof fn reports_are_recorded(p: ProgramV, s: RunV, k: int, o: OutcomeV, i: int, id: Seq<char>)
    requires
        0 <= k < s.running.len(),
        covers(o.results, s.running[k].1),
        0 <= i < o.results.len(),
        forall|x: int| 0 <= x < o.results.len() ==> (#[trigger] o.results[x]).node != id,
    ensures
        ({
            let t = landed(p, s, k, o);
            &&& o.results[i].result matches Ok(v) ==> t.outputs.dom().contains(o.results[i].node)
                && t.outputs[o.results[i].node] == v
            &&& o.results[i].result matches Err(e) ==> t.errors.dom().contains(o.results[i].node)
                && t.errors[o.results[i].node] == e
            &&& t.outputs.dom().contains(id) == s.outputs.dom().contains(id)
            &&& t.errors.dom().contains(id) == s.errors.dom().contains(id)
            &&& s.outputs.dom().contains(id) ==> t.outputs[id] == s.outputs[id]
            &&& t.skipped == s.skipped
            &&& t.done.contains(s.running[k].0)
            &&& t.running == s.running.remove(k)
            &&& t.blocked.len() == 0
            &&& forall|u: int| #[trigger] s.blocked.contains(u) ==> t.ready.contains(u)
        }),
{
    let free = RunV { running: s.running.remove(k), ..s };
    let noted = crate::runtime::upkeep::outcome_noted(free, o);
    let n = o.results.len() as int;
    lemma_results(p, noted, o.results, n, i);
    lemma_results_others(p, noted, o.results, n, id);
    lemma_results_places(p, noted, o.results, n);
    assert(after_outcome(p, free, o) == after_results(p, noted, o.results, n));
}

proof fn lemma_results_places(p: ProgramV, s: RunV, results: Seq<NodeResultV>, k: int)
    requires
        0 <= k <= results.len(),
    ensures
        after_results(p, s, results, k).blocked == s.blocked,
        after_results(p, s, results, k).ready == s.ready,
    decreases k,
{
    if k > 0 {
        lemma_results_places(p, s, results, k - 1);
    }
}

/// Once a unit is over, every unit that waited for it and for nothing else
/// that is not over is ready.
pub proof fn finished_units_release_others(p: ProgramV, s: RunV, u: int, v: int)
    requires
        0 <= v < p.units.len(),
        p.deps[v].contains(u),
    ensures
        (forall|d: int| #[trigger] p.deps[v].contains(d) ==> d == u || s.done.contains(d))
            ==> after_unit(p, s, u).ready.contains(v),
        !s.ready.contains(v) && after_unit(p, s, u).ready.contains(v) ==> forall|d: int| #[trigger]
            p.deps[v].contains(d) ==> d == u || s.done.contains(d),
        after_unit(p, s, u).done.contains(u),
{
    if forall|d: int| #[trigger] p.deps[v].contains(d) ==> d == u || s.done.contains(d) {
        assert(p.deps[v].subset_of(s.done.insert(u)));
    }
}

// ---------------------------------------------------------------------------
// Stopping
// ---------------------------------------------------------------------------

/// In fail-fast mode a failure has stopped the run; in continue mode nothing
/// but a cancellation has.
pub open spec fn stops_rightly(p: ProgramV, s: RunV) -> bool {
    &&& p.config.on_error == ErrorMode::FailFast ==> forall|id: Seq<char>| #[trigger]
        s.errors.dom().contains(id) ==> s.stop is Some
    &&& p.config.on_error == ErrorMode::Continue ==> (s.stop is None || s.stop == Some(
        SkipReason::Cancelled,
    ))
}

proof fn lemma_stop_members(
    p: ProgramV,
    s: RunV,
    members: Seq<Seq<char>>,
    k: int,
    fallback: SkipReason,
    now: u64,
)
    ensures
        settled_members(p, s, members, k, fallback, now).stop == s.stop,
        settled_members(p, s, members, k, fallback, now).errors == s.errors,
    decreases k,
{
    if k > 0 {
        lemma_stop_members(p, s, members, k - 1, fallback, now);
    }
}

proof fn lemma_stop_tried(p: ProgramV, s: RunV, members: Seq<Seq<char>>, k: int, now: TurnV)
    requires
        stops_rightly(p, s),
    ensures
        stops_rightly(p, tried(p, s, members, k, now).0),
    decreases k,
{
    if k > 0 {
        lemma_stop_tried(p, s, members, k - 1, now);
    }
}

proof fn lemma_stop_try(p: ProgramV, s: RunV, u: int, now: TurnV)
    requires
        stops_rightly(p, s),
    ensures
        stops_rightly(p, after_try(p, s, u, now).0),
{
    let popped = RunV { ready: s.ready.remove(u), ..s };
    let members = p.units[u].members;
    match s.stop {
        Some(reason) => {
            lemma_stop_members(p, popped, members, members.len() as int, reason, now.at);
        },
        None => {
            lemma_stop_tried(p, popped, members, members.len() as int, now);
        },
    }
}

proof fn lemma_stop_tries(p: ProgramV, s: RunV, n: nat, now: TurnV)
    requires
        stops_rightly(p, s),
    ensures
        stops_rightly(p, after_tries(p, s, n, now).0),
    decreases n,
{
    if n > 0 {
        lemma_stop_tries(p, s, (n - 1) as nat, now);
        let before = after_tries(p, s, (n - 1) as nat, now).0;
        lemma_stop_try(p, before, crate::runtime::model::next_unit(p, before.ready), now);
    }
}

proof fn lemma_stop_leftovers(p: ProgramV, s: RunV, units: Seq<int>, k: int, now: u64)
    ensures
        leftovers_settled(p, s, units, k, now).stop == s.stop,
        leftovers_settled(p, s, units, k, now).errors == s.errors,
    decreases k,
{
    if k > 0 {
        lemma_stop_leftovers(p, s, units, k - 1, now);
        let before = leftovers_settled(p, s, units, k - 1, now);
        let members = p.units[units[k - 1]].members;
        lemma_stop_members(p, before, members, members.len() as int, SkipReason::NotRun, now);
    }
}

proof fn lemma_stop_rounds(p: ProgramV, s: RunV, n: nat, now: TurnV)
    requires
        stops_rightly(p, s),
    ensures
        stops_rightly(p, rounds(p, s, n, now).0),
    decreases n,
{
    if n > 0 {
        lemma_stop_rounds(p, s, (n - 1) as nat, now);
        let before = rounds(p, s, (n - 1) as nat, now).0;
        let m = choose|m: nat| drains(p, before, m, now);
        lemma_stop_tries(p, before, m, now);
        let after = scheduled(p, before, now).0;
        lemma_stop_leftovers(
            p,
            RunV { blocked: Seq::empty(), ..after },
            after.blocked,
            after.blocked.len() as int,
            now.at,
        );
    }
}

proof fn lemma_stop_results(p: ProgramV, s: RunV, results: Seq<NodeResultV>, k: int)
    requires
        stops_rightly(p, s),
    ensures
        stops_rightly(p, after_results(p, s, results, k)),
    decreases k,
{
    if k > 0 {
        lemma_stop_results(p, s, results, k - 1);
    }
}

/// In every state of every run: a fail-fast run in which a node failed is
/// stopped, and a run that goes on after errors is stopped by a cancellation
/// alone.
pub proof fn runs_stop_as_configured(p: ProgramV, steps: Seq<StepV>, k: int)
    requires
        0 <= k <= steps.len(),
    ensures
        stops_rightly(p, after_steps(p, steps, k)),
        p.config.on_error == ErrorMode::Continue && (forall|i: int|
            0 <= i < k ==> !(#[trigger] steps[i] is Cancel)) ==> after_steps(p, steps, k).stop is None,
    decreases k,
{
    if k > 0 {
        runs_stop_as_configured(p, steps, k - 1);
        let s = after_steps(p, steps, k - 1);
        match steps[k - 1] {
            StepV::Advance(now) => {
                let n = choose|n: nat| settles(p, s, n, now);
                lemma_stop_rounds(p, s, n, now);
                if p.config.on_error == ErrorMode::Continue && s.stop is None {
                    lemma_goes_on_rounds(p, s, n, now);
                }
            },
            StepV::Land(i, o) => {
                let free = RunV { running: s.running.remove(i), ..s };
                let noted = crate::runtime::upkeep::outcome_noted(free, o);
                lemma_stop_results(p, noted, o.results, o.results.len() as int);
                assert(after_outcome(p, free, o) == after_results(
                    p,
                    noted,
                    o.results,
                    o.results.len() as int,
                ));
                if p.config.on_error == ErrorMode::Continue {
                    lemma_goes_on_results(p, noted, o.results, o.results.len() as int);
                }
            },
            StepV::Cancel => {
                assert(steps[k - 1] is Cancel);
            },
        }
    }
}

proof fn lemma_goes_on_tried(p: ProgramV, s: RunV, members: Seq<Seq<char>>, k: int, now: TurnV)
    requires
        p.config.on_error == ErrorMode::Continue,
    ensures
        tried(p, s, members, k, now).0.stop == s.stop,
    decreases k,
{
    if k > 0 {
        lemma_goes_on_tried(p, s, members, k - 1, now);
    }
}

proof fn lemma_goes_on_tries(p: ProgramV, s: RunV, n: nat, now: TurnV)
    requires
        p.config.on_error == ErrorMode::Continue,
        s.stop is None,
    ensures
        after_tries(p, s, n, now).0.stop is None,
    decreases n,
{
    if n > 0 {
        lemma_goes_on_tries(p, s, (n - 1) as nat, now);
        let before = after_tries(p, s, (n - 1) as nat, now).0;
        let u = crate::runtime::model::next_unit(p, before.ready);
        let members = p.units[u].members;
        lemma_goes_on_tried(
            p,
            RunV { ready: before.ready.remove(u), ..before },
            members,
            members.len() as int,
            now,
        );
    }
}

proof fn lemma_goes_on_rounds(p: ProgramV, s: RunV, n: nat, now: TurnV)
    requires
        p.config.on_error == ErrorMode::Continue,
        s.stop is None,
    ensures
        rounds(p, s, n, now).0.stop is None,
    decreases n,
{
    if n > 0 {
        lemma_goes_on_rounds(p, s, (n - 1) as nat, now);
        let before = rounds(p, s, (n - 1) as nat, now).0;
        let m = choose|m: nat| drains(p, before, m, now);
        lemma_goes_on_tries(p, before, m, now);
        let after = scheduled(p, before, now).0;
        lemma_stop_leftovers(
            p,
            RunV { blocked: Seq::empty(), ..after },
            after.blocked,
            after.blocked.len() as int,
            now.at,
        );
    }
}

proof fn lemma_goes_on_results(p: ProgramV, s: RunV, results: Seq<NodeResultV>, k: int)
    requires
        p.config.on_error == ErrorMode::Continue,
    ensures
        after_results(p, s, results, k).stop == s.stop,
    decreases k,
{
    if k > 0 {
        lemma_goes_on_results(p, s, results, k - 1);
    }
}

/// A cancellation stops a run that goes on and leaves one that is stopped as
/// it is; what runs goes on running.
pub proof fn cancelling_stops_runs(s: RunV)
    ensures
        s.stop is None ==> cancelled(s).stop == Some(SkipReason::Cancelled),
        s.stop is Some ==> cancelled(s) == s,
        cancelled(s).running == s.running,
        cancelled(s).outputs == s.outputs,
{
}

/// A run starts with nothing done and with exactly the units ready that wait
/// for nothing.
pub proof fn runs_start_with_free_units(p: ProgramV, u: int)
    requires
        0 <= u < p.units.len(),
    ensures
        initial(p).ready.contains(u) <==> p.deps[u] == Set::<int>::empty(),
        initial(p).outputs.dom() == Set::<Seq<char>>::empty(),
        initial(p).errors.dom() == Set::<Seq<char>>::empty(),
        initial(p).skipped.dom() == Set::<Seq<char>>::empty(),
        initial(p).running.len() == 0,
        initial(p).stop is None,
{
}

/// A fan-out node goes out only when the input of every item matches the
/// schema of its tool, and any other node only when its own input does.
pub proof fn every_input_is_checked(
    p: ProgramV,
    outputs: Map<Seq<char>, Json>,
    node: NodeV,
    reason: Seq<char>,
    input: Json,
)
    requires
        resolved(node.input, outputs) == Ok::<Json, RuntimeErrorV>(input),
        p.schemas.dom().contains(node.tool),
    ensures
        fan_out_items(node, outputs) == Ok::<Option<Seq<Json>>, ToolErrorV>(None) ==> (prepared(
            p,
            outputs,
            node,
            reason,
        ) is Ok <==> !violates(p.schemas[node.tool], input)),
        fan_out_items(node, outputs) matches Ok(Some(items)) ==> {
            &&& forall|i: int, own: Json|
                0 <= i < items.len() && filled(input, #[trigger] items[i]) == Ok::<Json, RuntimeErrorV>(
                    own,
                ) && #[trigger] violates(p.schemas[node.tool], own) ==> prepared(
                    p,
                    outputs,
                    node,
                    reason,
                ) is Err
            &&& (forall|i: int, own: Json|
                0 <= i < items.len() && filled(input, #[trigger] items[i]) == Ok::<Json, RuntimeErrorV>(
                    own,
                ) ==> !#[trigger] violates(p.schemas[node.tool], own)) ==> prepared(
                p,
                outputs,
                node,
                reason,
            ) is Ok
        },
{
    if fan_out_items(node, outputs) is Ok && fan_out_items(node, outputs)->Ok_0 is Some {
        let items = fan_out_items(node, outputs)->Ok_0->0;
        let schema = p.schemas[node.tool];
        assert forall|i: int, own: Json|
            0 <= i < items.len() && filled(input, #[trigger] items[i]) == Ok::<Json, RuntimeErrorV>(
                own,
            ) && #[trigger] violates(schema, own) implies prepared(p, outputs, node, reason) is Err by {
            assert(item_violates(schema, input, items[i]));
            assert(some_item_violates(schema, input, items));
        }
        if some_item_violates(schema, input, items) {
            let i = choose|i: int|
                0 <= i < items.len() && item_violates(schema, input, #[trigger] items[i]);
            assert(violates(schema, filled(input, items[i])->Ok_0));
        }
    }
}

/// A member of a unit that is settled without being run is skipped: for a
/// node it needed, when that one failed or was skipped, and otherwise for the
/// reason that the unit is settled for.
pub proof fn settled_members_say_why(
    p: ProgramV,
    s: RunV,
    members: Seq<Seq<char>>,
    k: int,
    fallback: SkipReason,
    now: u64,
)
    requires
        0 <= k < members.len(),
        !settled(settled_members(p, s, members, k, fallback, now), members[k]),
    ensures
        ({
            let before = settled_members(p, s, members, k, fallback, now);
            let after = settled_members(p, s, members, k + 1, fallback, now);
            &&& after.skipped.dom().contains(members[k])
            &&& poisoned(p, before, members[k]) ==> after.skipped[members[k]]
                == SkipReason::FailedDependency
            &&& !poisoned(p, before, members[k]) ==> after.skipped[members[k]] == fallback
        }),
{
}

/// A node that fails before it goes out is recorded and traced with its error.
pub proof fn early_failures_are_traced(p: ProgramV, s: RunV, id: Seq<char>, e: ToolErrorV, now: u64)
    ensures
        after_error(p, s, id, e, now).errors == s.errors.insert(id, e),
        after_error(p, s, id, e, now).trace.len() == s.trace.len() + 1,
        after_error(p, s, id, e, now).trace.last().node == id,
        after_error(p, s, id, e, now).trace.last().status == TraceStatus::Failed,
        after_error(p, s, id, e, now).trace.last().error == Some(e.message),
        after_error(p, s, id, e, now).outputs == s.outputs,
        after_error(p, s, id, e, now).skipped == s.skipped,
{
}

} // verus!
