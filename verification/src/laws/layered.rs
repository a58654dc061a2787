//! Layer by layer execution: which calls a layer makes, and what becomes of
//! them.

use vstd::prelude::*;

use crate::adapters::api::{BatchOutputV, ToolErrorV};
use crate::json::Json;
use crate::optimizer::batch::BatchV;
use crate::plan::{NodeV, PlanV};
use crate::refs::RefV;
use crate::runtime::error::RuntimeErrorV;
use crate::runtime::layered::{CallV, ExecutionV};
use crate::runtime::result::{EventV, TraceStatus};

verus! {

use crate::canonical::canonical;
use crate::optimizer::batch::{chunk_groups, chunk_size, has_node, node_named};
use crate::ordered::lookup;
use crate::laws::calls::{lemma_by_node, lemma_not_by_node};
use crate::runtime::calls::by_node;
use crate::runtime::layered::{
    adapter_of, batch_calls, call_of, calls_of, claimed, execution_events, final_outputs, gathered,
    groups_in, hit_executions, layer_permits, least_limit, node_limit, sent_executions,
    single_calls, successes, traced, untaken,
};
use crate::runtime::resolve::{resolved, resolved_ref};
use crate::runtime::result::event;

// ---------------------------------------------------------------------------
// Permits
// ---------------------------------------------------------------------------

/// The plan bounds how many calls of the node's tool run at once.
pub open spec fn bounds(plan: PlanV, node: NodeV, n: usize) -> bool {
    lookup(plan.tools, node.tool) matches Some(spec) && (spec.limits matches Some(l)
        && l.max_concurrency == Some(n))
}

proof fn lemma_least(plan: PlanV, layer: Seq<Seq<char>>, k: int)
    requires
        0 <= k <= layer.len(),
    ensures
        forall|i: int|
            0 <= i < k ==> ((#[trigger] node_limit(plan, layer[i])) matches Some(n)
                ==> (least_limit(plan, layer, k) matches Some(l) && l <= n)),
        least_limit(plan, layer, k) matches Some(l) ==> exists|i: int|
            0 <= i < k && #[trigger] node_limit(plan, layer[i]) == Some(l),
    decreases k,
{
    if k > 0 {
        lemma_least(plan, layer, k - 1);
        assert(node_limit(plan, layer[k - 1]) == node_limit(plan, layer[k - 1]));
    }
}

/// A layer runs at least one call at a time, and no more than the limit of
/// any of its tools allows. Without a limit all its nodes run at once.
pub proof fn layers_keep_to_their_limits(plan: PlanV, layer: Seq<Seq<char>>)
    ensures
        layer_permits(plan, layer) >= 1,
        forall|i: int, n: usize|
            0 <= i < layer.len() && has_node(plan.nodes, layer[i]) && #[trigger] bounds(
                plan,
                node_named(plan.nodes, layer[i]),
                n,
            ) && n >= 1 ==> layer_permits(plan, layer) <= n,
        layer.len() >= 1 && (forall|i: int, n: usize|
            0 <= i < layer.len() ==> !#[trigger] bounds(plan, node_named(plan.nodes, layer[i]), n))
            ==> layer_permits(plan, layer) == layer.len(),
        layer_permits(plan, layer) != 1 && layer_permits(plan, layer) != layer.len() ==> exists|
            i: int,
            n: usize,
        |
            0 <= i < layer.len() && #[trigger] bounds(plan, node_named(plan.nodes, layer[i]), n)
                && n == layer_permits(plan, layer),
{
    let k = layer.len() as int;
    lemma_least(plan, layer, k);
    assert forall|i: int, n: usize|
        0 <= i < layer.len() && has_node(plan.nodes, layer[i]) && #[trigger] bounds(
            plan,
            node_named(plan.nodes, layer[i]),
            n,
        ) && n >= 1 implies layer_permits(plan, layer) <= n by {
        assert(node_limit(plan, layer[i]) == Some(n));
    }
    if least_limit(plan, layer, k) is Some {
        let l = least_limit(plan, layer, k)->0;
        let i = choose|i: int| 0 <= i < k && #[trigger] node_limit(plan, layer[i]) == Some(l);
        assert(bounds(plan, node_named(plan.nodes, layer[i]), l));
    }
}

// ---------------------------------------------------------------------------
// Calls
// ---------------------------------------------------------------------------

/// A call carries the node's input with its references resolved. Its output
/// may be cached where the plan declares its tool pure or cacheable, under
/// the tool, its adapter and the canonical input.
pub proof fn calls_carry_resolved_inputs(plan: PlanV, outputs: Map<Seq<char>, Json>, id: Seq<char>)
    ensures
        resolved(node_named(plan.nodes, id).input, outputs) matches Err(e) ==> call_of(
            plan,
            outputs,
            id,
        ) == Err::<CallV, RuntimeErrorV>(e),
        resolved(node_named(plan.nodes, id).input, outputs) matches Ok(input) ==> {
            &&& call_of(plan, outputs, id) is Ok
            &&& call_of(plan, outputs, id)->Ok_0.node == node_named(plan.nodes, id)
            &&& call_of(plan, outputs, id)->Ok_0.input == input
        },
        call_of(plan, outputs, id) matches Ok(c) ==> {
            let spec = lookup(plan.tools, c.node.tool);
            &&& c.cache_key is Some <==> (spec is Some && spec->0.effects is Some && (
            spec->0.effects->0.pure || spec->0.effects->0.cacheable))
            &&& c.cache_key is Some ==> {
                &&& c.cache_key->0.adapter == spec->0.adapter
                &&& c.cache_key->0.tool == c.node.tool
                &&& c.cache_key->0.input == canonical(c.input)
            }
        },
{
}

/// The calls of a list of nodes are those of its nodes, in order; they are
/// made only when every one of them can be.
pub proof fn nodes_are_called_in_order(
    plan: PlanV,
    outputs: Map<Seq<char>, Json>,
    ids: Seq<Seq<char>>,
    k: int,
)
    requires
        0 <= k <= ids.len(),
    ensures
        calls_of(plan, outputs, ids, k) is Ok <==> forall|i: int|
            0 <= i < k ==> call_of(plan, outputs, #[trigger] ids[i]) is Ok,
        calls_of(plan, outputs, ids, k) matches Ok(calls) ==> calls.len() == k && forall|i: int|
            0 <= i < k ==> call_of(plan, outputs, #[trigger] ids[i]) == Ok::<CallV, RuntimeErrorV>(
                calls[i],
            ),
    decreases k,
{
    if k > 0 {
        nodes_are_called_in_order(plan, outputs, ids, k - 1);
        if calls_of(plan, outputs, ids, k) is Ok {
            assert forall|i: int| 0 <= i < k implies call_of(plan, outputs, #[trigger] ids[i])
                == Ok::<CallV, RuntimeErrorV>(calls_of(plan, outputs, ids, k)->Ok_0[i]) by {
                if i < k - 1 {
                    assert(call_of(plan, outputs, ids[i]) is Ok);
                }
            }
        } else if calls_of(plan, outputs, ids, k - 1) is Ok {
            assert(call_of(plan, outputs, ids[k - 1]) is Err);
        }
    }
}

/// Every dispatch calls all its members, in order, and only through an
/// adapter that is registered.
pub proof fn dispatches_call_their_members(
    plan: PlanV,
    adapters: Set<Seq<char>>,
    outputs: Map<Seq<char>, Json>,
    groups: Seq<BatchV>,
    k: int,
)
    requires
        0 <= k <= groups.len(),
    ensures
        batch_calls(plan, adapters, outputs, groups, k) matches Ok(calls) ==> {
            &&& calls.len() == k
            &&& forall|g: int|
                0 <= g < k ==> adapters.contains((#[trigger] groups[g]).adapter)
                    && calls[g].len() == groups[g].nodes.len()
            &&& forall|g: int, i: int|
                0 <= g < k && 0 <= i < groups[g].nodes.len() ==> call_of(
                    plan,
                    outputs,
                    #[trigger] groups[g].nodes[i],
                ) == Ok::<CallV, RuntimeErrorV>(calls[g][i])
        },
    decreases k,
{
    if k > 0 {
        dispatches_call_their_members(plan, adapters, outputs, groups, k - 1);
        let g = groups[k - 1];
        nodes_are_called_in_order(plan, outputs, g.nodes, g.nodes.len() as int);
    }
}

/// A dispatch through an adapter that is not registered is an error.
pub proof fn missing_adapters_are_reported(
    plan: PlanV,
    adapters: Set<Seq<char>>,
    outputs: Map<Seq<char>, Json>,
    groups: Seq<BatchV>,
    k: int,
    g: int,
)
    requires
        0 <= g < k <= groups.len(),
        !adapters.contains(groups[g].adapter),
    ensures
        batch_calls(plan, adapters, outputs, groups, k) is Err,
        g == 0 ==> batch_calls(plan, adapters, outputs, groups, k)->Err_0
            == (RuntimeErrorV::MissingAdapter { adapter: groups[g].adapter }),
    decreases k,
{
    if g < k - 1 {
        missing_adapters_are_reported(plan, adapters, outputs, groups, k - 1, g);
    } else if g == 0 {
        assert(batch_calls(plan, adapters, outputs, groups, 0) is Ok);
    }
}

/// The nodes that no dispatch takes are called one by one: each of them has
/// its call, and no other node has one.
pub proof fn left_nodes_are_called_alone(
    plan: PlanV,
    adapters: Set<Seq<char>>,
    outputs: Map<Seq<char>, Json>,
    groups: Seq<BatchV>,
    layer: Seq<Seq<char>>,
    k: int,
)
    requires
        0 <= k <= layer.len(),
    ensures
        single_calls(plan, adapters, outputs, groups, layer, k) matches Ok(calls) ==> {
            &&& forall|i: int|
                0 <= i < k && !claimed(groups, #[trigger] layer[i]) ==> {
                    &&& adapters.contains(adapter_of(plan, layer[i]))
                    &&& call_of(plan, outputs, layer[i]) is Ok
                    &&& calls.contains(call_of(plan, outputs, layer[i])->Ok_0)
                }
            &&& forall|j: int|
                0 <= j < calls.len() ==> exists|i: int|
                    0 <= i < k && !claimed(groups, #[trigger] layer[i]) && call_of(
                        plan,
                        outputs,
                        layer[i],
                    ) == Ok::<CallV, RuntimeErrorV>(#[trigger] calls[j])
            &&& calls.len() <= k
            &&& (forall|i: int| 0 <= i < k ==> !claimed(groups, #[trigger] layer[i]))
                ==> calls.len() == k
        },
        (forall|i: int|
            0 <= i < k && !claimed(groups, #[trigger] layer[i]) ==> call_of(plan, outputs, layer[i]) is Ok
                && adapters.contains(adapter_of(plan, layer[i]))) ==> single_calls(
            plan,
            adapters,
            outputs,
            groups,
            layer,
            k,
        ) is Ok,
    decreases k,
{
    if k > 0 {
        left_nodes_are_called_alone(plan, adapters, outputs, groups, layer, k - 1);
        if single_calls(plan, adapters, outputs, groups, layer, k) is Ok {
            let before = single_calls(plan, adapters, outputs, groups, layer, k - 1)->Ok_0;
            let calls = single_calls(plan, adapters, outputs, groups, layer, k)->Ok_0;
            assert forall|i: int| 0 <= i < k && !claimed(groups, #[trigger] layer[i]) implies {
                &&& adapters.contains(adapter_of(plan, layer[i]))
                &&& call_of(plan, outputs, layer[i]) is Ok
                &&& calls.contains(call_of(plan, outputs, layer[i])->Ok_0)
            } by {
                if i < k - 1 {
                    let c = call_of(plan, outputs, layer[i])->Ok_0;
                    let x = choose|x: int| 0 <= x < before.len() && before[x] == c;
                    assert(calls[x] == c);
                } else {
                    assert(calls[calls.len() - 1] == call_of(plan, outputs, layer[i])->Ok_0);
                }
            }
            assert forall|j: int| 0 <= j < calls.len() implies exists|i: int|
                0 <= i < k && !claimed(groups, #[trigger] layer[i]) && call_of(
                    plan,
                    outputs,
                    layer[i],
                ) == Ok::<CallV, RuntimeErrorV>(#[trigger] calls[j]) by {
                if j < before.len() {
                    assert(before[j] == calls[j]);
                } else {
                    assert(!claimed(groups, layer[k - 1]));
                }
            }
        }
    }
}

proof fn lemma_chunks_hold(
    adapter: Seq<char>,
    tool: Seq<char>,
    members: Seq<Seq<char>>,
    size: nat,
)
    ensures
        forall|c: int|
            0 <= c < chunk_groups(adapter, tool, members, size).len() ==> {
                let g = #[trigger] chunk_groups(adapter, tool, members, size)[c];
                &&& g.adapter == adapter
                &&& g.tool == tool
                &&& 2 <= g.nodes.len() <= size
                &&& forall|i: int| 0 <= i < g.nodes.len() ==> members.contains(#[trigger] g.nodes[i])
            },
    decreases members.len(),
{
    if members.len() > 0 && size > 0 {
        let n = if size < members.len() {
            size as int
        } else {
            members.len() as int
        };
        let rest = chunk_groups(adapter, tool, members.skip(n), size);
        let all = chunk_groups(adapter, tool, members, size);
        lemma_chunks_hold(adapter, tool, members.skip(n), size);
        let d: int = if n > 1 {
            1
        } else {
            0
        };
        assert forall|c: int| 0 <= c < all.len() implies {
            let g = #[trigger] all[c];
            &&& g.adapter == adapter
            &&& g.tool == tool
            &&& 2 <= g.nodes.len() <= size
            &&& forall|i: int| 0 <= i < g.nodes.len() ==> members.contains(#[trigger] g.nodes[i])
        } by {
            let g = all[c];
            if c < d {
                assert(g.nodes == members.take(n));
                assert forall|i: int| 0 <= i < g.nodes.len() implies members.contains(
                    #[trigger] g.nodes[i],
                ) by {
                    assert(members[i] == g.nodes[i]);
                }
            } else {
                assert(g == rest[c - d]);
                assert forall|i: int| 0 <= i < g.nodes.len() implies members.contains(
                    #[trigger] g.nodes[i],
                ) by {
                    let s = members.skip(n);
                    assert(s.contains(g.nodes[i]));
                    let x = choose|x: int| 0 <= x < s.len() && s[x] == g.nodes[i];
                    assert(members[n + x] == g.nodes[i]);
                }
            }
        }
    }
}

/// The dispatches of a layer hold nodes of the layer alone, two or more each,
/// and no more than the tool takes at once.
pub proof fn dispatches_stay_in_their_layer(
    plan: PlanV,
    groups: Seq<BatchV>,
    layer: Seq<Seq<char>>,
    k: int,
)
    requires
        0 <= k <= groups.len(),
    ensures
        forall|c: int, i: int|
            0 <= c < groups_in(plan, groups, layer, k).len() && 0 <= i < groups_in(
                plan,
                groups,
                layer,
                k,
            )[c].nodes.len() ==> layer.contains(
                #[trigger] groups_in(plan, groups, layer, k)[c].nodes[i],
            ),
        forall|c: int|
            0 <= c < groups_in(plan, groups, layer, k).len() ==> 2 <= (
            #[trigger] groups_in(plan, groups, layer, k)[c]).nodes.len(),
        forall|c: int|
            0 <= c < groups_in(plan, groups, layer, k).len() ==> {
                let g = #[trigger] groups_in(plan, groups, layer, k)[c];
                lookup(plan.tools, g.tool) matches Some(spec) ==> (spec.limits matches Some(l) ==> (
                l.batch_size matches Some(b) ==> g.nodes.len() <= b))
            },
    decreases k,
{
    if k > 0 {
        dispatches_stay_in_their_layer(plan, groups, layer, k - 1);
        let g = groups[k - 1];
        let before = groups_in(plan, groups, layer, k - 1);
        let all = groups_in(plan, groups, layer, k);
        let limits = crate::runtime::layered::limits_of(plan.tools, g.tool);
        let size = chunk_size(limits, g.nodes.len());
        let last = chunk_groups(g.adapter, g.tool, g.nodes, size);
        lemma_chunks_hold(g.adapter, g.tool, g.nodes, size);
        assert forall|c: int| 0 <= c < all.len() implies 2 <= (#[trigger] all[c]).nodes.len() && (
        lookup(plan.tools, all[c].tool) matches Some(spec) ==> (spec.limits matches Some(l) ==> (
        l.batch_size matches Some(b) ==> all[c].nodes.len() <= b))) by {
            if c < before.len() {
                assert(all[c] == before[c]);
            } else {
                assert(all[c] == last[c - before.len()]);
            }
        }
        assert forall|c: int, i: int|
            0 <= c < all.len() && 0 <= i < all[c].nodes.len() implies layer.contains(
            #[trigger] all[c].nodes[i],
        ) by {
            if c < before.len() {
                assert(all[c] == before[c]);
                assert(layer.contains(before[c].nodes[i]));
            } else {
                let h = last[c - before.len()];
                assert(all[c] == h);
                assert(g.nodes.contains(h.nodes[i]));
                let x = choose|x: int| 0 <= x < g.nodes.len() && g.nodes[x] == h.nodes[i];
                assert(layer.contains(g.nodes[x]));
            }
        }
    }
}

/// A group all of whose nodes stand in the layer, and that its tool takes at
/// once, goes out as it is.
pub proof fn groups_of_a_layer_go_out(
    plan: PlanV,
    groups: Seq<BatchV>,
    layer: Seq<Seq<char>>,
    k: int,
    g: int,
)
    requires
        0 <= g < k <= groups.len(),
        forall|i: int| 0 <= i < groups[g].nodes.len() ==> layer.contains(#[trigger] groups[g].nodes[i]),
        groups[g].nodes.len() >= 2,
        lookup(plan.tools, groups[g].tool) matches Some(spec) ==> (spec.limits matches Some(l) ==> (
        l.batch_size matches Some(b) ==> groups[g].nodes.len() <= b)),
    ensures
        groups_in(plan, groups, layer, k).contains(groups[g]),
    decreases k,
{
    let before = groups_in(plan, groups, layer, k - 1);
    let all = groups_in(plan, groups, layer, k);
    if g < k - 1 {
        groups_of_a_layer_go_out(plan, groups, layer, k - 1, g);
        let x = choose|x: int| 0 <= x < before.len() && before[x] == groups[g];
        assert(all[x] == groups[g]);
    } else {
        let b = groups[g];
        assert(crate::runtime::layered::within_layer(b, layer));
        assert(b.nodes.take(b.nodes.len() as int) =~= b.nodes);
        assert(all[before.len() as int] == b);
    }
}

// ---------------------------------------------------------------------------
// What became of the calls
// ---------------------------------------------------------------------------

/// A call that went out is traced when it starts and again when it ends, one
/// that the cache answered only once.
pub proof fn calls_are_traced(e: ExecutionV, now: u64)
    ensures
        e.cached ==> execution_events(e, now).len() == 1,
        !e.cached ==> execution_events(e, now).len() == 2 && execution_events(e, now)[0] == event(
            e.node,
            e.tool,
            TraceStatus::Started,
            now,
        ),
        execution_events(e, now).last().node == e.node,
        execution_events(e, now).last().tool == e.tool,
        execution_events(e, now).last().duration_ms == Some(e.duration_ms),
        e.result is Ok ==> execution_events(e, now).last().error is None,
        e.result is Ok && e.cached ==> execution_events(e, now).last().status
            == TraceStatus::CacheHit,
        e.result is Ok && !e.cached ==> execution_events(e, now).last().status
            == TraceStatus::Finished,
        e.result matches Err(error) ==> execution_events(e, now).last().status
            == TraceStatus::Failed && execution_events(e, now).last().error == Some(error.message),
{
}

/// The events of one call follow those of the call before it.
pub proof fn traces_grow_call_by_call(
    trace: Seq<EventV>,
    events: Seq<ExecutionV>,
    now: u64,
    k: int,
)
    requires
        0 <= k <= events.len(),
    ensures
        trace.is_prefix_of(traced(trace, events, now, k)),
        k < events.len() ==> traced(trace, events, now, k + 1) == traced(trace, events, now, k)
            + execution_events(events[k], now),
        forall|i: int, x: int|
            0 <= i < k && 0 <= x < execution_events(events[i], now).len() ==> traced(
                trace,
                events,
                now,
                k,
            ).contains(#[trigger] execution_events(events[i], now)[x]),
    decreases k,
{
    if k > 0 {
        traces_grow_call_by_call(trace, events, now, k - 1);
        let before = traced(trace, events, now, k - 1);
        let last = execution_events(events[k - 1], now);
        let all = traced(trace, events, now, k);
        assert forall|i: int, x: int|
            0 <= i < k && 0 <= x < execution_events(events[i], now).len() implies all.contains(
            #[trigger] execution_events(events[i], now)[x],
        ) by {
            if i < k - 1 {
                let e = execution_events(events[i], now)[x];
                let y = choose|y: int| 0 <= y < before.len() && before[y] == e;
                assert(all[y] == e);
            } else {
                assert(all[before.len() + x] == last[x]);
            }
        }
    }
}

/// A layer ends at the first call that failed: all before it succeeded.
pub proof fn layers_end_at_the_first_failure(events: Seq<ExecutionV>, from: int)
    requires
        0 <= from <= events.len(),
    ensures
        from <= successes(events, from) <= events.len(),
        forall|i: int|
            from <= i < successes(events, from) ==> (#[trigger] events[i]).result is Ok,
        successes(events, from) < events.len() ==> events[successes(events, from)].result is Err,
    decreases events.len() - from,
{
    if from < events.len() && events[from].result is Ok {
        layers_end_at_the_first_failure(events, from + 1);
    }
}

/// Every call that succeeded leaves its output under its node; what other
/// nodes left stays.
pub proof fn outputs_are_kept_by_node(
    outputs: Map<Seq<char>, Json>,
    events: Seq<ExecutionV>,
    k: int,
    id: Seq<char>,
)
    requires
        0 <= k <= events.len(),
    ensures
        (forall|i: int| 0 <= i < k ==> (#[trigger] events[i]).node != id) ==> (gathered(
            outputs,
            events,
            k,
        ).dom().contains(id) == outputs.dom().contains(id) && gathered(outputs, events, k)[id]
            == outputs[id]),
        forall|j: int|
            0 <= j < k && (#[trigger] events[j]).node == id && events[j].result is Ok && (forall|
                i: int,
            |
                j < i < k ==> (#[trigger] events[i]).node != id) ==> gathered(
                outputs,
                events,
                k,
            ).dom().contains(id) && gathered(outputs, events, k)[id] == events[j].result->Ok_0,
    decreases k,
{
    if k > 0 {
        outputs_are_kept_by_node(outputs, events, k - 1, id);
    }
}

/// The calls that the cache answers are those with a cached output, in order,
/// and each has that output.
pub proof fn cached_calls_are_answered(calls: Seq<CallV>, cached: Seq<Option<Json>>, k: int, i: int)
    requires
        0 <= i < k <= calls.len(),
        calls.len() == cached.len(),
    ensures
        hit_executions(calls, cached, k).len() <= k,
        cached[i] is Some ==> exists|x: int|
            0 <= x < hit_executions(calls, cached, k).len() && {
                let e = #[trigger] hit_executions(calls, cached, k)[x];
                &&& e.node == calls[i].node.id
                &&& e.tool == calls[i].node.tool
                &&& e.cached
                &&& e.result == Ok::<Json, ToolErrorV>(cached[i]->0)
            },
        (forall|j: int| 0 <= j < k ==> (#[trigger] cached[j]) is None) ==> hit_executions(
            calls,
            cached,
            k,
        ).len() == 0,
    decreases k,
{
    let all = hit_executions(calls, cached, k);
    let before = hit_executions(calls, cached, k - 1);
    if i < k - 1 {
        cached_calls_are_answered(calls, cached, k - 1, i);
        if cached[i] is Some {
            let x = choose|x: int|
                0 <= x < before.len() && {
                    let e = #[trigger] before[x];
                    &&& e.node == calls[i].node.id
                    &&& e.tool == calls[i].node.tool
                    &&& e.cached
                    &&& e.result == Ok::<Json, ToolErrorV>(cached[i]->0)
                };
            assert(all[x] == before[x]);
        }
    } else {
        if k > 1 {
            cached_calls_are_answered(calls, cached, k - 1, 0);
        } else {
            assert(before.len() == 0);
        }
        if cached[i] is Some {
            assert(all[before.len() as int].node == calls[i].node.id);
        }
    }
}

proof fn lemma_untaken(
    answers: Map<Seq<char>, Json>,
    calls: Seq<CallV>,
    cached: Seq<Option<Json>>,
    k: int,
    node: Seq<char>,
)
    requires
        0 <= k <= calls.len(),
        forall|i: int| 0 <= i < k ==> (#[trigger] calls[i]).node.id != node,
    ensures
        untaken(answers, calls, cached, k).dom().contains(node) == answers.dom().contains(node),
        answers.dom().contains(node) ==> untaken(answers, calls, cached, k)[node] == answers[node],
    decreases k,
{
    if k > 0 {
        lemma_untaken(answers, calls, cached, k - 1, node);
        assert(calls[k - 1].node.id != node);
    }
}

/// Of the calls that went out together each gets the output that the reply
/// gives its own node; when the whole dispatch failed, each fails with the
/// error. A node that the reply leaves out is reported.
pub proof fn sent_calls_get_their_own_output(
    calls: Seq<CallV>,
    cached: Seq<Option<Json>>,
    reply: Result<Seq<BatchOutputV>, ToolErrorV>,
    duration: u64,
    k: int,
    j: int,
)
    requires
        0 <= k < calls.len(),
        calls.len() == cached.len(),
        cached[k] is None,
        forall|i: int| 0 <= i < k ==> (#[trigger] calls[i]).node.id != calls[k].node.id,
        sent_executions(calls, cached, reply, duration, k) is Ok,
    ensures
        ({
            let before = sent_executions(calls, cached, reply, duration, k)->Ok_0;
            let next = sent_executions(calls, cached, reply, duration, k + 1);
            let id = calls[k].node.id;
            &&& next matches Ok(es) ==> {
                &&& es.len() == before.len() + 1
                &&& es.drop_last() == before
                &&& es.last().node == id
                &&& es.last().tool == calls[k].node.tool
                &&& !es.last().cached
                &&& es.last().duration_ms == duration
            }
            &&& reply matches Err(e) ==> (next is Ok && next->Ok_0.last().result == Err::<
                Json,
                ToolErrorV,
            >(e))
            &&& reply matches Ok(outputs) ==> {
                &&& 0 <= j < outputs.len() && outputs[j].node == id && (forall|i: int|
                    j < i < outputs.len() ==> (#[trigger] outputs[i]).node != id) ==> (next is Ok
                    && next->Ok_0.last().result == Ok::<Json, ToolErrorV>(outputs[j].output))
                &&& (forall|i: int| 0 <= i < outputs.len() ==> (#[trigger] outputs[i]).node != id)
                    ==> next == Err::<Seq<ExecutionV>, Seq<char>>(id)
            }
        }),
{
    let id = calls[k].node.id;
    let next = sent_executions(calls, cached, reply, duration, k + 1);
    if next is Ok {
        assert(next->Ok_0.drop_last() =~= sent_executions(calls, cached, reply, duration, k)->Ok_0);
    }
    if reply is Ok {
        let outputs = reply->Ok_0;
        let n = outputs.len() as int;
        lemma_untaken(by_node(outputs, n), calls, cached, k, id);
        if 0 <= j < n && outputs[j].node == id && (forall|i: int|
            j < i < n ==> (#[trigger] outputs[i]).node != id) {
            lemma_by_node(outputs, n, id, j);
        }
        if forall|i: int| 0 <= i < n ==> (#[trigger] outputs[i]).node != id {
            lemma_not_by_node(outputs, n, id);
        }
    }
}

/// A run gives every declared output, each with the value that its reference
/// stands for, or none when one of them cannot be resolved.
pub proof fn declared_outputs_are_resolved(
    outputs: Seq<(Seq<char>, RefV)>,
    values: Map<Seq<char>, Json>,
    k: int,
)
    requires
        0 <= k <= outputs.len(),
        forall|i: int, j: int| 0 <= i < j < outputs.len() ==> outputs[i].0 != outputs[j].0,
    ensures
        final_outputs(outputs, values, k) is Ok <==> forall|i: int|
            0 <= i < k ==> resolved_ref((#[trigger] outputs[i]).1, values) is Ok,
        final_outputs(outputs, values, k) matches Ok(m) ==> {
            &&& forall|i: int|
                0 <= i < k ==> m.dom().contains((#[trigger] outputs[i]).0) && resolved_ref(
                    outputs[i].1,
                    values,
                ) == Ok::<Json, RuntimeErrorV>(m[outputs[i].0])
            &&& forall|name: Seq<char>| #[trigger]
                m.dom().contains(name) ==> exists|i: int|
                    0 <= i < k && (#[trigger] outputs[i]).0 == name
        },
    decreases k,
{
    if k > 0 {
        declared_outputs_are_resolved(outputs, values, k - 1);
        let all = final_outputs(outputs, values, k);
        if all is Ok {
            let before = final_outputs(outputs, values, k - 1)->Ok_0;
            let m = all->Ok_0;
            assert forall|i: int| 0 <= i < k implies m.dom().contains((#[trigger] outputs[i]).0)
                && resolved_ref(outputs[i].1, values) == Ok::<Json, RuntimeErrorV>(
                m[outputs[i].0],
            ) by {
                if i < k - 1 {
                    assert(before.dom().contains(outputs[i].0));
                    assert(outputs[i].0 != outputs[k - 1].0);
                }
            }
            assert forall|name: Seq<char>| #[trigger] m.dom().contains(name) implies exists|i: int|
                0 <= i < k && (#[trigger] outputs[i]).0 == name by {
                if name != outputs[k - 1].0 {
                    assert(before.dom().contains(name));
                }
            }
        } else if final_outputs(outputs, values, k - 1) is Ok {
            assert(resolved_ref(outputs[k - 1].1, values) is Err);
        }
    }
}

} // verus!
