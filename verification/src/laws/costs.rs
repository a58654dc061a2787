//! Estimates: what runs in turn adds up, what runs at once costs as much as
//! the slowest of it.

use vstd::prelude::*;

use crate::optimizer::batch::BatchV;
use crate::plan::{PlanV, ToolCost, ToolSpecV};

verus! {

use crate::graph::order::distinct_ids;
use crate::graph::validate::flattened;
use crate::optimizer::batch::{has_node, node_named};
use crate::optimizer::cost::{
    batch_ms, batched_nodes, call_ms, calls_after, compiled_ms, cost_of, layer_ms, node_ms,
    node_tools, serial_ms, summary_of, total_tokens,
};
use crate::ordered::lookup;

/// The declared cost of a dispatch: the fixed part once, and the part per
/// call as often as it carries calls. What does not fit is the largest number.
pub proof fn dispatches_cost_fixed_plus_per_call(
    tools: Seq<(Seq<char>, ToolSpecV)>,
    tool: Seq<char>,
    t: ToolSpecV,
    c: ToolCost,
    fixed: u64,
    per_call: u64,
    calls: nat,
)
    requires
        lookup(tools, tool) == Some(t),
        t.cost == Some(c),
        c.fixed_ms == Some(fixed) || (c.fixed_ms is None && fixed == 0),
        c.per_call_ms == Some(per_call) || (c.per_call_ms is None && per_call == 0),
    ensures
        fixed + per_call * calls <= u64::MAX ==> call_ms(cost_of(tools, tool), calls) == fixed
            + per_call * calls,
        fixed + per_call * calls > u64::MAX ==> call_ms(cost_of(tools, tool), calls) == u64::MAX,
{
    assert(per_call * calls >= 0) by (nonlinear_arith)
        requires
            per_call >= 0,
            calls >= 0,
    ;
}

/// A tool that is unknown or declares no cost costs nothing.
pub proof fn undeclared_costs_are_zero(tools: Seq<(Seq<char>, ToolSpecV)>, tool: Seq<char>, calls: nat)
    requires
        lookup(tools, tool) matches Some(t) ==> t.cost is None,
    ensures
        call_ms(cost_of(tools, tool), calls) == 0,
        total_tokens(tools, seq![tool]) == 0,
{
    assert(0 * calls == 0) by (nonlinear_arith);
    assert(seq![tool].drop_last() =~= Seq::empty());
    assert(total_tokens(tools, Seq::empty()) == 0);
}

/// Calls one after the other cost the sum of what they cost.
pub proof fn serial_costs_add_up(
    tools: Seq<(Seq<char>, ToolSpecV)>,
    a: Seq<Seq<char>>,
    b: Seq<Seq<char>>,
)
    ensures
        serial_ms(tools, a + b) == serial_ms(tools, a) + serial_ms(tools, b),
        total_tokens(tools, a + b) == total_tokens(tools, a) + total_tokens(tools, b),
    decreases b.len(),
{
    if b.len() == 0 {
        assert(a + b =~= a);
    } else {
        serial_costs_add_up(tools, a, b.drop_last());
        assert((a + b).drop_last() =~= a + b.drop_last());
        assert((a + b).last() == b.last());
    }
}

/// One call costs one dispatch with one call, and the tokens that its tool
/// declares.
pub proof fn single_calls_cost_one_dispatch(
    tools: Seq<(Seq<char>, ToolSpecV)>,
    tool: Seq<char>,
)
    ensures
        serial_ms(tools, seq![tool]) == call_ms(cost_of(tools, tool), 1),
        lookup(tools, tool) matches Some(t) ==> (t.cost matches Some(c) ==> (c.tokens matches Some(n)
            ==> total_tokens(tools, seq![tool]) == n)),
{
    assert(seq![tool].drop_last() =~= Seq::empty());
    assert(serial_ms(tools, Seq::empty()) == 0);
    assert(total_tokens(tools, Seq::empty()) == 0);
}

/// Layers run one after the other: the estimate of some layers followed by
/// others is the sum of the two estimates.
pub proof fn layers_add_up(
    plan: PlanV,
    groups: Seq<BatchV>,
    a: Seq<Seq<Seq<char>>>,
    b: Seq<Seq<Seq<char>>>,
)
    ensures
        compiled_ms(plan, groups, a + b) == compiled_ms(plan, groups, a) + compiled_ms(
            plan,
            groups,
            b,
        ),
    decreases b.len(),
{
    if b.len() == 0 {
        assert(a + b =~= a);
    } else {
        layers_add_up(plan, groups, a, b.drop_last());
        assert((a + b).drop_last() =~= a + b.drop_last());
        assert((a + b).last() == b.last());
    }
}

/// The nodes of a layer run at once: the layer costs as much as one of its
/// nodes, and no node of it costs more. A layer without nodes costs nothing.
pub proof fn layers_cost_their_slowest_node(
    plan: PlanV,
    groups: Seq<BatchV>,
    layer: Seq<Seq<char>>,
)
    ensures
        compiled_ms(plan, groups, seq![layer]) == layer_ms(plan, groups, layer),
        forall|x: int|
            0 <= x < layer.len() ==> node_ms(plan, groups, #[trigger] layer[x]) <= compiled_ms(
                plan,
                groups,
                seq![layer],
            ),
        layer.len() > 0 ==> exists|x: int|
            0 <= x < layer.len() && node_ms(plan, groups, #[trigger] layer[x]) == compiled_ms(
                plan,
                groups,
                seq![layer],
            ),
        layer.len() == 0 ==> compiled_ms(plan, groups, seq![layer]) == 0,
    decreases layer.len(),
{
    assert(seq![layer].drop_last() =~= Seq::empty());
    assert(compiled_ms(plan, groups, Seq::empty()) == 0);
    if layer.len() > 0 {
        let rest = layer.drop_last();
        layers_cost_their_slowest_node(plan, groups, rest);
        assert forall|x: int| 0 <= x < layer.len() implies node_ms(
            plan,
            groups,
            #[trigger] layer[x],
        ) <= layer_ms(plan, groups, layer) by {
            if x < rest.len() {
                assert(layer[x] == rest[x]);
            }
        }
        if layer_ms(plan, groups, layer) == node_ms(plan, groups, layer.last()) {
            assert(layer[layer.len() - 1] == layer.last());
        } else {
            let x = choose|x: int|
                0 <= x < rest.len() && node_ms(plan, groups, #[trigger] rest[x]) == layer_ms(
                    plan,
                    groups,
                    rest,
                );
            assert(layer[x] == rest[x]);
        }
    }
}

/// A node that no batch carries costs one call of its tool.
pub proof fn unbatched_nodes_cost_one_call(plan: PlanV, groups: Seq<BatchV>, i: int)
    requires
        distinct_ids(plan.nodes),
        0 <= i < plan.nodes.len(),
        forall|g: int| 0 <= g < groups.len() ==> !(#[trigger] groups[g]).nodes.contains(plan.nodes[i].id),
    ensures
        node_ms(plan, groups, plan.nodes[i].id) == call_ms(
            cost_of(plan.tools, plan.nodes[i].tool),
            1,
        ),
    decreases groups.len(),
{
    let id = plan.nodes[i].id;
    if groups.len() > 0 {
        assert(!groups[groups.len() - 1].nodes.contains(id));
        assert forall|g: int| 0 <= g < groups.drop_last().len() implies !(
        #[trigger] groups.drop_last()[g]).nodes.contains(id) by {
            assert(groups.drop_last()[g] == groups[g]);
        }
        unbatched_nodes_cost_one_call(plan, groups.drop_last(), i);
        lemma_unbatched(plan.tools, groups, id);
    }
    assert(has_node(plan.nodes, id));
    let m = node_named(plan.nodes, id);
    let k = choose|k: int| 0 <= k < plan.nodes.len() && (#[trigger] plan.nodes[k]).id == id;
    if i < k {
        assert(plan.nodes[i].id != plan.nodes[k].id);
    } else if k < i {
        assert(plan.nodes[k].id != plan.nodes[i].id);
    }
}

proof fn lemma_unbatched(tools: Seq<(Seq<char>, ToolSpecV)>, groups: Seq<BatchV>, id: Seq<char>)
    requires
        forall|g: int| 0 <= g < groups.len() ==> !(#[trigger] groups[g]).nodes.contains(id),
    ensures
        batch_ms(tools, groups, id) is None,
    decreases groups.len(),
{
    if groups.len() > 0 {
        assert(!groups[groups.len() - 1].nodes.contains(id));
        assert forall|g: int| 0 <= g < groups.drop_last().len() implies !(
        #[trigger] groups.drop_last()[g]).nodes.contains(id) by {
            assert(groups.drop_last()[g] == groups[g]);
        }
        lemma_unbatched(tools, groups.drop_last(), id);
    }
}

/// A node of a batch costs the one dispatch that carries all of the batch.
pub proof fn batched_nodes_cost_their_batch(plan: PlanV, groups: Seq<BatchV>, g: int, id: Seq<char>)
    requires
        0 <= g < groups.len(),
        groups[g].nodes.contains(id),
        forall|h: int| 0 <= h < groups.len() && h != g ==> !(#[trigger] groups[h]).nodes.contains(id),
    ensures
        node_ms(plan, groups, id) == call_ms(
            cost_of(plan.tools, groups[g].tool),
            groups[g].nodes.len(),
        ),
    decreases groups.len(),
{
    if g < groups.len() - 1 {
        assert(!groups[groups.len() - 1].nodes.contains(id));
        assert forall|h: int| 0 <= h < groups.drop_last().len() && h != g implies !(
        #[trigger] groups.drop_last()[h]).nodes.contains(id) by {
            assert(groups.drop_last()[h] == groups[h]);
        }
        batched_nodes_cost_their_batch(plan, groups.drop_last(), g, id);
    }
}

/// A chain gains nothing: where every layer holds one node and nothing is
/// batched, the compiled estimate is the serial one.
pub proof fn chains_cost_as_much_as_serial_calls(
    plan: PlanV,
    layers: Seq<Seq<Seq<char>>>,
)
    requires
        distinct_ids(plan.nodes),
        layers.len() == plan.nodes.len(),
        forall|i: int| 0 <= i < layers.len() ==> #[trigger] layers[i] == seq![plan.nodes[i].id],
    ensures
        compiled_ms(plan, Seq::empty(), layers) == serial_ms(plan.tools, node_tools(plan.nodes)),
{
    lemma_chain(plan, layers, layers.len() as int);
    assert(layers.take(layers.len() as int) =~= layers);
    assert(node_tools(plan.nodes).take(layers.len() as int) =~= node_tools(plan.nodes));
}

proof fn lemma_chain(plan: PlanV, layers: Seq<Seq<Seq<char>>>, k: int)
    requires
        distinct_ids(plan.nodes),
        layers.len() == plan.nodes.len(),
        forall|i: int| 0 <= i < layers.len() ==> #[trigger] layers[i] == seq![plan.nodes[i].id],
        0 <= k <= layers.len(),
    ensures
        compiled_ms(plan, Seq::empty(), layers.take(k)) == serial_ms(
            plan.tools,
            node_tools(plan.nodes).take(k),
        ),
    decreases k,
{
    if k > 0 {
        lemma_chain(plan, layers, k - 1);
        let t = node_tools(plan.nodes);
        assert(layers.take(k).drop_last() =~= layers.take(k - 1));
        assert(t.take(k).drop_last() =~= t.take(k - 1));
        assert(layers.take(k).last() == layers[k - 1]);
        unbatched_nodes_cost_one_call(plan, Seq::empty(), k - 1);
        layers_cost_their_slowest_node(plan, Seq::empty(), layers[k - 1]);
        let one = layers[k - 1];
        let x = choose|x: int|
            0 <= x < one.len() && node_ms(plan, Seq::empty(), #[trigger] one[x]) == compiled_ms(
                plan,
                Seq::empty(),
                seq![one],
            );
        assert(one[x] == plan.nodes[k - 1].id);
    }
}

/// Running at once costs no more than calling the nodes of all layers in
/// turn.
pub proof fn layers_never_cost_more_than_their_nodes(
    plan: PlanV,
    groups: Seq<BatchV>,
    layers: Seq<Seq<Seq<char>>>,
)
    ensures
        compiled_ms(plan, groups, layers) <= nodes_ms(
            plan,
            groups,
            flattened(layers, layers.len() as int),
        ),
    decreases layers.len(),
{
    if layers.len() > 0 {
        let rest = layers.drop_last();
        layers_never_cost_more_than_their_nodes(plan, groups, rest);
        lemma_flattened_prefix(layers, rest.len() as int);
        let before = flattened(rest, rest.len() as int);
        lemma_nodes_add_up(plan, groups, before, layers.last());
        lemma_layer_below_sum(plan, groups, layers.last());
    }
}

/// The dispatches of the nodes one after the other.
pub open spec fn nodes_ms(plan: PlanV, groups: Seq<BatchV>, ids: Seq<Seq<char>>) -> nat
    decreases ids.len(),
{
    if ids.len() == 0 {
        0
    } else {
        nodes_ms(plan, groups, ids.drop_last()) + node_ms(plan, groups, ids.last()) as nat
    }
}

proof fn lemma_nodes_add_up(plan: PlanV, groups: Seq<BatchV>, a: Seq<Seq<char>>, b: Seq<Seq<char>>)
    ensures
        nodes_ms(plan, groups, a + b) == nodes_ms(plan, groups, a) + nodes_ms(plan, groups, b),
    decreases b.len(),
{
    if b.len() == 0 {
        assert(a + b =~= a);
    } else {
        lemma_nodes_add_up(plan, groups, a, b.drop_last());
        assert((a + b).drop_last() =~= a + b.drop_last());
    }
}

proof fn lemma_layer_below_sum(plan: PlanV, groups: Seq<BatchV>, layer: Seq<Seq<char>>)
    ensures
        layer_ms(plan, groups, layer) <= nodes_ms(plan, groups, layer),
    decreases layer.len(),
{
    if layer.len() > 0 {
        lemma_layer_below_sum(plan, groups, layer.drop_last());
    }
}

proof fn lemma_flattened_prefix(layers: Seq<Seq<Seq<char>>>, k: int)
    requires
        0 <= k < layers.len(),
    ensures
        flattened(layers, k) == flattened(layers.drop_last(), k),
    decreases k,
{
    if k > 0 {
        lemma_flattened_prefix(layers, k - 1);
    }
}

/// Every batch turns its calls into one: dispatches and saved calls add up to
/// the number of nodes.
pub proof fn batches_save_calls(nodes: nat, groups: Seq<BatchV>)
    requires
        batched_nodes(groups) <= nodes,
        nodes <= usize::MAX,
        forall|g: int| 0 <= g < groups.len() ==> (#[trigger] groups[g]).nodes.len() >= 1,
    ensures
        calls_after(nodes, groups) + batched_nodes(groups) == nodes + groups.len(),
        calls_after(nodes, groups) <= nodes,
        groups.len() == 0 ==> calls_after(nodes, groups) == nodes,
{
    lemma_groups_are_few(groups);
}

/// The members of batches are counted batch by batch.
pub proof fn batched_nodes_add_up(a: Seq<BatchV>, b: Seq<BatchV>)
    ensures
        batched_nodes(a + b) == batched_nodes(a) + batched_nodes(b),
        b.len() == 1 ==> batched_nodes(b) == b[0].nodes.len(),
    decreases b.len(),
{
    if b.len() == 0 {
        assert(a + b =~= a);
    } else {
        batched_nodes_add_up(a, b.drop_last());
        assert((a + b).drop_last() =~= a + b.drop_last());
        assert((a + b).last() == b.last());
    }
}

proof fn lemma_groups_are_few(groups: Seq<BatchV>)
    requires
        forall|g: int| 0 <= g < groups.len() ==> (#[trigger] groups[g]).nodes.len() >= 1,
    ensures
        groups.len() <= batched_nodes(groups),
    decreases groups.len(),
{
    if groups.len() > 0 {
        assert(groups[groups.len() - 1].nodes.len() >= 1);
        assert forall|g: int| 0 <= g < groups.drop_last().len() implies (
        #[trigger] groups.drop_last()[g]).nodes.len() >= 1 by {
            assert(groups.drop_last()[g] == groups[g]);
        }
        lemma_groups_are_few(groups.drop_last());
    }
}

/// The report: estimates in time and tokens are given exactly where some tool
/// declares a cost. They take the calls as they were written for the serial
/// side, and the layers for the compiled one; any split of the layers adds up.
pub proof fn summaries_add_up(
    original: Seq<Seq<char>>,
    plan: PlanV,
    a: Seq<Seq<Seq<char>>>,
    b: Seq<Seq<Seq<char>>>,
    groups: Seq<BatchV>,
    i: int,
)
    requires
        0 <= i < plan.tools.len(),
        plan.tools[i].1.cost is Some,
        compiled_ms(plan, groups, a) + compiled_ms(plan, groups, b) <= u64::MAX,
        original.len() <= usize::MAX,
    ensures
        ({
            let both = summary_of(original, plan, a + b, groups);
            let first = summary_of(original, plan, a, groups);
            let second = summary_of(original, plan, b, groups);
            &&& both.estimated_compiled_ms is Some
            &&& first.estimated_compiled_ms is Some
            &&& second.estimated_compiled_ms is Some
            &&& both.estimated_compiled_ms->0 == first.estimated_compiled_ms->0
                + second.estimated_compiled_ms->0
            &&& both.estimated_tool_calls_before == original.len()
            &&& both.estimated_llm_turns_before == original.len()
            &&& both.estimated_llm_turns_after <= 1
            &&& both.estimated_llm_turns_after == 0 <==> original.len() == 0
            &&& both.estimated_serial_ms is Some
            &&& serial_ms(plan.tools, original) <= u64::MAX ==> both.estimated_serial_ms->0
                == serial_ms(plan.tools, original)
            &&& serial_ms(plan.tools, original) > u64::MAX ==> both.estimated_serial_ms->0
                == u64::MAX
            &&& both.estimated_tokens_before is Some
            &&& total_tokens(plan.tools, original) <= u64::MAX ==> both.estimated_tokens_before->0
                == total_tokens(plan.tools, original)
            &&& both.estimated_tokens_after is Some
            &&& total_tokens(plan.tools, node_tools(plan.nodes)) <= u64::MAX
                ==> both.estimated_tokens_after->0 == total_tokens(
                plan.tools,
                node_tools(plan.nodes),
            )
        }),
{
    layers_add_up(plan, groups, a, b);
}

/// Without declared costs there is no estimate in time or tokens.
pub proof fn undeclared_plans_have_no_estimates(
    original: Seq<Seq<char>>,
    plan: PlanV,
    layers: Seq<Seq<Seq<char>>>,
    groups: Seq<BatchV>,
)
    requires
        forall|i: int| 0 <= i < plan.tools.len() ==> (#[trigger] plan.tools[i]).1.cost is None,
    ensures
        summary_of(original, plan, layers, groups).estimated_serial_ms is None,
        summary_of(original, plan, layers, groups).estimated_compiled_ms is None,
        summary_of(original, plan, layers, groups).estimated_tokens_before is None,
        summary_of(original, plan, layers, groups).estimated_tokens_after is None,
{
}

} // verus!
