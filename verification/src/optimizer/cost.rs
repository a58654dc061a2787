//! Cost estimation from declared cost metadata.

use vstd::prelude::*;

use crate::graph::validate::ExecutionGraph;
use crate::optimizer::batch::{index_by_id, BatchV};
use crate::optimizer::report::{BatchGroup, OptimizationSummary};
use crate::ordered::StrMap;
use crate::plan::{Node, NodeV, Plan, PlanV, ToolCost, ToolSpecV};

verus! {

use crate::graph::order::distinct_ids;
use crate::graph::validate::text_lists;
use crate::optimizer::batch::{has_node, node_named};
use crate::ordered::{lookup, pairs_view, pairs_view_lookup, views};
use crate::text::texts_view;

// ---------------------------------------------------------------------------
// Model
// ---------------------------------------------------------------------------

/// A number that does not fit is the largest one that does.
pub open spec fn clamp(n: nat) -> u64 {
    if n <= u64::MAX {
        n as u64
    } else {
        u64::MAX
    }
}

/// The cost that a tool declares.
pub open spec fn cost_of(tools: Seq<(Seq<char>, ToolSpecV)>, tool: Seq<char>) -> ToolCost {
    match lookup(tools, tool) {
        Some(t) => match t.cost {
            Some(c) => c,
            None => ToolCost { fixed_ms: None, per_call_ms: None, tokens: None },
        },
        None => ToolCost { fixed_ms: None, per_call_ms: None, tokens: None },
    }
}

/// A missing number counts as zero.
pub open spec fn or_zero(n: Option<u64>) -> u64 {
    match n {
        Some(v) => v,
        None => 0,
    }
}

/// The cost of one dispatch that carries `calls` calls.
pub open spec fn call_ms(c: ToolCost, calls: nat) -> u64 {
    clamp((or_zero(c.fixed_ms) + clamp((or_zero(c.per_call_ms) * calls) as nat)) as nat)
}

/// The tokens that the result of a call costs.
pub open spec fn tokens_of(c: ToolCost) -> nat {
    match c.tokens {
        Some(t) => t as nat,
        None => 0,
    }
}

/// The cost of calling the tools one after the other.
pub open spec fn serial_ms(tools: Seq<(Seq<char>, ToolSpecV)>, calls: Seq<Seq<char>>) -> nat
    decreases calls.len(),
{
    if calls.len() == 0 {
        0
    } else {
        serial_ms(tools, calls.drop_last()) + call_ms(cost_of(tools, calls.last()), 1) as nat
    }
}

/// The tokens that the results of the calls cost.
pub open spec fn total_tokens(tools: Seq<(Seq<char>, ToolSpecV)>, calls: Seq<Seq<char>>) -> nat
    decreases calls.len(),
{
    if calls.len() == 0 {
        0
    } else {
        total_tokens(tools, calls.drop_last()) + tokens_of(cost_of(tools, calls.last()))
    }
}

/// The cost of the batch dispatch that carries the node, if one does.
pub open spec fn batch_ms(
    tools: Seq<(Seq<char>, ToolSpecV)>,
    groups: Seq<BatchV>,
    id: Seq<char>,
) -> Option<u64>
    decreases groups.len(),
{
    if groups.len() == 0 {
        None
    } else if groups.last().nodes.contains(id) {
        Some(call_ms(cost_of(tools, groups.last().tool), groups.last().nodes.len()))
    } else {
        batch_ms(tools, groups.drop_last(), id)
    }
}

/// The cost of the dispatch that carries the node.
pub open spec fn node_ms(plan: PlanV, groups: Seq<BatchV>, id: Seq<char>) -> u64 {
    match batch_ms(plan.tools, groups, id) {
        Some(ms) => ms,
        None => if has_node(plan.nodes, id) {
            call_ms(cost_of(plan.tools, node_named(plan.nodes, id).tool), 1)
        } else {
            0
        },
    }
}

/// The cost of the slowest dispatch of a layer.
pub open spec fn layer_ms(plan: PlanV, groups: Seq<BatchV>, layer: Seq<Seq<char>>) -> u64
    decreases layer.len(),
{
    if layer.len() == 0 {
        0
    } else {
        let before = layer_ms(plan, groups, layer.drop_last());
        let last = node_ms(plan, groups, layer.last());
        if before < last {
            last
        } else {
            before
        }
    }
}

/// The cost of the layers one after the other.
pub open spec fn compiled_ms(plan: PlanV, groups: Seq<BatchV>, layers: Seq<Seq<Seq<char>>>) -> nat
    decreases layers.len(),
{
    if layers.len() == 0 {
        0
    } else {
        compiled_ms(plan, groups, layers.drop_last()) + layer_ms(
            plan,
            groups,
            layers.last(),
        ) as nat
    }
}

/// Some tool declares a cost.
pub open spec fn costs_declared(tools: Seq<(Seq<char>, ToolSpecV)>) -> bool {
    exists|i: int| 0 <= i < tools.len() && (#[trigger] tools[i]).1.cost is Some
}

/// The number of nodes in the groups.
pub open spec fn batched_nodes(groups: Seq<BatchV>) -> nat
    decreases groups.len(),
{
    if groups.len() == 0 {
        0
    } else {
        batched_nodes(groups.drop_last()) + groups.last().nodes.len()
    }
}

/// The tools of a list of nodes.
pub open spec fn node_tools(nodes: Seq<NodeV>) -> Seq<Seq<char>> {
    Seq::new(nodes.len(), |i: int| nodes[i].tool)
}

/// How many dispatches remain when the batched nodes count once per group.
pub open spec fn calls_after(nodes: nat, groups: Seq<BatchV>) -> nat {
    let single = if nodes >= batched_nodes(groups) {
        (nodes - batched_nodes(groups)) as nat
    } else {
        0
    };
    if single + groups.len() <= usize::MAX {
        single + groups.len()
    } else {
        usize::MAX as nat
    }
}

/// The estimates for a plan that made `original` calls before it was compiled.
pub open spec fn summary_of(
    original: Seq<Seq<char>>,
    plan: PlanV,
    layers: Seq<Seq<Seq<char>>>,
    groups: Seq<BatchV>,
) -> OptimizationSummary {
    let declared = costs_declared(plan.tools);
    OptimizationSummary {
        estimated_tool_calls_before: original.len() as usize,
        estimated_tool_calls_after: calls_after(plan.nodes.len(), groups) as usize,
        estimated_llm_turns_before: original.len() as usize,
        estimated_llm_turns_after: if original.len() > 0 {
            1
        } else {
            0
        },
        estimated_serial_ms: if declared {
            Some(clamp(serial_ms(plan.tools, original)))
        } else {
            None
        },
        estimated_compiled_ms: if declared {
            Some(clamp(compiled_ms(plan, groups, layers)))
        } else {
            None
        },
        estimated_tokens_before: if declared {
            Some(clamp(total_tokens(plan.tools, original)))
        } else {
            None
        },
        estimated_tokens_after: if declared {
            Some(clamp(total_tokens(plan.tools, node_tools(plan.nodes))))
        } else {
            None
        },
    }
}

// ---------------------------------------------------------------------------
// Estimation
// ---------------------------------------------------------------------------

/// The declared costs of a plan's tools.
pub struct CostModel<'a> {
    plan: &'a Plan,
}

impl<'a> CostModel<'a> {
    /// The tools whose costs are read.
    pub closed spec fn tools(&self) -> Seq<(Seq<char>, ToolSpecV)> {
        self.plan@.tools
    }

    /// The costs of the tools of `plan`.
    pub fn new(plan: &'a Plan) -> (r: Self)
        ensures
            r.tools() == plan@.tools,
    {
        CostModel { plan }
    }

    /// Whether some tool declares a cost.
    pub fn declared(&self) -> (r: bool)
        ensures
            r == costs_declared(self.tools()),
    {
        let tools = &self.plan.tools;
        let mut i: usize = 0;
        while i < tools.len()
            invariant
                i <= tools.pairs().len(),
                self.tools() == pairs_view(*tools),
                forall|j: int| 0 <= j < i ==> (#[trigger] self.tools()[j]).1.cost is None,
            decreases tools.pairs().len() - i,
        {
            if tools.value_at(i).cost.is_some() {
                assert(self.tools()[i as int].1.cost is Some);
                return true;
            }
            i = i + 1;
        }
        false
    }

    /// The cost of a tool; a tool without one costs nothing.
    pub fn cost(&self, tool: &str) -> (r: ToolCost)
        ensures
            r == cost_of(self.tools(), tool@),
    {
        let tools = &self.plan.tools;
        tools.prove_sorted();
        proof {
            pairs_view_lookup(*tools, tool@);
        }
        match tools.get(tool) {
            Some(spec) => match spec.cost {
                Some(c) => c,
                None => ToolCost::default(),
            },
            None => ToolCost::default(),
        }
    }

    /// Cost of one dispatch carrying `calls` calls of `tool`.
    pub fn call_ms(&self, tool: &str, calls: u64) -> (r: u64)
        ensures
            r == call_ms(cost_of(self.tools(), tool@), calls as nat),
    {
        let cost = self.cost(tool);
        let fixed: u64 = match cost.fixed_ms {
            Some(v) => v,
            None => 0,
        };
        let per_call: u64 = match cost.per_call_ms {
            Some(v) => v,
            None => 0,
        };
        let variable: u64 = match per_call.checked_mul(calls) {
            Some(v) => v,
            None => u64::MAX,
        };
        fixed.saturating_add(variable)
    }

    /// Tokens of one call's result.
    pub fn tokens(&self, tool: &str) -> (r: u64)
        ensures
            r == tokens_of(cost_of(self.tools(), tool@)),
    {
        match self.cost(tool).tokens {
            Some(t) => t as u64,
            None => 0,
        }
    }
}

fn sum_serial(costs: &CostModel, calls: &Vec<String>) -> (r: u64)
    ensures
        r == clamp(serial_ms(costs.tools(), texts_view(calls@))),
{
    let ghost all = texts_view(calls@);
    let mut total: u64 = 0;
    let mut i: usize = 0;
    assert(all.take(0) =~= Seq::empty());
    while i < calls.len()
        invariant
            i <= calls@.len(),
            all == texts_view(calls@),
            total == clamp(serial_ms(costs.tools(), all.take(i as int))),
        decreases calls.len() - i,
    {
        proof {
            let next = all.take(i + 1);
            assert(next.drop_last() =~= all.take(i as int));
            assert(next.last() == calls@[i as int]@);
        }
        total = total.saturating_add(costs.call_ms(calls[i].as_str(), 1));
        i = i + 1;
    }
    assert(all.take(i as int) =~= all);
    total
}

fn sum_tokens(costs: &CostModel, calls: &Vec<String>) -> (r: u64)
    ensures
        r == clamp(total_tokens(costs.tools(), texts_view(calls@))),
{
    let ghost all = texts_view(calls@);
    let mut total: u64 = 0;
    let mut i: usize = 0;
    assert(all.take(0) =~= Seq::empty());
    while i < calls.len()
        invariant
            i <= calls@.len(),
            all == texts_view(calls@),
            total == clamp(total_tokens(costs.tools(), all.take(i as int))),
        decreases calls.len() - i,
    {
        proof {
            let next = all.take(i + 1);
            assert(next.drop_last() =~= all.take(i as int));
            assert(next.last() == calls@[i as int]@);
        }
        total = total.saturating_add(costs.tokens(calls[i].as_str()));
        i = i + 1;
    }
    assert(all.take(i as int) =~= all);
    total
}

/// The tools of a list of nodes.
pub fn tools_of(nodes: &Vec<Node>) -> (r: Vec<String>)
    ensures
        texts_view(r@) == node_tools(views(nodes@)),
        r@.len() == nodes@.len(),
{
    let mut out: Vec<String> = Vec::new();
    let mut i: usize = 0;
    while i < nodes.len()
        invariant
            i <= nodes@.len(),
            out@.len() == i,
            forall|j: int| 0 <= j < i ==> (#[trigger] out@[j])@ == nodes@[j]@.tool,
        decreases nodes.len() - i,
    {
        out.push(nodes[i].tool.clone());
        i = i + 1;
    }
    assert(texts_view(out@) =~= node_tools(views(nodes@)));
    out
}

/// The table of batch costs by node.
fn batch_table(costs: &CostModel, groups: &Vec<BatchGroup>) -> (r: StrMap<u64>)
    ensures
        forall|id: Seq<char>| #[trigger]
            lookup(r.pairs(), id) == batch_ms(costs.tools(), views(groups@), id),
{
    let ghost all = views(groups@);
    let mut out: StrMap<u64> = StrMap::new();
    let mut g: usize = 0;
    assert(all.take(0) =~= Seq::empty());
    while g < groups.len()
        invariant
            g <= groups@.len(),
            all == views(groups@),
            forall|id: Seq<char>| #[trigger]
                lookup(out.pairs(), id) == batch_ms(costs.tools(), all.take(g as int), id),
        decreases groups.len() - g,
    {
        let group = &groups[g];
        let dispatch = costs.call_ms(group.tool.as_str(), group.nodes.len() as u64);
        let ghost before = out.pairs();
        let ghost members = texts_view(group.nodes@);
        let mut i: usize = 0;
        assert(members.take(0) =~= Seq::empty());
        while i < group.nodes.len()
            invariant
                i <= group.nodes@.len(),
                members == texts_view(group.nodes@),
                forall|id: Seq<char>| #[trigger]
                    lookup(out.pairs(), id) == if members.take(i as int).contains(id) {
                        Some(dispatch)
                    } else {
                        lookup(before, id)
                    },
            decreases group.nodes.len() - i,
        {
            let ghost now = out.pairs();
            out.insert(group.nodes[i].clone(), dispatch);
            proof {
                let seen = members.take(i as int);
                let next = members.take(i + 1);
                let x = group.nodes@[i as int]@;
                assert(next =~= seen.push(x));
                assert forall|id: Seq<char>| #[trigger] lookup(out.pairs(), id)
                    == if next.contains(id) {
                    Some(dispatch)
                } else {
                    lookup(before, id)
                } by {
                    assert(lookup(now, id) == if seen.contains(id) {
                        Some(dispatch)
                    } else {
                        lookup(before, id)
                    });
                    if seen.contains(id) {
                        let p = choose|p: int| 0 <= p < seen.len() && seen[p] == id;
                        assert(next[p] == id);
                    }
                    assert(next[i as int] == x);
                }
            }
            i = i + 1;
        }
        proof {
            assert(members.take(i as int) =~= members);
            let next = all.take(g + 1);
            assert(next.drop_last() =~= all.take(g as int));
            assert(next.last() == group@);
            assert forall|id: Seq<char>| #[trigger] lookup(out.pairs(), id) == batch_ms(
                costs.tools(),
                next,
                id,
            ) by {
                assert(lookup(before, id) == batch_ms(costs.tools(), all.take(g as int), id));
            }
        }
        g = g + 1;
    }
    assert(all.take(g as int) =~= all);
    out
}

/// Layered estimate: each layer costs its slowest dispatch (assumes the
/// runtime can run a whole layer concurrently), and layers add up.
fn sum_compiled(
    costs: &CostModel,
    plan: &Plan,
    graph: &ExecutionGraph,
    groups: &Vec<BatchGroup>,
) -> (r: u64)
    requires
        distinct_ids(plan@.nodes),
        costs.tools() == plan@.tools,
    ensures
        r == clamp(compiled_ms(plan@, views(groups@), graph@.layers)),
{
    let ghost gs = views(groups@);
    let table = batch_table(costs, groups);
    let index = index_by_id(&plan.nodes);
    let layers = graph.layers();
    let ghost all = graph@.layers;
    let mut total: u64 = 0;
    let mut k: usize = 0;
    assert(all.take(0) =~= Seq::empty());
    while k < layers.len()
        invariant
            k <= layers@.len(),
            all == text_lists(layers@),
            gs == views(groups@),
            costs.tools() == plan@.tools,
            forall|id: Seq<char>| #[trigger]
                lookup(table.pairs(), id) == batch_ms(plan@.tools, gs, id),
            forall|id: Seq<char>| #[trigger]
                index@.dom().contains(id) <==> has_node(plan@.nodes, id),
            forall|id: Seq<char>| #[trigger]
                index@.dom().contains(id) ==> index@[id] < plan.nodes@.len()
                    && plan.nodes@[index@[id] as int]@ == node_named(plan@.nodes, id)
                    && plan.nodes@[index@[id] as int]@.id == id,
            total == clamp(compiled_ms(plan@, gs, all.take(k as int))),
        decreases layers.len() - k,
    {
        let layer = &layers[k];
        let ghost ids = texts_view(layer@);
        let mut slowest: u64 = 0;
        let mut x: usize = 0;
        assert(ids.take(0) =~= Seq::empty());
        while x < layer.len()
            invariant
                x <= layer@.len(),
                ids == texts_view(layer@),
                costs.tools() == plan@.tools,
                forall|id: Seq<char>| #[trigger]
                    lookup(table.pairs(), id) == batch_ms(plan@.tools, gs, id),
                forall|id: Seq<char>| #[trigger]
                    index@.dom().contains(id) <==> has_node(plan@.nodes, id),
                forall|id: Seq<char>| #[trigger]
                    index@.dom().contains(id) ==> index@[id] < plan.nodes@.len()
                        && plan.nodes@[index@[id] as int]@ == node_named(plan@.nodes, id)
                        && plan.nodes@[index@[id] as int]@.id == id,
                slowest == layer_ms(plan@, gs, ids.take(x as int)),
            decreases layer.len() - x,
        {
            let id = layer[x].as_str();
            proof {
                let next = ids.take(x + 1);
                assert(next.drop_last() =~= ids.take(x as int));
                assert(next.last() == id@);
                assert(lookup(table.pairs(), id@) == batch_ms(plan@.tools, gs, id@));
            }
            let ms: u64 = match table.get(id) {
                Some(ms) => *ms,
                None => match index.get(id) {
                    Some(at) => {
                        assert(index@.dom().contains(id@));
                        costs.call_ms(plan.nodes[*at].tool.as_str(), 1)
                    },
                    None => {
                        assert(!has_node(plan@.nodes, id@));
                        0
                    },
                },
            };
            assert(ms == node_ms(plan@, gs, id@));
            if slowest < ms {
                slowest = ms;
            }
            x = x + 1;
        }
        assert(ids.take(x as int) =~= ids);
        proof {
            let next = all.take(k + 1);
            assert(next.drop_last() =~= all.take(k as int));
            assert(next.last() == ids);
        }
        total = total.saturating_add(slowest);
        k = k + 1;
    }
    assert(all.take(k as int) =~= all);
    total
}

fn count_batched(groups: &Vec<BatchGroup>) -> (r: usize)
    ensures
        r == if batched_nodes(views(groups@)) <= usize::MAX {
            batched_nodes(views(groups@))
        } else {
            usize::MAX as nat
        },
{
    let ghost all = views(groups@);
    let mut total: usize = 0;
    let mut i: usize = 0;
    assert(all.take(0) =~= Seq::empty());
    while i < groups.len()
        invariant
            i <= groups@.len(),
            all == views(groups@),
            total == if batched_nodes(all.take(i as int)) <= usize::MAX {
                batched_nodes(all.take(i as int))
            } else {
                usize::MAX as nat
            },
        decreases groups.len() - i,
    {
        proof {
            let next = all.take(i + 1);
            assert(next.drop_last() =~= all.take(i as int));
            assert(next.last() == groups@[i as int]@);
            assert(next.last().nodes.len() == groups@[i as int].nodes@.len());
        }
        total = total.saturating_add(groups[i].nodes.len());
        i = i + 1;
    }
    assert(all.take(i as int) =~= all);
    total
}

/// Aggregate estimates before and after compilation; sums that do not fit in
/// 64 bits saturate.
pub fn summarize(
    original: &Vec<String>,
    plan: &Plan,
    graph: &ExecutionGraph,
    groups: &Vec<BatchGroup>,
) -> (r: OptimizationSummary)
    requires
        distinct_ids(plan@.nodes),
    ensures
        r == summary_of(texts_view(original@), plan@, graph@.layers, views(groups@)),
{
    let batched: usize = count_batched(groups);
    let after: usize = plan.nodes.len().saturating_sub(batched).saturating_add(groups.len());
    let costs = CostModel::new(plan);
    proof {
        assert(texts_view(original@).len() == original@.len());
        assert(plan@.nodes.len() == plan.nodes@.len());
        assert(views(groups@).len() == groups@.len());
    }
    let (serial, compiled, tokens_before, tokens_after) = if costs.declared() {
        let tools = tools_of(&plan.nodes);
        (
            Some(sum_serial(&costs, original)),
            Some(sum_compiled(&costs, plan, graph, groups)),
            Some(sum_tokens(&costs, original)),
            Some(sum_tokens(&costs, &tools)),
        )
    } else {
        (None, None, None, None)
    };
    OptimizationSummary {
        estimated_tool_calls_before: original.len(),
        estimated_tool_calls_after: after,
        estimated_llm_turns_before: original.len(),
        estimated_llm_turns_after: if original.len() > 0 {
            1
        } else {
            0
        },
        estimated_serial_ms: serial,
        estimated_compiled_ms: compiled,
        estimated_tokens_before: tokens_before,
        estimated_tokens_after: tokens_after,
    }
}

} // verus!
