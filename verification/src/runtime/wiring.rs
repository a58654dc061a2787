//! Making a program of a plan: units, dependency wiring, and the checks that
//! come before anything starts.

use vstd::prelude::*;

use crate::graph::resolved::{ResolvedEffects, ResolvedV};
use crate::graph::validate::{ExecutionGraph, GraphV};
use crate::json::{Json, Value};
use crate::optimizer::batch::{index_by_id, BatchV};
use crate::optimizer::report::BatchGroup;
use crate::ordered::{StrMap, StrSet};
use crate::plan::{Node, NodeV, Plan, PlanV, ToolSpecV};
use crate::refs::collect_refs;
use crate::runtime::config::RunConfig;
use crate::runtime::engine::{Program, Unit};
use crate::runtime::error::{RuntimeError, RuntimeErrorV};
use crate::runtime::locks::{LockRequest, RequestV};
use crate::runtime::model::{ProgramV, UnitV};
use crate::runtime::registry::{RegistryV, ToolRegistry};
use crate::runtime::schema::schema_error;
use crate::text::{copy_texts, same_text};

verus! {

use crate::graph::order::{distinct_ids, is_sorted_nodes, node_ids, sorted_nodes, valid_ids};
use crate::graph::rounds::ints;
use crate::graph::validate::{flattened, node_deps, referenced_nodes, text_lists};
use crate::optimizer::batch::{all_groups, groups_disjoint, groups_share_no_node, has_node, node_named};
use crate::optimizer::dce::valid_ids_distinct;
use crate::optimizer::explain::layers_wf;
use crate::optimizer::pipeline::valid_graph;
use crate::ordered::{has_key, key_position, lookup, map_view, pairs_view, pairs_view_lookup, sorted_pairs, sorted_position, views};
use crate::refs::{refs_in, refs_view};
use crate::runtime::engine::are_dependents;
use crate::runtime::locks::{demand, merged_demand, no_demand};
use crate::runtime::model::{data_deps, deps_in_range, has_unit, program_wf};
use crate::runtime::registry::capabilities_in;
use crate::runtime::schema::is_no_schema;
use crate::text::{lex_less, texts_view};

// ---------------------------------------------------------------------------
// Model
// ---------------------------------------------------------------------------

/// The estimated cost of a dispatch of the tool, for scheduling priority.
pub open spec fn unit_cost_of(tools: Seq<(Seq<char>, ToolSpecV)>, tool: Seq<char>, calls: nat) -> u64 {
    let (fixed, per_call) = match lookup(tools, tool) {
        Some(spec) => match spec.cost {
            Some(c) => (
                match c.fixed_ms {
                    Some(n) => n as nat,
                    None => 0,
                },
                match c.per_call_ms {
                    Some(n) => n as nat,
                    None => 0,
                },
            ),
            None => (0, 0),
        },
        None => (0, 0),
    };
    let cost = fixed + per_call * calls;
    if cost > u64::MAX {
        u64::MAX
    } else {
        cost as u64
    }
}

/// The demand of the first `k` nodes together.
pub open spec fn group_demand(
    effects: Map<Seq<char>, ResolvedV>,
    nodes: Seq<Seq<char>>,
    k: int,
) -> RequestV
    decreases k,
{
    if k <= 0 {
        no_demand()
    } else {
        merged_demand(group_demand(effects, nodes, k - 1), demand(effects[nodes[k - 1]]))
    }
}

/// The unit of a batch group.
pub open spec fn group_unit(plan: PlanV, effects: Map<Seq<char>, ResolvedV>, g: BatchV) -> UnitV {
    UnitV {
        members: g.nodes,
        tool: g.tool,
        adapter: g.adapter,
        batch: true,
        lock: group_demand(effects, g.nodes, g.nodes.len() as int),
        cost: unit_cost_of(plan.tools, g.tool, g.nodes.len()),
    }
}

/// The unit of a single node.
pub open spec fn node_unit(plan: PlanV, effects: Map<Seq<char>, ResolvedV>, node: NodeV) -> UnitV {
    UnitV {
        members: seq![node.id],
        tool: node.tool,
        adapter: match lookup(plan.tools, node.tool) {
            Some(spec) => spec.adapter,
            None => Seq::empty(),
        },
        batch: false,
        lock: demand(effects[node.id]),
        cost: unit_cost_of(plan.tools, node.tool, 1),
    }
}

/// The node is a member of a group.
pub open spec fn in_groups(groups: Seq<BatchV>, id: Seq<char>) -> bool {
    exists|g: int| 0 <= g < groups.len() && (#[trigger] groups[g]).nodes.contains(id)
}

/// The units of the first `k` of the nodes that are in no group.
pub open spec fn single_units(
    plan: PlanV,
    effects: Map<Seq<char>, ResolvedV>,
    groups: Seq<BatchV>,
    nodes: Seq<NodeV>,
    k: int,
) -> Seq<UnitV>
    decreases k,
{
    if k <= 0 {
        Seq::empty()
    } else {
        let before = single_units(plan, effects, groups, nodes, k - 1);
        if in_groups(groups, nodes[k - 1].id) {
            before
        } else {
            before.push(node_unit(plan, effects, nodes[k - 1]))
        }
    }
}

/// The units of the groups, in order.
pub open spec fn group_units(
    plan: PlanV,
    effects: Map<Seq<char>, ResolvedV>,
    groups: Seq<BatchV>,
) -> Seq<UnitV> {
    Seq::new(groups.len(), |i: int| group_unit(plan, effects, groups[i]))
}

/// The units of a plan: first the batch groups, then the nodes that are in
/// none, in the order of their ids.
pub open spec fn units_of(
    plan: PlanV,
    effects: Map<Seq<char>, ResolvedV>,
    groups: Seq<BatchV>,
) -> Seq<UnitV> {
    let nodes = sorted_nodes(plan.nodes);
    group_units(plan, effects, groups) + single_units(
        plan,
        effects,
        groups,
        nodes,
        nodes.len() as int,
    )
}

/// A member of unit `u` depends on a member of another unit `v`.
pub open spec fn unit_edge(units: Seq<UnitV>, deps: Map<Seq<char>, Set<Seq<char>>>, u: int, v: int) -> bool {
    &&& u != v
    &&& 0 <= v < units.len()
    &&& exists|m: Seq<char>, d: Seq<char>|
        #![trigger units[u].members.contains(m), units[v].members.contains(d)]
        units[u].members.contains(m) && units[v].members.contains(d) && deps.dom().contains(m)
            && deps[m].contains(d)
}

/// Which units each unit waits for.
pub open spec fn unit_deps_of(units: Seq<UnitV>, deps: Map<Seq<char>, Set<Seq<char>>>) -> Seq<Set<int>> {
    Seq::new(units.len(), |u: int| Set::new(|v: int| unit_edge(units, deps, u, v)))
}

/// Where the node stands last in the list.
pub open spec fn last_position(flat: Seq<Seq<char>>, id: Seq<char>) -> Option<int>
    decreases flat.len(),
{
    if flat.len() == 0 {
        None
    } else if flat.last() == id {
        Some(flat.len() - 1)
    } else {
        last_position(flat.drop_last(), id)
    }
}

/// The priority of a unit. A serial run takes the nodes in the order of the
/// layers; otherwise the most expensive unit goes first.
pub open spec fn unit_key(unit: UnitV, layers: Seq<Seq<Seq<char>>>, serial: bool) -> u64 {
    if serial {
        let at = match last_position(flattened(layers, layers.len() as int), unit.members[0]) {
            Some(i) => i,
            None => usize::MAX as int,
        };
        (u64::MAX - at) as u64
    } else {
        unit.cost
    }
}

/// What is wrong with running a plan on a registry.
pub enum StartFaultV {
    /// No executor is registered for the adapter of a tool.
    MissingAdapter { adapter: Seq<char> },
    /// The input schema of the tool is no schema.
    InvalidInputSchema { tool: Seq<char> },
}

/// The error says what is wrong. What the validator says of a schema that does
/// not compile is left open.
pub open spec fn reports(e: RuntimeErrorV, fault: StartFaultV) -> bool {
    match fault {
        StartFaultV::MissingAdapter { adapter } => e == (RuntimeErrorV::MissingAdapter { adapter }),
        StartFaultV::InvalidInputSchema { tool } => e is InvalidInputSchema
            && e->InvalidInputSchema_tool == tool,
    }
}

/// The first tool, from position `from`, whose adapter is not registered.
pub open spec fn adapter_error(
    tools: Seq<(Seq<char>, ToolSpecV)>,
    adapters: Set<Seq<char>>,
    from: int,
) -> Option<StartFaultV>
    decreases tools.len() - from,
{
    if from >= tools.len() {
        None
    } else if !adapters.contains(tools[from].1.adapter) {
        Some(StartFaultV::MissingAdapter { adapter: tools[from].1.adapter })
    } else {
        adapter_error(tools, adapters, from + 1)
    }
}

/// The input schema of a tool.
pub open spec fn tool_schema(r: RegistryV, tool: Seq<char>, spec: ToolSpecV) -> Option<Json> {
    match capabilities_in(r, spec.adapter, tool) {
        Some(c) => c.input_schema,
        None => None,
    }
}

/// The input schema of the tool is no schema.
pub open spec fn has_bad_schema(r: RegistryV, tool: Seq<char>, spec: ToolSpecV) -> bool {
    match tool_schema(r, tool, spec) {
        Some(schema) => is_no_schema(schema),
        None => false,
    }
}

/// The first tool, from position `from`, whose input schema is no schema.
pub open spec fn schemas_error(
    tools: Seq<(Seq<char>, ToolSpecV)>,
    r: RegistryV,
    from: int,
) -> Option<StartFaultV>
    decreases tools.len() - from,
{
    if from >= tools.len() {
        None
    } else if has_bad_schema(r, tools[from].0, tools[from].1) {
        Some(StartFaultV::InvalidInputSchema { tool: tools[from].0 })
    } else {
        schemas_error(tools, r, from + 1)
    }
}

/// The input schemas of the first `k` tools.
pub open spec fn schemas_of(
    tools: Seq<(Seq<char>, ToolSpecV)>,
    r: RegistryV,
    k: int,
) -> Map<Seq<char>, Json>
    decreases k,
{
    if k <= 0 {
        Map::empty()
    } else {
        let before = schemas_of(tools, r, k - 1);
        match tool_schema(r, tools[k - 1].0, tools[k - 1].1) {
            Some(schema) => before.insert(tools[k - 1].0, schema),
            None => before,
        }
    }
}

/// The tools of the plan that may not be called.
pub open spec fn blocked_in(tools: Seq<(Seq<char>, ToolSpecV)>, r: RegistryV) -> Set<Seq<char>> {
    Set::new(|t: Seq<char>| has_key(tools, t) && r.blocked.contains(t))
}

/// What is wrong with running the plan on the registry.
pub open spec fn start_error(plan: PlanV, r: RegistryV) -> Option<StartFaultV> {
    match adapter_error(plan.tools, r.adapters, 0) {
        Some(e) => Some(e),
        None => schemas_error(plan.tools, r, 0),
    }
}

/// What is wrong with running a valid plan concerns the registry.
pub proof fn starting_is_no_graph_error(e: RuntimeErrorV, fault: StartFaultV)
    requires
        reports(e, fault),
    ensures
        !(e is Graph),
{
}

/// The entries of a list as a map.
pub open spec fn as_map<T>(s: Seq<(Seq<char>, T)>) -> Map<Seq<char>, T> {
    crate::ordered::map_of(s)
}

/// The program of a plan.
pub open spec fn program_of(
    plan: PlanV,
    g: GraphV,
    groups: Seq<BatchV>,
    r: RegistryV,
    config: RunConfig,
    serial: bool,
) -> ProgramV {
    let effects = as_map(g.resolved_effects);
    let used = if serial {
        Seq::empty()
    } else {
        groups
    };
    let units = units_of(plan, effects, used);
    ProgramV {
        plan,
        effects,
        units,
        deps: unit_deps_of(units, as_map(g.dependencies)),
        keys: Seq::new(units.len(), |u: int| unit_key(units[u], g.layers, serial)),
        blocked_tools: blocked_in(plan.tools, r),
        schemas: schemas_of(plan.tools, r, plan.tools.len() as int),
        config,
        serial,
    }
}

/// The graph has the nodes of the plan and no others.
pub open spec fn graph_fits(plan: PlanV, g: GraphV) -> bool {
    &&& distinct_ids(plan.nodes)
    &&& valid_ids(plan.nodes)
    &&& plan.nodes.len() < usize::MAX
    &&& sorted_pairs(plan.tools)
    &&& is_sorted_nodes(plan.nodes, sorted_nodes(plan.nodes))
    &&& sorted_pairs(g.resolved_effects)
    &&& sorted_pairs(g.dependencies)
    &&& forall|id: Seq<char>| #[trigger] has_key(g.resolved_effects, id) <==> has_node(plan.nodes, id)
    &&& forall|id: Seq<char>| #[trigger] has_key(g.dependencies, id) <==> has_node(plan.nodes, id)
    &&& forall|i: int, d: Seq<char>|
        0 <= i < g.dependencies.len() && #[trigger] g.dependencies[i].1.contains(d) ==> has_node(
            plan.nodes,
            d,
        )
}

/// Every member of a group is a node of the plan, and of no other group.
pub open spec fn groups_fit(plan: PlanV, groups: Seq<BatchV>) -> bool {
    &&& forall|g: int, i: int|
        0 <= g < groups.len() && 0 <= i < groups[g].nodes.len() ==> has_node(
            plan.nodes,
            #[trigger] groups[g].nodes[i],
        )
    &&& groups_disjoint(groups)
}

/// The graph of a valid plan fits the plan.
pub proof fn valid_graphs_fit(plan: PlanV, g: GraphV)
    requires
        valid_graph(plan, g),
        distinct_ids(plan.nodes),
        is_sorted_nodes(plan.nodes, sorted_nodes(plan.nodes)),
        plan.nodes.len() < usize::MAX,
        sorted_pairs(plan.tools),
    ensures
        graph_fits(plan, g),
{
    let s = sorted_nodes(plan.nodes);
    let ids = node_ids(plan.nodes);
    valid_ids_distinct(plan.nodes);
    assert(sorted_pairs(g.dependencies)) by {
        assert forall|a: int, b: int| 0 <= a < b < g.dependencies.len() implies lex_less(
            (#[trigger] g.dependencies[a]).0,
            (#[trigger] g.dependencies[b]).0,
        ) by {
            assert(lex_less(s[a].id, s[b].id));
        }
    }
    assert(sorted_pairs(g.resolved_effects)) by {
        assert forall|a: int, b: int| 0 <= a < b < g.resolved_effects.len() implies lex_less(
            (#[trigger] g.resolved_effects[a]).0,
            (#[trigger] g.resolved_effects[b]).0,
        ) by {
            assert(lex_less(s[a].id, s[b].id));
        }
    }
    assert forall|id: Seq<char>| has_node(s, id) <==> #[trigger] has_node(plan.nodes, id) by {
        if has_node(s, id) {
            let i = choose|i: int| 0 <= i < s.len() && (#[trigger] s[i]).id == id;
            assert(s.contains(s[i]));
            let k = choose|k: int| 0 <= k < plan.nodes.len() && plan.nodes[k] == s[i];
            assert(plan.nodes[k].id == id);
        }
        if has_node(plan.nodes, id) {
            let k = choose|k: int| 0 <= k < plan.nodes.len() && (#[trigger] plan.nodes[k]).id == id;
            assert(plan.nodes.contains(plan.nodes[k]));
            assert(s.contains(plan.nodes[k]));
            let i = choose|i: int| 0 <= i < s.len() && s[i] == plan.nodes[k];
            assert(s[i].id == id);
        }
    }
    assert forall|id: Seq<char>| #[trigger] has_key(g.dependencies, id) <==> has_node(plan.nodes, id) by {
        assert(has_node(s, id) <==> has_node(plan.nodes, id));
        if has_node(s, id) {
            let i = choose|i: int| 0 <= i < s.len() && (#[trigger] s[i]).id == id;
            assert(g.dependencies[i].0 == id);
        }
        if has_key(g.dependencies, id) {
            let i = key_position(g.dependencies, id);
            assert(s[i].id == id);
        }
    }
    assert forall|id: Seq<char>| #[trigger] has_key(g.resolved_effects, id) <==> has_node(
        plan.nodes,
        id,
    ) by {
        assert(has_node(s, id) <==> has_node(plan.nodes, id));
        if has_node(s, id) {
            let i = choose|i: int| 0 <= i < s.len() && (#[trigger] s[i]).id == id;
            assert(g.resolved_effects[i].0 == id);
        }
        if has_key(g.resolved_effects, id) {
            let i = key_position(g.resolved_effects, id);
            assert(s[i].id == id);
        }
    }
    assert forall|i: int, d: Seq<char>|
        0 <= i < g.dependencies.len() && #[trigger] g.dependencies[i].1.contains(d) implies has_node(
        plan.nodes,
        d,
    ) by {
        crate::optimizer::dce::lemma_dependencies_each(ids, s, 0, i);
        crate::graph::validate::lemma_node_deps_known(ids, s[i]);
        assert(node_deps(s[i]).contains(d));
        assert(ids.contains(d));
        let k = choose|k: int| 0 <= k < plan.nodes.len() && (#[trigger] plan.nodes[k]).id == d;
        assert(plan.nodes[k].id == d);
    }
}

/// The batch groups that the optimizer finds fit the plan.
pub proof fn found_groups_fit(plan: PlanV, g: GraphV)
    requires
        sorted_pairs(plan.tools),
        layers_wf(g),
    ensures
        groups_fit(plan, all_groups(plan, g.layers, g.layers.len() as int)),
{
    groups_share_no_node(plan, g.layers, g.layers.len() as int);
}

// ---------------------------------------------------------------------------
// Units partition the nodes
// ---------------------------------------------------------------------------

/// The units behind the groups: which nodes they hold.
proof fn lemma_single_units(
    plan: PlanV,
    effects: Map<Seq<char>, ResolvedV>,
    groups: Seq<BatchV>,
    nodes: Seq<NodeV>,
    k: int,
)
    requires
        0 <= k <= nodes.len(),
        forall|a: int, b: int|
            0 <= a < b < nodes.len() ==> lex_less((#[trigger] nodes[a]).id, (#[trigger] nodes[b]).id),
    ensures
        single_units(plan, effects, groups, nodes, k).len() <= k,
        forall|u: int|
            0 <= u < single_units(plan, effects, groups, nodes, k).len() ==> is_single_of(
                groups,
                nodes,
                k,
                #[trigger] single_units(plan, effects, groups, nodes, k)[u],
            ),
        forall|u: int, v: int|
            #![trigger single_units(plan, effects, groups, nodes, k)[u], single_units(plan, effects, groups, nodes, k)[v]]
            0 <= u < v < single_units(plan, effects, groups, nodes, k).len() ==> single_units(
                plan,
                effects,
                groups,
                nodes,
                k,
            )[u].members[0] != single_units(plan, effects, groups, nodes, k)[v].members[0],
        forall|i: int|
            0 <= i < k && !in_groups(groups, (#[trigger] nodes[i]).id) ==> exists|u: int|
                0 <= u < single_units(plan, effects, groups, nodes, k).len() && (
                #[trigger] single_units(plan, effects, groups, nodes, k)[u]).members == seq![
                    nodes[i].id,
                ],
    decreases k,
{
    if k > 0 {
        lemma_single_units(plan, effects, groups, nodes, k - 1);
        let before = single_units(plan, effects, groups, nodes, k - 1);
        let after = single_units(plan, effects, groups, nodes, k);
        let x = nodes[k - 1];
        assert forall|u: int| 0 <= u < after.len() implies is_single_of(
            groups,
            nodes,
            k,
            #[trigger] after[u],
        ) by {
            if u < before.len() {
                assert(after[u] == before[u]);
                assert(is_single_of(groups, nodes, k - 1, before[u]));
                let i = choose|i: int|
                    0 <= i < k - 1 && before[u].members == seq![(#[trigger] nodes[i]).id]
                        && !in_groups(groups, nodes[i].id);
                assert(after[u].members == seq![nodes[i].id]);
            } else {
                assert(after[u].members == seq![nodes[k - 1].id]);
            }
        }
        assert forall|u: int, v: int|
            #![trigger after[u], after[v]]
            0 <= u < v < after.len() implies after[u].members[0] != after[v].members[0] by {
            assert(after[u] == before[u]);
            if v < before.len() {
                assert(after[v] == before[v]);
            } else {
                assert(is_single_of(groups, nodes, k - 1, before[u]));
                let i = choose|i: int|
                    0 <= i < k - 1 && before[u].members == seq![(#[trigger] nodes[i]).id]
                        && !in_groups(groups, nodes[i].id);
                assert(lex_less(nodes[i].id, nodes[k - 1].id));
                crate::text::lex_less_irreflexive(nodes[i].id);
            }
        }
        assert forall|i: int| 0 <= i < k && !in_groups(groups, (#[trigger] nodes[i]).id) implies exists|
            u: int,
        |
            0 <= u < after.len() && (#[trigger] after[u]).members == seq![nodes[i].id] by {
            if i < k - 1 {
                let u = choose|u: int|
                    0 <= u < before.len() && (#[trigger] before[u]).members == seq![nodes[i].id];
                assert(after[u] == before[u]);
            } else {
                assert(after[before.len() as int].members == seq![nodes[i].id]);
            }
        }
    }
}

/// The unit holds exactly one of the first `k` nodes, which is in no group.
spec fn is_single_of(groups: Seq<BatchV>, nodes: Seq<NodeV>, k: int, unit: UnitV) -> bool {
    exists|i: int|
        0 <= i < k && unit.members == seq![(#[trigger] nodes[i]).id] && !in_groups(
            groups,
            nodes[i].id,
        )
}

/// Every node belongs to exactly one unit.
pub proof fn units_partition_nodes(plan: PlanV, g: GraphV, groups: Seq<BatchV>)
    requires
        graph_fits(plan, g),
        groups_fit(plan, groups),
    ensures
        ({
            let units = units_of(plan, as_map(g.resolved_effects), groups);
            &&& forall|u: int, i: int|
                0 <= u < units.len() && 0 <= i < units[u].members.len() ==> has_node(
                    plan.nodes,
                    #[trigger] units[u].members[i],
                )
            &&& forall|u: int, i: int, v: int, j: int|
                #![trigger units[u].members[i], units[v].members[j]]
                0 <= u < units.len() && 0 <= i < units[u].members.len() && 0 <= v < units.len() && 0
                    <= j < units[v].members.len() && units[u].members[i] == units[v].members[j]
                    ==> u == v && i == j
            &&& forall|id: Seq<char>| #[trigger]
                has_node(plan.nodes, id) ==> exists|u: int|
                    0 <= u < units.len() && (#[trigger] units[u]).members.contains(id)
        }),
{
    let effects = as_map(g.resolved_effects);
    let nodes = sorted_nodes(plan.nodes);
    let front = group_units(plan, effects, groups);
    let back = single_units(plan, effects, groups, nodes, nodes.len() as int);
    let units = units_of(plan, effects, groups);
    lemma_single_units(plan, effects, groups, nodes, nodes.len() as int);
    assert forall|u: int| 0 <= u < units.len() implies #[trigger] units[u] == if u < front.len() {
        front[u]
    } else {
        back[u - front.len()]
    } by {}
    assert forall|u: int, i: int|
        0 <= u < units.len() && 0 <= i < units[u].members.len() implies has_node(
        plan.nodes,
        #[trigger] units[u].members[i],
    ) by {
        if u < front.len() {
            assert(units[u].members == groups[u].nodes);
            assert(has_node(plan.nodes, groups[u].nodes[i]));
        } else {
            let b = back[u - front.len()];
            assert(is_single_of(groups, nodes, nodes.len() as int, b));
            let x = choose|x: int|
                0 <= x < nodes.len() && b.members == seq![(#[trigger] nodes[x]).id] && !in_groups(
                    groups,
                    nodes[x].id,
                );
            assert(nodes.contains(nodes[x]));
            assert(plan.nodes.contains(nodes[x]));
            let y = choose|y: int| 0 <= y < plan.nodes.len() && plan.nodes[y] == nodes[x];
            assert(plan.nodes[y].id == units[u].members[i]);
        }
    }
    assert forall|u: int, i: int, v: int, j: int|
        #![trigger units[u].members[i], units[v].members[j]]
        0 <= u < units.len() && 0 <= i < units[u].members.len() && 0 <= v < units.len() && 0 <= j
            < units[v].members.len() && units[u].members[i] == units[v].members[j] implies u == v && i
        == j by {
        if u < front.len() && v < front.len() {
            assert(units[u].members == groups[u].nodes);
            assert(units[v].members == groups[v].nodes);
            assert(groups[u].nodes[i] == groups[v].nodes[j]);
        } else if u >= front.len() && v >= front.len() {
            let a = back[u - front.len()];
            let b = back[v - front.len()];
            assert(is_single_of(groups, nodes, nodes.len() as int, a));
            assert(is_single_of(groups, nodes, nodes.len() as int, b));
            if u < v {
                assert(back[u - front.len()].members[0] != back[v - front.len()].members[0]);
            } else if v < u {
                assert(back[v - front.len()].members[0] != back[u - front.len()].members[0]);
            }
        } else {
            let (x, k, y, m) = if u < front.len() {
                (u, i, v, j)
            } else {
                (v, j, u, i)
            };
            let b = back[y - front.len()];
            assert(is_single_of(groups, nodes, nodes.len() as int, b));
            let z = choose|z: int|
                0 <= z < nodes.len() && b.members == seq![(#[trigger] nodes[z]).id] && !in_groups(
                    groups,
                    nodes[z].id,
                );
            assert(groups[x].nodes[k] == nodes[z].id);
            assert(groups[x].nodes.contains(nodes[z].id));
            assert(in_groups(groups, nodes[z].id));
        }
    }
    assert forall|id: Seq<char>| #[trigger] has_node(plan.nodes, id) implies exists|u: int|
        0 <= u < units.len() && (#[trigger] units[u]).members.contains(id) by {
        if in_groups(groups, id) {
            let x = choose|x: int| 0 <= x < groups.len() && (#[trigger] groups[x]).nodes.contains(id);
            assert(units[x].members == groups[x].nodes);
            assert(units[x].members.contains(id));
        } else {
            let y = choose|y: int| 0 <= y < plan.nodes.len() && (#[trigger] plan.nodes[y]).id == id;
            assert(plan.nodes.contains(plan.nodes[y]));
            assert(nodes.contains(plan.nodes[y]));
            let z = choose|z: int| 0 <= z < nodes.len() && nodes[z] == plan.nodes[y];
            assert(!in_groups(groups, nodes[z].id));
            let b = choose|b: int|
                0 <= b < back.len() && (#[trigger] back[b]).members == seq![nodes[z].id];
            assert(units[front.len() + b] == back[b]);
            assert(units[front.len() + b].members[0] == id);
            assert(units[front.len() + b].members.contains(id));
        }
    }
}

// ---------------------------------------------------------------------------
// Construction
// ---------------------------------------------------------------------------

/// The estimated cost of a dispatch of the tool, for scheduling priority.
pub fn unit_cost(plan: &Plan, tool: &str, calls: u64) -> (r: u64)
    ensures
        r == unit_cost_of(plan@.tools, tool@, calls as nat),
{
    plan.tools.prove_sorted();
    proof {
        pairs_view_lookup(plan.tools, tool@);
    }
    let mut fixed: u64 = 0;
    let mut per_call: u64 = 0;
    if let Some(spec) = plan.tools.get(tool) {
        if let Some(cost) = &spec.cost {
            if let Some(n) = cost.fixed_ms {
                fixed = n;
            }
            if let Some(n) = cost.per_call_ms {
                per_call = n;
            }
        }
    }
    match per_call.checked_mul(calls) {
        Some(product) => match fixed.checked_add(product) {
            Some(sum) => sum,
            None => u64::MAX,
        },
        None => u64::MAX,
    }
}

fn node_data_deps(node: &Node) -> (r: StrSet)
    ensures
        r@ == data_deps(node@),
{
    let ghost refs = match refs_in(node@.input) {
        Ok(refs) => refs,
        Err(_) => Seq::empty(),
    };
    let ghost names = Seq::new(refs.len(), |i: int| refs[i].node);
    let mut out = StrSet::new();
    assert(names.take(0).to_set() =~= Set::empty());
    if let Ok(found) = collect_refs(&node.input) {
        let mut i: usize = 0;
        while i < found.len()
            invariant
                i <= found@.len(),
                refs == refs_view(found@),
                names == Seq::new(refs.len(), |i: int| refs[i].node),
                out@ == names.take(i as int).to_set(),
            decreases found.len() - i,
        {
            out.insert(found[i].node().to_owned());
            proof {
                lemma_take_push(names, i as int);
                assert(names[i as int] == found@[i as int]@.node);
            }
            i = i + 1;
        }
        assert(names.take(i as int) =~= names);
    } else {
        assert(names =~= Seq::empty());
    }
    assert(out@ =~= names.to_set());
    if let Some(items) = &node.for_each {
        out.insert(items.node().to_owned());
    }
    if let Some(when) = &node.when {
        out.insert(when.target.node().to_owned());
    }
    proof {
        let all = referenced_nodes(node@, refs);
        let a = match node@.for_each {
            Some(r) => seq![r.node],
            None => Seq::empty(),
        };
        let b = match node@.when {
            Some(w) => seq![w.target.node],
            None => Seq::empty(),
        };
        assert(all =~= names + a + b);
        assert forall|x: Seq<char>| #[trigger] all.to_set().contains(x) <==> out@.contains(x) by {
            if names.contains(x) {
                let i = choose|i: int| 0 <= i < names.len() && names[i] == x;
                assert(all[i] == x);
            }
            if a.len() == 1 {
                assert(all[names.len() as int] == a[0]);
            }
            if b.len() == 1 {
                assert(all[(names.len() + a.len()) as int] == b[0]);
            }
            if all.contains(x) {
                let i = choose|i: int| 0 <= i < all.len() && all[i] == x;
                if i < names.len() {
                    assert(names[i] == x);
                } else if i < names.len() + a.len() {
                    assert(a[i - names.len()] == x);
                } else {
                    assert(b[i - names.len() - a.len()] == x);
                }
            }
        }
        assert(out@ =~= all.to_set());
    }
    out
}

pub proof fn lemma_take_push(s: Seq<Seq<char>>, i: int)
    requires
        0 <= i < s.len(),
    ensures
        s.take(i + 1).to_set() == s.take(i).to_set().insert(s[i]),
{
    let a = s.take(i);
    let b = s.take(i + 1);
    assert forall|x: Seq<char>| #[trigger] b.to_set().contains(x) <==> a.to_set().insert(s[i]).contains(
        x,
    ) by {
        if a.contains(x) {
            let j = choose|j: int| 0 <= j < a.len() && a[j] == x;
            assert(b[j] == x);
        }
        assert(b[i] == s[i]);
        if b.contains(x) {
            let j = choose|j: int| 0 <= j < b.len() && b[j] == x;
            if j < i {
                assert(a[j] == x);
            }
        }
    }
    assert(b.to_set() =~= a.to_set().insert(s[i]));
}

/// Data dependencies of each node: input `$ref`s, `for_each` sources, and
/// `when` targets, the references whose failure poisons the node.
pub fn collect_data_deps(plan: &Plan) -> (r: StrMap<StrSet>)
    requires
        distinct_ids(plan@.nodes),
    ensures
        forall|id: Seq<char>| #[trigger] r@.dom().contains(id) <==> has_node(plan@.nodes, id),
        forall|id: Seq<char>| #[trigger]
            r@.dom().contains(id) ==> r@[id]@ == data_deps(node_named(plan@.nodes, id)),
{
    let ghost nodes = plan@.nodes;
    let mut out: StrMap<StrSet> = StrMap::new();
    let mut i: usize = 0;
    while i < plan.nodes.len()
        invariant
            i <= plan.nodes@.len(),
            nodes == plan@.nodes,
            nodes == views(plan.nodes@),
            distinct_ids(nodes),
            forall|id: Seq<char>| #[trigger]
                out@.dom().contains(id) <==> exists|j: int|
                    0 <= j < i && (#[trigger] nodes[j]).id == id,
            forall|id: Seq<char>| #[trigger]
                out@.dom().contains(id) ==> out@[id]@ == data_deps(node_named(nodes, id)),
        decreases plan.nodes.len() - i,
    {
        let node = &plan.nodes[i];
        assert(nodes[i as int] == node@);
        let deps = node_data_deps(node);
        let ghost before = out@;
        let ghost own = node@.id;
        out.insert(node.id.clone(), deps);
        proof {
            assert(has_node(nodes, own));
            lemma_named(nodes, i as int);
            assert forall|id: Seq<char>| #[trigger] out@.dom().contains(id) <==> exists|j: int|
                0 <= j < i + 1 && (#[trigger] nodes[j]).id == id by {
                if before.dom().contains(id) {
                    let j = choose|j: int| 0 <= j < i && (#[trigger] nodes[j]).id == id;
                    assert(nodes[j].id == id);
                }
                if exists|j: int| 0 <= j < i + 1 && (#[trigger] nodes[j]).id == id {
                    let j = choose|j: int| 0 <= j < i + 1 && (#[trigger] nodes[j]).id == id;
                    if j < i {
                        assert(before.dom().contains(id));
                    }
                }
                assert(nodes[i as int].id == own);
            }
        }
        i = i + 1;
    }
    out
}

/// The node at a position is the node of its id.
proof fn lemma_named(nodes: Seq<NodeV>, i: int)
    requires
        distinct_ids(nodes),
        0 <= i < nodes.len(),
    ensures
        has_node(nodes, nodes[i].id),
        node_named(nodes, nodes[i].id) == nodes[i],
{
    let id = nodes[i].id;
    assert(has_node(nodes, id));
    let j = choose|j: int| 0 <= j < nodes.len() && (#[trigger] nodes[j]).id == id;
    if j < i {
        assert(nodes[j].id != nodes[i].id);
    }
    if i < j {
        assert(nodes[i].id != nodes[j].id);
    }
}

fn check_adapters(plan: &Plan, registry: &ToolRegistry) -> (r: Option<RuntimeError>)
    ensures
        match (r, adapter_error(plan@.tools, registry@.adapters, 0)) {
            (Some(e), Some(m)) => reports(e@, m),
            (None, None) => true,
            _ => false,
        },
{
    let ghost tools = plan@.tools;
    let mut i: usize = 0;
    while i < plan.tools.len()
        invariant
            i <= plan.tools.pairs().len(),
            tools == pairs_view(plan.tools),
            adapter_error(tools, registry@.adapters, 0) == adapter_error(
                tools,
                registry@.adapters,
                i as int,
            ),
        decreases plan.tools.pairs().len() - i,
    {
        let spec = plan.tools.value_at(i);
        assert(tools[i as int].1 == spec@);
        if !registry.has_adapter(spec.adapter.as_str()) {
            return Some(RuntimeError::MissingAdapter { adapter: spec.adapter.clone() });
        }
        i = i + 1;
    }
    None
}

fn collect_schemas(plan: &Plan, registry: &ToolRegistry) -> (r: Result<StrMap<Value>, RuntimeError>)
    ensures
        match (r, schemas_error(plan@.tools, registry@, 0)) {
            (Ok(m), None) => map_view(m) == schemas_of(
                plan@.tools,
                registry@,
                plan@.tools.len() as int,
            ),
            (Err(e), Some(m)) => reports(e@, m),
            _ => false,
        },
{
    let ghost tools = plan@.tools;
    let ghost rv = registry@;
    let mut out: StrMap<Value> = StrMap::new();
    let mut i: usize = 0;
    assert(map_view(out) =~= Map::empty());
    while i < plan.tools.len()
        invariant
            i <= plan.tools.pairs().len(),
            tools == pairs_view(plan.tools),
            rv == registry@,
            schemas_error(tools, rv, 0) == schemas_error(tools, rv, i as int),
            map_view(out) == schemas_of(tools, rv, i as int),
        decreases plan.tools.pairs().len() - i,
    {
        let tool = plan.tools.key_at(i);
        let spec = plan.tools.value_at(i);
        assert(tools[i as int] == (tool@, spec@));
        if let Some(capabilities) = registry.capabilities_for(spec.adapter.as_str(), tool) {
            if let Some(schema) = &capabilities.input_schema {
                if let Some(message) = schema_error(schema) {
                    return Err(
                        RuntimeError::InvalidInputSchema { tool: tool.to_owned(), message },
                    );
                }
                let copy = schema.clone();
                let ghost before = out;
                let ghost kept = copy;
                out.insert(tool.to_owned(), copy);
                proof {
                    crate::ordered::map_view_insert(before, out, tool@, kept);
                }
            }
        }
        i = i + 1;
    }
    Ok(out)
}

fn collect_blocked(plan: &Plan, registry: &ToolRegistry) -> (r: StrSet)
    ensures
        r@ == blocked_in(plan@.tools, registry@),
{
    let ghost tools = plan@.tools;
    let mut out = StrSet::new();
    let mut i: usize = 0;
    while i < plan.tools.len()
        invariant
            i <= plan.tools.pairs().len(),
            tools == pairs_view(plan.tools),
            forall|t: Seq<char>| #[trigger]
                out@.contains(t) <==> registry@.blocked.contains(t) && exists|j: int|
                    0 <= j < i && (#[trigger] tools[j]).0 == t,
        decreases plan.tools.pairs().len() - i,
    {
        let tool = plan.tools.key_at(i);
        let ghost before = out@;
        assert(tools[i as int].0 == tool@);
        if registry.is_blocked(tool) {
            out.insert(tool.to_owned());
        }
        proof {
            assert forall|t: Seq<char>| #[trigger] out@.contains(t) <==> registry@.blocked.contains(t)
                && exists|j: int| 0 <= j < i + 1 && (#[trigger] tools[j]).0 == t by {
                if before.contains(t) {
                    let j = choose|j: int| 0 <= j < i && (#[trigger] tools[j]).0 == t;
                    assert(tools[j].0 == t);
                }
                if exists|j: int| 0 <= j < i + 1 && (#[trigger] tools[j]).0 == t {
                    let j = choose|j: int| 0 <= j < i + 1 && (#[trigger] tools[j]).0 == t;
                    if j < i && registry@.blocked.contains(t) {
                        assert(before.contains(t));
                    }
                }
                assert(tools[i as int].0 == tool@);
            }
        }
        i = i + 1;
    }
    assert(out@ =~= blocked_in(tools, registry@));
    out
}

fn copy_effects(effects: &StrMap<ResolvedEffects>) -> (r: StrMap<ResolvedEffects>)
    ensures
        pairs_view(r) == pairs_view(*effects),
        map_view(r) == as_map(pairs_view(*effects)),
{
    let mut out: StrMap<ResolvedEffects> = StrMap::new();
    effects.prove_sorted();
    let mut i: usize = 0;
    while i < effects.len()
        invariant
            i <= effects.pairs().len(),
            sorted_pairs(effects.pairs()),
            out.pairs().len() == i,
            forall|j: int|
                0 <= j < i ==> (#[trigger] out.pairs()[j]).0 == effects.pairs()[j].0
                    && out.pairs()[j].1@ == effects.pairs()[j].1@,
        decreases effects.pairs().len() - i,
    {
        let key = effects.key_at(i).to_owned();
        assert forall|j: int| 0 <= j < out.pairs().len() implies lex_less(
            #[trigger] out.pairs()[j].0,
            key@,
        ) by {
            assert(lex_less(effects.pairs()[j].0, effects.pairs()[i as int].0));
        }
        out.push(key, effects.value_at(i).clone());
        i = i + 1;
    }
    assert(pairs_view(out) =~= pairs_view(*effects));
    out.prove_sorted();
    proof {
        lemma_map_views(out);
    }
    out
}

/// The two ways to see a map of values agree.
pub proof fn lemma_map_views<T: View>(m: StrMap<T>)
    requires
        sorted_pairs(m.pairs()),
    ensures
        map_view(m) == as_map(pairs_view(m)),
{
    let a = map_view(m);
    let b = as_map(pairs_view(m));
    assert forall|k: Seq<char>| #[trigger] a.dom().contains(k) <==> b.dom().contains(k) by {
        pairs_view_lookup(m, k);
    }
    assert forall|k: Seq<char>| a.dom().contains(k) implies #[trigger] a[k] == b[k] by {
        pairs_view_lookup(m, k);
        assert(lookup(m.pairs(), k) is Some);
    }
    assert(a =~= b);
}

/// The nodes by position of their id in the index, in order.
pub proof fn lemma_index_sorted(nodes: Seq<Node>, index: StrMap<usize>)
    requires
        distinct_ids(views(nodes)),
        sorted_pairs(index.pairs()),
        forall|id: Seq<char>| #[trigger] index@.dom().contains(id) <==> has_node(views(nodes), id),
        forall|id: Seq<char>| #[trigger]
            index@.dom().contains(id) ==> index@[id] < nodes.len() && nodes[index@[id] as int]@.id
                == id,
    ensures
        index.pairs().len() == nodes.len(),
        forall|i: int|
            0 <= i < index.pairs().len() ==> (#[trigger] index.pairs()[i]).1 < nodes.len()
                && nodes[index.pairs()[i].1 as int]@.id == index.pairs()[i].0,
        sorted_nodes(views(nodes)) == Seq::new(
            index.pairs().len(),
            |i: int| nodes[index.pairs()[i].1 as int]@,
        ),
{
    let vs = views(nodes);
    let ps = index.pairs();
    let keys = Seq::new(ps.len(), |i: int| ps[i].0);
    let ids = Seq::new(vs.len(), |i: int| vs[i].id);
    assert forall|i: int| 0 <= i < ps.len() implies (#[trigger] ps[i]).1 < nodes.len()
        && nodes[ps[i].1 as int]@.id == ps[i].0 by {
        sorted_position(ps, i);
        assert(index@.dom().contains(ps[i].0));
        assert(index@[ps[i].0] == ps[i].1);
    }
    assert(keys.no_duplicates()) by {
        assert forall|i: int, j: int| 0 <= i < keys.len() && 0 <= j < keys.len() && i != j implies keys[i]
            != keys[j] by {
            crate::text::lex_less_irreflexive(keys[i]);
            if i < j {
                assert(lex_less(ps[i].0, ps[j].0));
            } else {
                assert(lex_less(ps[j].0, ps[i].0));
            }
        }
    }
    assert(ids.no_duplicates()) by {
        assert forall|i: int, j: int| 0 <= i < ids.len() && 0 <= j < ids.len() && i != j implies ids[i]
            != ids[j] by {
            if i < j {
                assert(vs[i].id != vs[j].id);
            } else {
                assert(vs[j].id != vs[i].id);
            }
        }
    }
    assert(keys.to_set() =~= ids.to_set()) by {
        assert forall|id: Seq<char>| #[trigger] keys.to_set().contains(id) <==> ids.to_set().contains(
            id,
        ) by {
            if keys.contains(id) {
                let i = choose|i: int| 0 <= i < keys.len() && keys[i] == id;
                assert(ps[i].0 == id);
                assert(has_key(ps, id));
                assert(index@.dom().contains(id));
                let j = choose|j: int| 0 <= j < vs.len() && (#[trigger] vs[j]).id == id;
                assert(ids[j] == id);
            }
            if ids.contains(id) {
                let j = choose|j: int| 0 <= j < ids.len() && ids[j] == id;
                assert(vs[j].id == id);
                assert(has_node(vs, id));
                assert(index@.dom().contains(id));
                assert(has_key(ps, id));
                let i = key_position(ps, id);
                assert(keys[i] == id);
            }
        }
    }
    keys.unique_seq_to_set();
    ids.unique_seq_to_set();
    let s = Seq::new(ps.len(), |i: int| nodes[ps[i].1 as int]@);
    assert(is_sorted_nodes(vs, s)) by {
        assert forall|a: int, b: int| 0 <= a < b < s.len() implies lex_less(
            (#[trigger] s[a]).id,
            (#[trigger] s[b]).id,
        ) by {
            assert(lex_less(ps[a].0, ps[b].0));
        }
        assert forall|x: NodeV| #[trigger] s.contains(x) <==> vs.contains(x) by {
            if s.contains(x) {
                let i = choose|i: int| 0 <= i < s.len() && s[i] == x;
                assert(vs[ps[i].1 as int] == x);
            }
            if vs.contains(x) {
                let j = choose|j: int| 0 <= j < vs.len() && vs[j] == x;
                assert(ids[j] == x.id);
                assert(ids.to_set().contains(x.id));
                assert(keys.to_set().contains(x.id));
                let i = choose|i: int| 0 <= i < keys.len() && keys[i] == x.id;
                let k = ps[i].1 as int;
                assert(vs[k].id == x.id);
                assert(ids[k] == ids[j]);
                assert(s[i] == x);
            }
        }
    }
    crate::graph::order::sorted_nodes_unique(vs, s);
}

fn group_lock(effects: &StrMap<ResolvedEffects>, nodes: &Vec<String>) -> (r: LockRequest)
    requires
        forall|i: int|
            0 <= i < nodes@.len() ==> effects@.dom().contains((#[trigger] nodes@[i])@),
    ensures
        r@ == group_demand(map_view(*effects), texts_view(nodes@), nodes@.len() as int),
{
    let ghost names = texts_view(nodes@);
    let ghost ev = map_view(*effects);
    let mut lock = LockRequest::new();
    let mut i: usize = 0;
    while i < nodes.len()
        invariant
            i <= nodes@.len(),
            names == texts_view(nodes@),
            ev == map_view(*effects),
            forall|i: int|
                0 <= i < nodes@.len() ==> effects@.dom().contains((#[trigger] nodes@[i])@),
            lock@ == group_demand(ev, names, i as int),
        decreases nodes.len() - i,
    {
        assert(names[i as int] == nodes@[i as int]@);
        if let Some(e) = effects.get(nodes[i].as_str()) {
            lock.merge(&LockRequest::for_effects(e));
        }
        i = i + 1;
    }
    lock
}

fn is_grouped(groups: &Vec<BatchGroup>, id: &str) -> (r: bool)
    ensures
        r == in_groups(views(groups@), id@),
{
    let mut g: usize = 0;
    while g < groups.len()
        invariant
            g <= groups@.len(),
            forall|h: int| 0 <= h < g ==> !(#[trigger] views(groups@)[h]).nodes.contains(id@),
        decreases groups.len() - g,
    {
        let nodes = &groups[g].nodes;
        let ghost names = views(groups@)[g as int].nodes;
        assert(names == texts_view(nodes@));
        let mut i: usize = 0;
        while i < nodes.len()
            invariant
                i <= nodes@.len(),
                g < groups@.len(),
                names == views(groups@)[g as int].nodes,
                names == texts_view(nodes@),
                forall|j: int| 0 <= j < i ==> names[j] != id@,
            decreases nodes.len() - i,
        {
            assert(names[i as int] == nodes@[i as int]@);
            if same_text(nodes[i].as_str(), id) {
                assert(names.contains(id@));
                return true;
            }
            i = i + 1;
        }
        g = g + 1;
    }
    false
}

fn make_units(
    plan: &Plan,
    index: &StrMap<usize>,
    effects: &StrMap<ResolvedEffects>,
    groups: &Vec<BatchGroup>,
) -> (r: Vec<Unit>)
    requires
        distinct_ids(plan@.nodes),
        groups_fit(plan@, views(groups@)),
        forall|id: Seq<char>| #[trigger] effects@.dom().contains(id) <==> has_node(plan@.nodes, id),
        forall|id: Seq<char>| #[trigger] index@.dom().contains(id) <==> has_node(plan@.nodes, id),
        forall|id: Seq<char>| #[trigger]
            index@.dom().contains(id) ==> index@[id] < plan.nodes@.len()
                && plan.nodes@[index@[id] as int]@.id == id,
    ensures
        views(r@) == units_of(plan@, map_view(*effects), views(groups@)),
{
    let ghost pv = plan@;
    let ghost ev = map_view(*effects);
    let ghost gs = views(groups@);
    let mut units: Vec<Unit> = Vec::new();
    let mut g: usize = 0;
    while g < groups.len()
        invariant
            g <= groups@.len(),
            pv == plan@,
            ev == map_view(*effects),
            gs == views(groups@),
            groups_fit(pv, gs),
            forall|id: Seq<char>| #[trigger]
                effects@.dom().contains(id) <==> has_node(pv.nodes, id),
            units@.len() == g,
            forall|h: int| 0 <= h < g ==> (#[trigger] units@[h])@ == group_unit(pv, ev, gs[h]),
        decreases groups.len() - g,
    {
        let group = &groups[g];
        assert(gs[g as int] == group@);
        assert forall|i: int| 0 <= i < group.nodes@.len() implies effects@.dom().contains(
            (#[trigger] group.nodes@[i])@,
        ) by {
            assert(gs[g as int].nodes[i] == group.nodes@[i]@);
            assert(has_node(pv.nodes, gs[g as int].nodes[i]));
        }
        let unit = Unit {
            members: copy_texts(&group.nodes),
            tool: group.tool.clone(),
            adapter: group.adapter.clone(),
            batch: true,
            lock: group_lock(effects, &group.nodes),
            cost: unit_cost(plan, group.tool.as_str(), group.nodes.len() as u64),
        };
        assert(unit@ =~= group_unit(pv, ev, gs[g as int]));
        units.push(unit);
        g = g + 1;
    }
    assert(views(units@) =~= group_units(pv, ev, gs));
    index.prove_sorted();
    proof {
        lemma_index_sorted(plan.nodes@, *index);
    }
    let ghost nodes = sorted_nodes(pv.nodes);
    let mut i: usize = 0;
    assert(views(units@) =~= group_units(pv, ev, gs) + single_units(pv, ev, gs, nodes, 0));
    while i < index.len()
        invariant
            i <= index.pairs().len(),
            index.pairs().len() == nodes.len(),
            nodes == sorted_nodes(pv.nodes),
            nodes == Seq::new(
                index.pairs().len(),
                |i: int| plan.nodes@[index.pairs()[i].1 as int]@,
            ),
            forall|i: int|
                0 <= i < index.pairs().len() ==> (#[trigger] index.pairs()[i]).1 < plan.nodes@.len(),
            pv == plan@,
            ev == map_view(*effects),
            gs == views(groups@),
            forall|id: Seq<char>| #[trigger]
                effects@.dom().contains(id) <==> has_node(pv.nodes, id),
            views(units@) == group_units(pv, ev, gs) + single_units(pv, ev, gs, nodes, i as int),
        decreases index.pairs().len() - i,
    {
        let at: usize = *index.value_at(i);
        let node = &plan.nodes[at];
        assert(nodes[i as int] == node@);
        let ghost before = views(units@);
        if !is_grouped(groups, node.id.as_str()) {
            proof {
                assert(pv.nodes[at as int] == node@);
                assert(has_node(pv.nodes, node@.id));
                assert(effects@.dom().contains(node@.id));
            }
            plan.tools.prove_sorted();
            proof {
                pairs_view_lookup(plan.tools, node@.tool);
            }
            let adapter = match plan.tools.get(node.tool.as_str()) {
                Some(spec) => spec.adapter.clone(),
                None => String::new(),
            };
            let lock = match effects.get(node.id.as_str()) {
                Some(e) => LockRequest::for_effects(e),
                None => LockRequest::new(),
            };
            let mut members: Vec<String> = Vec::new();
            members.push(node.id.clone());
            let unit = Unit {
                members,
                tool: node.tool.clone(),
                adapter,
                batch: false,
                lock,
                cost: unit_cost(plan, node.tool.as_str(), 1),
            };
            let ghost one = unit@;
            assert(one.members =~= seq![node@.id]);
            assert(one.adapter =~= node_unit(pv, ev, node@).adapter);
            assert(one =~= node_unit(pv, ev, node@));
            units.push(unit);
            assert(views(units@) =~= before.push(one));
            assert(before.push(one) =~= group_units(pv, ev, gs) + single_units(
                pv,
                ev,
                gs,
                nodes,
                i as int,
            ).push(one));
        }
        i = i + 1;
    }
    units
}

fn index_units(units: &Vec<Unit>) -> (r: StrMap<usize>)
    requires
        forall|u: int, i: int, v: int, j: int|
            #![trigger views(units@)[u].members[i], views(units@)[v].members[j]]
            0 <= u < units@.len() && 0 <= i < views(units@)[u].members.len() && 0 <= v < units@.len() && 0
                <= j < views(units@)[v].members.len() && views(units@)[u].members[i] == views(
                units@,
            )[v].members[j] ==> u == v && i == j,
    ensures
        forall|id: Seq<char>| #[trigger]
            r@.dom().contains(id) ==> r@[id] < units@.len() && views(
                units@,
            )[r@[id] as int].members.contains(id),
        forall|u: int, id: Seq<char>|
            0 <= u < units@.len() && (#[trigger] views(units@)[u].members.contains(id))
                ==> r@.dom().contains(id) && r@[id] == u,
{
    let ghost us = views(units@);
    let mut out: StrMap<usize> = StrMap::new();
    let mut u: usize = 0;
    while u < units.len()
        invariant
            u <= units@.len(),
            us == views(units@),
            forall|a: int, i: int, b: int, j: int|
                #![trigger us[a].members[i], us[b].members[j]]
                0 <= a < us.len() && 0 <= i < us[a].members.len() && 0 <= b < us.len() && 0 <= j
                    < us[b].members.len() && us[a].members[i] == us[b].members[j] ==> a == b && i
                    == j,
            forall|id: Seq<char>| #[trigger]
                out@.dom().contains(id) ==> out@[id] < u && us[out@[id] as int].members.contains(id),
            forall|w: int, id: Seq<char>|
                0 <= w < u && (#[trigger] us[w].members.contains(id)) ==> out@.dom().contains(id)
                    && out@[id] == w,
        decreases units.len() - u,
    {
        let members = &units[u].members;
        let ghost names = us[u as int].members;
        assert(names == texts_view(members@));
        let mut i: usize = 0;
        while i < members.len()
            invariant
                u < units@.len(),
                us == views(units@),
                names == us[u as int].members,
                names == texts_view(members@),
                i <= members@.len(),
                forall|a: int, i: int, b: int, j: int|
                    #![trigger us[a].members[i], us[b].members[j]]
                    0 <= a < us.len() && 0 <= i < us[a].members.len() && 0 <= b < us.len() && 0 <= j
                        < us[b].members.len() && us[a].members[i] == us[b].members[j] ==> a == b && i
                        == j,
                forall|id: Seq<char>| #[trigger]
                    out@.dom().contains(id) ==> (out@[id] < u && us[out@[id] as int].members.contains(
                        id,
                    )) || (out@[id] == u && names.contains(id)),
                forall|w: int, id: Seq<char>|
                    0 <= w < u && (#[trigger] us[w].members.contains(id)) ==> out@.dom().contains(id)
                        && out@[id] == w,
                forall|j: int| 0 <= j < i ==> out@.dom().contains(#[trigger] names[j]) && out@[names[j]]
                    == u,
            decreases members.len() - i,
        {
            let ghost before = out@;
            let ghost own = members@[i as int]@;
            assert(names[i as int] == own);
            out.insert(members[i].clone(), u);
            proof {
                assert(names.contains(own));
                assert forall|w: int, id: Seq<char>|
                    0 <= w < u && (#[trigger] us[w].members.contains(id)) implies out@.dom().contains(
                    id,
                ) && out@[id] == w by {
                    let j = choose|j: int| 0 <= j < us[w].members.len() && us[w].members[j] == id;
                    if id == own {
                        assert(us[w].members[j] == us[u as int].members[i as int]);
                    }
                }
            }
            i = i + 1;
        }
        proof {
            assert forall|w: int, id: Seq<char>|
                0 <= w < u + 1 && (#[trigger] us[w].members.contains(id)) implies out@.dom().contains(
                id,
            ) && out@[id] == w by {
                if w == u {
                    let j = choose|j: int| 0 <= j < names.len() && names[j] == id;
                    assert(out@.dom().contains(names[j]));
                }
            }
        }
        u = u + 1;
    }
    out
}

/// Every unit other than `u` that a member of `u` depends on, each once.
fn unit_neighbours(
    u: usize,
    units: &Vec<Unit>,
    unit_of: &StrMap<usize>,
    deps: &StrMap<StrSet>,
) -> (r: Vec<usize>)
    requires
        u < units@.len(),
        forall|id: Seq<char>| #[trigger]
            unit_of@.dom().contains(id) ==> unit_of@[id] < units@.len() && views(
                units@,
            )[unit_of@[id] as int].members.contains(id),
        forall|w: int, id: Seq<char>|
            0 <= w < units@.len() && (#[trigger] views(units@)[w].members.contains(id))
                ==> unit_of@.dom().contains(id) && unit_of@[id] == w,
    ensures
        r@.no_duplicates(),
        forall|v: usize| #[trigger]
            r@.contains(v) <==> unit_edge(views(units@), map_view(*deps), u as int, v as int),
{
    let ghost us = views(units@);
    let ghost dm = map_view(*deps);
    let members = &units[u].members;
    let ghost names = us[u as int].members;
    assert(names == texts_view(members@));
    let mut out: Vec<usize> = Vec::new();
    let mut i: usize = 0;
    while i < members.len()
        invariant
            u < units@.len(),
            us == views(units@),
            dm == map_view(*deps),
            names == us[u as int].members,
            names == texts_view(members@),
            i <= members@.len(),
            forall|id: Seq<char>| #[trigger]
                unit_of@.dom().contains(id) ==> unit_of@[id] < units@.len()
                    && us[unit_of@[id] as int].members.contains(id),
            forall|w: int, id: Seq<char>|
                0 <= w < units@.len() && (#[trigger] us[w].members.contains(id))
                    ==> unit_of@.dom().contains(id) && unit_of@[id] == w,
            out@.no_duplicates(),
            forall|v: usize| #[trigger]
                out@.contains(v) ==> unit_edge(us, dm, u as int, v as int),
            forall|j: int, d: Seq<char>, v: usize|
                #![trigger names[j], us[v as int].members.contains(d)]
                0 <= j < i && dm.dom().contains(names[j]) && dm[names[j]].contains(d) && v < us.len()
                    && us[v as int].members.contains(d) && v != u ==> out@.contains(v),
        decreases members.len() - i,
    {
        let ghost own = names[i as int];
        let ghost done = out@;
        let ghost mut items: Seq<Seq<char>> = Seq::empty();
        assert(own == members@[i as int]@);
        if let Some(list) = deps.get(members[i].as_str()) {
            proof {
                items = list.items();
            }
            assert(dm.dom().contains(own) && dm[own] == list@);
            assert(names.contains(own));
            let ghost kept = out@;
            let mut k: usize = 0;
            while k < list.len()
                invariant
                    u < units@.len(),
                    us == views(units@),
                    us.len() == units@.len(),
                    k <= list.items().len(),
                    dm.dom().contains(own),
                    dm[own] == list@,
                    us[u as int].members.contains(own),
                    forall|id: Seq<char>| #[trigger]
                        unit_of@.dom().contains(id) ==> unit_of@[id] < units@.len()
                            && us[unit_of@[id] as int].members.contains(id),
                    forall|w: int, id: Seq<char>|
                        0 <= w < units@.len() && (#[trigger] us[w].members.contains(id))
                            ==> unit_of@.dom().contains(id) && unit_of@[id] == w,
                    out@.no_duplicates(),
                    forall|v: usize| #[trigger]
                        out@.contains(v) ==> unit_edge(us, dm, u as int, v as int),
                    forall|v: usize| #[trigger] kept.contains(v) ==> out@.contains(v),
                    forall|j: int, v: usize|
                        #![trigger list.items()[j], us[v as int]]
                        0 <= j < k && v < us.len() && us[v as int].members.contains(list.items()[j])
                            && v != u ==> out@.contains(v),
                decreases list.items().len() - k,
            {
                let d = list.item_at(k);
                let ghost before = out@;
                if let Some(at) = unit_of.get(d) {
                    let v: usize = *at;
                    assert(us[v as int].members.contains(d@));
                    if v != u {
                        assert(unit_edge(us, dm, u as int, v as int));
                        add_once(&mut out, v);
                    }
                }
                proof {
                    assert forall|j: int, v: usize|
                        #![trigger list.items()[j], us[v as int]]
                        0 <= j < k + 1 && v < us.len() && us[v as int].members.contains(
                            list.items()[j],
                        ) && v != u implies out@.contains(v) by {
                        if j < k {
                            assert(before.contains(v));
                        } else {
                            assert(unit_of@.dom().contains(d@) && unit_of@[d@] == v);
                        }
                    }
                }
                k = k + 1;
            }
        }
        proof {
            assert forall|j: int, d: Seq<char>, v: usize|
                #![trigger names[j], us[v as int].members.contains(d)]
                0 <= j < i + 1 && dm.dom().contains(names[j]) && dm[names[j]].contains(d) && v
                    < us.len() && us[v as int].members.contains(d) && v != u implies out@.contains(
                v,
            ) by {
                if j < i {
                    assert(done.contains(v));
                } else {
                    let k = choose|k: int| 0 <= k < items.len() && items[k] == d;
                    assert(items[k] == d);
                }
            }
        }
        i = i + 1;
    }
    proof {
        assert forall|v: usize| unit_edge(us, dm, u as int, v as int) implies #[trigger] out@.contains(
            v,
        ) by {
            let (m, d) = choose|m: Seq<char>, d: Seq<char>|
                #![trigger us[u as int].members.contains(m), us[v as int].members.contains(d)]
                us[u as int].members.contains(m) && us[v as int].members.contains(d)
                    && dm.dom().contains(m) && dm[m].contains(d);
            let j = choose|j: int| 0 <= j < names.len() && names[j] == m;
            assert(names[j] == m);
        }
    }
    out
}

/// Adds the number at the end unless it is there.
fn add_once(list: &mut Vec<usize>, v: usize)
    requires
        old(list)@.no_duplicates(),
    ensures
        final(list)@.no_duplicates(),
        forall|x: usize| #[trigger]
            final(list)@.contains(x) <==> old(list)@.contains(x) || x == v,
{
    let mut i: usize = 0;
    while i < list.len()
        invariant
            i <= list@.len(),
            list@ == old(list)@,
            list@.no_duplicates(),
            forall|j: int| 0 <= j < i ==> list@[j] != v,
        decreases list.len() - i,
    {
        if list[i] == v {
            return;
        }
        i = i + 1;
    }
    let ghost before = list@;
    list.push(v);
    proof {
        lemma_push_contains(before, v);
    }
}

proof fn lemma_push_contains(s: Seq<usize>, v: usize)
    ensures
        forall|x: usize| #[trigger] s.push(v).contains(x) <==> s.contains(x) || x == v,
{
    let t = s.push(v);
    assert forall|x: usize| #[trigger] t.contains(x) <==> s.contains(x) || x == v by {
        if s.contains(x) {
            let i = choose|i: int| 0 <= i < s.len() && s[i] == x;
            assert(t[i] == x);
        }
        assert(t[s.len() as int] == v);
        if t.contains(x) {
            let i = choose|i: int| 0 <= i < t.len() && t[i] == x;
            if i < s.len() {
                assert(s[i] == x);
            }
        }
    }
}

/// The list holds the first `k` units that wait for `v`, each once.
spec fn dependents_so_far(deps: Seq<Set<int>>, v: int, k: int, list: Seq<usize>) -> bool {
    &&& list.no_duplicates()
    &&& forall|d: usize| #[trigger] list.contains(d) <==> d < k && deps[d as int].contains(v)
}

/// How many units each unit waits for, and which wait for it.
fn wire(units: &Vec<Unit>, unit_of: &StrMap<usize>, deps: &StrMap<StrSet>) -> (r: (
    Vec<usize>,
    Vec<Vec<usize>>,
))
    requires
        forall|id: Seq<char>| #[trigger]
            unit_of@.dom().contains(id) ==> unit_of@[id] < units@.len() && views(
                units@,
            )[unit_of@[id] as int].members.contains(id),
        forall|w: int, id: Seq<char>|
            0 <= w < units@.len() && (#[trigger] views(units@)[w].members.contains(id))
                ==> unit_of@.dom().contains(id) && unit_of@[id] == w,
    ensures
        r.0@.len() == units@.len(),
        r.1@.len() == units@.len(),
        ({
            let all = unit_deps_of(views(units@), map_view(*deps));
            &&& forall|u: int| 0 <= u < units@.len() ==> (#[trigger] all[u]).finite()
            &&& forall|u: int| 0 <= u < units@.len() ==> (#[trigger] r.0@[u]) == all[u].len()
            &&& forall|u: int|
                0 <= u < units@.len() ==> are_dependents(all, u, (#[trigger] r.1@[u])@)
        }),
{
    let ghost us = views(units@);
    let ghost all = unit_deps_of(us, map_view(*deps));
    let mut waits: Vec<usize> = Vec::new();
    let mut dependents: Vec<Vec<usize>> = Vec::new();
    let mut i: usize = 0;
    while i < units.len()
        invariant
            i <= units@.len(),
            dependents@.len() == i,
            forall|v: int| 0 <= v < i ==> (#[trigger] dependents@[v])@ == Seq::<usize>::empty(),
        decreases units.len() - i,
    {
        dependents.push(Vec::new());
        i = i + 1;
    }
    proof {
        assert forall|v: int| 0 <= v < units@.len() implies dependents_so_far(
            all,
            v,
            0,
            (#[trigger] dependents@[v])@,
        ) by {
            assert forall|d: usize| #[trigger] dependents@[v]@.contains(d) implies false by {}
        }
    }
    let mut u: usize = 0;
    while u < units.len()
        invariant
            u <= units@.len(),
            us == views(units@),
            us.len() == units@.len(),
            all == unit_deps_of(us, map_view(*deps)),
            forall|id: Seq<char>| #[trigger]
                unit_of@.dom().contains(id) ==> unit_of@[id] < units@.len() && views(
                    units@,
                )[unit_of@[id] as int].members.contains(id),
            forall|w: int, id: Seq<char>|
                0 <= w < units@.len() && (#[trigger] views(units@)[w].members.contains(id))
                    ==> unit_of@.dom().contains(id) && unit_of@[id] == w,
            waits@.len() == u,
            forall|w: int| 0 <= w < u ==> (#[trigger] all[w]).finite(),
            forall|w: int| 0 <= w < u ==> (#[trigger] waits@[w]) == all[w].len(),
            dependents@.len() == units@.len(),
            forall|v: int|
                0 <= v < units@.len() ==> dependents_so_far(
                    all,
                    v,
                    u as int,
                    (#[trigger] dependents@[v])@,
                ),
        decreases units.len() - u,
    {
        let mine = unit_neighbours(u, units, unit_of, deps);
        proof {
            let set = ints(mine@).to_set();
            assert forall|v: int| #[trigger] set.contains(v) <==> all[u as int].contains(v) by {
                if set.contains(v) {
                    let k = choose|k: int| 0 <= k < ints(mine@).len() && ints(mine@)[k] == v;
                    assert(mine@.contains(mine@[k]));
                }
                if all[u as int].contains(v) {
                    assert(mine@.contains(v as usize));
                    let k = choose|k: int| 0 <= k < mine@.len() && mine@[k] == v as usize;
                    assert(ints(mine@)[k] == v);
                }
            }
            assert(set =~= all[u as int]);
            assert(ints(mine@).no_duplicates());
            ints(mine@).unique_seq_to_set();
            vstd::seq_lib::seq_to_set_is_finite(ints(mine@));
        }
        let mut k: usize = 0;
        while k < mine.len()
            invariant
                k <= mine@.len(),
                u < units@.len(),
                units@.len() <= usize::MAX,
                us.len() == units@.len(),
                all == unit_deps_of(us, map_view(*deps)),
                mine@.no_duplicates(),
                forall|v: usize| #[trigger] mine@.contains(v) <==> all[u as int].contains(v as int),
                dependents@.len() == units@.len(),
                forall|v: int|
                    0 <= v < units@.len() ==> dependents_so_far(
                        all,
                        v,
                        if mine@.take(k as int).contains(v as usize) {
                            u + 1
                        } else {
                            u as int
                        },
                        (#[trigger] dependents@[v])@,
                    ),
            decreases mine.len() - k,
        {
            let v: usize = mine[k];
            assert(mine@.contains(v));
            assert(unit_edge(us, map_view(*deps), u as int, v as int));
            let ghost before = dependents@;
            let mut list: Vec<usize> = Vec::new();
            std::mem::swap(&mut list, &mut dependents[v]);
            let ghost old_list = list@;
            list.push(u);
            proof {
                lemma_push_contains(old_list, u);
                let taken = mine@.take(k as int);
                assert(!taken.contains(v)) by {
                    if taken.contains(v) {
                        let j = choose|j: int| 0 <= j < taken.len() && taken[j] == v;
                        assert(mine@[j] == mine@[k as int]);
                    }
                }
                assert(old_list == before[v as int]@);
                assert(dependents_so_far(all, v as int, u as int, old_list));
                assert(!old_list.contains(u));
                assert(list@.no_duplicates()) by {
                    assert forall|a: int, b: int|
                        0 <= a < list@.len() && 0 <= b < list@.len() && a != b implies list@[a]
                        != list@[b] by {
                        if a < old_list.len() && b < old_list.len() {
                            assert(old_list[a] != old_list[b]);
                        } else if a < old_list.len() {
                            assert(old_list.contains(old_list[a]));
                        } else {
                            assert(old_list.contains(old_list[b]));
                        }
                    }
                }
                assert(dependents_so_far(all, v as int, u + 1, list@));
            }
            let ghost new_list = list@;
            dependents.set(v, list);
            proof {
                let taken = mine@.take(k as int);
                let more = mine@.take(k + 1);
                assert(more =~= taken.push(v));
                lemma_push_contains(taken, v);
                assert forall|w: int| 0 <= w < units@.len() implies dependents_so_far(
                    all,
                    w,
                    if more.contains(w as usize) {
                        u + 1
                    } else {
                        u as int
                    },
                    (#[trigger] dependents@[w])@,
                ) by {
                    if w == v {
                        assert(dependents@[w]@ == new_list);
                    } else {
                        assert(dependents@[w]@ == before[w]@);
                    }
                }
            }
            k = k + 1;
        }
        proof {
            assert(mine@.take(k as int) =~= mine@);
            assert forall|v: int| 0 <= v < units@.len() implies dependents_so_far(
                all,
                v,
                u + 1,
                (#[trigger] dependents@[v])@,
            ) by {
                if !mine@.contains(v as usize) {
                    assert(!all[u as int].contains(v));
                    assert(dependents_so_far(all, v, u as int, dependents@[v]@));
                }
            }
        }
        waits.push(mine.len());
        u = u + 1;
    }
    proof {
        assert forall|v: int| 0 <= v < units@.len() implies are_dependents(
            all,
            v,
            (#[trigger] dependents@[v])@,
        ) by {
            assert(dependents_so_far(all, v, u as int, dependents@[v]@));
        }
    }
    (waits, dependents)
}

/// The layers one after the other.
fn flatten_layers(layers: &Vec<Vec<String>>) -> (r: Vec<String>)
    ensures
        texts_view(r@) == flattened(text_lists(layers@), layers@.len() as int),
{
    let ghost lists = text_lists(layers@);
    let mut out: Vec<String> = Vec::new();
    assert(texts_view(out@) =~= Seq::empty());
    let mut k: usize = 0;
    while k < layers.len()
        invariant
            k <= layers@.len(),
            lists == text_lists(layers@),
            texts_view(out@) == flattened(lists, k as int),
        decreases layers.len() - k,
    {
        let ghost before = texts_view(out@);
        let mut more = copy_texts(&layers[k]);
        let ghost added = texts_view(more@);
        assert(added == lists[k as int]);
        out.append(&mut more);
        assert(texts_view(out@) =~= before + added);
        k = k + 1;
    }
    out
}

/// Where each node stands last in the list.
fn positions(flat: &Vec<String>) -> (r: StrMap<usize>)
    ensures
        forall|id: Seq<char>| #[trigger]
            r@.dom().contains(id) <==> last_position(texts_view(flat@), id) is Some,
        forall|id: Seq<char>| #[trigger]
            r@.dom().contains(id) ==> last_position(texts_view(flat@), id) == Some(r@[id] as int),
{
    let ghost names = texts_view(flat@);
    let mut out: StrMap<usize> = StrMap::new();
    let mut i: usize = 0;
    while i < flat.len()
        invariant
            i <= flat@.len(),
            names == texts_view(flat@),
            forall|id: Seq<char>| #[trigger]
                out@.dom().contains(id) <==> last_position(names.take(i as int), id) is Some,
            forall|id: Seq<char>| #[trigger]
                out@.dom().contains(id) ==> last_position(names.take(i as int), id) == Some(
                    out@[id] as int,
                ),
        decreases flat.len() - i,
    {
        out.insert(flat[i].clone(), i);
        proof {
            let more = names.take(i + 1);
            assert(more.drop_last() =~= names.take(i as int));
            assert(more.last() == flat@[i as int]@);
        }
        i = i + 1;
    }
    assert(names.take(i as int) =~= names);
    out
}

/// The priority of each unit.
fn unit_keys(units: &Vec<Unit>, layers: &Vec<Vec<String>>, serial: bool) -> (r: Vec<u64>)
    requires
        serial ==> forall|u: int|
            0 <= u < units@.len() ==> (#[trigger] views(units@)[u]).members.len() > 0,
    ensures
        r@ == Seq::new(
            units@.len(),
            |u: int| unit_key(views(units@)[u], text_lists(layers@), serial),
        ),
{
    let ghost us = views(units@);
    let ghost lists = text_lists(layers@);
    let flat = flatten_layers(layers);
    let at = positions(&flat);
    let mut out: Vec<u64> = Vec::new();
    let mut u: usize = 0;
    while u < units.len()
        invariant
            u <= units@.len(),
            us == views(units@),
            lists == text_lists(layers@),
            serial ==> forall|u: int|
                0 <= u < units@.len() ==> (#[trigger] us[u]).members.len() > 0,
            texts_view(flat@) == flattened(lists, layers@.len() as int),
            forall|id: Seq<char>| #[trigger]
                at@.dom().contains(id) <==> last_position(texts_view(flat@), id) is Some,
            forall|id: Seq<char>| #[trigger]
                at@.dom().contains(id) ==> last_position(texts_view(flat@), id) == Some(
                    at@[id] as int,
                ),
            out@.len() == u,
            forall|w: int| 0 <= w < u ==> (#[trigger] out@[w]) == unit_key(us[w], lists, serial),
        decreases units.len() - u,
    {
        let unit = &units[u];
        assert(us[u as int] == unit@);
        if serial {
            assert(us[u as int].members.len() > 0);
            let first = unit.members[0].as_str();
            assert(first@ == us[u as int].members[0]);
            let place: usize = match at.get(first) {
                Some(p) => *p,
                None => usize::MAX,
            };
            out.push(u64::MAX - place as u64);
        } else {
            out.push(unit.cost);
        }
        u = u + 1;
    }
    assert(out@ =~= Seq::new(units@.len(), |u: int| unit_key(us[u], lists, serial)));
    out
}

impl Program {
    /// The program of a plan on the registry: its units, wired by their
    /// dependencies, or what is wrong with running it.
    pub fn assemble(
        plan: Plan,
        graph: &ExecutionGraph,
        groups: &Vec<BatchGroup>,
        registry: &ToolRegistry,
        config: RunConfig,
        serial: bool,
    ) -> (r: Result<Program, RuntimeError>)
        requires
            graph_fits(plan@, graph@),
            groups_fit(plan@, views(groups@)),
        ensures
            match (r, start_error(plan@, registry@)) {
                (Ok(p), None) => {
                    &&& p.wf()
                    &&& p@ == program_of(
                        plan@,
                        graph@,
                        views(groups@),
                        registry@,
                        config,
                        serial,
                    )
                },
                (Err(e), Some(m)) => reports(e@, m),
                _ => false,
            },
    {
        let ghost pv = plan@;
        let ghost gv = graph@;
        if let Some(e) = check_adapters(&plan, registry) {
            return Err(e);
        }
        let schemas = match collect_schemas(&plan, registry) {
            Ok(schemas) => schemas,
            Err(e) => {
                return Err(e);
            },
        };
        let node_index = index_by_id(&plan.nodes);
        let effects = copy_effects(graph.resolved_effects());
        let deps = graph.dependencies();
        deps.prove_sorted();
        let ghost em = map_view(effects);
        let ghost dm = map_view(*deps);
        proof {
            lemma_map_views(*deps);
            assert(em == as_map(gv.resolved_effects));
            assert(dm == as_map(gv.dependencies));
            assert forall|id: Seq<char>| #[trigger] effects@.dom().contains(id) <==> has_node(
                pv.nodes,
                id,
            ) by {
                assert(em.dom().contains(id) <==> has_key(gv.resolved_effects, id));
            }
        }
        let none: Vec<BatchGroup> = Vec::new();
        let used: &Vec<BatchGroup> = if serial {
            &none
        } else {
            groups
        };
        let ghost gs = views(used@);
        assert(groups_fit(pv, gs));
        let units = make_units(&plan, &node_index, &effects, used);
        let ghost us = views(units@);
        proof {
            units_partition_nodes(pv, gv, gs);
            if serial {
                assert(gs =~= Seq::empty());
            }
            lemma_serial_units(pv, em, gs);
        }
        let unit_of = index_units(&units);
        let (waits, dependents) = wire(&units, &unit_of, deps);
        let keys = unit_keys(&units, graph.layers(), serial);
        let data_deps = collect_data_deps(&plan);
        let blocked_tools = collect_blocked(&plan, registry);
        let program = Program {
            plan,
            node_index,
            data_deps,
            effects,
            units,
            waits,
            dependents,
            keys,
            blocked_tools,
            schemas,
            config,
            serial,
            deps: Ghost(unit_deps_of(us, dm)),
        };
        let size: usize = program.units.len();
        proof {
            let p = program@;
            assert(p.units.len() == size);
            assert forall|u: int| 0 <= u < p.units.len() implies deps_in_range(
                #[trigger] p.deps[u],
                u,
                p.units.len() as int,
            ) by {}
            assert forall|id: Seq<char>| #[trigger] has_node(p.plan.nodes, id) implies has_unit(
                p,
                id,
            ) by {}
            assert(program_wf(p));
            assert(p =~= program_of(pv, gv, views(groups@), registry@, config, serial));
        }
        Ok(program)
    }
}

/// Without groups every unit is one node.
proof fn lemma_serial_units(plan: PlanV, effects: Map<Seq<char>, ResolvedV>, groups: Seq<BatchV>)
    requires
        is_sorted_nodes(plan.nodes, sorted_nodes(plan.nodes)),
    ensures
        groups.len() == 0 ==> forall|u: int|
            0 <= u < units_of(plan, effects, groups).len() ==> (#[trigger] units_of(
                plan,
                effects,
                groups,
            )[u]).members.len() > 0,
{
    let nodes = sorted_nodes(plan.nodes);
    let back = single_units(plan, effects, groups, nodes, nodes.len() as int);
    lemma_single_units(plan, effects, groups, nodes, nodes.len() as int);
    if groups.len() == 0 {
        let units = units_of(plan, effects, groups);
        assert forall|u: int| 0 <= u < units.len() implies (#[trigger] units[u]).members.len() > 0 by {
            assert(units[u] == back[u]);
            assert(is_single_of(groups, nodes, nodes.len() as int, back[u]));
        }
    }
}

} // verus!
