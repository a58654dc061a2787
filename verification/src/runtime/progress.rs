//! Runs come to an end.

use vstd::prelude::*;

use crate::graph::validate::GraphV;
use crate::optimizer::batch::BatchV;
use crate::plan::PlanV;
use crate::runtime::config::RunConfig;
use crate::runtime::model::{ProgramV, TurnV, UnitV};
use crate::runtime::registry::RegistryV;

verus! {

use crate::graph::layers::{done_before, is_layering, layers_complete_iff_acyclic};
use crate::graph::order::{distinct_nodes_sort, is_sorted_nodes, sorted_nodes};
use crate::graph::validate::{named_layers, plan_model};
use crate::optimizer::batch::{all_groups, group_in_layer, groups_are_batches, has_node};
use crate::optimizer::dce::{deps_of, valid_ids_distinct};
use crate::optimizer::explain::{held_before, layers_wf};
use crate::optimizer::pipeline::{valid_graph, valid_graphs_are_layered};
use crate::ordered::{has_key, key_position, sorted_pairs};
use crate::runtime::history::{
    advancing_keeps_wf, after_steps, all_legal, finished_runs_settle_every_node,
    runs_stay_well_formed, self_waiting, units_acyclic, StepV,
};
use crate::runtime::model::{program_wf, settled};
use crate::runtime::wiring::{
    as_map, graph_fits, group_units, program_of, single_units, unit_deps_of,
    unit_edge, units_of, valid_graphs_fit,
};

/// The batch groups of a compiled plan.
pub open spec fn found_groups(plan: PlanV, g: GraphV) -> Seq<BatchV> {
    all_groups(plan, g.layers, g.layers.len() as int)
}

/// The units of a compiled plan. A serial run takes every node on its own.
pub open spec fn compiled_units(plan: PlanV, g: GraphV, serial: bool) -> Seq<UnitV> {
    let used = if serial {
        Seq::empty()
    } else {
        found_groups(plan, g)
    };
    units_of(plan, as_map(g.resolved_effects), used)
}

proof fn lemma_single_members(
    plan: PlanV,
    g: GraphV,
    groups: Seq<BatchV>,
    k: int,
    x: int,
)
    requires
        0 <= x < single_units(
            plan,
            as_map(g.resolved_effects),
            groups,
            sorted_nodes(plan.nodes),
            k,
        ).len(),
    ensures
        single_units(plan, as_map(g.resolved_effects), groups, sorted_nodes(plan.nodes), k)[x].members.len() == 1,
    decreases k,
{
    let before = single_units(
        plan,
        as_map(g.resolved_effects),
        groups,
        sorted_nodes(plan.nodes),
        k - 1,
    );
    if x < before.len() {
        lemma_single_members(plan, g, groups, k - 1, x);
    }
}

/// The members of a unit stand in one layer.
proof fn lemma_same_layer(
    plan: PlanV,
    g: GraphV,
    serial: bool,
    u: int,
    k: int,
    a: Seq<char>,
    b: Seq<char>,
)
    requires
        graph_fits(plan, g),
        layers_wf(g),
        0 <= u < compiled_units(plan, g, serial).len(),
        compiled_units(plan, g, serial)[u].members.contains(a),
        compiled_units(plan, g, serial)[u].members.contains(b),
        0 <= k < g.layers.len(),
        g.layers[k].contains(a),
    ensures
        g.layers[k].contains(b),
{
    let used = if serial {
        Seq::empty()
    } else {
        found_groups(plan, g)
    };
    let effects = as_map(g.resolved_effects);
    let units = compiled_units(plan, g, serial);
    let nodes = sorted_nodes(plan.nodes);
    let front = group_units(plan, effects, used);
    if u < front.len() {
        let n = g.layers.len() as int;
        groups_are_batches(plan, g.layers, n, u);
        let l = choose|l: int| 0 <= l < n && group_in_layer(plan, #[trigger] g.layers[l], used[u]);
        assert(units[u].members == used[u].nodes);
        let i = choose|i: int| 0 <= i < used[u].nodes.len() && used[u].nodes[i] == a;
        let j = choose|j: int| 0 <= j < used[u].nodes.len() && used[u].nodes[j] == b;
        assert(g.layers[l].contains(used[u].nodes[i]));
        assert(g.layers[l].contains(used[u].nodes[j]));
        let x = choose|x: int| 0 <= x < g.layers[k].len() && g.layers[k][x] == a;
        let y = choose|y: int| 0 <= y < g.layers[l].len() && g.layers[l][y] == a;
        assert(g.layers[k][x] == g.layers[l][y]);
    } else {
        let back = single_units(plan, effects, used, nodes, nodes.len() as int);
        assert(units[u] == back[u - front.len()]);
        lemma_single_members(plan, g, used, nodes.len() as int, u - front.len());
        let i = choose|i: int| 0 <= i < units[u].members.len() && units[u].members[i] == a;
        let j = choose|j: int| 0 <= j < units[u].members.len() && units[u].members[j] == b;
    }
}

/// The unit waits for a unit of the group; their members are linked.
proof fn lemma_edge(p: ProgramV, g: GraphV, w: Set<int>, u: int) -> (e: (int, Seq<char>, Seq<char>))
    requires
        p.deps == unit_deps_of(p.units, as_map(g.dependencies)),
        self_waiting(p, w),
        w.contains(u),
    ensures
        w.contains(e.0),
        p.units[u].members.contains(e.1),
        p.units[e.0].members.contains(e.2),
        has_key(g.dependencies, e.1),
        deps_of(g, e.1).contains(e.2),
{
    let deps = as_map(g.dependencies);
    assert(0 <= u < p.units.len());
    let v = choose|v: int| #[trigger] p.deps[u].contains(v) && w.contains(v);
    assert(unit_edge(p.units, deps, u, v));
    let (m, d) = choose|m: Seq<char>, d: Seq<char>|
        #![trigger p.units[u].members.contains(m), p.units[v].members.contains(d)]
        p.units[u].members.contains(m) && p.units[v].members.contains(d) && deps.dom().contains(m)
            && deps[m].contains(d);
    (v, m, d)
}

/// What a node depends on stands in an earlier layer.
proof fn lemma_earlier(g: GraphV, k: int, m: Seq<char>, d: Seq<char>) -> (l: int)
    requires
        layers_wf(g),
        0 <= k < g.layers.len(),
        g.layers[k].contains(m),
        deps_of(g, m).contains(d),
    ensures
        0 <= l < k,
        g.layers[l].contains(d),
{
    let x = choose|x: int| 0 <= x < g.layers[k].len() && g.layers[k][x] == m;
    assert(deps_of(g, g.layers[k][x]).contains(d));
    assert(held_before(g, k, d));
    choose|l: int| 0 <= l < k && (#[trigger] g.layers[l]).contains(d)
}

/// The graph fits the plan and has layers.
#[verifier::opaque]
spec fn tidy(plan: PlanV, g: GraphV) -> bool {
    graph_fits(plan, g) && layers_wf(g)
}

/// A unit of a group that waits for itself leads to an ever earlier layer.
proof fn lemma_descend(
    plan: PlanV,
    g: GraphV,
    p: ProgramV,
    serial: bool,
    w: Set<int>,
    u: int,
    k: int,
    a: Seq<char>,
)
    requires
        tidy(plan, g),
        p.units == compiled_units(plan, g, serial),
        p.deps == unit_deps_of(p.units, as_map(g.dependencies)),
        w.contains(u),
        p.units[u].members.contains(a),
        0 <= k < g.layers.len(),
        g.layers[k].contains(a),
    ensures
        !self_waiting(p, w),
    decreases k,
{
    if self_waiting(p, w) {
        let (v, m, d) = lemma_edge(p, g, w, u);
        assert(g.layers[k].contains(m)) by {
            reveal(tidy);
            lemma_same_layer(plan, g, serial, u, k, a, m);
        }
        assert(layers_wf(g)) by {
            reveal(tidy);
        }
        let l = lemma_earlier(g, k, m, d);
        lemma_descend(plan, g, p, serial, w, v, l, d);
    }
}

/// Every node of a valid plan stands in a layer.
proof fn lemma_layered(plan: PlanV, g: GraphV, a: Seq<char>) -> (k: int)
    requires
        valid_graph(plan, g),
        is_sorted_nodes(plan.nodes, sorted_nodes(plan.nodes)),
        has_key(g.dependencies, a),
    ensures
        0 <= k < g.layers.len(),
        g.layers[k].contains(a),
{
    let m = plan_model(plan);
    let nodes = sorted_nodes(plan.nodes);
    let layers = choose|layers: Seq<Seq<int>>| #[trigger]
        is_layering(m, layers) && g.layers == named_layers(nodes, layers);
    layers_complete_iff_acyclic(m, layers);
    let i = key_position(g.dependencies, a);
    assert(0 <= i < g.dependencies.len() && g.dependencies[i].0 == a);
    assert(nodes[i].id == a);
    assert(0 <= i < m.n());
    assert(done_before(layers, layers.len() as int).contains(i));
    let k = choose|k: int| 0 <= k < layers.len() && (#[trigger] layers[k]).contains(i);
    let x = choose|x: int| 0 <= x < layers[k].len() && layers[k][x] == i;
    assert(g.layers[k][x] == a);
    k
}

/// A valid plan and its graph fit together.
proof fn lemma_tidy(plan: PlanV, g: GraphV)
    requires
        valid_graph(plan, g),
        plan.nodes.len() < usize::MAX,
        sorted_pairs(plan.tools),
    ensures
        tidy(plan, g),
        is_sorted_nodes(plan.nodes, sorted_nodes(plan.nodes)),
{
    valid_ids_distinct(plan.nodes);
    distinct_nodes_sort(plan.nodes);
    valid_graphs_fit(plan, g);
    valid_graphs_are_layered(plan, g);
    reveal(tidy);
}

proof fn lemma_no_circle(plan: PlanV, g: GraphV, p: ProgramV, serial: bool, w: Set<int>)
    requires
        valid_graph(plan, g),
        plan.nodes.len() < usize::MAX,
        sorted_pairs(plan.tools),
        p.units == compiled_units(plan, g, serial),
        p.deps == unit_deps_of(p.units, as_map(g.dependencies)),
    ensures
        !self_waiting(p, w),
{
    if self_waiting(p, w) {
        lemma_tidy(plan, g);
        let u = choose|u: int| w.contains(u);
        assert(w.contains(u));
        let (v, a, d) = lemma_edge(p, g, w, u);
        let k = lemma_layered(plan, g, a);
        lemma_descend(plan, g, p, serial, w, u, k, a);
    }
}

/// The units of a valid plan never wait for each other in a circle, batched
/// or not.
pub proof fn units_of_valid_plans_are_acyclic(
    plan: PlanV,
    g: GraphV,
    r: RegistryV,
    config: RunConfig,
    serial: bool,
)
    requires
        valid_graph(plan, g),
        plan.nodes.len() < usize::MAX,
        sorted_pairs(plan.tools),
    ensures
        units_acyclic(program_of(plan, g, found_groups(plan, g), r, config, serial)),
{
    let p = program_of(plan, g, found_groups(plan, g), r, config, serial);
    assert forall|w: Set<int>| !(#[trigger] self_waiting(p, w)) by {
        lemma_no_circle(plan, g, p, serial, w);
    }
}

/// A run of a valid plan that was advanced and has nothing running is over:
/// every node finished, failed or was skipped. No node is ever left behind.
pub proof fn idle_runs_are_over(
    plan: PlanV,
    g: GraphV,
    r: RegistryV,
    config: RunConfig,
    serial: bool,
    steps: Seq<StepV>,
    now: TurnV,
    id: Seq<char>,
)
    requires
        valid_graph(plan, g),
        plan.nodes.len() < usize::MAX,
        sorted_pairs(plan.tools),
        program_wf(program_of(plan, g, found_groups(plan, g), r, config, serial)),
        ({
            let p = program_of(plan, g, found_groups(plan, g), r, config, serial);
            let n = steps.len() as int;
            &&& n > 0
            &&& steps[n - 1] == StepV::Advance(now)
            &&& all_legal(p, steps, n)
            &&& after_steps(p, steps, n).running.len() == 0
        }),
        has_node(plan.nodes, id),
    ensures
        settled(
            after_steps(
                program_of(plan, g, found_groups(plan, g), r, config, serial),
                steps,
                steps.len() as int,
            ),
            id,
        ),
{
    let p = program_of(plan, g, found_groups(plan, g), r, config, serial);
    let n = steps.len() as int;
    runs_stay_well_formed(p, steps, n);
    runs_stay_well_formed(p, steps, n - 1);
    advancing_keeps_wf(p, after_steps(p, steps, n - 1), now);
    units_of_valid_plans_are_acyclic(plan, g, r, config, serial);
    finished_runs_settle_every_node(p, after_steps(p, steps, n), id);
}

} // verus!
