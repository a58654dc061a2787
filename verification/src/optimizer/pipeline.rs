//! The pass pipeline: deduplication, dead-node elimination, batch grouping.

use vstd::prelude::*;

use crate::graph::validate::{validate, ExecutionGraph, GraphError, GraphErrorV, GraphV};
use crate::optimizer::batch::find_batch_groups;
use crate::optimizer::cost::{summarize, tools_of};
use crate::optimizer::dce::eliminate_dead_nodes;
use crate::optimizer::dedup::deduplicate_nodes;
use crate::optimizer::explain::{explain_parallel_boundaries, Diagnostic, DiagnosticV};
use crate::optimizer::report::{OptimizationReport, ReportV};
use crate::plan::{NodeV, Plan, PlanV};

verus! {

use crate::graph::layers::{done_before, is_layering, layering_unique, layers_are_increasing, layers_respect_dependencies};
use crate::graph::order::{distinct_ids, is_sorted_nodes, node_ids, sorted_nodes};
use crate::graph::validate::{
    is_first_stuck, is_graph_of, named_deps, named_layers, node_deps, plan_error, plan_model,
    text_lists,
};
use crate::optimizer::batch::all_groups;
use crate::optimizer::cost::{node_tools, summary_of};
use crate::optimizer::dce::{
    closed_under_deps, deps_of, eliminated_ids, needed, needed_is_closed, roots, trimmed,
    trimming_keeps_plans_valid, valid_ids_distinct,
};
use crate::optimizer::dedup::{deduplication_is_determined, is_deduplicated, removed_nodes};
use crate::optimizer::explain::{are_conflict_reports, held_before, is_missing_report, layers_wf, missing_effects};
use crate::ordered::{has_key, pairs_view_lookup, sorted_pairs, sorted_position, views};
use crate::text::{lex_less, texts_view};

/// A validated, optimized plan with its graph and report.
#[derive(Debug, PartialEq)]
pub struct OptimizedPlan {
    plan: Plan,
    graph: ExecutionGraph,
    report: OptimizationReport,
}

/// An optimized plan as a mathematical value.
#[verifier::ext_equal]
pub struct OptimizedV {
    pub plan: PlanV,
    pub graph: GraphV,
    pub report: ReportV,
}

impl View for OptimizedPlan {
    type V = OptimizedV;

    closed spec fn view(&self) -> OptimizedV {
        OptimizedV { plan: self.plan@, graph: self.graph@, report: self.report@ }
    }
}

impl OptimizedPlan {
    /// The optimized plan.
    pub fn plan(&self) -> (r: &Plan)
        ensures
            r@ == self@.plan,
    {
        &self.plan
    }

    /// The execution graph of the optimized plan.
    pub fn graph(&self) -> (r: &ExecutionGraph)
        ensures
            r@ == self@.graph,
    {
        &self.graph
    }

    /// What the optimizer did.
    pub fn report(&self) -> (r: &OptimizationReport)
        ensures
            r@ == self@.report,
    {
        &self.report
    }

    /// Decomposes into `(plan, graph, report)` without cloning.
    pub fn into_parts(self) -> (r: (Plan, ExecutionGraph, OptimizationReport))
        ensures
            r.0@ == self@.plan,
            r.1@ == self@.graph,
            r.2@ == self@.report,
    {
        (self.plan, self.graph, self.report)
    }
}

/// Explain output: layers, optimization report, and blocked-parallelism
/// diagnostics.
#[derive(Debug, PartialEq, Eq)]
pub struct ExplainReport {
    /// Execution layers of the optimized plan.
    pub layers: Vec<Vec<String>>,
    /// The optimization report.
    pub optimization: OptimizationReport,
    /// Why unordered nodes ended up serialized.
    pub diagnostics: Vec<Diagnostic>,
}

// ---------------------------------------------------------------------------
// Model
// ---------------------------------------------------------------------------

/// `d` is a valid plan and `g` is its graph.
pub open spec fn valid_graph(d: PlanV, g: GraphV) -> bool {
    &&& plan_error(d) is None
    &&& plan_model(d).acyclic()
    &&& is_graph_of(d, g)
}

/// `e` says what is wrong with the plan.
pub open spec fn is_plan_error(plan: PlanV, e: GraphErrorV) -> bool {
    match plan_error(plan) {
        Some(m) => e == m,
        None => !plan_model(plan).acyclic() && e is Cycle && is_first_stuck(plan, e->Cycle_0),
    }
}

/// The report on a plan that was deduplicated to `d` with the graph `g` and
/// then trimmed to `out` with the graph `out_g`.
pub open spec fn report_of(plan: PlanV, d: PlanV, g: GraphV, out: PlanV, out_g: GraphV) -> ReportV {
    let groups = all_groups(out, out_g.layers, out_g.layers.len() as int);
    ReportV {
        passes: seq!["dedup"@, "dce"@, "batch"@],
        deduplicated: removed_nodes(plan.tools, plan.nodes, plan.nodes.len() as int),
        eliminated: eliminated_ids(d, g),
        batch_groups: groups,
        summary: summary_of(node_tools(plan.nodes), out, out_g.layers, groups),
    }
}

/// `o` is the plan after all passes: `d` is the plan without duplicates, `g`
/// is its graph.
pub open spec fn is_optimized(plan: PlanV, d: PlanV, g: GraphV, o: OptimizedV) -> bool {
    &&& is_deduplicated(plan, d)
    &&& valid_graph(d, g)
    &&& o.plan == trimmed(d, g)
    &&& valid_graph(o.plan, o.graph)
    &&& o.report == report_of(plan, d, g, o.plan, o.graph)
}

// ---------------------------------------------------------------------------
// Laws
// ---------------------------------------------------------------------------

proof fn lemma_graph_deps(d: PlanV, g: GraphV, i: int)
    requires
        is_graph_of(d, g),
        is_sorted_nodes(d.nodes, sorted_nodes(d.nodes)),
        0 <= i < d.nodes.len(),
    ensures
        has_key(g.dependencies, d.nodes[i].id),
        deps_of(g, d.nodes[i].id) == node_deps(d.nodes[i]),
{
    let s = sorted_nodes(d.nodes);
    let x = d.nodes[i];
    assert(d.nodes.contains(x));
    assert(s.contains(x));
    let p = choose|p: int| 0 <= p < s.len() && s[p] == x;
    assert(named_deps(s)[p] == (x.id, node_deps(x)));
    lemma_named_sorted(s);
    sorted_position(g.dependencies, p);
}

proof fn lemma_named_sorted(s: Seq<NodeV>)
    requires
        forall|a: int, b: int|
            0 <= a < b < s.len() ==> lex_less((#[trigger] s[a]).id, (#[trigger] s[b]).id),
    ensures
        sorted_pairs(named_deps(s)),
{
    assert forall|a: int, b: int| 0 <= a < b < named_deps(s).len() implies lex_less(
        (#[trigger] named_deps(s)[a]).0,
        (#[trigger] named_deps(s)[b]).0,
    ) by {
        assert(lex_less(s[a].id, s[b].id));
    }
}

/// The graph of a valid plan has every node in one place, behind everything
/// that the node depends on.
pub proof fn valid_graphs_are_layered(d: PlanV, g: GraphV)
    requires
        plan_error(d) is None,
        is_graph_of(d, g),
        is_sorted_nodes(d.nodes, sorted_nodes(d.nodes)),
    ensures
        layers_wf(g),
{
    let s = sorted_nodes(d.nodes);
    let m = plan_model(d);
    let layers = choose|layers: Seq<Seq<int>>| #[trigger]
        is_layering(m, layers) && g.layers == named_layers(s, layers);
    lemma_named_sorted(s);
    assert forall|k: int, x: int, l: int, y: int|
        0 <= k < g.layers.len() && 0 <= x < g.layers[k].len() && 0 <= l < g.layers.len() && 0 <= y
            < g.layers[l].len() && #[trigger] g.layers[k][x] == #[trigger] g.layers[l][y] implies k
        == l && x == y by {
        layers_respect_dependencies(m, layers, k, x);
        layers_respect_dependencies(m, layers, l, y);
        let a = layers[k][x];
        let b = layers[l][y];
        assert(s[a].id == s[b].id);
        if a < b {
            crate::text::lex_less_irreflexive(s[a].id);
            assert(lex_less(s[a].id, s[b].id));
        } else if b < a {
            crate::text::lex_less_irreflexive(s[a].id);
            assert(lex_less(s[b].id, s[a].id));
        }
        assert(layers[k].contains(a));
        assert(layers[l].contains(a));
        if k < l {
            assert(done_before(layers, l).contains(a));
        } else if l < k {
            assert(done_before(layers, k).contains(a));
        } else {
            layers_are_increasing(m, layers, k);
            if x < y {
                assert(layers[k][x] < layers[k][y]);
            } else if y < x {
                assert(layers[k][y] < layers[k][x]);
            }
        }
    }
    assert forall|k: int, x: int, dep: Seq<char>|
        0 <= k < g.layers.len() && 0 <= x < g.layers[k].len() && #[trigger] deps_of(
            g,
            g.layers[k][x],
        ).contains(dep) implies held_before(g, k, dep) by {
        layers_respect_dependencies(m, layers, k, x);
        let a = layers[k][x];
        assert(g.layers[k][x] == s[a].id);
        assert(named_deps(s)[a] == (s[a].id, node_deps(s[a])));
        sorted_position(g.dependencies, a);
        assert(node_deps(s[a]).contains(dep));
        lemma_dep_has_rank(d, a, dep);
        let b = choose|b: int| 0 <= b < s.len() && (#[trigger] s[b]).id == dep;
        assert(m.deps[a].contains(b));
        assert(done_before(layers, k).contains(b));
        let l = choose|l: int| 0 <= l < k && (#[trigger] layers[l]).contains(b);
        let y = choose|y: int| 0 <= y < layers[l].len() && layers[l][y] == b;
        assert(g.layers[l][y] == dep);
        assert(g.layers[l].contains(dep));
    }
}

proof fn lemma_dep_has_rank(d: PlanV, a: int, dep: Seq<char>)
    requires
        is_sorted_nodes(d.nodes, sorted_nodes(d.nodes)),
        plan_error(d) is None,
        0 <= a < sorted_nodes(d.nodes).len(),
        node_deps(sorted_nodes(d.nodes)[a]).contains(dep),
    ensures
        exists|b: int| 0 <= b < sorted_nodes(d.nodes).len() && (#[trigger] sorted_nodes(d.nodes)[b]).id == dep,
{
    let s = sorted_nodes(d.nodes);
    let ids = node_ids(d.nodes);
    crate::optimizer::dce::lemma_dependencies_each(ids, s, 0, a);
    crate::graph::validate::lemma_node_deps_known(ids, s[a]);
    assert(ids.contains(dep));
    let k = choose|k: int| 0 <= k < d.nodes.len() && (#[trigger] d.nodes[k]).id == dep;
    assert(d.nodes.contains(d.nodes[k]));
    assert(s.contains(d.nodes[k]));
    let b = choose|b: int| 0 <= b < s.len() && s[b] == d.nodes[k];
    assert(s[b].id == dep);
}

/// Trimming a valid plan gives a valid plan.
pub proof fn trimmed_plans_are_valid(d: PlanV, g: GraphV)
    requires
        valid_graph(d, g),
        is_sorted_nodes(d.nodes, sorted_nodes(d.nodes)),
    ensures
        plan_error(trimmed(d, g)) is None,
        plan_model(trimmed(d, g)).acyclic(),
{
    if d.outputs.len() > 0 {
        let kept = needed(d.outputs, g);
        let ids = node_ids(d.nodes);
        needed_is_closed(d.outputs, g);
        reveal(closed_under_deps);
        assert forall|i: int| 0 <= i < d.outputs.len() implies kept.contains(
            (#[trigger] d.outputs[i]).1.node,
        ) by {
            let id = d.outputs[i].1.node;
            crate::optimizer::dce::lemma_outputs_each(ids, d.outputs, 0, i);
            let k = choose|k: int| 0 <= k < d.nodes.len() && (#[trigger] d.nodes[k]).id == id;
            lemma_graph_deps(d, g, k);
            assert(roots(d.outputs, g).contains(id));
        }
        assert forall|i: int|
            0 <= i < d.nodes.len() && kept.contains((#[trigger] d.nodes[i]).id) implies node_deps(
            d.nodes[i],
        ).subset_of(kept) by {
            lemma_graph_deps(d, g, i);
        }
        trimming_keeps_plans_valid(d, kept, trimmed(d, g));
    }
}

/// A plan has one execution graph.
pub proof fn graph_is_determined(d: PlanV, a: GraphV, b: GraphV)
    requires
        is_graph_of(d, a),
        is_graph_of(d, b),
    ensures
        a == b,
{
    let s = sorted_nodes(d.nodes);
    let m = plan_model(d);
    let la = choose|layers: Seq<Seq<int>>| #[trigger]
        is_layering(m, layers) && a.layers == named_layers(s, layers);
    let lb = choose|layers: Seq<Seq<int>>| #[trigger]
        is_layering(m, layers) && b.layers == named_layers(s, layers);
    layering_unique(m, la, lb);
    assert(a =~= b);
}

/// The passes give one result.
pub proof fn optimization_is_determined(
    plan: PlanV,
    d1: PlanV,
    g1: GraphV,
    o1: OptimizedV,
    d2: PlanV,
    g2: GraphV,
    o2: OptimizedV,
)
    requires
        is_optimized(plan, d1, g1, o1),
        is_optimized(plan, d2, g2, o2),
    ensures
        o1 == o2,
{
    deduplication_is_determined(plan, d1, d2);
    graph_is_determined(d1, g1, g2);
    graph_is_determined(o1.plan, o1.graph, o2.graph);
    assert(o1 =~= o2);
}

// ---------------------------------------------------------------------------
// The pipeline
// ---------------------------------------------------------------------------

fn pass_names() -> (r: Vec<String>)
    ensures
        texts_view(r@) == seq!["dedup"@, "dce"@, "batch"@],
{
    let mut passes: Vec<String> = Vec::new();
    passes.push("dedup".to_owned());
    passes.push("dce".to_owned());
    passes.push("batch".to_owned());
    assert(texts_view(passes@) =~= seq!["dedup"@, "dce"@, "batch"@]);
    passes
}

/// Runs the optimization pipeline on `plan`.
///
/// Every pass is effect-gated: a transformation only happens when the
/// declared tool effects prove it safe. The plan is refused exactly when it
/// does not validate once duplicates are removed.
pub fn optimize(plan: Plan) -> (r: Result<OptimizedPlan, GraphError>)
    requires
        plan.nodes@.len() < usize::MAX,
    ensures
        match r {
            Ok(o) => exists|d: PlanV, g: GraphV| #[trigger] is_optimized(plan@, d, g, o@),
            Err(e) => exists|d: PlanV|
                is_deduplicated(plan@, d) && #[trigger] is_plan_error(d, e@),
        },
        match r {
            Ok(o) => layers_wf(o@.graph) && distinct_ids(o@.plan.nodes) && is_sorted_nodes(
                o@.plan.nodes,
                sorted_nodes(o@.plan.nodes),
            ) && o@.plan.nodes.len() < usize::MAX && sorted_pairs(o@.plan.tools),
            Err(_) => true,
        },
{
    let ghost before = plan@;
    let original = tools_of(&plan.nodes);
    let (plan, deduplicated) = deduplicate_nodes(plan);
    let ghost d = plan@;
    let graph = match validate(&plan) {
        Ok(graph) => graph,
        Err(e) => {
            assert(is_plan_error(d, e@));
            return Err(e);
        },
    };
    let ghost g = graph@;
    assert(valid_graph(d, g));
    let (plan, eliminated) = eliminate_dead_nodes(plan, &graph);
    proof {
        trimmed_plans_are_valid(d, g);
    }
    let graph = match validate(&plan) {
        Ok(graph) => graph,
        Err(e) => {
            assert(false);
            return Err(e);
        },
    };
    proof {
        valid_ids_distinct(plan@.nodes);
        valid_graphs_are_layered(plan@, graph@);
    }
    plan.tools.prove_sorted();
    proof {
        pairs_view_lookup(plan.tools, Seq::empty());
    }
    let batch_groups = find_batch_groups(&plan, &graph);
    let summary = summarize(&original, &plan, &graph, &batch_groups);
    let report = OptimizationReport {
        passes: pass_names(),
        deduplicated,
        eliminated,
        batch_groups,
        summary,
    };
    let optimized = OptimizedPlan { plan, graph, report };
    assert(is_optimized(before, d, g, optimized@));
    Ok(optimized)
}

fn copy_layers(layers: &Vec<Vec<String>>) -> (r: Vec<Vec<String>>)
    ensures
        text_lists(r@) == text_lists(layers@),
{
    let mut out: Vec<Vec<String>> = Vec::new();
    let mut i: usize = 0;
    while i < layers.len()
        invariant
            i <= layers@.len(),
            out@.len() == i,
            forall|j: int| 0 <= j < i ==> texts_view((#[trigger] out@[j])@) == texts_view(layers@[j]@),
        decreases layers.len() - i,
    {
        out.push(crate::text::copy_texts(&layers[i]));
        i = i + 1;
    }
    assert(text_lists(out@) =~= text_lists(layers@));
    out
}

/// `ds` are the diagnostics of the plan.
pub open spec fn are_diagnostics(plan: PlanV, g: GraphV, ds: Seq<DiagnosticV>) -> bool {
    if missing_effects(plan, g) == Set::<Seq<char>>::empty() {
        are_conflict_reports(plan, g, ds)
    } else {
        ds.len() > 0 && is_missing_report(plan, g, ds[0]) && are_conflict_reports(
            plan,
            g,
            ds.drop_first(),
        )
    }
}

/// Optimizes `plan` and explains its parallel boundaries.
pub fn explain(plan: Plan) -> (r: Result<ExplainReport, GraphError>)
    requires
        plan.nodes@.len() < usize::MAX,
    ensures
        match r {
            Ok(report) => exists|d: PlanV, g: GraphV, o: OptimizedV|
                {
                    &&& #[trigger] is_optimized(plan@, d, g, o)
                    &&& text_lists(report.layers@) == o.graph.layers
                    &&& report.optimization@ == o.report
                    &&& are_diagnostics(o.plan, o.graph, views(report.diagnostics@))
                },
            Err(e) => exists|d: PlanV|
                is_deduplicated(plan@, d) && #[trigger] is_plan_error(d, e@),
        },
{
    let ghost before = plan@;
    let optimized = match optimize(plan) {
        Ok(optimized) => optimized,
        Err(e) => {
            return Err(e);
        },
    };
    let ghost o = optimized@;
    let diagnostics = explain_parallel_boundaries(optimized.plan(), optimized.graph());
    let layers = copy_layers(optimized.graph().layers());
    let (_plan, _graph, report) = optimized.into_parts();
    let out = ExplainReport { layers, optimization: report, diagnostics };
    proof {
        let (d, g) = choose|d: PlanV, g: GraphV| #[trigger] is_optimized(before, d, g, o);
        assert(is_optimized(before, d, g, o));
        assert(are_diagnostics(o.plan, o.graph, views(out.diagnostics@)));
    }
    Ok(out)
}

} // verus!
