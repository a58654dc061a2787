//! Compiling a plan keeps what it computes.

use vstd::prelude::*;

use crate::graph::validate::GraphV;
use crate::optimizer::pipeline::OptimizedV;
use crate::plan::{NodeV, PlanV};
use crate::refs::RefV;
use crate::runtime::model::{ProgramV, RunV};
use crate::runtime::result::SkipReason;

verus! {

use crate::graph::order::{distinct_ids, distinct_nodes_sort, node_ids, sorted_nodes};
use crate::graph::validate::{
    dep_ranks, lemma_node_deps_known, node_deps, plan_error, plan_model,
    referenced_nodes,
};
use crate::optimizer::batch::{has_node, node_named};
use crate::optimizer::dce::{
    lemma_dependencies_each, lemma_nodes_in, lemma_outputs_each, needed, valid_ids_distinct,
};
use crate::optimizer::dedup::{
    alias_map, duplicates_are_redirected, duplicates_are_the_same_call, first_same, is_duplicate,
    kept_nodes, kept_nodes_are_originals, removed_nodes, when_key,
};
use crate::optimizer::pipeline::is_optimized;
use crate::optimizer::rewrite::{follow, is_rewritten_node, rewritten, rewritten_ref, rewritten_when, Aliases};
use crate::reading::{canonical_injective, json_valid};
use crate::refs::{node_id_error, refs_in};
use crate::runtime::finish::declared_outputs;
use crate::runtime::history::{
    after_steps, all_honest, all_legal, faithful, justified, runs_are_faithful,
    runs_stay_well_formed, StepV,
};
use crate::runtime::meaning::{
    agree_on, pulled, redirected_documents_agree, redirected_references, redirected_refs_agree,
    refs_all, resolution_reads_referenced_nodes, rewritten_refs, same_ok, value_of, Outputs, ToolsV,
};
use crate::runtime::model::{
    data_deps, dead, fan_out_items, node_of, program_wf, settled, when_verdict,
};
use crate::runtime::resolve::{resolved, resolved_ref};
use crate::runtime::upkeep::run_wf;

/// The plan is valid, and so are the documents in it.
pub open spec fn plan_valid(plan: PlanV) -> bool {
    &&& plan_error(plan) is None
    &&& plan_model(plan).acyclic()
    &&& forall|i: int| 0 <= i < plan.nodes.len() ==> node_valid(#[trigger] plan.nodes[i])
}

/// The documents of the node are valid.
pub open spec fn node_valid(node: NodeV) -> bool {
    &&& json_valid(node.input)
    &&& match node.when {
        Some(w) => match w.equals {
            Some(j) => json_valid(j),
            None => true,
        },
        None => true,
    }
}

/// Which node of the plan stands for which once duplicates are removed.
pub open spec fn plan_aliases(plan: PlanV) -> Aliases {
    alias_map(removed_nodes(plan.tools, plan.nodes, plan.nodes.len() as int))
}

/// How many nodes were removed as duplicates.
pub open spec fn removal_count(plan: PlanV) -> nat {
    removed_nodes(plan.tools, plan.nodes, plan.nodes.len() as int).len()
}

/// The node that stands for the node after the passes.
pub open spec fn stand_in(plan: PlanV, id: Seq<char>) -> Seq<char> {
    follow(plan_aliases(plan), id, removal_count(plan))
}

/// The outputs of the compiled run under the names of the plan.
pub open spec fn renamed(plan: PlanV, outputs: Outputs) -> Outputs {
    pulled(outputs, plan_aliases(plan), removal_count(plan))
}

/// Every node is over and none failed; a node was skipped only for its
/// condition or because it needs a node that was skipped.
pub open spec fn succeeded(p: ProgramV, s: RunV) -> bool {
    &&& forall|id: Seq<char>| #[trigger] has_node(p.plan.nodes, id) ==> settled(s, id)
    &&& forall|id: Seq<char>| !(#[trigger] s.errors.dom().contains(id))
    &&& forall|id: Seq<char>| #[trigger]
        s.skipped.dom().contains(id) ==> s.skipped[id] == SkipReason::Condition || s.skipped[id]
            == SkipReason::FailedDependency
}

// ---------------------------------------------------------------------------
// Nodes
// ---------------------------------------------------------------------------

proof fn lemma_named(nodes: Seq<NodeV>, i: int)
    requires
        distinct_ids(nodes),
        0 <= i < nodes.len(),
    ensures
        has_node(nodes, nodes[i].id),
        node_named(nodes, nodes[i].id) == nodes[i],
{
    let id = nodes[i].id;
    let j = choose|j: int| 0 <= j < nodes.len() && (#[trigger] nodes[j]).id == id;
    if i < j {
        assert(nodes[i].id != nodes[j].id);
    } else if j < i {
        assert(nodes[j].id != nodes[i].id);
    }
}

/// What a valid plan promises of a node.
proof fn lemma_node(plan: PlanV, i: int)
    requires
        plan_error(plan) is None,
        0 <= i < plan.nodes.len(),
    ensures
        distinct_ids(plan.nodes),
        node_id_error(plan.nodes[i].id) is None,
        refs_in(plan.nodes[i].input) is Ok,
        node_deps(plan.nodes[i]).subset_of(node_ids(plan.nodes)),
        data_deps(plan.nodes[i]).subset_of(node_deps(plan.nodes[i])),
{
    let nodes = plan.nodes;
    valid_ids_distinct(nodes);
    distinct_nodes_sort(nodes);
    let s = sorted_nodes(nodes);
    assert(nodes.contains(nodes[i]));
    assert(s.contains(nodes[i]));
    let j = choose|j: int| 0 <= j < s.len() && s[j] == nodes[i];
    lemma_dependencies_each(node_ids(nodes), s, 0, j);
    lemma_node_deps_known(node_ids(nodes), nodes[i]);
}

/// A duplicate and the node that stands for it are alike.
proof fn lemma_twin(plan: PlanV, i: int) -> (f: int)
    requires
        plan_valid(plan),
        0 <= i < plan.nodes.len(),
    ensures
        0 <= f < plan.nodes.len(),
        !is_duplicate(plan.tools, plan.nodes, f),
        stand_in(plan, plan.nodes[i].id) == plan.nodes[f].id,
        plan.nodes[f].tool == plan.nodes[i].tool,
        plan.nodes[f].input == plan.nodes[i].input,
        plan.nodes[f].for_each == plan.nodes[i].for_each,
        plan.nodes[f].when == plan.nodes[i].when,
{
    let nodes = plan.nodes;
    lemma_node(plan, i);
    duplicates_are_redirected(plan.tools, nodes, i);
    if is_duplicate(plan.tools, nodes, i) {
        duplicates_are_the_same_call(plan.tools, nodes, i);
        let f = first_same(plan.tools, nodes, i);
        assert(node_valid(nodes[i]) && node_valid(nodes[f]));
        canonical_injective(nodes[f].input, nodes[i].input);
        let a = nodes[f].when;
        let b = nodes[i].when;
        assert(when_key(a) == when_key(b));
        if a is Some && b is Some && a->0.equals is Some && b->0.equals is Some {
            canonical_injective(a->0.equals->0, b->0.equals->0);
        }
        f
    } else {
        i
    }
}

/// The node that a reference of the node names stands for a valid node.
proof fn lemma_references(plan: PlanV, i: int)
    requires
        plan_valid(plan),
        0 <= i < plan.nodes.len(),
    ensures
        refs_all(
            plan.nodes[i].input,
            |r: RefV|
                node_id_error(follow(plan_aliases(plan), r.node, removal_count(plan))) is None,
        ),
{
    lemma_node(plan, i);
    let node = plan.nodes[i];
    let refs = refs_in(node.input)->Ok_0;
    let names = referenced_nodes(node, refs);
    assert forall|r: RefV| #[trigger] refs.contains(r) implies node_id_error(
        follow(plan_aliases(plan), r.node, removal_count(plan)),
    ) is None by {
        let k = choose|k: int| 0 <= k < refs.len() && refs[k] == r;
        assert(names[k] == r.node);
        assert(names.to_set().contains(r.node));
        assert(data_deps(node).contains(r.node));
        assert(node_ids(plan.nodes).contains(r.node));
        let j = choose|j: int| 0 <= j < plan.nodes.len() && (#[trigger] plan.nodes[j]).id == r.node;
        let f = lemma_twin(plan, j);
        lemma_node(plan, f);
    }
}

/// `y` is the node that stands for `node` in the compiled plan.
pub open spec fn is_counterpart(node: NodeV, y: NodeV, aliases: Aliases, steps: nat) -> bool {
    &&& y.tool == node.tool
    &&& y.input == node.input && steps == 0 || y.input == rewritten(node.input, aliases, steps)
    &&& y.for_each == match node.for_each {
        Some(r) => Some(rewritten_ref(r, aliases, steps)),
        None => None,
    }
    &&& y.when == match node.when {
        Some(w) => Some(rewritten_when(w, aliases, steps)),
        None => None,
    }
}

proof fn lemma_counterpart(plan: PlanV, d: PlanV, g: GraphV, o: OptimizedV, i: int)
    requires
        plan_valid(plan),
        is_optimized(plan, d, g, o),
        0 <= i < plan.nodes.len(),
        has_node(o.plan.nodes, stand_in(plan, plan.nodes[i].id)),
    ensures
        is_counterpart(
            plan.nodes[i],
            node_named(o.plan.nodes, stand_in(plan, plan.nodes[i].id)),
            plan_aliases(plan),
            removal_count(plan),
        ),
{
    let x = stand_in(plan, plan.nodes[i].id);
    let f = lemma_twin(plan, i);
    lemma_node(plan, f);
    let k = choose|k: int| 0 <= k < o.plan.nodes.len() && (#[trigger] o.plan.nodes[k]).id == x;
    let y = o.plan.nodes[k];
    lemma_node(o.plan, k);
    lemma_named(o.plan.nodes, k);
    assert(o.plan.nodes.contains(y));
    if d.outputs.len() > 0 {
        let kept = needed(d.outputs, g);
        lemma_nodes_in(d.nodes, kept, d.nodes.len() as int);
        assert(d.nodes.take(d.nodes.len() as int) =~= d.nodes);
    }
    assert(d.nodes.contains(y));
    let m = choose|m: int| 0 <= m < d.nodes.len() && d.nodes[m] == y;
    let kept = kept_nodes(plan.tools, plan.nodes, plan.nodes.len() as int);
    if removal_count(plan) == 0 {
        if m < f {
            assert(plan.nodes[m].id != plan.nodes[f].id);
        } else if f < m {
            assert(plan.nodes[f].id != plan.nodes[m].id);
        }
    } else {
        assert(is_rewritten_node(kept[m], d.nodes[m], plan_aliases(plan), removal_count(plan)));
        let e = kept_nodes_are_originals(plan.tools, plan.nodes, plan.nodes.len() as int, m);
        if e < f {
            assert(plan.nodes[e].id != plan.nodes[f].id);
        } else if f < e {
            assert(plan.nodes[f].id != plan.nodes[e].id);
        }
    }
}

/// The references of a counterpart name the nodes that stand for those of
/// the node.
proof fn lemma_counterpart_deps(plan: PlanV, i: int, y: NodeV)
    requires
        plan_valid(plan),
        0 <= i < plan.nodes.len(),
        is_counterpart(plan.nodes[i], y, plan_aliases(plan), removal_count(plan)),
    ensures
        forall|m: Seq<char>| #[trigger]
            data_deps(plan.nodes[i]).contains(m) ==> data_deps(y).contains(stand_in(plan, m)),
        forall|e: Seq<char>| #[trigger]
            data_deps(y).contains(e) ==> exists|m: Seq<char>| #[trigger]
                data_deps(plan.nodes[i]).contains(m) && stand_in(plan, m) == e,
        refs_in(y.input) is Ok,
{
    let node = plan.nodes[i];
    let aliases = plan_aliases(plan);
    let steps = removal_count(plan);
    lemma_node(plan, i);
    lemma_references(plan, i);
    let refs = refs_in(node.input)->Ok_0;
    let out = rewritten_refs(refs, aliases, steps);
    if !(y.input == node.input && steps == 0) {
        redirected_references(node.input, aliases, steps);
    } else {
        assert(out =~= refs);
    }
    assert(refs_in(y.input)->Ok_0 == out);
    let names = referenced_nodes(node, refs);
    let renames = referenced_nodes(y, out);
    assert(names.len() == renames.len());
    assert forall|k: int| 0 <= k < names.len() implies #[trigger] renames[k] == stand_in(
        plan,
        names[k],
    ) by {}
    assert forall|m: Seq<char>| #[trigger] data_deps(node).contains(m) implies data_deps(
        y,
    ).contains(stand_in(plan, m)) by {
        let k = choose|k: int| 0 <= k < names.len() && names[k] == m;
        assert(renames[k] == stand_in(plan, m));
        assert(renames.to_set().contains(renames[k]));
    }
    assert forall|e: Seq<char>| #[trigger] data_deps(y).contains(e) implies exists|m: Seq<char>|
     #[trigger] data_deps(node).contains(m) && stand_in(plan, m) == e by {
        let k = choose|k: int| 0 <= k < renames.len() && renames[k] == e;
        assert(names.to_set().contains(names[k]));
        assert(data_deps(node).contains(names[k]));
    }
}

// ---------------------------------------------------------------------------
// One node
// ---------------------------------------------------------------------------

/// The two runs agree on what the node refers to.
spec fn agreed(plan: PlanV, s: RunV, t: RunV, i: int) -> bool {
    forall|m: Seq<char>| #[trigger]
        data_deps(plan.nodes[i]).contains(m) ==> agree_on(s.outputs, renamed(plan, t.outputs), m)
}

/// Then its input, its items and its condition are the same in both.
proof fn lemma_same_inputs(plan: PlanV, s: RunV, t: RunV, i: int, y: NodeV)
    requires
        plan_valid(plan),
        0 <= i < plan.nodes.len(),
        is_counterpart(plan.nodes[i], y, plan_aliases(plan), removal_count(plan)),
        agreed(plan, s, t, i),
    ensures
        same_ok(resolved(plan.nodes[i].input, s.outputs), resolved(y.input, t.outputs)),
        same_ok(fan_out_items(plan.nodes[i], s.outputs), fan_out_items(y, t.outputs)),
        plan.nodes[i].when is Some == y.when is Some,
        plan.nodes[i].when is Some ==> same_ok(
            when_verdict(plan.nodes[i].when->0, s.outputs),
            when_verdict(y.when->0, t.outputs),
        ),
{
    let node = plan.nodes[i];
    let aliases = plan_aliases(plan);
    let steps = removal_count(plan);
    let b = renamed(plan, t.outputs);
    lemma_node(plan, i);
    lemma_references(plan, i);
    let refs = refs_in(node.input)->Ok_0;
    let names = referenced_nodes(node, refs);
    assert forall|k: int| 0 <= k < names.len() implies agree_on(
        s.outputs,
        b,
        #[trigger] names[k],
    ) by {
        assert(names.to_set().contains(names[k]));
        assert(data_deps(node).contains(names[k]));
    }
    assert(refs_all(node.input, |r: RefV| agree_on(s.outputs, b, r.node))) by {
        assert forall|r: RefV| #[trigger] refs.contains(r) implies agree_on(
            s.outputs,
            b,
            r.node,
        ) by {
            let k = choose|k: int| 0 <= k < refs.len() && refs[k] == r;
            assert(names[k] == r.node);
        }
    }
    resolution_reads_referenced_nodes(node.input, s.outputs, b);
    if y.input == node.input && steps == 0 {
        assert(b =~= t.outputs);
    } else {
        redirected_documents_agree(node.input, t.outputs, aliases, steps);
    }
    if node.for_each is Some {
        let r = node.for_each->0;
        assert(names[refs.len() as int] == r.node);
        assert(agree_on(s.outputs, b, names[refs.len() as int]));
        redirected_refs_agree(r, t.outputs, aliases, steps);
        assert(same_ok(resolved_ref(r, s.outputs), resolved_ref(r, b)));
    }
    if node.when is Some {
        let w = node.when->0;
        let last = names.len() - 1;
        assert(names[last] == w.target.node);
        assert(agree_on(s.outputs, b, names[last]));
        redirected_refs_agree(w.target, t.outputs, aliases, steps);
        assert(same_ok(resolved_ref(w.target, s.outputs), resolved_ref(w.target, b)));
    }
}

proof fn lemma_one_node(
    plan: PlanV,
    d: PlanV,
    g: GraphV,
    o: OptimizedV,
    p: ProgramV,
    s: RunV,
    q: ProgramV,
    t: RunV,
    tools: ToolsV,
    i: int,
)
    requires
        plan_valid(plan),
        is_optimized(plan, d, g, o),
        p.plan == plan,
        q.plan == o.plan,
        run_wf(p, s),
        run_wf(q, t),
        faithful(p, tools, s),
        faithful(q, tools, t),
        succeeded(p, s),
        succeeded(q, t),
        0 <= i < plan.nodes.len(),
        has_node(o.plan.nodes, stand_in(plan, plan.nodes[i].id)),
        agreed(plan, s, t, i),
    ensures
        agree_on(s.outputs, renamed(plan, t.outputs), plan.nodes[i].id),
{
    let node = plan.nodes[i];
    let id = node.id;
    let x = stand_in(plan, id);
    let y = node_named(o.plan.nodes, x);
    let b = renamed(plan, t.outputs);
    lemma_node(plan, i);
    lemma_named(plan.nodes, i);
    assert(node_of(p, id) == node);
    assert(node_of(q, x) == y);
    lemma_counterpart(plan, d, g, o, i);
    lemma_counterpart_deps(plan, i, y);
    lemma_same_inputs(plan, s, t, i, y);
    assert(settled(s, id));
    assert(settled(t, x));
    if s.outputs.dom().contains(id) && !t.outputs.dom().contains(x) {
        assert(!t.errors.dom().contains(x));
        assert(t.skipped.dom().contains(x));
        assert(justified(q, t, x, t.skipped[x]));
        if t.skipped[x] == SkipReason::FailedDependency {
            let e = choose|e: Seq<char>| #[trigger] data_deps(y).contains(e) && dead(t, e);
            let m = choose|m: Seq<char>| #[trigger]
                data_deps(node).contains(m) && stand_in(plan, m) == e;
            assert(agree_on(s.outputs, b, m));
            assert(!t.errors.dom().contains(e));
            assert(t.skipped.dom().contains(e));
            assert(t.outputs.dom().contains(e));
        }
        assert(false);
    }
    if t.outputs.dom().contains(x) && !s.outputs.dom().contains(id) {
        assert(!s.errors.dom().contains(id));
        assert(s.skipped.dom().contains(id));
        assert(justified(p, s, id, s.skipped[id]));
        if s.skipped[id] == SkipReason::FailedDependency {
            let m = choose|m: Seq<char>| #[trigger] data_deps(node).contains(m) && dead(s, m);
            assert(agree_on(s.outputs, b, m));
            assert(data_deps(y).contains(stand_in(plan, m)));
            assert(!s.errors.dom().contains(m));
            assert(s.skipped.dom().contains(m));
        }
        assert(false);
    }
    if s.outputs.dom().contains(id) {
        assert(value_of(tools, node, s.outputs) == value_of(tools, y, t.outputs)) by {
            match fan_out_items(node, s.outputs)->Ok_0 {
                None => {},
                Some(items) => {
                    let u = value_of(tools, node, s.outputs)->List_0;
                    let v = value_of(tools, y, t.outputs)->List_0;
                    assert(u =~= v);
                },
            }
        }
    }
}

// ---------------------------------------------------------------------------
// All nodes
// ---------------------------------------------------------------------------

/// The runs disagree on the node at the rank, which the compiled plan keeps.
spec fn disagrees(plan: PlanV, o: OptimizedV, s: RunV, t: RunV, rank: int) -> bool {
    let nodes = sorted_nodes(plan.nodes);
    &&& 0 <= rank < nodes.len()
    &&& has_node(o.plan.nodes, stand_in(plan, nodes[rank].id))
    &&& !agree_on(s.outputs, renamed(plan, t.outputs), nodes[rank].id)
}

proof fn lemma_kept_deps(plan: PlanV, d: PlanV, g: GraphV, o: OptimizedV, i: int)
    requires
        plan_valid(plan),
        is_optimized(plan, d, g, o),
        0 <= i < plan.nodes.len(),
        has_node(o.plan.nodes, stand_in(plan, plan.nodes[i].id)),
    ensures
        forall|m: Seq<char>| #[trigger]
            data_deps(plan.nodes[i]).contains(m) ==> has_node(o.plan.nodes, stand_in(plan, m)),
{
    let x = stand_in(plan, plan.nodes[i].id);
    let k = choose|k: int| 0 <= k < o.plan.nodes.len() && (#[trigger] o.plan.nodes[k]).id == x;
    lemma_node(o.plan, k);
    lemma_named(o.plan.nodes, k);
    let y = o.plan.nodes[k];
    lemma_counterpart(plan, d, g, o, i);
    lemma_counterpart_deps(plan, i, y);
    assert forall|m: Seq<char>| #[trigger] data_deps(plan.nodes[i]).contains(m) implies has_node(
        o.plan.nodes,
        stand_in(plan, m),
    ) by {
        assert(data_deps(y).contains(stand_in(plan, m)));
        assert(node_ids(o.plan.nodes).contains(stand_in(plan, m)));
    }
}

/// Two runs that did what the plan says and what the compiled plan says
/// agree on every node that the compiled plan keeps: it has an output in one
/// run exactly when its stand-in has one in the other, and then the outputs
/// are the same.
pub proof fn compiled_nodes_agree(
    plan: PlanV,
    d: PlanV,
    g: GraphV,
    o: OptimizedV,
    p: ProgramV,
    s: RunV,
    q: ProgramV,
    t: RunV,
    tools: ToolsV,
    id: Seq<char>,
)
    requires
        plan_valid(plan),
        is_optimized(plan, d, g, o),
        p.plan == plan,
        q.plan == o.plan,
        run_wf(p, s),
        run_wf(q, t),
        faithful(p, tools, s),
        faithful(q, tools, t),
        succeeded(p, s),
        succeeded(q, t),
        has_node(plan.nodes, id),
        has_node(o.plan.nodes, stand_in(plan, id)),
    ensures
        agree_on(s.outputs, renamed(plan, t.outputs), id),
{
    let nodes = sorted_nodes(plan.nodes);
    let m = plan_model(plan);
    let wrong = Set::new(|rank: int| disagrees(plan, o, s, t, rank));
    let at = choose|i: int| 0 <= i < plan.nodes.len() && (#[trigger] plan.nodes[i]).id == id;
    lemma_node(plan, at);
    distinct_nodes_sort(plan.nodes);
    assert(m.deps.len() == nodes.len());
    if !agree_on(s.outputs, renamed(plan, t.outputs), id) {
        assert(plan.nodes.contains(plan.nodes[at]));
        assert(nodes.contains(plan.nodes[at]));
        let r = choose|r: int| 0 <= r < nodes.len() && nodes[r] == plan.nodes[at];
        assert(wrong.contains(r));
        assert forall|rank: int| #[trigger] wrong.contains(rank) implies !m.deps[rank].disjoint(
            wrong,
        ) by {
            assert(nodes.contains(nodes[rank]));
            assert(plan.nodes.contains(nodes[rank]));
            let i = choose|i: int| 0 <= i < plan.nodes.len() && plan.nodes[i] == nodes[rank];
            lemma_node(plan, i);
            if m.deps[rank].disjoint(wrong) {
                lemma_kept_deps(plan, d, g, o, i);
                assert forall|x: Seq<char>| #[trigger] data_deps(plan.nodes[i]).contains(
                    x,
                ) implies agree_on(s.outputs, renamed(plan, t.outputs), x) by {
                    assert(node_deps(plan.nodes[i]).contains(x));
                    assert(node_ids(plan.nodes).contains(x));
                    let k = choose|k: int| 0 <= k < plan.nodes.len() && (
                    #[trigger] plan.nodes[k]).id == x;
                    assert(plan.nodes.contains(plan.nodes[k]));
                    assert(nodes.contains(plan.nodes[k]));
                    let e = choose|e: int| 0 <= e < nodes.len() && nodes[e] == plan.nodes[k];
                    assert(dep_ranks(nodes, rank).contains(e));
                    assert(m.deps[rank].contains(e));
                    assert(!wrong.contains(e));
                }
                lemma_one_node(plan, d, g, o, p, s, q, t, tools, i);
            }
        }
        m.stuck_intro(wrong);
        assert(m.within(wrong));
        assert(!wrong.is_empty());
        assert(!m.stuck(wrong));
    }
}

proof fn lemma_outputs(
    plan: PlanV,
    out: PlanV,
    a: Outputs,
    b: Outputs,
    k: int,
)
    requires
        0 <= k <= plan.outputs.len(),
        out.outputs.len() == plan.outputs.len(),
        forall|i: int|
            0 <= i < plan.outputs.len() ==> (#[trigger] out.outputs[i]).0 == plan.outputs[i].0
                && out.outputs[i].1 == rewritten_ref(
                plan.outputs[i].1,
                plan_aliases(plan),
                removal_count(plan),
            ),
        forall|i: int|
            0 <= i < plan.outputs.len() ==> agree_on(
                a,
                renamed(plan, b),
                (#[trigger] plan.outputs[i]).1.node,
            ),
    ensures
        declared_outputs(plan.outputs, a, k) == declared_outputs(out.outputs, b, k),
    decreases k,
{
    if k > 0 {
        lemma_outputs(plan, out, a, b, k - 1);
        let r = plan.outputs[k - 1].1;
        assert(out.outputs[k - 1].0 == plan.outputs[k - 1].0);
        redirected_refs_agree(r, b, plan_aliases(plan), removal_count(plan));
        assert(agree_on(a, renamed(plan, b), plan.outputs[k - 1].1.node));
        assert(same_ok(resolved_ref(r, a), resolved_ref(r, renamed(plan, b))));
    }
}

/// Two such runs declare the same outputs.
pub proof fn compiled_states_declare_the_same(
    plan: PlanV,
    d: PlanV,
    g: GraphV,
    o: OptimizedV,
    p: ProgramV,
    s: RunV,
    q: ProgramV,
    t: RunV,
    tools: ToolsV,
)
    requires
        plan_valid(plan),
        is_optimized(plan, d, g, o),
        p.plan == plan,
        q.plan == o.plan,
        run_wf(p, s),
        run_wf(q, t),
        faithful(p, tools, s),
        faithful(q, tools, t),
        succeeded(p, s),
        succeeded(q, t),
    ensures
        declared_outputs(plan.outputs, s.outputs, plan.outputs.len() as int) == declared_outputs(
            o.plan.outputs,
            t.outputs,
            o.plan.outputs.len() as int,
        ),
{
    let out = o.plan;
    let aliases = plan_aliases(plan);
    let steps = removal_count(plan);
    assert(out.outputs == d.outputs);
    assert forall|i: int| 0 <= i < plan.outputs.len() implies (#[trigger] out.outputs[i]).0
        == plan.outputs[i].0 && out.outputs[i].1 == rewritten_ref(
        plan.outputs[i].1,
        aliases,
        steps,
    ) by {}
    assert forall|i: int| 0 <= i < plan.outputs.len() implies agree_on(
        s.outputs,
        renamed(plan, t.outputs),
        (#[trigger] plan.outputs[i]).1.node,
    ) by {
        let id = plan.outputs[i].1.node;
        lemma_outputs_each(node_ids(plan.nodes), plan.outputs, 0, i);
        lemma_outputs_each(node_ids(out.nodes), out.outputs, 0, i);
        assert(out.outputs[i].1.node == stand_in(plan, id));
        compiled_nodes_agree(plan, d, g, o, p, s, q, t, tools, id);
    }
    lemma_outputs(plan, out, s.outputs, t.outputs, plan.outputs.len() as int);
}

/// For every valid plan over tools that answer by their input: a serial run
/// of the plan and a parallel run of the optimized plan declare the same
/// outputs, whatever the schedules, when both succeed.
pub proof fn compiled_runs_equal_serial_runs(
    plan: PlanV,
    d: PlanV,
    g: GraphV,
    o: OptimizedV,
    p: ProgramV,
    serial: Seq<StepV>,
    q: ProgramV,
    compiled: Seq<StepV>,
    tools: ToolsV,
)
    requires
        plan_valid(plan),
        is_optimized(plan, d, g, o),
        p.plan == plan,
        program_wf(p),
        all_legal(p, serial, serial.len() as int),
        all_honest(p, tools, serial, serial.len() as int),
        succeeded(p, after_steps(p, serial, serial.len() as int)),
        q.plan == o.plan,
        program_wf(q),
        all_legal(q, compiled, compiled.len() as int),
        all_honest(q, tools, compiled, compiled.len() as int),
        succeeded(q, after_steps(q, compiled, compiled.len() as int)),
    ensures
        declared_outputs(
            plan.outputs,
            after_steps(p, serial, serial.len() as int).outputs,
            plan.outputs.len() as int,
        ) == declared_outputs(
            o.plan.outputs,
            after_steps(q, compiled, compiled.len() as int).outputs,
            o.plan.outputs.len() as int,
        ),
{
    let m = serial.len() as int;
    let n = compiled.len() as int;
    runs_stay_well_formed(p, serial, m);
    runs_are_faithful(p, tools, serial, m);
    runs_stay_well_formed(q, compiled, n);
    runs_are_faithful(q, tools, compiled, n);
    compiled_states_declare_the_same(
        plan,
        d,
        g,
        o,
        p,
        after_steps(p, serial, m),
        q,
        after_steps(q, compiled, n),
        tools,
    );
}

} // verus!
