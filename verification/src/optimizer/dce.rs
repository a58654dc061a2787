//! Elimination of nodes that nothing needs.

use vstd::prelude::*;

use crate::graph::validate::{ExecutionGraph, GraphV};
use crate::ordered::StrSet;
use crate::plan::{Node, NodeV, Plan, PlanV, ToolSpecV};
use crate::refs::RefV;

verus! {

use crate::graph::order::{
    distinct_ids, is_sorted_nodes, node_ids, sorted_nodes, sorted_nodes_unique, valid_ids,
};
use crate::graph::validate::{
    dep_ranks, dependencies_error, index_error, mentions_error, node_dependency_error, node_deps,
    node_error, outputs_error, plan_error, plan_model, referenced_nodes, tools_error,
};
use crate::ordered::{has_key, lookup, pairs_view, pairs_view_lookup, sorted_pairs, views};
use crate::refs::refs_in;
use crate::text::{lex_less, lex_less_irreflexive, texts_view};

// ---------------------------------------------------------------------------
// Model
// ---------------------------------------------------------------------------

/// The direct dependencies of a node.
pub open spec fn deps_of(g: GraphV, id: Seq<char>) -> Set<Seq<char>> {
    match lookup(g.dependencies, id) {
        Some(d) => d,
        None => Set::empty(),
    }
}

/// The nodes that outputs name and the nodes that are not pure.
pub open spec fn roots(outputs: Seq<(Seq<char>, RefV)>, g: GraphV) -> Set<Seq<char>> {
    Set::new(
        |id: Seq<char>|
            (has_key(g.dependencies, id) && named_by_output(outputs, id)) || (match lookup(
                g.resolved_effects,
                id,
            ) {
                Some(e) => !e.pure,
                None => false,
            }),
    )
}

/// Some output names the node.
pub open spec fn named_by_output(outputs: Seq<(Seq<char>, RefV)>, id: Seq<char>) -> bool {
    exists|i: int| 0 <= i < outputs.len() && (#[trigger] outputs[i]).1.node == id
}

/// With a node, `s` holds everything that it depends on.
#[verifier::opaque]
pub open spec fn closed_under_deps(g: GraphV, s: Set<Seq<char>>) -> bool {
    forall|id: Seq<char>| #[trigger] s.contains(id) ==> deps_of(g, id).subset_of(s)
}

/// The nodes that the roots need: the smallest set that holds the roots and
/// with a node everything that it depends on.
pub open spec fn needed(outputs: Seq<(Seq<char>, RefV)>, g: GraphV) -> Set<Seq<char>> {
    Set::new(
        |id: Seq<char>|
            forall|s: Set<Seq<char>>|
                roots(outputs, g).subset_of(s) && #[trigger] closed_under_deps(g, s) ==> s.contains(
                    id,
                ),
    )
}

/// The nodes among the first `k` whose id belongs to `kept`.
pub open spec fn nodes_in(nodes: Seq<NodeV>, kept: Set<Seq<char>>, k: int) -> Seq<NodeV>
    decreases k,
{
    if k <= 0 {
        Seq::empty()
    } else {
        let before = nodes_in(nodes, kept, k - 1);
        if kept.contains(nodes[k - 1].id) {
            before.push(nodes[k - 1])
        } else {
            before
        }
    }
}

/// The ids of the nodes among the first `k` that do not belong to `kept`.
pub open spec fn ids_out(nodes: Seq<NodeV>, kept: Set<Seq<char>>, k: int) -> Seq<Seq<char>>
    decreases k,
{
    if k <= 0 {
        Seq::empty()
    } else {
        let before = ids_out(nodes, kept, k - 1);
        if kept.contains(nodes[k - 1].id) {
            before
        } else {
            before.push(nodes[k - 1].id)
        }
    }
}

/// The plan without the nodes that nothing needs. A plan without outputs
/// keeps every node.
pub open spec fn trimmed(plan: PlanV, g: GraphV) -> PlanV {
    if plan.outputs.len() == 0 {
        plan
    } else {
        PlanV {
            nodes: nodes_in(plan.nodes, needed(plan.outputs, g), plan.nodes.len() as int),
            ..plan
        }
    }
}

/// The ids of the nodes that are eliminated.
pub open spec fn eliminated_ids(plan: PlanV, g: GraphV) -> Seq<Seq<char>> {
    if plan.outputs.len() == 0 {
        Seq::empty()
    } else {
        ids_out(plan.nodes, needed(plan.outputs, g), plan.nodes.len() as int)
    }
}

// ---------------------------------------------------------------------------
// Laws
// ---------------------------------------------------------------------------

/// A node that outputs name, or that is not pure, is never eliminated.
pub proof fn roots_are_needed(outputs: Seq<(Seq<char>, RefV)>, g: GraphV)
    ensures
        roots(outputs, g).subset_of(needed(outputs, g)),
{
}

/// Everything that a needed node depends on is needed.
pub proof fn needed_is_closed(outputs: Seq<(Seq<char>, RefV)>, g: GraphV)
    ensures
        closed_under_deps(g, needed(outputs, g)),
{
    reveal(closed_under_deps);
    let n = needed(outputs, g);
    assert forall|id: Seq<char>| #[trigger] n.contains(id) implies deps_of(g, id).subset_of(n) by {
        assert forall|d: Seq<char>| deps_of(g, id).contains(d) implies n.contains(d) by {
            assert forall|s: Set<Seq<char>>|
                roots(outputs, g).subset_of(s) && #[trigger] closed_under_deps(g, s) implies s.contains(
                d,
            ) by {
                assert(s.contains(id));
            }
        }
    }
}

pub proof fn lemma_nodes_in(nodes: Seq<NodeV>, kept: Set<Seq<char>>, k: int)
    requires
        0 <= k <= nodes.len(),
    ensures
        nodes_in(nodes, kept, k).len() <= k,
        forall|x: NodeV| #[trigger]
            nodes_in(nodes, kept, k).contains(x) <==> kept.contains(x.id) && nodes.take(
                k,
            ).contains(x),
    decreases k,
{
    let out = nodes_in(nodes, kept, k);
    if k > 0 {
        lemma_nodes_in(nodes, kept, k - 1);
        let before = nodes_in(nodes, kept, k - 1);
        let taken = nodes.take(k - 1);
        let next = nodes.take(k);
        assert(next =~= taken.push(nodes[k - 1]));
        assert forall|x: NodeV| #[trigger] out.contains(x) <==> kept.contains(x.id)
            && next.contains(x) by {
            lemma_push_contains(taken, nodes[k - 1], x);
            lemma_push_contains(before, nodes[k - 1], x);
            assert(before.contains(x) <==> kept.contains(x.id) && taken.contains(x));
        }
    } else {
        assert(nodes.take(0) =~= Seq::empty());
    }
}

proof fn lemma_push_contains(s: Seq<NodeV>, y: NodeV, x: NodeV)
    ensures
        s.push(y).contains(x) <==> s.contains(x) || x == y,
{
    if s.contains(x) {
        let p = choose|p: int| 0 <= p < s.len() && s[p] == x;
        assert(s.push(y)[p] == x);
    }
    assert(s.push(y)[s.len() as int] == y);
}

proof fn lemma_nodes_in_distinct(nodes: Seq<NodeV>, kept: Set<Seq<char>>, k: int)
    requires
        0 <= k <= nodes.len(),
        distinct_ids(nodes),
    ensures
        distinct_ids(nodes_in(nodes, kept, k)),
    decreases k,
{
    if k > 0 {
        let before = nodes_in(nodes, kept, k - 1);
        let out = nodes_in(nodes, kept, k);
        lemma_nodes_in_distinct(nodes, kept, k - 1);
        lemma_nodes_in(nodes, kept, k - 1);
        assert forall|i: int, j: int| 0 <= i < j < out.len() implies (#[trigger] out[i]).id != (
        #[trigger] out[j]).id by {
            assert(out[i] == before[i]);
            if j < before.len() {
                assert(out[j] == before[j]);
            } else {
                assert(before.contains(before[i]));
                let taken = nodes.take(k - 1);
                assert(taken.contains(before[i]));
                let p = choose|p: int| 0 <= p < taken.len() && taken[p] == before[i];
                assert(nodes[p] == before[i]);
                assert(nodes[p].id != nodes[k - 1].id);
            }
        }
    }
}

proof fn lemma_nodes_in_sorted(nodes: Seq<NodeV>, kept: Set<Seq<char>>, k: int)
    requires
        0 <= k <= nodes.len(),
        forall|a: int, b: int|
            0 <= a < b < nodes.len() ==> lex_less((#[trigger] nodes[a]).id, (#[trigger] nodes[b]).id),
    ensures
        forall|a: int, b: int|
            0 <= a < b < nodes_in(nodes, kept, k).len() ==> lex_less(
                (#[trigger] nodes_in(nodes, kept, k)[a]).id,
                (#[trigger] nodes_in(nodes, kept, k)[b]).id,
            ),
    decreases k,
{
    if k > 0 {
        let before = nodes_in(nodes, kept, k - 1);
        let out = nodes_in(nodes, kept, k);
        lemma_nodes_in_sorted(nodes, kept, k - 1);
        lemma_nodes_in(nodes, kept, k - 1);
        assert forall|a: int, b: int| 0 <= a < b < out.len() implies lex_less(
            (#[trigger] out[a]).id,
            (#[trigger] out[b]).id,
        ) by {
            assert(out[a] == before[a]);
            if b < before.len() {
                assert(out[b] == before[b]);
            } else {
                assert(before.contains(before[a]));
                let taken = nodes.take(k - 1);
                assert(taken.contains(before[a]));
                let p = choose|p: int| 0 <= p < taken.len() && taken[p] == before[a];
                assert(nodes[p] == before[a]);
                assert(lex_less(nodes[p].id, nodes[k - 1].id));
            }
        }
    }
}

/// Two lists of distinct nodes with the same members have the same length.
proof fn lemma_same_len(a: Seq<NodeV>, b: Seq<NodeV>)
    requires
        distinct_ids(a),
        distinct_ids(b),
        forall|x: NodeV| #[trigger] a.contains(x) <==> b.contains(x),
    ensures
        a.len() == b.len(),
{
    assert(a.no_duplicates());
    assert(b.no_duplicates());
    a.unique_seq_to_set();
    b.unique_seq_to_set();
    assert(a.to_set() =~= b.to_set()) by {
        assert forall|x: NodeV| a.to_set().contains(x) <==> b.to_set().contains(x) by {
            assert(a.contains(x) <==> b.contains(x));
        }
    }
}

proof fn lemma_sorted_distinct(s: Seq<NodeV>)
    requires
        forall|a: int, b: int|
            0 <= a < b < s.len() ==> lex_less((#[trigger] s[a]).id, (#[trigger] s[b]).id),
    ensures
        distinct_ids(s),
{
    assert forall|i: int, j: int| 0 <= i < j < s.len() implies (#[trigger] s[i]).id != (
    #[trigger] s[j]).id by {
        lex_less_irreflexive(s[i].id);
    }
}

/// Putting the kept nodes in order and keeping the ordered nodes is the same.
proof fn lemma_sorted_kept(nodes: Seq<NodeV>, kept: Set<Seq<char>>)
    requires
        distinct_ids(nodes),
        is_sorted_nodes(nodes, sorted_nodes(nodes)),
    ensures
        is_sorted_nodes(
            nodes_in(nodes, kept, nodes.len() as int),
            nodes_in(sorted_nodes(nodes), kept, nodes.len() as int),
        ),
        sorted_nodes(nodes_in(nodes, kept, nodes.len() as int)) == nodes_in(
            sorted_nodes(nodes),
            kept,
            nodes.len() as int,
        ),
{
    let n = nodes.len() as int;
    let s = sorted_nodes(nodes);
    let a = nodes_in(nodes, kept, n);
    let b = nodes_in(s, kept, n);
    lemma_nodes_in(nodes, kept, n);
    lemma_nodes_in(s, kept, n);
    lemma_nodes_in_distinct(nodes, kept, n);
    lemma_nodes_in_sorted(s, kept, n);
    lemma_sorted_distinct(b);
    assert(nodes.take(n) =~= nodes);
    assert(s.take(n) =~= s);
    assert forall|x: NodeV| #[trigger] b.contains(x) <==> a.contains(x) by {
        assert(s.contains(x) <==> nodes.contains(x));
    }
    assert forall|x: NodeV| #[trigger] a.contains(x) <==> b.contains(x) by {
        assert(b.contains(x) <==> a.contains(x));
    }
    lemma_same_len(a, b);
    assert(is_sorted_nodes(a, b));
    sorted_nodes_unique(a, b);
}

proof fn lemma_index_each(nodes: Seq<NodeV>, from: int, i: int)
    requires
        0 <= from <= i < nodes.len(),
        index_error(nodes, from) is None,
    ensures
        node_error(nodes, i) is None,
    decreases i - from,
{
    if from < i {
        lemma_index_each(nodes, from + 1, i);
    }
}

proof fn lemma_index_all(nodes: Seq<NodeV>, from: int)
    requires
        0 <= from <= nodes.len(),
        forall|i: int| 0 <= i < nodes.len() ==> node_error(nodes, i) is None,
    ensures
        index_error(nodes, from) is None,
    decreases nodes.len() - from,
{
    if from < nodes.len() {
        lemma_index_all(nodes, from + 1);
    }
}

proof fn lemma_tools_each(tools: Seq<(Seq<char>, ToolSpecV)>, nodes: Seq<NodeV>, from: int, i: int)
    requires
        0 <= from <= i < nodes.len(),
        tools_error(tools, nodes, from) is None,
    ensures
        has_key(tools, nodes[i].tool),
    decreases i - from,
{
    if from < i {
        lemma_tools_each(tools, nodes, from + 1, i);
    }
}

proof fn lemma_tools_all(tools: Seq<(Seq<char>, ToolSpecV)>, nodes: Seq<NodeV>, from: int)
    requires
        0 <= from <= nodes.len(),
        forall|i: int| 0 <= i < nodes.len() ==> has_key(tools, (#[trigger] nodes[i]).tool),
    ensures
        tools_error(tools, nodes, from) is None,
    decreases nodes.len() - from,
{
    if from < nodes.len() {
        lemma_tools_all(tools, nodes, from + 1);
    }
}

/// Every node of a plan whose dependencies are in order has no dependency error.
pub proof fn lemma_dependencies_each(ids: Set<Seq<char>>, nodes: Seq<NodeV>, from: int, i: int)
    requires
        0 <= from <= i < nodes.len(),
        dependencies_error(ids, nodes, from) is None,
    ensures
        node_dependency_error(ids, nodes[i]) is None,
    decreases i - from,
{
    if from < i {
        lemma_dependencies_each(ids, nodes, from + 1, i);
    }
}

proof fn lemma_dependencies_all(ids: Set<Seq<char>>, nodes: Seq<NodeV>, from: int)
    requires
        0 <= from <= nodes.len(),
        forall|i: int|
            0 <= i < nodes.len() ==> node_dependency_error(ids, #[trigger] nodes[i]) is None,
    ensures
        dependencies_error(ids, nodes, from) is None,
    decreases nodes.len() - from,
{
    if from < nodes.len() {
        lemma_dependencies_all(ids, nodes, from + 1);
    }
}

proof fn lemma_mentions_narrowed(
    ids: Set<Seq<char>>,
    narrow: Set<Seq<char>>,
    node: Seq<char>,
    mentions: Seq<Seq<char>>,
    from: int,
)
    requires
        0 <= from <= mentions.len(),
        mentions_error(ids, node, mentions, from) is None,
        forall|k: int| from <= k < mentions.len() ==> narrow.contains(#[trigger] mentions[k]),
    ensures
        mentions_error(narrow, node, mentions, from) is None,
    decreases mentions.len() - from,
{
    if from < mentions.len() {
        lemma_mentions_narrowed(ids, narrow, node, mentions, from + 1);
    }
}

proof fn lemma_node_narrowed(ids: Set<Seq<char>>, narrow: Set<Seq<char>>, node: NodeV)
    requires
        node_dependency_error(ids, node) is None,
        node_deps(node).subset_of(narrow),
    ensures
        node_dependency_error(narrow, node) is None,
{
    assert forall|k: int| 0 <= k < node.depends_on.len() implies narrow.contains(
        #[trigger] node.depends_on[k],
    ) by {
        assert(node_deps(node).contains(node.depends_on[k]));
    }
    lemma_mentions_narrowed(ids, narrow, node.id, node.depends_on, 0);
    let refs = refs_in(node.input)->Ok_0;
    let later = referenced_nodes(node, refs);
    assert forall|k: int| 0 <= k < later.len() implies narrow.contains(#[trigger] later[k]) by {
        assert(later.contains(later[k]));
        assert(node_deps(node).contains(later[k]));
    }
    lemma_mentions_narrowed(ids, narrow, node.id, later, 0);
}

/// Every output of a plan whose outputs are in order names a node.
pub proof fn lemma_outputs_each(
    ids: Set<Seq<char>>,
    outputs: Seq<(Seq<char>, RefV)>,
    from: int,
    i: int,
)
    requires
        0 <= from <= i < outputs.len(),
        outputs_error(ids, outputs, from) is None,
    ensures
        ids.contains(outputs[i].1.node),
    decreases i - from,
{
    if from < i {
        lemma_outputs_each(ids, outputs, from + 1, i);
    }
}

proof fn lemma_outputs_all(ids: Set<Seq<char>>, outputs: Seq<(Seq<char>, RefV)>, from: int)
    requires
        0 <= from <= outputs.len(),
        forall|i: int| 0 <= i < outputs.len() ==> ids.contains((#[trigger] outputs[i]).1.node),
    ensures
        outputs_error(ids, outputs, from) is None,
    decreases outputs.len() - from,
{
    if from < outputs.len() {
        lemma_outputs_all(ids, outputs, from + 1);
    }
}

/// The ids of a plan that passes the checks are valid and distinct.
pub proof fn valid_ids_distinct(nodes: Seq<NodeV>)
    requires
        index_error(nodes, 0) is None,
    ensures
        distinct_ids(nodes),
        valid_ids(nodes),
{
    assert forall|i: int| 0 <= i < nodes.len() implies crate::refs::node_id_error(
        (#[trigger] nodes[i]).id,
    ) is None by {
        lemma_index_each(nodes, 0, i);
    }
    assert forall|i: int, j: int| 0 <= i < j < nodes.len() implies (#[trigger] nodes[i]).id != (
    #[trigger] nodes[j]).id by {
        lemma_index_each(nodes, 0, j);
    }
}

/// The nodes that stay form a valid plan: removing nodes that no kept node
/// and no output needs can neither make a check fail nor close a cycle.
pub proof fn trimming_keeps_plans_valid(plan: PlanV, kept: Set<Seq<char>>, out: PlanV)
    requires
        plan_error(plan) is None,
        plan_model(plan).acyclic(),
        is_sorted_nodes(plan.nodes, sorted_nodes(plan.nodes)),
        out == (PlanV { nodes: nodes_in(plan.nodes, kept, plan.nodes.len() as int), ..plan }),
        forall|i: int|
            0 <= i < plan.outputs.len() ==> kept.contains((#[trigger] plan.outputs[i]).1.node),
        forall|i: int|
            0 <= i < plan.nodes.len() && kept.contains((#[trigger] plan.nodes[i]).id) ==> node_deps(
                plan.nodes[i],
            ).subset_of(kept),
    ensures
        plan_error(out) is None,
        plan_model(out).acyclic(),
        is_sorted_nodes(out.nodes, sorted_nodes(out.nodes)),
{
    let n = plan.nodes.len() as int;
    let s = sorted_nodes(plan.nodes);
    let t = sorted_nodes(out.nodes);
    let ids = node_ids(plan.nodes);
    let narrow = node_ids(out.nodes);
    valid_ids_distinct(plan.nodes);
    lemma_sorted_kept(plan.nodes, kept);
    lemma_nodes_in(plan.nodes, kept, n);
    lemma_nodes_in(s, kept, n);
    lemma_nodes_in_distinct(plan.nodes, kept, n);
    assert(plan.nodes.take(n) =~= plan.nodes);
    assert(s.take(n) =~= s);
    // Ids.
    assert forall|i: int| 0 <= i < out.nodes.len() implies node_error(out.nodes, i) is None by {
        assert(out.nodes.contains(out.nodes[i]));
        let p = choose|p: int| 0 <= p < plan.nodes.len() && plan.nodes[p] == out.nodes[i];
        lemma_index_each(plan.nodes, 0, p);
    }
    lemma_index_all(out.nodes, 0);
    // Tools.
    assert forall|i: int| 0 <= i < t.len() implies has_key(out.tools, (#[trigger] t[i]).tool) by {
        lemma_kept_rank(s, kept, t, i);
        let p = choose|p: int| 0 <= p < s.len() && s[p] == t[i];
        lemma_tools_each(plan.tools, s, 0, p);
    }
    lemma_tools_all(out.tools, t, 0);
    // Dependencies.
    assert forall|i: int| 0 <= i < t.len() implies node_dependency_error(
        narrow,
        #[trigger] t[i],
    ) is None by {
        lemma_kept_rank(s, kept, t, i);
        let p = choose|p: int| 0 <= p < s.len() && s[p] == t[i];
        lemma_dependencies_each(ids, s, 0, p);
        assert(s.contains(s[p]));
        assert(plan.nodes.contains(s[p]));
        let q = choose|q: int| 0 <= q < plan.nodes.len() && plan.nodes[q] == s[p];
        assert(node_deps(plan.nodes[q]).subset_of(kept));
        crate::graph::validate::lemma_node_deps_known(ids, t[i]);
        assert(node_deps(t[i]).subset_of(narrow)) by {
            assert forall|d: Seq<char>| node_deps(t[i]).contains(d) implies narrow.contains(d) by {
                assert(ids.contains(d));
                let k = choose|k: int| 0 <= k < plan.nodes.len() && (#[trigger] plan.nodes[k]).id == d;
                assert(plan.nodes.contains(plan.nodes[k]));
                assert(out.nodes.contains(plan.nodes[k]));
                let w = choose|w: int| 0 <= w < out.nodes.len() && out.nodes[w] == plan.nodes[k];
                assert(out.nodes[w].id == d);
            }
        }
        lemma_node_narrowed(ids, narrow, t[i]);
    }
    lemma_dependencies_all(narrow, t, 0);
    // Outputs.
    assert forall|i: int| 0 <= i < out.outputs.len() implies narrow.contains(
        (#[trigger] out.outputs[i]).1.node,
    ) by {
        lemma_outputs_each(ids, plan.outputs, 0, i);
        let d = plan.outputs[i].1.node;
        let k = choose|k: int| 0 <= k < plan.nodes.len() && (#[trigger] plan.nodes[k]).id == d;
        assert(plan.nodes.contains(plan.nodes[k]));
        assert(out.nodes.contains(plan.nodes[k]));
        let w = choose|w: int| 0 <= w < out.nodes.len() && out.nodes[w] == plan.nodes[k];
        assert(out.nodes[w].id == d);
    }
    lemma_outputs_all(narrow, out.outputs, 0);
    assert(plan_error(out) is None);
    // Cycles.
    lemma_kept_acyclic(plan, kept, out);
}

proof fn lemma_kept_rank(s: Seq<NodeV>, kept: Set<Seq<char>>, t: Seq<NodeV>, i: int)
    requires
        t == nodes_in(s, kept, s.len() as int),
        0 <= i < t.len(),
    ensures
        exists|p: int| 0 <= p < s.len() && s[p] == t[i],
        kept.contains(t[i].id),
{
    lemma_nodes_in(s, kept, s.len() as int);
    assert(s.take(s.len() as int) =~= s);
    assert(t.contains(t[i]));
    assert(s.contains(t[i]));
}

proof fn lemma_kept_acyclic(plan: PlanV, kept: Set<Seq<char>>, out: PlanV)
    requires
        plan_model(plan).acyclic(),
        sorted_nodes(out.nodes) == nodes_in(
            sorted_nodes(plan.nodes),
            kept,
            sorted_nodes(plan.nodes).len() as int,
        ),
    ensures
        plan_model(out).acyclic(),
{
    let s = sorted_nodes(plan.nodes);
    let t = sorted_nodes(out.nodes);
    let m = plan_model(plan);
    let mo = plan_model(out);
    assert forall|c: Set<int>|
        #![trigger mo.stuck(c)]
        mo.within(c) && !c.is_empty() implies !mo.stuck(c) by {
        if mo.stuck(c) {
            let big = Set::new(
                |p: int| 0 <= p < s.len() && exists|i: int| #[trigger] c.contains(i) && t[i] == s[p],
            );
            let i0 = choose|i: int| c.contains(i);
            assert(c.contains(i0));
            lemma_kept_rank(s, kept, t, i0);
            let p0 = choose|p: int| 0 <= p < s.len() && s[p] == t[i0];
            assert(big.contains(p0));
            assert(m.within(big));
            assert forall|p: int| #[trigger] big.contains(p) implies !m.deps[p].disjoint(big) by {
                let i = choose|i: int| #[trigger] c.contains(i) && t[i] == s[p];
                let j = mo.stuck_step(c, i);
                lemma_kept_rank(s, kept, t, j);
                let q = choose|q: int| 0 <= q < s.len() && s[q] == t[j];
                assert(big.contains(q));
                assert(dep_ranks(t, i).contains(j));
                assert(dep_ranks(s, p).contains(q));
                assert(m.deps[p].contains(q));
            }
            m.stuck_intro(big);
            assert(!m.stuck(big));
        }
    }
}

// ---------------------------------------------------------------------------
// The pass
// ---------------------------------------------------------------------------

/// Every closed set that holds the roots holds the listed ids.
spec fn all_needed(outputs: Seq<(Seq<char>, RefV)>, g: GraphV, ids: Seq<Seq<char>>) -> bool {
    forall|i: int| 0 <= i < ids.len() ==> needed(outputs, g).contains(#[trigger] ids[i])
}

fn root_ids(plan: &Plan, graph: &ExecutionGraph) -> (r: Vec<String>)
    ensures
        texts_view(r@).to_set() == roots(plan@.outputs, graph@),
{
    let mut out: Vec<String> = Vec::new();
    let dependencies = graph.dependencies();
    let effects = graph.resolved_effects();
    let ghost g = graph@;
    let ghost outputs = plan@.outputs;
    dependencies.prove_sorted();
    effects.prove_sorted();
    let mut i: usize = 0;
    while i < plan.outputs.len()
        invariant
            i <= outputs.len(),
            outputs == pairs_view(plan.outputs),
            g.dependencies == pairs_view(*dependencies),
            sorted_pairs(dependencies.pairs()),
            forall|id: Seq<char>| #[trigger]
                texts_view(out@).contains(id) <==> has_key(g.dependencies, id) && exists|k: int|
                    0 <= k < i && (#[trigger] outputs[k]).1.node == id,
        decreases outputs.len() - i,
    {
        let node = plan.outputs.value_at(i).node();
        let ghost out0 = out@;
        let ghost x = node@;
        proof {
            pairs_view_lookup(*dependencies, x);
            assert(outputs[i as int].1.node == x);
        }
        let known = dependencies.contains_key(node);
        if known {
            out.push(node.to_owned());
        }
        proof {
            assert forall|id: Seq<char>| #[trigger] texts_view(out@).contains(id) <==> has_key(
                g.dependencies,
                id,
            ) && exists|k: int| 0 <= k < i + 1 && (#[trigger] outputs[k]).1.node == id by {
                if known {
                    assert(texts_view(out@) =~= texts_view(out0).push(x));
                    lemma_text_push(texts_view(out0), x, id);
                }
                assert(texts_view(out0).contains(id) <==> has_key(g.dependencies, id) && exists|
                    k: int,
                |
                    0 <= k < i && (#[trigger] outputs[k]).1.node == id);
                if exists|k: int| 0 <= k < i && (#[trigger] outputs[k]).1.node == id {
                    let k = choose|k: int| 0 <= k < i && (#[trigger] outputs[k]).1.node == id;
                    assert(outputs[k].1.node == id);
                }
            }
        }
        i = i + 1;
    }
    let ghost from_outputs = texts_view(out@);
    let mut i: usize = 0;
    while i < effects.len()
        invariant
            i <= effects.pairs().len(),
            g.resolved_effects == pairs_view(*effects),
            sorted_pairs(effects.pairs()),
            forall|id: Seq<char>| #[trigger]
                texts_view(out@).contains(id) <==> from_outputs.contains(id) || exists|k: int|
                    0 <= k < i && (#[trigger] effects.pairs()[k]).0 == id
                        && !effects.pairs()[k].1.pure,
        decreases effects.pairs().len() - i,
    {
        let ghost out0 = out@;
        let ghost x = effects.pairs()[i as int].0;
        let impure = !effects.value_at(i).pure;
        if impure {
            out.push(effects.key_at(i).to_owned());
        }
        proof {
            assert forall|id: Seq<char>| #[trigger] texts_view(out@).contains(id)
                <==> from_outputs.contains(id) || exists|k: int|
                0 <= k < i + 1 && (#[trigger] effects.pairs()[k]).0 == id
                    && !effects.pairs()[k].1.pure by {
                if impure {
                    assert(texts_view(out@) =~= texts_view(out0).push(x));
                    lemma_text_push(texts_view(out0), x, id);
                    assert(effects.pairs()[i as int].0 == x);
                }
                if exists|k: int|
                    0 <= k < i && (#[trigger] effects.pairs()[k]).0 == id
                        && !effects.pairs()[k].1.pure {
                    let k = choose|k: int|
                        0 <= k < i && (#[trigger] effects.pairs()[k]).0 == id
                            && !effects.pairs()[k].1.pure;
                    assert(effects.pairs()[k].0 == id);
                }
            }
        }
        i = i + 1;
    }
    proof {
        let all = texts_view(out@);
        assert forall|id: Seq<char>| all.to_set().contains(id) <==> roots(outputs, g).contains(id) by {
            assert(all.contains(id) <==> from_outputs.contains(id) || exists|k: int|
                0 <= k < effects.pairs().len() && (#[trigger] effects.pairs()[k]).0 == id
                    && !effects.pairs()[k].1.pure);
            pairs_view_lookup(*effects, id);
            if exists|k: int|
                0 <= k < effects.pairs().len() && (#[trigger] effects.pairs()[k]).0 == id
                    && !effects.pairs()[k].1.pure {
                let k = choose|k: int|
                    0 <= k < effects.pairs().len() && (#[trigger] effects.pairs()[k]).0 == id
                        && !effects.pairs()[k].1.pure;
                crate::ordered::sorted_position(effects.pairs(), k);
            }
            if has_key(effects.pairs(), id) {
                let k = crate::ordered::key_position(effects.pairs(), id);
                assert(effects.pairs()[k].0 == id);
            }
        }
        assert(all.to_set() =~= roots(outputs, g));
    }
    out
}

proof fn lemma_text_push(s: Seq<Seq<char>>, y: Seq<char>, x: Seq<char>)
    ensures
        s.push(y).contains(x) <==> s.contains(x) || x == y,
{
    if s.contains(x) {
        let p = choose|p: int| 0 <= p < s.len() && s[p] == x;
        assert(s.push(y)[p] == x);
    }
    assert(s.push(y)[s.len() as int] == y);
}

/// How many keys of the graph are not in the set.
spec fn missing_keys(pairs: Seq<(Seq<char>, StrSet)>, kept: Set<Seq<char>>) -> nat
    decreases pairs.len(),
{
    if pairs.len() == 0 {
        0
    } else {
        missing_keys(pairs.drop_last(), kept) + if kept.contains(pairs.last().0) {
            0nat
        } else {
            1nat
        }
    }
}

proof fn lemma_missing_insert(pairs: Seq<(Seq<char>, StrSet)>, kept: Set<Seq<char>>, id: Seq<char>)
    ensures
        missing_keys(pairs, kept.insert(id)) <= missing_keys(pairs, kept),
        has_key(pairs, id) && !kept.contains(id) ==> missing_keys(pairs, kept.insert(id))
            < missing_keys(pairs, kept),
    decreases pairs.len(),
{
    if pairs.len() > 0 {
        lemma_missing_insert(pairs.drop_last(), kept, id);
        if has_key(pairs, id) && pairs.last().0 != id {
            let p = crate::ordered::key_position(pairs, id);
            assert(pairs[p].0 == id);
            assert(pairs.drop_last()[p].0 == id);
        }
    }
}

/// The ids that the roots need.
fn needed_ids(plan: &Plan, graph: &ExecutionGraph) -> (r: StrSet)
    ensures
        r@ == needed(plan@.outputs, graph@),
{
    let ghost g = graph@;
    let ghost outputs = plan@.outputs;
    let dependencies = graph.dependencies();
    dependencies.prove_sorted();
    let mut stack = root_ids(plan, graph);
    let mut kept = StrSet::new();
    proof {
        assert forall|i: int| 0 <= i < texts_view(stack@).len() implies needed(
            outputs,
            g,
        ).contains(#[trigger] texts_view(stack@)[i]) by {
            assert(texts_view(stack@).contains(texts_view(stack@)[i]));
            assert(roots(outputs, g).contains(texts_view(stack@)[i]));
        }
        assert forall|id: Seq<char>| roots(outputs, g).contains(id) implies kept@.contains(id)
            || texts_view(stack@).contains(id) by {
            assert(texts_view(stack@).to_set().contains(id));
        }
    }
    while stack.len() > 0
        invariant
            g == graph@,
            outputs == plan@.outputs,
            g.dependencies == pairs_view(*dependencies),
            sorted_pairs(dependencies.pairs()),
            all_needed(outputs, g, texts_view(stack@)),
            kept@.subset_of(needed(outputs, g)),
            forall|id: Seq<char>|
                roots(outputs, g).contains(id) ==> kept@.contains(id) || texts_view(
                    stack@,
                ).contains(id),
            forall|id: Seq<char>, d: Seq<char>|
                kept@.contains(id) && #[trigger] deps_of(g, id).contains(d) ==> kept@.contains(d)
                    || texts_view(stack@).contains(d),
        decreases missing_keys(dependencies.pairs(), kept@), stack@.len(),
    {
        let ghost stack0 = texts_view(stack@);
        let ghost kept0 = kept@;
        let node = stack.pop().unwrap();
        let ghost x = node@;
        let ghost stack1 = texts_view(stack@);
        proof {
            assert(stack0 =~= stack1.push(x));
            assert(stack0[stack0.len() - 1] == x);
            assert(needed(outputs, g).contains(x));
            assert forall|k: int| 0 <= k < stack1.len() implies needed(outputs, g).contains(
                #[trigger] stack1[k],
            ) by {
                assert(stack1[k] == stack0[k]);
            }
            assert(all_needed(outputs, g, stack1));
            lemma_missing_insert(dependencies.pairs(), kept0, x);
            pairs_view_lookup(*dependencies, x);
        }
        let fresh = kept.insert(node.clone());
        if fresh {
            match dependencies.get(node.as_str()) {
                Some(deps) => {
                    assert(deps_of(g, x) == deps@);
                    assert(deps.items().take(0) =~= Seq::empty());
                    let mut i: usize = 0;
                    while i < deps.len()
                        invariant
                            i <= deps.items().len(),
                            deps@ == deps_of(g, x),
                            needed(outputs, g).contains(x),
                            all_needed(outputs, g, texts_view(stack@)),
                            forall|id: Seq<char>| #[trigger]
                                texts_view(stack@).contains(id) <==> stack1.contains(id)
                                    || deps.items().take(i as int).contains(id),
                        decreases deps.items().len() - i,
                    {
                        let ghost s0 = texts_view(stack@);
                        let dep = deps.item_at(i);
                        let ghost d = dep@;
                        stack.push(dep.to_owned());
                        proof {
                            needed_is_closed(outputs, g);
                            reveal(closed_under_deps);
                            assert(needed(outputs, g).contains(x));
                            assert(needed(outputs, g).contains(d));
                            let s1 = texts_view(stack@);
                            assert(s1 =~= s0.push(d));
                            assert forall|k: int| 0 <= k < s1.len() implies needed(
                                outputs,
                                g,
                            ).contains(#[trigger] s1[k]) by {
                                if k < s0.len() {
                                    assert(s1[k] == s0[k]);
                                }
                            }
                            let taken = deps.items().take(i as int);
                            let next = deps.items().take(i + 1);
                            assert(next =~= taken.push(d));
                            assert forall|id: Seq<char>| #[trigger] s1.contains(id)
                                <==> stack1.contains(id) || next.contains(id) by {
                                lemma_text_push(s0, d, id);
                                lemma_text_push(taken, d, id);
                                assert(s0.contains(id) <==> stack1.contains(id) || taken.contains(
                                    id,
                                ));
                            }
                        }
                        i = i + 1;
                    }
                    proof {
                        assert(deps.items().take(i as int) =~= deps.items());
                    }
                },
                None => {
                    assert(deps_of(g, x) == Set::<Seq<char>>::empty());
                },
            }
        }
        proof {
            let s = texts_view(stack@);
            assert forall|id: Seq<char>| stack0.contains(id) implies s.contains(id) || id == x by {
                lemma_text_push(stack1, x, id);
            }
            assert forall|id: Seq<char>, d: Seq<char>|
                kept@.contains(id) && #[trigger] deps_of(g, id).contains(d) implies kept@.contains(
                d,
            ) || s.contains(d) by {
                if id == x && fresh {
                    // Everything that the node depends on was put on the stack.
                } else {
                    assert(kept0.contains(id));
                    assert(kept0.contains(d) || stack0.contains(d));
                }
            }
            if fresh && !has_key(dependencies.pairs(), x) {
                assert(s.len() < stack0.len());
            }
        }
    }
    proof {
        reveal(closed_under_deps);
        assert(texts_view(stack@).len() == 0);
        assert(closed_under_deps(g, kept@)) by {
            assert forall|id: Seq<char>| #[trigger] kept@.contains(id) implies deps_of(
                g,
                id,
            ).subset_of(kept@) by {
                assert forall|d: Seq<char>| deps_of(g, id).contains(d) implies kept@.contains(d) by {
                    assert(deps_of(g, id).contains(d));
                }
            }
        }
        assert(roots(outputs, g).subset_of(kept@));
        assert(kept@ =~= needed(outputs, g));
    }
    kept
}

fn keep_nodes(nodes: &Vec<Node>, kept: &StrSet) -> (r: (Vec<Node>, Vec<String>))
    ensures
        views(r.0@) == nodes_in(views(nodes@), kept@, nodes@.len() as int),
        texts_view(r.1@) == ids_out(views(nodes@), kept@, nodes@.len() as int),
        r.0@.len() <= nodes@.len(),
{
    let ghost ns = views(nodes@);
    let mut stay: Vec<Node> = Vec::new();
    let mut gone: Vec<String> = Vec::new();
    let mut i: usize = 0;
    assert(views(stay@) =~= Seq::empty());
    assert(texts_view(gone@) =~= Seq::empty());
    while i < nodes.len()
        invariant
            i <= nodes@.len(),
            ns == views(nodes@),
            stay@.len() <= i,
            views(stay@) == nodes_in(ns, kept@, i as int),
            texts_view(gone@) == ids_out(ns, kept@, i as int),
        decreases nodes.len() - i,
    {
        let node = &nodes[i];
        assert(ns[i as int] == node@);
        if kept.contains(node.id.as_str()) {
            let ghost before = stay@;
            stay.push(node.clone());
            assert(views(stay@) =~= views(before).push(ns[i as int]));
        } else {
            let ghost before = gone@;
            gone.push(node.id.clone());
            assert(texts_view(gone@) =~= texts_view(before).push(ns[i as int].id));
        }
        i = i + 1;
    }
    (stay, gone)
}

/// Removes the nodes that neither outputs nor effectful nodes need. A plan
/// that declares no outputs keeps all of them.
pub fn eliminate_dead_nodes(plan: Plan, graph: &ExecutionGraph) -> (r: (Plan, Vec<String>))
    ensures
        r.0@ == trimmed(plan@, graph@),
        texts_view(r.1@) == eliminated_ids(plan@, graph@),
        r.0.nodes@.len() <= plan.nodes@.len(),
{
    if plan.outputs.is_empty() {
        let none: Vec<String> = Vec::new();
        assert(texts_view(none@) =~= Seq::empty());
        return (plan, none);
    }
    let kept = needed_ids(&plan, graph);
    let (nodes, gone) = keep_nodes(&plan.nodes, &kept);
    let out = Plan {
        version: plan.version,
        name: plan.name,
        description: plan.description,
        tools: plan.tools,
        nodes,
        outputs: plan.outputs,
    };
    (out, gone)
}

} // verus!
