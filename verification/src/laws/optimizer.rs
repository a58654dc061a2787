//! What the optimizer removes, keeps and bundles.

use vstd::prelude::*;

use crate::effects::EffectsV;
use crate::graph::validate::GraphV;
use crate::optimizer::batch::BatchV;
use crate::optimizer::rewrite::Aliases;
use crate::plan::{NodeV, PlanV, ToolLimits, ToolSpecV};
use crate::refs::RefV;

verus! {

use crate::canonical::canonical;
use crate::optimizer::batch::{
    all_groups, batch_members, chunk_groups, chunk_size, joins_batch, layer_groups, may_batch,
    tool_groups,
};
use crate::optimizer::dce::{
    closed_under_deps, deps_of, eliminated_ids, ids_out, lemma_nodes_in, needed, needed_is_closed,
    roots, trimmed,
};
use crate::optimizer::dedup::{
    dedup_key_of, find_key_first, first_same, is_duplicate, kept_nodes, removed_nodes,
};
use crate::optimizer::pipeline::report_of;
use crate::optimizer::rewrite::{follow, followed_set, is_rewritten_node};
use crate::ordered::{has_key, lookup};

// ---------------------------------------------------------------------------
// Duplicates
// ---------------------------------------------------------------------------

/// The effects that the plan declares for the tool.
pub open spec fn declared(tools: Seq<(Seq<char>, ToolSpecV)>, tool: Seq<char>, e: EffectsV) -> bool {
    lookup(tools, tool) matches Some(t) && t.effects == Some(e)
}

/// A call of a pure tool that an earlier node makes already, with the same
/// input, fan-out and condition, is a duplicate, whatever it waits for. A call
/// of a cacheable tool is one when it also waits for the same nodes.
pub proof fn repeated_calls_are_duplicates(
    tools: Seq<(Seq<char>, ToolSpecV)>,
    nodes: Seq<NodeV>,
    i: int,
    j: int,
    e: EffectsV,
)
    requires
        0 <= i < j < nodes.len(),
        declared(tools, nodes[j].tool, e),
        e.pure || (e.cacheable && nodes[i].depends_on == nodes[j].depends_on),
        nodes[i].tool == nodes[j].tool,
        nodes[i].input == nodes[j].input,
        nodes[i].for_each == nodes[j].for_each,
        nodes[i].when == nodes[j].when,
    ensures
        is_duplicate(tools, nodes, j),
        first_same(tools, nodes, j) <= i,
{
    find_key_first(tools, nodes, dedup_key_of(tools, nodes[j])->0, 0);
    assert(dedup_key_of(tools, nodes[i]) == dedup_key_of(tools, nodes[j]));
}

/// Calls of a tool that is cacheable but not pure are merged only where they
/// wait for the same nodes.
pub proof fn cacheable_calls_keep_their_order(
    tools: Seq<(Seq<char>, ToolSpecV)>,
    nodes: Seq<NodeV>,
    j: int,
    e: EffectsV,
)
    requires
        0 <= j < nodes.len(),
        declared(tools, nodes[j].tool, e),
        !e.pure,
        is_duplicate(tools, nodes, j),
    ensures
        e.cacheable,
        nodes[first_same(tools, nodes, j)].depends_on == nodes[j].depends_on,
{
    find_key_first(tools, nodes, dedup_key_of(tools, nodes[j])->0, 0);
}

/// A duplicate runs under the condition of the node that replaces it: on the
/// same output, compared with the same value, and with the same sign.
pub proof fn duplicates_run_under_the_same_condition(
    tools: Seq<(Seq<char>, ToolSpecV)>,
    nodes: Seq<NodeV>,
    i: int,
)
    requires
        0 <= i < nodes.len(),
        is_duplicate(tools, nodes, i),
    ensures
        ({
            let a = nodes[first_same(tools, nodes, i)];
            let b = nodes[i];
            &&& a.tool == b.tool
            &&& canonical(a.input) == canonical(b.input)
            &&& a.for_each == b.for_each
            &&& a.when is Some <==> b.when is Some
            &&& a.when is Some ==> {
                &&& a.when->0.target == b.when->0.target
                &&& a.when->0.not == b.when->0.not
                &&& a.when->0.equals is Some <==> b.when->0.equals is Some
                &&& a.when->0.equals is Some ==> canonical(a.when->0.equals->0) == canonical(
                    b.when->0.equals->0,
                )
            }
        }),
{
    find_key_first(tools, nodes, dedup_key_of(tools, nodes[i])->0, 0);
}

/// Once duplicates are replaced, a node waits for and reads the nodes that
/// stand for those it named: a node that stays for itself, a removed one for
/// the node that replaces it.
pub proof fn stand_ins_are_referred_to(
    node: NodeV,
    n: NodeV,
    aliases: Aliases,
    steps: nat,
    d: Seq<char>,
    c: Seq<char>,
)
    requires
        is_rewritten_node(node, n, aliases, steps),
        steps >= 1,
        c == d && !aliases.dom().contains(d) || aliases.dom().contains(d) && aliases[d] == c
            && !aliases.dom().contains(c),
    ensures
        n.id == node.id,
        n.tool == node.tool,
        node.depends_on.contains(d) ==> n.depends_on.contains(c),
        node.depends_on.len() == 0 ==> n.depends_on.len() == 0,
        node.for_each is Some <==> n.for_each is Some,
        node.for_each is Some && node.for_each->0.node == d ==> n.for_each->0 == (RefV {
            node: c,
            path: node.for_each->0.path,
        }),
        node.when is Some <==> n.when is Some,
        node.when is Some && node.when->0.target.node == d ==> {
            &&& n.when->0.target == (RefV { node: c, path: node.when->0.target.path })
            &&& n.when->0.equals == node.when->0.equals
            &&& n.when->0.not == node.when->0.not
        },
{
    reveal_with_fuel(follow, 2);
    assert(follow(aliases, d, steps) == c) by {
        if aliases.dom().contains(d) {
            assert(follow(aliases, c, (steps - 1) as nat) == c);
        }
    }
    let all = followed_set(node.depends_on, aliases, steps);
    if node.depends_on.contains(d) {
        let x = choose|x: int| 0 <= x < node.depends_on.len() && node.depends_on[x] == d;
        assert(all.contains(follow(aliases, node.depends_on[x], steps)));
        assert(n.depends_on.to_set().contains(c));
    }
    if node.depends_on.len() == 0 && n.depends_on.len() > 0 {
        assert(n.depends_on.contains(n.depends_on[0]));
        assert(n.depends_on.to_set().contains(n.depends_on[0]));
        assert(all.contains(n.depends_on[0]));
    }
}

proof fn lemma_kept(tools: Seq<(Seq<char>, ToolSpecV)>, nodes: Seq<NodeV>, k: int, i: int)
    requires
        0 <= i < k <= nodes.len(),
    ensures
        !is_duplicate(tools, nodes, i) ==> kept_nodes(tools, nodes, k).contains(nodes[i]),
        is_duplicate(tools, nodes, i) ==> removed_nodes(tools, nodes, k).contains(
            (nodes[i].id, nodes[first_same(tools, nodes, i)].id),
        ),
    decreases k,
{
    let kept = kept_nodes(tools, nodes, k);
    let removed = removed_nodes(tools, nodes, k);
    let kept0 = kept_nodes(tools, nodes, k - 1);
    let removed0 = removed_nodes(tools, nodes, k - 1);
    if i < k - 1 {
        lemma_kept(tools, nodes, k - 1, i);
        if !is_duplicate(tools, nodes, i) {
            let x = choose|x: int| 0 <= x < kept0.len() && kept0[x] == nodes[i];
            assert(kept[x] == nodes[i]);
        } else {
            let pair = (nodes[i].id, nodes[first_same(tools, nodes, i)].id);
            let x = choose|x: int| 0 <= x < removed0.len() && removed0[x] == pair;
            assert(removed[x] == pair);
        }
    } else {
        if is_duplicate(tools, nodes, i) {
            assert(removed.last() == (nodes[i].id, nodes[first_same(tools, nodes, i)].id));
        } else {
            assert(kept.last() == nodes[i]);
        }
    }
}

/// Every node stays or is removed: one that is no duplicate stays, and a
/// duplicate is removed in favour of the first node that makes its call.
pub proof fn nodes_stay_or_are_replaced(
    tools: Seq<(Seq<char>, ToolSpecV)>,
    nodes: Seq<NodeV>,
    i: int,
)
    requires
        0 <= i < nodes.len(),
    ensures
        !is_duplicate(tools, nodes, i) ==> kept_nodes(
            tools,
            nodes,
            nodes.len() as int,
        ).contains(nodes[i]),
        is_duplicate(tools, nodes, i) ==> removed_nodes(
            tools,
            nodes,
            nodes.len() as int,
        ).contains((nodes[i].id, nodes[first_same(tools, nodes, i)].id)),
        kept_nodes(tools, nodes, nodes.len() as int).len() + removed_nodes(
            tools,
            nodes,
            nodes.len() as int,
        ).len() == nodes.len(),
{
    lemma_kept(tools, nodes, nodes.len() as int, i);
    lemma_counts(tools, nodes, nodes.len() as int);
}

proof fn lemma_counts(tools: Seq<(Seq<char>, ToolSpecV)>, nodes: Seq<NodeV>, k: int)
    requires
        0 <= k <= nodes.len(),
    ensures
        kept_nodes(tools, nodes, k).len() + removed_nodes(tools, nodes, k).len() == k,
    decreases k,
{
    if k > 0 {
        lemma_counts(tools, nodes, k - 1);
    }
}

// ---------------------------------------------------------------------------
// Dead nodes
// ---------------------------------------------------------------------------

/// A node that an output names, a node with effects of its own, and every node
/// that a needed node depends on are needed.
pub proof fn what_matters_is_needed(
    outputs: Seq<(Seq<char>, RefV)>,
    g: GraphV,
    id: Seq<char>,
)
    ensures
        forall|i: int|
            0 <= i < outputs.len() && (#[trigger] outputs[i]).1.node == id && has_key(
                g.dependencies,
                id,
            ) ==> needed(outputs, g).contains(id),
        lookup(g.resolved_effects, id) matches Some(e) ==> (!e.pure ==> needed(
            outputs,
            g,
        ).contains(id)),
        forall|d: Seq<char>|
            needed(outputs, g).contains(id) && #[trigger] deps_of(g, id).contains(d) ==> needed(
                outputs,
                g,
            ).contains(d),
{
    needed_is_closed(outputs, g);
    reveal(closed_under_deps);
    if needed(outputs, g).contains(id) {
        assert(deps_of(g, id).subset_of(needed(outputs, g)));
    }
    if lookup(g.resolved_effects, id) is Some && !lookup(g.resolved_effects, id)->0.pure {
        assert(roots(outputs, g).contains(id));
    }
    assert forall|i: int|
        0 <= i < outputs.len() && (#[trigger] outputs[i]).1.node == id && has_key(
            g.dependencies,
            id,
        ) implies needed(outputs, g).contains(id) by {
        assert(roots(outputs, g).contains(id));
    }
}

/// A pure node that no output names and on which no needed node depends is
/// not needed.
pub proof fn unused_pure_nodes_are_not_needed(
    outputs: Seq<(Seq<char>, RefV)>,
    g: GraphV,
    id: Seq<char>,
)
    requires
        forall|i: int| 0 <= i < outputs.len() ==> (#[trigger] outputs[i]).1.node != id,
        lookup(g.resolved_effects, id) matches Some(e) && e.pure,
        forall|u: Seq<char>|
            u != id && needed(outputs, g).contains(u) ==> !(#[trigger] deps_of(g, u)).contains(id),
    ensures
        !needed(outputs, g).contains(id),
{
    reveal(closed_under_deps);
    let all = needed(outputs, g);
    let s = all.remove(id);
    needed_is_closed(outputs, g);
    assert(roots(outputs, g).subset_of(s)) by {
        assert forall|x: Seq<char>| roots(outputs, g).contains(x) implies s.contains(x) by {
            assert(all.contains(x));
            assert(x != id);
        }
    }
    assert(closed_under_deps(g, s)) by {
        assert forall|u: Seq<char>| #[trigger] s.contains(u) implies deps_of(g, u).subset_of(s) by {
            assert(all.contains(u));
            assert(deps_of(g, u).subset_of(all));
            assert(!deps_of(g, u).contains(id));
        }
    }
}

proof fn lemma_ids_out(nodes: Seq<NodeV>, kept: Set<Seq<char>>, k: int, i: int)
    requires
        0 <= i < k <= nodes.len(),
        !kept.contains(nodes[i].id),
    ensures
        ids_out(nodes, kept, k).contains(nodes[i].id),
    decreases k,
{
    let out = ids_out(nodes, kept, k);
    let before = ids_out(nodes, kept, k - 1);
    if i < k - 1 {
        lemma_ids_out(nodes, kept, k - 1, i);
        let x = choose|x: int| 0 <= x < before.len() && before[x] == nodes[i].id;
        assert(out[x] == nodes[i].id);
    } else {
        assert(out.last() == nodes[i].id);
    }
}

proof fn lemma_ids_out_kept(nodes: Seq<NodeV>, kept: Set<Seq<char>>, k: int, x: int)
    requires
        0 <= k <= nodes.len(),
        0 <= x < ids_out(nodes, kept, k).len(),
    ensures
        !kept.contains(ids_out(nodes, kept, k)[x]),
    decreases k,
{
    let before = ids_out(nodes, kept, k - 1);
    if x < before.len() {
        lemma_ids_out_kept(nodes, kept, k - 1, x);
    }
}

/// Where a plan has outputs, exactly the needed nodes stay, and the others are
/// reported; a plan without outputs keeps every node.
pub proof fn trimming_keeps_what_is_needed(plan: PlanV, g: GraphV, i: int)
    requires
        0 <= i < plan.nodes.len(),
    ensures
        plan.outputs.len() == 0 ==> trimmed(plan, g) == plan && eliminated_ids(plan, g).len() == 0,
        plan.outputs.len() > 0 && needed(plan.outputs, g).contains(plan.nodes[i].id) ==> trimmed(
            plan,
            g,
        ).nodes.contains(plan.nodes[i]) && !eliminated_ids(plan, g).contains(plan.nodes[i].id),
        plan.outputs.len() > 0 && !needed(plan.outputs, g).contains(plan.nodes[i].id) ==> !trimmed(
            plan,
            g,
        ).nodes.contains(plan.nodes[i]) && eliminated_ids(plan, g).contains(plan.nodes[i].id),
        trimmed(plan, g).outputs == plan.outputs,
        trimmed(plan, g).tools == plan.tools,
{
    let n = plan.nodes.len() as int;
    let kept = needed(plan.outputs, g);
    lemma_nodes_in(plan.nodes, kept, n);
    assert(plan.nodes.take(n) =~= plan.nodes);
    assert(plan.nodes.contains(plan.nodes[i]));
    if !kept.contains(plan.nodes[i].id) {
        lemma_ids_out(plan.nodes, kept, n, i);
    } else if ids_out(plan.nodes, kept, n).contains(plan.nodes[i].id) {
        let out = ids_out(plan.nodes, kept, n);
        let x = choose|x: int| 0 <= x < out.len() && out[x] == plan.nodes[i].id;
        lemma_ids_out_kept(plan.nodes, kept, n, x);
    }
}

// ---------------------------------------------------------------------------
// Batches
// ---------------------------------------------------------------------------

proof fn lemma_member(plan: PlanV, layer: Seq<Seq<char>>, tool: Seq<char>, x: int)
    requires
        0 <= x < layer.len(),
        joins_batch(plan, layer[x], tool),
    ensures
        batch_members(plan, layer, tool).contains(layer[x]),
    decreases layer.len(),
{
    let all = batch_members(plan, layer, tool);
    if x < layer.len() - 1 {
        let front = layer.drop_last();
        lemma_member(plan, front, tool, x);
        let before = batch_members(plan, front, tool);
        let k = choose|k: int| 0 <= k < before.len() && before[k] == front[x];
        assert(all[k] == layer[x]);
    } else {
        assert(all.last() == layer[x]);
    }
}

/// Which calls may be batched: those of a tool that declares itself batchable,
/// unless they fan out.
pub proof fn batchable_calls_may_batch(
    tools: Seq<(Seq<char>, ToolSpecV)>,
    node: NodeV,
    e: EffectsV,
)
    requires
        declared(tools, node.tool, e),
    ensures
        may_batch(tools, node) <==> e.batchable && node.for_each is None,
{
}

/// Chunks are cut off one after the other: the first holds the first `size`
/// members, and the rest is cut in the same way. A single member left over is
/// no batch.
pub proof fn chunks_are_cut_in_order(
    adapter: Seq<char>,
    tool: Seq<char>,
    a: Seq<Seq<char>>,
    b: Seq<Seq<char>>,
    size: nat,
)
    requires
        size >= 2,
        a.len() == size || (2 <= a.len() < size && b.len() == 0),
    ensures
        chunk_groups(adapter, tool, a + b, size) == seq![BatchV { adapter, tool, nodes: a }]
            + chunk_groups(adapter, tool, b, size),
        forall|one: Seq<char>| #[trigger] chunk_groups(adapter, tool, seq![one], size).len() == 0,
        chunk_groups(adapter, tool, Seq::empty(), size).len() == 0,
{
    let all = a + b;
    assert(all.take(a.len() as int) =~= a);
    assert(all.skip(a.len() as int) =~= b);
    assert forall|one: Seq<char>| #[trigger]
        chunk_groups(adapter, tool, seq![one], size).len() == 0 by {
        assert(seq![one].skip(1) =~= Seq::empty());
        assert(chunk_groups(adapter, tool, seq![one].skip(1), size).len() == 0);
    }
}

proof fn lemma_in_layer_groups(plan: PlanV, layer: Seq<Seq<char>>, t: int, k: int, g: BatchV)
    requires
        0 <= k < t <= plan.tools.len(),
        tool_groups(plan, layer, plan.tools[k]).contains(g),
    ensures
        layer_groups(plan, layer, t).contains(g),
    decreases t,
{
    let before = layer_groups(plan, layer, t - 1);
    let last = tool_groups(plan, layer, plan.tools[t - 1]);
    if k < t - 1 {
        lemma_in_layer_groups(plan, layer, t - 1, k, g);
        let x = choose|x: int| 0 <= x < before.len() && before[x] == g;
        assert((before + last)[x] == g);
    } else {
        let x = choose|x: int| 0 <= x < last.len() && last[x] == g;
        assert((before + last)[before.len() + x] == g);
    }
}

proof fn lemma_in_all_groups(plan: PlanV, layers: Seq<Seq<Seq<char>>>, l: int, k: int, g: BatchV)
    requires
        0 <= l < k <= layers.len(),
        layer_groups(plan, layers[l], plan.tools.len() as int).contains(g),
    ensures
        all_groups(plan, layers, k).contains(g),
    decreases k,
{
    let before = all_groups(plan, layers, k - 1);
    let last = layer_groups(plan, layers[k - 1], plan.tools.len() as int);
    if l < k - 1 {
        lemma_in_all_groups(plan, layers, l, k - 1, g);
        let x = choose|x: int| 0 <= x < before.len() && before[x] == g;
        assert((before + last)[x] == g);
    } else {
        let x = choose|x: int| 0 <= x < last.len() && last[x] == g;
        assert((before + last)[before.len() + x] == g);
    }
}

/// Calls of one layer that may join a batch of the same tool are carried by
/// one batch where the tool sets no batch size: it has all of them.
pub proof fn calls_of_a_layer_are_batched(
    plan: PlanV,
    layers: Seq<Seq<Seq<char>>>,
    l: int,
    t: int,
    x: int,
    y: int,
)
    requires
        0 <= l < layers.len(),
        0 <= t < plan.tools.len(),
        0 <= x < y < layers[l].len(),
        layers[l].no_duplicates(),
        joins_batch(plan, layers[l][x], plan.tools[t].0),
        joins_batch(plan, layers[l][y], plan.tools[t].0),
        plan.tools[t].1.limits matches Some(m) ==> m.batch_size is None,
    ensures
        exists|g: BatchV|
            {
                &&& #[trigger] all_groups(plan, layers, layers.len() as int).contains(g)
                &&& g.tool == plan.tools[t].0
                &&& g.adapter == plan.tools[t].1.adapter
                &&& g.nodes == batch_members(plan, layers[l], plan.tools[t].0)
                &&& g.nodes.contains(layers[l][x])
                &&& g.nodes.contains(layers[l][y])
            },
{
    let entry = plan.tools[t];
    let layer = layers[l];
    let members = batch_members(plan, layer, entry.0);
    lemma_member(plan, layer, entry.0, x);
    lemma_member(plan, layer, entry.0, y);
    let i = choose|i: int| 0 <= i < members.len() && members[i] == layer[x];
    let j = choose|j: int| 0 <= j < members.len() && members[j] == layer[y];
    assert(i != j);
    let size = chunk_size(entry.1.limits, members.len());
    assert(size == members.len());
    assert(members + Seq::empty() =~= members);
    chunks_are_cut_in_order(entry.1.adapter, entry.0, members, Seq::empty(), size);
    let g = BatchV { adapter: entry.1.adapter, tool: entry.0, nodes: members };
    let groups = tool_groups(plan, layer, entry);
    assert(groups[0] == g);
    assert(groups.contains(g));
    lemma_in_layer_groups(plan, layer, plan.tools.len() as int, t, g);
    lemma_in_all_groups(plan, layers, l, layers.len() as int, g);
}

/// A declared batch size bounds the chunks, and one of zero counts as one.
pub proof fn batch_sizes_are_respected(limits: ToolLimits, count: nat)
    ensures
        limits.batch_size matches Some(b) ==> (b >= 1 ==> chunk_size(Some(limits), count) == b)
            && (b == 0 ==> chunk_size(Some(limits), count) == 1),
        limits.batch_size is None && count >= 1 ==> chunk_size(Some(limits), count) == count,
        count >= 1 ==> chunk_size(None, count) == count,
{
}

/// The report names every duplicate with the node that replaces it, every
/// node that was trimmed, and every batch of the plan that is left.
pub proof fn reports_name_what_was_done(
    plan: PlanV,
    d: PlanV,
    g: GraphV,
    out: PlanV,
    out_g: GraphV,
    i: int,
)
    requires
        0 <= i < plan.nodes.len(),
        is_duplicate(plan.tools, plan.nodes, i),
    ensures
        report_of(plan, d, g, out, out_g).deduplicated.contains(
            (plan.nodes[i].id, plan.nodes[first_same(plan.tools, plan.nodes, i)].id),
        ),
        report_of(plan, d, g, out, out_g).eliminated == eliminated_ids(d, g),
        report_of(plan, d, g, out, out_g).batch_groups == all_groups(
            out,
            out_g.layers,
            out_g.layers.len() as int,
        ),
        report_of(plan, d, g, out, out_g).summary.estimated_tool_calls_before as nat
            == plan.nodes.len() || plan.nodes.len() > usize::MAX,
{
    lemma_kept(plan.tools, plan.nodes, plan.nodes.len() as int, i);
}

} // verus!
