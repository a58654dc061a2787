//! Grouping of calls into batch dispatches.

use vstd::prelude::*;

use crate::graph::validate::ExecutionGraph;
use crate::optimizer::report::BatchGroup;
use crate::ordered::StrMap;
use crate::plan::{Node, NodeV, Plan, PlanV, ToolLimits, ToolSpec, ToolSpecV};
use crate::text::same_text;

verus! {

use crate::graph::order::distinct_ids;
use crate::graph::validate::{text_lists, tool_effects};
use crate::ordered::{
    has_key, lookup, pairs_view, pairs_view_lookup, sorted_pairs, sorted_position, views,
};
use crate::text::texts_view;

// ---------------------------------------------------------------------------
// Model
// ---------------------------------------------------------------------------

/// A batch group as a mathematical value.
#[verifier::ext_equal]
pub struct BatchV {
    pub adapter: Seq<char>,
    pub tool: Seq<char>,
    pub nodes: Seq<Seq<char>>,
}

impl View for BatchGroup {
    type V = BatchV;

    open spec fn view(&self) -> BatchV {
        BatchV { adapter: self.adapter@, tool: self.tool@, nodes: texts_view(self.nodes@) }
    }
}

/// Some node has the id.
pub open spec fn has_node(nodes: Seq<NodeV>, id: Seq<char>) -> bool {
    exists|i: int| 0 <= i < nodes.len() && (#[trigger] nodes[i]).id == id
}

/// The node with the id.
pub open spec fn node_named(nodes: Seq<NodeV>, id: Seq<char>) -> NodeV {
    nodes[choose|i: int| 0 <= i < nodes.len() && (#[trigger] nodes[i]).id == id]
}

/// The node may join a batch of its tool: the tool is batchable, and the node
/// does not expand into several calls at runtime.
pub open spec fn may_batch(tools: Seq<(Seq<char>, ToolSpecV)>, node: NodeV) -> bool {
    match tool_effects(tools, node.tool) {
        Some(e) => e.batchable && node.for_each is None,
        None => false,
    }
}

/// The node with the id may join a batch of the tool.
pub open spec fn joins_batch(plan: PlanV, id: Seq<char>, tool: Seq<char>) -> bool {
    &&& has_node(plan.nodes, id)
    &&& node_named(plan.nodes, id).tool == tool
    &&& may_batch(plan.tools, node_named(plan.nodes, id))
}

/// The nodes of a layer that may join a batch of the tool, in layer order.
pub open spec fn batch_members(plan: PlanV, layer: Seq<Seq<char>>, tool: Seq<char>) -> Seq<Seq<char>>
    decreases layer.len(),
{
    if layer.len() == 0 {
        Seq::empty()
    } else {
        let before = batch_members(plan, layer.drop_last(), tool);
        if joins_batch(plan, layer.last(), tool) {
            before.push(layer.last())
        } else {
            before
        }
    }
}

/// How many of `count` nodes one dispatch of the tool takes.
pub open spec fn chunk_size(limits: Option<ToolLimits>, count: nat) -> nat {
    let size = match limits {
        Some(l) => match l.batch_size {
            Some(b) => b as nat,
            None => count,
        },
        None => count,
    };
    if size < 1 {
        1
    } else {
        size
    }
}

/// The groups that a list of members gives when it is cut into chunks; a
/// chunk of one node is no group.
pub open spec fn chunk_groups(
    adapter: Seq<char>,
    tool: Seq<char>,
    members: Seq<Seq<char>>,
    size: nat,
) -> Seq<BatchV>
    decreases members.len(),
{
    if members.len() == 0 || size == 0 {
        Seq::empty()
    } else {
        let n = if size < members.len() {
            size as int
        } else {
            members.len() as int
        };
        let rest = chunk_groups(adapter, tool, members.skip(n), size);
        if n > 1 {
            seq![BatchV { adapter, tool, nodes: members.take(n) }] + rest
        } else {
            rest
        }
    }
}

/// The groups of one tool in a layer.
pub open spec fn tool_groups(
    plan: PlanV,
    layer: Seq<Seq<char>>,
    entry: (Seq<char>, ToolSpecV),
) -> Seq<BatchV> {
    let members = batch_members(plan, layer, entry.0);
    chunk_groups(
        entry.1.adapter,
        entry.0,
        members,
        chunk_size(entry.1.limits, members.len()),
    )
}

/// The groups of the first `t` tools in a layer.
pub open spec fn layer_groups(plan: PlanV, layer: Seq<Seq<char>>, t: int) -> Seq<BatchV>
    decreases t,
{
    if t <= 0 {
        Seq::empty()
    } else {
        layer_groups(plan, layer, t - 1) + tool_groups(plan, layer, plan.tools[t - 1])
    }
}

/// The groups of the first `k` layers.
pub open spec fn all_groups(plan: PlanV, layers: Seq<Seq<Seq<char>>>, k: int) -> Seq<BatchV>
    decreases k,
{
    if k <= 0 {
        Seq::empty()
    } else {
        all_groups(plan, layers, k - 1) + layer_groups(
            plan,
            layers[k - 1],
            plan.tools.len() as int,
        )
    }
}

// ---------------------------------------------------------------------------
// Laws
// ---------------------------------------------------------------------------

/// What holds of a group: it has at least two members, no more than the tool
/// takes in one dispatch, and each member stands in the layer and may join a
/// batch of the tool.
pub open spec fn group_in_layer(plan: PlanV, layer: Seq<Seq<char>>, g: BatchV) -> bool {
    &&& g.nodes.len() >= 2
    &&& has_key(plan.tools, g.tool)
    &&& match lookup(plan.tools, g.tool)->0.limits {
        Some(l) => match l.batch_size {
            Some(b) => g.nodes.len() <= b,
            None => true,
        },
        None => true,
    }
    &&& forall|i: int|
        0 <= i < g.nodes.len() ==> layer.contains(#[trigger] g.nodes[i]) && joins_batch(
            plan,
            g.nodes[i],
            g.tool,
        )
}

proof fn lemma_members(plan: PlanV, layer: Seq<Seq<char>>, tool: Seq<char>)
    ensures
        forall|i: int|
            0 <= i < batch_members(plan, layer, tool).len() ==> layer.contains(
                #[trigger] batch_members(plan, layer, tool)[i],
            ) && joins_batch(plan, batch_members(plan, layer, tool)[i], tool),
    decreases layer.len(),
{
    if layer.len() > 0 {
        let front = layer.drop_last();
        let before = batch_members(plan, front, tool);
        let all = batch_members(plan, layer, tool);
        lemma_members(plan, front, tool);
        assert forall|i: int| 0 <= i < all.len() implies layer.contains(#[trigger] all[i])
            && joins_batch(plan, all[i], tool) by {
            if i < before.len() {
                assert(all[i] == before[i]);
                assert(front.contains(before[i]));
                let p = choose|p: int| 0 <= p < front.len() && front[p] == before[i];
                assert(layer[p] == before[i]);
            } else {
                assert(layer[layer.len() - 1] == all[i]);
            }
        }
    }
}

proof fn lemma_chunks(
    plan: PlanV,
    layer: Seq<Seq<char>>,
    entry: (Seq<char>, ToolSpecV),
    members: Seq<Seq<char>>,
    size: nat,
    x: int,
)
    requires
        lookup(plan.tools, entry.0) == Some(entry.1),
        forall|i: int|
            0 <= i < members.len() ==> layer.contains(#[trigger] members[i]) && joins_batch(
                plan,
                members[i],
                entry.0,
            ),
        match entry.1.limits {
            Some(l) => match l.batch_size {
                Some(b) => size <= 1 || size <= b,
                None => true,
            },
            None => true,
        },
        0 <= x < chunk_groups(entry.1.adapter, entry.0, members, size).len(),
    ensures
        group_in_layer(plan, layer, chunk_groups(entry.1.adapter, entry.0, members, size)[x]),
        chunk_groups(entry.1.adapter, entry.0, members, size)[x].tool == entry.0,
        chunk_groups(entry.1.adapter, entry.0, members, size)[x].adapter == entry.1.adapter,
    decreases members.len(),
{
    let n = if size < members.len() {
        size as int
    } else {
        members.len() as int
    };
    let rest = chunk_groups(entry.1.adapter, entry.0, members.skip(n), size);
    let all = chunk_groups(entry.1.adapter, entry.0, members, size);
    let tail = members.skip(n);
    assert forall|i: int| 0 <= i < tail.len() implies layer.contains(#[trigger] tail[i])
        && joins_batch(plan, tail[i], entry.0) by {
        assert(tail[i] == members[i + n]);
    }
    if n > 1 {
        if x == 0 {
            let g = all[0];
            assert forall|i: int| 0 <= i < g.nodes.len() implies layer.contains(
                #[trigger] g.nodes[i],
            ) && joins_batch(plan, g.nodes[i], g.tool) by {
                assert(g.nodes[i] == members[i]);
            }
        } else {
            lemma_chunks(plan, layer, entry, tail, size, x - 1);
            assert(all[x] == rest[x - 1]);
        }
    } else {
        lemma_chunks(plan, layer, entry, tail, size, x);
    }
}

proof fn lemma_layer_groups(plan: PlanV, layer: Seq<Seq<char>>, t: int, x: int)
    requires
        sorted_pairs(plan.tools),
        0 <= t <= plan.tools.len(),
        0 <= x < layer_groups(plan, layer, t).len(),
    ensures
        group_in_layer(plan, layer, layer_groups(plan, layer, t)[x]),
    decreases t,
{
    let before = layer_groups(plan, layer, t - 1);
    let entry = plan.tools[t - 1];
    if x < before.len() {
        lemma_layer_groups(plan, layer, t - 1, x);
    } else {
        let members = batch_members(plan, layer, entry.0);
        lemma_members(plan, layer, entry.0);
        sorted_position(plan.tools, t - 1);
        lemma_chunks(
            plan,
            layer,
            entry,
            members,
            chunk_size(entry.1.limits, members.len()),
            x - before.len(),
        );
    }
}

/// Every group belongs to one layer and one tool, has at least two members,
/// and is no larger than the tool's batch size.
pub proof fn groups_are_batches(plan: PlanV, layers: Seq<Seq<Seq<char>>>, k: int, x: int)
    requires
        sorted_pairs(plan.tools),
        0 <= k <= layers.len(),
        0 <= x < all_groups(plan, layers, k).len(),
    ensures
        exists|l: int| 0 <= l < k && group_in_layer(plan, #[trigger] layers[l], all_groups(plan, layers, k)[x]),
    decreases k,
{
    let before = all_groups(plan, layers, k - 1);
    if x < before.len() {
        groups_are_batches(plan, layers, k - 1, x);
        let l = choose|l: int|
            0 <= l < k - 1 && group_in_layer(plan, #[trigger] layers[l], before[x]);
        assert(group_in_layer(plan, layers[l], all_groups(plan, layers, k)[x]));
    } else {
        lemma_layer_groups(plan, layers[k - 1], plan.tools.len() as int, x - before.len());
        assert(group_in_layer(plan, layers[k - 1], all_groups(plan, layers, k)[x]));
    }
}

/// No node stands in two places.
pub open spec fn groups_disjoint(groups: Seq<BatchV>) -> bool {
    forall|g: int, i: int, h: int, j: int|
        #![trigger groups[g].nodes[i], groups[h].nodes[j]]
        0 <= g < groups.len() && 0 <= i < groups[g].nodes.len() && 0 <= h < groups.len() && 0 <= j
            < groups[h].nodes.len() && groups[g].nodes[i] == groups[h].nodes[j] ==> g == h && i == j
}

proof fn lemma_append_disjoint(a: Seq<BatchV>, b: Seq<BatchV>)
    requires
        groups_disjoint(a),
        groups_disjoint(b),
        forall|g: int, i: int, h: int, j: int|
            #![trigger a[g].nodes[i], b[h].nodes[j]]
            0 <= g < a.len() && 0 <= i < a[g].nodes.len() && 0 <= h < b.len() && 0 <= j
                < b[h].nodes.len() ==> a[g].nodes[i] != b[h].nodes[j],
    ensures
        groups_disjoint(a + b),
{
    let c = a + b;
    assert forall|g: int, i: int, h: int, j: int|
        #![trigger c[g].nodes[i], c[h].nodes[j]]
        0 <= g < c.len() && 0 <= i < c[g].nodes.len() && 0 <= h < c.len() && 0 <= j < c[h].nodes.len()
            && c[g].nodes[i] == c[h].nodes[j] implies g == h && i == j by {
        let n = a.len();
        if g < n && h < n {
            assert(a[g].nodes[i] == a[h].nodes[j]);
        } else if g < n {
            assert(a[g].nodes[i] != b[h - n].nodes[j]);
        } else if h < n {
            assert(a[h].nodes[j] != b[g - n].nodes[i]);
        } else {
            assert(b[g - n].nodes[i] == b[h - n].nodes[j]);
        }
    }
}

proof fn lemma_members_distinct(plan: PlanV, layer: Seq<Seq<char>>, tool: Seq<char>)
    requires
        layer.no_duplicates(),
    ensures
        batch_members(plan, layer, tool).no_duplicates(),
    decreases layer.len(),
{
    if layer.len() > 0 {
        let front = layer.drop_last();
        lemma_members_distinct(plan, front, tool);
        lemma_members(plan, front, tool);
        let before = batch_members(plan, front, tool);
        assert forall|i: int| 0 <= i < before.len() implies #[trigger] before[i] != layer.last() by {
            assert(front.contains(before[i]));
            let p = choose|p: int| 0 <= p < front.len() && front[p] == before[i];
            assert(layer[p] == before[i]);
        }
    }
}

proof fn lemma_chunks_disjoint(
    adapter: Seq<char>,
    tool: Seq<char>,
    members: Seq<Seq<char>>,
    size: nat,
)
    requires
        members.no_duplicates(),
    ensures
        groups_disjoint(chunk_groups(adapter, tool, members, size)),
        forall|g: int, i: int|
            0 <= g < chunk_groups(adapter, tool, members, size).len() && 0 <= i < chunk_groups(
                adapter,
                tool,
                members,
                size,
            )[g].nodes.len() ==> members.contains(
                #[trigger] chunk_groups(adapter, tool, members, size)[g].nodes[i],
            ),
    decreases members.len(),
{
    if members.len() > 0 && size > 0 {
        let n = if size < members.len() {
            size as int
        } else {
            members.len() as int
        };
        let tail = members.skip(n);
        let rest = chunk_groups(adapter, tool, tail, size);
        let all = chunk_groups(adapter, tool, members, size);
        lemma_chunks_disjoint(adapter, tool, tail, size);
        assert forall|g: int, i: int| 0 <= g < rest.len() && 0 <= i < rest[g].nodes.len() implies exists|
            p: int,
        | n <= p < members.len() && members[p] == #[trigger] rest[g].nodes[i] by {
            assert(tail.contains(rest[g].nodes[i]));
            let p = choose|p: int| 0 <= p < tail.len() && tail[p] == rest[g].nodes[i];
            assert(members[p + n] == rest[g].nodes[i]);
        }
        if n > 1 {
            let first = seq![BatchV { adapter, tool, nodes: members.take(n) }];
            assert forall|g: int, i: int, h: int, j: int|
                #![trigger first[g].nodes[i], rest[h].nodes[j]]
                0 <= g < first.len() && 0 <= i < first[g].nodes.len() && 0 <= h < rest.len() && 0 <= j
                    < rest[h].nodes.len() implies first[g].nodes[i] != rest[h].nodes[j] by {
                assert(first[g].nodes[i] == members[i]);
                let p = choose|p: int| n <= p < members.len() && members[p] == rest[h].nodes[j];
                assert(members[p] == rest[h].nodes[j]);
            }
            assert(groups_disjoint(first)) by {
                assert forall|g: int, i: int, h: int, j: int|
                    #![trigger first[g].nodes[i], first[h].nodes[j]]
                    0 <= g < first.len() && 0 <= i < first[g].nodes.len() && 0 <= h < first.len()
                        && 0 <= j < first[h].nodes.len() && first[g].nodes[i] == first[h].nodes[j] implies g
                    == h && i == j by {
                    assert(members[i] == members[j]);
                }
            }
            lemma_append_disjoint(first, rest);
            assert forall|g: int, i: int|
                0 <= g < all.len() && 0 <= i < all[g].nodes.len() implies members.contains(
                #[trigger] all[g].nodes[i],
            ) by {
                if g == 0 {
                    assert(all[g].nodes[i] == members[i]);
                } else {
                    assert(all[g] == rest[g - 1]);
                    let p = choose|p: int| n <= p < members.len() && members[p] == rest[g - 1].nodes[i];
                    assert(members[p] == rest[g - 1].nodes[i]);
                }
            }
        } else {
            assert forall|g: int, i: int|
                0 <= g < all.len() && 0 <= i < all[g].nodes.len() implies members.contains(
                #[trigger] all[g].nodes[i],
            ) by {
                let p = choose|p: int| n <= p < members.len() && members[p] == rest[g].nodes[i];
                assert(members[p] == rest[g].nodes[i]);
            }
        }
    }
}

/// The groups of the first `t` tools hold nodes of these tools, from the
/// layer, each in one place.
proof fn lemma_layer_disjoint(plan: PlanV, layer: Seq<Seq<char>>, t: int)
    requires
        sorted_pairs(plan.tools),
        layer.no_duplicates(),
        0 <= t <= plan.tools.len(),
    ensures
        groups_disjoint(layer_groups(plan, layer, t)),
        forall|g: int, i: int|
            0 <= g < layer_groups(plan, layer, t).len() && 0 <= i < layer_groups(
                plan,
                layer,
                t,
            )[g].nodes.len() ==> is_call_of(
                plan,
                layer,
                t,
                #[trigger] layer_groups(plan, layer, t)[g].nodes[i],
            ),
    decreases t,
{
    if t > 0 {
        lemma_layer_disjoint(plan, layer, t - 1);
        let before = layer_groups(plan, layer, t - 1);
        let entry = plan.tools[t - 1];
        let members = batch_members(plan, layer, entry.0);
        let more = tool_groups(plan, layer, entry);
        let all = layer_groups(plan, layer, t);
        lemma_members(plan, layer, entry.0);
        lemma_members_distinct(plan, layer, entry.0);
        lemma_chunks_disjoint(
            entry.1.adapter,
            entry.0,
            members,
            chunk_size(entry.1.limits, members.len()),
        );
        assert forall|h: int, j: int| 0 <= h < more.len() && 0 <= j < more[h].nodes.len() implies joins_batch(
            plan,
            #[trigger] more[h].nodes[j],
            entry.0,
        ) && layer.contains(more[h].nodes[j]) by {
            assert(members.contains(more[h].nodes[j]));
            let p = choose|p: int| 0 <= p < members.len() && members[p] == more[h].nodes[j];
            assert(joins_batch(plan, members[p], entry.0));
        }
        assert forall|g: int, i: int, h: int, j: int|
            #![trigger before[g].nodes[i], more[h].nodes[j]]
            0 <= g < before.len() && 0 <= i < before[g].nodes.len() && 0 <= h < more.len() && 0 <= j
                < more[h].nodes.len() implies before[g].nodes[i] != more[h].nodes[j] by {
            assert(is_call_of(plan, layer, t - 1, before[g].nodes[i]));
            let q = choose|q: int|
                0 <= q < t - 1 && joins_batch(plan, before[g].nodes[i], (#[trigger] plan.tools[q]).0);
            crate::text::lex_less_irreflexive(entry.0);
            assert(crate::text::lex_less(plan.tools[q].0, plan.tools[t - 1].0));
            assert(joins_batch(plan, more[h].nodes[j], entry.0));
        }
        lemma_append_disjoint(before, more);
        assert forall|g: int, i: int|
            0 <= g < all.len() && 0 <= i < all[g].nodes.len() implies is_call_of(
            plan,
            layer,
            t,
            #[trigger] all[g].nodes[i],
        ) by {
            if g < before.len() {
                assert(is_call_of(plan, layer, t - 1, before[g].nodes[i]));
            } else {
                let h = g - before.len();
                assert(joins_batch(plan, more[h].nodes[i], plan.tools[t - 1].0));
            }
        }
    }
}

/// The node stands in the layer and may join a batch of one of the first `t`
/// tools.
spec fn is_call_of(plan: PlanV, layer: Seq<Seq<char>>, t: int, id: Seq<char>) -> bool {
    &&& layer.contains(id)
    &&& exists|q: int| 0 <= q < t && joins_batch(plan, id, (#[trigger] plan.tools[q]).0)
}

/// A node is in one group at most, and there only once.
pub proof fn groups_share_no_node(plan: PlanV, layers: Seq<Seq<Seq<char>>>, k: int)
    requires
        sorted_pairs(plan.tools),
        0 <= k <= layers.len(),
        forall|a: int, x: int, b: int, y: int|
            0 <= a < layers.len() && 0 <= x < layers[a].len() && 0 <= b < layers.len() && 0 <= y
                < layers[b].len() && #[trigger] layers[a][x] == #[trigger] layers[b][y] ==> a == b && x
                == y,
    ensures
        groups_disjoint(all_groups(plan, layers, k)),
        forall|g: int, i: int|
            0 <= g < all_groups(plan, layers, k).len() && 0 <= i < all_groups(
                plan,
                layers,
                k,
            )[g].nodes.len() ==> has_node(plan.nodes, #[trigger] all_groups(plan, layers, k)[g].nodes[i]),
    decreases k,
{
    if k > 0 {
        groups_share_no_node(plan, layers, k - 1);
        let before = all_groups(plan, layers, k - 1);
        let layer = layers[k - 1];
        let t = plan.tools.len() as int;
        let more = layer_groups(plan, layer, t);
        let all = all_groups(plan, layers, k);
        assert(layer.no_duplicates());
        lemma_layer_disjoint(plan, layer, t);
        assert forall|g: int, i: int, h: int, j: int|
            #![trigger before[g].nodes[i], more[h].nodes[j]]
            0 <= g < before.len() && 0 <= i < before[g].nodes.len() && 0 <= h < more.len() && 0 <= j
                < more[h].nodes.len() implies before[g].nodes[i] != more[h].nodes[j] by {
            groups_are_batches(plan, layers, k - 1, g);
            let l = choose|l: int|
                0 <= l < k - 1 && group_in_layer(plan, #[trigger] layers[l], before[g]);
            assert(layers[l].contains(before[g].nodes[i]));
            let x = choose|x: int| 0 <= x < layers[l].len() && layers[l][x] == before[g].nodes[i];
            assert(is_call_of(plan, layer, t, more[h].nodes[j]));
            let y = choose|y: int| 0 <= y < layer.len() && layer[y] == more[h].nodes[j];
            if before[g].nodes[i] == more[h].nodes[j] {
                assert(layers[l][x] == layers[k - 1][y]);
            }
        }
        lemma_append_disjoint(before, more);
        assert forall|g: int, i: int|
            0 <= g < all.len() && 0 <= i < all[g].nodes.len() implies has_node(
            plan.nodes,
            #[trigger] all[g].nodes[i],
        ) by {
            if g < before.len() {
                assert(has_node(plan.nodes, before[g].nodes[i]));
            } else {
                assert(is_call_of(plan, layer, t, more[g - before.len()].nodes[i]));
            }
        }
    }
}

// ---------------------------------------------------------------------------
// The pass
// ---------------------------------------------------------------------------

/// Where each node stands, by id.
pub fn index_by_id(nodes: &Vec<Node>) -> (r: StrMap<usize>)
    requires
        distinct_ids(views(nodes@)),
    ensures
        forall|id: Seq<char>| #[trigger] r@.dom().contains(id) <==> has_node(views(nodes@), id),
        forall|id: Seq<char>| #[trigger]
            r@.dom().contains(id) ==> r@[id] < nodes@.len() && nodes@[r@[id] as int]@ == node_named(
                views(nodes@),
                id,
            ) && nodes@[r@[id] as int]@.id == id,
{
    let ghost ns = views(nodes@);
    let mut out: StrMap<usize> = StrMap::new();
    let mut i: usize = 0;
    while i < nodes.len()
        invariant
            i <= nodes@.len(),
            ns == views(nodes@),
            forall|id: Seq<char>| #[trigger]
                out@.dom().contains(id) ==> out@[id] < i && ns[out@[id] as int].id == id,
            forall|k: int| 0 <= k < i ==> out@.dom().contains((#[trigger] ns[k]).id),
        decreases nodes.len() - i,
    {
        let ghost before = out@;
        out.insert(nodes[i].id.clone(), i);
        proof {
            assert forall|id: Seq<char>| #[trigger] out@.dom().contains(id) implies out@[id] < i + 1
                && ns[out@[id] as int].id == id by {
                if id != ns[i as int].id {
                    assert(before.dom().contains(id));
                }
            }
            assert forall|k: int| 0 <= k < i + 1 implies out@.dom().contains((#[trigger] ns[k]).id) by {
                if k < i {
                    assert(before.dom().contains(ns[k].id));
                }
            }
        }
        i = i + 1;
    }
    proof {
        assert forall|id: Seq<char>| #[trigger] out@.dom().contains(id) <==> has_node(ns, id) by {
            if out@.dom().contains(id) {
                assert(ns[out@[id] as int].id == id);
            }
            if has_node(ns, id) {
                let k = choose|k: int| 0 <= k < ns.len() && (#[trigger] ns[k]).id == id;
                assert(out@.dom().contains(ns[k].id));
            }
        }
        assert forall|id: Seq<char>| #[trigger] out@.dom().contains(id) implies out@[id]
            < nodes@.len() && nodes@[out@[id] as int]@ == node_named(ns, id)
            && nodes@[out@[id] as int]@.id == id by {
            let a = out@[id] as int;
            assert(ns[a].id == id);
            let b = choose|i: int| 0 <= i < ns.len() && (#[trigger] ns[i]).id == id;
            if a < b {
                assert(ns[a].id != ns[b].id);
            } else if b < a {
                assert(ns[b].id != ns[a].id);
            }
        }
    }
    out
}

fn node_may_batch(tools: &StrMap<ToolSpec>, node: &Node) -> (r: bool)
    ensures
        r == may_batch(pairs_view(*tools), node@),
{
    tools.prove_sorted();
    proof {
        pairs_view_lookup(*tools, node@.tool);
    }
    match tools.get(node.tool.as_str()) {
        Some(tool) => match &tool.effects {
            Some(effects) => effects.batchable && node.for_each.is_none(),
            None => false,
        },
        None => false,
    }
}

fn members_of(
    plan: &Plan,
    index: &StrMap<usize>,
    layer: &Vec<String>,
    tool: &str,
) -> (r: Vec<String>)
    requires
        forall|id: Seq<char>| #[trigger] index@.dom().contains(id) <==> has_node(plan@.nodes, id),
        forall|id: Seq<char>| #[trigger]
            index@.dom().contains(id) ==> index@[id] < plan.nodes@.len()
                && plan.nodes@[index@[id] as int]@ == node_named(plan@.nodes, id)
                && plan.nodes@[index@[id] as int]@.id == id,
    ensures
        texts_view(r@) == batch_members(plan@, texts_view(layer@), tool@),
{
    let ghost ids = texts_view(layer@);
    let mut out: Vec<String> = Vec::new();
    let mut i: usize = 0;
    assert(ids.take(0) =~= Seq::empty());
    assert(texts_view(out@) =~= Seq::empty());
    while i < layer.len()
        invariant
            i <= layer@.len(),
            ids == texts_view(layer@),
            texts_view(out@) == batch_members(plan@, ids.take(i as int), tool@),
            forall|id: Seq<char>| #[trigger]
                index@.dom().contains(id) <==> has_node(plan@.nodes, id),
            forall|id: Seq<char>| #[trigger]
                index@.dom().contains(id) ==> index@[id] < plan.nodes@.len()
                    && plan.nodes@[index@[id] as int]@ == node_named(plan@.nodes, id)
                    && plan.nodes@[index@[id] as int]@.id == id,
        decreases layer.len() - i,
    {
        let ghost next = ids.take(i + 1);
        proof {
            assert(next.drop_last() =~= ids.take(i as int));
            assert(next.last() == layer@[i as int]@);
        }
        match index.get(layer[i].as_str()) {
            Some(at) => {
                assert(index@.dom().contains(layer@[i as int]@));
                let node = &plan.nodes[*at];
                if same_text(node.tool.as_str(), tool) && node_may_batch(&plan.tools, node) {
                    let ghost before = out@;
                    out.push(layer[i].clone());
                    assert(texts_view(out@) =~= texts_view(before).push(next.last()));
                }
            },
            None => {
                assert(!has_node(plan@.nodes, layer@[i as int]@));
            },
        }
        i = i + 1;
    }
    assert(ids.take(i as int) =~= ids);
    out
}

fn copy_range(v: &Vec<String>, from: usize, to: usize) -> (r: Vec<String>)
    requires
        from <= to <= v@.len(),
    ensures
        texts_view(r@) == texts_view(v@).subrange(from as int, to as int),
{
    let mut out: Vec<String> = Vec::new();
    let mut i: usize = from;
    while i < to
        invariant
            from <= i <= to <= v@.len(),
            out@.len() == i - from,
            forall|j: int| 0 <= j < i - from ==> (#[trigger] out@[j])@ == v@[j + from]@,
        decreases to - i,
    {
        out.push(v[i].clone());
        i = i + 1;
    }
    assert(texts_view(out@) =~= texts_view(v@).subrange(from as int, to as int));
    out
}

pub fn push_chunks(adapter: &str, tool: &str, members: &Vec<String>, size: usize, groups: &mut Vec<BatchGroup>)
    requires
        size >= 1,
    ensures
        views(final(groups)@) == views(old(groups)@) + chunk_groups(
            adapter@,
            tool@,
            texts_view(members@),
            size as nat,
        ),
{
    let ghost before = views(groups@);
    let ghost all = texts_view(members@);
    let mut at: usize = 0;
    assert(all.skip(0) =~= all);
    while at < members.len()
        invariant
            at <= members@.len(),
            size >= 1,
            all == texts_view(members@),
            views(groups@) + chunk_groups(adapter@, tool@, all.skip(at as int), size as nat)
                == before + chunk_groups(adapter@, tool@, all, size as nat),
        decreases members.len() - at,
    {
        let ghost rest = all.skip(at as int);
        let ghost groups0 = views(groups@);
        let left: usize = members.len() - at;
        let n: usize = if size < left {
            size
        } else {
            left
        };
        proof {
            assert(rest.skip(n as int) =~= all.skip(at + n));
        }
        if n > 1 {
            let nodes = copy_range(members, at, at + n);
            let group = BatchGroup { adapter: adapter.to_owned(), tool: tool.to_owned(), nodes };
            let ghost g = group@;
            proof {
                assert(texts_view(nodes@) =~= rest.take(n as int));
            }
            let ghost gs = groups@;
            groups.push(group);
            proof {
                assert(views(groups@) =~= views(gs).push(g));
                assert(groups0 + (seq![g] + chunk_groups(
                    adapter@,
                    tool@,
                    all.skip(at + n),
                    size as nat,
                )) =~= views(groups@) + chunk_groups(
                    adapter@,
                    tool@,
                    all.skip(at + n),
                    size as nat,
                ));
            }
        }
        at = at + n;
    }
    proof {
        assert(all.skip(at as int).len() == 0);
        assert(views(groups@) + Seq::<BatchV>::empty() =~= views(groups@));
    }
}

/// Same-layer, same-tool groups for one batch dispatch each, already split by
/// the tool's `batch_size` limit.
pub fn find_batch_groups(plan: &Plan, graph: &ExecutionGraph) -> (r: Vec<BatchGroup>)
    requires
        distinct_ids(plan@.nodes),
    ensures
        views(r@) == all_groups(plan@, graph@.layers, graph@.layers.len() as int),
{
    let ghost layers_v = graph@.layers;
    let index = index_by_id(&plan.nodes);
    let layers = graph.layers();
    let mut groups: Vec<BatchGroup> = Vec::new();
    let mut k: usize = 0;
    assert(views(groups@) =~= Seq::empty());
    while k < layers.len()
        invariant
            k <= layers@.len(),
            layers_v == text_lists(layers@),
            forall|id: Seq<char>| #[trigger]
                index@.dom().contains(id) <==> has_node(plan@.nodes, id),
            forall|id: Seq<char>| #[trigger]
                index@.dom().contains(id) ==> index@[id] < plan.nodes@.len()
                    && plan.nodes@[index@[id] as int]@ == node_named(plan@.nodes, id)
                    && plan.nodes@[index@[id] as int]@.id == id,
            views(groups@) == all_groups(plan@, layers_v, k as int),
        decreases layers.len() - k,
    {
        let layer = &layers[k];
        let ghost layer_v = layers_v[k as int];
        let ghost before = views(groups@);
        let mut t: usize = 0;
        assert(views(groups@) =~= before + layer_groups(plan@, layer_v, 0));
        while t < plan.tools.len()
            invariant
                t <= plan.tools.pairs().len(),
                layer_v == texts_view(layer@),
                forall|id: Seq<char>| #[trigger]
                    index@.dom().contains(id) <==> has_node(plan@.nodes, id),
                forall|id: Seq<char>| #[trigger]
                    index@.dom().contains(id) ==> index@[id] < plan.nodes@.len()
                        && plan.nodes@[index@[id] as int]@ == node_named(plan@.nodes, id)
                        && plan.nodes@[index@[id] as int]@.id == id,
                views(groups@) == before + layer_groups(plan@, layer_v, t as int),
            decreases plan.tools.pairs().len() - t,
        {
            let tool = plan.tools.key_at(t);
            let spec = plan.tools.value_at(t);
            let members = members_of(plan, &index, layer, tool);
            let wanted: usize = match &spec.limits {
                Some(limits) => match limits.batch_size {
                    Some(b) => b,
                    None => members.len(),
                },
                None => members.len(),
            };
            let size: usize = if wanted < 1 {
                1
            } else {
                wanted
            };
            let ghost groups0 = views(groups@);
            proof {
                assert(texts_view(members@).len() == members@.len());
                assert(plan@.tools[t as int] == (tool@, spec@));
            }
            push_chunks(spec.adapter.as_str(), tool, &members, size, &mut groups);
            proof {
                let added = tool_groups(plan@, layer_v, plan@.tools[t as int]);
                assert(views(groups@) =~= before + (layer_groups(plan@, layer_v, t as int)
                    + added));
            }
            t = t + 1;
        }
        proof {
            assert(plan@.tools.len() == t);
        }
        k = k + 1;
    }
    groups
}

} // verus!
