//! Effects decide what may run at once, and layers take what they can.

use vstd::prelude::*;

use crate::effects::EffectsV;
use crate::graph::layers::LayerModel;
use crate::graph::resolved::ResolvedV;
use crate::plan::NodeV;

verus! {

use crate::effects::{declares, resolved_resource};
use crate::graph::layers::{admitted, done_before, is_layer, is_layering, joins};
use crate::graph::resolved::{compatible, node_effects};

// ---------------------------------------------------------------------------
// Effects
// ---------------------------------------------------------------------------

/// A node reads and writes what the templates of its tool name for its input,
/// and nothing else.
pub proof fn effects_are_resolved_for_the_input(node: NodeV, e: EffectsV, r: Seq<char>)
    ensures
        forall|t: Seq<char>| #[trigger]
            e.reads.contains(t) ==> node_effects(node, Some(e)).reads.contains(
                resolved_resource(t, node.input),
            ),
        forall|t: Seq<char>| #[trigger]
            e.writes.contains(t) ==> node_effects(node, Some(e)).writes.contains(
                resolved_resource(t, node.input),
            ),
        node_effects(node, Some(e)).reads.contains(r) ==> exists|t: Seq<char>| #[trigger]
            e.reads.contains(t) && r == resolved_resource(t, node.input),
        node_effects(node, Some(e)).writes.contains(r) ==> exists|t: Seq<char>| #[trigger]
            e.writes.contains(t) && r == resolved_resource(t, node.input),
        node_effects(node, Some(e)).pure == e.pure,
        node_effects(node, Some(e)).commutative == e.commutative,
        node_effects(node, Some(e)).tool == node.tool,
        e.pure ==> node_effects(node, Some(e)).declared,
        (exists|t: Seq<char>| #[trigger] e.reads.contains(t)) ==> node_effects(
            node,
            Some(e),
        ).declared,
        (exists|t: Seq<char>| #[trigger] e.writes.contains(t)) ==> node_effects(
            node,
            Some(e),
        ).declared,
        !e.pure && e.reads == Set::<Seq<char>>::empty() && e.writes == Set::<Seq<char>>::empty()
            ==> !node_effects(node, Some(e)).declared,
        !node_effects(node, None).declared,
{
}

/// Nodes that declare their effects may run at once when they touch nothing
/// in common but what both only read, or when both are pure. One that writes
/// what the other reads keeps them apart, and so do two writes of the same
/// resource unless both belong to one tool whose calls commute.
pub proof fn shared_writes_keep_nodes_apart(a: ResolvedV, b: ResolvedV, r: Seq<char>)
    ensures
        a.declared && b.declared && a.pure && b.pure ==> compatible(a, b),
        a.declared && b.declared && a.writes == Set::<Seq<char>>::empty() && b.writes == Set::<
            Seq<char>,
        >::empty() ==> compatible(a, b),
        a.declared && b.declared && (forall|x: Seq<char>| #[trigger]
            a.writes.contains(x) ==> !b.writes.contains(x) && !b.reads.contains(x)) && (forall|
            x: Seq<char>,
        | #[trigger]
            b.writes.contains(x) ==> !a.reads.contains(x)) ==> compatible(a, b),
        !a.declared || !b.declared ==> !compatible(a, b),
        !(a.pure && b.pure) && a.writes.contains(r) && b.reads.contains(r) ==> !compatible(a, b),
        !(a.pure && b.pure) && b.writes.contains(r) && a.reads.contains(r) ==> !compatible(a, b),
        !(a.pure && b.pure) && a.writes.contains(r) && b.writes.contains(r) && !(a.tool == b.tool
            && a.commutative && b.commutative) ==> !compatible(a, b),
        a.declared && b.declared && a.tool == b.tool && a.commutative && b.commutative && a.reads
            == Set::<Seq<char>>::empty() && b.reads == Set::<Seq<char>>::empty() ==> compatible(
            a,
            b,
        ),
{
}

/// Two calls of a tool that writes one templated resource may run at once
/// when their inputs name different resources, and may not when they name the
/// same.
pub proof fn templated_writes_part_by_input(a: NodeV, b: NodeV, e: EffectsV, t: Seq<char>)
    requires
        !e.pure,
        !e.commutative,
        e.reads == Set::<Seq<char>>::empty(),
        e.writes == set![t],
    ensures
        resolved_resource(t, a.input) != resolved_resource(t, b.input) ==> compatible(
            node_effects(a, Some(e)),
            node_effects(b, Some(e)),
        ),
        resolved_resource(t, a.input) == resolved_resource(t, b.input) ==> !compatible(
            node_effects(a, Some(e)),
            node_effects(b, Some(e)),
        ),
{
    let x = node_effects(a, Some(e));
    let y = node_effects(b, Some(e));
    assert(e.writes.contains(t));
    assert(declares(e));
    assert(x.writes.contains(resolved_resource(t, a.input)));
    assert(y.writes.contains(resolved_resource(t, b.input)));
    if resolved_resource(t, a.input) != resolved_resource(t, b.input) {
        assert(x.writes.disjoint(y.writes));
        assert(x.reads =~= Set::empty());
        assert(y.reads =~= Set::empty());
    }
}

// ---------------------------------------------------------------------------
// Layers
// ---------------------------------------------------------------------------

proof fn lemma_admitted_takes_all(effects: Seq<ResolvedV>, candidates: Seq<int>, x: int)
    requires
        0 <= x < candidates.len(),
    ensures
        admitted(effects, candidates).contains(candidates[x]) || exists|k: int|
            0 <= k < admitted(effects, candidates).len() && !compatible(
                effects[#[trigger] admitted(effects, candidates)[k]],
                effects[candidates[x]],
            ),
    decreases candidates.len(),
{
    let front = candidates.drop_last();
    let layer = admitted(effects, front);
    let all = admitted(effects, candidates);
    if x < front.len() {
        lemma_admitted_takes_all(effects, front, x);
        if layer.contains(front[x]) {
            let k = choose|k: int| 0 <= k < layer.len() && layer[k] == front[x];
            assert(all[k] == candidates[x]);
        } else {
            let k = choose|k: int|
                0 <= k < layer.len() && !compatible(
                    effects[#[trigger] layer[k]],
                    effects[front[x]],
                );
            assert(all[k] == layer[k]);
        }
    } else {
        if joins(effects, layer, candidates.last()) {
            assert(all.last() == candidates[x]);
        } else {
            let k = choose|k: int|
                0 <= k < layer.len() && !compatible(
                    effects[#[trigger] layer[k]],
                    effects[candidates.last()],
                );
            assert(all[k] == layer[k]);
        }
    }
}

/// A node never waits without a reason: a layer passes over a node whose
/// dependencies stand in earlier layers only where it holds a node that may
/// not run beside it.
pub proof fn nodes_wait_only_for_conflicts(
    m: LayerModel,
    layers: Seq<Seq<int>>,
    k: int,
    i: int,
)
    requires
        is_layering(m, layers),
        0 <= k < layers.len(),
        0 <= i < m.n(),
        m.deps[i].subset_of(done_before(layers, k)),
        !done_before(layers, k).contains(i),
        !layers[k].contains(i),
    ensures
        exists|y: int|
            0 <= y < layers[k].len() && !compatible(
                m.effects[#[trigger] layers[k][y]],
                m.effects[i],
            ),
{
    assert(is_layer(m, layers, k));
    let done = done_before(layers, k);
    let ready = choose|ready: Seq<int>|
        {
            &&& #[trigger] m.is_ready_list(done, ready)
            &&& ready.len() > 0
            &&& layers[k] == admitted(m.effects, ready)
        };
    assert(m.is_ready(done, i));
    assert(ready.contains(i));
    let x = choose|x: int| 0 <= x < ready.len() && ready[x] == i;
    lemma_admitted_takes_all(m.effects, ready, x);
}

/// Two nodes that depend on nothing and conflict with no node share the first
/// layer.
pub proof fn free_nodes_share_the_first_layer(
    m: LayerModel,
    layers: Seq<Seq<int>>,
    i: int,
)
    requires
        is_layering(m, layers),
        layers.len() > 0,
        0 <= i < m.n(),
        m.deps[i] == Set::<int>::empty(),
        forall|j: int| 0 <= j < m.n() ==> compatible(#[trigger] m.effects[j], m.effects[i]),
    ensures
        layers[0].contains(i),
{
    if !layers[0].contains(i) {
        assert(!done_before(layers, 0).contains(i));
        nodes_wait_only_for_conflicts(m, layers, 0, i);
        let y = choose|y: int|
            0 <= y < layers[0].len() && !compatible(
                m.effects[#[trigger] layers[0][y]],
                m.effects[i],
            );
        crate::graph::layers::layers_respect_dependencies(m, layers, 0, y);
    }
}

/// A graph in which some nodes wait for each other in a circle, or one for
/// itself, has a cycle.
pub proof fn circles_are_cycles(m: LayerModel, circle: Seq<int>)
    requires
        circle.len() > 0,
        forall|k: int| 0 <= k < circle.len() ==> 0 <= #[trigger] circle[k] < m.n(),
        forall|k: int|
            0 <= k < circle.len() - 1 ==> m.deps[#[trigger] circle[k]].contains(circle[k + 1]),
        m.deps[circle.last()].contains(circle[0]),
    ensures
        !m.acyclic(),
{
    let s = circle.to_set();
    assert forall|i: int| #[trigger] s.contains(i) implies !m.deps[i].disjoint(s) by {
        let k = choose|k: int| 0 <= k < circle.len() && circle[k] == i;
        let next = if k < circle.len() - 1 {
            circle[k + 1]
        } else {
            circle[0]
        };
        assert(circle.contains(next));
        assert(s.contains(next));
        assert(m.deps[circle[k]].contains(next));
    }
    m.stuck_intro(s);
    assert(circle.contains(circle[0]));
    assert(s.contains(circle[0]));
    assert(m.stuck(s));
}

/// A graph whose nodes wait only for nodes of a lower rank has no cycle.
pub proof fn ranked_graphs_have_no_cycle(m: LayerModel, rank: Seq<int>)
    requires
        rank.len() == m.n(),
        forall|i: int, d: int|
            0 <= i < m.n() && #[trigger] m.deps[i].contains(d) && 0 <= d < m.n() ==> 0 <= rank[d]
                < rank[i],
    ensures
        m.acyclic(),
{
    assert forall|s: Set<int>|
        #![trigger m.stuck(s)]
        m.within(s) && !s.is_empty() implies !m.stuck(s) by {
        let i = choose|i: int| s.contains(i);
        assert(s.contains(i));
        lemma_no_descent(m, rank, s, i);
    }
}

proof fn lemma_no_descent(m: LayerModel, rank: Seq<int>, s: Set<int>, i: int)
    requires
        rank.len() == m.n(),
        forall|i: int, d: int|
            0 <= i < m.n() && #[trigger] m.deps[i].contains(d) && 0 <= d < m.n() ==> 0 <= rank[d]
                < rank[i],
        m.within(s),
        s.contains(i),
    ensures
        !m.stuck(s),
    decreases rank[i],
{
    if m.stuck(s) {
        let d = m.stuck_step(s, i);
        assert(m.deps[i].contains(d));
        lemma_no_descent(m, rank, s, d);
    }
}

} // verus!
