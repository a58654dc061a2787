//! Validation: a plan is accepted exactly when nothing is wrong with it, and
//! what is reported is what is wrong.

use vstd::prelude::*;

use crate::graph::validate::GraphErrorV;
use crate::plan::{NodeV, PlanV, ToolSpecV, CURRENT_VERSION};
use crate::refs::RefV;

verus! {

use crate::effects::contradictory;
use crate::graph::order::{distinct_ids, distinct_nodes_sort, node_ids, sorted_nodes, valid_ids};
use crate::graph::validate::{
    dependencies_error, effects_error, index_error, mentions_error, node_dependency_error,
    node_deps, node_error, outputs_error, plan_error, referenced_nodes, tools_error,
};
use crate::optimizer::batch::has_node;
use crate::ordered::has_key;
use crate::refs::{node_id_error, refs_in};

/// The nodes that the node waits for: those it names, those that its input,
/// its fan-out source and its condition refer to.
pub proof fn nodes_depend_on_what_they_mention(node: NodeV, d: Seq<char>)
    requires
        refs_in(node.input) is Ok,
    ensures
        node_deps(node).contains(d) <==> {
            ||| node.depends_on.contains(d)
            ||| exists|i: int|
                0 <= i < refs_in(node.input)->Ok_0.len() && (#[trigger] refs_in(
                    node.input,
                )->Ok_0[i]).node == d
            ||| node.for_each matches Some(r) && r.node == d
            ||| node.when matches Some(w) && w.target.node == d
        },
{
    let refs = refs_in(node.input)->Ok_0;
    let m = referenced_nodes(node, refs);
    let a = Seq::new(refs.len(), |i: int| refs[i].node);
    let b: Seq<Seq<char>> = match node.for_each {
        Some(r) => seq![r.node],
        None => Seq::empty(),
    };
    let c: Seq<Seq<char>> = match node.when {
        Some(w) => seq![w.target.node],
        None => Seq::empty(),
    };
    assert(m == a + b + c);
    if m.contains(d) {
        let i = choose|i: int| 0 <= i < m.len() && m[i] == d;
        if i < a.len() {
            assert(refs[i].node == d);
        } else if i < a.len() + b.len() {
            assert(b[i - a.len()] == d);
        } else {
            assert(c[i - a.len() - b.len()] == d);
        }
    }
    if exists|i: int| 0 <= i < refs.len() && (#[trigger] refs[i]).node == d {
        let i = choose|i: int| 0 <= i < refs.len() && (#[trigger] refs[i]).node == d;
        assert(m[i] == d);
    }
    if node.for_each is Some && node.for_each->0.node == d {
        assert(m[a.len() as int] == d);
    }
    if node.when is Some && node.when->0.target.node == d {
        assert(m[(a.len() + b.len()) as int] == d);
    }
}

/// The node is all right: its tool is known, its references can be read, and
/// what it waits for are other nodes of the plan.
pub open spec fn sound_node(plan: PlanV, node: NodeV) -> bool {
    &&& refs_in(node.input) is Ok
    &&& forall|d: Seq<char>| #[trigger]
        node_deps(node).contains(d) ==> d != node.id && has_node(plan.nodes, d)
}

/// Nothing is wrong with the plan, cycles apart.
pub open spec fn sound(plan: PlanV) -> bool {
    &&& plan.version == CURRENT_VERSION@
    &&& forall|i: int|
        0 <= i < plan.nodes.len() ==> (#[trigger] plan.nodes[i]).id.len() > 0
            && !plan.nodes[i].id.contains('.')
    &&& forall|i: int, j: int|
        0 <= i < j < plan.nodes.len() ==> (#[trigger] plan.nodes[i]).id != (
        #[trigger] plan.nodes[j]).id
    &&& forall|i: int|
        0 <= i < plan.nodes.len() ==> has_key(plan.tools, (#[trigger] plan.nodes[i]).tool)
    &&& forall|i: int|
        0 <= i < plan.tools.len() ==> ((#[trigger] plan.tools[i]).1.effects matches Some(e) ==> !(
        e.pure && e.writes != Set::<Seq<char>>::empty()))
    &&& forall|i: int| 0 <= i < plan.nodes.len() ==> sound_node(plan, #[trigger] plan.nodes[i])
    &&& forall|i: int|
        0 <= i < plan.outputs.len() ==> has_node(plan.nodes, (#[trigger] plan.outputs[i]).1.node)
}

proof fn lemma_index(nodes: Seq<NodeV>, from: int)
    requires
        0 <= from <= nodes.len(),
    ensures
        index_error(nodes, from) is None <==> forall|i: int|
            from <= i < nodes.len() ==> #[trigger] node_error(nodes, i) is None,
    decreases nodes.len() - from,
{
    if from < nodes.len() {
        lemma_index(nodes, from + 1);
        if index_error(nodes, from) is Some {
            if node_error(nodes, from) is None {
                let i = choose|i: int|
                    from + 1 <= i < nodes.len() && #[trigger] node_error(nodes, i) is Some;
                assert(node_error(nodes, i) is Some);
            } else {
                assert(node_error(nodes, from) is Some);
            }
        }
    }
}

proof fn lemma_ids(nodes: Seq<NodeV>)
    ensures
        index_error(nodes, 0) is None <==> valid_ids(nodes) && distinct_ids(nodes),
{
    lemma_index(nodes, 0);
    if index_error(nodes, 0) is None {
        crate::optimizer::dce::valid_ids_distinct(nodes);
    }
    if valid_ids(nodes) && distinct_ids(nodes) {
        assert forall|i: int| 0 <= i < nodes.len() implies #[trigger] node_error(nodes, i) is None by {
            assert(node_id_error(nodes[i].id) is None);
            assert forall|j: int| 0 <= j < i implies (#[trigger] nodes[j]).id != nodes[i].id by {}
        }
    }
}

proof fn lemma_tools(tools: Seq<(Seq<char>, ToolSpecV)>, nodes: Seq<NodeV>, from: int)
    requires
        0 <= from <= nodes.len(),
    ensures
        tools_error(tools, nodes, from) is None <==> forall|i: int|
            from <= i < nodes.len() ==> has_key(tools, (#[trigger] nodes[i]).tool),
        tools_error(tools, nodes, from) matches Some(e) ==> exists|i: int|
            from <= i < nodes.len() && !has_key(tools, (#[trigger] nodes[i]).tool) && e == (
            GraphErrorV::UnknownTool { node: nodes[i].id, tool: nodes[i].tool }),
    decreases nodes.len() - from,
{
    if from < nodes.len() {
        lemma_tools(tools, nodes, from + 1);
        if tools_error(tools, nodes, from) is Some {
            if has_key(tools, nodes[from].tool) {
                let i = choose|i: int|
                    from + 1 <= i < nodes.len() && !has_key(tools, (#[trigger] nodes[i]).tool)
                        && tools_error(tools, nodes, from)->0 == (GraphErrorV::UnknownTool {
                        node: nodes[i].id,
                        tool: nodes[i].tool,
                    });
                assert(!has_key(tools, nodes[i].tool));
            } else {
                assert(!has_key(tools, nodes[from].tool));
            }
        } else {
            assert forall|i: int| from <= i < nodes.len() implies has_key(
                tools,
                (#[trigger] nodes[i]).tool,
            ) by {}
        }
    }
}

proof fn lemma_effects(tools: Seq<(Seq<char>, ToolSpecV)>, from: int)
    requires
        0 <= from <= tools.len(),
    ensures
        effects_error(tools, from) is None <==> forall|i: int|
            from <= i < tools.len() ==> ((#[trigger] tools[i]).1.effects matches Some(e) ==> !(
            e.pure && e.writes != Set::<Seq<char>>::empty())),
        effects_error(tools, from) matches Some(e) ==> e is InvalidEffects,
    decreases tools.len() - from,
{
    if from < tools.len() {
        lemma_effects(tools, from + 1);
        if effects_error(tools, from) is Some {
            if tools[from].1.effects is Some && contradictory(tools[from].1.effects->0) {
                assert(tools[from].1.effects is Some);
            } else {
                let i = choose|i: int|
                    from + 1 <= i < tools.len() && (#[trigger] tools[i]).1.effects is Some && (
                    tools[i].1.effects->0.pure && tools[i].1.effects->0.writes != Set::<
                        Seq<char>,
                    >::empty());
                assert(tools[i].1.effects is Some);
            }
        }
    }
}

proof fn lemma_mentions(
    ids: Set<Seq<char>>,
    node: Seq<char>,
    mentions: Seq<Seq<char>>,
    from: int,
)
    requires
        0 <= from <= mentions.len(),
    ensures
        mentions_error(ids, node, mentions, from) is None <==> forall|i: int|
            from <= i < mentions.len() ==> (#[trigger] mentions[i]) != node && ids.contains(
                mentions[i],
            ),
        mentions_error(ids, node, mentions, from) matches Some(e) ==> e == GraphErrorV::SelfReference(
            node,
        ) || exists|i: int|
            from <= i < mentions.len() && !ids.contains(#[trigger] mentions[i]) && e == (
            GraphErrorV::UnknownDependency { node, dependency: mentions[i] }),
    decreases mentions.len() - from,
{
    if from < mentions.len() {
        lemma_mentions(ids, node, mentions, from + 1);
        let e = mentions_error(ids, node, mentions, from);
        if e is None {
            assert forall|i: int| from <= i < mentions.len() implies (#[trigger] mentions[i])
                != node && ids.contains(mentions[i]) by {}
        } else if mentions[from] == node {
            assert(mentions[from] == node);
        } else if !ids.contains(mentions[from]) {
            assert(!ids.contains(mentions[from]));
        }
    }
}

proof fn lemma_node_dependencies(plan: PlanV, node: NodeV)
    ensures
        node_dependency_error(node_ids(plan.nodes), node) is None <==> sound_node(plan, node),
{
    let ids = node_ids(plan.nodes);
    lemma_mentions(ids, node.id, node.depends_on, 0);
    if refs_in(node.input) is Ok {
        let refs = refs_in(node.input)->Ok_0;
        let m = referenced_nodes(node, refs);
        lemma_mentions(ids, node.id, m, 0);
        assert forall|d: Seq<char>| node_deps(node).contains(d) <==> node.depends_on.contains(d)
            || m.contains(d) by {}
        if node_dependency_error(ids, node) is None {
            assert forall|d: Seq<char>| #[trigger] node_deps(node).contains(d) implies d != node.id
                && has_node(plan.nodes, d) by {
                if node.depends_on.contains(d) {
                    let i = choose|i: int| 0 <= i < node.depends_on.len() && node.depends_on[i] == d;
                    assert(ids.contains(node.depends_on[i]));
                } else {
                    let i = choose|i: int| 0 <= i < m.len() && m[i] == d;
                    assert(ids.contains(m[i]));
                }
            }
        }
        if sound_node(plan, node) {
            assert forall|i: int| 0 <= i < node.depends_on.len() implies (
            #[trigger] node.depends_on[i]) != node.id && ids.contains(node.depends_on[i]) by {
                assert(node.depends_on.contains(node.depends_on[i]));
                assert(node_deps(node).contains(node.depends_on[i]));
            }
            assert forall|i: int| 0 <= i < m.len() implies (#[trigger] m[i]) != node.id
                && ids.contains(m[i]) by {
                assert(m.contains(m[i]));
                assert(node_deps(node).contains(m[i]));
            }
        }
    }
}

proof fn lemma_dependencies(plan: PlanV, nodes: Seq<NodeV>, from: int)
    requires
        0 <= from <= nodes.len(),
    ensures
        dependencies_error(node_ids(plan.nodes), nodes, from) is None <==> forall|i: int|
            from <= i < nodes.len() ==> sound_node(plan, #[trigger] nodes[i]),
    decreases nodes.len() - from,
{
    if from < nodes.len() {
        lemma_dependencies(plan, nodes, from + 1);
        lemma_node_dependencies(plan, nodes[from]);
        if dependencies_error(node_ids(plan.nodes), nodes, from) is None {
            assert forall|i: int| from <= i < nodes.len() implies sound_node(
                plan,
                #[trigger] nodes[i],
            ) by {}
        } else if !sound_node(plan, nodes[from]) {
            assert(!sound_node(plan, nodes[from]));
        } else {
            let i = choose|i: int|
                from + 1 <= i < nodes.len() && !sound_node(plan, #[trigger] nodes[i]);
            assert(!sound_node(plan, nodes[i]));
        }
    }
}

proof fn lemma_outputs(ids: Set<Seq<char>>, outputs: Seq<(Seq<char>, RefV)>, from: int)
    requires
        0 <= from <= outputs.len(),
    ensures
        outputs_error(ids, outputs, from) is None <==> forall|i: int|
            from <= i < outputs.len() ==> ids.contains((#[trigger] outputs[i]).1.node),
        outputs_error(ids, outputs, from) matches Some(e) ==> exists|i: int|
            from <= i < outputs.len() && !ids.contains((#[trigger] outputs[i]).1.node) && e == (
            GraphErrorV::UnknownOutputReference {
                output: outputs[i].0,
                node: outputs[i].1.node,
            }),
    decreases outputs.len() - from,
{
    if from < outputs.len() {
        lemma_outputs(ids, outputs, from + 1);
        let e = outputs_error(ids, outputs, from);
        if e is None {
            assert forall|i: int| from <= i < outputs.len() implies ids.contains(
                (#[trigger] outputs[i]).1.node,
            ) by {}
        } else if !ids.contains(outputs[from].1.node) {
            assert(!ids.contains(outputs[from].1.node));
        }
    }
}

/// A plan passes the checks exactly when its version is the current one, its
/// ids are valid and distinct, its tools are known and declare no
/// contradiction, every node waits for other nodes of the plan, and every
/// output names a node.
pub proof fn plans_pass_exactly_when_sound(plan: PlanV)
    ensures
        plan_error(plan) is None <==> sound(plan),
{
    let ids = node_ids(plan.nodes);
    let s = sorted_nodes(plan.nodes);
    lemma_ids(plan.nodes);
    assert(valid_ids(plan.nodes) <==> forall|i: int|
        0 <= i < plan.nodes.len() ==> (#[trigger] plan.nodes[i]).id.len() > 0
            && !plan.nodes[i].id.contains('.'));
    if valid_ids(plan.nodes) && distinct_ids(plan.nodes) {
        distinct_nodes_sort(plan.nodes);
        lemma_tools(plan.tools, s, 0);
        lemma_effects(plan.tools, 0);
        lemma_dependencies(plan, s, 0);
        lemma_outputs(ids, plan.outputs, 0);
        assert forall|i: int| 0 <= i < plan.nodes.len() implies s.contains(
            #[trigger] plan.nodes[i],
        ) by {
            assert(plan.nodes.contains(plan.nodes[i]));
        }
        assert forall|i: int| 0 <= i < s.len() implies plan.nodes.contains(#[trigger] s[i]) by {
            assert(s.contains(s[i]));
        }
        if plan_error(plan) is None {
            assert forall|i: int| 0 <= i < plan.nodes.len() implies has_key(
                plan.tools,
                (#[trigger] plan.nodes[i]).tool,
            ) && sound_node(plan, plan.nodes[i]) by {
                assert(s.contains(plan.nodes[i]));
                let k = choose|k: int| 0 <= k < s.len() && s[k] == plan.nodes[i];
                assert(has_key(plan.tools, s[k].tool));
                assert(sound_node(plan, s[k]));
            }
            assert forall|i: int| 0 <= i < plan.outputs.len() implies has_node(
                plan.nodes,
                (#[trigger] plan.outputs[i]).1.node,
            ) by {
                assert(ids.contains(plan.outputs[i].1.node));
            }
        }
        if sound(plan) {
            assert forall|i: int| 0 <= i < s.len() implies has_key(plan.tools, (#[trigger] s[i]).tool)
                && sound_node(plan, s[i]) by {
                assert(plan.nodes.contains(s[i]));
                let k = choose|k: int| 0 <= k < plan.nodes.len() && plan.nodes[k] == s[i];
                assert(has_key(plan.tools, plan.nodes[k].tool));
                assert(sound_node(plan, plan.nodes[k]));
            }
            assert forall|i: int| 0 <= i < plan.outputs.len() implies ids.contains(
                (#[trigger] plan.outputs[i]).1.node,
            ) by {
                assert(has_node(plan.nodes, plan.outputs[i].1.node));
            }
        }
    }
}

/// What is reported is true of the plan: an unknown tool is one that a node of
/// the plan calls and that the plan does not declare, and an unknown output
/// reference is an output of the plan.
pub proof fn reported_defects_are_there(plan: PlanV)
    ensures
        plan.version != CURRENT_VERSION@ ==> plan_error(plan) == Some(
            GraphErrorV::UnsupportedVersion(plan.version),
        ),
        plan_error(plan) matches Some(GraphErrorV::UnknownTool { node, tool }) ==> exists|i: int|
            0 <= i < plan.nodes.len() && (#[trigger] plan.nodes[i]).id == node && plan.nodes[i].tool
                == tool && !has_key(plan.tools, tool),
        plan_error(plan) matches Some(GraphErrorV::UnknownOutputReference { output, node })
            ==> !has_node(plan.nodes, node) && exists|i: int|
            0 <= i < plan.outputs.len() && (#[trigger] plan.outputs[i]).0 == output
                && plan.outputs[i].1.node == node,
        plan_error(plan) matches Some(GraphErrorV::DuplicateNode(id)) ==> exists|i: int, j: int|
            0 <= i < j < plan.nodes.len() && (#[trigger] plan.nodes[i]).id == id && (
            #[trigger] plan.nodes[j]).id == id,
{
    let ids = node_ids(plan.nodes);
    let s = sorted_nodes(plan.nodes);
    lemma_ids(plan.nodes);
    lemma_index_kind(plan.nodes, 0);
    if valid_ids(plan.nodes) && distinct_ids(plan.nodes) {
        distinct_nodes_sort(plan.nodes);
        lemma_tools(plan.tools, s, 0);
        lemma_effects(plan.tools, 0);
        lemma_dependencies_kind(ids, s, 0);
        lemma_outputs(ids, plan.outputs, 0);
        if plan_error(plan) is Some && plan_error(plan)->0 is UnknownTool {
            let e = plan_error(plan)->0;
            let k = choose|k: int|
                0 <= k < s.len() && !has_key(plan.tools, (#[trigger] s[k]).tool) && e == (
                GraphErrorV::UnknownTool { node: s[k].id, tool: s[k].tool });
            assert(s.contains(s[k]));
            let i = choose|i: int| 0 <= i < plan.nodes.len() && plan.nodes[i] == s[k];
            assert(plan.nodes[i].id == s[k].id);
        }
    }
}

proof fn lemma_index_kind(nodes: Seq<NodeV>, from: int)
    requires
        0 <= from <= nodes.len(),
    ensures
        index_error(nodes, from) matches Some(e) ==> e is InvalidNodeId || (
        e matches GraphErrorV::DuplicateNode(id) && exists|i: int, j: int|
            0 <= i < j < nodes.len() && (#[trigger] nodes[i]).id == id && (#[trigger] nodes[j]).id
                == id),
    decreases nodes.len() - from,
{
    if from < nodes.len() {
        lemma_index_kind(nodes, from + 1);
        if node_id_error(nodes[from].id) is None && node_error(nodes, from) is Some {
            let j = choose|j: int| 0 <= j < from && (#[trigger] nodes[j]).id == nodes[from].id;
            assert(nodes[j].id == nodes[from].id && nodes[from].id == nodes[from].id);
        }
    }
}

proof fn lemma_dependencies_kind(ids: Set<Seq<char>>, nodes: Seq<NodeV>, from: int)
    requires
        0 <= from <= nodes.len(),
    ensures
        dependencies_error(ids, nodes, from) matches Some(e) ==> e is SelfReference
            || e is UnknownDependency || e is InvalidNodeReference,
    decreases nodes.len() - from,
{
    if from < nodes.len() {
        lemma_dependencies_kind(ids, nodes, from + 1);
        lemma_mentions(ids, nodes[from].id, nodes[from].depends_on, 0);
        if refs_in(nodes[from].input) is Ok {
            lemma_mentions(
                ids,
                nodes[from].id,
                referenced_nodes(nodes[from], refs_in(nodes[from].input)->Ok_0),
                0,
            );
        }
    }
}

} // verus!
