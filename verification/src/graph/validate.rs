//! Plan validation: structural checks, dependencies, and the execution graph.

use vstd::prelude::*;

use crate::effects::EffectsV;
use crate::graph::layers::LayerModel;
use crate::graph::order::{node_order, NodeIndex};
use crate::graph::resolved::{ResolvedEffects, ResolvedV};
use crate::graph::rounds::{first_unflagged, safe_layers};
use crate::ordered::{StrMap, StrSet};
use crate::plan::{Node, NodeV, Plan, PlanV, ToolSpecV, CURRENT_VERSION};
use crate::refs::{collect_refs, RefV, ValueRef};
use crate::text::{same_text, wrapped};

verus! {

use crate::effects::contradictory;
use crate::graph::layers::{done_before, is_layering, layers_complete_iff_acyclic, layers_respect_dependencies};
use crate::graph::order::{is_sorted_nodes, node_ids, sorted_nodes};
use crate::graph::resolved::{coherent, node_effects, resolved_set};
use crate::graph::rounds::{dep_sets, deps_wf, effect_list, flag_set, int_lists, ints, model_of};
use crate::ordered::{has_key, key_position, lookup, pairs_view, pairs_view_lookup, sorted_pairs};
use crate::refs::{node_id_error, ref_error_text, refs_in, refs_view};
use crate::text::{lex_less, texts_view};

/// Errors detected while validating a plan.
#[derive(Debug, PartialEq, Eq)]
pub enum GraphError {
    /// The plan declares a version this crate does not support.
    UnsupportedVersion(String),
    /// Two nodes share the same id.
    DuplicateNode(String),
    /// A node id fails [`validate_node_id`].
    InvalidNodeId(String),
    /// A node names a tool the plan does not declare.
    UnknownTool {
        /// Offending node id.
        node: String,
        /// Missing tool name.
        tool: String,
    },
    /// A node depends on (or references) a node that does not exist.
    UnknownDependency {
        /// Offending node id.
        node: String,
        /// Missing dependency id.
        dependency: String,
    },
    /// A node depends on or references itself.
    SelfReference(String),
    /// A named output references a node that does not exist.
    UnknownOutputReference {
        /// Output name.
        output: String,
        /// Missing node id.
        node: String,
    },
    /// A node input carries a malformed reference.
    InvalidNodeReference {
        /// Offending node id.
        node: String,
        /// Parse failure description.
        message: String,
    },
    /// A tool declares contradictory effects.
    InvalidEffects {
        /// Offending tool name.
        tool: String,
        /// Contradiction description.
        message: String,
    },
    /// The dependency graph contains a cycle.
    Cycle(String),
}

/// A validation error as a mathematical value.
pub enum GraphErrorV {
    UnsupportedVersion(Seq<char>),
    DuplicateNode(Seq<char>),
    InvalidNodeId(Seq<char>),
    UnknownTool { node: Seq<char>, tool: Seq<char> },
    UnknownDependency { node: Seq<char>, dependency: Seq<char> },
    SelfReference(Seq<char>),
    UnknownOutputReference { output: Seq<char>, node: Seq<char> },
    InvalidNodeReference { node: Seq<char>, message: Seq<char> },
    InvalidEffects { tool: Seq<char>, message: Seq<char> },
    Cycle(Seq<char>),
}

impl View for GraphError {
    type V = GraphErrorV;

    open spec fn view(&self) -> GraphErrorV {
        match self {
            GraphError::UnsupportedVersion(v) => GraphErrorV::UnsupportedVersion(v@),
            GraphError::DuplicateNode(v) => GraphErrorV::DuplicateNode(v@),
            GraphError::InvalidNodeId(v) => GraphErrorV::InvalidNodeId(v@),
            GraphError::UnknownTool { node, tool } => GraphErrorV::UnknownTool {
                node: node@,
                tool: tool@,
            },
            GraphError::UnknownDependency { node, dependency } => GraphErrorV::UnknownDependency {
                node: node@,
                dependency: dependency@,
            },
            GraphError::SelfReference(v) => GraphErrorV::SelfReference(v@),
            GraphError::UnknownOutputReference { output, node } => {
                GraphErrorV::UnknownOutputReference { output: output@, node: node@ }
            },
            GraphError::InvalidNodeReference { node, message } => {
                GraphErrorV::InvalidNodeReference { node: node@, message: message@ }
            },
            GraphError::InvalidEffects { tool, message } => GraphErrorV::InvalidEffects {
                tool: tool@,
                message: message@,
            },
            GraphError::Cycle(v) => GraphErrorV::Cycle(v@),
        }
    }
}

/// The message of a validation error.
pub open spec fn graph_error_text(e: GraphErrorV) -> Seq<char> {
    match e {
        GraphErrorV::UnsupportedVersion(v) => "unsupported plan version '"@ + v + "'"@,
        GraphErrorV::DuplicateNode(v) => "duplicate node id '"@ + v + "'"@,
        GraphErrorV::InvalidNodeId(v) => "invalid node id: "@ + v,
        GraphErrorV::UnknownTool { node, tool } => "node '"@ + node + "' uses unknown tool '"@ + (tool
            + "'"@),
        GraphErrorV::UnknownDependency { node, dependency } => "node '"@ + node
            + "' depends on unknown node '"@ + (dependency + "'"@),
        GraphErrorV::SelfReference(v) => "node '"@ + v + "' references itself"@,
        GraphErrorV::UnknownOutputReference { output, node } => "output '"@ + output
            + "' references unknown node '"@ + (node + "'"@),
        GraphErrorV::InvalidNodeReference { node, message } => "invalid reference in node '"@ + node
            + "': "@ + message,
        GraphErrorV::InvalidEffects { tool, message } => "tool '"@ + tool
            + "' declares contradictory effects: "@ + message,
        GraphErrorV::Cycle(v) => "cycle detected involving node '"@ + v + "'"@,
    }
}

impl GraphError {
    /// The message of the error.
    pub fn message(&self) -> (r: String)
        ensures
            r@ == graph_error_text(self@),
    {
        match self {
            GraphError::UnsupportedVersion(v) => wrapped(
                "unsupported plan version '",
                v.as_str(),
                "'",
            ),
            GraphError::DuplicateNode(v) => wrapped("duplicate node id '", v.as_str(), "'"),
            GraphError::InvalidNodeId(v) => crate::text::concat2("invalid node id: ", v.as_str()),
            GraphError::UnknownTool { node, tool } => {
                let mut out = wrapped("node '", node.as_str(), "' uses unknown tool '");
                out.push_str(crate::text::concat2(tool.as_str(), "'").as_str());
                out
            },
            GraphError::UnknownDependency { node, dependency } => {
                let mut out = wrapped("node '", node.as_str(), "' depends on unknown node '");
                out.push_str(crate::text::concat2(dependency.as_str(), "'").as_str());
                out
            },
            GraphError::SelfReference(v) => wrapped("node '", v.as_str(), "' references itself"),
            GraphError::UnknownOutputReference { output, node } => {
                let mut out = wrapped("output '", output.as_str(), "' references unknown node '");
                out.push_str(crate::text::concat2(node.as_str(), "'").as_str());
                out
            },
            GraphError::InvalidNodeReference { node, message } => {
                let mut out = wrapped("invalid reference in node '", node.as_str(), "': ");
                out.push_str(message.as_str());
                out
            },
            GraphError::InvalidEffects { tool, message } => {
                let mut out = wrapped(
                    "tool '",
                    tool.as_str(),
                    "' declares contradictory effects: ",
                );
                out.push_str(message.as_str());
                out
            },
            GraphError::Cycle(v) => wrapped("cycle detected involving node '", v.as_str(), "'"),
        }
    }
}

// ---------------------------------------------------------------------------
// Model
// ---------------------------------------------------------------------------

/// What is wrong with the id of node `i`.
pub open spec fn node_error(nodes: Seq<NodeV>, i: int) -> Option<GraphErrorV> {
    match node_id_error(nodes[i].id) {
        Some(e) => Some(GraphErrorV::InvalidNodeId(ref_error_text(e))),
        None => if exists|j: int| 0 <= j < i && (#[trigger] nodes[j]).id == nodes[i].id {
            Some(GraphErrorV::DuplicateNode(nodes[i].id))
        } else {
            None
        },
    }
}

/// The first node at or after `from`, in plan order, whose id is wrong.
pub open spec fn index_error(nodes: Seq<NodeV>, from: int) -> Option<GraphErrorV>
    decreases nodes.len() - from,
{
    if from >= nodes.len() {
        None
    } else {
        match node_error(nodes, from) {
            Some(e) => Some(e),
            None => index_error(nodes, from + 1),
        }
    }
}

/// The first node at or after `from` that names an unknown tool.
pub open spec fn tools_error(
    tools: Seq<(Seq<char>, ToolSpecV)>,
    nodes: Seq<NodeV>,
    from: int,
) -> Option<GraphErrorV>
    decreases nodes.len() - from,
{
    if from >= nodes.len() {
        None
    } else if !has_key(tools, nodes[from].tool) {
        Some(GraphErrorV::UnknownTool { node: nodes[from].id, tool: nodes[from].tool })
    } else {
        tools_error(tools, nodes, from + 1)
    }
}

/// The first tool at or after `from` with contradictory effects.
pub open spec fn effects_error(tools: Seq<(Seq<char>, ToolSpecV)>, from: int) -> Option<GraphErrorV>
    decreases tools.len() - from,
{
    if from >= tools.len() {
        None
    } else if tools[from].1.effects is Some && contradictory(tools[from].1.effects->0) {
        Some(
            GraphErrorV::InvalidEffects {
                tool: tools[from].0,
                message: "a pure tool cannot declare writes"@,
            },
        )
    } else {
        effects_error(tools, from + 1)
    }
}

/// What is wrong with a dependency.
pub open spec fn dependency_error(
    ids: Set<Seq<char>>,
    node: Seq<char>,
    dependency: Seq<char>,
) -> Option<GraphErrorV> {
    if dependency == node {
        Some(GraphErrorV::SelfReference(node))
    } else if !ids.contains(dependency) {
        Some(GraphErrorV::UnknownDependency { node, dependency })
    } else {
        None
    }
}

/// The first wrong dependency at or after `from`.
pub open spec fn mentions_error(
    ids: Set<Seq<char>>,
    node: Seq<char>,
    mentions: Seq<Seq<char>>,
    from: int,
) -> Option<GraphErrorV>
    decreases mentions.len() - from,
{
    if from >= mentions.len() {
        None
    } else {
        match dependency_error(ids, node, mentions[from]) {
            Some(e) => Some(e),
            None => mentions_error(ids, node, mentions, from + 1),
        }
    }
}

/// The nodes that a node's references, fan-out source and condition name.
pub open spec fn referenced_nodes(node: NodeV, refs: Seq<RefV>) -> Seq<Seq<char>> {
    Seq::new(refs.len(), |i: int| refs[i].node) + (match node.for_each {
        Some(r) => seq![r.node],
        None => Seq::empty(),
    }) + (match node.when {
        Some(w) => seq![w.target.node],
        None => Seq::empty(),
    })
}

/// What is wrong with the dependencies of a node.
pub open spec fn node_dependency_error(ids: Set<Seq<char>>, node: NodeV) -> Option<GraphErrorV> {
    match mentions_error(ids, node.id, node.depends_on, 0) {
        Some(e) => Some(e),
        None => match refs_in(node.input) {
            Err(e) => Some(
                GraphErrorV::InvalidNodeReference { node: node.id, message: ref_error_text(e) },
            ),
            Ok(refs) => mentions_error(ids, node.id, referenced_nodes(node, refs), 0),
        },
    }
}

/// The first node at or after `from` with wrong dependencies.
pub open spec fn dependencies_error(
    ids: Set<Seq<char>>,
    nodes: Seq<NodeV>,
    from: int,
) -> Option<GraphErrorV>
    decreases nodes.len() - from,
{
    if from >= nodes.len() {
        None
    } else {
        match node_dependency_error(ids, nodes[from]) {
            Some(e) => Some(e),
            None => dependencies_error(ids, nodes, from + 1),
        }
    }
}

/// The first output at or after `from` that references an unknown node.
pub open spec fn outputs_error(
    ids: Set<Seq<char>>,
    outputs: Seq<(Seq<char>, RefV)>,
    from: int,
) -> Option<GraphErrorV>
    decreases outputs.len() - from,
{
    if from >= outputs.len() {
        None
    } else if !ids.contains(outputs[from].1.node) {
        Some(
            GraphErrorV::UnknownOutputReference {
                output: outputs[from].0,
                node: outputs[from].1.node,
            },
        )
    } else {
        outputs_error(ids, outputs, from + 1)
    }
}

/// What is wrong with a plan besides cycles: the checks run in this order,
/// and the first thing found is reported. Nodes are taken in the order of
/// their ids, except for the ids themselves, which are checked in plan order.
pub open spec fn plan_error(plan: PlanV) -> Option<GraphErrorV> {
    if plan.version != CURRENT_VERSION@ {
        Some(GraphErrorV::UnsupportedVersion(plan.version))
    } else if index_error(plan.nodes, 0) is Some {
        index_error(plan.nodes, 0)
    } else {
        let nodes = sorted_nodes(plan.nodes);
        let ids = node_ids(plan.nodes);
        if tools_error(plan.tools, nodes, 0) is Some {
            tools_error(plan.tools, nodes, 0)
        } else if effects_error(plan.tools, 0) is Some {
            effects_error(plan.tools, 0)
        } else if dependencies_error(ids, nodes, 0) is Some {
            dependencies_error(ids, nodes, 0)
        } else {
            outputs_error(ids, plan.outputs, 0)
        }
    }
}

/// The nodes that a node depends on: those it names explicitly, and those that
/// its references, fan-out source and condition name.
pub open spec fn node_deps(node: NodeV) -> Set<Seq<char>> {
    node.depends_on.to_set().union(referenced_nodes(node, refs_in(node.input)->Ok_0).to_set())
}

/// The effects that a plan declares for the tool of a node.
pub open spec fn tool_effects(tools: Seq<(Seq<char>, ToolSpecV)>, tool: Seq<char>) -> Option<EffectsV> {
    match lookup(tools, tool) {
        Some(t) => t.effects,
        None => None,
    }
}

/// The ranks of the nodes that node `i` depends on.
pub open spec fn dep_ranks(nodes: Seq<NodeV>, i: int) -> Set<int> {
    Set::new(|j: int| 0 <= j < nodes.len() && node_deps(nodes[i]).contains(nodes[j].id))
}

/// The ranks of the dependencies of each node.
pub open spec fn all_dep_ranks(nodes: Seq<NodeV>) -> Seq<Set<int>> {
    Seq::new(nodes.len(), |i: int| dep_ranks(nodes, i))
}

/// The effects of each node.
pub open spec fn all_effects(tools: Seq<(Seq<char>, ToolSpecV)>, nodes: Seq<NodeV>) -> Seq<ResolvedV> {
    Seq::new(nodes.len(), |i: int| node_effects(nodes[i], tool_effects(tools, nodes[i].tool)))
}

/// The dependencies of each node by id.
pub open spec fn named_deps(nodes: Seq<NodeV>) -> Seq<(Seq<char>, Set<Seq<char>>)> {
    Seq::new(nodes.len(), |i: int| (nodes[i].id, node_deps(nodes[i])))
}

/// The effects of each node by id.
pub open spec fn named_effects(
    tools: Seq<(Seq<char>, ToolSpecV)>,
    nodes: Seq<NodeV>,
) -> Seq<(Seq<char>, ResolvedV)> {
    Seq::new(nodes.len(), |i: int| (nodes[i].id, all_effects(tools, nodes)[i]))
}

/// The graph of a plan over the ranks of its nodes in the order of their ids.
pub open spec fn plan_model(plan: PlanV) -> LayerModel {
    let nodes = sorted_nodes(plan.nodes);
    LayerModel { deps: all_dep_ranks(nodes), effects: all_effects(plan.tools, nodes) }
}

/// An execution graph as a mathematical value.
#[verifier::ext_equal]
pub struct GraphV {
    pub dependencies: Seq<(Seq<char>, Set<Seq<char>>)>,
    pub layers: Seq<Seq<Seq<char>>>,
    pub resolved_effects: Seq<(Seq<char>, ResolvedV)>,
}

/// Layers of ranks as layers of node ids.
pub open spec fn named_layers(nodes: Seq<NodeV>, layers: Seq<Seq<int>>) -> Seq<Seq<Seq<char>>> {
    Seq::new(
        layers.len(),
        |k: int| Seq::new(layers[k].len(), |x: int| nodes[layers[k][x]].id),
    )
}

/// `g` is the execution graph of the plan.
pub open spec fn is_graph_of(plan: PlanV, g: GraphV) -> bool {
    let nodes = sorted_nodes(plan.nodes);
    let m = plan_model(plan);
    &&& g.dependencies == named_deps(nodes)
    &&& g.resolved_effects == named_effects(plan.tools, nodes)
    &&& exists|layers: Seq<Seq<int>>| #[trigger]
        is_layering(m, layers) && g.layers == named_layers(nodes, layers)
}

/// The node is the first, in the order of ids, that no layer holds.
pub open spec fn is_first_stuck(plan: PlanV, id: Seq<char>) -> bool {
    let nodes = sorted_nodes(plan.nodes);
    exists|layers: Seq<Seq<int>>, i: int|
        {
            let done = done_before(layers, layers.len() as int);
            &&& #[trigger] is_layering(plan_model(plan), layers)
            &&& 0 <= i < nodes.len()
            &&& id == (#[trigger] nodes[i]).id
            &&& !done.contains(i)
            &&& forall|j: int| 0 <= j < i ==> #[trigger] done.contains(j)
        }
}

/// Validated execution structure of a plan.
#[derive(Debug, PartialEq, Eq)]
pub struct ExecutionGraph {
    dependencies: StrMap<StrSet>,
    layers: Vec<Vec<String>>,
    resolved_effects: StrMap<ResolvedEffects>,
}

/// The nodes of the first `k` layers, one after the other.
pub open spec fn flattened(layers: Seq<Seq<Seq<char>>>, k: int) -> Seq<Seq<char>>
    decreases k,
{
    if k <= 0 {
        Seq::empty()
    } else {
        flattened(layers, k - 1) + layers[k - 1]
    }
}

/// The views of lists of texts.
pub open spec fn text_lists(v: Seq<Vec<String>>) -> Seq<Seq<Seq<char>>> {
    Seq::new(v.len(), |i: int| texts_view(v[i]@))
}

impl View for ExecutionGraph {
    type V = GraphV;

    closed spec fn view(&self) -> GraphV {
        GraphV {
            dependencies: pairs_view(self.dependencies),
            layers: text_lists(self.layers@),
            resolved_effects: pairs_view(self.resolved_effects),
        }
    }
}

impl ExecutionGraph {
    /// Direct dependencies of each node (explicit `depends_on`, input
    /// references, `when` targets, and `for_each` sources).
    pub fn dependencies(&self) -> (r: &StrMap<StrSet>)
        ensures
            pairs_view(*r) == self@.dependencies,
    {
        &self.dependencies
    }

    /// Conservative parallel layers: nodes in one layer have no dependency
    /// or effect conflicts between them.
    pub fn layers(&self) -> (r: &Vec<Vec<String>>)
        ensures
            text_lists(r@) == self@.layers,
    {
        &self.layers
    }

    /// Per-node effects with resource templates resolved from node inputs.
    pub fn resolved_effects(&self) -> (r: &StrMap<ResolvedEffects>)
        ensures
            pairs_view(*r) == self@.resolved_effects,
    {
        &self.resolved_effects
    }
}

// ---------------------------------------------------------------------------
// Checks
// ---------------------------------------------------------------------------

fn ensure_tools_exist(plan: &Plan, order: &NodeIndex) -> (r: Result<(), GraphError>)
    requires
        order.indexes(plan.nodes@),
    ensures
        match r {
            Ok(_) => tools_error(plan@.tools, sorted_nodes(plan@.nodes), 0) is None,
            Err(e) => tools_error(plan@.tools, sorted_nodes(plan@.nodes), 0) == Some(e@),
        },
{
    let ghost nodes = sorted_nodes(plan@.nodes);
    let mut i: usize = 0;
    plan.tools.prove_sorted();
    proof {
        order.lemma_sorted(plan.nodes@);
    }
    while i < order.len()
        invariant
            i <= nodes.len(),
            nodes == sorted_nodes(plan@.nodes),
            order.indexes(plan.nodes@),
            order.size() == nodes.len(),
            sorted_pairs(plan.tools.pairs()),
            tools_error(plan@.tools, nodes, 0) == tools_error(plan@.tools, nodes, i as int),
        decreases nodes.len() - i,
    {
        let node = order.node_at(&plan.nodes, i);
        proof {
            pairs_view_lookup(plan.tools, node@.tool);
        }
        if !plan.tools.contains_key(node.tool.as_str()) {
            return Err(GraphError::UnknownTool { node: node.id.clone(), tool: node.tool.clone() });
        }
        i = i + 1;
    }
    Ok(())
}

fn ensure_effects_are_coherent(plan: &Plan) -> (r: Result<(), GraphError>)
    ensures
        match r {
            Ok(_) => effects_error(plan@.tools, 0) is None,
            Err(e) => effects_error(plan@.tools, 0) == Some(e@),
        },
{
    let ghost tools = plan@.tools;
    let mut i: usize = 0;
    while i < plan.tools.len()
        invariant
            i <= tools.len(),
            tools == pairs_view(plan.tools),
            effects_error(tools, 0) == effects_error(tools, i as int),
        decreases tools.len() - i,
    {
        let spec = plan.tools.value_at(i);
        assert(tools[i as int].1 == spec@);
        if let Some(effects) = &spec.effects {
            if effects.is_contradictory() {
                return Err(
                    GraphError::InvalidEffects {
                        tool: plan.tools.key_at(i).to_owned(),
                        message: "a pure tool cannot declare writes".to_owned(),
                    },
                );
            }
        }
        i = i + 1;
    }
    Ok(())
}

fn insert_dependency(
    node_id: &str,
    dependency: &str,
    order: &NodeIndex,
    deps: &mut StrSet,
) -> (r: Result<(), GraphError>)
    ensures
        match r {
            Ok(_) => dependency_error(order.ids(), node_id@, dependency@) is None && final(deps)@
                == old(deps)@.insert(dependency@),
            Err(e) => dependency_error(order.ids(), node_id@, dependency@) == Some(e@),
        },
{
    if same_text(dependency, node_id) {
        return Err(GraphError::SelfReference(node_id.to_owned()));
    }
    if !order.contains(dependency) {
        return Err(
            GraphError::UnknownDependency {
                node: node_id.to_owned(),
                dependency: dependency.to_owned(),
            },
        );
    }
    deps.insert(dependency.to_owned());
    Ok(())
}

fn insert_dependencies(
    node_id: &str,
    mentions: &Vec<String>,
    order: &NodeIndex,
    deps: &mut StrSet,
) -> (r: Result<(), GraphError>)
    ensures
        match r {
            Ok(_) => mentions_error(order.ids(), node_id@, texts_view(mentions@), 0) is None
                && final(deps)@ == old(deps)@.union(texts_view(mentions@).to_set()),
            Err(e) => mentions_error(order.ids(), node_id@, texts_view(mentions@), 0) == Some(e@),
        },
{
    let ghost all = texts_view(mentions@);
    let ghost before = deps@;
    let mut i: usize = 0;
    assert(all.take(0).to_set() =~= Set::empty());
    assert(deps@ =~= before.union(all.take(0).to_set()));
    while i < mentions.len()
        invariant
            i <= mentions@.len(),
            all == texts_view(mentions@),
            deps@ == before.union(all.take(i as int).to_set()),
            mentions_error(order.ids(), node_id@, all, 0) == mentions_error(
                order.ids(),
                node_id@,
                all,
                i as int,
            ),
        decreases mentions.len() - i,
    {
        match insert_dependency(node_id, mentions[i].as_str(), order, deps) {
            Ok(_) => {},
            Err(e) => {
                return Err(e);
            },
        }
        proof {
            let seen = all.take(i as int);
            let next = all.take(i + 1);
            let x = all[i as int];
            assert(next =~= seen.push(x));
            assert forall|k: Seq<char>| #[trigger] next.contains(k) <==> seen.contains(k) || k == x by {
                if seen.contains(k) {
                    let p = choose|p: int| 0 <= p < seen.len() && seen[p] == k;
                    assert(next[p] == k);
                }
                assert(next[i as int] == x);
            }
            assert(deps@ =~= before.union(next.to_set()));
        }
        i = i + 1;
    }
    assert(all.take(i as int) =~= all);
    Ok(())
}

fn mentioned_nodes(node: &Node, refs: &Vec<ValueRef>) -> (r: Vec<String>)
    ensures
        texts_view(r@) == referenced_nodes(node@, refs_view(refs@)),
{
    let ghost docs = refs_view(refs@);
    let mut out: Vec<String> = Vec::new();
    let mut i: usize = 0;
    while i < refs.len()
        invariant
            i <= refs@.len(),
            docs == refs_view(refs@),
            out@.len() == i,
            forall|j: int| 0 <= j < i ==> (#[trigger] out@[j])@ == docs[j].node,
        decreases refs.len() - i,
    {
        out.push(refs[i].node().to_owned());
        i = i + 1;
    }
    if let Some(items) = &node.for_each {
        out.push(items.node().to_owned());
    }
    if let Some(when) = &node.when {
        out.push(when.target.node().to_owned());
    }
    assert(texts_view(out@) =~= referenced_nodes(node@, docs));
    out
}

fn node_dependencies(node: &Node, order: &NodeIndex) -> (r: Result<StrSet, GraphError>)
    ensures
        match r {
            Ok(deps) => node_dependency_error(order.ids(), node@) is None && deps@ == node_deps(
                node@,
            ),
            Err(e) => node_dependency_error(order.ids(), node@) == Some(e@),
        },
{
    let mut deps = StrSet::new();
    match insert_dependencies(node.id.as_str(), &node.depends_on, order, &mut deps) {
        Ok(_) => {},
        Err(e) => {
            return Err(e);
        },
    }
    let refs = match collect_refs(&node.input) {
        Ok(refs) => refs,
        Err(e) => {
            return Err(
                GraphError::InvalidNodeReference { node: node.id.clone(), message: e.message() },
            );
        },
    };
    let mentions = mentioned_nodes(node, &refs);
    match insert_dependencies(node.id.as_str(), &mentions, order, &mut deps) {
        Ok(_) => {},
        Err(e) => {
            return Err(e);
        },
    }
    assert(deps@ =~= node_deps(node@));
    Ok(deps)
}

/// Every dependency of a node without dependency errors is another node.
pub proof fn lemma_node_deps_known(ids: Set<Seq<char>>, node: NodeV)
    requires
        node_dependency_error(ids, node) is None,
    ensures
        refs_in(node.input) is Ok,
        node_deps(node).subset_of(ids),
        !node_deps(node).contains(node.id),
{
    lemma_mentions_known(ids, node.id, node.depends_on, 0);
    let refs = refs_in(node.input)->Ok_0;
    lemma_mentions_known(ids, node.id, referenced_nodes(node, refs), 0);
    assert forall|d: Seq<char>| node_deps(node).contains(d) implies ids.contains(d) && d
        != node.id by {
        if node.depends_on.contains(d) {
            let p = choose|p: int| 0 <= p < node.depends_on.len() && node.depends_on[p] == d;
            assert(ids.contains(node.depends_on[p]));
        } else {
            let s = referenced_nodes(node, refs);
            let p = choose|p: int| 0 <= p < s.len() && s[p] == d;
            assert(ids.contains(s[p]));
        }
    }
}

proof fn lemma_mentions_known(
    ids: Set<Seq<char>>,
    node: Seq<char>,
    mentions: Seq<Seq<char>>,
    from: int,
)
    requires
        0 <= from <= mentions.len(),
        mentions_error(ids, node, mentions, from) is None,
    ensures
        forall|k: int|
            from <= k < mentions.len() ==> ids.contains(#[trigger] mentions[k]) && mentions[k]
                != node,
    decreases mentions.len() - from,
{
    if from < mentions.len() {
        lemma_mentions_known(ids, node, mentions, from + 1);
    }
}

fn collect_dependencies(plan: &Plan, order: &NodeIndex) -> (r: Result<StrMap<StrSet>, GraphError>)
    requires
        order.indexes(plan.nodes@),
    ensures
        match r {
            Ok(m) => dependencies_error(order.ids(), sorted_nodes(plan@.nodes), 0) is None
                && pairs_view(m) == named_deps(sorted_nodes(plan@.nodes)) && forall|i: int|
                0 <= i < sorted_nodes(plan@.nodes).len() ==> node_dependency_error(
                    order.ids(),
                    #[trigger] sorted_nodes(plan@.nodes)[i],
                ) is None,
            Err(e) => dependencies_error(order.ids(), sorted_nodes(plan@.nodes), 0) == Some(e@),
        },
{
    let ghost nodes = sorted_nodes(plan@.nodes);
    let mut out: StrMap<StrSet> = StrMap::new();
    let mut i: usize = 0;
    proof {
        order.lemma_sorted(plan.nodes@);
    }
    while i < order.len()
        invariant
            i <= nodes.len(),
            nodes == sorted_nodes(plan@.nodes),
            is_sorted_nodes(plan@.nodes, nodes),
            order.indexes(plan.nodes@),
            order.size() == nodes.len(),
            out.pairs().len() == i,
            forall|j: int|
                0 <= j < i ==> (#[trigger] out.pairs()[j]).0 == nodes[j].id && out.pairs()[j].1@
                    == node_deps(nodes[j]),
            forall|j: int|
                0 <= j < i ==> node_dependency_error(order.ids(), #[trigger] nodes[j]) is None,
            dependencies_error(order.ids(), nodes, 0) == dependencies_error(
                order.ids(),
                nodes,
                i as int,
            ),
        decreases nodes.len() - i,
    {
        let node = order.node_at(&plan.nodes, i);
        match node_dependencies(node, order) {
            Ok(deps) => {
                let key = node.id.clone();
                assert forall|j: int| 0 <= j < out.pairs().len() implies lex_less(
                    #[trigger] out.pairs()[j].0,
                    key@,
                ) by {
                    assert(lex_less(nodes[j].id, nodes[i as int].id));
                }
                out.push(key, deps);
            },
            Err(e) => {
                return Err(e);
            },
        }
        i = i + 1;
    }
    assert(pairs_view(out) =~= named_deps(nodes));
    Ok(out)
}

fn ensure_outputs_exist(plan: &Plan, order: &NodeIndex) -> (r: Result<(), GraphError>)
    ensures
        match r {
            Ok(_) => outputs_error(order.ids(), plan@.outputs, 0) is None,
            Err(e) => outputs_error(order.ids(), plan@.outputs, 0) == Some(e@),
        },
{
    let ghost outputs = plan@.outputs;
    let mut i: usize = 0;
    while i < plan.outputs.len()
        invariant
            i <= outputs.len(),
            outputs == pairs_view(plan.outputs),
            outputs_error(order.ids(), outputs, 0) == outputs_error(order.ids(), outputs, i as int),
        decreases outputs.len() - i,
    {
        let value_ref = plan.outputs.value_at(i);
        if !order.contains(value_ref.node()) {
            return Err(
                GraphError::UnknownOutputReference {
                    output: plan.outputs.key_at(i).to_owned(),
                    node: value_ref.node().to_owned(),
                },
            );
        }
        i = i + 1;
    }
    Ok(())
}

fn resolve_effects(plan: &Plan, order: &NodeIndex) -> (r: StrMap<ResolvedEffects>)
    requires
        order.indexes(plan.nodes@),
    ensures
        pairs_view(r) == named_effects(plan@.tools, sorted_nodes(plan@.nodes)),
{
    let ghost nodes = sorted_nodes(plan@.nodes);
    let ghost m = plan_model(plan@);
    let mut out: StrMap<ResolvedEffects> = StrMap::new();
    let mut i: usize = 0;
    proof {
        order.lemma_sorted(plan.nodes@);
    }
    plan.tools.prove_sorted();
    while i < order.len()
        invariant
            i <= nodes.len(),
            nodes == sorted_nodes(plan@.nodes),
            is_sorted_nodes(plan@.nodes, nodes),
            m == plan_model(plan@),
            sorted_pairs(plan.tools.pairs()),
            order.indexes(plan.nodes@),
            order.size() == nodes.len(),
            out.pairs().len() == i,
            forall|j: int|
                0 <= j < i ==> (#[trigger] out.pairs()[j]).0 == nodes[j].id && out.pairs()[j].1@
                    == m.effects[j],
        decreases nodes.len() - i,
    {
        let node = order.node_at(&plan.nodes, i);
        proof {
            pairs_view_lookup(plan.tools, node@.tool);
        }
        let effects = match plan.tools.get(node.tool.as_str()) {
            Some(tool) => tool.effects.as_ref(),
            None => None,
        };
        let resolved = ResolvedEffects::for_node(node, effects);
        assert(resolved@ == m.effects[i as int]);
        let key = node.id.clone();
        assert forall|j: int| 0 <= j < out.pairs().len() implies lex_less(
            #[trigger] out.pairs()[j].0,
            key@,
        ) by {
            assert(lex_less(nodes[j].id, nodes[i as int].id));
        }
        out.push(key, resolved);
        i = i + 1;
    }
    assert(pairs_view(out) =~= named_effects(plan@.tools, nodes));
    out
}

proof fn lemma_effects_coherent(plan: PlanV, i: int)
    requires
        effects_error(plan.tools, 0) is None,
        0 <= i < sorted_nodes(plan.nodes).len(),
    ensures
        coherent(plan_model(plan).effects[i]),
{
    let node = sorted_nodes(plan.nodes)[i];
    match lookup(plan.tools, node.tool) {
        Some(t) => {
            let p = key_position(plan.tools, node.tool);
            lemma_effects_each(plan.tools, 0, p);
            if t.effects is Some && t.effects->0.pure {
                let e = t.effects->0;
                assert(resolved_set(e.writes, node.input) =~= Set::empty());
            }
        },
        None => {},
    }
}

proof fn lemma_effects_each(tools: Seq<(Seq<char>, ToolSpecV)>, from: int, p: int)
    requires
        0 <= from <= p < tools.len(),
        effects_error(tools, from) is None,
    ensures
        tools[p].1.effects is Some ==> !contradictory(tools[p].1.effects->0),
    decreases p - from,
{
    if from < p {
        lemma_effects_each(tools, from + 1, p);
    }
}

/// The ranks of the dependencies of each node.
fn dependency_ranks(
    dependencies: &StrMap<StrSet>,
    order: &NodeIndex,
    Ghost(nodes): Ghost<Seq<NodeV>>,
) -> (r: Vec<Vec<usize>>)
    requires
        order.ranks(nodes),
        pairs_view(*dependencies) == named_deps(nodes),
        deps_known(nodes, order.ids()),
    ensures
        deps_wf(r@),
        dep_sets(r@) == all_dep_ranks(nodes),
{
    let mut out: Vec<Vec<usize>> = Vec::new();
    let mut i: usize = 0;
    let ghost n = nodes.len();
    assert(dependencies.pairs().len() == pairs_view(*dependencies).len());
    while i < dependencies.len()
        invariant
            i <= n,
            n == nodes.len(),
            dependencies.pairs().len() == n,
            order.ranks(nodes),
            pairs_view(*dependencies) == named_deps(nodes),
            deps_known(nodes, order.ids()),
            out@.len() == i,
            forall|k: int|
                0 <= k < i ==> {
                    &&& (#[trigger] out@[k])@.no_duplicates()
                    &&& forall|x: int| 0 <= x < out@[k]@.len() ==> out@[k]@[x] < n
                    &&& ints(out@[k]@).to_set() == dep_ranks(nodes, k)
                },
        decreases n - i,
    {
        let deps = dependencies.value_at(i);
        let ghost want = node_deps(nodes[i as int]);
        proof {
            assert(pairs_view(*dependencies)[i as int] == (nodes[i as int].id, want));
            assert(deps@ == want);
            assert(want.subset_of(order.ids()));
        }
        let list = order.ranks_of(deps, Ghost(nodes));
        out.push(list);
        i = i + 1;
    }
    proof {
        assert(dep_sets(out@) =~= all_dep_ranks(nodes));
    }
    out
}

fn name_layers(
    layers: &Vec<Vec<usize>>,
    dependencies: &StrMap<StrSet>,
    Ghost(nodes): Ghost<Seq<NodeV>>,
) -> (r: Vec<Vec<String>>)
    requires
        keyed_by(*dependencies, nodes),
        forall|k: int, x: int|
            0 <= k < layers@.len() && 0 <= x < layers@[k]@.len() ==> (#[trigger] layers@[k]@[x])
                < nodes.len(),
    ensures
        text_lists(r@) == named_layers(nodes, int_lists(layers@)),
{
    let mut out: Vec<Vec<String>> = Vec::new();
    let mut k: usize = 0;
    let ghost named = named_layers(nodes, int_lists(layers@));
    while k < layers.len()
        invariant
            k <= layers@.len(),
            named == named_layers(nodes, int_lists(layers@)),
            keyed_by(*dependencies, nodes),
            forall|k: int, x: int|
                0 <= k < layers@.len() && 0 <= x < layers@[k]@.len() ==> (#[trigger] layers@[k]@[x])
                    < nodes.len(),
            out@.len() == k,
            forall|j: int| 0 <= j < k ==> texts_view((#[trigger] out@[j])@) == named[j],
        decreases layers.len() - k,
    {
        let mut names: Vec<String> = Vec::new();
        let mut x: usize = 0;
        while x < layers[k].len()
            invariant
                k < layers@.len(),
                x <= layers@[k as int]@.len(),
                keyed_by(*dependencies, nodes),
                forall|k: int, x: int|
                    0 <= k < layers@.len() && 0 <= x < layers@[k]@.len() ==> (
                    #[trigger] layers@[k]@[x]) < nodes.len(),
                names@.len() == x,
                forall|j: int|
                    0 <= j < x ==> (#[trigger] names@[j])@
                        == nodes[layers@[k as int]@[j] as int].id,
            decreases layers@[k as int]@.len() - x,
        {
            let rank: usize = layers[k][x];
            assert(layers@[k as int]@[x as int] < nodes.len());
            names.push(dependencies.key_at(rank).to_owned());
            x = x + 1;
        }
        assert(texts_view(names@) =~= named[k as int]);
        out.push(names);
        k = k + 1;
    }
    assert(text_lists(out@) =~= named);
    out
}

/// The checks that come before the layers: ids, tools, effects, dependencies
/// and outputs, in this order.
fn checked_dependencies(plan: &Plan) -> (r: Result<(NodeIndex, StrMap<StrSet>), GraphError>)
    ensures
        match r {
            Ok((order, dependencies)) => {
                &&& plan_error(plan@) is None
                &&& order.indexes(plan.nodes@)
                &&& effects_error(plan@.tools, 0) is None
                &&& pairs_view(dependencies) == named_deps(sorted_nodes(plan@.nodes))
                &&& deps_known(sorted_nodes(plan@.nodes), order.ids())
            },
            Err(e) => plan_error(plan@) == Some(e@),
        },
{
    if !same_text(plan.version.as_str(), CURRENT_VERSION) {
        return Err(GraphError::UnsupportedVersion(plan.version.clone()));
    }
    let order = match node_order(&plan.nodes) {
        Ok(order) => order,
        Err(e) => {
            return Err(e);
        },
    };
    proof {
        order.lemma_sorted(plan.nodes@);
    }
    match ensure_tools_exist(plan, &order) {
        Ok(_) => {},
        Err(e) => {
            return Err(e);
        },
    }
    match ensure_effects_are_coherent(plan) {
        Ok(_) => {},
        Err(e) => {
            return Err(e);
        },
    }
    let dependencies = match collect_dependencies(plan, &order) {
        Ok(d) => d,
        Err(e) => {
            return Err(e);
        },
    };
    match ensure_outputs_exist(plan, &order) {
        Ok(_) => {},
        Err(e) => {
            return Err(e);
        },
    }
    proof {
        lemma_deps_known(order.ids(), sorted_nodes(plan@.nodes));
    }
    Ok((order, dependencies))
}

/// The ranks and effects describe the graph of the plan.
proof fn lemma_model(
    plan: PlanV,
    ranks: Seq<Vec<usize>>,
    resolved: StrMap<ResolvedEffects>,
)
    requires
        effects_error(plan.tools, 0) is None,
        dep_sets(ranks) == all_dep_ranks(sorted_nodes(plan.nodes)),
        pairs_view(resolved) == named_effects(plan.tools, sorted_nodes(plan.nodes)),
    ensures
        ranks.len() == sorted_nodes(plan.nodes).len(),
        resolved.pairs().len() == ranks.len(),
        model_of(ranks, resolved) == plan_model(plan),
        plan_model(plan).wf(),
        plan_model(plan).n() == ranks.len(),
        forall|i: int|
            0 <= i < resolved.pairs().len() ==> coherent(#[trigger] effect_list(resolved)[i]),
{
    let nodes = sorted_nodes(plan.nodes);
    let m = plan_model(plan);
    assert(pairs_view(resolved).len() == resolved.pairs().len());
    assert(ranks.len() == dep_sets(ranks).len());
    assert forall|i: int| 0 <= i < nodes.len() implies #[trigger] effect_list(resolved)[i]
        == m.effects[i] by {
        assert(pairs_view(resolved)[i] == (nodes[i].id, m.effects[i]));
    }
    assert(effect_list(resolved) =~= m.effects);
    assert forall|i: int| 0 <= i < resolved.pairs().len() implies coherent(
        #[trigger] effect_list(resolved)[i],
    ) by {
        lemma_effects_coherent(plan, i);
    }
}

proof fn lemma_first_stuck(plan: PlanV, layers: Seq<Seq<int>>, flags: Seq<bool>, i: int)
    requires
        is_layering(plan_model(plan), layers),
        flag_set(flags) == done_before(layers, layers.len() as int),
        flags.len() == sorted_nodes(plan.nodes).len(),
        plan_model(plan).wf(),
        plan_model(plan).n() == flags.len(),
        0 <= i < flags.len(),
        !flags[i],
        forall|j: int| 0 <= j < i ==> flags[j],
    ensures
        is_first_stuck(plan, sorted_nodes(plan.nodes)[i].id),
        !plan_model(plan).acyclic(),
{
    let nodes = sorted_nodes(plan.nodes);
    let all = done_before(layers, layers.len() as int);
    assert(!flag_set(flags).contains(i));
    assert forall|j: int| 0 <= j < i implies #[trigger] all.contains(j) by {
        assert(flag_set(flags).contains(j));
    }
    assert(nodes[i].id == nodes[i].id);
    layers_complete_iff_acyclic(plan_model(plan), layers);
}

proof fn lemma_complete(plan: PlanV, layers: Seq<Vec<usize>>, flags: Seq<bool>)
    requires
        is_layering(plan_model(plan), int_lists(layers)),
        flag_set(flags) == done_before(int_lists(layers), layers.len() as int),
        flags.len() == sorted_nodes(plan.nodes).len(),
        plan_model(plan).wf(),
        plan_model(plan).n() == flags.len(),
        forall|j: int| 0 <= j < flags.len() ==> flags[j],
    ensures
        plan_model(plan).acyclic(),
        forall|k: int, x: int|
            0 <= k < layers.len() && 0 <= x < layers[k]@.len() ==> (#[trigger] layers[k]@[x])
                < sorted_nodes(plan.nodes).len(),
{
    let m = plan_model(plan);
    let named = int_lists(layers);
    let all = done_before(named, named.len() as int);
    assert forall|j: int| 0 <= j < m.n() implies #[trigger] all.contains(j) by {
        assert(flag_set(flags).contains(j));
    }
    layers_complete_iff_acyclic(m, named);
    assert forall|k: int, x: int|
        0 <= k < layers.len() && 0 <= x < layers[k]@.len() implies (#[trigger] layers[k]@[x])
        < sorted_nodes(plan.nodes).len() by {
        assert(named[k][x] == layers[k]@[x] as int);
        layers_respect_dependencies(m, named, k, x);
    }
}

/// Every dependency is a node.
spec fn deps_known(nodes: Seq<NodeV>, ids: Set<Seq<char>>) -> bool {
    forall|i: int| 0 <= i < nodes.len() ==> node_deps(#[trigger] nodes[i]).subset_of(ids)
}

proof fn lemma_deps_known(ids: Set<Seq<char>>, nodes: Seq<NodeV>)
    requires
        forall|i: int|
            0 <= i < nodes.len() ==> node_dependency_error(ids, #[trigger] nodes[i]) is None,
    ensures
        deps_known(nodes, ids),
{
    assert forall|i: int| 0 <= i < nodes.len() implies node_deps(#[trigger] nodes[i]).subset_of(
        ids,
    ) by {
        lemma_node_deps_known(ids, nodes[i]);
    }
}

/// The keys of the map are the ids of the nodes.
spec fn keyed_by(dependencies: StrMap<StrSet>, nodes: Seq<NodeV>) -> bool {
    &&& dependencies.pairs().len() == nodes.len()
    &&& forall|i: int|
        0 <= i < nodes.len() ==> (#[trigger] dependencies.pairs()[i]).0 == nodes[i].id
}

proof fn lemma_keyed_by(nodes: Seq<NodeV>, dependencies: StrMap<StrSet>)
    requires
        pairs_view(dependencies) == named_deps(nodes),
    ensures
        keyed_by(dependencies, nodes),
{
    assert(pairs_view(dependencies).len() == dependencies.pairs().len());
    assert forall|i: int| 0 <= i < nodes.len() implies (#[trigger] dependencies.pairs()[i]).0
        == nodes[i].id by {
        assert(pairs_view(dependencies)[i] == (nodes[i].id, node_deps(nodes[i])));
    }
}

/// The layers of a plan that passed the checks, and which nodes they hold.
fn plan_layers(
    plan: &Plan,
    order: &NodeIndex,
    dependencies: &StrMap<StrSet>,
    resolved_effects: &StrMap<ResolvedEffects>,
) -> (r: (Vec<Vec<usize>>, Vec<bool>))
    requires
        plan.nodes@.len() < usize::MAX,
        order.ranks(sorted_nodes(plan@.nodes)),
        sorted_nodes(plan@.nodes).len() == plan.nodes@.len(),
        effects_error(plan@.tools, 0) is None,
        pairs_view(*dependencies) == named_deps(sorted_nodes(plan@.nodes)),
        pairs_view(*resolved_effects) == named_effects(plan@.tools, sorted_nodes(plan@.nodes)),
        deps_known(sorted_nodes(plan@.nodes), order.ids()),
    ensures
        plan_model(plan@).wf(),
        plan_model(plan@).n() == plan.nodes@.len(),
        is_layering(plan_model(plan@), int_lists(r.0@)),
        r.1@.len() == plan.nodes@.len(),
        flag_set(r.1@) == done_before(int_lists(r.0@), r.0@.len() as int),
{
    let ranks = dependency_ranks(dependencies, order, Ghost(sorted_nodes(plan@.nodes)));
    proof {
        lemma_model(plan@, ranks@, *resolved_effects);
    }
    safe_layers(&ranks, resolved_effects)
}

proof fn lemma_is_graph(plan: PlanV, g: GraphV, layers: Seq<Seq<int>>)
    requires
        g.dependencies == named_deps(sorted_nodes(plan.nodes)),
        g.resolved_effects == named_effects(plan.tools, sorted_nodes(plan.nodes)),
        is_layering(plan_model(plan), layers),
        g.layers == named_layers(sorted_nodes(plan.nodes), layers),
    ensures
        is_graph_of(plan, g),
{
}

/// Builds the graph of a plan that passed the checks.
fn build_graph(
    plan: &Plan,
    order: &NodeIndex,
    dependencies: StrMap<StrSet>,
) -> (r: Result<ExecutionGraph, GraphError>)
    requires
        plan.nodes@.len() < usize::MAX,
        order.indexes(plan.nodes@),
        effects_error(plan@.tools, 0) is None,
        pairs_view(dependencies) == named_deps(sorted_nodes(plan@.nodes)),
        deps_known(sorted_nodes(plan@.nodes), order.ids()),
    ensures
        match r {
            Ok(g) => plan_model(plan@).acyclic() && is_graph_of(plan@, g@),
            Err(e) => !plan_model(plan@).acyclic() && e@ is Cycle && is_first_stuck(
                plan@,
                e@->Cycle_0,
            ),
        },
{
    let ghost nodes = sorted_nodes(plan@.nodes);
    proof {
        order.lemma_ranks(plan.nodes@);
        lemma_keyed_by(nodes, dependencies);
    }
    let resolved_effects = resolve_effects(plan, order);
    let (layers, done) = plan_layers(plan, order, &dependencies, &resolved_effects);
    match first_unflagged(&done) {
        Some(i) => {
            let id = dependencies.key_at(i).to_owned();
            assert(id@ == nodes[i as int].id);
            let error = GraphError::Cycle(id);
            proof {
                lemma_first_stuck(plan@, int_lists(layers@), done@, i as int);
                assert(is_first_stuck(plan@, error@->Cycle_0));
            }
            return Err(error);
        },
        None => {},
    }
    proof {
        lemma_complete(plan@, layers@, done@);
    }
    let names = name_layers(&layers, &dependencies, Ghost(nodes));
    let graph = ExecutionGraph { dependencies, layers: names, resolved_effects };
    proof {
        lemma_is_graph(plan@, graph@, int_lists(layers@));
    }
    Ok(graph)
}

/// Validates a plan and builds its execution graph.
pub fn validate(plan: &Plan) -> (r: Result<ExecutionGraph, GraphError>)
    requires
        plan.nodes@.len() < usize::MAX,
    ensures
        match r {
            Ok(g) => {
                &&& plan_error(plan@) is None
                &&& plan_model(plan@).acyclic()
                &&& is_graph_of(plan@, g@)
                &&& is_sorted_nodes(plan@.nodes, sorted_nodes(plan@.nodes))
            },
            Err(e) => match plan_error(plan@) {
                Some(m) => e@ == m,
                None => !plan_model(plan@).acyclic() && e@ is Cycle && is_first_stuck(
                    plan@,
                    e@->Cycle_0,
                ),
            },
        },
{
    match checked_dependencies(plan) {
        Ok((order, dependencies)) => {
            proof {
                order.lemma_sorted(plan.nodes@);
            }
            build_graph(plan, &order, dependencies)
        },
        Err(e) => Err(e),
    }
}

} // verus!
