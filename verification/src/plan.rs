//! Plans: tools with their effects, graph nodes, and named outputs.
//!
//! A [`Plan`] declares tools (with their [`Effects`]), graph nodes, and named
//! outputs. Plans are data: they are validated into an execution graph,
//! optimized, and executed.

use vstd::prelude::*;

use crate::effects::{Effects, EffectsV};
use crate::json::{Json, Value};
use crate::ordered::StrMap;
use crate::refs::{RefV, ValueRef};
use crate::text::copy_texts;

verus! {

use crate::json::entries_view;
use crate::ordered::{opt_view, pairs_view, sorted_pairs, views};
use crate::text::texts_view;

broadcast use crate::json::group_json_views;

/// Plan version accepted by this crate.
pub const CURRENT_VERSION: &'static str = "0";

/// Input key that marks the fan-out item placeholder inside a `for_each`
/// node's input template: `{"$item": ""}` for the whole item, or
/// `{"$item": "field.path"}` for a path inside it.
pub const ITEM_KEY: &'static str = "$item";

/// Scheduler constraints for one tool.
///
/// Limits bound how much execution happens at once; effects decide whether
/// the execution is legal at all. `max_concurrency` counts concurrent
/// dispatches of the tool (a batch dispatch counts as one), and `batch_size`
/// caps how many nodes join one batch dispatch.
#[derive(Clone, Copy, Debug, PartialEq, Eq)]
pub struct ToolLimits {
    /// Maximum concurrent dispatches of this tool.
    pub max_concurrency: Option<usize>,
    /// Maximum nodes joined into one batch dispatch.
    pub batch_size: Option<usize>,
}

impl Default for ToolLimits {
    fn default() -> (r: Self)
        ensures
            r == (ToolLimits { max_concurrency: None, batch_size: None }),
    {
        ToolLimits { max_concurrency: None, batch_size: None }
    }
}

/// Cost metadata used for planning and benchmark estimates.
#[derive(Clone, Copy, Debug, PartialEq, Eq)]
pub struct ToolCost {
    /// Fixed latency per dispatch, in milliseconds.
    pub fixed_ms: Option<u64>,
    /// Additional latency per call, in milliseconds.
    pub per_call_ms: Option<u64>,
    /// Estimated tokens the call's result costs in a transcript.
    pub tokens: Option<u32>,
}

impl Default for ToolCost {
    fn default() -> (r: Self)
        ensures
            r == (ToolCost { fixed_ms: None, per_call_ms: None, tokens: None }),
    {
        ToolCost { fixed_ms: None, per_call_ms: None, tokens: None }
    }
}

/// Declaration of a tool: which adapter executes it and what it promises.
#[derive(Debug, PartialEq, Eq)]
pub struct ToolSpec {
    /// Adapter name this tool dispatches through.
    pub adapter: String,
    /// Declared effects; absent or vacuous effects block unsafe optimization.
    pub effects: Option<Effects>,
    /// Scheduler limits (batch size, concurrency ceiling).
    pub limits: Option<ToolLimits>,
    /// Cost metadata for planning and benchmark estimates.
    pub cost: Option<ToolCost>,
    /// Tool behavior version; changing it invalidates cached outputs.
    pub version: Option<String>,
}

/// A tool declaration as a mathematical value.
#[verifier::ext_equal]
pub struct ToolSpecV {
    pub adapter: Seq<char>,
    pub effects: Option<EffectsV>,
    pub limits: Option<ToolLimits>,
    pub cost: Option<ToolCost>,
    pub version: Option<Seq<char>>,
}

impl View for ToolSpec {
    type V = ToolSpecV;

    open spec fn view(&self) -> ToolSpecV {
        ToolSpecV {
            adapter: self.adapter@,
            effects: opt_view(self.effects),
            limits: self.limits,
            cost: self.cost,
            version: opt_view(self.version),
        }
    }
}

impl ToolSpec {
    /// Creates a spec for `adapter` with no metadata.
    pub fn new(adapter: &str) -> (r: Self)
        ensures
            r@ == (ToolSpecV {
                adapter: adapter@,
                effects: None,
                limits: None,
                cost: None,
                version: None,
            }),
    {
        ToolSpec { adapter: adapter.to_owned(), effects: None, limits: None, cost: None, version: None }
    }

    /// Attaches effect declarations.
    pub fn with_effects(self, effects: Effects) -> (r: Self)
        ensures
            r@ == (ToolSpecV { effects: Some(effects@), ..self@ }),
    {
        ToolSpec {
            adapter: self.adapter,
            effects: Some(effects),
            limits: self.limits,
            cost: self.cost,
            version: self.version,
        }
    }

    /// Attaches scheduler limits.
    pub fn with_limits(self, limits: ToolLimits) -> (r: Self)
        ensures
            r@ == (ToolSpecV { limits: Some(limits), ..self@ }),
    {
        ToolSpec {
            adapter: self.adapter,
            effects: self.effects,
            limits: Some(limits),
            cost: self.cost,
            version: self.version,
        }
    }

    /// Attaches cost metadata.
    pub fn with_cost(self, cost: ToolCost) -> (r: Self)
        ensures
            r@ == (ToolSpecV { cost: Some(cost), ..self@ }),
    {
        ToolSpec {
            adapter: self.adapter,
            effects: self.effects,
            limits: self.limits,
            cost: Some(cost),
            version: self.version,
        }
    }

    /// Attaches a tool behavior version (part of the cache key).
    pub fn with_version(self, version: &str) -> (r: Self)
        ensures
            r@ == (ToolSpecV { version: Some(version@), ..self@ }),
    {
        ToolSpec {
            adapter: self.adapter,
            effects: self.effects,
            limits: self.limits,
            cost: self.cost,
            version: Some(version.to_owned()),
        }
    }
}

impl Clone for ToolSpec {
    fn clone(&self) -> (r: Self)
        ensures
            r@ == self@,
    {
        ToolSpec {
            adapter: self.adapter.clone(),
            effects: match &self.effects {
                Some(e) => Some(e.clone()),
                None => None,
            },
            limits: self.limits,
            cost: self.cost,
            version: match &self.version {
                Some(v) => Some(v.clone()),
                None => None,
            },
        }
    }
}

/// A runtime condition gating a node.
///
/// The referenced value is resolved after the node's dependencies finish.
/// With `equals`, the node runs iff the resolved value equals it. Without
/// `equals`, the node runs iff the resolved value is truthy (not `null` and
/// not `false`). `not` inverts the verdict.
#[derive(Debug, PartialEq)]
pub struct When {
    /// Reference resolved to decide whether the node runs.
    pub target: ValueRef,
    /// Expected value; when absent, a truthiness check is used.
    pub equals: Option<Value>,
    /// Inverts the verdict.
    pub not: bool,
}

/// A condition as a mathematical value.
#[verifier::ext_equal]
pub struct WhenV {
    pub target: RefV,
    pub equals: Option<Json>,
    pub not: bool,
}

impl View for When {
    type V = WhenV;

    open spec fn view(&self) -> WhenV {
        WhenV { target: self.target@, equals: opt_view(self.equals), not: self.not }
    }
}

impl When {
    /// Condition: run when `target` resolves truthy.
    pub fn truthy(target: ValueRef) -> (r: Self)
        ensures
            r@ == (WhenV { target: target@, equals: None, not: false }),
    {
        When { target, equals: None, not: false }
    }

    /// Condition: run when `target` resolves equal to `value`.
    pub fn equals(target: ValueRef, value: Value) -> (r: Self)
        ensures
            r@ == (WhenV { target: target@, equals: Some(value@), not: false }),
    {
        When { target, equals: Some(value), not: false }
    }

    /// Inverts the condition.
    pub fn negated(self) -> (r: Self)
        ensures
            r@ == (WhenV { not: !self@.not, ..self@ }),
    {
        When { target: self.target, equals: self.equals, not: !self.not }
    }
}

impl Clone for When {
    fn clone(&self) -> (r: Self)
        ensures
            r@ == self@,
    {
        When {
            target: self.target.clone(),
            equals: match &self.equals {
                Some(v) => Some(v.clone()),
                None => None,
            },
            not: self.not,
        }
    }
}

/// One node of the plan graph: a tool call with an input and dependencies.
#[derive(Debug, PartialEq)]
pub struct Node {
    /// Unique node id.
    pub id: String,
    /// Name of the tool to call, declared in [`Plan::tools`].
    pub tool: String,
    /// JSON input; may contain `{"$ref": ...}` references and
    /// `{"$literal": ...}` escapes.
    pub input: Value,
    /// Explicit dependencies in addition to those derived from references.
    pub depends_on: Vec<String>,
    /// When present, the node expands at runtime into one call per element
    /// of the referenced array. `{"$item": <path>}` markers inside `input`
    /// are substituted per element, and the node's output becomes the array
    /// of per-element outputs, in order.
    pub for_each: Option<ValueRef>,
    /// When present, the node only runs if the condition holds; otherwise it
    /// is skipped and nodes depending on it are skipped transitively.
    pub when: Option<When>,
}

/// A node as a mathematical value.
#[verifier::ext_equal]
pub struct NodeV {
    pub id: Seq<char>,
    pub tool: Seq<char>,
    pub input: Json,
    pub depends_on: Seq<Seq<char>>,
    pub for_each: Option<RefV>,
    pub when: Option<WhenV>,
}

impl View for Node {
    type V = NodeV;

    open spec fn view(&self) -> NodeV {
        NodeV {
            id: self.id@,
            tool: self.tool@,
            input: self.input@,
            depends_on: texts_view(self.depends_on@),
            for_each: opt_view(self.for_each),
            when: opt_view(self.when),
        }
    }
}

impl Node {
    /// Creates a node calling `tool` with an empty object input.
    pub fn new(id: &str, tool: &str) -> (r: Self)
        ensures
            r@ == (NodeV {
                id: id@,
                tool: tool@,
                input: Json::Object(Seq::empty()),
                depends_on: Seq::empty(),
                for_each: None,
                when: None,
            }),
    {
        let map: StrMap<Value> = StrMap::new();
        assert(entries_view(map) =~= Seq::empty());
        let r = Node {
            id: id.to_owned(),
            tool: tool.to_owned(),
            input: Value::Object(map),
            depends_on: Vec::new(),
            for_each: None,
            when: None,
        };
        assert(r@.depends_on =~= Seq::empty());
        r
    }

    /// Sets the node input.
    pub fn with_input(self, input: Value) -> (r: Self)
        ensures
            r@ == (NodeV { input: input@, ..self@ }),
    {
        Node {
            id: self.id,
            tool: self.tool,
            input,
            depends_on: self.depends_on,
            for_each: self.for_each,
            when: self.when,
        }
    }

    /// Sets the fan-out source for a dynamic node.
    pub fn with_for_each(self, items: ValueRef) -> (r: Self)
        ensures
            r@ == (NodeV { for_each: Some(items@), ..self@ }),
    {
        Node {
            id: self.id,
            tool: self.tool,
            input: self.input,
            depends_on: self.depends_on,
            for_each: Some(items),
            when: self.when,
        }
    }

    /// Sets the run condition.
    pub fn with_when(self, when: When) -> (r: Self)
        ensures
            r@ == (NodeV { when: Some(when@), ..self@ }),
    {
        Node {
            id: self.id,
            tool: self.tool,
            input: self.input,
            depends_on: self.depends_on,
            for_each: self.for_each,
            when: Some(when),
        }
    }
}

impl Clone for Node {
    fn clone(&self) -> (r: Self)
        ensures
            r@ == self@,
    {
        Node {
            id: self.id.clone(),
            tool: self.tool.clone(),
            input: self.input.clone(),
            depends_on: copy_texts(&self.depends_on),
            for_each: match &self.for_each {
                Some(r) => Some(r.clone()),
                None => None,
            },
            when: match &self.when {
                Some(w) => Some(w.clone()),
                None => None,
            },
        }
    }
}

/// An executable tool plan: tools, nodes, and requested outputs.
#[derive(Debug, PartialEq)]
pub struct Plan {
    /// Plan version; must equal [`CURRENT_VERSION`].
    pub version: String,
    /// Optional human label used in traces, transcripts, and reports.
    pub name: Option<String>,
    /// Optional human description of what the plan does.
    pub description: Option<String>,
    /// Tools referenced by nodes, keyed by tool name.
    pub tools: StrMap<ToolSpec>,
    /// Graph nodes.
    pub nodes: Vec<Node>,
    /// Named outputs resolved from node outputs after execution.
    pub outputs: StrMap<ValueRef>,
}

/// A plan as a mathematical value. Tools and outputs stand in the order of
/// their names.
#[verifier::ext_equal]
pub struct PlanV {
    pub version: Seq<char>,
    pub name: Option<Seq<char>>,
    pub description: Option<Seq<char>>,
    pub tools: Seq<(Seq<char>, ToolSpecV)>,
    pub nodes: Seq<NodeV>,
    pub outputs: Seq<(Seq<char>, RefV)>,
}

impl View for Plan {
    type V = PlanV;

    open spec fn view(&self) -> PlanV {
        PlanV {
            version: self.version@,
            name: opt_view(self.name),
            description: opt_view(self.description),
            tools: pairs_view(self.tools),
            nodes: views(self.nodes@),
            outputs: pairs_view(self.outputs),
        }
    }
}

/// A plan without tools, nodes and outputs.
pub open spec fn empty_plan() -> PlanV {
    PlanV {
        version: CURRENT_VERSION@,
        name: None,
        description: None,
        tools: Seq::empty(),
        nodes: Seq::empty(),
        outputs: Seq::empty(),
    }
}

/// A copy of a map of tools.
pub fn copy_tools(tools: &StrMap<ToolSpec>) -> (r: StrMap<ToolSpec>)
    ensures
        pairs_view(r) == pairs_view(*tools),
{
    let mut out: StrMap<ToolSpec> = StrMap::new();
    tools.prove_sorted();
    let mut i: usize = 0;
    while i < tools.len()
        invariant
            i <= tools.pairs().len(),
            sorted_pairs(tools.pairs()),
            out.pairs().len() == i,
            forall|j: int|
                0 <= j < i ==> (#[trigger] out.pairs()[j]).0 == tools.pairs()[j].0
                    && out.pairs()[j].1@ == tools.pairs()[j].1@,
        decreases tools.pairs().len() - i,
    {
        let key = tools.key_at(i).to_owned();
        assert forall|j: int| 0 <= j < out.pairs().len() implies crate::text::lex_less(
            #[trigger] out.pairs()[j].0,
            key@,
        ) by {
            assert(crate::text::lex_less(tools.pairs()[j].0, tools.pairs()[i as int].0));
        }
        out.push(key, tools.value_at(i).clone());
        i = i + 1;
    }
    assert(pairs_view(out) =~= pairs_view(*tools));
    out
}

/// A copy of a list of nodes.
pub fn copy_nodes(nodes: &Vec<Node>) -> (r: Vec<Node>)
    ensures
        views(r@) == views(nodes@),
{
    let mut out: Vec<Node> = Vec::new();
    let mut i: usize = 0;
    while i < nodes.len()
        invariant
            i <= nodes@.len(),
            out@.len() == i,
            forall|j: int| 0 <= j < i ==> (#[trigger] out@[j])@ == nodes@[j]@,
        decreases nodes.len() - i,
    {
        out.push(nodes[i].clone());
        i = i + 1;
    }
    assert(views(out@) =~= views(nodes@));
    out
}

/// A copy of a map of outputs.
pub fn copy_outputs(outputs: &StrMap<ValueRef>) -> (r: StrMap<ValueRef>)
    ensures
        pairs_view(r) == pairs_view(*outputs),
{
    let mut out: StrMap<ValueRef> = StrMap::new();
    outputs.prove_sorted();
    let mut i: usize = 0;
    while i < outputs.len()
        invariant
            i <= outputs.pairs().len(),
            sorted_pairs(outputs.pairs()),
            out.pairs().len() == i,
            forall|j: int|
                0 <= j < i ==> (#[trigger] out.pairs()[j]).0 == outputs.pairs()[j].0
                    && out.pairs()[j].1@ == outputs.pairs()[j].1@,
        decreases outputs.pairs().len() - i,
    {
        let key = outputs.key_at(i).to_owned();
        assert forall|j: int| 0 <= j < out.pairs().len() implies crate::text::lex_less(
            #[trigger] out.pairs()[j].0,
            key@,
        ) by {
            assert(crate::text::lex_less(outputs.pairs()[j].0, outputs.pairs()[i as int].0));
        }
        out.push(key, outputs.value_at(i).clone());
        i = i + 1;
    }
    assert(pairs_view(out) =~= pairs_view(*outputs));
    out
}

impl Clone for Plan {
    fn clone(&self) -> (r: Self)
        ensures
            r@ == self@,
    {
        Plan {
            version: self.version.clone(),
            name: match &self.name {
                Some(s) => Some(s.clone()),
                None => None,
            },
            description: match &self.description {
                Some(s) => Some(s.clone()),
                None => None,
            },
            tools: copy_tools(&self.tools),
            nodes: copy_nodes(&self.nodes),
            outputs: copy_outputs(&self.outputs),
        }
    }
}

impl Plan {
    /// Creates an empty plan at [`CURRENT_VERSION`].
    pub fn new() -> (r: Self)
        ensures
            r@ == empty_plan(),
    {
        let r = Plan {
            version: CURRENT_VERSION.to_owned(),
            name: None,
            description: None,
            tools: StrMap::new(),
            nodes: Vec::new(),
            outputs: StrMap::new(),
        };
        assert(r@ =~= empty_plan());
        r
    }

    /// Sets the human-readable plan name.
    pub fn with_name(self, name: &str) -> (r: Self)
        ensures
            r@ == (PlanV { name: Some(name@), ..self@ }),
    {
        Plan {
            version: self.version,
            name: Some(name.to_owned()),
            description: self.description,
            tools: self.tools,
            nodes: self.nodes,
            outputs: self.outputs,
        }
    }
}

impl Default for Plan {
    fn default() -> (r: Self)
        ensures
            r@ == empty_plan(),
    {
        Plan::new()
    }
}
} // verus!
