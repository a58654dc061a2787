//! High-level recipes lowered into executable plans.

use vstd::prelude::*;

use crate::json::{Json, Value};
use crate::ordered::StrMap;
use crate::plan::{Node, NodeV, Plan, PlanV, ToolSpec, ToolSpecV, CURRENT_VERSION, ITEM_KEY};
use crate::planner::intent::{PlannerError, PlannerErrorV};
use crate::refs::{RefV, ValueRef, REF_KEY};
use crate::text::{concat2, decimal_text, same_text};

verus! {

use crate::json::{array_smaller, entries_view, object_smaller, single, values_view};
use crate::ordered::{gives, has_key, lookup, opt_view, pairs_view, prepend, sorted_pairs, views};
use crate::text::{decimal, lex_less};
use crate::value::entries_lookup;

broadcast use {crate::json::group_json_views, crate::ordered::pairs_decrease};

/// The key of an object that stands for a parameter.
pub const PARAM_KEY: &'static str = "$param";

/// The key of an object that stands for the output of the previous step.
pub const PREV_KEY: &'static str = "$prev";

// ---------------------------------------------------------------------------
// Types
// ---------------------------------------------------------------------------

/// Fan one tool out over items known at compile time (`items`) or over an
/// upstream array resolved at runtime (`items_ref`, which lowers to a
/// `for_each` node).
#[derive(Debug, PartialEq)]
pub struct FanOutRecipe {
    /// Tool to call per item.
    pub tool: String,
    /// Compile-time items.
    pub items: Vec<Value>,
    /// Runtime source of items (`<node>.output[.path]`).
    pub items_ref: Option<ValueRef>,
    /// Prefix for generated node ids.
    pub node_prefix: String,
    /// When set, each item is wrapped as `{input_key: item}`.
    pub input_key: Option<String>,
}

/// A fan-out as a mathematical value.
#[verifier::ext_equal]
pub struct FanOutV {
    pub tool: Seq<char>,
    pub items: Seq<Json>,
    pub items_ref: Option<RefV>,
    pub node_prefix: Seq<char>,
    pub input_key: Option<Seq<char>>,
}

impl View for FanOutRecipe {
    type V = FanOutV;

    open spec fn view(&self) -> FanOutV {
        FanOutV {
            tool: self.tool@,
            items: values_view(self.items@),
            items_ref: opt_view(self.items_ref),
            node_prefix: self.node_prefix@,
            input_key: opt_view(self.input_key),
        }
    }
}

/// The node prefix of a recipe that names none.
pub const DEFAULT_NODE_PREFIX: &'static str = "item_";

/// The reduce key of a recipe that names none.
pub const DEFAULT_REDUCE_KEY: &'static str = "items";

/// The node prefix of a recipe that names none.
pub fn default_node_prefix() -> (r: String)
    ensures
        r@ == DEFAULT_NODE_PREFIX@,
{
    DEFAULT_NODE_PREFIX.to_owned()
}

/// The reduce key of a recipe that names none.
pub fn default_reduce_key() -> (r: String)
    ensures
        r@ == DEFAULT_REDUCE_KEY@,
{
    DEFAULT_REDUCE_KEY.to_owned()
}

impl FanOutRecipe {
    /// Fan out over compile-time items.
    pub fn new(tool: &str, items: Vec<Value>) -> (r: Self)
        ensures
            r@ == (FanOutV {
                tool: tool@,
                items: values_view(items@),
                items_ref: None,
                node_prefix: DEFAULT_NODE_PREFIX@,
                input_key: None,
            }),
    {
        FanOutRecipe {
            tool: tool.to_owned(),
            items,
            items_ref: None,
            node_prefix: default_node_prefix(),
            input_key: None,
        }
    }

    /// Fan out over a runtime array.
    pub fn over_ref(tool: &str, items_ref: ValueRef) -> (r: Self)
        ensures
            r@ == (FanOutV {
                tool: tool@,
                items: Seq::empty(),
                items_ref: Some(items_ref@),
                node_prefix: DEFAULT_NODE_PREFIX@,
                input_key: None,
            }),
    {
        let r = FanOutRecipe {
            tool: tool.to_owned(),
            items: Vec::new(),
            items_ref: Some(items_ref),
            node_prefix: default_node_prefix(),
            input_key: None,
        };
        assert(r@.items =~= Seq::empty());
        r
    }

    /// Sets the generated node id prefix.
    pub fn with_node_prefix(self, prefix: &str) -> (r: Self)
        ensures
            r@ == (FanOutV { node_prefix: prefix@, ..self@ }),
    {
        FanOutRecipe {
            tool: self.tool,
            items: self.items,
            items_ref: self.items_ref,
            node_prefix: prefix.to_owned(),
            input_key: self.input_key,
        }
    }

    /// Wraps each item under `key` in the tool input.
    pub fn with_input_key(self, key: &str) -> (r: Self)
        ensures
            r@ == (FanOutV { input_key: Some(key@), ..self@ }),
    {
        FanOutRecipe {
            tool: self.tool,
            items: self.items,
            items_ref: self.items_ref,
            node_prefix: self.node_prefix,
            input_key: Some(key.to_owned()),
        }
    }
}

/// Fan-out plus a reduce call receiving every mapped output.
#[derive(Debug, PartialEq)]
pub struct MapReduceRecipe {
    /// The fan-out half.
    pub map: FanOutRecipe,
    /// Tool receiving the mapped outputs.
    pub reduce_tool: String,
    /// Input key under which the mapped outputs are passed to the reducer.
    pub reduce_input_key: String,
}

/// A map-reduce as a mathematical value.
pub struct MapReduceV {
    pub map: FanOutV,
    pub reduce_tool: Seq<char>,
    pub reduce_input_key: Seq<char>,
}

impl View for MapReduceRecipe {
    type V = MapReduceV;

    open spec fn view(&self) -> MapReduceV {
        MapReduceV {
            map: self.map@,
            reduce_tool: self.reduce_tool@,
            reduce_input_key: self.reduce_input_key@,
        }
    }
}

/// One pipeline step. Inside `input`, `{"$prev": "<path>"}` markers resolve
/// to the previous step's output (at the optional path).
#[derive(Debug, PartialEq)]
pub struct PipelineStep {
    /// Tool the step calls.
    pub tool: String,
    /// Input template.
    pub input: Value,
}

/// A pipeline step as a mathematical value.
pub struct PipelineStepV {
    pub tool: Seq<char>,
    pub input: Json,
}

impl View for PipelineStep {
    type V = PipelineStepV;

    open spec fn view(&self) -> PipelineStepV {
        PipelineStepV { tool: self.tool@, input: self.input@ }
    }
}

/// A sequential chain of calls.
#[derive(Debug, PartialEq)]
pub struct PipelineRecipe {
    /// Chain steps, in order.
    pub steps: Vec<PipelineStep>,
    /// Prefix for generated node ids.
    pub node_prefix: String,
}

/// A pipeline as a mathematical value.
#[verifier::ext_equal]
pub struct PipelineV {
    pub steps: Seq<PipelineStepV>,
    pub node_prefix: Seq<char>,
}

impl View for PipelineRecipe {
    type V = PipelineV;

    open spec fn view(&self) -> PipelineV {
        PipelineV { steps: views(self.steps@), node_prefix: self.node_prefix@ }
    }
}

/// Supported recipe shapes.
#[derive(Debug, PartialEq)]
pub enum Recipe {
    /// One compact intent becomes many independent calls.
    FanOut(FanOutRecipe),
    /// Fan-out plus an aggregation call over every result.
    MapReduce(MapReduceRecipe),
    /// A sequential chain where each step consumes the previous output.
    Pipeline(PipelineRecipe),
}

/// A recipe shape as a mathematical value.
pub enum RecipeV {
    FanOut(FanOutV),
    MapReduce(MapReduceV),
    Pipeline(PipelineV),
}

impl View for Recipe {
    type V = RecipeV;

    open spec fn view(&self) -> RecipeV {
        match self {
            Recipe::FanOut(r) => RecipeV::FanOut(r@),
            Recipe::MapReduce(r) => RecipeV::MapReduce(r@),
            Recipe::Pipeline(r) => RecipeV::Pipeline(r@),
        }
    }
}

/// A named, optionally parameterized recipe with its tool declarations.
#[derive(Debug, PartialEq)]
pub struct RecipePlan {
    /// Recipe IR version; must equal [`CURRENT_VERSION`].
    pub version: String,
    /// Optional human label carried into the compiled plan.
    pub name: Option<String>,
    /// Declared parameters with default values; a `null` default marks the
    /// parameter as required. `{"$param": "name"}` placeholders inside the
    /// recipe are substituted at compile time.
    pub params: StrMap<Value>,
    /// Tools referenced by the expanded nodes.
    pub tools: StrMap<ToolSpec>,
    /// The execution shape.
    pub recipe: Recipe,
    /// Named outputs of the compiled plan.
    pub outputs: StrMap<ValueRef>,
}

/// A recipe plan as a mathematical value.
#[verifier::ext_equal]
pub struct RecipePlanV {
    pub version: Seq<char>,
    pub name: Option<Seq<char>>,
    pub params: Seq<(Seq<char>, Json)>,
    pub tools: Seq<(Seq<char>, ToolSpecV)>,
    pub recipe: RecipeV,
    pub outputs: Seq<(Seq<char>, RefV)>,
}

impl View for RecipePlan {
    type V = RecipePlanV;

    open spec fn view(&self) -> RecipePlanV {
        RecipePlanV {
            version: self.version@,
            name: opt_view(self.name),
            params: entries_view(self.params),
            tools: pairs_view(self.tools),
            recipe: self.recipe@,
            outputs: pairs_view(self.outputs),
        }
    }
}

impl RecipePlan {
    /// Creates a recipe plan at [`CURRENT_VERSION`].
    pub fn new(recipe: Recipe) -> (r: Self)
        ensures
            r@ == (RecipePlanV {
                version: CURRENT_VERSION@,
                name: None,
                params: Seq::empty(),
                tools: Seq::empty(),
                recipe: recipe@,
                outputs: Seq::empty(),
            }),
    {
        let r = RecipePlan {
            version: CURRENT_VERSION.to_owned(),
            name: None,
            params: StrMap::new(),
            tools: StrMap::new(),
            recipe,
            outputs: StrMap::new(),
        };
        assert(r@.params =~= Seq::empty());
        assert(r@.tools =~= Seq::empty());
        assert(r@.outputs =~= Seq::empty());
        r
    }

    /// Sets the human-readable name.
    pub fn with_name(self, name: &str) -> (r: Self)
        ensures
            r@ == (RecipePlanV { name: Some(name@), ..self@ }),
    {
        RecipePlan {
            version: self.version,
            name: Some(name.to_owned()),
            params: self.params,
            tools: self.tools,
            recipe: self.recipe,
            outputs: self.outputs,
        }
    }
}

// ---------------------------------------------------------------------------
// Parameters: model
// ---------------------------------------------------------------------------

/// The first supplied parameter, from position `from`, that is not declared.
pub open spec fn undeclared(
    declared: Seq<(Seq<char>, Json)>,
    supplied: Seq<(Seq<char>, Json)>,
    from: int,
) -> Option<Seq<char>>
    decreases supplied.len() - from,
{
    if from >= supplied.len() {
        None
    } else if !has_key(declared, supplied[from].0) {
        Some(supplied[from].0)
    } else {
        undeclared(declared, supplied, from + 1)
    }
}

/// The declared parameters, each with the value supplied for it or else with
/// its default.
pub open spec fn merged_params(
    declared: Seq<(Seq<char>, Json)>,
    supplied: Seq<(Seq<char>, Json)>,
) -> Seq<(Seq<char>, Json)> {
    Seq::new(
        declared.len(),
        |i: int|
            (
                declared[i].0,
                match lookup(supplied, declared[i].0) {
                    Some(v) => v,
                    None => declared[i].1,
                },
            ),
    )
}

/// The first parameter, from position `from`, that has no value.
pub open spec fn unset_param(params: Seq<(Seq<char>, Json)>, from: int) -> Option<Seq<char>>
    decreases params.len() - from,
{
    if from >= params.len() {
        None
    } else if params[from].1 is Null {
        Some(params[from].0)
    } else {
        unset_param(params, from + 1)
    }
}

/// The parameter that an object stands for, when it stands for one.
pub open spec fn param_name(entries: Seq<(Seq<char>, Json)>) -> Option<Seq<char>> {
    match lookup(entries, PARAM_KEY@) {
        Some(Json::Text(name)) => if entries.len() == 1 {
            Some(name)
        } else {
            None
        },
        _ => None,
    }
}

/// A document with every placeholder replaced by the parameter's value, or
/// the first placeholder that names no parameter.
pub open spec fn substituted(j: Json, params: Seq<(Seq<char>, Json)>) -> Result<Json, Seq<char>>
    decreases j, 0int,
{
    match j {
        Json::Object(entries) => match param_name(entries) {
            Some(name) => match lookup(params, name) {
                Some(v) => Ok(v),
                None => Err(name),
            },
            None => match substituted_entries(entries, params, 0) {
                Ok(out) => Ok(Json::Object(out)),
                Err(e) => Err(e),
            },
        },
        Json::List(items) => match substituted_items(items, params, 0) {
            Ok(out) => Ok(Json::List(out)),
            Err(e) => Err(e),
        },
        _ => Ok(j),
    }
}

/// The elements of a list from position `from` on, with placeholders replaced.
pub open spec fn substituted_items(
    items: Seq<Json>,
    params: Seq<(Seq<char>, Json)>,
    from: int,
) -> Result<Seq<Json>, Seq<char>>
    decreases items, items.len() - from,
{
    if 0 <= from < items.len() {
        match substituted(items[from], params) {
            Ok(v) => prepend(seq![v], substituted_items(items, params, from + 1)),
            Err(e) => Err(e),
        }
    } else {
        Ok(Seq::empty())
    }
}

/// The members of an object from position `from` on, with placeholders
/// replaced.
pub open spec fn substituted_entries(
    entries: Seq<(Seq<char>, Json)>,
    params: Seq<(Seq<char>, Json)>,
    from: int,
) -> Result<Seq<(Seq<char>, Json)>, Seq<char>>
    decreases entries, entries.len() - from,
{
    if 0 <= from < entries.len() {
        match substituted(entries[from].1, params) {
            Ok(v) => prepend(
                seq![(entries[from].0, v)],
                substituted_entries(entries, params, from + 1),
            ),
            Err(e) => Err(e),
        }
    } else {
        Ok(Seq::empty())
    }
}

/// Pipeline steps from position `from` on, with placeholders replaced.
pub open spec fn substituted_steps(
    steps: Seq<PipelineStepV>,
    params: Seq<(Seq<char>, Json)>,
    from: int,
) -> Result<Seq<PipelineStepV>, Seq<char>>
    decreases steps.len() - from,
{
    if 0 <= from < steps.len() {
        match substituted(steps[from].input, params) {
            Ok(v) => prepend(
                seq![PipelineStepV { tool: steps[from].tool, input: v }],
                substituted_steps(steps, params, from + 1),
            ),
            Err(e) => Err(e),
        }
    } else {
        Ok(Seq::empty())
    }
}

/// A fan-out with placeholders replaced.
pub open spec fn substituted_fan_out(
    r: FanOutV,
    params: Seq<(Seq<char>, Json)>,
) -> Result<FanOutV, Seq<char>> {
    match substituted_items(r.items, params, 0) {
        Ok(items) => Ok(FanOutV { items, ..r }),
        Err(e) => Err(e),
    }
}

/// A recipe with placeholders replaced, or the name of the first placeholder
/// that is not among the parameters.
pub open spec fn substituted_recipe(
    recipe: RecipeV,
    params: Seq<(Seq<char>, Json)>,
) -> Result<RecipeV, Seq<char>> {
    match recipe {
        RecipeV::FanOut(r) => match substituted_fan_out(r, params) {
            Ok(s) => Ok(RecipeV::FanOut(s)),
            Err(e) => Err(e),
        },
        RecipeV::MapReduce(r) => match substituted_fan_out(r.map, params) {
            Ok(s) => Ok(RecipeV::MapReduce(MapReduceV { map: s, ..r })),
            Err(e) => Err(e),
        },
        RecipeV::Pipeline(r) => match substituted_steps(r.steps, params, 0) {
            Ok(steps) => Ok(RecipeV::Pipeline(PipelineV { steps, ..r })),
            Err(e) => Err(e),
        },
    }
}

// ---------------------------------------------------------------------------
// Expansion: model
// ---------------------------------------------------------------------------

/// A node that only calls a tool with an input.
pub open spec fn call_node(id: Seq<char>, tool: Seq<char>, input: Json) -> NodeV {
    NodeV { id, tool, input, depends_on: Seq::empty(), for_each: None, when: None }
}

/// The id of the `i`-th generated node, counted from zero.
pub open spec fn numbered(prefix: Seq<char>, i: int) -> Seq<char> {
    prefix + decimal((i + 1) as nat)
}

/// An item as a tool input.
pub open spec fn wrapped_item(key: Option<Seq<char>>, item: Json) -> Json {
    match key {
        Some(k) => single(k, item),
        None => item,
    }
}

/// The nodes of a fan-out over known items: one call per item.
pub open spec fn item_nodes(r: FanOutV) -> Seq<NodeV> {
    Seq::new(
        r.items.len(),
        |i: int| call_node(numbered(r.node_prefix, i), r.tool, wrapped_item(r.input_key, r.items[i])),
    )
}

/// The node of a fan-out over a runtime array.
pub open spec fn each_node(r: FanOutV, items_ref: RefV) -> NodeV {
    NodeV {
        for_each: Some(items_ref),
        ..call_node(
            r.node_prefix + "each"@,
            r.tool,
            wrapped_item(r.input_key, single(ITEM_KEY@, Json::Text(""@))),
        )
    }
}

/// The nodes of a fan-out.
pub open spec fn fan_out_nodes(r: FanOutV) -> Result<Seq<NodeV>, PlannerErrorV> {
    match r.items_ref {
        Some(items_ref) => Ok(seq![each_node(r, items_ref)]),
        None => if r.items.len() == 0 {
            Err(PlannerErrorV::EmptyFanOut)
        } else {
            Ok(item_nodes(r))
        },
    }
}

/// A reference to the whole output of a node, as a document.
pub open spec fn output_marker(id: Seq<char>) -> Json {
    single(REF_KEY@, Json::Text(id + ".output"@))
}

/// What the reducer receives: the array of a runtime fan-out, or the list of
/// the outputs of all items.
pub open spec fn reduce_input(r: MapReduceV, nodes: Seq<NodeV>) -> Json {
    single(
        r.reduce_input_key,
        if r.map.items_ref is Some {
            output_marker(nodes[0].id)
        } else {
            Json::List(Seq::new(nodes.len(), |i: int| output_marker(nodes[i].id)))
        },
    )
}

/// The nodes of a map-reduce: those of its fan-out and the reducer.
pub open spec fn map_reduce_nodes(r: MapReduceV) -> Result<Seq<NodeV>, PlannerErrorV> {
    match fan_out_nodes(r.map) {
        Ok(nodes) => Ok(
            nodes.push(
                call_node(r.map.node_prefix + "reduce"@, r.reduce_tool, reduce_input(r, nodes)),
            ),
        ),
        Err(e) => Err(e),
    }
}

/// The path that a marker of the previous output holds, when an object is one.
pub open spec fn prev_path(entries: Seq<(Seq<char>, Json)>) -> Option<Seq<char>> {
    match lookup(entries, PREV_KEY@) {
        Some(Json::Text(path)) => if entries.len() == 1 {
            Some(path)
        } else {
            None
        },
        _ => None,
    }
}

/// A document with every marker of the previous output turned into a
/// reference to the node `previous`.
pub open spec fn chained(j: Json, previous: Seq<char>) -> Json
    decreases j,
{
    match j {
        Json::Object(entries) => match prev_path(entries) {
            Some(path) => if path.len() == 0 {
                output_marker(previous)
            } else {
                single(REF_KEY@, Json::Text(previous + ".output."@ + path))
            },
            None => Json::Object(
                Seq::new(
                    entries.len(),
                    |i: int|
                        (
                            entries[i].0,
                            if 0 <= i < entries.len() {
                                chained(entries[i].1, previous)
                            } else {
                                Json::Null
                            },
                        ),
                ),
            ),
        },
        Json::List(items) => Json::List(
            Seq::new(
                items.len(),
                |i: int|
                    if 0 <= i < items.len() {
                        chained(items[i], previous)
                    } else {
                        Json::Null
                    },
            ),
        ),
        _ => j,
    }
}

/// The `i`-th node of a pipeline.
pub open spec fn pipeline_node(r: PipelineV, i: int) -> NodeV {
    call_node(
        numbered(r.node_prefix, i),
        r.steps[i].tool,
        if i > 0 {
            chained(r.steps[i].input, numbered(r.node_prefix, i - 1))
        } else {
            r.steps[i].input
        },
    )
}

/// The nodes of a pipeline.
pub open spec fn pipeline_nodes(r: PipelineV) -> Result<Seq<NodeV>, PlannerErrorV> {
    if r.steps.len() == 0 {
        Err(PlannerErrorV::EmptyPipeline)
    } else {
        Ok(Seq::new(r.steps.len(), |i: int| pipeline_node(r, i)))
    }
}

/// The nodes that a recipe expands to.
pub open spec fn recipe_nodes(recipe: RecipeV) -> Result<Seq<NodeV>, PlannerErrorV> {
    match recipe {
        RecipeV::FanOut(r) => fan_out_nodes(r),
        RecipeV::MapReduce(r) => map_reduce_nodes(r),
        RecipeV::Pipeline(r) => pipeline_nodes(r),
    }
}

/// The plan that a recipe compiles to with the supplied parameters.
pub open spec fn compiled_recipe(
    plan: RecipePlanV,
    supplied: Seq<(Seq<char>, Json)>,
) -> Result<PlanV, PlannerErrorV> {
    let params = merged_params(plan.params, supplied);
    if plan.version != CURRENT_VERSION@ {
        Err(PlannerErrorV::UnsupportedVersion(plan.version))
    } else if undeclared(plan.params, supplied, 0) is Some {
        Err(PlannerErrorV::UnknownParam(undeclared(plan.params, supplied, 0)->0))
    } else if unset_param(params, 0) is Some {
        Err(PlannerErrorV::MissingParam(unset_param(params, 0)->0))
    } else {
        match substituted_recipe(plan.recipe, params) {
            Err(name) => Err(PlannerErrorV::UnknownParam(name)),
            Ok(recipe) => match recipe_nodes(recipe) {
                Err(e) => Err(e),
                Ok(nodes) => Ok(
                    PlanV {
                        version: CURRENT_VERSION@,
                        name: plan.name,
                        description: None,
                        tools: plan.tools,
                        nodes,
                        outputs: plan.outputs,
                    },
                ),
            },
        }
    }
}

// ---------------------------------------------------------------------------
// Parameters
// ---------------------------------------------------------------------------

fn placeholder(map: &StrMap<Value>) -> (r: Option<&String>)
    ensures
        opt_view(match r { Some(t) => Some(*t), None => None }) == param_name(entries_view(*map)),
{
    map.prove_sorted();
    proof {
        entries_lookup(*map, PARAM_KEY@);
    }
    if map.len() != 1 {
        return None;
    }
    match map.get(PARAM_KEY) {
        Some(Value::String(name)) => Some(name),
        _ => None,
    }
}

fn substitute_value(value: &Value, params: &StrMap<Value>) -> (r: Result<Value, String>)
    ensures
        gives(r, substituted(value@, entries_view(*params))),
    decreases value, 0int,
{
    let ghost ps = entries_view(*params);
    match value {
        Value::Object(map) => {
            let ghost entries = entries_view(*map);
            map.prove_sorted();
            if let Some(name) = placeholder(map) {
                params.prove_sorted();
                proof {
                    entries_lookup(*params, name@);
                }
                return match params.get(name.as_str()) {
                    Some(v) => Ok(v.clone()),
                    None => Err(name.clone()),
                };
            }
            let mut out: StrMap<Value> = StrMap::new();
            let mut i: usize = 0;
            assert(entries_view(out) =~= Seq::empty());
            proof {
                let rest = substituted_entries(entries, ps, 0);
                if rest is Ok {
                    assert(Seq::empty() + rest->Ok_0 =~= rest->Ok_0);
                }
            }
            while i < map.len()
                invariant
                    i <= map.pairs().len(),
                    *value == Value::Object(*map),
                    entries == entries_view(*map),
                    ps == entries_view(*params),
                    param_name(entries) is None,
                    sorted_pairs(map.pairs()),
                    out.pairs().len() == i,
                    forall|j: int| 0 <= j < i ==> (#[trigger] out.pairs()[j]).0 == map.pairs()[j].0,
                    substituted_entries(entries, ps, 0) == prepend(
                        entries_view(out),
                        substituted_entries(entries, ps, i as int),
                    ),
                decreases map.pairs().len() - i,
            {
                proof {
                    object_smaller(*value, i as int);
                }
                match substitute_value(map.value_at(i), params) {
                    Ok(item) => {
                        let key = map.key_at(i).to_owned();
                        assert forall|j: int| 0 <= j < out.pairs().len() implies lex_less(
                            #[trigger] out.pairs()[j].0,
                            key@,
                        ) by {
                            assert(lex_less(map.pairs()[j].0, map.pairs()[i as int].0));
                        }
                        let ghost before = entries_view(out);
                        let ghost one = (key@, item@);
                        out.push(key, item);
                        proof {
                            assert(entries_view(out) =~= before.push(one));
                            let rest = substituted_entries(entries, ps, i + 1);
                            if rest is Ok {
                                assert(before + (seq![one] + rest->Ok_0) =~= before.push(one)
                                    + rest->Ok_0);
                            }
                        }
                    },
                    Err(e) => {
                        return Err(e);
                    },
                }
                i = i + 1;
            }
            assert(entries_view(out) + Seq::empty() =~= entries_view(out));
            Ok(Value::Object(out))
        },
        Value::Array(items) => {
            proof {
                assert(decreases_to!(*value => items@));
            }
            match substitute_items(items, params) {
                Ok(out) => Ok(Value::Array(out)),
                Err(e) => Err(e),
            }
        },
        _ => Ok(value.clone()),
    }
}

fn substitute_items(items: &Vec<Value>, params: &StrMap<Value>) -> (r: Result<Vec<Value>, String>)
    ensures
        match (r, substituted_items(values_view(items@), entries_view(*params), 0)) {
            (Ok(v), Ok(w)) => values_view(v@) == w,
            (Err(e), Err(f)) => e@ == f,
            _ => false,
        },
    decreases items@, 1int,
{
    let ghost ps = entries_view(*params);
    let ghost docs = values_view(items@);
    let mut out: Vec<Value> = Vec::new();
    let mut i: usize = 0;
    assert(values_view(out@) =~= Seq::empty());
    proof {
        let rest = substituted_items(docs, ps, 0);
        if rest is Ok {
            assert(Seq::empty() + rest->Ok_0 =~= rest->Ok_0);
        }
    }
    while i < items.len()
        invariant
            i <= items@.len(),
            docs == values_view(items@),
            ps == entries_view(*params),
            substituted_items(docs, ps, 0) == prepend(
                values_view(out@),
                substituted_items(docs, ps, i as int),
            ),
        decreases items.len() - i,
    {
        proof {
            assert(decreases_to!(items@ => items@[i as int]));
        }
        match substitute_value(&items[i], params) {
            Ok(item) => {
                let ghost before = values_view(out@);
                let ghost one = item@;
                out.push(item);
                proof {
                    assert(values_view(out@) =~= before.push(one));
                    let rest = substituted_items(docs, ps, i + 1);
                    if rest is Ok {
                        assert(before + (seq![one] + rest->Ok_0) =~= before.push(one) + rest->Ok_0);
                    }
                }
            },
            Err(e) => {
                return Err(e);
            },
        }
        i = i + 1;
    }
    assert(values_view(out@) + Seq::empty() =~= values_view(out@));
    Ok(out)
}

fn substitute_fan_out(recipe: FanOutRecipe, params: &StrMap<Value>) -> (r: Result<
    FanOutRecipe,
    String,
>)
    ensures
        gives(r, substituted_fan_out(recipe@, entries_view(*params))),
{
    match substitute_items(&recipe.items, params) {
        Ok(items) => Ok(
            FanOutRecipe {
                tool: recipe.tool,
                items,
                items_ref: recipe.items_ref,
                node_prefix: recipe.node_prefix,
                input_key: recipe.input_key,
            },
        ),
        Err(e) => Err(e),
    }
}

fn substitute_steps(steps: &Vec<PipelineStep>, params: &StrMap<Value>) -> (r: Result<
    Vec<PipelineStep>,
    String,
>)
    ensures
        match (r, substituted_steps(views(steps@), entries_view(*params), 0)) {
            (Ok(v), Ok(w)) => views(v@) == w,
            (Err(e), Err(f)) => e@ == f,
            _ => false,
        },
{
    let ghost ps = entries_view(*params);
    let ghost all = views(steps@);
    let mut out: Vec<PipelineStep> = Vec::new();
    let mut i: usize = 0;
    assert(views(out@) =~= Seq::empty());
    proof {
        let rest = substituted_steps(all, ps, 0);
        if rest is Ok {
            assert(Seq::empty() + rest->Ok_0 =~= rest->Ok_0);
        }
    }
    while i < steps.len()
        invariant
            i <= steps@.len(),
            all == views(steps@),
            ps == entries_view(*params),
            substituted_steps(all, ps, 0) == prepend(
                views(out@),
                substituted_steps(all, ps, i as int),
            ),
        decreases steps.len() - i,
    {
        assert(all[i as int] == steps@[i as int]@);
        match substitute_value(&steps[i].input, params) {
            Ok(input) => {
                let ghost before = views(out@);
                let step = PipelineStep { tool: steps[i].tool.clone(), input };
                let ghost one = step@;
                out.push(step);
                proof {
                    assert(views(out@) =~= before.push(one));
                    let rest = substituted_steps(all, ps, i + 1);
                    if rest is Ok {
                        assert(before + (seq![one] + rest->Ok_0) =~= before.push(one) + rest->Ok_0);
                    }
                }
            },
            Err(e) => {
                return Err(e);
            },
        }
        i = i + 1;
    }
    assert(views(out@) + Seq::empty() =~= views(out@));
    Ok(out)
}

/// Substitutes `{"$param": "name"}` placeholders throughout a recipe.
fn substitute_params(recipe: Recipe, params: &StrMap<Value>) -> (r: Result<Recipe, String>)
    ensures
        gives(r, substituted_recipe(recipe@, entries_view(*params))),
{
    match recipe {
        Recipe::FanOut(r) => match substitute_fan_out(r, params) {
            Ok(s) => Ok(Recipe::FanOut(s)),
            Err(e) => Err(e),
        },
        Recipe::MapReduce(r) => {
            let MapReduceRecipe { map, reduce_tool, reduce_input_key } = r;
            match substitute_fan_out(map, params) {
                Ok(s) => Ok(
                    Recipe::MapReduce(MapReduceRecipe { map: s, reduce_tool, reduce_input_key }),
                ),
                Err(e) => Err(e),
            }
        },
        Recipe::Pipeline(r) => match substitute_steps(&r.steps, params) {
            Ok(steps) => Ok(
                Recipe::Pipeline(PipelineRecipe { steps, node_prefix: r.node_prefix }),
            ),
            Err(e) => Err(e),
        },
    }
}

/// The declared parameters with the supplied values put over the defaults, or
/// the first supplied parameter that is not declared.
fn merge_params(declared: &StrMap<Value>, supplied: &StrMap<Value>) -> (r: Result<
    StrMap<Value>,
    String,
>)
    ensures
        match (r, undeclared(entries_view(*declared), entries_view(*supplied), 0)) {
            (Ok(m), None) => entries_view(m) == merged_params(
                entries_view(*declared),
                entries_view(*supplied),
            ),
            (Err(name), Some(n)) => name@ == n,
            _ => false,
        },
{
    let ghost ds = entries_view(*declared);
    let ghost ss = entries_view(*supplied);
    declared.prove_sorted();
    supplied.prove_sorted();
    let mut i: usize = 0;
    while i < supplied.len()
        invariant
            i <= supplied.pairs().len(),
            ds == entries_view(*declared),
            ss == entries_view(*supplied),
            sorted_pairs(declared.pairs()),
            undeclared(ds, ss, 0) == undeclared(ds, ss, i as int),
        decreases supplied.pairs().len() - i,
    {
        let key = supplied.key_at(i);
        proof {
            entries_lookup(*declared, key@);
        }
        if !declared.contains_key(key) {
            return Err(key.to_owned());
        }
        i = i + 1;
    }
    let mut out: StrMap<Value> = StrMap::new();
    let mut j: usize = 0;
    while j < declared.len()
        invariant
            j <= declared.pairs().len(),
            ds == entries_view(*declared),
            ss == entries_view(*supplied),
            sorted_pairs(declared.pairs()),
            sorted_pairs(supplied.pairs()),
            out.pairs().len() == j,
            forall|k: int|
                0 <= k < j ==> (#[trigger] out.pairs()[k]).0 == declared.pairs()[k].0
                    && out.pairs()[k].1@ == merged_params(ds, ss)[k].1,
        decreases declared.pairs().len() - j,
    {
        let key = declared.key_at(j);
        proof {
            entries_lookup(*supplied, key@);
        }
        let value = match supplied.get(key) {
            Some(v) => v.clone(),
            None => declared.value_at(j).clone(),
        };
        assert forall|k: int| 0 <= k < out.pairs().len() implies lex_less(
            #[trigger] out.pairs()[k].0,
            key@,
        ) by {
            assert(lex_less(declared.pairs()[k].0, declared.pairs()[j as int].0));
        }
        out.push(key.to_owned(), value);
        j = j + 1;
    }
    assert(entries_view(out) =~= merged_params(ds, ss));
    Ok(out)
}

fn unset(params: &StrMap<Value>) -> (r: Option<String>)
    ensures
        opt_view(r) == unset_param(entries_view(*params), 0),
{
    let ghost ps = entries_view(*params);
    let mut i: usize = 0;
    while i < params.len()
        invariant
            i <= params.pairs().len(),
            ps == entries_view(*params),
            unset_param(ps, 0) == unset_param(ps, i as int),
        decreases params.pairs().len() - i,
    {
        assert(ps[i as int] == (params.pairs()[i as int].0, params.pairs()[i as int].1@));
        match params.value_at(i) {
            Value::Null => {
                return Some(params.key_at(i).to_owned());
            },
            _ => {},
        }
        i = i + 1;
    }
    None
}

// ---------------------------------------------------------------------------
// Expansion
// ---------------------------------------------------------------------------

fn numbered_id(prefix: &str, index: usize) -> (r: String)
    requires
        index < usize::MAX,
    ensures
        r@ == numbered(prefix@, index as int),
{
    concat2(prefix, decimal_text((index + 1) as u64).as_str())
}

fn wrap_item(input_key: &Option<String>, item: Value) -> (r: Value)
    ensures
        r@ == wrapped_item(opt_view(*input_key), item@),
{
    match input_key {
        Some(key) => Value::single(key.as_str(), item),
        None => item,
    }
}

fn compile_fan_out(recipe: &FanOutRecipe) -> (r: Result<Vec<Node>, PlannerError>)
    ensures
        match (r, fan_out_nodes(recipe@)) {
            (Ok(v), Ok(w)) => views(v@) == w,
            (Err(e), Err(f)) => e@ == f,
            _ => false,
        },
{
    if let Some(items_ref) = &recipe.items_ref {
        let template = wrap_item(
            &recipe.input_key,
            Value::single(ITEM_KEY, Value::String("".to_owned())),
        );
        let id = concat2(recipe.node_prefix.as_str(), "each");
        let node = Node::new(id.as_str(), recipe.tool.as_str()).with_input(template).with_for_each(
            items_ref.clone(),
        );
        let mut nodes: Vec<Node> = Vec::new();
        let ghost one = node@;
        nodes.push(node);
        assert(views(nodes@) =~= seq![one]);
        assert(one =~= each_node(recipe@, items_ref@));
        return Ok(nodes);
    }
    if recipe.items.len() == 0 {
        return Err(PlannerError::EmptyFanOut);
    }
    let mut nodes: Vec<Node> = Vec::new();
    let mut i: usize = 0;
    while i < recipe.items.len()
        invariant
            i <= recipe.items@.len(),
            nodes@.len() == i,
            forall|j: int| 0 <= j < i ==> (#[trigger] nodes@[j])@ == item_nodes(recipe@)[j],
        decreases recipe.items.len() - i,
    {
        let id = numbered_id(recipe.node_prefix.as_str(), i);
        let input = wrap_item(&recipe.input_key, recipe.items[i].clone());
        let node = Node::new(id.as_str(), recipe.tool.as_str()).with_input(input);
        assert(node@ =~= item_nodes(recipe@)[i as int]);
        nodes.push(node);
        i = i + 1;
    }
    assert(views(nodes@) =~= item_nodes(recipe@));
    Ok(nodes)
}

fn output_reference(id: &str) -> (r: Value)
    ensures
        r@ == output_marker(id@),
{
    Value::single(REF_KEY, Value::String(concat2(id, ".output")))
}

fn compile_map_reduce(recipe: &MapReduceRecipe) -> (r: Result<Vec<Node>, PlannerError>)
    ensures
        match (r, map_reduce_nodes(recipe@)) {
            (Ok(v), Ok(w)) => views(v@) == w,
            (Err(e), Err(f)) => e@ == f,
            _ => false,
        },
{
    let mut nodes = match compile_fan_out(&recipe.map) {
        Ok(nodes) => nodes,
        Err(e) => {
            return Err(e);
        },
    };
    let ghost mapped = views(nodes@);
    assert(fan_out_nodes(recipe@.map) == Ok::<Seq<NodeV>, PlannerErrorV>(mapped));
    let input = if recipe.map.items_ref.is_some() {
        assert(mapped.len() == 1);
        assert(nodes@.len() == 1);
        assert(mapped[0] == nodes@[0]@);
        // The output of the single node is already the array.
        Value::single(recipe.reduce_input_key.as_str(), output_reference(nodes[0].id.as_str()))
    } else {
        let mut outputs: Vec<Value> = Vec::new();
        let mut i: usize = 0;
        while i < nodes.len()
            invariant
                i <= nodes@.len(),
                mapped == views(nodes@),
                outputs@.len() == i,
                forall|j: int| 0 <= j < i ==> (#[trigger] outputs@[j])@ == output_marker(mapped[j].id),
            decreases nodes.len() - i,
        {
            outputs.push(output_reference(nodes[i].id.as_str()));
            i = i + 1;
        }
        assert(values_view(outputs@) =~= Seq::new(
            mapped.len(),
            |i: int| output_marker(mapped[i].id),
        ));
        Value::single(recipe.reduce_input_key.as_str(), Value::Array(outputs))
    };
    let id = concat2(recipe.map.node_prefix.as_str(), "reduce");
    let node = Node::new(id.as_str(), recipe.reduce_tool.as_str()).with_input(input);
    let ghost one = node@;
    nodes.push(node);
    assert(views(nodes@) =~= mapped.push(one));
    assert(one =~= call_node(
        recipe@.map.node_prefix + "reduce"@,
        recipe@.reduce_tool,
        reduce_input(recipe@, mapped),
    ));
    Ok(nodes)
}

fn previous_marker(map: &StrMap<Value>) -> (r: Option<&String>)
    ensures
        opt_view(match r { Some(t) => Some(*t), None => None }) == prev_path(entries_view(*map)),
{
    map.prove_sorted();
    proof {
        entries_lookup(*map, PREV_KEY@);
    }
    if map.len() != 1 {
        return None;
    }
    match map.get(PREV_KEY) {
        Some(Value::String(path)) => Some(path),
        _ => None,
    }
}

/// Replaces `{"$prev": "<path>"}` markers with `{"$ref": "<prev>.output[.path]"}`.
fn rewrite_prev_markers(value: &Value, previous_id: &str) -> (r: Value)
    ensures
        r@ == chained(value@, previous_id@),
    decreases value,
{
    match value {
        Value::Object(map) => {
            let ghost entries = entries_view(*map);
            if let Some(path) = previous_marker(map) {
                if same_text(path.as_str(), "") {
                    proof {
                        reveal_strlit("");
                    }
                    return output_reference(previous_id);
                }
                proof {
                    reveal_strlit("");
                    assert(path@.len() > 0) by {
                        if path@.len() == 0 {
                            assert(path@ =~= ""@);
                        }
                    }
                }
                let mut text = concat2(previous_id, ".output.");
                text.push_str(path.as_str());
                return Value::single(REF_KEY, Value::String(text));
            }
            map.prove_sorted();
            let mut out: StrMap<Value> = StrMap::new();
            let mut i: usize = 0;
            while i < map.len()
                invariant
                    i <= map.pairs().len(),
                    *value == Value::Object(*map),
                    entries == entries_view(*map),
                    prev_path(entries) is None,
                    sorted_pairs(map.pairs()),
                    out.pairs().len() == i,
                    forall|j: int|
                        0 <= j < i ==> (#[trigger] out.pairs()[j]).0 == map.pairs()[j].0
                            && out.pairs()[j].1@ == chained(entries[j].1, previous_id@),
                decreases map.pairs().len() - i,
            {
                proof {
                    object_smaller(*value, i as int);
                }
                let item = rewrite_prev_markers(map.value_at(i), previous_id);
                let key = map.key_at(i).to_owned();
                assert forall|j: int| 0 <= j < out.pairs().len() implies lex_less(
                    #[trigger] out.pairs()[j].0,
                    key@,
                ) by {
                    assert(lex_less(map.pairs()[j].0, map.pairs()[i as int].0));
                }
                out.push(key, item);
                i = i + 1;
            }
            proof {
                let want = chained(value@, previous_id@);
                assert(want is Object);
                assert(entries_view(out) =~= want->Object_0);
            }
            Value::Object(out)
        },
        Value::Array(items) => {
            let ghost docs = values_view(items@);
            let mut out: Vec<Value> = Vec::new();
            let mut i: usize = 0;
            while i < items.len()
                invariant
                    i <= items@.len(),
                    *value == Value::Array(*items),
                    docs == values_view(items@),
                    out@.len() == i,
                    forall|j: int|
                        0 <= j < i ==> (#[trigger] out@[j])@ == chained(docs[j], previous_id@),
                decreases items.len() - i,
            {
                proof {
                    array_smaller(*value, i as int);
                }
                out.push(rewrite_prev_markers(&items[i], previous_id));
                i = i + 1;
            }
            proof {
                let want = chained(value@, previous_id@);
                assert(want is List);
                assert(values_view(out@) =~= want->List_0);
            }
            Value::Array(out)
        },
        _ => value.clone(),
    }
}

fn compile_pipeline(recipe: &PipelineRecipe) -> (r: Result<Vec<Node>, PlannerError>)
    ensures
        match (r, pipeline_nodes(recipe@)) {
            (Ok(v), Ok(w)) => views(v@) == w,
            (Err(e), Err(f)) => e@ == f,
            _ => false,
        },
{
    if recipe.steps.len() == 0 {
        return Err(PlannerError::EmptyPipeline);
    }
    let mut nodes: Vec<Node> = Vec::new();
    let mut i: usize = 0;
    while i < recipe.steps.len()
        invariant
            i <= recipe.steps@.len(),
            nodes@.len() == i,
            forall|j: int| 0 <= j < i ==> (#[trigger] nodes@[j])@ == pipeline_node(recipe@, j),
        decreases recipe.steps.len() - i,
    {
        assert(recipe@.steps[i as int] == recipe.steps@[i as int]@);
        let id = numbered_id(recipe.node_prefix.as_str(), i);
        let input = if i > 0 {
            let previous = numbered_id(recipe.node_prefix.as_str(), i - 1);
            rewrite_prev_markers(&recipe.steps[i].input, previous.as_str())
        } else {
            recipe.steps[i].input.clone()
        };
        let node = Node::new(id.as_str(), recipe.steps[i].tool.as_str()).with_input(input);
        assert(node@ =~= pipeline_node(recipe@, i as int));
        nodes.push(node);
        i = i + 1;
    }
    assert(views(nodes@) =~= Seq::new(recipe@.steps.len(), |i: int| pipeline_node(recipe@, i)));
    Ok(nodes)
}

/// Compiles a recipe, substituting `{"$param": ...}` placeholders from
/// `values` merged over the declared defaults.
pub fn compile_recipe_with_params(recipe_plan: RecipePlan, values: &StrMap<Value>) -> (r: Result<
    Plan,
    PlannerError,
>)
    ensures
        gives(r, compiled_recipe(recipe_plan@, entries_view(*values))),
{
    let RecipePlan { version, name, params: declared, tools, recipe, outputs } = recipe_plan;
    if !same_text(version.as_str(), CURRENT_VERSION) {
        return Err(PlannerError::UnsupportedVersion(version));
    }
    let params = match merge_params(&declared, values) {
        Ok(params) => params,
        Err(name) => {
            return Err(PlannerError::UnknownParam(name));
        },
    };
    if let Some(name) = unset(&params) {
        return Err(PlannerError::MissingParam(name));
    }
    let recipe = match substitute_params(recipe, &params) {
        Ok(recipe) => recipe,
        Err(name) => {
            return Err(PlannerError::UnknownParam(name));
        },
    };
    let nodes = match &recipe {
        Recipe::FanOut(fan_out) => compile_fan_out(fan_out),
        Recipe::MapReduce(map_reduce) => compile_map_reduce(map_reduce),
        Recipe::Pipeline(pipeline) => compile_pipeline(pipeline),
    };
    match nodes {
        Ok(nodes) => Ok(
            Plan {
                version: CURRENT_VERSION.to_owned(),
                name,
                description: None,
                tools,
                nodes,
                outputs,
            },
        ),
        Err(e) => Err(e),
    }
}

/// Compiles a recipe using only its declared parameter defaults.
pub fn compile_recipe(recipe_plan: RecipePlan) -> (r: Result<Plan, PlannerError>)
    ensures
        gives(r, compiled_recipe(recipe_plan@, Seq::empty())),
{
    let values: StrMap<Value> = StrMap::new();
    assert(entries_view(values) =~= Seq::empty());
    compile_recipe_with_params(recipe_plan, &values)
}

} // verus!
