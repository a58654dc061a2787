//! Recipes: which calls a recipe stands for, and how they are wired.

use vstd::prelude::*;

use crate::json::Json;
use crate::plan::{NodeV, PlanV, CURRENT_VERSION};
use crate::planner::intent::PlannerErrorV;
use crate::planner::recipes::{FanOutV, MapReduceV, PipelineV, RecipePlanV, RecipeV};
use crate::refs::RefV;

verus! {

use crate::graph::validate::node_deps;
use crate::json::single;
use crate::laws::documents::{
    clear_of, every_reference_is_collected, is_leaf, part, previous_markers_become_references,
    reference_to,
};
use crate::ordered::{has_key, key_position, lookup, sorted_pairs};
use crate::planner::recipes::{
    compiled_recipe, merged_params, recipe_nodes, substituted, substituted_recipe,
    substituted_steps, undeclared, unset_param,
};
use crate::refs::{parse_of_rendered, ref_text, refs_in};
use crate::text::decimal;

/// A node that calls its tool once, with no condition and nothing to wait for
/// but what its input refers to.
pub open spec fn is_plain_call(n: NodeV) -> bool {
    n.depends_on.len() == 0 && n.for_each is None && n.when is None
}

// ---------------------------------------------------------------------------
// Pipelines
// ---------------------------------------------------------------------------

/// A pipeline compiles to one call per step, in order. The first step keeps
/// its input. In every later step each marker of the previous output refers to
/// the node right before it, and everything else stays as it is.
pub proof fn pipelines_wire_each_step_to_the_one_before(
    r: PipelineV,
    nodes: Seq<NodeV>,
    i: int,
    at: Seq<int>,
)
    requires
        recipe_nodes(RecipeV::Pipeline(r)) == Ok::<Seq<NodeV>, PlannerErrorV>(nodes),
        0 <= i < nodes.len(),
        part(r.steps[i].input, at) is Some,
        clear_of(r.steps[i].input, at, "$prev"@),
    ensures
        nodes.len() == r.steps.len(),
        nodes[i].id == r.node_prefix + decimal((i + 1) as nat),
        nodes[i].tool == r.steps[i].tool,
        is_plain_call(nodes[i]),
        i == 0 ==> nodes[i].input == r.steps[i].input,
        i > 0 ==> forall|path: Seq<char>|
            part(r.steps[i].input, at) == Some(#[trigger] single("$prev"@, Json::Text(path)))
                ==> part(nodes[i].input, at) == Some(reference_to(nodes[i - 1].id, path)),
        i > 0 && is_leaf(part(r.steps[i].input, at)->0) ==> part(nodes[i].input, at) == part(
            r.steps[i].input,
            at,
        ),
{
    if i > 0 {
        previous_markers_become_references(r.steps[i].input, nodes[i - 1].id, at);
    }
}

/// A step that takes the whole output of the step before it depends on that
/// step's node.
pub proof fn steps_depend_on_the_step_before(
    r: PipelineV,
    nodes: Seq<NodeV>,
    i: int,
    at: Seq<int>,
)
    requires
        recipe_nodes(RecipeV::Pipeline(r)) == Ok::<Seq<NodeV>, PlannerErrorV>(nodes),
        0 < i < nodes.len(),
        part(r.steps[i].input, at) == Some(single("$prev"@, Json::Text(Seq::empty()))),
        clear_of(r.steps[i].input, at, "$prev"@),
        clear_of(nodes[i].input, at, "$literal"@),
        refs_in(nodes[i].input) is Ok,
        crate::refs::node_id_error(nodes[i - 1].id) is None,
    ensures
        node_deps(nodes[i]).contains(nodes[i - 1].id),
{
    pipelines_wire_each_step_to_the_one_before(r, nodes, i, at);
    let id = nodes[i - 1].id;
    let whole = RefV { node: id, path: Seq::empty() };
    assert(reference_to(id, Seq::empty()) == single("$ref"@, Json::Text(id + ".output"@)));
    assert(ref_text(whole) =~= id + ".output"@);
    parse_of_rendered(whole);
    every_reference_is_collected(nodes[i].input, at, id + ".output"@);
    let refs = refs_in(nodes[i].input)->Ok_0;
    let k = choose|k: int| 0 <= k < refs.len() && refs[k] == whole;
    let mentions = crate::graph::validate::referenced_nodes(nodes[i], refs);
    assert(mentions[k] == id);
    assert(mentions.to_set().contains(id));
}

/// In a compiled plan of a pipeline every marker of the previous output, in
/// any step but the first, refers to the node right before the step's own.
pub proof fn compiled_pipelines_chain_their_nodes(
    plan: RecipePlanV,
    supplied: Seq<(Seq<char>, Json)>,
    out: PlanV,
    r: PipelineV,
    i: int,
    at: Seq<int>,
    path: Seq<char>,
)
    requires
        compiled_recipe(plan, supplied) == Ok::<PlanV, PlannerErrorV>(out),
        substituted_recipe(plan.recipe, merged_params(plan.params, supplied)) == Ok::<
            RecipeV,
            Seq<char>,
        >(RecipeV::Pipeline(r)),
        0 < i < r.steps.len(),
        part(r.steps[i].input, at) == Some(single("$prev"@, Json::Text(path))),
        clear_of(r.steps[i].input, at, "$prev"@),
    ensures
        out.nodes.len() == r.steps.len(),
        part(out.nodes[i].input, at) == Some(reference_to(out.nodes[i - 1].id, path)),
{
    recipes_compile_to_their_expansion(plan, supplied);
    pipelines_wire_each_step_to_the_one_before(r, out.nodes, i, at);
}

/// A pipeline without steps is refused.
pub proof fn empty_pipelines_are_refused(r: PipelineV)
    ensures
        r.steps.len() == 0 <==> recipe_nodes(RecipeV::Pipeline(r)) is Err,
        r.steps.len() == 0 ==> recipe_nodes(RecipeV::Pipeline(r)) == Err::<
            Seq<NodeV>,
            PlannerErrorV,
        >(PlannerErrorV::EmptyPipeline),
{
}

// ---------------------------------------------------------------------------
// Fan-out
// ---------------------------------------------------------------------------

/// A fan-out over known items compiles to one call of the tool per item, in
/// order, each with its own item as input, bare or under the input key.
pub proof fn fan_outs_call_once_per_item(r: FanOutV, nodes: Seq<NodeV>, i: int)
    requires
        r.items_ref is None,
        recipe_nodes(RecipeV::FanOut(r)) == Ok::<Seq<NodeV>, PlannerErrorV>(nodes),
        0 <= i < r.items.len(),
    ensures
        nodes.len() == r.items.len(),
        nodes[i].tool == r.tool,
        nodes[i].id == r.node_prefix + decimal((i + 1) as nat),
        is_plain_call(nodes[i]),
        r.input_key is None ==> nodes[i].input == r.items[i],
        r.input_key matches Some(k) ==> nodes[i].input == single(k, r.items[i]),
{
}

/// A fan-out over an upstream array compiles to one node that maps the tool
/// over that array, each item being the input, bare or under the input key.
pub proof fn fan_outs_map_over_arrays(r: FanOutV, items_ref: RefV)
    requires
        r.items_ref == Some(items_ref),
    ensures
        ({
            let nodes = recipe_nodes(RecipeV::FanOut(r));
            &&& nodes is Ok
            &&& nodes->Ok_0.len() == 1
            &&& nodes->Ok_0[0].tool == r.tool
            &&& nodes->Ok_0[0].for_each == Some(items_ref)
            &&& nodes->Ok_0[0].when is None
            &&& nodes->Ok_0[0].id == r.node_prefix + "each"@
            &&& r.input_key is None ==> nodes->Ok_0[0].input == single(
                "$item"@,
                Json::Text(""@),
            )
            &&& r.input_key matches Some(k) ==> nodes->Ok_0[0].input == single(
                k,
                single("$item"@, Json::Text(""@)),
            )
        }),
{
}

/// A fan-out over nothing is refused.
pub proof fn empty_fan_outs_are_refused(r: FanOutV)
    ensures
        recipe_nodes(RecipeV::FanOut(r)) is Err <==> r.items_ref is None && r.items.len() == 0,
        recipe_nodes(RecipeV::FanOut(r)) is Err ==> recipe_nodes(RecipeV::FanOut(r))->Err_0
            == PlannerErrorV::EmptyFanOut,
{
}

// ---------------------------------------------------------------------------
// Map-reduce
// ---------------------------------------------------------------------------

/// A map-reduce compiles to its fan-out and one call more: the reducer gets,
/// under its key, the outputs of all the items in their order, or the output
/// of the mapping node.
pub proof fn reducers_get_every_output(r: MapReduceV, nodes: Seq<NodeV>)
    requires
        recipe_nodes(RecipeV::MapReduce(r)) == Ok::<Seq<NodeV>, PlannerErrorV>(nodes),
    ensures
        recipe_nodes(RecipeV::FanOut(r.map)) == Ok::<Seq<NodeV>, PlannerErrorV>(nodes.drop_last()),
        nodes.last().tool == r.reduce_tool,
        nodes.last().id == r.map.node_prefix + "reduce"@,
        is_plain_call(nodes.last()),
        r.map.items_ref is Some ==> nodes.last().input == single(
            r.reduce_input_key,
            reference_to(nodes[0].id, Seq::empty()),
        ),
        r.map.items_ref is None ==> exists|list: Seq<Json>|
            {
                &&& nodes.last().input == #[trigger] single(r.reduce_input_key, Json::List(list))
                &&& list.len() == r.map.items.len()
                &&& forall|i: int|
                    0 <= i < list.len() ==> #[trigger] list[i] == reference_to(
                        nodes[i].id,
                        Seq::empty(),
                    )
            },
{
    let mapped = recipe_nodes(RecipeV::FanOut(r.map))->Ok_0;
    assert(nodes.drop_last() =~= mapped);
    if r.map.items_ref is None {
        let list = Seq::new(
            mapped.len(),
            |i: int| crate::planner::recipes::output_marker(mapped[i].id),
        );
        assert(nodes.last().input == single(r.reduce_input_key, Json::List(list)));
        assert forall|i: int| 0 <= i < list.len() implies #[trigger] list[i] == reference_to(
            nodes[i].id,
            Seq::empty(),
        ) by {
            assert(nodes[i] == mapped[i]);
        }
    } else {
        assert(nodes[0] == mapped[0]);
    }
}

// ---------------------------------------------------------------------------
// Parameters
// ---------------------------------------------------------------------------

/// A supplied value wins over the default, which stands where none is
/// supplied. No other parameter appears.
pub proof fn supplied_values_win(
    declared: Seq<(Seq<char>, Json)>,
    supplied: Seq<(Seq<char>, Json)>,
    name: Seq<char>,
)
    requires
        sorted_pairs(declared),
    ensures
        has_key(merged_params(declared, supplied), name) <==> has_key(declared, name),
        has_key(declared, name) && has_key(supplied, name) ==> lookup(
            merged_params(declared, supplied),
            name,
        ) == lookup(supplied, name),
        has_key(declared, name) && !has_key(supplied, name) ==> lookup(
            merged_params(declared, supplied),
            name,
        ) == lookup(declared, name),
{
    let m = merged_params(declared, supplied);
    if has_key(declared, name) {
        let k = key_position(declared, name);
        assert(m[k].0 == name);
        assert(has_key(m, name));
        let x = key_position(m, name);
        assert(m[x].0 == declared[x].0);
        crate::ordered::sorted_position(declared, k);
        crate::ordered::sorted_position(declared, x);
    }
    if has_key(m, name) {
        let x = key_position(m, name);
        assert(declared[x].0 == name);
    }
}

proof fn lemma_undeclared(
    declared: Seq<(Seq<char>, Json)>,
    supplied: Seq<(Seq<char>, Json)>,
    from: int,
)
    requires
        0 <= from <= supplied.len(),
    ensures
        undeclared(declared, supplied, from) is None <==> forall|i: int|
            from <= i < supplied.len() ==> has_key(declared, (#[trigger] supplied[i]).0),
        undeclared(declared, supplied, from) matches Some(n) ==> !has_key(declared, n) && exists|i: int|
            from <= i < supplied.len() && (#[trigger] supplied[i]).0 == n,
    decreases supplied.len() - from,
{
    if from < supplied.len() {
        lemma_undeclared(declared, supplied, from + 1);
        if has_key(declared, supplied[from].0) {
            if undeclared(declared, supplied, from) is None {
                assert forall|i: int| from <= i < supplied.len() implies has_key(
                    declared,
                    (#[trigger] supplied[i]).0,
                ) by {
                    if i > from {
                        assert(supplied[i].0 == supplied[i].0);
                    }
                }
            }
        } else {
            assert(supplied[from].0 == supplied[from].0);
        }
    }
}

proof fn lemma_unset(params: Seq<(Seq<char>, Json)>, from: int)
    requires
        0 <= from <= params.len(),
    ensures
        unset_param(params, from) is None <==> forall|i: int|
            from <= i < params.len() ==> !((#[trigger] params[i]).1 is Null),
        unset_param(params, from) matches Some(n) ==> exists|i: int|
            from <= i < params.len() && (#[trigger] params[i]).0 == n && params[i].1 is Null,
    decreases params.len() - from,
{
    if from < params.len() {
        lemma_unset(params, from + 1);
        if !(params[from].1 is Null) && unset_param(params, from) is None {
            assert forall|i: int| from <= i < params.len() implies !((#[trigger] params[i]).1 is Null) by {
                if i > from {
                    assert(params[i].1 == params[i].1);
                }
            }
        }
        assert(params[from].0 == params[from].0);
    }
}

/// A recipe compiles only with values for declared parameters alone, and with
/// one for each of them: what is unknown or missing is named in the error.
pub proof fn parameters_are_checked(plan: RecipePlanV, supplied: Seq<(Seq<char>, Json)>)
    requires
        plan.version == CURRENT_VERSION@,
    ensures
        (exists|i: int| 0 <= i < supplied.len() && !has_key(plan.params, (#[trigger] supplied[i]).0))
            ==> (compiled_recipe(plan, supplied) matches Err(PlannerErrorV::UnknownParam(n))
            && !has_key(plan.params, n)),
        compiled_recipe(plan, supplied) is Ok ==> forall|i: int|
            0 <= i < supplied.len() ==> has_key(plan.params, (#[trigger] supplied[i]).0),
        compiled_recipe(plan, supplied) is Ok ==> forall|i: int|
            0 <= i < plan.params.len() ==> !((#[trigger] merged_params(
                plan.params,
                supplied,
            )[i]).1 is Null),
        compiled_recipe(plan, supplied) matches Err(PlannerErrorV::MissingParam(n)) ==> exists|i: int|
            0 <= i < plan.params.len() && (#[trigger] merged_params(plan.params, supplied)[i]).0
                == n && merged_params(plan.params, supplied)[i].1 is Null,
{
    lemma_undeclared(plan.params, supplied, 0);
    lemma_unset(merged_params(plan.params, supplied), 0);
}

/// What compiles is the expansion of the recipe with its placeholders
/// replaced, with the name, tools and outputs of the recipe. Another version
/// is refused.
pub proof fn recipes_compile_to_their_expansion(
    plan: RecipePlanV,
    supplied: Seq<(Seq<char>, Json)>,
)
    ensures
        plan.version != CURRENT_VERSION@ ==> compiled_recipe(plan, supplied) == Err::<
            PlanV,
            PlannerErrorV,
        >(PlannerErrorV::UnsupportedVersion(plan.version)),
        compiled_recipe(plan, supplied) matches Ok(out) ==> {
            let r = substituted_recipe(plan.recipe, merged_params(plan.params, supplied));
            &&& r is Ok
            &&& recipe_nodes(r->Ok_0) == Ok::<Seq<NodeV>, PlannerErrorV>(out.nodes)
            &&& out.version == CURRENT_VERSION@
            &&& out.name == plan.name
            &&& out.tools == plan.tools
            &&& out.outputs == plan.outputs
        },
{
}

proof fn lemma_steps(
    steps: Seq<crate::planner::recipes::PipelineStepV>,
    params: Seq<(Seq<char>, Json)>,
    from: int,
)
    requires
        0 <= from <= steps.len(),
        substituted_steps(steps, params, from) is Ok,
    ensures
        substituted_steps(steps, params, from)->Ok_0.len() == steps.len() - from,
        forall|i: int|
            from <= i < steps.len() ==> {
                &&& substituted_steps(steps, params, from)->Ok_0[i - from].tool == (
                #[trigger] steps[i]).tool
                &&& substituted(steps[i].input, params) == Ok::<Json, Seq<char>>(
                    substituted_steps(steps, params, from)->Ok_0[i - from].input,
                )
            },
    decreases steps.len() - from,
{
    if from < steps.len() {
        lemma_steps(steps, params, from + 1);
        let out = substituted_steps(steps, params, from)->Ok_0;
        let rest = substituted_steps(steps, params, from + 1)->Ok_0;
        assert(out[0].tool == steps[from].tool);
        assert(forall|i: int| 0 <= i < rest.len() ==> out[i + 1] == #[trigger] rest[i]);
        assert forall|i: int| from <= i < steps.len() implies {
            &&& out[i - from].tool == (#[trigger] steps[i]).tool
            &&& substituted(steps[i].input, params) == Ok::<Json, Seq<char>>(out[i - from].input)
        } by {
            if i > from {
                assert(out[i - from] == rest[i - from - 1]);
            }
        }
    }
}

/// Replacing placeholders keeps the shape of a pipeline: the same tools in the
/// same order, each with its own input.
pub proof fn parameters_keep_pipelines(r: PipelineV, params: Seq<(Seq<char>, Json)>, i: int)
    requires
        substituted_recipe(RecipeV::Pipeline(r), params) is Ok,
        0 <= i < r.steps.len(),
    ensures
        substituted_recipe(RecipeV::Pipeline(r), params)->Ok_0 matches RecipeV::Pipeline(s)
            && s.node_prefix == r.node_prefix && s.steps.len() == r.steps.len() && s.steps[i].tool
            == r.steps[i].tool && substituted(r.steps[i].input, params) == Ok::<Json, Seq<char>>(
            s.steps[i].input,
        ),
{
    lemma_steps(r.steps, params, 0);
}

} // verus!
