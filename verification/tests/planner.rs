//! Intents, recipes and mining.

use tool_compiler::effects::Effects;
use tool_compiler::json::{Number, Value};
use tool_compiler::ordered::StrMap;
use tool_compiler::plan::ToolSpec;
use tool_compiler::planner::intent::{compile_intent, IntentPlan, IntentStep, PlannerError};
use tool_compiler::planner::mining::{suggest_recipes, ObservedCall};
use tool_compiler::planner::recipes::{
    compile_recipe, compile_recipe_with_params, FanOutRecipe, MapReduceRecipe, PipelineRecipe,
    PipelineStep, Recipe, RecipePlan,
};
use tool_compiler::refs::ValueRef;

fn convert(value: serde_json::Value) -> Value {
    match value {
        serde_json::Value::Null => Value::Null,
        serde_json::Value::Bool(flag) => Value::Bool(flag),
        serde_json::Value::Number(number) => Value::Number(match (number.as_u64(), number.as_i64()) {
            (Some(n), _) => Number::PosInt(n),
            (None, Some(n)) => Number::NegInt(n),
            (None, None) => Number::Float(number.to_string()),
        }),
        serde_json::Value::String(text) => Value::String(text),
        serde_json::Value::Array(items) => Value::Array(items.into_iter().map(convert).collect()),
        serde_json::Value::Object(members) => {
            let mut map = StrMap::new();
            for (key, member) in members {
                map.insert(key, convert(member));
            }
            Value::Object(map)
        }
    }
}

fn json(text: &str) -> Value {
    convert(serde_json::from_str(text).unwrap())
}

fn echo_tools() -> StrMap<ToolSpec> {
    let mut tools = StrMap::new();
    tools.insert(
        "echo".to_owned(),
        ToolSpec::new("test").with_effects(Effects::pure()),
    );
    tools
}

fn params(pairs: &[(&str, &str)]) -> StrMap<Value> {
    let mut map = StrMap::new();
    for (key, value) in pairs {
        map.insert(key.to_string(), json(value));
    }
    map
}

#[test]
fn compiles_intent_refs_into_dependencies() {
    let mut intent = IntentPlan::new().with_name("lookup");
    intent.tools = echo_tools();
    intent
        .steps
        .push(IntentStep::new("user", "echo").with_input(json(r#"{ "id": "u_1" }"#)));
    intent.steps.push(
        IntentStep::new("profile", "echo")
            .with_input(json(r#"{ "user": { "$ref": "user.output.id" } }"#)),
    );

    let plan = compile_intent(intent).unwrap();

    assert_eq!(plan.name.as_deref(), Some("lookup"));
    assert_eq!(plan.nodes[1].depends_on, vec!["user"]);
}

#[test]
fn merges_explicit_and_ref_dependencies() {
    let mut intent = IntentPlan::new();
    intent.tools = echo_tools();
    intent.steps.push(IntentStep::new("audit", "echo"));
    intent.steps.push(IntentStep::new("user", "echo"));
    intent.steps.push(
        IntentStep::new("summary", "echo")
            .with_input(json(r#"{ "user": { "$ref": "user.output" } }"#))
            .after(vec!["audit".into()]),
    );

    let plan = compile_intent(intent).unwrap();

    assert_eq!(plan.nodes[2].depends_on, vec!["audit", "user"]);
}

#[test]
fn rejects_unknown_versions() {
    let mut intent = IntentPlan::new();
    intent.version = "future".into();

    assert_eq!(
        compile_intent(intent).unwrap_err(),
        PlannerError::UnsupportedVersion("future".into())
    );
}

#[test]
fn rejects_duplicate_steps_with_context() {
    let mut intent = IntentPlan::new();
    intent.tools = echo_tools();
    intent.steps.push(IntentStep::new("same", "echo"));
    intent.steps.push(IntentStep::new("same", "echo"));

    assert_eq!(
        compile_intent(intent).unwrap_err(),
        PlannerError::DuplicateStep("same".into())
    );
}

#[test]
fn rejects_unknown_tools_with_step_context() {
    let mut intent = IntentPlan::new();
    intent.steps.push(IntentStep::new("a", "missing"));

    assert_eq!(
        compile_intent(intent).unwrap_err(),
        PlannerError::UnknownTool {
            step: "a".into(),
            tool: "missing".into()
        }
    );
}

#[test]
fn lib_rejects_self_references() {
    let mut intent = IntentPlan::new();
    intent.tools = echo_tools();
    intent.steps.push(
        IntentStep::new("loop", "echo").with_input(json(r#"{ "value": { "$ref": "loop.output" } }"#)),
    );

    assert_eq!(
        compile_intent(intent).unwrap_err(),
        PlannerError::SelfReference("loop".into())
    );
}

#[test]
fn rejects_invalid_step_ids() {
    let mut intent = IntentPlan::new();
    intent.tools = echo_tools();
    intent.steps.push(IntentStep::new("a.b", "echo"));

    assert!(matches!(
        compile_intent(intent).unwrap_err(),
        PlannerError::InvalidStepId { .. }
    ));
}

fn call(tool: &str, input: &str) -> ObservedCall {
    ObservedCall {
        tool: tool.into(),
        input: json(input),
    }
}

#[test]
fn suggests_fan_out_for_consecutive_runs() {
    let calls = vec![
        call("read_file", r#"{ "path": "a.md" }"#),
        call("read_file", r#"{ "path": "b.md" }"#),
        call("read_file", r#"{ "path": "c.md" }"#),
        call("write_file", r#"{ "path": "out.md" }"#),
    ];

    let suggestions = suggest_recipes(&calls, 3);

    assert_eq!(suggestions.len(), 1);
    assert_eq!(suggestions[0].tool, "read_file");
    assert_eq!(suggestions[0].occurrences, 3);
    assert_eq!(suggestions[0].start_index, 0);
    let Recipe::FanOut(fan_out) = &suggestions[0].recipe.recipe else {
        panic!("expected fan-out recipe");
    };
    assert_eq!(fan_out.items.len(), 3);
}

#[test]
fn short_runs_are_not_suggested() {
    let calls = vec![call("read_file", "{}"), call("read_file", "{}"), call("other", "{}")];

    assert!(suggest_recipes(&calls, 3).is_empty());
}

#[test]
fn single_calls_are_suggested_when_one_is_enough() {
    let suggestions = suggest_recipes(&[call("read_file", "{}"), call("other", "{}")], 1);

    assert_eq!(suggestions.len(), 2);
    assert_eq!((suggestions[0].occurrences, suggestions[0].start_index), (1, 0));
    assert_eq!(suggestions[1].tool, "other");
    assert_eq!(suggest_recipes(&[call("read_file", "{}")], 2).len(), 0);
}

#[test]
fn finds_multiple_runs() {
    let calls = vec![
        call("a", "1"),
        call("a", "2"),
        call("a", "3"),
        call("b", "1"),
        call("b", "2"),
        call("b", "3"),
    ];

    let suggestions = suggest_recipes(&calls, 3);

    assert_eq!(suggestions.len(), 2);
    assert_eq!(suggestions[1].tool, "b");
    assert_eq!(suggestions[1].start_index, 3);
}

#[test]
fn compiles_static_fan_out() {
    let mut recipe = RecipePlan::new(Recipe::FanOut(
        FanOutRecipe::new("echo", vec![json("\"a\""), json("\"b\"")])
            .with_node_prefix("read_")
            .with_input_key("path"),
    ))
    .with_name("read docs");
    recipe.tools = echo_tools();
    recipe.outputs.insert("first".into(), ValueRef::output("read_1"));

    let plan = compile_recipe(recipe).unwrap();

    assert_eq!(plan.name.as_deref(), Some("read docs"));
    assert_eq!(plan.nodes.len(), 2);
    assert_eq!(plan.nodes[0].id, "read_1");
    assert_eq!(plan.nodes[0].input, json(r#"{ "path": "a" }"#));
}

#[test]
fn compiles_dynamic_fan_out_to_for_each() {
    let mut recipe = RecipePlan::new(Recipe::FanOut(
        FanOutRecipe::over_ref("echo", ValueRef::new("search", vec!["hits".into()]))
            .with_input_key("doc"),
    ));
    recipe.tools = echo_tools();

    let plan = compile_recipe(recipe).unwrap();

    assert_eq!(plan.nodes.len(), 1);
    assert_eq!(
        plan.nodes[0].for_each,
        Some(ValueRef::new("search", vec!["hits".into()]))
    );
    assert_eq!(plan.nodes[0].input, json(r#"{ "doc": { "$item": "" } }"#));
}

#[test]
fn rejects_empty_fan_out() {
    let recipe = RecipePlan::new(Recipe::FanOut(FanOutRecipe::new("echo", vec![])));

    assert_eq!(compile_recipe(recipe).unwrap_err(), PlannerError::EmptyFanOut);
}

#[test]
fn compiles_map_reduce_with_static_items() {
    let mut recipe = RecipePlan::new(Recipe::MapReduce(MapReduceRecipe {
        map: FanOutRecipe::new("echo", vec![json("1"), json("2")]).with_node_prefix("m_"),
        reduce_tool: "echo".into(),
        reduce_input_key: "items".into(),
    }));
    recipe.tools = echo_tools();

    let plan = compile_recipe(recipe).unwrap();

    assert_eq!(plan.nodes.len(), 3);
    assert_eq!(plan.nodes[2].id, "m_reduce");
    assert_eq!(
        plan.nodes[2].input,
        json(r#"{ "items": [{ "$ref": "m_1.output" }, { "$ref": "m_2.output" }] }"#)
    );
}

#[test]
fn compiles_pipelines_with_prev_markers() {
    let mut recipe = RecipePlan::new(Recipe::Pipeline(PipelineRecipe {
        steps: vec![
            PipelineStep {
                tool: "echo".into(),
                input: json(r#"{ "q": "start" }"#),
            },
            PipelineStep {
                tool: "echo".into(),
                input: json(r#"{ "from": { "$prev": "q" }, "all": { "$prev": "" } }"#),
            },
        ],
        node_prefix: "step_".into(),
    }));
    recipe.tools = echo_tools();

    let plan = compile_recipe(recipe).unwrap();

    assert_eq!(plan.nodes.len(), 2);
    assert_eq!(
        plan.nodes[1].input,
        json(r#"{ "from": { "$ref": "step_1.output.q" }, "all": { "$ref": "step_1.output" } }"#)
    );
}

fn query_recipe(default: &str) -> RecipePlan {
    let mut recipe = RecipePlan::new(Recipe::FanOut(
        FanOutRecipe::new("echo", vec![json(r#"{ "$param": "query" }"#)]).with_input_key("q"),
    ));
    recipe.tools = echo_tools();
    recipe.params.insert("query".into(), json(default));
    recipe
}

#[test]
fn substitutes_declared_params() {
    let defaulted = compile_recipe(query_recipe("\"default\"")).unwrap();
    assert_eq!(defaulted.nodes[0].input, json(r#"{ "q": "default" }"#));

    let supplied = compile_recipe_with_params(
        query_recipe("\"default\""),
        &params(&[("query", "\"override\"")]),
    )
    .unwrap();
    assert_eq!(supplied.nodes[0].input, json(r#"{ "q": "override" }"#));
}

#[test]
fn required_params_must_be_supplied() {
    assert_eq!(
        compile_recipe(query_recipe("null")).unwrap_err(),
        PlannerError::MissingParam("query".into())
    );
    assert_eq!(
        compile_recipe_with_params(query_recipe("null"), &params(&[("other", "1")])).unwrap_err(),
        PlannerError::UnknownParam("other".into())
    );
}

#[test]
fn undeclared_params_are_refused() {
    let mut recipe = query_recipe("\"default\"");
    recipe.params = StrMap::new();

    assert_eq!(
        compile_recipe(recipe).unwrap_err(),
        PlannerError::UnknownParam("query".into())
    );
}

#[test]
fn empty_pipelines_are_refused() {
    let recipe = RecipePlan::new(Recipe::Pipeline(PipelineRecipe {
        steps: vec![],
        node_prefix: "step_".into(),
    }));

    assert_eq!(compile_recipe(recipe).unwrap_err(), PlannerError::EmptyPipeline);
    assert!(PlannerError::EmptyPipeline.message().contains("pipeline"));
    let mut intent = IntentPlan::new();
    intent.tools = echo_tools();
    intent.steps.push(IntentStep::new("a", "echo").with_input(json(r#"{ "$ref": "x" }"#)));
    assert!(matches!(compile_intent(intent), Err(PlannerError::InvalidRef { .. })));
}
