//! The compiler as an MCP server: what each message is answered.
//!
//! Tools: `run_compiled_tool_graph`, `run_compiled_tool_intent`,
//! `run_compiled_tool_recipe` (with `params`), and `explain_tool_plan`
//! (validate + optimization report, no execution). `tools/list` embeds the
//! full public JSON Schemas so a model authoring plans sees the exact
//! shapes.
//!
//! Robustness rules: malformed JSON gets a `-32700` response instead of
//! killing the server; notifications are ignored; `ping` is supported;
//! failures of the *plan* come back as tool results with `isError: true` and
//! the partial result in `structuredContent`, never as protocol errors.
//!
//! Recursion guard: calls beyond depth [`MAX_DEPTH`] are refused.

use vstd::prelude::*;

use crate::adapters::mcp::{looks_dated, PACKAGE_VERSION, PROTOCOL_VERSION};
use crate::json::{Json, Value};
use crate::ordered::StrMap;
use crate::runtime::config::{ErrorMode, RunConfig};
use crate::runtime::result::{ResultMode, RunMetrics, RunStatus};
use crate::text::{concat2, decimal_text, same_text, wrapped};

verus! {

use crate::adapters::mcp::is_revision;
use crate::fields::{integer, object, reading_gives_back, text_field, with};
use crate::json::{entries_view, values_view};
use crate::ordered::{map_view, sorted_pairs};
use crate::runtime::config::default_config;
use crate::text::decimal;
use crate::value::json_field;

broadcast use crate::json::group_json_views;

/// Maximum nested compiler depth allowed for `tools/call`.
pub const MAX_DEPTH: u32 = 2;

/// Model-visible tool names served (and blocked inside the runtime to stop
/// self-recursion through a misconfigured adapter).
pub open spec fn served() -> Seq<Seq<char>> {
    seq![
        "run_compiled_tool_graph"@,
        "run_compiled_tool_intent"@,
        "run_compiled_tool_recipe"@,
        "explain_tool_plan"@,
    ]
}

/// Model-visible tool names served.
pub fn served_tools() -> (r: Vec<&'static str>)
    ensures
        r@.len() == served().len(),
        forall|i: int| 0 <= i < r@.len() ==> (#[trigger] r@[i])@ == served()[i],
{
    let mut out: Vec<&'static str> = Vec::new();
    out.push("run_compiled_tool_graph");
    out.push("run_compiled_tool_intent");
    out.push("run_compiled_tool_recipe");
    out.push("explain_tool_plan");
    out
}

// ---------------------------------------------------------------------------
// Replies
// ---------------------------------------------------------------------------

/// A JSON-RPC message with the id.
pub open spec fn rpc_reply(id: Json) -> Json {
    with(with(object(), "jsonrpc"@, Json::Text("2.0"@)), "id"@, id)
}

/// The response with a result.
pub open spec fn rpc_result(id: Json, result: Json) -> Json {
    with(rpc_reply(id), "result"@, result)
}

/// The response with an error.
pub open spec fn rpc_error(id: Json, code: int, message: Seq<char>) -> Json {
    with(
        rpc_reply(id),
        "error"@,
        with(with(object(), "code"@, integer(code)), "message"@, Json::Text(message)),
    )
}

/// The response with a result.
pub fn jsonrpc_result(id: Value, result: Value) -> (r: Value)
    ensures
        r@ == rpc_result(id@, result@),
{
    Value::empty_object().with("jsonrpc", Value::text("2.0")).with("id", id).with("result", result)
}

/// The response with an error.
pub fn jsonrpc_error(id: Value, code: i64, message: &str) -> (r: Value)
    ensures
        r@ == rpc_error(id@, code as int, message@),
{
    let error = Value::empty_object().with("code", Value::integer(code)).with(
        "message",
        Value::text(message),
    );
    Value::empty_object().with("jsonrpc", Value::text("2.0")).with("id", id).with("error", error)
}

/// The response to a line that is no JSON.
pub fn parse_failure(detail: &str) -> (r: Value)
    ensures
        r@ == rpc_error(Json::Null, -32700, "parse error: "@ + detail@),
{
    jsonrpc_error(Value::Null, -32700, concat2("parse error: ", detail).as_str())
}

/// One part of a tool result.
pub open spec fn text_content(text: Seq<char>) -> Json {
    Json::List(
        seq![
            with(with(object(), "type"@, Json::Text("text"@)), "text"@, Json::Text(text)),
        ],
    )
}

fn content(text: &str) -> (r: Value)
    ensures
        r@ == text_content(text@),
{
    let mut parts: Vec<Value> = Vec::new();
    parts.push(
        Value::empty_object().with("type", Value::text("text")).with("text", Value::text(text)),
    );
    proof {
        assert(values_view(parts@) =~= text_content(text@)->List_0);
    }
    Value::Array(parts)
}

/// The result of a tool call that failed before it ran.
pub open spec fn failed_call(message: Seq<char>) -> Json {
    with(with(object(), "content"@, text_content(message)), "isError"@, Json::Bool(true))
}

/// The result of a tool call that failed before it ran.
pub fn tool_failure(message: &str) -> (r: Value)
    ensures
        r@ == failed_call(message@),
{
    Value::empty_object().with("content", content(message)).with("isError", Value::Bool(true))
}

/// The result of a tool call.
pub open spec fn call_result(summary: Seq<char>, structured: Json, is_error: bool) -> Json {
    with(
        with(
            with(object(), "content"@, text_content(summary)),
            "structuredContent"@,
            structured,
        ),
        "isError"@,
        Json::Bool(is_error),
    )
}

/// The result of a tool call.
pub fn tool_result(summary: &str, structured: Value, is_error: bool) -> (r: Value)
    ensures
        r@ == call_result(summary@, structured@, is_error),
{
    Value::empty_object().with("content", content(summary)).with(
        "structuredContent",
        structured,
    ).with("isError", Value::Bool(is_error))
}

/// The name of a status.
pub open spec fn status_name(s: RunStatus) -> Seq<char> {
    match s {
        RunStatus::Success => "Success"@,
        RunStatus::Failed => "Failed"@,
        RunStatus::Cancelled => "Cancelled"@,
    }
}

/// One line on a run.
pub open spec fn summary_of_run(status: RunStatus, m: RunMetrics) -> Seq<char> {
    "status="@ + status_name(status) + " nodes="@ + decimal(m.nodes_total as nat) + " ok="@
        + decimal(m.nodes_succeeded as nat) + " failed="@ + decimal(m.nodes_failed as nat)
        + " skipped="@ + decimal(m.nodes_skipped as nat) + " wall="@ + decimal(m.wall_ms as nat)
        + "ms"@
}

/// One line on a run.
pub fn run_summary(status: RunStatus, m: &RunMetrics) -> (r: String)
    ensures
        r@ == summary_of_run(status, *m),
{
    let name = match status {
        RunStatus::Success => "Success",
        RunStatus::Failed => "Failed",
        RunStatus::Cancelled => "Cancelled",
    };
    let mut out = concat2("status=", name);
    out.push_str(" nodes=");
    out.push_str(decimal_text(m.nodes_total as u64).as_str());
    out.push_str(" ok=");
    out.push_str(decimal_text(m.nodes_succeeded as u64).as_str());
    out.push_str(" failed=");
    out.push_str(decimal_text(m.nodes_failed as u64).as_str());
    out.push_str(" skipped=");
    out.push_str(decimal_text(m.nodes_skipped as u64).as_str());
    out.push_str(" wall=");
    out.push_str(decimal_text(m.wall_ms).as_str());
    out.push_str("ms");
    out
}

/// The result of a run. A failed run is a tool error that still carries the
/// partial result.
pub fn run_result(status: RunStatus, m: &RunMetrics, structured: Value) -> (r: Value)
    ensures
        r@ == call_result(summary_of_run(status, *m), structured@, status == RunStatus::Failed),
{
    let summary = run_summary(status, m);
    tool_result(summary.as_str(), structured, status == RunStatus::Failed)
}

/// The result of explaining a plan.
pub fn explain_result(layers: usize, diagnostics: usize, structured: Value) -> (r: Value)
    ensures
        r@ == call_result(
            decimal(layers as nat) + " layers; "@ + decimal(diagnostics as nat)
                + " diagnostics"@,
            structured@,
            false,
        ),
{
    let mut summary = wrapped(
        decimal_text(layers as u64).as_str(),
        " layers; ",
        decimal_text(diagnostics as u64).as_str(),
    );
    summary.push_str(" diagnostics");
    tool_result(summary.as_str(), structured, false)
}

// ---------------------------------------------------------------------------
// Initialization and tool list
// ---------------------------------------------------------------------------

/// The revision that the server answers: the client's when it looks like a
/// dated revision, otherwise its own.
pub open spec fn negotiated(params: Option<Json>) -> Seq<char> {
    match params {
        Some(p) => match text_field(p, "protocolVersion"@) {
            Some(v) => if is_revision(v) {
                v
            } else {
                PROTOCOL_VERSION@
            },
            None => PROTOCOL_VERSION@,
        },
        None => PROTOCOL_VERSION@,
    }
}

/// The result of `initialize`.
pub open spec fn initialized(params: Option<Json>) -> Json {
    with(
        with(
            with(object(), "protocolVersion"@, Json::Text(negotiated(params))),
            "capabilities"@,
            with(object(), "tools"@, with(object(), "listChanged"@, Json::Bool(false))),
        ),
        "serverInfo"@,
        with(
            with(object(), "name"@, Json::Text("tool-call-compiler"@)),
            "version"@,
            Json::Text(PACKAGE_VERSION@),
        ),
    )
}

/// The result of `initialize`.
pub fn initialize_result(params: Option<&Value>) -> (r: Value)
    ensures
        r@ == initialized(
            match params {
                Some(p) => Some(p@),
                None => None,
            },
        ),
{
    let mut version: &str = PROTOCOL_VERSION;
    if let Some(p) = params {
        if let Some(v) = p.text_at("protocolVersion") {
            if looks_dated(v) {
                version = v;
            }
        }
    }
    let capabilities = Value::empty_object().with(
        "tools",
        Value::empty_object().with("listChanged", Value::Bool(false)),
    );
    let info = Value::empty_object().with("name", Value::text("tool-call-compiler")).with(
        "version",
        Value::text(PACKAGE_VERSION),
    );
    Value::empty_object().with("protocolVersion", Value::text(version)).with(
        "capabilities",
        capabilities,
    ).with("serverInfo", info)
}

/// A list of two texts.
pub open spec fn choices(a: Seq<char>, b: Seq<char>) -> Json {
    Json::List(seq![Json::Text(a), Json::Text(b)])
}

fn choice_list(a: &str, b: &str) -> (r: Value)
    ensures
        r@ == choices(a@, b@),
{
    let mut items: Vec<Value> = Vec::new();
    items.push(Value::text(a));
    items.push(Value::text(b));
    proof {
        assert(values_view(items@) =~= choices(a@, b@)->List_0);
    }
    Value::Array(items)
}

/// The text that describes the result mode.
pub const RESULT_MODE_TEXT: &'static str = "How much detail the result carries.";

/// The text that describes failure handling.
pub const ON_ERROR_TEXT: &'static str = "Failure handling: stop scheduling (fail_fast) or keep independent branches running (continue).";

/// An option with two choices.
pub open spec fn described(text: Seq<char>, a: Seq<char>, b: Seq<char>) -> Json {
    with(with(object(), "description"@, Json::Text(text)), "enum"@, choices(a, b))
}

/// A schema of an object with the document as its one required property, and
/// the run options.
pub open spec fn with_options(required: Seq<char>, schema: Json) -> Json {
    with(
        with(
            with(object(), "type"@, Json::Text("object"@)),
            "required"@,
            Json::List(seq![Json::Text(required)]),
        ),
        "properties"@,
        with(
            with(
                with(object(), required, schema),
                "result_mode"@,
                described(RESULT_MODE_TEXT@, "full"@, "compact"@),
            ),
            "on_error"@,
            described(ON_ERROR_TEXT@, "fail_fast"@, "continue"@),
        ),
    )
}

fn one_text(t: &str) -> (r: Value)
    ensures
        r@ == Json::List(seq![Json::Text(t@)]),
{
    let mut items: Vec<Value> = Vec::new();
    items.push(Value::text(t));
    proof {
        let want: Seq<Json> = seq![Json::Text(t@)];
        assert(values_view(items@) =~= want);
    }
    Value::Array(items)
}

fn schema_with_options(required: &str, schema: &Value) -> (r: Value)
    ensures
        r@ == with_options(required@, schema@),
{
    let mode = Value::empty_object().with("description", Value::text(RESULT_MODE_TEXT)).with(
        "enum",
        choice_list("full", "compact"),
    );
    let on_error = Value::empty_object().with("description", Value::text(ON_ERROR_TEXT)).with(
        "enum",
        choice_list("fail_fast", "continue"),
    );
    let properties = Value::empty_object().with(required, schema.clone()).with(
        "result_mode",
        mode,
    ).with("on_error", on_error);
    Value::empty_object().with("type", Value::text("object")).with(
        "required",
        one_text(required),
    ).with("properties", properties)
}

/// The schema of the recipe tool's arguments.
pub open spec fn recipe_input(schema: Json) -> Json {
    with(
        with(
            with(object(), "type"@, Json::Text("object"@)),
            "required"@,
            Json::List(seq![Json::Text("recipe"@)]),
        ),
        "properties"@,
        with(
            with(
                with(
                    with(object(), "recipe"@, schema),
                    "params"@,
                    with(
                        with(object(), "type"@, Json::Text("object"@)),
                        "description"@,
                        Json::Text("Values for declared recipe parameters."@),
                    ),
                ),
                "result_mode"@,
                with(object(), "enum"@, choices("full"@, "compact"@)),
            ),
            "on_error"@,
            with(object(), "enum"@, choices("fail_fast"@, "continue"@)),
        ),
    )
}

fn recipe_schema(schema: &Value) -> (r: Value)
    ensures
        r@ == recipe_input(schema@),
{
    let params = Value::empty_object().with("type", Value::text("object")).with(
        "description",
        Value::text("Values for declared recipe parameters."),
    );
    let properties = Value::empty_object().with("recipe", schema.clone()).with(
        "params",
        params,
    ).with("result_mode", Value::empty_object().with("enum", choice_list("full", "compact"))).with(
        "on_error",
        Value::empty_object().with("enum", choice_list("fail_fast", "continue")),
    );
    Value::empty_object().with("type", Value::text("object")).with(
        "required",
        one_text("recipe"),
    ).with("properties", properties)
}

/// The schema of the explain tool's arguments.
pub open spec fn explain_input(schema: Json) -> Json {
    with(
        with(
            with(object(), "type"@, Json::Text("object"@)),
            "required"@,
            Json::List(seq![Json::Text("plan"@)]),
        ),
        "properties"@,
        with(object(), "plan"@, schema),
    )
}

fn explain_schema(schema: &Value) -> (r: Value)
    ensures
        r@ == explain_input(schema@),
{
    Value::empty_object().with("type", Value::text("object")).with(
        "required",
        one_text("plan"),
    ).with("properties", Value::empty_object().with("plan", schema.clone()))
}

/// What the graph tool does.
pub const GRAPH_TEXT: &'static str = "Execute a tool-call-compiler Plan as one composite tool call; partial results survive node failures.";

/// What the intent tool does.
pub const INTENT_TEXT: &'static str = "Compile an agent intent (refs + after ordering) into a Plan and execute it as one composite tool call.";

/// What the recipe tool does.
pub const RECIPE_TEXT: &'static str = "Compile a high-level recipe (fan_out, map_reduce, pipeline; optional params) into a Plan and execute it.";

/// What the explain tool does.
pub const EXPLAIN_TEXT: &'static str = "Validate and optimize a Plan WITHOUT executing it: layers, optimization report, and why nodes were not parallelized.";

/// An entry of the tool list.
pub open spec fn tool_entry(name: Seq<char>, title: Seq<char>, text: Seq<char>, schema: Json) -> Json {
    with(
        with(
            with(with(object(), "name"@, Json::Text(name)), "title"@, Json::Text(title)),
            "description"@,
            Json::Text(text),
        ),
        "inputSchema"@,
        schema,
    )
}

fn new_entry(name: &str, title: &str, text: &str, schema: Value) -> (r: Value)
    ensures
        r@ == tool_entry(name@, title@, text@, schema@),
{
    Value::empty_object().with("name", Value::text(name)).with("title", Value::text(title)).with(
        "description",
        Value::text(text),
    ).with("inputSchema", schema)
}

/// The result of `tools/list`, with the schemas of plans, intents and
/// recipes.
pub open spec fn tool_list(plan: Json, intent: Json, recipe: Json) -> Json {
    with(
        object(),
        "tools"@,
        Json::List(
            seq![
                tool_entry(
                    served()[0],
                    "Run compiled tool graph"@,
                    GRAPH_TEXT@,
                    with_options("plan"@, plan),
                ),
                tool_entry(
                    served()[1],
                    "Run compiled tool intent"@,
                    INTENT_TEXT@,
                    with_options("intent"@, intent),
                ),
                tool_entry(
                    served()[2],
                    "Run compiled tool recipe"@,
                    RECIPE_TEXT@,
                    recipe_input(recipe),
                ),
                tool_entry(
                    served()[3],
                    "Explain a tool plan"@,
                    EXPLAIN_TEXT@,
                    explain_input(plan),
                ),
            ],
        ),
    )
}

/// The public schemas of plans, intents and recipes.
pub struct Schemas {
    pub plan: Value,
    pub intent: Value,
    pub recipe: Value,
}

/// The result of `tools/list`.
pub fn tools_list(schemas: &Schemas) -> (r: Value)
    ensures
        r@ == tool_list(schemas.plan@, schemas.intent@, schemas.recipe@),
{
    let mut tools: Vec<Value> = Vec::new();
    tools.push(
        new_entry(
            "run_compiled_tool_graph",
            "Run compiled tool graph",
            GRAPH_TEXT,
            schema_with_options("plan", &schemas.plan),
        ),
    );
    tools.push(
        new_entry(
            "run_compiled_tool_intent",
            "Run compiled tool intent",
            INTENT_TEXT,
            schema_with_options("intent", &schemas.intent),
        ),
    );
    tools.push(
        new_entry(
            "run_compiled_tool_recipe",
            "Run compiled tool recipe",
            RECIPE_TEXT,
            recipe_schema(&schemas.recipe),
        ),
    );
    tools.push(
        new_entry(
            "explain_tool_plan",
            "Explain a tool plan",
            EXPLAIN_TEXT,
            explain_schema(&schemas.plan),
        ),
    );
    proof {
        let p = schemas.plan@;
        let want: Seq<Json> = seq![
            tool_entry(
                served()[0],
                "Run compiled tool graph"@,
                GRAPH_TEXT@,
                with_options("plan"@, p),
            ),
            tool_entry(
                served()[1],
                "Run compiled tool intent"@,
                INTENT_TEXT@,
                with_options("intent"@, schemas.intent@),
            ),
            tool_entry(
                served()[2],
                "Run compiled tool recipe"@,
                RECIPE_TEXT@,
                recipe_input(schemas.recipe@),
            ),
            tool_entry(
                served()[3],
                "Explain a tool plan"@,
                EXPLAIN_TEXT@,
                explain_input(p),
            ),
        ];
        assert(values_view(tools@) =~= want);
    }
    Value::empty_object().with("tools", Value::Array(tools))
}

// ---------------------------------------------------------------------------
// Calls
// ---------------------------------------------------------------------------

/// What a tool call asks for: a document to be read as a plan, an intent or
/// a recipe.
pub enum ToolCall {
    /// Run the plan.
    Graph(Value),
    /// Compile the intent and run it.
    Intent(Value),
    /// Compile the recipe with the parameters and run it.
    Recipe(Value, StrMap<Value>),
    /// Explain the plan.
    Explain(Value),
}

/// A tool call as a mathematical value.
pub enum CallV {
    Graph(Json),
    Intent(Json),
    Recipe(Json, Map<Seq<char>, Json>),
    Explain(Json),
}

impl View for ToolCall {
    type V = CallV;

    open spec fn view(&self) -> CallV {
        match self {
            ToolCall::Graph(v) => CallV::Graph(v@),
            ToolCall::Intent(v) => CallV::Intent(v@),
            ToolCall::Recipe(v, p) => CallV::Recipe(v@, map_view(*p)),
            ToolCall::Explain(v) => CallV::Explain(v@),
        }
    }
}

/// The arguments of a call; none count as an empty object.
pub open spec fn arguments_of(params: Json) -> Json {
    match json_field(params, "arguments"@) {
        Some(a) => a,
        None => object(),
    }
}

/// The recipe parameters that the arguments give.
pub open spec fn params_of(arguments: Json) -> Map<Seq<char>, Json> {
    match json_field(arguments, "params"@) {
        Some(Json::Object(entries)) => crate::ordered::map_of(entries),
        _ => Map::empty(),
    }
}

/// What a tool call asks for, or why it cannot be made.
pub open spec fn call_of(message: Json) -> Result<(CallV, Json), Seq<char>> {
    match json_field(message, "params"@) {
        None => Err("tools/call missing params"@),
        Some(params) => match text_field(params, "name"@) {
            None => Err("tools/call missing name"@),
            Some(name) => {
                let arguments = arguments_of(params);
                if name == served()[0] || name == served()[3] {
                    match json_field(arguments, "plan"@) {
                        None => Err(name + " requires arguments.plan"@),
                        Some(plan) => Ok(
                            (
                                if name == served()[0] {
                                    CallV::Graph(plan)
                                } else {
                                    CallV::Explain(plan)
                                },
                                arguments,
                            ),
                        ),
                    }
                } else if name == served()[1] {
                    match json_field(arguments, "intent"@) {
                        None => Err("run_compiled_tool_intent requires arguments.intent"@),
                        Some(intent) => Ok((CallV::Intent(intent), arguments)),
                    }
                } else if name == served()[2] {
                    match json_field(arguments, "recipe"@) {
                        None => Err("run_compiled_tool_recipe requires arguments.recipe"@),
                        Some(recipe) => Ok(
                            (CallV::Recipe(recipe, params_of(arguments)), arguments),
                        ),
                    }
                } else {
                    Err("unknown tool '"@ + name + "'"@)
                }
            },
        },
    }
}

fn recipe_params(arguments: &Value) -> (r: StrMap<Value>)
    ensures
        map_view(r) == params_of(arguments@),
{
    let mut out: StrMap<Value> = StrMap::new();
    assert(map_view(out) =~= Map::empty());
    if let Some(Value::Object(map)) = arguments.get("params") {
        map.prove_sorted();
        let ghost entries = entries_view(*map);
        let mut i: usize = 0;
        while i < map.len()
            invariant
                i <= map.pairs().len(),
                sorted_pairs(map.pairs()),
                out.pairs().len() == i,
                forall|j: int|
                    0 <= j < i ==> (#[trigger] out.pairs()[j]).0 == map.pairs()[j].0
                        && out.pairs()[j].1@ == map.pairs()[j].1@,
            decreases map.pairs().len() - i,
        {
            let key = map.key_at(i).to_owned();
            assert forall|j: int| 0 <= j < out.pairs().len() implies crate::text::lex_less(
                #[trigger] out.pairs()[j].0,
                key@,
            ) by {
                assert(crate::text::lex_less(map.pairs()[j].0, map.pairs()[i as int].0));
            }
            out.push(key, map.value_at(i).clone());
            i = i + 1;
        }
        out.prove_sorted();
        proof {
            assert(crate::ordered::pairs_view(out) =~= entries);
            crate::runtime::wiring::lemma_map_views(out);
        }
    }
    out
}

/// What a tool call asks for with which arguments, or why it cannot be made.
pub fn read_call(message: &Value) -> (r: Result<(ToolCall, Value), String>)
    ensures
        match (r, call_of(message@)) {
            (Ok((c, a)), Ok(m)) => c@ == m.0 && a@ == m.1,
            (Err(e), Err(m)) => e@ == m,
            _ => false,
        },
{
    let params = match message.get("params") {
        Some(params) => params,
        None => {
            return Err("tools/call missing params".to_owned());
        },
    };
    let name = match params.text_at("name") {
        Some(name) => name,
        None => {
            return Err("tools/call missing name".to_owned());
        },
    };
    let arguments = match params.get("arguments") {
        Some(a) => a.clone(),
        None => Value::empty_object(),
    };
    proof {
        reveal_strlit("run_compiled_tool_graph");
        reveal_strlit("explain_tool_plan");
    }
    if same_text(name, "run_compiled_tool_graph") || same_text(name, "explain_tool_plan") {
        let plan = match arguments.get("plan") {
            Some(plan) => plan.clone(),
            None => {
                return Err(concat2(name, " requires arguments.plan"));
            },
        };
        if same_text(name, "run_compiled_tool_graph") {
            return Ok((ToolCall::Graph(plan), arguments));
        }
        return Ok((ToolCall::Explain(plan), arguments));
    }
    if same_text(name, "run_compiled_tool_intent") {
        let intent = match arguments.get("intent") {
            Some(intent) => intent.clone(),
            None => {
                return Err("run_compiled_tool_intent requires arguments.intent".to_owned());
            },
        };
        return Ok((ToolCall::Intent(intent), arguments));
    }
    if same_text(name, "run_compiled_tool_recipe") {
        let recipe = match arguments.get("recipe") {
            Some(recipe) => recipe.clone(),
            None => {
                return Err("run_compiled_tool_recipe requires arguments.recipe".to_owned());
            },
        };
        let params = recipe_params(&arguments);
        return Ok((ToolCall::Recipe(recipe, params), arguments));
    }
    Err(wrapped("unknown tool '", name, "'"))
}

/// The run configuration that the arguments ask for.
pub open spec fn asked_config(arguments: Json) -> RunConfig {
    RunConfig {
        result_mode: if text_field(arguments, "result_mode"@) == Some("compact"@) {
            ResultMode::Compact
        } else {
            ResultMode::Full
        },
        on_error: if text_field(arguments, "on_error"@) == Some("continue"@) {
            ErrorMode::Continue
        } else {
            ErrorMode::FailFast
        },
        ..default_config()
    }
}

fn text_is(value: &Value, key: &str, text: &str) -> (r: bool)
    ensures
        r == (text_field(value@, key@) == Some(text@)),
{
    match value.text_at(key) {
        Some(t) => same_text(t, text),
        None => false,
    }
}

/// The run configuration that the arguments ask for.
pub fn run_config_from(arguments: &Value) -> (r: RunConfig)
    ensures
        r == asked_config(arguments@),
{
    let mut config = RunConfig::new();
    if text_is(arguments, "result_mode", "compact") {
        config = config.with_result_mode(ResultMode::Compact);
    }
    if text_is(arguments, "on_error", "continue") {
        config = config.with_on_error(ErrorMode::Continue);
    }
    config
}

// ---------------------------------------------------------------------------
// Messages
// ---------------------------------------------------------------------------

/// What a message leads to.
pub enum Answer {
    /// Nothing: a notification.
    Silence,
    /// This response.
    Respond(Value),
    /// The result of this call, with these arguments, as the response with
    /// this id.
    Call(Value, ToolCall, Value),
}

/// What the server answers a message, where no tool has to run.
pub open spec fn answer_to(message: Json, depth: u32, list: Json) -> Option<Json> {
    match json_field(message, "id"@) {
        None => None,
        Some(id) => {
            let method = match text_field(message, "method"@) {
                Some(m) => m,
                None => Seq::empty(),
            };
            if method == "initialize"@ {
                Some(rpc_result(id, initialized(json_field(message, "params"@))))
            } else if method == "ping"@ {
                Some(rpc_result(id, object()))
            } else if method == "tools/list"@ {
                Some(rpc_result(id, list))
            } else if method == "tools/call"@ {
                if depth >= MAX_DEPTH {
                    Some(rpc_result(id, failed_call(too_deep())))
                } else {
                    match call_of(message) {
                        Ok(_) => None,
                        Err(e) => Some(rpc_result(id, failed_call(e))),
                    }
                }
            } else {
                Some(rpc_error(id, -32601, "unknown method '"@ + method + "'"@))
            }
        },
    }
}

/// Why a nested call is refused.
pub open spec fn too_deep() -> Seq<char> {
    "maximum compiler composition depth (2) exceeded; flatten the plan instead of nesting compilers"@
}

/// The message is a call that has to run.
pub open spec fn must_run(message: Json, depth: u32) -> bool {
    &&& json_field(message, "id"@) is Some
    &&& text_field(message, "method"@) == Some("tools/call"@)
    &&& depth < MAX_DEPTH
    &&& call_of(message) is Ok
}

proof fn lemma_methods_differ()
    ensures
        "initialize"@ != "tools/call"@,
        "ping"@ != "tools/call"@,
        "tools/list"@ != "tools/call"@,
{
    reveal_strlit("initialize");
    reveal_strlit("ping");
    reveal_strlit("tools/list");
    reveal_strlit("tools/call");
    assert("tools/list"@[6] != "tools/call"@[6]);
    assert("initialize"@[0] != "tools/call"@[0]);
    assert("ping"@.len() != "tools/call"@.len());
}

/// What a message leads to. A message without an id is a notification and
/// gets no response; every other one gets exactly one.
pub fn handle_message(message: &Value, depth: u32, schemas: &Schemas) -> (r: Answer)
    ensures
        ({
            let list = tool_list(schemas.plan@, schemas.intent@, schemas.recipe@);
            match r {
                Answer::Silence => json_field(message@, "id"@) is None,
                Answer::Respond(v) => answer_to(message@, depth, list) == Some(v@),
                Answer::Call(id, c, a) => {
                    &&& must_run(message@, depth)
                    &&& json_field(message@, "id"@) == Some(id@)
                    &&& call_of(message@) == Ok::<(CallV, Json), Seq<char>>((c@, a@))
                },
            }
        }),
        (r is Call) == must_run(message@, depth),
{
    let id = match message.get("id") {
        Some(id) => id.clone(),
        None => {
            return Answer::Silence;
        },
    };
    proof {
        lemma_methods_differ();
    }
    let method = match message.text_at("method") {
        Some(m) => m,
        None => "",
    };
    proof {
        reveal_strlit("");
        reveal_strlit("initialize");
        reveal_strlit("ping");
        reveal_strlit("tools/list");
        reveal_strlit("tools/call");
        assert(""@ =~= Seq::empty());
    }
    if same_text(method, "initialize") {
        return Answer::Respond(jsonrpc_result(id, initialize_result(message.get("params"))));
    }
    if same_text(method, "ping") {
        return Answer::Respond(jsonrpc_result(id, Value::empty_object()));
    }
    if same_text(method, "tools/list") {
        return Answer::Respond(jsonrpc_result(id, tools_list(schemas)));
    }
    if same_text(method, "tools/call") {
        if depth >= MAX_DEPTH {
            return Answer::Respond(
                jsonrpc_result(
                    id,
                    tool_failure(
                        "maximum compiler composition depth (2) exceeded; flatten the plan instead of nesting compilers",
                    ),
                ),
            );
        }
        return match read_call(message) {
            Ok((call, arguments)) => Answer::Call(id, call, arguments),
            Err(e) => Answer::Respond(jsonrpc_result(id, tool_failure(e.as_str()))),
        };
    }
    Answer::Respond(
        jsonrpc_error(id, -32601, wrapped("unknown method '", method, "'").as_str()),
    )
}

proof fn lemma_reply_fields(id: Json, key: Seq<char>, body: Json)
    requires
        key != "id"@,
        key != "jsonrpc"@,
    ensures
        json_field(with(rpc_reply(id), key, body), "id"@) == Some(id),
        json_field(with(rpc_reply(id), key, body), key) == Some(body),
        forall|x: Seq<char>|
            x != key && x != "id"@ && x != "jsonrpc"@ ==> (#[trigger] json_field(
                with(rpc_reply(id), key, body),
                x,
            )) is None,
{
    let a = with(object(), "jsonrpc"@, Json::Text("2.0"@));
    let b = with(a, "id"@, id);
    let empty: Seq<(Seq<char>, Json)> = Seq::empty();
    assert(sorted_pairs(empty));
    assert forall|x: Seq<char>| x != key && x != "id"@ && x != "jsonrpc"@ implies (
    #[trigger] json_field(with(rpc_reply(id), key, body), x)) is None by {
        reading_gives_back(object(), "jsonrpc"@, Json::Text("2.0"@), x);
        reading_gives_back(a, "id"@, id, x);
        reading_gives_back(b, key, body, x);
        assert(!crate::ordered::has_key(empty, x));
    }
    reading_gives_back(object(), "jsonrpc"@, Json::Text("2.0"@), "id"@);
    reading_gives_back(a, "id"@, id, "id"@);
    reading_gives_back(b, key, body, "id"@);
    reading_gives_back(b, key, body, key);
}

/// Every response carries the id of the message that it answers.
pub proof fn responses_echo_the_id(message: Json, depth: u32, list: Json)
    requires
        answer_to(message, depth, list) is Some,
    ensures
        json_field(answer_to(message, depth, list)->0, "id"@) == json_field(message, "id"@),
{
    let id = json_field(message, "id"@)->0;
    reveal_strlit("id");
    reveal_strlit("jsonrpc");
    reveal_strlit("result");
    reveal_strlit("error");
    assert("result"@.len() != "id"@.len() && "result"@.len() != "jsonrpc"@.len());
    assert("error"@.len() != "id"@.len() && "error"@.len() != "jsonrpc"@.len());
    let r = answer_to(message, depth, list)->0;
    if json_field(r, "id"@) != Some(id) {
        assert forall|body: Json| r != with(rpc_reply(id), "result"@, body) by {
            lemma_reply_fields(id, "result"@, body);
        }
        assert forall|body: Json| r != with(rpc_reply(id), "error"@, body) by {
            lemma_reply_fields(id, "error"@, body);
        }
    }
}

/// A call that cannot be made is answered with a tool result that is marked
/// as an error, never with a protocol error.
pub proof fn refused_calls_are_tool_errors(message: Json, depth: u32, list: Json)
    requires
        json_field(message, "id"@) is Some,
        text_field(message, "method"@) == Some("tools/call"@),
        !must_run(message, depth),
    ensures
        ({
            let r = answer_to(message, depth, list);
            &&& r is Some
            &&& json_field(r->0, "error"@) is None
            &&& json_field(r->0, "result"@) is Some
            &&& json_field(json_field(r->0, "result"@)->0, "isError"@) == Some(Json::Bool(true))
        }),
{
    lemma_methods_differ();
    let id = json_field(message, "id"@)->0;
    let text = if depth >= MAX_DEPTH {
        too_deep()
    } else {
        call_of(message)->Err_0
    };
    let body = failed_call(text);
    reveal_strlit("id");
    reveal_strlit("jsonrpc");
    reveal_strlit("result");
    reveal_strlit("error");
    assert("result"@.len() != "id"@.len() && "result"@.len() != "jsonrpc"@.len());
    assert("error"@.len() != "id"@.len() && "error"@.len() != "jsonrpc"@.len());
    assert("error"@.len() != "result"@.len());
    assert(answer_to(message, depth, list) == Some(rpc_result(id, body)));
    lemma_reply_fields(id, "result"@, body);
    let empty: Seq<(Seq<char>, Json)> = Seq::empty();
    assert(sorted_pairs(empty));
    let a = with(object(), "content"@, text_content(text));
    reading_gives_back(object(), "content"@, text_content(text), "isError"@);
    reading_gives_back(a, "isError"@, Json::Bool(true), "isError"@);
}

} // verus!
