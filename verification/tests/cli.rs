//! The server, the configuration and the command surface.

use tool_compiler::adapters::mcp::{derive_capabilities, parse_tools_list, McpTransport};
use tool_compiler::command::{parse_params, split_params, CliError, RunArgs};
use tool_compiler::configure::{
    configured_runtime, hydration_error, CapabilityBinding, FsBinding, HttpBinding, McpBinding,
    RuntimeConfig, ShellBinding,
};
use tool_compiler::effects::Effects;
use tool_compiler::json::{Number, Value};
use tool_compiler::ordered::StrMap;
use tool_compiler::runtime::config::ErrorMode;
use tool_compiler::runtime::registry::ToolCapabilities;
use tool_compiler::runtime::result::{ResultMode, RunMetrics, RunStatus};
use tool_compiler::serve::{
    explain_result, handle_message, parse_failure, run_config_from, run_result, Answer, Schemas,
    ToolCall, MAX_DEPTH,
};

fn convert(value: serde_json::Value) -> Value {
    match value {
        serde_json::Value::Null => Value::Null,
        serde_json::Value::Bool(flag) => Value::Bool(flag),
        serde_json::Value::Number(number) => Value::Number(match (number.as_u64(), number.as_i64()) {
            (Some(n), _) => Number::PosInt(n),
            (None, Some(n)) => Number::NegInt(n),
            (None, None) => Number::Float(number.to_string()),
        }),
        serde_json::Value::String(text) => Value::String(text),
        serde_json::Value::Array(items) => Value::Array(items.into_iter().map(convert).collect()),
        serde_json::Value::Object(members) => {
            let mut map = StrMap::new();
            for (key, member) in members {
                map.insert(key, convert(member));
            }
            Value::Object(map)
        }
    }
}

fn json(text: &str) -> Value {
    convert(serde_json::from_str(text).unwrap())
}

fn schemas() -> Schemas {
    Schemas {
        plan: json(r#"{ "title": "Tool Call Compiler Plan" }"#),
        intent: json(r#"{ "title": "Intent" }"#),
        recipe: json(r#"{ "title": "Recipe" }"#),
    }
}

fn respond(message: &str, depth: u32) -> Value {
    match handle_message(&json(message), depth, &schemas()) {
        Answer::Respond(value) => value,
        Answer::Silence => panic!("no answer"),
        Answer::Call(..) => panic!("a call"),
    }
}

fn call(name: &str, arguments: &str) -> String {
    format!(
        r#"{{ "jsonrpc": "2.0", "id": 1, "method": "tools/call",
              "params": {{ "name": "{name}", "arguments": {arguments} }} }}"#
    )
}

fn at<'a>(value: &'a Value, path: &[&str]) -> &'a Value {
    path.iter().fold(value, |value, key| match key.parse::<usize>() {
        Ok(i) => value.item(i).unwrap(),
        Err(_) => value.get(key).unwrap(),
    })
}

#[test]
fn malformed_json_yields_parse_error_response() {
    let response = parse_failure("expected value");

    assert_eq!(at(&response, &["error", "code"]), &json("-32700"));
    assert_eq!(
        at(&response, &["error", "message"]),
        &json("\"parse error: expected value\"")
    );
}

#[test]
fn notifications_get_no_response() {
    let message = json(r#"{ "jsonrpc": "2.0", "method": "notifications/initialized" }"#);

    assert!(matches!(handle_message(&message, 0, &schemas()), Answer::Silence));
}

#[test]
fn ping_and_initialize_are_answered() {
    let ping = respond(r#"{ "jsonrpc": "2.0", "id": 1, "method": "ping" }"#, 0);
    assert_eq!(ping, json(r#"{ "jsonrpc": "2.0", "id": 1, "result": {} }"#));

    let init = respond(
        r#"{ "jsonrpc": "2.0", "id": 2, "method": "initialize",
             "params": { "protocolVersion": "2025-03-26" } }"#,
        0,
    );
    assert_eq!(
        at(&init, &["result", "protocolVersion"]),
        &json("\"2025-03-26\"")
    );
    let init = respond(
        r#"{ "id": 2, "method": "initialize", "params": { "protocolVersion": "--nonsense" } }"#,
        0,
    );
    assert_eq!(
        at(&init, &["result", "protocolVersion"]),
        &json("\"2025-06-18\"")
    );
    let init = respond(r#"{ "id": 2, "method": "initialize" }"#, 0);
    assert_eq!(
        at(&init, &["result", "protocolVersion"]),
        &json("\"2025-06-18\"")
    );
    assert_eq!(at(&init, &["result", "serverInfo", "version"]), &json("\"0.1.0\""));
}

#[test]
fn tools_list_embeds_the_full_schemas() {
    let response = respond(r#"{ "jsonrpc": "2.0", "id": 1, "method": "tools/list" }"#, 0);

    let tools = at(&response, &["result"]).list_at("tools").unwrap();
    assert_eq!(tools.len(), 4);
    assert_eq!(
        at(&tools[0], &["inputSchema", "properties", "plan", "title"]),
        &json("\"Tool Call Compiler Plan\"")
    );
    assert_eq!(
        at(&tools[1], &["inputSchema", "properties", "result_mode", "enum"]),
        &json(r#"["full", "compact"]"#)
    );
    assert_eq!(at(&tools[2], &["inputSchema", "required"]), &json(r#"["recipe"]"#));
    assert_eq!(at(&tools[3], &["name"]), &json("\"explain_tool_plan\""));
}

#[test]
fn calls_are_handed_out_with_their_documents() {
    match handle_message(&json(&call("run_compiled_tool_graph", r#"{ "plan": { "x": 1 } }"#)), 0, &schemas()) {
        Answer::Call(id, ToolCall::Graph(plan), arguments) => {
            assert_eq!(id, json("1"));
            assert_eq!(plan, json(r#"{ "x": 1 }"#));
            assert!(arguments.get("plan").is_some());
        }
        _ => panic!("a graph"),
    }
    let recipe = call(
        "run_compiled_tool_recipe",
        r#"{ "recipe": {}, "params": { "query": "hello" } }"#,
    );
    match handle_message(&json(&recipe), 1, &schemas()) {
        Answer::Call(_, ToolCall::Recipe(_, params), _) => {
            assert_eq!(params.get("query"), Some(&json("\"hello\"")));
        }
        _ => panic!("a recipe"),
    }
}

#[test]
fn depth_guard_refuses_nested_composition() {
    let response = respond(&call("run_compiled_tool_graph", r#"{ "plan": {} }"#), MAX_DEPTH);

    assert_eq!(at(&response, &["result", "isError"]), &json("true"));
}

#[test]
fn unknown_tools_and_methods_error() {
    let unknown_tool = respond(&call("nope", "{}"), 0);
    assert_eq!(at(&unknown_tool, &["result", "isError"]), &json("true"));
    assert_eq!(
        at(&unknown_tool, &["result", "content", "0", "text"]),
        &json("\"unknown tool 'nope'\"")
    );

    let unknown_method = respond(r#"{ "jsonrpc": "2.0", "id": 1, "method": "bogus" }"#, 0);
    assert_eq!(at(&unknown_method, &["error", "code"]), &json("-32601"));

    for (message, text) in [
        (r#"{ "id": 1, "method": "tools/call" }"#.to_owned(), "tools/call missing params"),
        (r#"{ "id": 1, "method": "tools/call", "params": {} }"#.to_owned(), "tools/call missing name"),
        (call("explain_tool_plan", "{}"), "explain_tool_plan requires arguments.plan"),
        (call("run_compiled_tool_intent", "{}"), "run_compiled_tool_intent requires arguments.intent"),
        (call("run_compiled_tool_recipe", "{}"), "run_compiled_tool_recipe requires arguments.recipe"),
    ] {
        let response = respond(&message, 0);
        assert_eq!(
            at(&response, &["result", "content", "0", "text"]).as_str(),
            Some(text)
        );
    }
}

#[test]
fn failed_runs_are_tool_errors_with_partial_results() {
    let metrics = RunMetrics {
        nodes_total: 3,
        nodes_succeeded: 1,
        nodes_failed: 1,
        nodes_skipped: 1,
        wall_ms: 7,
        ..RunMetrics::default()
    };
    let result = run_result(RunStatus::Failed, &metrics, json(r#"{ "errors": {} }"#));

    assert_eq!(at(&result, &["isError"]), &json("true"));
    assert!(at(&result, &["structuredContent"]).get("errors").is_some());
    assert_eq!(
        at(&result, &["content", "0", "text"]).as_str(),
        Some("status=Failed nodes=3 ok=1 failed=1 skipped=1 wall=7ms")
    );
    let explained = explain_result(2, 1, json("{}"));
    assert_eq!(
        at(&explained, &["content", "0", "text"]).as_str(),
        Some("2 layers; 1 diagnostics")
    );
    assert_eq!(at(&explained, &["isError"]), &json("false"));
}

#[test]
fn arguments_choose_the_run_configuration() {
    let config = run_config_from(&json(r#"{ "result_mode": "compact", "on_error": "continue" }"#));
    assert_eq!(config.result_mode, ResultMode::Compact);
    assert_eq!(config.on_error, ErrorMode::Continue);
    let config = run_config_from(&json("{}"));
    assert_eq!(config.result_mode, ResultMode::Full);
    assert_eq!(config.on_error, ErrorMode::FailFast);
}

#[test]
fn cli_parses_run_flags() {
    let run = RunArgs {
        result_mode: ResultMode::Compact,
        on_error: ErrorMode::Continue,
        timeout_ms: Some(5000),
        max_output_bytes: None,
    };

    let config = run.config();
    assert_eq!(config.result_mode, ResultMode::Compact);
    assert_eq!(config.on_error, ErrorMode::Continue);
    assert_eq!(config.default_timeout_ms, Some(5000));
    assert_eq!(config.max_output_bytes, None);
}

#[test]
fn read_input_reports_the_missing_path() {
    let error = CliError::Io {
        path: "definitely-missing.json".into(),
        source: "No such file or directory".into(),
    };

    assert!(error.message().contains("definitely-missing.json"));
    assert_eq!(
        CliError::config("c.json", "bad").message(),
        "runtime config 'c.json': bad"
    );
    assert_eq!(
        CliError::unknown_adapter("x").message(),
        "unknown adapter 'x'"
    );
    assert_eq!(
        hydration_error("c.json", "mcp.x", "gone").message(),
        "runtime config 'c.json': hydrating 'mcp.x': gone"
    );
}

fn params(raw: &[&str]) -> Result<StrMap<Value>, CliError> {
    let raw: Vec<String> = raw.iter().map(|s| s.to_string()).collect();
    let pairs = split_params(&raw)?;
    let parsed = pairs
        .iter()
        .map(|(_, value)| serde_json::from_str(value).ok().map(convert))
        .collect();
    Ok(parse_params(&pairs, &parsed))
}

#[test]
fn parses_params_as_json_with_string_fallback() {
    let params = params(&["count=3", "flag=true", "name=plain text"]).unwrap();

    assert_eq!(params.get("count"), Some(&json("3")));
    assert_eq!(params.get("flag"), Some(&json("true")));
    assert_eq!(params.get("name"), Some(&json("\"plain text\"")));
}

#[test]
fn rejects_malformed_params() {
    let error = params(&["broken"]).unwrap_err();

    assert_eq!(error.message(), "--param expects key=value, got 'broken'");
}

fn texts(items: &[&str]) -> Vec<String> {
    items.iter().map(|s| s.to_string()).collect()
}

#[test]
fn builds_a_runtime_from_every_binding_kind() {
    let mut env = StrMap::new();
    env.insert("X".to_owned(), "1".to_owned());
    let mut headers = StrMap::new();
    headers.insert("Authorization".to_owned(), "Bearer x".to_owned());
    let config = RuntimeConfig {
        mcp: vec![McpBinding {
            adapter: "mcp.files".into(),
            name: "files".into(),
            command: "node".into(),
            args: texts(&["-e", "process.exit(0)"]),
            env: StrMap::new(),
            env_clear: true,
            inherit: texts(&["PATH"]),
            request_timeout_ms: Some(5000),
            hydrate: false,
        }],
        fs: vec![FsBinding {
            adapter: "fs.repo".into(),
            root: ".".into(),
            max_read_bytes: Some(1024),
            max_entries: Some(10),
        }],
        shell: vec![ShellBinding {
            adapter: "shell.local".into(),
            cwd: Some(".".into()),
            env,
            env_clear: true,
            inherit: texts(&["PATH"]),
            default_timeout_ms: Some(1000),
            max_output_bytes: Some(4096),
        }],
        http: vec![HttpBinding {
            adapter: "http.api".into(),
            base_url: Some("https://example.test".into()),
            default_headers: headers,
            timeout_ms: Some(2000),
        }],
        capabilities: vec![
            CapabilityBinding {
                tool: "read_file".into(),
                adapter: None,
                capabilities: ToolCapabilities::new().with_effects(Effects::pure()),
            },
            CapabilityBinding {
                tool: "read_file".into(),
                adapter: Some("fs.repo".into()),
                capabilities: ToolCapabilities::new().with_version("scoped"),
            },
        ],
    };

    let runtime = configured_runtime(Some(&config), &vec![vec![]]);
    let registry = runtime.registry();

    for adapter in ["local", "builtin", "mcp.files", "fs.repo", "shell.local", "http.api"] {
        assert!(registry.has_adapter(adapter), "missing {adapter}");
    }
    // Adapter-scoped capabilities win over the unscoped entry.
    assert_eq!(
        registry
            .capabilities_for("fs.repo", "read_file")
            .unwrap()
            .version
            .as_deref(),
        Some("scoped")
    );
    assert!(registry
        .capabilities_for("other", "read_file")
        .unwrap()
        .effects
        .is_some());
    // The compiler's own tools are always blocked (recursion defense).
    assert!(registry.is_blocked("run_compiled_tool_graph"));
    assert!(configured_runtime(None, &vec![]).registry().is_blocked("explain_tool_plan"));

    assert!(matches!(
        config.mcp[0].server_config().transport,
        McpTransport::Stdio { env_clear: true, .. }
    ));
    assert_eq!(config.fs[0].executor().max_entries, 10);
    let shell = config.shell[0].executor();
    assert_eq!(shell.env.get("X").unwrap(), "1");
    assert_eq!(shell.inherit, texts(&["PATH"]));
    let client = config.http[0].client();
    assert_eq!(client.timeout_ms, 2000);
    assert_eq!(client.default_headers.get("authorization").unwrap(), "Bearer x");
}

#[test]
fn hydrate_registers_capabilities_from_the_servers_tool_list() {
    let (tools, _) = parse_tools_list(&json(
        r#"{ "tools": [{ "name": "lookup", "inputSchema": { "type": "object" },
             "annotations": { "readOnlyHint": true, "idempotentHint": true } }] }"#,
    ));
    let derived = derive_capabilities("fake", &tools);
    let config = RuntimeConfig {
        mcp: vec![McpBinding {
            adapter: "mcp.fake".into(),
            name: "fake".into(),
            command: "node".into(),
            args: vec![],
            env: StrMap::new(),
            env_clear: false,
            inherit: vec![],
            request_timeout_ms: None,
            hydrate: true,
        }],
        fs: vec![],
        shell: vec![],
        http: vec![],
        capabilities: vec![],
    };

    let runtime = configured_runtime(Some(&config), &vec![derived]);
    let capabilities = runtime
        .registry()
        .capabilities_for("mcp.fake", "lookup")
        .unwrap();
    assert!(capabilities.effects.as_ref().unwrap().reads.contains("mcp:fake"));
    assert!(capabilities.input_schema.is_some());
}
