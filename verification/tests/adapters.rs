//! Adapters: requests, replies, listings and sessions.

use tool_compiler::adapters::api::{BatchInput, BatchOutput, ToolExecutionError};
use tool_compiler::adapters::bytes::find_cut;
use tool_compiler::adapters::fs::{
    check_containment, find_tool, list_dir_tool, read_file_tool, read_output, rollback,
    stage_file, write_all_output, write_file_tool, write_files_tool, Backup, FsError, FsExecutor,
    FsTool,
};
use tool_compiler::adapters::http::{
    build_request, check_method, declares_json, idempotent_write_endpoint, read_endpoint, write_endpoint,
    HttpClientConfig, HttpError, HttpResponse,
};
use tool_compiler::adapters::listing::{EntryKind, Listing};
use tool_compiler::adapters::local::{batch_sleep_ms, local_batch, LocalExecutor};
use tool_compiler::adapters::mcp::{
    check_protocol_version, derive_capabilities, effects_from_annotations, is_event_stream,
    mcp_read_tool,
    normalize_batch, normalize_tool_result, parse_response, parse_tools_list, sse_messages,
    sse_response_for, tool_call_request, tools_list_request, McpClientError,
};
use tool_compiler::adapters::paths::{join_path, lies_inside, starts_at_root};
use tool_compiler::adapters::process::command_candidates;
use tool_compiler::adapters::sessions::{child_depth, parse_depth, Routed, Session};
use tool_compiler::adapters::shell::{cap_output, child_env, run_tool, ShellError, ShellExecutor};
use tool_compiler::effects::set_of;
use tool_compiler::json::{Number, Value};
use tool_compiler::ordered::StrMap;

fn convert(value: serde_json::Value) -> Value {
    match value {
        serde_json::Value::Null => Value::Null,
        serde_json::Value::Bool(flag) => Value::Bool(flag),
        serde_json::Value::Number(number) => Value::Number(match (number.as_u64(), number.as_i64()) {
            (Some(n), _) => Number::PosInt(n),
            (None, Some(n)) => Number::NegInt(n),
            (None, None) => Number::Float(number.to_string()),
        }),
        serde_json::Value::String(text) => Value::String(text),
        serde_json::Value::Array(items) => Value::Array(items.into_iter().map(convert).collect()),
        serde_json::Value::Object(members) => {
            let mut map = StrMap::new();
            for (key, member) in members {
                map.insert(key, convert(member));
            }
            Value::Object(map)
        }
    }
}

fn json(text: &str) -> Value {
    convert(serde_json::from_str(text).unwrap())
}

fn texts(pairs: &[(&str, &str)]) -> StrMap<String> {
    let mut map = StrMap::new();
    for (key, value) in pairs {
        map.insert(key.to_string(), value.to_string());
    }
    map
}

#[test]
fn always_includes_the_literal_command() {
    assert_eq!(command_candidates("node", false)[0], "node");
    assert_eq!(command_candidates("node", true)[0], "node");
}

#[test]
fn windows_appends_launcher_shims() {
    let candidates = command_candidates("npx", true);

    assert!(candidates.contains(&"npx.cmd".to_owned()));
    assert!(candidates.contains(&"npx.exe".to_owned()));
    assert!(candidates.contains(&"npx.bat".to_owned()));
}

#[test]
fn windows_keeps_explicit_extensions_as_is() {
    assert_eq!(command_candidates("node.exe", true), vec!["node.exe".to_owned()]);
    assert_eq!(command_candidates("run.py", true), vec!["run.py".to_owned()]);
    assert_eq!(command_candidates("C:\\tools\\RUN.CMD", true).len(), 1);
    assert_eq!(command_candidates("C:\\tools.d\\run", true).len(), 4);
    assert_eq!(command_candidates(".hidden", true).len(), 4);
    assert_eq!(command_candidates("run.py", false), vec!["run.py".to_owned()]);
}

#[test]
fn windows_paths_stay_below_the_root() {
    let executor = FsExecutor::new("C:\\data");

    for path in ["..\\x", "a\\..\\x", "a/../x", "\\x", "/x", "C:x", "c:\\x", "\\\\host\\share\\x"] {
        let error = executor.resolve(path, true).unwrap_err().tool_error();
        assert_eq!(error.code.as_deref(), Some("escapes_root"), "{path}");
    }
    assert_eq!(executor.resolve("notes\\a.txt", true).unwrap(), "C:\\data\\notes\\a.txt");
    assert_eq!(executor.resolve("..\\x", false).unwrap(), "C:\\data/..\\x");

    let root = "\\\\?\\C:\\data";
    assert!(lies_inside("\\\\?\\C:\\data\\notes", root, true));
    assert!(!lies_inside("\\\\?\\C:\\database", root, true));
    assert!(!lies_inside("\\\\?\\D:\\data\\notes", root, true));
    assert!(check_containment("link", Some(root), Some("\\\\?\\C:\\other"), true).is_err());
}

#[test]
fn windows_paths_join_by_drive() {
    assert!(starts_at_root("C:\\x", true) && starts_at_root("\\\\host\\share", true));
    assert!(!starts_at_root("C:x", true) && !starts_at_root("\\x", true));
    assert!(!starts_at_root("x", true) && !starts_at_root("C:\\x", false));
    assert_eq!(join_path("C:\\base", "x", true), "C:\\base\\x");
    assert_eq!(join_path("C:\\base\\", "x", true), "C:\\base\\x");
    assert_eq!(join_path("C:", "x", true), "C:x");
    assert_eq!(join_path("C:\\base", "\\x", true), "C:\\x");
    assert_eq!(join_path("\\\\host\\share\\base", "\\x", true), "\\\\host\\share\\x");
    assert_eq!(join_path("C:\\base", "D:x", true), "D:x");

    let executor = ShellExecutor::new().with_cwd("C:\\base");
    let cwd = |input: &str| match executor.request(&json(input), true) {
        Ok(request) => request.cwd,
        Err(error) => panic!("{}", error.message()),
    };
    assert_eq!(
        cwd(r#"{ "program": "ls", "cwd": "sub" }"#).as_deref(),
        Some("C:\\base\\sub")
    );
    assert_eq!(
        cwd(r#"{ "program": "ls", "cwd": "D:\\x" }"#).as_deref(),
        Some("D:\\x")
    );
}

#[test]
fn structured_errors_keep_their_parts() {
    let error = ToolExecutionError::new("timed out")
        .with_code("timeout")
        .with_retryable(true);

    assert_eq!(error.message, "timed out");
    assert_eq!(error.code.as_deref(), Some("timeout"));
    assert_eq!(error.retryable, Some(true));
    assert_eq!(ToolExecutionError::new("boom").code, None);
}

#[test]
fn declares_tool_effects() {
    let read = read_file_tool(&["file:{path}"]);
    let write = write_file_tool(&["file:{path}"]);

    assert!(read.effects.unwrap().batchable);
    assert!(write.effects.unwrap().writes.contains("file:{path}"));
    assert_eq!(write_files_tool(&["file:*"]).adapter, "fs");
    assert!(list_dir_tool(&["dir"]).effects.unwrap().reads.contains("dir"));
}

#[test]
fn rejects_paths_that_escape_root() {
    let executor = FsExecutor::new("/srv/data");

    let error = executor.resolve("../secret.txt", false).unwrap_err().tool_error();
    assert_eq!(error.code.as_deref(), Some("escapes_root"));
    assert!(executor.resolve("/etc/passwd", false).is_err());
    assert!(executor.resolve("a/../b", false).is_err());
    assert_eq!(executor.resolve("notes/a.txt", false).unwrap(), "/srv/data/notes/a.txt");
    assert_eq!(join_path("a/", "b", false), "a/b");
}

#[test]
fn rejects_symlinks_that_escape_root() {
    assert!(check_containment("link/s", Some("/srv/data"), Some("/srv/data/notes"), false).is_ok());
    let error = check_containment("link/s", Some("/srv/data"), Some("/srv/database"), false).unwrap_err();
    assert_eq!(error.tool_error().code.as_deref(), Some("escapes_root"));
    assert!(check_containment("x", None, Some("/elsewhere"), false).is_ok());
    assert!(check_containment("x", Some("/srv"), None, false).is_ok());
}

#[test]
fn truncates_reads_beyond_the_byte_cap() {
    let executor = FsExecutor::new("root");
    let limit = executor.max_read_bytes(&json(r#"{ "path": "big.txt", "max_bytes": 10 }"#));
    let read = read_output(&vec![b'x'; 100], limit);

    assert_eq!(read.bool_at("truncated"), Some(true));
    assert_eq!(read.number_at("bytes"), Some(100));
    assert_eq!(read.text_at("content").unwrap().len(), 10);
    assert_eq!(executor.max_read_bytes(&json("{}")), 2 * 1024 * 1024);
}

#[test]
fn cuts_do_not_split_characters() {
    let bytes = "a\u{e9}\u{20ac}".as_bytes().to_vec();

    assert_eq!(find_cut(&bytes, 2), 1);
    assert_eq!(find_cut(&bytes, 3), 3);
    assert_eq!(find_cut(&bytes, 5), 3);
    let read = read_output(&bytes, 2);
    assert_eq!(read.text_at("content"), Some("a"));
    let (text, cut) = cap_output(&vec![0xff, b'x'], 10);
    assert_eq!((text.as_str(), cut), ("\u{fffd}x", false));
}

#[test]
fn lists_recursively_with_glob_filters() {
    let executor = FsExecutor::new("root");
    let input = json(r#"{ "path": "src", "recursive": true, "glob": "**/*.rs" }"#);
    let mut listing = Listing::begin(&executor, &input).unwrap();

    let mut visited = Vec::new();
    while let Some(dir) = listing.next_dir() {
        let entries = match dir.as_str() {
            "" => vec![
                ("readme.md", EntryKind::File),
                ("deep", EntryKind::Dir),
                ("a.rs", EntryKind::File),
            ],
            "deep" => vec![("b.rs", EntryKind::File)],
            _ => vec![],
        };
        visited.push(dir.clone());
        for (name, kind) in entries {
            listing.add(&dir, name, kind);
        }
    }

    assert_eq!(visited, vec!["".to_owned(), "deep".to_owned()]);
    let list = listing.finish();
    let names: Vec<&str> = list
        .list_at("entries")
        .unwrap()
        .iter()
        .map(|entry| entry.text_at("name").unwrap())
        .collect();
    assert_eq!(names, vec!["a.rs", "deep/b.rs"]);
}

#[test]
fn malformed_globs_are_refused() {
    let executor = FsExecutor::new("root");

    let error = match Listing::begin(&executor, &json(r#"{ "path": ".", "glob": "a[" }"#)) {
        Ok(_) => panic!("malformed glob"),
        Err(error) => error,
    };
    assert!(matches!(error, FsError::InvalidGlob(_)));
    assert_eq!(error.tool_error().code.as_deref(), Some("invalid_input"));
}

#[test]
fn write_files_rolls_back_on_failure() {
    let executor = FsExecutor::new("root");
    assert!(stage_file(&executor, &json(r#"{ "path": "keep.txt", "content": "new" }"#), false).is_ok());
    let error =
        match stage_file(&executor, &json(r#"{ "path": "../escape.txt", "content": "x" }"#), false) {
            Ok(_) => panic!("escape"),
            Err(error) => error,
        };
    assert_eq!(error.tool_error().code.as_deref(), Some("escapes_root"));

    let steps = rollback(vec![
        Backup { path: "a".into(), content: None },
        Backup { path: "b".into(), content: Some(b"old".to_vec()) },
    ]);
    assert_eq!(steps[0].path, "b");
    assert_eq!(steps[1].path, "a");
    assert_eq!(write_all_output(2), json(r#"{"written":2}"#));
}

#[test]
fn file_tools_are_found_by_name() {
    assert!(matches!(find_tool("read_file"), Ok(FsTool::ReadFile)));
    assert!(matches!(find_tool("nope"), Err(FsError::UnknownTool(_))));
}

#[test]
fn read_endpoint_declares_read_only_effects() {
    let spec = read_endpoint(&["api:user"]);
    let effects = spec.effects.unwrap();

    assert!(effects.reads.contains("api:user"));
    assert!(effects.writes.is_empty());
    assert!(effects.cacheable);
}

#[test]
fn write_endpoints_split_idempotency() {
    assert!(!write_endpoint(&["api:user"]).effects.unwrap().idempotent);
    assert!(idempotent_write_endpoint(&["api:user"]).effects.unwrap().idempotent);
}

#[test]
fn executor_builds_requests_with_headers_and_json_bodies() {
    let request = build_request(&json(
        r#"{ "method": "post", "url": "https://example.test",
             "headers": { "Authorization": "Bearer x" }, "body": { "hello": true } }"#,
    ))
    .unwrap();

    assert_eq!(request.method, "POST");
    assert_eq!(request.headers.get("authorization").unwrap(), "Bearer x");
    assert_eq!(request.headers.get("content-type").unwrap(), "application/json");
    assert_eq!(request.body.as_deref(), Some("{\"hello\":true}"));

    let output = HttpResponse {
        status: 200,
        headers: texts(&[("content-type", "application/json")]),
        body: json(r#"{"x":1}"#),
    }
    .output();
    assert_eq!(output.number_at("status"), Some(200));
    assert_eq!(output.bool_at("ok"), Some(true));
    assert!(declares_json(&texts(&[("content-type", "application/json; charset=utf-8")])));
    assert!(declares_json(&texts(&[("content-type", "Application/Problem+JSON")])));
}

#[test]
fn executor_requires_url() {
    let error = match build_request(&json("{}")) {
        Ok(_) => panic!("no url"),
        Err(error) => error,
    };
    assert_eq!(error.tool_error().code.as_deref(), Some("invalid_input"));
}

#[test]
fn invalid_headers_are_rejected() {
    let input = json(r#"{ "url": "https://example.test", "headers": { "x": 1 } }"#);
    let error = match build_request(&input) {
        Ok(_) => panic!("headers"),
        Err(error) => error,
    };
    assert!(matches!(error, HttpError::InvalidHeaders));
    assert_eq!(error.tool_error().code.as_deref(), Some("invalid_input"));
}

#[test]
fn base_url_joins_relative_paths() {
    let client = HttpClientConfig::new().with_base_url("https://api.test/");

    assert_eq!(client.full_url("/users"), "https://api.test/users");
    assert_eq!(client.full_url("https://other.test/x"), "https://other.test/x");
    assert_eq!(client.full_url("HTTP://other.test/x"), "HTTP://other.test/x");
    assert_eq!(client.full_url("httpd/status"), "https://api.test/httpd/status");
    assert_eq!(client.full_url("go?to=http://x"), "https://api.test/go?to=http://x");
}

#[test]
fn request_headers_win_over_defaults() {
    let client = HttpClientConfig::with_timeout(5)
        .with_default_header("X-Key", "default")
        .with_default_header("Accept", "json");
    let outgoing = client.outgoing(&texts(&[("x-key", "own")]));

    assert_eq!(outgoing.get("x-key").unwrap(), "own");
    assert_eq!(outgoing.get("accept").unwrap(), "json");
    assert_eq!(client.timeout_ms, 5);
}

#[test]
fn rejects_invalid_args() {
    let error = match ShellExecutor::new()
        .request(&json(r#"{ "program": "rustc", "args": [1] }"#), false)
    {
        Ok(_) => panic!("args"),
        Err(error) => error,
    };
    assert!(matches!(error, ShellError::InvalidArgs));
    assert_eq!(error.tool_error().code.as_deref(), Some("invalid_input"));
    assert_eq!(
        ShellError::TimedOut(100).tool_error().code.as_deref(),
        Some("timeout")
    );
}

#[test]
fn caps_captured_output() {
    let executor = ShellExecutor::new().with_max_output_bytes(8);
    let output = executor.output(Some(0), true, &b"rustc 1.0.0 (x)".to_vec(), &Vec::new());

    assert_eq!(output.bool_at("success"), Some(true));
    assert_eq!(output.bool_at("stdout_truncated"), Some(true));
    assert!(output.text_at("stdout").unwrap().len() <= 8);
}

#[test]
fn env_clear_hides_parent_variables() {
    let parent = texts(&[("TOOL_COMPILER_SECRET", "leak me"), ("PATH", "/bin")]);
    let executor = ShellExecutor::new()
        .with_env_clear(true)
        .with_inherited_var("PATH")
        .with_inherited_var("SystemRoot")
        .with_env("X", "1");

    let env = child_env(&executor.env, executor.env_clear, &executor.inherit, &parent);

    assert_eq!(
        env,
        vec![
            ("PATH".to_owned(), "/bin".to_owned()),
            ("X".to_owned(), "1".to_owned())
        ]
    );
}

#[test]
fn commands_run_below_their_directory() {
    let executor = ShellExecutor::new().with_cwd("/srv").with_default_timeout_ms(7);
    let request = match executor.request(&json(r#"{ "program": "ls", "cwd": "sub" }"#), false) {
        Ok(request) => request,
        Err(error) => panic!("{}", error.message()),
    };
    assert_eq!(request.cwd.as_deref(), Some("/srv/sub"));
    assert_eq!(request.timeout_ms, Some(7));
    assert!(request.args.is_empty());
}

#[test]
fn run_tool_serializes_by_default() {
    let effects = run_tool().effects.unwrap();

    assert!(effects.writes.contains("shell:world"));
    assert!(!effects.cacheable);
    assert!(effects.declares_side_effects());
}

#[test]
fn executor_normalizes_structured_content() {
    let reply = json(
        r#"{ "structuredContent": { "name": "read_file", "arguments": { "path": "README.md" } },
             "content": [{ "type": "text", "text": "ok" }], "isError": false }"#,
    );

    assert_eq!(
        normalize_tool_result(reply).unwrap(),
        json(r#"{ "name": "read_file", "arguments": { "path": "README.md" } }"#)
    );
}

#[test]
fn tool_level_errors_become_execution_errors() {
    let reply = json(
        r#"{ "content": [{ "type": "text", "text": "file not found" }], "isError": true }"#,
    );
    let error = match normalize_tool_result(reply) {
        Ok(_) => panic!("an error"),
        Err(error) => error.tool_error(),
    };

    assert_eq!(error.code.as_deref(), Some("mcp_tool_error"));
    assert!(error.message.contains("file not found"));
}

#[test]
fn executor_maps_batch_outputs_to_node_ids() {
    let outputs = normalize_batch(&vec![
        BatchOutput {
            node: "a".into(),
            output: json(r#"{ "structuredContent": 1 }"#),
        },
        BatchOutput {
            node: "b".into(),
            output: json(r#"{ "structuredContent": { "path": "b.md" } }"#),
        },
    ])
    .unwrap();

    assert_eq!(outputs[0].node, "a");
    assert_eq!(outputs[1].output, json(r#"{ "path": "b.md" }"#));
}

#[test]
fn annotations_map_to_effects() {
    let read = effects_from_annotations(
        "files",
        &json(r#"{ "readOnlyHint": true, "idempotentHint": true }"#),
    );
    assert!(read.reads.contains("mcp:files"));
    assert!(read.cacheable);
    assert!(read.idempotent);

    let read_volatile = effects_from_annotations("files", &json(r#"{ "readOnlyHint": true }"#));
    assert!(!read_volatile.cacheable);
    assert!(read_volatile.reads.contains("mcp:files"));
    assert!(!read_volatile.idempotent);

    let write = effects_from_annotations("files", &json("{}"));
    assert!(write.writes.contains("mcp:files"));
    assert!(!write.idempotent);
}

#[test]
fn derive_capabilities_carries_schemas_and_effects() {
    let (tools, cursor) = parse_tools_list(&json(
        r#"{ "tools": [{ "name": "read_file", "description": "reads",
             "inputSchema": { "type": "object" },
             "annotations": { "readOnlyHint": true, "idempotentHint": true } }],
             "nextCursor": "p2" }"#,
    ));
    let capabilities = derive_capabilities("files", &tools);

    assert_eq!(cursor.as_deref(), Some("p2"));
    assert_eq!(capabilities.len(), 1);
    assert_eq!(capabilities[0].tool, "read_file");
    assert!(capabilities[0].effects.reads.contains("mcp:files"));
    assert!(capabilities[0].input_schema.is_some());
}

#[test]
fn protocol_versions_are_validated() {
    assert!(check_protocol_version(&json(r#"{ "protocolVersion": "2025-06-18" }"#)).is_ok());
    assert!(check_protocol_version(&json(r#"{ "protocolVersion": "1.0" }"#)).is_err());
    assert!(check_protocol_version(&json("{}")).is_err());
}

#[test]
fn revisions_are_dates() {
    for version in ["--nonsense", "2025-6-018", "20250-6-18", "2025-06-1x", "2025_06_18", ""] {
        let result = Value::empty_object().with("protocolVersion", Value::text(version));
        match check_protocol_version(&result) {
            Err(McpClientError::UnsupportedVersion(told)) => assert_eq!(told, version),
            _ => panic!("{version}"),
        }
    }
    assert!(check_protocol_version(&json(r#"{ "protocolVersion": "9999-99-99" }"#)).is_ok());
}

#[test]
fn read_tool_declares_batchable_read_effects() {
    let spec = mcp_read_tool(&["file:README.md"]);
    let effects = spec.effects.unwrap();

    assert!(effects.batchable);
    assert!(effects.cacheable);
    assert!(effects.reads.contains("file:README.md"));
}

#[test]
fn responses_carry_results_or_server_errors() {
    let ok = parse_response(&json(r#"{ "id": 1, "result": { "x": 1 } }"#)).unwrap();
    assert_eq!(ok, json(r#"{ "x": 1 }"#));
    let error = match parse_response(&json(
        r#"{ "id": 1, "error": { "code": -32602, "message": "bad args" } }"#,
    )) {
        Ok(_) => panic!("an error"),
        Err(error) => error,
    };
    assert!(matches!(error, McpClientError::Server { code: -32602, .. }));

    let events = sse_messages("event: message\ndata: {\"id\":1}\n\ndata: {\"id\":2,\"result\":7}\n");
    assert_eq!(events.len(), 2);
    let messages: Vec<Option<Value>> = events.iter().map(|e| Some(json(e))).collect();
    assert_eq!(sse_response_for(&messages, 2).unwrap().number_at("result"), Some(7));
    assert!(sse_response_for(&messages, 3).is_err());

    let request = tool_call_request(4, "read", json(r#"{"p":1}"#));
    assert_eq!(request.text_at("method"), Some("tools/call"));
    assert!(tools_list_request(1, None).get("params").is_some());
}

#[test]
fn sessions_route_answers_to_their_calls() {
    let mut session = Session::new();
    session.register(1);
    session.register(2);

    assert!(matches!(
        session.route(&json(r#"{ "method": "notifications/progress" }"#)),
        Routed::Skip
    ));
    assert!(matches!(
        session.route(&json(r#"{ "id": 9, "method": "ping" }"#)),
        Routed::Reply(_)
    ));
    match session.route(&json(r#"{ "id": 2, "result": 5 }"#)) {
        Routed::Deliver(2, Ok(value)) => assert_eq!(value, json("5")),
        _ => panic!("the answer to call two"),
    }
    session.note_stderr("boom");
    let (waiting, error) = session.close();
    assert_eq!(waiting, vec![1]);
    assert!(error.message().contains("boom"));
    assert!(session.is_dead());
}

#[test]
fn requests_of_the_server_are_refused_under_their_own_id() {
    let mut session = Session::new();
    session.register(7);
    match session.route(&json(r#"{ "id": 7, "method": "sampling/createMessage" }"#)) {
        Routed::Reply(answer) => assert_eq!(
            answer,
            json(
                r#"{ "jsonrpc": "2.0", "id": 7,
                     "error": { "code": -32601, "message": "client handles no server requests" } }"#
            )
        ),
        _ => panic!("a refusal"),
    }
    for id in ["\"s-1\"", "null", "-3"] {
        let message = format!(r#"{{ "id": {id}, "method": "sampling/createMessage" }}"#);
        assert!(matches!(session.route(&json(&message)), Routed::Skip));
    }
    assert!(matches!(session.route(&json(r#"{ "id": "7", "result": 1 }"#)), Routed::Skip));
    assert!(matches!(session.route(&json(r#"{ "id": 7, "result": 1 }"#)), Routed::Deliver(7, Ok(_))));
}

#[test]
fn depth_is_counted_up_for_children() {
    assert_eq!(parse_depth(None), 0);
    assert_eq!(parse_depth(Some("1")), 1);
    assert_eq!(parse_depth(Some("x")), 0);
    assert_eq!(child_depth(1), "2");
}

#[test]
fn unknown_tools_error_instead_of_echoing() {
    let error = LocalExecutor.call("wrte", json("{}")).unwrap_err();

    assert_eq!(error.code.as_deref(), Some("unknown_tool"));
}

#[test]
fn const_requires_a_value() {
    let error = LocalExecutor.call("const", json("{}")).unwrap_err();
    assert_eq!(error.code.as_deref(), Some("invalid_input"));

    let value = LocalExecutor.call("const", json(r#"{ "value": 7 }"#)).unwrap();
    assert_eq!(value, json("7"));
}

#[test]
fn local_batches_keep_their_nodes() {
    let inputs = vec![
        BatchInput { node: "a".into(), input: json(r#"{ "sleep_ms": 3 }"#) },
        BatchInput { node: "b".into(), input: json(r#"{ "sleep_ms": 5 }"#) },
    ];

    assert_eq!(batch_sleep_ms(&inputs), 5);
    let outputs = local_batch("echo", &inputs).unwrap();
    assert_eq!(outputs[1].node, "b");
    assert_eq!(outputs[1].output, inputs[1].input);
    assert_eq!(set_of(&["a"]).len(), 1);
}

#[test]
fn methods_are_tokens() {
    for method in ["GET", "DELETE", "PROPFIND", "x-custom!", "A_VERY_LONG_METHOD_NAME_1"] {
        assert!(check_method(method).is_ok());
    }
    for method in ["", "GE T", "GET/", "(GET)", "G\u{e9}T", "{}"] {
        assert_eq!(
            check_method(method).unwrap_err(),
            HttpError::InvalidMethod(method.to_owned())
        );
    }
    for code in 0u8..128 {
        let mark = (code as char).to_string();
        let legal = mark.chars().all(|c| c.is_ascii_alphanumeric() || "!#$%&'*+-.^_`|~".contains(c));
        assert_eq!(check_method(&mark).is_ok(), legal);
    }
}

#[test]
fn event_streams_are_told_by_their_content_type() {
    assert!(is_event_stream("text/event-stream; charset=utf-8"));
    assert!(!is_event_stream("application/json"));
}

#[test]
fn local_batches_fail_as_a_whole() {
    let entry = |node: &str, text: &str| BatchInput { node: node.to_owned(), input: json(text) };
    let outputs = LocalExecutor
        .call_batch("const", vec![entry("a", r#"{ "value": 1 }"#), entry("b", r#"{ "value": 2 }"#)])
        .unwrap();
    assert_eq!(outputs.len(), 2);
    assert_eq!(outputs[1].node, "b");
    assert_eq!(outputs[1].output, json("2"));

    let error = LocalExecutor
        .call_batch("const", vec![entry("a", r#"{ "value": 1 }"#), entry("b", "{}")])
        .unwrap_err();
    assert_eq!(error.code.as_deref(), Some("invalid_input"));
}
