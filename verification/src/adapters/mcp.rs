//! MCP adapter: message construction and parsing, capabilities derived from
//! tool annotations, and the errors of a session.
//!
//! Protocol behaviors worth knowing:
//!
//! - `tools/call` results carrying `isError: true` become
//!   [`ToolExecutionError`]s (code `mcp_tool_error`) instead of successes.
//! - [`derive_capabilities`] turns the server's tools into adapter-scoped
//!   capabilities derived from MCP tool annotations.

use vstd::prelude::*;

use crate::adapters::api::{BatchOutput, BatchOutputV, ToolErrorV, ToolExecutionError};
use crate::effects::{Effects, EffectsV};
use crate::json::{Json, NumberV, Value};
use crate::ordered::StrMap;
use crate::plan::ToolSpec;
use crate::scan::{contains_text, split_lines, starts_with_text, trim_text};
use crate::text::{chars_of, concat2, decimal_text, join_texts, signed_decimal_text, text_of, wrapped};

verus! {

use crate::adapters::fs::declared;
use crate::effects::{no_effects, slice_set};
use crate::fields::{is_set, list_field, number_field, object, small_integer, text_field, with};
use crate::json::values_view;
use crate::ordered::{opt_view, views};
use crate::scan::{has_part, has_prefix, is_digit, lines_of, trimmed};
use crate::text::{decimal, join_with, signed_decimal, texts_view};
use crate::value::json_field;

broadcast use crate::json::group_json_views;

/// Conventional adapter name for MCP executors.
pub const ADAPTER: &'static str = "mcp";

/// MCP protocol version this adapter speaks.
pub const PROTOCOL_VERSION: &'static str = "2025-06-18";

/// Environment variable carrying the recursive-composition depth.
pub const DEPTH_ENV_VAR: &'static str = "TOOL_COMPILER_DEPTH";

/// The version that the client and the server report.
pub const PACKAGE_VERSION: &'static str = "0.1.0";

/// Request timeout of a server that configures none, in milliseconds.
pub const DEFAULT_REQUEST_TIMEOUT_MS: u64 = 60000;

// ---------------------------------------------------------------------------
// Configuration
// ---------------------------------------------------------------------------

/// Configuration of one MCP server connection.
#[derive(Debug)]
pub struct McpServerConfig {
    /// Human label for the server.
    pub name: String,
    /// Transport used to reach it.
    pub transport: McpTransport,
    /// Per-request timeout in milliseconds (default 60s).
    pub request_timeout_ms: Option<u64>,
}

/// Supported MCP transports.
#[derive(Debug)]
pub enum McpTransport {
    /// Spawn a local server over stdio.
    Stdio {
        /// Program to spawn.
        command: String,
        /// Program arguments.
        args: Vec<String>,
        /// Extra environment variables for the child.
        env: StrMap<String>,
        /// Start the child from an empty environment (plus `env` and the
        /// `inherit` allowlist) instead of inheriting everything.
        env_clear: bool,
        /// Parent variables allowed through when `env_clear` is set.
        inherit: Vec<String>,
    },
    /// Reach a remote server over HTTP.
    Http {
        /// Endpoint URL.
        url: String,
        /// Headers sent with every request (auth, etc.).
        headers: StrMap<String>,
    },
}

impl McpServerConfig {
    /// How long a request may take, in milliseconds.
    pub fn timeout_ms(&self) -> (r: u64)
        ensures
            r == match self.request_timeout_ms {
                Some(ms) => ms,
                None => DEFAULT_REQUEST_TIMEOUT_MS,
            },
    {
        match self.request_timeout_ms {
            Some(ms) => ms,
            None => DEFAULT_REQUEST_TIMEOUT_MS,
        }
    }
}

/// ToolSpec helper wrapping arbitrary effects for an MCP tool.
pub fn mcp_tool(effects: Effects) -> (r: ToolSpec)
    ensures
        r@ == declared(ADAPTER@, effects@),
{
    ToolSpec::new(ADAPTER).with_effects(effects)
}

/// ToolSpec helper for a batchable read-only MCP tool.
pub fn mcp_read_tool(resources: &[&str]) -> (r: ToolSpec)
    ensures
        r@ == declared(
            ADAPTER@,
            EffectsV {
                reads: slice_set(resources@),
                idempotent: true,
                cacheable: true,
                batchable: true,
                ..no_effects()
            },
        ),
{
    let mut effects = Effects::read_only(resources);
    effects.batchable = true;
    mcp_tool(effects)
}

// ---------------------------------------------------------------------------
// Errors
// ---------------------------------------------------------------------------

/// MCP client errors.
#[derive(Debug, PartialEq, Eq)]
pub enum McpClientError {
    /// Transport-level failure (process, pipe, network).
    Transport(String),
    /// The server violated the protocol.
    Protocol(String),
    /// The server negotiated an unsupported protocol version.
    UnsupportedVersion(String),
    /// JSON-RPC level error from the server.
    Server {
        /// JSON-RPC error code.
        code: i64,
        /// Error message.
        message: String,
    },
    /// The request timed out.
    Timeout(u64),
    /// The tool ran and reported failure (`isError: true`).
    ToolError(String),
}

/// An MCP error as a mathematical value.
pub enum McpErrorV {
    Transport(Seq<char>),
    Protocol(Seq<char>),
    UnsupportedVersion(Seq<char>),
    Server { code: i64, message: Seq<char> },
    Timeout(u64),
    ToolError(Seq<char>),
}

impl View for McpClientError {
    type V = McpErrorV;

    open spec fn view(&self) -> McpErrorV {
        match self {
            McpClientError::Transport(s) => McpErrorV::Transport(s@),
            McpClientError::Protocol(s) => McpErrorV::Protocol(s@),
            McpClientError::UnsupportedVersion(s) => McpErrorV::UnsupportedVersion(s@),
            McpClientError::Server { code, message } => McpErrorV::Server {
                code: *code,
                message: message@,
            },
            McpClientError::Timeout(ms) => McpErrorV::Timeout(*ms),
            McpClientError::ToolError(s) => McpErrorV::ToolError(s@),
        }
    }
}

/// The text of an error.
pub open spec fn mcp_error_text(e: McpErrorV) -> Seq<char> {
    match e {
        McpErrorV::Transport(s) => "mcp transport error: "@ + s,
        McpErrorV::Protocol(s) => "mcp protocol error: "@ + s,
        McpErrorV::UnsupportedVersion(s) => "mcp server negotiated unsupported protocol version '"@
            + s + "'"@,
        McpErrorV::Server { code, message } => "mcp server error "@ + signed_decimal(code as int)
            + ": "@ + message,
        McpErrorV::Timeout(ms) => "mcp request timed out after "@ + decimal(ms as nat) + "ms"@,
        McpErrorV::ToolError(s) => "mcp tool failed: "@ + s,
    }
}

/// The error as a tool reports it.
pub open spec fn mcp_failure(e: McpErrorV) -> ToolErrorV {
    let (code, retryable) = match e {
        McpErrorV::Transport(_) => ("mcp_transport"@, Some(true)),
        McpErrorV::Timeout(_) => ("timeout"@, Some(true)),
        McpErrorV::Protocol(_) => ("mcp_protocol"@, Some(false)),
        McpErrorV::UnsupportedVersion(_) => ("mcp_protocol"@, Some(false)),
        McpErrorV::Server { .. } => ("mcp_server"@, None),
        McpErrorV::ToolError(_) => ("mcp_tool_error"@, None),
    };
    ToolErrorV { message: mcp_error_text(e), code: Some(code), retryable }
}

impl McpClientError {
    /// The text of the error.
    pub fn message(&self) -> (r: String)
        ensures
            r@ == mcp_error_text(self@),
    {
        match self {
            McpClientError::Transport(s) => concat2("mcp transport error: ", s.as_str()),
            McpClientError::Protocol(s) => concat2("mcp protocol error: ", s.as_str()),
            McpClientError::UnsupportedVersion(s) => wrapped(
                "mcp server negotiated unsupported protocol version '",
                s.as_str(),
                "'",
            ),
            McpClientError::Server { code, message } => {
                let mut out = wrapped(
                    "mcp server error ",
                    signed_decimal_text(*code).as_str(),
                    ": ",
                );
                out.push_str(message.as_str());
                out
            },
            McpClientError::Timeout(ms) => wrapped(
                "mcp request timed out after ",
                decimal_text(*ms).as_str(),
                "ms",
            ),
            McpClientError::ToolError(s) => concat2("mcp tool failed: ", s.as_str()),
        }
    }

    /// The error as a tool reports it.
    pub fn tool_error(&self) -> (r: ToolExecutionError)
        ensures
            r@ == mcp_failure(self@),
    {
        let message = self.message();
        let error = ToolExecutionError::new(message.as_str());
        match self {
            McpClientError::Transport(_) => error.with_code("mcp_transport").with_retryable(true),
            McpClientError::Timeout(_) => error.with_code("timeout").with_retryable(true),
            McpClientError::Protocol(_) => error.with_code("mcp_protocol").with_retryable(false),
            McpClientError::UnsupportedVersion(_) => error.with_code(
                "mcp_protocol",
            ).with_retryable(false),
            McpClientError::Server { .. } => error.with_code("mcp_server"),
            McpClientError::ToolError(_) => error.with_code("mcp_tool_error"),
        }
    }
}

// ---------------------------------------------------------------------------
// Requests
// ---------------------------------------------------------------------------

/// A JSON-RPC request without parameters.
pub open spec fn rpc_request(id: u64, method: Seq<char>) -> Json {
    with(
        with(
            with(object(), "jsonrpc"@, Json::Text("2.0"@)),
            "id"@,
            Json::Number(NumberV::PosInt(id)),
        ),
        "method"@,
        Json::Text(method),
    )
}

fn new_request(id: u64, method: &str) -> (r: Value)
    ensures
        r@ == rpc_request(id, method@),
{
    Value::empty_object().with("jsonrpc", Value::text("2.0")).with("id", Value::number(id)).with(
        "method",
        Value::text(method),
    )
}

/// The request that opens a session.
pub fn initialize_request(id: u64) -> (r: Value)
    ensures
        r@ == with(
            rpc_request(id, "initialize"@),
            "params"@,
            with(
                with(
                    with(object(), "protocolVersion"@, Json::Text(PROTOCOL_VERSION@)),
                    "capabilities"@,
                    object(),
                ),
                "clientInfo"@,
                with(
                    with(object(), "name"@, Json::Text("tool-call-compiler"@)),
                    "version"@,
                    Json::Text(PACKAGE_VERSION@),
                ),
            ),
        ),
{
    let info = Value::empty_object().with("name", Value::text("tool-call-compiler")).with(
        "version",
        Value::text(PACKAGE_VERSION),
    );
    let params = Value::empty_object().with("protocolVersion", Value::text(PROTOCOL_VERSION)).with(
        "capabilities",
        Value::empty_object(),
    ).with("clientInfo", info);
    new_request(id, "initialize").with("params", params)
}

/// The notification that ends the opening of a session.
pub fn initialized_notification() -> (r: Value)
    ensures
        r@ == with(
            with(object(), "jsonrpc"@, Json::Text("2.0"@)),
            "method"@,
            Json::Text("notifications/initialized"@),
        ),
{
    Value::empty_object().with("jsonrpc", Value::text("2.0")).with(
        "method",
        Value::text("notifications/initialized"),
    )
}

/// A request that calls a tool.
pub open spec fn call_request(id: u64, name: Seq<char>, arguments: Json) -> Json {
    with(
        rpc_request(id, "tools/call"@),
        "params"@,
        with(with(object(), "name"@, Json::Text(name)), "arguments"@, arguments),
    )
}

/// A request that calls a tool.
pub fn tool_call_request(id: u64, name: &str, arguments: Value) -> (r: Value)
    ensures
        r@ == call_request(id, name@, arguments@),
{
    let params = Value::empty_object().with("name", Value::text(name)).with("arguments", arguments);
    new_request(id, "tools/call").with("params", params)
}

/// A request that lists tools, from the cursor on.
pub fn tools_list_request(id: u64, cursor: Option<&str>) -> (r: Value)
    ensures
        r@ == with(
            rpc_request(id, "tools/list"@),
            "params"@,
            match cursor {
                Some(c) => with(object(), "cursor"@, Json::Text(c@)),
                None => object(),
            },
        ),
{
    let params = match cursor {
        Some(c) => Value::empty_object().with("cursor", Value::text(c)),
        None => Value::empty_object(),
    };
    new_request(id, "tools/list").with("params", params)
}

// ---------------------------------------------------------------------------
// Responses
// ---------------------------------------------------------------------------

/// The text is a dated revision (`YYYY-MM-DD`): ten characters, a dash at the
/// fifth and at the eighth place, digits at the others.
pub open spec fn is_revision(version: Seq<char>) -> bool {
    &&& version.len() == 10
    &&& version[4] == '-'
    &&& version[7] == '-'
    &&& forall|i: int| 0 <= i < 10 && i != 4 && i != 7 ==> is_digit(#[trigger] version[i])
}

/// Whether the text is a dated revision.
pub fn looks_dated(version: &str) -> (r: bool)
    ensures
        r == is_revision(version@),
{
    let chars = chars_of(version);
    if chars.len() != 10 {
        return false;
    }
    let mut i: usize = 0;
    while i < 10
        invariant
            i <= 10,
            chars@ == version@,
            chars@.len() == 10,
            i > 4 ==> chars@[4] == '-',
            i > 7 ==> chars@[7] == '-',
            forall|j: int| 0 <= j < i && j != 4 && j != 7 ==> is_digit(#[trigger] chars@[j]),
        decreases 10 - i,
    {
        let c = chars[i];
        let fits = if i == 4 || i == 7 {
            c == '-'
        } else {
            '0' <= c && c <= '9'
        };
        if !fits {
            assert(!is_revision(version@)) by {
                assert(version@[i as int] == c);
            }
            return false;
        }
        i = i + 1;
    }
    true
}

/// Validates the protocol version a server returned from `initialize`.
///
/// Any dated MCP revision (`YYYY-MM-DD`) is accepted (the tools/call wire
/// shape is stable across revisions), but a value that does not even look
/// like a revision is rejected loudly instead of failing later in obscure
/// ways.
pub fn check_protocol_version(result: &Value) -> (r: Result<(), McpClientError>)
    ensures
        match text_field(result@, "protocolVersion"@) {
            None => r is Err && r->Err_0@ == McpErrorV::Protocol(
                "initialize result missing protocolVersion"@,
            ),
            Some(v) => if is_revision(v) {
                r is Ok
            } else {
                r is Err && r->Err_0@ == McpErrorV::UnsupportedVersion(v)
            },
        },
{
    match result.text_at("protocolVersion") {
        Some(version) => if looks_dated(version) {
            Ok(())
        } else {
            Err(McpClientError::UnsupportedVersion(version.to_owned()))
        },
        None => Err(
            McpClientError::Protocol("initialize result missing protocolVersion".to_owned()),
        ),
    }
}

/// What a JSON-RPC response says.
pub open spec fn response_of(message: Json) -> Result<Json, McpErrorV> {
    match json_field(message, "error"@) {
        Some(error) => Err(
            McpErrorV::Server {
                code: match json_field(error, "code"@) {
                    Some(c) => match small_integer(c) {
                        Some(n) => n,
                        None => (-32000) as i64,
                    },
                    None => (-32000) as i64,
                },
                message: match text_field(error, "message"@) {
                    Some(t) => t,
                    None => "unknown MCP error"@,
                },
            },
        ),
        None => match json_field(message, "result"@) {
            Some(result) => Ok(result),
            None => Err(McpErrorV::Protocol("response missing result"@)),
        },
    }
}

/// What a JSON-RPC response says.
pub fn parse_response(message: &Value) -> (r: Result<Value, McpClientError>)
    ensures
        match (r, response_of(message@)) {
            (Ok(v), Ok(m)) => v@ == m,
            (Err(e), Err(m)) => e@ == m,
            _ => false,
        },
{
    if let Some(error) = message.get("error") {
        let mut code: i64 = -32000;
        if let Some(c) = error.get("code") {
            if let Some(n) = c.as_i64() {
                code = n;
            }
        }
        let text = match error.text_at("message") {
            Some(t) => t,
            None => "unknown MCP error",
        };
        return Err(McpClientError::Server { code, message: text.to_owned() });
    }
    match message.get("result") {
        Some(result) => Ok(result.clone()),
        None => Err(McpClientError::Protocol("response missing result".to_owned())),
    }
}

/// The messages among the first `k` lines of an event stream.
pub open spec fn data_lines(lines: Seq<Seq<char>>, k: int) -> Seq<Seq<char>>
    decreases k,
{
    if k <= 0 {
        Seq::empty()
    } else if has_prefix(lines[k - 1], "data:"@) {
        data_lines(lines, k - 1).push(trimmed(lines[k - 1].skip(5)))
    } else {
        data_lines(lines, k - 1)
    }
}

/// Whether the content type of a response is that of an event stream.
pub fn is_event_stream(content_type: &str) -> (r: bool)
    ensures
        r == has_part(content_type@, "text/event-stream"@),
{
    contains_text(content_type, "text/event-stream")
}

/// The messages that an event stream carries, as text.
pub fn sse_messages(body: &str) -> (r: Vec<String>)
    ensures
        texts_view(r@) == data_lines(lines_of(body@), lines_of(body@).len() as int),
{
    let lines = split_lines(body);
    let ghost ls = texts_view(lines@);
    let mut out: Vec<String> = Vec::new();
    let mut i: usize = 0;
    assert(texts_view(out@) =~= Seq::empty());
    while i < lines.len()
        invariant
            i <= lines@.len(),
            ls == texts_view(lines@),
            texts_view(out@) == data_lines(ls, i as int),
        decreases lines.len() - i,
    {
        assert(ls[i as int] == lines@[i as int]@);
        if starts_with_text(lines[i].as_str(), "data:") {
            let chars = chars_of(lines[i].as_str());
            proof {
                reveal_strlit("data:");
            }
            let data = text_of(&chars, 5, chars.len());
            assert(data@ =~= ls[i as int].skip(5));
            let ghost before = texts_view(out@);
            let message = trim_text(data.as_str());
            let ghost m = message@;
            out.push(message);
            assert(texts_view(out@) =~= before.push(m));
        }
        i = i + 1;
    }
    out
}

/// The first message, from position `from`, that answers the request.
pub open spec fn answer_in(messages: Seq<Option<Json>>, id: u64, from: int) -> Option<Json>
    decreases messages.len() - from,
{
    if 0 <= from < messages.len() {
        match messages[from] {
            Some(m) => if number_field(m, "id"@) == Some(id) {
                Some(m)
            } else {
                answer_in(messages, id, from + 1)
            },
            None => answer_in(messages, id, from + 1),
        }
    } else {
        None
    }
}

/// The message of an event stream that answers the request. What is no JSON
/// stands as `None` in the list.
pub fn sse_response_for(messages: &Vec<Option<Value>>, id: u64) -> (r: Result<Value, McpClientError>)
    ensures
        match (r, answer_in(crate::runtime::calls::opt_values(messages@), id, 0)) {
            (Ok(v), Some(m)) => v@ == m,
            (Err(e), None) => e@ == McpErrorV::Protocol(
                "event stream carried no response for the request"@,
            ),
            _ => false,
        },
{
    let ghost ms = crate::runtime::calls::opt_values(messages@);
    let mut i: usize = 0;
    while i < messages.len()
        invariant
            i <= messages@.len(),
            ms == crate::runtime::calls::opt_values(messages@),
            answer_in(ms, id, 0) == answer_in(ms, id, i as int),
        decreases messages.len() - i,
    {
        assert(ms[i as int] == opt_view(messages@[i as int]));
        if let Some(message) = &messages[i] {
            if let Some(own) = message.number_at("id") {
                if own == id {
                    return Ok(message.clone());
                }
            }
        }
        i = i + 1;
    }
    Err(
        McpClientError::Protocol(
            "event stream carried no response for the request".to_owned(),
        ),
    )
}

// ---------------------------------------------------------------------------
// Tools
// ---------------------------------------------------------------------------

/// Metadata of one server tool, from `tools/list`.
#[derive(Debug)]
pub struct McpToolInfo {
    /// Tool name.
    pub name: String,
    /// Tool description.
    pub description: Option<String>,
    /// Input JSON Schema.
    pub input_schema: Option<Value>,
    /// MCP tool annotations (`readOnlyHint`, `idempotentHint`, ...).
    pub annotations: Value,
}

/// Tool metadata as a mathematical value.
#[verifier::ext_equal]
pub struct ToolInfoV {
    pub name: Seq<char>,
    pub description: Option<Seq<char>>,
    pub input_schema: Option<Json>,
    pub annotations: Json,
}

impl View for McpToolInfo {
    type V = ToolInfoV;

    open spec fn view(&self) -> ToolInfoV {
        ToolInfoV {
            name: self.name@,
            description: opt_view(self.description),
            input_schema: opt_view(self.input_schema),
            annotations: self.annotations@,
        }
    }
}

/// What an entry of a tool list says.
pub open spec fn tool_info(j: Json) -> ToolInfoV {
    ToolInfoV {
        name: match text_field(j, "name"@) {
            Some(t) => t,
            None => Seq::empty(),
        },
        description: text_field(j, "description"@),
        input_schema: json_field(j, "inputSchema"@),
        annotations: match json_field(j, "annotations"@) {
            Some(a) => a,
            None => Json::Null,
        },
    }
}

fn parse_tool(tool: &Value) -> (r: McpToolInfo)
    ensures
        r@ == tool_info(tool@),
{
    let name = match tool.text_at("name") {
        Some(t) => t.to_owned(),
        None => String::new(),
    };
    let description = match tool.text_at("description") {
        Some(t) => Some(t.to_owned()),
        None => None,
    };
    let input_schema = match tool.get("inputSchema") {
        Some(s) => Some(s.clone()),
        None => None,
    };
    let annotations = match tool.get("annotations") {
        Some(a) => a.clone(),
        None => Value::Null,
    };
    let r = McpToolInfo { name, description, input_schema, annotations };
    assert(r@.name =~= tool_info(tool@).name);
    r
}

/// The tools that one page lists.
pub open spec fn listed_tools(result: Json) -> Seq<ToolInfoV> {
    match list_field(result, "tools"@) {
        Some(items) => Seq::new(items.len(), |i: int| tool_info(items[i])),
        None => Seq::empty(),
    }
}

/// The tools that one page of a list holds, and where the next page starts.
pub fn parse_tools_list(result: &Value) -> (r: (Vec<McpToolInfo>, Option<String>))
    ensures
        views(r.0@) == listed_tools(result@),
        opt_view(r.1) == text_field(result@, "nextCursor"@),
{
    let mut out: Vec<McpToolInfo> = Vec::new();
    if let Some(items) = result.list_at("tools") {
        let ghost js = values_view(items@);
        let mut i: usize = 0;
        while i < items.len()
            invariant
                i <= items@.len(),
                js == values_view(items@),
                out@.len() == i,
                forall|j: int| 0 <= j < i ==> (#[trigger] out@[j])@ == tool_info(js[j]),
            decreases items.len() - i,
        {
            assert(js[i as int] == items@[i as int]@);
            out.push(parse_tool(&items[i]));
            i = i + 1;
        }
        assert(views(out@) =~= Seq::new(js.len(), |i: int| tool_info(js[i])));
    } else {
        assert(views(out@) =~= Seq::empty());
    }
    let cursor = match result.text_at("nextCursor") {
        Some(t) => Some(t.to_owned()),
        None => None,
    };
    (out, cursor)
}

/// The texts among the first `k` parts of a content list.
pub open spec fn content_texts(items: Seq<Json>, k: int) -> Seq<Seq<char>>
    decreases k,
{
    if k <= 0 {
        Seq::empty()
    } else {
        let before = content_texts(items, k - 1);
        match text_field(items[k - 1], "text"@) {
            Some(t) => before.push(t),
            None => before,
        }
    }
}

/// What a failed tool reports.
pub open spec fn failure_text(result: Json) -> Seq<char> {
    let shown = match list_field(result, "content"@) {
        Some(items) => join_with(content_texts(items, items.len() as int), "\n"@),
        None => Seq::empty(),
    };
    if shown.len() == 0 {
        "tool reported an error"@
    } else {
        shown
    }
}

/// The result of a tool call as the tool's output.
pub open spec fn normalized(result: Json) -> Result<Json, McpErrorV> {
    if is_set(result, "isError"@) {
        Err(McpErrorV::ToolError(failure_text(result)))
    } else {
        match json_field(result, "structuredContent"@) {
            Some(v) => Ok(v),
            None => Ok(result),
        }
    }
}

fn failure_message(result: &Value) -> (r: String)
    ensures
        r@ == failure_text(result@),
{
    let mut texts: Vec<String> = Vec::new();
    assert(texts_view(texts@) =~= Seq::empty());
    if let Some(items) = result.list_at("content") {
        let ghost js = values_view(items@);
        let mut i: usize = 0;
        while i < items.len()
            invariant
                i <= items@.len(),
                js == values_view(items@),
                texts_view(texts@) == content_texts(js, i as int),
            decreases items.len() - i,
        {
            assert(js[i as int] == items@[i as int]@);
            if let Some(t) = items[i].text_at("text") {
                let ghost before = texts_view(texts@);
                texts.push(t.to_owned());
                assert(texts_view(texts@) =~= before.push(t@));
            }
            i = i + 1;
        }
    }
    let shown = join_texts(&texts, "\n");
    if chars_of(shown.as_str()).len() == 0 {
        "tool reported an error".to_owned()
    } else {
        shown
    }
}

/// Unwraps a `tools/call` result: tool-level errors (`isError: true`) become
/// [`McpClientError::ToolError`]; otherwise `structuredContent` wins over the
/// raw result.
pub fn normalize_tool_result(result: Value) -> (r: Result<Value, McpClientError>)
    ensures
        match (r, normalized(result@)) {
            (Ok(v), Ok(m)) => v@ == m,
            (Err(e), Err(m)) => e@ == m,
            _ => false,
        },
{
    if result.is_set("isError") {
        return Err(McpClientError::ToolError(failure_message(&result)));
    }
    let structured = match result.get("structuredContent") {
        Some(v) => Some(v.clone()),
        None => None,
    };
    match structured {
        Some(v) => Ok(v),
        None => Ok(result),
    }
}

/// Derives [`Effects`] from MCP tool annotations, scoped to one server.
pub open spec fn annotated_effects(server: Seq<char>, annotations: Json) -> EffectsV {
    let resource = "mcp:"@ + server;
    let idempotent = is_set(annotations, "idempotentHint"@);
    if is_set(annotations, "readOnlyHint"@) {
        EffectsV {
            reads: set![resource],
            idempotent,
            cacheable: idempotent,
            ..no_effects()
        }
    } else {
        EffectsV { writes: set![resource], idempotent, ..no_effects() }
    }
}

/// Derives [`Effects`] from MCP tool annotations, scoped to one server.
///
/// `readOnlyHint: true` becomes a read of `mcp:<server>`; anything else is a
/// conservative write of the same resource. `idempotentHint` maps to
/// `idempotent`. Reads are cacheable only when the annotation also marks the
/// tool idempotent.
pub fn effects_from_annotations(server: &str, annotations: &Value) -> (r: Effects)
    ensures
        r@ == annotated_effects(server@, annotations@),
{
    let read_only = annotations.is_set("readOnlyHint");
    let idempotent = annotations.is_set("idempotentHint");
    let resource = concat2("mcp:", server);
    let ghost name = resource@;
    let mut effects = Effects::default();
    if read_only {
        effects.reads.insert(resource);
        effects.idempotent = idempotent;
        effects.cacheable = idempotent;
        assert(effects.reads@ =~= set![name]);
    } else {
        effects.writes.insert(resource);
        effects.idempotent = idempotent;
        assert(effects.writes@ =~= set![name]);
    }
    effects
}

/// One tool's capabilities derived from MCP metadata; the caller registers
/// these on its runtime registry (adapter-scoped).
#[derive(Debug)]
pub struct DerivedCapability {
    /// Tool name.
    pub tool: String,
    /// Effects derived from the tool's annotations.
    pub effects: Effects,
    /// Tool input schema, when the server declares one.
    pub input_schema: Option<Value>,
    /// Tool description.
    pub description: Option<String>,
}

/// A derived capability as a mathematical value.
#[verifier::ext_equal]
pub struct DerivedV {
    pub tool: Seq<char>,
    pub effects: EffectsV,
    pub input_schema: Option<Json>,
    pub description: Option<Seq<char>>,
}

impl View for DerivedCapability {
    type V = DerivedV;

    open spec fn view(&self) -> DerivedV {
        DerivedV {
            tool: self.tool@,
            effects: self.effects@,
            input_schema: opt_view(self.input_schema),
            description: opt_view(self.description),
        }
    }
}

/// The capability that the metadata of a tool gives.
pub open spec fn derived(server: Seq<char>, info: ToolInfoV) -> DerivedV {
    DerivedV {
        tool: info.name,
        effects: annotated_effects(server, info.annotations),
        input_schema: match info.input_schema {
            Some(Json::Null) => None,
            other => other,
        },
        description: info.description,
    }
}

/// Derives per-tool capabilities from MCP annotations (effects) and input
/// schemas. Hosts register the result on their registry, typically
/// adapter-scoped.
pub fn derive_capabilities(server: &str, tools: &Vec<McpToolInfo>) -> (r: Vec<DerivedCapability>)
    ensures
        views(r@) == Seq::new(tools@.len(), |i: int| derived(server@, tools@[i]@)),
{
    let mut out: Vec<DerivedCapability> = Vec::new();
    let mut i: usize = 0;
    while i < tools.len()
        invariant
            i <= tools@.len(),
            out@.len() == i,
            forall|j: int| 0 <= j < i ==> (#[trigger] out@[j])@ == derived(server@, tools@[j]@),
        decreases tools.len() - i,
    {
        let tool = &tools[i];
        let input_schema = match &tool.input_schema {
            Some(Value::Null) => None,
            Some(schema) => Some(schema.clone()),
            None => None,
        };
        let one = DerivedCapability {
            tool: tool.name.clone(),
            effects: effects_from_annotations(server, &tool.annotations),
            input_schema,
            description: match &tool.description {
                Some(d) => Some(d.clone()),
                None => None,
            },
        };
        assert(one@ =~= derived(server@, tool@));
        out.push(one);
        i = i + 1;
    }
    assert(views(out@) =~= Seq::new(tools@.len(), |i: int| derived(server@, tools@[i]@)));
    out
}

/// The outputs of the first `k` results of pipelined calls, or the first
/// error.
pub open spec fn batch_outputs(results: Seq<BatchOutputV>, k: int) -> Result<
    Seq<BatchOutputV>,
    ToolErrorV,
>
    decreases k,
{
    if k <= 0 {
        Ok(Seq::empty())
    } else {
        match batch_outputs(results, k - 1) {
            Err(e) => Err(e),
            Ok(before) => match normalized(results[k - 1].output) {
                Ok(v) => Ok(before.push(BatchOutputV { node: results[k - 1].node, output: v })),
                Err(e) => Err(mcp_failure(e)),
            },
        }
    }
}

proof fn lemma_batch_error(results: Seq<BatchOutputV>, k: int, n: int)
    requires
        0 <= k <= n,
        batch_outputs(results, k) is Err,
    ensures
        batch_outputs(results, n) == batch_outputs(results, k),
    decreases n,
{
    if k < n {
        lemma_batch_error(results, k, n - 1);
    }
}

/// The outputs of pipelined calls, from the raw `tools/call` result of each
/// node.
pub fn normalize_batch(results: &Vec<BatchOutput>) -> (r: Result<
    Vec<BatchOutput>,
    ToolExecutionError,
>)
    ensures
        match (r, batch_outputs(views(results@), results@.len() as int)) {
            (Ok(v), Ok(m)) => views(v@) == m,
            (Err(e), Err(m)) => e@ == m,
            _ => false,
        },
{
    let ghost rs = views(results@);
    let mut out: Vec<BatchOutput> = Vec::new();
    let mut i: usize = 0;
    assert(views(out@) =~= Seq::empty());
    while i < results.len()
        invariant
            i <= results@.len(),
            rs == views(results@),
            batch_outputs(rs, i as int) == Ok::<Seq<BatchOutputV>, ToolErrorV>(views(out@)),
        decreases results.len() - i,
    {
        assert(rs[i as int] == results@[i as int]@);
        match normalize_tool_result(results[i].output.clone()) {
            Ok(output) => {
                let ghost before = views(out@);
                let one = BatchOutput { node: results[i].node.clone(), output };
                out.push(one);
                assert(views(out@) =~= before.push(one@));
            },
            Err(e) => {
                proof {
                    assert(batch_outputs(rs, i + 1) is Err);
                    lemma_batch_error(rs, i + 1, rs.len() as int);
                }
                return Err(e.tool_error());
            },
        }
        i = i + 1;
    }
    Ok(out)
}

} // verus!
