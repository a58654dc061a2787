//! Composite run results, traces, metrics, and result shaping.

use vstd::prelude::*;
use vstd::utf8::encode_utf8;

use crate::adapters::api::ToolExecutionError;
use crate::canonical::canonical_json_string;
use crate::json::{Json, NumberV, Value};
use crate::optimizer::report::OptimizationReport;
use crate::ordered::StrMap;
use crate::scan::contains_text;
use crate::text::{byte_len, take_chars};

verus! {

use crate::canonical::canonical;
use crate::json::{array_smaller, entries_view, object_smaller, values_view};
use crate::ordered::{opt_view, sorted_pairs};
use crate::scan::has_part;
use crate::text::{first_chars, lex_less, texts_view};

broadcast use {crate::json::group_json_views, crate::ordered::pairs_decrease};

/// Overall verdict of a run.
#[derive(Clone, Copy, Debug, PartialEq, Eq, Structural)]
pub enum RunStatus {
    /// Every scheduled node finished (skips by `when` still count as success).
    Success,
    /// At least one node failed.
    Failed,
    /// The run was cancelled before completion.
    Cancelled,
}

/// Why a node did not execute.
#[derive(Clone, Copy, Debug, PartialEq, Eq, Structural)]
pub enum SkipReason {
    /// The node's `when` condition evaluated false.
    Condition,
    /// A node this one references failed or was skipped.
    FailedDependency,
    /// The run was cancelled before the node could start.
    Cancelled,
    /// Fail-fast stopped scheduling after another node failed.
    NotRun,
}

impl View for SkipReason {
    type V = SkipReason;

    open spec fn view(&self) -> SkipReason {
        *self
    }
}

/// Aggregate metrics of one run.
#[derive(Clone, Copy, Debug, PartialEq, Eq, Structural)]
pub struct RunMetrics {
    /// Wall-clock duration of the whole run, in milliseconds.
    pub wall_ms: u64,
    /// Nodes in the optimized plan.
    pub nodes_total: usize,
    /// Nodes that finished successfully (including cache hits).
    pub nodes_succeeded: usize,
    /// Nodes that failed.
    pub nodes_failed: usize,
    /// Nodes skipped (any [`SkipReason`]).
    pub nodes_skipped: usize,
    /// Cache hits.
    pub cache_hits: usize,
    /// Batch dispatches issued.
    pub batch_dispatches: usize,
    /// Retry attempts performed beyond first calls.
    pub retries: usize,
}

/// Metrics in which nothing happened yet.
pub open spec fn no_metrics() -> RunMetrics {
    RunMetrics {
        wall_ms: 0,
        nodes_total: 0,
        nodes_succeeded: 0,
        nodes_failed: 0,
        nodes_skipped: 0,
        cache_hits: 0,
        batch_dispatches: 0,
        retries: 0,
    }
}

impl Default for RunMetrics {
    fn default() -> (r: Self)
        ensures
            r == no_metrics(),
    {
        RunMetrics {
            wall_ms: 0,
            nodes_total: 0,
            nodes_succeeded: 0,
            nodes_failed: 0,
            nodes_skipped: 0,
            cache_hits: 0,
            batch_dispatches: 0,
            retries: 0,
        }
    }
}

/// How much of the run detail the result should carry.
#[derive(Clone, Copy, Debug, PartialEq, Eq, Structural)]
pub enum ResultMode {
    /// Outputs, node outputs, trace, report: everything.
    Full,
    /// Only declared outputs, errors, skips, metrics, and the optimization
    /// report; node outputs and trace are dropped.
    Compact,
}

impl Default for ResultMode {
    fn default() -> (r: Self)
        ensures
            r == ResultMode::Full,
    {
        ResultMode::Full
    }
}

/// Kind of a trace event; failure details live in [`TraceEvent::error`].
#[derive(Clone, Copy, Debug, PartialEq, Eq, Structural)]
pub enum TraceStatus {
    /// The node was dispatched.
    Started,
    /// The node finished successfully.
    Finished,
    /// The node's output came from the cache.
    CacheHit,
    /// The node failed.
    Failed,
    /// A failed attempt is being retried.
    Retried,
    /// The node was skipped.
    Skipped,
}

impl TraceStatus {
    /// The name under which the status is reported.
    pub open spec fn label(self) -> Seq<char> {
        match self {
            TraceStatus::Started => "started"@,
            TraceStatus::Finished => "finished"@,
            TraceStatus::CacheHit => "cache_hit"@,
            TraceStatus::Failed => "failed"@,
            TraceStatus::Retried => "retried"@,
            TraceStatus::Skipped => "skipped"@,
        }
    }

    /// The name under which the status is reported.
    pub fn name(&self) -> (r: &'static str)
        ensures
            r@ == self.label(),
    {
        match self {
            TraceStatus::Started => "started",
            TraceStatus::Finished => "finished",
            TraceStatus::CacheHit => "cache_hit",
            TraceStatus::Failed => "failed",
            TraceStatus::Retried => "retried",
            TraceStatus::Skipped => "skipped",
        }
    }
}

/// One execution trace event.
#[derive(Debug, PartialEq, Eq)]
pub struct TraceEvent {
    /// Node the event belongs to.
    pub node: String,
    /// Tool the node calls.
    pub tool: String,
    /// Event kind.
    pub status: TraceStatus,
    /// Milliseconds since the Unix epoch when the event was recorded.
    pub at_ms: u64,
    /// Duration of the finished/failed call, when applicable.
    pub duration_ms: Option<u64>,
    /// Error message for failed/retried events.
    pub error: Option<String>,
    /// Identifier shared by every node dispatched in the same batch call.
    /// A batch event's `duration_ms` is the wall time of the whole dispatch,
    /// so per-node durations within one `batch_id` overlap rather than add.
    pub batch_id: Option<u64>,
    /// Attempt number for retried events (1 is the first call).
    pub attempt: Option<u8>,
}

/// A trace event as a mathematical value.
pub struct EventV {
    pub node: Seq<char>,
    pub tool: Seq<char>,
    pub status: TraceStatus,
    pub at_ms: u64,
    pub duration_ms: Option<u64>,
    pub error: Option<Seq<char>>,
    pub batch_id: Option<u64>,
    pub attempt: Option<u8>,
}

impl View for TraceEvent {
    type V = EventV;

    open spec fn view(&self) -> EventV {
        EventV {
            node: self.node@,
            tool: self.tool@,
            status: self.status,
            at_ms: self.at_ms,
            duration_ms: self.duration_ms,
            error: opt_view(self.error),
            batch_id: self.batch_id,
            attempt: self.attempt,
        }
    }
}

/// An event that says only what happened to which node when.
pub open spec fn event(node: Seq<char>, tool: Seq<char>, status: TraceStatus, at_ms: u64) -> EventV {
    EventV {
        node,
        tool,
        status,
        at_ms,
        duration_ms: None,
        error: None,
        batch_id: None,
        attempt: None,
    }
}

impl TraceEvent {
    /// An event of the node at the time.
    pub fn new(node: &str, tool: &str, status: TraceStatus, at_ms: u64) -> (r: Self)
        ensures
            r@ == event(node@, tool@, status, at_ms),
    {
        TraceEvent {
            node: node.to_owned(),
            tool: tool.to_owned(),
            status,
            at_ms,
            duration_ms: None,
            error: None,
            batch_id: None,
            attempt: None,
        }
    }

    /// Adds how long the call took.
    pub fn with_duration(self, duration_ms: u64) -> (r: Self)
        ensures
            r@ == (EventV { duration_ms: Some(duration_ms), ..self@ }),
    {
        let mut event = self;
        event.duration_ms = Some(duration_ms);
        event
    }

    /// Adds the message of the error.
    pub fn with_error(self, error: &ToolExecutionError) -> (r: Self)
        ensures
            r@ == (EventV { error: Some(error@.message), ..self@ }),
    {
        let mut event = self;
        event.error = Some(error.message.clone());
        event
    }

    /// Adds the batch that the call was part of.
    pub fn with_batch(self, batch_id: Option<u64>) -> (r: Self)
        ensures
            r@ == (EventV { batch_id, ..self@ }),
    {
        let mut event = self;
        event.batch_id = batch_id;
        event
    }

    /// Adds the number of the attempt.
    pub fn with_attempt(self, attempt: u8) -> (r: Self)
        ensures
            r@ == (EventV { attempt: Some(attempt), ..self@ }),
    {
        let mut event = self;
        event.attempt = Some(attempt);
        event
    }
}

impl Clone for TraceEvent {
    fn clone(&self) -> (r: Self)
        ensures
            r@ == self@,
    {
        TraceEvent {
            node: self.node.clone(),
            tool: self.tool.clone(),
            status: self.status,
            at_ms: self.at_ms,
            duration_ms: self.duration_ms,
            error: match &self.error {
                Some(e) => Some(e.clone()),
                None => None,
            },
            batch_id: self.batch_id,
            attempt: self.attempt,
        }
    }
}

/// The composite feedback of one compiled run.
///
/// A tool-level failure does **not** discard the run: everything that
/// finished stays in `node_outputs`, the failure lands in `errors`, nodes
/// that never ran land in `skipped`, and `status` summarizes the verdict.
pub struct RunResult {
    /// Overall verdict of the run.
    pub status: RunStatus,
    /// Declared plan outputs that could be resolved.
    pub outputs: StrMap<Value>,
    /// Raw output of every executed node (empty in compact mode).
    pub node_outputs: StrMap<Value>,
    /// Tool-level failures by node.
    pub errors: StrMap<ToolExecutionError>,
    /// Nodes that did not execute, with the reason.
    pub skipped: StrMap<SkipReason>,
    /// Execution trace (empty in compact mode).
    pub trace: Vec<TraceEvent>,
    /// What the optimizer did to the plan.
    pub optimization: OptimizationReport,
    /// Aggregate execution metrics.
    pub metrics: RunMetrics,
}

// ---------------------------------------------------------------------------
// Redaction
// ---------------------------------------------------------------------------

/// The text in lower case.
pub uninterp spec fn lowercased(s: Seq<char>) -> Seq<char>;

/// Calls `str::to_lowercase` of the standard library. Trusted: the result
/// depends on the text alone and is named [`lowercased`].
#[verifier::external_body]
pub(crate) fn to_lowercase(s: &str) -> (r: String)
    ensures
        r@ == lowercased(s@),
{
    s.to_lowercase()
}

/// Redacts sensitive material from result payloads before they leave the
/// runtime. Applied at result assembly; reference resolution always sees raw
/// values.
pub trait Redactor {
    /// Returns the value to expose for `node`'s output.
    fn redact_output(&self, node: &str, output: &Value) -> (r: Value);
}

/// [`Redactor`] that masks configured key names (case-insensitive)
/// recursively in objects.
#[derive(Debug)]
pub struct KeyRedactor {
    keys: Vec<String>,
    replacement: String,
}

/// What masked values are replaced by.
pub const REPLACEMENT: &'static str = "[redacted]";

/// One of the needles stands in the lower-case key.
pub open spec fn is_secret(lowered: Seq<char>, needles: Seq<Seq<char>>) -> bool {
    exists|i: int| 0 <= i < needles.len() && has_part(lowered, #[trigger] needles[i])
}

/// A document in which the value of every key that names a secret is masked.
pub open spec fn redacted(j: Json, needles: Seq<Seq<char>>) -> Json
    decreases j,
{
    match j {
        Json::Object(entries) => Json::Object(
            Seq::new(
                entries.len(),
                |i: int|
                    (
                        entries[i].0,
                        if is_secret(lowercased(entries[i].0), needles) {
                            Json::Text(REPLACEMENT@)
                        } else if 0 <= i < entries.len() {
                            redacted(entries[i].1, needles)
                        } else {
                            Json::Null
                        },
                    ),
            ),
        ),
        Json::List(items) => Json::List(
            Seq::new(
                items.len(),
                |i: int|
                    if 0 <= i < items.len() {
                        redacted(items[i], needles)
                    } else {
                        Json::Null
                    },
            ),
        ),
        _ => j,
    }
}

/// The texts in lower case.
pub open spec fn all_lowercased(keys: Seq<Seq<char>>) -> Seq<Seq<char>> {
    Seq::new(keys.len(), |i: int| lowercased(keys[i]))
}

/// Whether one of the needles stands in the lower-case key.
pub fn names_secret(lowered: &str, needles: &Vec<String>) -> (r: bool)
    ensures
        r == is_secret(lowered@, texts_view(needles@)),
{
    let mut i: usize = 0;
    while i < needles.len()
        invariant
            i <= needles@.len(),
            forall|j: int| 0 <= j < i ==> !has_part(lowered@, #[trigger] texts_view(needles@)[j]),
        decreases needles.len() - i,
    {
        assert(texts_view(needles@)[i as int] == needles@[i as int]@);
        if contains_text(lowered, needles[i].as_str()) {
            return true;
        }
        i = i + 1;
    }
    false
}

/// The key names that commonly hold secrets.
pub open spec fn secret_keys() -> Seq<Seq<char>> {
    seq![
        "token"@,
        "password"@,
        "secret"@,
        "authorization"@,
        "api_key"@,
        "apikey"@,
        "access_key"@,
    ]
}

impl KeyRedactor {
    /// The parts of a key, in lower case, that make it name a secret.
    pub closed spec fn needles(&self) -> Seq<Seq<char>> {
        texts_view(self.keys@)
    }

    #[verifier::type_invariant]
    spec fn wf(&self) -> bool {
        self.replacement@ == REPLACEMENT@
    }

    /// Masks the given key names with `"[redacted]"`.
    pub fn new(keys: &[&str]) -> (r: Self)
        ensures
            r.needles() == all_lowercased(Seq::new(keys@.len(), |i: int| keys@[i]@)),
    {
        let mut lowered: Vec<String> = Vec::new();
        let mut i: usize = 0;
        while i < keys.len()
            invariant
                i <= keys@.len(),
                lowered@.len() == i,
                forall|j: int| 0 <= j < i ==> (#[trigger] lowered@[j])@ == lowercased(keys@[j]@),
            decreases keys.len() - i,
        {
            lowered.push(to_lowercase(keys[i]));
            i = i + 1;
        }
        let r = KeyRedactor { keys: lowered, replacement: REPLACEMENT.to_owned() };
        assert(r.needles() =~= all_lowercased(Seq::new(keys@.len(), |i: int| keys@[i]@)));
        r
    }

    /// Common secret-bearing key names.
    pub fn default_secret_keys() -> (r: Self)
        ensures
            r.needles() == all_lowercased(secret_keys()),
    {
        let keys = [
            "token",
            "password",
            "secret",
            "authorization",
            "api_key",
            "apikey",
            "access_key",
        ];
        let r = KeyRedactor::new(&keys);
        assert(Seq::new(keys@.len(), |i: int| keys@[i]@) =~= secret_keys());
        r
    }

    /// A copy of the value in which every secret is masked.
    pub fn redact_value(&self, value: &Value) -> (r: Value)
        ensures
            r@ == redacted(value@, self.needles()),
        decreases value,
    {
        proof {
            use_type_invariant(self);
        }
        let ghost needles = self.needles();
        match value {
            Value::Object(map) => {
                let ghost entries = entries_view(*map);
                map.prove_sorted();
                let mut out: StrMap<Value> = StrMap::new();
                let mut i: usize = 0;
                while i < map.len()
                    invariant
                        i <= map.pairs().len(),
                        *value == Value::Object(*map),
                        entries == entries_view(*map),
                        needles == self.needles(),
                        self.replacement@ == REPLACEMENT@,
                        sorted_pairs(map.pairs()),
                        out.pairs().len() == i,
                        forall|j: int|
                            0 <= j < i ==> (#[trigger] out.pairs()[j]).0 == map.pairs()[j].0
                                && out.pairs()[j].1@ == if is_secret(
                                lowercased(entries[j].0),
                                needles,
                            ) {
                                Json::Text(REPLACEMENT@)
                            } else {
                                redacted(entries[j].1, needles)
                            },
                    decreases map.pairs().len() - i,
                {
                    proof {
                        object_smaller(*value, i as int);
                    }
                    let key = map.key_at(i).to_owned();
                    let item = if names_secret(to_lowercase(key.as_str()).as_str(), &self.keys) {
                        Value::String(self.replacement.clone())
                    } else {
                        self.redact_value(map.value_at(i))
                    };
                    assert forall|j: int| 0 <= j < out.pairs().len() implies lex_less(
                        #[trigger] out.pairs()[j].0,
                        key@,
                    ) by {
                        assert(lex_less(map.pairs()[j].0, map.pairs()[i as int].0));
                    }
                    out.push(key, item);
                    i = i + 1;
                }
                proof {
                    let want = redacted(value@, needles);
                    assert(want is Object);
                    assert(entries_view(out) =~= want->Object_0);
                }
                Value::Object(out)
            },
            Value::Array(items) => {
                let ghost docs = values_view(items@);
                let mut out: Vec<Value> = Vec::new();
                let mut i: usize = 0;
                while i < items.len()
                    invariant
                        i <= items@.len(),
                        *value == Value::Array(*items),
                        docs == values_view(items@),
                        needles == self.needles(),
                        out@.len() == i,
                        forall|j: int|
                            0 <= j < i ==> (#[trigger] out@[j])@ == redacted(docs[j], needles),
                    decreases items.len() - i,
                {
                    proof {
                        array_smaller(*value, i as int);
                    }
                    out.push(self.redact_value(&items[i]));
                    i = i + 1;
                }
                proof {
                    let want = redacted(value@, needles);
                    assert(want is List);
                    assert(values_view(out@) =~= want->List_0);
                }
                Value::Array(out)
            },
            _ => value.clone(),
        }
    }
}

impl Redactor for KeyRedactor {
    fn redact_output(&self, node: &str, output: &Value) -> (r: Value)
        ensures
            r@ == redacted(output@, self.needles()),
    {
        self.redact_value(output)
    }
}

/// No key of a redacted document that names a secret shows its value.
pub open spec fn shows_no_secret(j: Json, needles: Seq<Seq<char>>) -> bool
    decreases j,
{
    match j {
        Json::Object(entries) => forall|i: int|
            0 <= i < entries.len() ==> (is_secret(lowercased((#[trigger] entries[i]).0), needles)
                ==> entries[i].1 == Json::Text(REPLACEMENT@)) && shows_no_secret(
                entries[i].1,
                needles,
            ),
        Json::List(items) => forall|i: int|
            0 <= i < items.len() ==> shows_no_secret(#[trigger] items[i], needles),
        _ => true,
    }
}

/// Redaction masks every secret, at any depth.
pub proof fn redaction_hides_secrets(j: Json, needles: Seq<Seq<char>>)
    ensures
        shows_no_secret(redacted(j, needles), needles),
    decreases j,
{
    match j {
        Json::Object(entries) => {
            let out = redacted(j, needles)->Object_0;
            assert forall|i: int| 0 <= i < out.len() implies (is_secret(
                lowercased((#[trigger] out[i]).0),
                needles,
            ) ==> out[i].1 == Json::Text(REPLACEMENT@)) && shows_no_secret(out[i].1, needles) by {
                if !is_secret(lowercased(entries[i].0), needles) {
                    redaction_hides_secrets(entries[i].1, needles);
                }
            }
        },
        Json::List(items) => {
            let out = redacted(j, needles)->List_0;
            assert forall|i: int| 0 <= i < out.len() implies shows_no_secret(
                #[trigger] out[i],
                needles,
            ) by {
                redaction_hides_secrets(items[i], needles);
            }
        },
        _ => {},
    }
}

// ---------------------------------------------------------------------------
// Truncation
// ---------------------------------------------------------------------------

/// The longest preview of a truncated output, in characters.
pub const MAX_PREVIEW: usize = 512;

/// How many bytes a document takes when it is written out.
pub open spec fn written_bytes(j: Json) -> nat {
    encode_utf8(canonical(j)).len()
}

/// The marker that stands for an output that is too long.
pub open spec fn truncation_marker(j: Json, max_bytes: nat) -> Json {
    let preview = if max_bytes < MAX_PREVIEW {
        max_bytes
    } else {
        MAX_PREVIEW as nat
    };
    Json::Object(
        seq![
            ("$truncated"@, Json::Bool(true)),
            ("bytes"@, Json::Number(NumberV::PosInt(written_bytes(j) as u64))),
            ("preview"@, Json::Text(first_chars(canonical(j), preview))),
        ],
    )
}

/// The output, or the marker when it takes more than `max_bytes`.
pub open spec fn truncated(j: Json, max_bytes: nat) -> Json {
    if written_bytes(j) <= max_bytes {
        j
    } else {
        truncation_marker(j, max_bytes)
    }
}

/// Truncates `value` when its serialized form exceeds `max_bytes`, replacing
/// it with a marker object carrying a preview.
pub fn truncate_output(value: Value, max_bytes: usize) -> (r: Value)
    ensures
        r@ == truncated(value@, max_bytes as nat),
{
    let serialized = canonical_json_string(&value);
    let bytes: usize = byte_len(serialized.as_str());
    if bytes <= max_bytes {
        return value;
    }
    let count: usize = if max_bytes < MAX_PREVIEW {
        max_bytes
    } else {
        MAX_PREVIEW
    };
    let preview = take_chars(serialized.as_str(), count);
    let mut map: StrMap<Value> = StrMap::new();
    proof {
        reveal_strlit("$truncated");
        reveal_strlit("bytes");
        reveal_strlit("preview");
        assert(lex_less("$truncated"@, "bytes"@));
        assert(lex_less("bytes"@, "preview"@));
        assert(lex_less("$truncated"@, "preview"@));
    }
    map.push("$truncated".to_owned(), Value::Bool(true));
    map.push("bytes".to_owned(), Value::number(bytes as u64));
    map.push("preview".to_owned(), Value::String(preview));
    let ghost want = truncation_marker(value@, max_bytes as nat);
    assert(entries_view(map) =~= want->Object_0);
    Value::Object(map)
}

/// The output within the byte budget, when there is one.
pub open spec fn limited(j: Json, max_output_bytes: Option<usize>) -> Json {
    match max_output_bytes {
        Some(max) => truncated(j, max as nat),
        None => j,
    }
}

/// `out` is what is shown of the output `raw` of the node: what the redactor
/// makes of it, within the byte budget.
pub open spec fn is_shaped<R: Redactor>(
    node: Seq<char>,
    raw: Json,
    redactor: Option<&R>,
    max_output_bytes: Option<usize>,
    out: Json,
) -> bool {
    match redactor {
        None => out == limited(raw, max_output_bytes),
        Some(red) => exists|n: &str, v: &Value, o: Value|
            n@ == node && v@ == raw && #[trigger] call_ensures(R::redact_output, (red, n, v), o) && out
                == limited(o@, max_output_bytes),
    }
}

/// Redacts and truncates one output.
pub fn shape_output<R: Redactor>(
    node: &str,
    value: Value,
    redactor: Option<&R>,
    max_output_bytes: Option<usize>,
) -> (r: Value)
    ensures
        is_shaped(node@, value@, redactor, max_output_bytes, r@),
{
    let value = match redactor {
        Some(redactor) => redactor.redact_output(node, &value),
        None => value,
    };
    match max_output_bytes {
        Some(max_bytes) => truncate_output(value, max_bytes),
        None => value,
    }
}

} // verus!
