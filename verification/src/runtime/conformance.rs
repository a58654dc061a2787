//! Adapter conformance checks.
//!
//! The suite exercises the call contract of an adapter directly: echo
//! round-trip, the node mapping of batch calls, and tool error propagation.
//! Tool names are configurable because real adapters rarely expose a literal
//! `echo` tool; point the suite at whatever cheap read-only tool the adapter
//! has. The host makes the calls; the functions here say what to send and
//! judge what came back.

use vstd::prelude::*;

use crate::adapters::api::{BatchInput, BatchInputV, BatchOutput, BatchOutputV, ToolErrorV, ToolExecutionError};
use crate::canonical::canonical_json_string;
use crate::json::{Json, Value};
use crate::text::{concat2, same_text};

verus! {

use crate::canonical::canonical;
use crate::json::single;
use crate::ordered::{opt_view, views};
use crate::runtime::calls::{batch_reply_view, reply_view};
use crate::value::json_same;

/// Names of the tools the suite drives.
#[derive(Debug)]
pub struct ConformanceOptions {
    /// A tool that returns its input verbatim.
    pub echo_tool: String,
    /// A tool that always fails; skip the error check when `None`.
    pub failing_tool: Option<String>,
}

impl Default for ConformanceOptions {
    fn default() -> (r: Self)
        ensures
            r.echo_tool@ == "echo"@,
            r.failing_tool is None,
    {
        ConformanceOptions { echo_tool: "echo".to_owned(), failing_tool: None }
    }
}

impl ConformanceOptions {
    /// Default options (an `echo` tool, no failing tool).
    pub fn new() -> (r: Self)
        ensures
            r.echo_tool@ == "echo"@,
            r.failing_tool is None,
    {
        ConformanceOptions { echo_tool: "echo".to_owned(), failing_tool: None }
    }

    /// Uses `tool` as the echo probe.
    pub fn with_echo_tool(self, tool: &str) -> (r: Self)
        ensures
            r.echo_tool@ == tool@,
            r.failing_tool == self.failing_tool,
    {
        ConformanceOptions { echo_tool: tool.to_owned(), failing_tool: self.failing_tool }
    }

    /// Enables the error-propagation check against `tool`.
    pub fn with_failing_tool(self, tool: &str) -> (r: Self)
        ensures
            r.echo_tool == self.echo_tool,
            opt_view(r.failing_tool) == Some(tool@),
    {
        ConformanceOptions { echo_tool: self.echo_tool, failing_tool: Some(tool.to_owned()) }
    }
}

/// One conformance check outcome.
#[derive(Debug, PartialEq, Eq)]
pub struct ConformanceCheck {
    /// Check name.
    pub name: String,
    /// Whether the check passed.
    pub passed: bool,
    /// Human-readable detail.
    pub message: String,
}

/// A check outcome as a mathematical value.
pub struct CheckV {
    pub name: Seq<char>,
    pub passed: bool,
    pub message: Seq<char>,
}

impl View for ConformanceCheck {
    type V = CheckV;

    open spec fn view(&self) -> CheckV {
        CheckV { name: self.name@, passed: self.passed, message: self.message@ }
    }
}

/// Outcome of the conformance suite for one adapter.
#[derive(Debug, PartialEq, Eq)]
pub struct ConformanceReport {
    /// Adapter label the suite ran against.
    pub adapter: String,
    /// Whether every check passed.
    pub passed: bool,
    /// Individual check outcomes.
    pub checks: Vec<ConformanceCheck>,
}

/// A check that passed.
pub open spec fn passes(name: Seq<char>) -> CheckV {
    CheckV { name, passed: true, message: "passed"@ }
}

/// A check that failed.
pub open spec fn fails(name: Seq<char>, message: Seq<char>) -> CheckV {
    CheckV { name, passed: false, message }
}

fn pass(name: &str) -> (r: ConformanceCheck)
    ensures
        r@ == passes(name@),
{
    ConformanceCheck { name: name.to_owned(), passed: true, message: "passed".to_owned() }
}

fn fail(name: &str, message: &str) -> (r: ConformanceCheck)
    ensures
        r@ == fails(name@, message@),
{
    ConformanceCheck { name: name.to_owned(), passed: false, message: message.to_owned() }
}

/// What the echo tool is called with.
pub open spec fn echo_input() -> Json {
    single("ok"@, Json::Bool(true))
}

/// What the echo tool is called with.
pub fn echo_probe() -> (r: Value)
    ensures
        r@ == echo_input(),
{
    Value::single("ok", Value::Bool(true))
}

/// The verdict on the echo round-trip.
pub open spec fn echo_verdict(reply: Result<Json, ToolErrorV>) -> CheckV {
    match reply {
        Ok(output) => if json_same(output, echo_input()) {
            passes("echo_round_trip"@)
        } else {
            fails(
                "echo_round_trip"@,
                "echo output did not match input: "@ + canonical(output),
            )
        },
        Err(e) => fails("echo_round_trip"@, e.message),
    }
}

/// Judges the echo round-trip.
pub fn check_echo_round_trip(reply: &Result<Value, ToolExecutionError>) -> (r: ConformanceCheck)
    ensures
        r@ == echo_verdict(reply_view(*reply)),
{
    match reply {
        Ok(output) => if output.same(&echo_probe()) {
            pass("echo_round_trip")
        } else {
            let shown = canonical_json_string(output);
            fail(
                "echo_round_trip",
                concat2("echo output did not match input: ", shown.as_str()).as_str(),
            )
        },
        Err(e) => fail("echo_round_trip", e.message.as_str()),
    }
}

/// The input of a batch probe entry.
pub open spec fn batch_input(node: Seq<char>) -> Json {
    single("id"@, Json::Text(node))
}

/// The entries that the batch contract is probed with.
pub fn batch_probe() -> (r: Vec<BatchInput>)
    ensures
        views(r@) == seq![
            BatchInputV { node: "a"@, input: batch_input("a"@) },
            BatchInputV { node: "b"@, input: batch_input("b"@) },
        ],
{
    let mut out: Vec<BatchInput> = Vec::new();
    out.push(
        BatchInput {
            node: "a".to_owned(),
            input: Value::single("id", Value::String("a".to_owned())),
        },
    );
    out.push(
        BatchInput {
            node: "b".to_owned(),
            input: Value::single("id", Value::String("b".to_owned())),
        },
    );
    proof {
        let want = seq![
            BatchInputV { node: "a"@, input: batch_input("a"@) },
            BatchInputV { node: "b"@, input: batch_input("b"@) },
        ];
        assert(views(out@) =~= want);
    }
    out
}

/// Some entry maps the node's own input back to the node.
pub open spec fn maps_back(outputs: Seq<BatchOutputV>, node: Seq<char>) -> bool {
    exists|i: int|
        0 <= i < outputs.len() && (#[trigger] outputs[i]).node == node && json_same(
            outputs[i].output,
            batch_input(node),
        )
}

/// The verdict on the batch contract.
pub open spec fn batch_verdict(reply: Result<Seq<BatchOutputV>, ToolErrorV>) -> CheckV {
    match reply {
        Ok(outputs) => if outputs.len() == 2 && maps_back(outputs, "a"@) && maps_back(
            outputs,
            "b"@,
        ) {
            passes("batch_contract"@)
        } else {
            fails(
                "batch_contract"@,
                "batch outputs were not mapped back to their node ids"@,
            )
        },
        Err(e) => fails("batch_contract"@, e.message),
    }
}

fn is_mapped(outputs: &Vec<BatchOutput>, node: &str) -> (r: bool)
    ensures
        r == maps_back(views(outputs@), node@),
{
    let ghost os = views(outputs@);
    let want = Value::single("id", Value::String(node.to_owned()));
    let mut i: usize = 0;
    while i < outputs.len()
        invariant
            i <= outputs@.len(),
            os == views(outputs@),
            want@ == batch_input(node@),
            forall|j: int|
                0 <= j < i ==> !((#[trigger] os[j]).node == node@ && json_same(
                    os[j].output,
                    batch_input(node@),
                )),
        decreases outputs.len() - i,
    {
        assert(os[i as int] == outputs@[i as int]@);
        if same_text(outputs[i].node.as_str(), node) && outputs[i].output.same(&want) {
            return true;
        }
        i = i + 1;
    }
    false
}

/// Judges the batch contract.
pub fn check_batch_contract(reply: &Result<Vec<BatchOutput>, ToolExecutionError>) -> (r:
    ConformanceCheck)
    ensures
        r@ == batch_verdict(batch_reply_view(*reply)),
{
    match reply {
        Ok(outputs) => if outputs.len() == 2 && is_mapped(outputs, "a") && is_mapped(
            outputs,
            "b",
        ) {
            pass("batch_contract")
        } else {
            fail("batch_contract", "batch outputs were not mapped back to their node ids")
        },
        Err(e) => fail("batch_contract", e.message.as_str()),
    }
}

/// Judges error propagation.
pub fn check_error_propagation(reply: &Result<Value, ToolExecutionError>) -> (r: ConformanceCheck)
    ensures
        r@ == if reply is Err {
            passes("error_propagation"@)
        } else {
            fails("error_propagation"@, "failing tool returned success"@)
        },
{
    match reply {
        Err(_) => pass("error_propagation"),
        Ok(_) => fail("error_propagation", "failing tool returned success"),
    }
}

/// The report on the checks that were made: an adapter conforms when every
/// check passed.
pub fn check_adapter_conformance_with(adapter: &str, checks: Vec<ConformanceCheck>) -> (r:
    ConformanceReport)
    ensures
        r.adapter@ == adapter@,
        r.checks == checks,
        r.passed == (forall|i: int| 0 <= i < checks@.len() ==> (#[trigger] checks@[i]).passed),
{
    let mut passed = true;
    let mut i: usize = 0;
    while i < checks.len()
        invariant
            i <= checks@.len(),
            passed == (forall|j: int| 0 <= j < i ==> (#[trigger] checks@[j]).passed),
        decreases checks.len() - i,
    {
        if !checks[i].passed {
            passed = false;
        }
        i = i + 1;
    }
    ConformanceReport { adapter: adapter.to_owned(), passed, checks }
}

} // verus!
