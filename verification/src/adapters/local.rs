//! Deterministic local adapter used by examples and benchmarks.
//!
//! Tools: `const` (returns `input.value`), `echo`/`write` (return the
//! input), `fail` (always errors). Every tool honors an optional `sleep_ms`
//! field to simulate latency. Unknown tool names are errors: a typo in a
//! plan must not "succeed".

use vstd::prelude::*;

use crate::adapters::api::{BatchInput, BatchInputV, BatchOutput, BatchOutputV, ToolErrorV, ToolExecutionError};
use crate::json::{Json, Value};
use crate::text::{same_text, wrapped};

verus! {

use crate::adapters::api::coded;
use crate::fields::number_field;
use crate::ordered::views;
use crate::value::json_field;

/// What a local tool returns.
pub open spec fn local_result(tool: Seq<char>, input: Json) -> Result<Json, ToolErrorV> {
    if tool == "const"@ {
        match json_field(input, "value"@) {
            Some(v) => Ok(v),
            None => Err(coded("const requires input.value"@, "invalid_input"@)),
        }
    } else if tool == "echo"@ || tool == "write"@ {
        Ok(input)
    } else if tool == "fail"@ {
        Err(ToolErrorV { message: "local fail tool was called"@, code: None, retryable: None })
    } else {
        Err(coded("unknown local tool '"@ + tool + "'"@, "unknown_tool"@))
    }
}

/// What a local tool returns.
pub fn local_output(tool: &str, input: &Value) -> (r: Result<Value, ToolExecutionError>)
    ensures
        match (r, local_result(tool@, input@)) {
            (Ok(v), Ok(m)) => v@ == m,
            (Err(e), Err(m)) => e@ == m,
            _ => false,
        },
{
    if same_text(tool, "const") {
        match input.get("value") {
            Some(v) => Ok(v.clone()),
            None => Err(ToolExecutionError::coded("const requires input.value", "invalid_input")),
        }
    } else if same_text(tool, "echo") || same_text(tool, "write") {
        Ok(input.clone())
    } else if same_text(tool, "fail") {
        Err(ToolExecutionError::new("local fail tool was called"))
    } else {
        Err(
            ToolExecutionError::coded(
                wrapped("unknown local tool '", tool, "'").as_str(),
                "unknown_tool",
            ),
        )
    }
}

/// How long a call sleeps, in milliseconds.
pub open spec fn sleep_of(input: Json) -> u64 {
    match number_field(input, "sleep_ms"@) {
        Some(ms) => ms,
        None => 0,
    }
}

/// How long a call sleeps, in milliseconds.
pub fn sleep_ms(input: &Value) -> (r: u64)
    ensures
        r == sleep_of(input@),
{
    match input.number_at("sleep_ms") {
        Some(ms) => ms,
        None => 0,
    }
}

/// The longest sleep among the first `k` entries.
pub open spec fn longest_sleep(inputs: Seq<BatchInputV>, k: int) -> u64
    decreases k,
{
    if k <= 0 {
        0
    } else {
        let before = longest_sleep(inputs, k - 1);
        let own = sleep_of(inputs[k - 1].input);
        if before < own {
            own
        } else {
            before
        }
    }
}

/// How long a batch sleeps: one shared sleep, the longest of its entries.
pub fn batch_sleep_ms(inputs: &Vec<BatchInput>) -> (r: u64)
    ensures
        r == longest_sleep(views(inputs@), inputs@.len() as int),
{
    let ghost ins = views(inputs@);
    let mut longest: u64 = 0;
    let mut i: usize = 0;
    while i < inputs.len()
        invariant
            i <= inputs@.len(),
            ins == views(inputs@),
            longest == longest_sleep(ins, i as int),
        decreases inputs.len() - i,
    {
        assert(ins[i as int] == inputs@[i as int]@);
        let own: u64 = sleep_ms(&inputs[i].input);
        if longest < own {
            longest = own;
        }
        i = i + 1;
    }
    longest
}

/// What the first `k` entries of a batch return, or the first error.
pub open spec fn batch_result(tool: Seq<char>, inputs: Seq<BatchInputV>, k: int) -> Result<
    Seq<BatchOutputV>,
    ToolErrorV,
>
    decreases k,
{
    if k <= 0 {
        Ok(Seq::empty())
    } else {
        match batch_result(tool, inputs, k - 1) {
            Err(e) => Err(e),
            Ok(before) => match local_result(tool, inputs[k - 1].input) {
                Ok(v) => Ok(before.push(BatchOutputV { node: inputs[k - 1].node, output: v })),
                Err(e) => Err(e),
            },
        }
    }
}

proof fn lemma_batch_error(tool: Seq<char>, inputs: Seq<BatchInputV>, k: int, n: int)
    requires
        0 <= k <= n,
        batch_result(tool, inputs, k) is Err,
    ensures
        batch_result(tool, inputs, n) == batch_result(tool, inputs, k),
    decreases n,
{
    if k < n {
        lemma_batch_error(tool, inputs, k, n - 1);
    }
}

/// What a batch returns: one output per entry, keyed by its node.
pub fn local_batch(tool: &str, inputs: &Vec<BatchInput>) -> (r: Result<
    Vec<BatchOutput>,
    ToolExecutionError,
>)
    ensures
        match (r, batch_result(tool@, views(inputs@), inputs@.len() as int)) {
            (Ok(v), Ok(m)) => views(v@) == m,
            (Err(e), Err(m)) => e@ == m,
            _ => false,
        },
{
    let ghost ins = views(inputs@);
    let mut out: Vec<BatchOutput> = Vec::new();
    let mut i: usize = 0;
    assert(views(out@) =~= Seq::empty());
    while i < inputs.len()
        invariant
            i <= inputs@.len(),
            ins == views(inputs@),
            batch_result(tool@, ins, i as int) == Ok::<Seq<BatchOutputV>, ToolErrorV>(
                views(out@),
            ),
        decreases inputs.len() - i,
    {
        assert(ins[i as int] == inputs@[i as int]@);
        match local_output(tool, &inputs[i].input) {
            Ok(output) => {
                let ghost before = views(out@);
                let one = BatchOutput { node: inputs[i].node.clone(), output };
                out.push(one);
                assert(views(out@) =~= before.push(one@));
            },
            Err(e) => {
                proof {
                    assert(batch_result(tool@, ins, i + 1) is Err);
                    lemma_batch_error(tool@, ins, i + 1, ins.len() as int);
                }
                return Err(e);
            },
        }
        i = i + 1;
    }
    Ok(out)
}

/// The local example executor.
#[derive(Debug, Clone, Copy)]
pub struct LocalExecutor;

impl LocalExecutor {
    /// What a call returns once its sleep is over.
    pub fn call(&self, tool: &str, input: Value) -> (r: Result<Value, ToolExecutionError>)
        ensures
            match (r, local_result(tool@, input@)) {
                (Ok(v), Ok(m)) => v@ == m,
                (Err(e), Err(m)) => e@ == m,
                _ => false,
            },
    {
        local_output(tool, &input)
    }

    /// What a batch returns once its shared sleep is over.
    pub fn call_batch(&self, tool: &str, inputs: Vec<BatchInput>) -> (r: Result<
        Vec<BatchOutput>,
        ToolExecutionError,
    >)
        ensures
            match (r, batch_result(tool@, views(inputs@), inputs@.len() as int)) {
                (Ok(v), Ok(m)) => views(v@) == m,
                (Err(e), Err(m)) => e@ == m,
                _ => false,
            },
    {
        local_batch(tool, &inputs)
    }
}

} // verus!
