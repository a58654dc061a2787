//! Infrastructure-level failures.

use vstd::prelude::*;

use crate::adapters::api::{ToolErrorV, ToolExecutionError};
use crate::graph::validate::{GraphError, GraphErrorV};
use crate::refs::{RefV, ValueRef};
use crate::text::{concat2, wrapped};

verus! {

use crate::graph::validate::graph_error_text;
use crate::refs::ref_text;

/// Infrastructure-level failures.
///
/// Tool-level failures do not surface here: they land inside the run result
/// so partial results survive. `RuntimeError` is for problems that make the
/// run impossible or meaningless as a whole.
#[derive(Debug)]
pub enum RuntimeError {
    /// The plan failed validation.
    Graph(GraphError),
    /// A plan tool names an adapter with no registered executor.
    MissingAdapter {
        /// The missing adapter name.
        adapter: String,
    },
    /// A registered input schema is itself invalid.
    InvalidInputSchema {
        /// Tool whose schema failed to compile.
        tool: String,
        /// Compiler error detail.
        message: String,
    },
    /// A reference names a node with no recorded output.
    MissingNodeOutput(String),
    /// A reference path does not exist in the referenced output.
    MissingPath {
        /// The reference being resolved.
        reference: ValueRef,
        /// The missing segment.
        segment: String,
    },
    /// A reference string failed to parse at runtime.
    InvalidRef(String),
}

/// A runtime error as a mathematical value.
pub enum RuntimeErrorV {
    Graph(GraphErrorV),
    MissingAdapter { adapter: Seq<char> },
    InvalidInputSchema { tool: Seq<char>, message: Seq<char> },
    MissingNodeOutput(Seq<char>),
    MissingPath { reference: RefV, segment: Seq<char> },
    InvalidRef(Seq<char>),
}

impl View for RuntimeError {
    type V = RuntimeErrorV;

    open spec fn view(&self) -> RuntimeErrorV {
        match self {
            RuntimeError::Graph(e) => RuntimeErrorV::Graph(e@),
            RuntimeError::MissingAdapter { adapter } => RuntimeErrorV::MissingAdapter {
                adapter: adapter@,
            },
            RuntimeError::InvalidInputSchema { tool, message } => {
                RuntimeErrorV::InvalidInputSchema { tool: tool@, message: message@ }
            },
            RuntimeError::MissingNodeOutput(node) => RuntimeErrorV::MissingNodeOutput(node@),
            RuntimeError::MissingPath { reference, segment } => RuntimeErrorV::MissingPath {
                reference: reference@,
                segment: segment@,
            },
            RuntimeError::InvalidRef(m) => RuntimeErrorV::InvalidRef(m@),
        }
    }
}

/// The message of a runtime error.
pub open spec fn runtime_error_text(e: RuntimeErrorV) -> Seq<char> {
    match e {
        RuntimeErrorV::Graph(g) => graph_error_text(g),
        RuntimeErrorV::MissingAdapter { adapter } => "no executor registered for adapter '"@
            + adapter + "'"@,
        RuntimeErrorV::InvalidInputSchema { tool, message } => "input schema for tool '"@ + tool
            + "' is invalid: "@ + message,
        RuntimeErrorV::MissingNodeOutput(node) => "node '"@ + node + "' has no output yet"@,
        RuntimeErrorV::MissingPath { reference, segment } => "reference '"@ + ref_text(reference)
            + "' missing path segment '"@ + (segment + "'"@),
        RuntimeErrorV::InvalidRef(m) => "invalid reference: "@ + m,
    }
}

impl RuntimeError {
    /// The message of the error.
    pub fn message(&self) -> (r: String)
        ensures
            r@ == runtime_error_text(self@),
    {
        match self {
            RuntimeError::Graph(e) => e.message(),
            RuntimeError::MissingAdapter { adapter } => wrapped(
                "no executor registered for adapter '",
                adapter.as_str(),
                "'",
            ),
            RuntimeError::InvalidInputSchema { tool, message } => {
                let mut out = wrapped("input schema for tool '", tool.as_str(), "' is invalid: ");
                out.push_str(message.as_str());
                out
            },
            RuntimeError::MissingNodeOutput(node) => wrapped(
                "node '",
                node.as_str(),
                "' has no output yet",
            ),
            RuntimeError::MissingPath { reference, segment } => {
                let mut out = wrapped(
                    "reference '",
                    reference.render().as_str(),
                    "' missing path segment '",
                );
                out.push_str(concat2(segment.as_str(), "'").as_str());
                out
            },
            RuntimeError::InvalidRef(m) => concat2("invalid reference: ", m.as_str()),
        }
    }
}

/// The code under which a failure to resolve a reference is reported.
pub open spec fn resolution_code(e: RuntimeErrorV) -> Seq<char> {
    match e {
        RuntimeErrorV::MissingNodeOutput(_) => "missing_node_output"@,
        RuntimeErrorV::MissingPath { .. } => "missing_path"@,
        _ => "invalid_ref"@,
    }
}

/// A failure to resolve a reference as a failure of the node that holds it.
pub open spec fn resolution_failure(e: RuntimeErrorV) -> ToolErrorV {
    ToolErrorV {
        message: runtime_error_text(e),
        code: Some(resolution_code(e)),
        retryable: None,
    }
}

/// A failure to resolve a reference as a failure of the node that holds it.
pub fn resolution_error(error: RuntimeError) -> (r: ToolExecutionError)
    ensures
        r@ == resolution_failure(error@),
{
    let code = match &error {
        RuntimeError::MissingNodeOutput(_) => "missing_node_output",
        RuntimeError::MissingPath { .. } => "missing_path",
        _ => "invalid_ref",
    };
    ToolExecutionError::new(error.message().as_str()).with_code(code)
}

} // verus!
