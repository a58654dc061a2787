//! What tool calls exchange: batch entries and structured errors.

use vstd::prelude::*;

use crate::json::{Json, Value};

verus! {

use crate::ordered::opt_view;

/// One entry of a batch dispatch: the node id and its resolved input.
#[derive(Debug, PartialEq)]
pub struct BatchInput {
    /// Graph node id this input belongs to.
    pub node: String,
    /// Resolved JSON input for the call.
    pub input: Value,
}

/// A batch entry as a mathematical value.
pub struct BatchInputV {
    pub node: Seq<char>,
    pub input: Json,
}

impl View for BatchInput {
    type V = BatchInputV;

    open spec fn view(&self) -> BatchInputV {
        BatchInputV { node: self.node@, input: self.input@ }
    }
}

/// One entry of a batch result: the node id and its output.
#[derive(Debug, PartialEq)]
pub struct BatchOutput {
    /// Graph node id this output belongs to.
    pub node: String,
    /// JSON output of the call.
    pub output: Value,
}

/// A batch result as a mathematical value.
pub struct BatchOutputV {
    pub node: Seq<char>,
    pub output: Json,
}

impl View for BatchOutput {
    type V = BatchOutputV;

    open spec fn view(&self) -> BatchOutputV {
        BatchOutputV { node: self.node@, output: self.output@ }
    }
}

/// A structured tool-level execution error.
///
/// `message` is always present and human readable. `code` is an optional
/// machine-readable identifier (for example `"timeout"`, `"not_found"`, or an
/// upstream error code) that retry policies can match on. `retryable` is the
/// adapter's own verdict about whether retrying could succeed; when set it
/// takes precedence over `retryable_errors` matching in retry policies.
#[derive(Debug, PartialEq, Eq)]
pub struct ToolExecutionError {
    /// Human-readable description of the failure.
    pub message: String,
    /// Optional machine-readable error code.
    pub code: Option<String>,
    /// Optional adapter verdict on whether a retry could succeed.
    pub retryable: Option<bool>,
}

/// A tool error as a mathematical value.
pub struct ToolErrorV {
    pub message: Seq<char>,
    pub code: Option<Seq<char>>,
    pub retryable: Option<bool>,
}

impl View for ToolExecutionError {
    type V = ToolErrorV;

    open spec fn view(&self) -> ToolErrorV {
        ToolErrorV { message: self.message@, code: opt_view(self.code), retryable: self.retryable }
    }
}

/// An error with a message and a code.
pub open spec fn coded(message: Seq<char>, code: Seq<char>) -> ToolErrorV {
    ToolErrorV { message, code: Some(code), retryable: None }
}

impl ToolExecutionError {
    /// Creates an error carrying only a message.
    pub fn new(message: &str) -> (r: Self)
        ensures
            r@ == (ToolErrorV { message: message@, code: None, retryable: None }),
    {
        ToolExecutionError { message: message.to_owned(), code: None, retryable: None }
    }

    /// Attaches a machine-readable error code.
    pub fn with_code(self, code: &str) -> (r: Self)
        ensures
            r@ == (ToolErrorV { code: Some(code@), ..self@ }),
    {
        ToolExecutionError {
            message: self.message,
            code: Some(code.to_owned()),
            retryable: self.retryable,
        }
    }

    /// Marks the error as retryable or not, overriding policy matching.
    pub fn with_retryable(self, retryable: bool) -> (r: Self)
        ensures
            r@ == (ToolErrorV { retryable: Some(retryable), ..self@ }),
    {
        ToolExecutionError { message: self.message, code: self.code, retryable: Some(retryable) }
    }

    /// An error with a message and a code.
    pub fn coded(message: &str, code: &str) -> (r: Self)
        ensures
            r@ == coded(message@, code@),
    {
        ToolExecutionError::new(message).with_code(code)
    }
}

impl Clone for ToolExecutionError {
    fn clone(&self) -> (r: Self)
        ensures
            r@ == self@,
    {
        ToolExecutionError {
            message: self.message.clone(),
            code: match &self.code {
                Some(c) => Some(c.clone()),
                None => None,
            },
            retryable: self.retryable,
        }
    }
}

} // verus!
