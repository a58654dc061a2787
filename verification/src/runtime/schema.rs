//! Validation of tool inputs against JSON Schemas.

use vstd::prelude::*;

use crate::adapters::api::{ToolErrorV, ToolExecutionError};
use crate::canonical::canonical_json_string;
use crate::json::{Json, Value};
use crate::text::{concat2, wrapped};

verus! {

use crate::adapters::api::coded;
use crate::canonical::canonical;

/// The text holds no schema that compiles.
pub uninterp spec fn schema_rejected(schema: Seq<char>) -> bool;

/// The document does not match the schema, both given as text. The schema is
/// one that compiles.
pub uninterp spec fn document_refused(schema: Seq<char>, document: Seq<char>) -> bool;

/// Calls `jsonschema::validator_for` on the schema that the text holds and
/// returns the text of the error it reports. Trusted: whether there is an
/// error depends on the schema's text alone and is named [`schema_rejected`];
/// a text that is no JSON counts as rejected. Nothing is fetched: a reference
/// to another document is an error. What the error says is left open: of
/// several such references, the one that is reported depends on the order in
/// which a hash set is walked.
#[verifier::external_body]
fn compile_schema(schema: &str) -> (r: Option<String>)
    ensures
        r is Some == schema_rejected(schema@),
{
    let mut reader = serde_json::Deserializer::from_str(schema);
    reader.disable_recursion_limit();
    match <serde_json::Value as serde::Deserialize>::deserialize(&mut reader) {
        Ok(schema) => jsonschema::validator_for(&schema).err().map(|error| error.to_string()),
        Err(error) => Some(error.to_string()),
    }
}

/// Calls `jsonschema::validate` on the schema and the document that the texts
/// hold and returns the text of the first error it reports. It panics on a
/// schema that does not compile. Trusted: whether there is an error depends on
/// the texts alone and is named [`document_refused`]; a document that is no
/// JSON counts as refused. What the error says is left open.
#[verifier::external_body]
fn match_schema(schema: &str, document: &str) -> (r: Option<String>)
    requires
        !schema_rejected(schema@),
    ensures
        r is Some == document_refused(schema@, document@),
{
    let mut first = serde_json::Deserializer::from_str(schema);
    first.disable_recursion_limit();
    let mut second = serde_json::Deserializer::from_str(document);
    second.disable_recursion_limit();
    let parsed = <serde_json::Value as serde::Deserialize>::deserialize(&mut first)
        .and_then(|s| Ok((s, <serde_json::Value as serde::Deserialize>::deserialize(&mut second)?)));
    match parsed {
        Ok((s, d)) => jsonschema::validate(&s, &d).err().map(|error| error.to_string()),
        Err(error) => Some(error.to_string()),
    }
}

/// The value is no schema that compiles.
pub open spec fn is_no_schema(schema: Json) -> bool {
    schema_rejected(canonical(schema))
}

/// The value does not match the schema. Nothing matches a value that is no
/// schema.
pub open spec fn violates(schema: Json, value: Json) -> bool {
    is_no_schema(schema) || document_refused(canonical(schema), canonical(value))
}

/// Why a value is no schema. The text is the validator's own.
pub fn schema_error(schema: &Value) -> (r: Option<String>)
    ensures
        r is Some == is_no_schema(schema@),
{
    compile_schema(canonical_json_string(schema).as_str())
}

/// Why the value does not match the schema. The text is the validator's own.
pub fn schema_violation(schema: &Value, value: &Value) -> (r: Option<String>)
    ensures
        r is Some == violates(schema@, value@),
{
    let text = canonical_json_string(schema);
    match compile_schema(text.as_str()) {
        Some(reason) => Some(reason),
        None => match_schema(text.as_str(), canonical_json_string(value).as_str()),
    }
}

/// The failure of a node whose input does not match the schema of its tool,
/// for the reason given.
pub open spec fn rejected_input(node: Seq<char>, tool: Seq<char>, reason: Seq<char>) -> ToolErrorV {
    coded(
        "input of node '"@ + node + "' does not match the '"@ + (tool + "' input schema: "@)
            + reason,
        "invalid_input"@,
    )
}

/// The failure of a node whose input does not match its schema.
pub fn input_rejection(node: &str, tool: &str, reason: &str) -> (r: ToolExecutionError)
    ensures
        r@ == rejected_input(node@, tool@, reason@),
{
    let mut message = wrapped("input of node '", node, "' does not match the '");
    message.push_str(concat2(tool, "' input schema: ").as_str());
    message.push_str(reason);
    ToolExecutionError::coded(message.as_str(), "invalid_input")
}

} // verus!
