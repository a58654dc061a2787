//! Validation of example documents against the public schemas, so examples
//! and schemas cannot drift apart silently.

use vstd::prelude::*;

use crate::json::{Json, Value};
use crate::quality::loc::ends_in;
use crate::runtime::schema::{schema_error, schema_violation};
use crate::scan::contains_text;
use crate::serve::Schemas;
use crate::text::{concat2, wrapped};

verus! {

use crate::ordered::opt_view;
use crate::quality::loc::has_extension;
use crate::runtime::schema::{is_no_schema, violates};
use crate::scan::has_part;
use crate::value::json_field;

/// What a document is.
#[derive(Clone, Copy, Debug, PartialEq, Eq, Structural)]
pub enum DocumentKind {
    Plan,
    Intent,
    Recipe,
}

/// What a document is: an intent has steps, a recipe names one.
pub open spec fn kind_of(document: Json) -> DocumentKind {
    if json_field(document, "steps"@) is Some {
        DocumentKind::Intent
    } else if json_field(document, "recipe"@) is Some {
        DocumentKind::Recipe
    } else {
        DocumentKind::Plan
    }
}

impl DocumentKind {
    /// The kind of a document.
    pub fn of(document: &Value) -> (r: Self)
        ensures
            r == kind_of(document@),
    {
        if document.get("steps").is_some() {
            DocumentKind::Intent
        } else if document.get("recipe").is_some() {
            DocumentKind::Recipe
        } else {
            DocumentKind::Plan
        }
    }

    /// The name of the kind.
    pub open spec fn name(self) -> Seq<char> {
        match self {
            DocumentKind::Plan => "plan"@,
            DocumentKind::Intent => "intent"@,
            DocumentKind::Recipe => "recipe"@,
        }
    }

    /// The name of the kind.
    pub fn label(&self) -> (r: &'static str)
        ensures
            r@ == self.name(),
    {
        match self {
            DocumentKind::Plan => "plan",
            DocumentKind::Intent => "intent",
            DocumentKind::Recipe => "recipe",
        }
    }
}

impl Schemas {
    /// The schema of a kind.
    pub open spec fn of(&self, kind: DocumentKind) -> Json {
        match kind {
            DocumentKind::Plan => self.plan@,
            DocumentKind::Intent => self.intent@,
            DocumentKind::Recipe => self.recipe@,
        }
    }

    /// The kind of a document with its schema.
    pub fn for_document(&self, document: &Value) -> (r: (DocumentKind, &Value))
        ensures
            r.0 == kind_of(document@),
            r.1@ == self.of(kind_of(document@)),
    {
        let kind = DocumentKind::of(document);
        let schema = match kind {
            DocumentKind::Plan => &self.plan,
            DocumentKind::Intent => &self.intent,
            DocumentKind::Recipe => &self.recipe,
        };
        (kind, schema)
    }
}

/// Whether a file holds an example that is validated.
pub fn is_example(name: &str) -> (r: bool)
    ensures
        r == (has_extension(name@, ".json"@) && !has_part(name@, "config"@)),
{
    ends_in(name, ".json") && !contains_text(name, "config")
}

/// The complaint about a schema that does not compile, for the reason given.
pub open spec fn schema_complaint(name: Seq<char>, reason: Seq<char>) -> Seq<char> {
    name + ": schema does not compile: "@ + reason
}

/// The complaint about a schema that does not compile, for the reason given.
pub fn defect_complaint(name: &str, reason: &str) -> (r: String)
    ensures
        r@ == schema_complaint(name@, reason@),
{
    wrapped(name, ": schema does not compile: ", reason)
}

/// The complaint about a schema that does not compile. What the validator says
/// of it is left open.
pub fn check_schema(name: &str, schema: &Value) -> (r: Option<String>)
    ensures
        r is Some == is_no_schema(schema@),
        r matches Some(t) ==> exists|reason: Seq<char>| t@ == #[trigger] schema_complaint(
            name@,
            reason,
        ),
{
    match schema_error(schema) {
        Some(e) => Some(defect_complaint(name, e.as_str())),
        None => None,
    }
}

/// The complaint that the verdict on an example gives.
pub open spec fn complaint(path: Seq<char>, kind: DocumentKind, mismatch: Option<Seq<char>>) -> Option<
    Seq<char>,
> {
    match mismatch {
        Some(e) => Some(path + " does not match the "@ + kind.name() + " schema: "@ + e),
        None => None,
    }
}

/// The complaint that the verdict on an example gives.
pub fn example_complaint(path: &str, kind: DocumentKind, mismatch: Option<&str>) -> (r: Option<String>)
    ensures
        opt_view(r) == complaint(
            path@,
            kind,
            match mismatch {
                Some(e) => Some(e@),
                None => None,
            },
        ),
{
    match mismatch {
        Some(e) => {
            let mut out = concat2(path, " does not match the ");
            out.push_str(kind.label());
            out.push_str(" schema: ");
            out.push_str(e);
            Some(out)
        },
        None => None,
    }
}

/// The complaint about an example that does not match its schema. What the
/// validator says of it is left open.
pub fn check_example(path: &str, document: &Value, schemas: &Schemas) -> (r: Option<String>)
    ensures
        r is Some == violates(schemas.of(kind_of(document@)), document@),
        r matches Some(t) ==> exists|reason: Seq<char>| Some(t@) == #[trigger] complaint(
            path@,
            kind_of(document@),
            Some(reason),
        ),
{
    let (kind, schema) = schemas.for_document(document);
    match schema_violation(schema, document) {
        Some(e) => {
            let ghost said = complaint(path@, kind_of(document@), Some(e@));
            example_complaint(path, kind, Some(e.as_str()))
        },
        None => None,
    }
}

} // verus!
