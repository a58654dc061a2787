//! Built-in pure data tools available on every runtime.
//!
//! Plans always have an aggregation and transform point without inventing a
//! host-specific adapter:
//!
//! - `collect`: returns its (resolved) input verbatim, the aggregation node.
//! - `pick`: `{ "value": ..., "path": "a.b.0" }` extracts a path.
//! - `merge`: `{ "objects": [{...}, {...}] }` shallow-merges left to right.
//! - `template`: `{ "template": "Hi {name}", "values": {...} }` interpolates
//!   `{key.path}` placeholders with scalar values.

use vstd::prelude::*;

use crate::adapters::api::{ToolErrorV, ToolExecutionError};
use crate::effects::resolve_resource_template;
use crate::json::{Json, Value};
use crate::ordered::StrMap;
use crate::runtime::resolve::walk_path;
use crate::text::{concat2, contains_char, same_text, split_text, wrapped};

verus! {

use crate::adapters::api::coded;
use crate::effects::resolved_resource;
use crate::json::{entries_view, values_view};
use crate::ordered::{gives, has_key, key_position, lookup, sorted_pairs, sorted_pairs_unique, sorted_position};
use crate::runtime::resolve::walked;
use crate::text::{split_on, texts_view};
use crate::value::{entries_insert, entries_lookup, json_field};

broadcast use crate::json::group_json_views;

/// Executor of the built-in pure data tools.
pub struct BuiltinExecutor;

/// The tool names served by [`BuiltinExecutor`].
pub open spec fn builtin_names() -> Seq<Seq<char>> {
    seq!["collect"@, "pick"@, "merge"@, "template"@]
}

/// The tool names served by [`BuiltinExecutor`].
pub fn builtin_tools() -> (r: [&'static str; 4])
    ensures
        Seq::new(4, |i: int| r@[i]@) == builtin_names(),
{
    let r = ["collect", "pick", "merge", "template"];
    assert(Seq::new(4, |i: int| r@[i]@) =~= builtin_names());
    r
}

// ---------------------------------------------------------------------------
// Model
// ---------------------------------------------------------------------------

/// The error of a call that lacks an input field.
pub open spec fn lacks_field(tool: Seq<char>, field: Seq<char>) -> ToolErrorV {
    coded(tool + ": missing field '"@ + (field + "'"@), "invalid_input"@)
}

/// The parts that are not empty.
pub open spec fn nonempty(parts: Seq<Seq<char>>) -> Seq<Seq<char>>
    decreases parts.len(),
{
    if parts.len() == 0 {
        Seq::empty()
    } else {
        let before = nonempty(parts.drop_last());
        if parts.last().len() > 0 {
            before.push(parts.last())
        } else {
            before
        }
    }
}

/// What `pick` returns.
pub open spec fn picked(input: Json) -> Result<Json, ToolErrorV> {
    match json_field(input, "value"@) {
        None => Err(lacks_field("pick"@, "value"@)),
        Some(value) => match json_field(input, "path"@) {
            Some(Json::Text(path)) => match walked(value, nonempty(split_on(path, '.')), 0) {
                Ok(v) => Ok(v),
                Err(segment) => Err(
                    coded("pick: path segment '"@ + segment + "' not found"@, "missing_path"@),
                ),
            },
            _ => Err(lacks_field("pick"@, "path"@)),
        },
    }
}

/// All documents are objects.
pub open spec fn all_objects(items: Seq<Json>) -> bool {
    forall|i: int| 0 <= i < items.len() ==> (#[trigger] items[i]) is Object
}

/// What the last of the objects that has the key holds under it.
pub open spec fn last_value(items: Seq<Json>, key: Seq<char>) -> Option<Json>
    decreases items.len(),
{
    if items.len() == 0 {
        None
    } else {
        match json_field(items.last(), key) {
            Some(v) => Some(v),
            None => last_value(items.drop_last(), key),
        }
    }
}

/// The object holds every key of the objects with its last value.
pub open spec fn is_merged(items: Seq<Json>, entries: Seq<(Seq<char>, Json)>) -> bool {
    &&& sorted_pairs(entries)
    &&& forall|k: Seq<char>| #[trigger] lookup(entries, k) == last_value(items, k)
}

/// `r` is what `merge` returns.
pub open spec fn is_merge_result(input: Json, r: Result<Json, ToolErrorV>) -> bool {
    match json_field(input, "objects"@) {
        Some(Json::List(items)) => if all_objects(items) {
            r is Ok && r->Ok_0 is Object && is_merged(items, r->Ok_0->Object_0)
        } else {
            r == Err::<Json, ToolErrorV>(
                coded("merge: every element of 'objects' must be an object"@, "invalid_input"@),
            )
        },
        _ => r == Err::<Json, ToolErrorV>(lacks_field("merge"@, "objects"@)),
    }
}

/// What `template` returns.
pub open spec fn rendered(input: Json) -> Result<Json, ToolErrorV> {
    match json_field(input, "template"@) {
        Some(Json::Text(template)) => match json_field(input, "values"@) {
            Some(values) => {
                let text = resolved_resource(template, values);
                if text == template && template.contains('{') && template.contains('}') {
                    Err(
                        coded(
                            "template: placeholders could not be resolved from 'values'"@,
                            "invalid_input"@,
                        ),
                    )
                } else {
                    Ok(Json::Text(text))
                }
            },
            None => Err(lacks_field("template"@, "values"@)),
        },
        _ => Err(lacks_field("template"@, "template"@)),
    }
}

/// `r` is what the built-in tool returns.
pub open spec fn is_builtin_result(
    tool: Seq<char>,
    input: Json,
    r: Result<Json, ToolErrorV>,
) -> bool {
    if tool == "collect"@ {
        r == Ok::<Json, ToolErrorV>(input)
    } else if tool == "pick"@ {
        r == picked(input)
    } else if tool == "merge"@ {
        is_merge_result(input, r)
    } else if tool == "template"@ {
        r == rendered(input)
    } else {
        r == Err::<Json, ToolErrorV>(
            coded("unknown builtin tool '"@ + tool + "'"@, "unknown_tool"@),
        )
    }
}

/// The documents of a result.
pub open spec fn result_view(r: Result<Value, ToolExecutionError>) -> Result<Json, ToolErrorV> {
    match r {
        Ok(v) => Ok(v@),
        Err(e) => Err(e@),
    }
}

// ---------------------------------------------------------------------------
// Tools
// ---------------------------------------------------------------------------

fn missing_field(tool: &str, field: &str) -> (r: ToolExecutionError)
    ensures
        r@ == lacks_field(tool@, field@),
{
    let mut message = concat2(tool, ": missing field '");
    message.push_str(concat2(field, "'").as_str());
    ToolExecutionError::coded(message.as_str(), "invalid_input")
}

fn nonempty_parts(parts: &Vec<String>) -> (r: Vec<String>)
    ensures
        texts_view(r@) == nonempty(texts_view(parts@)),
{
    let ghost all = texts_view(parts@);
    let mut out: Vec<String> = Vec::new();
    let mut i: usize = 0;
    assert(texts_view(out@) =~= nonempty(all.take(0)));
    while i < parts.len()
        invariant
            i <= parts@.len(),
            all == texts_view(parts@),
            texts_view(out@) == nonempty(all.take(i as int)),
        decreases parts.len() - i,
    {
        let ghost next = all.take(i + 1);
        assert(next.drop_last() =~= all.take(i as int));
        assert(next.last() == parts@[i as int]@);
        if !parts[i].as_str().is_empty() {
            let ghost before = out@;
            out.push(parts[i].clone());
            assert(texts_view(out@) =~= texts_view(before).push(parts@[i as int]@));
        }
        i = i + 1;
    }
    assert(all.take(i as int) =~= all);
    out
}

/// Extracts a path from a value.
pub fn pick(input: &Value) -> (r: Result<Value, ToolExecutionError>)
    ensures
        gives(r, picked(input@)),
{
    let value = match input.get("value") {
        Some(value) => value,
        None => {
            return Err(missing_field("pick", "value"));
        },
    };
    let path = match input.get("path") {
        Some(Value::String(path)) => path,
        _ => {
            return Err(missing_field("pick", "path"));
        },
    };
    let segments = nonempty_parts(&split_text(path.as_str(), '.'));
    match walk_path(value, &segments) {
        Ok(found) => Ok(found.clone()),
        Err(at) => Err(
            ToolExecutionError::coded(
                wrapped("pick: path segment '", segments[at].as_str(), "' not found").as_str(),
                "missing_path",
            ),
        ),
    }
}

fn merge_into(merged: StrMap<Value>, map: &StrMap<Value>) -> (r: StrMap<Value>)
    ensures
        sorted_pairs(entries_view(r)),
        forall|k: Seq<char>| #[trigger]
            lookup(entries_view(r), k) == match lookup(entries_view(*map), k) {
                Some(v) => Some(v),
                None => lookup(entries_view(merged), k),
            },
{
    let ghost before = entries_view(merged);
    let ghost added = entries_view(*map);
    let mut out = merged;
    map.prove_sorted();
    out.prove_sorted();
    proof {
        entries_lookup(out, Seq::empty());
        assert(added.take(0) =~= Seq::empty());
        assert forall|k: Seq<char>| #[trigger] lookup(entries_view(out), k) == match lookup(
            added.take(0),
            k,
        ) {
            Some(v) => Some(v),
            None => lookup(before, k),
        } by {
            assert(lookup(added.take(0), k) is None);
        }
    }
    let mut i: usize = 0;
    while i < map.len()
        invariant
            i <= map.pairs().len(),
            added == entries_view(*map),
            sorted_pairs(map.pairs()),
            sorted_pairs(entries_view(out)),
            forall|k: Seq<char>| #[trigger]
                lookup(entries_view(out), k) == match lookup(added.take(i as int), k) {
                    Some(v) => Some(v),
                    None => lookup(before, k),
                },
        decreases map.pairs().len() - i,
    {
        let ghost earlier = out;
        let key = map.key_at(i).to_owned();
        let value = map.value_at(i).clone();
        let ghost k0 = key@;
        let ghost v0 = value;
        out.prove_sorted();
        out.insert(key, value);
        out.prove_sorted();
        proof {
            entries_insert(earlier, out, k0, v0);
            let taken = added.take(i as int);
            let next = added.take(i + 1);
            assert(next =~= taken.push((k0, v0@)));
            entries_lookup(*map, k0);
            assert(sorted_pairs(taken));
            assert(sorted_pairs(next));
            assert forall|k: Seq<char>| #[trigger] lookup(entries_view(out), k) == match lookup(
                next,
                k,
            ) {
                Some(v) => Some(v),
                None => lookup(before, k),
            } by {
                lemma_lookup_push(taken, (k0, v0@), k);
            }
        }
        i = i + 1;
    }
    assert(added.take(i as int) =~= added);
    out
}

proof fn lemma_lookup_push(s: Seq<(Seq<char>, Json)>, e: (Seq<char>, Json), k: Seq<char>)
    requires
        sorted_pairs(s),
        sorted_pairs(s.push(e)),
    ensures
        lookup(s.push(e), k) == if k == e.0 {
            Some(e.1)
        } else {
            lookup(s, k)
        },
{
    let t = s.push(e);
    sorted_position(t, s.len() as int);
    if k != e.0 {
        if has_key(s, k) {
            let p = key_position(s, k);
            assert(t[p] == s[p]);
            sorted_position(t, p);
            sorted_position(s, p);
        } else if has_key(t, k) {
            let q = key_position(t, k);
            assert(q < s.len());
            assert(s[q].0 == k);
        }
    }
}

/// Merges objects, later ones over earlier ones.
pub fn merge(input: &Value) -> (r: Result<Value, ToolExecutionError>)
    ensures
        is_merge_result(input@, result_view(r)),
{
    let objects = match input.get("objects") {
        Some(Value::Array(objects)) => objects,
        _ => {
            return Err(missing_field("merge", "objects"));
        },
    };
    let ghost items = values_view(objects@);
    let mut merged: StrMap<Value> = StrMap::new();
    merged.prove_sorted();
    let mut i: usize = 0;
    proof {
        assert(entries_view(merged) =~= Seq::empty());
        assert forall|k: Seq<char>| #[trigger] lookup(entries_view(merged), k) == last_value(
            items.take(0),
            k,
        ) by {}
    }
    while i < objects.len()
        invariant
            i <= objects@.len(),
            items == values_view(objects@),
            json_field(input@, "objects"@) == Some(Json::List(items)),
            forall|j: int| 0 <= j < i ==> (#[trigger] items[j]) is Object,
            is_merged(items.take(i as int), entries_view(merged)),
        decreases objects.len() - i,
    {
        let ghost taken = items.take(i as int);
        let ghost next = items.take(i + 1);
        assert(items[i as int] == objects@[i as int]@);
        match &objects[i] {
            Value::Object(map) => {
                let ghost earlier = entries_view(merged);
                merged = merge_into(merged, map);
                proof {
                    assert(next.drop_last() =~= taken);
                    assert(next.last() == items[i as int]);
                    assert(items[i as int] == Json::Object(entries_view(*map)));
                    assert forall|k: Seq<char>| #[trigger] lookup(entries_view(merged), k)
                        == last_value(next, k) by {
                        assert(lookup(earlier, k) == last_value(taken, k));
                        assert(json_field(next.last(), k) == lookup(entries_view(*map), k));
                    }
                }
            },
            _ => {
                assert(!(items[i as int] is Object));
                return Err(
                    ToolExecutionError::coded(
                        "merge: every element of 'objects' must be an object",
                        "invalid_input",
                    ),
                );
            },
        }
        i = i + 1;
    }
    assert(items.take(i as int) =~= items);
    Ok(Value::Object(merged))
}

/// Interpolates placeholders with scalar values.
pub fn template(input: &Value) -> (r: Result<Value, ToolExecutionError>)
    ensures
        gives(r, rendered(input@)),
{
    let template = match input.get("template") {
        Some(Value::String(template)) => template,
        _ => {
            return Err(missing_field("template", "template"));
        },
    };
    let values = match input.get("values") {
        Some(values) => values,
        None => {
            return Err(missing_field("template", "values"));
        },
    };
    let text = resolve_resource_template(template.as_str(), values);
    if same_text(text.as_str(), template.as_str()) && contains_char(template.as_str(), '{')
        && contains_char(template.as_str(), '}') {
        return Err(
            ToolExecutionError::coded(
                "template: placeholders could not be resolved from 'values'",
                "invalid_input",
            ),
        );
    }
    Ok(Value::String(text))
}

impl BuiltinExecutor {
    /// Executes a built-in tool.
    pub fn call(&self, tool: &str, input: Value) -> (r: Result<Value, ToolExecutionError>)
        ensures
            is_builtin_result(tool@, input@, result_view(r)),
    {
        proof {
            reveal_strlit("collect");
            reveal_strlit("pick");
            reveal_strlit("merge");
            reveal_strlit("template");
        }
        if same_text(tool, "collect") {
            Ok(input)
        } else if same_text(tool, "pick") {
            pick(&input)
        } else if same_text(tool, "merge") {
            merge(&input)
        } else if same_text(tool, "template") {
            template(&input)
        } else {
            Err(
                ToolExecutionError::coded(
                    wrapped("unknown builtin tool '", tool, "'").as_str(),
                    "unknown_tool",
                ),
            )
        }
    }
}

/// What `merge` returns is determined by its input.
pub proof fn merge_is_determined(
    items: Seq<Json>,
    a: Seq<(Seq<char>, Json)>,
    b: Seq<(Seq<char>, Json)>,
)
    requires
        is_merged(items, a),
        is_merged(items, b),
    ensures
        a == b,
{
    assert forall|k: Seq<char>| #[trigger] lookup(a, k) == lookup(b, k) by {
        assert(lookup(b, k) == last_value(items, k));
    }
    sorted_pairs_unique(a, b);
}

} // verus!
