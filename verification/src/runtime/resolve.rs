//! Reference resolution: `$ref`, `$literal`, and `$item`.

use vstd::prelude::*;

use crate::canonical::canonical_json_string;
use crate::json::{Json, Value};
use crate::ordered::StrMap;
use crate::plan::ITEM_KEY;
use crate::refs::{RefV, ValueRef, LITERAL_KEY, REF_KEY};
use crate::runtime::error::{RuntimeError, RuntimeErrorV};
use crate::scan::parse_index;
use crate::text::{concat2, same_text, split_text, wrapped};

verus! {

use crate::canonical::canonical;
use crate::json::{array_smaller, entries_view, object_smaller, values_view};
use crate::ordered::{gives, has_key, lookup, map_view, opt_view, prepend, sorted_pairs};
use crate::refs::{is_literal_object, parse_ref, ref_error_text};
use crate::scan::parsed_number;
use crate::text::{lex_less, split_on, texts_view};
use crate::value::entries_lookup;

broadcast use {crate::json::group_json_views, crate::ordered::pairs_decrease};

// ---------------------------------------------------------------------------
// Model
// ---------------------------------------------------------------------------

/// The part of a document that one path segment names: a member of an object
/// or, by its index, an element of a list.
pub open spec fn stepped(j: Json, segment: Seq<char>) -> Option<Json> {
    match j {
        Json::Object(entries) => lookup(entries, segment),
        Json::List(items) => match parsed_number(segment, usize::MAX as nat) {
            Some(i) => if i < items.len() {
                Some(items[i as int])
            } else {
                None
            },
            None => None,
        },
        _ => None,
    }
}

/// The part of a document at the end of a path from position `from` on, or
/// the first segment that leads nowhere.
pub open spec fn walked(j: Json, path: Seq<Seq<char>>, from: int) -> Result<Json, Seq<char>>
    decreases path.len() - from,
{
    if from >= path.len() {
        Ok(j)
    } else {
        match stepped(j, path[from]) {
            Some(next) => walked(next, path, from + 1),
            None => Err(path[from]),
        }
    }
}

/// What a reference stands for.
pub open spec fn resolved_ref(
    r: RefV,
    outputs: Map<Seq<char>, Json>,
) -> Result<Json, RuntimeErrorV> {
    if outputs.dom().contains(r.node) {
        match walked(outputs[r.node], r.path, 0) {
            Ok(v) => Ok(v),
            Err(segment) => Err(RuntimeErrorV::MissingPath { reference: r, segment }),
        }
    } else {
        Err(RuntimeErrorV::MissingNodeOutput(r.node))
    }
}

/// The text that an object with one member holds under the key.
pub open spec fn marker_text(entries: Seq<(Seq<char>, Json)>, key: Seq<char>) -> Option<Seq<char>> {
    match lookup(entries, key) {
        Some(Json::Text(t)) => if entries.len() == 1 {
            Some(t)
        } else {
            None
        },
        _ => None,
    }
}

/// The part of a fan-out item at a dotted path; the empty path is the item.
pub open spec fn item_part(item: Json, path: Seq<char>) -> Option<Json> {
    if path.len() == 0 {
        Some(item)
    } else {
        match walked(item, split_on(path, '.'), 0) {
            Ok(v) => Some(v),
            Err(_) => None,
        }
    }
}

/// What an item marker stands for.
pub open spec fn item_marker(marker: Json, item: Json) -> Result<Json, RuntimeErrorV> {
    match marker {
        Json::Text(path) => match item_part(item, path) {
            Some(v) => Ok(v),
            None => Err(
                RuntimeErrorV::InvalidRef("fan-out item has no path '"@ + path + "'"@),
            ),
        },
        _ => Err(
            RuntimeErrorV::InvalidRef(
                "'$item' path must be a string, found "@ + canonical(marker),
            ),
        ),
    }
}

/// A document with every `$ref` replaced by what it refers to and every
/// `$literal` unwrapped; `$item` markers stay in place.
pub open spec fn resolved(j: Json, outputs: Map<Seq<char>, Json>) -> Result<Json, RuntimeErrorV>
    decreases j, 0int,
{
    match j {
        Json::Object(entries) => if is_literal_object(entries) {
            Ok(lookup(entries, LITERAL_KEY@)->0)
        } else {
            match marker_text(entries, REF_KEY@) {
                Some(raw) => match parse_ref(raw) {
                    Ok(r) => resolved_ref(r, outputs),
                    Err(e) => Err(RuntimeErrorV::InvalidRef(ref_error_text(e))),
                },
                None => match resolved_entries(entries, outputs, 0) { Ok(out) => Ok(Json::Object(out)), Err(e) => Err(e) },
            }
        },
        Json::List(items) => match resolved_items(items, outputs, 0) {
            Ok(out) => Ok(Json::List(out)),
            Err(e) => Err(e),
        },
        _ => Ok(j),
    }
}

/// The elements of a list from position `from` on.
pub open spec fn resolved_items(items: Seq<Json>, outputs: Map<Seq<char>, Json>, from: int) -> Result<Seq<Json>, RuntimeErrorV>
    decreases items, items.len() - from,
{
    if 0 <= from < items.len() {
        match resolved(items[from], outputs) {
            Ok(v) => prepend(seq![v], resolved_items(items, outputs, from + 1)),
            Err(e) => Err(e),
        }
    } else {
        Ok(Seq::empty())
    }
}

/// The members of an object from position `from` on.
pub open spec fn resolved_entries(
    entries: Seq<(Seq<char>, Json)>,
    outputs: Map<Seq<char>, Json>,
    from: int,
) -> Result<Seq<(Seq<char>, Json)>, RuntimeErrorV>
    decreases entries, entries.len() - from,
{
    if 0 <= from < entries.len() {
        match resolved(entries[from].1, outputs) {
            Ok(v) => prepend(
                seq![(entries[from].0, v)],
                resolved_entries(entries, outputs, from + 1),
            ),
            Err(e) => Err(e),
        }
    } else {
        Ok(Seq::empty())
    }
}

/// A template with every `$item` marker replaced by the part of the item that
/// it names. Literal data stays as it is.
pub open spec fn filled(j: Json, item: Json) -> Result<Json, RuntimeErrorV>
    decreases j, 0int,
{
    match j {
        Json::Object(entries) => if entries.len() == 1 && has_key(entries, ITEM_KEY@) {
            item_marker(lookup(entries, ITEM_KEY@)->0, item)
        } else if is_literal_object(entries) {
            Ok(j)
        } else {
            match filled_entries(entries, item, 0) { Ok(out) => Ok(Json::Object(out)), Err(e) => Err(e) }
        },
        Json::List(items) => match filled_items(items, item, 0) {
            Ok(out) => Ok(Json::List(out)),
            Err(e) => Err(e),
        },
        _ => Ok(j),
    }
}

/// The elements of a list from position `from` on.
pub open spec fn filled_items(items: Seq<Json>, item: Json, from: int) -> Result<Seq<Json>, RuntimeErrorV>
    decreases items, items.len() - from,
{
    if 0 <= from < items.len() {
        match filled(items[from], item) {
            Ok(v) => prepend(seq![v], filled_items(items, item, from + 1)),
            Err(e) => Err(e),
        }
    } else {
        Ok(Seq::empty())
    }
}

/// The members of an object from position `from` on.
pub open spec fn filled_entries(
    entries: Seq<(Seq<char>, Json)>,
    item: Json,
    from: int,
) -> Result<Seq<(Seq<char>, Json)>, RuntimeErrorV>
    decreases entries, entries.len() - from,
{
    if 0 <= from < entries.len() {
        match filled(entries[from].1, item) {
            Ok(v) => prepend(
                seq![(entries[from].0, v)],
                filled_entries(entries, item, from + 1),
            ),
            Err(e) => Err(e),
        }
    } else {
        Ok(Seq::empty())
    }
}

// ---------------------------------------------------------------------------
// Resolution
// ---------------------------------------------------------------------------

fn text_under<'a>(map: &'a StrMap<Value>, key: &str) -> (r: Option<&'a String>)
    ensures
        match (r, marker_text(entries_view(*map), key@)) {
            (Some(t), Some(m)) => t@ == m,
            (None, None) => true,
            _ => false,
        },
{
    map.prove_sorted();
    proof {
        entries_lookup(*map, key@);
    }
    if map.len() != 1 {
        return None;
    }
    match map.get(key) {
        Some(Value::String(t)) => Some(t),
        _ => None,
    }
}

/// The part of a value that one path segment names.
pub fn step_into<'a>(current: &'a Value, segment: &str) -> (r: Option<&'a Value>)
    ensures
        match (r, stepped(current@, segment@)) {
            (Some(v), Some(m)) => v@ == m,
            (None, None) => true,
            _ => false,
        },
{
    match current {
        Value::Object(map) => {
            map.prove_sorted();
            proof {
                entries_lookup(*map, segment@);
            }
            map.get(segment)
        },
        Value::Array(items) => match parse_index(segment) {
            Some(i) => if i < items.len() {
                assert(values_view(items@)[i as int] == items@[i as int]@);
                Some(&items[i])
            } else {
                None
            },
            None => None,
        },
        _ => None,
    }
}

/// The part of a value at the end of a path, or the position of the first
/// segment that leads nowhere.
pub fn walk_path<'a>(value: &'a Value, path: &Vec<String>) -> (r: Result<&'a Value, usize>)
    ensures
        match (r, walked(value@, texts_view(path@), 0)) {
            (Ok(v), Ok(m)) => v@ == m,
            (Err(i), Err(segment)) => i < path@.len() && path@[i as int]@ == segment,
            _ => false,
        },
{
    let ghost segments = texts_view(path@);
    let mut current: &'a Value = value;
    let mut i: usize = 0;
    while i < path.len()
        invariant
            i <= path@.len(),
            segments == texts_view(path@),
            walked(value@, segments, 0) == walked(current@, segments, i as int),
        decreases path.len() - i,
    {
        assert(segments[i as int] == path@[i as int]@);
        match step_into(current, path[i].as_str()) {
            Some(next) => {
                current = next;
            },
            None => {
                return Err(i);
            },
        }
        i = i + 1;
    }
    Ok(current)
}

/// Resolves one reference against the recorded node outputs.
pub fn resolve_value_ref(value_ref: &ValueRef, node_outputs: &StrMap<Value>) -> (r: Result<
    Value,
    RuntimeError,
>)
    ensures
        gives(r, resolved_ref(value_ref@, map_view(*node_outputs))),
{
    match node_outputs.get(value_ref.node()) {
        None => Err(RuntimeError::MissingNodeOutput(value_ref.node().to_owned())),
        Some(output) => {
            let path = value_ref.path();
            match walk_path(output, path) {
                Ok(value) => Ok(value.clone()),
                Err(at) => {
                    let segment = path[at].clone();
                    Err(RuntimeError::MissingPath { reference: value_ref.clone(), segment })
                },
            }
        },
    }
}

/// Resolves one reference against a set of node outputs, for hosts that
/// post-process the outputs of a run.
pub fn resolve_output_ref(value_ref: &ValueRef, node_outputs: &StrMap<Value>) -> (r: Result<
    Value,
    RuntimeError,
>)
    ensures
        gives(r, resolved_ref(value_ref@, map_view(*node_outputs))),
{
    resolve_value_ref(value_ref, node_outputs)
}

/// Resolves every `$ref` in `value` against `node_outputs`, unwraps
/// `$literal` escapes, and leaves `$item` markers in place (they are
/// substituted per element during `for_each` expansion).
pub fn resolve_input(value: &Value, node_outputs: &StrMap<Value>) -> (r: Result<Value, RuntimeError>)
    ensures
        gives(r, resolved(value@, map_view(*node_outputs))),
    decreases value,
{
    let ghost outputs = map_view(*node_outputs);
    match value {
        Value::Object(map) => {
            let ghost entries = entries_view(*map);
            map.prove_sorted();
            proof {
                entries_lookup(*map, LITERAL_KEY@);
            }
            if map.len() == 1 {
                if let Some(literal) = map.get(LITERAL_KEY) {
                    return Ok(literal.clone());
                }
            }
            if let Some(raw) = text_under(map, REF_KEY) {
                return match ValueRef::parse(raw.as_str()) {
                    Ok(value_ref) => resolve_value_ref(&value_ref, node_outputs),
                    Err(e) => Err(RuntimeError::InvalidRef(e.message())),
                };
            }
            let mut out: StrMap<Value> = StrMap::new();
            let mut i: usize = 0;
            assert(entries_view(out) =~= Seq::empty());
            proof {
                let rest = resolved_entries(entries, outputs, 0);
                if rest is Ok {
                    assert(Seq::empty() + rest->Ok_0 =~= rest->Ok_0);
                }
            }
            while i < map.len()
                invariant
                    i <= map.pairs().len(),
                    *value == Value::Object(*map),
                    entries == entries_view(*map),
                    outputs == map_view(*node_outputs),
                    !is_literal_object(entries),
                    marker_text(entries, REF_KEY@) is None,
                    sorted_pairs(map.pairs()),
                    out.pairs().len() == i,
                    forall|j: int| 0 <= j < i ==> (#[trigger] out.pairs()[j]).0 == map.pairs()[j].0,
                    resolved_entries(entries, outputs, 0) == prepend(
                        entries_view(out),
                        resolved_entries(entries, outputs, i as int),
                    ),
                decreases map.pairs().len() - i,
            {
                proof {
                    object_smaller(*value, i as int);
                }
                match resolve_input(map.value_at(i), node_outputs) {
                    Ok(item) => {
                        let key = map.key_at(i).to_owned();
                        assert forall|j: int| 0 <= j < out.pairs().len() implies lex_less(
                            #[trigger] out.pairs()[j].0,
                            key@,
                        ) by {
                            assert(lex_less(map.pairs()[j].0, map.pairs()[i as int].0));
                        }
                        let ghost before = entries_view(out);
                        let ghost one = (key@, item@);
                        out.push(key, item);
                        proof {
                            assert(entries_view(out) =~= before.push(one));
                            let rest = resolved_entries(entries, outputs, i + 1);
                            if rest is Ok {
                                assert(before + (seq![one] + rest->Ok_0) =~= before.push(one)
                                    + rest->Ok_0);
                            }
                        }
                    },
                    Err(e) => {
                        return Err(e);
                    },
                }
                i = i + 1;
            }
            assert(entries_view(out) + Seq::empty() =~= entries_view(out));
            Ok(Value::Object(out))
        },
        Value::Array(items) => {
            let ghost docs = values_view(items@);
            let mut out: Vec<Value> = Vec::new();
            let mut i: usize = 0;
            assert(values_view(out@) =~= Seq::empty());
            proof {
                let rest = resolved_items(docs, outputs, 0);
                if rest is Ok {
                    assert(Seq::empty() + rest->Ok_0 =~= rest->Ok_0);
                }
            }
            while i < items.len()
                invariant
                    i <= items@.len(),
                    *value == Value::Array(*items),
                    docs == values_view(items@),
                    outputs == map_view(*node_outputs),
                    resolved_items(docs, outputs, 0) == prepend(
                        values_view(out@),
                        resolved_items(docs, outputs, i as int),
                    ),
                decreases items.len() - i,
            {
                proof {
                    array_smaller(*value, i as int);
                }
                match resolve_input(&items[i], node_outputs) {
                    Ok(item) => {
                        let ghost before = values_view(out@);
                        let ghost one = item@;
                        out.push(item);
                        proof {
                            assert(values_view(out@) =~= before.push(one));
                            let rest = resolved_items(docs, outputs, i + 1);
                            if rest is Ok {
                                assert(before + (seq![one] + rest->Ok_0) =~= before.push(one)
                                    + rest->Ok_0);
                            }
                        }
                    },
                    Err(e) => {
                        return Err(e);
                    },
                }
                i = i + 1;
            }
            assert(values_view(out@) + Seq::empty() =~= values_view(out@));
            Ok(Value::Array(out))
        },
        _ => Ok(value.clone()),
    }
}

fn item_at_path(item: &Value, path: &str) -> (r: Option<Value>)
    ensures
        opt_view(r) == item_part(item@, path@),
{
    proof {
        reveal_strlit("");
    }
    if same_text(path, "") {
        return Some(item.clone());
    }
    proof {
        if path@.len() == 0 {
            assert(path@ =~= ""@);
        }
    }
    let segments = split_text(path, '.');
    match walk_path(item, &segments) {
        Ok(value) => Some(value.clone()),
        Err(_) => None,
    }
}

fn resolve_marker(marker: &Value, item: &Value) -> (r: Result<Value, RuntimeError>)
    ensures
        gives(r, item_marker(marker@, item@)),
{
    match marker {
        Value::String(path) => match item_at_path(item, path.as_str()) {
            Some(value) => Ok(value),
            None => Err(
                RuntimeError::InvalidRef(wrapped("fan-out item has no path '", path.as_str(), "'")),
            ),
        },
        _ => Err(
            RuntimeError::InvalidRef(
                concat2(
                    "'$item' path must be a string, found ",
                    canonical_json_string(marker).as_str(),
                ),
            ),
        ),
    }
}

/// Substitutes `{"$item": <path>}` markers in a `for_each` input template
/// with the corresponding parts of `item`.
pub fn substitute_item(value: &Value, item: &Value) -> (r: Result<Value, RuntimeError>)
    ensures
        gives(r, filled(value@, item@)),
    decreases value,
{
    let ghost it = item@;
    match value {
        Value::Object(map) => {
            let ghost entries = entries_view(*map);
            map.prove_sorted();
            proof {
                entries_lookup(*map, LITERAL_KEY@);
                entries_lookup(*map, ITEM_KEY@);
            }
            if map.len() == 1 {
                if let Some(marker) = map.get(ITEM_KEY) {
                    return resolve_marker(marker, item);
                }
                if map.contains_key(LITERAL_KEY) {
                    return Ok(value.clone());
                }
            }
            let mut out: StrMap<Value> = StrMap::new();
            let mut i: usize = 0;
            assert(entries_view(out) =~= Seq::empty());
            proof {
                let rest = filled_entries(entries, it, 0);
                if rest is Ok {
                    assert(Seq::empty() + rest->Ok_0 =~= rest->Ok_0);
                }
            }
            while i < map.len()
                invariant
                    i <= map.pairs().len(),
                    *value == Value::Object(*map),
                    entries == entries_view(*map),
                    it == item@,
                    !is_literal_object(entries),
                    !(entries.len() == 1 && has_key(entries, ITEM_KEY@)),
                    sorted_pairs(map.pairs()),
                    out.pairs().len() == i,
                    forall|j: int| 0 <= j < i ==> (#[trigger] out.pairs()[j]).0 == map.pairs()[j].0,
                    filled_entries(entries, it, 0) == prepend(
                        entries_view(out),
                        filled_entries(entries, it, i as int),
                    ),
                decreases map.pairs().len() - i,
            {
                proof {
                    object_smaller(*value, i as int);
                }
                match substitute_item(map.value_at(i), item) {
                    Ok(item) => {
                        let key = map.key_at(i).to_owned();
                        assert forall|j: int| 0 <= j < out.pairs().len() implies lex_less(
                            #[trigger] out.pairs()[j].0,
                            key@,
                        ) by {
                            assert(lex_less(map.pairs()[j].0, map.pairs()[i as int].0));
                        }
                        let ghost before = entries_view(out);
                        let ghost one = (key@, item@);
                        out.push(key, item);
                        proof {
                            assert(entries_view(out) =~= before.push(one));
                            let rest = filled_entries(entries, it, i + 1);
                            if rest is Ok {
                                assert(before + (seq![one] + rest->Ok_0) =~= before.push(one)
                                    + rest->Ok_0);
                            }
                        }
                    },
                    Err(e) => {
                        return Err(e);
                    },
                }
                i = i + 1;
            }
            assert(entries_view(out) + Seq::empty() =~= entries_view(out));
            Ok(Value::Object(out))
        },
        Value::Array(items) => {
            let ghost docs = values_view(items@);
            let mut out: Vec<Value> = Vec::new();
            let mut i: usize = 0;
            assert(values_view(out@) =~= Seq::empty());
            proof {
                let rest = filled_items(docs, it, 0);
                if rest is Ok {
                    assert(Seq::empty() + rest->Ok_0 =~= rest->Ok_0);
                }
            }
            while i < items.len()
                invariant
                    i <= items@.len(),
                    *value == Value::Array(*items),
                    docs == values_view(items@),
                    it == item@,
                    filled_items(docs, it, 0) == prepend(
                        values_view(out@),
                        filled_items(docs, it, i as int),
                    ),
                decreases items.len() - i,
            {
                proof {
                    array_smaller(*value, i as int);
                }
                match substitute_item(&items[i], item) {
                    Ok(item) => {
                        let ghost before = values_view(out@);
                        let ghost one = item@;
                        out.push(item);
                        proof {
                            assert(values_view(out@) =~= before.push(one));
                            let rest = filled_items(docs, it, i + 1);
                            if rest is Ok {
                                assert(before + (seq![one] + rest->Ok_0) =~= before.push(one)
                                    + rest->Ok_0);
                            }
                        }
                    },
                    Err(e) => {
                        return Err(e);
                    },
                }
                i = i + 1;
            }
            assert(values_view(out@) + Seq::empty() =~= values_view(out@));
            Ok(Value::Array(out))
        },
        _ => Ok(value.clone()),
    }
}

} // verus!
