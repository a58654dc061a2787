//! Documents by position: what becomes of each part of a template when its
//! markers are collected, resolved, filled in or redirected.

use vstd::prelude::*;

use crate::json::Json;
use crate::refs::RefV;
use crate::runtime::error::RuntimeErrorV;

verus! {

use crate::json::single;
use crate::optimizer::rewrite::{follow, object_ref, rewritten, Aliases};
use crate::ordered::{has_key, key_position, lookup};
use crate::planner::recipes::{chained, substituted, substituted_entries, substituted_items};
use crate::refs::{parse_ref, ref_text, refs_in, refs_in_entries, refs_in_entry, refs_in_items};
use crate::runtime::resolve::{
    filled, filled_entries, filled_items, item_part, resolved, resolved_entries, resolved_items,
    resolved_ref,
};

// ---------------------------------------------------------------------------
// Positions
// ---------------------------------------------------------------------------

/// The element or member at a position.
pub open spec fn child(j: Json, i: int) -> Option<Json> {
    match j {
        Json::List(items) => if 0 <= i < items.len() {
            Some(items[i])
        } else {
            None
        },
        Json::Object(entries) => if 0 <= i < entries.len() {
            Some(entries[i].1)
        } else {
            None
        },
        _ => None,
    }
}

/// The part of a document at a path of positions.
pub open spec fn part(j: Json, at: Seq<int>) -> Option<Json>
    decreases at.len(),
{
    if at.len() == 0 {
        Some(j)
    } else {
        match child(j, at[0]) {
            Some(c) => part(c, at.drop_first()),
            None => None,
        }
    }
}

/// A scalar, an empty list or an empty object.
pub open spec fn is_leaf(j: Json) -> bool {
    match j {
        Json::List(items) => items.len() == 0,
        Json::Object(entries) => entries.len() == 0,
        _ => true,
    }
}

/// The document is an object with one member, of that name.
pub open spec fn is_marker(j: Json, key: Seq<char>) -> bool {
    j matches Json::Object(entries) && entries.len() == 1 && entries[0].0 == key
}

/// No document on the way to the position, short of its end, is an object
/// with one member of that name.
pub open spec fn clear_of(j: Json, at: Seq<int>, key: Seq<char>) -> bool
    decreases at.len(),
{
    at.len() > 0 ==> !is_marker(j, key) && (child(j, at[0]) matches Some(c) ==> clear_of(
        c,
        at.drop_first(),
        key,
    ))
}

/// An object with one member holds it under its name.
pub proof fn markers_hold_their_member(key: Seq<char>, v: Json)
    ensures
        lookup(seq![(key, v)], key) == Some(v),
        has_key(seq![(key, v)], key),
        is_marker(single(key, v), key),
        forall|other: Seq<char>| other != key ==> !#[trigger] has_key(seq![(key, v)], other),
{
    let s = seq![(key, v)];
    assert(s[0].0 == key);
    assert(has_key(s, key));
    assert(s[key_position(s, key)].0 == key);
}

proof fn lemma_marker(entries: Seq<(Seq<char>, Json)>, key: Seq<char>)
    ensures
        is_marker(Json::Object(entries), key) ==> {
            &&& has_key(entries, key)
            &&& lookup(entries, key) == Some(entries[0].1)
            &&& Json::Object(entries) == single(key, entries[0].1)
        },
        entries.len() == 1 && has_key(entries, key) ==> is_marker(Json::Object(entries), key),
{
    if is_marker(Json::Object(entries), key) {
        markers_hold_their_member(key, entries[0].1);
        assert(entries =~= seq![(key, entries[0].1)]);
    }
    if entries.len() == 1 && has_key(entries, key) {
        let i = choose|i: int| 0 <= i < entries.len() && (#[trigger] entries[i]).0 == key;
        assert(i == 0);
    }
}

/// The keys that stand for something else are different.
proof fn lemma_keys()
    ensures
        "$ref"@ != "$literal"@,
        "$ref"@ != "$item"@,
        "$ref"@ != "$prev"@,
        "$literal"@ != "$item"@,
        "$literal"@ != "$prev"@,
{
    reveal_strlit("$ref");
    reveal_strlit("$literal");
    reveal_strlit("$item");
    reveal_strlit("$prev");
    assert("$ref"@.len() == 4);
    assert("$literal"@.len() == 8);
    assert("$item"@.len() == 5);
    assert("$prev"@.len() == 5);
}

// ---------------------------------------------------------------------------
// Collection
// ---------------------------------------------------------------------------

proof fn lemma_item_refs(items: Seq<Json>, i: int)
    requires
        0 <= i < items.len(),
        refs_in_items(items) is Ok,
    ensures
        refs_in(items[i]) is Ok,
        forall|r: RefV| #[trigger]
            refs_in(items[i])->Ok_0.contains(r) ==> refs_in_items(items)->Ok_0.contains(r),
    decreases items.len(),
{
    let n = items.len() - 1;
    let front = items.subrange(0, n);
    let a = refs_in_items(front)->Ok_0;
    let b = refs_in(items[n])->Ok_0;
    assert(refs_in_items(items)->Ok_0 == a + b);
    if i < n {
        lemma_item_refs(front, i);
        assert(front[i] == items[i]);
        assert forall|r: RefV| #[trigger] refs_in(items[i])->Ok_0.contains(r) implies (a
            + b).contains(r) by {
            let k = choose|k: int| 0 <= k < a.len() && a[k] == r;
            assert((a + b)[k] == r);
        }
    } else {
        assert forall|r: RefV| #[trigger] refs_in(items[i])->Ok_0.contains(r) implies (a
            + b).contains(r) by {
            let k = choose|k: int| 0 <= k < b.len() && b[k] == r;
            assert((a + b)[a.len() + k] == r);
        }
    }
}

proof fn lemma_entry_refs(entries: Seq<(Seq<char>, Json)>, i: int)
    requires
        0 <= i < entries.len(),
        refs_in_entries(entries) is Ok,
    ensures
        refs_in(entries[i].1) is Ok,
        forall|r: RefV| #[trigger]
            refs_in(entries[i].1)->Ok_0.contains(r) ==> refs_in_entries(entries)->Ok_0.contains(r),
    decreases entries.len(),
{
    let n = entries.len() - 1;
    let front = entries.subrange(0, n);
    let a = refs_in_entries(front)->Ok_0;
    let b = refs_in_entry(entries[n])->Ok_0;
    assert(refs_in_entries(entries)->Ok_0 == a + b);
    if i < n {
        lemma_entry_refs(front, i);
        assert(front[i] == entries[i]);
        assert forall|r: RefV| #[trigger] refs_in(entries[i].1)->Ok_0.contains(r) implies (a
            + b).contains(r) by {
            let k = choose|k: int| 0 <= k < a.len() && a[k] == r;
            assert((a + b)[k] == r);
        }
    } else {
        assert forall|r: RefV| #[trigger] refs_in(entries[i].1)->Ok_0.contains(r) implies (a
            + b).contains(r) by {
            let k = choose|k: int| 0 <= k < b.len() && b[k] == r;
            assert((a + b)[a.len() + k] == r);
        }
    }
}

/// Every reference in a document is collected, wherever it stands, unless it
/// is literal data.
pub proof fn every_reference_is_collected(j: Json, at: Seq<int>, t: Seq<char>)
    requires
        part(j, at) == Some(single("$ref"@, Json::Text(t))),
        clear_of(j, at, "$literal"@),
        refs_in(j) is Ok,
    ensures
        parse_ref(t) is Ok,
        refs_in(j)->Ok_0.contains(parse_ref(t)->Ok_0),
    decreases at.len(),
{
    lemma_keys();
    if at.len() == 0 {
        markers_hold_their_member("$ref"@, Json::Text(t));
        let out = refs_in(j)->Ok_0;
        assert(out[0] == parse_ref(t)->Ok_0);
    } else {
        let rest = at.drop_first();
        let c = child(j, at[0])->0;
        match j {
            Json::List(items) => {
                lemma_item_refs(items, at[0]);
                every_reference_is_collected(c, rest, t);
            },
            Json::Object(entries) => {
                lemma_marker(entries, "$literal"@);
                lemma_marker(entries, "$ref"@);
                if has_key(entries, "$ref"@) {
                    // Its one member is a text, and nothing stands below.
                    assert(entries.len() == 1);
                    assert(c is Text);
                    assert(part(c, rest) != Some(single("$ref"@, Json::Text(t)))) by {
                        if rest.len() > 0 {
                            assert(child(c, rest[0]) is None);
                        }
                    }
                } else {
                    lemma_entry_refs(entries, at[0]);
                    every_reference_is_collected(c, rest, t);
                }
            },
            _ => {},
        }
    }
}

/// Literal data holds no reference.
pub proof fn literal_data_holds_no_reference(v: Json)
    ensures
        refs_in(single("$literal"@, v)) == Ok::<Seq<RefV>, crate::refs::RefErrorV>(Seq::empty()),
{
    markers_hold_their_member("$literal"@, v);
}

// ---------------------------------------------------------------------------
// Resolution
// ---------------------------------------------------------------------------

proof fn lemma_resolved_items(
    items: Seq<Json>,
    outputs: Map<Seq<char>, Json>,
    from: int,
)
    requires
        0 <= from <= items.len(),
        resolved_items(items, outputs, from) is Ok,
    ensures
        resolved_items(items, outputs, from)->Ok_0.len() == items.len() - from,
        forall|i: int|
            from <= i < items.len() ==> resolved(#[trigger] items[i], outputs) == Ok::<
                Json,
                RuntimeErrorV,
            >(resolved_items(items, outputs, from)->Ok_0[i - from]),
    decreases items.len() - from,
{
    if from < items.len() {
        lemma_resolved_items(items, outputs, from + 1);
        let out = resolved_items(items, outputs, from)->Ok_0;
        let rest = resolved_items(items, outputs, from + 1)->Ok_0;
        assert(out == seq![resolved(items[from], outputs)->Ok_0] + rest);
    }
}

proof fn lemma_resolved_entries(
    entries: Seq<(Seq<char>, Json)>,
    outputs: Map<Seq<char>, Json>,
    from: int,
)
    requires
        0 <= from <= entries.len(),
        resolved_entries(entries, outputs, from) is Ok,
    ensures
        resolved_entries(entries, outputs, from)->Ok_0.len() == entries.len() - from,
        forall|i: int|
            from <= i < entries.len() ==> {
                &&& resolved_entries(entries, outputs, from)->Ok_0[i - from].0 == (
                #[trigger] entries[i]).0
                &&& resolved(entries[i].1, outputs) == Ok::<Json, RuntimeErrorV>(
                    resolved_entries(entries, outputs, from)->Ok_0[i - from].1,
                )
            },
    decreases entries.len() - from,
{
    if from < entries.len() {
        lemma_resolved_entries(entries, outputs, from + 1);
        let out = resolved_entries(entries, outputs, from)->Ok_0;
        let rest = resolved_entries(entries, outputs, from + 1)->Ok_0;
        assert(out == seq![(entries[from].0, resolved(entries[from].1, outputs)->Ok_0)] + rest);
    }
}

/// Resolving a document goes on below a position that neither a reference nor
/// literal data stands at.
proof fn lemma_resolved_child(j: Json, outputs: Map<Seq<char>, Json>, i: int)
    requires
        resolved(j, outputs) is Ok,
        child(j, i) is Some,
        !is_marker(j, "$literal"@),
        !is_marker(j, "$ref"@),
    ensures
        child(resolved(j, outputs)->Ok_0, i) is Some,
        resolved(child(j, i)->0, outputs) == Ok::<Json, RuntimeErrorV>(
            child(resolved(j, outputs)->Ok_0, i)->0,
        ),
{
    match j {
        Json::List(items) => {
            lemma_resolved_items(items, outputs, 0);
        },
        Json::Object(entries) => {
            lemma_marker(entries, "$literal"@);
            lemma_marker(entries, "$ref"@);
            lemma_resolved_entries(entries, outputs, 0);
        },
        _ => {},
    }
}

/// Every reference is replaced by the output that it names, in place; literal
/// data is unwrapped in place; and every other scalar stays where it is.
pub proof fn references_are_resolved_in_place(
    j: Json,
    outputs: Map<Seq<char>, Json>,
    at: Seq<int>,
)
    requires
        resolved(j, outputs) is Ok,
        part(j, at) is Some,
        clear_of(j, at, "$literal"@),
        clear_of(j, at, "$ref"@),
    ensures
        part(resolved(j, outputs)->Ok_0, at) is Some,
        forall|t: Seq<char>|
            part(j, at) == Some(#[trigger] single("$ref"@, Json::Text(t))) ==> {
                &&& parse_ref(t) is Ok
                &&& resolved_ref(parse_ref(t)->Ok_0, outputs) is Ok
                &&& part(resolved(j, outputs)->Ok_0, at)->0 == resolved_ref(
                    parse_ref(t)->Ok_0,
                    outputs,
                )->Ok_0
            },
        forall|v: Json|
            part(j, at) == Some(#[trigger] single("$literal"@, v)) ==> part(
                resolved(j, outputs)->Ok_0,
                at,
            )->0 == v,
        is_leaf(part(j, at)->0) ==> part(resolved(j, outputs)->Ok_0, at)->0 == part(j, at)->0,
    decreases at.len(),
{
    lemma_keys();
    if at.len() == 0 {
        assert forall|t: Seq<char>| j == #[trigger] single("$ref"@, Json::Text(t)) implies {
            &&& parse_ref(t) is Ok
            &&& resolved_ref(parse_ref(t)->Ok_0, outputs) is Ok
            &&& resolved(j, outputs)->Ok_0 == resolved_ref(parse_ref(t)->Ok_0, outputs)->Ok_0
        } by {
            markers_hold_their_member("$ref"@, Json::Text(t));
        }
        assert forall|v: Json| j == #[trigger] single("$literal"@, v) implies resolved(
            j,
            outputs,
        )->Ok_0 == v by {
            markers_hold_their_member("$literal"@, v);
        }
        match j {
            Json::List(items) => {
                lemma_resolved_items(items, outputs, 0);
                if items.len() == 0 {
                    assert(resolved_items(items, outputs, 0)->Ok_0 =~= items);
                }
            },
            Json::Object(entries) => {
                if entries.len() == 0 {
                    lemma_resolved_entries(entries, outputs, 0);
                    assert(resolved_entries(entries, outputs, 0)->Ok_0 =~= entries);
                }
            },
            _ => {},
        }
    } else {
        lemma_resolved_child(j, outputs, at[0]);
        references_are_resolved_in_place(child(j, at[0])->0, outputs, at.drop_first());
    }
}

/// Resolving keeps the shape of what surrounds references and literal data:
/// lists keep their length, and objects their keys in order.
pub proof fn resolution_keeps_shapes(j: Json, outputs: Map<Seq<char>, Json>)
    requires
        resolved(j, outputs) is Ok,
        !is_marker(j, "$literal"@),
        !is_marker(j, "$ref"@),
    ensures
        j matches Json::List(items) ==> (resolved(j, outputs)->Ok_0 matches Json::List(out)
            && out.len() == items.len()),
        j matches Json::Object(entries) ==> (resolved(j, outputs)->Ok_0 matches Json::Object(out)
            && out.len() == entries.len() && forall|i: int|
            0 <= i < out.len() ==> (#[trigger] out[i]).0 == entries[i].0),
{
    match j {
        Json::List(items) => {
            lemma_resolved_items(items, outputs, 0);
        },
        Json::Object(entries) => {
            lemma_marker(entries, "$literal"@);
            lemma_marker(entries, "$ref"@);
            lemma_resolved_entries(entries, outputs, 0);
            let out = resolved(j, outputs)->Ok_0->Object_0;
            assert forall|i: int| 0 <= i < out.len() implies (#[trigger] out[i]).0 == entries[i].0 by {
                assert(entries[i].0 == entries[i].0);
            }
        },
        _ => {},
    }
}

// ---------------------------------------------------------------------------
// Fan-out items
// ---------------------------------------------------------------------------

proof fn lemma_filled_items(items: Seq<Json>, item: Json, from: int)
    requires
        0 <= from <= items.len(),
        filled_items(items, item, from) is Ok,
    ensures
        filled_items(items, item, from)->Ok_0.len() == items.len() - from,
        forall|i: int|
            from <= i < items.len() ==> filled(#[trigger] items[i], item) == Ok::<
                Json,
                RuntimeErrorV,
            >(filled_items(items, item, from)->Ok_0[i - from]),
    decreases items.len() - from,
{
    if from < items.len() {
        lemma_filled_items(items, item, from + 1);
        let out = filled_items(items, item, from)->Ok_0;
        let rest = filled_items(items, item, from + 1)->Ok_0;
        assert(out == seq![filled(items[from], item)->Ok_0] + rest);
    }
}

proof fn lemma_filled_entries(entries: Seq<(Seq<char>, Json)>, item: Json, from: int)
    requires
        0 <= from <= entries.len(),
        filled_entries(entries, item, from) is Ok,
    ensures
        filled_entries(entries, item, from)->Ok_0.len() == entries.len() - from,
        forall|i: int|
            from <= i < entries.len() ==> {
                &&& filled_entries(entries, item, from)->Ok_0[i - from].0 == (
                #[trigger] entries[i]).0
                &&& filled(entries[i].1, item) == Ok::<Json, RuntimeErrorV>(
                    filled_entries(entries, item, from)->Ok_0[i - from].1,
                )
            },
    decreases entries.len() - from,
{
    if from < entries.len() {
        lemma_filled_entries(entries, item, from + 1);
        let out = filled_entries(entries, item, from)->Ok_0;
        let rest = filled_entries(entries, item, from + 1)->Ok_0;
        assert(out == seq![(entries[from].0, filled(entries[from].1, item)->Ok_0)] + rest);
    }
}

/// Every item marker is replaced by the part of the item that it names, in
/// place: the empty path is the whole item. Literal data and every other
/// scalar stay as they are.
pub proof fn items_are_filled_in_place(j: Json, item: Json, at: Seq<int>)
    requires
        filled(j, item) is Ok,
        part(j, at) is Some,
        clear_of(j, at, "$literal"@),
        clear_of(j, at, "$item"@),
    ensures
        part(filled(j, item)->Ok_0, at) is Some,
        forall|path: Seq<char>|
            part(j, at) == Some(#[trigger] single("$item"@, Json::Text(path))) ==> {
                &&& item_part(item, path) is Some
                &&& part(filled(j, item)->Ok_0, at)->0 == item_part(item, path)->0
                &&& path.len() == 0 ==> part(filled(j, item)->Ok_0, at)->0 == item
            },
        is_marker(part(j, at)->0, "$literal"@) ==> part(filled(j, item)->Ok_0, at) == part(j, at),
        is_leaf(part(j, at)->0) ==> part(filled(j, item)->Ok_0, at) == part(j, at),
    decreases at.len(),
{
    lemma_keys();
    if at.len() == 0 {
        assert forall|path: Seq<char>| j == #[trigger] single("$item"@, Json::Text(path)) implies {
            &&& item_part(item, path) is Some
            &&& filled(j, item)->Ok_0 == item_part(item, path)->0
        } by {
            markers_hold_their_member("$item"@, Json::Text(path));
        }
        match j {
            Json::List(items) => {
                lemma_filled_items(items, item, 0);
                if items.len() == 0 {
                    assert(filled_items(items, item, 0)->Ok_0 =~= items);
                }
            },
            Json::Object(entries) => {
                lemma_marker(entries, "$literal"@);
                lemma_marker(entries, "$item"@);
                if entries.len() == 0 {
                    lemma_filled_entries(entries, item, 0);
                    assert(filled_entries(entries, item, 0)->Ok_0 =~= entries);
                }
            },
            _ => {},
        }
    } else {
        match j {
            Json::List(items) => {
                lemma_filled_items(items, item, 0);
            },
            Json::Object(entries) => {
                lemma_marker(entries, "$literal"@);
                lemma_marker(entries, "$item"@);
                lemma_filled_entries(entries, item, 0);
            },
            _ => {},
        }
        items_are_filled_in_place(child(j, at[0])->0, item, at.drop_first());
    }
}

// ---------------------------------------------------------------------------
// Parameters
// ---------------------------------------------------------------------------

proof fn lemma_substituted_items(items: Seq<Json>, params: Seq<(Seq<char>, Json)>, from: int)
    requires
        0 <= from <= items.len(),
        substituted_items(items, params, from) is Ok,
    ensures
        substituted_items(items, params, from)->Ok_0.len() == items.len() - from,
        forall|i: int|
            from <= i < items.len() ==> substituted(#[trigger] items[i], params) == Ok::<
                Json,
                Seq<char>,
            >(substituted_items(items, params, from)->Ok_0[i - from]),
    decreases items.len() - from,
{
    if from < items.len() {
        lemma_substituted_items(items, params, from + 1);
        let out = substituted_items(items, params, from)->Ok_0;
        let rest = substituted_items(items, params, from + 1)->Ok_0;
        assert(out == seq![substituted(items[from], params)->Ok_0] + rest);
    }
}

proof fn lemma_substituted_entries(
    entries: Seq<(Seq<char>, Json)>,
    params: Seq<(Seq<char>, Json)>,
    from: int,
)
    requires
        0 <= from <= entries.len(),
        substituted_entries(entries, params, from) is Ok,
    ensures
        substituted_entries(entries, params, from)->Ok_0.len() == entries.len() - from,
        forall|i: int|
            from <= i < entries.len() ==> {
                &&& substituted_entries(entries, params, from)->Ok_0[i - from].0 == (
                #[trigger] entries[i]).0
                &&& substituted(entries[i].1, params) == Ok::<Json, Seq<char>>(
                    substituted_entries(entries, params, from)->Ok_0[i - from].1,
                )
            },
    decreases entries.len() - from,
{
    if from < entries.len() {
        lemma_substituted_entries(entries, params, from + 1);
        let out = substituted_entries(entries, params, from)->Ok_0;
        let rest = substituted_entries(entries, params, from + 1)->Ok_0;
        assert(out == seq![(entries[from].0, substituted(entries[from].1, params)->Ok_0)] + rest);
    }
}

/// Every placeholder is replaced by the value of the parameter that it names,
/// in place, and every other scalar stays as it is.
pub proof fn parameters_are_put_in_place(j: Json, params: Seq<(Seq<char>, Json)>, at: Seq<int>)
    requires
        substituted(j, params) is Ok,
        part(j, at) is Some,
        clear_of(j, at, "$param"@),
    ensures
        part(substituted(j, params)->Ok_0, at) is Some,
        forall|name: Seq<char>|
            part(j, at) == Some(#[trigger] single("$param"@, Json::Text(name))) ==> lookup(
                params,
                name,
            ) == part(substituted(j, params)->Ok_0, at),
        is_leaf(part(j, at)->0) ==> part(substituted(j, params)->Ok_0, at) == part(j, at),
    decreases at.len(),
{
    if at.len() == 0 {
        assert forall|name: Seq<char>| j == #[trigger] single("$param"@, Json::Text(name)) implies lookup(
            params,
            name,
        ) == Some(substituted(j, params)->Ok_0) by {
            markers_hold_their_member("$param"@, Json::Text(name));
        }
        match j {
            Json::List(items) => {
                lemma_substituted_items(items, params, 0);
                if items.len() == 0 {
                    assert(substituted_items(items, params, 0)->Ok_0 =~= items);
                }
            },
            Json::Object(entries) => {
                if entries.len() == 0 {
                    lemma_substituted_entries(entries, params, 0);
                    assert(substituted_entries(entries, params, 0)->Ok_0 =~= entries);
                }
            },
            _ => {},
        }
    } else {
        match j {
            Json::List(items) => {
                lemma_substituted_items(items, params, 0);
            },
            Json::Object(entries) => {
                lemma_marker(entries, "$param"@);
                lemma_substituted_entries(entries, params, 0);
            },
            _ => {},
        }
        parameters_are_put_in_place(child(j, at[0])->0, params, at.drop_first());
    }
}

// ---------------------------------------------------------------------------
// Chaining
// ---------------------------------------------------------------------------

/// The reference to a part of the output of a node, as a document.
pub open spec fn reference_to(node: Seq<char>, path: Seq<char>) -> Json {
    single(
        "$ref"@,
        Json::Text(
            if path.len() == 0 {
                node + ".output"@
            } else {
                node + ".output."@ + path
            },
        ),
    )
}

/// Every marker of the previous output becomes a reference to the previous
/// node, in place, with the path of the marker; every other scalar stays as it
/// is.
pub proof fn previous_markers_become_references(j: Json, previous: Seq<char>, at: Seq<int>)
    requires
        part(j, at) is Some,
        clear_of(j, at, "$prev"@),
    ensures
        forall|path: Seq<char>|
            part(j, at) == Some(#[trigger] single("$prev"@, Json::Text(path))) ==> part(
                chained(j, previous),
                at,
            ) == Some(reference_to(previous, path)),
        is_leaf(part(j, at)->0) ==> part(chained(j, previous), at) == part(j, at),
    decreases at.len(),
{
    if at.len() == 0 {
        assert forall|path: Seq<char>| j == #[trigger] single("$prev"@, Json::Text(path)) implies chained(
            j,
            previous,
        ) == reference_to(previous, path) by {
            markers_hold_their_member("$prev"@, Json::Text(path));
        }
        match j {
            Json::List(items) => {
                if items.len() == 0 {
                    assert(chained(j, previous)->List_0 =~= items);
                }
            },
            Json::Object(entries) => {
                if entries.len() == 0 {
                    assert(chained(j, previous)->Object_0 =~= entries);
                }
            },
            _ => {},
        }
    } else {
        match j {
            Json::Object(entries) => {
                lemma_marker(entries, "$prev"@);
            },
            _ => {},
        }
        previous_markers_become_references(child(j, at[0])->0, previous, at.drop_first());
    }
}

// ---------------------------------------------------------------------------
// Redirection
// ---------------------------------------------------------------------------

/// Every reference is redirected to the node that stands for the one it
/// names, in place and with its path; literal data and every other scalar stay
/// as they are.
pub proof fn references_are_redirected_in_place(
    j: Json,
    aliases: Aliases,
    steps: nat,
    at: Seq<int>,
)
    requires
        part(j, at) is Some,
        clear_of(j, at, "$literal"@),
        clear_of(j, at, "$ref"@),
    ensures
        forall|t: Seq<char>|
            part(j, at) == Some(#[trigger] single("$ref"@, Json::Text(t))) && parse_ref(t) is Ok
                ==> part(rewritten(j, aliases, steps), at) == Some(
                single(
                    "$ref"@,
                    Json::Text(
                        ref_text(
                            RefV {
                                node: follow(aliases, parse_ref(t)->Ok_0.node, steps),
                                path: parse_ref(t)->Ok_0.path,
                            },
                        ),
                    ),
                ),
            ),
        is_marker(part(j, at)->0, "$literal"@) ==> part(rewritten(j, aliases, steps), at) == part(
            j,
            at,
        ),
        is_leaf(part(j, at)->0) ==> part(rewritten(j, aliases, steps), at) == part(j, at),
    decreases at.len(),
{
    lemma_keys();
    if at.len() == 0 {
        assert forall|t: Seq<char>|
            j == #[trigger] single("$ref"@, Json::Text(t)) && parse_ref(t) is Ok implies rewritten(
            j,
            aliases,
            steps,
        ) == single(
            "$ref"@,
            Json::Text(
                ref_text(
                    RefV {
                        node: follow(aliases, parse_ref(t)->Ok_0.node, steps),
                        path: parse_ref(t)->Ok_0.path,
                    },
                ),
            ),
        ) by {
            markers_hold_their_member("$ref"@, Json::Text(t));
        }
        match j {
            Json::List(items) => {
                if items.len() == 0 {
                    assert(rewritten(j, aliases, steps)->List_0 =~= items);
                }
            },
            Json::Object(entries) => {
                lemma_marker(entries, "$literal"@);
                if entries.len() == 0 {
                    assert(rewritten(j, aliases, steps)->Object_0 =~= entries);
                }
            },
            _ => {},
        }
    } else {
        match j {
            Json::Object(entries) => {
                lemma_marker(entries, "$literal"@);
                lemma_marker(entries, "$ref"@);
                if object_ref(entries) is Some {
                    assert(entries.len() == 1 && has_key(entries, "$ref"@));
                }
            },
            _ => {},
        }
        references_are_redirected_in_place(
            child(j, at[0])->0,
            aliases,
            steps,
            at.drop_first(),
        );
    }
}

} // verus!
