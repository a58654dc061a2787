//! Paths into documents, the built-in data tools, and what a result shows.

use vstd::prelude::*;
use vstd::utf8::encode_utf8;

use crate::adapters::api::ToolErrorV;
use crate::json::{Json, NumberV};
use crate::refs::RefV;
use crate::runtime::error::RuntimeErrorV;

verus! {

use crate::canonical::canonical;
use crate::effects::scalar_at;
use crate::laws::documents::{child, part};
use crate::laws::retries::{parts_are_cut_out, reads};
use crate::laws::templates::{
    every_placeholder_is_filled, one_open_placeholder_keeps_the_template, placeholders, scalars,
    splitting_cuts_at_separators, surround, woven,
};
use crate::ordered::{has_key, lookup};
use crate::runtime::builtin::{
    is_builtin_result, is_merge_result, last_value, nonempty, picked, rendered,
};
use crate::runtime::resolve::{item_part, resolved_ref, stepped, walked};
use crate::runtime::result::{is_secret, limited, lowercased, redacted, truncated};
use crate::scan::{all_digits, digits_value, parsed_number, without_plus};
use crate::text::{decimal, digit, split_on};
use crate::value::json_field;

// ---------------------------------------------------------------------------
// Numbers
// ---------------------------------------------------------------------------

proof fn lemma_decimal(n: nat)
    ensures
        decimal(n).len() > 0,
        all_digits(decimal(n)),
        digits_value(decimal(n)) == n,
    decreases n,
{
    if n >= 10 {
        lemma_decimal(n / 10);
        let d = decimal(n);
        assert(d.drop_last() =~= decimal(n / 10));
        assert(d.last() == digit(n % 10));
        assert forall|i: int| 0 <= i < d.len() implies crate::scan::is_digit(#[trigger] d[i]) by {
            if i < d.len() - 1 {
                assert(d[i] == decimal(n / 10)[i]);
            }
        }
    } else {
        let d = decimal(n);
        assert(d.drop_last() =~= Seq::empty());
        assert(digits_value(Seq::empty()) == 0);
        assert(d.last() == digit(n));
    }
}

/// Reading the decimal notation of a number gives the number back, within the
/// limit, and nothing beyond it.
pub proof fn numbers_read_back(n: nat, max: nat)
    ensures
        n <= max ==> parsed_number(decimal(n), max) == Some(n),
        n > max ==> parsed_number(decimal(n), max) is None,
{
    lemma_decimal(n);
    assert(crate::scan::is_digit(decimal(n)[0]));
    assert(without_plus(decimal(n)) == decimal(n));
}

// ---------------------------------------------------------------------------
// Paths
// ---------------------------------------------------------------------------

/// A segment names the member of an object with that key, and the element of
/// a list with that index, counted from zero. It names nothing in a scalar.
pub proof fn segments_name_members_and_elements(j: Json, key: Seq<char>, i: nat)
    ensures
        j matches Json::Object(entries) ==> stepped(j, key) == lookup(entries, key),
        j matches Json::List(items) ==> (i < items.len() && i <= usize::MAX ==> stepped(
            j,
            decimal(i),
        ) == Some(items[i as int])),
        j matches Json::List(items) ==> (i >= items.len() ==> stepped(j, decimal(i)) is None),
        !(j is Object) && !(j is List) ==> stepped(j, key) is None,
{
    numbers_read_back(i, usize::MAX as nat);
}

proof fn lemma_walked_suffix(j: Json, a: Seq<Seq<char>>, p: Seq<Seq<char>>, from: int)
    requires
        0 <= from <= p.len(),
    ensures
        walked(j, a + p, a.len() + from) == walked(j, p, from),
    decreases p.len() - from,
{
    if from < p.len() {
        assert((a + p)[a.len() + from] == p[from]);
        match stepped(j, p[from]) {
            Some(next) => {
                lemma_walked_suffix(next, a, p, from + 1);
            },
            None => {},
        }
    }
}

proof fn lemma_walked_prefix(j: Json, p: Seq<Seq<char>>, q: Seq<Seq<char>>, from: int)
    requires
        0 <= from <= p.len(),
    ensures
        walked(j, p + q, from) == match walked(j, p, from) {
            Ok(m) => walked(m, p + q, p.len() as int),
            Err(e) => Err(e),
        },
    decreases p.len() - from,
{
    if from < p.len() {
        assert((p + q)[from] == p[from]);
        match stepped(j, p[from]) {
            Some(next) => {
                lemma_walked_prefix(next, p, q, from + 1);
            },
            None => {},
        }
    }
}

/// A path is walked segment by segment: one path after the other leads where
/// the second leads from the end of the first, the empty path stays in place,
/// and what leads nowhere is named.
pub proof fn paths_compose(j: Json, p: Seq<Seq<char>>, q: Seq<Seq<char>>, key: Seq<char>)
    ensures
        walked(j, Seq::empty(), 0) == Ok::<Json, Seq<char>>(j),
        stepped(j, key) matches Some(m) ==> walked(j, seq![key], 0) == Ok::<Json, Seq<char>>(m),
        stepped(j, key) is None ==> walked(j, seq![key], 0) == Err::<Json, Seq<char>>(key),
        walked(j, p, 0) matches Ok(m) ==> walked(j, p + q, 0) == walked(m, q, 0),
        walked(j, p, 0) is Err ==> walked(j, p + q, 0) == walked(j, p, 0),
{
    lemma_walked_prefix(j, p, q, 0);
    if walked(j, p, 0) is Ok {
        lemma_walked_suffix(walked(j, p, 0)->Ok_0, p, q, 0);
    }
    if stepped(j, key) is Some {
        assert(walked(stepped(j, key)->0, seq![key], 1) == Ok::<Json, Seq<char>>(
            stepped(j, key)->0,
        ));
    }
}

/// A reference stands for the output of its node, at its path. Without that
/// output, or where the path leads nowhere, it is an error that says so.
pub proof fn references_stand_for_outputs(r: RefV, outputs: Map<Seq<char>, Json>)
    ensures
        !outputs.dom().contains(r.node) ==> resolved_ref(r, outputs) == Err::<Json, RuntimeErrorV>(
            RuntimeErrorV::MissingNodeOutput(r.node),
        ),
        outputs.dom().contains(r.node) && r.path.len() == 0 ==> resolved_ref(r, outputs) == Ok::<
            Json,
            RuntimeErrorV,
        >(outputs[r.node]),
        outputs.dom().contains(r.node) ==> (walked(outputs[r.node], r.path, 0) matches Ok(v)
            ==> resolved_ref(r, outputs) == Ok::<Json, RuntimeErrorV>(v)),
        outputs.dom().contains(r.node) ==> (walked(outputs[r.node], r.path, 0) matches Err(segment)
            ==> resolved_ref(r, outputs) == Err::<Json, RuntimeErrorV>(
            RuntimeErrorV::MissingPath { reference: r, segment },
        )),
{
}

/// The empty path of an item is the item; another one is walked from it.
pub proof fn item_paths_start_at_the_item(item: Json, key: Seq<char>, rest: Seq<char>)
    requires
        key.len() > 0,
        !key.contains('.'),
    ensures
        item_part(item, Seq::empty()) == Some(item),
        item_part(item, key) == stepped(item, key),
        rest.len() > 0 ==> item_part(item, key + seq!['.'] + rest) == match stepped(item, key) {
            Some(m) => item_part(m, rest),
            None => None,
        },
{
    splitting_cuts_at_separators(key, rest, '.');
    paths_compose(item, seq![key], split_on(rest, '.'), key);
}

// ---------------------------------------------------------------------------
// Built-in tools
// ---------------------------------------------------------------------------

proof fn lemma_nonempty_append(a: Seq<Seq<char>>, b: Seq<Seq<char>>)
    ensures
        nonempty(a + b) == nonempty(a) + nonempty(b),
    decreases b.len(),
{
    if b.len() == 0 {
        assert(a + b =~= a);
        assert(nonempty(a) + nonempty(b) =~= nonempty(a));
    } else {
        lemma_nonempty_append(a, b.drop_last());
        assert((a + b).drop_last() =~= a + b.drop_last());
        assert((a + b).last() == b.last());
        assert(nonempty(a + b) =~= nonempty(a) + nonempty(b));
    }
}

proof fn lemma_nonempty_one(a: Seq<char>)
    ensures
        a.len() > 0 ==> nonempty(seq![a]) == seq![a],
        a.len() == 0 ==> nonempty(seq![a]) == Seq::<Seq<char>>::empty(),
{
    assert(seq![a].drop_last() =~= Seq::empty());
    assert(nonempty(Seq::empty()) =~= Seq::empty());
    if a.len() > 0 {
        assert(nonempty(seq![a]) =~= seq![a]);
    }
}

/// `pick` walks its path from its value: a first segment is taken off by
/// picking the rest from what it names. A single segment picks that member or
/// element, and the empty path the value itself.
pub proof fn pick_walks_its_path(
    input: Json,
    other: Json,
    v: Json,
    m: Json,
    key: Seq<char>,
    rest: Seq<char>,
)
    requires
        key.len() > 0,
        !key.contains('.'),
        json_field(input, "value"@) == Some(v),
        stepped(v, key) == Some(m),
        json_field(other, "value"@) == Some(m),
        json_field(other, "path"@) == Some(Json::Text(rest)),
    ensures
        json_field(input, "path"@) == Some(Json::Text(key)) ==> picked(input) == Ok::<
            Json,
            ToolErrorV,
        >(m),
        json_field(input, "path"@) == Some(Json::Text(key + seq!['.'] + rest)) ==> picked(input)
            == picked(other),
        json_field(input, "path"@) == Some(Json::Text(Seq::empty())) ==> picked(input) == Ok::<
            Json,
            ToolErrorV,
        >(v),
{
    splitting_cuts_at_separators(key, rest, '.');
    lemma_nonempty_one(key);
    lemma_nonempty_one(Seq::empty());
    lemma_nonempty_append(seq![key], split_on(rest, '.'));
    paths_compose(v, seq![key], nonempty(split_on(rest, '.')), key);
    assert(split_on(Seq::empty(), '.') =~= seq![Seq::<char>::empty()]);
    paths_compose(v, Seq::empty(), Seq::empty(), key);
}

/// A path that leads nowhere makes `pick` fail with `missing_path`, and so do
/// missing fields with `invalid_input`.
pub proof fn pick_names_what_is_missing(input: Json, v: Json, key: Seq<char>)
    requires
        key.len() > 0,
        !key.contains('.'),
    ensures
        json_field(input, "value"@) == Some(v) && json_field(input, "path"@) == Some(
            Json::Text(key),
        ) && stepped(v, key) is None ==> picked(input) is Err && picked(input)->Err_0.code == Some(
            "missing_path"@,
        ),
        json_field(input, "value"@) is None ==> picked(input) is Err && picked(input)->Err_0.code
            == Some("invalid_input"@),
        json_field(input, "path"@) is None ==> picked(input) is Err && picked(input)->Err_0.code
            == Some("invalid_input"@),
{
    splitting_cuts_at_separators(key, Seq::empty(), '.');
    lemma_nonempty_one(key);
    paths_compose(v, Seq::empty(), Seq::empty(), key);
}

proof fn lemma_last_value(items: Seq<Json>, key: Seq<char>, i: int)
    requires
        0 <= i < items.len(),
        json_field(items[i], key) is Some,
        forall|j: int| i < j < items.len() ==> json_field(#[trigger] items[j], key) is None,
    ensures
        last_value(items, key) == json_field(items[i], key),
    decreases items.len(),
{
    if i < items.len() - 1 {
        assert(json_field(items[items.len() - 1], key) is None);
        let front = items.drop_last();
        assert forall|j: int| i < j < front.len() implies json_field(#[trigger] front[j], key) is None by {
            assert(front[j] == items[j]);
        }
        lemma_last_value(front, key, i);
    }
}

proof fn lemma_no_value(items: Seq<Json>, key: Seq<char>)
    requires
        forall|j: int| 0 <= j < items.len() ==> json_field(#[trigger] items[j], key) is None,
    ensures
        last_value(items, key) is None,
    decreases items.len(),
{
    if items.len() > 0 {
        assert(json_field(items[items.len() - 1], key) is None);
        let front = items.drop_last();
        assert forall|j: int| 0 <= j < front.len() implies json_field(#[trigger] front[j], key) is None by {
            assert(front[j] == items[j]);
        }
        lemma_no_value(front, key);
    }
}

/// `merge` gives one object with the members of all: of two objects with the
/// same key the later one wins, and no other key appears.
pub proof fn later_objects_win(
    input: Json,
    items: Seq<Json>,
    out: Seq<(Seq<char>, Json)>,
    key: Seq<char>,
    i: int,
)
    requires
        json_field(input, "objects"@) == Some(Json::List(items)),
        forall|k: int| 0 <= k < items.len() ==> (#[trigger] items[k]) is Object,
        is_merge_result(input, Ok::<Json, ToolErrorV>(Json::Object(out))),
    ensures
        0 <= i < items.len() && json_field(items[i], key) is Some && (forall|j: int|
            i < j < items.len() ==> json_field(#[trigger] items[j], key) is None) ==> lookup(
            out,
            key,
        ) == json_field(items[i], key),
        (forall|j: int| 0 <= j < items.len() ==> json_field(#[trigger] items[j], key) is None)
            ==> !has_key(out, key),
{
    assert(lookup(out, key) == last_value(items, key));
    if 0 <= i < items.len() && json_field(items[i], key) is Some && (forall|j: int|
        i < j < items.len() ==> json_field(#[trigger] items[j], key) is None) {
        lemma_last_value(items, key, i);
    }
    if forall|j: int| 0 <= j < items.len() ==> json_field(#[trigger] items[j], key) is None {
        lemma_no_value(items, key);
    }
}

/// `template` fills in every placeholder from its values, or fails.
pub proof fn templates_are_filled_or_refused(
    input: Json,
    values: Json,
    pieces: Seq<Seq<char>>,
    paths: Seq<Seq<char>>,
    k: int,
)
    requires
        surround(pieces, paths),
        json_field(input, "template"@) == Some(Json::Text(woven(pieces, placeholders(paths)))),
        json_field(input, "values"@) == Some(values),
    ensures
        (forall|i: int| 0 <= i < paths.len() ==> scalar_at(values, #[trigger] paths[i]) is Some)
            && woven(pieces, scalars(values, paths)) != woven(pieces, placeholders(paths))
            ==> rendered(input) == Ok::<Json, ToolErrorV>(
            Json::Text(woven(pieces, scalars(values, paths))),
        ),
        0 <= k < paths.len() && scalar_at(values, paths[k]) is None ==> rendered(input) is Err
            && rendered(input)->Err_0.code == Some("invalid_input"@),
{
    if forall|i: int| 0 <= i < paths.len() ==> scalar_at(values, #[trigger] paths[i]) is Some {
        every_placeholder_is_filled(pieces, paths, values);
    }
    if 0 <= k < paths.len() && scalar_at(values, paths[k]) is None {
        one_open_placeholder_keeps_the_template(pieces, paths, values, k);
        lemma_braces(pieces, paths);
    }
}

proof fn lemma_braces(pieces: Seq<Seq<char>>, paths: Seq<Seq<char>>)
    requires
        pieces.len() == paths.len() + 1,
        paths.len() > 0,
    ensures
        woven(pieces, placeholders(paths)).contains('{'),
        woven(pieces, placeholders(paths)).contains('}'),
{
    let t = woven(pieces, placeholders(paths));
    let n = pieces[0].len();
    assert(placeholders(paths)[0] == seq!['{'] + paths[0] + seq!['}']);
    assert(t[n as int] == '{');
    assert(t[(n + 1 + paths[0].len()) as int] == '}');
}

/// `collect` gives its input back.
pub proof fn collect_gives_its_input_back(input: Json, r: Result<Json, ToolErrorV>)
    requires
        is_builtin_result("collect"@, input, r),
    ensures
        r == Ok::<Json, ToolErrorV>(input),
{
}

// ---------------------------------------------------------------------------
// Redaction
// ---------------------------------------------------------------------------

/// The key, in lower case, holds one of the needles.
pub open spec fn names_a_secret(key: Seq<char>, needles: Seq<Seq<char>>) -> bool {
    exists|i: int, before: Seq<char>, after: Seq<char>|
        0 <= i < needles.len() && #[trigger] reads(lowercased(key), before, needles[i], after)
}

/// No key on the way to the position names a secret.
pub open spec fn unmasked(j: Json, at: Seq<int>, needles: Seq<Seq<char>>) -> bool
    decreases at.len(),
{
    at.len() > 0 ==> {
        &&& j matches Json::Object(entries) ==> (0 <= at[0] < entries.len() ==> !names_a_secret(
            entries[at[0]].0,
            needles,
        ))
        &&& child(j, at[0]) matches Some(c) ==> unmasked(c, at.drop_first(), needles)
    }
}

proof fn lemma_secret(key: Seq<char>, needles: Seq<Seq<char>>)
    ensures
        is_secret(lowercased(key), needles) <==> names_a_secret(key, needles),
{
    if is_secret(lowercased(key), needles) {
        let i = choose|i: int|
            0 <= i < needles.len() && crate::scan::has_part(
                lowercased(key),
                #[trigger] needles[i],
            );
        parts_are_cut_out(lowercased(key), needles[i]);
        let (before, after) = choose|before: Seq<char>, after: Seq<char>|
            reads(lowercased(key), before, needles[i], after);
        assert(reads(lowercased(key), before, needles[i], after));
    }
    if names_a_secret(key, needles) {
        let (i, before, after) = choose|i: int, before: Seq<char>, after: Seq<char>|
            0 <= i < needles.len() && #[trigger] reads(lowercased(key), before, needles[i], after);
        parts_are_cut_out(lowercased(key), needles[i]);
    }
}

/// Redaction masks the value of every key that names a secret, whatever its
/// case and depth, and leaves every other scalar and every key in place.
pub proof fn redaction_masks_secrets_alone(j: Json, needles: Seq<Seq<char>>, at: Seq<int>)
    requires
        part(j, at) is Some,
        unmasked(j, at, needles),
    ensures
        part(redacted(j, needles), at) is Some,
        part(j, at)->0 matches Json::Object(entries) ==> (part(
            redacted(j, needles),
            at,
        )->0 matches Json::Object(out) && out.len() == entries.len() && forall|i: int|
            0 <= i < out.len() ==> (#[trigger] out[i]).0 == entries[i].0 && (names_a_secret(
                entries[i].0,
                needles,
            ) ==> out[i].1 == Json::Text("[redacted]"@))),
        part(j, at)->0 matches Json::List(items) ==> (part(
            redacted(j, needles),
            at,
        )->0 matches Json::List(out) && out.len() == items.len()),
        !(part(j, at)->0 is Object) && !(part(j, at)->0 is List) ==> part(redacted(j, needles), at)
            == part(j, at),
    decreases at.len(),
{
    if at.len() == 0 {
        match j {
            Json::Object(entries) => {
                let out = redacted(j, needles)->Object_0;
                assert forall|i: int| 0 <= i < out.len() implies (#[trigger] out[i]).0
                    == entries[i].0 && (names_a_secret(entries[i].0, needles) ==> out[i].1
                    == Json::Text("[redacted]"@)) by {
                    lemma_secret(entries[i].0, needles);
                }
            },
            _ => {},
        }
    } else {
        match j {
            Json::Object(entries) => {
                lemma_secret(entries[at[0]].0, needles);
            },
            _ => {},
        }
        redaction_masks_secrets_alone(child(j, at[0])->0, needles, at.drop_first());
    }
}

/// A document none of whose keys names a secret is shown as it is.
pub proof fn documents_without_secrets_stay(j: Json, needles: Seq<Seq<char>>)
    requires
        needles.len() == 0,
    ensures
        redacted(j, needles) == j,
    decreases j,
{
    match j {
        Json::Object(entries) => {
            let out = redacted(j, needles)->Object_0;
            assert forall|i: int| 0 <= i < out.len() implies out[i] == entries[i] by {
                documents_without_secrets_stay(entries[i].1, needles);
            }
            assert(out =~= entries);
        },
        Json::List(items) => {
            let out = redacted(j, needles)->List_0;
            assert forall|i: int| 0 <= i < out.len() implies out[i] == items[i] by {
                documents_without_secrets_stay(items[i], needles);
            }
            assert(out =~= items);
        },
        _ => {},
    }
}

// ---------------------------------------------------------------------------
// Truncation
// ---------------------------------------------------------------------------

/// An output within the byte budget, or without one, is shown as it is. A
/// longer one is replaced by a marker that says so, gives its length in bytes
/// and shows how its text begins: at most 512 characters, and no more than the
/// budget.
pub proof fn long_outputs_are_marked(j: Json, max: usize)
    requires
        encode_utf8(canonical(j)).len() <= u64::MAX,
    ensures
        limited(j, None) == j,
        encode_utf8(canonical(j)).len() <= max ==> limited(j, Some(max)) == j,
        encode_utf8(canonical(j)).len() > max ==> {
            let out = limited(j, Some(max));
            &&& json_field(out, "$truncated"@) == Some(Json::Bool(true))
            &&& json_field(out, "bytes"@) == Some(
                Json::Number(NumberV::PosInt(encode_utf8(canonical(j)).len() as u64)),
            )
            &&& json_field(out, "preview"@) matches Some(Json::Text(t)) && t.is_prefix_of(
                canonical(j),
            ) && t.len() <= 512 && t.len() <= max && (t.len() == 512 || t.len() == max || t
                == canonical(j))
        },
{
    if encode_utf8(canonical(j)).len() > max {
        let out = limited(j, Some(max))->Object_0;
        reveal_strlit("$truncated");
        reveal_strlit("bytes");
        reveal_strlit("preview");
        assert("$truncated"@.len() == 10 && "bytes"@.len() == 5 && "preview"@.len() == 7);
        assert(out[0].0 == "$truncated"@);
        assert(out[1].0 == "bytes"@);
        assert(out[2].0 == "preview"@);
        assert(out.len() == 3);
    }
}

} // verus!
