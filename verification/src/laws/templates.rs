//! Resource templates: every placeholder is filled in, or none is.

use vstd::prelude::*;

use crate::json::{Json, NumberV};

verus! {

use crate::effects::{
    field_path, fill_template, first_position, first_position_bounds, resolved_resource, scalar_at,
    scalar_text,
};
use crate::text::{decimal, split_on};
use crate::value::json_field;

/// The text that stands between the pieces: `pieces[0]`, then the first
/// insert, then `pieces[1]`, and so on.
pub open spec fn woven(pieces: Seq<Seq<char>>, inserts: Seq<Seq<char>>) -> Seq<char>
    decreases inserts.len(),
{
    if inserts.len() == 0 {
        pieces[0]
    } else {
        pieces[0] + inserts[0] + woven(pieces.drop_first(), inserts.drop_first())
    }
}

/// The placeholders of the paths.
pub open spec fn placeholders(paths: Seq<Seq<char>>) -> Seq<Seq<char>> {
    Seq::new(paths.len(), |i: int| seq!['{'] + paths[i] + seq!['}'])
}

/// The texts of the scalars that the paths name.
pub open spec fn scalars(input: Json, paths: Seq<Seq<char>>) -> Seq<Seq<char>> {
    Seq::new(paths.len(), |i: int| scalar_at(input, paths[i])->0)
}

/// The pieces surround the paths: no piece opens a placeholder, and no path
/// closes one.
pub open spec fn surround(pieces: Seq<Seq<char>>, paths: Seq<Seq<char>>) -> bool {
    &&& pieces.len() == paths.len() + 1
    &&& forall|i: int| 0 <= i < pieces.len() ==> !(#[trigger] pieces[i]).contains('{')
    &&& forall|i: int| 0 <= i < paths.len() ==> !(#[trigger] paths[i]).contains('}')
}

proof fn lemma_first(s: Seq<char>, c: char, k: int)
    requires
        0 <= k < s.len(),
        s[k] == c,
        forall|i: int| 0 <= i < k ==> s[i] != c,
    ensures
        first_position(s, c) == k,
{
    first_position_bounds(s, c);
    let f = first_position(s, c) as int;
    assert(s.contains(c));
    if f < k {
        assert(s[f] != c);
    }
}

/// What filling a template does with its first placeholder.
proof fn lemma_head(piece: Seq<char>, path: Seq<char>, rest: Seq<char>, input: Json)
    requires
        !piece.contains('{'),
        !path.contains('}'),
    ensures
        ({
            let t = piece + (seq!['{'] + path + seq!['}']) + rest;
            &&& scalar_at(input, path) is None ==> fill_template(t, input) is None
            &&& scalar_at(input, path) is Some ==> match fill_template(rest, input) {
                Some(r) => fill_template(t, input) == Some(piece + scalar_at(input, path)->0 + r),
                None => fill_template(t, input) is None,
            }
        }),
{
    let t = piece + (seq!['{'] + path + seq!['}']) + rest;
    let start = piece.len() as int;
    assert(t[start] == '{');
    assert forall|i: int| 0 <= i < start implies t[i] != '{' by {
        assert(t[i] == piece[i]);
        assert(piece.contains(piece[i]));
    }
    lemma_first(t, '{', start);
    let tail = t.skip(start);
    let len = path.len() as int + 1;
    assert(tail[len] == '}');
    assert forall|i: int| 0 <= i < len implies tail[i] != '}' by {
        if i > 0 {
            assert(tail[i] == path[i - 1]);
            assert(path.contains(path[i - 1]));
        }
    }
    lemma_first(tail, '}', len);
    assert(t.subrange(start + 1, start + len) =~= path);
    assert(t.skip(start + len + 1) =~= rest);
    assert(t.take(start) =~= piece);
}

proof fn lemma_plain(t: Seq<char>, input: Json)
    requires
        !t.contains('{'),
    ensures
        fill_template(t, input) == Some(t),
{
    first_position_bounds(t, '{');
}

/// Where every placeholder names a scalar of the input, the result is the
/// pieces of the template with the texts of all the scalars between them, in
/// order.
pub proof fn every_placeholder_is_filled(pieces: Seq<Seq<char>>, paths: Seq<Seq<char>>, input: Json)
    requires
        surround(pieces, paths),
        forall|i: int| 0 <= i < paths.len() ==> scalar_at(input, #[trigger] paths[i]) is Some,
    ensures
        fill_template(woven(pieces, placeholders(paths)), input) == Some(
            woven(pieces, scalars(input, paths)),
        ),
        resolved_resource(woven(pieces, placeholders(paths)), input) == woven(
            pieces,
            scalars(input, paths),
        ),
    decreases paths.len(),
{
    if paths.len() == 0 {
        lemma_plain(pieces[0], input);
    } else {
        let more = pieces.drop_first();
        let others = paths.drop_first();
        assert(surround(more, others)) by {
            assert forall|i: int| 0 <= i < more.len() implies !(#[trigger] more[i]).contains('{') by {
                assert(more[i] == pieces[i + 1]);
            }
            assert forall|i: int| 0 <= i < others.len() implies !(#[trigger] others[i]).contains('}') by {
                assert(others[i] == paths[i + 1]);
            }
        }
        assert forall|i: int| 0 <= i < others.len() implies scalar_at(
            input,
            #[trigger] others[i],
        ) is Some by {
            assert(others[i] == paths[i + 1]);
        }
        every_placeholder_is_filled(more, others, input);
        assert(placeholders(paths).drop_first() =~= placeholders(others));
        assert(scalars(input, paths).drop_first() =~= scalars(input, others));
        lemma_head(pieces[0], paths[0], woven(more, placeholders(others)), input);
        assert(scalar_at(input, paths[0]) is Some);
    }
}

/// Where some placeholder, whichever it is, names no scalar of the input, the
/// template stays as it is.
pub proof fn one_open_placeholder_keeps_the_template(
    pieces: Seq<Seq<char>>,
    paths: Seq<Seq<char>>,
    input: Json,
    k: int,
)
    requires
        surround(pieces, paths),
        0 <= k < paths.len(),
        scalar_at(input, paths[k]) is None,
    ensures
        fill_template(woven(pieces, placeholders(paths)), input) is None,
        resolved_resource(woven(pieces, placeholders(paths)), input) == woven(
            pieces,
            placeholders(paths),
        ),
    decreases paths.len(),
{
    let more = pieces.drop_first();
    let others = paths.drop_first();
    assert(surround(more, others)) by {
        assert forall|i: int| 0 <= i < more.len() implies !(#[trigger] more[i]).contains('{') by {
            assert(more[i] == pieces[i + 1]);
        }
        assert forall|i: int| 0 <= i < others.len() implies !(#[trigger] others[i]).contains('}') by {
            assert(others[i] == paths[i + 1]);
        }
    }
    if k > 0 {
        one_open_placeholder_keeps_the_template(more, others, input, k - 1);
    }
    assert(placeholders(paths).drop_first() =~= placeholders(others));
    lemma_head(pieces[0], paths[0], woven(more, placeholders(others)), input);
}

/// Two placeholders: both are filled in.
pub proof fn two_placeholders_are_both_filled(
    a: Seq<char>,
    p: Seq<char>,
    b: Seq<char>,
    q: Seq<char>,
    c: Seq<char>,
    input: Json,
)
    requires
        !a.contains('{'),
        !b.contains('{'),
        !c.contains('{'),
        !p.contains('}'),
        !q.contains('}'),
        scalar_at(input, p) is Some,
        scalar_at(input, q) is Some,
    ensures
        resolved_resource(
            a + (seq!['{'] + p + seq!['}']) + (b + (seq!['{'] + q + seq!['}']) + c),
            input,
        ) == a + scalar_at(input, p)->0 + (b + scalar_at(input, q)->0 + c),
{
    lemma_plain(c, input);
    lemma_head(b, q, c, input);
    lemma_head(a, p, b + (seq!['{'] + q + seq!['}']) + c, input);
}

/// A template without placeholders names itself.
pub proof fn plain_templates_stay(t: Seq<char>, input: Json)
    requires
        !t.contains('{'),
    ensures
        resolved_resource(t, input) == t,
{
    lemma_plain(t, input);
}

/// A brace that is never closed opens no placeholder.
pub proof fn unclosed_braces_stay(before: Seq<char>, after: Seq<char>, input: Json)
    requires
        !before.contains('{'),
        !after.contains('}'),
    ensures
        resolved_resource(before + seq!['{'] + after, input) == before + seq!['{'] + after,
{
    let t = before + seq!['{'] + after;
    assert forall|i: int| 0 <= i < before.len() implies t[i] != '{' by {
        assert(before.contains(before[i]));
    }
    lemma_first(t, '{', before.len() as int);
    let tail = t.skip(before.len() as int);
    assert(!tail.contains('}')) by {
        assert forall|i: int| 0 <= i < tail.len() implies tail[i] != '}' by {
            if i > 0 {
                assert(tail[i] == after[i - 1]);
                assert(after.contains(after[i - 1]));
            }
        }
    }
    first_position_bounds(tail, '}');
}

proof fn lemma_unsplit(s: Seq<char>, sep: char)
    requires
        !s.contains(sep),
    ensures
        split_on(s, sep) == seq![s],
    decreases s.len(),
{
    if s.len() > 0 {
        assert(s.contains(s.last()));
        let d = s.drop_last();
        assert forall|i: int| 0 <= i < d.len() implies d[i] != sep by {
            assert(s.contains(s[i]));
        }
        lemma_unsplit(d, sep);
        assert(split_on(s, sep) =~= seq![s]) by {
            assert(d.push(s.last()) =~= s);
        }
    } else {
        assert(s =~= Seq::empty());
    }
}

/// Cutting a text at the first separator cuts off the part before it.
pub proof fn splitting_cuts_at_separators(head: Seq<char>, rest: Seq<char>, sep: char)
    requires
        !head.contains(sep),
    ensures
        split_on(head, sep) == seq![head],
        split_on(head + seq![sep] + rest, sep) == seq![head] + split_on(rest, sep),
    decreases rest.len(),
{
    lemma_unsplit(head, sep);
    let s = head + seq![sep] + rest;
    if rest.len() == 0 {
        assert(s.drop_last() =~= head);
        assert(split_on(s, sep) =~= seq![head] + split_on(rest, sep));
    } else {
        splitting_cuts_at_separators(head, rest.drop_last(), sep);
        assert(s.drop_last() =~= head + seq![sep] + rest.drop_last());
        assert(s.last() == rest.last());
        crate::text::split_on_nonempty(rest.drop_last(), sep);
        assert(split_on(s, sep) =~= seq![head] + split_on(rest, sep));
    }
}

/// A path names the member of that name; a dotted path is followed member by
/// member.
pub proof fn paths_name_members(input: Json, name: Seq<char>, rest: Seq<char>, member: Json)
    requires
        !name.contains('.'),
        json_field(input, name) == Some(member),
    ensures
        scalar_at(input, name) == scalar_text(member),
        scalar_at(input, name + seq!['.'] + rest) == scalar_at(member, rest),
{
    splitting_cuts_at_separators(name, rest, '.');
    let parts = seq![name] + split_on(rest, '.');
    assert(parts.drop_first() =~= split_on(rest, '.'));
    assert(seq![name].drop_first() =~= Seq::empty());
    assert(field_path(member, Seq::empty()) == Some(member));
    assert(field_path(input, seq![name]) == field_path(member, seq![name].drop_first()));
    assert(parts[0] == name);
}

/// What is missing is no scalar, and neither is a list, an object or `null`.
pub proof fn only_scalars_are_filled_in(input: Json, name: Seq<char>)
    requires
        !name.contains('.'),
    ensures
        json_field(input, name) is None ==> scalar_at(input, name) is None,
        json_field(input, name) matches Some(j) ==> {
            &&& j is List || j is Object || j is Null ==> scalar_at(input, name) is None
            &&& j matches Json::Text(t) ==> scalar_at(input, name) == Some(t)
            &&& j matches Json::Number(NumberV::PosInt(n)) ==> scalar_at(input, name) == Some(
                decimal(n as nat),
            )
            &&& j == Json::Bool(true) ==> scalar_at(input, name) == Some("true"@)
            &&& j == Json::Bool(false) ==> scalar_at(input, name) == Some("false"@)
        },
{
    lemma_unsplit(name, '.');
    assert(seq![name].drop_first() =~= Seq::empty());
    if json_field(input, name) is Some {
        paths_name_members(input, name, Seq::empty(), json_field(input, name)->0);
    }
}

} // verus!
