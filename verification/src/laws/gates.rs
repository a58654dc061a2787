//! Checks on adapters, releases and sources.

use vstd::prelude::*;

use crate::adapters::api::{BatchOutputV, ToolErrorV};
use crate::json::Json;
use crate::quality::examples::DocumentKind;
use crate::quality::loc::{Braces, Literal};

verus! {

use crate::laws::templates::splitting_cuts_at_separators;
use crate::quality::examples::{complaint, kind_of};
use crate::quality::loc::{
    braced_end, code_step, item_end, production_lines, scanned, step, too_long,
};
use crate::quality::release::{first_version, version_in};
use crate::runtime::conformance::{batch_input, batch_verdict, echo_verdict, maps_back};
use crate::scan::{has_prefix, has_suffix, is_space, lines_of, trimmed, trimmed_end, trimmed_start};
use crate::text::split_on;
use crate::value::{json_field, json_same};

// ---------------------------------------------------------------------------
// Texts
// ---------------------------------------------------------------------------

/// The text is made of white space.
pub open spec fn blank(s: Seq<char>) -> bool {
    forall|i: int| 0 <= i < s.len() ==> is_space(#[trigger] s[i])
}

proof fn lemma_trimmed_end(t: Seq<char>, after: Seq<char>)
    requires
        blank(after),
        t.len() == 0 || !is_space(t.last()),
    ensures
        trimmed_end(t + after) == t,
    decreases after.len(),
{
    let s = t + after;
    if after.len() > 0 {
        assert(is_space(after[after.len() - 1]));
        assert(s.drop_last() =~= t + after.drop_last());
        lemma_trimmed_end(t, after.drop_last());
    } else {
        assert(s =~= t);
    }
}

proof fn lemma_trimmed_start(before: Seq<char>, t: Seq<char>)
    requires
        blank(before),
        t.len() == 0 || !is_space(t[0]),
    ensures
        trimmed_start(before + t) == t,
    decreases before.len(),
{
    let s = before + t;
    if before.len() > 0 {
        assert(is_space(before[0]));
        assert(s.drop_first() =~= before.drop_first() + t);
        assert forall|i: int| 0 <= i < before.drop_first().len() implies is_space(
            #[trigger] before.drop_first()[i],
        ) by {
            assert(is_space(before[i + 1]));
        }
        lemma_trimmed_start(before.drop_first(), t);
    } else {
        assert(s =~= t);
    }
}

/// White space is taken off both ends of a text, and nothing else.
pub proof fn white_space_is_trimmed(before: Seq<char>, t: Seq<char>, after: Seq<char>)
    requires
        blank(before),
        blank(after),
        t.len() > 0,
        !is_space(t[0]),
        !is_space(t.last()),
    ensures
        trimmed(before + t + after) == t,
        trimmed_end(t + after) == t,
{
    let s = before + (t + after);
    assert(before + t + after =~= s);
    assert((t + after)[0] == t[0]);
    lemma_trimmed_start(before, t + after);
    lemma_trimmed_end(t, after);
}

/// A text starts with its first part and ends with its last.
pub proof fn parts_stand_at_the_ends(s: Seq<char>, part: Seq<char>, rest: Seq<char>)
    ensures
        has_prefix(part + rest, part),
        has_suffix(rest + part, part),
        has_prefix(s, part) ==> s == part + s.skip(part.len() as int),
        has_suffix(s, part) ==> s == s.take(s.len() - part.len()) + part,
{
    let n = part.len() as int;
    assert((part + rest).subrange(0, n) =~= part);
    let m = rest.len() as int;
    assert((rest + part).subrange(m, m + n) =~= part);
    if has_prefix(s, part) {
        assert(s =~= s.subrange(0, n) + s.skip(n));
    }
    if has_suffix(s, part) {
        let at = s.len() - n;
        assert(s =~= s.take(at) + s.subrange(at, at + n));
    }
}

/// The first line of a text ends at its first line feed, and a carriage
/// return in front of that is no part of it. The other lines follow.
pub proof fn lines_end_at_line_feeds(line: Seq<char>, rest: Seq<char>)
    requires
        !line.contains('\n'),
        line.len() == 0 || line.last() != '\r',
    ensures
        lines_of(line + seq!['\n'] + rest) == seq![line] + lines_of(rest),
        lines_of(line + seq!['\r'] + seq!['\n'] + rest) == seq![line] + lines_of(rest),
        line.len() > 0 ==> lines_of(line) == seq![line],
        lines_of(Seq::empty()).len() == 0,
{
    crate::text::split_on_nonempty(rest, '\n');
    splitting_cuts_at_separators(line, rest, '\n');
    let cr = line + seq!['\r'];
    assert(!cr.contains('\n')) by {
        assert forall|i: int| 0 <= i < cr.len() implies cr[i] != '\n' by {
            if i < line.len() {
                assert(line.contains(line[i]));
            }
        }
    }
    splitting_cuts_at_separators(cr, rest, '\n');
    assert(cr.drop_last() =~= line);
    let tail = split_on(rest, '\n');
    assert((seq![line] + tail).drop_last() =~= seq![line] + tail.drop_last());
    assert((seq![cr] + tail).drop_last() =~= seq![cr] + tail.drop_last());
    assert(lines_of(line + seq!['\n'] + rest) =~= seq![line] + lines_of(rest));
    assert(lines_of(line + seq!['\r'] + seq!['\n'] + rest) =~= seq![line] + lines_of(rest));
    if line.len() > 0 {
        assert(lines_of(line) =~= seq![line]);
    }
    assert(split_on(Seq::empty(), '\n').drop_last() =~= Seq::empty());
}

// ---------------------------------------------------------------------------
// Conformance
// ---------------------------------------------------------------------------

/// An adapter passes the echo check exactly when it hands back what it was
/// given, an object that says `ok`.
pub proof fn echoes_hand_back_their_input(reply: Result<Json, ToolErrorV>)
    ensures
        echo_verdict(reply).passed <==> (reply is Ok && json_same(
            reply->Ok_0,
            Json::Object(seq![("ok"@, Json::Bool(true))]),
        )),
        reply matches Err(e) ==> echo_verdict(reply).message == e.message,
        echo_verdict(reply).name == "echo_round_trip"@,
{
}

/// An adapter passes the batch check exactly when it answers both entries,
/// and each under its own node.
pub proof fn batches_map_back_to_their_nodes(reply: Result<Seq<BatchOutputV>, ToolErrorV>)
    ensures
        batch_verdict(reply).passed <==> (reply matches Ok(outputs) && outputs.len() == 2 && maps_back(
            outputs,
            "a"@,
        ) && maps_back(outputs, "b"@)),
        batch_verdict(reply).passed ==> ({
            let outputs = reply->Ok_0;
            let other: int = if outputs[0].node == "a"@ {
                1
            } else {
                0
            };
            &&& outputs[1 - other].node == "a"@
            &&& json_same(
                outputs[1 - other].output,
                Json::Object(seq![("id"@, Json::Text("a"@))]),
            )
            &&& outputs[other].node == "b"@
            &&& json_same(outputs[other].output, Json::Object(seq![("id"@, Json::Text("b"@))]))
        }),
        reply matches Err(e) ==> batch_verdict(reply).message == e.message,
{
    reveal_strlit("a");
    reveal_strlit("b");
    assert("a"@[0] != "b"@[0]);
    if batch_verdict(reply).passed {
        let outputs = reply->Ok_0;
        let i = choose|i: int|
            0 <= i < outputs.len() && (#[trigger] outputs[i]).node == "a"@ && json_same(
                outputs[i].output,
                batch_input("a"@),
            );
        let j = choose|j: int|
            0 <= j < outputs.len() && (#[trigger] outputs[j]).node == "b"@ && json_same(
                outputs[j].output,
                batch_input("b"@),
            );
        assert(i != j);
        assert((i == 0 && j == 1) || (i == 1 && j == 0));
    }
}

// ---------------------------------------------------------------------------
// Releases
// ---------------------------------------------------------------------------

/// A manifest line gives the version that it quotes, whatever white space
/// stands around it.
pub proof fn version_lines_give_their_version(
    before: Seq<char>,
    version: Seq<char>,
    after: Seq<char>,
)
    requires
        blank(before),
        blank(after),
    ensures
        version_in(before + ("version = \""@ + version + seq!['"']) + after) == Some(version),
{
    reveal_strlit("version = \"");
    let key = "version = \""@;
    let t = key + version + seq!['"'];
    assert(t[0] == 'v');
    assert(t.last() == '"');
    white_space_is_trimmed(before, t, after);
    assert(t.subrange(0, key.len() as int) =~= key);
    assert(t.subrange(key.len() as int, t.len() - 1) =~= version);
}

/// The version of a manifest is that of the first line that gives one.
pub proof fn first_versions_win(lines: Seq<Seq<char>>, k: int, at: int)
    requires
        0 <= k <= at <= lines.len(),
        forall|i: int| k <= i < at ==> version_in(#[trigger] lines[i]) is None,
    ensures
        at < lines.len() && version_in(lines[at]) is Some ==> first_version(lines, k) == version_in(
            lines[at],
        ),
        at == lines.len() ==> first_version(lines, k) is None,
    decreases at - k,
{
    if k < at {
        assert(version_in(lines[k]) is None);
        first_versions_win(lines, k + 1, at);
    }
}

// ---------------------------------------------------------------------------
// Examples
// ---------------------------------------------------------------------------

/// An example with steps is an intent, another that names a recipe is a
/// recipe, and any other is a plan; each is held against its own schema.
pub proof fn examples_match_their_kind(
    document: Json,
    path: Seq<char>,
    mismatch: Option<Seq<char>>,
)
    ensures
        kind_of(document) == DocumentKind::Intent <==> json_field(document, "steps"@) is Some,
        kind_of(document) == DocumentKind::Recipe <==> (json_field(document, "steps"@) is None
            && json_field(document, "recipe"@) is Some),
        kind_of(document) == DocumentKind::Plan <==> (json_field(document, "steps"@) is None
            && json_field(document, "recipe"@) is None),
        complaint(path, kind_of(document), mismatch) is Some <==> mismatch is Some,
        complaint(path, kind_of(document), mismatch) matches Some(c) ==> has_prefix(c, path)
            && has_suffix(c, mismatch->0),
{
    if mismatch is Some {
        let kind = kind_of(document).name();
        let middle = " does not match the "@ + kind + " schema: "@;
        let c = complaint(path, kind_of(document), mismatch)->0;
        assert(c =~= path + (middle + mismatch->0));
        assert(c =~= (path + middle) + mismatch->0);
        parts_stand_at_the_ends(c, path, middle + mismatch->0);
        parts_stand_at_the_ends(c, mismatch->0, path + middle);
    }
}

// ---------------------------------------------------------------------------
// Sources
// ---------------------------------------------------------------------------

/// How often the character stands among the first `k`.
pub open spec fn times(l: Seq<char>, c: char, k: int) -> int
    decreases k,
{
    if k <= 0 {
        0
    } else {
        times(l, c, k - 1) + if l[k - 1] == c {
            1int
        } else {
            0int
        }
    }
}

/// The line holds no quote, no comment and no raw string.
pub open spec fn simple(l: Seq<char>) -> bool {
    forall|i: int|
        0 <= i < l.len() ==> (#[trigger] l[i]) != '"' && l[i] != '\'' && l[i] != '/' && l[i] != 'r'
}

proof fn lemma_scan_simple(l: Seq<char>, i: int, s: Braces)
    requires
        0 <= i <= l.len(),
        simple(l),
        s.opened,
        !s.comment,
        -2000000000 + l.len() - i <= s.depth <= 2000000000 - l.len() + i,
    ensures
        scanned(l, i, Literal::Code, s).opened,
        !scanned(l, i, Literal::Code, s).comment,
        scanned(l, i, Literal::Code, s).literal == Literal::Code,
        scanned(l, i, Literal::Code, s).depth - s.depth == (times(l, '{', l.len() as int) - times(
            l,
            '{',
            i,
        )) - (times(l, '}', l.len() as int) - times(l, '}', i)),
    decreases l.len() - i,
{
    if i < l.len() {
        assert(l[i] != '"');
        let next = step(l, i, Literal::Code, s);
        assert(next == code_step(l, i, s));
        assert(next.0 == i + 1);
        lemma_scan_simple(l, i + 1, next.2);
    }
}

/// Inside an item every opening brace of a plain line goes one level down and
/// every closing one a level up.
pub proof fn braces_are_counted(l: Seq<char>, s: Braces)
    requires
        simple(l),
        s.opened,
        !s.comment,
        -1000000000 + l.len() <= s.depth <= 1000000000 - l.len(),
    ensures
        scanned(l, 0, Literal::Code, s).depth == s.depth + times(l, '{', l.len() as int) - times(
            l,
            '}',
            l.len() as int,
        ),
{
    lemma_scan_simple(l, 0, s);
}

/// A braced item ends behind the line on which its braces close.
pub proof fn items_end_where_braces_close(lines: Seq<Seq<char>>, k: int, s: Braces)
    requires
        0 <= k < lines.len(),
    ensures
        scanned(lines[k], 0, s.literal, s).opened && scanned(lines[k], 0, s.literal, s).depth <= 0
            ==> braced_end(lines, k, s) == k + 1,
        !(scanned(lines[k], 0, s.literal, s).opened && scanned(lines[k], 0, s.literal, s).depth <= 0)
            ==> braced_end(lines, k, s) == braced_end(
            lines,
            k + 1,
            scanned(lines[k], 0, s.literal, s),
        ),
{
}

/// The lines of a test item count for nothing: a declaration that ends in a
/// semicolon is skipped with its attribute, and so is a braced item.
pub proof fn test_items_do_not_count(lines: Seq<Seq<char>>, k: int)
    requires
        0 <= k < lines.len(),
        trimmed(lines[k]) == "#[cfg(test)]"@,
    ensures
        production_lines(lines, k) == production_lines(lines, item_end(lines, k)),
        k + 1 < lines.len() && has_suffix(trimmed_end(lines[k + 1]), ";"@) ==> production_lines(
            lines,
            k,
        ) == production_lines(lines, k + 2),
{
    reveal_strlit(";");
    assert(";"@ =~= seq![';']);
    crate::quality::loc::items_end_ahead(lines, k);
}

/// Any other line counts once.
pub proof fn other_lines_count(lines: Seq<Seq<char>>, k: int)
    requires
        0 <= k < lines.len(),
        trimmed(lines[k]) != "#[cfg(test)]"@,
    ensures
        production_lines(lines, k) == 1 + production_lines(lines, k + 1),
{
}

/// A file is too long from the first line over the limit on.
pub proof fn long_files_are_reported(path: Seq<char>, lines: nat)
    ensures
        too_long(path, lines) is Some <==> lines >= 501,
{
}

} // verus!
