//! Sessions with tool servers, and the texts and paths that adapters read.

use vstd::prelude::*;

use crate::adapters::listing::ListingV;
use crate::adapters::sessions::SessionV;
use crate::json::{Json, NumberV};

verus! {

use crate::adapters::http::{is_json_type, json_at};
use crate::adapters::listing::{entry_json, listing_json, relative, sorted_entries};
use crate::adapters::mcp::{
    call_request, content_texts, data_lines, derived, failure_text, listed_tools, rpc_request,
};
use crate::adapters::paths::{components, is_inside, named_parts};
use crate::adapters::sessions::{answers, depth_of, tail_text, tail_with};
use crate::adapters::shell::{args_of, cwd_of};
use crate::fields::{number_field, object, reading_gives_back, text_field, with};
use crate::laws::gates::blank;
use crate::ordered::{has_key, sorted_pairs};
use crate::scan::{has_prefix, is_space, parsed_number};
use crate::text::{join_with, split_on};
use crate::value::json_field;

proof fn lemma_single(k: Seq<char>, v: Json, x: Seq<char>)
    ensures
        with(object(), k, v) is Object,
        sorted_pairs(with(object(), k, v)->Object_0),
        json_field(with(object(), k, v), x) == if x == k {
            Some(v)
        } else {
            None
        },
{
    let empty: Seq<(Seq<char>, Json)> = Seq::empty();
    assert(!has_key(empty, x));
    reading_gives_back(object(), k, v, x);
}

proof fn lemma_request(id: u64, method: Seq<char>, x: Seq<char>)
    ensures
        rpc_request(id, method) is Object,
        sorted_pairs(rpc_request(id, method)->Object_0),
        x == "id"@ ==> json_field(rpc_request(id, method), x) == Some(
            Json::Number(NumberV::PosInt(id)),
        ),
        x == "method"@ ==> json_field(rpc_request(id, method), x) == Some(Json::Text(method)),
        x == "jsonrpc"@ ==> json_field(rpc_request(id, method), x) == Some(Json::Text("2.0"@)),
{
    reveal_strlit("id");
    reveal_strlit("method");
    reveal_strlit("jsonrpc");
    assert("id"@.len() != "method"@.len());
    assert("id"@.len() != "jsonrpc"@.len());
    assert("method"@.len() != "jsonrpc"@.len());
    let a = with(object(), "jsonrpc"@, Json::Text("2.0"@));
    let b = with(a, "id"@, Json::Number(NumberV::PosInt(id)));
    lemma_single("jsonrpc"@, Json::Text("2.0"@), x);
    reading_gives_back(a, "id"@, Json::Number(NumberV::PosInt(id)), x);
    reading_gives_back(b, "method"@, Json::Text(method), x);
}

/// A request carries its id and its method, and one that calls a tool the
/// tool's name and arguments too.
pub proof fn requests_carry_their_call(id: u64, method: Seq<char>, name: Seq<char>, arguments: Json)
    ensures
        number_field(rpc_request(id, method), "id"@) == Some(id),
        text_field(rpc_request(id, method), "method"@) == Some(method),
        text_field(rpc_request(id, method), "jsonrpc"@) == Some("2.0"@),
        number_field(call_request(id, name, arguments), "id"@) == Some(id),
        text_field(call_request(id, name, arguments), "method"@) == Some("tools/call"@),
        json_field(call_request(id, name, arguments), "params"@) matches Some(p) && text_field(
            p,
            "name"@,
        ) == Some(name) && json_field(p, "arguments"@) == Some(arguments),
{
    lemma_request(id, method, "id"@);
    lemma_request(id, method, "method"@);
    lemma_request(id, method, "jsonrpc"@);
    let r = rpc_request(id, "tools/call"@);
    lemma_request(id, "tools/call"@, "id"@);
    lemma_request(id, "tools/call"@, "method"@);
    reveal_strlit("id");
    reveal_strlit("method");
    reveal_strlit("params");
    reveal_strlit("name");
    reveal_strlit("arguments");
    assert("params"@.len() != "id"@.len());
    assert("params"@[0] != "method"@[0]);
    assert("name"@.len() != "arguments"@.len());
    let n = with(object(), "name"@, Json::Text(name));
    let p = with(n, "arguments"@, arguments);
    lemma_single("name"@, Json::Text(name), "name"@);
    reading_gives_back(n, "arguments"@, arguments, "name"@);
    reading_gives_back(n, "arguments"@, arguments, "arguments"@);
    reading_gives_back(r, "params"@, p, "id"@);
    reading_gives_back(r, "params"@, p, "method"@);
    reading_gives_back(r, "params"@, p, "params"@);
}

/// An event stream carries one message per line that starts with `data:`,
/// in order and without the white space around it; other lines carry none.
pub proof fn data_lines_carry_messages(
    lines: Seq<Seq<char>>,
    k: int,
    before: Seq<char>,
    message: Seq<char>,
    after: Seq<char>,
)
    requires
        0 <= k < lines.len(),
        blank(before),
        blank(after),
        message.len() > 0,
        !is_space(message[0]),
        !is_space(message.last()),
    ensures
        lines[k] == "data:"@ + (before + message + after) ==> data_lines(lines, k + 1)
            == data_lines(lines, k).push(message),
        !has_prefix(lines[k], "data:"@) ==> data_lines(lines, k + 1) == data_lines(lines, k),
{
    reveal_strlit("data:");
    let rest = before + message + after;
    if lines[k] == "data:"@ + rest {
        assert(lines[k].subrange(0, 5) =~= "data:"@);
        assert(has_prefix(lines[k], "data:"@));
        assert(lines[k].skip(5) =~= rest);
        crate::laws::gates::white_space_is_trimmed(before, message, after);
    }
}

/// Every entry of a tool list gives one tool, in order, with its name, its
/// schema and its annotations; a schema of null counts as none.
pub proof fn listed_tools_say_what_they_take(result: Json, items: Seq<Json>, server: Seq<char>, i: int)
    requires
        json_field(result, "tools"@) == Some(Json::List(items)),
        0 <= i < items.len(),
    ensures
        listed_tools(result).len() == items.len(),
        text_field(items[i], "name"@) matches Some(name) ==> listed_tools(result)[i].name == name,
        listed_tools(result)[i].description == text_field(items[i], "description"@),
        listed_tools(result)[i].input_schema == json_field(items[i], "inputSchema"@),
        json_field(items[i], "annotations"@) matches Some(a) ==> listed_tools(result)[i].annotations
            == a,
        json_field(items[i], "inputSchema"@) matches Some(schema) ==> {
            let d = derived(server, listed_tools(result)[i]);
            &&& schema is Null ==> d.input_schema is None
            &&& !(schema is Null) ==> d.input_schema == Some(schema)
        },
        derived(server, listed_tools(result)[i]).tool == listed_tools(result)[i].name,
{
}

proof fn lemma_texts(items: Seq<Json>, k: int, texts: Seq<Seq<char>>)
    requires
        0 <= k <= items.len(),
        texts.len() == items.len(),
        forall|i: int|
            0 <= i < items.len() ==> text_field(#[trigger] items[i], "text"@) == Some(texts[i]),
    ensures
        content_texts(items, k) == texts.take(k),
    decreases k,
{
    if k > 0 {
        lemma_texts(items, k - 1, texts);
        assert(text_field(items[k - 1], "text"@) == Some(texts[k - 1]));
        assert(texts.take(k) =~= texts.take(k - 1).push(texts[k - 1]));
    } else {
        assert(texts.take(k) =~= Seq::empty());
    }
}

/// A failed tool reports all its texts, one per line and in order; one that
/// says nothing gets a report that says so.
pub proof fn failed_tools_report_their_texts(result: Json, items: Seq<Json>, texts: Seq<Seq<char>>)
    requires
        json_field(result, "content"@) == Some(Json::List(items)),
        texts.len() == items.len(),
        forall|i: int|
            0 <= i < items.len() ==> text_field(#[trigger] items[i], "text"@) == Some(texts[i]),
    ensures
        join_with(texts, "\n"@).len() > 0 ==> failure_text(result) == join_with(texts, "\n"@),
        texts.len() == 0 ==> failure_text(result) == "tool reported an error"@,
{
    lemma_texts(items, items.len() as int, texts);
    assert(texts.take(items.len() as int) =~= texts);
}

/// Parts are joined with the separator between any two of them.
pub proof fn parts_are_joined(parts: Seq<Seq<char>>, last: Seq<char>, sep: Seq<char>)
    ensures
        parts.len() > 0 ==> join_with(parts.push(last), sep) == join_with(parts, sep) + sep + last,
        join_with(seq![last], sep) == last,
        join_with(Seq::empty(), sep).len() == 0,
{
    assert(parts.push(last).drop_last() =~= parts);
}

// ---------------------------------------------------------------------------
// Sessions
// ---------------------------------------------------------------------------

/// A message answers a request exactly when it carries the id of a request
/// that waits, and asks for nothing itself.
pub proof fn answers_match_waiting_requests(s: SessionV, message: Json, id: u64)
    ensures
        answers(s, message) == Some(id) <==> (json_field(message, "id"@) == Some(
            Json::Number(NumberV::PosInt(id)),
        ) && json_field(message, "method"@) is None && s.pending.contains(id)),
{
}

/// The last forty lines that a server wrote to its standard error are kept,
/// in order.
pub proof fn the_last_lines_are_kept(tail: Seq<Seq<char>>, line: Seq<char>)
    requires
        tail.len() <= 40,
    ensures
        tail_with(tail, line).len() <= 40,
        tail_with(tail, line).last() == line,
        tail.len() < 40 ==> tail_with(tail, line)
            == tail + seq![line],
        tail.len() == 40 ==> seq![tail[0]] + tail_with(
            tail,
            line,
        ) == tail + seq![line],
        tail.len() == 0 ==> tail_text(tail).len() == 0,
        tail_text(tail_with(tail, line)).len() > 0,
{
    reveal_strlit("; server stderr tail:\n");
    if tail.len() > 0 {
        assert(seq![tail[0]] + tail.drop_first().push(line) =~= tail + seq![line]);
    }
    assert(tail.push(line) =~= tail + seq![line]);
}

/// The nesting depth is the number that the environment gives, and zero when
/// it gives none.
pub proof fn depths_are_numbers(text: Seq<char>)
    ensures
        depth_of(None) == 0,
        parsed_number(text, u32::MAX as nat) matches Some(n) ==> depth_of(Some(text)) == n,
        parsed_number(text, u32::MAX as nat) is None ==> depth_of(Some(text)) == 0,
{
}

// ---------------------------------------------------------------------------
// Content types and listings
// ---------------------------------------------------------------------------

/// A content type that names JSON anywhere is one of JSON.
pub proof fn json_types_are_known(before: Seq<char>, after: Seq<char>)
    ensures
        is_json_type(before + "json"@ + after),
        is_json_type(before + "JSON"@ + after),
        before.len() < 4 ==> !is_json_type(before),
        (forall|i: int| 0 <= i < before.len() ==> (#[trigger] before[i]) != 'j' && before[i] != 'J')
            ==> !is_json_type(before),
{
    reveal_strlit("json");
    reveal_strlit("JSON");
    let n = before.len() as int;
    let s = before + "json"@ + after;
    assert(s[n] == 'j' && s[n + 1] == 's' && s[n + 2] == 'o' && s[n + 3] == 'n');
    assert(json_at(s, n));
    let t = before + "JSON"@ + after;
    assert(t[n] == 'J' && t[n + 1] == 'S' && t[n + 2] == 'O' && t[n + 3] == 'N');
    assert(json_at(t, n));
}

/// A listing shows every entry once, by name and kind, and says when it was
/// cut short.
pub proof fn listings_show_their_entries(l: ListingV, i: int)
    requires
        0 <= i < sorted_entries(l.entries, l.entries.len() as int).len(),
    ensures
        json_field(listing_json(l), "entries"@) matches Some(Json::List(shown)) && shown.len()
            == sorted_entries(l.entries, l.entries.len() as int).len() && text_field(
            shown[i],
            "name"@,
        ) == Some(sorted_entries(l.entries, l.entries.len() as int)[i].name) && text_field(
            shown[i],
            "kind"@,
        ) == Some(sorted_entries(l.entries, l.entries.len() as int)[i].kind.label()),
        json_field(listing_json(l), "truncated"@) is Some <==> l.truncated,
{
    let sorted = sorted_entries(l.entries, l.entries.len() as int);
    let list = Json::List(Seq::new(sorted.len(), |x: int| entry_json(sorted[x])));
    reveal_strlit("entries");
    reveal_strlit("truncated");
    reveal_strlit("name");
    reveal_strlit("kind");
    assert("entries"@.len() != "truncated"@.len());
    assert("name"@[0] != "kind"@[0]);
    let shown = with(object(), "entries"@, list);
    lemma_single("entries"@, list, "entries"@);
    lemma_single("entries"@, list, "truncated"@);
    reading_gives_back(shown, "truncated"@, Json::Bool(true), "entries"@);
    reading_gives_back(shown, "truncated"@, Json::Bool(true), "truncated"@);
    let e = sorted[i];
    let n = with(object(), "name"@, Json::Text(e.name));
    lemma_single("name"@, Json::Text(e.name), "name"@);
    lemma_single("name"@, Json::Text(e.name), "kind"@);
    reading_gives_back(n, "kind"@, Json::Text(e.kind.label()), "name"@);
    reading_gives_back(n, "kind"@, Json::Text(e.kind.label()), "kind"@);
}

/// An entry is listed under its path below the listed directory.
pub proof fn entries_are_listed_below_their_directory(prefix: Seq<char>, name: Seq<char>)
    ensures
        relative(Seq::empty(), name) == name,
        prefix.len() > 0 ==> relative(prefix, name) == prefix + seq!['/'] + name,
{
    reveal_strlit("/");
    assert("/"@ =~= seq!['/']);
}

// ---------------------------------------------------------------------------
// Paths
// ---------------------------------------------------------------------------

proof fn lemma_split_joined(a: Seq<char>, b: Seq<char>, sep: char)
    ensures
        split_on(a + seq![sep] + b, sep) == split_on(a, sep) + split_on(b, sep),
    decreases b.len(),
{
    let s = a + seq![sep] + b;
    crate::text::split_on_nonempty(a, sep);
    if b.len() == 0 {
        assert(s.drop_last() =~= a);
        assert(split_on(s, sep) =~= split_on(a, sep) + split_on(b, sep));
    } else {
        lemma_split_joined(a, b.drop_last(), sep);
        assert(s.drop_last() =~= a + seq![sep] + b.drop_last());
        assert(s.last() == b.last());
        crate::text::split_on_nonempty(b.drop_last(), sep);
        assert(split_on(s, sep) =~= split_on(a, sep) + split_on(b, sep));
    }
}

proof fn lemma_named_joined(a: Seq<Seq<char>>, b: Seq<Seq<char>>, k: int)
    requires
        0 <= k <= b.len(),
    ensures
        named_parts(a + b, a.len() + k) == named_parts(a, a.len() as int) + named_parts(b, k),
    decreases k,
{
    if k == 0 {
        lemma_named_same(a, b, a.len() as int);
        assert(named_parts(a, a.len() as int) + named_parts(b, 0) =~= named_parts(
            a,
            a.len() as int,
        ));
    } else {
        lemma_named_joined(a, b, k - 1);
        assert((a + b)[a.len() + k - 1] == b[k - 1]);
        assert(named_parts(a + b, a.len() + k) =~= named_parts(a, a.len() as int) + named_parts(
            b,
            k,
        ));
    }
}

proof fn lemma_named_same(a: Seq<Seq<char>>, b: Seq<Seq<char>>, k: int)
    requires
        0 <= k <= a.len(),
    ensures
        named_parts(a + b, k) == named_parts(a, k),
    decreases k,
{
    if k > 0 {
        lemma_named_same(a, b, k - 1);
        assert((a + b)[k - 1] == a[k - 1]);
    }
}

proof fn lemma_components(dir: Seq<char>, rest: Seq<char>)
    requires
        dir.len() > 0,
    ensures
        components(dir + seq!['/'] + rest, false) == components(dir, false) + named_parts(
            split_on(rest, '/'),
            split_on(rest, '/').len() as int,
        ),
{
    let path = dir + seq!['/'] + rest;
    assert(path.skip(0) =~= path);
    assert(dir.skip(0) =~= dir);
    assert(path[0] == dir[0]);
    lemma_split_joined(dir, rest, '/');
    let a = split_on(dir, '/');
    let b = split_on(rest, '/');
    lemma_named_joined(a, b, b.len() as int);
    assert(components(path, false) =~= components(dir, false) + named_parts(b, b.len() as int));
}

/// A path below a directory is inside it, and so is the directory itself.
pub proof fn paths_below_a_directory_are_inside(dir: Seq<char>, rest: Seq<char>)
    requires
        dir.len() > 0,
    ensures
        is_inside(dir, dir, false),
        is_inside(dir + seq!['/'] + rest, dir, false),
{
    lemma_components(dir, rest);
    let a = components(dir, false);
    let b = components(dir + seq!['/'] + rest, false);
    assert(a =~= b.take(a.len() as int));
    assert(a =~= a.take(a.len() as int));
}

/// A directory beside another is not inside it, though its name goes on where
/// the other's ends.
pub proof fn neighbours_are_not_inside(parent: Seq<char>, name: Seq<char>, other: Seq<char>)
    requires
        parent.len() > 0,
        name.len() > 0,
        other.len() > 0,
        !name.contains('/'),
        !other.contains('/'),
        name != other,
    ensures
        !is_inside(parent + seq!['/'] + other, parent + seq!['/'] + name, false),
{
    lemma_components(parent, name);
    lemma_components(parent, other);
    crate::laws::templates::splitting_cuts_at_separators(name, Seq::empty(), '/');
    crate::laws::templates::splitting_cuts_at_separators(other, Seq::empty(), '/');
    let n = components(parent, false).len() as int;
    let a = components(parent + seq!['/'] + name, false);
    let b = components(parent + seq!['/'] + other, false);
    assert(split_on(name, '/')[0] == name);
    assert(split_on(other, '/')[0] == other);
    assert(named_parts(seq![name], 0) =~= Seq::empty());
    assert(named_parts(seq![other], 0) =~= Seq::empty());
    assert(named_parts(seq![name], 1) =~= seq![name]);
    assert(named_parts(seq![other], 1) =~= seq![other]);
    assert(a[n] == name);
    assert(b[n] == other);
    if a.is_prefix_of(b) {
        assert(b.take(a.len() as int)[n] == b[n]);
    }
}

/// A command runs where its input says: an absolute directory as it is, any
/// other one below that of the configuration.
pub proof fn commands_run_where_they_are_told(input: Json, base: Seq<char>, own: Seq<char>)
    requires
        base.len() > 0,
        base.last() != '/',
    ensures
        text_field(input, "cwd"@) is None ==> cwd_of(input, Some(base), false) == Some(base)
            && cwd_of(input, None, false) is None,
        text_field(input, "cwd"@) == Some(own) && own.len() > 0 && own[0] == '/' ==> cwd_of(
            input,
            Some(base),
            false,
        ) == Some(own),
        text_field(input, "cwd"@) == Some(own) && (own.len() == 0 || own[0] != '/') ==> cwd_of(
            input,
            Some(base),
            false,
        ) == Some(base + seq!['/'] + own),
        text_field(input, "cwd"@) == Some(own) ==> cwd_of(input, None, false) == Some(own),
{
    reveal_strlit("/");
    assert("/"@ =~= seq!['/']);
}

/// The arguments of a command are the texts of its list, in order; a list
/// that holds anything else is refused.
pub proof fn arguments_are_texts(input: Json, items: Seq<Json>, i: int)
    requires
        json_field(input, "args"@) == Some(Json::List(items)),
        0 <= i < items.len(),
    ensures
        !(items[i] is Text) ==> args_of(input) is Err,
        args_of(input) matches Ok(args) ==> args.len() == items.len() && items[i] == Json::Text(
            args[i],
        ),
        (forall|j: int| 0 <= j < items.len() ==> (#[trigger] items[j]) is Text) ==> args_of(input)
            is Ok,
{
}

} // verus!
