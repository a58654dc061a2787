//! Adapters: requests, replies, paths, listings and environments.

use vstd::prelude::*;

use crate::adapters::api::{BatchInputV, BatchOutputV, ToolErrorV};
use crate::adapters::http::{HttpErrorV, RequestV};
use crate::adapters::listing::{EntryKind, EntryV, ListingV};
use crate::adapters::mcp::McpErrorV;
use crate::json::{Json, NumberV};
use crate::plan::{PlanV, ToolSpecV};
use crate::runtime::registry::{CapabilitiesV, RegistryV};

verus! {

use crate::adapters::bytes::{cut_position, lossy_text};
use crate::adapters::fs::{after_writes, read_limit, read_result};
use crate::adapters::http::{
    has_scheme, headers_json, headers_of, http_failure, request_of, requested_url, response_json,
    scheme_ends, uppercased, without_end, without_start,
};
use crate::adapters::listing::after_entry;
use crate::adapters::local::{batch_result, local_result, longest_sleep, sleep_of};
use crate::adapters::mcp::{
    annotated_effects, answer_in, batch_outputs, mcp_failure, normalized, response_of,
};
use crate::adapters::paths::escapes;
use crate::adapters::process::{candidates, has_extension};
use crate::adapters::shell::{capped, inherited, run_request_of, run_result, with_flag};
use crate::canonical::canonical;
use crate::fields::{integer, number_field, object, reading_gives_back, with};
use crate::laws::templates::splitting_cuts_at_separators;
use crate::runtime::registry::{capabilities_in, hydrated, hydrated_tool};
use crate::runtime::result::lowercased;
use crate::value::json_field;

/// An object whose keys stand in order.
pub open spec fn is_record(j: Json) -> bool {
    j is Object && crate::ordered::sorted_pairs(j->Object_0)
}

proof fn lemma_with(j: Json, k: Seq<char>, v: Json)
    requires
        is_record(j),
    ensures
        is_record(with(j, k, v)),
        json_field(with(j, k, v), k) == Some(v),
        forall|x: Seq<char>| x != k ==> #[trigger] json_field(with(j, k, v), x) == json_field(j, x),
{
    reading_gives_back(j, k, v, k);
    assert forall|x: Seq<char>| x != k implies #[trigger] json_field(with(j, k, v), x)
        == json_field(j, x) by {
        reading_gives_back(j, k, v, x);
    }
}

// ---------------------------------------------------------------------------
// HTTP
// ---------------------------------------------------------------------------

proof fn lemma_headers(entries: Seq<(Seq<char>, Json)>, k: int, i: int)
    requires
        0 <= i < k <= entries.len(),
        forall|j: int| i < j < k ==> lowercased((#[trigger] entries[j]).0) != lowercased(
            entries[i].0,
        ),
    ensures
        headers_of(entries, k).dom().contains(lowercased(entries[i].0)),
        headers_of(entries, k)[lowercased(entries[i].0)] == entries[i].1->Text_0,
    decreases k,
{
    if i < k - 1 {
        assert(lowercased(entries[k - 1].0) != lowercased(entries[i].0));
        lemma_headers(entries, k - 1, i);
    }
}

/// A request goes to the URL of the input with the method that it names in
/// capitals, or with GET. Its headers are those of the input under lower-case
/// names. A text is sent as it is, another value as JSON and declared so
/// unless the input declares a type, and no value without a body.
pub proof fn requests_say_what_the_input_says(
    input: Json,
    url: Seq<char>,
    entries: Seq<(Seq<char>, Json)>,
    i: int,
)
    requires
        json_field(input, "url"@) == Some(Json::Text(url)),
        json_field(input, "headers"@) == Some(Json::Object(entries)),
        forall|k: int| 0 <= k < entries.len() ==> (#[trigger] entries[k]).1 is Text,
        0 <= i < entries.len(),
        forall|j: int| i < j < entries.len() ==> lowercased((#[trigger] entries[j]).0)
            != lowercased(entries[i].0),
    ensures
        request_of(input) matches Ok(r) && {
            &&& r.url == url
            &&& json_field(input, "method"@) is None ==> r.method == "GET"@
            &&& json_field(input, "method"@) matches Some(Json::Text(m)) ==> r.method == uppercased(m)
            &&& r.headers.dom().contains(lowercased(entries[i].0))
            &&& r.headers[lowercased(entries[i].0)] == entries[i].1->Text_0
            &&& json_field(input, "body"@) is None || json_field(input, "body"@) == Some(Json::Null)
                ==> r.body is None
            &&& json_field(input, "body"@) matches Some(Json::Text(t)) ==> r.body == Some(t)
            &&& json_field(input, "body"@) matches Some(b) ==> (!(b is Text) && !(b is Null) ==> {
                &&& r.body == Some(canonical(b))
                &&& r.headers.dom().contains("content-type"@)
                &&& lowercased(entries[i].0) != "content-type"@ && (forall|j: int|
                    0 <= j < entries.len() ==> lowercased((#[trigger] entries[j]).0)
                        != "content-type"@) ==> r.headers["content-type"@] == "application/json"@
            })
        },
{
    lemma_headers(entries, entries.len() as int, i);
    if forall|j: int|
        0 <= j < entries.len() ==> lowercased((#[trigger] entries[j]).0) != "content-type"@ {
        lemma_no_header(entries, entries.len() as int, "content-type"@);
    }
}

proof fn lemma_no_header(entries: Seq<(Seq<char>, Json)>, k: int, name: Seq<char>)
    requires
        0 <= k <= entries.len(),
        forall|j: int| 0 <= j < k ==> lowercased((#[trigger] entries[j]).0) != name,
    ensures
        !headers_of(entries, k).dom().contains(name),
    decreases k,
{
    if k > 0 {
        assert(lowercased(entries[k - 1].0) != name);
        lemma_no_header(entries, k - 1, name);
    }
}

/// A request without a URL, or with a header that is no text, is refused as
/// invalid input that is not worth another attempt.
pub proof fn bad_requests_are_refused(input: Json, i: int)
    ensures
        json_field(input, "url"@) is None ==> request_of(input) == Err::<RequestV, HttpErrorV>(
            HttpErrorV::MissingField("url"@),
        ),
        json_field(input, "url"@) matches Some(Json::Text(u)) ==> (json_field(
            input,
            "headers"@,
        ) matches Some(Json::Object(entries)) ==> (0 <= i < entries.len() && !(entries[i].1 is Text)
            ==> request_of(input) == Err::<RequestV, HttpErrorV>(HttpErrorV::InvalidHeaders))),
        forall|e: HttpErrorV|
            request_of(input) == Err::<RequestV, HttpErrorV>(e) ==> (#[trigger] http_failure(
                e,
            )).code == Some("invalid_input"@) && http_failure(e).retryable == Some(false),
{
}

proof fn lemma_without_end(s: Seq<char>, c: char)
    ensures
        without_end(s, c).len() == 0 || without_end(s, c).last() != c,
        without_end(s, c).is_prefix_of(s),
        forall|i: int| without_end(s, c).len() <= i < s.len() ==> s[i] == c,
    decreases s.len(),
{
    if s.len() > 0 && s.last() == c {
        let d = s.drop_last();
        lemma_without_end(d, c);
        assert forall|i: int| without_end(s, c).len() <= i < s.len() implies s[i] == c by {
            if i < d.len() {
                assert(d[i] == s[i]);
            }
        }
    }
}

proof fn lemma_without_start(s: Seq<char>, c: char)
    ensures
        without_start(s, c).len() == 0 || without_start(s, c)[0] != c,
        without_start(s, c).len() <= s.len(),
        s.skip(s.len() - without_start(s, c).len()) == without_start(s, c),
        forall|i: int| 0 <= i < s.len() - without_start(s, c).len() ==> s[i] == c,
    decreases s.len(),
{
    if s.len() > 0 && s[0] == c {
        let d = s.drop_first();
        lemma_without_start(d, c);
        let n = without_start(s, c).len();
        assert(s.skip(s.len() - n) =~= d.skip(d.len() - n));
        assert forall|i: int| 0 <= i < s.len() - n implies s[i] == c by {
            if i > 0 {
                assert(d[i - 1] == s[i]);
            }
        }
    } else {
        assert(s.skip(0) =~= s);
    }
}

/// A URL with a scheme is requested as it is. A relative one stands below the
/// base, with exactly one slash between: the base without the slashes at its
/// end, and the URL without those at its start.
pub proof fn relative_urls_stand_below_the_base(
    base: Seq<char>,
    url: Seq<char>,
    head: Seq<char>,
    tail: Seq<char>,
    m: nat,
    n: nat,
)
    requires
        base == head + Seq::new(m, |i: int| '/'),
        url == Seq::new(n, |i: int| '/') + tail,
        head.len() == 0 || head.last() != '/',
        tail.len() == 0 || tail[0] != '/',
    ensures
        requested_url(None, url) == url,
        has_scheme(url) ==> requested_url(Some(base), url) == url,
        !has_scheme(url) ==> requested_url(Some(base), url) == head + "/"@ + tail,
{
    lemma_without_end(base, '/');
    lemma_without_start(url, '/');
    let h = without_end(base, '/');
    let t = without_start(url, '/');
    if h.len() < head.len() {
        assert(base[head.len() - 1] == '/');
        assert(base[head.len() - 1] == head.last());
    }
    if h.len() > head.len() {
        assert(h.last() == base[h.len() - 1]);
    }
    assert(h =~= head);
    let skipped = url.len() - t.len();
    if skipped < n {
        assert(url.skip(skipped)[0] == url[skipped]);
        assert(t[0] == url[skipped]);
    }
    if skipped > n {
        assert(url[n as int] == '/');
        assert(url[n as int] == tail[0]);
    }
    assert(t =~= tail);
}

/// `https://` and the like make a URL absolute; a text without `://` has no
/// scheme.
pub proof fn schemes_end_with_slashes(url: Seq<char>)
    ensures
        (forall|i: int| 0 <= i < url.len() - 2 ==> !(#[trigger] url[i] == ':' && url[i + 1] == '/'
            && url[i + 2] == '/')) ==> !has_scheme(url),
{
    if has_scheme(url) {
        let i = choose|i: int| scheme_ends(url, i);
        assert(url[i] == ':');
    }
}

/// What a request returns: the status, whether it is one of success, the
/// headers, and the body.
pub proof fn responses_show_their_status(
    status: u16,
    headers: Seq<(Seq<char>, Seq<char>)>,
    body: Json,
)
    ensures
        ({
            let r = response_json(status, headers, body);
            &&& json_field(r, "status"@) == Some(Json::Number(NumberV::PosInt(status as u64)))
            &&& 200 <= status <= 299 ==> json_field(r, "ok"@) == Some(Json::Bool(true))
            &&& status < 200 || status > 299 ==> json_field(r, "ok"@) == Some(Json::Bool(false))
            &&& json_field(r, "headers"@) == Some(headers_json(headers))
            &&& json_field(r, "body"@) == Some(body)
        }),
{
    reveal_strlit("status");
    reveal_strlit("ok");
    reveal_strlit("headers");
    reveal_strlit("body");
    assert("status"@.len() == 6 && "ok"@.len() == 2 && "headers"@.len() == 7 && "body"@.len() == 4);
    let a = with(object(), "status"@, Json::Number(NumberV::PosInt(status as u64)));
    let b = with(a, "ok"@, Json::Bool(200 <= status < 300));
    let c = with(b, "headers"@, headers_json(headers));
    lemma_with(object(), "status"@, Json::Number(NumberV::PosInt(status as u64)));
    lemma_with(a, "ok"@, Json::Bool(200 <= status < 300));
    lemma_with(b, "headers"@, headers_json(headers));
    lemma_with(c, "body"@, body);
}

// ---------------------------------------------------------------------------
// MCP
// ---------------------------------------------------------------------------

/// A response with an error is that error, with its code and message; one
/// without is its result; one with neither breaks the protocol.
pub proof fn responses_are_results_or_errors(message: Json, error: Json)
    ensures
        json_field(message, "error"@) == Some(error) ==> (response_of(message) matches Err(
            McpErrorV::Server { code, message: text },
        ) && {
            &&& json_field(error, "message"@) matches Some(Json::Text(t)) ==> text == t
            &&& json_field(error, "code"@) matches Some(Json::Number(NumberV::NegInt(n))) ==> code
                == n
        }),
        json_field(message, "error"@) is None ==> (json_field(message, "result"@) matches Some(v)
            ==> response_of(message) == Ok::<Json, McpErrorV>(v)),
        json_field(message, "error"@) is None && json_field(message, "result"@) is None
            ==> response_of(message) is Err && response_of(message)->Err_0 is Protocol,
{
}

proof fn lemma_answer_in(messages: Seq<Option<Json>>, id: u64, from: int, k: int)
    requires
        0 <= from <= k < messages.len(),
        messages[k] matches Some(m) && number_field(m, "id"@) == Some(id),
        forall|i: int|
            from <= i < k ==> (#[trigger] messages[i] matches Some(m) ==> number_field(m, "id"@)
                != Some(id)),
    ensures
        answer_in(messages, id, from) == messages[k],
    decreases k - from,
{
    if from < k {
        assert(messages[from] matches Some(m) ==> number_field(m, "id"@) != Some(id));
        lemma_answer_in(messages, id, from + 1, k);
    }
}

proof fn lemma_no_answer_in(messages: Seq<Option<Json>>, id: u64, from: int)
    requires
        0 <= from <= messages.len(),
        forall|i: int|
            from <= i < messages.len() ==> (#[trigger] messages[i] matches Some(m) ==> number_field(
                m,
                "id"@,
            ) != Some(id)),
    ensures
        answer_in(messages, id, from) is None,
    decreases messages.len() - from,
{
    if from < messages.len() {
        assert(messages[from] matches Some(m) ==> number_field(m, "id"@) != Some(id));
        lemma_no_answer_in(messages, id, from + 1);
    }
}

/// The answer to a request in an event stream is the first message with its
/// id; without one there is no answer.
pub proof fn answers_carry_the_id(messages: Seq<Option<Json>>, id: u64, k: int)
    ensures
        0 <= k < messages.len() && messages[k] is Some && number_field(messages[k]->0, "id"@)
            == Some(id) && (forall|i: int|
            0 <= i < k ==> (#[trigger] messages[i] matches Some(m) ==> number_field(m, "id"@)
                != Some(id))) ==> answer_in(messages, id, 0) == messages[k],
        (forall|i: int|
            0 <= i < messages.len() ==> (#[trigger] messages[i] matches Some(m) ==> number_field(
                m,
                "id"@,
            ) != Some(id))) ==> answer_in(messages, id, 0) is None,
{
    if 0 <= k < messages.len() && messages[k] is Some && number_field(messages[k]->0, "id"@) == Some(
        id,
    ) && (forall|i: int|
        0 <= i < k ==> (#[trigger] messages[i] matches Some(m) ==> number_field(m, "id"@) != Some(
            id,
        ))) {
        lemma_answer_in(messages, id, 0, k);
    }
    if forall|i: int|
        0 <= i < messages.len() ==> (#[trigger] messages[i] matches Some(m) ==> number_field(
            m,
            "id"@,
        ) != Some(id)) {
        lemma_no_answer_in(messages, id, 0);
    }
}

/// A tool result that reports an error is an error; another is its structured
/// content, or the whole result where there is none.
pub proof fn tool_results_are_unwrapped(result: Json)
    ensures
        json_field(result, "isError"@) == Some(Json::Bool(true)) ==> normalized(result) is Err
            && normalized(result)->Err_0 is ToolError,
        json_field(result, "isError"@) != Some(Json::Bool(true)) ==> {
            &&& json_field(result, "structuredContent"@) matches Some(v) ==> normalized(result)
                == Ok::<Json, McpErrorV>(v)
            &&& json_field(result, "structuredContent"@) is None ==> normalized(result) == Ok::<
                Json,
                McpErrorV,
            >(result)
        },
{
}

/// A tool that announces itself read-only reads the resource of its server and
/// writes nothing; another writes it. It is idempotent exactly when it says
/// so, and cacheable when it is read-only and idempotent. It is never pure.
pub proof fn annotations_give_effects(server: Seq<char>, annotations: Json)
    ensures
        ({
            let e = annotated_effects(server, annotations);
            let read_only = json_field(annotations, "readOnlyHint"@) == Some(Json::Bool(true));
            let idempotent = json_field(annotations, "idempotentHint"@) == Some(Json::Bool(true));
            &&& !e.pure
            &&& !e.batchable
            &&& !e.commutative
            &&& e.idempotent == idempotent
            &&& e.cacheable == (read_only && idempotent)
            &&& read_only ==> e.reads == set!["mcp:"@ + server] && e.writes == Set::<
                Seq<char>,
            >::empty()
            &&& !read_only ==> e.writes == set!["mcp:"@ + server] && e.reads == Set::<
                Seq<char>,
            >::empty()
        }),
{
}

/// The outputs of pipelined calls keep their nodes and their order; one error
/// fails them all.
pub proof fn pipelined_outputs_keep_their_nodes(results: Seq<BatchOutputV>, k: int, i: int)
    requires
        0 <= i < k <= results.len(),
    ensures
        batch_outputs(results, k) matches Ok(out) ==> {
            &&& out.len() == k
            &&& out[i].node == results[i].node
            &&& normalized(results[i].output) == Ok::<Json, McpErrorV>(out[i].output)
        },
        normalized(results[i].output) is Err ==> batch_outputs(results, k) is Err,
    decreases k,
{
    if k > 1 {
        pipelined_outputs_keep_their_nodes(results, k - 1, if i < k - 1 {
            i
        } else {
            0
        });
    } else {
        assert(batch_outputs(results, 0)->Ok_0.len() == 0);
    }
}

/// Lost connections and timeouts are worth another attempt, breaches of the
/// protocol are not, and what the server or the tool reports is left to the
/// filters.
pub proof fn mcp_errors_say_whether_to_retry(e: McpErrorV)
    ensures
        e is Transport ==> mcp_failure(e).retryable == Some(true) && mcp_failure(e).code == Some(
            "mcp_transport"@,
        ),
        e is Timeout ==> mcp_failure(e).retryable == Some(true) && mcp_failure(e).code == Some(
            "timeout"@,
        ),
        e is Protocol || e is UnsupportedVersion ==> mcp_failure(e).retryable == Some(false)
            && mcp_failure(e).code == Some("mcp_protocol"@),
        e is Server ==> mcp_failure(e).retryable is None && mcp_failure(e).code == Some(
            "mcp_server"@,
        ),
        e is ToolError ==> mcp_failure(e).retryable is None && mcp_failure(e).code == Some(
            "mcp_tool_error"@,
        ),
{
}

// ---------------------------------------------------------------------------
// Files
// ---------------------------------------------------------------------------

/// A file within the limit is read whole. A longer one is cut at a character,
/// marked as truncated, and shown with its full length in bytes.
pub proof fn long_files_are_marked(bytes: Seq<u8>, max: usize)
    requires
        bytes.len() <= u64::MAX,
    ensures
        bytes.len() <= max ==> json_field(read_result(bytes, max), "content"@) == Some(
            Json::Text(lossy_text(bytes)),
        ) && json_field(read_result(bytes, max), "truncated"@) is None,
        bytes.len() > max ==> {
            let r = read_result(bytes, max);
            &&& json_field(r, "truncated"@) == Some(Json::Bool(true))
            &&& json_field(r, "bytes"@) == Some(
                Json::Number(NumberV::PosInt(bytes.len() as u64)),
            )
            &&& json_field(r, "content"@) == Some(
                Json::Text(lossy_text(bytes.take(cut_position(bytes, max as int)))),
            )
        },
{
    reveal_strlit("content");
    reveal_strlit("truncated");
    reveal_strlit("bytes");
    assert("content"@.len() == 7 && "truncated"@.len() == 9 && "bytes"@.len() == 5);
    let whole = Json::Text(lossy_text(bytes));
    let cut = Json::Text(lossy_text(bytes.take(cut_position(bytes, max as int))));
    lemma_with(object(), "content"@, whole);
    lemma_with(object(), "content"@, cut);
    lemma_with(with(object(), "content"@, cut), "truncated"@, Json::Bool(true));
    lemma_with(
        with(with(object(), "content"@, cut), "truncated"@, Json::Bool(true)),
        "bytes"@,
        Json::Number(NumberV::PosInt(bytes.len() as u64)),
    );
    assert(json_field(object(), "truncated"@) is None);
}

/// The input's own limit counts, and is at least one byte.
pub proof fn read_limits_come_from_the_input(input: Json, fallback: usize, n: u64)
    ensures
        read_limit(input, fallback) >= 1,
        json_field(input, "max_bytes"@) == Some(Json::Number(NumberV::PosInt(n))) && 1 <= n
            <= usize::MAX ==> read_limit(input, fallback) == n,
        json_field(input, "max_bytes"@) is None && fallback >= 1 ==> read_limit(input, fallback)
            == fallback,
{
}

proof fn lemma_writes(
    disk: Map<Seq<char>, Seq<u8>>,
    files: Seq<(Seq<char>, Seq<u8>)>,
    k: int,
    i: int,
)
    requires
        0 <= i < k <= files.len(),
        forall|j: int| i < j < k ==> (#[trigger] files[j]).0 != files[i].0,
    ensures
        after_writes(disk, files, k).dom().contains(files[i].0),
        after_writes(disk, files, k)[files[i].0] == files[i].1,
    decreases k,
{
    if i < k - 1 {
        assert(files[k - 1].0 != files[i].0);
        lemma_writes(disk, files, k - 1, i);
    }
}

proof fn lemma_unwritten(
    disk: Map<Seq<char>, Seq<u8>>,
    files: Seq<(Seq<char>, Seq<u8>)>,
    k: int,
    path: Seq<char>,
)
    requires
        0 <= k <= files.len(),
        forall|j: int| 0 <= j < k ==> (#[trigger] files[j]).0 != path,
    ensures
        after_writes(disk, files, k).dom().contains(path) == disk.dom().contains(path),
        disk.dom().contains(path) ==> after_writes(disk, files, k)[path] == disk[path],
    decreases k,
{
    if k > 0 {
        assert(files[k - 1].0 != path);
        lemma_unwritten(disk, files, k - 1, path);
    }
}

/// Writing files leaves each with what was written to it last, and every other
/// file as it was.
pub proof fn written_files_hold_what_was_written(
    disk: Map<Seq<char>, Seq<u8>>,
    files: Seq<(Seq<char>, Seq<u8>)>,
    i: int,
    path: Seq<char>,
)
    ensures
        0 <= i < files.len() && (forall|j: int|
            i < j < files.len() ==> (#[trigger] files[j]).0 != files[i].0) ==> after_writes(
            disk,
            files,
            files.len() as int,
        ).dom().contains(files[i].0) && after_writes(disk, files, files.len() as int)[files[i].0]
            == files[i].1,
        (forall|j: int| 0 <= j < files.len() ==> (#[trigger] files[j]).0 != path) ==> after_writes(
            disk,
            files,
            files.len() as int,
        ).dom().contains(path) == disk.dom().contains(path),
{
    if 0 <= i < files.len() && (forall|j: int|
        i < j < files.len() ==> (#[trigger] files[j]).0 != files[i].0) {
        lemma_writes(disk, files, files.len() as int, i);
    }
    if forall|j: int| 0 <= j < files.len() ==> (#[trigger] files[j]).0 != path {
        lemma_unwritten(disk, files, files.len() as int, path);
    }
}

/// An absolute path leaves the root, and so does one with a step to the parent
/// among its parts; a single name that is no such step does not.
pub proof fn parent_steps_escape(head: Seq<char>, name: Seq<char>)
    requires
        !head.contains('/'),
        !name.contains('/'),
        name.len() > 0,
    ensures
        escapes(seq!['/'] + name, false),
        escapes(".."@, false),
        escapes(head + seq!['/'] + ".."@, false),
        escapes(".."@ + seq!['/'] + name, false),
        name != ".."@ ==> !escapes(name, false),
        name != ".."@ && head != ".."@ && head.len() > 0 ==> !escapes(
            head + seq!['/'] + name,
            false,
        ),
{
    reveal_strlit("..");
    let dots = ".."@;
    assert(!dots.contains('/'));
    splitting_cuts_at_separators(dots, name, '/');
    splitting_cuts_at_separators(head, dots, '/');
    splitting_cuts_at_separators(head, name, '/');
    splitting_cuts_at_separators(name, Seq::empty(), '/');
    assert(seq![dots][0] == dots);
    assert((seq![head] + seq![dots])[1] == dots);
    assert((seq![dots] + seq![name])[0] == dots);
    assert((seq!['/'] + name)[0] == '/');
    assert(name[0] != '/') by {
        assert(name.contains(name[0]));
    }
    if head.len() > 0 {
        assert((head + seq!['/'] + name)[0] == head[0]);
        assert(head.contains(head[0]));
    }
    if name != dots && seq![name].contains(dots) {
        let i = choose|i: int| 0 <= i < seq![name].len() && seq![name][i] == dots;
        assert(i == 0);
    }
    let two = seq![head] + seq![name];
    if name != dots && head != dots && two.contains(dots) {
        let i = choose|i: int| 0 <= i < two.len() && two[i] == dots;
        assert(i == 0 || i == 1);
    }
}

// ---------------------------------------------------------------------------
// Listings
// ---------------------------------------------------------------------------

/// An entry that is shown is listed while there is room; where there is none
/// the listing is truncated and the walk ends. Directories are walked exactly
/// in a recursive listing, shown or not.
pub proof fn listings_stop_when_full(l: ListingV, path: Seq<char>, kind: EntryKind, shown: bool)
    ensures
        ({
            let (after, goes_on) = after_entry(l, path, kind, shown);
            &&& shown && l.entries.len() < l.max_entries ==> {
                &&& after.entries == l.entries.push(EntryV { name: path, kind })
                &&& after.truncated == l.truncated
                &&& goes_on
            }
            &&& shown && l.entries.len() >= l.max_entries ==> {
                &&& after.entries == l.entries
                &&& after.truncated
                &&& !goes_on
                &&& after.queue.len() == 0
            }
            &&& !shown ==> after.entries == l.entries && goes_on
            &&& goes_on && kind is Dir && l.recursive ==> after.queue == l.queue.push(path)
            &&& goes_on && !(kind is Dir && l.recursive) ==> after.queue == l.queue
        }),
{
}

// ---------------------------------------------------------------------------
// Commands
// ---------------------------------------------------------------------------

/// A command is run with exactly the program, arguments, input and timeout
/// that the input names; without a timeout of its own the default holds.
pub proof fn commands_run_what_the_input_names(
    input: Json,
    base: Option<Seq<char>>,
    default_timeout_ms: Option<u64>,
    windows: bool,
    items: Seq<Json>,
    i: int,
)
    requires
        json_field(input, "program"@) is Some && json_field(input, "program"@)->0 is Text,
        json_field(input, "args"@) == Some(Json::List(items)),
    ensures
        (forall|k: int| 0 <= k < items.len() ==> (#[trigger] items[k]) is Text) ==> (run_request_of(
            input,
            base,
            default_timeout_ms,
            windows,
        ) matches Ok(r) && {
            &&& json_field(input, "program"@) == Some(Json::Text(r.program))
            &&& r.args.len() == items.len()
            &&& 0 <= i < items.len() ==> items[i] == Json::Text(r.args[i])
            &&& json_field(input, "timeout_ms"@) matches Some(Json::Number(NumberV::PosInt(n)))
                ==> r.timeout_ms == Some(n)
            &&& json_field(input, "timeout_ms"@) is None ==> r.timeout_ms == default_timeout_ms
            &&& json_field(input, "stdin"@) is None ==> r.stdin is None
            &&& json_field(input, "stdin"@) matches Some(Json::Text(t)) ==> r.stdin == Some(t)
            &&& json_field(input, "cwd"@) is None ==> r.cwd == base
        }),
        0 <= i < items.len() && !(items[i] is Text) ==> run_request_of(
            input,
            base,
            default_timeout_ms,
            windows,
        ) is Err,
{
}

proof fn lemma_inherited(
    keys: Seq<Seq<char>>,
    parent: Map<Seq<char>, Seq<char>>,
    k: int,
    i: int,
)
    requires
        0 <= i < k <= keys.len(),
        parent.dom().contains(keys[i]),
    ensures
        inherited(keys, parent, k).contains((keys[i], parent[keys[i]])),
    decreases k,
{
    let all = inherited(keys, parent, k);
    let before = inherited(keys, parent, k - 1);
    let pair = (keys[i], parent[keys[i]]);
    if i < k - 1 {
        lemma_inherited(keys, parent, k - 1, i);
        let x = choose|x: int| 0 <= x < before.len() && before[x] == pair;
        assert(all[x] == pair);
    } else {
        assert(all.last() == pair);
    }
}

proof fn lemma_inherited_only(
    keys: Seq<Seq<char>>,
    parent: Map<Seq<char>, Seq<char>>,
    k: int,
    x: int,
)
    requires
        0 <= k <= keys.len(),
        0 <= x < inherited(keys, parent, k).len(),
    ensures
        keys.contains(inherited(keys, parent, k)[x].0),
        parent.dom().contains(inherited(keys, parent, k)[x].0),
        parent[inherited(keys, parent, k)[x].0] == inherited(keys, parent, k)[x].1,
    decreases k,
{
    let before = inherited(keys, parent, k - 1);
    if x < before.len() {
        lemma_inherited_only(keys, parent, k - 1, x);
    } else {
        assert(keys[k - 1] == inherited(keys, parent, k)[x].0);
    }
}

/// Of the parent's variables exactly those on the allowlist are handed down,
/// with their values.
pub proof fn only_allowed_variables_are_inherited(
    keys: Seq<Seq<char>>,
    parent: Map<Seq<char>, Seq<char>>,
    name: Seq<char>,
    value: Seq<char>,
)
    ensures
        inherited(keys, parent, keys.len() as int).contains((name, value)) <==> keys.contains(name)
            && parent.dom().contains(name) && parent[name] == value,
{
    let all = inherited(keys, parent, keys.len() as int);
    if all.contains((name, value)) {
        let x = choose|x: int| 0 <= x < all.len() && all[x] == (name, value);
        lemma_inherited_only(keys, parent, keys.len() as int, x);
    }
    if keys.contains(name) && parent.dom().contains(name) && parent[name] == value {
        let i = choose|i: int| 0 <= i < keys.len() && keys[i] == name;
        lemma_inherited(keys, parent, keys.len() as int, i);
    }
}

/// A finished command shows its status, success and output; what exceeds the
/// limit is cut and marked, and nothing else is.
pub proof fn finished_commands_show_their_output(
    status: Option<i32>,
    success: bool,
    stdout: Seq<u8>,
    stderr: Seq<u8>,
    max: usize,
)
    ensures
        ({
            let r = run_result(status, success, stdout, stderr, max);
            &&& json_field(r, "success"@) == Some(Json::Bool(success))
            &&& status matches Some(n) ==> json_field(r, "status"@) == Some(integer(n as int))
            &&& status is None ==> json_field(r, "status"@) == Some(Json::Null)
            &&& stdout.len() <= max ==> json_field(r, "stdout"@) == Some(
                Json::Text(lossy_text(stdout)),
            ) && json_field(r, "stdout_truncated"@) is None
            &&& stdout.len() > max ==> json_field(r, "stdout"@) == Some(
                Json::Text(lossy_text(stdout.take(max as int))),
            ) && json_field(r, "stdout_truncated"@) == Some(Json::Bool(true))
            &&& stderr.len() <= max ==> json_field(r, "stderr"@) == Some(
                Json::Text(lossy_text(stderr)),
            ) && json_field(r, "stderr_truncated"@) is None
            &&& stderr.len() > max ==> json_field(r, "stderr"@) == Some(
                Json::Text(lossy_text(stderr.take(max as int))),
            ) && json_field(r, "stderr_truncated"@) == Some(Json::Bool(true))
        }),
{
    reveal_strlit("status");
    reveal_strlit("success");
    reveal_strlit("stdout");
    reveal_strlit("stderr");
    reveal_strlit("stdout_truncated");
    reveal_strlit("stderr_truncated");
    assert("status"@.len() == 6 && "success"@.len() == 7 && "stdout"@.len() == 6 && "stderr"@.len()
        == 6 && "stdout_truncated"@.len() == 16 && "stderr_truncated"@.len() == 16);
    assert("status"@[2] == 'a' && "stdout"@[2] == 'd' && "stderr"@[2] == 'd');
    assert("stdout"@[3] == 'o' && "stderr"@[3] == 'e');
    assert("stdout_truncated"@[3] == 'o' && "stderr_truncated"@[3] == 'e');
    let code = match status {
        Some(n) => integer(n as int),
        None => Json::Null,
    };
    let a = with(object(), "status"@, code);
    let b = with(a, "success"@, Json::Bool(success));
    let c = with(b, "stdout"@, Json::Text(capped(stdout, max)));
    let d = with(c, "stderr"@, Json::Text(capped(stderr, max)));
    let e = with_flag(d, "stdout_truncated"@, stdout.len() > max);
    lemma_with(object(), "status"@, code);
    lemma_with(a, "success"@, Json::Bool(success));
    lemma_with(b, "stdout"@, Json::Text(capped(stdout, max)));
    lemma_with(c, "stderr"@, Json::Text(capped(stderr, max)));
    lemma_with(d, "stdout_truncated"@, Json::Bool(true));
    lemma_with(e, "stderr_truncated"@, Json::Bool(true));
    assert(json_field(object(), "stdout_truncated"@) is None);
    assert(json_field(object(), "stderr_truncated"@) is None);
}

/// On Windows a command without an extension may stand for its usual
/// executables, itself first; anywhere else and with an extension it stands
/// for itself.
pub proof fn commands_stand_for_executables(command: Seq<char>)
    ensures
        candidates(command, false) == seq![command],
        has_extension(command) ==> candidates(command, true) == seq![command],
        candidates(command, true)[0] == command,
        !has_extension(command) ==> candidates(command, true).contains(command + ".exe"@)
            && candidates(command, true).contains(command + ".cmd"@) && candidates(
            command,
            true,
        ).contains(command + ".bat"@),
{
    if !has_extension(command) {
        let c = candidates(command, true);
        assert(c[1] == command + ".cmd"@);
        assert(c[2] == command + ".exe"@);
        assert(c[3] == command + ".bat"@);
    }
}

// ---------------------------------------------------------------------------
// The example adapter
// ---------------------------------------------------------------------------

/// The example tools: `echo` and `write` give their input back, `const` its
/// value, `fail` fails, and nothing else is known.
pub proof fn example_tools_do_what_they_say(input: Json, tool: Seq<char>)
    ensures
        local_result("echo"@, input) == Ok::<Json, ToolErrorV>(input),
        local_result("write"@, input) == Ok::<Json, ToolErrorV>(input),
        json_field(input, "value"@) matches Some(v) ==> local_result("const"@, input) == Ok::<
            Json,
            ToolErrorV,
        >(v),
        json_field(input, "value"@) is None ==> local_result("const"@, input) is Err,
        local_result("fail"@, input) is Err,
        tool != "echo"@ && tool != "write"@ && tool != "const"@ && tool != "fail"@ ==> local_result(
            tool,
            input,
        ) is Err && local_result(tool, input)->Err_0.code == Some("unknown_tool"@),
{
    reveal_strlit("echo");
    reveal_strlit("write");
    reveal_strlit("const");
    reveal_strlit("fail");
    assert("echo"@.len() == 4 && "write"@.len() == 5 && "const"@.len() == 5 && "fail"@.len() == 4);
    assert("echo"@[0] == 'e' && "fail"@[0] == 'f' && "write"@[0] == 'w' && "const"@[0] == 'c');
}

/// A batch of the example adapter answers each entry as a call of its own
/// would, under the node of the entry.
pub proof fn example_batches_answer_entry_by_entry(
    tool: Seq<char>,
    inputs: Seq<BatchInputV>,
    k: int,
    i: int,
)
    requires
        0 <= i < k <= inputs.len(),
    ensures
        batch_result(tool, inputs, k) matches Ok(out) ==> {
            &&& out.len() == k
            &&& out[i].node == inputs[i].node
            &&& local_result(tool, inputs[i].input) == Ok::<Json, ToolErrorV>(out[i].output)
        },
        local_result(tool, inputs[i].input) is Err ==> batch_result(tool, inputs, k) is Err,
    decreases k,
{
    if k > 1 {
        example_batches_answer_entry_by_entry(tool, inputs, k - 1, if i < k - 1 {
            i
        } else {
            0
        });
    } else {
        assert(batch_result(tool, inputs, 0)->Ok_0.len() == 0);
    }
}

/// A batch sleeps as long as the entry that sleeps longest.
pub proof fn batches_sleep_as_long_as_the_longest(inputs: Seq<BatchInputV>, k: int, i: int)
    requires
        0 <= i < k <= inputs.len(),
    ensures
        sleep_of(inputs[i].input) <= longest_sleep(inputs, k),
        exists|j: int| 0 <= j < k && sleep_of(#[trigger] inputs[j].input) == longest_sleep(inputs, k),
    decreases k,
{
    if k > 1 {
        batches_sleep_as_long_as_the_longest(inputs, k - 1, if i < k - 1 {
            i
        } else {
            0
        });
        let j = choose|j: int|
            0 <= j < k - 1 && sleep_of(#[trigger] inputs[j].input) == longest_sleep(inputs, k - 1);
        if longest_sleep(inputs, k) == longest_sleep(inputs, k - 1) {
            assert(sleep_of(inputs[j].input) == longest_sleep(inputs, k));
        } else {
            assert(sleep_of(inputs[k - 1].input) == longest_sleep(inputs, k));
        }
    } else {
        assert(longest_sleep(inputs, 0) == 0);
        assert(sleep_of(inputs[0].input) == longest_sleep(inputs, 1));
    }
}

// ---------------------------------------------------------------------------
// The registry
// ---------------------------------------------------------------------------

/// What is registered for a tool under its adapter comes before what is
/// registered for the tool anywhere; a declaration of the plan comes before
/// both, field by field.
pub proof fn registrations_fill_gaps(
    r: RegistryV,
    tool: Seq<char>,
    spec: ToolSpecV,
    c: CapabilitiesV,
)
    ensures
        r.scoped.dom().contains((spec.adapter, tool)) ==> capabilities_in(r, spec.adapter, tool)
            == Some(r.scoped[(spec.adapter, tool)]),
        !r.scoped.dom().contains((spec.adapter, tool)) && r.global.dom().contains(tool)
            ==> capabilities_in(r, spec.adapter, tool) == Some(r.global[tool]),
        !r.scoped.dom().contains((spec.adapter, tool)) && !r.global.dom().contains(tool)
            ==> capabilities_in(r, spec.adapter, tool) is None && hydrated_tool(r, tool, spec)
            == spec,
        capabilities_in(r, spec.adapter, tool) == Some(c) ==> {
            let h = hydrated_tool(r, tool, spec);
            &&& h.adapter == spec.adapter
            &&& spec.effects is Some ==> h.effects == spec.effects
            &&& spec.effects is None ==> h.effects == c.effects
            &&& spec.limits is Some ==> h.limits == spec.limits
            &&& spec.limits is None ==> h.limits == c.limits
            &&& spec.cost is Some ==> h.cost == spec.cost
            &&& spec.cost is None ==> h.cost == c.cost
            &&& spec.version is Some ==> h.version == spec.version
            &&& spec.version is None ==> h.version == c.version
        },
{
}

/// Filling in a plan from the registry touches its tool declarations alone.
pub proof fn hydration_leaves_nodes(r: RegistryV, plan: PlanV, i: int)
    requires
        0 <= i < plan.tools.len(),
    ensures
        hydrated(r, plan).nodes == plan.nodes,
        hydrated(r, plan).outputs == plan.outputs,
        hydrated(r, plan).tools.len() == plan.tools.len(),
        hydrated(r, plan).tools[i].0 == plan.tools[i].0,
        hydrated(r, plan).tools[i].1 == hydrated_tool(r, plan.tools[i].0, plan.tools[i].1),
{
}

} // verus!
