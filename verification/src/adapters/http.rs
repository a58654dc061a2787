//! HTTP adapter: requests from tool input, tool output from responses.
//!
//! The `request` tool input is `{ method?, url, headers?, body? }`; `body`
//! may be a string (sent verbatim) or any JSON value (serialized, with
//! `content-type: application/json` defaulted). The response contract is
//! fixed: `{ status, ok, headers, body }`, where `body` is parsed JSON when
//! the response declares a JSON content type and a string otherwise.

use vstd::prelude::*;

use crate::adapters::api::{ToolErrorV, ToolExecutionError};
use crate::canonical::canonical_json_string;
use crate::effects::{set_of, Effects, EffectsV};
use crate::json::{Json, NumberV, Value};
use crate::ordered::StrMap;
use crate::plan::ToolSpec;
use crate::runtime::result::to_lowercase;
use crate::text::{chars_of, concat2, text_of, wrapped};

verus! {

use crate::adapters::api::coded;
use crate::adapters::fs::declared;
use crate::canonical::canonical;
use crate::effects::{no_effects, slice_set};
use crate::fields::{object, text_field, with};
use crate::json::entries_view;
use crate::ordered::{map_view, map_view_insert, opt_view, pairs_view};
use crate::runtime::result::lowercased;
use crate::value::json_field;

broadcast use crate::json::group_json_views;

/// Conventional adapter name for HTTP executors.
pub const ADAPTER: &'static str = "http";

/// Default request timeout in milliseconds.
pub const DEFAULT_TIMEOUT_MS: u64 = 30000;

/// The text in upper case.
pub uninterp spec fn uppercased(s: Seq<char>) -> Seq<char>;

/// Calls `str::to_uppercase` of the standard library. Trusted: the result
/// depends on the text alone and is named [`uppercased`].
#[verifier::external_body]
fn to_uppercase(s: &str) -> (r: String)
    ensures
        r@ == uppercased(s@),
{
    s.to_uppercase()
}

// ---------------------------------------------------------------------------
// Errors
// ---------------------------------------------------------------------------

/// HTTP adapter errors.
#[derive(Debug, PartialEq, Eq)]
pub enum HttpError {
    /// A required string field is missing from the input.
    MissingField(String),
    /// `headers` must be an object of string values.
    InvalidHeaders,
    /// The HTTP method is not valid.
    InvalidMethod(String),
    /// The request timed out.
    Timeout,
    /// Transport-level failure.
    Client(String),
}

/// An HTTP error as a mathematical value.
pub enum HttpErrorV {
    MissingField(Seq<char>),
    InvalidHeaders,
    InvalidMethod(Seq<char>),
    Timeout,
    Client(Seq<char>),
}

impl View for HttpError {
    type V = HttpErrorV;

    open spec fn view(&self) -> HttpErrorV {
        match self {
            HttpError::MissingField(s) => HttpErrorV::MissingField(s@),
            HttpError::InvalidHeaders => HttpErrorV::InvalidHeaders,
            HttpError::InvalidMethod(s) => HttpErrorV::InvalidMethod(s@),
            HttpError::Timeout => HttpErrorV::Timeout,
            HttpError::Client(s) => HttpErrorV::Client(s@),
        }
    }
}

/// The text of an error.
pub open spec fn http_error_text(e: HttpErrorV) -> Seq<char> {
    match e {
        HttpErrorV::MissingField(s) => "missing string field '"@ + s + "'"@,
        HttpErrorV::InvalidHeaders => "headers must be an object of string values"@,
        HttpErrorV::InvalidMethod(s) => "invalid http method '"@ + s + "'"@,
        HttpErrorV::Timeout => "http request timed out"@,
        HttpErrorV::Client(s) => "http client error: "@ + s,
    }
}

/// The error as a tool reports it.
pub open spec fn http_failure(e: HttpErrorV) -> ToolErrorV {
    let (code, retryable) = match e {
        HttpErrorV::MissingField(_) => ("invalid_input"@, Some(false)),
        HttpErrorV::InvalidHeaders => ("invalid_input"@, Some(false)),
        HttpErrorV::InvalidMethod(_) => ("invalid_input"@, Some(false)),
        HttpErrorV::Timeout => ("timeout"@, Some(true)),
        HttpErrorV::Client(_) => ("http"@, None),
    };
    ToolErrorV { message: http_error_text(e), code: Some(code), retryable }
}

impl HttpError {
    /// The text of the error.
    pub fn message(&self) -> (r: String)
        ensures
            r@ == http_error_text(self@),
    {
        match self {
            HttpError::MissingField(s) => wrapped("missing string field '", s.as_str(), "'"),
            HttpError::InvalidHeaders => "headers must be an object of string values".to_owned(),
            HttpError::InvalidMethod(s) => wrapped("invalid http method '", s.as_str(), "'"),
            HttpError::Timeout => "http request timed out".to_owned(),
            HttpError::Client(s) => concat2("http client error: ", s.as_str()),
        }
    }

    /// The error as a tool reports it.
    pub fn tool_error(&self) -> (r: ToolExecutionError)
        ensures
            r@ == http_failure(self@),
    {
        let message = self.message();
        let error = ToolExecutionError::new(message.as_str());
        match self {
            HttpError::MissingField(_) => error.with_code("invalid_input").with_retryable(false),
            HttpError::InvalidHeaders => error.with_code("invalid_input").with_retryable(false),
            HttpError::InvalidMethod(_) => error.with_code("invalid_input").with_retryable(false),
            HttpError::Timeout => error.with_code("timeout").with_retryable(true),
            HttpError::Client(_) => error.with_code("http"),
        }
    }
}

/// The error of a tool that the adapter does not have.
pub fn unknown_tool(tool: &str) -> (r: ToolExecutionError)
    ensures
        r@ == coded("unknown http tool '"@ + tool@ + "'"@, "unknown_tool"@),
{
    ToolExecutionError::coded(wrapped("unknown http tool '", tool, "'").as_str(), "unknown_tool")
}

// ---------------------------------------------------------------------------
// Requests
// ---------------------------------------------------------------------------

/// A single HTTP request produced from tool input.
#[derive(Debug)]
pub struct HttpRequest {
    /// HTTP method (uppercased).
    pub method: String,
    /// Absolute request URL.
    pub url: String,
    /// Request headers.
    pub headers: StrMap<String>,
    /// Optional request body, already serialized.
    pub body: Option<String>,
}

/// A request as a mathematical value.
#[verifier::ext_equal]
pub struct RequestV {
    pub method: Seq<char>,
    pub url: Seq<char>,
    pub headers: Map<Seq<char>, Seq<char>>,
    pub body: Option<Seq<char>>,
}

impl View for HttpRequest {
    type V = RequestV;

    open spec fn view(&self) -> RequestV {
        RequestV {
            method: self.method@,
            url: self.url@,
            headers: map_view(self.headers),
            body: opt_view(self.body),
        }
    }
}

/// Every value of the entries is a text.
pub open spec fn text_values(entries: Seq<(Seq<char>, Json)>) -> bool {
    forall|i: int| 0 <= i < entries.len() ==> (#[trigger] entries[i]).1 is Text
}

/// The headers that the first `k` entries give; names are in lower case, and
/// a later entry wins.
pub open spec fn headers_of(entries: Seq<(Seq<char>, Json)>, k: int) -> Map<Seq<char>, Seq<char>>
    decreases k,
{
    if k <= 0 {
        Map::empty()
    } else {
        headers_of(entries, k - 1).insert(
            lowercased(entries[k - 1].0),
            entries[k - 1].1->Text_0,
        )
    }
}

/// The headers that the input asks for.
pub open spec fn asked_headers(input: Json) -> Result<Map<Seq<char>, Seq<char>>, HttpErrorV> {
    match json_field(input, "headers"@) {
        None => Ok(Map::empty()),
        Some(Json::Object(entries)) => if text_values(entries) {
            Ok(headers_of(entries, entries.len() as int))
        } else {
            Err(HttpErrorV::InvalidHeaders)
        },
        Some(_) => Err(HttpErrorV::InvalidHeaders),
    }
}

/// The request that the input asks for.
pub open spec fn request_of(input: Json) -> Result<RequestV, HttpErrorV> {
    match text_field(input, "url"@) {
        None => Err(HttpErrorV::MissingField("url"@)),
        Some(url) => match asked_headers(input) {
            Err(e) => Err(e),
            Ok(headers) => {
                let method = match text_field(input, "method"@) {
                    Some(m) => uppercased(m),
                    None => "GET"@,
                };
                let plain = RequestV { method, url, headers, body: None };
                match json_field(input, "body"@) {
                    None => Ok(plain),
                    Some(Json::Null) => Ok(plain),
                    Some(Json::Text(t)) => Ok(RequestV { body: Some(t), ..plain }),
                    Some(other) => Ok(
                        RequestV {
                            headers: if headers.dom().contains("content-type"@) {
                                headers
                            } else {
                                headers.insert("content-type"@, "application/json"@)
                            },
                            body: Some(canonical(other)),
                            ..plain
                        },
                    ),
                }
            },
        },
    }
}

fn read_headers(map: &StrMap<Value>) -> (r: Option<StrMap<String>>)
    ensures
        match r {
            Some(h) => text_values(entries_view(*map)) && map_view(h) == headers_of(
                entries_view(*map),
                entries_view(*map).len() as int,
            ),
            None => !text_values(entries_view(*map)),
        },
{
    let ghost entries = entries_view(*map);
    let mut out: StrMap<String> = StrMap::new();
    let mut i: usize = 0;
    assert(map_view(out) =~= Map::empty());
    while i < map.len()
        invariant
            i <= map.pairs().len(),
            entries == entries_view(*map),
            forall|j: int| 0 <= j < i ==> (#[trigger] entries[j]).1 is Text,
            map_view(out) == headers_of(entries, i as int),
        decreases map.pairs().len() - i,
    {
        assert(entries[i as int] == (map.pairs()[i as int].0, map.pairs()[i as int].1@));
        match map.value_at(i) {
            Value::String(value) => {
                let ghost before = out;
                let name = to_lowercase(map.key_at(i));
                let ghost key = name@;
                let text = value.clone();
                out.insert(name, text);
                proof {
                    map_view_insert(before, out, key, text);
                }
            },
            _ => {
                return None;
            },
        }
        i = i + 1;
    }
    Some(out)
}

/// The request that the input asks for.
pub fn build_request(input: &Value) -> (r: Result<HttpRequest, HttpError>)
    ensures
        match (r, request_of(input@)) {
            (Ok(v), Ok(m)) => v@ == m,
            (Err(e), Err(m)) => e@ == m,
            _ => false,
        },
{
    let url = match input.text_at("url") {
        Some(url) => url.to_owned(),
        None => {
            return Err(HttpError::MissingField("url".to_owned()));
        },
    };
    let method = match input.text_at("method") {
        Some(m) => to_uppercase(m),
        None => "GET".to_owned(),
    };
    let mut headers: StrMap<String> = StrMap::new();
    assert(map_view(headers) =~= Map::empty());
    if let Some(value) = input.get("headers") {
        match value {
            Value::Object(map) => match read_headers(map) {
                Some(found) => {
                    headers = found;
                },
                None => {
                    return Err(HttpError::InvalidHeaders);
                },
            },
            _ => {
                return Err(HttpError::InvalidHeaders);
            },
        }
    }
    let ghost asked = map_view(headers);
    assert(asked_headers(input@) == Ok::<Map<Seq<char>, Seq<char>>, HttpErrorV>(asked));
    let body = match input.get("body") {
        None => None,
        Some(Value::Null) => None,
        Some(Value::String(t)) => Some(t.clone()),
        Some(other) => {
            if !headers.contains_key("content-type") {
                let ghost before = headers;
                let kind = "application/json".to_owned();
                headers.insert("content-type".to_owned(), kind);
                proof {
                    map_view_insert(before, headers, "content-type"@, kind);
                }
            }
            Some(canonical_json_string(other))
        },
    };
    Ok(HttpRequest { method, url, headers, body })
}

// ---------------------------------------------------------------------------
// Responses
// ---------------------------------------------------------------------------

/// The response that a transport produces.
#[derive(Debug)]
pub struct HttpResponse {
    /// HTTP status code.
    pub status: u16,
    /// Response headers (lowercased names).
    pub headers: StrMap<String>,
    /// Parsed JSON body when the content type is JSON, string otherwise.
    pub body: Value,
}

/// Headers as a JSON object.
pub open spec fn headers_json(pairs: Seq<(Seq<char>, Seq<char>)>) -> Json {
    Json::Object(Seq::new(pairs.len(), |i: int| (pairs[i].0, Json::Text(pairs[i].1))))
}

/// What a request returns.
pub open spec fn response_json(
    status: u16,
    headers: Seq<(Seq<char>, Seq<char>)>,
    body: Json,
) -> Json {
    with(
        with(
            with(
                with(object(), "status"@, Json::Number(NumberV::PosInt(status as u64))),
                "ok"@,
                Json::Bool(200 <= status < 300),
            ),
            "headers"@,
            headers_json(headers),
        ),
        "body"@,
        body,
    )
}

fn headers_value(headers: &StrMap<String>) -> (r: Value)
    ensures
        r@ == headers_json(pairs_view(*headers)),
{
    let ghost pairs = pairs_view(*headers);
    headers.prove_sorted();
    let mut map: StrMap<Value> = StrMap::new();
    let mut i: usize = 0;
    while i < headers.len()
        invariant
            i <= headers.pairs().len(),
            crate::ordered::sorted_pairs(headers.pairs()),
            pairs == pairs_view(*headers),
            map.pairs().len() == i,
            forall|j: int|
                0 <= j < i ==> (#[trigger] map.pairs()[j]).0 == pairs[j].0 && map.pairs()[j].1@
                    == Json::Text(pairs[j].1),
        decreases headers.pairs().len() - i,
    {
        let key = headers.key_at(i).to_owned();
        assert forall|j: int| 0 <= j < map.pairs().len() implies crate::text::lex_less(
            #[trigger] map.pairs()[j].0,
            key@,
        ) by {
            assert(crate::text::lex_less(headers.pairs()[j].0, headers.pairs()[i as int].0));
        }
        map.push(key, Value::text(headers.value_at(i).as_str()));
        i = i + 1;
    }
    let ghost want = Seq::new(pairs.len(), |i: int| (pairs[i].0, Json::Text(pairs[i].1)));
    assert(entries_view(map) =~= want);
    Value::Object(map)
}

impl HttpResponse {
    /// What the request returns.
    pub fn output(self) -> (r: Value)
        ensures
            r@ == response_json(self.status, pairs_view(self.headers), self.body@),
    {
        let ok = self.status >= 200 && self.status < 300;
        let headers = headers_value(&self.headers);
        Value::empty_object().with("status", Value::number(self.status as u64)).with(
            "ok",
            Value::Bool(ok),
        ).with("headers", headers).with("body", self.body)
    }
}

/// The characters of a method: letters, digits and fifteen marks.
pub open spec fn method_char(c: char) -> bool {
    ||| 'a' <= c && c <= 'z'
    ||| 'A' <= c && c <= 'Z'
    ||| '0' <= c && c <= '9'
    ||| "!#$%&'*+-.^_`|~"@.contains(c)
}

/// The text is a method: it has characters, and all may stand in a method.
pub open spec fn method_text(s: Seq<char>) -> bool {
    s.len() > 0 && forall|i: int| 0 <= i < s.len() ==> method_char(#[trigger] s[i])
}

/// Calls `Method::from_bytes`, which `reqwest` takes from the `http` crate.
/// Trusted: it accepts exactly the texts of one or more characters of which
/// each may stand in a method.
#[verifier::external_body]
fn is_method(s: &str) -> (r: bool)
    ensures
        r == method_text(s@),
{
    reqwest::Method::from_bytes(s.as_bytes()).is_ok()
}

/// Checks that the method of a request can be sent.
pub fn check_method(method: &str) -> (r: Result<(), HttpError>)
    ensures
        match r {
            Ok(_) => method_text(method@),
            Err(e) => !method_text(method@) && e@ == HttpErrorV::InvalidMethod(method@),
        },
{
    if is_method(method) {
        Ok(())
    } else {
        Err(HttpError::InvalidMethod(method.to_owned()))
    }
}

/// The word `json` stands at the place, in capitals or small letters.
pub open spec fn json_at(s: Seq<char>, i: int) -> bool {
    &&& 0 <= i
    &&& i + 4 <= s.len()
    &&& s[i] == 'j' || s[i] == 'J'
    &&& s[i + 1] == 's' || s[i + 1] == 'S'
    &&& s[i + 2] == 'o' || s[i + 2] == 'O'
    &&& s[i + 3] == 'n' || s[i + 3] == 'N'
}

/// The content type is one of JSON.
pub open spec fn is_json_type(s: Seq<char>) -> bool {
    exists|i: int| json_at(s, i)
}

fn names_json(value: &str) -> (r: bool)
    ensures
        r == is_json_type(value@),
{
    let chars = chars_of(value);
    let size: usize = chars.len();
    let mut i: usize = 0;
    while i < size && size - i >= 4
        invariant
            i <= size == chars@.len(),
            chars@ == value@,
            forall|j: int| 0 <= j < i ==> !json_at(value@, j),
        decreases size - i,
    {
        if (chars[i] == 'j' || chars[i] == 'J') && (chars[i + 1] == 's' || chars[i + 1] == 'S')
            && (chars[i + 2] == 'o' || chars[i + 2] == 'O') && (chars[i + 3] == 'n' || chars[i + 3]
            == 'N') {
            assert(json_at(value@, i as int));
            return true;
        }
        i = i + 1;
    }
    false
}

/// Whether headers declare a JSON body.
pub fn declares_json(headers: &StrMap<String>) -> (r: bool)
    ensures
        r == (headers@.dom().contains("content-type"@) && is_json_type(
            headers@["content-type"@]@,
        )),
{
    match headers.get("content-type") {
        Some(value) => names_json(value.as_str()),
        None => false,
    }
}

// ---------------------------------------------------------------------------
// Client configuration
// ---------------------------------------------------------------------------

/// Configuration of a client: a base URL option, default headers, and a
/// request timeout.
#[derive(Debug)]
pub struct HttpClientConfig {
    pub base_url: Option<String>,
    pub default_headers: StrMap<String>,
    pub timeout_ms: u64,
}

/// The text without the character at its end.
pub open spec fn without_end(s: Seq<char>, c: char) -> Seq<char>
    decreases s.len(),
{
    if s.len() > 0 && s.last() == c {
        without_end(s.drop_last(), c)
    } else {
        s
    }
}

/// The text without the character at its start.
pub open spec fn without_start(s: Seq<char>, c: char) -> Seq<char>
    decreases s.len(),
{
    if s.len() > 0 && s[0] == c {
        without_start(s.drop_first(), c)
    } else {
        s
    }
}

/// The characters of the scheme of a URL.
pub open spec fn scheme_char(c: char) -> bool {
    ||| 'a' <= c && c <= 'z'
    ||| 'A' <= c && c <= 'Z'
    ||| '0' <= c && c <= '9'
    ||| c == '+'
    ||| c == '-'
    ||| c == '.'
}

/// The first `i` characters are a scheme, and `://` follows.
pub open spec fn scheme_ends(url: Seq<char>, i: int) -> bool {
    &&& 0 < i
    &&& i + 3 <= url.len()
    &&& url[i] == ':'
    &&& url[i + 1] == '/'
    &&& url[i + 2] == '/'
    &&& forall|j: int| 0 <= j < i ==> scheme_char(#[trigger] url[j])
}

/// The URL names its scheme, so it is not relative.
pub open spec fn has_scheme(url: Seq<char>) -> bool {
    exists|i: int| scheme_ends(url, i)
}

fn names_scheme(url: &str) -> (r: bool)
    ensures
        r == has_scheme(url@),
{
    let chars = chars_of(url);
    let size: usize = chars.len();
    let mut i: usize = 0;
    while i < size
        invariant
            i <= size == chars@.len(),
            chars@ == url@,
            forall|j: int| 0 <= j < i ==> scheme_char(#[trigger] url@[j]),
            forall|j: int| j < i ==> !scheme_ends(url@, j),
        decreases size - i,
    {
        let c = chars[i];
        let fits = ('a' <= c && c <= 'z') || ('A' <= c && c <= 'Z') || ('0' <= c && c <= '9') || c
            == '+' || c == '-' || c == '.';
        if !fits {
            let ends = i > 0 && size - i >= 3 && c == ':' && chars[i + 1] == '/' && chars[i + 2]
                == '/';
            proof {
                assert(!scheme_char(url@[i as int]));
                if ends {
                    assert(scheme_ends(url@, i as int));
                } else {
                    assert forall|j: int| !scheme_ends(url@, j) by {
                        if j > i {
                            assert(url@[i as int] == c);
                        }
                    }
                }
            }
            return ends;
        }
        i = i + 1;
    }
    false
}

/// The URL that is requested: relative ones stand below the base.
pub open spec fn requested_url(base: Option<Seq<char>>, url: Seq<char>) -> Seq<char> {
    match base {
        Some(b) => if has_scheme(url) {
            url
        } else {
            without_end(b, '/') + "/"@ + without_start(url, '/')
        },
        None => url,
    }
}

fn cut_end(s: &str, c: char) -> (r: String)
    ensures
        r@ == without_end(s@, c),
{
    let chars = chars_of(s);
    let mut end: usize = chars.len();
    assert(chars@.take(end as int) =~= chars@);
    while end > 0 && chars[end - 1] == c
        invariant
            end <= chars@.len(),
            without_end(chars@, c) == without_end(chars@.take(end as int), c),
        decreases end,
    {
        assert(chars@.take(end as int).drop_last() =~= chars@.take(end - 1));
        end = end - 1;
    }
    let r = text_of(&chars, 0, end);
    assert(r@ =~= chars@.take(end as int));
    r
}

fn cut_start(s: &str, c: char) -> (r: String)
    ensures
        r@ == without_start(s@, c),
{
    let chars = chars_of(s);
    let mut from: usize = 0;
    assert(chars@.skip(0) =~= chars@);
    while from < chars.len() && chars[from] == c
        invariant
            from <= chars@.len(),
            without_start(chars@, c) == without_start(chars@.skip(from as int), c),
        decreases chars.len() - from,
    {
        assert(chars@.skip(from as int).drop_first() =~= chars@.skip(from + 1));
        from = from + 1;
    }
    let r = text_of(&chars, from, chars.len());
    assert(r@ =~= chars@.skip(from as int));
    r
}

impl HttpClientConfig {
    /// A configuration with the default timeout.
    pub fn new() -> (r: Self)
        ensures
            r.base_url is None,
            r.default_headers.pairs().len() == 0,
            r.timeout_ms == DEFAULT_TIMEOUT_MS,
    {
        HttpClientConfig::with_timeout(DEFAULT_TIMEOUT_MS)
    }

    /// A configuration with an explicit request timeout.
    pub fn with_timeout(timeout_ms: u64) -> (r: Self)
        ensures
            r.base_url is None,
            r.default_headers.pairs().len() == 0,
            r.timeout_ms == timeout_ms,
    {
        HttpClientConfig { base_url: None, default_headers: StrMap::new(), timeout_ms }
    }

    /// Prefixes relative request URLs with `base_url`.
    pub fn with_base_url(self, base_url: &str) -> (r: Self)
        ensures
            opt_view(r.base_url) == Some(base_url@),
            r == (HttpClientConfig { base_url: r.base_url, ..self }),
    {
        let mut out = self;
        out.base_url = Some(base_url.to_owned());
        out
    }

    /// Adds a header sent with every request (per-request headers win).
    pub fn with_default_header(self, name: &str, value: &str) -> (r: Self)
        ensures
            map_view(r.default_headers) == map_view(self.default_headers).insert(
                lowercased(name@),
                value@,
            ),
            r == (HttpClientConfig { default_headers: r.default_headers, ..self }),
    {
        let mut out = self;
        let ghost before = out.default_headers;
        let name = to_lowercase(name);
        let ghost key = name@;
        let text = value.to_owned();
        out.default_headers.insert(name, text);
        proof {
            map_view_insert(before, out.default_headers, key, text);
        }
        out
    }

    /// The URL that is requested.
    pub fn full_url(&self, url: &str) -> (r: String)
        ensures
            r@ == requested_url(opt_view(self.base_url), url@),
    {
        match &self.base_url {
            Some(base) => if names_scheme(url) {
                url.to_owned()
            } else {
                let head = cut_end(base.as_str(), '/');
                let tail = cut_start(url, '/');
                wrapped(head.as_str(), "/", tail.as_str())
            },
            None => url.to_owned(),
        }
    }

    /// The headers that a request is sent with: its own, and those defaults
    /// that it does not set.
    pub fn outgoing(&self, headers: &StrMap<String>) -> (r: StrMap<String>)
        ensures
            map_view(r) == map_view(self.default_headers).union_prefer_right(map_view(*headers)),
    {
        let ghost base = map_view(self.default_headers);
        let ghost own = map_view(*headers);
        let mut out: StrMap<String> = StrMap::new();
        self.default_headers.prove_sorted();
        headers.prove_sorted();
        let mut i: usize = 0;
        while i < self.default_headers.len()
            invariant
                i <= self.default_headers.pairs().len(),
                crate::ordered::sorted_pairs(self.default_headers.pairs()),
                forall|k: Seq<char>| #[trigger]
                    out@.dom().contains(k) <==> exists|j: int|
                        0 <= j < i && (#[trigger] self.default_headers.pairs()[j]).0 == k,
                forall|k: Seq<char>| #[trigger]
                    out@.dom().contains(k) ==> self.default_headers@.dom().contains(k) && out@[k]@
                        == self.default_headers@[k]@,
            decreases self.default_headers.pairs().len() - i,
        {
            let ghost before = out@;
            let key = self.default_headers.key_at(i);
            proof {
                crate::ordered::sorted_position(self.default_headers.pairs(), i as int);
            }
            out.insert(key.to_owned(), self.default_headers.value_at(i).clone());
            proof {
                assert forall|k: Seq<char>| #[trigger] out@.dom().contains(k) <==> exists|j: int|
                    0 <= j < i + 1 && (#[trigger] self.default_headers.pairs()[j]).0 == k by {
                    if before.dom().contains(k) {
                        let j = choose|j: int|
                            0 <= j < i && (#[trigger] self.default_headers.pairs()[j]).0 == k;
                        assert(self.default_headers.pairs()[j].0 == k);
                    }
                    assert(self.default_headers.pairs()[i as int].0 == key@);
                }
            }
            i = i + 1;
        }
        assert(map_view(out) =~= base);
        let mut k: usize = 0;
        let ghost mut done: Set<Seq<char>> = Set::empty();
        while k < headers.len()
            invariant
                k <= headers.pairs().len(),
                crate::ordered::sorted_pairs(headers.pairs()),
                base == map_view(self.default_headers),
                own == map_view(*headers),
                forall|x: Seq<char>| #[trigger]
                    done.contains(x) <==> exists|j: int|
                        0 <= j < k && (#[trigger] headers.pairs()[j]).0 == x,
                forall|x: Seq<char>| #[trigger]
                    map_view(out).dom().contains(x) <==> base.dom().contains(x) || done.contains(x),
                forall|x: Seq<char>| #[trigger]
                    map_view(out).dom().contains(x) ==> map_view(out)[x] == if done.contains(x) {
                        own[x]
                    } else {
                        base[x]
                    },
            decreases headers.pairs().len() - k,
        {
            let key = headers.key_at(k);
            let ghost before = out;
            let ghost was = done;
            let value = headers.value_at(k).clone();
            out.insert(key.to_owned(), value);
            proof {
                map_view_insert(before, out, key@, value);
                crate::ordered::sorted_position(headers.pairs(), k as int);
                assert(own[key@] == value@);
                done = done.insert(key@);
                assert forall|x: Seq<char>| #[trigger] done.contains(x) <==> exists|j: int|
                    0 <= j < k + 1 && (#[trigger] headers.pairs()[j]).0 == x by {
                    if was.contains(x) {
                        let j = choose|j: int|
                            0 <= j < k && (#[trigger] headers.pairs()[j]).0 == x;
                        assert(headers.pairs()[j].0 == x);
                    }
                    assert(headers.pairs()[k as int].0 == key@);
                }
                assert forall|x: Seq<char>| #[trigger] map_view(out).dom().contains(x) <==> base.dom().contains(
                    x,
                ) || done.contains(x) by {
                    assert(map_view(before).dom().contains(x) <==> base.dom().contains(x)
                        || was.contains(x));
                }
                assert forall|x: Seq<char>| #[trigger] map_view(out).dom().contains(x) implies map_view(
                    out,
                )[x] == if done.contains(x) {
                    own[x]
                } else {
                    base[x]
                } by {
                    if x != key@ {
                        assert(map_view(before).dom().contains(x));
                    }
                }
            }
            k = k + 1;
        }
        proof {
            let want = base.union_prefer_right(own);
            assert forall|x: Seq<char>| #[trigger] done.contains(x) <==> own.dom().contains(x) by {
                if own.dom().contains(x) {
                    let p = crate::ordered::key_position(headers.pairs(), x);
                    assert(headers.pairs()[p].0 == x);
                }
                if done.contains(x) {
                    let j = choose|j: int|
                        0 <= j < k && (#[trigger] headers.pairs()[j]).0 == x;
                    crate::ordered::sorted_position(headers.pairs(), j);
                }
            }
            assert(map_view(out) =~= want);
        }
        out
    }
}

// ---------------------------------------------------------------------------
// Tool declarations
// ---------------------------------------------------------------------------

/// ToolSpec for an idempotent, cacheable read endpoint.
pub fn read_endpoint(resources: &[&str]) -> (r: ToolSpec)
    ensures
        r@ == declared(
            ADAPTER@,
            EffectsV {
                reads: slice_set(resources@),
                idempotent: true,
                cacheable: true,
                ..no_effects()
            },
        ),
{
    ToolSpec::new(ADAPTER).with_effects(Effects::read_only(resources))
}

/// ToolSpec for a pure endpoint (no side effects at all).
pub fn pure_endpoint() -> (r: ToolSpec)
    ensures
        r@ == declared(
            ADAPTER@,
            EffectsV {
                pure: true,
                idempotent: true,
                cacheable: true,
                commutative: true,
                ..no_effects()
            },
        ),
{
    ToolSpec::new(ADAPTER).with_effects(Effects::pure())
}

/// ToolSpec for a non-idempotent write endpoint (POST-like).
pub fn write_endpoint(resources: &[&str]) -> (r: ToolSpec)
    ensures
        r@ == declared(
            ADAPTER@,
            EffectsV { writes: slice_set(resources@), ..no_effects() },
        ),
{
    let mut effects = Effects::default();
    effects.writes = set_of(resources);
    ToolSpec::new(ADAPTER).with_effects(effects)
}

/// ToolSpec for an idempotent write endpoint (PUT/DELETE-like): retryable.
pub fn idempotent_write_endpoint(resources: &[&str]) -> (r: ToolSpec)
    ensures
        r@ == declared(
            ADAPTER@,
            EffectsV { writes: slice_set(resources@), idempotent: true, ..no_effects() },
        ),
{
    let mut effects = Effects::default();
    effects.writes = set_of(resources);
    effects.idempotent = true;
    ToolSpec::new(ADAPTER).with_effects(effects)
}

/// ToolSpec wrapping arbitrary effects for the `request` tool.
pub fn request_tool(effects: Effects) -> (r: ToolSpec)
    ensures
        r@ == declared(ADAPTER@, effects@),
{
    ToolSpec::new(ADAPTER).with_effects(effects)
}

} // verus!
