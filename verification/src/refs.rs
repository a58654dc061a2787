//! References to node outputs: grammar, escaping, and collection.

use vstd::prelude::*;

use crate::canonical::canonical_json_string;
use crate::json::{Json, Value};
use crate::ordered::StrMap;
use crate::text::{chars_of, contains_char, join_texts, same_text, split_text};

verus! {

use crate::canonical::canonical;
use crate::json::{array_smaller, entries_view, object_smaller, values_view};
use crate::ordered::{has_key, lookup};
use crate::text::{join_with, split_on, split_on_nonempty, texts_view};
use crate::value::entries_lookup;

broadcast use {crate::json::group_json_views, crate::ordered::pairs_decrease};

/// Input key that marks a JSON object as a reference: `{"$ref": "node.output.path"}`.
pub const REF_KEY: &'static str = "$ref";

/// Input key that marks a JSON object as literal data: `{"$literal": <value>}`.
///
/// Everything under `$literal` is passed through verbatim and is never
/// interpreted as a reference, which is how a plan can carry payloads that
/// legitimately contain `$ref`-shaped objects.
pub const LITERAL_KEY: &'static str = "$literal";

/// Errors produced while parsing or collecting value references.
#[derive(Clone, Debug, PartialEq, Eq)]
pub enum RefParseError {
    /// The string does not match `<node>.output[.<path>...]`.
    Invalid(String),
    /// The reference contains an empty path segment (for example a trailing dot).
    EmptySegment(String),
    /// A `$ref` object carries a non-string value.
    NonStringRef(String),
    /// A `$ref` object carries extra keys next to `$ref`.
    RefWithExtraKeys(String),
    /// A node id is empty.
    EmptyNodeId,
    /// A node id contains the reserved `.` separator.
    NodeIdContainsDot(String),
}

/// A reference error as a mathematical value.
pub enum RefErrorV {
    Invalid(Seq<char>),
    EmptySegment(Seq<char>),
    NonStringRef(Seq<char>),
    RefWithExtraKeys(Seq<char>),
    EmptyNodeId,
    NodeIdContainsDot(Seq<char>),
}

impl View for RefParseError {
    type V = RefErrorV;

    open spec fn view(&self) -> RefErrorV {
        match self {
            RefParseError::Invalid(t) => RefErrorV::Invalid(t@),
            RefParseError::EmptySegment(t) => RefErrorV::EmptySegment(t@),
            RefParseError::NonStringRef(t) => RefErrorV::NonStringRef(t@),
            RefParseError::RefWithExtraKeys(t) => RefErrorV::RefWithExtraKeys(t@),
            RefParseError::EmptyNodeId => RefErrorV::EmptyNodeId,
            RefParseError::NodeIdContainsDot(t) => RefErrorV::NodeIdContainsDot(t@),
        }
    }
}

/// The message of a reference error.
pub open spec fn ref_error_text(e: RefErrorV) -> Seq<char> {
    match e {
        RefErrorV::Invalid(t) => "invalid value reference '"@ + t
            + "', expected '<node>.output[.<path>...]'"@,
        RefErrorV::EmptySegment(t) => "value reference '"@ + t
            + "' contains an empty path segment"@,
        RefErrorV::NonStringRef(t) => "'$ref' value must be a string, found "@ + t,
        RefErrorV::RefWithExtraKeys(t) => "object mixes '$ref' with other keys ("@ + t
            + "); wrap literal data in {\"$literal\": ...}"@,
        RefErrorV::EmptyNodeId => "node id must not be empty"@,
        RefErrorV::NodeIdContainsDot(t) => "node id '"@ + t + "' must not contain '.'"@,
    }
}

impl RefParseError {
    /// The message of the error.
    pub fn message(&self) -> (r: String)
        ensures
            r@ == ref_error_text(self@),
    {
        match self {
            RefParseError::Invalid(t) => crate::text::wrapped(
                "invalid value reference '",
                t.as_str(),
                "', expected '<node>.output[.<path>...]'",
            ),
            RefParseError::EmptySegment(t) => crate::text::wrapped(
                "value reference '",
                t.as_str(),
                "' contains an empty path segment",
            ),
            RefParseError::NonStringRef(t) => crate::text::concat2(
                "'$ref' value must be a string, found ",
                t.as_str(),
            ),
            RefParseError::RefWithExtraKeys(t) => crate::text::wrapped(
                "object mixes '$ref' with other keys (",
                t.as_str(),
                "); wrap literal data in {\"$literal\": ...}",
            ),
            RefParseError::EmptyNodeId => "node id must not be empty".to_owned(),
            RefParseError::NodeIdContainsDot(t) => crate::text::wrapped(
                "node id '",
                t.as_str(),
                "' must not contain '.'",
            ),
        }
    }
}

// ---------------------------------------------------------------------------
// Node ids
// ---------------------------------------------------------------------------

/// What is wrong with a node id, if anything is.
pub open spec fn node_id_error(id: Seq<char>) -> Option<RefErrorV> {
    if id.len() == 0 {
        Some(RefErrorV::EmptyNodeId)
    } else if id.contains('.') {
        Some(RefErrorV::NodeIdContainsDot(id))
    } else {
        None
    }
}

/// Validates a node id for use in plans and references.
///
/// Node ids must be non-empty and must not contain `.` (the reference
/// separator) so that `<node>.output.<path>` strings stay unambiguous.
pub fn validate_node_id(id: &str) -> (r: Result<(), RefParseError>)
    ensures
        match r {
            Ok(_) => node_id_error(id@) is None,
            Err(e) => node_id_error(id@) == Some(e@),
        },
{
    if id.is_empty() {
        return Err(RefParseError::EmptyNodeId);
    }
    if contains_char(id, '.') {
        return Err(RefParseError::NodeIdContainsDot(id.to_owned()));
    }
    Ok(())
}

// ---------------------------------------------------------------------------
// Escaping
// ---------------------------------------------------------------------------

/// A path segment as it is written in a reference: `~0` stands for `~` and
/// `~1` for `.`.
pub open spec fn escaped_segment(s: Seq<char>) -> Seq<char>
    decreases s.len(),
{
    if s.len() == 0 {
        Seq::empty()
    } else {
        let rest = escaped_segment(s.drop_first());
        if s[0] == '~' {
            seq!['~', '0'] + rest
        } else if s[0] == '.' {
            seq!['~', '1'] + rest
        } else {
            seq![s[0]] + rest
        }
    }
}

/// The segment that a written segment stands for. A `~` that is followed by
/// neither `0` nor `1` stands for itself.
pub open spec fn unescaped_segment(s: Seq<char>) -> Seq<char>
    decreases s.len(),
{
    if s.len() == 0 {
        Seq::empty()
    } else if s[0] == '~' && s.len() > 1 && s[1] == '1' {
        seq!['.'] + unescaped_segment(s.skip(2))
    } else if s[0] == '~' && s.len() > 1 && s[1] == '0' {
        seq!['~'] + unescaped_segment(s.skip(2))
    } else {
        seq![s[0]] + unescaped_segment(s.skip(1))
    }
}

/// Reading a written segment gives the segment back.
pub proof fn unescape_escape(s: Seq<char>)
    ensures
        unescaped_segment(escaped_segment(s)) == s,
    decreases s.len(),
{
    if s.len() > 0 {
        let rest = escaped_segment(s.drop_first());
        let e = escaped_segment(s);
        unescape_escape(s.drop_first());
        if s[0] == '~' || s[0] == '.' {
            assert(e.skip(2) =~= rest);
        } else {
            assert(e.skip(1) =~= rest);
        }
        assert(s =~= seq![s[0]] + s.drop_first());
    }
}

/// A written segment holds no separator.
pub proof fn escaped_has_no_dot(s: Seq<char>)
    ensures
        !escaped_segment(s).contains('.'),
        s.len() > 0 ==> escaped_segment(s).len() > 0,
    decreases s.len(),
{
    if s.len() > 0 {
        let rest = escaped_segment(s.drop_first());
        escaped_has_no_dot(s.drop_first());
        let e = escaped_segment(s);
        if e.contains('.') {
            let p = choose|p: int| 0 <= p < e.len() && e[p] == '.';
            let k = if s[0] == '~' || s[0] == '.' {
                2int
            } else {
                1int
            };
            assert(p >= k);
            assert(rest[p - k] == '.');
        }
    }
}

/// Writes a path segment.
pub fn escape_segment(segment: &str) -> (r: String)
    ensures
        r@ == escaped_segment(segment@),
{
    let chars = chars_of(segment);
    let mut out = String::new();
    let mut i: usize = 0;
    assert(chars@.skip(0) =~= chars@);
    while i < chars.len()
        invariant
            i <= chars@.len(),
            chars@ == segment@,
            out@ + escaped_segment(chars@.skip(i as int)) == escaped_segment(segment@),
        decreases chars.len() - i,
    {
        let ghost start = out@;
        let c = chars[i];
        if c == '~' {
            out.push('~');
            out.push('0');
        } else if c == '.' {
            out.push('~');
            out.push('1');
        } else {
            out.push(c);
        }
        proof {
            let here = chars@.skip(i as int);
            assert(here.drop_first() =~= chars@.skip(i + 1));
            assert(here[0] == c);
            assert(out@ + escaped_segment(chars@.skip(i + 1)) =~= start + escaped_segment(here));
        }
        i = i + 1;
    }
    assert(chars@.skip(i as int) =~= Seq::empty());
    assert(out@ =~= escaped_segment(segment@));
    out
}

/// Reads a written path segment.
pub fn unescape_segment(segment: &str) -> (r: String)
    ensures
        r@ == unescaped_segment(segment@),
{
    let chars = chars_of(segment);
    let mut out = String::new();
    let mut i: usize = 0;
    assert(chars@.skip(0) =~= chars@);
    while i < chars.len()
        invariant
            i <= chars@.len(),
            chars@ == segment@,
            out@ + unescaped_segment(chars@.skip(i as int)) == unescaped_segment(segment@),
        decreases chars.len() - i,
    {
        let ghost start = out@;
        let ghost here = chars@.skip(i as int);
        let c = chars[i];
        if c == '~' && chars.len() - i > 1 && chars[i + 1] == '1' {
            out.push('.');
            assert(here.skip(2) =~= chars@.skip(i + 2));
            assert(out@ + unescaped_segment(chars@.skip(i + 2)) =~= start + unescaped_segment(here));
            i = i + 2;
        } else if c == '~' && chars.len() - i > 1 && chars[i + 1] == '0' {
            out.push('~');
            assert(here.skip(2) =~= chars@.skip(i + 2));
            assert(out@ + unescaped_segment(chars@.skip(i + 2)) =~= start + unescaped_segment(here));
            i = i + 2;
        } else {
            out.push(c);
            assert(here.skip(1) =~= chars@.skip(i + 1));
            assert(out@ + unescaped_segment(chars@.skip(i + 1)) =~= start + unescaped_segment(here));
            i = i + 1;
        }
    }
    assert(chars@.skip(i as int) =~= Seq::empty());
    assert(out@ =~= unescaped_segment(segment@));
    out
}

// ---------------------------------------------------------------------------
// References
// ---------------------------------------------------------------------------

/// A reference as a mathematical value.
#[verifier::ext_equal]
pub struct RefV {
    pub node: Seq<char>,
    pub path: Seq<Seq<char>>,
}

/// A parsed reference to another node's output, with an optional path.
///
/// The string form is `<node>.output[.<segment>...]`. Path segments address
/// object keys or array indexes. Segments are escaped JSON-Pointer style:
/// `~1` stands for a literal `.` and `~0` for a literal `~`, so keys that
/// contain dots remain addressable.
#[derive(Debug, PartialEq, Eq, PartialOrd, Ord, Hash)]
pub struct ValueRef {
    node: String,
    path: Vec<String>,
}

impl View for ValueRef {
    type V = RefV;

    closed spec fn view(&self) -> RefV {
        RefV { node: self.node@, path: texts_view(self.path@) }
    }
}

/// The references of a list.
pub open spec fn refs_view(v: Seq<ValueRef>) -> Seq<RefV> {
    Seq::new(v.len(), |i: int| v[i]@)
}

/// The written form of a path below an output.
pub open spec fn path_text(path: Seq<Seq<char>>) -> Seq<char>
    decreases path.len(),
{
    if path.len() == 0 {
        Seq::empty()
    } else {
        path_text(path.drop_last()) + seq!['.'] + escaped_segment(path.last())
    }
}

/// The written form of a reference.
pub open spec fn ref_text(r: RefV) -> Seq<char> {
    r.node + ".output"@ + path_text(r.path)
}

/// The reference that a text stands for.
pub open spec fn parse_ref(s: Seq<char>) -> Result<RefV, RefErrorV> {
    let parts = split_on(s, '.');
    if parts.len() < 2 || parts[0].len() == 0 || parts[1] != "output"@ {
        Err(RefErrorV::Invalid(s))
    } else if exists|i: int| 2 <= i < parts.len() && (#[trigger] parts[i]).len() == 0 {
        Err(RefErrorV::EmptySegment(s))
    } else {
        Ok(
            RefV {
                node: parts[0],
                path: Seq::new(
                    (parts.len() - 2) as nat,
                    |i: int| unescaped_segment(parts[i + 2]),
                ),
            },
        )
    }
}

impl ValueRef {
    /// Creates a reference to `node`'s output at `path`.
    pub fn new(node: &str, path: Vec<String>) -> (r: Self)
        ensures
            r@ == (RefV { node: node@, path: texts_view(path@) }),
    {
        ValueRef { node: node.to_owned(), path }
    }

    /// Creates a reference to `node`'s whole output.
    pub fn output(node: &str) -> (r: Self)
        ensures
            r@ == (RefV { node: node@, path: Seq::empty() }),
    {
        let r = ValueRef { node: node.to_owned(), path: Vec::new() };
        assert(r@.path =~= Seq::empty());
        r
    }

    /// The referenced node id.
    pub fn node(&self) -> (r: &str)
        ensures
            r@ == self@.node,
    {
        self.node.as_str()
    }

    /// The path segments below the node output (unescaped).
    pub fn path(&self) -> (r: &Vec<String>)
        ensures
            texts_view(r@) == self@.path,
    {
        &self.path
    }

    /// Whether two references are the same.
    pub fn same(&self, other: &ValueRef) -> (r: bool)
        ensures
            r == (self@ == other@),
    {
        let r = same_text(self.node.as_str(), other.node.as_str()) && crate::text::same_texts(
            &self.path,
            &other.path,
        );
        r
    }

    /// The written form of the reference.
    pub fn render(&self) -> (r: String)
        ensures
            r@ == ref_text(self@),
    {
        let mut out = self.node.clone();
        out.push_str(".output");
        let ghost path = self@.path;
        let mut i: usize = 0;
        assert(path.take(0) =~= Seq::empty());
        assert(out@ =~= self@.node + ".output"@ + path_text(path.take(0)));
        while i < self.path.len()
            invariant
                i <= self.path@.len(),
                path == texts_view(self.path@),
                out@ == self@.node + ".output"@ + path_text(path.take(i as int)),
            decreases self.path.len() - i,
        {
            out.push('.');
            let segment = escape_segment(self.path[i].as_str());
            out.push_str(segment.as_str());
            proof {
                let next = path.take(i + 1);
                assert(next.drop_last() =~= path.take(i as int));
                assert(out@ =~= self@.node + ".output"@ + path_text(next));
            }
            i = i + 1;
        }
        assert(path.take(i as int) =~= path);
        out
    }

    /// Parses the written form of a reference.
    pub fn parse(value: &str) -> (r: Result<Self, RefParseError>)
        ensures
            match (r, parse_ref(value@)) {
                (Ok(v), Ok(m)) => v@ == m,
                (Err(e), Err(m)) => e@ == m,
                _ => false,
            },
    {
        let parts = split_text(value, '.');
        let ghost views = texts_view(parts@);
        if parts.len() < 2 || parts[0].as_str().is_empty() || !same_text(
            parts[1].as_str(),
            "output",
        ) {
            return Err(RefParseError::Invalid(value.to_owned()));
        }
        let mut path: Vec<String> = Vec::new();
        let mut i: usize = 2;
        while i < parts.len()
            invariant
                2 <= i <= parts@.len(),
                views == texts_view(parts@),
                views == split_on(value@, '.'),
                views[0].len() != 0,
                views[1] == "output"@,
                path@.len() == i - 2,
                forall|j: int| 2 <= j < i ==> (#[trigger] views[j]).len() != 0,
                forall|j: int|
                    0 <= j < i - 2 ==> (#[trigger] path@[j])@ == unescaped_segment(views[j + 2]),
            decreases parts.len() - i,
        {
            if parts[i].as_str().is_empty() {
                assert(views[i as int].len() == 0);
                return Err(RefParseError::EmptySegment(value.to_owned()));
            }
            path.push(unescape_segment(parts[i].as_str()));
            i = i + 1;
        }
        let r = ValueRef { node: parts[0].clone(), path };
        proof {
            let want = Seq::new((views.len() - 2) as nat, |i: int| unescaped_segment(views[i + 2]));
            assert(r@.path =~= want);
        }
        Ok(r)
    }
}

impl Clone for ValueRef {
    fn clone(&self) -> (r: Self)
        ensures
            r@ == self@,
    {
        ValueRef { node: self.node.clone(), path: crate::text::copy_texts(&self.path) }
    }
}

impl std::str::FromStr for ValueRef {
    type Err = RefParseError;

    fn from_str(value: &str) -> (r: Result<Self, RefParseError>)
        ensures
            match (r, parse_ref(value@)) {
                (Ok(v), Ok(m)) => v@ == m,
                (Err(e), Err(m)) => e@ == m,
                _ => false,
            },
    {
        ValueRef::parse(value)
    }
}

proof fn lemma_split_no_separator(s: Seq<char>, sep: char)
    requires
        !s.contains(sep),
    ensures
        split_on(s, sep) == seq![s],
    decreases s.len(),
{
    if s.len() == 0 {
        assert(s =~= Seq::empty());
    } else {
        let front = s.drop_last();
        assert(!front.contains(sep)) by {
            if front.contains(sep) {
                let p = choose|p: int| 0 <= p < front.len() && front[p] == sep;
                assert(s[p] == sep);
            }
        }
        lemma_split_no_separator(front, sep);
        assert(s[s.len() - 1] != sep);
        assert(front.push(s.last()) =~= s);
        assert(split_on(s, sep) =~= seq![s]);
    }
}

proof fn lemma_split_append(a: Seq<char>, b: Seq<char>, sep: char)
    requires
        !b.contains(sep),
    ensures
        split_on(a + seq![sep] + b, sep) == split_on(a, sep).push(b),
    decreases b.len(),
{
    let s = a + seq![sep] + b;
    split_on_nonempty(a, sep);
    if b.len() == 0 {
        assert(s.drop_last() =~= a);
        assert(s.last() == sep);
        assert(b =~= Seq::empty());
    } else {
        let front = b.drop_last();
        assert(!front.contains(sep)) by {
            if front.contains(sep) {
                let p = choose|p: int| 0 <= p < front.len() && front[p] == sep;
                assert(b[p] == sep);
            }
        }
        lemma_split_append(a, front, sep);
        assert(s.drop_last() =~= a + seq![sep] + front);
        assert(s.last() == b.last());
        assert(b[b.len() - 1] != sep);
        assert(front.push(b.last()) =~= b);
        let rest = split_on(a, sep).push(front);
        assert(rest.update(rest.len() - 1, rest.last().push(s.last())) =~= split_on(a, sep).push(b));
    }
}

proof fn lemma_split_path(head: Seq<char>, path: Seq<Seq<char>>)
    ensures
        split_on(head + path_text(path), '.') == split_on(head, '.') + Seq::new(
            path.len(),
            |i: int| escaped_segment(path[i]),
        ),
    decreases path.len(),
{
    let written = Seq::new(path.len(), |i: int| escaped_segment(path[i]));
    if path.len() == 0 {
        assert(head + path_text(path) =~= head);
        assert(split_on(head, '.') + written =~= split_on(head, '.'));
    } else {
        let front = path.drop_last();
        lemma_split_path(head, front);
        escaped_has_no_dot(path.last());
        lemma_split_append(head + path_text(front), escaped_segment(path.last()), '.');
        assert(head + path_text(path) =~= head + path_text(front) + seq!['.'] + escaped_segment(
            path.last(),
        ));
        let before = Seq::new(front.len(), |i: int| escaped_segment(front[i]));
        assert(split_on(head, '.') + written =~= (split_on(head, '.') + before).push(
            escaped_segment(path.last()),
        ));
    }
}

/// Writing a reference and parsing the text gives the reference back, for
/// every valid node id and every path of non-empty segments, whatever dots
/// and tildes the segments hold.
pub proof fn parse_of_rendered(r: RefV)
    requires
        node_id_error(r.node) is None,
        forall|i: int| 0 <= i < r.path.len() ==> (#[trigger] r.path[i]).len() > 0,
    ensures
        parse_ref(ref_text(r)) == Ok::<RefV, RefErrorV>(r),
{
    reveal_strlit("output");
    reveal_strlit(".output");
    let head = r.node + ".output"@;
    assert(head =~= r.node + seq!['.'] + "output"@);
    assert(!"output"@.contains('.'));
    lemma_split_append(r.node, "output"@, '.');
    lemma_split_no_separator(r.node, '.');
    lemma_split_path(head, r.path);
    let parts = split_on(ref_text(r), '.');
    let written = Seq::new(r.path.len(), |i: int| escaped_segment(r.path[i]));
    assert(parts =~= seq![r.node, "output"@] + written);
    assert forall|i: int| 2 <= i < parts.len() implies (#[trigger] parts[i]).len() != 0 by {
        assert(parts[i] == escaped_segment(r.path[i - 2]));
        assert(r.path[i - 2].len() > 0);
        escaped_has_no_dot(r.path[i - 2]);
    }
    let path = Seq::new((parts.len() - 2) as nat, |i: int| unescaped_segment(parts[i + 2]));
    assert(path =~= r.path) by {
        assert forall|i: int| 0 <= i < r.path.len() implies path[i] == r.path[i] by {
            assert(parts[i + 2] == escaped_segment(r.path[i]));
            unescape_escape(r.path[i]);
        }
    }
}

// ---------------------------------------------------------------------------
// Collection
// ---------------------------------------------------------------------------

/// The keys of an object other than `$ref`, joined for a message.
pub open spec fn other_keys(entries: Seq<(Seq<char>, Json)>) -> Seq<Seq<char>>
    decreases entries.len(),
{
    if entries.len() == 0 {
        Seq::empty()
    } else {
        let rest = other_keys(entries.drop_last());
        if entries.last().0 == REF_KEY@ {
            rest
        } else {
            rest.push(entries.last().0)
        }
    }
}

/// An object that shields literal data.
pub open spec fn is_literal_object(entries: Seq<(Seq<char>, Json)>) -> bool {
    entries.len() == 1 && has_key(entries, LITERAL_KEY@)
}

/// One collection after the other; the first error wins.
pub open spec fn both(
    a: Result<Seq<RefV>, RefErrorV>,
    b: Result<Seq<RefV>, RefErrorV>,
) -> Result<Seq<RefV>, RefErrorV> {
    match a {
        Err(e) => Err(e),
        Ok(x) => match b {
            Err(e) => Err(e),
            Ok(y) => Ok(x + y),
        },
    }
}

/// Every reference in a document, in document order, or the first thing that
/// is wrong with one.
///
/// An object `{"$ref": "..."}` is a reference. An object that holds `$ref` in
/// any other shape is an error. Nothing under `{"$literal": ...}` counts.
pub open spec fn refs_in(j: Json) -> Result<Seq<RefV>, RefErrorV>
    decreases j,
{
    match j {
        Json::Object(entries) => if is_literal_object(entries) {
            Ok(Seq::empty())
        } else if has_key(entries, REF_KEY@) {
            if entries.len() > 1 {
                Err(RefErrorV::RefWithExtraKeys(join_with(other_keys(entries), ", "@)))
            } else {
                match lookup(entries, REF_KEY@)->0 {
                    Json::Text(t) => match parse_ref(t) {
                        Ok(r) => Ok(seq![r]),
                        Err(e) => Err(e),
                    },
                    other => Err(RefErrorV::NonStringRef(canonical(other))),
                }
            }
        } else {
            refs_in_entries(entries)
        },
        Json::List(items) => refs_in_items(items),
        _ => Ok(Seq::empty()),
    }
}

/// The references in the values of an object.
pub open spec fn refs_in_entries(entries: Seq<(Seq<char>, Json)>) -> Result<Seq<RefV>, RefErrorV>
    decreases entries,
{
    if entries.len() == 0 {
        Ok(Seq::empty())
    } else {
        let last = entries[entries.len() - 1];
        both(refs_in_entries(entries.subrange(0, entries.len() - 1)), refs_in_entry(last))
    }
}

/// The references in the value of a member.
pub open spec fn refs_in_entry(entry: (Seq<char>, Json)) -> Result<Seq<RefV>, RefErrorV>
    decreases entry,
{
    refs_in(entry.1)
}

/// The references in the elements of a list.
pub open spec fn refs_in_items(items: Seq<Json>) -> Result<Seq<RefV>, RefErrorV>
    decreases items,
{
    if items.len() == 0 {
        Ok(Seq::empty())
    } else {
        both(
            refs_in_items(items.subrange(0, items.len() - 1)),
            refs_in(items[items.len() - 1]),
        )
    }
}

fn keys_besides_ref(map: &StrMap<Value>) -> (r: Vec<String>)
    ensures
        texts_view(r@) == other_keys(entries_view(*map)),
{
    let ghost entries = entries_view(*map);
    let mut out: Vec<String> = Vec::new();
    let mut i: usize = 0;
    assert(texts_view(out@) =~= other_keys(entries.take(0)));
    while i < map.len()
        invariant
            i <= map.pairs().len(),
            entries == entries_view(*map),
            texts_view(out@) == other_keys(entries.take(i as int)),
        decreases map.pairs().len() - i,
    {
        let key = map.key_at(i);
        let ghost next = entries.take(i + 1);
        assert(next.drop_last() =~= entries.take(i as int));
        assert(next.last().0 == key@);
        if !same_text(key, REF_KEY) {
            let ghost before = out@;
            out.push(key.to_owned());
            assert(texts_view(out@) =~= texts_view(before).push(key@));
        }
        i = i + 1;
    }
    assert(entries.take(i as int) =~= entries);
    out
}

proof fn lemma_items_prefix_error(items: Seq<Json>, i: int)
    requires
        0 <= i <= items.len(),
        refs_in_items(items.subrange(0, i)) is Err,
    ensures
        refs_in_items(items) == refs_in_items(items.subrange(0, i)),
    decreases items.len() - i,
{
    if i == items.len() {
        assert(items.subrange(0, i) =~= items);
    } else {
        let next = items.subrange(0, i + 1);
        assert(next.subrange(0, i) =~= items.subrange(0, i));
        lemma_items_prefix_error(items, i + 1);
    }
}

proof fn lemma_entries_prefix_error(entries: Seq<(Seq<char>, Json)>, i: int)
    requires
        0 <= i <= entries.len(),
        refs_in_entries(entries.subrange(0, i)) is Err,
    ensures
        refs_in_entries(entries) == refs_in_entries(entries.subrange(0, i)),
    decreases entries.len() - i,
{
    if i == entries.len() {
        assert(entries.subrange(0, i) =~= entries);
    } else {
        let next = entries.subrange(0, i + 1);
        assert(next.subrange(0, i) =~= entries.subrange(0, i));
        lemma_entries_prefix_error(entries, i + 1);
    }
}

fn collect_refs_inner(value: &Value, refs: &mut Vec<ValueRef>) -> (r: Result<(), RefParseError>)
    ensures
        match (r, refs_in(value@)) {
            (Ok(_), Ok(found)) => refs_view(final(refs)@) == refs_view(old(refs)@) + found,
            (Err(e), Err(m)) => e@ == m,
            _ => false,
        },
    decreases value,
{
    let ghost before = refs_view(refs@);
    match value {
        Value::Object(map) => {
            let ghost entries = entries_view(*map);
            map.prove_sorted();
            proof {
                entries_lookup(*map, LITERAL_KEY@);
                entries_lookup(*map, REF_KEY@);
            }
            if map.len() == 1 && map.contains_key(LITERAL_KEY) {
                assert(before + Seq::empty() =~= before);
                return Ok(());
            }
            if let Some(raw_ref) = map.get(REF_KEY) {
                if map.len() > 1 {
                    let keys = keys_besides_ref(map);
                    return Err(RefParseError::RefWithExtraKeys(join_texts(&keys, ", ")));
                }
                match raw_ref {
                    Value::String(text) => match ValueRef::parse(text.as_str()) {
                        Ok(parsed) => {
                            let ghost one = parsed@;
                            let ghost start = refs@;
                            refs.push(parsed);
                            assert(refs_view(refs@) =~= refs_view(start) + seq![one]);
                            return Ok(());
                        },
                        Err(e) => {
                            return Err(e);
                        },
                    },
                    _ => {
                        return Err(RefParseError::NonStringRef(canonical_json_string(raw_ref)));
                    },
                }
            }
            let mut i: usize = 0;
            assert(refs_in_entries(entries.subrange(0, 0)) == Ok::<Seq<RefV>, RefErrorV>(
                Seq::empty(),
            ));
            assert(refs_view(refs@) =~= before + Seq::empty());
            while i < map.len()
                invariant
                    i <= map.pairs().len(),
                    *value == Value::Object(*map),
                    entries == entries_view(*map),
                    !is_literal_object(entries),
                    !has_key(entries, REF_KEY@),
                    refs_in_entries(entries.subrange(0, i as int)) is Ok,
                    refs_view(refs@) == before + refs_in_entries(entries.subrange(0, i as int))->Ok_0,
                decreases map.pairs().len() - i,
            {
                let ghost next = entries.subrange(0, i + 1);
                proof {
                    object_smaller(*value, i as int);
                    assert(next.subrange(0, i as int) =~= entries.subrange(0, i as int));
                    assert(refs_in_entry(next[i as int]) == refs_in(next[i as int].1));
                    assert(refs_in_entries(next) == both(
                        refs_in_entries(entries.subrange(0, i as int)),
                        refs_in_entry(next[i as int]),
                    ));
                }
                match collect_refs_inner(map.value_at(i), refs) {
                    Ok(_) => {
                        assert(refs_view(refs@) =~= before + refs_in_entries(next)->Ok_0);
                    },
                    Err(e) => {
                        proof {
                            lemma_entries_prefix_error(entries, i + 1);
                        }
                        return Err(e);
                    },
                }
                i = i + 1;
            }
            assert(entries.subrange(0, i as int) =~= entries);
            Ok(())
        },
        Value::Array(items) => {
            let ghost docs = values_view(items@);
            let mut i: usize = 0;
            assert(refs_in_items(docs.subrange(0, 0)) == Ok::<Seq<RefV>, RefErrorV>(Seq::empty()));
            assert(refs_view(refs@) =~= before + Seq::empty());
            while i < items.len()
                invariant
                    i <= items@.len(),
                    *value == Value::Array(*items),
                    docs == values_view(items@),
                    refs_in_items(docs.subrange(0, i as int)) is Ok,
                    refs_view(refs@) == before + refs_in_items(docs.subrange(0, i as int))->Ok_0,
                decreases items.len() - i,
            {
                let ghost next = docs.subrange(0, i + 1);
                proof {
                    array_smaller(*value, i as int);
                    assert(next.subrange(0, i as int) =~= docs.subrange(0, i as int));
                    assert(refs_in_items(next) == both(
                        refs_in_items(docs.subrange(0, i as int)),
                        refs_in(next[i as int]),
                    ));
                }
                match collect_refs_inner(&items[i], refs) {
                    Ok(_) => {
                        assert(refs_view(refs@) =~= before + refs_in_items(next)->Ok_0);
                    },
                    Err(e) => {
                        proof {
                            lemma_items_prefix_error(docs, i + 1);
                        }
                        return Err(e);
                    },
                }
                i = i + 1;
            }
            assert(docs.subrange(0, i as int) =~= docs);
            Ok(())
        },
        _ => {
            assert(before + Seq::empty() =~= before);
            Ok(())
        },
    }
}

/// Collects every `$ref` reference inside `value`.
///
/// Objects shaped `{"$ref": "..."}` are parsed as references. Objects that
/// carry a `$ref` key in any other shape (non-string value, or mixed with
/// other keys) are rejected instead of being silently treated as data.
/// Anything under a [`LITERAL_KEY`] object is skipped verbatim.
pub fn collect_refs(value: &Value) -> (r: Result<Vec<ValueRef>, RefParseError>)
    ensures
        match (r, refs_in(value@)) {
            (Ok(v), Ok(found)) => refs_view(v@) == found,
            (Err(e), Err(m)) => e@ == m,
            _ => false,
        },
{
    let mut refs: Vec<ValueRef> = Vec::new();
    match collect_refs_inner(value, &mut refs) {
        Ok(_) => {
            assert(refs_view(refs@) =~= refs_in(value@)->Ok_0);
            Ok(refs)
        },
        Err(e) => Err(e),
    }
}
} // verus!
