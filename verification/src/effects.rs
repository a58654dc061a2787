//! Tool effect declarations and per-node resource resolution.

use vstd::prelude::*;

use crate::json::{Json, Number, Value};
use crate::ordered::StrSet;
use crate::text::{chars_of, decimal_text, signed_decimal_text, split_text, text_of};

verus! {

use crate::canonical::number_text;
use crate::ordered::opt_view;
use crate::text::{split_on, texts_view};
use crate::value::json_field;

/// Retry policy for failed calls.
///
/// Retries only run when the tool's effects make them safe (`idempotent` or
/// `pure`). An error is considered retryable when the adapter marked it
/// `retryable: true`, or, if the adapter gave no verdict, when
/// `retryable_errors` is empty (any error) or matches the error's `code` or a
/// substring of its message.
#[derive(Debug, PartialEq, Eq)]
pub struct RetryPolicy {
    /// Maximum total attempts, including the first call.
    pub max_attempts: u8,
    /// Error codes or message substrings that are retryable.
    pub retryable_errors: StrSet,
    /// Base backoff in milliseconds; attempt `n` waits `backoff_ms * 2^(n-1)`
    /// plus jitter, capped at 5 seconds. Defaults to 100ms.
    pub backoff_ms: Option<u64>,
}

/// A retry policy as a mathematical value.
#[verifier::ext_equal]
pub struct RetryV {
    pub max_attempts: u8,
    pub retryable_errors: Set<Seq<char>>,
    pub backoff_ms: Option<u64>,
}

impl View for RetryPolicy {
    type V = RetryV;

    open spec fn view(&self) -> RetryV {
        RetryV {
            max_attempts: self.max_attempts,
            retryable_errors: self.retryable_errors@,
            backoff_ms: self.backoff_ms,
        }
    }
}

impl Clone for RetryPolicy {
    fn clone(&self) -> (r: Self)
        ensures
            r@ == self@,
    {
        RetryPolicy {
            max_attempts: self.max_attempts,
            retryable_errors: self.retryable_errors.clone(),
            backoff_ms: self.backoff_ms,
        }
    }
}

/// Declared semantic properties of a tool call.
///
/// Effects are what make optimization legal: the compiler only reorders,
/// parallelizes, batches, caches, deduplicates, or retries a call when its
/// declared effects prove the transformation safe. A missing or vacuous
/// declaration blocks those transformations instead of permitting them.
///
/// `reads` and `writes` name abstract resources. Entries may contain
/// `{placeholders}` resolved from each node's input (see
/// [`resolve_resource_template`]), so one tool can declare per-call
/// granularity such as `file:{path}`.
#[derive(Debug, PartialEq, Eq)]
pub struct Effects {
    /// No external side effects; output depends only on input.
    pub pure: bool,
    /// Abstract resources read by the call.
    pub reads: StrSet,
    /// Abstract resources written by the call.
    pub writes: StrSet,
    /// Retrying the call does not duplicate external effects.
    pub idempotent: bool,
    /// The output may be memoized for a cache key.
    pub cacheable: bool,
    /// Multiple calls of this tool may be joined into one batch dispatch.
    pub batchable: bool,
    /// Calls of this tool may be reordered or overlapped with each other
    /// even when their writes touch the same resource.
    pub commutative: bool,
    /// Default execution deadline for one call, in milliseconds.
    pub timeout_ms: Option<u64>,
    /// Retry policy applied when a call fails.
    pub retry: Option<RetryPolicy>,
}

/// Effects as a mathematical value.
#[verifier::ext_equal]
pub struct EffectsV {
    pub pure: bool,
    pub reads: Set<Seq<char>>,
    pub writes: Set<Seq<char>>,
    pub idempotent: bool,
    pub cacheable: bool,
    pub batchable: bool,
    pub commutative: bool,
    pub timeout_ms: Option<u64>,
    pub retry: Option<RetryV>,
}

impl View for Effects {
    type V = EffectsV;

    open spec fn view(&self) -> EffectsV {
        EffectsV {
            pure: self.pure,
            reads: self.reads@,
            writes: self.writes@,
            idempotent: self.idempotent,
            cacheable: self.cacheable,
            batchable: self.batchable,
            commutative: self.commutative,
            timeout_ms: self.timeout_ms,
            retry: opt_view(self.retry),
        }
    }
}

/// Effects that declare nothing.
pub open spec fn no_effects() -> EffectsV {
    EffectsV {
        pure: false,
        reads: Set::empty(),
        writes: Set::empty(),
        idempotent: false,
        cacheable: false,
        batchable: false,
        commutative: false,
        timeout_ms: None,
        retry: None,
    }
}

/// The declaration is `pure` and declares writes.
pub open spec fn contradictory(e: EffectsV) -> bool {
    e.pure && e.writes != Set::<Seq<char>>::empty()
}

/// The declaration says something about side effects.
pub open spec fn declares(e: EffectsV) -> bool {
    e.pure || e.reads != Set::<Seq<char>>::empty() || e.writes != Set::<Seq<char>>::empty()
}

impl Default for Effects {
    fn default() -> (r: Self)
        ensures
            r@ == no_effects(),
    {
        Effects {
            pure: false,
            reads: StrSet::new(),
            writes: StrSet::new(),
            idempotent: false,
            cacheable: false,
            batchable: false,
            commutative: false,
            timeout_ms: None,
            retry: None,
        }
    }
}

/// The set of the texts in a slice.
pub open spec fn slice_set(s: Seq<&str>) -> Set<Seq<char>> {
    Set::new(|k: Seq<char>| exists|i: int| 0 <= i < s.len() && (#[trigger] s[i])@ == k)
}

/// A set of the given texts.
pub fn set_of(items: &[&str]) -> (r: StrSet)
    ensures
        r@ == slice_set(items@),
{
    let mut out = StrSet::new();
    let mut i: usize = 0;
    assert(out@ =~= slice_set(items@.take(0)));
    while i < items.len()
        invariant
            i <= items@.len(),
            out@ == slice_set(items@.take(i as int)),
        decreases items@.len() - i,
    {
        out.insert(items[i].to_owned());
        proof {
            let before = items@.take(i as int);
            let next = items@.take(i + 1);
            assert forall|k: Seq<char>| #[trigger] slice_set(next).contains(k) <==> slice_set(
                before,
            ).insert(items@[i as int]@).contains(k) by {
                if slice_set(before).contains(k) {
                    let p = choose|p: int| 0 <= p < before.len() && (#[trigger] before[p])@ == k;
                    assert(next[p]@ == k);
                }
                if slice_set(next).contains(k) {
                    let p = choose|p: int| 0 <= p < next.len() && (#[trigger] next[p])@ == k;
                    if p < i {
                        assert(before[p]@ == k);
                    }
                }
                assert(next[i as int]@ == items@[i as int]@);
            }
            assert(out@ =~= slice_set(next));
        }
        i = i + 1;
    }
    assert(items@.take(i as int) =~= items@);
    out
}

impl Effects {
    /// Read-only effects over `resources`: idempotent and cacheable.
    pub fn read_only(resources: &[&str]) -> (r: Self)
        ensures
            r@ == (EffectsV {
                reads: slice_set(resources@),
                idempotent: true,
                cacheable: true,
                ..no_effects()
            }),
    {
        Effects {
            pure: false,
            reads: set_of(resources),
            writes: StrSet::new(),
            idempotent: true,
            cacheable: true,
            batchable: false,
            commutative: false,
            timeout_ms: None,
            retry: None,
        }
    }

    /// Pure effects: no side effects, idempotent, cacheable, commutative.
    pub fn pure() -> (r: Self)
        ensures
            r@ == (EffectsV {
                pure: true,
                idempotent: true,
                cacheable: true,
                commutative: true,
                ..no_effects()
            }),
    {
        Effects {
            pure: true,
            reads: StrSet::new(),
            writes: StrSet::new(),
            idempotent: true,
            cacheable: true,
            batchable: false,
            commutative: true,
            timeout_ms: None,
            retry: None,
        }
    }

    /// Whether the declaration contradicts itself (`pure` with writes).
    pub fn is_contradictory(&self) -> (r: bool)
        ensures
            r == contradictory(self@),
    {
        self.pure && !self.writes.is_empty()
    }

    /// Whether the declaration says anything about side effects.
    ///
    /// An `Effects` value that declares neither purity nor any read/write
    /// resource is *vacuous*: it asserts safety without knowledge. The
    /// compiler treats vacuous effects like missing effects and refuses to
    /// parallelize on their basis.
    pub fn declares_side_effects(&self) -> (r: bool)
        ensures
            r == declares(self@),
    {
        self.pure || !self.reads.is_empty() || !self.writes.is_empty()
    }
}

impl Clone for Effects {
    fn clone(&self) -> (r: Self)
        ensures
            r@ == self@,
    {
        Effects {
            pure: self.pure,
            reads: self.reads.clone(),
            writes: self.writes.clone(),
            idempotent: self.idempotent,
            cacheable: self.cacheable,
            batchable: self.batchable,
            commutative: self.commutative,
            timeout_ms: self.timeout_ms,
            retry: match &self.retry {
                Some(p) => Some(p.clone()),
                None => None,
            },
        }
    }
}

// ---------------------------------------------------------------------------
// Resource templates
// ---------------------------------------------------------------------------

/// The position of the first `c`, or the length when there is none.
pub open spec fn first_position(s: Seq<char>, c: char) -> nat
    decreases s.len(),
{
    if s.len() == 0 || s[0] == c {
        0
    } else {
        1 + first_position(s.drop_first(), c)
    }
}

/// The first position lies inside the text exactly when the character occurs.
pub proof fn first_position_bounds(s: Seq<char>, c: char)
    ensures
        first_position(s, c) <= s.len(),
        first_position(s, c) < s.len() ==> s[first_position(s, c) as int] == c,
        first_position(s, c) < s.len() <==> s.contains(c),
        forall|i: int| 0 <= i < first_position(s, c) ==> s[i] != c,
    decreases s.len(),
{
    if s.len() > 0 && s[0] != c {
        let rest = s.drop_first();
        first_position_bounds(rest, c);
        if s.contains(c) {
            let p = choose|p: int| 0 <= p < s.len() && s[p] == c;
            assert(rest[p - 1] == c);
        }
        if rest.contains(c) {
            let p = choose|p: int| 0 <= p < rest.len() && rest[p] == c;
            assert(s[p + 1] == c);
        }
        assert forall|i: int| 0 <= i < first_position(s, c) implies s[i] != c by {
            if i > 0 {
                assert(rest[i - 1] == s[i]);
            }
        }
    }
}

/// The document at the end of a path of object members.
pub open spec fn field_path(j: Json, path: Seq<Seq<char>>) -> Option<Json>
    decreases path.len(),
{
    if path.len() == 0 {
        Some(j)
    } else {
        match json_field(j, path[0]) {
            Some(next) => field_path(next, path.drop_first()),
            None => None,
        }
    }
}

/// The text of a scalar document; strings stand for themselves.
pub open spec fn scalar_text(j: Json) -> Option<Seq<char>> {
    match j {
        Json::Text(t) => Some(t),
        Json::Number(n) => Some(number_text(n)),
        Json::Bool(b) => Some(
            if b {
                "true"@
            } else {
                "false"@
            },
        ),
        _ => None,
    }
}

/// The scalar that a dotted path names in an input.
pub open spec fn scalar_at(input: Json, path: Seq<char>) -> Option<Seq<char>> {
    match field_path(input, split_on(path, '.')) {
        Some(j) => scalar_text(j),
        None => None,
    }
}

/// A template with every placeholder filled in, or nothing when one of them
/// names no scalar. A `{` without a later `}` stands for itself.
pub open spec fn fill_template(t: Seq<char>, input: Json) -> Option<Seq<char>>
    decreases t.len(),
{
    let start = first_position(t, '{') as int;
    let len = first_position(t.skip(start), '}') as int;
    if start >= t.len() || start + len >= t.len() {
        Some(t)
    } else {
        match scalar_at(input, t.subrange(start + 1, start + len)) {
            None => None,
            Some(scalar) => match fill_template(t.skip(start + len + 1), input) {
                None => None,
                Some(rest) => Some(t.take(start) + scalar + rest),
            },
        }
    }
}

/// The resource that a template names for an input.
pub open spec fn resolved_resource(template: Seq<char>, input: Json) -> Seq<char> {
    match fill_template(template, input) {
        Some(r) => r,
        None => template,
    }
}

fn find_char(chars: &Vec<char>, from: usize, c: char) -> (r: usize)
    requires
        from <= chars@.len(),
    ensures
        r == from + first_position(chars@.skip(from as int), c),
        r <= chars@.len(),
{
    let mut i: usize = from;
    while i < chars.len() && chars[i] != c
        invariant
            from <= i <= chars@.len(),
            first_position(chars@.skip(from as int), c) == i - from + first_position(
                chars@.skip(i as int),
                c,
            ),
        decreases chars.len() - i,
    {
        proof {
            let here = chars@.skip(i as int);
            assert(here.drop_first() =~= chars@.skip(i + 1));
            assert(here[0] == chars@[i as int]);
        }
        i = i + 1;
    }
    proof {
        let here = chars@.skip(i as int);
        if i < chars.len() {
            assert(here[0] == chars@[i as int]);
        } else {
            assert(here.len() == 0);
        }
    }
    i
}

fn lookup_scalar(input: &Value, path: &str) -> (r: Option<String>)
    ensures
        match (r, scalar_at(input@, path@)) {
            (Some(t), Some(m)) => t@ == m,
            (None, None) => true,
            _ => false,
        },
{
    let segments = split_text(path, '.');
    let ghost parts = texts_view(segments@);
    let mut current: &Value = input;
    let mut i: usize = 0;
    assert(parts.skip(0) =~= parts);
    while i < segments.len()
        invariant
            i <= segments@.len(),
            parts == texts_view(segments@),
            parts == split_on(path@, '.'),
            field_path(input@, parts) == field_path(current@, parts.skip(i as int)),
        decreases segments.len() - i,
    {
        proof {
            let here = parts.skip(i as int);
            assert(here[0] == segments@[i as int]@);
            assert(here.drop_first() =~= parts.skip(i + 1));
        }
        match current.get(segments[i].as_str()) {
            Some(next) => {
                current = next;
            },
            None => {
                return None;
            },
        }
        i = i + 1;
    }
    assert(parts.skip(i as int) =~= Seq::empty());
    scalar_as_text(current)
}

/// The text of a scalar value; strings stand for themselves.
pub fn scalar_as_text(value: &Value) -> (r: Option<String>)
    ensures
        match (r, scalar_text(value@)) {
            (Some(t), Some(m)) => t@ == m,
            (None, None) => true,
            _ => false,
        },
{
    match value {
        Value::String(text) => Some(text.clone()),
        Value::Number(Number::PosInt(n)) => Some(decimal_text(*n)),
        Value::Number(Number::NegInt(n)) => Some(signed_decimal_text(*n)),
        Value::Number(Number::Float(t)) => Some(t.clone()),
        Value::Bool(flag) => if *flag {
            Some("true".to_owned())
        } else {
            Some("false".to_owned())
        },
        _ => None,
    }
}

/// Resolves `{placeholder}` markers in a resource template against a node input.
///
/// Placeholders name a top-level input field or a dotted path into it
/// (`{path}`, `{user.id}`). They resolve only when the addressed value is a
/// scalar (string, number, or boolean). If any placeholder cannot be resolved
/// (the field is missing, non-scalar, or itself a `$ref` that is only known
/// at runtime) the template is returned unresolved, so every node of that
/// tool shares one conservative resource and serializes instead of racing.
pub fn resolve_resource_template(template: &str, input: &Value) -> (r: String)
    ensures
        r@ == resolved_resource(template@, input@),
{
    let chars = chars_of(template);
    let mut out = String::new();
    let mut at: usize = 0;
    let ghost doc = input@;
    assert(chars@.skip(0) =~= template@);
    proof {
        match fill_template(template@, doc) {
            Some(x) => assert(Seq::<char>::empty() + x =~= x),
            None => {},
        }
    }
    loop
        invariant
            at <= chars@.len(),
            chars@ == template@,
            doc == input@,
            match (fill_template(template@, doc), fill_template(chars@.skip(at as int), doc)) {
                (Some(whole), Some(rest)) => whole == out@ + rest,
                (None, None) => true,
                _ => false,
            },
        decreases chars@.len() - at,
    {
        let ghost rest = chars@.skip(at as int);
        let start = find_char(&chars, at, '{');
        if start >= chars.len() {
            let tail = text_of(&chars, at, chars.len());
            out.push_str(tail.as_str());
            assert(tail@ =~= rest);
            return out;
        }
        let end = find_char(&chars, start, '}');
        proof {
            assert(rest.skip(start - at) =~= chars@.skip(start as int));
        }
        if end >= chars.len() {
            let tail = text_of(&chars, at, chars.len());
            out.push_str(tail.as_str());
            assert(tail@ =~= rest);
            return out;
        }
        proof {
            first_position_bounds(rest, '{');
            first_position_bounds(chars@.skip(start as int), '}');
            assert(rest[start - at] == chars@[start as int]);
            assert(chars@.skip(start as int)[0] == '{');
            assert(end > start);
        }
        let placeholder = text_of(&chars, start + 1, end);
        assert(placeholder@ =~= rest.subrange(start - at + 1, end - at));
        match lookup_scalar(input, placeholder.as_str()) {
            None => {
                return template.to_owned();
            },
            Some(scalar) => {
                let ghost before = out@;
                let head = text_of(&chars, at, start);
                out.push_str(head.as_str());
                out.push_str(scalar.as_str());
                proof {
                    assert(head@ =~= rest.take(start - at));
                    assert(rest.skip(end - at + 1) =~= chars@.skip(end + 1));
                    match fill_template(chars@.skip(end + 1), doc) {
                        Some(x) => {
                            assert(before + (rest.take(start - at) + scalar@ + x) =~= out@ + x);
                        },
                        None => {},
                    }
                }
                at = end + 1;
            },
        }
    }
}
} // verus!
