//! Canonical text determines the document.
//!
//! Calls are keyed by the canonical text of their input. These laws say that
//! nothing is lost by that: two documents with the same text are the same
//! document.

use vstd::prelude::*;

use crate::json::{Json, NumberV};

verus! {

use crate::canonical::{
    canonical, canonical_items, canonical_member, canonical_members, escape_char, escape_text,
    hex_digit, json_string, number_text,
};
use crate::text::{decimal, digit};

// ---------------------------------------------------------------------------
// Documents
// ---------------------------------------------------------------------------

/// A character that numbers are written with.
pub open spec fn in_number(c: char) -> bool {
    ('0' <= c && c <= '9') || c == '-' || c == '+' || c == '.' || c == 'e' || c == 'E'
}

/// All characters are those of numbers.
pub open spec fn number_chars(s: Seq<char>) -> bool {
    forall|i: int| 0 <= i < s.len() ==> in_number(#[trigger] s[i])
}

/// The text has a fraction or an exponent.
pub open spec fn has_fraction(s: Seq<char>) -> bool {
    s.contains('.') || s.contains('e') || s.contains('E')
}

/// A number as a parser gives it: negative integers are negative, and only a
/// number with a fraction or an exponent is held as text.
pub open spec fn number_valid(n: NumberV) -> bool {
    match n {
        NumberV::PosInt(_) => true,
        NumberV::NegInt(v) => v < 0,
        NumberV::Float(t) => number_chars(t) && has_fraction(t),
    }
}

/// Every number in the document is one that a parser gives.
pub open spec fn json_valid(j: Json) -> bool
    decreases j,
{
    match j {
        Json::Number(n) => number_valid(n),
        Json::List(items) => forall|i: int|
            #![trigger items[i]]
            0 <= i < items.len() ==> json_valid(items[i]),
        Json::Object(entries) => forall|i: int|
            #![trigger entries[i]]
            0 <= i < entries.len() ==> json_valid(entries[i].1),
        _ => true,
    }
}

// ---------------------------------------------------------------------------
// Numbers
// ---------------------------------------------------------------------------

proof fn lemma_digit(a: nat, b: nat)
    requires
        a < 10,
        b < 10,
    ensures
        '0' <= digit(a) && digit(a) <= '9',
        digit(a) == digit(b) ==> a == b,
{
}

proof fn lemma_decimal_chars(n: nat)
    ensures
        decimal(n).len() > 0,
        forall|i: int|
            0 <= i < decimal(n).len() ==> '0' <= (#[trigger] decimal(n)[i]) && decimal(n)[i] <= '9',
    decreases n,
{
    if n >= 10 {
        lemma_decimal_chars(n / 10);
        lemma_digit(n % 10, 0);
    } else {
        lemma_digit(n, 0);
    }
}

/// Two numbers with the same decimal notation are the same.
pub proof fn decimal_injective(a: nat, b: nat)
    requires
        decimal(a) == decimal(b),
    ensures
        a == b,
    decreases a,
{
    let x = decimal(a);
    let y = decimal(b);
    lemma_decimal_chars(a / 10);
    lemma_decimal_chars(b / 10);
    if a >= 10 && b >= 10 {
        assert(x.drop_last() =~= decimal(a / 10));
        assert(y.drop_last() =~= decimal(b / 10));
        assert(x.last() == digit(a % 10));
        assert(y.last() == digit(b % 10));
        decimal_injective(a / 10, b / 10);
        lemma_digit(a % 10, b % 10);
    } else if a < 10 && b < 10 {
        assert(x[0] == digit(a));
        assert(y[0] == digit(b));
        lemma_digit(a, b);
    } else {
        assert(x.len() == y.len());
    }
}

proof fn lemma_number_text(n: NumberV)
    requires
        number_valid(n),
    ensures
        number_text(n).len() > 0,
        number_chars(number_text(n)),
        (n is Float) == has_fraction(number_text(n)),
        (n is NegInt) ==> number_text(n)[0] == '-',
        (n is PosInt) ==> number_text(n)[0] != '-',
{
    match n {
        NumberV::PosInt(v) => {
            lemma_decimal_chars(v as nat);
        },
        NumberV::NegInt(v) => {
            lemma_decimal_chars((-(v as int)) as nat);
        },
        NumberV::Float(t) => {},
    }
}

proof fn lemma_numbers_differ(a: NumberV, b: NumberV)
    requires
        number_valid(a),
        number_valid(b),
        number_text(a) == number_text(b),
    ensures
        a == b,
{
    lemma_number_text(a);
    lemma_number_text(b);
    match (a, b) {
        (NumberV::PosInt(x), NumberV::PosInt(y)) => {
            decimal_injective(x as nat, y as nat);
        },
        (NumberV::NegInt(x), NumberV::NegInt(y)) => {
            let p = decimal((-(x as int)) as nat);
            let q = decimal((-(y as int)) as nat);
            assert(number_text(a).skip(1) =~= p);
            assert(number_text(b).skip(1) =~= q);
            decimal_injective((-(x as int)) as nat, (-(y as int)) as nat);
        },
        _ => {},
    }
}

/// Nothing follows, or what follows is not part of a number.
spec fn ends_number(x: Seq<char>) -> bool {
    x.len() == 0 || !in_number(x[0])
}

proof fn lemma_number_run(a: Seq<char>, x: Seq<char>, b: Seq<char>, y: Seq<char>)
    requires
        number_chars(a),
        number_chars(b),
        ends_number(x),
        ends_number(y),
        a + x == b + y,
    ensures
        a == b,
        x == y,
{
    let s = a + x;
    if a.len() < b.len() {
        assert(s[a.len() as int] == b[a.len() as int]);
        assert(x.len() > 0);
        assert(s[a.len() as int] == x[0]);
    }
    if b.len() < a.len() {
        assert((b + y)[b.len() as int] == a[b.len() as int]);
        assert(y.len() > 0);
        assert((b + y)[b.len() as int] == y[0]);
    }
    lemma_cut(a, x, b, y);
}

proof fn lemma_cut(a: Seq<char>, x: Seq<char>, b: Seq<char>, y: Seq<char>)
    requires
        a + x == b + y,
        a.len() == b.len(),
    ensures
        a == b,
        x == y,
{
    assert(a =~= (a + x).take(a.len() as int));
    assert(b =~= (b + y).take(b.len() as int));
    assert(x =~= (a + x).skip(a.len() as int));
    assert(y =~= (b + y).skip(b.len() as int));
}

// ---------------------------------------------------------------------------
// Strings
// ---------------------------------------------------------------------------

proof fn lemma_escape_front(s: Seq<char>)
    requires
        s.len() > 0,
    ensures
        escape_text(s) == escape_char(s[0]) + escape_text(s.skip(1)),
    decreases s.len(),
{
    let rest = s.skip(1);
    if s.len() == 1 {
        assert(s.drop_last() =~= Seq::empty());
        assert(rest =~= Seq::empty());
        assert(escape_text(s) =~= escape_char(s[0]) + escape_text(rest));
    } else {
        let front = s.drop_last();
        lemma_escape_front(front);
        assert(front.skip(1) =~= rest.drop_last());
        assert(front[0] == s[0]);
        assert(rest.last() == s.last());
        assert(escape_text(s) =~= escape_char(s[0]) + (escape_text(rest.drop_last()) + escape_char(
            s.last(),
        )));
    }
}

proof fn lemma_hex(a: int, b: int)
    requires
        0 <= a < 16,
        0 <= b < 16,
        hex_digit(a) == hex_digit(b),
    ensures
        a == b,
{
}

proof fn lemma_escape_char(c: char, x: Seq<char>, d: char, y: Seq<char>)
    requires
        escape_char(c) + x == escape_char(d) + y,
    ensures
        c == d,
        x == y,
{
    let a = escape_char(c);
    let b = escape_char(d);
    let s = a + x;
    let t = b + y;
    assert(s[0] == a[0]);
    assert(t[0] == b[0]);
    if a.len() > 1 {
        assert(s[1] == a[1]);
    }
    if b.len() > 1 {
        assert(t[1] == b[1]);
    }
    if a.len() == 6 && b.len() == 6 {
        assert(s[4] == a[4]);
        assert(t[4] == b[4]);
        assert(s[5] == a[5]);
        assert(t[5] == b[5]);
        lemma_hex((c as int) / 16, (d as int) / 16);
        lemma_hex((c as int) % 16, (d as int) % 16);
        assert(c as int == d as int);
    }
    assert(a.len() == b.len());
    lemma_cut(a, x, b, y);
}

proof fn lemma_escape_text(s: Seq<char>, x: Seq<char>, t: Seq<char>, y: Seq<char>)
    requires
        escape_text(s) + seq!['"'] + x == escape_text(t) + seq!['"'] + y,
    ensures
        s == t,
        x == y,
    decreases s.len(),
{
    let q = seq!['"'];
    if s.len() == 0 && t.len() == 0 {
        assert(s =~= t);
        lemma_cut(escape_text(s) + q, x, escape_text(t) + q, y);
    } else if s.len() == 0 {
        lemma_escape_front(t);
        assert((escape_text(s) + q + x)[0] == '"');
        assert((escape_text(t) + q + y)[0] == escape_char(t[0])[0]);
    } else if t.len() == 0 {
        lemma_escape_front(s);
        assert((escape_text(t) + q + y)[0] == '"');
        assert((escape_text(s) + q + x)[0] == escape_char(s[0])[0]);
    } else {
        lemma_escape_front(s);
        lemma_escape_front(t);
        let u = escape_text(s.skip(1)) + q + x;
        let v = escape_text(t.skip(1)) + q + y;
        assert(escape_text(s) + q + x =~= escape_char(s[0]) + u);
        assert(escape_text(t) + q + y =~= escape_char(t[0]) + v);
        lemma_escape_char(s[0], u, t[0], v);
        lemma_escape_text(s.skip(1), x, t.skip(1), y);
        assert(s =~= seq![s[0]] + s.skip(1));
        assert(t =~= seq![t[0]] + t.skip(1));
    }
}

proof fn lemma_string(s: Seq<char>, x: Seq<char>, t: Seq<char>, y: Seq<char>)
    requires
        json_string(s) + x == json_string(t) + y,
    ensures
        s == t,
        x == y,
{
    let q = seq!['"'];
    let u = escape_text(s) + q + x;
    let v = escape_text(t) + q + y;
    assert(json_string(s) + x =~= q + u);
    assert(json_string(t) + y =~= q + v);
    lemma_cut(q, u, q, v);
    lemma_escape_text(s, x, t, y);
}

// ---------------------------------------------------------------------------
// Lists and objects
// ---------------------------------------------------------------------------

/// The text of a list from element `i` on, with the comma before it.
spec fn items_from(items: Seq<Json>, i: int) -> Seq<char>
    decreases items.len() - i,
{
    if 0 <= i < items.len() {
        seq![','] + canonical(items[i]) + items_from(items, i + 1)
    } else {
        seq![']']
    }
}

proof fn lemma_items_from(items: Seq<Json>, i: int)
    requires
        1 <= i <= items.len(),
    ensures
        canonical_items(items) + seq![']'] == canonical_items(items.subrange(0, i)) + items_from(
            items,
            i,
        ),
    decreases items.len() - i,
{
    if i == items.len() {
        assert(items.subrange(0, i) =~= items);
    } else {
        lemma_items_from(items, i + 1);
        let next = items.subrange(0, i + 1);
        assert(next.subrange(0, i) =~= items.subrange(0, i));
        assert(next[next.len() - 1] == items[i]);
        assert(canonical_items(next) == canonical_items(items.subrange(0, i)) + seq![','] + canonical(
            items[i],
        ));
        assert(canonical_items(next) + items_from(items, i + 1) =~= canonical_items(
            items.subrange(0, i),
        ) + items_from(items, i));
    }
}

proof fn lemma_list_text(items: Seq<Json>)
    ensures
        items.len() == 0 ==> canonical(Json::List(items)) == seq!['[', ']'],
        items.len() > 0 ==> canonical(Json::List(items)) == seq!['['] + canonical(items[0])
            + items_from(items, 1),
{
    if items.len() == 0 {
        assert(canonical(Json::List(items)) =~= seq!['[', ']']);
    } else {
        lemma_items_from(items, 1);
        let one = items.subrange(0, 1);
        assert(one[0] == items[0]);
        assert(canonical_items(one) == canonical(items[0]));
        assert(canonical(Json::List(items)) =~= seq!['['] + (canonical_items(items) + seq![']']));
        assert(canonical(Json::List(items)) =~= seq!['['] + canonical(items[0]) + items_from(
            items,
            1,
        ));
    }
}

/// The text of an object from member `i` on, with the comma before it.
spec fn members_from(entries: Seq<(Seq<char>, Json)>, i: int) -> Seq<char>
    decreases entries.len() - i,
{
    if 0 <= i < entries.len() {
        seq![','] + canonical_member(entries[i]) + members_from(entries, i + 1)
    } else {
        seq!['}']
    }
}

proof fn lemma_members_from(entries: Seq<(Seq<char>, Json)>, i: int)
    requires
        1 <= i <= entries.len(),
    ensures
        canonical_members(entries) + seq!['}'] == canonical_members(entries.subrange(0, i))
            + members_from(entries, i),
    decreases entries.len() - i,
{
    if i == entries.len() {
        assert(entries.subrange(0, i) =~= entries);
    } else {
        lemma_members_from(entries, i + 1);
        let next = entries.subrange(0, i + 1);
        assert(next.subrange(0, i) =~= entries.subrange(0, i));
        assert(next[next.len() - 1] == entries[i]);
        assert(canonical_members(next) == canonical_members(entries.subrange(0, i)) + seq![',']
            + canonical_member(entries[i]));
        assert(canonical_members(next) + members_from(entries, i + 1) =~= canonical_members(
            entries.subrange(0, i),
        ) + members_from(entries, i));
    }
}

proof fn lemma_object_text(entries: Seq<(Seq<char>, Json)>)
    ensures
        entries.len() == 0 ==> canonical(Json::Object(entries)) == seq!['{', '}'],
        entries.len() > 0 ==> canonical(Json::Object(entries)) == seq!['{'] + canonical_member(
            entries[0],
        ) + members_from(entries, 1),
{
    if entries.len() == 0 {
        assert(canonical(Json::Object(entries)) =~= seq!['{', '}']);
    } else {
        lemma_members_from(entries, 1);
        let one = entries.subrange(0, 1);
        assert(one[0] == entries[0]);
        assert(canonical_members(one) == canonical_member(entries[0]));
        assert(canonical(Json::Object(entries)) =~= seq!['{'] + (canonical_members(entries)
            + seq!['}']));
        assert(canonical(Json::Object(entries)) =~= seq!['{'] + canonical_member(entries[0])
            + members_from(entries, 1));
    }
}

/// What a text starts with, by the kind of the document.
spec fn opening(j: Json, c: char) -> bool {
    match j {
        Json::Null => c == 'n',
        Json::Bool(b) => if b {
            c == 't'
        } else {
            c == 'f'
        },
        Json::Number(_) => in_number(c),
        Json::Text(_) => c == '"',
        Json::List(_) => c == '[',
        Json::Object(_) => c == '{',
    }
}

proof fn lemma_opening(j: Json)
    requires
        json_valid(j),
    ensures
        canonical(j).len() > 0,
        opening(j, canonical(j)[0]),
        !(j is Null) ==> canonical(j)[0] != 'n',
        !(j is Bool) ==> canonical(j)[0] != 't' && canonical(j)[0] != 'f',
        !(j is Text) ==> canonical(j)[0] != '"',
        !(j is List) ==> canonical(j)[0] != '[',
        !(j is Object) ==> canonical(j)[0] != '{',
        !(j is Number) ==> !in_number(canonical(j)[0]),
        canonical(j)[0] != ']' && canonical(j)[0] != '}',
{
    reveal_strlit("null");
    reveal_strlit("true");
    reveal_strlit("false");
    match j {
        Json::Number(n) => {
            lemma_number_text(n);
        },
        Json::Text(t) => {
            assert(json_string(t)[0] == '"');
        },
        _ => {},
    }
}

proof fn lemma_ends(items: Seq<Json>, i: int, x: Seq<char>)
    ensures
        ends_number(items_from(items, i) + x),
        (items_from(items, i) + x).len() > 0,
        (0 <= i < items.len()) ==> (items_from(items, i) + x)[0] == ',',
        !(0 <= i < items.len()) ==> (items_from(items, i) + x)[0] == ']',
{
}

proof fn lemma_member_ends(entries: Seq<(Seq<char>, Json)>, i: int, x: Seq<char>)
    ensures
        ends_number(members_from(entries, i) + x),
        (members_from(entries, i) + x).len() > 0,
        (0 <= i < entries.len()) ==> (members_from(entries, i) + x)[0] == ',',
        !(0 <= i < entries.len()) ==> (members_from(entries, i) + x)[0] == '}',
{
}

proof fn lemma_prefix(a: Json, x: Seq<char>, b: Json, y: Seq<char>)
    requires
        json_valid(a),
        json_valid(b),
        ends_number(x),
        ends_number(y),
        canonical(a) + x == canonical(b) + y,
    ensures
        a == b,
        x == y,
    decreases a, 0int,
{
    lemma_opening(a);
    lemma_opening(b);
    assert((canonical(a) + x)[0] == canonical(a)[0]);
    assert((canonical(b) + y)[0] == canonical(b)[0]);
    reveal_strlit("null");
    reveal_strlit("true");
    reveal_strlit("false");
    match (a, b) {
        (Json::Null, Json::Null) => {
            lemma_cut(canonical(a), x, canonical(b), y);
        },
        (Json::Bool(p), Json::Bool(q)) => {
            lemma_cut(canonical(a), x, canonical(b), y);
        },
        (Json::Number(m), Json::Number(n)) => {
            lemma_number_text(m);
            lemma_number_text(n);
            lemma_number_run(number_text(m), x, number_text(n), y);
            lemma_numbers_differ(m, n);
        },
        (Json::Text(s), Json::Text(t)) => {
            lemma_string(s, x, t, y);
        },
        (Json::List(p), Json::List(q)) => {
            lemma_list_text(p);
            lemma_list_text(q);
            let o = seq!['['];
            if p.len() > 0 && q.len() > 0 {
                let u = canonical(p[0]) + (items_from(p, 1) + x);
                let v = canonical(q[0]) + (items_from(q, 1) + y);
                assert(canonical(a) + x =~= o + u);
                assert(canonical(b) + y =~= o + v);
                lemma_cut(o, u, o, v);
                lemma_ends(p, 1, x);
                lemma_ends(q, 1, y);
                lemma_prefix(p[0], items_from(p, 1) + x, q[0], items_from(q, 1) + y);
                lemma_items_prefix(p, x, q, y, 1);
                assert(p =~= q);
            } else if p.len() == 0 && q.len() == 0 {
                assert(p =~= q);
                lemma_cut(canonical(a), x, canonical(b), y);
            } else if p.len() == 0 {
                lemma_opening(q[0]);
                assert((canonical(a) + x)[1] == ']');
                assert((canonical(b) + y)[1] == canonical(q[0])[0]);
            } else {
                lemma_opening(p[0]);
                assert((canonical(b) + y)[1] == ']');
                assert((canonical(a) + x)[1] == canonical(p[0])[0]);
            }
        },
        (Json::Object(p), Json::Object(q)) => {
            lemma_object_text(p);
            lemma_object_text(q);
            let o = seq!['{'];
            if p.len() > 0 && q.len() > 0 {
                let u = canonical_member(p[0]) + (members_from(p, 1) + x);
                let v = canonical_member(q[0]) + (members_from(q, 1) + y);
                assert(canonical(a) + x =~= o + u);
                assert(canonical(b) + y =~= o + v);
                lemma_cut(o, u, o, v);
                lemma_member_ends(p, 1, x);
                lemma_member_ends(q, 1, y);
                lemma_member_prefix(p[0], members_from(p, 1) + x, q[0], members_from(q, 1) + y);
                lemma_members_prefix(p, x, q, y, 1);
                assert(p =~= q);
            } else if p.len() == 0 && q.len() == 0 {
                assert(p =~= q);
                lemma_cut(canonical(a), x, canonical(b), y);
            } else if p.len() == 0 {
                assert((canonical(a) + x)[1] == '}');
                assert((canonical(b) + y)[1] == canonical_member(q[0])[0]);
                assert(canonical_member(q[0])[0] == '"');
            } else {
                assert((canonical(b) + y)[1] == '}');
                assert((canonical(a) + x)[1] == canonical_member(p[0])[0]);
                assert(canonical_member(p[0])[0] == '"');
            }
        },
        _ => {},
    }
}

proof fn lemma_items_prefix(p: Seq<Json>, x: Seq<char>, q: Seq<Json>, y: Seq<char>, i: int)
    requires
        1 <= i <= p.len(),
        i <= q.len(),
        forall|k: int| 0 <= k < p.len() ==> json_valid(#[trigger] p[k]),
        forall|k: int| 0 <= k < q.len() ==> json_valid(#[trigger] q[k]),
        items_from(p, i) + x == items_from(q, i) + y,
        ends_number(x),
        ends_number(y),
    ensures
        p.len() == q.len(),
        forall|k: int| i <= k < p.len() ==> (#[trigger] p[k]) == q[k],
        x == y,
    decreases p, p.len() - i,
{
    lemma_ends(p, i, x);
    lemma_ends(q, i, y);
    if i < p.len() && i < q.len() {
        let c = seq![','];
        let u = canonical(p[i]) + (items_from(p, i + 1) + x);
        let v = canonical(q[i]) + (items_from(q, i + 1) + y);
        assert(items_from(p, i) + x =~= c + u);
        assert(items_from(q, i) + y =~= c + v);
        lemma_cut(c, u, c, v);
        lemma_ends(p, i + 1, x);
        lemma_ends(q, i + 1, y);
        lemma_prefix(p[i], items_from(p, i + 1) + x, q[i], items_from(q, i + 1) + y);
        lemma_items_prefix(p, x, q, y, i + 1);
    } else if i == p.len() && i == q.len() {
        lemma_cut(items_from(p, i), x, items_from(q, i), y);
    }
}

proof fn lemma_member_prefix(
    a: (Seq<char>, Json),
    x: Seq<char>,
    b: (Seq<char>, Json),
    y: Seq<char>,
)
    requires
        json_valid(a.1),
        json_valid(b.1),
        ends_number(x),
        ends_number(y),
        canonical_member(a) + x == canonical_member(b) + y,
    ensures
        a == b,
        x == y,
    decreases a, 1int,
{
    let c = seq![':'];
    let u = c + (canonical(a.1) + x);
    let v = c + (canonical(b.1) + y);
    assert(canonical_member(a) + x =~= json_string(a.0) + u);
    assert(canonical_member(b) + y =~= json_string(b.0) + v);
    lemma_string(a.0, u, b.0, v);
    lemma_cut(c, canonical(a.1) + x, c, canonical(b.1) + y);
    lemma_prefix(a.1, x, b.1, y);
}

proof fn lemma_members_prefix(
    p: Seq<(Seq<char>, Json)>,
    x: Seq<char>,
    q: Seq<(Seq<char>, Json)>,
    y: Seq<char>,
    i: int,
)
    requires
        1 <= i <= p.len(),
        i <= q.len(),
        forall|k: int| 0 <= k < p.len() ==> json_valid((#[trigger] p[k]).1),
        forall|k: int| 0 <= k < q.len() ==> json_valid((#[trigger] q[k]).1),
        members_from(p, i) + x == members_from(q, i) + y,
        ends_number(x),
        ends_number(y),
    ensures
        p.len() == q.len(),
        forall|k: int| i <= k < p.len() ==> (#[trigger] p[k]) == q[k],
        x == y,
    decreases p, p.len() - i,
{
    lemma_member_ends(p, i, x);
    lemma_member_ends(q, i, y);
    if i < p.len() && i < q.len() {
        let c = seq![','];
        let u = canonical_member(p[i]) + (members_from(p, i + 1) + x);
        let v = canonical_member(q[i]) + (members_from(q, i + 1) + y);
        assert(members_from(p, i) + x =~= c + u);
        assert(members_from(q, i) + y =~= c + v);
        lemma_cut(c, u, c, v);
        lemma_member_ends(p, i + 1, x);
        lemma_member_ends(q, i + 1, y);
        lemma_member_prefix(p[i], members_from(p, i + 1) + x, q[i], members_from(q, i + 1) + y);
        lemma_members_prefix(p, x, q, y, i + 1);
    } else if i == p.len() && i == q.len() {
        lemma_cut(members_from(p, i), x, members_from(q, i), y);
    }
}

/// Two documents with the same canonical text are the same document.
pub proof fn canonical_injective(a: Json, b: Json)
    requires
        json_valid(a),
        json_valid(b),
        canonical(a) == canonical(b),
    ensures
        a == b,
{
    let none: Seq<char> = Seq::empty();
    assert(canonical(a) + none =~= canonical(a));
    assert(canonical(b) + none =~= canonical(b));
    lemma_prefix(a, none, b, none);
}

} // verus!
