//! Canonical JSON text for stable keys.

use vstd::prelude::*;

use crate::json::{Json, Number, NumberV, Value};
use crate::text::{chars_of, push_decimal, signed_decimal_text};

verus! {

use crate::json::{array_smaller, entries_view, object_smaller, values_view};
use crate::text::{decimal, signed_decimal};

broadcast use {crate::json::group_json_views, crate::ordered::pairs_decrease};

/// The hexadecimal digit `d`.
pub open spec fn hex_digit(d: int) -> char {
    if d == 10 {
        'a'
    } else if d == 11 {
        'b'
    } else if d == 12 {
        'c'
    } else if d == 13 {
        'd'
    } else if d == 14 {
        'e'
    } else if d == 15 {
        'f'
    } else {
        crate::text::digit(d as nat)
    }
}

/// How a character is written inside a JSON string.
pub open spec fn escape_char(c: char) -> Seq<char> {
    if c == '"' {
        seq!['\\', '"']
    } else if c == '\\' {
        seq!['\\', '\\']
    } else if c == '\u{8}' {
        seq!['\\', 'b']
    } else if c == '\u{c}' {
        seq!['\\', 'f']
    } else if c == '\n' {
        seq!['\\', 'n']
    } else if c == '\r' {
        seq!['\\', 'r']
    } else if c == '\t' {
        seq!['\\', 't']
    } else if (c as int) < 0x20 {
        seq!['\\', 'u', '0', '0', hex_digit((c as int) / 16), hex_digit((c as int) % 16)]
    } else {
        seq![c]
    }
}

/// How a text is written inside a JSON string.
pub open spec fn escape_text(s: Seq<char>) -> Seq<char>
    decreases s.len(),
{
    if s.len() == 0 {
        Seq::empty()
    } else {
        escape_text(s.drop_last()) + escape_char(s.last())
    }
}

/// A text as a JSON string.
pub open spec fn json_string(s: Seq<char>) -> Seq<char> {
    seq!['"'] + escape_text(s) + seq!['"']
}

/// A number as JSON text.
pub open spec fn number_text(n: NumberV) -> Seq<char> {
    match n {
        NumberV::PosInt(v) => decimal(v as nat),
        NumberV::NegInt(v) => signed_decimal(v as int),
        NumberV::Float(t) => t,
    }
}

/// The canonical text of a document: no spaces, object members in the order
/// of their keys.
pub open spec fn canonical(j: Json) -> Seq<char>
    decreases j,
{
    match j {
        Json::Null => "null"@,
        Json::Bool(b) => if b {
            "true"@
        } else {
            "false"@
        },
        Json::Number(n) => number_text(n),
        Json::Text(t) => json_string(t),
        Json::List(items) => seq!['['] + canonical_items(items) + seq![']'],
        Json::Object(entries) => seq!['{'] + canonical_members(entries) + seq!['}'],
    }
}

/// The texts of the elements of a list, with commas between them.
pub open spec fn canonical_items(items: Seq<Json>) -> Seq<char>
    decreases items,
{
    if items.len() == 0 {
        Seq::empty()
    } else {
        let last = canonical(items[items.len() - 1]);
        if items.len() == 1 {
            last
        } else {
            canonical_items(items.subrange(0, items.len() - 1)) + seq![','] + last
        }
    }
}

/// The text of a member of an object.
pub open spec fn canonical_member(entry: (Seq<char>, Json)) -> Seq<char>
    decreases entry,
{
    json_string(entry.0) + seq![':'] + canonical(entry.1)
}

/// The texts of the members of an object, with commas between them.
pub open spec fn canonical_members(entries: Seq<(Seq<char>, Json)>) -> Seq<char>
    decreases entries,
{
    if entries.len() == 0 {
        Seq::empty()
    } else {
        let last = canonical_member(entries[entries.len() - 1]);
        if entries.len() == 1 {
            last
        } else {
            canonical_members(entries.subrange(0, entries.len() - 1)) + seq![','] + last
        }
    }
}

fn code_point(c: char) -> (r: u32)
    ensures
        r as int == c as int,
{
    c as u32
}

fn hex_char(d: u32) -> (r: char)
    requires
        d < 16,
    ensures
        r == hex_digit(d as int),
{
    if d == 10 {
        'a'
    } else if d == 11 {
        'b'
    } else if d == 12 {
        'c'
    } else if d == 13 {
        'd'
    } else if d == 14 {
        'e'
    } else if d == 15 {
        'f'
    } else {
        crate::text::digit_char(d as u64)
    }
}

/// Writes `text` as a JSON string literal.
pub fn write_json_string(text: &str, out: &mut String)
    ensures
        final(out)@ == old(out)@ + json_string(text@),
{
    let ghost before = out@;
    out.push('"');
    let chars = chars_of(text);
    let mut i: usize = 0;
    assert(chars@.take(0) =~= Seq::empty());
    assert(out@ =~= before + seq!['"'] + escape_text(chars@.take(0)));
    while i < chars.len()
        invariant
            i <= chars@.len(),
            out@ == before + seq!['"'] + escape_text(chars@.take(i as int)),
        decreases chars.len() - i,
    {
        let c: char = chars[i];
        let code: u32 = code_point(c);
        let ghost start = out@;
        if c == '"' {
            out.push('\\');
            out.push('"');
        } else if c == '\\' {
            out.push('\\');
            out.push('\\');
        } else if c == '\u{8}' {
            out.push('\\');
            out.push('b');
        } else if c == '\u{c}' {
            out.push('\\');
            out.push('f');
        } else if c == '\n' {
            out.push('\\');
            out.push('n');
        } else if c == '\r' {
            out.push('\\');
            out.push('r');
        } else if c == '\t' {
            out.push('\\');
            out.push('t');
        } else if code < 0x20 {
            out.push('\\');
            out.push('u');
            out.push('0');
            out.push('0');
            out.push(hex_char(code / 16));
            out.push(hex_char(code % 16));
        } else {
            out.push(c);
        }
        proof {
            assert(out@ =~= start + escape_char(c));
            let next = chars@.take(i + 1);
            assert(next.drop_last() =~= chars@.take(i as int));
            assert(next.last() == c);
            assert(out@ =~= before + seq!['"'] + escape_text(next));
        }
        i = i + 1;
    }
    out.push('"');
    proof {
        assert(chars@.take(i as int) =~= text@);
        assert(out@ =~= before + json_string(text@));
    }
}

fn write_canonical(value: &Value, out: &mut String)
    ensures
        final(out)@ == old(out)@ + canonical(value@),
    decreases value,
{
    let ghost before = out@;
    match value {
        Value::Object(map) => {
            let ghost entries = entries_view(*map);
            out.push('{');
            let mut i: usize = 0;
            assert(out@ =~= before + seq!['{'] + canonical_members(entries.subrange(0, 0)));
            while i < map.len()
                invariant
                    i <= map.pairs().len(),
                    *value == Value::Object(*map),
                    entries == entries_view(*map),
                    out@ == before + seq!['{'] + canonical_members(entries.subrange(0, i as int)),
                decreases map.pairs().len() - i,
            {
                proof {
                    object_smaller(*value, i as int);
                    assert(entries.subrange(0, i + 1).subrange(0, i as int) =~= entries.subrange(
                        0,
                        i as int,
                    ));
                }
                if i > 0 {
                    out.push(',');
                }
                write_json_string(map.key_at(i), out);
                out.push(':');
                write_canonical(map.value_at(i), out);
                proof {
                    assert(canonical_member(entries[i as int]) == json_string(entries[i as int].0)
                        + seq![':'] + canonical(entries[i as int].1));
                    assert(out@ =~= before + seq!['{'] + canonical_members(
                        entries.subrange(0, i + 1),
                    ));
                }
                i = i + 1;
            }
            out.push('}');
            proof {
                assert(entries.subrange(0, i as int) =~= entries);
                assert(out@ =~= before + canonical(value@));
            }
        },
        Value::Array(items) => {
            let ghost docs = values_view(items@);
            out.push('[');
            let mut i: usize = 0;
            assert(out@ =~= before + seq!['['] + canonical_items(docs.subrange(0, 0)));
            while i < items.len()
                invariant
                    i <= items@.len(),
                    *value == Value::Array(*items),
                    docs == values_view(items@),
                    out@ == before + seq!['['] + canonical_items(docs.subrange(0, i as int)),
                decreases items@.len() - i,
            {
                proof {
                    array_smaller(*value, i as int);
                    assert(docs.subrange(0, i + 1).subrange(0, i as int) =~= docs.subrange(
                        0,
                        i as int,
                    ));
                }
                if i > 0 {
                    out.push(',');
                }
                write_canonical(&items[i], out);
                proof {
                    assert(out@ =~= before + seq!['['] + canonical_items(docs.subrange(0, i + 1)));
                }
                i = i + 1;
            }
            out.push(']');
            proof {
                assert(docs.subrange(0, i as int) =~= docs);
                assert(out@ =~= before + canonical(value@));
            }
        },
        Value::String(text) => write_json_string(text.as_str(), out),
        Value::Null => out.push_str("null"),
        Value::Bool(b) => if *b {
            out.push_str("true")
        } else {
            out.push_str("false")
        },
        Value::Number(Number::PosInt(n)) => push_decimal(out, *n),
        Value::Number(Number::NegInt(n)) => {
            let text = signed_decimal_text(*n);
            out.push_str(text.as_str())
        },
        Value::Number(Number::Float(t)) => out.push_str(t.as_str()),
    }
}

/// The canonical text of `value`: object members appear in the order of their
/// keys, at every level.
pub fn canonical_json_string(value: &Value) -> (r: String)
    ensures
        r@ == canonical(value@),
{
    let mut out = String::new();
    write_canonical(value, &mut out);
    assert(out@ =~= canonical(value@));
    out
}

} // verus!
