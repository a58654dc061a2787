//! Lookups, copies and equality of JSON values.

use vstd::prelude::*;

use crate::json::{Json, Number, NumberV, Value};
use crate::ordered::StrMap;

verus! {

use crate::json::{array_smaller, entries_view, object_smaller, values_view};
use crate::ordered::{lookup, sorted_pairs, sorted_position};

broadcast use {crate::json::group_json_views, crate::ordered::pairs_decrease};

/// The member `key` of an object.
pub open spec fn json_field(j: Json, key: Seq<char>) -> Option<Json> {
    match j {
        Json::Object(e) => lookup(e, key),
        _ => None,
    }
}

/// The element `i` of a list.
pub open spec fn json_item(j: Json, i: int) -> Option<Json> {
    match j {
        Json::List(s) => if 0 <= i < s.len() {
            Some(s[i])
        } else {
            None
        },
        _ => None,
    }
}

/// Looking up a key gives the document of the value stored under it.
pub proof fn entries_lookup(m: StrMap<Value>, key: Seq<char>)
    requires
        sorted_pairs(m.pairs()),
    ensures
        sorted_pairs(entries_view(m)),
        lookup(entries_view(m), key) is Some <==> lookup(m.pairs(), key) is Some,
        lookup(m.pairs(), key) is Some ==> lookup(entries_view(m), key) == Some(
            lookup(m.pairs(), key)->0@,
        ),
{
    let a = m.pairs();
    let b = entries_view(m);
    assert forall|i: int, j: int| 0 <= i < j < b.len() implies crate::text::lex_less(
        (#[trigger] b[i]).0,
        (#[trigger] b[j]).0,
    ) by {
        assert(a[i].0 == b[i].0 && a[j].0 == b[j].0);
    }
    if crate::ordered::has_key(a, key) {
        let p = crate::ordered::key_position(a, key);
        assert(b[p].0 == key);
        sorted_position(a, p);
        sorted_position(b, p);
    }
    if crate::ordered::has_key(b, key) {
        let p = crate::ordered::key_position(b, key);
        assert(a[p].0 == key);
    }
}

/// Inserting into an object changes what one key gives and nothing else.
pub proof fn entries_insert(before: StrMap<Value>, after: StrMap<Value>, key: Seq<char>, value: Value)
    requires
        sorted_pairs(before.pairs()),
        sorted_pairs(after.pairs()),
        forall|k: Seq<char>| #[trigger]
            lookup(after.pairs(), k) == if k == key {
                Some(value)
            } else {
                lookup(before.pairs(), k)
            },
    ensures
        sorted_pairs(entries_view(after)),
        forall|k: Seq<char>| #[trigger]
            lookup(entries_view(after), k) == if k == key {
                Some(value@)
            } else {
                lookup(entries_view(before), k)
            },
{
    entries_lookup(after, key);
    assert forall|k: Seq<char>| #[trigger] lookup(entries_view(after), k) == if k == key {
        Some(value@)
    } else {
        lookup(entries_view(before), k)
    } by {
        entries_lookup(after, k);
        entries_lookup(before, k);
        assert(lookup(after.pairs(), k) == if k == key {
            Some(value)
        } else {
            lookup(before.pairs(), k)
        });
    }
}

/// Two numbers are equal as JSON numbers: the same integer, or the same number
/// with a fraction, where the two zeros are equal.
pub open spec fn number_same(a: NumberV, b: NumberV) -> bool {
    match (a, b) {
        (NumberV::Float(x), NumberV::Float(y)) => x == y || (is_zero_text(x) && is_zero_text(y)),
        _ => a == b,
    }
}

/// The two ways to write zero with a fraction.
pub open spec fn is_zero_text(t: Seq<char>) -> bool {
    t == seq!['0', '.', '0'] || t == seq!['-', '0', '.', '0']
}

/// Two documents are equal as JSON values.
pub open spec fn json_same(a: Json, b: Json) -> bool
    decreases a,
{
    match (a, b) {
        (Json::Number(x), Json::Number(y)) => number_same(x, y),
        (Json::List(x), Json::List(y)) => {
            &&& x.len() == y.len()
            &&& forall|i: int| 0 <= i < x.len() ==> json_same(#[trigger] x[i], y[i])
        },
        (Json::Object(x), Json::Object(y)) => {
            &&& x.len() == y.len()
            &&& forall|i: int|
                0 <= i < x.len() ==> x[i].0 == y[i].0 && json_same((#[trigger] x[i]).1, y[i].1)
        },
        _ => a == b,
    }
}

/// Equality is reflexive.
pub proof fn json_same_reflexive(a: Json)
    ensures
        json_same(a, a),
    decreases a,
{
    match a {
        Json::List(x) => {
            assert forall|i: int| 0 <= i < x.len() implies json_same(#[trigger] x[i], x[i]) by {
                json_same_reflexive(x[i]);
            }
        },
        Json::Object(x) => {
            assert forall|i: int| 0 <= i < x.len() implies json_same((#[trigger] x[i]).1, x[i].1) by {
                json_same_reflexive(x[i].1);
            }
        },
        _ => {},
    }
}

/// Equality is symmetric.
pub proof fn json_same_symmetric(a: Json, b: Json)
    requires
        json_same(a, b),
    ensures
        json_same(b, a),
    decreases a,
{
    match (a, b) {
        (Json::List(x), Json::List(y)) => {
            assert forall|i: int| 0 <= i < y.len() implies json_same(#[trigger] y[i], x[i]) by {
                assert(json_same(x[i], y[i]));
                json_same_symmetric(x[i], y[i]);
            }
        },
        (Json::Object(x), Json::Object(y)) => {
            assert forall|i: int| 0 <= i < y.len() implies y[i].0 == x[i].0 && json_same(
                (#[trigger] y[i]).1,
                x[i].1,
            ) by {
                assert(json_same(x[i].1, y[i].1));
                json_same_symmetric(x[i].1, y[i].1);
            }
        },
        _ => {},
    }
}

fn zero_text(t: &String) -> (r: bool)
    ensures
        r == is_zero_text(t@),
{
    proof {
        reveal_strlit("0.0");
        reveal_strlit("-0.0");
        assert("0.0"@ =~= seq!['0', '.', '0']);
        assert("-0.0"@ =~= seq!['-', '0', '.', '0']);
    }
    crate::text::same_text(t.as_str(), "0.0") || crate::text::same_text(t.as_str(), "-0.0")
}

impl Number {
    /// Whether two numbers are equal.
    pub fn same(&self, other: &Number) -> (r: bool)
        ensures
            r == number_same(self@, other@),
    {
        match (self, other) {
            (Number::PosInt(a), Number::PosInt(b)) => *a == *b,
            (Number::NegInt(a), Number::NegInt(b)) => *a == *b,
            (Number::Float(a), Number::Float(b)) => *a == *b || (zero_text(a) && zero_text(b)),
            _ => false,
        }
    }
}

impl Clone for Number {
    fn clone(&self) -> (r: Self)
        ensures
            r@ == self@,
    {
        match self {
            Number::PosInt(n) => Number::PosInt(*n),
            Number::NegInt(n) => Number::NegInt(*n),
            Number::Float(t) => Number::Float(t.clone()),
        }
    }
}

impl Clone for Value {
    fn clone(&self) -> (r: Self)
        ensures
            r@ == self@,
        decreases self,
    {
        match self {
            Value::Null => Value::Null,
            Value::Bool(b) => Value::Bool(*b),
            Value::Number(n) => Value::Number(n.clone()),
            Value::String(t) => Value::String(t.clone()),
            Value::Array(items) => {
                let mut out: Vec<Value> = Vec::new();
                let mut i: usize = 0;
                while i < items.len()
                    invariant
                        i <= items@.len(),
                        *self == Value::Array(*items),
                        out@.len() == i,
                        forall|j: int| 0 <= j < i ==> (#[trigger] out@[j])@ == items@[j]@,
                    decreases items.len() - i,
                {
                    proof {
                        array_smaller(*self, i as int);
                    }
                    let item = items[i].clone();
                    out.push(item);
                    i = i + 1;
                }
                assert(values_view(out@) =~= values_view(items@));
                Value::Array(out)
            },
            Value::Object(map) => {
                let mut out: StrMap<Value> = StrMap::new();
                let mut i: usize = 0;
                map.prove_sorted();
                while i < map.len()
                    invariant
                        i <= map.pairs().len(),
                        sorted_pairs(map.pairs()),
                        *self == Value::Object(*map),
                        out.pairs().len() == i,
                        forall|j: int|
                            0 <= j < i ==> (#[trigger] out.pairs()[j]).0 == map.pairs()[j].0
                                && out.pairs()[j].1@ == map.pairs()[j].1@,
                    decreases map.pairs().len() - i,
                {
                    proof {
                        object_smaller(*self, i as int);
                    }
                    let item = map.value_at(i).clone();
                    let key = map.key_at(i).to_owned();
                    assert forall|j: int| 0 <= j < out.pairs().len() implies crate::text::lex_less(
                        #[trigger] out.pairs()[j].0,
                        key@,
                    ) by {
                        assert(crate::text::lex_less(map.pairs()[j].0, map.pairs()[i as int].0));
                    }
                    out.push(key, item);
                    i = i + 1;
                }
                assert(entries_view(out) =~= entries_view(*map));
                Value::Object(out)
            },
        }
    }
}

impl PartialEq for Value {
    fn eq(&self, other: &Value) -> (r: bool) {
        self.same(other)
    }
}

impl vstd::std_specs::cmp::PartialEqSpecImpl for Value {
    open spec fn obeys_eq_spec() -> bool {
        true
    }

    open spec fn eq_spec(&self, other: &Value) -> bool {
        json_same(self@, other@)
    }
}

impl Value {
    /// Whether two values are equal.
    pub fn same(&self, other: &Value) -> (r: bool)
        ensures
            r == json_same(self@, other@),
        decreases self,
    {
        match (self, other) {
            (Value::Null, Value::Null) => true,
            (Value::Bool(a), Value::Bool(b)) => *a == *b,
            (Value::Number(a), Value::Number(b)) => a.same(b),
            (Value::String(a), Value::String(b)) => *a == *b,
            (Value::Array(a), Value::Array(b)) => {
                let ghost x = values_view(a@);
                let ghost y = values_view(b@);
                if a.len() != b.len() {
                    return false;
                }
                let mut i: usize = 0;
                while i < a.len()
                    invariant
                        i <= a@.len(),
                        a@.len() == b@.len(),
                        *self == Value::Array(*a),
                        *other == Value::Array(*b),
                        x == values_view(a@),
                        y == values_view(b@),
                        forall|j: int| 0 <= j < i ==> json_same(#[trigger] x[j], y[j]),
                    decreases a.len() - i,
                {
                    proof {
                        array_smaller(*self, i as int);
                    }
                    if !a[i].same(&b[i]) {
                        assert(!json_same(x[i as int], y[i as int]));
                        return false;
                    }
                    i = i + 1;
                }
                true
            },
            (Value::Object(a), Value::Object(b)) => {
                let ghost x = entries_view(*a);
                let ghost y = entries_view(*b);
                if a.len() != b.len() {
                    return false;
                }
                let mut i: usize = 0;
                while i < a.len()
                    invariant
                        i <= x.len(),
                        x.len() == y.len(),
                        *self == Value::Object(*a),
                        *other == Value::Object(*b),
                        x == entries_view(*a),
                        y == entries_view(*b),
                        forall|j: int|
                            0 <= j < i ==> x[j].0 == y[j].0 && json_same((#[trigger] x[j]).1, y[j].1),
                    decreases x.len() - i,
                {
                    proof {
                        object_smaller(*self, i as int);
                    }
                    let same_key = crate::text::same_text(a.key_at(i), b.key_at(i));
                    if !same_key || !a.value_at(i).same(b.value_at(i)) {
                        assert(!(x[i as int].0 == y[i as int].0 && json_same(
                            x[i as int].1,
                            y[i as int].1,
                        )));
                        return false;
                    }
                    i = i + 1;
                }
                true
            },
            _ => false,
        }
    }

    /// The member `key`, when this is an object that has it.
    pub fn get(&self, key: &str) -> (r: Option<&Value>)
        ensures
            r is Some <==> json_field(self@, key@) is Some,
            r is Some ==> json_field(self@, key@) == Some(r->0@),
            r is Some ==> decreases_to!(*self => *r->0),
    {
        match self {
            Value::Object(map) => {
                map.prove_sorted();
                proof {
                    entries_lookup(*map, key@);
                }
                let r = map.get(key);
                proof {
                    if crate::ordered::has_key(map.pairs(), key@) {
                        let p = crate::ordered::key_position(map.pairs(), key@);
                        assert(decreases_to!(map => map.pairs()[p].1));
                    }
                }
                r
            },
            _ => None,
        }
    }

    /// The element `i`, when this is an array that has it.
    pub fn item(&self, i: usize) -> (r: Option<&Value>)
        ensures
            r is Some <==> json_item(self@, i as int) is Some,
            r is Some ==> json_item(self@, i as int) == Some(r->0@),
            r is Some ==> decreases_to!(*self => *r->0),
    {
        match self {
            Value::Array(items) => {
                if i < items.len() {
                    assert(decreases_to!(items => items[i as int]));
                    Some(&items[i])
                } else {
                    None
                }
            },
            _ => None,
        }
    }

    /// The text, when this is a string.
    pub fn as_str(&self) -> (r: Option<&str>)
        ensures
            match r {
                Some(t) => self@ == Json::Text(t@),
                None => !(self@ is Text),
            },
    {
        match self {
            Value::String(t) => Some(t.as_str()),
            _ => None,
        }
    }

    /// The number, when this is an integer that is not negative.
    pub fn as_u64(&self) -> (r: Option<u64>)
        ensures
            match r {
                Some(n) => self@ == Json::Number(NumberV::PosInt(n)),
                None => !(self@ matches Json::Number(NumberV::PosInt(_))),
            },
    {
        match self {
            Value::Number(Number::PosInt(n)) => Some(*n),
            _ => None,
        }
    }

    /// The flag, when this is a boolean.
    pub fn as_bool(&self) -> (r: Option<bool>)
        ensures
            match r {
                Some(b) => self@ == Json::Bool(b),
                None => !(self@ is Bool),
            },
    {
        match self {
            Value::Bool(b) => Some(*b),
            _ => None,
        }
    }

    /// A string value.
    pub fn text(t: &str) -> (r: Self)
        ensures
            r@ == Json::Text(t@),
    {
        Value::String(t.to_owned())
    }

    /// An object with one member.
    pub fn single(key: &str, value: Value) -> (r: Self)
        ensures
            r@ == crate::json::single(key@, value@),
    {
        let mut map: StrMap<Value> = StrMap::new();
        map.push(key.to_owned(), value);
        assert(entries_view(map) =~= seq![(key@, value@)]);
        Value::Object(map)
    }

    /// An object without members.
    pub fn empty_object() -> (r: Self)
        ensures
            r@ == Json::Object(Seq::empty()),
    {
        let map: StrMap<Value> = StrMap::new();
        assert(entries_view(map) =~= Seq::empty());
        Value::Object(map)
    }

    /// An integer value.
    pub fn number(n: u64) -> (r: Self)
        ensures
            r@ == Json::Number(NumberV::PosInt(n)),
    {
        Value::Number(Number::PosInt(n))
    }
}
} // verus!
