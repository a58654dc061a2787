//! Reading and writing the members of JSON objects.

use vstd::prelude::*;

use crate::json::{Json, Number, NumberV, Value};

verus! {

use crate::json::{entries_view, values_view};
use crate::ordered::{has_key, key_position, lookup, sorted_pairs, sorted_pairs_unique, sorted_position};
use crate::text::{lex_less, lex_less_irreflexive, lex_less_total, lex_less_transitive};
use crate::value::{entries_lookup, json_field};

broadcast use crate::json::group_json_views;

// ---------------------------------------------------------------------------
// Writing
// ---------------------------------------------------------------------------

/// The sorted entries with `v` stored under `k`.
pub open spec fn put<T>(s: Seq<(Seq<char>, T)>, k: Seq<char>, v: T) -> Seq<(Seq<char>, T)>
    decreases s.len(),
{
    if s.len() == 0 {
        seq![(k, v)]
    } else if lex_less(k, s[0].0) {
        seq![(k, v)] + s
    } else if k == s[0].0 {
        s.update(0, (k, v))
    } else {
        seq![s[0]] + put(s.drop_first(), k, v)
    }
}

/// An object without members.
pub open spec fn object() -> Json {
    Json::Object(Seq::empty())
}

/// The object with the member.
pub open spec fn with(j: Json, k: Seq<char>, v: Json) -> Json {
    match j {
        Json::Object(entries) => Json::Object(put(entries, k, v)),
        other => other,
    }
}

/// Every key of the sorted entries comes behind `k`.
pub open spec fn all_behind<T>(s: Seq<(Seq<char>, T)>, k: Seq<char>) -> bool {
    forall|i: int| 0 <= i < s.len() ==> lex_less(k, (#[trigger] s[i]).0)
}

/// Storing keeps entries sorted and changes what the key is mapped to.
pub proof fn put_stores<T>(s: Seq<(Seq<char>, T)>, k: Seq<char>, v: T)
    requires
        sorted_pairs(s),
    ensures
        sorted_pairs(put(s, k, v)),
        forall|x: Seq<char>| #[trigger]
            lookup(put(s, k, v), x) == if x == k {
                Some(v)
            } else {
                lookup(s, x)
            },
        forall|b: Seq<char>|
            #![trigger all_behind(s, b)]
            all_behind(s, b) && lex_less(b, k) ==> all_behind(put(s, k, v), b),
    decreases s.len(),
{
    let t = put(s, k, v);
    if s.len() == 0 {
        sorted_position(t, 0);
        assert forall|x: Seq<char>| #[trigger] lookup(t, x) == if x == k {
            Some(v)
        } else {
            lookup(s, x)
        } by {
            if has_key(t, x) {
                let p = key_position(t, x);
                assert(t[p].0 == x);
            }
        }
    } else if lex_less(k, s[0].0) {
        assert forall|i: int, j: int| 0 <= i < j < t.len() implies lex_less(
            (#[trigger] t[i]).0,
            (#[trigger] t[j]).0,
        ) by {
            if i == 0 {
                assert(t[j] == s[j - 1]);
                if j > 1 {
                    assert(lex_less(s[0].0, s[j - 1].0));
                    lex_less_transitive(k, s[0].0, s[j - 1].0);
                }
            } else {
                assert(t[i] == s[i - 1] && t[j] == s[j - 1]);
                assert(lex_less(s[i - 1].0, s[j - 1].0));
            }
        }
        lemma_lookup_shift(s, k, v);
    } else if k == s[0].0 {
        assert forall|i: int, j: int| 0 <= i < j < t.len() implies lex_less(
            (#[trigger] t[i]).0,
            (#[trigger] t[j]).0,
        ) by {
            assert(lex_less(s[i].0, s[j].0));
        }
        assert forall|x: Seq<char>| #[trigger] lookup(t, x) == if x == k {
            Some(v)
        } else {
            lookup(s, x)
        } by {
            lemma_same_keys(s, t, x);
            if x == k {
                sorted_position(t, 0);
            }
        }
    } else {
        let rest = s.drop_first();
        assert(sorted_pairs(rest)) by {
            assert forall|i: int, j: int| 0 <= i < j < rest.len() implies lex_less(
                (#[trigger] rest[i]).0,
                (#[trigger] rest[j]).0,
            ) by {
                assert(lex_less(s[i + 1].0, s[j + 1].0));
            }
        }
        put_stores(rest, k, v);
        let tail = put(rest, k, v);
        let first = s[0].0;
        lex_less_total(k, first);
        assert(lex_less(first, k));
        assert(all_behind(rest, first)) by {
            assert forall|i: int| 0 <= i < rest.len() implies lex_less(first, (#[trigger] rest[i]).0) by {
                assert(lex_less(s[0].0, s[i + 1].0));
            }
        }
        assert(all_behind(tail, first));
        assert forall|i: int, j: int| 0 <= i < j < t.len() implies lex_less(
            (#[trigger] t[i]).0,
            (#[trigger] t[j]).0,
        ) by {
            if i == 0 {
                assert(t[j] == tail[j - 1]);
            } else {
                assert(t[i] == tail[i - 1] && t[j] == tail[j - 1]);
                assert(lex_less(tail[i - 1].0, tail[j - 1].0));
            }
        }
        assert(s =~= seq![s[0]] + rest);
        assert forall|x: Seq<char>| #[trigger] lookup(t, x) == if x == k {
            Some(v)
        } else {
            lookup(s, x)
        } by {
            lemma_lookup_cons(s[0], rest, x);
            lemma_lookup_cons(s[0], tail, x);
            lex_less_irreflexive(first);
            assert(lookup(tail, x) == if x == k {
                Some(v)
            } else {
                lookup(rest, x)
            });
        }
    }
    assert forall|b: Seq<char>|
        #![trigger all_behind(s, b)]
        all_behind(s, b) && lex_less(b, k) implies all_behind(t, b) by {
        assert forall|i: int| 0 <= i < t.len() implies lex_less(b, (#[trigger] t[i]).0) by {
            assert(has_key(t, t[i].0));
            sorted_position(t, i);
            if t[i].0 != k {
                assert(lookup(t, t[i].0) == lookup(s, t[i].0));
                let p = key_position(s, t[i].0);
                assert(s[p].0 == t[i].0);
            }
        }
    }
}

proof fn lemma_same_keys<T>(s: Seq<(Seq<char>, T)>, t: Seq<(Seq<char>, T)>, x: Seq<char>)
    requires
        sorted_pairs(s),
        sorted_pairs(t),
        s.len() == t.len(),
        s.len() > 0,
        forall|i: int| 0 <= i < s.len() ==> (#[trigger] s[i]).0 == t[i].0,
        forall|i: int| 0 < i < s.len() ==> #[trigger] s[i] == t[i],
    ensures
        x != s[0].0 ==> lookup(t, x) == lookup(s, x),
{
    if x != s[0].0 {
        if has_key(s, x) {
            let p = key_position(s, x);
            sorted_position(s, p);
            sorted_position(t, p);
        }
        if has_key(t, x) {
            let p = key_position(t, x);
            assert(s[p].0 == x);
            sorted_position(s, p);
            sorted_position(t, p);
        }
    }
}

proof fn lemma_lookup_cons<T>(first: (Seq<char>, T), rest: Seq<(Seq<char>, T)>, x: Seq<char>)
    requires
        sorted_pairs(seq![first] + rest),
        sorted_pairs(rest),
    ensures
        lookup(seq![first] + rest, x) == if x == first.0 {
            Some(first.1)
        } else {
            lookup(rest, x)
        },
{
    let all = seq![first] + rest;
    sorted_position(all, 0);
    if x != first.0 {
        if has_key(rest, x) {
            let p = key_position(rest, x);
            sorted_position(rest, p);
            assert(all[p + 1] == rest[p]);
            sorted_position(all, p + 1);
        }
        if has_key(all, x) {
            let p = key_position(all, x);
            assert(all[p] == rest[p - 1]);
            assert(rest[p - 1].0 == x);
        }
    }
}

proof fn lemma_lookup_shift<T>(s: Seq<(Seq<char>, T)>, k: Seq<char>, v: T)
    requires
        sorted_pairs(s),
        s.len() > 0,
        lex_less(k, s[0].0),
        sorted_pairs(seq![(k, v)] + s),
    ensures
        forall|x: Seq<char>| #[trigger]
            lookup(seq![(k, v)] + s, x) == if x == k {
                Some(v)
            } else {
                lookup(s, x)
            },
{
    assert forall|x: Seq<char>| #[trigger] lookup(seq![(k, v)] + s, x) == if x == k {
        Some(v)
    } else {
        lookup(s, x)
    } by {
        lemma_lookup_cons((k, v), s, x);
    }
}

/// Reading a member gives back what was stored there; other members stay.
pub proof fn reading_gives_back(j: Json, k: Seq<char>, v: Json, x: Seq<char>)
    requires
        j is Object,
        sorted_pairs(j->Object_0),
    ensures
        json_field(with(j, k, v), x) == if x == k {
            Some(v)
        } else {
            json_field(j, x)
        },
        with(j, k, v) is Object,
        sorted_pairs(with(j, k, v)->Object_0),
{
    put_stores(j->Object_0, k, v);
    assert(lookup(put(j->Object_0, k, v), x) == if x == k {
        Some(v)
    } else {
        lookup(j->Object_0, x)
    });
}

// ---------------------------------------------------------------------------
// Reading
// ---------------------------------------------------------------------------

/// The text under the key.
pub open spec fn text_field(j: Json, k: Seq<char>) -> Option<Seq<char>> {
    match json_field(j, k) {
        Some(Json::Text(t)) => Some(t),
        _ => None,
    }
}

/// The flag under the key.
pub open spec fn bool_field(j: Json, k: Seq<char>) -> Option<bool> {
    match json_field(j, k) {
        Some(Json::Bool(b)) => Some(b),
        _ => None,
    }
}

/// The integer under the key, when it is not negative.
pub open spec fn number_field(j: Json, k: Seq<char>) -> Option<u64> {
    match json_field(j, k) {
        Some(Json::Number(NumberV::PosInt(n))) => Some(n),
        _ => None,
    }
}

/// The elements of the array under the key.
pub open spec fn list_field(j: Json, k: Seq<char>) -> Option<Seq<Json>> {
    match json_field(j, k) {
        Some(Json::List(items)) => Some(items),
        _ => None,
    }
}

/// The flag under the key is there and set.
pub open spec fn is_set(j: Json, k: Seq<char>) -> bool {
    bool_field(j, k) == Some(true)
}

impl Value {
    /// The object with the member; a value that is no object stays as it is.
    pub fn with(self, key: &str, value: Value) -> (r: Self)
        ensures
            r@ == with(self@, key@, value@),
    {
        match self {
            Value::Object(map) => {
                let mut map = map;
                map.prove_sorted();
                let ghost before = map;
                let ghost v = value@;
                map.insert(key.to_owned(), value);
                proof {
                    let a = entries_view(map);
                    let b = put(entries_view(before), key@, v);
                    entries_lookup(before, key@);
                    entries_lookup(map, key@);
                    put_stores(entries_view(before), key@, v);
                    assert forall|x: Seq<char>| #[trigger] lookup(a, x) == lookup(b, x) by {
                        entries_lookup(before, x);
                        entries_lookup(map, x);
                        assert(lookup(map.pairs(), x) == if x == key@ {
                            Some(value)
                        } else {
                            lookup(before.pairs(), x)
                        });
                        assert(lookup(b, x) == if x == key@ {
                            Some(v)
                        } else {
                            lookup(entries_view(before), x)
                        });
                    }
                    sorted_pairs_unique(a, b);
                }
                Value::Object(map)
            },
            other => other,
        }
    }

    /// The text under the key.
    pub fn text_at(&self, key: &str) -> (r: Option<&str>)
        ensures
            match (r, text_field(self@, key@)) {
                (Some(t), Some(m)) => t@ == m,
                (None, None) => true,
                _ => false,
            },
    {
        match self.get(key) {
            Some(v) => v.as_str(),
            None => None,
        }
    }

    /// The flag under the key.
    pub fn bool_at(&self, key: &str) -> (r: Option<bool>)
        ensures
            r == bool_field(self@, key@),
    {
        match self.get(key) {
            Some(v) => v.as_bool(),
            None => None,
        }
    }

    /// Whether the flag under the key is there and set.
    pub fn is_set(&self, key: &str) -> (r: bool)
        ensures
            r == is_set(self@, key@),
    {
        match self.bool_at(key) {
            Some(b) => b,
            None => false,
        }
    }

    /// The integer under the key, when it is not negative.
    pub fn number_at(&self, key: &str) -> (r: Option<u64>)
        ensures
            r == number_field(self@, key@),
    {
        match self.get(key) {
            Some(v) => v.as_u64(),
            None => None,
        }
    }

    /// The elements of the array under the key.
    pub fn list_at(&self, key: &str) -> (r: Option<&Vec<Value>>)
        ensures
            match (r, list_field(self@, key@)) {
                (Some(v), Some(m)) => values_view(v@) == m,
                (None, None) => true,
                _ => false,
            },
    {
        match self.get(key) {
            Some(v) => match v {
                Value::Array(items) => Some(items),
                _ => None,
            },
            None => None,
        }
    }
}

/// An integer as a JSON number.
pub open spec fn integer(n: int) -> Json {
    if n >= 0 {
        Json::Number(NumberV::PosInt(n as u64))
    } else {
        Json::Number(NumberV::NegInt(n as i64))
    }
}

impl Value {
    /// An integer value.
    pub fn integer(n: i64) -> (r: Self)
        ensures
            r@ == integer(n as int),
    {
        if n >= 0 {
            Value::Number(Number::PosInt(n as u64))
        } else {
            Value::Number(Number::NegInt(n))
        }
    }

    /// A flag.
    pub fn flag(b: bool) -> (r: Self)
        ensures
            r@ == Json::Bool(b),
    {
        Value::Bool(b)
    }
}

/// The integer that a JSON number is, when it fits.
pub open spec fn small_integer(j: Json) -> Option<i64> {
    match j {
        Json::Number(NumberV::PosInt(n)) => if n <= i64::MAX {
            Some(n as i64)
        } else {
            None
        },
        Json::Number(NumberV::NegInt(n)) => Some(n),
        _ => None,
    }
}

impl Value {
    /// The integer, when this is one that fits.
    pub fn as_i64(&self) -> (r: Option<i64>)
        ensures
            r == small_integer(self@),
    {
        match self {
            Value::Number(Number::PosInt(n)) => if *n <= i64::MAX as u64 {
                Some(*n as i64)
            } else {
                None
            },
            Value::Number(Number::NegInt(n)) => Some(*n),
            _ => None,
        }
    }
}

} // verus!
