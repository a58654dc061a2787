//! JSON values: the model and the data type.

use vstd::prelude::*;

use crate::ordered::StrMap;

verus! {

broadcast use crate::ordered::pairs_decrease;

// ---------------------------------------------------------------------------
// Model
// ---------------------------------------------------------------------------

/// A JSON number. A number with a fraction or an exponent is held as the text
/// that it is written as.
pub enum NumberV {
    PosInt(u64),
    NegInt(i64),
    Float(Seq<char>),
}

/// A JSON document as a mathematical value. The entries of an object stand in
/// the order of their keys.
#[verifier::ext_equal]
pub enum Json {
    Null,
    Bool(bool),
    Number(NumberV),
    Text(Seq<char>),
    List(Seq<Json>),
    Object(Seq<(Seq<char>, Json)>),
}

/// A JSON number: a non-negative integer, a negative integer, or the text of
/// a number with a fraction or an exponent.
#[derive(Debug)]
pub enum Number {
    PosInt(u64),
    NegInt(i64),
    Float(String),
}

/// A JSON value.
#[derive(Debug)]
pub enum Value {
    Null,
    Bool(bool),
    Number(Number),
    String(String),
    Array(Vec<Value>),
    Object(StrMap<Value>),
}

impl View for Number {
    type V = NumberV;

    open spec fn view(&self) -> NumberV {
        match self {
            Number::PosInt(n) => NumberV::PosInt(*n),
            Number::NegInt(n) => NumberV::NegInt(*n),
            Number::Float(t) => NumberV::Float(t@),
        }
    }
}

/// The document that a value holds.
pub open spec fn json_of(v: Value) -> Json
    decreases v,
{
    match v {
        Value::Null => Json::Null,
        Value::Bool(b) => Json::Bool(b),
        Value::Number(n) => Json::Number(n@),
        Value::String(t) => Json::Text(t@),
        Value::Array(items) => Json::List(
            Seq::new(
                items@.len(),
                |i: int|
                    if 0 <= i < items@.len() {
                        json_of(items[i])
                    } else {
                        Json::Null
                    },
            ),
        ),
        Value::Object(map) => {
            Json::Object(
                Seq::new(
                    map.pairs().len(),
                    |i: int|
                        (
                            map.pairs()[i].0,
                            if 0 <= i < map.pairs().len() {
                                json_of(map.pairs()[i].1)
                            } else {
                                Json::Null
                            },
                        ),
                ),
            )
        },
    }
}

impl View for Value {
    type V = Json;

    open spec fn view(&self) -> Json {
        json_of(*self)
    }
}

/// The documents of a list of values.
pub open spec fn values_view(v: Seq<Value>) -> Seq<Json> {
    Seq::new(v.len(), |i: int| v[i]@)
}

/// The entries of an object as documents.
pub open spec fn entries_view(m: StrMap<Value>) -> Seq<(Seq<char>, Json)> {
    Seq::new(m.pairs().len(), |i: int| (m.pairs()[i].0, m.pairs()[i].1@))
}

/// An array holds the documents of its elements.
pub broadcast proof fn array_view(items: Vec<Value>)
    ensures
        #[trigger] json_of(Value::Array(items)) == Json::List(values_view(items@)),
{
    let left = json_of(Value::Array(items));
    assert(left is List);
    assert(left->List_0 =~= values_view(items@));
}

/// An object holds the documents of its entries.
pub broadcast proof fn object_view(m: StrMap<Value>)
    ensures
        #[trigger] json_of(Value::Object(m)) == Json::Object(entries_view(m)),
{
    let left = json_of(Value::Object(m));
    assert(left is Object);
    assert(left->Object_0 =~= entries_view(m));
}

/// An object with one member.
pub open spec fn single(key: Seq<char>, j: Json) -> Json {
    Json::Object(seq![(key, j)])
}

/// An element of an array is smaller than the array.
pub proof fn array_smaller(v: Value, i: int)
    requires
        v is Array,
        0 <= i < v->Array_0@.len(),
    ensures
        decreases_to!(v => v->Array_0@[i]),
{
    assert(decreases_to!(v => v->Array_0));
    assert(decreases_to!(v->Array_0 => v->Array_0[i]));
}

/// A value stored in an object is smaller than the object.
pub proof fn object_smaller(v: Value, i: int)
    requires
        v is Object,
        0 <= i < v->Object_0.pairs().len(),
    ensures
        decreases_to!(v => v->Object_0.pairs()[i].1),
{
    assert(decreases_to!(v => v->Object_0));
    assert(decreases_to!(v->Object_0 => v->Object_0.pairs()[i].1));
}

/// What the views of arrays and objects are.
pub broadcast group group_json_views {
    array_view,
    object_view,
}
} // verus!
