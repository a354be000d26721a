//! The JSON values that payloads are made of, as the library holds them.
//!
//! Numbers keep the three shapes a JSON number can take: a signed 64-bit
//! integer, an unsigned one above `i64::MAX`, or a floating-point value held
//! by its IEEE 754 bit pattern (binary64 or binary32).

use vstd::prelude::*;

verus! {

broadcast use vstd::std_specs::vec::group_vec_axioms;

/// A JSON number.
#[derive(Debug, Clone, Copy, PartialEq, Eq, Structural)]
pub enum JsonNumber {
    /// An integer that fits in `i64`.
    Int(i64),
    /// A non-negative integer above `i64::MAX`.
    UInt(u64),
    /// A binary64 floating-point number, by its bit pattern.
    Float64(u64),
    /// A binary32 floating-point number, by its bit pattern.
    Float32(u32),
}

/// A JSON value.
#[derive(Debug)]
pub enum JsonValue {
    Null,
    Bool(bool),
    Number(JsonNumber),
    String(String),
    Array(Vec<JsonValue>),
    /// Object members in order, each key at most once.
    Object(Vec<(String, JsonValue)>),
}

/// What a JSON value is, with texts as character sequences.
pub enum JsonModel {
    Null,
    Bool(bool),
    Number(JsonNumber),
    Str(Seq<char>),
    Array(Seq<JsonModel>),
    Object(Seq<(Seq<char>, JsonModel)>),
}

/// The model of a JSON value.
pub open spec fn json_model(v: JsonValue) -> JsonModel
    decreases v,
{
    match v {
        JsonValue::Null => JsonModel::Null,
        JsonValue::Bool(b) => JsonModel::Bool(b),
        JsonValue::Number(n) => JsonModel::Number(n),
        JsonValue::String(s) => JsonModel::Str(s@),
        JsonValue::Array(items) => JsonModel::Array(
            Seq::new(
                items@.len(),
                |i: int|
                    if 0 <= i < items.len() {
                        json_model(items[i])
                    } else {
                        JsonModel::Null
                    },
            ),
        ),
        JsonValue::Object(members) => JsonModel::Object(
            Seq::new(
                members@.len(),
                |i: int|
                    if 0 <= i < members.len() {
                        (members[i].0@, json_model(members[i].1))
                    } else {
                        (Seq::empty(), JsonModel::Null)
                    },
            ),
        ),
    }
}

impl View for JsonValue {
    type V = JsonModel;

    open spec fn view(&self) -> JsonModel {
        json_model(*self)
    }
}


/// The models of object members.
pub open spec fn members_model(m: Seq<(String, JsonValue)>) -> Seq<(Seq<char>, JsonModel)> {
    Seq::new(m.len(), |i: int| (m[i].0@, json_model(m[i].1)))
}

/// The models of array items.
pub open spec fn items_model(a: Seq<JsonValue>) -> Seq<JsonModel> {
    Seq::new(a.len(), |i: int| json_model(a[i]))
}

pub proof fn lemma_object_model(m: Vec<(String, JsonValue)>)
    ensures
        json_model(JsonValue::Object(m)) == JsonModel::Object(members_model(m@)),
{
    let t = json_model(JsonValue::Object(m))->Object_0;
    assert(t.len() == m@.len());
    assert forall|i: int| 0 <= i < t.len() implies t[i] == members_model(m@)[i] by {}
    assert(t =~= members_model(m@));
}

pub proof fn lemma_array_model(a: Vec<JsonValue>)
    ensures
        json_model(JsonValue::Array(a)) == JsonModel::Array(items_model(a@)),
{
    let t = json_model(JsonValue::Array(a))->Array_0;
    assert(t.len() == a@.len());
    assert forall|i: int| 0 <= i < t.len() implies t[i] == items_model(a@)[i] by {}
    assert(t =~= items_model(a@));
}

} // verus!
