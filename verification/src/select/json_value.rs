use vstd::prelude::*;

verus! {

/// A JSON value; a number holds the text of its literal, an object its
/// members in order. Members of an object have distinct names, as in JSON
/// text; where two share a name, a lookup finds the first.
#[derive(Debug, PartialEq)]
pub enum JsonValue {
    Null,
    Bool(bool),
    Number(String),
    String(String),
    Array(Vec<JsonValue>),
    Object(Vec<(String, JsonValue)>),
}

/// A `null` that lives as long as any selection.
pub fn null_ref<'a>() -> (r: &'a JsonValue)
    ensures
        *r == JsonValue::Null,
{
    &JsonValue::Null
}

} // verus!
