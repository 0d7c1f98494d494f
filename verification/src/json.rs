//! JSON text, read one level at a time: a list's elements, or a value's
//! own kind and contents, with the members of an array or object given as
//! their JSON text, to be read in turn.
use vstd::prelude::*;
use serde_json::Value;

verus! {

/// A JSON value, one level deep: members of arrays and objects are kept as
/// their JSON text.
pub enum JsonValue {
    Null,
    Bool(bool),
    /// A number, as serde_json writes it.
    Number(String),
    Str(String),
    /// The JSON text of each element.
    Array(Vec<String>),
    /// Each member's key and the JSON text of its value.
    Object(Vec<(String, String)>),
}

/// A JSON value as plain values: (kind, boolean, text, elements, members),
/// the kinds numbered 0 to 5 in the order of `JsonValue`'s variants; the
/// boolean is that of `Bool`, the text that of `Number` or `Str`.
pub type JsonView = (int, bool, Seq<char>, Seq<Seq<char>>, Seq<(Seq<char>, Seq<char>)>);

pub open spec fn json_view(v: JsonValue) -> JsonView {
    match v {
        JsonValue::Null => (0, false, Seq::empty(), Seq::empty(), Seq::empty()),
        JsonValue::Bool(b) => (1, b, Seq::empty(), Seq::empty(), Seq::empty()),
        JsonValue::Number(n) => (2, false, n@, Seq::empty(), Seq::empty()),
        JsonValue::Str(s) => (3, false, s@, Seq::empty(), Seq::empty()),
        JsonValue::Array(items) => (4, false, Seq::empty(), Seq::new(items@.len(), |i: int| items@[i]@), Seq::empty()),
        JsonValue::Object(fields) => (5, false, Seq::empty(), Seq::empty(), Seq::new(
            fields@.len(),
            |i: int| (fields@[i].0@, fields@[i].1@),
        )),
    }
}

/// The value that the JSON text `text` holds, one level deep (none when
/// `text` is not JSON), as serde_json reads it.
pub uninterp spec fn json_of(text: Seq<char>) -> Option<JsonView>;

/// Reads `text` with `serde_json::from_str::<serde_json::Value>` and writes
/// the members of an array or object back as JSON text with `Value`'s
/// `Display` (objects in serde_json's key order): two serde_json steps, named
/// together by `json_of`. The contract claims that the outcome is a function
/// of the text alone: an error exactly when serde_json rejects the text, and
/// otherwise the value so written. What the error message says is left
/// unstated: it is serde_json's own, and no caller passes it on.
#[verifier::external_body]
pub(crate) fn parse_json(text: &str) -> (r: Result<JsonValue, String>)
    ensures
        r is Err <==> json_of(text@) is None,
        r matches Ok(v) ==> json_of(text@) == Some(json_view(v)),
{
    match serde_json::from_str::<Value>(text) {
        Ok(Value::Null) => Ok(JsonValue::Null),
        Ok(Value::Bool(b)) => Ok(JsonValue::Bool(b)),
        Ok(Value::Number(n)) => Ok(JsonValue::Number(n.to_string())),
        Ok(Value::String(s)) => Ok(JsonValue::Str(s)),
        Ok(Value::Array(a)) => Ok(JsonValue::Array(a.iter().map(|x| x.to_string()).collect())),
        Ok(Value::Object(o)) => Ok(JsonValue::Object(o.iter().map(|(k, x)| (k.clone(), x.to_string())).collect())),
        Err(e) => Err(e.to_string()),
    }
}

/// What reading `text` as a list gives: the elements, each written back as
/// JSON text, or the error message.
pub uninterp spec fn json_list_of(text: Seq<char>) -> Result<Seq<Seq<char>>, Seq<char>>;

/// Reads `text` with `serde_json::from_str::<Vec<serde_json::Value>>` and
/// writes each element back as JSON text with `Value`'s `Display`: two
/// serde_json steps, named together by `json_list_of`. The contract claims
/// that the outcome, the elements so written or serde_json's error message
/// (its `Display`), is a function of the text alone.
#[verifier::external_body]
pub(crate) fn parse_json_list(text: &str) -> (r: Result<Vec<String>, String>)
    ensures
        match r {
            Ok(items) => json_list_of(text@) == Ok::<Seq<Seq<char>>, Seq<char>>(
                Seq::new(items@.len(), |i: int| items@[i]@),
            ),
            Err(m) => json_list_of(text@) == Err::<Seq<Seq<char>>, Seq<char>>(m@),
        },
{
    match serde_json::from_str::<Vec<Value>>(text) {
        Ok(values) => Ok(values.iter().map(|v| v.to_string()).collect()),
        Err(e) => Err(e.to_string()),
    }
}

} // verus!
