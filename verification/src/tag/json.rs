//! The JSON documents glTF `extras` are written in, read through `serde_json`.

use vstd::prelude::*;

use crate::assoc::distinct_keys;
use crate::tag::value::ValueModel;

verus! {

#[verifier::external_type_specification]
#[verifier::external_body]
pub struct ExJsonValue(serde_json::Value);

/// What a `serde_json::Value` holds, in the model [`TagValue`] uses: a JSON
/// number is held as the text `serde_json` prints for it, an array as a
/// list and an object as a table.
///
/// [`TagValue`]: crate::tag::value::TagValue
pub uninterp spec fn json_model(value: serde_json::Value) -> ValueModel;

/// What `serde_json::from_str` makes of a text: the document, or the message
/// its error prints.
pub uninterp spec fn json_read(text: Seq<char>) -> Result<ValueModel, Seq<char>>;

/// Parse a JSON document (`serde_json::from_str` into a `Value`).
///
/// Claims that the outcome is the one `json_read` names for the text: the
/// document on success, the printed error message on failure.
#[verifier::external_body]
pub(crate) fn json_from_str(text: &str) -> (r: Result<serde_json::Value, String>)
    ensures
        match r {
            Ok(v) => json_read(text@) == Ok::<ValueModel, Seq<char>>(json_model(v)),
            Err(m) => json_read(text@) == Err::<ValueModel, Seq<char>>(m@),
        },
{
    serde_json::from_str::<serde_json::Value>(text).map_err(|e| e.to_string())
}

/// `Value::is_null`: whether the value is JSON `null`.
#[verifier::external_body]
pub(crate) fn json_is_null(value: &serde_json::Value) -> (r: bool)
    ensures
        r == (json_model(*value) is Null),
{
    value.is_null()
}

/// `Value::as_bool`: the boolean a JSON boolean holds.
#[verifier::external_body]
pub(crate) fn json_as_bool(value: &serde_json::Value) -> (r: Option<bool>)
    ensures
        match json_model(*value) {
            ValueModel::Bool(b) => r == Some(b),
            _ => r is None,
        },
{
    value.as_bool()
}

/// `Value::as_number`, printed with `Number`'s `Display`: the text of a
/// JSON number.
#[verifier::external_body]
pub(crate) fn json_number_text(value: &serde_json::Value) -> (r: Option<String>)
    ensures
        match json_model(*value) {
            ValueModel::Number(t) => r matches Some(s) && s@ == t,
            _ => r is None,
        },
{
    value.as_number().map(|n| n.to_string())
}

/// `Value::as_str`: the text of a JSON string.
#[verifier::external_body]
pub(crate) fn json_as_str(value: &serde_json::Value) -> (r: Option<&str>)
    ensures
        match json_model(*value) {
            ValueModel::Text(t) => r matches Some(s) && s@ == t,
            _ => r is None,
        },
{
    value.as_str()
}

/// `Value::as_array`: the items of a JSON array, in order.
#[verifier::external_body]
pub(crate) fn json_as_array(value: &serde_json::Value) -> (r: Option<&Vec<serde_json::Value>>)
    ensures
        match json_model(*value) {
            ValueModel::List(items) => r matches Some(a) && a@.len() == items.len() && forall|i: int|
                0 <= i < items.len() ==> #[trigger] json_model(a@[i]) == items[i],
            _ => r is None,
        },
{
    value.as_array()
}

/// `Value::as_object`, with the map's entries copied out: the members of a
/// JSON object, each key once.
#[verifier::external_body]
pub(crate) fn json_members(value: &serde_json::Value) -> (r: Option<Vec<(String, serde_json::Value)>>)
    ensures
        match json_model(*value) {
            ValueModel::Table(t) => r matches Some(m) && distinct_keys(m@) && t.dom().finite() && m@.len() == t.len()
                && (forall|k: Seq<char>|
                t.contains_key(k) <==> exists|i: int| 0 <= i < m@.len() && #[trigger] m@[i].0@ == k)
                && forall|i: int| 0 <= i < m@.len() ==> #[trigger] t[m@[i].0@] == json_model(m@[i].1),
            _ => r is None,
        },
{
    value.as_object().map(|o| o.clone().into_iter().collect())
}

} // verus!
