use vstd::prelude::*;

verus! {

/// What `serde_json::from_str::<Vec<String>>` gives for a text: the strings of
/// the array when the text is a JSON array of strings, and nothing otherwise.
pub uninterp spec fn json_string_list(text: Seq<char>) -> Option<Seq<Seq<char>>>;

/// The strings of a vector, each taken by its characters.
pub open spec fn strings_view(v: Seq<String>) -> Seq<Seq<char>> {
    v.map_values(|s: String| s@)
}

/// Calls `serde_json::from_str::<Vec<String>>` on `text`. The contract claims
/// only that the outcome is a function of the text, named `json_string_list`;
/// which texts parse, and to what, is left to serde_json.
#[verifier::external_body]
pub(crate) fn parse_string_list(text: &str) -> (r: Option<Vec<String>>)
    ensures
        match r {
            Some(v) => json_string_list(text@) == Some(strings_view(v@)),
            None => json_string_list(text@) is None,
        },
{
    serde_json::from_str::<Vec<String>>(text).ok()
}


/// What reading a text as a JSON value and taking its field `key` gives, as
/// compact JSON text: `None` when the text is not JSON, `Some(None)` when the
/// value has no such field (it is not an object, or the object lacks the key).
pub uninterp spec fn json_field_text(text: Seq<char>, key: Seq<char>) -> Option<Option<Seq<char>>>;

/// Calls `serde_json::from_str::<Value>` on `text`, then `Value::get` with
/// `key`, then `serde_json::to_string` on the field. The contract claims only
/// that the outcome is a function of the text and the key, named
/// `json_field_text`; what serde_json parses and how it writes the field is
/// left to serde_json. (Writing a `Value` back cannot fail: its object keys are
/// strings.)
#[verifier::external_body]
pub(crate) fn json_field_to_string(text: &str, key: &str) -> (r: Option<Option<String>>)
    ensures
        match r {
            None => json_field_text(text@, key@) is None,
            Some(None) => json_field_text(text@, key@) == Some(None::<Seq<char>>),
            Some(Some(s)) => json_field_text(text@, key@) == Some(Some(s@)),
        },
{
    match serde_json::from_str::<serde_json::Value>(text) {
        Err(_) => None,
        Ok(value) => match value.get(key) {
            None => Some(None),
            Some(field) => serde_json::to_string(field).ok().map(Some),
        },
    }
}

} // verus!
