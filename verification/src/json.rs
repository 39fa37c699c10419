//! JSON values, as `serde_json` holds them.

use vstd::prelude::*;

verus! {

/// A JSON value of `serde_json`.
#[verifier::external_type_specification]
#[verifier::external_body]
pub struct ExJsonValue(serde_json::Value);

/// An error of `serde_json`.
#[verifier::external_type_specification]
#[verifier::external_body]
pub struct ExJsonError(serde_json::Error);

/// The value that `serde_json` reads from a text; none when it reads none.
pub uninterp spec fn json_of(text: Seq<char>) -> Option<serde_json::Value>;

/// The names of an object's members; empty for any other value.
pub uninterp spec fn member_names(value: serde_json::Value) -> Set<Seq<char>>;

/// A value with one member of its top-level object taken out.
pub uninterp spec fn without_member(value: serde_json::Value, name: Seq<char>) -> serde_json::Value;

/// The indented text of a value; none when it cannot be written.
pub uninterp spec fn pretty_text(value: serde_json::Value) -> Option<Seq<char>>;

/// `serde_json::from_str`: the value that a text stands for, or an error when
/// the text is not JSON or nests too deep. Which of them it is follows from
/// the text alone.
#[verifier::external_body]
pub(crate) fn parse(text: &str) -> (r: Result<serde_json::Value, serde_json::Error>)
    ensures
        match r {
            Ok(v) => json_of(text@) == Some(v),
            Err(_) => json_of(text@) is None,
        },
{
    serde_json::from_str(text)
}

/// `serde_json::Map::remove` on the map of `serde_json::Value::as_object_mut`:
/// the member called `name` is gone, every other member stays, and taking it
/// out again changes nothing. A value that is no object stays as it is.
#[verifier::external_body]
pub(crate) fn remove_member(value: &mut serde_json::Value, name: &str)
    ensures
        *final(value) == without_member(*old(value), name@),
        member_names(*final(value)) == member_names(*old(value)).remove(name@),
        without_member(*final(value), name@) == *final(value),
{
    if let Some(object) = value.as_object_mut() {
        object.remove(name);
    }
}

/// `serde_json::to_string_pretty`: the indented text of a value, which follows
/// from the value alone.
#[verifier::external_body]
pub(crate) fn write_pretty(value: &serde_json::Value) -> (r: Result<String, serde_json::Error>)
    ensures
        match r {
            Ok(s) => pretty_text(*value) == Some(s@),
            Err(_) => pretty_text(*value) is None,
        },
{
    serde_json::to_string_pretty(value)
}

} // verus!
