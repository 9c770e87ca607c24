//! The one place where the library leans on serde_json: pulling the
//! `response` string out of the backend's JSON reply, and describing a parse
//! failure.

use vstd::prelude::*;

verus! {

#[verifier::external_type_specification]
#[verifier::external_body]
pub struct ExJsonError(serde_json::Error);

/// What extracting a string field from a JSON document yields: `None` when
/// the text is not valid JSON, `Some(None)` when it parses but holds no
/// string at that key, and `Some(Some(s))` when the string `s` is there.
pub uninterp spec fn json_string_field(body: Seq<char>, field: Seq<char>) -> Option<
    Option<Seq<char>>,
>;

/// Relies on serde_json::from_str, Value::get and Value::as_str: parsing a
/// document and reading one string field out of it is a function of the
/// document text and the key alone.
#[verifier::external_body]
pub(crate) fn extract_string_field(body: &str, field: &str) -> (r: Result<
    Option<String>,
    serde_json::Error,
>)
    ensures
        match r {
            Ok(Some(s)) => json_string_field(body@, field@) == Some(Some(s@)),
            Ok(None) => json_string_field(body@, field@) == Some(None::<Seq<char>>),
            Err(_) => json_string_field(body@, field@) is None,
        },
{
    match serde_json::from_str::<serde_json::Value>(body) {
        Err(e) => Err(e),
        Ok(doc) => match doc.get(field) {
            None => Ok(None),
            Some(val) => match val.as_str() {
                None => Ok(None),
                Some(s) => Ok(Some(s.to_string())),
            },
        },
    }
}

/// Relies on the `Display` implementation of serde_json::Error for a
/// human-readable description of a parse failure.
#[verifier::external_body]
pub(crate) fn json_error_text(e: &serde_json::Error) -> (r: String) {
    format!("{}", e)
}

} // verus!
