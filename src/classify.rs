//! Labels a message body by the `id` and `method` fields it carries.

use vstd::prelude::*;
use vstd::string::StringExecFns;

verus! {

/// The text of the number under `key` in the JSON object `text`, as
/// serde_json prints it; `None` when `text` is not a JSON object or holds no
/// number under `key`.
pub uninterp spec fn json_number_field(text: Seq<char>, key: Seq<char>) -> Option<Seq<char>>;

/// The string under `key` in the JSON object `text`; `None` when `text` is
/// not a JSON object or holds no string under `key`.
pub uninterp spec fn json_string_field(text: Seq<char>, key: Seq<char>) -> Option<Seq<char>>;

/// Relies on serde_json::from_str, Value::get, Value::as_number and the
/// Display of serde_json::Number: the number under `key`, printed. The
/// result depends on the two strings alone.
#[verifier::external_body]
fn number_field(text: &str, key: &str) -> (r: Option<String>)
    ensures
        opt_view(r) == json_number_field(text@, key@),
{
    match serde_json::from_str::<serde_json::Value>(text) {
        Ok(v) => v.get(key).and_then(serde_json::Value::as_number).map(|n| n.to_string()),
        Err(_) => None,
    }
}

/// Relies on serde_json::from_str, Value::get and Value::as_str: the string
/// under `key`. The result depends on the two strings alone.
#[verifier::external_body]
fn string_field(text: &str, key: &str) -> (r: Option<String>)
    ensures
        opt_view(r) == json_string_field(text@, key@),
{
    match serde_json::from_str::<serde_json::Value>(text) {
        Ok(v) => v.get(key).and_then(serde_json::Value::as_str).map(|m| m.to_string()),
        Err(_) => None,
    }
}

pub open spec fn opt_view(o: Option<String>) -> Option<Seq<char>> {
    match o {
        Some(s) => Some(s@),
        None => None,
    }
}

/// What a message body is, by the fields it carries.
#[derive(Debug, Clone, PartialEq, Eq)]
pub enum Classification {
    /// Both an `id` and a `method`.
    Request { id: String, method: String },
    /// An `id` and no `method`.
    Response { id: String },
    /// A `method` and no `id`.
    Notification { method: String },
    /// Neither, or not a JSON object at all.
    Unknown,
}

/// `c` is the classification of a body whose `id` and `method` fields are
/// `id` and `method`.
pub open spec fn classified(c: Classification, id: Option<Seq<char>>, method: Option<Seq<char>>) -> bool {
    match c {
        Classification::Request { id: ci, method: cm } => id == Some(ci@) && method == Some(cm@),
        Classification::Response { id: ci } => id == Some(ci@) && method is None,
        Classification::Notification { method: cm } => id is None && method == Some(cm@),
        Classification::Unknown => id is None && method is None,
    }
}

/// The text that sums a body up by its `id` and `method` fields.
pub open spec fn summary_of(id: Option<Seq<char>>, method: Option<Seq<char>>) -> Seq<char> {
    match (id, method) {
        (Some(i), Some(m)) => "Request\nid: "@ + i + "\nmethod: "@ + m,
        (Some(i), None) => "Response\nid: "@ + i,
        (None, Some(m)) => "Notification\nmethod: "@ + m,
        (None, None) => "ERROR: Unknown message type"@,
    }
}

/// The id key of a message body.
fn id_key() -> (r: &'static str)
    ensures
        r@ == "id"@,
{
    "id"
}

/// The method key of a message body.
fn method_key() -> (r: &'static str)
    ensures
        r@ == "method"@,
{
    "method"
}

/// Classifies a body from its `id` and `method` fields, as found by a JSON
/// parse.
pub fn classify_fields(id: Option<String>, method: Option<String>) -> (r: Classification)
    ensures
        classified(r, opt_view(id), opt_view(method)),
{
    match (id, method) {
        (Some(id), Some(method)) => Classification::Request { id, method },
        (Some(id), None) => Classification::Response { id },
        (None, Some(method)) => Classification::Notification { method },
        (None, None) => Classification::Unknown,
    }
}

/// Classifies a message body. A body that is not a JSON object, or that has
/// neither field, is `Unknown`; this never fails.
pub fn classify(body: &str) -> (r: Classification)
    ensures
        classified(r, json_number_field(body@, "id"@), json_string_field(body@, "method"@)),
{
    let id = number_field(body, id_key());
    let method = string_field(body, method_key());
    classify_fields(id, method)
}

impl Classification {
    /// A short text for a list of messages: the kind, then the id and the
    /// method where there are any.
    pub fn summary(&self) -> (r: String)
        ensures
            forall|i: Option<Seq<char>>, m: Option<Seq<char>>|
                classified(*self, i, m) ==> r@ == summary_of(i, m),
    {
        match self {
            Classification::Request { id, method } => {
                let mut r = String::from_str("Request\nid: ");
                r.append(id.as_str());
                r.append("\nmethod: ");
                r.append(method.as_str());
                r
            },
            Classification::Response { id } => {
                let mut r = String::from_str("Response\nid: ");
                r.append(id.as_str());
                r
            },
            Classification::Notification { method } => {
                let mut r = String::from_str("Notification\nmethod: ");
                r.append(method.as_str());
                r
            },
            Classification::Unknown => String::from_str("ERROR: Unknown message type"),
        }
    }
}

/// Sums up a message body for display by its `id` and `method` fields.
pub fn summarise_message(json_str: &str) -> (r: String)
    ensures
        r@ == summary_of(json_number_field(json_str@, "id"@), json_string_field(json_str@, "method"@)),
{
    classify(json_str).summary()
}

} // verus!
