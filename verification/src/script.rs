//! Choosing the script to run from what the runtime was given: the script
//! itself, a JSON document with a `script` member, or nothing.
use vstd::prelude::*;
use crate::json::{json_as_str, json_get, JsonValue};
use crate::text::{chars_of, trim, trimmed};

verus! {

/// Whether the input is a JSON document: its trimmed text starts with `{`.
pub open spec fn is_document_text(input: Seq<char>) -> bool {
    trimmed(input).len() > 0 && trimmed(input)[0] == '{'
}

/// Whether the input is a JSON document (see `is_document_text`).
pub fn input_is_document(input: &str) -> (r: bool)
    ensures
        r == is_document_text(input@),
{
    let cs = chars_of(input);
    let t = trim(cs.as_slice());
    t.len() > 0 && t[0] == '{'
}

/// The script that the input holds. `doc` is the input read as JSON, where it
/// is a document and reads as one: its `script` member is the script.
pub open spec fn script_text_of(input: Seq<char>, doc: Option<JsonValue>) -> Seq<char> {
    if trimmed(input).len() == 0 {
        "print(\"No script provided.\")"@
    } else if is_document_text(input) {
        match doc {
            Some(d) => match json_get(d, "script"@) {
                Some(v) => match json_as_str(v) {
                    Some(s) => s,
                    None => "print(\"Invalid JSON input.\")"@,
                },
                None => "print(\"Invalid JSON input.\")"@,
            },
            None => "print(\"Invalid JSON input.\")"@,
        }
    } else {
        input
    }
}

/// The script to run for the given input (see `script_text_of`).
pub fn script_text(input: &str, doc: Option<&JsonValue>) -> (r: String)
    ensures
        r@ == script_text_of(
            input@,
            match doc {
                Some(d) => Some(*d),
                None => None,
            },
        ),
{
    let cs = chars_of(input);
    let t = trim(cs.as_slice());
    if t.len() == 0 {
        return String::from_str("print(\"No script provided.\")");
    }
    if t[0] == '{' {
        let found: Option<&String> = match doc {
            Some(d) => match d.get("script") {
                Some(v) => v.as_str(),
                None => None,
            },
            None => None,
        };
        return match found {
            Some(s) => s.clone(),
            None => String::from_str("print(\"Invalid JSON input.\")"),
        };
    }
    String::from_str(input)
}

} // verus!
