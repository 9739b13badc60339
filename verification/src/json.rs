//! JSON encoding of the value lists that intermediate records carry, done by
//! `serde_json`.
use vstd::prelude::*;
use crate::grouping::strings_view;
use crate::records::no_line_feed;

verus! {

#[verifier::external_type_specification]
#[verifier::external_body]
pub struct ExJsonError(serde_json::Error);

/// The compact JSON text that `serde_json::to_string` gives for a list of
/// strings.
pub uninterp spec fn json_of_strings(items: Seq<Seq<char>>) -> Seq<char>;

/// The list of strings that `serde_json::from_str` reads from `text`, or the
/// message of the error it reports.
pub uninterp spec fn strings_of_json(text: Seq<char>) -> Result<Seq<Seq<char>>, Seq<char>>;

/// `serde_json::to_string` on a list of strings. It does not fail on strings
/// (serialization fails only where a `Serialize` impl fails or a map has
/// non-string keys); the compact array it writes ends with `]`, holds no line
/// feed (every control character inside a string is escaped), and reads back
/// through `serde_json::from_str` as the same list. The characters of the
/// text are named (`json_of_strings`), not spelled out.
#[verifier::external_body]
pub(crate) fn strings_to_json(items: &Vec<String>) -> (r: Result<String, serde_json::Error>)
    ensures
        r is Ok,
        r matches Ok(text) ==> text@ == json_of_strings(strings_view(items@)),
        r matches Ok(text) ==> text@.len() > 0 && text@.last() == ']',
        r matches Ok(text) ==> no_line_feed(text@),
        r matches Ok(text) ==> strings_of_json(text@) is Ok && strings_of_json(text@)->Ok_0 == strings_view(items@),
{
    serde_json::to_string(items)
}

/// `serde_json::from_str::<Vec<String>>`, its error taken by its message
/// (`Display`). The contract ties the outcome to the text by the name
/// `strings_of_json`.
#[verifier::external_body]
pub(crate) fn json_to_strings(text: &str) -> (r: Result<Vec<String>, String>)
    ensures
        r matches Ok(items) ==> strings_of_json(text@) is Ok && strings_of_json(text@)->Ok_0 == strings_view(items@),
        r matches Err(message) ==> strings_of_json(text@) is Err && strings_of_json(text@)->Err_0 == message@,
{
    match serde_json::from_str(text) {
        Ok(items) => Ok(items),
        Err(e) => Err(e.to_string()),
    }
}

/// What `serde_json::to_string` writes for a list of strings ends with `]`,
/// holds no line feed, and reads back as the list.
pub open spec fn json_text_facts(items: Seq<Seq<char>>) -> bool {
    &&& json_of_strings(items).len() > 0
    &&& json_of_strings(items).last() == ']'
    &&& no_line_feed(json_of_strings(items))
    &&& strings_of_json(json_of_strings(items)) == Ok::<Seq<Seq<char>>, Seq<char>>(items)
}

} // verus!
