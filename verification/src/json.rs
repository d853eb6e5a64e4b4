//! Lists of texts as JSON.
use crate::text::texts;
use vstd::prelude::*;

verus! {

/// The JSON text that stands for a list of texts.
pub uninterp spec fn json_list(items: Seq<Seq<char>>) -> Seq<char>;

/// The list of texts that a JSON text stands for, if it stands for one.
pub uninterp spec fn parsed_json_list(json: Seq<char>) -> Option<Seq<Seq<char>>>;

/// `serde_json::to_string` on a list of texts. It succeeds, the JSON depends on
/// the texts alone, and `serde_json::from_str` reads the same texts from it.
#[verifier::external_body]
pub(crate) fn write_json_list(items: &Vec<String>) -> (r: Option<String>)
    ensures
        r is Some,
        r->0@ == json_list(texts(items@)),
        parsed_json_list(r->0@) == Some(texts(items@)),
{
    serde_json::to_string(items).ok()
}

/// `serde_json::from_str` for a list of texts. What it gives, and whether it
/// gives anything, depends on the JSON text alone.
#[verifier::external_body]
pub(crate) fn read_json_list(json: &str) -> (r: Option<Vec<String>>)
    ensures
        match r {
            Some(v) => parsed_json_list(json@) == Some(texts(v@)),
            None => parsed_json_list(json@) is None,
        },
{
    serde_json::from_str(json).ok()
}

} // verus!
