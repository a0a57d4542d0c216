//! The JSON form of a link list: an array of `[src, dst, bandwidth]`
//! triples, written and read with serde_json.

use vstd::prelude::*;

verus! {

/// The text that `serde_json::to_string_pretty` writes for a link list.
pub uninterp spec fn pretty_json(links: Seq<[u32; 3]>) -> Seq<char>;

/// The link list that `serde_json::from_str` reads from a text, or `None`
/// when the text is not a JSON array of three-number arrays of `u32`s.
pub uninterp spec fn links_of_json(text: Seq<char>) -> Option<Seq<[u32; 3]>>;

/// `serde_json::to_string_pretty` on a link list: claims that the result is
/// the pretty JSON text of exactly these links (`pretty_json`). serde_json
/// documents that serialising fails only when a `Serialize` impl fails or a
/// map has non-string keys; neither can happen for `[u32; 3]` arrays, so the
/// error arm is never taken.
#[verifier::external_body]
pub(crate) fn links_to_json(links: &Vec<[u32; 3]>) -> (r: String)
    ensures
        r@ == pretty_json(links@),
{
    match serde_json::to_string_pretty(links) {
        Ok(s) => s,
        Err(_) => String::new(),
    }
}

/// `serde_json::from_str::<Vec<[u32; 3]>>`: claims that it gives `None`
/// exactly when `links_of_json` has no list for the text, and that list
/// otherwise.
#[verifier::external_body]
fn links_from_json(text: &str) -> (r: Option<Vec<[u32; 3]>>)
    ensures
        r is None <==> links_of_json(text@) is None,
        r matches Some(v) ==> links_of_json(text@) == Some(v@),
{
    serde_json::from_str::<Vec<[u32; 3]>>(text).ok()
}

/// Reads a link list from JSON text: `None` when the text is not a JSON
/// array of `[src, dst, bandwidth]` triples of `u32`s.
pub fn parse_links(text: &str) -> (r: Option<Vec<[u32; 3]>>)
    ensures
        r is None <==> links_of_json(text@) is None,
        r matches Some(v) ==> links_of_json(text@) == Some(v@),
{
    links_from_json(text)
}

} // verus!
