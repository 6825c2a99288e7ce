//! Encoding and decoding of the string arrays that bulk extraction produces,
//! and percent-encoding of query text - both delegated to outside crates
//! behind trusted wrappers.

use vstd::prelude::*;

verus! {

/// The JSON array-of-strings encoding of a sequence of strings.
pub uninterp spec fn json_string_array(items: Seq<Seq<char>>) -> Seq<char>;

/// What JSON decoding of a text as an array of strings yields, absent when
/// the text is not such an array.
pub uninterp spec fn parsed_string_array(s: Seq<char>) -> Option<Seq<Seq<char>>>;

/// The percent-encoding of a text.
pub uninterp spec fn url_encoded(s: Seq<char>) -> Seq<char>;

/// Relies on `serde_json::to_string`: the JSON array encoding of the given
/// strings. Serializing a vector of strings cannot fail (`to_string` errors
/// only when a `Serialize` impl errors or a map key is not a string, and the
/// `Serialize` impls of `Vec` and `String` never error), and decoding the
/// encoded text yields the original strings back.
#[verifier::external_body]
pub(crate) fn encode_string_array(items: &Vec<String>) -> (r: String)
    ensures
        r@ == json_string_array(items.deep_view()),
        parsed_string_array(r@) == Some(items.deep_view()),
{
    serde_json::to_string(items).unwrap()
}

/// Relies on `serde_json::from_str`: the strings of a JSON array-of-strings
/// text, or nothing when the text is not one.
#[verifier::external_body]
pub(crate) fn decode_string_array(s: &str) -> (r: Option<Vec<String>>)
    ensures
        match r {
            Some(v) => parsed_string_array(s@) == Some(v.deep_view()),
            None => parsed_string_array(s@) is None,
        },
{
    serde_json::from_str::<Vec<String>>(s).ok()
}

/// Relies on `urlencoding::encode`: the percent-encoding of the text.
#[verifier::external_body]
pub(crate) fn url_encode(s: &str) -> (r: String)
    ensures
        r@ == url_encoded(s@),
{
    urlencoding::encode(s).into_owned()
}

} // verus!
