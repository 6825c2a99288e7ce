//! The document query capability: node matching is delegated to the `scraper`
//! crate, behind trusted wrappers.
//!
//! A selector is carried as text; a document is carried as text and parsed on
//! each query, as the extraction rules do not hold parsed documents. What a
//! query returns is a function of the document text, the selector text and
//! (for attributes) the attribute name alone, so the results bear
//! uninterpreted names that the evaluator's contracts build on.

use vstd::prelude::*;

verus! {

/// Whether `scraper`'s CSS parser accepts this selector text.
pub uninterp spec fn valid_selector(sel: Seq<char>) -> bool;

/// The serialized markup of each element of the document that the selector
/// matches, in document order.
pub uninterp spec fn html_matches(doc: Seq<char>, sel: Seq<char>) -> Seq<Seq<char>>;

/// The concatenated text content of each element of the document that the
/// selector matches, in document order.
pub uninterp spec fn text_matches(doc: Seq<char>, sel: Seq<char>) -> Seq<Seq<char>>;

/// The value of the named attribute on each element of the document that the
/// selector matches (absent where the element lacks the attribute), in
/// document order.
pub uninterp spec fn attr_matches(doc: Seq<char>, sel: Seq<char>, attr: Seq<char>) -> Seq<
    Option<Seq<char>>,
>;

/// Relies on `scraper::Selector::parse`: whether the selector text is
/// well-formed CSS.
#[verifier::external_body]
pub(crate) fn selector_is_valid(sel: &str) -> (r: bool)
    ensures
        r == valid_selector(sel@),
{
    scraper::Selector::parse(sel).is_ok()
}

/// Relies on `scraper::Html::parse_document`, `scraper::Html::select` and
/// `scraper::ElementRef::html`: the outer markup of each matched element, in
/// document order.
#[verifier::external_body]
pub(crate) fn select_html(doc: &str, sel: &str) -> (r: Vec<String>)
    requires
        valid_selector(sel@),
    ensures
        r.deep_view() == html_matches(doc@, sel@),
{
    let document = scraper::Html::parse_document(doc);
    let selector = scraper::Selector::parse(sel).unwrap();
    document.select(&selector).map(|e| e.html()).collect()
}

/// Relies on `scraper::Html::parse_document`, `scraper::Html::select` and
/// `scraper::ElementRef::text`: the concatenated text nodes of each matched
/// element, in document order. One value comes back per matched element, so
/// the result has as many entries as the markup query.
#[verifier::external_body]
pub(crate) fn select_text(doc: &str, sel: &str) -> (r: Vec<String>)
    requires
        valid_selector(sel@),
    ensures
        r.deep_view() == text_matches(doc@, sel@),
        r@.len() == html_matches(doc@, sel@).len(),
{
    let document = scraper::Html::parse_document(doc);
    let selector = scraper::Selector::parse(sel).unwrap();
    document.select(&selector).map(|e| e.text().collect::<String>()).collect()
}

/// Relies on `scraper::Html::parse_document`, `scraper::Html::select` and
/// `scraper::ElementRef::attr`: the named attribute of each matched element,
/// absent where the element lacks it, in document order. One value comes back
/// per matched element, so the result has as many entries as the markup
/// query.
#[verifier::external_body]
pub(crate) fn select_attr(doc: &str, sel: &str, attr: &str) -> (r: Vec<Option<String>>)
    requires
        valid_selector(sel@),
    ensures
        r.deep_view() == attr_matches(doc@, sel@, attr@),
        r@.len() == html_matches(doc@, sel@).len(),
{
    let document = scraper::Html::parse_document(doc);
    let selector = scraper::Selector::parse(sel).unwrap();
    document.select(&selector).map(|e| e.attr(attr).map(|v| v.to_string())).collect()
}

} // verus!
