//! Error taxonomy of the scraping core.
//!
//! Grammar and configuration errors are load-time and fatal for the offending
//! service definition; extraction and input errors are request-time and are
//! returned to the caller as typed failures.

use vstd::prelude::*;

verus! {

/// What went wrong, by the stage that detected it.
#[derive(Clone, Copy, Debug, PartialEq, Eq, Structural)]
pub enum ErrorKind {
    /// Selector text does not conform to the structural grammar.
    Grammar,
    /// A field-definition line has an unrecognized target code.
    Configuration,
    /// A required node or quantity was not found in a fetched document.
    Extraction,
    /// Malformed or ambiguous domain input (bad episode label, duplicate
    /// episode, mismatched label/url counts).
    Input,
}

/// A typed failure of the scraping core.
#[derive(Debug)]
pub struct ScrapeError {
    pub kind: ErrorKind,
    pub message: String,
}

impl ScrapeError {
    /// Malformed or ambiguous domain input.
    pub fn input_error(msg: &str) -> (r: ScrapeError)
        ensures
            r.kind == ErrorKind::Input,
            r.message@ == msg@,
    {
        ScrapeError { kind: ErrorKind::Input, message: msg.to_owned() }
    }

    /// A node that the extraction rules require was absent.
    pub fn node_not_found() -> (r: ScrapeError)
        ensures
            r.kind == ErrorKind::Extraction,
            r.message@ == "didnt find node"@,
    {
        ScrapeError { kind: ErrorKind::Extraction, message: "didnt find node".to_owned() }
    }

    /// A URL that does not belong to any known site or shape.
    pub fn invalid_url(msg: &str) -> (r: ScrapeError)
        ensures
            r.kind == ErrorKind::Input,
            r.message@ == msg@,
    {
        ScrapeError { kind: ErrorKind::Input, message: msg.to_owned() }
    }

    /// Selector text that the grammar refuses.
    pub fn grammar_error(msg: &str) -> (r: ScrapeError)
        ensures
            r.kind == ErrorKind::Grammar,
            r.message@ == msg@,
    {
        ScrapeError { kind: ErrorKind::Grammar, message: msg.to_owned() }
    }

    /// A field-definition line whose target code is not recognized.
    pub fn configuration_error(msg: &str) -> (r: ScrapeError)
        ensures
            r.kind == ErrorKind::Configuration,
            r.message@ == msg@,
    {
        ScrapeError { kind: ErrorKind::Configuration, message: msg.to_owned() }
    }

    /// A required node or quantity was missing from a document.
    pub fn extraction_error(msg: &str) -> (r: ScrapeError)
        ensures
            r.kind == ErrorKind::Extraction,
            r.message@ == msg@,
    {
        ScrapeError { kind: ErrorKind::Extraction, message: msg.to_owned() }
    }
}

} // verus!
