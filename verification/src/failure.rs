//! The ways in which the classification of one domain can fail.

use vstd::prelude::*;

verus! {

/// Why a domain could not be classified.
#[derive(Clone, Copy, Debug, PartialEq, Eq, Structural)]
pub enum Failure {
    /// The page, or the answer of the completion service, could not be
    /// fetched: a transport error, a timeout, or a status other than success.
    FetchError,
    /// A selector for the page's elements was not taken, or the page is
    /// too large to be parsed.
    ParseError,
    /// The keyword digest of the page has fewer than three characters.
    ExtractionTooShort,
    /// The completion service answered with nothing.
    EmptyResponse,
    /// The completion service answered with more than one word.
    MultiWordResponse,
    /// The answer is not one of the category labels.
    NotInAllowList,
}

} // verus!
