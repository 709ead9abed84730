//! What can go wrong with a query.

use vstd::prelude::*;

verus! {

/// The text held no token: there is no query to answer.
#[derive(Clone, Copy, Debug, PartialEq, Eq, Structural)]
pub struct EmptyInput;

/// The catalogue could not be asked, or its answer could not be read.
#[derive(Clone, Copy, Debug, PartialEq, Eq, Structural)]
pub enum FetchError {
    /// The request did not reach the catalogue, or no answer came back.
    Network,
    /// The catalogue answered with a status that is not a success.
    Status(u16),
    /// The body of the answer could not be decoded as text.
    Decode,
    /// A selector that the page is searched with could not be built.
    Selector,
}

/// Why a query could not be resolved.
#[derive(Clone, Copy, Debug, PartialEq, Eq, Structural)]
pub enum QueryError {
    /// The request held no token.
    EmptyInput,
    /// The live lookup failed.
    Fetch(FetchError),
}

} // verus!
