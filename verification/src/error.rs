//! The error taxonomy of the library.
//!
//! Every stage of the pipeline fails fast: the first error is propagated
//! unchanged to the caller, nothing is retried or downgraded.

use vstd::prelude::*;

verus! {

/// Everything that can go wrong between reading the command line and
/// reporting an exchange rate.
#[derive(Clone, Copy, PartialEq, Eq, Structural, Debug)]
pub enum Error {
    /// The currency argument named neither of the supported symbols.
    InvalidCurrency,
    /// The response body decoded, but the expected currency key or the
    /// quote-symbol key under it was absent.
    InvalidResponse,
    /// The reciprocal could not be computed: the quoted price was zero or
    /// not representable in the fixed-point domain.
    InvalidExchangeRate,
    /// No source URL was supplied, so no request could be built.
    InvalidURL,
    /// The transfer itself failed: a connection error, a non-success
    /// status, or a body that is not well-formed.
    Transport,
}

impl Error {
    /// A short human-readable description, for reporting at process exit.
    pub fn message(&self) -> (r: &'static str)
        ensures
            *self is InvalidCurrency ==> r@ == "Invalid Currency"@,
            *self is InvalidResponse ==> r@ == "Invalid Response"@,
            *self is InvalidExchangeRate ==> r@ == "Invalid Exchange Rate"@,
            *self is InvalidURL ==> r@ == "Invalid URL"@,
            *self is Transport ==> r@ == "Transport Error"@,
    {
        match self {
            Error::InvalidCurrency => "Invalid Currency",
            Error::InvalidResponse => "Invalid Response",
            Error::InvalidExchangeRate => "Invalid Exchange Rate",
            Error::InvalidURL => "Invalid URL",
            Error::Transport => "Transport Error",
        }
    }
}

} // verus!
