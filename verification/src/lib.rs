//! Fetch-and-invert exchange-rate library.
//!
//! The library computes everything a one-shot price query needs apart from
//! the network transfer itself: it parses the currency selector, builds the
//! request path and query, decodes the response body, and inverts the quoted
//! price with fixed-point arithmetic.

pub mod currency;
pub mod error;
pub mod fixed_point;
pub mod request;
pub mod response;
