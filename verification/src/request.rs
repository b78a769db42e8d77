//! Building the price request from the supplied base URL.
//!
//! The builder appends a fixed suffix to the base URL's path and replaces
//! its query with the pair of parameters the price API expects. When no
//! base URL was supplied at all there is nothing to build: the pipeline
//! fails with [`Error::InvalidURL`] before any transfer is attempted.

use vstd::prelude::*;
use vstd::string::StringExecFns;
use crate::currency::CurrencyId;
use crate::currency::name_chars;
use crate::error::Error;

verus! {

/// The fixed suffix appended to the base URL's path.
pub open spec fn price_path_suffix() -> Seq<char> {
    "/simple/price"@
}

/// The query string that requests the price of `c` quoted in BTC.
pub open spec fn query_chars(c: CurrencyId) -> Seq<char> {
    "ids="@ + name_chars(c) + "&vs_currencies=btc"@
}

/// What the caller must set on the base URL before the transfer: its new
/// path and its new query string.
#[derive(Debug)]
pub struct PriceRequest {
    pub path: String,
    pub query: String,
}

/// Append the fixed price-endpoint suffix to the base URL's path.
pub fn build_price_path(base_path: &str) -> (r: String)
    ensures
        r@ == base_path@ + price_path_suffix(),
{
    let mut p = String::from_str(base_path);
    p.append("/simple/price");
    p
}

/// Build the query string `ids=<name>&vs_currencies=btc` for a currency.
pub fn build_query(currency: CurrencyId) -> (r: String)
    ensures
        r@ == query_chars(currency),
{
    let mut q = String::from_str("ids=");
    q.append(currency.name());
    q.append("&vs_currencies=btc");
    proof {
        assert(q@ =~= query_chars(currency));
    }
    q
}

/// Build the request target, or fail when no base URL was supplied.
///
/// The absence of a base URL is the only failure: every supplied path is
/// extended as-is, and the currency names come from the closed two-element
/// set, so no escaping is ever needed.
pub fn build_request(currency: CurrencyId, base_path: Option<&str>) -> (r: Result<
    PriceRequest,
    Error,
>)
    ensures
        base_path is None <==> r == Err::<PriceRequest, Error>(Error::InvalidURL),
        base_path matches Some(p) ==> (r matches Ok(t) && t.path@ == p@ + price_path_suffix()
            && t.query@ == query_chars(currency)),
{
    match base_path {
        None => Err(Error::InvalidURL),
        Some(p) => Ok(
            PriceRequest { path: build_price_path(p), query: build_query(currency) },
        ),
    }
}

} // verus!
