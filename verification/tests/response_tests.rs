use exchange_rate::currency::CurrencyId;
use exchange_rate::error::Error;
use exchange_rate::response::exchange_rate_from_response;

const ONE: u128 = 1_000_000_000_000_000_000;

#[test]
fn inverts_a_dot_price_exactly() {
    let body = r#"{"polkadot": {"btc": 0.0005}}"#;
    let rate = exchange_rate_from_response(body, CurrencyId::Dot).unwrap();
    // 1 / 0.0005 = 2000
    assert_eq!(rate.into_inner(), 2000 * ONE);
}

#[test]
fn inverts_a_ksm_price_exactly() {
    let body = r#"{"kusama": {"btc": 2}}"#;
    let rate = exchange_rate_from_response(body, CurrencyId::Ksm).unwrap();
    // 1 / 2 = 0.5
    assert_eq!(rate.into_inner(), ONE / 2);
}

#[test]
fn a_price_of_one_inverts_to_one() {
    let body = r#"{"polkadot": {"btc": 1}}"#;
    let rate = exchange_rate_from_response(body, CurrencyId::Dot).unwrap();
    assert_eq!(rate.into_inner(), ONE);
}

#[test]
fn inversion_truncates_toward_zero() {
    let body = r#"{"polkadot": {"btc": 3}}"#;
    let rate = exchange_rate_from_response(body, CurrencyId::Dot).unwrap();
    // 1 / 3 = 0.333... truncated to eighteen digits
    assert_eq!(rate.into_inner(), 333_333_333_333_333_333);
}

#[test]
fn a_zero_price_is_invalid_exchange_rate() {
    let body = r#"{"polkadot": {"btc": 0}}"#;
    let r = exchange_rate_from_response(body, CurrencyId::Dot);
    assert_eq!(r.unwrap_err(), Error::InvalidExchangeRate);
    let body = r#"{"polkadot": {"btc": 0.000}}"#;
    let r = exchange_rate_from_response(body, CurrencyId::Dot);
    assert_eq!(r.unwrap_err(), Error::InvalidExchangeRate);
}

#[test]
fn a_price_below_the_fixed_point_resolution_is_invalid_exchange_rate() {
    // nineteen fractional digits: truncation makes the price zero
    let body = r#"{"polkadot": {"btc": 0.0000000000000000005}}"#;
    let r = exchange_rate_from_response(body, CurrencyId::Dot);
    assert_eq!(r.unwrap_err(), Error::InvalidExchangeRate);
}

#[test]
fn a_price_outside_the_fixed_point_domain_is_invalid_exchange_rate() {
    // 10^21 scaled by 10^18 exceeds the 128-bit domain
    let body = r#"{"polkadot": {"btc": 1000000000000000000000}}"#;
    let r = exchange_rate_from_response(body, CurrencyId::Dot);
    assert_eq!(r.unwrap_err(), Error::InvalidExchangeRate);
}

#[test]
fn a_huge_representable_price_inverts_to_zero() {
    // 2 * 10^20 still fits the domain; its reciprocal truncates to zero
    let body = r#"{"polkadot": {"btc": 200000000000000000000}}"#;
    let rate = exchange_rate_from_response(body, CurrencyId::Dot).unwrap();
    assert_eq!(rate.into_inner(), 0);
}

#[test]
fn missing_quote_key_is_invalid_response() {
    let body = r#"{"polkadot": {}}"#;
    let r = exchange_rate_from_response(body, CurrencyId::Dot);
    assert_eq!(r.unwrap_err(), Error::InvalidResponse);
    let body = r#"{"polkadot": {"usd": 3}}"#;
    let r = exchange_rate_from_response(body, CurrencyId::Dot);
    assert_eq!(r.unwrap_err(), Error::InvalidResponse);
}

#[test]
fn missing_currency_key_is_invalid_response() {
    let body = r#"{}"#;
    let r = exchange_rate_from_response(body, CurrencyId::Dot);
    assert_eq!(r.unwrap_err(), Error::InvalidResponse);
    let body = r#"{"bitcoin": {"btc": 1}}"#;
    let r = exchange_rate_from_response(body, CurrencyId::Dot);
    assert_eq!(r.unwrap_err(), Error::InvalidResponse);
    // the kusama quote does not answer a polkadot query
    let body = r#"{"kusama": {"btc": 2}}"#;
    let r = exchange_rate_from_response(body, CurrencyId::Dot);
    assert_eq!(r.unwrap_err(), Error::InvalidResponse);
    // an exponent-form number elsewhere does not make the body malformed
    let body = r#"{"bitcoin": {"btc": 1e-3}}"#;
    let r = exchange_rate_from_response(body, CurrencyId::Dot);
    assert_eq!(r.unwrap_err(), Error::InvalidResponse);
}

#[test]
fn malformed_bodies_are_transport_errors() {
    for body in [
        "",
        "not json",
        "{",
        "[1, 2]",
        r#"{"polkadot": {"btc": }}"#,
        r#"{"polkadot": {"btc": 01}}"#,
        r#"{"polkadot": {"btc": 00.5}}"#,
        r#"{"polkadot": {"btc": +1}}"#,
        r#"{"polkadot": {"btc": --1}}"#,
        r#"{"polkadot": {"btc": -}}"#,
        r#"{"polkadot": {"btc": .5}}"#,
        r#"{"polkadot": {"btc": 5.}}"#,
        r#"{"polkadot": {"btc": 1e}}"#,
        r#"{"polkadot": {"btc": 1e+}}"#,
        r#"{"polkadot": {"btc": 1.e3}}"#,
        r#"{"polkadot": {"btc": 0.5}} trailing"#,
        r#"{"polkadot": {"btc": 0.5}"#,
        r#"{"polkadot": "btc"}"#,
        r#"{"polka\dot": {"btc": 0.5}}"#,
        r#"{"polkadot": {"btc": 0.5},}"#,
    ] {
        let r = exchange_rate_from_response(body, CurrencyId::Dot);
        assert_eq!(r.unwrap_err(), Error::Transport, "body: {body}");
    }
}

#[test]
fn a_negative_price_is_invalid_exchange_rate() {
    for body in [
        r#"{"polkadot": {"btc": -1}}"#,
        r#"{"polkadot": {"btc": -0.5}}"#,
        r#"{"polkadot": {"btc": -0}}"#,
        r#"{"polkadot": {"btc": -2e7}}"#,
    ] {
        let r = exchange_rate_from_response(body, CurrencyId::Dot);
        assert_eq!(r.unwrap_err(), Error::InvalidExchangeRate, "body: {body}");
    }
}

#[test]
fn exponent_notation_is_decoded() {
    // exponent form is how many emitters serialize small prices
    let body = r#"{"polkadot": {"btc": 5e-4}}"#;
    let rate = exchange_rate_from_response(body, CurrencyId::Dot).unwrap();
    assert_eq!(rate.into_inner(), 2000 * ONE);
    let body = r#"{"polkadot": {"btc": 5e-05}}"#;
    let rate = exchange_rate_from_response(body, CurrencyId::Dot).unwrap();
    assert_eq!(rate.into_inner(), 20000 * ONE);
    // 1e3 = 1000, so one coin buys 0.001 BTC
    let body = r#"{"polkadot": {"btc": 1e3}}"#;
    let rate = exchange_rate_from_response(body, CurrencyId::Dot).unwrap();
    assert_eq!(rate.into_inner(), ONE / 1000);
    // capital E and an explicit plus are accepted
    let body = r#"{"polkadot": {"btc": 1E+2}}"#;
    let rate = exchange_rate_from_response(body, CurrencyId::Dot).unwrap();
    assert_eq!(rate.into_inner(), ONE / 100);
    // the exponent applies to the fraction too: 2.5e1 = 25
    let body = r#"{"polkadot": {"btc": 2.5e1}}"#;
    let rate = exchange_rate_from_response(body, CurrencyId::Dot).unwrap();
    assert_eq!(rate.into_inner(), ONE / 25);
    // a long mantissa shifted down: 4e21 * 1e-21 = 4
    let body = r#"{"polkadot": {"btc": 4000000000000000000000e-21}}"#;
    let rate = exchange_rate_from_response(body, CurrencyId::Dot).unwrap();
    assert_eq!(rate.into_inner(), ONE / 4);
}

#[test]
fn extreme_exponents_are_invalid_exchange_rate() {
    // zero stays zero under any exponent
    let body = r#"{"polkadot": {"btc": 0e99999}}"#;
    let r = exchange_rate_from_response(body, CurrencyId::Dot);
    assert_eq!(r.unwrap_err(), Error::InvalidExchangeRate);
    // below the fixed-point resolution
    let body = r#"{"polkadot": {"btc": 1e-19}}"#;
    let r = exchange_rate_from_response(body, CurrencyId::Dot);
    assert_eq!(r.unwrap_err(), Error::InvalidExchangeRate);
    // far above the fixed-point domain
    let body = r#"{"polkadot": {"btc": 1e40}}"#;
    let r = exchange_rate_from_response(body, CurrencyId::Dot);
    assert_eq!(r.unwrap_err(), Error::InvalidExchangeRate);
    // exponents too large for any machine word
    let body = r#"{"polkadot": {"btc": 1e99999999999999999999999999999999999999999}}"#;
    let r = exchange_rate_from_response(body, CurrencyId::Dot);
    assert_eq!(r.unwrap_err(), Error::InvalidExchangeRate);
    let body = r#"{"polkadot": {"btc": 1e-99999999999999999999999999999999999999999}}"#;
    let r = exchange_rate_from_response(body, CurrencyId::Dot);
    assert_eq!(r.unwrap_err(), Error::InvalidExchangeRate);
}

#[test]
fn duplicate_keys_resolve_to_the_last_occurrence() {
    let body = r#"{"polkadot": {"btc": 4, "btc": 2}}"#;
    let rate = exchange_rate_from_response(body, CurrencyId::Dot).unwrap();
    assert_eq!(rate.into_inner(), ONE / 2);
    let body = r#"{"polkadot": {"btc": 4}, "polkadot": {"btc": 2}}"#;
    let rate = exchange_rate_from_response(body, CurrencyId::Dot).unwrap();
    assert_eq!(rate.into_inner(), ONE / 2);
    let body = r#"{"polkadot": {"btc": 4}, "polkadot": {"usd": 2}}"#;
    let r = exchange_rate_from_response(body, CurrencyId::Dot);
    assert_eq!(r.unwrap_err(), Error::InvalidResponse);
}

#[test]
fn whitespace_between_tokens_is_insignificant() {
    let body = "  \t{\n  \"polkadot\" : \r\n { \"btc\" :\t 0.0005 } \n}  \n";
    let rate = exchange_rate_from_response(body, CurrencyId::Dot).unwrap();
    assert_eq!(rate.into_inner(), 2000 * ONE);
}

#[test]
fn extra_keys_are_ignored() {
    let body = r#"{"bitcoin": {"usd": 9}, "polkadot": {"usd": 7, "btc": 0.0005}, "kusama": {"btc": 1}}"#;
    let rate = exchange_rate_from_response(body, CurrencyId::Dot).unwrap();
    assert_eq!(rate.into_inner(), 2000 * ONE);
}

#[test]
fn identical_inputs_yield_identical_output() {
    let body = r#"{"polkadot": {"btc": 0.0005}}"#;
    let first = exchange_rate_from_response(body, CurrencyId::Dot);
    let second = exchange_rate_from_response(body, CurrencyId::Dot);
    assert_eq!(first, second);
    assert_eq!(first.unwrap().into_inner(), 2000 * ONE);
    let bad = r#"{"polkadot": {}}"#;
    assert_eq!(
        exchange_rate_from_response(bad, CurrencyId::Dot),
        exchange_rate_from_response(bad, CurrencyId::Dot)
    );
}
