use exchange_rate::currency::CurrencyId;
use exchange_rate::currency::parse_collateral_currency;
use exchange_rate::error::Error;

#[test]
fn parses_dot_in_any_case() {
    assert_eq!(parse_collateral_currency("dot"), Ok(CurrencyId::Dot));
    assert_eq!(parse_collateral_currency("DOT"), Ok(CurrencyId::Dot));
    assert_eq!(parse_collateral_currency("Dot"), Ok(CurrencyId::Dot));
    assert_eq!(parse_collateral_currency("dOt"), Ok(CurrencyId::Dot));
    assert_eq!(parse_collateral_currency("doT"), Ok(CurrencyId::Dot));
}

#[test]
fn parses_ksm_in_any_case() {
    assert_eq!(parse_collateral_currency("ksm"), Ok(CurrencyId::Ksm));
    assert_eq!(parse_collateral_currency("KSM"), Ok(CurrencyId::Ksm));
    assert_eq!(parse_collateral_currency("Ksm"), Ok(CurrencyId::Ksm));
    assert_eq!(parse_collateral_currency("kSm"), Ok(CurrencyId::Ksm));
}

#[test]
fn rejects_everything_else_with_invalid_currency() {
    assert_eq!(parse_collateral_currency(""), Err(Error::InvalidCurrency));
    assert_eq!(parse_collateral_currency("BTC"), Err(Error::InvalidCurrency));
    assert_eq!(parse_collateral_currency("DOGE"), Err(Error::InvalidCurrency));
    assert_eq!(parse_collateral_currency("D"), Err(Error::InvalidCurrency));
    assert_eq!(parse_collateral_currency("DO"), Err(Error::InvalidCurrency));
    assert_eq!(parse_collateral_currency("DOTS"), Err(Error::InvalidCurrency));
    assert_eq!(parse_collateral_currency(" DOT"), Err(Error::InvalidCurrency));
    assert_eq!(parse_collateral_currency("DOT "), Err(Error::InvalidCurrency));
    assert_eq!(parse_collateral_currency("KSN"), Err(Error::InvalidCurrency));
    assert_eq!(parse_collateral_currency("polkadot"), Err(Error::InvalidCurrency));
}

#[test]
fn symbols_and_names_are_canonical() {
    assert_eq!(CurrencyId::Dot.symbol(), "DOT");
    assert_eq!(CurrencyId::Ksm.symbol(), "KSM");
    assert_eq!(CurrencyId::Dot.name(), "polkadot");
    assert_eq!(CurrencyId::Ksm.name(), "kusama");
}

#[test]
fn error_messages_are_descriptive() {
    assert_eq!(Error::InvalidCurrency.message(), "Invalid Currency");
    assert_eq!(Error::InvalidResponse.message(), "Invalid Response");
    assert_eq!(Error::InvalidExchangeRate.message(), "Invalid Exchange Rate");
    assert_eq!(Error::InvalidURL.message(), "Invalid URL");
    assert_eq!(Error::Transport.message(), "Transport Error");
}
