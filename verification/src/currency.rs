//! The closed two-element set of supported currencies, and the
//! case-insensitive parser that selects one from a command-line argument.

use vstd::prelude::*;
use vstd::string::StrSliceExecFns;
use crate::error::Error;

verus! {

/// A supported target currency. The set is closed by design: the price API
/// query and the arithmetic both assume one of exactly these two.
#[derive(Clone, Copy, PartialEq, Eq, Structural, Debug)]
pub enum CurrencyId {
    Dot,
    Ksm,
}

/// The canonical uppercase symbol of a currency, matched on the command line.
pub open spec fn symbol_chars(c: CurrencyId) -> Seq<char> {
    match c {
        CurrencyId::Dot => "DOT"@,
        CurrencyId::Ksm => "KSM"@,
    }
}

/// The canonical lowercase name of a currency, used as the key the price
/// API expects in the query string and in the response body.
pub open spec fn name_chars(c: CurrencyId) -> Seq<char> {
    match c {
        CurrencyId::Dot => "polkadot"@,
        CurrencyId::Ksm => "kusama"@,
    }
}

/// `a` and `b` are the same character up to ASCII case.
pub open spec fn char_eq_ignoring_ascii_case(a: char, b: char) -> bool {
    a == b
    || ('A' <= a && a <= 'Z' && b as int == a as int + 32)
    || ('A' <= b && b <= 'Z' && a as int == b as int + 32)
}

/// `s` spells `sym` up to ASCII case.
pub open spec fn spells_ignoring_ascii_case(s: Seq<char>, sym: Seq<char>) -> bool {
    s.len() == sym.len()
    && forall|i: int| 0 <= i < sym.len() ==>
        #[trigger] char_eq_ignoring_ascii_case(s[i], sym[i])
}

impl CurrencyId {
    /// The canonical uppercase symbol, e.g. `"DOT"`.
    pub fn symbol(&self) -> (r: &'static str)
        ensures
            r@ == symbol_chars(*self),
    {
        match self {
            CurrencyId::Dot => "DOT",
            CurrencyId::Ksm => "KSM",
        }
    }

    /// The canonical lowercase name, e.g. `"polkadot"`.
    pub fn name(&self) -> (r: &'static str)
        ensures
            r@ == name_chars(*self),
    {
        match self {
            CurrencyId::Dot => "polkadot",
            CurrencyId::Ksm => "kusama",
        }
    }
}

/// Decode the command-line currency argument.
///
/// Exactly the spellings of `"DOT"` and `"KSM"` up to ASCII case are
/// accepted; every other input is rejected with [`Error::InvalidCurrency`]
/// before any request is built.
pub fn parse_collateral_currency(src: &str) -> (r: Result<CurrencyId, Error>)
    ensures
        r == Ok::<CurrencyId, Error>(CurrencyId::Dot)
            <==> spells_ignoring_ascii_case(src@, symbol_chars(CurrencyId::Dot)),
        r == Ok::<CurrencyId, Error>(CurrencyId::Ksm)
            <==> spells_ignoring_ascii_case(src@, symbol_chars(CurrencyId::Ksm)),
        r is Err <==> !spells_ignoring_ascii_case(src@, symbol_chars(CurrencyId::Dot))
            && !spells_ignoring_ascii_case(src@, symbol_chars(CurrencyId::Ksm)),
        r is Err ==> r == Err::<CurrencyId, Error>(Error::InvalidCurrency),
{
    proof {
        reveal_strlit("DOT");
        reveal_strlit("KSM");
    }
    let n = src.unicode_len();
    if n != 3 {
        return Err(Error::InvalidCurrency);
    }
    let c0 = src.get_char(0);
    let c1 = src.get_char(1);
    let c2 = src.get_char(2);
    let is_dot = (c0 == 'D' || c0 == 'd') && (c1 == 'O' || c1 == 'o') && (c2 == 'T' || c2 == 't');
    let is_ksm = (c0 == 'K' || c0 == 'k') && (c1 == 'S' || c1 == 's') && (c2 == 'M' || c2 == 'm');
    proof {
        assert(is_dot == spells_ignoring_ascii_case(src@, symbol_chars(CurrencyId::Dot))) by {
            if is_dot {
                assert forall|i: int| 0 <= i < 3 implies
                    #[trigger] char_eq_ignoring_ascii_case(src@[i], symbol_chars(CurrencyId::Dot)[i]) by {
                    if i == 0 {
                    } else if i == 1 {
                    } else {
                    }
                }
            } else {
                if spells_ignoring_ascii_case(src@, symbol_chars(CurrencyId::Dot)) {
                    assert(char_eq_ignoring_ascii_case(src@[0], symbol_chars(CurrencyId::Dot)[0]));
                    assert(char_eq_ignoring_ascii_case(src@[1], symbol_chars(CurrencyId::Dot)[1]));
                    assert(char_eq_ignoring_ascii_case(src@[2], symbol_chars(CurrencyId::Dot)[2]));
                }
            }
        }
        assert(is_ksm == spells_ignoring_ascii_case(src@, symbol_chars(CurrencyId::Ksm))) by {
            if is_ksm {
                assert forall|i: int| 0 <= i < 3 implies
                    #[trigger] char_eq_ignoring_ascii_case(src@[i], symbol_chars(CurrencyId::Ksm)[i]) by {
                    if i == 0 {
                    } else if i == 1 {
                    } else {
                    }
                }
            } else {
                if spells_ignoring_ascii_case(src@, symbol_chars(CurrencyId::Ksm)) {
                    assert(char_eq_ignoring_ascii_case(src@[0], symbol_chars(CurrencyId::Ksm)[0]));
                    assert(char_eq_ignoring_ascii_case(src@[1], symbol_chars(CurrencyId::Ksm)[1]));
                    assert(char_eq_ignoring_ascii_case(src@[2], symbol_chars(CurrencyId::Ksm)[2]));
                }
            }
        }
    }
    if is_dot {
        Ok(CurrencyId::Dot)
    } else if is_ksm {
        Ok(CurrencyId::Ksm)
    } else {
        Err(Error::InvalidCurrency)
    }
}

} // verus!
