//! Decoding the price-API response body and computing the exchange rate.
//!
//! The expected body is a JSON object whose keys are lowercase currency
//! names and whose values are objects mapping quote symbols to numbers,
//! as in `{"polkadot": {"btc": 0.0005}}`. The decoder accepts exactly
//! that shape: object nesting of depth two, string keys, and JSON
//! numbers in full (optional minus, no leading zeros, optional fraction,
//! optional exponent of any size). Anything else makes the body
//! malformed. Two deliberate restrictions against a general JSON reader:
//! escape sequences in keys are treated as malformed rather than decoded
//! (the API emits plain lowercase names), and values of other types in
//! unrelated pairs are not tolerated. Duplicate keys resolve to the last
//! occurrence, as a map built by insertion would.
//!
//! Numbers are read directly into the fixed-point domain (scaled by
//! `10^18` and truncated toward zero), so no binary floating point is
//! involved at any stage.

use vstd::prelude::*;
use vstd::string::StrSliceExecFns;
use crate::currency::CurrencyId;
use crate::currency::name_chars;
use crate::error::Error;
use crate::fixed_point::FixedPoint;
use crate::fixed_point::FIXED_POINT_SCALE;
use crate::fixed_point::pow10;
use crate::fixed_point::lemma_pow10_le;
use crate::fixed_point::lemma_pow10_add;
use crate::fixed_point::lemma_pow10_u128_range;
use vstd::arithmetic::div_mod::lemma_basic_div;
use vstd::arithmetic::div_mod::lemma_div_multiples_vanish_fancy;

verus! {

/// JSON insignificant whitespace.
pub open spec fn is_ws_char(c: char) -> bool {
    c == ' ' || c == '\t' || c == '\n' || c == '\r'
}

/// An ASCII decimal digit.
pub open spec fn is_digit_char(c: char) -> bool {
    '0' <= c && c <= '9'
}

/// The numeric value of a decimal digit.
pub open spec fn digit_value(c: char) -> nat
    recommends
        is_digit_char(c),
{
    (c as int - '0' as int) as nat
}

/// The first index at or after `i` that does not hold whitespace.
pub open spec fn skip_ws(s: Seq<char>, i: int) -> int
    decreases s.len() - i,
{
    if 0 <= i < s.len() && is_ws_char(s[i]) {
        skip_ws(s, i + 1)
    } else {
        i
    }
}

/// The first index at or after `i` that does not hold a digit.
pub open spec fn scan_digits(s: Seq<char>, i: int) -> int
    decreases s.len() - i,
{
    if 0 <= i < s.len() && is_digit_char(s[i]) {
        scan_digits(s, i + 1)
    } else {
        i
    }
}

/// The value of the digit run `s[i..j)` read as a decimal integer.
pub open spec fn digits_value(s: Seq<char>, i: int, j: int) -> nat
    decreases j - i,
{
    if i >= j {
        0
    } else {
        digits_value(s, i, j - 1) * 10 + digit_value(s[j - 1])
    }
}

/// The end of the integer part of a JSON number at `i`: a single `0`, or
/// a run of digits that does not start with `0`. A leading zero followed
/// by more digits is not absorbed, so the stray digits make the body
/// malformed, as JSON demands.
pub open spec fn int_end(s: Seq<char>, i: int) -> Option<int> {
    if !(0 <= i < s.len() && is_digit_char(s[i])) {
        None
    } else if s[i] == '0' {
        Some(i + 1)
    } else {
        Some(scan_digits(s, i))
    }
}

/// `floor(|v| * 10^18)` for the number whose mantissa digits have the
/// value `m`, of which the last `flen` stand after the decimal point, and
/// whose decimal exponent is `e`.
pub open spec fn scaled_magnitude(m: nat, flen: nat, e: int) -> nat {
    if e + 18 >= flen {
        m * pow10((e + 18 - flen) as nat)
    } else {
        m / pow10((flen - (e + 18)) as nat)
    }
}

/// The value of the mantissa digit string: the integer digits `s[i0..j)`
/// followed by the fraction digits `s[fs..fe)`.
pub open spec fn mantissa_value(s: Seq<char>, i0: int, j: int, fs: int, fe: int) -> nat {
    digits_value(s, i0, j) * pow10((fe - fs) as nat) + digits_value(s, fs, fe)
}

/// The scaled magnitude of the number with integer digits `s[i0..j)`,
/// fraction digits `s[fs..fe)` and exponent `e`.
pub open spec fn number_scaled(s: Seq<char>, i0: int, j: int, fs: int, fe: int, e: int) -> nat {
    scaled_magnitude(mantissa_value(s, i0, j, fs, fe), (fe - fs) as nat, e)
}

/// The index of the closing quote of a string literal whose content starts
/// at `i`, or `None` when the literal never closes. Escape sequences are
/// not supported: a backslash makes the literal malformed.
pub open spec fn string_end(s: Seq<char>, i: int) -> Option<int>
    decreases s.len() - i,
{
    if !(0 <= i < s.len()) {
        None
    } else if s[i] == '"' {
        Some(i)
    } else if s[i] == '\\' {
        None
    } else {
        string_end(s, i + 1)
    }
}

/// The signed exponent written by the digit run `s[es..ee)` and the sign
/// `eneg` (an empty run is the exponent zero).
pub open spec fn exp_of(s: Seq<char>, es: int, ee: int, eneg: bool) -> int {
    if eneg {
        0 - digits_value(s, es, ee) as int
    } else {
        digits_value(s, es, ee) as int
    }
}

/// Parse the optional exponent of a number whose integer digits run
/// `s[i0..j)` and whose fraction digits run `s[fs..fe)`, and finish the
/// number: the result carries its sign, its magnitude scaled by `10^18`
/// and truncated toward zero, and the index just after the number.
pub open spec fn parse_number_exp(
    s: Seq<char>,
    i0: int,
    j: int,
    fs: int,
    fe: int,
    neg: bool,
) -> Option<((bool, nat), int)> {
    if fe < s.len() && (s[fe] == 'e' || s[fe] == 'E') {
        let eneg = fe + 1 < s.len() && s[fe + 1] == '-';
        let es = if fe + 1 < s.len() && (s[fe + 1] == '-' || s[fe + 1] == '+') {
            fe + 2
        } else {
            fe + 1
        };
        let ee = scan_digits(s, es);
        if ee == es {
            None
        } else {
            Some(((neg, number_scaled(s, i0, j, fs, fe, exp_of(s, es, ee, eneg))), ee))
        }
    } else {
        Some(((neg, number_scaled(s, i0, j, fs, fe, 0)), fe))
    }
}

/// Parse the optional fraction of a number whose integer digits run
/// `s[i0..j)`, then its exponent.
pub open spec fn parse_number_tail(s: Seq<char>, i0: int, j: int, neg: bool) -> Option<
    ((bool, nat), int),
> {
    if j < s.len() && s[j] == '.' {
        let k = scan_digits(s, j + 1);
        if k == j + 1 {
            None
        } else {
            parse_number_exp(s, i0, j, j + 1, k, neg)
        }
    } else {
        parse_number_exp(s, i0, j, j, j, neg)
    }
}

/// Parse a JSON number at index `i`: an optional minus, an integer part
/// without leading zeros, an optional fraction, an optional exponent. The
/// result carries the sign, the magnitude scaled by `10^18` and truncated
/// toward zero, and the index just after the number.
pub open spec fn parse_number(s: Seq<char>, i: int) -> Option<((bool, nat), int)> {
    let neg = 0 <= i < s.len() && s[i] == '-';
    let i0 = if neg {
        i + 1
    } else {
        i
    };
    match int_end(s, i0) {
        None => None,
        Some(j) => parse_number_tail(s, i0, j, neg),
    }
}

/// A digit run of length `j - i` is worth less than `10^(j - i)`.
proof fn lemma_digits_value_bound(s: Seq<char>, i: int, j: int)
    requires
        i <= j,
        forall|k: int| i <= k < j ==> is_digit_char(s[k]),
    ensures
        digits_value(s, i, j) < pow10((j - i) as nat),
    decreases j - i,
{
    if i < j {
        lemma_digits_value_bound(s, i, j - 1);
        assert(is_digit_char(s[j - 1]));
        assert(digit_value(s[j - 1]) <= 9);
        assert(digits_value(s, i, j - 1) * 10 + 9 < pow10((j - i - 1) as nat) * 10)
            by (nonlinear_arith)
            requires
                digits_value(s, i, j - 1) < pow10((j - i - 1) as nat),
        ;
        assert(pow10((j - i) as nat) == 10 * pow10((j - i - 1) as nat));
    }
}

/// Every character that `scan_digits` runs over is a digit.
proof fn lemma_scan_digits_all_digits(s: Seq<char>, i: int)
    requires
        0 <= i <= s.len(),
    ensures
        forall|k: int| i <= k < scan_digits(s, i) ==> is_digit_char(#[trigger] s[k]),
    decreases s.len() - i,
{
    if i < s.len() && is_digit_char(s[i]) {
        lemma_scan_digits_all_digits(s, i + 1);
    }
}

fn ws_at(s: &str, i: usize) -> (r: bool)
    requires
        i < s@.len(),
    ensures
        r == is_ws_char(s@[i as int]),
{
    let c = s.get_char(i);
    c == ' ' || c == '\t' || c == '\n' || c == '\r'
}

fn digit_at(s: &str, i: usize) -> (r: bool)
    requires
        i < s@.len(),
    ensures
        r == is_digit_char(s@[i as int]),
{
    let c = s.get_char(i);
    '0' <= c && c <= '9'
}

fn digit_value_at(s: &str, i: usize) -> (r: u32)
    requires
        i < s@.len(),
        is_digit_char(s@[i as int]),
    ensures
        r as nat == digit_value(s@[i as int]),
        r <= 9,
{
    let c = s.get_char(i);
    c as u32 - 48
}

fn char_at_is(s: &str, i: usize, c: char) -> (r: bool)
    requires
        i < s@.len(),
    ensures
        r == (s@[i as int] == c),
{
    s.get_char(i) == c
}

fn skip_ws_exec(s: &str, i: usize, n: usize) -> (r: usize)
    requires
        n == s@.len(),
        i <= n,
    ensures
        r as int == skip_ws(s@, i as int),
        i <= r <= n,
{
    let mut cur = i;
    while cur < n && ws_at(s, cur)
        invariant
            n == s@.len(),
            i <= cur <= n,
            skip_ws(s@, i as int) == skip_ws(s@, cur as int),
        decreases n - cur,
    {
        cur = cur + 1;
    }
    cur
}

fn scan_digits_exec(s: &str, i: usize, n: usize) -> (r: usize)
    requires
        n == s@.len(),
        i <= n,
    ensures
        r as int == scan_digits(s@, i as int),
        i <= r <= n,
{
    let mut cur = i;
    while cur < n && digit_at(s, cur)
        invariant
            n == s@.len(),
            i <= cur <= n,
            scan_digits(s@, i as int) == scan_digits(s@, cur as int),
        decreases n - cur,
    {
        cur = cur + 1;
    }
    cur
}

fn string_end_exec(s: &str, i: usize, n: usize) -> (r: Option<usize>)
    requires
        n == s@.len(),
        i <= n,
    ensures
        (r is None) == (string_end(s@, i as int) is None),
        r matches Some(q) ==> string_end(s@, i as int) == Some(q as int) && i <= q < n,
{
    let mut cur = i;
    while cur < n
        invariant
            n == s@.len(),
            i <= cur <= n,
            string_end(s@, i as int) == string_end(s@, cur as int),
        decreases n - cur,
    {
        let c = s.get_char(cur);
        if c == '"' {
            return Some(cur);
        }
        if c == '\\' {
            return None;
        }
        cur = cur + 1;
    }
    None
}

/// Does `s[lo..hi)` spell exactly `t`?
fn range_eq(s: &str, lo: usize, hi: usize, n: usize, t: &str) -> (r: bool)
    requires
        n == s@.len(),
        lo <= hi <= n,
    ensures
        r == (s@.subrange(lo as int, hi as int) == t@),
{
    let tlen = t.unicode_len();
    if hi - lo != tlen {
        proof {
            assert(s@.subrange(lo as int, hi as int).len() == hi - lo);
        }
        return false;
    }
    let mut k: usize = 0;
    while k < tlen
        invariant
            n == s@.len(),
            lo <= hi <= n,
            tlen == t@.len(),
            hi - lo == tlen,
            k <= tlen,
            forall|m: int| 0 <= m < k ==> s@[lo + m] == t@[m],
        decreases tlen - k,
    {
        let a = s.get_char(lo + k);
        let b = t.get_char(k);
        if a != b {
            proof {
                assert(s@.subrange(lo as int, hi as int)[k as int] == s@[lo + k as int]);
            }
            return false;
        }
        k = k + 1;
    }
    proof {
        assert(s@.subrange(lo as int, hi as int) =~= t@);
    }
    true
}

fn pow10_exec(e: usize) -> (r: u128)
    requires
        e <= 38,
    ensures
        r as nat == pow10(e as nat),
{
    let mut acc: u128 = 1;
    let mut m: usize = 0;
    while m < e
        invariant
            m <= e <= 38,
            acc as nat == pow10(m as nat),
        decreases e - m,
    {
        proof {
            lemma_pow10_u128_range();
            lemma_pow10_le((m + 1) as nat, 38);
        }
        acc = acc * 10;
        m = m + 1;
    }
    acc
}

/// The exact value of the digit run `s[i..j)`, or `None` when it exceeds
/// the 128-bit domain.
fn digits_to_value(s: &str, i: usize, j: usize, n: usize) -> (r: Option<u128>)
    requires
        n == s@.len(),
        i <= j <= n,
        forall|k: int| i <= k < j ==> is_digit_char(s@[k]),
    ensures
        match r {
            Some(v) => v as nat == digits_value(s@, i as int, j as int),
            None => digits_value(s@, i as int, j as int) > u128::MAX,
        },
{
    let mut acc: Option<u128> = Some(0);
    let mut cur = i;
    while cur < j
        invariant
            n == s@.len(),
            i <= cur <= j <= n,
            forall|k: int| i <= k < j ==> is_digit_char(s@[k]),
            match acc {
                Some(v) => v as nat == digits_value(s@, i as int, cur as int),
                None => digits_value(s@, i as int, cur as int) > u128::MAX,
            },
        decreases j - cur,
    {
        let d = digit_value_at(s, cur);
        let ghost prev = digits_value(s@, i as int, cur as int);
        acc = match acc {
            None => None,
            Some(a) => match a.checked_mul(10) {
                None => None,
                Some(x) => x.checked_add(d as u128),
            },
        };
        proof {
            assert(digits_value(s@, i as int, cur + 1) == prev * 10 + digit_value(
                s@[cur as int],
            ));
        }
        cur = cur + 1;
    }
    acc
}

/// `o` stands for the unbounded value `v`: exactly `v` when it fits the
/// 128-bit range, `None` otherwise.
spec fn opt_matches(o: Option<u128>, v: nat) -> bool {
    match o {
        Some(u) => u as nat == v,
        None => v > u128::MAX,
    }
}

/// A digit run splits at any point: the whole run is worth the head times
/// a power of ten plus the tail.
proof fn lemma_digits_value_split(s: Seq<char>, a: int, c: int, b: int)
    requires
        a <= c <= b,
    ensures
        digits_value(s, a, b) == digits_value(s, a, c) * pow10((b - c) as nat) + digits_value(
            s,
            c,
            b,
        ),
    decreases b - c,
{
    if b == c {
        assert(pow10(0) == 1);
        assert(digits_value(s, a, b) == digits_value(s, a, c) * 1) by (nonlinear_arith)
            requires
                digits_value(s, a, b) == digits_value(s, a, c),
        ;
    } else {
        lemma_digits_value_split(s, a, c, b - 1);
        let x = digits_value(s, a, c);
        let t = digits_value(s, c, b - 1);
        let p = pow10((b - 1 - c) as nat);
        let d = digit_value(s[b - 1]);
        assert(digits_value(s, a, b) == digits_value(s, a, b - 1) * 10 + d);
        assert(digits_value(s, c, b) == t * 10 + d);
        assert(digits_value(s, a, b - 1) == x * p + t);
        assert(pow10((b - c) as nat) == 10 * p);
        assert((x * p + t) * 10 == x * (10 * p) + t * 10) by (nonlinear_arith);
        assert(digits_value(s, a, b) == x * pow10((b - c) as nat) + digits_value(s, c, b));
    }
}

fn combine_runs(
    a: Option<u128>,
    q: usize,
    b: Option<u128>,
    Ghost(ga): Ghost<nat>,
    Ghost(gb): Ghost<nat>,
) -> (r: Option<u128>)
    requires
        opt_matches(a, ga),
        opt_matches(b, gb),
        gb < pow10(q as nat),
    ensures
        opt_matches(r, ga * pow10(q as nat) + gb),
{
    proof {
        lemma_pow10_u128_range();
        lemma_pow10_le(0, q as nat);
    }
    match a {
        None => {
            proof {
                assert(ga * pow10(q as nat) + gb >= ga) by (nonlinear_arith)
                    requires
                        ga >= 0,
                        gb >= 0,
                        pow10(q as nat) >= 1,
                ;
            }
            None
        },
        Some(av) => {
            if av == 0 {
                proof {
                    assert(ga * pow10(q as nat) + gb == gb) by (nonlinear_arith)
                        requires
                            ga == 0,
                    ;
                }
                b
            } else if q >= 39 {
                proof {
                    lemma_pow10_le(39, q as nat);
                    assert(ga * pow10(q as nat) + gb >= pow10(q as nat)) by (nonlinear_arith)
                        requires
                            ga >= 1,
                            gb >= 0,
                    ;
                }
                None
            } else {
                let p = pow10_exec(q);
                proof {
                    assert(ga * pow10(q as nat) + gb >= ga * pow10(q as nat)) by (nonlinear_arith)
                        requires
                            gb >= 0,
                    ;
                }
                match av.checked_mul(p) {
                    None => None,
                    Some(x) => match b {
                        None => None,
                        Some(bv) => x.checked_add(bv),
                    },
                }
            }
        },
    }
}

/// What is left to do once the exponent has been weighed against the
/// digit counts: the scaled magnitude certainly overflows, or is the
/// mantissa times a small power of ten, or is the mantissa divided by a
/// power of ten.
enum ScaleAction {
    Overflow,
    Mul(usize),
    Div(usize),
}

/// The scaled magnitude of a parsed number, from its digit runs: integer
/// digits `s[i0..j)`, fraction digits `s[fs..fe)`, and exponent digits
/// `s[es..ee)` under the sign `eneg`. `None` stands for a magnitude above
/// the 128-bit range.
fn scaled_from_parts(
    s: &str,
    i0: usize,
    j: usize,
    fs: usize,
    fe: usize,
    eneg: bool,
    es: usize,
    ee: usize,
    n: usize,
) -> (r: Option<u128>)
    requires
        n == s@.len(),
        i0 < j <= fs <= fe <= n,
        es <= ee <= n,
        forall|k: int| i0 <= k < j ==> is_digit_char(s@[k]),
        forall|k: int| fs <= k < fe ==> is_digit_char(s@[k]),
        forall|k: int| es <= k < ee ==> is_digit_char(s@[k]),
    ensures
        opt_matches(
            r,
            number_scaled(
                s@,
                i0 as int,
                j as int,
                fs as int,
                fe as int,
                exp_of(s@, es as int, ee as int, eneg),
            ),
        ),
{
    let ghost e = exp_of(s@, es as int, ee as int, eneg);
    let ghost gi = digits_value(s@, i0 as int, j as int);
    let ghost gf = digits_value(s@, fs as int, fe as int);
    let ghost m = mantissa_value(s@, i0 as int, j as int, fs as int, fe as int);
    let ilen = j - i0;
    let flen = fe - fs;
    let ghost flg = flen as nat;
    let dvi = digits_to_value(s, i0, j, n);
    let dvf = digits_to_value(s, fs, fe, n);
    let emag = digits_to_value(s, es, ee, n);
    proof {
        lemma_pow10_u128_range();
        lemma_pow10_le(0, flg);
        lemma_digits_value_bound(s@, i0 as int, j as int);
        lemma_digits_value_bound(s@, fs as int, fe as int);
        assert(gi * pow10(flg) >= gi && (gi >= 1 ==> gi * pow10(flg) >= 1)) by (nonlinear_arith)
            requires
                gi >= 0,
                pow10(flg) >= 1,
        ;
    }
    // the mantissa is zero exactly when both digit runs are zero
    let mzero = match (dvi, dvf) {
        (Some(a), Some(b)) => a == 0 && b == 0,
        _ => false,
    };
    if mzero {
        proof {
            assert(gi * pow10(flg) + gf == 0) by (nonlinear_arith)
                requires
                    gi == 0,
                    gf == 0,
            ;
            if e + 18 < flg {
                lemma_pow10_le(0, (flg - (e + 18)) as nat);
                lemma_basic_div(m as int, pow10((flg - (e + 18)) as nat) as int);
            } else {
                assert(m * pow10((e + 18 - flg) as nat) == 0) by (nonlinear_arith)
                    requires
                        m == 0,
                ;
            }
        }
        return Some(0);
    }
    proof {
        assert(m >= 1);
    }
    // weigh the exponent against the digit counts
    let action: ScaleAction = if !eneg {
        let big = match emag {
            None => true,
            Some(em) => em >= flen as u128 + 21,
        };
        if big {
            ScaleAction::Overflow
        } else {
            let em = match emag {
                Some(v) => v,
                None => 0,
            };
            if em + 18 >= flen as u128 {
                ScaleAction::Mul((em + 18 - flen as u128) as usize)
            } else {
                ScaleAction::Div((flen as u128 - em - 18) as usize)
            }
        }
    } else {
        let zero_sure = match emag {
            None => true,
            Some(em) => em >= ilen as u128 + 18,
        };
        if zero_sure {
            // the whole mantissa is shifted out below the resolution
            let ghost d = (flg - (e + 18)) as nat;
            proof {
                assert(e <= -(ilen as int + 18));
                assert(d >= ilen as nat + flg);
                lemma_pow10_add(ilen as nat, flg);
                lemma_pow10_le(ilen as nat + flg, d);
                assert(gi * pow10(flg) + gf < pow10(ilen as nat) * pow10(flg)) by (nonlinear_arith)
                    requires
                        gi < pow10(ilen as nat),
                        gf < pow10(flg),
                        pow10(flg) >= 1,
                ;
                lemma_basic_div(m as int, pow10(d) as int);
            }
            return Some(0);
        } else {
            let em = match emag {
                Some(v) => v,
                None => 0,
            };
            if 18 >= em + flen as u128 {
                ScaleAction::Mul((18 - em - flen as u128) as usize)
            } else {
                ScaleAction::Div((em + flen as u128 - 18) as usize)
            }
        }
    };
    match action {
        ScaleAction::Overflow => {
            proof {
                assert(e + 18 - flg >= 39);
                lemma_pow10_le(39, (e + 18 - flg) as nat);
                assert(m * pow10((e + 18 - flg) as nat) >= pow10((e + 18 - flg) as nat))
                    by (nonlinear_arith)
                    requires
                        m >= 1,
                        pow10((e + 18 - flg) as nat) >= 0,
                ;
            }
            None
        },
        ScaleAction::Mul(shift) => {
            proof {
                assert(e + 18 >= flg && shift == e + 18 - flg && shift <= 38);
                lemma_pow10_le(0, shift as nat);
            }
            let mant = combine_runs(dvi, flen, dvf, Ghost(gi), Ghost(gf));
            combine_runs(mant, shift, Some(0), Ghost(m), Ghost(0))
        },
        ScaleAction::Div(d) => {
            proof {
                assert(e + 18 < flg && d == flg - (e + 18) && 1 <= d < ilen + flen);
                lemma_pow10_le(0, d as nat);
            }
            let pl = ilen + flen - d;
            if pl <= ilen {
                // the kept digits lie inside the integer run
                let r = digits_to_value(s, i0, i0 + pl, n);
                proof {
                    let x = digits_value(s@, i0 as int, i0 as int + pl);
                    let y = digits_value(s@, i0 as int + pl, j as int);
                    lemma_digits_value_split(s@, i0 as int, i0 as int + pl, j as int);
                    lemma_digits_value_bound(s@, i0 as int + pl, j as int);
                    lemma_pow10_add((ilen - pl) as nat, flg);
                    assert(gi == x * pow10((ilen - pl) as nat) + y);
                    assert((x * pow10((ilen - pl) as nat) + y) * pow10(flg) == x * (pow10(
                        (ilen - pl) as nat,
                    ) * pow10(flg)) + y * pow10(flg)) by (nonlinear_arith);
                    assert(m == x * pow10(d as nat) + (y * pow10(flg) + gf));
                    assert(y * pow10(flg) + gf < pow10((ilen - pl) as nat) * pow10(flg))
                        by (nonlinear_arith)
                        requires
                            y < pow10((ilen - pl) as nat),
                            gf < pow10(flg),
                            pow10(flg) >= 1,
                    ;
                    lemma_div_multiples_vanish_fancy(
                        x as int,
                        (y * pow10(flg) + gf) as int,
                        pow10(d as nat) as int,
                    );
                    assert(pow10(d as nat) * x + (y * pow10(flg) + gf) == x * pow10(d as nat) + (y
                        * pow10(flg) + gf)) by (nonlinear_arith);
                    assert(m / pow10(d as nat) == x);
                }
                r
            } else {
                // the kept digits reach `pl - ilen` places into the fraction run
                let q = pl - ilen;
                let head = digits_to_value(s, fs, fs + q, n);
                let ghost gh = digits_value(s@, fs as int, fs as int + q);
                let ghost gt = digits_value(s@, fs as int + q, fe as int);
                proof {
                    lemma_digits_value_split(s@, fs as int, fs as int + q, fe as int);
                    lemma_digits_value_bound(s@, fs as int, fs as int + q);
                    lemma_digits_value_bound(s@, fs as int + q, fe as int);
                    lemma_pow10_add(q as nat, (flen - q) as nat);
                }
                let r = combine_runs(dvi, q, head, Ghost(gi), Ghost(gh));
                proof {
                    let x = gi * pow10(q as nat) + gh;
                    assert(gf == gh * pow10((flen - q) as nat) + gt);
                    assert((flen - q) as nat == d as nat);
                    assert(gi * (pow10(q as nat) * pow10((flen - q) as nat)) == (gi * pow10(
                        q as nat,
                    )) * pow10((flen - q) as nat)) by (nonlinear_arith);
                    assert((gi * pow10(q as nat)) * pow10((flen - q) as nat) + gh * pow10(
                        (flen - q) as nat,
                    ) == (gi * pow10(q as nat) + gh) * pow10((flen - q) as nat))
                        by (nonlinear_arith);
                    assert(m == x * pow10(d as nat) + gt);
                    assert(pow10(d as nat) * x + gt == x * pow10(d as nat) + gt)
                        by (nonlinear_arith);
                    lemma_div_multiples_vanish_fancy(x as int, gt as int, pow10(d as nat) as int);
                    assert(m / pow10(d as nat) == x);
                }
                r
            }
        },
    }
}

/// Parse a number at `i`: its sign, its scaled magnitude (`Some` when it
/// fits the 128-bit range), and the index just after it.
#[verifier::rlimit(60)]
fn parse_number_exec(s: &str, i: usize, n: usize) -> (r: Option<((bool, Option<u128>), usize)>)
    requires
        n == s@.len(),
        i <= n,
    ensures
        (r is None) == (parse_number(s@, i as int) is None),
        r matches Some(((ng, mag), j)) ==> (parse_number(s@, i as int) matches Some(((sng, v), jj))
            && ng == sng && j as int == jj && i < j <= n && opt_matches(mag, v)),
{
    let neg = i < n && char_at_is(s, i, '-');
    let i0 = if neg {
        i + 1
    } else {
        i
    };
    if !(i0 < n && digit_at(s, i0)) {
        return None;
    }
    let j = if char_at_is(s, i0, '0') {
        i0 + 1
    } else {
        // the run cannot stop at its own first digit
        scan_digits_exec(s, i0 + 1, n)
    };
    proof {
        lemma_scan_digits_all_digits(s@, i0 as int);
        assert(scan_digits(s@, i0 as int) == scan_digits(s@, i0 + 1 as int));
        assert(forall|k: int| i0 <= k < j ==> is_digit_char(s@[k]));
    }
    let (fs, fe) = if j < n && char_at_is(s, j, '.') {
        let k = scan_digits_exec(s, j + 1, n);
        if k == j + 1 {
            return None;
        }
        (j + 1, k)
    } else {
        (j, j)
    };
    let (en, es, ee) = if fe < n && (char_at_is(s, fe, 'e') || char_at_is(s, fe, 'E')) {
        let sgn_neg = fe + 1 < n && char_at_is(s, fe + 1, '-');
        let sgn_pos = fe + 1 < n && char_at_is(s, fe + 1, '+');
        let es = if sgn_neg || sgn_pos {
            fe + 2
        } else {
            fe + 1
        };
        let ee = scan_digits_exec(s, es, n);
        if ee == es {
            return None;
        }
        proof {
            lemma_scan_digits_all_digits(s@, es as int);
        }
        (sgn_neg, es, ee)
    } else {
        (false, fe, fe)
    };
    proof {
        lemma_scan_digits_all_digits(s@, fs as int);
    }
    let mag = scaled_from_parts(s, i0, j, fs, fe, en, es, ee, n);
    Some(((neg, mag), ee))
}

/// Parse the pair list of a quote object from the start of a key at `i`.
///
/// The result carries the signed price quoted under the key `"btc"` (its
/// last occurrence, if any, as a map built by insertion would keep it)
/// and the index just after the closing brace.
pub open spec fn parse_quote_pairs(s: Seq<char>, i: int) -> Option<(Option<(bool, nat)>, int)>
    decreases s.len() - i,
{
    if !(0 <= i < s.len() && s[i] == '"') {
        None
    } else {
        match string_end(s, i + 1) {
            None => None,
            Some(q) => {
                let key = s.subrange(i + 1, q);
                let j = skip_ws(s, q + 1);
                if !(j < s.len() && s[j] == ':') {
                    None
                } else {
                    match parse_number(s, skip_ws(s, j + 1)) {
                        None => None,
                        Some((v, j2)) => {
                            let j3 = skip_ws(s, j2);
                            if j3 < s.len() && s[j3] == ',' {
                                let j4 = skip_ws(s, j3 + 1);
                                // a parse can only move forward; the guard keeps
                                // the recursion visibly decreasing
                                if !(i < j4 <= s.len()) {
                                    None
                                } else {
                                    match parse_quote_pairs(s, j4) {
                                        None => None,
                                        Some((rest, end)) => Some(
                                            (
                                                match rest {
                                                    Some(r) => Some(r),
                                                    None => if key == "btc"@ {
                                                        Some(v)
                                                    } else {
                                                        None
                                                    },
                                                },
                                                end,
                                            ),
                                        ),
                                    }
                                }
                            } else if j3 < s.len() && s[j3] == '}' {
                                Some(
                                    (
                                        if key == "btc"@ {
                                            Some(v)
                                        } else {
                                            None
                                        },
                                        j3 + 1,
                                    ),
                                )
                            } else {
                                None
                            }
                        },
                    }
                }
            },
        }
    }
}

/// Parse the object quoting one currency's prices, whose opening brace
/// stands at `i`. The result carries the price under `"btc"`, if any, and
/// the index just after the closing brace.
pub open spec fn parse_quote_object(s: Seq<char>, i: int) -> Option<
    (Option<(bool, nat)>, int),
> {
    if 0 <= i < s.len() && s[i] == '{' {
        let j = skip_ws(s, i + 1);
        if j < s.len() && s[j] == '}' {
            Some((None, j + 1))
        } else {
            parse_quote_pairs(s, j)
        }
    } else {
        None
    }
}

/// Parse the pair list of the top-level response object from the start of
/// a key at `i`. The result carries, for the last pair whose key is
/// `name` (as a map built by insertion would keep it), the price its
/// quote object holds under `"btc"`; and the index just after the
/// closing brace.
pub open spec fn parse_top_pairs(s: Seq<char>, i: int, name: Seq<char>) -> Option<
    (Option<Option<(bool, nat)>>, int),
>
    decreases s.len() - i,
{
    if !(0 <= i < s.len() && s[i] == '"') {
        None
    } else {
        match string_end(s, i + 1) {
            None => None,
            Some(q) => {
                let key = s.subrange(i + 1, q);
                let j = skip_ws(s, q + 1);
                if !(j < s.len() && s[j] == ':') {
                    None
                } else {
                    match parse_quote_object(s, skip_ws(s, j + 1)) {
                        None => None,
                        Some((btc, j2)) => {
                            let j3 = skip_ws(s, j2);
                            if j3 < s.len() && s[j3] == ',' {
                                let j4 = skip_ws(s, j3 + 1);
                                // a parse can only move forward; the guard keeps
                                // the recursion visibly decreasing
                                if !(i < j4 <= s.len()) {
                                    None
                                } else {
                                    match parse_top_pairs(s, j4, name) {
                                        None => None,
                                        Some((rest, end)) => Some(
                                            (
                                                match rest {
                                                    Some(r) => Some(r),
                                                    None => if key == name {
                                                        Some(btc)
                                                    } else {
                                                        None
                                                    },
                                                },
                                                end,
                                            ),
                                        ),
                                    }
                                }
                            } else if j3 < s.len() && s[j3] == '}' {
                                Some(
                                    (
                                        if key == name {
                                            Some(btc)
                                        } else {
                                            None
                                        },
                                        j3 + 1,
                                    ),
                                )
                            } else {
                                None
                            }
                        },
                    }
                }
            },
        }
    }
}

/// Parse the top-level response object, whose opening brace stands at `i`.
pub open spec fn parse_top_object(s: Seq<char>, i: int, name: Seq<char>) -> Option<
    (Option<Option<(bool, nat)>>, int),
> {
    if 0 <= i < s.len() && s[i] == '{' {
        let j = skip_ws(s, i + 1);
        if j < s.len() && s[j] == '}' {
            Some((None, j + 1))
        } else {
            parse_top_pairs(s, j, name)
        }
    } else {
        None
    }
}

/// What the response body quotes for `c` under `"btc"`: the sign and the
/// magnitude scaled by `10^18`.
///
/// `Err(Transport)`: the body is not a well-formed response object.
/// `Err(InvalidResponse)`: the body is well-formed, but the currency key
/// or the `"btc"` key under it is absent.
pub open spec fn price_from_body(s: Seq<char>, c: CurrencyId) -> Result<(bool, nat), Error> {
    match parse_top_object(s, skip_ws(s, 0), name_chars(c)) {
        None => Err(Error::Transport),
        Some((found, j)) => if skip_ws(s, j) != s.len() {
            Err(Error::Transport)
        } else {
            match found {
                None => Err(Error::InvalidResponse),
                Some(None) => Err(Error::InvalidResponse),
                Some(Some(v)) => Ok(v),
            }
        },
    }
}

/// The outcome of the whole decode-and-invert stage on a response body:
/// the raw scaled exchange rate `10^36 / price` (that is, `1 / price` in
/// fixed point, rounded toward zero), or the first error of the pipeline.
/// A price that is negative or zero, or whose magnitude lies outside the
/// fixed-point domain, inverts to `Err(InvalidExchangeRate)` rather than
/// to a panic or a non-finite value.
pub open spec fn rate_from_body(s: Seq<char>, c: CurrencyId) -> Result<u128, Error> {
    match price_from_body(s, c) {
        Err(e) => Err(e),
        Ok((neg, v)) => if neg || v == 0 || v > u128::MAX {
            Err(Error::InvalidExchangeRate)
        } else {
            Ok(((FIXED_POINT_SCALE * FIXED_POINT_SCALE) / v as int) as u128)
        },
    }
}

/// How the price under `"btc"` came out of a parsed quote object.
enum QuoteOutcome {
    /// The key was absent.
    Missing,
    /// The key was present: its sign, and its scaled magnitude (`None`
    /// when the magnitude exceeds the 128-bit range).
    Price(bool, Option<u128>),
}

spec fn quote_outcome_matches(o: QuoteOutcome, v: Option<(bool, nat)>) -> bool {
    match v {
        None => o is Missing,
        Some((ng, p)) => o matches QuoteOutcome::Price(ong, omag) && ong == ng && opt_matches(
            omag,
            p,
        ),
    }
}

/// How the wanted currency came out of the parsed top-level object.
enum TopOutcome {
    /// The currency key was absent.
    NoCurrency,
    /// The currency key was present; this is what its quote object held.
    Quote(QuoteOutcome),
}

spec fn top_outcome_matches(o: TopOutcome, v: Option<Option<(bool, nat)>>) -> bool {
    match v {
        None => o is NoCurrency,
        Some(q) => o matches TopOutcome::Quote(qo) && quote_outcome_matches(qo, q),
    }
}

fn parse_quote_pairs_exec(s: &str, i: usize, n: usize) -> (r: Option<(QuoteOutcome, usize)>)
    requires
        n == s@.len(),
        i <= n,
    ensures
        (r is None) == (parse_quote_pairs(s@, i as int) is None),
        r matches Some((o, e)) ==> (parse_quote_pairs(s@, i as int) matches Some((v, end)) && e
            as int == end && i < e <= n && quote_outcome_matches(o, v)),
    decreases n - i,
{
    if !(i < n && char_at_is(s, i, '"')) {
        return None;
    }
    let q = match string_end_exec(s, i + 1, n) {
        None => {
            return None;
        },
        Some(q) => q,
    };
    let j = skip_ws_exec(s, q + 1, n);
    if !(j < n && char_at_is(s, j, ':')) {
        return None;
    }
    let j1 = skip_ws_exec(s, j + 1, n);
    let ((num_neg, num_mag), j2) = match parse_number_exec(s, j1, n) {
        None => {
            return None;
        },
        Some(p) => p,
    };
    let j3 = skip_ws_exec(s, j2, n);
    if j3 < n && char_at_is(s, j3, ',') {
        let j4 = skip_ws_exec(s, j3 + 1, n);
        match parse_quote_pairs_exec(s, j4, n) {
            None => None,
            Some((rest, end)) => {
                let is_btc = range_eq(s, i + 1, q, n, "btc");
                let out = match rest {
                    QuoteOutcome::Missing => if is_btc {
                        QuoteOutcome::Price(num_neg, num_mag)
                    } else {
                        QuoteOutcome::Missing
                    },
                    later => later,
                };
                Some((out, end))
            },
        }
    } else if j3 < n && char_at_is(s, j3, '}') {
        let is_btc = range_eq(s, i + 1, q, n, "btc");
        let out = if is_btc {
            QuoteOutcome::Price(num_neg, num_mag)
        } else {
            QuoteOutcome::Missing
        };
        Some((out, j3 + 1))
    } else {
        None
    }
}

fn parse_quote_object_exec(s: &str, i: usize, n: usize) -> (r: Option<(QuoteOutcome, usize)>)
    requires
        n == s@.len(),
        i <= n,
    ensures
        (r is None) == (parse_quote_object(s@, i as int) is None),
        r matches Some((o, e)) ==> (parse_quote_object(s@, i as int) matches Some((v, end)) && e
            as int == end && i < e <= n && quote_outcome_matches(o, v)),
{
    if !(i < n && char_at_is(s, i, '{')) {
        return None;
    }
    let j = skip_ws_exec(s, i + 1, n);
    if j < n && char_at_is(s, j, '}') {
        return Some((QuoteOutcome::Missing, j + 1));
    }
    parse_quote_pairs_exec(s, j, n)
}

fn parse_top_pairs_exec(s: &str, i: usize, n: usize, name: &str) -> (r: Option<
    (TopOutcome, usize),
>)
    requires
        n == s@.len(),
        i <= n,
    ensures
        (r is None) == (parse_top_pairs(s@, i as int, name@) is None),
        r matches Some((o, e)) ==> (parse_top_pairs(s@, i as int, name@) matches Some((v, end))
            && e as int == end && i < e <= n && top_outcome_matches(o, v)),
    decreases n - i,
{
    if !(i < n && char_at_is(s, i, '"')) {
        return None;
    }
    let q = match string_end_exec(s, i + 1, n) {
        None => {
            return None;
        },
        Some(q) => q,
    };
    let j = skip_ws_exec(s, q + 1, n);
    if !(j < n && char_at_is(s, j, ':')) {
        return None;
    }
    let j1 = skip_ws_exec(s, j + 1, n);
    let (btc, j2) = match parse_quote_object_exec(s, j1, n) {
        None => {
            return None;
        },
        Some(p) => p,
    };
    let j3 = skip_ws_exec(s, j2, n);
    if j3 < n && char_at_is(s, j3, ',') {
        let j4 = skip_ws_exec(s, j3 + 1, n);
        match parse_top_pairs_exec(s, j4, n, name) {
            None => None,
            Some((rest, end)) => {
                let is_name = range_eq(s, i + 1, q, n, name);
                let out = match rest {
                    TopOutcome::NoCurrency => if is_name {
                        TopOutcome::Quote(btc)
                    } else {
                        TopOutcome::NoCurrency
                    },
                    later => later,
                };
                Some((out, end))
            },
        }
    } else if j3 < n && char_at_is(s, j3, '}') {
        let is_name = range_eq(s, i + 1, q, n, name);
        let out = if is_name {
            TopOutcome::Quote(btc)
        } else {
            TopOutcome::NoCurrency
        };
        Some((out, j3 + 1))
    } else {
        None
    }
}

fn parse_top_object_exec(s: &str, i: usize, n: usize, name: &str) -> (r: Option<
    (TopOutcome, usize),
>)
    requires
        n == s@.len(),
        i <= n,
    ensures
        (r is None) == (parse_top_object(s@, i as int, name@) is None),
        r matches Some((o, e)) ==> (parse_top_object(s@, i as int, name@) matches Some((v, end))
            && e as int == end && i < e <= n && top_outcome_matches(o, v)),
{
    if !(i < n && char_at_is(s, i, '{')) {
        return None;
    }
    let j = skip_ws_exec(s, i + 1, n);
    if j < n && char_at_is(s, j, '}') {
        return Some((TopOutcome::NoCurrency, j + 1));
    }
    parse_top_pairs_exec(s, j, n, name)
}

/// Decode a response body and invert the quoted price.
///
/// This is the whole compute half of the fetch stage: the transfer hands
/// the body over as text, and everything after that — decoding the nested
/// object, finding the currency's `"btc"` quote, and computing the
/// fixed-point reciprocal — happens here, exactly as [`rate_from_body`]
/// states it.
pub fn exchange_rate_from_response(body: &str, currency: CurrencyId) -> (r: Result<
    FixedPoint,
    Error,
>)
    ensures
        match rate_from_body(body@, currency) {
            Ok(x) => r matches Ok(f) && f@ == x,
            Err(e) => r == Err::<FixedPoint, Error>(e),
        },
{
    let n = body.unicode_len();
    let name = currency.name();
    let i = skip_ws_exec(body, 0, n);
    match parse_top_object_exec(body, i, n, name) {
        None => Err(Error::Transport),
        Some((found, j)) => {
            let j2 = skip_ws_exec(body, j, n);
            if j2 != n {
                Err(Error::Transport)
            } else {
                match found {
                    TopOutcome::NoCurrency => Err(Error::InvalidResponse),
                    TopOutcome::Quote(QuoteOutcome::Missing) => Err(Error::InvalidResponse),
                    TopOutcome::Quote(QuoteOutcome::Price(true, _)) => Err(
                        Error::InvalidExchangeRate,
                    ),
                    TopOutcome::Quote(QuoteOutcome::Price(false, None)) => Err(
                        Error::InvalidExchangeRate,
                    ),
                    TopOutcome::Quote(QuoteOutcome::Price(false, Some(v))) => {
                        proof {
                            assert(FIXED_POINT_SCALE * FIXED_POINT_SCALE <= u128::MAX)
                                by (nonlinear_arith);
                        }
                        let price = FixedPoint::from_inner(v);
                        match FixedPoint::one().checked_div(&price) {
                            None => Err(Error::InvalidExchangeRate),
                            Some(rate) => Ok(rate),
                        }
                    },
                }
            }
        },
    }
}

/// The pipeline holds no hidden state: its outcome is a function of the
/// response body and the requested currency alone, so two invocations on
/// identical inputs yield identical output.
pub proof fn lemma_rate_deterministic(s1: Seq<char>, s2: Seq<char>, c: CurrencyId)
    requires
        s1 == s2,
    ensures
        rate_from_body(s1, c) == rate_from_body(s2, c),
{
}

} // verus!
