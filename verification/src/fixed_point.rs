//! Fixed-point decimal arithmetic for the reported exchange rate.
//!
//! A value is a non-negative decimal stored as an integer scaled by
//! `10^18`, so financial rates are represented exactly instead of through
//! binary floating point. Division is checked: it reports failure instead
//! of panicking, trapping, or producing a non-finite value.

use vstd::prelude::*;
use vstd::arithmetic::div_mod::lemma_fundamental_div_mod;
use vstd::string::StringExecFns;

verus! {

/// Ten to the `k`.
pub open spec fn pow10(k: nat) -> nat
    decreases k,
{
    if k == 0 {
        1
    } else {
        10 * pow10((k - 1) as nat)
    }
}

pub proof fn lemma_pow10_18()
    ensures
        pow10(18) == FIXED_POINT_SCALE,
{
    reveal_with_fuel(pow10, 19);
}

/// `10^38` is the last power of ten inside the 128-bit range.
pub proof fn lemma_pow10_u128_range()
    ensures
        pow10(38) <= u128::MAX,
        pow10(39) > u128::MAX,
{
    reveal_with_fuel(pow10, 40);
}

pub proof fn lemma_pow10_le(a: nat, b: nat)
    requires
        a <= b,
    ensures
        pow10(a) <= pow10(b),
    decreases b,
{
    if a < b {
        lemma_pow10_le(a, (b - 1) as nat);
    }
}

pub proof fn lemma_pow10_add(a: nat, b: nat)
    ensures
        pow10(a + b) == pow10(a) * pow10(b),
    decreases b,
{
    if b == 0 {
        assert(pow10(0) == 1);
        assert(pow10(a + b) == pow10(a));
    } else {
        lemma_pow10_add(a, (b - 1) as nat);
        let ghost prev = pow10((b - 1) as nat);
        assert(pow10(a + b) == 10 * pow10((a + b - 1) as nat));
        assert(pow10((a + b - 1) as nat) == pow10(a + (b - 1) as nat));
        assert(pow10(a + (b - 1) as nat) == pow10(a) * prev);
        assert(pow10(b) == 10 * prev);
        assert(10 * (pow10(a) * prev) == pow10(a) * (10 * prev)) by (nonlinear_arith);
        assert(pow10(a + b) == pow10(a) * pow10(b));
    }
}

/// The character of a single decimal digit.
pub open spec fn digit_char(d: nat) -> char {
    if d == 0 {
        '0'
    } else if d == 1 {
        '1'
    } else if d == 2 {
        '2'
    } else if d == 3 {
        '3'
    } else if d == 4 {
        '4'
    } else if d == 5 {
        '5'
    } else if d == 6 {
        '6'
    } else if d == 7 {
        '7'
    } else if d == 8 {
        '8'
    } else {
        '9'
    }
}

/// The decimal digits of `n`, most significant first, without leading
/// zeros (`0` itself is the single digit `0`).
pub open spec fn decimal_digits(n: nat) -> Seq<char>
    decreases n,
{
    if n < 10 {
        seq![digit_char(n)]
    } else {
        decimal_digits(n / 10) + seq![digit_char(n % 10)]
    }
}

/// The scale factor: one whole unit is `10^18` raw ticks.
pub const FIXED_POINT_SCALE: u128 = 1_000_000_000_000_000_000;

/// A value below `10^k` has at most `k` decimal digits.
proof fn lemma_decimal_digits_len(n: nat, k: nat)
    requires
        n < pow10(k),
        k >= 1,
    ensures
        decimal_digits(n).len() <= k,
    decreases n,
{
    if n < 10 {
    } else {
        // k == 1 would put n below pow10(1) == 10
        assert(pow10(1) == 10 * pow10(0));
        assert(k >= 2);
        lemma_fundamental_div_mod(n as int, 10);
        assert(pow10(k) == 10 * pow10((k - 1) as nat));
        assert(n / 10 < pow10((k - 1) as nat));
        lemma_decimal_digits_len(n / 10, (k - 1) as nat);
    }
}

fn digit_str(d: u128) -> (r: &'static str)
    requires
        d < 10,
    ensures
        r@ == seq![digit_char(d as nat)],
{
    if d == 0 {
        proof {
            reveal_strlit("0");
            assert("0"@ =~= seq![digit_char(0)]);
        }
        "0"
    } else if d == 1 {
        proof {
            reveal_strlit("1");
            assert("1"@ =~= seq![digit_char(1)]);
        }
        "1"
    } else if d == 2 {
        proof {
            reveal_strlit("2");
            assert("2"@ =~= seq![digit_char(2)]);
        }
        "2"
    } else if d == 3 {
        proof {
            reveal_strlit("3");
            assert("3"@ =~= seq![digit_char(3)]);
        }
        "3"
    } else if d == 4 {
        proof {
            reveal_strlit("4");
            assert("4"@ =~= seq![digit_char(4)]);
        }
        "4"
    } else if d == 5 {
        proof {
            reveal_strlit("5");
            assert("5"@ =~= seq![digit_char(5)]);
        }
        "5"
    } else if d == 6 {
        proof {
            reveal_strlit("6");
            assert("6"@ =~= seq![digit_char(6)]);
        }
        "6"
    } else if d == 7 {
        proof {
            reveal_strlit("7");
            assert("7"@ =~= seq![digit_char(7)]);
        }
        "7"
    } else if d == 8 {
        proof {
            reveal_strlit("8");
            assert("8"@ =~= seq![digit_char(8)]);
        }
        "8"
    } else {
        proof {
            reveal_strlit("9");
            assert("9"@ =~= seq![digit_char(9)]);
        }
        "9"
    }
}

/// Render `n` in decimal, most significant digit first.
fn decimal_string(n: u128) -> (r: String)
    ensures
        r@ == decimal_digits(n as nat),
    decreases n,
{
    if n < 10 {
        String::from_str(digit_str(n))
    } else {
        proof {
            assert(n / 10 < n) by (nonlinear_arith)
                requires
                    n >= 10,
            ;
        }
        let mut s = decimal_string(n / 10);
        s.append(digit_str(n % 10));
        proof {
            assert(s@ =~= decimal_digits(n as nat));
        }
        s
    }
}

/// A non-negative fixed-point decimal with eighteen fractional digits.
///
/// The mathematical value of `f` is `f@ / 10^18`; all contracts speak of
/// the raw scaled integer `f@`.
#[derive(Clone, Copy, PartialEq, Eq, Structural, Debug)]
pub struct FixedPoint {
    inner: u128,
}

impl View for FixedPoint {
    type V = u128;

    closed spec fn view(&self) -> u128 {
        self.inner
    }
}

impl FixedPoint {
    /// Build a value from its raw scaled representation.
    pub fn from_inner(inner: u128) -> (r: FixedPoint)
        ensures
            r@ == inner,
    {
        FixedPoint { inner }
    }

    /// The raw scaled representation.
    pub fn into_inner(self) -> (r: u128)
        ensures
            r == self@,
    {
        self.inner
    }

    /// The fixed-point representation of `1`.
    pub fn one() -> (r: FixedPoint)
        ensures
            r@ == FIXED_POINT_SCALE,
    {
        FixedPoint { inner: FIXED_POINT_SCALE }
    }

    /// Render the value in decimal for reporting: the integer part, a
    /// dot, and all eighteen fractional digits, as in
    /// `"2000.000000000000000000"`.
    pub fn to_decimal_string(&self) -> (r: String)
        ensures
            r@ == decimal_digits((self@ / FIXED_POINT_SCALE) as nat) + "."@ + Seq::new(
                (18 - decimal_digits((self@ % FIXED_POINT_SCALE) as nat).len()) as nat,
                |x: int| '0',
            ) + decimal_digits((self@ % FIXED_POINT_SCALE) as nat),
    {
        let ip = self.inner / FIXED_POINT_SCALE;
        let fp = self.inner % FIXED_POINT_SCALE;
        proof {
            lemma_pow10_18();
            lemma_decimal_digits_len(fp as nat, 18);
        }
        let frac = decimal_string(fp);
        let flen = frac.as_str().unicode_len();
        let mut s = decimal_string(ip);
        s.append(".");
        let target = 18 - flen;
        let mut padded: usize = 0;
        proof {
            assert(s@ =~= decimal_digits(ip as nat) + "."@ + Seq::new(0, |x: int| '0'));
        }
        while padded < target
            invariant
                padded <= target,
                s@ == decimal_digits(ip as nat) + "."@ + Seq::new(padded as nat, |x: int| '0'),
            decreases target - padded,
        {
            s.append("0");
            proof {
                reveal_strlit("0");
                assert(s@ =~= decimal_digits(ip as nat) + "."@ + Seq::new(
                    (padded + 1) as nat,
                    |x: int| '0',
                ));
            }
            padded = padded + 1;
        }
        s.append(frac.as_str());
        proof {
            assert(s@ =~= decimal_digits((self@ / FIXED_POINT_SCALE) as nat) + "."@ + Seq::new(
                (18 - decimal_digits((self@ % FIXED_POINT_SCALE) as nat).len()) as nat,
                |x: int| '0',
            ) + decimal_digits((self@ % FIXED_POINT_SCALE) as nat));
        }
        s
    }

    /// Checked fixed-point division: `self / rhs`, rounded toward zero.
    ///
    /// Fails (returns `None`) when the divisor is zero or when the scaled
    /// dividend `self@ * 10^18` does not fit the 128-bit domain; it never
    /// panics and never produces a non-finite value.
    pub fn checked_div(&self, rhs: &FixedPoint) -> (r: Option<FixedPoint>)
        ensures
            rhs@ == 0 ==> r is None,
            rhs@ != 0 && self@ * FIXED_POINT_SCALE > u128::MAX ==> r is None,
            rhs@ != 0 && self@ * FIXED_POINT_SCALE <= u128::MAX ==>
                (r matches Some(q) && q@ == self@ * FIXED_POINT_SCALE / rhs@ as int),
    {
        if rhs.inner == 0 {
            return None;
        }
        let limit = u128::MAX / FIXED_POINT_SCALE;
        proof {
            lemma_fundamental_div_mod(u128::MAX as int, FIXED_POINT_SCALE as int);
        }
        if self.inner > limit {
            proof {
                assert(self.inner * FIXED_POINT_SCALE >= (limit + 1) * FIXED_POINT_SCALE)
                    by (nonlinear_arith)
                    requires
                        self.inner >= limit + 1,
                        FIXED_POINT_SCALE > 0,
                ;
            }
            return None;
        }
        proof {
            assert(self.inner * FIXED_POINT_SCALE <= limit * FIXED_POINT_SCALE)
                by (nonlinear_arith)
                requires
                    self.inner <= limit,
                    FIXED_POINT_SCALE > 0,
            ;
        }
        let scaled = self.inner * FIXED_POINT_SCALE;
        Some(FixedPoint { inner: scaled / rhs.inner })
    }
}

} // verus!
