//! Exact fixed-point decimal amounts.
//!
//! An amount is an integer count of units, one unit being `10^-SCALE_DIGITS`.
//! All aggregation is addition and subtraction of units, so no rounding ever
//! happens once a literal has been read.

use bigdecimal::BigDecimal;
use std::str::FromStr;
use vstd::prelude::*;

verus! {

/// Number of fractional decimal digits that an amount keeps.
pub const SCALE_DIGITS: i64 = 8;

/// Largest magnitude, in units, of a single amount that aggregation adds up
/// (2^60); it keeps every sum over a sequence of events within an `i128`.
pub const AMOUNT_LIMIT: i128 = 0x1000_0000_0000_0000;

/// An exact decimal amount: `units * 10^-SCALE_DIGITS`.
#[derive(Clone, Copy, PartialEq, Eq, Structural, Debug)]
pub struct Decimal {
    pub units: i128,
}

/// The digits and scale that `BigDecimal::from_str` reads from a literal:
/// `Some((digits, scale))` for the value `digits * 10^-scale`, `None` where the
/// literal is refused.
pub uninterp spec fn decimal_parts(s: Seq<char>) -> Option<(int, int)>;

/// `m * 10^k`.
pub open spec fn shift_up(m: int, k: nat) -> int
    decreases k,
{
    if k == 0 {
        m
    } else {
        shift_up(m, (k - 1) as nat) * 10
    }
}

/// `m / 10^k` where that division is exact, `None` otherwise.
pub open spec fn shift_down(m: int, k: nat) -> Option<int>
    decreases k,
{
    if k == 0 {
        Some(m)
    } else if m % 10 == 0 {
        shift_down(m / 10, (k - 1) as nat)
    } else {
        None
    }
}

/// The units of `digits * 10^-scale`, where that value is a whole number of units.
pub open spec fn units_of_parts(digits: int, scale: int) -> Option<int> {
    if scale <= SCALE_DIGITS {
        Some(shift_up(digits, (SCALE_DIGITS - scale) as nat))
    } else {
        shift_down(digits, (scale - SCALE_DIGITS) as nat)
    }
}

pub open spec fn within_limit(u: int) -> bool {
    -AMOUNT_LIMIT <= u <= AMOUNT_LIMIT
}

pub open spec fn fits_i128(u: int) -> bool {
    i128::MIN <= u <= i128::MAX
}

/// The units of a decimal literal: it must be read by `BigDecimal`, its
/// digits and its value in units must fit in an `i128`, and its value must be
/// a whole number of units, that is have at most `SCALE_DIGITS` fractional
/// digits that are not zero. Any other literal does not read as an amount.
pub open spec fn literal_units(s: Seq<char>) -> Option<int> {
    match decimal_parts(s) {
        Some((m, e)) => {
            if fits_i128(m) {
                match units_of_parts(m, e) {
                    Some(u) => if fits_i128(u) {
                        Some(u)
                    } else {
                        None
                    },
                    None => None,
                }
            } else {
                None
            }
        },
        None => None,
    }
}

/// Relies on `BigDecimal::from_str` (bigdecimal) to read a decimal literal into
/// its digits and scale, and on num-bigint's `TryFrom<BigInt> for i128` to hand
/// the digits back where they fit in an `i128`.
#[verifier::external_body]
fn read_decimal_parts(s: &str) -> (r: Option<(i128, i64)>)
    ensures
        r matches Some((m, e)) ==> decimal_parts(s@) == Some((m as int, e as int)),
        r is None <==> match decimal_parts(s@) {
            Some((m, _)) => !(i128::MIN <= m <= i128::MAX),
            None => true,
        },
{
    match BigDecimal::from_str(s) {
        Ok(d) => {
            let (digits, scale) = d.into_bigint_and_exponent();
            match i128::try_from(digits) {
                Ok(m) => Some((m, scale)),
                Err(_) => None,
            }
        },
        Err(_) => None,
    }
}

proof fn lemma_shift_up_zero(k: nat)
    ensures
        shift_up(0, k) == 0,
    decreases k,
{
    if k > 0 {
        lemma_shift_up_zero((k - 1) as nat);
    }
}

proof fn lemma_shift_down_zero(k: nat)
    ensures
        shift_down(0, k) == Some(0int),
    decreases k,
{
    if k > 0 {
        lemma_shift_down_zero((k - 1) as nat);
    }
}

/// Once out of the `i128` range, shifting further up stays out of it.
proof fn lemma_shift_up_grows(m: int, i: nat, k: nat)
    requires
        i <= k,
        !fits_i128(shift_up(m, i)),
    ensures
        !fits_i128(shift_up(m, k)),
    decreases k - i,
{
    if i < k {
        lemma_shift_up_grows(m, i, (k - 1) as nat);
    }
}

/// `m * 10^k`, or `None` where it leaves the `i128` range.
fn scale_up(m: i128, k: u64) -> (r: Option<i128>)
    ensures
        fits_i128(shift_up(m as int, k as nat)) ==> r == Some(shift_up(m as int, k as nat) as i128),
        !fits_i128(shift_up(m as int, k as nat)) ==> r is None,
{
    if m == 0 {
        proof {
            lemma_shift_up_zero(k as nat);
        }
        return Some(0);
    }
    let mut cur: i128 = m;
    let mut i: u64 = 0;
    while i < k
        invariant
            i <= k,
            cur as int == shift_up(m as int, i as nat),
        decreases k - i,
    {
        let next = cur.checked_mul(10);
        i = i + 1;
        match next {
            Some(n) => {
                cur = n;
            },
            None => {
                proof {
                    lemma_shift_up_grows(m as int, i as nat, k as nat);
                }
                return None;
            },
        }
    }
    Some(cur)
}

/// `m / 10^k` where the division is exact.
fn scale_down(m: i128, k: u64) -> (r: Option<i128>)
    ensures
        r matches Some(v) ==> shift_down(m as int, k as nat) == Some(v as int),
        r is None ==> shift_down(m as int, k as nat) is None,
{
    if m == 0 {
        proof {
            lemma_shift_down_zero(k as nat);
        }
        return Some(0);
    }
    let mut cur: i128 = m;
    let mut i: u64 = 0;
    while i < k
        invariant
            i <= k,
            shift_down(m as int, k as nat) == shift_down(cur as int, (k - i) as nat),
        decreases k - i,
    {
        let rem = cur.checked_rem_euclid(10);
        if rem != Some(0i128) {
            return None;
        }
        let next = cur.checked_div_euclid(10);
        match next {
            Some(n) => {
                cur = n;
            },
            None => {
                return None;
            },
        }
        i = i + 1;
    }
    Some(cur)
}

impl Decimal {
    /// The amount zero.
    pub fn zero() -> (r: Decimal)
        ensures
            r.units == 0,
    {
        Decimal { units: 0 }
    }

    /// Whether the amount is at most `AMOUNT_LIMIT` units away from zero.
    pub fn is_within_limit(&self) -> (r: bool)
        ensures
            r == within_limit(self.units as int),
    {
        -AMOUNT_LIMIT <= self.units && self.units <= AMOUNT_LIMIT
    }

    /// Reads a decimal literal such as `"-2.5"`, `"50000"` or `"1e-3"`.
    /// Returns `None` for anything that is not an exact amount: a literal
    /// that `BigDecimal` refuses, one with more than `SCALE_DIGITS` fractional
    /// digits that are not zero, or one whose units leave the `i128` range.
    pub fn parse(s: &str) -> (r: Option<Decimal>)
        ensures
            match literal_units(s@) {
                Some(u) => r == Some(Decimal { units: u as i128 }),
                None => r is None,
            },
    {
        match read_decimal_parts(s) {
            None => None,
            Some((m, e)) => {
                let scaled = if e <= SCALE_DIGITS {
                    let k: u64 = (SCALE_DIGITS as i128 - e as i128) as u64;
                    scale_up(m, k)
                } else {
                    let k: u64 = (e as i128 - SCALE_DIGITS as i128) as u64;
                    scale_down(m, k)
                };
                match scaled {
                    Some(u) => Some(Decimal { units: u }),
                    None => None,
                }
            },
        }
    }
}

} // verus!
