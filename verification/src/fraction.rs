//! Decimal fractions with 18 decimal places, and the one trusted ratio
//! primitive every rounded-down multiplication in the engine goes through.

use vstd::arithmetic::div_mod::{lemma_div_is_ordered, lemma_div_multiples_vanish};
use vstd::arithmetic::mul::lemma_mul_inequality;
use vstd::prelude::*;

verus! {

/// Number of atomic units in one whole: fractions carry 18 decimal places.
pub const FRACTION_UNIT: u128 = 1_000_000_000_000_000_000;

/// A non-negative decimal fraction with 18 decimal places, stored as a count
/// of atomic units: `Fraction { atomics }` stands for `atomics / 10^18`, so
/// `atomics == FRACTION_UNIT` is exactly 1.
///
/// Validator weights and commission rates are fractions.
#[derive(Clone, Copy, Debug, PartialEq, Eq, Structural, Hash)]
pub struct Fraction {
    pub atomics: u128,
}

/// `a * num / den` as the mathematical integers: the product scaled by the
/// ratio `num / den` and rounded down.
pub open spec fn mul_ratio(a: int, num: int, den: int) -> int {
    (a * num) / den
}

/// Relies on `cosmwasm_std::Uint128::checked_multiply_ratio`: it returns
/// `a * num / den` rounded down (computed through a 256-bit intermediate),
/// and fails exactly when `den` is zero or the quotient exceeds `u128::MAX`.
#[verifier::external_body]
pub(crate) fn checked_mul_ratio(a: u128, num: u128, den: u128) -> (r: Option<u128>)
    ensures
        den == 0 ==> r is None,
        den != 0 && mul_ratio(a as int, num as int, den as int) <= u128::MAX ==> r
            == Some((mul_ratio(a as int, num as int, den as int)) as u128),
        den != 0 && mul_ratio(a as int, num as int, den as int) > u128::MAX ==> r is None,
{
    match cosmwasm_std::Uint128::new(a).checked_multiply_ratio(num, den) {
        Ok(v) => Some(v.u128()),
        Err(_) => None,
    }
}

impl Fraction {
    /// The fraction 0.
    pub fn zero() -> (r: Fraction)
        ensures
            r.atomics == 0,
    {
        Fraction { atomics: 0 }
    }

    /// The fraction 1.
    pub fn one() -> (r: Fraction)
        ensures
            r.atomics == FRACTION_UNIT,
    {
        Fraction { atomics: FRACTION_UNIT }
    }

    /// A fraction from a percentage, e.g. `percent(50)` is one half.
    pub fn percent(p: u64) -> (r: Option<Fraction>)
        ensures
            p * (FRACTION_UNIT / 100) <= u128::MAX ==> r == Some(
                Fraction { atomics: (p * (FRACTION_UNIT / 100)) as u128 },
            ),
            p * (FRACTION_UNIT / 100) > u128::MAX ==> r is None,
    {
        match (p as u128).checked_mul(FRACTION_UNIT / 100) {
            Some(atomics) => Some(Fraction { atomics }),
            None => None,
        }
    }

    pub fn is_zero(&self) -> (r: bool)
        ensures
            r == (self.atomics == 0),
    {
        self.atomics == 0
    }

    pub fn lt(&self, other: &Fraction) -> (r: bool)
        ensures
            r == (self.atomics < other.atomics),
    {
        self.atomics < other.atomics
    }

    pub fn gt(&self, other: &Fraction) -> (r: bool)
        ensures
            r == (self.atomics > other.atomics),
    {
        self.atomics > other.atomics
    }

    /// The ratio `num / den` as a fraction, rounded down to an atomic unit.
    pub fn from_ratio(num: u128, den: u128) -> (r: Option<Fraction>)
        ensures
            den == 0 ==> r is None,
            den != 0 && mul_ratio(num as int, FRACTION_UNIT as int, den as int) <= u128::MAX ==> r
                == Some(
                Fraction { atomics: mul_ratio(num as int, FRACTION_UNIT as int, den as int) as u128 },
            ),
            den != 0 && mul_ratio(num as int, FRACTION_UNIT as int, den as int) > u128::MAX ==> r
                is None,
    {
        match checked_mul_ratio(num, FRACTION_UNIT, den) {
            Some(atomics) => Some(Fraction { atomics }),
            None => None,
        }
    }

    /// `amount * self` rounded down to a whole unit, for a fraction of at
    /// most 1 (so the product never leaves the `u128` range).
    pub fn mul_amount(&self, amount: u128) -> (r: u128)
        requires
            self.atomics <= FRACTION_UNIT,
        ensures
            r == mul_ratio(amount as int, self.atomics as int, FRACTION_UNIT as int),
    {
        proof {
            lemma_mul_ratio_le_for_small_fraction(amount as int, self.atomics as int);
        }
        match checked_mul_ratio(amount, self.atomics, FRACTION_UNIT) {
            Some(v) => v,
            None => {
                proof {
                    assert(false);
                }
                0
            },
        }
    }
}

/// For a fraction of at most 1, scaling an amount down never exceeds the
/// amount itself.
pub proof fn lemma_mul_ratio_le_for_small_fraction(amount: int, atomics: int)
    requires
        0 <= amount,
        0 <= atomics <= FRACTION_UNIT,
    ensures
        mul_ratio(amount, atomics, FRACTION_UNIT as int) <= amount,
{
    let unit = FRACTION_UNIT as int;
    lemma_mul_inequality(atomics, unit, amount);
    assert(amount * atomics == atomics * amount) by (nonlinear_arith);
    assert(amount * unit == unit * amount) by (nonlinear_arith);
    lemma_div_is_ordered(amount * atomics, amount * unit, unit);
    lemma_div_multiples_vanish(amount, unit);
}

} // verus!
