//! Fixed-point decimal amounts.
//!
//! Every price and quantity in the book is an `Amount`: an exact count of
//! units of size 10^-9. The representation is canonical, so `100.0` and
//! `100.00` are the same value and derived equality is numeric equality.
//! The only divisions in the engine (mid price, average fill price) round
//! toward zero at this scale; that rounding rule is part of the contracts.
use vstd::prelude::*;

verus! {

/// Number of decimal places carried by an `Amount`.
pub const AMOUNT_SCALE: u32 = 9;

/// 10^AMOUNT_SCALE: the number of units in one whole.
pub const UNITS_PER_WHOLE: u64 = 1_000_000_000;

/// An exact non-negative fixed-point decimal: `units` counts multiples of
/// 10^-9.
#[derive(Clone, Copy, Debug, PartialEq, Eq, Structural)]
pub struct Amount {
    pub units: u64,
}

impl Amount {
    /// The zero amount.
    pub fn zero() -> (r: Amount)
        ensures
            r.units == 0,
    {
        Amount { units: 0 }
    }

    /// The amount of `units` multiples of 10^-9.
    pub fn from_units(units: u64) -> (r: Amount)
        ensures
            r.units == units,
    {
        Amount { units }
    }

    /// The amount with value `mantissa * 10^-places`, or `None` when
    /// `places` exceeds the carried scale or the value does not fit.
    pub fn from_scaled(mantissa: u64, places: u32) -> (r: Option<Amount>)
        ensures
            r is Some ==> places <= AMOUNT_SCALE && r->0.units == mantissa * pow10(
                (AMOUNT_SCALE - places) as nat,
            ),
            r is None ==> places > AMOUNT_SCALE || mantissa * pow10((AMOUNT_SCALE - places) as nat)
                > u64::MAX,
    {
        if places > AMOUNT_SCALE {
            return None;
        }
        let mut factor: u64 = 1;
        let mut i: u32 = 0;
        while i < AMOUNT_SCALE - places
            invariant
                i <= AMOUNT_SCALE - places,
                AMOUNT_SCALE - places <= 9,
                factor == pow10(i as nat),
                factor <= 1_000_000_000,
            decreases AMOUNT_SCALE - places - i,
        {
            proof {
                lemma_pow10_bounds((i + 1) as nat);
            }
            factor = factor * 10;
            i = i + 1;
        }
        match mantissa.checked_mul(factor) {
            Some(units) => Some(Amount { units }),
            None => None,
        }
    }

    /// The amount worth `n` wholes, or `None` when it does not fit.
    pub fn from_int(n: u64) -> (r: Option<Amount>)
        ensures
            r is Some ==> r->0.units == n * UNITS_PER_WHOLE,
            r is None ==> n * UNITS_PER_WHOLE > u64::MAX,
    {
        match n.checked_mul(UNITS_PER_WHOLE) {
            Some(units) => Some(Amount { units }),
            None => None,
        }
    }

    /// True when the value is zero.
    pub fn is_zero(&self) -> (r: bool)
        ensures
            r == (self.units == 0),
    {
        self.units == 0
    }

    /// Strictly-less comparison by numeric value.
    pub fn lt(&self, other: &Amount) -> (r: bool)
        ensures
            r == (self.units < other.units),
    {
        self.units < other.units
    }

    /// Less-or-equal comparison by numeric value.
    pub fn le(&self, other: &Amount) -> (r: bool)
        ensures
            r == (self.units <= other.units),
    {
        self.units <= other.units
    }

    /// Exact difference; the contract demands that it cannot go negative.
    pub fn sub(&self, other: &Amount) -> (r: Amount)
        requires
            other.units <= self.units,
        ensures
            r.units == self.units - other.units,
    {
        Amount { units: self.units - other.units }
    }

    /// Exact sum; the contract demands that it fits.
    pub fn add(&self, other: &Amount) -> (r: Amount)
        requires
            self.units + other.units <= u64::MAX,
        ensures
            r.units == self.units + other.units,
    {
        Amount { units: self.units + other.units }
    }
}

/// 10^e, for reasoning about the constructors' scaling.
pub open spec fn pow10(e: nat) -> nat
    decreases e,
{
    if e == 0 {
        1
    } else {
        10 * pow10((e - 1) as nat)
    }
}

/// 10^e is positive.
pub proof fn lemma_pow10_pos(e: nat)
    ensures
        pow10(e) >= 1,
    decreases e,
{
    if e > 0 {
        lemma_pow10_pos((e - 1) as nat);
    }
}

/// 10^e grows with the exponent.
pub proof fn lemma_pow10_mono(a: nat, b: nat)
    requires
        a <= b,
    ensures
        pow10(a) <= pow10(b),
    decreases b,
{
    if a < b {
        lemma_pow10_mono(a, (b - 1) as nat);
        lemma_pow10_pos((b - 1) as nat);
    }
}

/// 10^e stays within u64 range for every exponent up to the carried scale.
pub proof fn lemma_pow10_bounds(e: nat)
    requires
        e <= 9,
    ensures
        pow10(e) <= 1_000_000_000,
{
    lemma_pow10_mono(e, 9);
    reveal_with_fuel(pow10, 11);
    assert(pow10(9) == 1_000_000_000);
}

} // verus!
