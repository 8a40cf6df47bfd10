//! Exact percentages, kept as a fraction so that no rounding takes place.
use vstd::prelude::*;

verus! {

/// A percentage equal to `numerator / denominator`; the denominator is never 0.
#[derive(Clone, Copy, Debug, PartialEq, Eq, Structural)]
pub struct PercentChange {
    pub numerator: i128,
    pub denominator: usize,
}

impl PercentChange {
    /// The zero percentage.
    pub fn zero() -> (r: PercentChange)
        ensures
            r.numerator == 0,
            r.denominator == 1,
    {
        PercentChange { numerator: 0, denominator: 1 }
    }

    /// `100 * (whole - part) / whole`: how many percent of `whole` are saved
    /// when it shrinks to `part`, or zero when `whole` is 0.
    pub fn saving(part: usize, whole: usize) -> (r: PercentChange)
        ensures
            whole == 0 ==> r.numerator == 0 && r.denominator == 1,
            whole > 0 ==> r.numerator == 100 * (whole - part) && r.denominator == whole,
    {
        if whole == 0 {
            PercentChange::zero()
        } else {
            let p = part as i128;
            let w = whole as i128;
            PercentChange { numerator: 100 * (w - p), denominator: whole }
        }
    }

    /// `100 * (part - whole) / whole`: how many percent `part` lies above
    /// `whole`, or zero when `whole` is 0.
    pub fn growth(part: usize, whole: usize) -> (r: PercentChange)
        ensures
            whole == 0 ==> r.numerator == 0 && r.denominator == 1,
            whole > 0 ==> r.numerator == 100 * (part - whole) && r.denominator == whole,
    {
        if whole == 0 {
            PercentChange::zero()
        } else {
            let p = part as i128;
            let w = whole as i128;
            PercentChange { numerator: 100 * (p - w), denominator: whole }
        }
    }

    /// Whether the percentage is above zero.
    pub fn is_positive(&self) -> (r: bool)
        ensures
            r == (self.numerator > 0),
    {
        self.numerator > 0
    }

    /// Whether the percentage is below zero.
    pub fn is_negative(&self) -> (r: bool)
        ensures
            r == (self.numerator < 0),
    {
        self.numerator < 0
    }
}

} // verus!
