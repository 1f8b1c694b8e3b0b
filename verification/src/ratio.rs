//! Exact fractions of counts.

use vstd::prelude::*;

verus! {

/// A fraction of two natural numbers. With a zero denominator it has no value.
pub struct Fraction {
    pub numerator: nat,
    pub denominator: nat,
}

impl Fraction {
    /// Whether the fraction has a value.
    pub open spec fn is_defined(self) -> bool {
        self.denominator > 0
    }

    /// Whether two fractions with a value have the same value.
    pub open spec fn same_value(self, other: Fraction) -> bool {
        self.numerator * other.denominator == other.numerator * self.denominator
    }
}

/// A probability as the exact fraction of two counts. With a zero denominator
/// the probability is undefined.
#[derive(Debug, Clone, Copy, PartialEq, Eq, Structural)]
pub struct Ratio {
    pub numerator: u128,
    pub denominator: u128,
}

impl View for Ratio {
    type V = Fraction;

    open spec fn view(&self) -> Fraction {
        Fraction { numerator: self.numerator as nat, denominator: self.denominator as nat }
    }
}

impl Ratio {
    /// Whether the probability is defined.
    pub fn is_defined(&self) -> (b: bool)
        ensures
            b == self@.is_defined(),
    {
        self.denominator != 0
    }
}

/// The product of two counts, which fits the wider type.
pub fn product(a: usize, b: usize) -> (c: u128)
    ensures
        c as nat == (a as nat) * (b as nat),
{
    assert((a as nat) * (b as nat) <= 0xffff_ffff_ffff_ffff * 0xffff_ffff_ffff_ffff) by (nonlinear_arith)
        requires
            a <= 0xffff_ffff_ffff_ffff,
            b <= 0xffff_ffff_ffff_ffff,
    ;
    (a as u128) * (b as u128)
}

} // verus!
