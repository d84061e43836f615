//! Similarity scores and thresholds as exact fractions.
use vstd::prelude::*;

verus! {

/// A non-negative fraction `num / den`, used for similarity scores (in
/// `0..=1`) and for the thresholds they are compared with.
#[derive(Clone, Copy, Debug, PartialEq, Eq, Structural)]
pub struct Ratio {
    pub num: u64,
    pub den: u64,
}

/// `a >= b` as fractions (denominators taken as given).
pub open spec fn ratio_ge(a: Ratio, b: Ratio) -> bool {
    (a.num as int) * (b.den as int) >= (b.num as int) * (a.den as int)
}

/// `a > b` as fractions.
pub open spec fn ratio_gt(a: Ratio, b: Ratio) -> bool {
    (a.num as int) * (b.den as int) > (b.num as int) * (a.den as int)
}

/// `a * b` without overflow.
fn wide_mul(a: u64, b: u64) -> (r: u128)
    ensures
        r == (a as int) * (b as int),
{
    proof {
        assert((a as int) * (b as int) <= (u64::MAX as int) * (u64::MAX as int)) by (nonlinear_arith)
            requires
                a <= u64::MAX,
                b <= u64::MAX,
                0 <= a,
                0 <= b,
        ;
    }
    (a as u128) * (b as u128)
}

impl Ratio {
    /// The fraction `num / den`.
    pub fn new(num: u64, den: u64) -> (r: Ratio)
        ensures
            r.num == num,
            r.den == den,
    {
        Ratio { num, den }
    }

    /// `self >= other` as fractions.
    pub fn ge(&self, other: &Ratio) -> (b: bool)
        ensures
            b == ratio_ge(*self, *other),
    {
        wide_mul(self.num, other.den) >= wide_mul(other.num, self.den)
    }

    /// `self > other` as fractions.
    pub fn gt(&self, other: &Ratio) -> (b: bool)
        ensures
            b == ratio_gt(*self, *other),
    {
        wide_mul(self.num, other.den) > wide_mul(other.num, self.den)
    }
}

} // verus!
