//! Non-negative rational numbers, the scale on which scores and thresholds
//! are measured.

use vstd::prelude::*;

verus! {

/// The fraction `num / den`. A ratio stands for a number when `den` is not
/// zero; comparisons are made by cross multiplication, so they are defined
/// for every pair of values.
#[derive(Clone, Copy, Debug)]
pub struct Ratio {
    pub num: u64,
    pub den: u64,
}

impl Ratio {
    /// Whether the denominator is positive, so that the ratio is a number.
    pub open spec fn wf(self) -> bool {
        self.den > 0
    }

    /// `self >= other`.
    pub open spec fn ge(self, other: Ratio) -> bool {
        self.num * other.den >= other.num * self.den
    }

    /// `2 * self < 3 * other`, that is, `self` lies below one and a half
    /// times `other`.
    pub open spec fn below_one_and_a_half(self, other: Ratio) -> bool {
        2 * (self.num * other.den) < 3 * (other.num * self.den)
    }

    /// `self < 2 * other`.
    pub open spec fn below_twice(self, other: Ratio) -> bool {
        self.num * other.den < 2 * (other.num * self.den)
    }

    /// The ratio `num / den`, or `None` when `den` is zero.
    pub fn new(num: u64, den: u64) -> (r: Option<Ratio>)
        ensures
            den == 0 ==> r is None,
            den != 0 ==> r == Some(Ratio { num, den }),
            r matches Some(ratio) ==> ratio.wf(),
    {
        if den == 0 {
            None
        } else {
            Some(Ratio { num, den })
        }
    }

    /// The whole number `n`.
    pub fn whole(n: u64) -> (r: Ratio)
        ensures
            r == (Ratio { num: n, den: 1 }),
    {
        Ratio { num: n, den: 1 }
    }

    /// The number zero.
    pub fn zero() -> (r: Ratio)
        ensures
            r == (Ratio { num: 0, den: 1 }),
    {
        Ratio { num: 0, den: 1 }
    }

    /// Decides `self >= other`.
    pub fn at_least(&self, other: &Ratio) -> (b: bool)
        ensures
            b == self.ge(*other),
    {
        product(self.num, other.den) >= product(other.num, self.den)
    }

    /// Decides whether `self` lies below one and a half times `other`.
    pub fn is_below_one_and_a_half(&self, other: &Ratio) -> (b: bool)
        ensures
            b == self.below_one_and_a_half(*other),
    {
        let left: u128 = product(self.num, other.den);
        let right: u128 = product(other.num, self.den);
        if left < right {
            true
        } else {
            // 2 * left < 3 * right  <==>  2 * (left - right) < right
            let excess: u128 = left - right;
            excess <= right && excess < right - excess
        }
    }

    /// Decides `self < 2 * other`.
    pub fn is_below_twice(&self, other: &Ratio) -> (b: bool)
        ensures
            b == self.below_twice(*other),
    {
        let left: u128 = product(self.num, other.den);
        let right: u128 = product(other.num, self.den);
        if left < right {
            true
        } else {
            left - right < right
        }
    }
}

/// The product of two 64-bit numbers, which always fits in 128 bits.
pub fn product(a: u64, b: u64) -> (p: u128)
    ensures
        p == a * b,
{
    assert(a * b <= 0xFFFF_FFFF_FFFF_FFFF * 0xFFFF_FFFF_FFFF_FFFF) by (nonlinear_arith)
        requires
            0 <= a <= 0xFFFF_FFFF_FFFF_FFFF,
            0 <= b <= 0xFFFF_FFFF_FFFF_FFFF,
    ;
    (a as u128) * (b as u128)
}

} // verus!
