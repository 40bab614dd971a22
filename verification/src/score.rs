//! Similarity scores, compared as IEEE single-precision numbers are.
use vstd::prelude::*;

verus! {

/// A similarity score, held as the bit pattern of an IEEE single-precision
/// number. The sign is the top bit; below it, the patterns of magnitudes are
/// ordered as the magnitudes are, up to infinity, past which lie the NaNs.
#[derive(Debug, Clone, Copy, PartialEq, Eq, Structural)]
pub struct Score {
    pub bits: u32,
}

/// The sign bit.
pub const SIGN_BIT: u32 = 0x8000_0000;

/// The bit pattern of positive infinity.
pub const INFINITY_BITS: u32 = 0x7f80_0000;

/// The bit pattern of 1.0.
pub const ONE_BITS: u32 = 0x3f80_0000;

impl Score {
    /// The bits below the sign.
    pub open spec fn magnitude(self) -> int {
        self.bits as int % SIGN_BIT as int
    }

    /// Whether the pattern is not a number.
    pub open spec fn is_nan(self) -> bool {
        self.magnitude() > INFINITY_BITS
    }

    /// An integer that orders the numbers: equal exactly for equal numbers (both
    /// zeros have rank 0), and growing with them.
    pub open spec fn rank(self) -> int {
        if self.bits >= SIGN_BIT {
            -self.magnitude()
        } else {
            self.magnitude()
        }
    }

    /// Whether this number is greater than `other`. No NaN is greater than
    /// anything, and nothing is greater than a NaN.
    pub open spec fn above(self, other: Score) -> bool {
        !self.is_nan() && !other.is_nan() && self.rank() > other.rank()
    }

    /// Whether this number is at least `floor`; false when either is a NaN.
    pub open spec fn at_least(self, floor: Score) -> bool {
        !self.is_nan() && !floor.is_nan() && self.rank() >= floor.rank()
    }

    /// Whether the number lies between 0.0 and 1.0, both included.
    pub open spec fn in_unit_range(self) -> bool {
        !self.is_nan() && 0 <= self.rank() <= ONE_BITS
    }

    /// The score 1.0, that of an identical prompt.
    pub fn one() -> (s: Score)
        ensures
            s.bits == ONE_BITS,
    {
        Score { bits: ONE_BITS }
    }

    fn split(self) -> (r: (bool, i64))
        ensures
            r.0 == self.is_nan(),
            r.1 == self.rank(),
    {
        let magnitude: u32 = self.bits % SIGN_BIT;
        let nan = magnitude > INFINITY_BITS;
        if self.bits >= SIGN_BIT {
            (nan, -(magnitude as i64))
        } else {
            (nan, magnitude as i64)
        }
    }

    /// Tests `self > other` as numbers.
    pub fn exceeds(self, other: Score) -> (r: bool)
        ensures
            r == self.above(other),
    {
        let (a_nan, a) = self.split();
        let (b_nan, b) = other.split();
        !a_nan && !b_nan && a > b
    }

    /// Tests `self >= floor` as numbers.
    pub fn reaches(self, floor: Score) -> (r: bool)
        ensures
            r == self.at_least(floor),
    {
        let (a_nan, a) = self.split();
        let (b_nan, b) = floor.split();
        !a_nan && !b_nan && a >= b
    }

    /// Tests `0.0 <= self <= 1.0` as numbers.
    pub fn is_unit(self) -> (r: bool)
        ensures
            r == self.in_unit_range(),
    {
        let (nan, a) = self.split();
        !nan && 0 <= a && a <= ONE_BITS as i64
    }
}

/// Comparison is a strict order: irreflexive, transitive, and total up to equal
/// rank on numbers.
pub proof fn law_score_order(a: Score, b: Score, c: Score)
    ensures
        !a.above(a),
        a.above(b) && b.above(c) ==> a.above(c),
        !a.is_nan() && !b.is_nan() ==> a.above(b) || b.above(a) || a.rank() == b.rank(),
{
}

/// What a bit pattern means: the patterns up to that of infinity are the numbers from
/// zero upwards, the same with the sign bit set their negatives, and all others are not
/// numbers. A score is above or at least another as the numbers are, and 1.0 is the
/// upper end of the unit range.
pub proof fn law_score_bits(a: Score, b: Score)
    ensures
        a.is_nan() <==> 0x7f80_0000 < a.bits < 0x8000_0000 || 0xff80_0000 < a.bits,
        a.bits < 0x8000_0000 ==> a.rank() == a.bits,
        a.bits >= 0x8000_0000 ==> a.rank() == 0x8000_0000 - a.bits,
        a.above(b) <==> !a.is_nan() && !b.is_nan() && a.rank() > b.rank(),
        a.at_least(b) <==> !a.is_nan() && !b.is_nan() && a.rank() >= b.rank(),
        a.in_unit_range() <==> a.bits <= 0x3f80_0000 || a.bits == 0x8000_0000,
        ONE_BITS == 0x3f80_0000,
{
}

} // verus!
