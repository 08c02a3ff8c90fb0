//! Confidence scores, held as the bit pattern of an IEEE-754 single.
//!
//! The order of two numbers can be read off their bit patterns: the top bit
//! is the sign, the remaining 31 bits grow with the magnitude, and a
//! magnitude above that of infinity is not a number.  `Score::rank` turns
//! this into one integer per pattern, so that comparing scores is comparing
//! integers.

use vstd::prelude::*;
use crate::single::pattern::{
    INFINITY_BITS,
    lemma_magnitude_value_increases,
    magnitude_value,
    SIGN_BIT,
};

verus! {

/// A confidence score.  Two scores are `==` when their bit patterns are.
#[derive(Debug, Clone, Copy, PartialEq, Eq, Structural)]
pub struct Score {
    /// The IEEE-754 single-precision bit pattern of the score.
    pub bits: u32,
}

impl Score {
    /// The pattern without its sign bit.
    pub open spec fn magnitude(self) -> int {
        if self.bits >= SIGN_BIT {
            self.bits - SIGN_BIT
        } else {
            self.bits as int
        }
    }

    /// Whether the pattern encodes no number.
    pub open spec fn is_nan(self) -> bool {
        self.magnitude() > INFINITY_BITS
    }

    /// Whether the pattern encodes a number other than an infinity.
    pub open spec fn is_finite(self) -> bool {
        self.magnitude() < INFINITY_BITS
    }

    /// The number that a finite pattern encodes, times two to the 149th.
    pub open spec fn scaled_value(self) -> int {
        if self.bits >= SIGN_BIT {
            -magnitude_value(self.magnitude())
        } else {
            magnitude_value(self.magnitude())
        }
    }

    /// An integer that orders the patterns as their numbers are ordered:
    /// of two patterns that are numbers, the greater number has the greater
    /// rank, and equal numbers have equal ranks.  Both zeros have rank 0.
    pub open spec fn rank(self) -> int {
        if self.bits >= SIGN_BIT {
            -self.magnitude()
        } else {
            self.magnitude()
        }
    }

    /// Whether the score is a number greater than or equal to the number
    /// `threshold`.  A comparison with something that is no number fails.
    pub open spec fn reaches(self, threshold: Score) -> bool {
        !self.is_nan() && !threshold.is_nan() && self.rank() >= threshold.rank()
    }

    /// The score with the given bit pattern.
    pub fn from_bits(bits: u32) -> (score: Score)
        ensures
            score.bits == bits,
    {
        Score { bits }
    }

    /// Computes `is_nan`.
    pub fn is_not_a_number(&self) -> (nan: bool)
        ensures
            nan == self.is_nan(),
    {
        if self.bits >= SIGN_BIT {
            self.bits - SIGN_BIT > INFINITY_BITS
        } else {
            self.bits > INFINITY_BITS
        }
    }

    /// Computes `rank`.
    pub fn rank_key(&self) -> (key: i64)
        ensures
            key == self.rank(),
    {
        if self.bits >= SIGN_BIT {
            -((self.bits - SIGN_BIT) as i64)
        } else {
            self.bits as i64
        }
    }

    /// Computes `reaches`.
    pub fn at_least(&self, threshold: Score) -> (reached: bool)
        ensures
            reached == self.reaches(threshold),
    {
        !self.is_not_a_number() && !threshold.is_not_a_number() && self.rank_key()
            >= threshold.rank_key()
    }

    /// The ranks of two finite patterns compare as the numbers that the
    /// patterns encode.
    pub proof fn lemma_rank_orders_values(a: Score, b: Score)
        requires
            a.is_finite(),
            b.is_finite(),
        ensures
            a.rank() < b.rank() <==> a.scaled_value() < b.scaled_value(),
            a.rank() == b.rank() <==> a.scaled_value() == b.scaled_value(),
    {
        let p = a.magnitude();
        let q = b.magnitude();
        if p < q {
            lemma_magnitude_value_increases(p, q);
        } else if q < p {
            lemma_magnitude_value_increases(q, p);
        }
        if 0 < p {
            lemma_magnitude_value_increases(0, p);
        }
        if 0 < q {
            lemma_magnitude_value_increases(0, q);
        }
        assert(magnitude_value(0) == 0);
    }

    /// The rank of a finite pattern lies strictly between the ranks of the
    /// two infinities, and nothing that is a number ranks outside them.
    pub proof fn lemma_infinities_are_extreme(a: Score, infinity: Score, minus_infinity: Score)
        requires
            infinity.bits == INFINITY_BITS,
            minus_infinity.bits == SIGN_BIT + INFINITY_BITS,
        ensures
            a.is_finite() ==> minus_infinity.rank() < a.rank() < infinity.rank(),
            !a.is_nan() ==> minus_infinity.rank() <= a.rank() <= infinity.rank(),
    {
    }

    /// `reaches` is reflexive and transitive on numbers, and of two numbers
    /// one reaches the other.
    pub proof fn lemma_reaches_is_total_preorder(a: Score, b: Score, c: Score)
        requires
            !a.is_nan(),
            !b.is_nan(),
            !c.is_nan(),
        ensures
            a.reaches(a),
            a.reaches(b) || b.reaches(a),
            a.reaches(b) && b.reaches(c) ==> a.reaches(c),
    {
    }
}

} // verus!
