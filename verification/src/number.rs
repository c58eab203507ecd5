//! Single-precision numbers carried by their bit patterns.
//!
//! The observer only ever orders the numbers that the numeric code hands it: logits, z-scores,
//! similarities. An IEEE 754 binary32 pattern is a sign bit over a magnitude, so that order is an
//! order on integers.

use vstd::prelude::*;

verus! {

/// A binary32 number, by its bit pattern.
#[derive(Copy, Clone, Debug, PartialEq, Eq, Hash, Structural)]
pub struct F32(pub u32);

/// A binary64 number, by its bit pattern.
#[derive(Copy, Clone, Debug, PartialEq, Eq, Hash, Structural)]
pub struct F64(pub u64);

/// The pattern of positive zero.
pub const ZERO_BITS: u32 = 0;

/// The pattern of negative infinity.
pub const NEG_INFINITY_BITS: u32 = 0xff80_0000;

impl F32 {
    /// The pattern without its sign bit.
    pub open spec fn magnitude(self) -> int {
        if self.0 < 0x8000_0000 {
            self.0 as int
        } else {
            self.0 - 0x8000_0000
        }
    }

    /// Not a number: the magnitude lies above that of infinity.
    pub open spec fn is_nan(self) -> bool {
        self.magnitude() > 0x7f80_0000
    }

    /// Where the number stands on the number line; both zeros stand at 0.
    pub open spec fn rank(self) -> int {
        if self.0 < 0x8000_0000 {
            self.magnitude()
        } else {
            -self.magnitude()
        }
    }

    /// Where the pattern stands in the total order, which tells the zeros apart and places the
    /// patterns that are not numbers beyond both infinities.
    pub open spec fn total_rank(self) -> int {
        if self.0 < 0x8000_0000 {
            self.magnitude()
        } else {
            -self.magnitude() - 1
        }
    }

    /// Numeric `self < other`; false as soon as one of them is not a number.
    pub open spec fn below(self, other: F32) -> bool {
        !self.is_nan() && !other.is_nan() && self.rank() < other.rank()
    }

    /// Numeric `self <= other`; false as soon as one of them is not a number.
    pub open spec fn at_most(self, other: F32) -> bool {
        !self.is_nan() && !other.is_nan() && self.rank() <= other.rank()
    }

    fn magnitude_of(self) -> (m: u32)
        ensures
            m == self.magnitude(),
    {
        if self.0 < 0x8000_0000 {
            self.0
        } else {
            self.0 - 0x8000_0000
        }
    }

    fn rank_of(self) -> (r: i64)
        ensures
            r == self.rank(),
    {
        let m: i64 = self.magnitude_of() as i64;
        if self.0 < 0x8000_0000 {
            m
        } else {
            -m
        }
    }

    /// Is this pattern no number at all?
    pub fn nan(self) -> (r: bool)
        ensures
            r == self.is_nan(),
    {
        self.magnitude_of() > 0x7f80_0000
    }

    /// Numeric `self < other`.
    pub fn lt(self, other: F32) -> (r: bool)
        ensures
            r == self.below(other),
    {
        !self.nan() && !other.nan() && self.rank_of() < other.rank_of()
    }

    /// Numeric `self <= other`.
    pub fn le(self, other: F32) -> (r: bool)
        ensures
            r == self.at_most(other),
    {
        !self.nan() && !other.nan() && self.rank_of() <= other.rank_of()
    }

    /// The place of the pattern in the total order, as an integer to sort by.
    pub fn total_key(self) -> (r: i64)
        ensures
            r == self.total_rank(),
    {
        let m: i64 = self.magnitude_of() as i64;
        if self.0 < 0x8000_0000 {
            m
        } else {
            -m - 1
        }
    }
}

/// The order is that of the numbers. What is no number is below and at most nothing. Of two that are
/// not negative the lesser pattern is the lesser number, of two that are the greater one is; a negative
/// one lies below one that is not, but for the two zeros, which are equal. Of two numbers one is at
/// most the other exactly where it does not lie above it.
pub proof fn lemma_the_order_is_that_of_the_numbers(a: F32, b: F32, lt: bool, le: bool)
    requires
        call_ensures(F32::lt, (a, b), lt),
        call_ensures(F32::le, (a, b), le),
    ensures
        a.0 % 0x8000_0000 > 0x7f80_0000 || b.0 % 0x8000_0000 > 0x7f80_0000 ==> !lt && !le,
        a.0 % 0x8000_0000 <= 0x7f80_0000 && b.0 % 0x8000_0000 <= 0x7f80_0000 ==> {
            &&& a.0 < 0x8000_0000 && b.0 < 0x8000_0000 ==> lt == (a.0 < b.0) && le == (a.0 <= b.0)
            &&& a.0 >= 0x8000_0000 && b.0 >= 0x8000_0000 ==> lt == (a.0 > b.0) && le == (a.0
                >= b.0)
            &&& a.0 >= 0x8000_0000 && b.0 < 0x8000_0000 ==> le && lt == (a.0 > 0x8000_0000 || b.0
                > 0)
            &&& a.0 < 0x8000_0000 && b.0 >= 0x8000_0000 ==> !lt && le == (a.0 == 0 && b.0
                == 0x8000_0000)
        },
{
}

/// The same order, of the patterns themselves.
pub proof fn lemma_the_order_of_patterns(a: F32, b: F32)
    ensures
        a.below(b) ==> a.at_most(b),
        a.below(b) ==> !b.at_most(a),
        a.at_most(b) && b.at_most(a) && a != b ==> a.0 % 0x8000_0000 == 0 && b.0 % 0x8000_0000 == 0,
        F32(0).below(a) <==> 0 < a.0 <= 0x7f80_0000,
        a.at_most(F32(0)) <==> a.0 == 0 || 0x8000_0000 <= a.0 <= 0xff80_0000,
        F32(0).at_most(a) <==> a.0 <= 0x7f80_0000 || a.0 == 0x8000_0000,
        0 < a.0 <= 0x7f80_0000 && b.0 <= 0x7f80_0000 ==> (a.at_most(b) <==> a.0 <= b.0) && (a.below(
            b,
        ) <==> a.0 < b.0),
{
}

/// The total order sorts by the numbers, tells the zeros apart, and puts what is no number beyond all
/// numbers, on the side of its sign: below are the negative patterns, the greater the lower, then the
/// others, the greater the higher.
pub proof fn lemma_the_total_order(a: F32, b: F32, x: i64, y: i64)
    requires
        call_ensures(F32::total_key, (a,), x),
        call_ensures(F32::total_key, (b,), y),
    ensures
        x == a.total_rank(),
        a.0 < 0x8000_0000 && b.0 < 0x8000_0000 ==> (x < y <==> a.0 < b.0),
        a.0 >= 0x8000_0000 && b.0 >= 0x8000_0000 ==> (x < y <==> a.0 > b.0),
        a.0 >= 0x8000_0000 && b.0 < 0x8000_0000 ==> x < y,
        x == y <==> a == b,
        a.below(b) ==> x < y,
{
}

} // verus!
