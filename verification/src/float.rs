//! Single and double precision numbers by their bit patterns, with the
//! comparisons that IEEE 754 gives them. Numbers of either width compare like
//! signed magnitudes: the sign bit, then the remaining bits as one integer.

use vstd::prelude::*;

verus! {

/// A single precision number.
#[derive(Debug, Clone, Copy, PartialEq, Eq, Structural)]
pub struct Float32 {
    pub bits: u32,
}

/// A double precision number.
#[derive(Debug, Clone, Copy, PartialEq, Eq, Structural)]
pub struct Float64 {
    pub bits: u64,
}

impl Float32 {
    pub open spec fn zero() -> Float32 {
        Float32 { bits: 0 }
    }

    /// The number nearest to 0.3.
    pub open spec fn three_tenths() -> Float32 {
        Float32 { bits: 0x3e99_999a }
    }

    /// The number nearest to 0.7.
    pub open spec fn seven_tenths() -> Float32 {
        Float32 { bits: 0x3f33_3333 }
    }

    pub open spec fn million() -> Float32 {
        Float32 { bits: 0x4974_2400 }
    }

    pub open spec fn one() -> Float32 {
        Float32 { bits: 0x3f80_0000 }
    }

    pub open spec fn two() -> Float32 {
        Float32 { bits: 0x4000_0000 }
    }

    pub open spec fn sixty() -> Float32 {
        Float32 { bits: 0x4270_0000 }
    }

    /// The bits without the sign.
    pub open spec fn magnitude(self) -> int {
        self.bits as int % 0x8000_0000
    }

    pub open spec fn is_negative(self) -> bool {
        self.bits >= 0x8000_0000
    }

    /// An exponent of all ones and a fraction that is not zero.
    pub open spec fn is_nan(self) -> bool {
        self.magnitude() > 0x7f80_0000
    }

    /// An exponent that is not all ones.
    pub open spec fn is_finite(self) -> bool {
        self.magnitude() < 0x7f80_0000
    }

    /// The place of a number in the order of numbers; both zeros share one.
    pub open spec fn rank(self) -> int {
        if self.is_negative() {
            -self.magnitude()
        } else {
            self.magnitude()
        }
    }

    /// `self < other`: false whenever a NaN takes part.
    pub open spec fn below(self, other: Float32) -> bool {
        !self.is_nan() && !other.is_nan() && self.rank() < other.rank()
    }

    /// `self == other`: zero equals minus zero, and a NaN nothing.
    pub open spec fn equals(self, other: Float32) -> bool {
        !self.is_nan() && !other.is_nan() && self.rank() == other.rank()
    }

    /// A number from `low` to `high`, either included.
    pub open spec fn between(self, low: Float32, high: Float32) -> bool {
        !self.is_nan() && low.rank() <= self.rank() <= high.rank()
    }

    pub fn from_bits(bits: u32) -> (r: Float32)
        ensures
            r.bits == bits,
    {
        Float32 { bits }
    }

    pub fn to_bits(self) -> (r: u32)
        ensures
            r == self.bits,
    {
        self.bits
    }

    fn rank_value(self) -> (r: i64)
        ensures
            r == self.rank(),
    {
        let magnitude: i64 = (self.bits % 0x8000_0000) as i64;
        if self.bits >= 0x8000_0000 {
            -magnitude
        } else {
            magnitude
        }
    }

    /// Whether the value is a NaN.
    pub fn nan(self) -> (r: bool)
        ensures
            r == self.is_nan(),
    {
        self.bits % 0x8000_0000 > 0x7f80_0000
    }

    /// Whether the value is neither infinite nor a NaN.
    pub fn finite(self) -> (r: bool)
        ensures
            r == self.is_finite(),
    {
        self.bits % 0x8000_0000 < 0x7f80_0000
    }

    /// Whether the value is less than `other`.
    pub fn less(self, other: Float32) -> (r: bool)
        ensures
            r == self.below(other),
    {
        !self.nan() && !other.nan() && self.rank_value() < other.rank_value()
    }

    /// Whether the value is a number from `low` to `high`.
    pub fn in_range(self, low: Float32, high: Float32) -> (r: bool)
        ensures
            r == self.between(low, high),
    {
        !self.nan() && low.rank_value() <= self.rank_value() && self.rank_value()
            <= high.rank_value()
    }

    /// Whether the two are the same number.
    pub fn same(self, other: Float32) -> (r: bool)
        ensures
            r == self.equals(other),
    {
        !self.nan() && !other.nan() && self.rank_value() == other.rank_value()
    }
}

impl Float64 {
    pub open spec fn zero() -> Float64 {
        Float64 { bits: 0 }
    }

    /// The bits without the sign.
    pub open spec fn magnitude(self) -> int {
        self.bits as int % 0x8000_0000_0000_0000
    }

    pub open spec fn is_negative(self) -> bool {
        self.bits >= 0x8000_0000_0000_0000
    }

    /// An exponent of all ones and a fraction that is not zero.
    pub open spec fn is_nan(self) -> bool {
        self.magnitude() > 0x7ff0_0000_0000_0000
    }

    /// An exponent that is not all ones.
    pub open spec fn is_finite(self) -> bool {
        self.magnitude() < 0x7ff0_0000_0000_0000
    }

    /// The place of a number in the order of numbers; both zeros share one.
    pub open spec fn rank(self) -> int {
        if self.is_negative() {
            -self.magnitude()
        } else {
            self.magnitude()
        }
    }

    /// `self < other`: false whenever a NaN takes part.
    pub open spec fn below(self, other: Float64) -> bool {
        !self.is_nan() && !other.is_nan() && self.rank() < other.rank()
    }

    /// `self == other`: zero equals minus zero, and a NaN nothing.
    pub open spec fn equals(self, other: Float64) -> bool {
        !self.is_nan() && !other.is_nan() && self.rank() == other.rank()
    }

    /// Whether the number is less than `other` with its sign turned.
    pub open spec fn below_negative(self, other: Float64) -> bool {
        !self.is_nan() && !other.is_nan() && self.rank() < -other.rank()
    }

    pub fn from_bits(bits: u64) -> (r: Float64)
        ensures
            r.bits == bits,
    {
        Float64 { bits }
    }

    pub fn to_bits(self) -> (r: u64)
        ensures
            r == self.bits,
    {
        self.bits
    }

    fn rank_value(self) -> (r: i64)
        ensures
            r == self.rank(),
    {
        let magnitude: i64 = (self.bits % 0x8000_0000_0000_0000) as i64;
        if self.bits >= 0x8000_0000_0000_0000 {
            -magnitude
        } else {
            magnitude
        }
    }

    /// Whether the value is a NaN.
    pub fn nan(self) -> (r: bool)
        ensures
            r == self.is_nan(),
    {
        self.bits % 0x8000_0000_0000_0000 > 0x7ff0_0000_0000_0000
    }

    /// Whether the value is neither infinite nor a NaN.
    pub fn finite(self) -> (r: bool)
        ensures
            r == self.is_finite(),
    {
        self.bits % 0x8000_0000_0000_0000 < 0x7ff0_0000_0000_0000
    }

    /// Whether the value is less than `other`.
    pub fn less(self, other: Float64) -> (r: bool)
        ensures
            r == self.below(other),
    {
        !self.nan() && !other.nan() && self.rank_value() < other.rank_value()
    }

    /// Whether the number is less than `other` with its sign turned.
    pub fn less_than_negative(self, other: Float64) -> (r: bool)
        ensures
            r == self.below_negative(other),
    {
        !self.nan() && !other.nan() && self.rank_value() < -other.rank_value()
    }

    /// Whether the size of the number is less than a billionth.
    pub fn is_negligible(self) -> (r: bool)
        ensures
            r == (self.magnitude() < 0x3e11_2e0b_e826_d695),
    {
        self.bits % 0x8000_0000_0000_0000 < 0x3e11_2e0b_e826_d695
    }

    /// Whether the two are the same number.
    pub fn same(self, other: Float64) -> (r: bool)
        ensures
            r == self.equals(other),
    {
        !self.nan() && !other.nan() && self.rank_value() == other.rank_value()
    }
}

/// On numbers other than NaN the comparison is a total order: exactly one of
/// less, equal and greater holds, and less is transitive.
pub proof fn comparison_is_total(a: Float32, b: Float32, c: Float32)
    requires
        !a.is_nan(),
        !b.is_nan(),
        !c.is_nan(),
    ensures
        a.below(b) || a.equals(b) || b.below(a),
        !(a.below(b) && b.below(a)),
        !(a.below(b) && a.equals(b)),
        a.below(b) && b.below(c) ==> a.below(c),
        a.equals(b) && b.below(c) ==> a.below(c),
        a.below(b) && b.equals(c) ==> a.below(c),
{
}

/// What the bits of a single-precision number say: above infinity there is no number, and
/// infinity and what is above it is not finite, with or without a sign.
pub proof fn singles_are_numbers_up_to_infinity(a: Float32)
    ensures
        a.is_nan() <==> 0x7f80_0000 < a.bits < 0x8000_0000 || 0xff80_0000 < a.bits,
        a.is_finite() <==> a.bits < 0x7f80_0000 || 0x8000_0000 <= a.bits < 0xff80_0000,
{
}

/// How single-precision numbers compare: positive ones as their bits do, negative ones the
/// other way round, negative ones below positive ones but for the two zeros, which are
/// equal. What is no number is neither below nor equal to anything.
pub proof fn singles_compare_by_value(a: Float32, b: Float32)
    ensures
        a.is_nan() || b.is_nan() ==> !a.below(b) && !a.equals(b),
        !a.is_nan() && !b.is_nan() && a.bits < 0x8000_0000 && b.bits < 0x8000_0000 ==> (a.below(b)
            <==> a.bits < b.bits) && (a.equals(b) <==> a.bits == b.bits),
        !a.is_nan() && !b.is_nan() && a.bits >= 0x8000_0000 && b.bits >= 0x8000_0000 ==> (a.below(
            b,
        ) <==> a.bits > b.bits) && (a.equals(b) <==> a.bits == b.bits),
        !a.is_nan() && !b.is_nan() && a.bits >= 0x8000_0000 && b.bits < 0x8000_0000 ==> (a.below(b)
            <==> a.bits > 0x8000_0000 || b.bits > 0) && (a.equals(b) <==> a.bits == 0x8000_0000
            && b.bits == 0) && !b.below(a),
{
}

/// The rank of a single-precision number orders it: it is below another exactly where its
/// rank is, and equal exactly where the ranks are.
pub proof fn singles_compare_by_rank(a: Float32, b: Float32)
    requires
        !a.is_nan(),
        !b.is_nan(),
    ensures
        a.below(b) <==> a.rank() < b.rank(),
        a.equals(b) <==> a.rank() == b.rank(),
        Float32::zero().rank() == 0,
{
}

/// A number lies between two others where it is neither below the first nor above the
/// second.
pub proof fn singles_lie_between(a: Float32, low: Float32, high: Float32)
    requires
        !low.is_nan(),
        !high.is_nan(),
    ensures
        a.between(low, high) <==> !a.is_nan() && !a.below(low) && !high.below(a),
{
}

/// What the bits of a double-precision number say: above infinity there is no number, and
/// infinity and what is above it is not finite, with or without a sign.
pub proof fn doubles_are_numbers_up_to_infinity(a: Float64)
    ensures
        a.is_nan() <==> 0x7ff0_0000_0000_0000 < a.bits < 0x8000_0000_0000_0000
            || 0xfff0_0000_0000_0000 < a.bits,
        a.is_finite() <==> a.bits < 0x7ff0_0000_0000_0000 || 0x8000_0000_0000_0000 <= a.bits
            < 0xfff0_0000_0000_0000,
{
}

/// How double-precision numbers compare: as single-precision ones do.
pub proof fn doubles_compare_by_value(a: Float64, b: Float64)
    ensures
        a.is_nan() || b.is_nan() ==> !a.below(b) && !a.equals(b) && !a.below_negative(b),
        !a.is_nan() && !b.is_nan() && a.bits < 0x8000_0000_0000_0000 && b.bits
            < 0x8000_0000_0000_0000 ==> (a.below(b) <==> a.bits < b.bits) && (a.equals(b)
            <==> a.bits == b.bits) && !a.below_negative(b),
        !a.is_nan() && !b.is_nan() && a.bits >= 0x8000_0000_0000_0000 && b.bits
            >= 0x8000_0000_0000_0000 ==> (a.below(b) <==> a.bits > b.bits) && (a.equals(b)
            <==> a.bits == b.bits),
        !a.is_nan() && !b.is_nan() && a.bits >= 0x8000_0000_0000_0000 && b.bits
            < 0x8000_0000_0000_0000 ==> (a.below(b) <==> a.bits > 0x8000_0000_0000_0000 || b.bits
            > 0) && (a.equals(b) <==> a.bits == 0x8000_0000_0000_0000 && b.bits == 0) && !b.below(
            a,
        ) && (a.below_negative(b) <==> a.bits - 0x8000_0000_0000_0000 > b.bits),
{
}

} // verus!
