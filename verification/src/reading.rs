//! Measured quantities, ordered but never computed with.
//!
//! Rates and round trips are double-precision numbers. The library compares them,
//! keeps the smallest or the largest, sorts them and hands them back; it does no
//! arithmetic on them. So it holds each by the integer that stands for its place
//! in the total order of doubles, which the bit pattern gives and gives back.

use vstd::prelude::*;

use crate::order::Placed;

verus! {

/// The place of positive infinity; what lies above it is not a number.
pub const INFINITY_KEY: i64 = 0x7FF0_0000_0000_0000;

/// The place of negative infinity; what lies below it is not a number.
pub const NEG_INFINITY_KEY: i64 = -0x7FF0_0000_0000_0001;

/// The place of `0.0`.
pub const ZERO_KEY: i64 = 0;

/// The place of `0.1`.
pub const TENTH_KEY: i64 = 0x3FB9_9999_9999_999A;

/// The place of `1.0`.
pub const ONE_KEY: i64 = 0x3FF0_0000_0000_0000;

/// The place of `10.0`.
pub const TEN_KEY: i64 = 0x4024_0000_0000_0000;

/// The place of `1000.0`.
pub const THOUSAND_KEY: i64 = 0x408F_4000_0000_0000;

/// A double-precision number by its place in the total order: the numbers from
/// `0.0` upwards by their bit patterns, those from `-0.0` downwards from `-1` on.
#[derive(Clone, Copy, PartialEq, Eq, Structural, Debug)]
pub struct Reading {
    pub key: i64,
}

impl Reading {
    /// The reading whose bit pattern is `bits`.
    pub open spec fn of_bits(bits: u64) -> Reading {
        if bits <= 0x7FFF_FFFF_FFFF_FFFF {
            Reading { key: bits as i64 }
        } else {
            Reading { key: (0x7FFF_FFFF_FFFF_FFFF - bits) as i64 }
        }
    }

    /// The bit pattern of this reading.
    pub open spec fn bits(self) -> u64 {
        if self.key >= 0 {
            self.key as u64
        } else {
            (0x7FFF_FFFF_FFFF_FFFF - self.key) as u64
        }
    }

    /// Not a number.
    pub open spec fn nan(self) -> bool {
        self.key > INFINITY_KEY || self.key < NEG_INFINITY_KEY
    }

    /// Where the number stands among the numbers: `-0.0` stands with `0.0`.
    pub open spec fn place(self) -> int {
        if self.key == -1 {
            0
        } else {
            self.key as int
        }
    }

    /// `self < other`, as numbers: false where either is not one.
    pub open spec fn lt(self, other: Reading) -> bool {
        !self.nan() && !other.nan() && self.place() < other.place()
    }

    /// `self >= other`, as numbers: false where either is not one.
    pub open spec fn ge(self, other: Reading) -> bool {
        !self.nan() && !other.nan() && self.place() >= other.place()
    }

    /// The larger of two numbers; the other one where one is not a number.
    pub open spec fn max_of(self, other: Reading) -> Reading {
        if self.nan() || self.lt(other) {
            other
        } else {
            self
        }
    }

    /// The smaller of two numbers; the other one where one is not a number.
    pub open spec fn min_of(self, other: Reading) -> Reading {
        if self.nan() || other.lt(self) {
            other
        } else {
            self
        }
    }

    /// Reads a bit pattern.
    pub fn from_bits(bits: u64) -> (r: Reading)
        ensures
            r == Self::of_bits(bits),
            r.bits() == bits,
    {
        if bits <= 0x7FFF_FFFF_FFFF_FFFF {
            Reading { key: bits as i64 }
        } else {
            let magnitude: i64 = (bits - 0x8000_0000_0000_0000) as i64;
            Reading { key: -1 - magnitude }
        }
    }

    /// Gives the bit pattern back.
    pub fn to_bits(self) -> (r: u64)
        ensures
            r == self.bits(),
            Self::of_bits(r) == self,
    {
        if self.key >= 0 {
            self.key as u64
        } else {
            let magnitude: i64 = -1 - self.key;
            0x8000_0000_0000_0000 + magnitude as u64
        }
    }

    /// Whether this is not a number.
    pub fn is_nan(self) -> (r: bool)
        ensures
            r == self.nan(),
    {
        self.key > INFINITY_KEY || self.key < NEG_INFINITY_KEY
    }

    /// Whether `self < other`.
    pub fn below(self, other: Reading) -> (r: bool)
        ensures
            r == self.lt(other),
    {
        let a: i64 = if self.key == -1 { 0 } else { self.key };
        let b: i64 = if other.key == -1 { 0 } else { other.key };
        !self.is_nan() && !other.is_nan() && a < b
    }

    /// Whether `self >= other`.
    pub fn at_least(self, other: Reading) -> (r: bool)
        ensures
            r == self.ge(other),
    {
        let a: i64 = if self.key == -1 { 0 } else { self.key };
        let b: i64 = if other.key == -1 { 0 } else { other.key };
        !self.is_nan() && !other.is_nan() && a >= b
    }

    /// The larger of two readings.
    pub fn larger(self, other: Reading) -> (r: Reading)
        ensures
            r == self.max_of(other),
    {
        if self.is_nan() || self.below(other) {
            other
        } else {
            self
        }
    }

    /// The smaller of two readings.
    pub fn smaller(self, other: Reading) -> (r: Reading)
        ensures
            r == self.min_of(other),
    {
        if self.is_nan() || other.below(self) {
            other
        } else {
            self
        }
    }
}

/// Every bit pattern is given back as it was read, and every reading comes from
/// exactly one bit pattern.
pub proof fn bits_round_trip(bits: u64, r: Reading)
    ensures
        Reading::of_bits(bits).bits() == bits,
        Reading::of_bits(r.bits()) == r,
{
}

/// Numbers are ordered as doubles are: of two without a sign the one with the
/// larger pattern is above, of two with a sign the one with the smaller pattern,
/// and one without a sign is above one with.
pub proof fn order_is_that_of_patterns(a: u64, b: u64)
    ensures
        a <= 0x7FFF_FFFF_FFFF_FFFF && b <= 0x7FFF_FFFF_FFFF_FFFF ==> (Reading::of_bits(a).key
            <= Reading::of_bits(b).key <==> a <= b),
        a > 0x7FFF_FFFF_FFFF_FFFF && b > 0x7FFF_FFFF_FFFF_FFFF ==> (Reading::of_bits(a).key
            <= Reading::of_bits(b).key <==> a >= b),
        a > 0x7FFF_FFFF_FFFF_FFFF && b <= 0x7FFF_FFFF_FFFF_FFFF ==> Reading::of_bits(a).key
            < Reading::of_bits(b).key,
{
}

impl Placed for Reading {
    open spec fn place_of(self) -> int {
        self.key as int
    }

    fn not_after(self, other: Reading) -> (r: bool) {
        self.key <= other.key
    }
}

/// Readings compare as the numbers whose bit patterns they were read from: without
/// signs by the patterns, with signs the other way round, and nothing that is not a
/// number is below or at least anything.
pub proof fn readings_compare_as_numbers(a: u64, b: u64, x: Reading, y: Reading, lt: bool, ge: bool)
    requires
        call_ensures(Reading::from_bits, (a,), x),
        call_ensures(Reading::from_bits, (b,), y),
        call_ensures(Reading::below, (x, y), lt),
        call_ensures(Reading::at_least, (x, y), ge),
    ensures
        a <= 0x7FF0_0000_0000_0000 && b <= 0x7FF0_0000_0000_0000 ==> lt == (a < b) && ge == (a
            >= b),
        0x8000_0000_0000_0000 <= a <= 0xFFF0_0000_0000_0000 && 0x8000_0000_0000_0000 <= b
            <= 0xFFF0_0000_0000_0000 ==> lt == (a > b) && ge == (a <= b),
        0x8000_0000_0000_0000 <= a <= 0xFFF0_0000_0000_0000 && b <= 0x7FF0_0000_0000_0000 ==> lt
            == !(a == 0x8000_0000_0000_0000 && b == 0) && ge == !lt,
        a <= 0x7FF0_0000_0000_0000 && 0x8000_0000_0000_0000 <= b <= 0xFFF0_0000_0000_0000 ==> !lt
            && ge,
        0x7FF0_0000_0000_0000 < a <= 0x7FFF_FFFF_FFFF_FFFF || a > 0xFFF0_0000_0000_0000 ==> !lt
            && !ge,
        0x7FF0_0000_0000_0000 < b <= 0x7FFF_FFFF_FFFF_FFFF || b > 0xFFF0_0000_0000_0000 ==> !lt
            && !ge,
{
}

/// The larger of two readings is one of them and the other is not above it; the smaller
/// is one of them and the other is not below it; what is not a number is passed over.
pub proof fn larger_and_smaller_bound_both(x: Reading, y: Reading, l: Reading, s: Reading)
    requires
        call_ensures(Reading::larger, (x, y), l),
        call_ensures(Reading::smaller, (x, y), s),
    ensures
        l == x || l == y,
        s == x || s == y,
        !l.lt(x) && !l.lt(y),
        !x.lt(s) && !y.lt(s),
        !x.nan() || !y.nan() ==> !l.nan() && !s.nan(),
{
}

/// A reading gives back the bit pattern it was read from.
pub proof fn patterns_come_back(bits: u64, r: Reading, back: u64)
    requires
        call_ensures(Reading::from_bits, (bits,), r),
        call_ensures(Reading::to_bits, (r,), back),
    ensures
        back == bits,
{
}

} // verus!
