//! Prices and other real-valued quantities, held as IEEE 754 binary64 encodings.
//!
//! The library never does arithmetic on these values; it only carries them and
//! compares them. Comparison follows IEEE 754 on the encoding: NaN compares with
//! nothing, the two zeros are equal, and otherwise the order is that of the
//! sign-and-magnitude integer the encoding spells.
use vstd::prelude::*;

verus! {

/// The 64-bit encoding of a binary64 floating-point number.
#[derive(Clone, Copy, Debug, PartialEq, Eq, Structural)]
pub struct Binary64 {
    pub bits: u64,
}

pub open spec fn exponent_field(bits: u64) -> int {
    (bits as int / 0x10_0000_0000_0000) % 0x800
}

pub open spec fn mantissa_field(bits: u64) -> int {
    bits as int % 0x10_0000_0000_0000
}

impl Binary64 {
    /// The encoding names a NaN: all exponent bits set and a nonzero mantissa.
    pub open spec fn is_nan(self) -> bool {
        exponent_field(self.bits) == 0x7ff && mantissa_field(self.bits) != 0
    }

    /// The sign bit.
    pub open spec fn is_negative(self) -> bool {
        self.bits >= 0x8000_0000_0000_0000u64
    }

    /// The encoding without its sign bit; it grows with the absolute value.
    pub open spec fn magnitude(self) -> int {
        self.bits as int % 0x8000_0000_0000_0000
    }

    /// An integer that orders non-NaN values as the reals they denote
    /// (both zeros get 0).
    pub open spec fn order_key(self) -> int {
        if self.is_negative() {
            -self.magnitude()
        } else {
            self.magnitude()
        }
    }

    /// `self > other` for binary64 values.
    pub open spec fn spec_greater(self, other: Binary64) -> bool {
        !self.is_nan() && !other.is_nan() && self.order_key() > other.order_key()
    }

    /// `self < other` for binary64 values.
    pub open spec fn spec_less(self, other: Binary64) -> bool {
        other.spec_greater(self)
    }

    /// `self >= other` for binary64 values.
    pub open spec fn spec_at_least(self, other: Binary64) -> bool {
        !self.is_nan() && !other.is_nan() && self.order_key() >= other.order_key()
    }

    /// `self > 0.0`.
    pub open spec fn spec_is_positive(self) -> bool {
        self.spec_greater(Binary64 { bits: 0 })
    }

    pub fn from_bits(bits: u64) -> (res: Binary64)
        ensures
            res.bits == bits,
    {
        Binary64 { bits }
    }

    fn nan(&self) -> (res: bool)
        ensures
            res == self.is_nan(),
    {
        (self.bits / 0x10_0000_0000_0000) % 0x800 == 0x7ff && self.bits % 0x10_0000_0000_0000 != 0
    }

    fn key(&self) -> (res: i64)
        ensures
            res == self.order_key(),
    {
        let m = (self.bits % 0x8000_0000_0000_0000u64) as i64;
        if self.bits >= 0x8000_0000_0000_0000u64 {
            -m
        } else {
            m
        }
    }

    /// `self > other`, as binary64 values compare.
    pub fn greater_than(&self, other: &Binary64) -> (res: bool)
        ensures
            res == self.spec_greater(*other),
    {
        !self.nan() && !other.nan() && self.key() > other.key()
    }

    /// `self < other`, as binary64 values compare.
    pub fn less_than(&self, other: &Binary64) -> (res: bool)
        ensures
            res == self.spec_less(*other),
    {
        other.greater_than(self)
    }

    /// `self >= other`, as binary64 values compare.
    pub fn at_least(&self, other: &Binary64) -> (res: bool)
        ensures
            res == self.spec_at_least(*other),
    {
        !self.nan() && !other.nan() && self.key() >= other.key()
    }

    /// `self > 0.0`.
    pub fn is_positive(&self) -> (res: bool)
        ensures
            res == self.spec_is_positive(),
    {
        self.greater_than(&Binary64 { bits: 0 })
    }
}

/// Binary64 `>` is a strict order: irreflexive and transitive, and `a > b` rules out `b > a`.
pub proof fn lemma_greater_is_strict_order(a: Binary64, b: Binary64, c: Binary64)
    ensures
        !a.spec_greater(a),
        a.spec_greater(b) ==> !b.spec_greater(a),
        a.spec_greater(b) && b.spec_greater(c) ==> a.spec_greater(c),
{
}

/// `a >= b` holds exactly when `a > b` or the two are equal as numbers; with
/// NaN on either side neither holds.
pub proof fn lemma_at_least_is_greater_or_equal(a: Binary64, b: Binary64)
    ensures
        a.spec_at_least(b) <==> (a.spec_greater(b) || (!a.is_nan() && !b.is_nan()
            && a.order_key() == b.order_key())),
        (a.is_nan() || b.is_nan()) ==> !a.spec_at_least(b),
{
}

/// Among values that are not NaN, any two are either equal in order or one is the greater.
pub proof fn lemma_greater_is_total_without_nan(a: Binary64, b: Binary64)
    requires
        !a.is_nan(),
        !b.is_nan(),
    ensures
        a.spec_greater(b) || b.spec_greater(a) || a.order_key() == b.order_key(),
{
}

} // verus!
