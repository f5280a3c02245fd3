//! Binary64 numbers, held as their bit patterns.
//!
//! A [`Double`] is the IEEE 754 encoding of a double. Everything the library
//! decides about a number is decided on integers: the order of two numbers is
//! the order of their keys, and a finite number is an exact multiple of the
//! smallest positive double.

use vstd::arithmetic::power2::pow2;
use vstd::prelude::*;

verus! {

/// Bit pattern of the sign.
pub const SIGN: u64 = 0x8000_0000_0000_0000;

/// Bit pattern of positive infinity.
pub const INFINITY_BITS: u64 = 0x7ff0_0000_0000_0000;

/// Bit pattern of the quiet NaN that arithmetic returns.
pub const NAN_BITS: u64 = 0x7ff8_0000_0000_0000;

/// Two to the fifty-second: the weight of the implicit leading bit.
pub const HIDDEN: u64 = 0x0010_0000_0000_0000;

/// A binary64 number, by its bit pattern.
///
/// `==` compares bit patterns: it tells the two zeros apart and finds a NaN
/// equal to itself. Use [`Double::equals`] for the numeric comparison.
#[derive(Clone, Copy, Debug, PartialEq, Eq, Hash, Structural)]
pub struct Double {
    /// The IEEE 754 encoding.
    pub bits: u64,
}

/// Magnitude of the number whose bit pattern, sign cleared, is `m`, in units of
/// the smallest positive double.
pub open spec fn magnitude_of(m: int) -> int {
    let exponent = m / HIDDEN as int;
    let fraction = m % HIDDEN as int;
    if exponent == 0 {
        fraction
    } else {
        (HIDDEN as int + fraction) * pow2((exponent - 1) as nat)
    }
}

impl Double {
    /// The bit pattern with its sign cleared.
    pub open spec fn abs_bits(self) -> int {
        if self.bits >= SIGN {
            self.bits - SIGN
        } else {
            self.bits as int
        }
    }

    /// The sign bit is set.
    pub open spec fn signed(self) -> bool {
        self.bits >= SIGN
    }

    /// Not a number.
    pub open spec fn nan(self) -> bool {
        self.abs_bits() > INFINITY_BITS
    }

    /// Neither infinite nor a NaN.
    pub open spec fn finite(self) -> bool {
        self.abs_bits() < INFINITY_BITS
    }

    /// Either zero.
    pub open spec fn zero(self) -> bool {
        self.abs_bits() == 0
    }

    /// The position of the number in the numeric order: both zeros share a key,
    /// and the infinities lie beyond every finite number.
    pub open spec fn key(self) -> int {
        if self.signed() {
            -self.abs_bits()
        } else {
            self.abs_bits()
        }
    }

    /// The position of the bit pattern in the total order: negative zero just
    /// below positive zero, NaNs beyond the infinities.
    pub open spec fn total_key(self) -> int {
        if self.signed() {
            -1 - self.abs_bits()
        } else {
            self.abs_bits()
        }
    }

    /// The magnitude of a finite number, in units of the smallest positive
    /// double.
    pub open spec fn magnitude(self) -> int {
        magnitude_of(self.abs_bits())
    }

    /// The power of two that the significand of a finite number is scaled by.
    pub open spec fn scale(self) -> int {
        if self.abs_bits() / HIDDEN as int == 0 {
            0
        } else {
            self.abs_bits() / HIDDEN as int - 1
        }
    }

    /// The exact value of a finite number, in units of the smallest positive
    /// double.
    pub open spec fn value(self) -> int {
        if self.signed() {
            -self.magnitude()
        } else {
            self.magnitude()
        }
    }

    /// Numeric `self < other`; false when either is a NaN.
    pub open spec fn lt(self, other: Double) -> bool {
        !self.nan() && !other.nan() && self.key() < other.key()
    }

    /// Numeric `self <= other`; false when either is a NaN.
    pub open spec fn le(self, other: Double) -> bool {
        !self.nan() && !other.nan() && self.key() <= other.key()
    }

    /// Numeric `self == other`; false when either is a NaN.
    pub open spec fn same(self, other: Double) -> bool {
        !self.nan() && !other.nan() && self.key() == other.key()
    }

    /// The number with its sign flipped.
    pub open spec fn negated(self) -> Double {
        Double {
            bits: if self.bits >= SIGN {
                (self.bits - SIGN) as u64
            } else {
                (self.bits + SIGN) as u64
            },
        }
    }

    /// The number with its sign cleared.
    pub open spec fn absolute(self) -> Double {
        Double { bits: self.abs_bits() as u64 }
    }

    /// The number with this bit pattern.
    pub fn from_bits(bits: u64) -> (r: Double)
        ensures
            r.bits == bits,
    {
        Double { bits }
    }

    /// The bit pattern.
    pub fn to_bits(self) -> (bits: u64)
        ensures
            bits == self.bits,
    {
        self.bits
    }

    /// Positive zero.
    pub fn zeroed() -> (r: Double)
        ensures
            r.bits == 0,
    {
        Double { bits: 0 }
    }

    /// True for a NaN.
    pub fn is_nan(self) -> (r: bool)
        ensures
            r == self.nan(),
    {
        self.clear_sign() > INFINITY_BITS
    }

    /// True for a number that is neither infinite nor a NaN.
    pub fn is_finite(self) -> (r: bool)
        ensures
            r == self.finite(),
    {
        self.clear_sign() < INFINITY_BITS
    }

    /// True for either zero.
    pub fn is_zero(self) -> (r: bool)
        ensures
            r == self.zero(),
    {
        self.clear_sign() == 0
    }

    /// True when the sign bit is set, a negative zero included.
    pub fn is_sign_negative(self) -> (r: bool)
        ensures
            r == self.signed(),
    {
        self.bits >= SIGN
    }

    /// The bit pattern with its sign cleared.
    fn clear_sign(self) -> (m: u64)
        ensures
            m == self.abs_bits(),
            m < SIGN,
    {
        if self.bits >= SIGN {
            self.bits - SIGN
        } else {
            self.bits
        }
    }

    /// The sign flipped.
    pub fn negate(self) -> (r: Double)
        ensures
            r == self.negated(),
            r.key() == -self.key(),
            r.abs_bits() == self.abs_bits(),
    {
        if self.bits >= SIGN {
            Double { bits: self.bits - SIGN }
        } else {
            Double { bits: self.bits + SIGN }
        }
    }

    /// The sign cleared.
    pub fn abs(self) -> (r: Double)
        ensures
            r == self.absolute(),
            r.key() == self.abs_bits(),
    {
        Double { bits: self.clear_sign() }
    }

    /// The numeric order as an integer.
    pub(crate) fn order(self) -> (k: i64)
        ensures
            k == self.key(),
    {
        let m: u64 = self.clear_sign();
        if self.bits >= SIGN {
            -(m as i64)
        } else {
            m as i64
        }
    }

    /// The total order of bit patterns as an integer.
    pub fn total_order(self) -> (k: i64)
        ensures
            k == self.total_key(),
    {
        let m: u64 = self.clear_sign();
        if self.bits >= SIGN {
            -1 - (m as i64)
        } else {
            m as i64
        }
    }

    /// Numeric `self < other`; false when either is a NaN.
    pub fn less(self, other: Double) -> (r: bool)
        ensures
            r == self.lt(other),
    {
        !self.is_nan() && !other.is_nan() && self.order() < other.order()
    }

    /// Numeric `self <= other`; false when either is a NaN.
    pub fn at_most(self, other: Double) -> (r: bool)
        ensures
            r == self.le(other),
    {
        !self.is_nan() && !other.is_nan() && self.order() <= other.order()
    }

    /// Numeric `self == other`; false when either is a NaN.
    pub fn equals(self, other: Double) -> (r: bool)
        ensures
            r == self.same(other),
    {
        !self.is_nan() && !other.is_nan() && self.order() == other.order()
    }

    /// The number `n` representable steps up: past the largest finite number lies
    /// infinity, which stays where it is, and so does a NaN.
    pub open spec fn raised(self, n: int) -> Double {
        let k = self.key() + n;
        if self.nan() || n == 0 {
            self
        } else if k >= INFINITY_BITS {
            Double { bits: INFINITY_BITS }
        } else if k > 0 {
            Double { bits: k as u64 }
        } else {
            Double { bits: (SIGN - k) as u64 }
        }
    }

    /// The number `n` representable steps down.
    pub open spec fn dropped(self, n: int) -> Double {
        self.negated().raised(n).negated()
    }

    /// The number `n` representable steps up.
    pub fn step_up(self, n: u32) -> (r: Double)
        ensures
            r == self.raised(n as int),
    {
        if self.is_nan() || n == 0 {
            return self;
        }
        let k: i64 = self.order() + n as i64;
        if k >= INFINITY_BITS as i64 {
            Double { bits: INFINITY_BITS }
        } else if k > 0 {
            Double { bits: k as u64 }
        } else {
            Double { bits: SIGN + (-k) as u64 }
        }
    }

    /// The number `n` representable steps down.
    pub fn step_down(self, n: u32) -> (r: Double)
        ensures
            r == self.dropped(n as int),
    {
        self.negate().step_up(n).negate()
    }
}

} // verus!
