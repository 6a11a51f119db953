//! Scalar numbers carried as bit patterns.
//!
//! Weights, fitness values and rates are double-precision numbers. This
//! library never computes with them itself: it stores the sixty-four bits of
//! each one, compares them, and asks an [`Arithmetic`] for every sum, product
//! or sample it needs.
use vstd::prelude::*;
use rand::rngs::StdRng;

verus! {

/// The bit that holds the sign.
pub const SIGN_BIT: u64 = 0x8000_0000_0000_0000u64;

/// The bits below the sign: exponent and fraction.
pub const MAGNITUDE_MASK: u64 = 0x7fff_ffff_ffff_ffffu64;

/// The magnitude of an infinity; every greater magnitude is not a number.
pub const INFINITY_BITS: u64 = 0x7ff0_0000_0000_0000u64;

/// The bits of the number one.
pub const ONE_BITS: u64 = 0x3ff0_0000_0000_0000u64;

/// A double-precision number, held as its bits.
///
/// `==` on this type compares the bits, so it tells two encodings of zero
/// apart; [`Scalar::le`] and [`Scalar::lt`] compare the numbers.
#[derive(Clone, Copy, Debug, PartialEq, Eq, Structural)]
pub struct Scalar {
    pub bits: u64,
}

impl Scalar {
    /// Exponent and fraction, without the sign.
    pub open spec fn magnitude(self) -> u64 {
        self.bits & MAGNITUDE_MASK
    }

    /// Whether the sign bit is set.
    pub open spec fn negative(self) -> bool {
        self.bits & SIGN_BIT != 0
    }

    /// Whether the bits encode no number at all.
    pub open spec fn nan(self) -> bool {
        self.magnitude() > INFINITY_BITS
    }

    /// The place of the number on the line of all encodable numbers: the
    /// magnitude, counted downwards from zero for negative numbers. Both
    /// zeros have place `0`.
    pub open spec fn ordinal(self) -> int {
        if self.negative() {
            -(self.magnitude() as int)
        } else {
            self.magnitude() as int
        }
    }

    /// `self <= other` as numbers; false when either is not a number.
    pub open spec fn at_most(self, other: Scalar) -> bool {
        !self.nan() && !other.nan() && self.ordinal() <= other.ordinal()
    }

    /// `self < other` as numbers; false when either is not a number.
    pub open spec fn below(self, other: Scalar) -> bool {
        !self.nan() && !other.nan() && self.ordinal() < other.ordinal()
    }

    /// The number zero.
    pub open spec fn zero_spec() -> Scalar {
        Scalar { bits: 0 }
    }

    /// The number one.
    pub open spec fn one_spec() -> Scalar {
        Scalar { bits: ONE_BITS }
    }

    pub fn from_bits(bits: u64) -> (r: Scalar)
        ensures
            r.bits == bits,
    {
        Scalar { bits }
    }

    pub fn to_bits(self) -> (r: u64)
        ensures
            r == self.bits,
    {
        self.bits
    }

    #[verifier::when_used_as_spec(zero_spec)]
    pub fn zero() -> (r: Scalar)
        ensures
            r == Scalar::zero_spec(),
    {
        Scalar { bits: 0 }
    }

    #[verifier::when_used_as_spec(one_spec)]
    pub fn one() -> (r: Scalar)
        ensures
            r == Scalar::one_spec(),
    {
        Scalar { bits: ONE_BITS }
    }

    pub fn is_nan(self) -> (r: bool)
        ensures
            r == self.nan(),
    {
        (self.bits & MAGNITUDE_MASK) > INFINITY_BITS
    }

    /// Compares two numbers: `self <= other`.
    pub fn le(self, other: Scalar) -> (r: bool)
        ensures
            r == self.at_most(other),
    {
        if self.is_nan() || other.is_nan() {
            return false;
        }
        let a: u64 = self.bits & MAGNITUDE_MASK;
        let b: u64 = other.bits & MAGNITUDE_MASK;
        let a_negative = (self.bits & SIGN_BIT) != 0;
        let b_negative = (other.bits & SIGN_BIT) != 0;
        if a_negative {
            if b_negative {
                b <= a
            } else {
                true
            }
        } else {
            if b_negative {
                a == 0 && b == 0
            } else {
                a <= b
            }
        }
    }

    /// Compares two numbers: `self < other`.
    pub fn lt(self, other: Scalar) -> (r: bool)
        ensures
            r == self.below(other),
    {
        if self.is_nan() || other.is_nan() {
            return false;
        }
        let a: u64 = self.bits & MAGNITUDE_MASK;
        let b: u64 = other.bits & MAGNITUDE_MASK;
        let a_negative = (self.bits & SIGN_BIT) != 0;
        let b_negative = (other.bits & SIGN_BIT) != 0;
        if a_negative {
            if b_negative {
                b < a
            } else {
                a != 0 || b != 0
            }
        } else {
            if b_negative {
                false
            } else {
                a < b
            }
        }
    }

    /// The number with the opposite sign.
    pub fn negate(self) -> (r: Scalar)
        ensures
            r.bits == self.bits ^ SIGN_BIT,
            r == self.negated(),
    {
        Scalar { bits: self.bits ^ SIGN_BIT }
    }

    /// The number with the opposite sign.
    pub open spec fn negated(self) -> Scalar {
        Scalar { bits: self.bits ^ SIGN_BIT }
    }

    /// The number without its sign.
    pub open spec fn absolute(self) -> Scalar {
        Scalar { bits: self.magnitude() }
    }

    /// `self` brought into `[low, high]`.
    pub open spec fn clamped(self, low: Scalar, high: Scalar) -> Scalar {
        if self.below(low) {
            low
        } else if high.below(self) {
            high
        } else {
            self
        }
    }

    /// The number without its sign.
    pub fn abs(self) -> (r: Scalar)
        ensures
            r.bits == self.magnitude(),
            r == self.absolute(),
    {
        Scalar { bits: self.bits & MAGNITUDE_MASK }
    }

    /// `self` brought into `[low, high]`: `low` where `self` lies below it,
    /// `high` where `self` lies above it, otherwise `self`.
    pub fn clamp(self, low: Scalar, high: Scalar) -> (r: Scalar)
        ensures
            r == if self.below(low) { low } else if high.below(self) { high } else { self },
            r == self.clamped(low, high),
    {
        if self.lt(low) {
            low
        } else if high.lt(self) {
            high
        } else {
            self
        }
    }
}

/// The arithmetic on real numbers that the library needs from outside.
///
/// The methods promise nothing: whatever they return, the library stays within
/// its invariants. An implementation decodes the bits, computes in double
/// precision, and encodes the result. Where a contract of the library speaks
/// of a sum, a product or a sample, it speaks of what the implementation has
/// returned: see [`sum_of`] and the relations beside it.
pub trait Arithmetic {
    /// `a + b`.
    fn plus(&self, a: Scalar, b: Scalar) -> Scalar;

    /// `a - b`.
    fn minus(&self, a: Scalar, b: Scalar) -> Scalar;

    /// `a * b`.
    fn times(&self, a: Scalar, b: Scalar) -> Scalar;

    /// `a / b`.
    fn over(&self, a: Scalar, b: Scalar) -> Scalar;

    /// Euler's number raised to `x`.
    fn exp(&self, x: Scalar) -> Scalar;

    /// The hyperbolic tangent of `x`.
    fn tanh(&self, x: Scalar) -> Scalar;

    /// The number nearest to the count `n`.
    fn from_count(&self, n: usize) -> Scalar;

    /// The greatest count that is not above `x`.
    fn floor_count(&self, x: Scalar) -> usize;

    /// The least count that is not below `x`.
    fn ceil_count(&self, x: Scalar) -> usize;

    /// A sample between zero and one, both excluded.
    fn open01(&self, rng: &mut StdRng) -> Scalar;

    /// A sample from `[low, high)`.
    fn uniform(&self, low: Scalar, high: Scalar, rng: &mut StdRng) -> Scalar;
}

/// `r` is what `ops` gives for `a + b`.
pub open spec fn sum_of<A: Arithmetic>(ops: &A, a: Scalar, b: Scalar, r: Scalar) -> bool {
    call_ensures(A::plus, (ops, a, b), r)
}

/// `r` is what `ops` gives for `a - b`.
pub open spec fn difference_of<A: Arithmetic>(ops: &A, a: Scalar, b: Scalar, r: Scalar) -> bool {
    call_ensures(A::minus, (ops, a, b), r)
}

/// `r` is what `ops` gives for `a * b`.
pub open spec fn product_of<A: Arithmetic>(ops: &A, a: Scalar, b: Scalar, r: Scalar) -> bool {
    call_ensures(A::times, (ops, a, b), r)
}

/// `r` is what `ops` gives for `a / b`.
pub open spec fn quotient_of<A: Arithmetic>(ops: &A, a: Scalar, b: Scalar, r: Scalar) -> bool {
    call_ensures(A::over, (ops, a, b), r)
}

/// `r` is what `ops` gives for Euler's number raised to `x`.
pub open spec fn power_of<A: Arithmetic>(ops: &A, x: Scalar, r: Scalar) -> bool {
    call_ensures(A::exp, (ops, x), r)
}

/// `r` is what `ops` gives for the hyperbolic tangent of `x`.
pub open spec fn tangent_of<A: Arithmetic>(ops: &A, x: Scalar, r: Scalar) -> bool {
    call_ensures(A::tanh, (ops, x), r)
}

/// `r` is the number that `ops` gives for the count `n`.
pub open spec fn number_of<A: Arithmetic>(ops: &A, n: usize, r: Scalar) -> bool {
    call_ensures(A::from_count, (ops, n), r)
}

/// `n` is the count that `ops` gives for `x` rounded down.
pub open spec fn floor_of<A: Arithmetic>(ops: &A, x: Scalar, n: usize) -> bool {
    call_ensures(A::floor_count, (ops, x), n)
}

/// `n` is the count that `ops` gives for `x` rounded up.
pub open spec fn ceiling_of<A: Arithmetic>(ops: &A, x: Scalar, n: usize) -> bool {
    call_ensures(A::ceil_count, (ops, x), n)
}

/// `r` is a sample that `ops` has drawn between zero and one, from the
/// random source in some state.
pub open spec fn drawn<A: Arithmetic>(ops: &A, r: Scalar) -> bool {
    exists|source: &mut StdRng| #[trigger] call_ensures(A::open01, (ops, source), r)
}

/// `r` is a sample that `ops` has drawn from `[low, high)`, from the random
/// source in some state.
pub open spec fn sampled<A: Arithmetic>(ops: &A, low: Scalar, high: Scalar, r: Scalar) -> bool {
    exists|source: &mut StdRng| #[trigger] call_ensures(A::uniform, (ops, low, high, source), r)
}

/// A draw against the probability `p` has come out as `hit` says: `ops` has
/// drawn a sample between zero and one, and the sample is below `p`, or it
/// is not.
pub open spec fn struck<A: Arithmetic>(ops: &A, p: Scalar, hit: bool) -> bool {
    exists|draw: Scalar| #[trigger] drawn(ops, draw) && hit == draw.below(p)
}

} // verus!
