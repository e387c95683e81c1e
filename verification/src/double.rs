//! A binary64 value held by its bit pattern, and what it stands for.
//!
//! The unit of every value here is the quantum, 2^-1074: the smallest
//! positive binary64 value. Every finite binary64 value is a whole number of
//! quanta, so the model of a finite value is an `int`.
use crate::powers::{lemma_pow2_le, lemma_pow2_split, lemma_pow2_table};
use vstd::arithmetic::power2::pow2;
use vstd::prelude::*;

verus! {

/// The sign bit of a bit pattern.
pub const SIGN_BIT: u64 = 0x8000_0000_0000_0000;

/// The bit above the 52 fraction bits: the leading one of a normal value.
pub const HIDDEN_BIT: u64 = 0x10_0000_0000_0000;

/// The bit pattern of positive infinity; every larger magnitude is a NaN.
pub const INFINITY_BITS: u64 = 0x7FF0_0000_0000_0000;

/// The bit pattern of the NaN that arithmetic here returns.
pub const NAN_BITS: u64 = 0x7FF8_0000_0000_0000;

/// A binary64 value, held by its bit pattern. Every pattern is a value.
#[derive(Clone, Copy, Debug)]
pub struct Double {
    pub bits: u64,
}

/// The number of quanta that the magnitude pattern `m` (a bit pattern
/// without its sign) stands for. Below 2^53 the pattern is a subnormal, or a
/// normal of the lowest exponent, and stands for itself; above, the low 52
/// bits under a leading one are scaled by the exponent field. The pattern of
/// infinity gets 2^2098, which is above every finite value.
pub open spec fn quanta(m: nat) -> nat {
    if m < 2 * HIDDEN_BIT {
        m
    } else {
        ((HIDDEN_BIT + m % (HIDDEN_BIT as nat)) * pow2((m / (HIDDEN_BIT as nat) - 1) as nat)) as nat
    }
}

impl Double {
    /// Whether the sign bit is set.
    pub open spec fn negative(self) -> bool {
        self.bits >= SIGN_BIT
    }

    /// The bit pattern without its sign.
    pub open spec fn magnitude_bits(self) -> nat {
        if self.bits >= SIGN_BIT {
            (self.bits - SIGN_BIT) as nat
        } else {
            self.bits as nat
        }
    }

    /// A NaN: a magnitude pattern above that of infinity.
    pub open spec fn spec_is_nan(self) -> bool {
        self.magnitude_bits() > INFINITY_BITS
    }

    /// An infinity: all exponent bits set, no fraction bit.
    pub open spec fn spec_is_infinite(self) -> bool {
        self.magnitude_bits() == INFINITY_BITS
    }

    /// A zero, a subnormal or a normal value.
    pub open spec fn spec_is_finite(self) -> bool {
        self.magnitude_bits() < INFINITY_BITS
    }

    /// The absolute value, in quanta. Meaningful unless `self` is a NaN.
    pub open spec fn magnitude(self) -> nat {
        quanta(self.magnitude_bits())
    }

    /// The value, in quanta. Both zeros have the value 0; an infinity has
    /// plus or minus 2^2098, beyond every finite value. Meaningful unless
    /// `self` is a NaN.
    pub open spec fn value(self) -> int {
        if self.negative() {
            -(self.magnitude() as int)
        } else {
            self.magnitude() as int
        }
    }

    /// The value with the given sign and magnitude pattern.
    pub open spec fn from_parts(negative: bool, magnitude_bits: nat) -> Double {
        Double {
            bits: if negative {
                (magnitude_bits + SIGN_BIT) as u64
            } else {
                magnitude_bits as u64
            },
        }
    }

    /// The NaN that arithmetic here returns.
    pub open spec fn nan() -> Double {
        Double { bits: NAN_BITS }
    }

    /// The value with the given bit pattern.
    pub fn from_bits(bits: u64) -> (r: Double)
        ensures
            r.bits == bits,
    {
        Double { bits }
    }

    /// The bit pattern of the value.
    pub fn to_bits(self) -> (r: u64)
        ensures
            r == self.bits,
    {
        self.bits
    }

    /// Whether the value is a NaN.
    #[verifier::when_used_as_spec(spec_is_nan)]
    pub fn is_nan(self) -> (r: bool)
        ensures
            r == self.spec_is_nan(),
    {
        self.abs_bits() > INFINITY_BITS
    }

    /// Whether the value is one of the two infinities.
    #[verifier::when_used_as_spec(spec_is_infinite)]
    pub fn is_infinite(self) -> (r: bool)
        ensures
            r == self.spec_is_infinite(),
    {
        self.abs_bits() == INFINITY_BITS
    }

    /// Whether the value is neither an infinity nor a NaN.
    #[verifier::when_used_as_spec(spec_is_finite)]
    pub fn is_finite(self) -> (r: bool)
        ensures
            r == self.spec_is_finite(),
    {
        self.abs_bits() < INFINITY_BITS
    }

    /// Whether the sign bit is set: true of -0.0 and of a NaN with that bit.
    pub fn is_sign_negative(self) -> (r: bool)
        ensures
            r == self.negative(),
    {
        self.bits >= SIGN_BIT
    }

    /// The bit pattern without its sign.
    pub(crate) fn abs_bits(self) -> (r: u64)
        ensures
            r == self.magnitude_bits(),
            r < SIGN_BIT,
    {
        if self.bits >= SIGN_BIT {
            self.bits - SIGN_BIT
        } else {
            self.bits
        }
    }

    /// The value with the given sign and magnitude pattern.
    pub(crate) fn pack(negative: bool, magnitude_bits: u64) -> (r: Double)
        requires
            magnitude_bits < SIGN_BIT,
        ensures
            r == Double::from_parts(negative, magnitude_bits as nat),
            r.negative() == negative,
            r.magnitude_bits() == magnitude_bits,
    {
        if negative {
            Double { bits: magnitude_bits + SIGN_BIT }
        } else {
            Double { bits: magnitude_bits }
        }
    }

    /// Splits a finite value into a significand and a scale, so that the
    /// magnitude is `significand * 2^scale` quanta.
    pub(crate) fn decode(self) -> (r: (u64, u32))
        requires
            self.is_finite(),
        ensures
            self.magnitude() == r.0 * pow2(r.1 as nat),
            self.magnitude_bits() == r.1 * HIDDEN_BIT + r.0,
            r.0 < 2 * HIDDEN_BIT,
            r.1 <= 2045,
            r.1 > 0 ==> r.0 >= HIDDEN_BIT,
    {
        let m = self.abs_bits();
        proof {
            lemma_pow2_table();
        }
        if m < 2 * HIDDEN_BIT {
            assert(m * pow2(0) == m);
            (m, 0)
        } else {
            let e: u64 = m / HIDDEN_BIT;
            let scale: u32 = (e - 1) as u32;
            assert(scale as nat == (m as nat / (HIDDEN_BIT as nat) - 1) as nat);
            assert(m == scale * HIDDEN_BIT + (HIDDEN_BIT + m % HIDDEN_BIT));
            ((HIDDEN_BIT + m % HIDDEN_BIT), scale)
        }
    }
}

/// A larger magnitude pattern stands for more quanta.
pub proof fn lemma_quanta_increasing(a: nat, b: nat)
    requires
        a < b < SIGN_BIT,
    ensures
        quanta(a) < quanta(b),
{
    lemma_pow2_table();
    let h = HIDDEN_BIT as nat;
    if b < 2 * h {
    } else {
        let eb = (b / h - 1) as nat;
        let fb = b % h;
        lemma_pow2_le(1, eb);
        if a < 2 * h {
            assert((h + fb) * pow2(eb) >= 2 * h) by (nonlinear_arith)
                requires
                    pow2(eb) >= 2,
                    fb >= 0,
                    h > 0,
            ;
        } else {
            let ea = (a / h - 1) as nat;
            let fa = a % h;
            if ea == eb {
                assert((h + fa) * pow2(ea) < (h + fb) * pow2(eb)) by (nonlinear_arith)
                    requires
                        ea == eb,
                        fa < fb,
                        pow2(eb) > 0,
                ;
            } else {
                lemma_pow2_split(ea, 1);
                lemma_pow2_le(ea + 1, eb);
                assert((h + fa) * pow2(ea) < (h + fb) * pow2(eb)) by (nonlinear_arith)
                    requires
                        fa < h,
                        0 <= fb,
                        0 < pow2(ea),
                        2 * pow2(ea) <= pow2(eb),
                ;
            }
        }
    }
}

/// Two magnitude patterns are ordered as the quanta they stand for.
pub proof fn lemma_quanta_order(a: nat, b: nat)
    requires
        a < SIGN_BIT,
        b < SIGN_BIT,
    ensures
        a < b <==> quanta(a) < quanta(b),
        a == b <==> quanta(a) == quanta(b),
{
    if a < b {
        lemma_quanta_increasing(a, b);
    } else if b < a {
        lemma_quanta_increasing(b, a);
    }
}

} // verus!
