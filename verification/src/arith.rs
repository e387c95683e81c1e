//! Binary64 arithmetic and comparison on bit patterns.
//!
//! Each operation states its result over the values in quanta: a finite
//! result is the exact result, rounded to nearest, ties to even.
use crate::double::{lemma_quanta_order, Double, HIDDEN_BIT, INFINITY_BITS, NAN_BITS};
use crate::powers::{
    bit_length,
    lemma_bit_length_unique,
    lemma_pow2_le,
    lemma_pow2_split,
    lemma_pow2_table,
    shift_left,
};
use crate::rounding::{dropped_bits, round_magnitude, rounds_up};
use vstd::arithmetic::div_mod::{lemma_div_pos_is_pos, lemma_fundamental_div_mod_converse};
use vstd::arithmetic::power2::{lemma_pow2_pos, lemma_pow2_unfold, pow2};
use vstd::prelude::*;

verus! {

impl Double {
    /// `-self`: the same magnitude under the other sign, for a NaN too.
    pub open spec fn spec_neg(self) -> Double {
        Double::from_parts(!self.negative(), self.magnitude_bits())
    }

    /// `|self|`: the same magnitude under a clear sign bit, for a NaN too.
    pub open spec fn spec_abs(self) -> Double {
        Double::from_parts(false, self.magnitude_bits())
    }

    /// `self + rhs`. A NaN operand, or infinities of opposite sign, give the
    /// NaN; an infinity otherwise gives itself. Two finite values give their
    /// exact sum, rounded. An exact sum of zero is +0, unless both operands
    /// are negative (both are then -0).
    pub open spec fn spec_plus(self, rhs: Double) -> Double {
        if self.is_nan() || rhs.is_nan() {
            Double::nan()
        } else if self.is_infinite() {
            if rhs.is_infinite() && self.negative() != rhs.negative() {
                Double::nan()
            } else {
                self
            }
        } else if rhs.is_infinite() {
            rhs
        } else {
            let v = self.value() + rhs.value();
            if v == 0 {
                Double::from_parts(self.negative() && rhs.negative(), 0)
            } else if v < 0 {
                Double::nearest(true, (-v) as nat, 0)
            } else {
                Double::nearest(false, v as nat, 0)
            }
        }
    }

    /// `self - rhs`, which binary64 defines as `self + (-rhs)`.
    pub open spec fn spec_minus(self, rhs: Double) -> Double {
        self.spec_plus(rhs.spec_neg())
    }

    /// `self / 2^g`. A NaN gives the NaN and an infinity itself; a finite
    /// value gives the exact quotient, rounded, under the sign of `self`.
    pub open spec fn spec_scaled_down(self, g: nat) -> Double {
        if self.is_nan() {
            Double::nan()
        } else if self.is_infinite() {
            self
        } else {
            Double::nearest(self.negative(), self.magnitude(), g)
        }
    }

    /// `self / 2.0`.
    pub open spec fn spec_half(self) -> Double {
        self.spec_scaled_down(1)
    }

    /// `self / 4.0`.
    pub open spec fn spec_quarter(self) -> Double {
        self.spec_scaled_down(2)
    }

    /// `self < rhs`: false if either is a NaN; the two zeros are equal.
    pub open spec fn spec_lt(self, rhs: Double) -> bool {
        !self.is_nan() && !rhs.is_nan() && self.value() < rhs.value()
    }

    /// `self > rhs`: false if either is a NaN; the two zeros are equal.
    pub open spec fn spec_gt(self, rhs: Double) -> bool {
        rhs.spec_lt(self)
    }

    /// `self <= rhs`: false if either is a NaN; the two zeros are equal.
    pub open spec fn spec_le(self, rhs: Double) -> bool {
        !self.is_nan() && !rhs.is_nan() && self.value() <= rhs.value()
    }

    /// `self >= rhs`: false if either is a NaN; the two zeros are equal.
    pub open spec fn spec_ge(self, rhs: Double) -> bool {
        rhs.spec_le(self)
    }

    /// The larger of the two. A NaN is passed over for the other operand;
    /// of two equal values (the two zeros too), `self` is returned.
    pub open spec fn spec_max(self, rhs: Double) -> Double {
        if self.is_nan() {
            rhs
        } else if rhs.is_nan() {
            self
        } else if self.value() < rhs.value() {
            rhs
        } else {
            self
        }
    }

    /// The smaller of the two. A NaN is passed over for the other operand;
    /// of two equal values (the two zeros too), `self` is returned.
    pub open spec fn spec_min(self, rhs: Double) -> Double {
        if self.is_nan() {
            rhs
        } else if rhs.is_nan() {
            self
        } else if rhs.value() < self.value() {
            rhs
        } else {
            self
        }
    }

    /// `-self`.
    #[verifier::when_used_as_spec(spec_neg)]
    pub fn neg(self) -> (r: Double)
        ensures
            r == self.spec_neg(),
    {
        Double::pack(!self.is_sign_negative(), self.abs_bits())
    }

    /// `|self|`.
    #[verifier::when_used_as_spec(spec_abs)]
    pub fn abs(self) -> (r: Double)
        ensures
            r == self.spec_abs(),
    {
        Double::pack(false, self.abs_bits())
    }

    /// `self < rhs`, as binary64 compares.
    #[verifier::when_used_as_spec(spec_lt)]
    pub fn lt(self, rhs: Double) -> (r: bool)
        ensures
            r == self.spec_lt(rhs),
    {
        if self.is_nan() || rhs.is_nan() {
            return false;
        }
        let a = self.abs_bits();
        let b = rhs.abs_bits();
        proof {
            lemma_quanta_order(a as nat, b as nat);
            lemma_quanta_order(a as nat, 0);
            lemma_quanta_order(b as nat, 0);
        }
        if self.is_sign_negative() {
            if rhs.is_sign_negative() {
                b < a
            } else {
                a != 0 || b != 0
            }
        } else {
            !rhs.is_sign_negative() && a < b
        }
    }

    /// `self > rhs`, as binary64 compares.
    #[verifier::when_used_as_spec(spec_gt)]
    pub fn gt(self, rhs: Double) -> (r: bool)
        ensures
            r == self.spec_gt(rhs),
    {
        rhs.lt(self)
    }

    /// `self <= rhs`, as binary64 compares.
    #[verifier::when_used_as_spec(spec_le)]
    pub fn le(self, rhs: Double) -> (r: bool)
        ensures
            r == self.spec_le(rhs),
    {
        !self.is_nan() && !rhs.is_nan() && !rhs.lt(self)
    }

    /// `self >= rhs`, as binary64 compares.
    #[verifier::when_used_as_spec(spec_ge)]
    pub fn ge(self, rhs: Double) -> (r: bool)
        ensures
            r == self.spec_ge(rhs),
    {
        rhs.le(self)
    }

    /// The larger of the two, passing over a NaN.
    #[verifier::when_used_as_spec(spec_max)]
    pub fn max(self, rhs: Double) -> (r: Double)
        ensures
            r == self.spec_max(rhs),
    {
        if self.is_nan() {
            rhs
        } else if rhs.is_nan() {
            self
        } else if self.lt(rhs) {
            rhs
        } else {
            self
        }
    }

    /// The smaller of the two, passing over a NaN.
    #[verifier::when_used_as_spec(spec_min)]
    pub fn min(self, rhs: Double) -> (r: Double)
        ensures
            r == self.spec_min(rhs),
    {
        if self.is_nan() {
            rhs
        } else if rhs.is_nan() {
            self
        } else if rhs.lt(self) {
            rhs
        } else {
            self
        }
    }

    /// `self / 2^g`, rounded once.
    pub(crate) fn scaled_down(self, g: u32) -> (r: Double)
        requires
            g <= 64,
        ensures
            r == self.spec_scaled_down(g as nat),
    {
        if self.is_nan() {
            Double::from_bits(NAN_BITS)
        } else if self.is_infinite() {
            self
        } else {
            let (m, k) = self.decode();
            Double::round_pack(self.is_sign_negative(), m as u128, k, g)
        }
    }

    /// `self / 2.0`.
    #[verifier::when_used_as_spec(spec_half)]
    pub fn half(self) -> (r: Double)
        ensures
            r == self.spec_half(),
    {
        self.scaled_down(1)
    }

    /// `self / 4.0`.
    #[verifier::when_used_as_spec(spec_quarter)]
    pub fn quarter(self) -> (r: Double)
        ensures
            r == self.spec_quarter(),
    {
        self.scaled_down(2)
    }

    /// The sum of two finite values, the first of which has the exponent
    /// that is not the smaller. The significands are lined up in 128 bits
    /// and added or subtracted exactly; where the exponents lie too far
    /// apart for that, the second value is below a quarter of the last
    /// place of the first, and the sum rounds to the first.
    fn plus_aligned(self, low: Double) -> (r: Double)
        requires
            self.is_finite(),
            low.is_finite(),
            self.magnitude_bits() / (HIDDEN_BIT as nat) >= low.magnitude_bits() / (
            HIDDEN_BIT as nat),
        ensures
            r == self.spec_plus(low),
    {
        let (ma, ka) = self.decode();
        let (mb, kb) = low.decode();
        let sa = self.is_sign_negative();
        let sb = low.is_sign_negative();
        proof {
            lemma_pow2_table();
            lemma_pow2_pos(kb as nat);
        }
        assert(ka >= kb);
        let d: u32 = ka - kb;
        let ghost unit = pow2(kb as nat) as int;
        if d > 64 {
            proof {
                lemma_pow2_split(53, kb as nat);
                lemma_pow2_le((53 + kb) as nat, (ka - 2) as nat);
                lemma_pow2_split(2, (ka - 2) as nat);
                assert(mb * unit < pow2(53) * unit) by (nonlinear_arith)
                    requires
                        mb < pow2(53),
                        unit > 0,
                ;
                lemma_far_apart(ma as nat, ka as nat, low.magnitude());
            }
            return self;
        }
        proof {
            lemma_pow2_le(d as nat, 64);
            lemma_pow2_split(d as nat, kb as nat);
            assert(ma * pow2(d as nat) <= 0x20_0000_0000_0000 * 0x1_0000_0000_0000_0000)
                by (nonlinear_arith)
                requires
                    ma <= 0x20_0000_0000_0000,
                    pow2(d as nat) <= 0x1_0000_0000_0000_0000,
            ;
        }
        let a: u128 = shift_left(ma as u128, d);
        let b: u128 = mb as u128;
        proof {
            assert(self.magnitude() == a * unit) by (nonlinear_arith)
                requires
                    self.magnitude() == ma * pow2(ka as nat),
                    pow2(ka as nat) == pow2(d as nat) * unit,
                    a == ma * pow2(d as nat),
            ;
            assert(low.magnitude() == b * unit);
            assert((a + b) * unit == a * unit + b * unit) by (nonlinear_arith);
            assert((a - b) * unit == a * unit - b * unit) by (nonlinear_arith);
            assert((b - a) * unit == b * unit - a * unit) by (nonlinear_arith);
            assert(a == b <==> a * unit == b * unit) by (nonlinear_arith)
                requires
                    unit > 0,
            ;
            assert(a < b <==> a * unit < b * unit) by (nonlinear_arith)
                requires
                    unit > 0,
            ;
            assert(a + b == 0 <==> (a + b) * unit == 0) by (nonlinear_arith)
                requires
                    unit > 0,
                    a + b >= 0,
            ;
        }
        if sa == sb {
            let sum = a + b;
            if sum == 0 {
                Double::pack(sa, 0)
            } else {
                Double::round_pack(sa, sum, kb, 0)
            }
        } else if a > b {
            Double::round_pack(sa, a - b, kb, 0)
        } else if a < b {
            Double::round_pack(sb, b - a, kb, 0)
        } else {
            Double::pack(false, 0)
        }
    }

    /// `self + rhs`.
    #[verifier::when_used_as_spec(spec_plus)]
    pub fn plus(self, rhs: Double) -> (r: Double)
        ensures
            r == self.spec_plus(rhs),
    {
        if self.is_nan() || rhs.is_nan() {
            return Double::from_bits(NAN_BITS);
        }
        if self.is_infinite() {
            if rhs.is_infinite() && self.is_sign_negative() != rhs.is_sign_negative() {
                return Double::from_bits(NAN_BITS);
            }
            return self;
        }
        if rhs.is_infinite() {
            return rhs;
        }
        if self.abs_bits() / HIDDEN_BIT >= rhs.abs_bits() / HIDDEN_BIT {
            self.plus_aligned(rhs)
        } else {
            rhs.plus_aligned(self)
        }
    }

    /// `self - rhs`.
    #[verifier::when_used_as_spec(spec_minus)]
    pub fn minus(self, rhs: Double) -> (r: Double)
        ensures
            r == self.spec_minus(rhs),
    {
        self.plus(rhs.neg())
    }
}

/// A normal value of significand `m` and scale `k` absorbs a value `y` of
/// less than a quarter of its last place, added or taken away: the result
/// rounds back to the pattern `k * 2^52 + m`.
proof fn lemma_far_apart(m: nat, k: nat, y: nat)
    requires
        HIDDEN_BIT <= m < 2 * HIDDEN_BIT,
        2 <= k <= 2045,
        4 * y < pow2(k),
    ensures
        m * pow2(k) > y,
        round_magnitude(m * pow2(k) + y, 0) == k * HIDDEN_BIT + m,
        round_magnitude((m * pow2(k) - y) as nat, 0) == k * HIDDEN_BIT + m,
{
    lemma_pow2_table();
    let h = HIDDEN_BIT as int;
    let p = pow2(k) as int;
    lemma_pow2_pos(k);
    lemma_pow2_split(52, k);
    lemma_pow2_split(53, k);
    assert(h * p <= m * p && m * p + p <= 2 * h * p) by (nonlinear_arith)
        requires
            h <= m < 2 * h,
            p > 0,
    ;
    assert(k * h + m < INFINITY_BITS) by (nonlinear_arith)
        requires
            k <= 2045,
            m < 2 * h,
            h == 0x10_0000_0000_0000,
    ;
    // Added: the last place keeps `m`, and `y` is under the half.
    let up = (m * p + y) as nat;
    lemma_bit_length_unique(up, 53 + k);
    assert(dropped_bits(up, 0) == k);
    lemma_fundamental_div_mod_converse(up as int, p, m as int, y as int);
    assert(!rounds_up(m, y, p as nat));
    // Taken away.
    let down = (m * p - y) as nat;
    if y == 0 {
    } else if m > h {
        assert((m - 1) * p + (p - y) == m * p - y) by (nonlinear_arith);
        assert(h * p <= (m - 1) * p) by (nonlinear_arith)
            requires
                h <= m - 1,
                p > 0,
        ;
        lemma_bit_length_unique(down, 53 + k);
        assert(dropped_bits(down, 0) == k);
        lemma_fundamental_div_mod_converse(down as int, p, m - 1, p - y);
        assert(rounds_up((m - 1) as nat, (p - y) as nat, p as nat));
    } else {
        // `m` is a power of two: the result lies one exponent lower, where
        // places are half as wide.
        let j = (k - 1) as nat;
        let half = pow2(j) as int;
        lemma_pow2_unfold(k);
        lemma_pow2_split(51, k);
        lemma_pow2_unfold(52);
        lemma_pow2_split(52, j);
        lemma_pow2_split(53, j);
        assert((2 * h - 1) * half + (half - y) == h * p - y) by (nonlinear_arith)
            requires
                p == 2 * half,
        ;
        assert(pow2(51) * p <= (2 * h - 1) * half) by (nonlinear_arith)
            requires
                p == 2 * half,
                2 * pow2(51) == h,
                half > 0,
                h >= 1,
        ;
        assert(52 + k == 53 + j);
        lemma_bit_length_unique(down, 52 + k);
        assert(bit_length(down) == 53 + j);
        assert(dropped_bits(down, 0) == j);
        lemma_fundamental_div_mod_converse(down as int, half, 2 * h - 1, half - y);
        assert((2 * h - 1) % 2 == 1);
        assert(rounds_up((2 * h - 1) as nat, (half - y) as nat, half as nat));
        assert((j - 0) * h + (2 * h - 1) + 1 == k * h + m) by (nonlinear_arith)
            requires
                j == k - 1,
                m == h,
        ;
    }
}

/// Rounding never gives a NaN: the result is finite or an infinity, of
/// the magnitude pattern that `round_magnitude` names.
pub proof fn lemma_nearest_is_a_number(negative: bool, n: nat, g: nat)
    ensures
        !Double::nearest(negative, n, g).is_nan(),
        Double::nearest(negative, n, g).magnitude_bits() == round_magnitude(n, g),
        Double::nearest(negative, n, g).negative() == negative,
{
    let s = dropped_bits(n, g);
    lemma_pow2_pos(s);
    lemma_div_pos_is_pos(n as int, pow2(s) as int);
}

/// A sum is a NaN only if an operand is one, or if the operands are
/// infinities of opposite sign.
pub proof fn lemma_plus_is_nan(a: Double, b: Double)
    ensures
        a.spec_plus(b).is_nan() <==> a.is_nan() || b.is_nan() || (a.is_infinite()
            && b.is_infinite() && a.negative() != b.negative()),
{
    if a.is_finite() && b.is_finite() {
        let v = a.value() + b.value();
        if v < 0 {
            lemma_nearest_is_a_number(true, (-v) as nat, 0);
        } else if v > 0 {
            lemma_nearest_is_a_number(false, v as nat, 0);
        }
    }
}

/// A sum does not depend on the order of its operands.
pub proof fn lemma_plus_commutes(a: Double, b: Double)
    ensures
        a.spec_plus(b) == b.spec_plus(a),
{
}

/// A value divided by a power of two is a NaN only if it was one.
pub proof fn lemma_scaled_down_is_nan(a: Double, g: nat)
    ensures
        a.spec_scaled_down(g).is_nan() <==> a.is_nan(),
{
    if a.is_finite() {
        lemma_nearest_is_a_number(a.negative(), a.magnitude(), g);
    }
}

} // verus!
