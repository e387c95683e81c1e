//! Rounding to the nearest binary64 value, ties to even.
use crate::double::{Double, HIDDEN_BIT, INFINITY_BITS};
use crate::powers::{
    bit_len,
    bit_length,
    lemma_bit_length_bounds,
    lemma_bit_length_scaled,
    lemma_pow2_le,
    lemma_pow2_split,
    lemma_pow2_table,
    lemma_scaled_div_exact,
    lemma_scaled_div_inexact,
    pow2_u128,
    shift_left,
    shift_right,
};
use vstd::arithmetic::div_mod::{lemma_fundamental_div_mod, lemma_mod_bound};
use vstd::arithmetic::power2::{lemma_pow2_pos, lemma_pow2_unfold, pow2};
use vstd::prelude::*;

verus! {

/// The number of low bits of `n` that a binary64 value cannot hold, where
/// `n` counts units of `2^-g` quanta: the `g` bits below one quantum, and
/// whatever `n` has above 53 significant bits.
pub open spec fn dropped_bits(n: nat, g: nat) -> nat {
    if bit_length(n) <= 53 + g {
        g
    } else {
        (bit_length(n) - 53) as nat
    }
}

/// Whether a quotient `q` with remainder `r` out of `d` rounds up: the
/// remainder is above the half, or on it with `q` odd.
pub open spec fn rounds_up(q: nat, r: nat, d: nat) -> bool {
    2 * r > d || (2 * r == d && q % 2 == 1)
}

/// The magnitude pattern of the binary64 value nearest to `n / 2^g` quanta,
/// ties to even; that of infinity where the nearest value would need an
/// exponent that the format lacks.
///
/// With `s` bits dropped, the kept bits `q` are below 2^53. Patterns count
/// upwards through the subnormals and then through every exponent, so the
/// pattern of the value `q * 2^(s-g)` quanta is `(s - g) * 2^52 + q`, and
/// the next value above it has the next pattern.
pub open spec fn round_magnitude(n: nat, g: nat) -> nat {
    let s = dropped_bits(n, g);
    let q = n / pow2(s);
    let r = n % pow2(s);
    let m = (s - g) * HIDDEN_BIT + q + if rounds_up(q, r, pow2(s)) {
        1int
    } else {
        0int
    };
    if m >= INFINITY_BITS {
        INFINITY_BITS as nat
    } else {
        m as nat
    }
}

impl Double {
    /// The binary64 value of the given sign nearest to `n / 2^g` quanta, ties
    /// to even.
    pub open spec fn nearest(negative: bool, n: nat, g: nat) -> Double {
        Double::from_parts(negative, round_magnitude(n, g))
    }

    /// Rounds `sig * 2^k / 2^g` quanta to the nearest value, ties to even.
    pub(crate) fn round_pack(negative: bool, sig: u128, k: u32, g: u32) -> (r: Double)
        requires
            k <= 4096,
            g <= 64,
        ensures
            r == Double::nearest(negative, sig as nat * pow2(k as nat), g as nat),
    {
        let ghost n: nat = sig as nat * pow2(k as nat);
        proof {
            lemma_pow2_table();
            lemma_pow2_pos(k as nat);
        }
        if sig == 0 {
            proof {
                assert(n == 0) by (nonlinear_arith)
                    requires
                        n == sig as nat * pow2(k as nat),
                        sig == 0,
                ;
                assert(bit_length(0) == 0);
                lemma_pow2_pos(g as nat);
                assert(0nat / pow2(g as nat) == 0 && 0nat % pow2(g as nat) == 0) by {
                    lemma_fundamental_div_mod(0, pow2(g as nat) as int);
                    lemma_mod_bound(0, pow2(g as nat) as int);
                    let d = pow2(g as nat) as int;
                    let q = 0int / d;
                    let r = 0int % d;
                    assert(q == 0 && r == 0) by (nonlinear_arith)
                        requires
                            0 == d * q + r,
                            0 <= r < d,
                    ;
                }
            }
            return Double::pack(negative, 0);
        }
        let len = bit_len(sig);
        let total: u32 = len + k;
        let s: u32 = if total <= 53 + g {
            g
        } else {
            total - 53
        };
        proof {
            lemma_bit_length_scaled(sig as nat, k as nat);
            lemma_bit_length_bounds(n);
            lemma_bit_length_bounds(sig as nat);
            assert(s == dropped_bits(n, g as nat));
            // What is kept is below 2^53.
            lemma_pow2_le(bit_length(n), (s + 53) as nat);
            lemma_pow2_split(s as nat, 53);
            lemma_fundamental_div_mod(n as int, pow2(s as nat) as int);
            lemma_mod_bound(n as int, pow2(s as nat) as int);
            let d = pow2(s as nat) as int;
            let q = n as int / d;
            assert(q < pow2(53)) by (nonlinear_arith)
                requires
                    n == d * q + n as int % d,
                    0 <= n as int % d,
                    n < d * pow2(53),
                    d > 0,
            ;
            assert(0 <= q) by (nonlinear_arith)
                requires
                    n == d * q + n as int % d,
                    n as int % d < d,
                    n >= 0,
                    d > 0,
            ;
            if s > g {
                // The leading bit of `n` is kept.
                lemma_pow2_split(s as nat, 52);
                assert((bit_length(n) - 1) as nat == s + 52);
                assert(q >= pow2(52)) by (nonlinear_arith)
                    requires
                        n == d * q + n as int % d,
                        n as int % d < d,
                        n >= d * pow2(52),
                        d > 0,
                ;
            }
        }
        if s - g >= 2046 {
            return Double::pack(negative, INFINITY_BITS);
        }
        let high: u64 = (s - g) as u64 * HIDDEN_BIT;
        if s <= k {
            proof {
                lemma_scaled_div_exact(sig as nat, k as nat, s as nat);
                let p = pow2((k - s) as nat);
                lemma_pow2_pos((k - s) as nat);
                assert(sig * p >= p) by (nonlinear_arith)
                    requires
                        sig >= 1,
                        p > 0,
                ;
                if k - s >= 53 {
                    lemma_pow2_le(53, (k - s) as nat);
                }
            }
            let q = shift_left(sig, k - s) as u64;
            Double::pack(negative, high + q)
        } else {
            let t: u32 = s - k;
            proof {
                lemma_scaled_div_inexact(sig as nat, k as nat, s as nat);
                lemma_pow2_split(t as nat, k as nat);
                lemma_pow2_pos(t as nat);
                lemma_pow2_unfold(t as nat);
            }
            let q = shift_right(sig, t) as u64;
            let unit = pow2_u128(t);
            let rem = sig % unit;
            let half = pow2_u128(t - 1);
            let up = rem > half || (rem == half && q % 2 == 1);
            proof {
                let p = pow2(k as nat) as int;
                assert(n % pow2(s as nat) == rem * p);
                assert(pow2(s as nat) == unit * p);
                assert((2 * (rem * p) > unit * p) == (rem > half)) by (nonlinear_arith)
                    requires
                        p > 0,
                        unit == 2 * half,
                ;
                assert((2 * (rem * p) == unit * p) == (rem == half)) by (nonlinear_arith)
                    requires
                        p > 0,
                        unit == 2 * half,
                ;
                assert(up == rounds_up(q as nat, n % pow2(s as nat), pow2(s as nat)));
            }
            let m: u64 = high + q + if up {
                1
            } else {
                0
            };
            if m >= INFINITY_BITS {
                Double::pack(negative, INFINITY_BITS)
            } else {
                Double::pack(negative, m)
            }
        }
    }
}

} // verus!
