//! Arithmetic keeps the order of the exact results.
//!
//! The value of a rounded result is a monotone function of the exact
//! result, and is the exact result where the format has it. So a bound on
//! an exact sum or quotient that is itself a value of the format is a bound
//! on the rounded one.
use crate::arith::lemma_nearest_is_a_number;
use crate::double::{lemma_quanta_order, quanta, Double, HIDDEN_BIT, INFINITY_BITS};
use crate::powers::lemma_pow2_table;
use crate::rounding::round_magnitude;
use crate::rounding_laws::{
    lemma_round_is_exact,
    lemma_round_is_monotone,
    lemma_scaled_up_is_exact,
    lemma_three_then_four,
};
use vstd::arithmetic::power2::{lemma_pow2_pos, pow2};
use vstd::prelude::*;

verus! {

/// The magnitude pattern of the binary64 value nearest to `v / 2^g` quanta.
pub open spec fn rounded_pattern(v: int, g: nat) -> nat {
    if v < 0 {
        round_magnitude((-v) as nat, g)
    } else {
        round_magnitude(v as nat, g)
    }
}

/// The value, in quanta, of the binary64 value nearest to `v / 2^g` quanta.
pub open spec fn rounded_value(v: int, g: nat) -> int {
    if v < 0 {
        -(quanta(rounded_pattern(v, g)) as int)
    } else {
        quanta(rounded_pattern(v, g)) as int
    }
}

/// Whether `x` has room for `j` more exponents: `x * 2^j` is finite.
pub open spec fn has_room(x: Double, j: nat) -> bool {
    x.magnitude_bits() + j * HIDDEN_BIT < INFINITY_BITS
}

/// The value of a finite sum is the exact sum, rounded.
pub proof fn lemma_plus_value(a: Double, b: Double)
    requires
        a.is_finite(),
        b.is_finite(),
    ensures
        !a.spec_plus(b).is_nan(),
        a.spec_plus(b).value() == rounded_value(a.value() + b.value(), 0),
        a.spec_plus(b).magnitude_bits() == rounded_pattern(a.value() + b.value(), 0),
{
    lemma_pow2_table();
    let v = a.value() + b.value();
    if v < 0 {
        lemma_nearest_is_a_number(true, (-v) as nat, 0);
    } else if v > 0 {
        lemma_nearest_is_a_number(false, v as nat, 0);
    } else {
        lemma_round_is_exact(0, 0);
        assert(quanta(0) * pow2(0) == 0);
    }
}

/// The value of a finite value divided by `2^g` is the exact quotient,
/// rounded.
pub proof fn lemma_scaled_down_value(a: Double, g: nat)
    requires
        a.is_finite(),
    ensures
        !a.spec_scaled_down(g).is_nan(),
        a.spec_scaled_down(g).value() == rounded_value(a.value(), g),
        a.spec_scaled_down(g).magnitude_bits() == rounded_pattern(a.value(), g),
{
    lemma_nearest_is_a_number(a.negative(), a.magnitude(), g);
    if a.magnitude() == 0 {
        lemma_round_is_exact(0, g);
        assert(quanta(0) * pow2(g) == 0) by (nonlinear_arith)
            requires
                quanta(0) == 0,
        ;
    }
}

/// The rounded value grows with the exact one.
pub proof fn lemma_rounded_value_is_monotone(v1: int, v2: int, g: nat)
    requires
        v1 <= v2,
    ensures
        rounded_value(v1, g) <= rounded_value(v2, g),
{
    let inf = INFINITY_BITS as nat;
    if v1 >= 0 {
        lemma_round_is_monotone(v1 as nat, v2 as nat, g);
        lemma_nearest_is_a_number(false, v1 as nat, g);
        lemma_nearest_is_a_number(false, v2 as nat, g);
        lemma_quanta_order(round_magnitude(v1 as nat, g), round_magnitude(v2 as nat, g));
    } else if v2 < 0 {
        lemma_round_is_monotone((-v2) as nat, (-v1) as nat, g);
        lemma_nearest_is_a_number(false, (-v1) as nat, g);
        lemma_nearest_is_a_number(false, (-v2) as nat, g);
        lemma_quanta_order(round_magnitude((-v2) as nat, g), round_magnitude((-v1) as nat, g));
    }
}

/// A finite value, scaled up by `2^g`, rounds back to itself.
pub proof fn lemma_rounded_value_is_exact(t: Double, g: nat)
    requires
        t.is_finite(),
    ensures
        rounded_value(t.value() * pow2(g), g) == t.value(),
        rounded_pattern(t.value() * pow2(g), g) == t.magnitude_bits(),
{
    let m = t.magnitude_bits();
    lemma_round_is_exact(m, g);
    lemma_pow2_pos(g);
    let p = pow2(g) as int;
    let q = quanta(m) as int;
    assert((-q) * p == -(q * p)) by (nonlinear_arith);
    assert(q * p >= 0) by (nonlinear_arith)
        requires
            q >= 0,
            p > 0,
    ;
    if t.negative() && q * p == 0 {
        assert(q == 0) by (nonlinear_arith)
            requires
                q * p == 0,
                p > 0,
                q >= 0,
        ;
    }
}

/// The rounded pattern grows with the distance of the exact value from 0.
pub proof fn lemma_rounded_pattern_is_monotone(v1: int, v2: int, g: nat)
    requires
        -v2 <= v1 <= v2 || v2 <= v1 <= -v2,
    ensures
        rounded_pattern(v1, g) <= rounded_pattern(v2, g),
{
    let n1 = if v1 < 0 {
        (-v1) as nat
    } else {
        v1 as nat
    };
    let n2 = if v2 < 0 {
        (-v2) as nat
    } else {
        v2 as nat
    };
    lemma_round_is_monotone(n1, n2, g);
}

/// A finite value times `2^j` rounds to itself, and to a finite pattern,
/// where the value has room for `j` more exponents.
pub proof fn lemma_rounded_scaled_up(t: Double, j: nat)
    requires
        has_room(t, j),
    ensures
        rounded_value(t.value() * pow2(j), 0) == t.value() * pow2(j),
        rounded_pattern(t.value() * pow2(j), 0) < INFINITY_BITS,
{
    let m = t.magnitude_bits();
    lemma_scaled_up_is_exact(m, j);
    lemma_pow2_pos(j);
    let p = pow2(j) as int;
    let q = quanta(m) as int;
    assert((-q) * p == -(q * p)) by (nonlinear_arith);
    assert(q * p >= 0) by (nonlinear_arith)
        requires
            q >= 0,
            p > 0,
    ;
}

/// Three times a finite value, rounded, and the value once more round to
/// four times the value, through finite patterns, where the value has room
/// for two more exponents.
pub proof fn lemma_rounded_three_then_four(t: Double)
    requires
        has_room(t, 2),
    ensures
        rounded_pattern(3 * t.value(), 0) < INFINITY_BITS,
        rounded_pattern(rounded_value(3 * t.value(), 0) + t.value(), 0) < INFINITY_BITS,
        rounded_value(rounded_value(3 * t.value(), 0) + t.value(), 0) == 4 * t.value(),
{
    lemma_three_then_four(t.magnitude_bits());
}

/// An exact value between two bounds rounds to a value between the rounded
/// bounds, and to a pattern that is not above both of theirs.
pub proof fn lemma_rounded_between(v: int, low: int, high: int, g: nat)
    requires
        low <= v <= high,
    ensures
        rounded_value(low, g) <= rounded_value(v, g) <= rounded_value(high, g),
        rounded_pattern(v, g) <= rounded_pattern(low, g) || rounded_pattern(v, g)
            <= rounded_pattern(high, g),
{
    lemma_rounded_value_is_monotone(low, v, g);
    lemma_rounded_value_is_monotone(v, high, g);
    if v >= 0 {
        lemma_rounded_pattern_is_monotone(v, high, g);
    } else {
        lemma_rounded_pattern_is_monotone(v, low, g);
    }
}

} // verus!
