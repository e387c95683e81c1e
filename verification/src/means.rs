//! The means of two and of four prices, and where they lie.
use crate::arith::{lemma_plus_is_nan, lemma_scaled_down_is_nan};
use crate::double::Double;
use crate::order::{
    has_room,
    lemma_plus_value,
    lemma_rounded_between,
    lemma_rounded_scaled_up,
    lemma_rounded_three_then_four,
    lemma_rounded_value_is_exact,
    lemma_scaled_down_value,
    rounded_value,
};
use crate::powers::lemma_pow2_table;
use vstd::prelude::*;

verus! {

/// `(a + b) / 2`, each step rounded.
pub open spec fn mean2(a: Double, b: Double) -> Double {
    a.spec_plus(b).spec_half()
}

/// `(((a + b) + c) + d) / 4`, each step rounded.
pub open spec fn mean4(a: Double, b: Double, c: Double, d: Double) -> Double {
    a.spec_plus(b).spec_plus(c).spec_plus(d).spec_quarter()
}

/// The mean of four finite prices is a number: a sum of finite values may
/// overflow to an infinity, but never meets the opposite one.
pub proof fn lemma_mean4_of_finite_is_a_number(a: Double, b: Double, c: Double, d: Double)
    requires
        a.is_finite(),
        b.is_finite(),
        c.is_finite(),
        d.is_finite(),
    ensures
        !mean4(a, b, c, d).is_nan(),
{
    let ab = a.spec_plus(b);
    let abc = ab.spec_plus(c);
    let abcd = abc.spec_plus(d);
    lemma_plus_is_nan(a, b);
    lemma_plus_is_nan(ab, c);
    lemma_plus_is_nan(abc, d);
    lemma_scaled_down_is_nan(abcd, 2);
}

/// Whether the finite value `x` lies between the finite `low` and `high`.
pub open spec fn between(x: Double, low: Double, high: Double) -> bool {
    x.is_finite() && low.value() <= x.value() <= high.value()
}

/// The mean of two finite values lies between any two bounds that they lie
/// between, rounding notwithstanding, where twice each bound is finite.
pub proof fn lemma_mean2_between(a: Double, b: Double, low: Double, high: Double)
    requires
        between(a, low, high),
        between(b, low, high),
        has_room(low, 1),
        has_room(high, 1),
    ensures
        between(mean2(a, b), low, high),
{
    lemma_pow2_table();
    let l = low.value();
    let h = high.value();
    let sum = a.spec_plus(b);
    lemma_plus_value(a, b);
    lemma_rounded_scaled_up(low, 1);
    lemma_rounded_scaled_up(high, 1);
    lemma_rounded_between(a.value() + b.value(), 2 * l, 2 * h, 0);
    assert(sum.is_finite());
    lemma_scaled_down_value(sum, 1);
    lemma_rounded_value_is_exact(low, 1);
    lemma_rounded_value_is_exact(high, 1);
    lemma_rounded_between(sum.value(), 2 * l, 2 * h, 1);
}

/// The mean of four finite values lies between any two bounds that they
/// lie between, rounding notwithstanding, where four times each bound is
/// finite.
pub proof fn lemma_mean4_between(
    a: Double,
    b: Double,
    c: Double,
    d: Double,
    low: Double,
    high: Double,
)
    requires
        between(a, low, high),
        between(b, low, high),
        between(c, low, high),
        between(d, low, high),
        has_room(low, 2),
        has_room(high, 2),
    ensures
        between(mean4(a, b, c, d), low, high),
{
    lemma_pow2_table();
    let l = low.value();
    let h = high.value();
    // Two of them: twice a bound is a value of the format.
    let two = a.spec_plus(b);
    lemma_plus_value(a, b);
    lemma_rounded_scaled_up(low, 1);
    lemma_rounded_scaled_up(high, 1);
    lemma_rounded_between(a.value() + b.value(), 2 * l, 2 * h, 0);
    assert(two.is_finite());
    // Three of them: three times a bound may round away from it.
    let three = two.spec_plus(c);
    lemma_plus_value(two, c);
    lemma_rounded_three_then_four(low);
    lemma_rounded_three_then_four(high);
    lemma_rounded_between(two.value() + c.value(), 3 * l, 3 * h, 0);
    assert(three.is_finite());
    // All four: the fourth brings the rounded bound back to four times it.
    let four = three.spec_plus(d);
    lemma_plus_value(three, d);
    lemma_rounded_between(
        three.value() + d.value(),
        rounded_value(3 * l, 0) + l,
        rounded_value(3 * h, 0) + h,
        0,
    );
    assert(four.is_finite());
    assert(4 * l <= four.value() <= 4 * h);
    lemma_scaled_down_value(four, 2);
    lemma_rounded_value_is_exact(low, 2);
    lemma_rounded_value_is_exact(high, 2);
    lemma_rounded_between(four.value(), 4 * l, 4 * h, 2);
}

} // verus!
