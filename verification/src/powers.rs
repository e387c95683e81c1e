//! Powers of two: shifts as multiplication and division, and the length of a
//! number in bits.
use vstd::arithmetic::div_mod::{
    lemma_div_denominator,
    lemma_fundamental_div_mod,
    lemma_fundamental_div_mod_converse,
    lemma_mod_bound,
};
use vstd::arithmetic::mul::lemma_mul_is_associative;
use vstd::arithmetic::power2::{
    lemma2_to64,
    lemma2_to64_rest,
    lemma_pow2_adds,
    lemma_pow2_pos,
    lemma_pow2_strictly_increases,
    lemma_pow2_unfold,
    pow2,
};
use vstd::bits::lemma_u128_shr_is_div;
use vstd::prelude::*;

verus! {

/// The number of bits of `n`: 0 for 0, and otherwise the `l` with
/// `2^(l-1) <= n < 2^l`.
pub open spec fn bit_length(n: nat) -> nat
    decreases n,
{
    if n == 0 {
        0
    } else {
        1 + bit_length(n / 2)
    }
}

/// The powers of two that the binary64 format is made of.
pub proof fn lemma_pow2_table()
    ensures
        pow2(0) == 1,
        pow2(1) == 2,
        pow2(2) == 4,
        pow2(11) == 0x800,
        pow2(52) == 0x10_0000_0000_0000,
        pow2(53) == 0x20_0000_0000_0000,
        pow2(54) == 0x40_0000_0000_0000,
        pow2(55) == 0x80_0000_0000_0000,
        pow2(63) == 0x8000_0000_0000_0000,
        pow2(64) == 0x1_0000_0000_0000_0000,
        pow2(127) == 0x8000_0000_0000_0000_0000_0000_0000_0000,
        pow2(128) == 0x1_0000_0000_0000_0000_0000_0000_0000_0000,
{
    lemma2_to64();
    lemma2_to64_rest();
    lemma_pow2_adds(64, 63);
    lemma_pow2_adds(64, 64);
}

/// `pow2` is monotone.
pub proof fn lemma_pow2_le(a: nat, b: nat)
    requires
        a <= b,
    ensures
        0 < pow2(a) <= pow2(b),
{
    lemma_pow2_pos(a);
    if a < b {
        lemma_pow2_strictly_increases(a, b);
    }
}

/// `2^(a+b) = 2^a * 2^b`, and both factors are positive.
pub proof fn lemma_pow2_split(a: nat, b: nat)
    ensures
        pow2(a + b) == pow2(a) * pow2(b),
        pow2(a) > 0,
        pow2(b) > 0,
{
    lemma_pow2_adds(a, b);
    lemma_pow2_pos(a);
    lemma_pow2_pos(b);
}

/// A positive number lies between the two powers of two that its length names.
pub proof fn lemma_bit_length_bounds(n: nat)
    requires
        n > 0,
    ensures
        bit_length(n) >= 1,
        pow2((bit_length(n) - 1) as nat) <= n < pow2(bit_length(n)),
    decreases n,
{
    lemma2_to64();
    if n == 1 {
        assert(bit_length(0) == 0);
        assert(bit_length(1) == 1);
    } else {
        lemma_bit_length_bounds(n / 2);
        let l = bit_length(n / 2);
        lemma_pow2_unfold(l);
        lemma_pow2_unfold(l + 1);
    }
}

/// The length of `n` is the only `l` with `2^(l-1) <= n < 2^l`.
pub proof fn lemma_bit_length_unique(n: nat, l: nat)
    requires
        l >= 1,
        pow2((l - 1) as nat) <= n < pow2(l),
    ensures
        bit_length(n) == l,
{
    lemma_pow2_pos((l - 1) as nat);
    lemma_bit_length_bounds(n);
    let m = bit_length(n);
    if m < l {
        lemma_pow2_le(m, (l - 1) as nat);
    } else if m > l {
        lemma_pow2_le(l, (m - 1) as nat);
    }
}

/// The length is monotone.
pub proof fn lemma_bit_length_le(a: nat, b: nat)
    requires
        a <= b,
    ensures
        bit_length(a) <= bit_length(b),
{
    if a > 0 {
        lemma_bit_length_bounds(a);
        lemma_bit_length_bounds(b);
        if bit_length(b) < bit_length(a) {
            lemma_pow2_le(bit_length(b), (bit_length(a) - 1) as nat);
        }
    }
}

/// Multiplying by `2^k` adds `k` bits.
pub proof fn lemma_bit_length_scaled(a: nat, k: nat)
    requires
        a > 0,
    ensures
        bit_length(a * pow2(k)) == bit_length(a) + k,
{
    lemma_bit_length_bounds(a);
    let l = bit_length(a);
    lemma_pow2_split((l - 1) as nat, k);
    lemma_pow2_split(l, k);
    let p = pow2(k) as int;
    assert(pow2((l - 1) as nat) * p <= a * p < pow2(l) * p) by (nonlinear_arith)
        requires
            pow2((l - 1) as nat) <= a < pow2(l),
            p > 0,
    ;
    assert((l - 1) as nat + k == (l + k - 1) as nat);
    lemma_bit_length_unique(a * pow2(k), l + k);
}

/// Dividing `a * 2^k` by a smaller power of two is exact.
pub proof fn lemma_scaled_div_exact(a: nat, k: nat, s: nat)
    requires
        s <= k,
    ensures
        (a * pow2(k)) / pow2(s) == a * pow2((k - s) as nat),
        (a * pow2(k)) % pow2(s) == 0,
{
    lemma_pow2_split((k - s) as nat, s);
    let d = pow2(s) as int;
    let q = a * pow2((k - s) as nat);
    assert(a * pow2(k) == q * d + 0) by {
        lemma_mul_is_associative(a as int, pow2((k - s) as nat) as int, d);
    }
    lemma_fundamental_div_mod_converse((a * pow2(k)) as int, d, q as int, 0);
}

/// Dividing `a * 2^k` by a larger power of two divides `a` by the rest, and
/// the remainder is that of `a`, scaled.
pub proof fn lemma_scaled_div_inexact(a: nat, k: nat, s: nat)
    requires
        s >= k,
    ensures
        (a * pow2(k)) / pow2(s) == a / pow2((s - k) as nat),
        (a * pow2(k)) % pow2(s) == (a % pow2((s - k) as nat)) * pow2(k),
{
    let t = (s - k) as nat;
    lemma_pow2_split(t, k);
    let d = pow2(t) as int;
    let p = pow2(k) as int;
    let q = a as int / d;
    let r = a as int % d;
    lemma_fundamental_div_mod(a as int, d);
    assert(a * p == q * (d * p) + r * p) by (nonlinear_arith)
        requires
            a == d * q + r,
    ;
    assert(0 <= r * p < d * p) by (nonlinear_arith)
        requires
            0 <= r < d,
            p > 0,
    ;
    lemma_fundamental_div_mod_converse(a * p, d * p, q, r * p);
}

/// A left shift that loses no bit multiplies by a power of two.
pub proof fn lemma_shift_left(x: u128, k: u32)
    requires
        k < 128,
        x * pow2(k as nat) <= u128::MAX,
    ensures
        x << k == x * pow2(k as nat),
    decreases k,
{
    lemma_pow2_table();
    if k == 0 {
        assert(x << 0u32 == x) by (bit_vector);
        assert(x * pow2(0) == x);
    } else {
        let j: u32 = (k - 1) as u32;
        lemma_pow2_unfold(k as nat);
        assert(x * pow2(k as nat) == 2 * (x * pow2(j as nat))) by (nonlinear_arith)
            requires
                pow2(k as nat) == 2 * pow2(j as nat),
        ;
        lemma_shift_left(x, j);
        let y: u128 = x << j;
        assert(y == x * pow2(j as nat));
        assert(2 * y == x * pow2(k as nat));
        assert(x << k == 2 * y) by (bit_vector)
            requires
                0 < k < 128,
                j == k - 1,
                y == x << j,
                y < 0x8000_0000_0000_0000_0000_0000_0000_0000u128,
        ;
    }
}

/// `2^k` as a machine number.
pub(crate) fn pow2_u128(k: u32) -> (r: u128)
    requires
        k < 128,
    ensures
        r == pow2(k as nat),
{
    proof {
        lemma_pow2_table();
        lemma_pow2_le(k as nat, 127);
        lemma_shift_left(1, k);
    }
    1u128 << k
}

/// `x * 2^k`, where that fits.
pub(crate) fn shift_left(x: u128, k: u32) -> (r: u128)
    requires
        k < 128,
        x * pow2(k as nat) <= u128::MAX,
    ensures
        r == x * pow2(k as nat),
{
    proof {
        lemma_shift_left(x, k);
    }
    x << k
}

/// `x / 2^k`, rounded down.
pub(crate) fn shift_right(x: u128, k: u32) -> (r: u128)
    requires
        k < 128,
    ensures
        r == x as nat / pow2(k as nat),
{
    proof {
        lemma_u128_shr_is_div(x, k as u128);
        assert(x >> k == x >> (k as u128)) by (bit_vector);
    }
    x >> k
}

/// The number of bits of `x`.
pub(crate) fn bit_len(x: u128) -> (r: u32)
    ensures
        r == bit_length(x as nat),
        r <= 128,
{
    if x == 0 {
        return 0;
    }
    let mut rest: u128 = x;
    let mut low: u32 = 0;
    let mut step: u32 = 64;
    proof {
        lemma_pow2_table();
    }
    while step > 0
        invariant
            step == 0 || step == 1 || step == 2 || step == 4 || step == 8 || step == 16 || step
                == 32 || step == 64,
            low + 2 * step <= 128,
            rest == x as nat / pow2(low as nat),
            0 < rest,
            step > 0 ==> rest < pow2((2 * step) as nat),
            step == 0 ==> rest == 1,
        decreases step,
    {
        let top = shift_right(rest, step);
        proof {
            lemma_pow2_split(step as nat, step as nat);
            lemma_pow2_split(low as nat, step as nat);
            lemma_div_denominator(x as int, pow2(low as nat) as int, pow2(step as nat) as int);
            let p = pow2(step as nat) as int;
            lemma_fundamental_div_mod(rest as int, p);
            lemma_mod_bound(rest as int, p);
            assert(top < p) by (nonlinear_arith)
                requires
                    rest < p * p,
                    rest == p * top + rest as int % p,
                    0 <= rest as int % p,
                    p > 0,
            ;
            assert(top == 0 ==> rest < p) by (nonlinear_arith)
                requires
                    rest == p * top + rest as int % p,
                    rest as int % p < p,
            ;
            lemma2_to64();
        }
        if top != 0 {
            rest = top;
            low = low + step;
        }
        step = step / 2;
    }
    proof {
        let p = pow2(low as nat) as int;
        lemma_pow2_pos(low as nat);
        lemma_fundamental_div_mod(x as int, p);
        lemma_mod_bound(x as int, p);
        lemma_pow2_unfold((low + 1) as nat);
        assert(p <= x < 2 * p) by (nonlinear_arith)
            requires
                x == p * 1 + x as int % p,
                0 <= x as int % p < p,
        ;
        lemma_bit_length_unique(x as nat, (low + 1) as nat);
    }
    low + 1
}

} // verus!
