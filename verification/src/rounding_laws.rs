//! What rounding means: the result is the nearest value, ties to even; a
//! value of the format rounds to itself; and rounding keeps the order.
use crate::double::{lemma_quanta_increasing, quanta, HIDDEN_BIT, INFINITY_BITS};
use crate::powers::{
    bit_length,
    lemma_bit_length_bounds,
    lemma_bit_length_le,
    lemma_bit_length_scaled,
    lemma_bit_length_unique,
    lemma_pow2_le,
    lemma_pow2_split,
    lemma_pow2_table,
    lemma_scaled_div_exact,
    lemma_scaled_div_inexact,
};
use crate::rounding::{dropped_bits, round_magnitude, rounds_up};
use vstd::arithmetic::div_mod::{lemma_fundamental_div_mod, lemma_mod_bound};
use vstd::arithmetic::power2::{lemma_pow2_pos, lemma_pow2_unfold, pow2};
use vstd::prelude::*;

verus! {

/// The pattern of the value just below or at `n / 2^g` quanta: what
/// rounding gives when it does not round up.
pub open spec fn floor_pattern(n: nat, g: nat) -> nat {
    let s = dropped_bits(n, g);
    ((s - g) * HIDDEN_BIT + n / pow2(s)) as nat
}

/// The pattern `e * 2^52 + q` stands for `q * 2^e` quanta, where `q` has its
/// 53rd bit set or `e` is 0; `q` may be 2^53, the carry out of a full
/// significand.
pub proof fn lemma_quanta_of_pattern(e: nat, q: nat)
    requires
        q <= 2 * HIDDEN_BIT,
        e == 0 || q >= HIDDEN_BIT,
    ensures
        quanta((e * HIDDEN_BIT + q) as nat) == q * pow2(e),
{
    lemma_pow2_table();
    let h = HIDDEN_BIT as nat;
    let m = e * h + q;
    if e == 0 {
        if q == 2 * h {
            assert(m / h == 2 && m % h == 0);
        }
        assert(q * pow2(0) == q);
    } else if q < 2 * h {
        assert(m / h == e + 1 && m % h == q - h);
    } else {
        lemma_pow2_unfold(e + 1);
        assert(m == (e + 2) * h);
        assert(m / h == e + 2 && m % h == 0);
        assert(h * pow2(e + 1) == (2 * h) * pow2(e)) by (nonlinear_arith)
            requires
                pow2(e + 1) == 2 * pow2(e),
        ;
    }
}

/// What `round_magnitude` works on: with `s` bits dropped, the kept bits
/// `q` are below 2^53 and, where more than the `g` bits below a quantum are
/// dropped, have their 53rd bit set.
pub proof fn lemma_kept_bits(n: nat, g: nat)
    ensures
        ({
            let s = dropped_bits(n, g);
            let q = n / pow2(s);
            let r = n % pow2(s);
            &&& s >= g
            &&& pow2(s) > 0
            &&& q < 2 * HIDDEN_BIT
            &&& s > g ==> q >= HIDDEN_BIT
            &&& n == q * pow2(s) + r
            &&& r < pow2(s)
        }),
{
    lemma_pow2_table();
    let s = dropped_bits(n, g);
    let d = pow2(s) as int;
    lemma_pow2_pos(s);
    lemma_fundamental_div_mod(n as int, d);
    lemma_mod_bound(n as int, d);
    let q = n as int / d;
    let r = n as int % d;
    assert(q * d == d * q) by (nonlinear_arith);
    if n > 0 {
        lemma_bit_length_bounds(n);
        lemma_pow2_le(bit_length(n), s + 53);
    }
    lemma_pow2_split(s, 53);
    assert(q < pow2(53)) by (nonlinear_arith)
        requires
            n == d * q + r,
            0 <= r,
            n < d * pow2(53),
            d > 0,
    ;
    assert(0 <= q) by (nonlinear_arith)
        requires
            n == d * q + r,
            r < d,
            n >= 0,
            d > 0,
    ;
    if s > g {
        lemma_pow2_split(s, 52);
        assert((bit_length(n) - 1) as nat == s + 52);
        assert(q >= pow2(52)) by (nonlinear_arith)
            requires
                n == d * q + r,
                r < d,
                n >= d * pow2(52),
                d > 0,
        ;
    }
}

/// The floor pattern and the pattern after it stand for the two
/// neighbouring values of the format around `n / 2^g` quanta.
pub proof fn lemma_floor_pattern_brackets(n: nat, g: nat)
    requires
        dropped_bits(n, g) - g <= 2045,
    ensures
        ({
            let s = dropped_bits(n, g);
            let q = n / pow2(s);
            let low = floor_pattern(n, g);
            &&& low < INFINITY_BITS
            &&& low % 2 == q % 2
            &&& quanta(low) * pow2(g) == q * pow2(s)
            &&& quanta(low + 1) * pow2(g) == (q + 1) * pow2(s)
            &&& quanta(low) * pow2(g) <= n < quanta(low + 1) * pow2(g)
        }),
{
    lemma_pow2_table();
    lemma_kept_bits(n, g);
    let s = dropped_bits(n, g);
    let e = (s - g) as nat;
    let q = n / pow2(s);
    let r = n % pow2(s);
    lemma_quanta_of_pattern(e, q);
    lemma_quanta_of_pattern(e, q + 1);
    lemma_pow2_split(e, g);
    let pe = pow2(e) as int;
    let pg = pow2(g) as int;
    let ps = pow2(s) as int;
    assert((q * pe) * pg == q * ps && ((q + 1) * pe) * pg == (q + 1) * ps) by (nonlinear_arith)
        requires
            ps == pe * pg,
    ;
    assert((q + 1) * ps == q * ps + ps) by (nonlinear_arith);
    assert(e * HIDDEN_BIT + q < INFINITY_BITS) by (nonlinear_arith)
        requires
            e <= 2045,
            q < 2 * HIDDEN_BIT,
            HIDDEN_BIT == 0x10_0000_0000_0000,
            INFINITY_BITS == 0x7FF0_0000_0000_0000,
    ;
    assert((e * HIDDEN_BIT + q) % 2 == q % 2) by {
        assert(e * HIDDEN_BIT == 2 * (e * 0x8_0000_0000_0000)) by (nonlinear_arith)
            requires
                HIDDEN_BIT == 0x10_0000_0000_0000,
        ;
    }
}

/// How far the value of pattern `y` lies from `n / 2^g` quanta, in units of
/// `2^-g` quanta.
pub open spec fn distance(y: nat, n: nat, g: nat) -> nat {
    let v = quanta(y) * pow2(g);
    if v >= n {
        (v - n) as nat
    } else {
        (n - v) as nat
    }
}

/// Rounding gives the nearest value: no finite value of the format lies
/// nearer to `n / 2^g` quanta than the rounded one, and where another lies
/// as near, the rounded one has the even pattern.
pub proof fn lemma_round_is_nearest(n: nat, g: nat, y: nat)
    requires
        round_magnitude(n, g) < INFINITY_BITS,
        y < INFINITY_BITS,
    ensures
        distance(round_magnitude(n, g), n, g) <= distance(y, n, g),
        distance(round_magnitude(n, g), n, g) == distance(y, n, g) && y != round_magnitude(n, g)
            ==> round_magnitude(n, g) % 2 == 0,
{
    lemma_pow2_table();
    lemma_kept_bits(n, g);
    let s = dropped_bits(n, g);
    let q = n / pow2(s);
    let r = n % pow2(s);
    let low = floor_pattern(n, g);
    let m = round_magnitude(n, g);
    assert(s - g <= 2045) by {
        if s - g >= 2046 {
            assert((s - g) * HIDDEN_BIT + q >= INFINITY_BITS) by (nonlinear_arith)
                requires
                    s - g >= 2046,
                    q >= HIDDEN_BIT,
                    HIDDEN_BIT == 0x10_0000_0000_0000,
                    INFINITY_BITS == 0x7FF0_0000_0000_0000,
            ;
        }
    }
    lemma_floor_pattern_brackets(n, g);
    let pg = pow2(g) as int;
    let ps = pow2(s) as int;
    lemma_pow2_pos(g);
    let below = quanta(low) * pg;
    let above = quanta(low + 1) * pg;
    let up = rounds_up(q, r, pow2(s));
    assert(below == q * ps);
    assert(above == (q + 1) * ps);
    assert(above == below + ps) by (nonlinear_arith)
        requires
            below == q * ps,
            above == (q + 1) * ps,
    ;
    assert(n == below + r);
    assert(m == if up {
        low + 1
    } else {
        low
    });
    assert(distance(m, n, g) == if up {
        ps - r
    } else {
        r as int
    });
    let vy = quanta(y) * pg;
    if y <= low {
        if y < low {
            lemma_quanta_increasing(y, low);
        }
        assert(vy <= below) by (nonlinear_arith)
            requires
                vy == quanta(y) * pg,
                below == quanta(low) * pg,
                quanta(y) <= quanta(low),
                pg > 0,
        ;
        assert(y < low ==> vy < below) by (nonlinear_arith)
            requires
                vy == quanta(y) * pg,
                below == quanta(low) * pg,
                y < low ==> quanta(y) < quanta(low),
                pg > 0,
        ;
        assert(distance(y, n, g) == n - vy);
    } else {
        if y > low + 1 {
            lemma_quanta_increasing(low + 1, y);
        }
        assert(vy >= above) by (nonlinear_arith)
            requires
                vy == quanta(y) * pg,
                above == quanta(low + 1) * pg,
                quanta(y) >= quanta(low + 1),
                pg > 0,
        ;
        assert(y > low + 1 ==> vy > above) by (nonlinear_arith)
            requires
                vy == quanta(y) * pg,
                above == quanta(low + 1) * pg,
                y > low + 1 ==> quanta(y) > quanta(low + 1),
                pg > 0,
        ;
        assert(distance(y, n, g) == vy - n);
    }
}

/// A value of the format rounds to itself: the exact quotient by `2^g` of
/// `2^g` times a finite value is that value.
pub proof fn lemma_round_is_exact(y: nat, g: nat)
    requires
        y < INFINITY_BITS,
    ensures
        round_magnitude(quanta(y) * pow2(g), g) == y,
{
    lemma_pow2_table();
    let h = HIDDEN_BIT as nat;
    let n = quanta(y) * pow2(g);
    lemma_pow2_pos(g);
    if y < h {
        // Subnormal: nothing above the `g` low bits is dropped.
        if y > 0 {
            lemma_bit_length_scaled(y, g);
            lemma_bit_length_bounds(y);
            if bit_length(y) > 52 {
                lemma_pow2_le(52, (bit_length(y) - 1) as nat);
            }
        } else {
            assert(n == 0) by (nonlinear_arith)
                requires
                    n == 0 * pow2(g),
            ;
            assert(bit_length(0) == 0);
        }
        assert(dropped_bits(n, g) == g);
        lemma_scaled_div_exact(y, g, g);
        assert(y * pow2(0) == y);
    } else {
        let k = (y / h - 1) as nat;
        let mant = h + y % h;
        assert(quanta(y) == mant * pow2(k)) by {
            if y < 2 * h {
                assert(mant == y && k == 0);
                assert(y * pow2(0) == y);
            }
        }
        lemma_pow2_split(k, g);
        assert(n == mant * pow2(k + g)) by (nonlinear_arith)
            requires
                n == (mant * pow2(k)) * pow2(g),
                pow2(k + g) == pow2(k) * pow2(g),
        ;
        lemma_bit_length_unique(mant, 53);
        lemma_bit_length_scaled(mant, k + g);
        assert(dropped_bits(n, g) == k + g);
        lemma_scaled_div_exact(mant, k + g, k + g);
        assert(mant * pow2(0) == mant);
        assert(k * h + mant == y);
    }
}

/// Where more bits are dropped than the format has exponents for, the
/// result is infinity.
pub proof fn lemma_round_overflows(n: nat, g: nat)
    requires
        dropped_bits(n, g) - g >= 2046,
    ensures
        round_magnitude(n, g) == INFINITY_BITS,
{
    lemma_pow2_table();
    lemma_kept_bits(n, g);
}

/// Rounding gives infinity exactly from the middle between the largest
/// finite value, `(2^53 - 1) * 2^2045` quanta, and the power of two above it.
pub proof fn lemma_round_is_infinite(n: nat, g: nat)
    ensures
        round_magnitude(n, g) == INFINITY_BITS <==> 2 * n >= (4 * HIDDEN_BIT - 1) * pow2(
            2045 + g,
        ),
{
    lemma_pow2_table();
    lemma_kept_bits(n, g);
    let h = HIDDEN_BIT as int;
    let s = dropped_bits(n, g);
    let q = (n / pow2(s)) as int;
    let r = (n % pow2(s)) as int;
    let ps = pow2(s) as int;
    let top = pow2(2045 + g) as int;
    lemma_pow2_pos(2045 + g);
    if s - g >= 2046 {
        lemma_round_overflows(n, g);
        lemma_pow2_le(2045 + g + 1, s);
        lemma_pow2_unfold(2045 + g + 1);
        assert(2 * n >= (4 * h - 1) * top) by (nonlinear_arith)
            requires
                n == q * ps + r,
                r >= 0,
                q >= h,
                ps >= 2 * top,
                top > 0,
                h > 0,
        ;
    } else if s - g <= 2044 {
        lemma_pow2_le(s + 1, 2045 + g);
        lemma_pow2_unfold(s + 1);
        assert(2 * n < (4 * h - 1) * top) by (nonlinear_arith)
            requires
                n == q * ps + r,
                r < ps,
                q < 2 * h,
                2 * ps <= top,
                ps > 0,
                h >= 1,
        ;
    } else {
        assert(s == 2045 + g);
        let up = rounds_up(q as nat, r as nat, ps as nat);
        assert(round_magnitude(n, g) == INFINITY_BITS <==> q == 2 * h - 1 && up);
        if q == 2 * h - 1 {
            assert(2 * n == (4 * h - 2) * ps + 2 * r) by (nonlinear_arith)
                requires
                    n == q * ps + r,
                    q == 2 * h - 1,
            ;
            assert((4 * h - 1) * ps == (4 * h - 2) * ps + ps) by (nonlinear_arith);
        } else {
            assert(2 * n < (4 * h - 1) * ps) by (nonlinear_arith)
                requires
                    n == q * ps + r,
                    r < ps,
                    q <= 2 * h - 2,
                    ps > 0,
            ;
        }
    }
}

/// Rounding keeps the order: of two magnitudes, the larger does not round
/// to the smaller pattern.
pub proof fn lemma_round_is_monotone(n1: nat, n2: nat, g: nat)
    requires
        n1 <= n2,
    ensures
        round_magnitude(n1, g) <= round_magnitude(n2, g),
{
    lemma_pow2_table();
    let s1 = dropped_bits(n1, g);
    let s2 = dropped_bits(n2, g);
    lemma_bit_length_le(n1, n2);
    lemma_kept_bits(n1, g);
    lemma_kept_bits(n2, g);
    assert(s1 <= s2);
    assert(round_magnitude(n1, g) <= INFINITY_BITS);
    if s2 - g >= 2046 {
        lemma_round_overflows(n2, g);
    } else {
        lemma_floor_pattern_brackets(n1, g);
        lemma_floor_pattern_brackets(n2, g);
        let low1 = floor_pattern(n1, g);
        let low2 = floor_pattern(n2, g);
        let pg = pow2(g) as int;
        lemma_pow2_pos(g);
        assert(low1 <= low2) by {
            if low1 > low2 {
                if low1 > low2 + 1 {
                    lemma_quanta_increasing(low2 + 1, low1);
                }
                assert(quanta(low2 + 1) * pg <= quanta(low1) * pg) by (nonlinear_arith)
                    requires
                        quanta(low2 + 1) <= quanta(low1),
                        pg > 0,
                ;
            }
        }
        if low1 == low2 {
            let h = HIDDEN_BIT as nat;
            let q1 = n1 / pow2(s1);
            let q2 = n2 / pow2(s2);
            // The pattern fixes how many bits were dropped, and what was kept.
            assert(s1 == s2 && q1 == q2) by {
                assert((s1 - g) * h + q1 == (s2 - g) * h + q2);
                if s1 < s2 {
                    assert((s2 - g) * h >= (s1 - g) * h + h) by (nonlinear_arith)
                        requires
                            s1 < s2,
                    ;
                    assert(q2 >= h);
                    assert(q1 >= q2 + h);
                }
            }
            let r1 = n1 % pow2(s1);
            let r2 = n2 % pow2(s2);
            assert(r1 <= r2);
        }
    }
}

/// Rounding a number `a` of `53 + j` bits, scaled by `2^k`: the low `j`
/// bits of `a` are dropped, and they alone decide the direction. What is
/// kept may be 2^53, a carry into the next exponent.
pub proof fn lemma_round_scaled(a: nat, k: nat, j: nat)
    requires
        bit_length(a) == 53 + j,
        k + j <= 2045,
    ensures
        ({
            let q = a / pow2(j);
            let r = a % pow2(j);
            let kept = if rounds_up(q, r, pow2(j)) {
                q + 1
            } else {
                q
            };
            &&& HIDDEN_BIT <= q < 2 * HIDDEN_BIT
            &&& round_magnitude(a * pow2(k), 0) == (k + j) * HIDDEN_BIT + kept
            &&& k + j < 2045 || kept < 2 * HIDDEN_BIT ==> round_magnitude(a * pow2(k), 0)
                < INFINITY_BITS
            &&& quanta(round_magnitude(a * pow2(k), 0)) == kept * pow2(k + j)
        }),
{
    lemma_pow2_table();
    assert(a > 0) by {
        assert(bit_length(0) == 0);
    }
    let n = a * pow2(k);
    lemma_bit_length_scaled(a, k);
    let s = dropped_bits(n, 0);
    assert(s == k + j);
    lemma_kept_bits(n, 0);
    lemma_scaled_div_inexact(a, k, s);
    assert((s - k) as nat == j);
    let q = a / pow2(j);
    let r = a % pow2(j);
    lemma_pow2_split(j, k);
    lemma_pow2_pos(j);
    lemma_pow2_pos(k);
    let pj = pow2(j) as int;
    let pk = pow2(k) as int;
    assert((2 * (r * pk) > pj * pk) == (2 * r > pj) && (2 * (r * pk) == pj * pk) == (2 * r
        == pj)) by (nonlinear_arith)
        requires
            pk > 0,
    ;
    assert(rounds_up(q, n % pow2(s), pow2(s)) == rounds_up(q, r, pow2(j)));
    if j == 0 {
        // Nothing is dropped from `a` itself, so its leading bit is kept.
        lemma_bit_length_bounds(a);
        assert(a / 1 == a);
    }
    let kept = if rounds_up(q, r, pow2(j)) {
        q + 1
    } else {
        q
    };
    lemma_quanta_of_pattern(k + j, kept as nat);
}

/// Three times a subnormal value and the value once more round to four
/// times the value.
proof fn lemma_three_then_four_subnormal(y: nat)
    requires
        y < HIDDEN_BIT,
    ensures
        round_magnitude(3 * y, 0) < INFINITY_BITS,
        round_magnitude(quanta(round_magnitude(3 * y, 0)) + y, 0) < INFINITY_BITS,
        quanta(round_magnitude(quanta(round_magnitude(3 * y, 0)) + y, 0)) == 4 * y,
{
    lemma_pow2_table();
    let h = HIDDEN_BIT as nat;
    let a = 3 * y;
    if a < 2 * h {
        assert(a * pow2(0) == a);
        lemma_round_is_exact(a, 0);
        let four = if 4 * y < 2 * h {
            4 * y
        } else {
            h + 2 * y
        };
        if 4 * y >= 2 * h {
            lemma_quanta_of_pattern(1, 2 * y);
            assert((2 * y) * pow2(1) == 4 * y);
        }
        assert(quanta(four) == 4 * y);
        assert((4 * y) * pow2(0) == 4 * y);
        lemma_round_is_exact(four, 0);
    } else {
        lemma_bit_length_unique(a, 54);
        lemma_round_scaled(a, 0, 1);
        assert(a * pow2(0) == a);
        let kept = if rounds_up(a / 2, a % 2, 2) {
            a / 2 + 1
        } else {
            a / 2
        };
        assert(kept * pow2(1) == 2 * kept);
        let b = 2 * kept + y;
        assert(b == 4 * y || b == 4 * y + 1 || b == 4 * y - 1);
        assert(2 * h <= b < 4 * h);
        lemma_bit_length_unique(b, 54);
        lemma_round_scaled(b, 0, 1);
        assert(b * pow2(0) == b);
        let kept4 = if rounds_up(b / 2, b % 2, 2) {
            b / 2 + 1
        } else {
            b / 2
        };
        assert(kept4 == 2 * y);
        assert(kept4 * pow2(1) == 4 * y);
    }
}

/// What is left of `3 * mant` after rounding to 53 bits, plus `mant`, rounds
/// to `4 * mant`: stated on the significand alone, with `j` the number of
/// bits that `3 * mant` has too many.
proof fn lemma_three_then_four_significand(mant: nat, j: nat)
    requires
        HIDDEN_BIT <= mant < 2 * HIDDEN_BIT,
        j == 1 || j == 2,
        j == 1 <==> 3 * mant < 4 * HIDDEN_BIT,
    ensures
        ({
            let d = if j == 1 {
                2nat
            } else {
                4nat
            };
            let a = 3 * mant;
            let kept = if rounds_up(a / d, a % d, d) {
                a / d + 1
            } else {
                a / d
            };
            let b = d * kept + mant;
            let kept4 = if rounds_up(b / 4, b % 4, 4) {
                b / 4 + 1
            } else {
                b / 4
            };
            &&& 4 * HIDDEN_BIT <= b < 8 * HIDDEN_BIT
            &&& kept <= 2 * HIDDEN_BIT
            &&& kept4 == mant
        }),
{
    let a = 3 * mant;
    if j == 1 {
        let r = a % 2;
        let q = a / 2;
        assert(a == 2 * q + r);
        if r == 0 {
        } else {
            assert(r == 1);
        }
    } else {
        let r = a % 4;
        let q = a / 4;
        assert(a == 4 * q + r);
        if r == 0 {
        } else if r == 1 {
        } else if r == 2 {
            assert(mant % 2 == 0);
        } else {
            assert(r == 3);
        }
    }
}

/// Three times a normal value and the value once more round to four times
/// the value. The value is `mant * 2^k` quanta.
proof fn lemma_three_then_four_normal(mant: nat, k: nat)
    requires
        HIDDEN_BIT <= mant < 2 * HIDDEN_BIT,
        k <= 2043,
    ensures
        ({
            let v = mant * pow2(k);
            let three = round_magnitude(3 * v, 0);
            let four = round_magnitude(quanta(three) + v, 0);
            &&& three < INFINITY_BITS
            &&& four < INFINITY_BITS
            &&& quanta(four) == 4 * v
        }),
{
    lemma_pow2_table();
    let h = HIDDEN_BIT as nat;
    let pk = pow2(k) as int;
    lemma_pow2_pos(k);
    lemma_pow2_split(k, 1);
    lemma_pow2_split(k, 2);
    let a = 3 * mant;
    let v = mant * pow2(k);
    assert(3 * v == a * pk) by (nonlinear_arith)
        requires
            a == 3 * mant,
            v == mant * pk,
    ;
    let j: nat = if a < 4 * h {
        1
    } else {
        2
    };
    let d: nat = if j == 1 {
        2
    } else {
        4
    };
    assert(pow2(j) == d);
    lemma_three_then_four_significand(mant, j);
    lemma_bit_length_unique(a, 53 + j);
    lemma_round_scaled(a, k, j);
    let kept = if rounds_up(a / d, a % d, d) {
        a / d + 1
    } else {
        a / d
    };
    let three = round_magnitude(3 * v, 0);
    assert(quanta(three) == kept * pow2(k + j));
    let b = d * kept + mant;
    assert(kept * pow2(k + j) + v == b * pk) by (nonlinear_arith)
        requires
            pow2(k + j) == pk * d,
            b == d * kept + mant,
            v == mant * pk,
    ;
    lemma_bit_length_unique(b, 55);
    lemma_round_scaled(b, k, 2);
    assert(mant * pow2(k + 2) == 4 * v) by (nonlinear_arith)
        requires
            pow2(k + 2) == pk * 4,
            v == mant * pk,
    ;
}

/// Four times a value, summed in three steps: three times the value rounds
/// to some neighbour, and adding the value once more rounds to four times
/// the value exactly. `y` is the pattern of the value, which leaves room
/// for two more exponents.
pub proof fn lemma_three_then_four(y: nat)
    requires
        y + 2 * HIDDEN_BIT < INFINITY_BITS,
    ensures
        round_magnitude(3 * quanta(y), 0) < INFINITY_BITS,
        round_magnitude(quanta(round_magnitude(3 * quanta(y), 0)) + quanta(y), 0)
            < INFINITY_BITS,
        quanta(round_magnitude(quanta(round_magnitude(3 * quanta(y), 0)) + quanta(y), 0)) == 4
            * quanta(y),
{
    let h = HIDDEN_BIT as nat;
    if y < h {
        lemma_three_then_four_subnormal(y);
    } else {
        let k = (y / h - 1) as nat;
        let mant = h + y % h;
        assert(y == k * h + mant);
        lemma_quanta_of_pattern(k, mant);
        lemma_three_then_four_normal(mant, k);
    }
}

/// A finite value times `2^j` is a value of the format, where the exponent
/// has room for it: it rounds to a finite pattern that stands for it.
pub proof fn lemma_scaled_up_is_exact(y: nat, j: nat)
    requires
        y + j * HIDDEN_BIT < INFINITY_BITS,
    ensures
        round_magnitude(quanta(y) * pow2(j), 0) < INFINITY_BITS,
        quanta(round_magnitude(quanta(y) * pow2(j), 0)) == quanta(y) * pow2(j),
{
    lemma_pow2_table();
    let h = HIDDEN_BIT as nat;
    let n = quanta(y) * pow2(j);
    lemma_pow2_pos(j);
    assert(j <= 2046);
    if y == 0 {
        assert(n == 0) by (nonlinear_arith)
            requires
                n == 0 * pow2(j),
        ;
        lemma_round_is_exact(0, 0);
        assert(0 * pow2(0) == 0);
    } else if y < h {
        // Subnormal: at most `j` bits are dropped, and they are zeros.
        lemma_bit_length_scaled(y, j);
        lemma_bit_length_bounds(y);
        if bit_length(y) > 52 {
            lemma_pow2_le(52, (bit_length(y) - 1) as nat);
        }
        let s = dropped_bits(n, 0);
        assert(s <= j);
        lemma_scaled_div_exact(y, j, s);
        lemma_kept_bits(n, 0);
        lemma_floor_pattern_brackets(n, 0);
        assert(pow2(0) == 1);
        assert(!rounds_up(n / pow2(s), 0, pow2(s)));
        assert(quanta(floor_pattern(n, 0)) * 1 == quanta(floor_pattern(n, 0)));
    } else {
        let k = (y / h - 1) as nat;
        let mant = h + y % h;
        assert(y == k * h + mant);
        lemma_quanta_of_pattern(k, mant);
        lemma_pow2_split(k, j);
        assert(n == mant * pow2(k + j)) by (nonlinear_arith)
            requires
                n == (mant * pow2(k)) * pow2(j),
                pow2(k + j) == pow2(k) * pow2(j),
        ;
        assert(k + j <= 2045);
        lemma_bit_length_unique(mant, 53);
        lemma_round_scaled(mant, k + j, 0);
        assert(mant / 1 == mant && mant % 1 == 0);
        assert(!rounds_up(mant, 0, 1));
        assert((k + j + 0) as nat == k + j);
    }
}

} // verus!
