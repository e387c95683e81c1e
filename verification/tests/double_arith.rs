use heiken_ashi::Double;

fn d(x: f64) -> Double {
    Double::from_bits(x.to_bits())
}

fn f(x: Double) -> f64 {
    f64::from_bits(x.to_bits())
}

/// The same value: the same bits, or a NaN on both sides.
fn same(got: Double, want: f64) -> bool {
    if want.is_nan() {
        got.is_nan() && f(got).is_nan()
    } else {
        got.to_bits() == want.to_bits()
    }
}

struct Rng(u64);

impl Rng {
    fn next(&mut self) -> u64 {
        let mut x = self.0;
        x ^= x << 13;
        x ^= x >> 7;
        x ^= x << 17;
        self.0 = x;
        x
    }

    /// A bit pattern whose exponent field lies within `spread` of `centre`.
    fn near(&mut self, centre: u64, spread: u64) -> f64 {
        let r = self.next();
        let sign = r >> 63;
        let e = (centre + self.next() % (2 * spread + 1)).saturating_sub(spread).min(2047);
        let mut frac = self.next() & 0x000F_FFFF_FFFF_FFFF;
        // Often a fraction with few bits set, so that ties occur.
        match self.next() % 4 {
            0 => frac &= 0x000F_0000_0000_000F,
            1 => frac &= 0x000F_FFFF_FFFF_FFF0,
            _ => {}
        }
        f64::from_bits((sign << 63) | (e << 52) | frac)
    }
}

const EDGES: [f64; 24] = [
    0.0,
    -0.0,
    1.0,
    -1.0,
    1.5,
    2.0,
    3.0,
    0.1,
    -0.3,
    f64::MAX,
    f64::MIN,
    f64::MIN_POSITIVE,
    -f64::MIN_POSITIVE,
    f64::EPSILON,
    f64::INFINITY,
    f64::NEG_INFINITY,
    f64::NAN,
    5e-324,
    -5e-324,
    1.5e-323,
    2.2250738585072009e-308,
    8.98846567431158e307,
    9007199254740992.0,
    9007199254740993.0,
];

#[test]
fn test_plus_on_edge_values() {
    for &a in EDGES.iter() {
        for &b in EDGES.iter() {
            assert!(same(d(a).plus(d(b)), a + b), "{:e} + {:e}", a, b);
        }
    }
}

#[test]
fn test_minus_on_edge_values() {
    for &a in EDGES.iter() {
        for &b in EDGES.iter() {
            assert!(same(d(a).minus(d(b)), a - b), "{:e} - {:e}", a, b);
        }
    }
}

#[test]
fn test_half_and_quarter_on_edge_values() {
    for &a in EDGES.iter() {
        assert!(same(d(a).half(), a / 2.0), "{:e} / 2", a);
        assert!(same(d(a).quarter(), a / 4.0), "{:e} / 4", a);
    }
}

#[test]
fn test_plus_matches_hardware_on_arbitrary_patterns() {
    let mut rng = Rng(0x9E37_79B9_7F4A_7C15);
    for _ in 0..200_000 {
        let a = f64::from_bits(rng.next());
        let b = f64::from_bits(rng.next());
        assert!(same(d(a).plus(d(b)), a + b), "{:e} + {:e}", a, b);
    }
}

#[test]
fn test_plus_matches_hardware_on_close_exponents() {
    let mut rng = Rng(0x0123_4567_89AB_CDEF);
    for i in 0..400_000u64 {
        let centre = match i % 4 {
            0 => 1,
            1 => 1023,
            2 => 2045,
            _ => 1 + rng.next() % 2045,
        };
        let spread = 1 + rng.next() % 70;
        let a = rng.near(centre, spread);
        let b = rng.near(centre, spread);
        assert!(same(d(a).plus(d(b)), a + b), "{:e} + {:e}", a, b);
        assert!(same(d(a).minus(d(b)), a - b), "{:e} - {:e}", a, b);
    }
}

#[test]
fn test_half_and_quarter_match_hardware() {
    let mut rng = Rng(0xDEAD_BEEF_0BAD_F00D);
    for i in 0..400_000u64 {
        let a = if i % 2 == 0 { f64::from_bits(rng.next()) } else { rng.near(2, 2) };
        assert!(same(d(a).half(), a / 2.0), "{:e} / 2", a);
        assert!(same(d(a).quarter(), a / 4.0), "{:e} / 4", a);
    }
}

#[test]
fn test_half_rounds_ties_to_even() {
    // 3 quanta halved is 1.5 quanta: a tie, which goes to the even 2.
    assert_eq!(Double::from_bits(3).half().to_bits(), 2);
    // 1 quantum halved is a tie between 0 and 1: it goes to 0.
    assert_eq!(Double::from_bits(1).half().to_bits(), 0);
    // 5 quanta halved is 2.5: it goes to 2. 7 quanta halved is 3.5: to 4.
    assert_eq!(Double::from_bits(5).half().to_bits(), 2);
    assert_eq!(Double::from_bits(7).half().to_bits(), 4);
    // A quarter of 6 quanta is 1.5: to 2. Of 2 quanta, 0.5: to 0. Of 3, 0.75: to 1.
    assert_eq!(Double::from_bits(6).quarter().to_bits(), 2);
    assert_eq!(Double::from_bits(2).quarter().to_bits(), 0);
    assert_eq!(Double::from_bits(3).quarter().to_bits(), 1);
    // The sign of a value that rounds to zero stays.
    assert_eq!(Double::from_bits(0x8000_0000_0000_0001).half().to_bits(), 0x8000_0000_0000_0000);
}

#[test]
fn test_plus_exact_values() {
    assert_eq!(f(d(10.0).plus(d(40.0))), 50.0);
    assert_eq!(f(d(0.1).plus(d(0.2))), 0.30000000000000004);
    assert_eq!(f(d(1.0).plus(d(f64::EPSILON / 2.0))), 1.0);
    assert_eq!(f(d(1.0).plus(d(f64::EPSILON))), 1.0 + f64::EPSILON);
    assert_eq!(f(d(f64::MAX).plus(d(f64::MAX))), f64::INFINITY);
    assert_eq!(f(d(1e300).plus(d(-1e-300))), 1e300);
    assert_eq!(f(d(2.5).minus(d(2.5))).to_bits(), 0);
    assert_eq!(f(d(-0.0).plus(d(-0.0))).to_bits(), (-0.0f64).to_bits());
    assert!(d(f64::INFINITY).plus(d(f64::NEG_INFINITY)).is_nan());
}

#[test]
fn test_comparisons_match_hardware() {
    let mut rng = Rng(0x1357_9BDF_0246_8ACE);
    for &a in EDGES.iter() {
        for &b in EDGES.iter() {
            assert_eq!(d(a).lt(d(b)), a < b, "{:e} < {:e}", a, b);
            assert_eq!(d(a).gt(d(b)), a > b, "{:e} > {:e}", a, b);
        }
    }
    for i in 0..200_000u64 {
        let a = if i % 2 == 0 { f64::from_bits(rng.next()) } else { rng.near(1023, 1) };
        let b = if i % 3 == 0 { f64::from_bits(rng.next()) } else { rng.near(1023, 1) };
        assert_eq!(d(a).lt(d(b)), a < b, "{:e} < {:e}", a, b);
        assert_eq!(d(a).gt(d(b)), a > b, "{:e} > {:e}", a, b);
    }
}

/// `max` and `min` of the hardware may return either of two equal operands.
fn same_choice(got: Double, want: f64, a: f64, b: f64) -> bool {
    if a == b {
        got.to_bits() == a.to_bits() || got.to_bits() == b.to_bits()
    } else {
        same(got, want)
    }
}

#[test]
fn test_max_and_min_match_hardware() {
    let mut rng = Rng(0x0F0F_F0F0_1234_4321);
    for &a in EDGES.iter() {
        for &b in EDGES.iter() {
            assert!(same_choice(d(a).max(d(b)), a.max(b), a, b), "max({:e}, {:e})", a, b);
            assert!(same_choice(d(a).min(d(b)), a.min(b), a, b), "min({:e}, {:e})", a, b);
        }
    }
    for _ in 0..100_000 {
        let a = f64::from_bits(rng.next());
        let b = rng.near(1023, 3);
        assert!(same_choice(d(a).max(d(b)), a.max(b), a, b), "max({:e}, {:e})", a, b);
        assert!(same_choice(d(a).min(d(b)), a.min(b), a, b), "min({:e}, {:e})", a, b);
    }
}

#[test]
fn test_max_passes_over_a_nan() {
    assert_eq!(f(d(f64::NAN).max(d(3.0))), 3.0);
    assert_eq!(f(d(3.0).max(d(f64::NAN))), 3.0);
    assert_eq!(f(d(f64::NAN).min(d(3.0))), 3.0);
    assert_eq!(f(d(3.0).min(d(f64::NAN))), 3.0);
    assert!(d(f64::NAN).max(d(f64::NAN)).is_nan());
}

#[test]
fn test_abs_and_neg_match_hardware() {
    let mut rng = Rng(0x7777_1111_3333_5555);
    for _ in 0..100_000 {
        let bits = rng.next();
        let a = f64::from_bits(bits);
        assert_eq!(d(a).abs().to_bits(), a.abs().to_bits());
        assert_eq!(d(a).neg().to_bits(), (-a).to_bits());
    }
}

#[test]
fn test_classification_matches_hardware() {
    let mut rng = Rng(0x2468_ACE0_1357_9BDF);
    for &a in EDGES.iter() {
        assert_eq!(d(a).is_nan(), a.is_nan());
        assert_eq!(d(a).is_infinite(), a.is_infinite());
        assert_eq!(d(a).is_finite(), a.is_finite());
        assert_eq!(d(a).is_sign_negative(), a.is_sign_negative());
    }
    for _ in 0..100_000 {
        let a = rng.near(2046, 1);
        assert_eq!(d(a).is_nan(), a.is_nan());
        assert_eq!(d(a).is_infinite(), a.is_infinite());
        assert_eq!(d(a).is_finite(), a.is_finite());
        assert_eq!(d(a).is_sign_negative(), a.is_sign_negative());
    }
}

#[test]
fn test_bits_round_trip() {
    assert_eq!(Double::from_bits(0x4039_0000_0000_0000).to_bits(), 0x4039_0000_0000_0000);
    assert_eq!(f(Double::from_bits(0x4039_0000_0000_0000)), 25.0);
}

#[test]
fn test_overflow_starts_half_a_place_above_the_largest_value() {
    // The last place of the largest finite value is 2^971.
    let half_place = f64::from_bits(0x7C90_0000_0000_0000);
    let below = f64::from_bits(0x7C8F_FFFF_FFFF_FFFF);
    assert_eq!(half_place, 2f64.powi(970));
    assert_eq!(f(d(f64::MAX).plus(d(half_place))), f64::INFINITY);
    assert_eq!(f(d(f64::MAX).plus(d(below))), f64::MAX);
    assert_eq!(f(d(f64::MIN).minus(d(half_place))), f64::NEG_INFINITY);
    assert_eq!(f(d(f64::MIN).minus(d(below))), f64::MIN);
    assert_eq!(f64::MAX + half_place, f64::INFINITY);
    assert_eq!(f64::MAX + below, f64::MAX);
}

#[test]
fn test_plus_commutes() {
    let mut rng = Rng(0x6A09_E667_F3BC_C908);
    for _ in 0..100_000 {
        let a = rng.near(1023, 60);
        let b = rng.near(1023, 60);
        assert_eq!(d(a).plus(d(b)).to_bits(), d(b).plus(d(a)).to_bits());
    }
}

#[test]
fn test_a_value_of_the_format_rounds_to_itself() {
    let mut rng = Rng(0xBB67_AE85_84CA_A73B);
    for _ in 0..100_000 {
        let a = f64::from_bits(rng.next());
        if !a.is_finite() || a.abs() >= 4.49423283715579e307 {
            continue;
        }
        // Twice and four times the value are values too: halving and
        // quartering them gives the value back.
        let twice = d(a).plus(d(a));
        assert_eq!(twice.half().to_bits(), a.to_bits());
        let four = twice.plus(twice);
        assert_eq!(four.quarter().to_bits(), a.to_bits());
        // Three times the value may round, and the fourth makes up for it.
        let summed = twice.plus(d(a)).plus(d(a));
        assert_eq!(summed.to_bits(), four.to_bits());
        // Adding zero changes nothing.
        assert_eq!(d(a).plus(d(0.0)).to_bits(), (a + 0.0).to_bits());
    }
}

#[test]
fn test_rounding_is_monotone() {
    let mut rng = Rng(0x3C6E_F372_FE94_F82B);
    for _ in 0..100_000 {
        let a = rng.near(1023, 2);
        let b = rng.near(1023, 2);
        let c = rng.near(1000, 40);
        if a.is_nan() || b.is_nan() || c.is_nan() {
            continue;
        }
        let (small, large) = if a <= b { (a, b) } else { (b, a) };
        let x = d(small).plus(d(c));
        let y = d(large).plus(d(c));
        assert!(x.le(y), "{:e} {:e} {:e}", small, large, c);
        assert!(d(small).half().le(d(large).half()));
        assert!(d(small).quarter().le(d(large).quarter()));
    }
}

#[test]
fn test_le_and_ge_match_hardware() {
    for &a in EDGES.iter() {
        for &b in EDGES.iter() {
            assert_eq!(d(a).le(d(b)), a <= b, "{:e} <= {:e}", a, b);
            assert_eq!(d(a).ge(d(b)), a >= b, "{:e} >= {:e}", a, b);
        }
    }
}
