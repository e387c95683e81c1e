use heiken_ashi::{
    candle_color, CandleColor, CandleLike, Close, Double, HeikenAshi, HeikenAshiOutput, High,
    Low, Next, Open, Volume,
};

fn d(x: f64) -> Double {
    Double::from_bits(x.to_bits())
}

fn f(x: Double) -> f64 {
    f64::from_bits(x.to_bits())
}

#[derive(Debug, Clone, Copy, PartialEq)]
struct Bar {
    open: f64,
    high: f64,
    low: f64,
    close: f64,
    volume: f64,
}

fn bar(open: f64, high: f64, low: f64, close: f64) -> Bar {
    Bar { open, high, low, close, volume: 0.0 }
}

impl Open for Bar {
    fn open(&self) -> Double {
        d(self.open)
    }
}

impl Close for Bar {
    fn close(&self) -> Double {
        d(self.close)
    }
}

impl Low for Bar {
    fn low(&self) -> Double {
        d(self.low)
    }
}

impl High for Bar {
    fn high(&self) -> Double {
        d(self.high)
    }
}

impl Volume for Bar {
    fn volume(&self) -> Double {
        d(self.volume)
    }
}

impl CandleLike for Bar {}

fn quad(c: &HeikenAshiOutput) -> (f64, f64, f64, f64) {
    (f(c.open), f(c.high), f(c.low), f(c.close))
}

fn same_bits(a: &HeikenAshiOutput, b: &HeikenAshiOutput) -> bool {
    a.open.to_bits() == b.open.to_bits()
        && a.high.to_bits() == b.high.to_bits()
        && a.low.to_bits() == b.low.to_bits()
        && a.close.to_bits() == b.close.to_bits()
}

/// The transform computed on the hardware's own binary64.
struct Reference {
    prev: Option<(f64, f64, f64, f64)>,
}

impl Reference {
    fn next(&mut self, i: &Bar) -> (f64, f64, f64, f64) {
        let next = match self.prev.take() {
            Some((po, _, _, pc)) => {
                let open = (po + pc) / 2.0;
                let close = (i.open + i.high + i.low + i.close) / 4.0;
                (open, open.max(close).max(i.high), open.min(close).min(i.low), close)
            }
            None => (
                (i.open + i.close) / 2.0,
                i.high,
                i.low,
                (i.high + i.low + i.open + i.close) / 4.0,
            ),
        };
        self.prev = Some(next);
        next
    }
}

struct Rng(u64);

impl Rng {
    fn next(&mut self) -> u64 {
        let mut x = self.0;
        x ^= x << 13;
        x ^= x >> 7;
        x ^= x << 17;
        self.0 = x;
        x
    }

    /// A finite price between 0 and 1000 with a fraction that does not
    /// fit the format exactly.
    fn price(&mut self) -> f64 {
        (self.next() % 100_000_000) as f64 / 100_000.0 + (self.next() % 1000) as f64 * 1e-9
    }

    /// Any finite value.
    fn finite(&mut self) -> f64 {
        loop {
            let x = f64::from_bits(self.next());
            if x.is_finite() {
                return x;
            }
        }
    }
}

#[test]
fn test_candlelike() {
    let candle = Bar { open: 10.0, high: 60.0, low: 5.0, close: 40.0, volume: 100.0 };
    assert!(candle.is_green());
    assert_eq!(f(candle.body()), 30.0);
}

#[test]
fn test_first_step_formula() {
    let mut ha = HeikenAshi::new();
    let out = ha.next(&bar(10.0, 60.0, 5.0, 40.0));
    assert_eq!(f(out.open), 25.0);
    assert_eq!(f(out.close), 28.75);
    assert_eq!(f(out.high), 60.0);
    assert_eq!(f(out.low), 5.0);
}

#[test]
fn test_second_step_recurrence() {
    let mut ha = HeikenAshi::new();
    let first = ha.next(&bar(10.0, 60.0, 5.0, 40.0));
    assert_eq!(quad(&first), (25.0, 60.0, 5.0, 28.75));
    let out = ha.next(&bar(30.0, 50.0, 20.0, 45.0));
    assert_eq!(f(out.open), 26.875);
    assert_eq!(f(out.close), 36.25);
    assert_eq!(f(out.high), 50.0);
    assert_eq!(f(out.low), 20.0);
}

#[test]
fn test_wicks_stretch_to_the_body() {
    // The bar's own wicks are narrower than the smoothed body.
    let mut ha = HeikenAshi::new();
    ha.next(&bar(100.0, 110.0, 90.0, 104.0));
    let out = ha.next(&bar(10.0, 12.0, 9.0, 11.0));
    assert_eq!(f(out.open), 101.5);
    assert_eq!(f(out.close), 10.5);
    assert_eq!(f(out.high), 101.5);
    assert_eq!(f(out.low), 9.0);
    let out = ha.next(&bar(200.0, 201.0, 199.0, 200.0));
    assert_eq!(f(out.open), 56.0);
    assert_eq!(f(out.close), 200.0);
    assert_eq!(f(out.high), 201.0);
    assert_eq!(f(out.low), 56.0);
}

#[test]
fn test_matches_hardware_on_price_series() {
    let mut rng = Rng(0xA5A5_5A5A_1234_5678);
    for _ in 0..200 {
        let mut ha = HeikenAshi::new();
        let mut reference = Reference { prev: None };
        for _ in 0..100 {
            let a = rng.price();
            let b = rng.price();
            let c = rng.price();
            let e = rng.price();
            let high = a.max(b).max(c).max(e);
            let low = a.min(b).min(c).min(e);
            let input = bar(a, high, low, e);
            let got = ha.next(&input);
            let want = reference.next(&input);
            assert_eq!(got.open.to_bits(), want.0.to_bits());
            assert_eq!(got.high.to_bits(), want.1.to_bits());
            assert_eq!(got.low.to_bits(), want.2.to_bits());
            assert_eq!(got.close.to_bits(), want.3.to_bits());
        }
    }
}

#[test]
fn test_matches_hardware_on_arbitrary_finite_values() {
    let mut rng = Rng(0x1111_2222_3333_4444);
    for _ in 0..2000 {
        let mut ha = HeikenAshi::new();
        let mut reference = Reference { prev: None };
        for _ in 0..10 {
            let input = bar(rng.finite(), rng.finite(), rng.finite(), rng.finite());
            let got = ha.next(&input);
            let want = reference.next(&input);
            for (g, w) in [
                (got.open, want.0),
                (got.high, want.1),
                (got.low, want.2),
                (got.close, want.3),
            ] {
                if w.is_nan() {
                    assert!(g.is_nan());
                } else if w != 0.0 {
                    assert_eq!(g.to_bits(), w.to_bits());
                } else {
                    assert_eq!(f(g), 0.0);
                }
            }
        }
    }
}

#[test]
fn test_wicks_contain_body_after_the_first_step() {
    let mut rng = Rng(0x0BAD_CAFE_DEAD_BEEF);
    for round in 0..2000 {
        let mut ha = HeikenAshi::new();
        ha.next(&bar(rng.finite(), rng.finite(), rng.finite(), rng.finite()));
        for _ in 0..10 {
            let input = if round % 2 == 0 {
                bar(rng.finite(), rng.finite(), rng.finite(), rng.finite())
            } else {
                bar(rng.price(), rng.price(), rng.price(), rng.price())
            };
            let out = ha.next(&input);
            let (open, high, low, close) = quad(&out);
            assert!(low <= open.min(close), "{:?}", out);
            assert!(high >= open.max(close), "{:?}", out);
        }
    }
}

#[test]
fn test_wicks_contain_body_at_the_first_step_of_a_well_formed_bar() {
    let mut rng = Rng(0x5555_AAAA_5555_AAAA);
    for _ in 0..20_000 {
        let a = rng.price();
        let b = rng.price();
        let c = rng.price();
        let e = rng.price();
        let input = bar(a, a.max(b).max(c).max(e), a.min(b).min(c).min(e), e);
        let out = HeikenAshi::new().next(&input);
        let (open, high, low, close) = quad(&out);
        assert!(low <= open.min(close), "{:?}", out);
        assert!(high >= open.max(close), "{:?}", out);
    }
}

#[test]
fn test_wicks_contain_body_at_the_first_step_near_the_limits() {
    // Subnormal prices, prices of mixed sign, and prices just below 2^1022.
    let top = f64::from_bits(0x7FCF_FFFF_FFFF_FFFF);
    let bars = [
        bar(5e-324, 1.5e-323, 5e-324, 1e-323),
        bar(-5e-324, 5e-324, -1e-323, 0.0),
        bar(top, top, top, top),
        bar(-top, top, -top, top),
        bar(top, top, -top, -top),
        bar(-top, -top, -top, -top),
        bar(1.0000000000000002, 1.0000000000000002, 1.0, 1.0000000000000002),
        bar(-1.0000000000000002, -1.0, -1.0000000000000002, -1.0),
        bar(1.0000000000000004, 1.0000000000000004, 1.0000000000000004, 1.0000000000000004),
        bar(1.5000000000000002, 1.5000000000000002, 1.5000000000000002, 1.5000000000000002),
        bar(0.1, 0.1, 0.1, 0.1),
        bar(-0.7, -0.7, -0.7, -0.7),
    ];
    for input in bars.iter() {
        let out = HeikenAshi::new().next(input);
        let (open, high, low, close) = quad(&out);
        assert!(low <= open.min(close), "{:?}", out);
        assert!(high >= open.max(close), "{:?}", out);
    }
}

#[test]
fn test_first_step_of_a_bar_of_equal_prices_is_that_price() {
    let mut rng = Rng(0x3141_5926_5358_9793);
    for _ in 0..50_000 {
        let x = rng.finite();
        if x.abs() >= 4.49423283715579e307 {
            continue;
        }
        let out = HeikenAshi::new().next(&bar(x, x, x, x));
        assert_eq!(f(out.open), x);
        assert_eq!(f(out.close), x);
    }
}

#[test]
fn test_first_step_overflow_leaves_the_wicks() {
    // Prices too large to be summed: the body overflows, the wicks stay.
    let out = HeikenAshi::new().next(&bar(f64::MAX, f64::MAX, f64::MAX, f64::MAX));
    assert_eq!(f(out.open), f64::INFINITY);
    assert_eq!(f(out.close), f64::INFINITY);
    assert_eq!(f(out.high), f64::MAX);
    assert_eq!(f(out.low), f64::MAX);
}

#[test]
fn test_first_step_passes_the_wicks_through() {
    // The first candle takes the bar's wicks as they are, whatever the body.
    let out = HeikenAshi::new().next(&bar(10.0, 0.0, 0.0, 10.0));
    assert_eq!(quad(&out), (10.0, 0.0, 0.0, 5.0));
}

#[test]
fn test_state_isolation() {
    let inputs = [
        bar(10.0, 60.0, 5.0, 40.0),
        bar(30.0, 50.0, 20.0, 45.0),
        bar(44.0, 47.5, 41.25, 42.0),
        bar(42.0, 42.0, 30.0, 31.0),
    ];
    let mut a = HeikenAshi::new();
    let mut b = HeikenAshi::new();
    // `a` runs ahead of `b`, then `b` catches up: each gives the same candles.
    let a0 = a.next(&inputs[0]);
    let a1 = a.next(&inputs[1]);
    let b0 = b.next(&inputs[0]);
    let a2 = a.next(&inputs[2]);
    let b1 = b.next(&inputs[1]);
    let b2 = b.next(&inputs[2]);
    let b3 = b.next(&inputs[3]);
    let a3 = a.next(&inputs[3]);
    assert!(same_bits(&a0, &b0));
    assert!(same_bits(&a1, &b1));
    assert!(same_bits(&a2, &b2));
    assert!(same_bits(&a3, &b3));
    assert_eq!(quad(&a1), (26.875, 50.0, 20.0, 36.25));
}

#[test]
fn test_only_the_last_candle_is_remembered() {
    // Two histories that end in the same candle (25, 60, 5, 28.75).
    let mut a = HeikenAshi::new();
    let last_a = a.next(&bar(10.0, 60.0, 5.0, 40.0));
    let mut b = HeikenAshi::new();
    b.next(&bar(20.0, 31.0, 19.0, 30.0));
    b.next(&bar(24.0, 27.0, 23.0, 26.0));
    let last_b = b.next(&bar(35.0, 60.0, 5.0, 15.0));
    assert_eq!(quad(&last_a), (25.0, 60.0, 5.0, 28.75));
    assert_eq!(quad(&last_b), (25.0, 60.0, 5.0, 28.75));
    let input = bar(30.0, 50.0, 20.0, 45.0);
    let next_a = a.next(&input);
    let next_b = b.next(&input);
    assert!(same_bits(&next_a, &next_b));
    assert_eq!(quad(&next_a), (26.875, 50.0, 20.0, 36.25));
}

#[test]
fn test_output_is_candle_like() {
    let mut ha = HeikenAshi::new();
    let first = ha.next(&bar(10.0, 60.0, 5.0, 40.0));
    assert_eq!(f(first.open()), 25.0);
    assert_eq!(f(first.high()), 60.0);
    assert_eq!(f(first.low()), 5.0);
    assert_eq!(f(first.close()), 28.75);
    assert_eq!(f(first.body()), 3.75);
    assert!(first.is_green());
    assert!(!first.is_red());
    assert_eq!(candle_color(&first), CandleColor::Green);
    // A candle can be fed to a second transform.
    let mut chained = HeikenAshi::new();
    let out = chained.next(&first);
    assert_eq!(quad(&out), (26.875, 60.0, 5.0, 29.6875));
}

#[test]
fn test_candle_color() {
    assert_eq!(candle_color(&bar(10.0, 60.0, 5.0, 40.0)), CandleColor::Green);
    assert_eq!(candle_color(&bar(40.0, 60.0, 5.0, 10.0)), CandleColor::Red);
    // Equal open and close: red by colour, although `is_green` holds.
    let doji = bar(10.0, 60.0, 5.0, 10.0);
    assert_eq!(candle_color(&doji), CandleColor::Red);
    assert!(doji.is_green());
    assert!(!doji.is_red());
    // The two zeros are equal.
    assert_eq!(candle_color(&bar(-0.0, 1.0, -1.0, 0.0)), CandleColor::Red);
    // A NaN compares with nothing.
    let nan_close = bar(10.0, 60.0, 5.0, f64::NAN);
    assert_eq!(candle_color(&nan_close), CandleColor::Red);
    assert!(nan_close.is_green());
    assert_eq!(candle_color(&bar(f64::NEG_INFINITY, 0.0, 0.0, f64::INFINITY)), CandleColor::Green);
}

#[test]
fn test_classifier_agrees_with_comparison() {
    let mut rng = Rng(0x9999_8888_7777_6666);
    for i in 0..50_000u64 {
        let open = f64::from_bits(rng.next());
        let close = if i % 5 == 0 { open } else { f64::from_bits(rng.next()) };
        let b = bar(open, 0.0, 0.0, close);
        let green = matches!(candle_color(&b), CandleColor::Green);
        assert_eq!(green, close > open);
        assert_eq!(b.is_red(), close < open);
        assert_eq!(b.is_green(), !(close < open));
    }
}

#[test]
fn test_body_is_absolute_difference() {
    assert_eq!(f(bar(10.0, 60.0, 5.0, 40.0).body()), 30.0);
    assert_eq!(f(bar(40.0, 60.0, 5.0, 10.0).body()), 30.0);
    assert_eq!(f(bar(0.1, 1.0, 0.0, 0.3).body()), (0.1f64 - 0.3).abs());
    assert_eq!(bar(7.0, 7.0, 7.0, 7.0).body().to_bits(), 0);
    let mut rng = Rng(0x4242_4242_4242_4242);
    for _ in 0..50_000 {
        let open = rng.finite();
        let close = rng.finite();
        let got = bar(open, 0.0, 0.0, close).body();
        assert_eq!(got.to_bits(), (open - close).abs().to_bits());
    }
}

#[test]
fn test_non_finite_inputs_propagate() {
    let mut ha = HeikenAshi::new();
    let out = ha.next(&bar(f64::NAN, 60.0, 5.0, 40.0));
    assert!(out.open.is_nan());
    assert!(out.close.is_nan());
    assert_eq!(f(out.high), 60.0);
    assert_eq!(f(out.low), 5.0);
    // The NaN stays in the open of the next candle, and the wicks pass it over.
    let out = ha.next(&bar(30.0, 50.0, 20.0, 45.0));
    assert!(out.open.is_nan());
    assert_eq!(f(out.close), 36.25);
    assert_eq!(f(out.high), 50.0);
    assert_eq!(f(out.low), 20.0);
    let out = HeikenAshi::new().next(&bar(1.0, f64::INFINITY, 0.0, 2.0));
    assert_eq!(f(out.open), 1.5);
    assert_eq!(f(out.close), f64::INFINITY);
    assert_eq!(f(out.high), f64::INFINITY);
}

#[test]
fn test_volume_is_read_back() {
    let candle = Bar { open: 10.0, high: 60.0, low: 5.0, close: 40.0, volume: 100.0 };
    assert_eq!(f(candle.volume()), 100.0);
}
