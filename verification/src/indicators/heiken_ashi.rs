//! Heiken Ashi: a candle smoothed against the candle before it.
use crate::double::Double;
use crate::means::{
    between,
    lemma_mean2_between,
    lemma_mean4_between,
    lemma_mean4_of_finite_is_a_number,
    mean2,
    mean4,
};
use crate::order::has_room;
use crate::traits::{CandleLike, Close, High, Low, Next, Open};
use vstd::prelude::*;

verus! {

/// The Heiken Ashi transform. It remembers the candle it produced last, and
/// nothing else.
pub struct HeikenAshi {
    prev: Option<HeikenAshiOutput>,
}

/// A Heiken Ashi candle.
#[derive(Debug, Clone, Copy)]
pub struct HeikenAshiOutput {
    pub open: Double,
    pub high: Double,
    pub low: Double,
    pub close: Double,
}

/// The colour of a candle.
#[derive(Debug, Clone, Copy, PartialEq, Eq)]
pub enum CandleColor {
    Red,
    Green,
}

/// The candle for the first bar: the wicks of the bar, around the means of
/// its prices.
pub open spec fn first_candle(open: Double, high: Double, low: Double, close: Double)
    -> HeikenAshiOutput {
    HeikenAshiOutput {
        open: mean2(open, close),
        high,
        low,
        close: mean4(high, low, open, close),
    }
}

/// The candle for a bar that follows the candle `prev`: it opens at the
/// middle of `prev`'s body, closes at the mean of the bar's prices, and its
/// wicks reach as far as the bar's and its own body.
pub open spec fn following_candle(
    prev: HeikenAshiOutput,
    open: Double,
    high: Double,
    low: Double,
    close: Double,
) -> HeikenAshiOutput {
    let o = mean2(prev.open, prev.close);
    let c = mean4(open, high, low, close);
    HeikenAshiOutput {
        open: o,
        high: o.spec_max(c).spec_max(high),
        low: o.spec_min(c).spec_min(low),
        close: c,
    }
}

/// The candle for a bar, given what the transform remembers.
pub open spec fn candle_after(
    prev: Option<HeikenAshiOutput>,
    open: Double,
    high: Double,
    low: Double,
    close: Double,
) -> HeikenAshiOutput {
    match prev {
        Some(p) => following_candle(p, open, high, low, close),
        None => first_candle(open, high, low, close),
    }
}

/// The transform's memory after it was fed `bars` in order, from new: the
/// candle for the last of them, if there is one.
pub open spec fn state_after(bars: Seq<HeikenAshiOutput>) -> Option<HeikenAshiOutput>
    decreases bars.len(),
{
    if bars.len() == 0 {
        None
    } else {
        let bar = bars.last();
        Some(candle_after(state_after(bars.drop_last()), bar.open, bar.high, bar.low, bar.close))
    }
}

impl HeikenAshiOutput {
    /// Whether the body lies within the wicks: `low <= min(open, close)` and
    /// `high >= max(open, close)`, compared as binary64 compares.
    pub open spec fn wicks_contain_body(self) -> bool {
        self.low.spec_le(self.open.spec_min(self.close)) && self.high.spec_ge(
            self.open.spec_max(self.close),
        )
    }
}

/// Whether the four prices make a bar whose prices can be summed: all are
/// finite, the open and the close lie between the low and the high, and the
/// low and the high are below 2^1022 in magnitude, so that four times
/// either is finite.
pub open spec fn is_bar(open: Double, high: Double, low: Double, close: Double) -> bool {
    &&& between(open, low, high)
    &&& between(close, low, high)
    &&& low.is_finite() && has_room(low, 2)
    &&& high.is_finite() && has_room(high, 2)
}

/// Green when the close is strictly above the open, red otherwise.
pub open spec fn color_of(open: Double, close: Double) -> CandleColor {
    if close.spec_gt(open) {
        CandleColor::Green
    } else {
        CandleColor::Red
    }
}

impl View for HeikenAshi {
    type V = Option<HeikenAshiOutput>;

    /// The candle produced last, if any.
    closed spec fn view(&self) -> Option<HeikenAshiOutput> {
        self.prev
    }
}

impl HeikenAshi {
    /// A transform that has seen no bar.
    pub fn new() -> (r: Self)
        ensures
            r@ is None,
    {
        Self { prev: None }
    }
}

impl<T: CandleLike> Next<&T> for HeikenAshi {
    type Output = HeikenAshiOutput;

    /// The candle for the next bar, which is remembered in place of the one
    /// before. From the second bar on its wicks contain its body, whatever
    /// the finite prices; at the first bar they are the bar's own, and
    /// contain the body of a bar that is one.
    fn next(&mut self, input: &T) -> (out: HeikenAshiOutput)
        ensures
            out == candle_after(
                old(self)@,
                input.spec_open(),
                input.spec_high(),
                input.spec_low(),
                input.spec_close(),
            ),
            final(self)@ == Some(out),
            old(self)@ is Some && input.spec_open().is_finite() && input.spec_high().is_finite()
                && input.spec_low().is_finite() && input.spec_close().is_finite()
                ==> out.wicks_contain_body(),
            old(self)@ is None && is_bar(
                input.spec_open(),
                input.spec_high(),
                input.spec_low(),
                input.spec_close(),
            ) ==> out.wicks_contain_body(),
    {
        proof {
            if self@ is None && is_bar(
                input.spec_open(),
                input.spec_high(),
                input.spec_low(),
                input.spec_close(),
            ) {
                lemma_first_wicks_contain_body(
                    input.spec_open(),
                    input.spec_high(),
                    input.spec_low(),
                    input.spec_close(),
                );
            }
            if self@ is Some {
                lemma_following_wicks_contain_body(
                    self@->Some_0,
                    input.spec_open(),
                    input.spec_high(),
                    input.spec_low(),
                    input.spec_close(),
                );
            }
        }
        let next = match self.prev.take() {
            Some(prev) => {
                let open = prev.open.plus(prev.close).half();
                let close = input.open().plus(input.high()).plus(input.low()).plus(
                    input.close(),
                ).quarter();
                HeikenAshiOutput {
                    open,
                    high: open.max(close).max(input.high()),
                    low: open.min(close).min(input.low()),
                    close,
                }
            },
            None => HeikenAshiOutput {
                open: input.open().plus(input.close()).half(),
                high: input.high(),
                low: input.low(),
                close: input.high().plus(input.low()).plus(input.open()).plus(
                    input.close(),
                ).quarter(),
            },
        };
        self.prev = Some(next);
        next
    }
}

impl Open for HeikenAshiOutput {
    open spec fn spec_open(&self) -> Double {
        self.open
    }

    fn open(&self) -> Double {
        self.open
    }
}

impl Close for HeikenAshiOutput {
    open spec fn spec_close(&self) -> Double {
        self.close
    }

    fn close(&self) -> Double {
        self.close
    }
}

impl Low for HeikenAshiOutput {
    open spec fn spec_low(&self) -> Double {
        self.low
    }

    fn low(&self) -> Double {
        self.low
    }
}

impl High for HeikenAshiOutput {
    open spec fn spec_high(&self) -> Double {
        self.high
    }

    fn high(&self) -> Double {
        self.high
    }
}

impl CandleLike for HeikenAshiOutput {}

/// The colour of a candle: green when it closes strictly above its open,
/// red otherwise. A candle whose close equals its open is red, and so is one
/// with a NaN for either price.
pub fn candle_color<T: CandleLike>(candle: &T) -> (r: CandleColor)
    ensures
        r == color_of(candle.spec_open(), candle.spec_close()),
{
    if candle.close().gt(candle.open()) {
        CandleColor::Green
    } else {
        CandleColor::Red
    }
}

/// After the first bar, the wicks of a candle contain its body unless both
/// its open and its close are NaNs; they do for every bar of finite prices,
/// whatever the candle before.
pub proof fn lemma_following_wicks_contain_body(
    prev: HeikenAshiOutput,
    open: Double,
    high: Double,
    low: Double,
    close: Double,
)
    ensures
        ({
            let out = following_candle(prev, open, high, low, close);
            &&& out.wicks_contain_body() <==> !(out.open.is_nan() && out.close.is_nan())
            &&& open.is_finite() && high.is_finite() && low.is_finite() && close.is_finite()
                ==> out.wicks_contain_body()
        }),
{
    if open.is_finite() && high.is_finite() && low.is_finite() && close.is_finite() {
        lemma_mean4_of_finite_is_a_number(open, high, low, close);
    }
}

/// The first candle of a bar has the bar's own wicks, and they contain its
/// body: the means of prices that lie between the low and the high lie
/// between them too.
pub proof fn lemma_first_wicks_contain_body(open: Double, high: Double, low: Double, close: Double)
    requires
        is_bar(open, high, low, close),
    ensures
        first_candle(open, high, low, close).wicks_contain_body(),
        between(first_candle(open, high, low, close).open, low, high),
        between(first_candle(open, high, low, close).close, low, high),
{
    lemma_mean2_between(open, close, low, high);
    lemma_mean4_between(high, low, open, close, low, high);
}

/// Feeding one more bar changes the memory as one step does: the memory
/// after a history is the candle for its last bar against the memory before.
pub proof fn lemma_state_after_push(bars: Seq<HeikenAshiOutput>, bar: HeikenAshiOutput)
    ensures
        state_after(bars.push(bar)) == Some(
            candle_after(state_after(bars), bar.open, bar.high, bar.low, bar.close),
        ),
{
    assert(bars.push(bar).drop_last() =~= bars);
}

/// Two transforms that were fed the same bars answer the next bar with the
/// same candle: the candles of a transform are a function of the bars it was
/// fed, and of nothing else.
pub proof fn lemma_same_bars_same_candle(
    a: HeikenAshi,
    b: HeikenAshi,
    bars: Seq<HeikenAshiOutput>,
    bar: HeikenAshiOutput,
)
    requires
        a@ == state_after(bars),
        b@ == state_after(bars),
    ensures
        candle_after(a@, bar.open, bar.high, bar.low, bar.close) == candle_after(
            b@,
            bar.open,
            bar.high,
            bar.low,
            bar.close,
        ),
        state_after(bars.push(bar)) == Some(
            candle_after(a@, bar.open, bar.high, bar.low, bar.close),
        ),
{
    lemma_state_after_push(bars, bar);
}

/// Two histories that end in candles of the same open and close give the
/// same candle for the next bar: nothing older than the last candle is
/// remembered, and of that candle only its body.
pub proof fn lemma_history_is_forgotten(
    first: Seq<HeikenAshiOutput>,
    second: Seq<HeikenAshiOutput>,
    bar: HeikenAshiOutput,
)
    requires
        state_after(first) is Some,
        state_after(second) is Some,
        state_after(first)->Some_0.open == state_after(second)->Some_0.open,
        state_after(first)->Some_0.close == state_after(second)->Some_0.close,
    ensures
        state_after(first.push(bar)) == state_after(second.push(bar)),
{
    lemma_state_after_push(first, bar);
    lemma_state_after_push(second, bar);
}

/// The colour and `is_green` disagree exactly on a candle that closes where
/// it opens, or that has a NaN for either price: such a candle is red by
/// colour, although `is_green` holds of it.
pub proof fn lemma_color_and_is_green_differ(open: Double, close: Double)
    ensures
        ({
            let green_by_color = color_of(open, close) == CandleColor::Green;
            let is_green = !close.spec_lt(open);
            let undecided = open.is_nan() || close.is_nan() || open.value() == close.value();
            &&& green_by_color ==> is_green
            &&& green_by_color != is_green <==> undecided
            &&& undecided ==> is_green && !green_by_color
        }),
{
}

} // verus!
