//! What an indicator is, and what it asks of a bar.
use crate::double::Double;
use vstd::prelude::*;

verus! {

/// Resets an indicator to the initial state.
pub trait Reset {
    fn reset(&mut self);
}

/// Return the period used by the indicator.
pub trait Period {
    fn period(&self) -> usize;
}

/// Consumes a data item of type `T` and returns `Output`.
pub trait Next<T> {
    type Output;

    fn next(&mut self, input: T) -> Self::Output;
}

/// Open price of a particular period.
pub trait Open {
    /// The price that `open` returns. An implementation states it here.
    open spec fn spec_open(&self) -> Double {
        arbitrary()
    }

    fn open(&self) -> (r: Double)
        ensures
            r == self.spec_open(),
    ;
}

/// Close price of a particular period.
pub trait Close {
    /// The price that `close` returns. An implementation states it here.
    open spec fn spec_close(&self) -> Double {
        arbitrary()
    }

    fn close(&self) -> (r: Double)
        ensures
            r == self.spec_close(),
    ;
}

/// Lowest price of a particular period.
pub trait Low {
    /// The price that `low` returns. An implementation states it here.
    open spec fn spec_low(&self) -> Double {
        arbitrary()
    }

    fn low(&self) -> (r: Double)
        ensures
            r == self.spec_low(),
    ;
}

/// Highest price of a particular period.
pub trait High {
    /// The price that `high` returns. An implementation states it here.
    open spec fn spec_high(&self) -> Double {
        arbitrary()
    }

    fn high(&self) -> (r: Double)
        ensures
            r == self.spec_high(),
    ;
}

/// Trading volume of a particular trading period.
pub trait Volume {
    fn volume(&self) -> Double;
}

/// A bar with all four prices. The three derived methods are fixed by the
/// prices: an implementation that overrides one must return the same.
pub trait CandleLike: Open + Close + High + Low {
    /// Whether the close is strictly below the open.
    fn is_red(&self) -> (r: bool)
        ensures
            r == self.spec_close().spec_lt(self.spec_open()),
    {
        self.close().lt(self.open())
    }

    /// Whether the candle is not red. A candle whose close equals its open
    /// is green, and so is one with a NaN for either price.
    fn is_green(&self) -> (r: bool)
        ensures
            r == !self.spec_close().spec_lt(self.spec_open()),
    {
        !self.is_red()
    }

    /// The size of the body: `|open - close|`.
    fn body(&self) -> (r: Double)
        ensures
            r == self.spec_open().spec_minus(self.spec_close()).spec_abs(),
    {
        self.open().minus(self.close()).abs()
    }
}

} // verus!
