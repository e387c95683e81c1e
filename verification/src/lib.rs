//! Heiken Ashi candles over IEEE 754 binary64 prices.
//!
//! A price is a [`Double`]: a binary64 value held by its bit pattern. All
//! arithmetic on it is done in integers and is proved to round to nearest,
//! ties to even, so that a result that is a number has the bits that
//! binary64 hardware gives it. Where hardware gives a NaN, so does this
//! library, and always the same one.
//!
//! [`HeikenAshi`] turns a series of bars, one at a time, into Heiken Ashi
//! candles. A bar is any value with the four prices ([`CandleLike`]); a
//! candle is one too.
pub mod arith;
pub mod double;
pub mod indicators;
pub mod means;
pub mod order;
pub mod powers;
pub mod rounding;
pub mod rounding_laws;
pub mod traits;

pub use crate::double::Double;
pub use crate::indicators::heiken_ashi::{candle_color, CandleColor, HeikenAshi, HeikenAshiOutput};
pub use crate::traits::{CandleLike, Close, High, Low, Next, Open, Period, Reset, Volume};
