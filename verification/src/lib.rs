//! Incremental technical-indicator engines over a stream of market candles.
//!
//! A candle is an OHLCV bar whose values are fixed-point integers: the caller
//! picks a scale (say 10^8 per unit) and every close and volume is given in
//! those units.  Each engine (simple moving average, exponential moving
//! average, Bollinger bands, relative strength index, cumulative volume
//! delta) keeps a small accumulator and an ordered output series keyed by
//! candle position, and supports three update regimes: a bulk rebuild from a
//! source snapshot, an append of a newly finalized candle, and an in-place
//! revision of the still-open candle.  Out-of-order or duplicate finalized
//! candles are dropped without touching any state.

pub mod arith;
pub mod bollinger;
pub mod candle;
pub mod cumulative_delta;
pub mod ema;
pub mod indicator;
pub mod rsi;
pub mod series;
pub mod sma;
pub mod throttle;
