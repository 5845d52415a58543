//! Open-candle revision semantics: tentative values, in-place updates,
//! and freedom from drift when the same revision arrives repeatedly.

use kline_indicators::bollinger::BollingerIndicator;
use kline_indicators::candle::Candle;
use kline_indicators::cumulative_delta::CumulativeDeltaIndicator;
use kline_indicators::ema::EMAIndicator;
use kline_indicators::rsi::RSIIndicator;
use kline_indicators::sma::SMAIndicator;

fn candle(key: u64, close: i128) -> Candle {
    Candle {
        key,
        close,
        buy_volume: 0,
        sell_volume: 0,
    }
}

fn delta_candle(key: u64, buy: i128, sell: i128) -> Candle {
    Candle {
        key,
        close: 0,
        buy_volume: buy,
        sell_volume: sell,
    }
}

#[test]
fn ema_revision_uses_previous_finalized_base() {
    // period 2: seed 1.5 at key 2, then 2.5 at key 3.  Revising key 3
    // recomputes from the key-2 output value, not from the tentative
    // value already stored at key 3.
    let mut ema = EMAIndicator::with_period(2);
    ema.on_finalized_candle(candle(1, 100));
    ema.on_finalized_candle(candle(2, 200));
    ema.on_finalized_candle(candle(3, 300));
    assert_eq!(ema.output().get(3), Some(250));
    // 1.5 + (5.0 - 1.5) * 2/3 = 1.5 + 2.33 (truncated).
    ema.on_open_candle_revision(candle(3, 500));
    assert_eq!(ema.output().get(3), Some(383));
    assert_eq!(ema.output().get(2), Some(150));
}

#[test]
fn ema_revision_twice_is_identical() {
    let mut ema = EMAIndicator::with_period(2);
    ema.on_finalized_candle(candle(1, 100));
    ema.on_finalized_candle(candle(2, 200));
    ema.on_finalized_candle(candle(3, 300));
    ema.on_open_candle_revision(candle(3, 500));
    let first = ema.output().get(3);
    ema.on_open_candle_revision(candle(3, 500));
    let second = ema.output().get(3);
    assert_eq!(first, second);
    assert_eq!(first, Some(383));
}

#[test]
fn rsi_revision_twice_is_identical() {
    let mut rsi = RSIIndicator::with_period(2);
    rsi.on_finalized_candle(candle(1, 100));
    rsi.on_finalized_candle(candle(2, 200));
    rsi.on_finalized_candle(candle(3, 150));
    // Tentative value for a new open candle at key 4, twice.
    rsi.on_open_candle_revision(candle(4, 250));
    let first = rsi.output().get(4);
    rsi.on_open_candle_revision(candle(4, 250));
    let second = rsi.output().get(4);
    assert_eq!(first, second);
    assert_eq!(first, Some(86));
    // The finalized Wilder state never moved: finalizing now still
    // produces the same value.
    rsi.on_finalized_candle(candle(4, 250));
    assert_eq!(rsi.output().get(4), Some(86));
}

#[test]
fn sma_tentative_then_finalize() {
    // period 2: finalized closes 1.0, 2.0.  A tentative open candle at
    // key 3 shows the mean of 2.0 and its close, but the accumulator is
    // untouched: finalizing key 3 with another close overwrites it.
    let mut sma = SMAIndicator::with_period(2);
    sma.on_finalized_candle(candle(1, 100));
    sma.on_finalized_candle(candle(2, 200));
    sma.on_open_candle_revision(candle(3, 400));
    assert_eq!(sma.output().get(3), Some(300));
    assert_eq!(sma.last_processed_key(), Some(2));
    sma.on_finalized_candle(candle(3, 600));
    assert_eq!(sma.output().get(3), Some(400));
    assert_eq!(sma.last_processed_key(), Some(3));
}

#[test]
fn sma_in_place_revision_adjusts_sum() {
    // Revising the last finalized candle replaces the last window entry.
    let mut sma = SMAIndicator::with_period(2);
    sma.on_finalized_candle(candle(1, 100));
    sma.on_finalized_candle(candle(2, 200));
    assert_eq!(sma.output().get(2), Some(150));
    sma.on_open_candle_revision(candle(2, 400));
    assert_eq!(sma.output().get(2), Some(250));
    sma.on_open_candle_revision(candle(2, 400));
    assert_eq!(sma.output().get(2), Some(250));
}

#[test]
fn cumulative_tentative_then_finalize() {
    let mut cvd = CumulativeDeltaIndicator::new();
    cvd.on_finalized_candle(delta_candle(1, 5, 0));
    cvd.on_finalized_candle(delta_candle(2, 0, 2));
    // Open candle at key 3 with delta 7: tentative running sum 10.
    cvd.on_open_candle_revision(delta_candle(3, 7, 0));
    assert_eq!(cvd.output().get(3), Some(10));
    assert_eq!(cvd.last_processed_key(), Some(2));
    // It closes with delta 2 instead.
    cvd.on_finalized_candle(delta_candle(3, 2, 0));
    assert_eq!(cvd.output().get(3), Some(5));
    assert_eq!(cvd.output().get(2), Some(3));
}

#[test]
fn bollinger_revision_recomputes_band() {
    // Revising the last finalized candle replaces its window entry,
    // adjusts both rolling sums, and recomputes the middle band from the
    // output entry immediately preceding it.
    let mut bb = BollingerIndicator::with_period(2);
    bb.on_finalized_candle(candle(1, 100));
    bb.on_finalized_candle(candle(2, 300));
    bb.on_finalized_candle(candle(3, 500));
    // key 3 band: middle = 2.0 + (5.0 - 2.0) * 2/3 = 4.0; window
    // [3.0, 5.0] has deviation 1.0: band (5.0, 4.0, 3.0).
    let band = bb.output().get(3).unwrap();
    assert_eq!(band.middle, 400);
    assert_eq!(band.upper, 600);
    assert_eq!(band.lower, 200);
    // Revise key 3 to 7.0: middle from the key-2 entry (2.0):
    // 2.0 + (7.0 - 2.0) * 2/3 = 5.33; window [3.0, 7.0] has deviation
    // 2.0: upper = middle + 4.0.
    bb.on_open_candle_revision(candle(3, 700));
    let revised = bb.output().get(3).unwrap();
    assert_eq!(revised.middle, 533);
    assert_eq!(revised.upper, 933);
    assert_eq!(revised.lower, 133);
    // Same revision again: identical entry.
    bb.on_open_candle_revision(candle(3, 700));
    assert_eq!(bb.output().get(3), Some(revised));
    // Earlier entries untouched.
    let first = bb.output().get(2).unwrap();
    assert_eq!(first.middle, 200);
}

#[test]
fn revision_with_old_key_is_ignored() {
    let mut ema = EMAIndicator::with_period(2);
    ema.on_finalized_candle(candle(1, 100));
    ema.on_finalized_candle(candle(2, 200));
    ema.on_finalized_candle(candle(3, 300));
    let before = ema.output().get(3);
    ema.on_open_candle_revision(candle(1, 900));
    assert_eq!(ema.output().get(3), before);
    assert_eq!(ema.output().get(1), None);
}

#[test]
fn revision_before_seed_writes_nothing() {
    // EMA period 3 with only one finalized candle: a revision of a new
    // open candle has no defined value, and nothing appears.
    let mut ema = EMAIndicator::with_period(3);
    ema.on_finalized_candle(candle(1, 100));
    ema.on_open_candle_revision(candle(2, 200));
    assert_eq!(ema.output().len(), 0);
    // RSI likewise: the averages are not seeded yet.
    let mut rsi = RSIIndicator::with_period(3);
    rsi.on_finalized_candle(candle(1, 100));
    rsi.on_finalized_candle(candle(2, 200));
    rsi.on_open_candle_revision(candle(3, 300));
    assert_eq!(rsi.output().len(), 0);
}

#[test]
fn sma_tentative_seeds_window_exactly_at_period() {
    // period 3 with two finalized closes: the open candle completes the
    // window tentatively, so a value appears at its key.
    let mut sma = SMAIndicator::with_period(3);
    sma.on_finalized_candle(candle(1, 100));
    sma.on_finalized_candle(candle(2, 200));
    sma.on_open_candle_revision(candle(3, 600));
    assert_eq!(sma.output().get(3), Some(300));
    // A later revision of the same open candle replaces the tentative
    // value instead of stacking a second entry.
    sma.on_open_candle_revision(candle(3, 300));
    assert_eq!(sma.output().get(3), Some(200));
    assert_eq!(sma.output().len(), 1);
}

#[test]
fn rsi_in_place_revision_leaves_averages_alone() {
    let mut rsi = RSIIndicator::with_period(2);
    rsi.on_finalized_candle(candle(1, 100));
    rsi.on_finalized_candle(candle(2, 200));
    rsi.on_finalized_candle(candle(3, 150));
    assert_eq!(rsi.output().get(3), Some(66));
    // Revise the last finalized candle: its entry moves, earlier ones
    // and the Wilder state do not.
    rsi.on_open_candle_revision(candle(3, 150));
    let revised = rsi.output().get(3);
    rsi.on_open_candle_revision(candle(3, 150));
    assert_eq!(rsi.output().get(3), revised);
    // The next finalized candle still chains from unchanged averages:
    // gain (0.5*1 + 1.0)/2 = 0.75, loss (0.25*1 + 0)/2 = 0.12.
    rsi.on_finalized_candle(candle(4, 250));
    assert_eq!(rsi.output().get(4), Some(86));
}
