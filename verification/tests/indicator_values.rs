//! Exact output values of the engines on small candle streams.
//!
//! Prices are fixed-point with 100 units per 1.0, so every expected value
//! in these streams is exact.

use kline_indicators::bollinger::BollingerIndicator;
use kline_indicators::candle::Candle;
use kline_indicators::cumulative_delta::CumulativeDeltaIndicator;
use kline_indicators::ema::EMAIndicator;
use kline_indicators::rsi::RSIIndicator;
use kline_indicators::sma::SMAIndicator;

fn candle(key: u64, close: i128) -> Candle {
    Candle {
        key,
        close,
        buy_volume: 0,
        sell_volume: 0,
    }
}

fn delta_candle(key: u64, buy: i128, sell: i128) -> Candle {
    Candle {
        key,
        close: 0,
        buy_volume: buy,
        sell_volume: sell,
    }
}

#[test]
fn sma_window_of_three() {
    // closes 1.0, 2.0, 3.0, 4.0: no entry before the window fills,
    // then the means 2.0 and 3.0.
    let mut sma = SMAIndicator::with_period(3);
    for (k, close) in [(1u64, 100i128), (2, 200), (3, 300), (4, 400)] {
        sma.on_finalized_candle(candle(k, close));
    }
    let out = sma.output();
    assert_eq!(out.get(1), None);
    assert_eq!(out.get(2), None);
    assert_eq!(out.get(3), Some(200));
    assert_eq!(out.get(4), Some(300));
    assert_eq!(out.len(), 2);
}

#[test]
fn ema_seed_and_step() {
    // period 3: seed at key 3 is the mean 2.0; the multiplier is
    // 2 / (3 + 1) = 0.5, so key 4 gives (4.0 - 2.0) * 0.5 + 2.0 = 3.0.
    let mut ema = EMAIndicator::with_period(3);
    for (k, close) in [(1u64, 100i128), (2, 200), (3, 300), (4, 400)] {
        ema.on_finalized_candle(candle(k, close));
    }
    let out = ema.output();
    assert_eq!(out.get(1), None);
    assert_eq!(out.get(2), None);
    assert_eq!(out.get(3), Some(200));
    assert_eq!(out.get(4), Some(300));
}

#[test]
fn rsi_all_gains_is_exactly_100() {
    // Rising closes only: zero losses over the seed window, and the
    // index is exactly 100 with no division fault.
    let mut rsi = RSIIndicator::with_period(3);
    for (k, close) in [(1u64, 100i128), (2, 200), (3, 300), (4, 400)] {
        rsi.on_finalized_candle(candle(k, close));
    }
    let out = rsi.output();
    assert_eq!(out.get(1), None);
    assert_eq!(out.get(2), None);
    assert_eq!(out.get(3), None);
    assert_eq!(out.get(4), Some(100));
}

#[test]
fn rsi_mixed_changes() {
    // period 2: changes +1.0 then -0.5 seed the averages at the third
    // candle: avg gain 0.5, avg loss 0.25, index 100 * 50 / 75 = 66.
    let mut rsi = RSIIndicator::with_period(2);
    rsi.on_finalized_candle(candle(1, 100));
    rsi.on_finalized_candle(candle(2, 200));
    rsi.on_finalized_candle(candle(3, 150));
    let out = rsi.output();
    assert_eq!(out.get(3), Some(66));
    // One Wilder step: gain (0.5 * 1 + 1.0) / 2 = 0.75, loss
    // (0.25 * 1 + 0) / 2 = 0.12; index 7500 / 87 = 86.
    rsi.on_finalized_candle(candle(4, 250));
    assert_eq!(rsi.output().get(4), Some(86));
}

#[test]
fn bollinger_exact_band() {
    // period 2, closes 1.0 and 3.0: middle is the seed mean 2.0; the
    // variance numerator is 2 * (1 + 9) - 16 = 4 (in whole units), so
    // the deviation is 1.0 and the bands sit at 0.0 and 4.0.
    let mut bb = BollingerIndicator::with_period(2);
    bb.on_finalized_candle(candle(1, 100));
    bb.on_finalized_candle(candle(2, 300));
    let out = bb.output();
    assert_eq!(out.get(1), None);
    let band = out.get(2).unwrap();
    assert_eq!(band.middle, 200);
    assert_eq!(band.upper, 400);
    assert_eq!(band.lower, 0);
}

#[test]
fn bollinger_bands_stay_ordered() {
    let mut bb = BollingerIndicator::with_period(3);
    let closes = [500i128, 100, 900, 300, 700, 200, 800, 400];
    for (i, close) in closes.iter().enumerate() {
        bb.on_finalized_candle(candle(i as u64 + 1, *close));
    }
    let out = bb.output();
    for i in 0..out.len() {
        let (_, band) = out.entry_at(i);
        assert!(band.lower <= band.middle);
        assert!(band.middle <= band.upper);
    }
    assert_eq!(out.len(), 6);
}

#[test]
fn cumulative_delta_prefix_sums() {
    // deltas 5, -2, 3 give the running sums 5, 3, 6.
    let mut cvd = CumulativeDeltaIndicator::new();
    cvd.on_finalized_candle(delta_candle(1, 5, 0));
    cvd.on_finalized_candle(delta_candle(2, 0, 2));
    cvd.on_finalized_candle(delta_candle(3, 3, 0));
    let out = cvd.output();
    assert_eq!(out.get(1), Some(5));
    assert_eq!(out.get(2), Some(3));
    assert_eq!(out.get(3), Some(6));
}

#[test]
fn cumulative_delta_revision_rewrites_only_last() {
    // Revising the last candle's delta to 10 turns 5, 3, 6 into
    // 5, 3, 13 without altering entries at earlier keys.
    let mut cvd = CumulativeDeltaIndicator::new();
    cvd.on_finalized_candle(delta_candle(1, 5, 0));
    cvd.on_finalized_candle(delta_candle(2, 0, 2));
    cvd.on_finalized_candle(delta_candle(3, 3, 0));
    cvd.on_open_candle_revision(delta_candle(3, 10, 0));
    let out = cvd.output();
    assert_eq!(out.get(1), Some(5));
    assert_eq!(out.get(2), Some(3));
    assert_eq!(out.get(3), Some(13));
    assert_eq!(out.len(), 3);
}

#[test]
fn duplicate_finalized_candle_is_dropped() {
    let mut sma = SMAIndicator::with_period(2);
    sma.on_finalized_candle(candle(1, 100));
    sma.on_finalized_candle(candle(2, 200));
    let before_len = sma.output().len();
    let before_val = sma.output().get(2);
    // Same key again, and an older key, with different closes: both are
    // dropped and nothing changes.
    sma.on_finalized_candle(candle(2, 900));
    sma.on_finalized_candle(candle(1, 900));
    assert_eq!(sma.output().len(), before_len);
    assert_eq!(sma.output().get(2), before_val);
    assert_eq!(sma.last_processed_key(), Some(2));
}

#[test]
fn batch_ingest_drops_out_of_order() {
    let mut ema = EMAIndicator::with_period(2);
    let batch = vec![
        candle(1, 100),
        candle(2, 200),
        candle(2, 900), // duplicate: dropped
        candle(3, 300),
    ];
    ema.on_finalized_batch(&batch);
    // seed at key 2: 1.5; key 3: (3.0 - 1.5) * 2/3 + 1.5 = 2.5.
    let out = ema.output();
    assert_eq!(out.get(2), Some(150));
    assert_eq!(out.get(3), Some(250));
    assert_eq!(out.len(), 2);
}
