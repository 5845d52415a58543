//! Rebuilding from sources, the renderer queries, the invalidation
//! throttle, and the indicator menus.

use kline_indicators::bollinger::BollingerIndicator;
use kline_indicators::candle::{Candle, Source};
use kline_indicators::cumulative_delta::CumulativeDeltaIndicator;
use kline_indicators::ema::EMAIndicator;
use kline_indicators::indicator::{
    HeatmapIndicator, Indicator, KlineIndicator, MarketKind, UiIndicator,
};
use kline_indicators::rsi::RSIIndicator;
use kline_indicators::sma::SMAIndicator;
use kline_indicators::throttle::InvalidationThrottle;

fn candle(key: u64, close: i128) -> Candle {
    Candle {
        key,
        close,
        buy_volume: 0,
        sell_volume: 0,
    }
}

fn delta_candle(key: u64, buy: i128, sell: i128) -> Candle {
    Candle {
        key,
        close: 0,
        buy_volume: buy,
        sell_volume: sell,
    }
}

fn sample_candles() -> Vec<Candle> {
    let closes = [500i128, 100, 900, 300, 700, 200, 800, 400, 600, 350];
    closes
        .iter()
        .enumerate()
        .map(|(i, c)| Candle {
            key: (i + 1) as u64,
            close: *c,
            buy_volume: (i as i128) * 3,
            sell_volume: 2,
        })
        .collect()
}

#[test]
fn rebuild_equals_incremental_feed() {
    let candles = sample_candles();
    let src = Source::TimeBased(candles.clone());

    let mut fed = SMAIndicator::with_period(3);
    for c in &candles {
        fed.on_finalized_candle(*c);
    }
    let mut rebuilt = SMAIndicator::with_period(3);
    rebuilt.rebuild(&src);

    assert_eq!(fed.output().len(), rebuilt.output().len());
    for i in 0..fed.output().len() {
        assert_eq!(fed.output().entry_at(i), rebuilt.output().entry_at(i));
    }

    let mut fed_rsi = RSIIndicator::with_period(3);
    for c in &candles {
        fed_rsi.on_finalized_candle(*c);
    }
    let mut rebuilt_rsi = RSIIndicator::with_period(3);
    rebuilt_rsi.rebuild(&src);
    assert_eq!(fed_rsi.output().len(), rebuilt_rsi.output().len());
    for i in 0..fed_rsi.output().len() {
        assert_eq!(fed_rsi.output().entry_at(i), rebuilt_rsi.output().entry_at(i));
    }

    let mut fed_bb = BollingerIndicator::with_period(3);
    for c in &candles {
        fed_bb.on_finalized_candle(*c);
    }
    let mut rebuilt_bb = BollingerIndicator::with_period(3);
    rebuilt_bb.rebuild(&src);
    assert_eq!(fed_bb.output().len(), rebuilt_bb.output().len());
    for i in 0..fed_bb.output().len() {
        assert_eq!(fed_bb.output().entry_at(i), rebuilt_bb.output().entry_at(i));
    }
}

#[test]
fn tick_based_source_keys_by_position() {
    // A position-keyed source ignores the stored keys: entries come out
    // at keys 0, 1, 2, ...
    let candles = vec![candle(77, 100), candle(99, 200), candle(11, 300)];
    let src = Source::TickBased(candles);
    let mut sma = SMAIndicator::with_period(2);
    sma.rebuild(&src);
    let out = sma.output();
    assert_eq!(out.get(0), None);
    assert_eq!(out.get(1), Some(150));
    assert_eq!(out.get(2), Some(250));
    assert_eq!(sma.last_processed_key(), Some(2));
}

#[test]
fn structural_change_rebuilds() {
    let candles = sample_candles();
    let src = Source::TimeBased(candles.clone());
    let mut ema = EMAIndicator::with_period(3);
    // Feed garbage first; the structural change must wipe it out.
    ema.on_finalized_candle(candle(1, 999));
    ema.on_finalized_candle(candle(2, 999));
    ema.on_finalized_candle(candle(3, 999));
    ema.on_structural_change(&src);

    let mut fresh = EMAIndicator::with_period(3);
    fresh.rebuild(&src);
    assert_eq!(ema.output().len(), fresh.output().len());
    for i in 0..ema.output().len() {
        assert_eq!(ema.output().entry_at(i), fresh.output().entry_at(i));
    }
}

#[test]
fn cumulative_rebuild_equals_feed() {
    let candles = vec![
        delta_candle(1, 5, 0),
        delta_candle(2, 0, 2),
        delta_candle(3, 3, 0),
        delta_candle(4, 1, 7),
    ];
    let src = Source::TimeBased(candles.clone());
    let mut fed = CumulativeDeltaIndicator::new();
    for c in &candles {
        fed.on_finalized_candle(*c);
    }
    let mut rebuilt = CumulativeDeltaIndicator::new();
    rebuilt.rebuild(&src);
    assert_eq!(fed.output().len(), rebuilt.output().len());
    for i in 0..fed.output().len() {
        assert_eq!(fed.output().entry_at(i), rebuilt.output().entry_at(i));
    }
    assert_eq!(rebuilt.output().get(4), Some(0));
}

#[test]
fn extent_over_visible_range() {
    let mut cvd = CumulativeDeltaIndicator::new();
    cvd.on_finalized_candle(delta_candle(1, 5, 0));
    cvd.on_finalized_candle(delta_candle(2, 0, 2));
    cvd.on_finalized_candle(delta_candle(3, 3, 0));
    // cumulative values 5, 3, 6.
    let out = cvd.output();
    assert_eq!(out.extent_in_range(1, 3), Some((3, 6)));
    assert_eq!(out.extent_in_range(2, 2), Some((3, 3)));
    assert_eq!(out.extent_in_range(1, 2), Some((3, 5)));
    assert_eq!(out.extent_in_range(10, 20), None);
}

#[test]
fn band_extent_over_visible_range() {
    let mut bb = BollingerIndicator::with_period(2);
    bb.on_finalized_candle(candle(1, 100));
    bb.on_finalized_candle(candle(2, 300));
    bb.on_finalized_candle(candle(3, 500));
    // bands: key 2 -> (400, 200, 0), key 3 -> (600, 400, 200).
    let out = bb.output();
    assert_eq!(out.band_extent_in_range(1, 3), Some((0, 600)));
    assert_eq!(out.band_extent_in_range(3, 3), Some((200, 600)));
    assert_eq!(out.band_extent_in_range(1, 1), None);
}

#[test]
fn throttle_gates_by_elapsed_time() {
    let mut t = InvalidationThrottle::new();
    // The first event always invalidates.
    assert!(t.on_event(1000));
    // Within the 200 ms window nothing happens.
    assert!(!t.on_event(1100));
    assert!(!t.on_event(1199));
    // At the boundary it fires again.
    assert!(t.on_event(1200));
    // A forced invalidation resets the clock.
    t.force(1300);
    assert!(!t.on_event(1350));
    assert!(t.on_event(1500));
    // A clock that runs backwards never underflows.
    assert!(!t.on_event(100));
}

#[test]
fn kline_indicators_per_market() {
    let spot = KlineIndicator::for_market(MarketKind::Spot);
    assert_eq!(
        spot,
        vec![
            KlineIndicator::Volume,
            KlineIndicator::SMA,
            KlineIndicator::EMA,
            KlineIndicator::Bollinger,
            KlineIndicator::RSI,
        ]
    );
    let perps = KlineIndicator::for_market(MarketKind::LinearPerps);
    assert_eq!(perps.len(), 6);
    assert!(perps.contains(&KlineIndicator::OpenInterest));
    let inverse = KlineIndicator::for_market(MarketKind::InversePerps);
    assert_eq!(perps, inverse);
}

#[test]
fn overlay_flags() {
    assert!(KlineIndicator::SMA.is_overlay());
    assert!(KlineIndicator::EMA.is_overlay());
    assert!(KlineIndicator::Bollinger.is_overlay());
    assert!(!KlineIndicator::Volume.is_overlay());
    assert!(!KlineIndicator::OpenInterest.is_overlay());
    assert!(!KlineIndicator::RSI.is_overlay());
    assert!(!HeatmapIndicator::Volume.is_overlay());
}

#[test]
fn indicator_labels() {
    assert_eq!(KlineIndicator::Volume.label(), "Volume");
    assert_eq!(KlineIndicator::OpenInterest.label(), "Open Interest");
    assert_eq!(KlineIndicator::SMA.label(), "SMA");
    assert_eq!(KlineIndicator::EMA.label(), "EMA");
    assert_eq!(KlineIndicator::Bollinger.label(), "Bollinger Bands");
    assert_eq!(KlineIndicator::RSI.label(), "RSI");
    assert_eq!(HeatmapIndicator::Volume.label(), "Volume");
}

#[test]
fn ui_indicator_wraps_both_families() {
    let k = UiIndicator::from(KlineIndicator::RSI);
    assert!(matches!(k, UiIndicator::Kline(KlineIndicator::RSI)));
    let h = UiIndicator::from(HeatmapIndicator::Volume);
    assert!(matches!(h, UiIndicator::Heatmap(HeatmapIndicator::Volume)));
    let heatmaps = HeatmapIndicator::for_market(MarketKind::Spot);
    assert_eq!(heatmaps, vec![HeatmapIndicator::Volume]);
}
