//! The closed set of indicator kinds a chart can show, and which of them
//! are offered for each kind of market.

use vstd::prelude::*;

verus! {

/// The kinds of market a ticker can belong to.
#[derive(Clone, Copy, PartialEq, Eq, Structural, Debug)]
pub enum MarketKind {
    Spot,
    LinearPerps,
    InversePerps,
}

/// A family of chart indicators: which members are offered for a market,
/// and whether a member draws over the main chart or in a row of its own.
pub trait Indicator: Sized {
    /// The members offered for `market`, in menu order.
    spec fn spec_for_market(market: MarketKind) -> Seq<Self>;

    /// Whether the member is drawn over the main chart.
    spec fn spec_overlay(self) -> bool;

    fn for_market(market: MarketKind) -> (r: Vec<Self>)
        ensures
            r@ == Self::spec_for_market(market),
    ;

    fn is_overlay(&self) -> (r: bool)
        ensures
            r == self.spec_overlay(),
    ;
}

/// The indicators of a candlestick chart.
#[derive(Clone, Copy, PartialEq, Eq, Structural, Debug)]
pub enum KlineIndicator {
    Volume,
    OpenInterest,
    SMA,
    EMA,
    Bollinger,
    RSI,
}

impl Indicator for KlineIndicator {
    /// Every member is offered for both market families; open interest
    /// exists only on perpetual swap markets.
    open spec fn spec_for_market(market: MarketKind) -> Seq<KlineIndicator> {
        match market {
            MarketKind::Spot => seq![
                KlineIndicator::Volume,
                KlineIndicator::SMA,
                KlineIndicator::EMA,
                KlineIndicator::Bollinger,
                KlineIndicator::RSI,
            ],
            MarketKind::LinearPerps | MarketKind::InversePerps => seq![
                KlineIndicator::Volume,
                KlineIndicator::OpenInterest,
                KlineIndicator::SMA,
                KlineIndicator::EMA,
                KlineIndicator::Bollinger,
                KlineIndicator::RSI,
            ],
        }
    }

    open spec fn spec_overlay(self) -> bool {
        self is SMA || self is EMA || self is Bollinger
    }

    fn for_market(market: MarketKind) -> (r: Vec<KlineIndicator>)
        ensures
            r@ == Self::spec_for_market(market),
    {
        let mut v: Vec<KlineIndicator> = Vec::new();
        v.push(KlineIndicator::Volume);
        match market {
            MarketKind::Spot => {},
            MarketKind::LinearPerps | MarketKind::InversePerps => {
                v.push(KlineIndicator::OpenInterest);
            },
        }
        v.push(KlineIndicator::SMA);
        v.push(KlineIndicator::EMA);
        v.push(KlineIndicator::Bollinger);
        v.push(KlineIndicator::RSI);
        proof {
            assert(v@ =~= Self::spec_for_market(market));
        }
        v
    }

    fn is_overlay(&self) -> (r: bool)
        ensures
            r == self.spec_overlay(),
    {
        match self {
            KlineIndicator::SMA | KlineIndicator::EMA | KlineIndicator::Bollinger => true,
            _ => false,
        }
    }
}

impl KlineIndicator {
    /// The display name of the indicator.
    pub fn label(&self) -> (r: &'static str)
        ensures
            self is Volume ==> r@ == "Volume"@,
            self is OpenInterest ==> r@ == "Open Interest"@,
            self is SMA ==> r@ == "SMA"@,
            self is EMA ==> r@ == "EMA"@,
            self is Bollinger ==> r@ == "Bollinger Bands"@,
            self is RSI ==> r@ == "RSI"@,
    {
        match self {
            KlineIndicator::Volume => "Volume",
            KlineIndicator::OpenInterest => "Open Interest",
            KlineIndicator::SMA => "SMA",
            KlineIndicator::EMA => "EMA",
            KlineIndicator::Bollinger => "Bollinger Bands",
            KlineIndicator::RSI => "RSI",
        }
    }
}

/// The indicators of a heatmap chart.
#[derive(Clone, Copy, PartialEq, Eq, Structural, Debug)]
pub enum HeatmapIndicator {
    Volume,
}

impl Indicator for HeatmapIndicator {
    open spec fn spec_for_market(market: MarketKind) -> Seq<HeatmapIndicator> {
        seq![HeatmapIndicator::Volume]
    }

    open spec fn spec_overlay(self) -> bool {
        false
    }

    fn for_market(market: MarketKind) -> (r: Vec<HeatmapIndicator>)
        ensures
            r@ == Self::spec_for_market(market),
    {
        let mut v: Vec<HeatmapIndicator> = Vec::new();
        v.push(HeatmapIndicator::Volume);
        proof {
            assert(v@ =~= Self::spec_for_market(market));
        }
        v
    }

    fn is_overlay(&self) -> (r: bool)
        ensures
            r == self.spec_overlay(),
    {
        false
    }
}

impl HeatmapIndicator {
    /// The display name of the indicator.
    pub fn label(&self) -> (r: &'static str)
        ensures
            r@ == "Volume"@,
    {
        match self {
            HeatmapIndicator::Volume => "Volume",
        }
    }
}

/// Any indicator kind the user interface can refer to, across chart types.
#[derive(Clone, Copy, Debug)]
pub enum UiIndicator {
    Heatmap(HeatmapIndicator),
    Kline(KlineIndicator),
}

impl From<KlineIndicator> for UiIndicator {
    fn from(k: KlineIndicator) -> (r: Self) {
        UiIndicator::Kline(k)
    }
}

impl vstd::std_specs::convert::FromSpecImpl<KlineIndicator> for UiIndicator {
    open spec fn obeys_from_spec() -> bool {
        true
    }

    open spec fn from_spec(k: KlineIndicator) -> Self {
        UiIndicator::Kline(k)
    }
}

impl From<HeatmapIndicator> for UiIndicator {
    fn from(h: HeatmapIndicator) -> (r: Self) {
        UiIndicator::Heatmap(h)
    }
}

impl vstd::std_specs::convert::FromSpecImpl<HeatmapIndicator> for UiIndicator {
    open spec fn obeys_from_spec() -> bool {
        true
    }

    open spec fn from_spec(h: HeatmapIndicator) -> Self {
        UiIndicator::Heatmap(h)
    }
}

} // verus!
