//! The candle data model and the two shapes of candle source.

use vstd::prelude::*;

verus! {

/// Bound on the magnitude of a fixed-point close price: `2^56`.  Small
/// enough that a full window of squared closes stays inside `i128`.
pub const PRICE_LIMIT: i128 = 72057594037927936;

/// Bound on a single candle's buy or sell volume: `2^56`.
pub const VOLUME_LIMIT: i128 = 72057594037927936;

/// Largest window length an engine accepts.
pub const PERIOD_LIMIT: usize = 64;

/// One OHLCV bar, reduced to the fields the indicators read.  Values are
/// fixed-point integers in a scale the caller picks; `key` is a timestamp
/// for time-keyed sources and a dense index for position-keyed ones.
#[derive(Clone, Copy, PartialEq, Eq, Structural, Debug)]
pub struct Candle {
    pub key: u64,
    pub close: i128,
    pub buy_volume: i128,
    pub sell_volume: i128,
}

impl Candle {
    /// Field bounds under which every engine's arithmetic stays in range.
    pub open spec fn ok(self) -> bool {
        &&& -PRICE_LIMIT <= self.close <= PRICE_LIMIT
        &&& 0 <= self.buy_volume <= VOLUME_LIMIT
        &&& 0 <= self.sell_volume <= VOLUME_LIMIT
    }

    /// Buy volume minus sell volume.
    pub open spec fn delta(self) -> int {
        self.buy_volume - self.sell_volume
    }
}

/// A finalized candle is accepted only when its key is beyond every key
/// processed so far; duplicates and out-of-order keys are dropped.
pub open spec fn accepts(last: Option<u64>, key: u64) -> bool {
    match last {
        Option::None => true,
        Option::Some(k) => key > k,
    }
}

/// A well-formed stream of candles: bounded fields, strictly increasing keys.
pub open spec fn candles_wf(cs: Seq<Candle>) -> bool {
    &&& forall|i: int| 0 <= i < cs.len() ==> cs[i].ok()
    &&& forall|i: int, j: int| 0 <= i < j < cs.len() ==> cs[i].key < cs[j].key
}

pub proof fn lemma_candles_wf_drop_last(cs: Seq<Candle>)
    requires
        candles_wf(cs),
        cs.len() > 0,
    ensures
        candles_wf(cs.drop_last()),
{
}

/// A snapshot of candle history, in one of the two shapes sources come in:
/// keyed by timestamp, or keyed by position with keys implied by order.
pub enum Source {
    TimeBased(Vec<Candle>),
    TickBased(Vec<Candle>),
}

impl Source {
    /// The candles of the snapshot in key order.  A position-keyed source
    /// gets its index stamped into each candle's `key`.
    pub open spec fn candles(self) -> Seq<Candle> {
        match self {
            Source::TimeBased(v) => v@,
            Source::TickBased(v) => Seq::new(
                v@.len(),
                |i: int|
                    Candle {
                        key: i as u64,
                        close: v@[i].close,
                        buy_volume: v@[i].buy_volume,
                        sell_volume: v@[i].sell_volume,
                    },
            ),
        }
    }

    /// Bounded fields and strictly increasing keys.  For a position-keyed
    /// source the key order holds by construction, so only the field bounds
    /// of the stored candles matter.
    pub open spec fn wf(self) -> bool {
        candles_wf(self.candles())
    }
}

} // verus!
