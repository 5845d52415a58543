//! Simple moving average over a fixed window of closes.
//!
//! The engine keeps the last `period` accepted closes and their running sum.
//! A new close enters the window and, once the window is full, evicts the
//! oldest one; the output value is the truncating mean `sum / period`.  A
//! revision of the open candle replaces the last window entry and adjusts
//! the sum by the difference.

use vstd::prelude::*;

verus! {

use crate::arith::{
    div_trunc, lemma_div_trunc_mean_bound, lemma_sum_bounds, lemma_sums_drop_first,
    lemma_sums_update_last, sum_seq,
};
use crate::candle::{
    accepts, candles_wf, lemma_candles_wf_drop_last, Candle, PERIOD_LIMIT, PRICE_LIMIT, Source,
};
use crate::series::{
    keys_at_most, keys_increasing, lemma_pruned, lemma_upserted_sorted, out_keys_ok, pruned,
    upserted, Series,
};
use vstd::math::abs;

/// Default window length.
pub const SMA_PERIOD: usize = 50;

/// Abstract state of the engine: the window of recent closes, their sum,
/// the last processed key, and the output series.
#[verifier::ext_equal]
pub ghost struct SmaModel {
    pub period: int,
    pub window: Seq<int>,
    pub sum: int,
    pub last_key: Option<u64>,
    pub out: Seq<(u64, i128)>,
}

/// The state of a freshly constructed engine.
pub open spec fn sma_init(period: int) -> SmaModel {
    SmaModel {
        period,
        window: Seq::empty(),
        sum: 0,
        last_key: Option::None,
        out: Seq::empty(),
    }
}

/// Well-formedness: bounded window in sync with its sum, sorted output
/// whose entries are finalized except for at most a tentative tail.
pub open spec fn sma_wf(m: SmaModel) -> bool {
    &&& 1 <= m.period <= PERIOD_LIMIT
    &&& m.window.len() <= m.period
    &&& m.sum == sum_seq(m.window)
    &&& forall|i: int| 0 <= i < m.window.len() ==> abs(m.window[i]) <= PRICE_LIMIT as int
    &&& keys_increasing(m.out)
    &&& out_keys_ok(m.out, m.last_key)
    &&& (m.last_key is None <==> m.window.len() == 0)
}

/// The output value for a full window summing to `sum`.
pub open spec fn sma_value(sum: int, period: int) -> i128 {
    div_trunc(sum, period) as i128
}

/// Ingesting one finalized candle: push the close, evict the oldest close
/// of a full window, drop any tentative output entry, and emit
/// `sum / period` once the window is full.
pub open spec fn sma_ingest(m: SmaModel, c: Candle) -> SmaModel {
    let evict = m.window.len() >= m.period;
    let w0 = if evict {
        m.window.drop_first()
    } else {
        m.window
    };
    let s0 = if evict {
        m.sum - m.window[0]
    } else {
        m.sum
    };
    let w = w0.push(c.close as int);
    let s = s0 + c.close;
    let base = pruned(m.out, m.last_key);
    let out = if w.len() >= m.period {
        upserted(base, c.key, sma_value(s, m.period))
    } else {
        base
    };
    SmaModel { period: m.period, window: w, sum: s, last_key: Option::Some(c.key), out }
}

/// One finalized-candle event: ingest if the key advances, drop otherwise.
pub open spec fn sma_feed(m: SmaModel, c: Candle) -> SmaModel {
    if accepts(m.last_key, c.key) {
        sma_ingest(m, c)
    } else {
        m
    }
}

/// Feeding a whole batch of finalized candles, in order.
pub open spec fn sma_feed_all(m: SmaModel, cs: Seq<Candle>) -> SmaModel
    decreases cs.len(),
{
    if cs.len() == 0 {
        m
    } else {
        sma_feed(sma_feed_all(m, cs.drop_last()), cs.last())
    }
}

/// Replaying a source from scratch: every candle is ingested in order.
pub open spec fn sma_replay(cs: Seq<Candle>, period: int) -> SmaModel
    decreases cs.len(),
{
    if cs.len() == 0 {
        sma_init(period)
    } else {
        sma_ingest(sma_replay(cs.drop_last(), period), cs.last())
    }
}

/// An open-candle revision.  A key beyond the last processed one writes the
/// value the candle would produce if ingested, without touching the
/// accumulator; the last processed key itself is revised in place; an older
/// key is ignored.
pub open spec fn sma_revise(m: SmaModel, c: Candle) -> SmaModel {
    if accepts(m.last_key, c.key) {
        SmaModel { out: sma_ingest(m, c).out, ..m }
    } else if m.last_key == Option::Some(c.key) {
        let w = m.window.update(m.window.len() - 1, c.close as int);
        let s = m.sum - m.window.last() + c.close;
        let base = pruned(m.out, m.last_key);
        let out = if w.len() >= m.period {
            upserted(base, c.key, sma_value(s, m.period))
        } else {
            base
        };
        SmaModel { period: m.period, window: w, sum: s, last_key: m.last_key, out }
    } else {
        m
    }
}

pub proof fn lemma_sma_ingest_wf(m: SmaModel, c: Candle)
    requires
        sma_wf(m),
        c.ok(),
        accepts(m.last_key, c.key),
    ensures
        sma_wf(sma_ingest(m, c)),
{
    let r = sma_ingest(m, c);
    let evict = m.window.len() >= m.period;
    let w0 = if evict {
        m.window.drop_first()
    } else {
        m.window
    };
    if evict {
        lemma_sums_drop_first(m.window);
    }
    assert(r.window.drop_last() =~= w0);
    assert(r.sum == sum_seq(r.window));
    assert forall|i: int| 0 <= i < r.window.len() implies abs(r.window[i]) <= PRICE_LIMIT as int by {
        if i < r.window.len() - 1 {
            if evict {
                assert(r.window[i] == m.window[i + 1]);
            } else {
                assert(r.window[i] == m.window[i]);
            }
        }
    }
    let base = pruned(m.out, m.last_key);
    lemma_pruned(m.out, m.last_key);
    assert(keys_at_most(base, c.key)) by {
        match m.last_key {
            Option::None => {},
            Option::Some(k) => {
                assert(keys_at_most(base, k));
                assert(forall|i: int| 0 <= i < base.len() ==> (#[trigger] base[i]).0 <= k < c.key);
            },
        }
    }
    if r.window.len() >= m.period {
        lemma_upserted_sorted(base, c.key, sma_value(r.sum, m.period));
    }
    assert(keys_at_most(r.out, c.key));
}

/// The replayed state is well formed, remembers the last key, and keeps the
/// period it was built with.
pub proof fn lemma_sma_replay_basics(cs: Seq<Candle>, period: int)
    requires
        1 <= period <= PERIOD_LIMIT,
        candles_wf(cs),
    ensures
        sma_wf(sma_replay(cs, period)),
        sma_replay(cs, period).period == period,
        sma_replay(cs, period).last_key == if cs.len() == 0 {
            Option::<u64>::None
        } else {
            Option::Some(cs.last().key)
        },
    decreases cs.len(),
{
    if cs.len() > 0 {
        lemma_candles_wf_drop_last(cs);
        lemma_sma_replay_basics(cs.drop_last(), period);
        let prev = sma_replay(cs.drop_last(), period);
        if cs.len() > 1 {
            assert(cs.drop_last().last() == cs[cs.len() - 2]);
            assert(cs[cs.len() - 2].key < cs.last().key);
        }
        assert(accepts(prev.last_key, cs.last().key));
        assert(cs.last().ok());
        lemma_sma_ingest_wf(prev, cs.last());
    }
}

/// Rebuild equivalence: replaying a well-formed source from the initial
/// state equals feeding the same candles one at a time through the
/// finalized-candle event.
pub proof fn lemma_sma_rebuild_equivalence(cs: Seq<Candle>, period: int)
    requires
        1 <= period <= PERIOD_LIMIT,
        candles_wf(cs),
    ensures
        sma_feed_all(sma_init(period), cs) == sma_replay(cs, period),
    decreases cs.len(),
{
    if cs.len() > 0 {
        lemma_candles_wf_drop_last(cs);
        lemma_sma_rebuild_equivalence(cs.drop_last(), period);
        lemma_sma_replay_basics(cs.drop_last(), period);
        let prev = sma_replay(cs.drop_last(), period);
        if cs.len() > 1 {
            assert(cs.drop_last().last() == cs[cs.len() - 2]);
            assert(cs[cs.len() - 2].key < cs.last().key);
        }
        assert(accepts(prev.last_key, cs.last().key));
    }
}

/// Revision non-drift: revising the open candle twice with the same
/// contents is the same as revising it once.
pub proof fn lemma_sma_revision_idempotent(m: SmaModel, c: Candle)
    requires
        sma_wf(m),
        c.ok(),
    ensures
        sma_revise(sma_revise(m, c), c) == sma_revise(m, c),
{
    let m1 = sma_revise(m, c);
    let base = pruned(m.out, m.last_key);
    lemma_pruned(m.out, m.last_key);
    if accepts(m.last_key, c.key) {
        let w = if m.window.len() >= m.period {
            m.window.drop_first().push(c.close as int)
        } else {
            m.window.push(c.close as int)
        };
        let v = sma_value(sma_ingest(m, c).sum, m.period);
        assert(keys_at_most(base, c.key)) by {
            match m.last_key {
                Option::None => {},
                Option::Some(k) => {
                    assert(forall|i: int| 0 <= i < base.len() ==> (#[trigger] base[i]).0 <= k < c.key);
                },
            }
        }
        if w.len() >= m.period {
            lemma_upserted_sorted(base, c.key, v);
            assert(m1.out.len() > 0 && m1.out.last().0 == c.key);
            assert(pruned(m1.out, m.last_key) =~= base);
            assert(upserted(base, c.key, v) =~= m1.out);
        } else {
            assert(m1.out == base);
            assert(pruned(m1.out, m.last_key) =~= base);
        }
        assert(sma_revise(m1, c) =~= m1);
    } else if m.last_key == Option::Some(c.key) {
        let k = c.key;
        assert(keys_at_most(base, k));
        let w1 = m.window.update(m.window.len() - 1, c.close as int);
        assert(w1.last() == c.close as int);
        assert(m1.sum - w1.last() + c.close == m1.sum);
        assert(m1.window.update(m1.window.len() - 1, c.close as int) =~= w1);
        if w1.len() >= m.period {
            let v = sma_value(m1.sum, m.period);
            lemma_upserted_sorted(base, k, v);
            assert(m1.out.len() > 0 && m1.out.last().0 == k);
            assert(!accepts(m.last_key, m1.out.last().0));
            assert(pruned(m1.out, m.last_key) == m1.out);
            assert(upserted(m1.out, k, v) =~= m1.out);
        } else {
            assert(m1.out == base);
            assert(pruned(m1.out, m.last_key) =~= base);
        }
        assert(sma_revise(m1, c) =~= m1);
    }
}

/// The simple-moving-average engine.
pub struct SMAIndicator {
    period: usize,
    window: Vec<i128>,
    sum: i128,
    last_key: Option<u64>,
    data: Series<i128>,
}

impl View for SMAIndicator {
    type V = SmaModel;

    closed spec fn view(&self) -> SmaModel {
        SmaModel {
            period: self.period as int,
            window: self.window@.map_values(|x: i128| x as int),
            sum: self.sum as int,
            last_key: self.last_key,
            out: self.data@,
        }
    }
}

impl SMAIndicator {
    pub open spec fn wf(self) -> bool {
        sma_wf(self@)
    }

    /// An engine with the default window length.
    pub fn new() -> (s: Self)
        ensures
            s.wf(),
            s@ == sma_init(SMA_PERIOD as int),
    {
        Self::with_period(SMA_PERIOD)
    }

    /// An engine with window length `period`.
    pub fn with_period(period: usize) -> (s: Self)
        requires
            1 <= period <= PERIOD_LIMIT,
        ensures
            s.wf(),
            s@ == sma_init(period as int),
    {
        let s = SMAIndicator {
            period,
            window: Vec::new(),
            sum: 0,
            last_key: Option::None,
            data: Series::new(),
        };
        proof {
            assert(s@ =~= sma_init(period as int));
        }
        s
    }

    /// The output series, for read-only consumption.
    pub fn output(&self) -> (r: &Series<i128>)
        requires
            self.wf(),
        ensures
            r@ == self@.out,
            r.wf(),
    {
        &self.data
    }

    /// The key of the last processed candle.
    pub fn last_processed_key(&self) -> (r: Option<u64>)
        ensures
            r == self@.last_key,
    {
        self.last_key
    }

    /// Ingest one candle known to advance the key.
    fn ingest_step(&mut self, c: Candle)
        requires
            old(self).wf(),
            c.ok(),
            accepts(old(self)@.last_key, c.key),
        ensures
            final(self).wf(),
            final(self)@ == sma_ingest(old(self)@, c),
    {
        proof {
            lemma_sma_ingest_wf(old(self)@, c);
            lemma_sum_bounds(self@.window, PRICE_LIMIT as int);
        }
        self.data.drop_tentative(self.last_key);
        if self.window.len() >= self.period {
            let evicted = self.window.remove(0);
            proof {
                lemma_sums_drop_first(old(self)@.window);
                assert(self@.window =~= old(self)@.window.drop_first());
            }
            self.sum = self.sum - evicted + c.close;
        } else {
            self.sum = self.sum + c.close;
        }
        self.window.push(c.close);
        self.last_key = Option::Some(c.key);
        proof {
            assert(self@.window =~= sma_ingest(old(self)@, c).window);
        }
        if self.window.len() >= self.period {
            proof {
                lemma_sum_bounds(self@.window, PRICE_LIMIT as int);
                lemma_div_trunc_mean_bound(self@.sum, self@.period, PRICE_LIMIT as int);
                lemma_pruned(old(self)@.out, old(self)@.last_key);
                match old(self)@.last_key {
                    Option::None => {},
                    Option::Some(k) => {
                        assert(forall|i: int|
                            0 <= i < self@.out.len() ==> (#[trigger] self@.out[i]).0 <= k < c.key);
                    },
                }
            }
            let v = self.sum / (self.period as i128);
            self.data.upsert_at_end(c.key, v);
        }
        proof {
            assert(self@ =~= sma_ingest(old(self)@, c));
        }
    }

    /// A newly finalized candle arrived.  A key at or before the last
    /// processed one is dropped with the whole state untouched.
    pub fn on_finalized_candle(&mut self, c: Candle)
        requires
            old(self).wf(),
            c.ok(),
        ensures
            final(self).wf(),
            final(self)@ == sma_feed(old(self)@, c),
            !accepts(old(self)@.last_key, c.key) ==> *final(self) == *old(self),
    {
        if let Option::Some(k) = self.last_key {
            if c.key <= k {
                return ;
            }
        }
        self.ingest_step(c);
    }

    /// A batch of finalized candles arrived.
    pub fn on_finalized_batch(&mut self, candles: &Vec<Candle>)
        requires
            old(self).wf(),
            forall|i: int| 0 <= i < candles@.len() ==> candles@[i].ok(),
        ensures
            final(self).wf(),
            final(self)@ == sma_feed_all(old(self)@, candles@),
    {
        let n = candles.len();
        let mut i: usize = 0;
        proof {
            assert(candles@.take(0) =~= Seq::<Candle>::empty());
        }
        while i < n
            invariant
                i <= n,
                n == candles@.len(),
                forall|j: int| 0 <= j < candles@.len() ==> candles@[j].ok(),
                self.wf(),
                self@ == sma_feed_all(old(self)@, candles@.take(i as int)),
            decreases n - i,
        {
            self.on_finalized_candle(candles[i]);
            proof {
                assert(candles@.take(i + 1).drop_last() =~= candles@.take(i as int));
                assert(candles@.take(i + 1).last() == candles@[i as int]);
            }
            i = i + 1;
        }
        proof {
            assert(candles@.take(n as int) =~= candles@);
        }
    }

    /// The still-open candle changed.  The accumulator of finalized history
    /// is only touched when the revised key is the last processed one, and
    /// then in place; entries at earlier keys are never altered.
    pub fn on_open_candle_revision(&mut self, c: Candle)
        requires
            old(self).wf(),
            c.ok(),
        ensures
            final(self).wf(),
            final(self)@ == sma_revise(old(self)@, c),
    {
        let is_new = match self.last_key {
            Option::None => true,
            Option::Some(k) => c.key > k,
        };
        if is_new {
            proof {
                lemma_sum_bounds(self@.window, PRICE_LIMIT as int);
                lemma_sma_ingest_wf(self@, c);
                lemma_pruned(self@.out, self@.last_key);
            }
            self.data.drop_tentative(self.last_key);
            proof {
                match old(self)@.last_key {
                    Option::None => {},
                    Option::Some(k) => {
                        assert(forall|i: int|
                            0 <= i < self@.out.len() ==> (#[trigger] self@.out[i]).0 <= k < c.key);
                    },
                }
            }
            let mut s = self.sum + c.close;
            if self.window.len() >= self.period {
                s = s - self.window[0];
                proof {
                    lemma_sums_drop_first(old(self)@.window);
                }
            }
            if self.window.len() + 1 >= self.period || self.window.len() >= self.period {
                proof {
                    let t = sma_ingest(old(self)@, c);
                    assert(t.window.drop_last() =~= if old(self)@.window.len()
                        >= old(self)@.period {
                        old(self)@.window.drop_first()
                    } else {
                        old(self)@.window
                    });
                    assert(s == t.sum);
                    lemma_sum_bounds(t.window, PRICE_LIMIT as int);
                    lemma_div_trunc_mean_bound(t.sum, old(self)@.period, PRICE_LIMIT as int);
                }
                let v = s / (self.period as i128);
                self.data.upsert_at_end(c.key, v);
            }
            proof {
                assert(self@.window =~= old(self)@.window);
                assert(self@ =~= sma_revise(old(self)@, c));
            }
        } else if let Option::Some(k) = self.last_key {
            if k == c.key {
                proof {
                    lemma_sum_bounds(self@.window, PRICE_LIMIT as int);
                    lemma_pruned(self@.out, self@.last_key);
                }
                self.data.drop_tentative(self.last_key);
                let idx = self.window.len() - 1;
                let old_last = self.window[idx];
                self.window[idx] = c.close;
                self.sum = self.sum - old_last + c.close;
                proof {
                    lemma_sums_update_last(old(self)@.window, c.close as int);
                    assert(self@.window =~= old(self)@.window.update(
                        old(self)@.window.len() - 1,
                        c.close as int,
                    ));
                    assert(self@.sum == sum_seq(self@.window));
                }
                if self.window.len() >= self.period {
                    proof {
                        assert(forall|i: int|
                            0 <= i < self@.window.len() ==> abs(self@.window[i])
                                <= PRICE_LIMIT as int);
                        lemma_sum_bounds(self@.window, PRICE_LIMIT as int);
                        lemma_div_trunc_mean_bound(self@.sum, self@.period, PRICE_LIMIT as int);
                        lemma_upserted_sorted(
                            self@.out,
                            c.key,
                            sma_value(self@.sum, self@.period),
                        );
                    }
                    let v = self.sum / (self.period as i128);
                    self.data.upsert_at_end(c.key, v);
                }
                proof {
                    assert(self@ =~= sma_revise(old(self)@, c));
                }
            }
        }
    }

    /// Clear all state and replay the whole source through the
    /// finalized-candle path.
    pub fn rebuild(&mut self, src: &Source)
        requires
            old(self).wf(),
            src.wf(),
        ensures
            final(self).wf(),
            final(self)@ == sma_replay(src.candles(), old(self)@.period),
    {
        let ghost period = self@.period;
        let ghost cs = src.candles();
        self.window.clear();
        self.sum = 0;
        self.last_key = Option::None;
        self.data.clear();
        proof {
            assert(self@ =~= sma_init(period));
            assert(cs.take(0) =~= Seq::<Candle>::empty());
        }
        match src {
            Source::TimeBased(v) => {
                let n = v.len();
                let mut i: usize = 0;
                while i < n
                    invariant
                        i <= n,
                        n == cs.len(),
                        cs == src.candles(),
                        src.wf(),
                        src is TimeBased,
                        v@ == cs,
                        self.wf(),
                        self@.period == period,
                        1 <= period <= PERIOD_LIMIT,
                        self@ == sma_replay(cs.take(i as int), period),
                    decreases n - i,
                {
                    proof {
                        assert(candles_wf(cs.take(i as int)));
                        lemma_sma_replay_basics(cs.take(i as int), period);
                        if i > 0 {
                            assert(cs.take(i as int).last() == cs[i - 1]);
                            assert(cs[i - 1].key < cs[i as int].key);
                        }
                    }
                    self.ingest_step(v[i]);
                    proof {
                        assert(cs.take(i + 1).drop_last() =~= cs.take(i as int));
                        assert(cs.take(i + 1).last() == cs[i as int]);
                    }
                    i = i + 1;
                }
                proof {
                    assert(cs.take(n as int) =~= cs);
                }
            },
            Source::TickBased(v) => {
                let n = v.len();
                let mut i: usize = 0;
                while i < n
                    invariant
                        i <= n,
                        n == cs.len(),
                        cs == src.candles(),
                        src.wf(),
                        src is TickBased,
                        v@.len() == cs.len(),
                        forall|j: int| 0 <= j < cs.len() ==> cs[j] == (Candle {
                            key: j as u64,
                            close: v@[j].close,
                            buy_volume: v@[j].buy_volume,
                            sell_volume: v@[j].sell_volume,
                        }),
                        self.wf(),
                        self@.period == period,
                        1 <= period <= PERIOD_LIMIT,
                        self@ == sma_replay(cs.take(i as int), period),
                    decreases n - i,
                {
                    proof {
                        assert(candles_wf(cs.take(i as int)));
                        lemma_sma_replay_basics(cs.take(i as int), period);
                        if i > 0 {
                            assert(cs.take(i as int).last() == cs[i - 1]);
                            assert(cs[i - 1].key < cs[i as int].key);
                        }
                    }
                    let dp = v[i];
                    let c = Candle {
                        key: i as u64,
                        close: dp.close,
                        buy_volume: dp.buy_volume,
                        sell_volume: dp.sell_volume,
                    };
                    proof {
                        assert(c == cs[i as int]);
                    }
                    self.ingest_step(c);
                    proof {
                        assert(cs.take(i + 1).drop_last() =~= cs.take(i as int));
                        assert(cs.take(i + 1).last() == cs[i as int]);
                    }
                    i = i + 1;
                }
                proof {
                    assert(cs.take(n as int) =~= cs);
                }
            },
        }
    }

    /// A ticksize or aggregation-basis change invalidates every candle:
    /// equivalent to a full rebuild.
    pub fn on_structural_change(&mut self, src: &Source)
        requires
            old(self).wf(),
            src.wf(),
        ensures
            final(self).wf(),
            final(self)@ == sma_replay(src.candles(), old(self)@.period),
    {
        self.rebuild(src);
    }
}

} // verus!
