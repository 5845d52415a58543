//! Exponential moving average.
//!
//! The first `period` closes accumulate into a plain sum; the `period`-th
//! close turns their mean into the seed value, which becomes the first
//! output entry.  Every later finalized close advances the recurrence
//! `next = prev + (price - prev) * 2 / (period + 1)`.  A revision of the
//! open candle applies the recurrence against the value of the previous,
//! truly finalized candle — looked up in the output series — so repeated
//! revisions never compound.

use vstd::prelude::*;

verus! {

use crate::arith::{ema_step, div_trunc, lemma_div_trunc_mean_bound, lemma_ema_step_between};
use crate::candle::{
    accepts, candles_wf, lemma_candles_wf_drop_last, Candle, PERIOD_LIMIT, PRICE_LIMIT, Source,
};
use crate::series::{
    keys_at_most, keys_increasing, lemma_pruned, lemma_upserted_sorted, out_keys_ok, pruned,
    upserted, Series,
};
use vstd::math::abs;

/// Default smoothing period.
pub const EMA_PERIOD: usize = 20;

/// Abstract state of the engine.
#[verifier::ext_equal]
pub ghost struct EmaModel {
    pub period: int,
    /// Finalized candles counted so far, saturating at `period`.
    pub seen: int,
    /// Sum of the first closes, meaningful while `seen < period`.
    pub init_sum: int,
    /// The smoothed value after the last finalized candle.
    pub last_ema: Option<i128>,
    pub last_key: Option<u64>,
    pub out: Seq<(u64, i128)>,
}

pub open spec fn ema_init(period: int) -> EmaModel {
    EmaModel {
        period,
        seen: 0,
        init_sum: 0,
        last_ema: Option::None,
        last_key: Option::None,
        out: Seq::empty(),
    }
}

/// Every stored output value is a bounded smoothed close.
pub open spec fn out_values_bounded(s: Seq<(u64, i128)>) -> bool {
    forall|i: int| 0 <= i < s.len() ==> abs((#[trigger] s[i]).1 as int) <= PRICE_LIMIT as int
}

pub open spec fn ema_wf(m: EmaModel) -> bool {
    &&& 1 <= m.period <= PERIOD_LIMIT
    &&& 0 <= m.seen <= m.period
    &&& (m.seen < m.period ==> abs(m.init_sum) <= m.seen * PRICE_LIMIT)
    &&& (m.seen >= m.period ==> m.last_ema is Some)
    &&& (match m.last_ema {
        Option::None => true,
        Option::Some(e) => abs(e as int) <= PRICE_LIMIT as int,
    })
    &&& keys_increasing(m.out)
    &&& out_keys_ok(m.out, m.last_key)
    &&& out_values_bounded(m.out)
    &&& (m.last_key is None <==> m.seen == 0)
}

/// Ingesting one finalized candle.
pub open spec fn ema_ingest(m: EmaModel, c: Candle) -> EmaModel {
    let base = pruned(m.out, m.last_key);
    let seen = if m.seen < m.period {
        m.seen + 1
    } else {
        m.seen
    };
    if m.seen < m.period - 1 {
        EmaModel {
            seen,
            init_sum: m.init_sum + c.close,
            last_key: Option::Some(c.key),
            out: base,
            ..m
        }
    } else if m.seen == m.period - 1 {
        let seed = div_trunc(m.init_sum + c.close, m.period) as i128;
        EmaModel {
            seen,
            init_sum: m.init_sum + c.close,
            last_ema: Option::Some(seed),
            last_key: Option::Some(c.key),
            out: upserted(base, c.key, seed),
            ..m
        }
    } else {
        let v = ema_step(m.last_ema.unwrap() as int, c.close as int, m.period) as i128;
        EmaModel {
            seen,
            last_ema: Option::Some(v),
            last_key: Option::Some(c.key),
            out: upserted(base, c.key, v),
            ..m
        }
    }
}

pub open spec fn ema_feed(m: EmaModel, c: Candle) -> EmaModel {
    if accepts(m.last_key, c.key) {
        ema_ingest(m, c)
    } else {
        m
    }
}

pub open spec fn ema_feed_all(m: EmaModel, cs: Seq<Candle>) -> EmaModel
    decreases cs.len(),
{
    if cs.len() == 0 {
        m
    } else {
        ema_feed(ema_feed_all(m, cs.drop_last()), cs.last())
    }
}

pub open spec fn ema_replay(cs: Seq<Candle>, period: int) -> EmaModel
    decreases cs.len(),
{
    if cs.len() == 0 {
        ema_init(period)
    } else {
        ema_ingest(ema_replay(cs.drop_last(), period), cs.last())
    }
}

/// An open-candle revision.  A key beyond the last processed one writes the
/// value the candle would produce if ingested, leaving the accumulator
/// untouched.  The last processed key itself is recomputed against the
/// output entry immediately preceding it, the value of the previous truly
/// finalized candle.
pub open spec fn ema_revise(m: EmaModel, c: Candle) -> EmaModel {
    if accepts(m.last_key, c.key) {
        EmaModel { out: ema_ingest(m, c).out, ..m }
    } else if m.last_key == Option::Some(c.key) {
        if m.out.len() >= 2 && m.out.last().0 == c.key {
            let prev = m.out[m.out.len() - 2].1;
            let v = ema_step(prev as int, c.close as int, m.period) as i128;
            EmaModel {
                last_ema: Option::Some(v),
                out: upserted(m.out, c.key, v),
                ..m
            }
        } else {
            m
        }
    } else {
        m
    }
}

pub proof fn lemma_ema_ingest_wf(m: EmaModel, c: Candle)
    requires
        ema_wf(m),
        c.ok(),
        accepts(m.last_key, c.key),
    ensures
        ema_wf(ema_ingest(m, c)),
{
    let r = ema_ingest(m, c);
    let base = pruned(m.out, m.last_key);
    lemma_pruned(m.out, m.last_key);
    assert(keys_at_most(base, c.key)) by {
        match m.last_key {
            Option::None => {},
            Option::Some(k) => {
                assert(forall|i: int| 0 <= i < base.len() ==> (#[trigger] base[i]).0 <= k < c.key);
            },
        }
    }
    assert(out_values_bounded(base)) by {
        assert(forall|i: int|
            0 <= i < base.len() ==> (#[trigger] base[i]) == m.out[i]);
    }
    if m.seen < m.period - 1 {
        assert(abs(r.init_sum) <= r.seen * PRICE_LIMIT) by (nonlinear_arith)
            requires
                abs(m.init_sum) <= m.seen * PRICE_LIMIT,
                abs(c.close as int) <= PRICE_LIMIT as int,
                r.init_sum == m.init_sum + c.close,
                r.seen == m.seen + 1,
                PRICE_LIMIT > 0,
        ;
    } else if m.seen == m.period - 1 {
        let total = m.init_sum + c.close;
        assert(abs(total) <= m.period * PRICE_LIMIT) by (nonlinear_arith)
            requires
                abs(m.init_sum) <= m.seen * PRICE_LIMIT,
                abs(c.close as int) <= PRICE_LIMIT as int,
                m.seen == m.period - 1,
                total == m.init_sum + c.close,
                PRICE_LIMIT > 0,
        ;
        lemma_div_trunc_mean_bound(total, m.period, PRICE_LIMIT as int);
        let seed = div_trunc(total, m.period) as i128;
        lemma_upserted_sorted(base, c.key, seed);
    } else {
        let prev = m.last_ema.unwrap() as int;
        lemma_ema_step_between(prev, c.close as int, m.period);
        let v = ema_step(prev, c.close as int, m.period) as i128;
        lemma_upserted_sorted(base, c.key, v);
    }
}

pub proof fn lemma_ema_replay_basics(cs: Seq<Candle>, period: int)
    requires
        1 <= period <= PERIOD_LIMIT,
        candles_wf(cs),
    ensures
        ema_wf(ema_replay(cs, period)),
        ema_replay(cs, period).period == period,
        ema_replay(cs, period).last_key == if cs.len() == 0 {
            Option::<u64>::None
        } else {
            Option::Some(cs.last().key)
        },
    decreases cs.len(),
{
    if cs.len() > 0 {
        lemma_candles_wf_drop_last(cs);
        lemma_ema_replay_basics(cs.drop_last(), period);
        let prev = ema_replay(cs.drop_last(), period);
        if cs.len() > 1 {
            assert(cs.drop_last().last() == cs[cs.len() - 2]);
            assert(cs[cs.len() - 2].key < cs.last().key);
        }
        assert(accepts(prev.last_key, cs.last().key));
        lemma_ema_ingest_wf(prev, cs.last());
    }
}

/// Rebuild equivalence for the exponential moving average.
pub proof fn lemma_ema_rebuild_equivalence(cs: Seq<Candle>, period: int)
    requires
        1 <= period <= PERIOD_LIMIT,
        candles_wf(cs),
    ensures
        ema_feed_all(ema_init(period), cs) == ema_replay(cs, period),
    decreases cs.len(),
{
    if cs.len() > 0 {
        lemma_candles_wf_drop_last(cs);
        lemma_ema_rebuild_equivalence(cs.drop_last(), period);
        lemma_ema_replay_basics(cs.drop_last(), period);
        let prev = ema_replay(cs.drop_last(), period);
        if cs.len() > 1 {
            assert(cs.drop_last().last() == cs[cs.len() - 2]);
            assert(cs[cs.len() - 2].key < cs.last().key);
        }
        assert(accepts(prev.last_key, cs.last().key));
    }
}

/// Revision non-drift: revising the open candle twice with the same
/// contents equals revising it once, entry and state alike.
pub proof fn lemma_ema_revision_idempotent(m: EmaModel, c: Candle)
    requires
        ema_wf(m),
        c.ok(),
    ensures
        ema_revise(ema_revise(m, c), c) == ema_revise(m, c),
{
    let m1 = ema_revise(m, c);
    let base = pruned(m.out, m.last_key);
    lemma_pruned(m.out, m.last_key);
    if accepts(m.last_key, c.key) {
        assert(keys_at_most(base, c.key)) by {
            match m.last_key {
                Option::None => {},
                Option::Some(k) => {
                    assert(forall|i: int|
                        0 <= i < base.len() ==> (#[trigger] base[i]).0 <= k < c.key);
                },
            }
        }
        if m.seen < m.period - 1 {
            assert(m1.out == base);
            assert(pruned(m1.out, m.last_key) =~= base);
            assert(ema_revise(m1, c) =~= m1);
        } else {
            let v = if m.seen == m.period - 1 {
                div_trunc(m.init_sum + c.close, m.period) as i128
            } else {
                ema_step(m.last_ema.unwrap() as int, c.close as int, m.period) as i128
            };
            lemma_upserted_sorted(base, c.key, v);
            assert(m1.out == upserted(base, c.key, v));
            assert(m1.out.last() == (c.key, v));
            assert(pruned(m1.out, m.last_key) =~= base);
            assert(upserted(base, c.key, v) =~= m1.out);
            assert(ema_revise(m1, c) =~= m1);
        }
    } else if m.last_key == Option::Some(c.key) {
        if m.out.len() >= 2 && m.out.last().0 == c.key {
            let prev = m.out[m.out.len() - 2].1;
            let v = ema_step(prev as int, c.close as int, m.period) as i128;
            assert(m.out.last().0 <= c.key);
            lemma_upserted_sorted(m.out, c.key, v);
            assert(m1.out == m.out.update(m.out.len() - 1, (c.key, v)));
            assert(m1.out.len() == m.out.len());
            assert(m1.out[m.out.len() - 2] == m.out[m.out.len() - 2]);
            assert(m1.out.last().0 == c.key);
            let v2 = ema_step(m1.out[m1.out.len() - 2].1 as int, c.close as int, m.period) as i128;
            assert(v2 == v);
            assert(upserted(m1.out, c.key, v) =~= m1.out);
            assert(ema_revise(m1, c) =~= m1);
        }
    }
}

/// The exponential-moving-average engine.
pub struct EMAIndicator {
    period: usize,
    seen: usize,
    init_sum: i128,
    last_ema: Option<i128>,
    last_key: Option<u64>,
    data: Series<i128>,
}

impl View for EMAIndicator {
    type V = EmaModel;

    closed spec fn view(&self) -> EmaModel {
        EmaModel {
            period: self.period as int,
            seen: self.seen as int,
            init_sum: self.init_sum as int,
            last_ema: self.last_ema,
            last_key: self.last_key,
            out: self.data@,
        }
    }
}

impl EMAIndicator {
    pub open spec fn wf(self) -> bool {
        ema_wf(self@)
    }

    /// An engine with the default period.
    pub fn new() -> (s: Self)
        ensures
            s.wf(),
            s@ == ema_init(EMA_PERIOD as int),
    {
        Self::with_period(EMA_PERIOD)
    }

    /// An engine with period `period`.
    pub fn with_period(period: usize) -> (s: Self)
        requires
            1 <= period <= PERIOD_LIMIT,
        ensures
            s.wf(),
            s@ == ema_init(period as int),
    {
        let s = EMAIndicator {
            period,
            seen: 0,
            init_sum: 0,
            last_ema: Option::None,
            last_key: Option::None,
            data: Series::new(),
        };
        proof {
            assert(s@ =~= ema_init(period as int));
        }
        s
    }

    /// The output series, for read-only consumption.
    pub fn output(&self) -> (r: &Series<i128>)
        requires
            self.wf(),
        ensures
            r@ == self@.out,
            r.wf(),
    {
        &self.data
    }

    /// The key of the last processed candle.
    pub fn last_processed_key(&self) -> (r: Option<u64>)
        ensures
            r == self@.last_key,
    {
        self.last_key
    }

    /// Ingest one candle known to advance the key.
    fn ingest_step(&mut self, c: Candle)
        requires
            old(self).wf(),
            c.ok(),
            accepts(old(self)@.last_key, c.key),
        ensures
            final(self).wf(),
            final(self)@ == ema_ingest(old(self)@, c),
    {
        proof {
            lemma_ema_ingest_wf(old(self)@, c);
            lemma_pruned(self@.out, self@.last_key);
        }
        self.data.drop_tentative(self.last_key);
        proof {
            match old(self)@.last_key {
                Option::None => {},
                Option::Some(k) => {
                    assert(forall|i: int|
                        0 <= i < self@.out.len() ==> (#[trigger] self@.out[i]).0 <= k < c.key);
                },
            }
        }
        if self.seen + 1 < self.period {
            self.init_sum = self.init_sum + c.close;
            self.seen = self.seen + 1;
            self.last_key = Option::Some(c.key);
            proof {
                assert(self@ =~= ema_ingest(old(self)@, c));
            }
        } else if self.seen + 1 == self.period {
            let ghost s0 = self@.init_sum;
            let ghost n0 = self@.seen;
            let ghost p0 = self@.period;
            self.init_sum = self.init_sum + c.close;
            proof {
                let s1 = self@.init_sum;
                assert(abs(s1) <= p0 * PRICE_LIMIT) by (nonlinear_arith)
                    requires
                        abs(s0) <= n0 * PRICE_LIMIT,
                        abs(c.close as int) <= PRICE_LIMIT as int,
                        s1 == s0 + c.close,
                        n0 == p0 - 1,
                        PRICE_LIMIT > 0,
                ;
                lemma_div_trunc_mean_bound(self@.init_sum, self@.period, PRICE_LIMIT as int);
            }
            let seed = self.init_sum / (self.period as i128);
            self.last_ema = Option::Some(seed);
            self.seen = self.seen + 1;
            self.last_key = Option::Some(c.key);
            self.data.upsert_at_end(c.key, seed);
            proof {
                assert(self@ =~= ema_ingest(old(self)@, c));
            }
        } else {
            let prev = match self.last_ema {
                Option::Some(p) => p,
                Option::None => 0,
            };
            proof {
                lemma_ema_step_between(prev as int, c.close as int, self@.period);
            }
            let v = prev + (c.close - prev) * 2 / (self.period as i128 + 1);
            self.last_ema = Option::Some(v);
            if self.seen < self.period {
                self.seen = self.seen + 1;
            }
            self.last_key = Option::Some(c.key);
            self.data.upsert_at_end(c.key, v);
            proof {
                assert(self@ =~= ema_ingest(old(self)@, c));
            }
        }
    }

    /// A newly finalized candle arrived.  A key at or before the last
    /// processed one is dropped with the whole state untouched.
    pub fn on_finalized_candle(&mut self, c: Candle)
        requires
            old(self).wf(),
            c.ok(),
        ensures
            final(self).wf(),
            final(self)@ == ema_feed(old(self)@, c),
            !accepts(old(self)@.last_key, c.key) ==> *final(self) == *old(self),
    {
        if let Option::Some(k) = self.last_key {
            if c.key <= k {
                return ;
            }
        }
        self.ingest_step(c);
    }

    /// A batch of finalized candles arrived.
    pub fn on_finalized_batch(&mut self, candles: &Vec<Candle>)
        requires
            old(self).wf(),
            forall|i: int| 0 <= i < candles@.len() ==> candles@[i].ok(),
        ensures
            final(self).wf(),
            final(self)@ == ema_feed_all(old(self)@, candles@),
    {
        let n = candles.len();
        let mut i: usize = 0;
        proof {
            assert(candles@.take(0) =~= Seq::<Candle>::empty());
        }
        while i < n
            invariant
                i <= n,
                n == candles@.len(),
                forall|j: int| 0 <= j < candles@.len() ==> candles@[j].ok(),
                self.wf(),
                self@ == ema_feed_all(old(self)@, candles@.take(i as int)),
            decreases n - i,
        {
            self.on_finalized_candle(candles[i]);
            proof {
                assert(candles@.take(i + 1).drop_last() =~= candles@.take(i as int));
                assert(candles@.take(i + 1).last() == candles@[i as int]);
            }
            i = i + 1;
        }
        proof {
            assert(candles@.take(n as int) =~= candles@);
        }
    }

    /// The still-open candle changed.  A new key gets the value it would
    /// produce if ingested, with the accumulator untouched; the last
    /// processed key is recomputed against the preceding output entry.
    pub fn on_open_candle_revision(&mut self, c: Candle)
        requires
            old(self).wf(),
            c.ok(),
        ensures
            final(self).wf(),
            final(self)@ == ema_revise(old(self)@, c),
    {
        let is_new = match self.last_key {
            Option::None => true,
            Option::Some(k) => c.key > k,
        };
        if is_new {
            proof {
                lemma_ema_ingest_wf(self@, c);
                lemma_pruned(self@.out, self@.last_key);
            }
            self.data.drop_tentative(self.last_key);
            proof {
                match old(self)@.last_key {
                    Option::None => {},
                    Option::Some(k) => {
                        assert(forall|i: int|
                            0 <= i < self@.out.len() ==> (#[trigger] self@.out[i]).0 <= k
                                < c.key);
                    },
                }
            }
            if self.seen + 1 < self.period {
                // not enough history: no tentative value
            } else if self.seen + 1 == self.period {
                proof {
                    let s0 = self@.init_sum;
                    let n0 = self@.seen;
                    let p0 = self@.period;
                    assert(abs(s0 + c.close) <= p0 * PRICE_LIMIT) by (nonlinear_arith)
                        requires
                            abs(s0) <= n0 * PRICE_LIMIT,
                            abs(c.close as int) <= PRICE_LIMIT as int,
                            n0 == p0 - 1,
                            PRICE_LIMIT > 0,
                    ;
                    lemma_div_trunc_mean_bound(
                        self@.init_sum + c.close,
                        self@.period,
                        PRICE_LIMIT as int,
                    );
                }
                let seed = (self.init_sum + c.close) / (self.period as i128);
                self.data.upsert_at_end(c.key, seed);
            } else {
                let prev = match self.last_ema {
                    Option::Some(p) => p,
                    Option::None => 0,
                };
                proof {
                    lemma_ema_step_between(prev as int, c.close as int, self@.period);
                }
                let v = prev + (c.close - prev) * 2 / (self.period as i128 + 1);
                self.data.upsert_at_end(c.key, v);
            }
            proof {
                assert(self@ =~= ema_revise(old(self)@, c));
            }
        } else if let Option::Some(k) = self.last_key {
            if k == c.key {
                let n = self.data.len();
                if n >= 2 {
                    let last_e = self.data.entry_at(n - 1);
                    if last_e.0 == c.key {
                        let prev = self.data.entry_at(n - 2).1;
                        proof {
                            lemma_ema_step_between(prev as int, c.close as int, self@.period);
                            lemma_upserted_sorted(
                                self@.out,
                                c.key,
                                ema_step(prev as int, c.close as int, self@.period) as i128,
                            );
                        }
                        let v = prev + (c.close - prev) * 2 / (self.period as i128 + 1);
                        self.last_ema = Option::Some(v);
                        self.data.upsert_at_end(c.key, v);
                        proof {
                            assert(self@ =~= ema_revise(old(self)@, c));
                        }
                    }
                }
            }
        }
    }

    /// Clear all state and replay the whole source through the
    /// finalized-candle path.
    pub fn rebuild(&mut self, src: &Source)
        requires
            old(self).wf(),
            src.wf(),
        ensures
            final(self).wf(),
            final(self)@ == ema_replay(src.candles(), old(self)@.period),
    {
        let ghost period = self@.period;
        let ghost cs = src.candles();
        self.seen = 0;
        self.init_sum = 0;
        self.last_ema = Option::None;
        self.last_key = Option::None;
        self.data.clear();
        proof {
            assert(self@ =~= ema_init(period));
            assert(cs.take(0) =~= Seq::<Candle>::empty());
        }
        match src {
            Source::TimeBased(v) => {
                let n = v.len();
                let mut i: usize = 0;
                while i < n
                    invariant
                        i <= n,
                        n == cs.len(),
                        cs == src.candles(),
                        src.wf(),
                        src is TimeBased,
                        v@ == cs,
                        self.wf(),
                        self@.period == period,
                        1 <= period <= PERIOD_LIMIT,
                        self@ == ema_replay(cs.take(i as int), period),
                    decreases n - i,
                {
                    proof {
                        assert(candles_wf(cs.take(i as int)));
                        lemma_ema_replay_basics(cs.take(i as int), period);
                        if i > 0 {
                            assert(cs.take(i as int).last() == cs[i - 1]);
                            assert(cs[i - 1].key < cs[i as int].key);
                        }
                    }
                    self.ingest_step(v[i]);
                    proof {
                        assert(cs.take(i + 1).drop_last() =~= cs.take(i as int));
                        assert(cs.take(i + 1).last() == cs[i as int]);
                    }
                    i = i + 1;
                }
                proof {
                    assert(cs.take(n as int) =~= cs);
                }
            },
            Source::TickBased(v) => {
                let n = v.len();
                let mut i: usize = 0;
                while i < n
                    invariant
                        i <= n,
                        n == cs.len(),
                        cs == src.candles(),
                        src.wf(),
                        src is TickBased,
                        v@.len() == cs.len(),
                        forall|j: int| 0 <= j < cs.len() ==> cs[j] == (Candle {
                            key: j as u64,
                            close: v@[j].close,
                            buy_volume: v@[j].buy_volume,
                            sell_volume: v@[j].sell_volume,
                        }),
                        self.wf(),
                        self@.period == period,
                        1 <= period <= PERIOD_LIMIT,
                        self@ == ema_replay(cs.take(i as int), period),
                    decreases n - i,
                {
                    proof {
                        assert(candles_wf(cs.take(i as int)));
                        lemma_ema_replay_basics(cs.take(i as int), period);
                        if i > 0 {
                            assert(cs.take(i as int).last() == cs[i - 1]);
                            assert(cs[i - 1].key < cs[i as int].key);
                        }
                    }
                    let dp = v[i];
                    let c = Candle {
                        key: i as u64,
                        close: dp.close,
                        buy_volume: dp.buy_volume,
                        sell_volume: dp.sell_volume,
                    };
                    proof {
                        assert(c == cs[i as int]);
                    }
                    self.ingest_step(c);
                    proof {
                        assert(cs.take(i + 1).drop_last() =~= cs.take(i as int));
                        assert(cs.take(i + 1).last() == cs[i as int]);
                    }
                    i = i + 1;
                }
                proof {
                    assert(cs.take(n as int) =~= cs);
                }
            },
        }
    }

    /// A ticksize or aggregation-basis change invalidates every candle:
    /// equivalent to a full rebuild.
    pub fn on_structural_change(&mut self, src: &Source)
        requires
            old(self).wf(),
            src.wf(),
        ensures
            final(self).wf(),
            final(self)@ == ema_replay(src.candles(), old(self)@.period),
    {
        self.rebuild(src);
    }
}

} // verus!
