//! Cumulative volume delta.
//!
//! Each candle contributes `buy_volume - sell_volume`; the output series is
//! the running prefix sum of those deltas in key order.  A revision of the
//! open candle rewrites only its own entry, as the cumulative value of the
//! immediately preceding entry plus the new delta — earlier entries are
//! never touched and history is never re-summed.

use vstd::prelude::*;

verus! {

use crate::candle::{
    accepts, candles_wf, lemma_candles_wf_drop_last, Candle, Source, VOLUME_LIMIT,
};
use crate::series::{
    keys_at_most, keys_increasing, lemma_pruned, lemma_upserted_sorted, out_keys_ok, pruned,
    upserted, Series,
};
use vstd::math::abs;

/// More output entries than any addressable store can hold: `2^64`.
/// Cumulative values stay below `(len + 1) * VOLUME_LIMIT`, so this cap
/// keeps every sum far inside `i128`.
pub open spec fn cum_len_cap() -> int {
    0x10000000000000000
}

/// Abstract state: only the last processed key and the output series of
/// running sums; the predecessor entry carries everything else needed.
#[verifier::ext_equal]
pub ghost struct CumDeltaModel {
    pub last_key: Option<u64>,
    pub out: Seq<(u64, i128)>,
}

pub open spec fn cum_init() -> CumDeltaModel {
    CumDeltaModel { last_key: Option::None, out: Seq::empty() }
}

/// Every cumulative value is bounded by its depth in the series.
pub open spec fn cum_values_bounded(s: Seq<(u64, i128)>) -> bool {
    forall|i: int|
        0 <= i < s.len() ==> abs((#[trigger] s[i]).1 as int) <= (i + 1) * VOLUME_LIMIT
}

pub open spec fn cum_wf(m: CumDeltaModel) -> bool {
    &&& keys_increasing(m.out)
    &&& out_keys_ok(m.out, m.last_key)
    &&& cum_values_bounded(m.out)
    &&& m.out.len() <= cum_len_cap()
}

/// Ingesting one finalized candle: append the predecessor's running sum
/// plus this candle's delta.
pub open spec fn cum_ingest(m: CumDeltaModel, c: Candle) -> CumDeltaModel {
    let base = pruned(m.out, m.last_key);
    let prev = if base.len() > 0 {
        base.last().1 as int
    } else {
        0
    };
    let v = (prev + c.delta()) as i128;
    CumDeltaModel { last_key: Option::Some(c.key), out: upserted(base, c.key, v) }
}

pub open spec fn cum_feed(m: CumDeltaModel, c: Candle) -> CumDeltaModel {
    if accepts(m.last_key, c.key) {
        cum_ingest(m, c)
    } else {
        m
    }
}

pub open spec fn cum_feed_all(m: CumDeltaModel, cs: Seq<Candle>) -> CumDeltaModel
    decreases cs.len(),
{
    if cs.len() == 0 {
        m
    } else {
        cum_feed(cum_feed_all(m, cs.drop_last()), cs.last())
    }
}

pub open spec fn cum_replay(cs: Seq<Candle>) -> CumDeltaModel
    decreases cs.len(),
{
    if cs.len() == 0 {
        cum_init()
    } else {
        cum_ingest(cum_replay(cs.drop_last()), cs.last())
    }
}

/// An open-candle revision.  A new key gets a tentative running sum; the
/// last processed key has its entry rewritten from the predecessor entry
/// and the new delta; entries at earlier keys are never altered.
pub open spec fn cum_revise(m: CumDeltaModel, c: Candle) -> CumDeltaModel {
    if accepts(m.last_key, c.key) {
        CumDeltaModel { last_key: m.last_key, out: cum_ingest(m, c).out }
    } else if m.last_key == Option::Some(c.key) {
        if m.out.len() > 0 && m.out.last().0 == c.key {
            let prev = if m.out.len() >= 2 {
                m.out[m.out.len() - 2].1 as int
            } else {
                0
            };
            let v = (prev + c.delta()) as i128;
            CumDeltaModel { last_key: m.last_key, out: upserted(m.out, c.key, v) }
        } else {
            m
        }
    } else {
        m
    }
}

pub proof fn lemma_cum_ingest_wf(m: CumDeltaModel, c: Candle)
    requires
        cum_wf(m),
        c.ok(),
        accepts(m.last_key, c.key),
        m.out.len() < cum_len_cap(),
    ensures
        cum_wf(cum_ingest(m, c)),
        cum_ingest(m, c).out.len() <= m.out.len() + 1,
{
    let r = cum_ingest(m, c);
    let base = pruned(m.out, m.last_key);
    lemma_pruned(m.out, m.last_key);
    assert(keys_at_most(base, c.key)) by {
        match m.last_key {
            Option::None => {},
            Option::Some(k) => {
                assert(forall|i: int| 0 <= i < base.len() ==> (#[trigger] base[i]).0 <= k < c.key);
            },
        }
    }
    let prev = if base.len() > 0 {
        base.last().1 as int
    } else {
        0
    };
    let v = (prev + c.delta()) as i128;
    lemma_upserted_sorted(base, c.key, v);
    assert(cum_values_bounded(base)) by {
        assert(forall|i: int| 0 <= i < base.len() ==> (#[trigger] base[i]) == m.out[i]);
    }
    assert(abs(prev + c.delta()) <= (base.len() + 1) * VOLUME_LIMIT) by {
        if base.len() > 0 {
            assert(abs(base.last().1 as int) <= base.len() * VOLUME_LIMIT);
        }
    }
    assert(cum_values_bounded(r.out)) by {
        assert forall|i: int|
            0 <= i < r.out.len() implies abs((#[trigger] r.out[i]).1 as int) <= (i + 1)
            * VOLUME_LIMIT by {
            if i < r.out.len() - 1 {
                assert(r.out[i] == base[i]);
            } else {
                assert(r.out[i] == (c.key, v));
                assert(i + 1 <= base.len() + 1);
                assert((base.len() + 1) * VOLUME_LIMIT <= (i + 1) * VOLUME_LIMIT
                    || i + 1 == base.len() + 1);
            }
        }
    }
}

pub proof fn lemma_cum_replay_basics(cs: Seq<Candle>)
    requires
        candles_wf(cs),
        cs.len() <= cum_len_cap(),
    ensures
        cum_wf(cum_replay(cs)),
        cum_replay(cs).out.len() <= cs.len(),
        cum_replay(cs).last_key == if cs.len() == 0 {
            Option::<u64>::None
        } else {
            Option::Some(cs.last().key)
        },
    decreases cs.len(),
{
    if cs.len() > 0 {
        lemma_candles_wf_drop_last(cs);
        lemma_cum_replay_basics(cs.drop_last());
        let prev = cum_replay(cs.drop_last());
        if cs.len() > 1 {
            assert(cs.drop_last().last() == cs[cs.len() - 2]);
            assert(cs[cs.len() - 2].key < cs.last().key);
        }
        assert(accepts(prev.last_key, cs.last().key));
        lemma_cum_ingest_wf(prev, cs.last());
    }
}

/// Rebuild equivalence for the cumulative delta.
pub proof fn lemma_cum_rebuild_equivalence(cs: Seq<Candle>)
    requires
        candles_wf(cs),
        cs.len() <= cum_len_cap(),
    ensures
        cum_feed_all(cum_init(), cs) == cum_replay(cs),
    decreases cs.len(),
{
    if cs.len() > 0 {
        lemma_candles_wf_drop_last(cs);
        lemma_cum_rebuild_equivalence(cs.drop_last());
        lemma_cum_replay_basics(cs.drop_last());
        let prev = cum_replay(cs.drop_last());
        if cs.len() > 1 {
            assert(cs.drop_last().last() == cs[cs.len() - 2]);
            assert(cs[cs.len() - 2].key < cs.last().key);
        }
        assert(accepts(prev.last_key, cs.last().key));
    }
}

/// Revision non-drift: revising the open candle twice with the same
/// contents equals revising it once.
pub proof fn lemma_cum_revision_idempotent(m: CumDeltaModel, c: Candle)
    requires
        cum_wf(m),
        c.ok(),
    ensures
        cum_revise(cum_revise(m, c), c) == cum_revise(m, c),
{
    let m1 = cum_revise(m, c);
    let base = pruned(m.out, m.last_key);
    lemma_pruned(m.out, m.last_key);
    if accepts(m.last_key, c.key) {
        assert(keys_at_most(base, c.key)) by {
            match m.last_key {
                Option::None => {},
                Option::Some(k) => {
                    assert(forall|i: int|
                        0 <= i < base.len() ==> (#[trigger] base[i]).0 <= k < c.key);
                },
            }
        }
        let prev = if base.len() > 0 {
            base.last().1 as int
        } else {
            0
        };
        let v = (prev + c.delta()) as i128;
        lemma_upserted_sorted(base, c.key, v);
        assert(m1.out.last() == (c.key, v));
        assert(pruned(m1.out, m.last_key) =~= base);
        let base2 = pruned(m1.out, m.last_key);
        let prev2 = if base2.len() > 0 {
            base2.last().1 as int
        } else {
            0
        };
        assert(prev2 == prev);
        assert(upserted(base2, c.key, v) =~= m1.out);
        assert(cum_revise(m1, c) =~= m1);
    } else if m.last_key == Option::Some(c.key) {
        if m.out.len() > 0 && m.out.last().0 == c.key {
            let prev = if m.out.len() >= 2 {
                m.out[m.out.len() - 2].1 as int
            } else {
                0
            };
            let v = (prev + c.delta()) as i128;
            assert(m.out.last().0 <= c.key);
            lemma_upserted_sorted(m.out, c.key, v);
            assert(m1.out == m.out.update(m.out.len() - 1, (c.key, v)));
            assert(m1.out.len() == m.out.len());
            if m.out.len() >= 2 {
                assert(m1.out[m.out.len() - 2] == m.out[m.out.len() - 2]);
            }
            assert(m1.out.last().0 == c.key);
            assert(upserted(m1.out, c.key, v) =~= m1.out);
            assert(cum_revise(m1, c) =~= m1);
        }
    }
}

/// The cumulative-volume-delta engine.
pub struct CumulativeDeltaIndicator {
    last_key: Option<u64>,
    data: Series<i128>,
}

impl View for CumulativeDeltaIndicator {
    type V = CumDeltaModel;

    closed spec fn view(&self) -> CumDeltaModel {
        CumDeltaModel { last_key: self.last_key, out: self.data@ }
    }
}

impl CumulativeDeltaIndicator {
    pub open spec fn wf(self) -> bool {
        cum_wf(self@)
    }

    pub fn new() -> (s: Self)
        ensures
            s.wf(),
            s@ == cum_init(),
    {
        let s = CumulativeDeltaIndicator { last_key: Option::None, data: Series::new() };
        proof {
            assert(s@ =~= cum_init());
        }
        s
    }

    /// The output series, for read-only consumption.
    pub fn output(&self) -> (r: &Series<i128>)
        requires
            self.wf(),
        ensures
            r@ == self@.out,
            r.wf(),
    {
        &self.data
    }

    /// The key of the last processed candle.
    pub fn last_processed_key(&self) -> (r: Option<u64>)
        ensures
            r == self@.last_key,
    {
        self.last_key
    }

    /// Ingest one candle known to advance the key.
    fn ingest_step(&mut self, c: Candle)
        requires
            old(self).wf(),
            c.ok(),
            accepts(old(self)@.last_key, c.key),
        ensures
            final(self).wf(),
            final(self)@ == cum_ingest(old(self)@, c),
    {
        proof {
            self.data.lemma_len_fits();
            lemma_cum_ingest_wf(old(self)@, c);
            lemma_pruned(self@.out, self@.last_key);
        }
        self.data.drop_tentative(self.last_key);
        proof {
            match old(self)@.last_key {
                Option::None => {},
                Option::Some(k) => {
                    assert(forall|i: int|
                        0 <= i < self@.out.len() ==> (#[trigger] self@.out[i]).0 <= k < c.key);
                },
            }
            if self@.out.len() > 0 {
                assert(abs(self@.out[self@.out.len() - 1].1 as int) <= self@.out.len()
                    * VOLUME_LIMIT);
                assert(self@.out.len() * VOLUME_LIMIT <= cum_len_cap() * VOLUME_LIMIT)
                    by (nonlinear_arith)
                    requires
                        self@.out.len() <= cum_len_cap(),
                        VOLUME_LIMIT > 0,
                ;
            }
        }
        let n = self.data.len();
        let prev: i128 = if n > 0 {
            self.data.entry_at(n - 1).1
        } else {
            0
        };
        let v = prev + (c.buy_volume - c.sell_volume);
        self.last_key = Option::Some(c.key);
        self.data.upsert_at_end(c.key, v);
        proof {
            assert(self@ =~= cum_ingest(old(self)@, c));
        }
    }

    /// A newly finalized candle arrived.  A key at or before the last
    /// processed one is dropped with the whole state untouched.
    pub fn on_finalized_candle(&mut self, c: Candle)
        requires
            old(self).wf(),
            c.ok(),
        ensures
            final(self).wf(),
            final(self)@ == cum_feed(old(self)@, c),
            !accepts(old(self)@.last_key, c.key) ==> *final(self) == *old(self),
    {
        if let Option::Some(k) = self.last_key {
            if c.key <= k {
                return ;
            }
        }
        self.ingest_step(c);
    }

    /// A batch of finalized candles arrived.
    pub fn on_finalized_batch(&mut self, candles: &Vec<Candle>)
        requires
            old(self).wf(),
            forall|i: int| 0 <= i < candles@.len() ==> candles@[i].ok(),
        ensures
            final(self).wf(),
            final(self)@ == cum_feed_all(old(self)@, candles@),
    {
        let n = candles.len();
        let mut i: usize = 0;
        proof {
            assert(candles@.take(0) =~= Seq::<Candle>::empty());
        }
        while i < n
            invariant
                i <= n,
                n == candles@.len(),
                forall|j: int| 0 <= j < candles@.len() ==> candles@[j].ok(),
                self.wf(),
                self@ == cum_feed_all(old(self)@, candles@.take(i as int)),
            decreases n - i,
        {
            self.on_finalized_candle(candles[i]);
            proof {
                assert(candles@.take(i + 1).drop_last() =~= candles@.take(i as int));
                assert(candles@.take(i + 1).last() == candles@[i as int]);
            }
            i = i + 1;
        }
        proof {
            assert(candles@.take(n as int) =~= candles@);
        }
    }

    /// The still-open candle's delta changed.  Only its own entry is
    /// rewritten, in constant time, from the predecessor entry's running
    /// sum; entries at earlier keys are never altered and history is never
    /// re-summed.
    pub fn on_open_candle_revision(&mut self, c: Candle)
        requires
            old(self).wf(),
            c.ok(),
        ensures
            final(self).wf(),
            final(self)@ == cum_revise(old(self)@, c),
    {
        let is_new = match self.last_key {
            Option::None => true,
            Option::Some(k) => c.key > k,
        };
        if is_new {
            proof {
                self.data.lemma_len_fits();
                lemma_cum_ingest_wf(self@, c);
                lemma_pruned(self@.out, self@.last_key);
            }
            self.data.drop_tentative(self.last_key);
            proof {
                match old(self)@.last_key {
                    Option::None => {},
                    Option::Some(k) => {
                        assert(forall|i: int|
                            0 <= i < self@.out.len() ==> (#[trigger] self@.out[i]).0 <= k
                                < c.key);
                    },
                }
                if self@.out.len() > 0 {
                    assert(abs(self@.out[self@.out.len() - 1].1 as int) <= self@.out.len()
                        * VOLUME_LIMIT);
                    assert(self@.out.len() * VOLUME_LIMIT <= cum_len_cap() * VOLUME_LIMIT)
                        by (nonlinear_arith)
                        requires
                            self@.out.len() <= cum_len_cap(),
                            VOLUME_LIMIT > 0,
                    ;
                }
            }
            let n = self.data.len();
            let prev: i128 = if n > 0 {
                self.data.entry_at(n - 1).1
            } else {
                0
            };
            let v = prev + (c.buy_volume - c.sell_volume);
            self.data.upsert_at_end(c.key, v);
            proof {
                assert(self@ =~= cum_revise(old(self)@, c));
            }
        } else if let Option::Some(k) = self.last_key {
            if k == c.key {
                let n = self.data.len();
                if n > 0 {
                    let last_e = self.data.entry_at(n - 1);
                    if last_e.0 == c.key {
                        proof {
                            if self@.out.len() >= 2 {
                                assert(abs(self@.out[self@.out.len() - 2].1 as int)
                                    <= (self@.out.len() - 1) * VOLUME_LIMIT);
                                assert((self@.out.len() - 1) * VOLUME_LIMIT <= cum_len_cap()
                                    * VOLUME_LIMIT) by (nonlinear_arith)
                                    requires
                                        self@.out.len() <= cum_len_cap(),
                                        VOLUME_LIMIT > 0,
                                ;
                            }
                            lemma_upserted_sorted(
                                self@.out,
                                c.key,
                                cum_revise(self@, c).out.last().1,
                            );
                        }
                        let prev: i128 = if n >= 2 {
                            self.data.entry_at(n - 2).1
                        } else {
                            0
                        };
                        let v = prev + (c.buy_volume - c.sell_volume);
                        self.data.upsert_at_end(c.key, v);
                        proof {
                            let r = cum_revise(old(self)@, c);
                            assert(self@.out =~= r.out);
                            assert(self@ =~= r);
                            assert(cum_values_bounded(self@.out)) by {
                                assert forall|i: int|
                                    0 <= i < self@.out.len() implies abs(
                                    (#[trigger] self@.out[i]).1 as int) <= (i + 1)
                                    * VOLUME_LIMIT by {
                                    if i < self@.out.len() - 1 {
                                        assert(self@.out[i] == old(self)@.out[i]);
                                    }
                                }
                            }
                        }
                    }
                }
            }
        }
    }

    /// Clear all state and replay the whole source through the
    /// finalized-candle path.
    pub fn rebuild(&mut self, src: &Source)
        requires
            old(self).wf(),
            src.wf(),
        ensures
            final(self).wf(),
            final(self)@ == cum_replay(src.candles()),
    {
        let ghost cs = src.candles();
        self.last_key = Option::None;
        self.data.clear();
        proof {
            assert(self@ =~= cum_init());
            assert(cs.take(0) =~= Seq::<Candle>::empty());
            match src {
                Source::TimeBased(v) => {
                    vstd::std_specs::vec::axiom_spec_len(v);
                },
                Source::TickBased(v) => {
                    vstd::std_specs::vec::axiom_spec_len(v);
                },
            }
        }
        match src {
            Source::TimeBased(v) => {
                let n = v.len();
                let mut i: usize = 0;
                while i < n
                    invariant
                        i <= n,
                        n == cs.len(),
                        cs == src.candles(),
                        src.wf(),
                        src is TimeBased,
                        v@ == cs,
                        cs.len() <= cum_len_cap(),
                        self.wf(),
                        self@ == cum_replay(cs.take(i as int)),
                    decreases n - i,
                {
                    proof {
                        assert(candles_wf(cs.take(i as int)));
                        lemma_cum_replay_basics(cs.take(i as int));
                        if i > 0 {
                            assert(cs.take(i as int).last() == cs[i - 1]);
                            assert(cs[i - 1].key < cs[i as int].key);
                        }
                    }
                    self.ingest_step(v[i]);
                    proof {
                        assert(cs.take(i + 1).drop_last() =~= cs.take(i as int));
                        assert(cs.take(i + 1).last() == cs[i as int]);
                    }
                    i = i + 1;
                }
                proof {
                    assert(cs.take(n as int) =~= cs);
                }
            },
            Source::TickBased(v) => {
                let n = v.len();
                let mut i: usize = 0;
                while i < n
                    invariant
                        i <= n,
                        n == cs.len(),
                        cs == src.candles(),
                        src.wf(),
                        src is TickBased,
                        v@.len() == cs.len(),
                        forall|j: int| 0 <= j < cs.len() ==> cs[j] == (Candle {
                            key: j as u64,
                            close: v@[j].close,
                            buy_volume: v@[j].buy_volume,
                            sell_volume: v@[j].sell_volume,
                        }),
                        cs.len() <= cum_len_cap(),
                        self.wf(),
                        self@ == cum_replay(cs.take(i as int)),
                    decreases n - i,
                {
                    proof {
                        assert(candles_wf(cs.take(i as int)));
                        lemma_cum_replay_basics(cs.take(i as int));
                        if i > 0 {
                            assert(cs.take(i as int).last() == cs[i - 1]);
                            assert(cs[i - 1].key < cs[i as int].key);
                        }
                    }
                    let dp = v[i];
                    let c = Candle {
                        key: i as u64,
                        close: dp.close,
                        buy_volume: dp.buy_volume,
                        sell_volume: dp.sell_volume,
                    };
                    proof {
                        assert(c == cs[i as int]);
                    }
                    self.ingest_step(c);
                    proof {
                        assert(cs.take(i + 1).drop_last() =~= cs.take(i as int));
                        assert(cs.take(i + 1).last() == cs[i as int]);
                    }
                    i = i + 1;
                }
                proof {
                    assert(cs.take(n as int) =~= cs);
                }
            },
        }
    }

    /// A ticksize or aggregation-basis change invalidates every candle:
    /// equivalent to a full rebuild.
    pub fn on_structural_change(&mut self, src: &Source)
        requires
            old(self).wf(),
            src.wf(),
        ensures
            final(self).wf(),
            final(self)@ == cum_replay(src.candles()),
    {
        self.rebuild(src);
    }
}

} // verus!
