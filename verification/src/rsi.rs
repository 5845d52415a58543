//! Relative strength index with Wilder's smoothing.
//!
//! Each finalized close yields a change against the previous close, split
//! into a gain and a loss.  The first `period` changes accumulate into
//! plain sums; the `period`-th finalizes the seed averages.  Later changes
//! advance each average by `(avg * (period - 1) + x) / period`.  The index
//! is `100` when the loss average is zero — never a division fault — and
//! otherwise `100 * gain / (gain + loss)`, the truncating integer form of
//! `100 - 100 / (1 + gain / loss)`.  A revision of the open candle shows a
//! tentative index computed from the finalized averages without ever
//! overwriting them.

use vstd::prelude::*;

verus! {

use crate::arith::{
    div_trunc, lemma_div_trunc_mean_bound, lemma_wilder_step_bounds, wilder_step,
};
use crate::candle::{
    accepts, candles_wf, lemma_candles_wf_drop_last, Candle, PERIOD_LIMIT, PRICE_LIMIT, Source,
};
use crate::series::{
    keys_at_most, keys_increasing, lemma_pruned, lemma_upserted_sorted, out_keys_ok, pruned,
    upserted, Series,
};
use vstd::arithmetic::div_mod::{lemma_div_is_ordered, lemma_div_multiples_vanish};
use vstd::math::abs;

/// Default smoothing period.
pub const RSI_PERIOD: usize = 14;

/// The gain part of a change.
pub open spec fn gain_of(change: int) -> int {
    if change > 0 {
        change
    } else {
        0
    }
}

/// The loss part of a change.
pub open spec fn loss_of(change: int) -> int {
    if change < 0 {
        -change
    } else {
        0
    }
}

/// The index for average gain `g` and average loss `l`: exactly `100` when
/// `l` is zero, else the truncating `100 * g / (g + l)`.
pub open spec fn rsi_value(g: int, l: int) -> i128 {
    if l == 0 {
        100
    } else {
        div_trunc(100 * g, g + l) as i128
    }
}

/// The index always lies between 0 and 100.
pub proof fn lemma_rsi_value_range(g: int, l: int)
    requires
        0 <= g,
        0 <= l,
    ensures
        0 <= rsi_value(g, l) <= 100,
{
    if l != 0 {
        vstd::arithmetic::div_mod::lemma_div_pos_is_pos(100 * g, g + l);
        assert(100 * g <= (g + l) * 100) by (nonlinear_arith)
            requires
                0 <= g,
                0 < l,
        ;
        lemma_div_is_ordered(100 * g, (g + l) * 100, g + l);
        lemma_div_multiples_vanish(100, g + l);
    }
}

/// Abstract state of the engine.
#[verifier::ext_equal]
pub ghost struct RsiModel {
    pub period: int,
    /// Changes absorbed so far, saturating at `period`.
    pub changes: int,
    /// Close of the last finalized candle.
    pub last_close: Option<i128>,
    /// Plain sums while seeding.
    pub gain_sum: int,
    pub loss_sum: int,
    /// Wilder averages once seeded; only finalized candles advance them.
    pub avg_gain: Option<i128>,
    pub avg_loss: Option<i128>,
    pub last_key: Option<u64>,
    pub out: Seq<(u64, i128)>,
}

pub open spec fn rsi_init(period: int) -> RsiModel {
    RsiModel {
        period,
        changes: 0,
        last_close: Option::None,
        gain_sum: 0,
        loss_sum: 0,
        avg_gain: Option::None,
        avg_loss: Option::None,
        last_key: Option::None,
        out: Seq::empty(),
    }
}

pub open spec fn rsi_wf(m: RsiModel) -> bool {
    &&& 1 <= m.period <= PERIOD_LIMIT
    &&& 0 <= m.changes <= m.period
    &&& (m.changes < m.period ==> 0 <= m.gain_sum <= m.changes * (2 * PRICE_LIMIT))
    &&& (m.changes < m.period ==> 0 <= m.loss_sum <= m.changes * (2 * PRICE_LIMIT))
    &&& (m.changes >= m.period <==> m.avg_gain is Some)
    &&& (m.avg_gain is Some <==> m.avg_loss is Some)
    &&& (match m.avg_gain {
        Option::None => true,
        Option::Some(a) => 0 <= a as int <= 2 * PRICE_LIMIT,
    })
    &&& (match m.avg_loss {
        Option::None => true,
        Option::Some(a) => 0 <= a as int <= 2 * PRICE_LIMIT,
    })
    &&& (match m.last_close {
        Option::None => true,
        Option::Some(p) => abs(p as int) <= PRICE_LIMIT as int,
    })
    &&& (m.last_close is None ==> m.changes == 0)
    &&& keys_increasing(m.out)
    &&& out_keys_ok(m.out, m.last_key)
    &&& (m.last_key is None <==> m.last_close is None)
}

/// Ingesting one finalized candle.
pub open spec fn rsi_ingest(m: RsiModel, c: Candle) -> RsiModel {
    let base = pruned(m.out, m.last_key);
    match m.last_close {
        Option::None => RsiModel {
            last_close: Option::Some(c.close),
            last_key: Option::Some(c.key),
            out: base,
            ..m
        },
        Option::Some(pc) => {
            let ch = c.close - pc;
            let g = gain_of(ch);
            let l = loss_of(ch);
            if m.changes < m.period - 1 {
                RsiModel {
                    changes: m.changes + 1,
                    gain_sum: m.gain_sum + g,
                    loss_sum: m.loss_sum + l,
                    last_close: Option::Some(c.close),
                    last_key: Option::Some(c.key),
                    out: base,
                    ..m
                }
            } else if m.changes == m.period - 1 {
                let ag = div_trunc(m.gain_sum + g, m.period) as i128;
                let al = div_trunc(m.loss_sum + l, m.period) as i128;
                RsiModel {
                    changes: m.period,
                    gain_sum: m.gain_sum + g,
                    loss_sum: m.loss_sum + l,
                    last_close: Option::Some(c.close),
                    avg_gain: Option::Some(ag),
                    avg_loss: Option::Some(al),
                    last_key: Option::Some(c.key),
                    out: upserted(base, c.key, rsi_value(ag as int, al as int)),
                    ..m
                }
            } else {
                let ag = wilder_step(m.avg_gain.unwrap() as int, g, m.period) as i128;
                let al = wilder_step(m.avg_loss.unwrap() as int, l, m.period) as i128;
                RsiModel {
                    last_close: Option::Some(c.close),
                    avg_gain: Option::Some(ag),
                    avg_loss: Option::Some(al),
                    last_key: Option::Some(c.key),
                    out: upserted(base, c.key, rsi_value(ag as int, al as int)),
                    ..m
                }
            }
        },
    }
}

pub open spec fn rsi_feed(m: RsiModel, c: Candle) -> RsiModel {
    if accepts(m.last_key, c.key) {
        rsi_ingest(m, c)
    } else {
        m
    }
}

pub open spec fn rsi_feed_all(m: RsiModel, cs: Seq<Candle>) -> RsiModel
    decreases cs.len(),
{
    if cs.len() == 0 {
        m
    } else {
        rsi_feed(rsi_feed_all(m, cs.drop_last()), cs.last())
    }
}

pub open spec fn rsi_replay(cs: Seq<Candle>, period: int) -> RsiModel
    decreases cs.len(),
{
    if cs.len() == 0 {
        rsi_init(period)
    } else {
        rsi_ingest(rsi_replay(cs.drop_last(), period), cs.last())
    }
}

/// The tentative index a revision of close `close` would show, from the
/// finalized averages and last close: one more Wilder step, not stored.
pub open spec fn rsi_tentative(m: RsiModel, close: i128) -> Option<i128> {
    match (m.last_close, m.avg_gain, m.avg_loss) {
        (Option::Some(pc), Option::Some(ag), Option::Some(al)) => {
            let ch = close - pc;
            let tg = wilder_step(ag as int, gain_of(ch), m.period);
            let tl = wilder_step(al as int, loss_of(ch), m.period);
            Option::Some(rsi_value(tg, tl))
        },
        _ => Option::None,
    }
}

/// An open-candle revision.  The Wilder state, the stored last close and
/// the last processed key are never touched: only a tentative output entry
/// for the open candle is written, when the averages are seeded.  The
/// change behind the tentative index is measured against the stored last
/// close; for a revision of the last processed key itself that is that
/// same candle's finalized close.
pub open spec fn rsi_revise(m: RsiModel, c: Candle) -> RsiModel {
    if accepts(m.last_key, c.key) {
        RsiModel { out: rsi_ingest(m, c).out, ..m }
    } else if m.last_key == Option::Some(c.key) {
        match rsi_tentative(m, c.close) {
            Option::Some(v) => RsiModel {
                out: upserted(pruned(m.out, m.last_key), c.key, v),
                ..m
            },
            Option::None => m,
        }
    } else {
        m
    }
}

pub proof fn lemma_rsi_ingest_wf(m: RsiModel, c: Candle)
    requires
        rsi_wf(m),
        c.ok(),
        accepts(m.last_key, c.key),
    ensures
        rsi_wf(rsi_ingest(m, c)),
{
    let r = rsi_ingest(m, c);
    let base = pruned(m.out, m.last_key);
    lemma_pruned(m.out, m.last_key);
    assert(keys_at_most(base, c.key)) by {
        match m.last_key {
            Option::None => {},
            Option::Some(k) => {
                assert(forall|i: int| 0 <= i < base.len() ==> (#[trigger] base[i]).0 <= k < c.key);
            },
        }
    }
    match m.last_close {
        Option::None => {},
        Option::Some(pc) => {
            let ch = c.close - pc;
            let g = gain_of(ch);
            let l = loss_of(ch);
            assert(0 <= g <= 2 * PRICE_LIMIT);
            assert(0 <= l <= 2 * PRICE_LIMIT);
            if m.changes < m.period - 1 {
                assert(0 <= m.gain_sum + g <= (m.changes + 1) * (2 * PRICE_LIMIT))
                    by (nonlinear_arith)
                    requires
                        0 <= m.gain_sum <= m.changes * (2 * PRICE_LIMIT),
                        0 <= g <= 2 * PRICE_LIMIT,
                        0 <= m.changes,
                ;
                assert(0 <= m.loss_sum + l <= (m.changes + 1) * (2 * PRICE_LIMIT))
                    by (nonlinear_arith)
                    requires
                        0 <= m.loss_sum <= m.changes * (2 * PRICE_LIMIT),
                        0 <= l <= 2 * PRICE_LIMIT,
                        0 <= m.changes,
                ;
            } else if m.changes == m.period - 1 {
                assert(0 <= m.gain_sum + g <= m.period * (2 * PRICE_LIMIT)) by (nonlinear_arith)
                    requires
                        0 <= m.gain_sum <= m.changes * (2 * PRICE_LIMIT),
                        0 <= g <= 2 * PRICE_LIMIT,
                        m.changes == m.period - 1,
                ;
                assert(0 <= m.loss_sum + l <= m.period * (2 * PRICE_LIMIT)) by (nonlinear_arith)
                    requires
                        0 <= m.loss_sum <= m.changes * (2 * PRICE_LIMIT),
                        0 <= l <= 2 * PRICE_LIMIT,
                        m.changes == m.period - 1,
                ;
                lemma_div_trunc_mean_bound(m.gain_sum + g, m.period, 2 * PRICE_LIMIT);
                lemma_div_trunc_mean_bound(m.loss_sum + l, m.period, 2 * PRICE_LIMIT);
                let ag = div_trunc(m.gain_sum + g, m.period);
                let al = div_trunc(m.loss_sum + l, m.period);
                assert(0 <= ag) by {
                    vstd::arithmetic::div_mod::lemma_div_pos_is_pos(m.gain_sum + g, m.period);
                }
                assert(0 <= al) by {
                    vstd::arithmetic::div_mod::lemma_div_pos_is_pos(m.loss_sum + l, m.period);
                }
                lemma_upserted_sorted(
                    base,
                    c.key,
                    rsi_value(ag, al),
                );
            } else {
                lemma_wilder_step_bounds(m.avg_gain.unwrap() as int, g, m.period, 2 * PRICE_LIMIT);
                lemma_wilder_step_bounds(m.avg_loss.unwrap() as int, l, m.period, 2 * PRICE_LIMIT);
                lemma_upserted_sorted(
                    base,
                    c.key,
                    rsi_value(
                        wilder_step(m.avg_gain.unwrap() as int, g, m.period),
                        wilder_step(m.avg_loss.unwrap() as int, l, m.period),
                    ),
                );
            }
        },
    }
}

pub proof fn lemma_rsi_replay_basics(cs: Seq<Candle>, period: int)
    requires
        1 <= period <= PERIOD_LIMIT,
        candles_wf(cs),
    ensures
        rsi_wf(rsi_replay(cs, period)),
        rsi_replay(cs, period).period == period,
        rsi_replay(cs, period).last_key == if cs.len() == 0 {
            Option::<u64>::None
        } else {
            Option::Some(cs.last().key)
        },
        rsi_replay(cs, period).last_close == if cs.len() == 0 {
            Option::<i128>::None
        } else {
            Option::Some(cs.last().close)
        },
    decreases cs.len(),
{
    if cs.len() > 0 {
        lemma_candles_wf_drop_last(cs);
        lemma_rsi_replay_basics(cs.drop_last(), period);
        let prev = rsi_replay(cs.drop_last(), period);
        if cs.len() > 1 {
            assert(cs.drop_last().last() == cs[cs.len() - 2]);
            assert(cs[cs.len() - 2].key < cs.last().key);
        }
        assert(accepts(prev.last_key, cs.last().key));
        lemma_rsi_ingest_wf(prev, cs.last());
    }
}

/// Rebuild equivalence for the relative strength index.
pub proof fn lemma_rsi_rebuild_equivalence(cs: Seq<Candle>, period: int)
    requires
        1 <= period <= PERIOD_LIMIT,
        candles_wf(cs),
    ensures
        rsi_feed_all(rsi_init(period), cs) == rsi_replay(cs, period),
    decreases cs.len(),
{
    if cs.len() > 0 {
        lemma_candles_wf_drop_last(cs);
        lemma_rsi_rebuild_equivalence(cs.drop_last(), period);
        lemma_rsi_replay_basics(cs.drop_last(), period);
        let prev = rsi_replay(cs.drop_last(), period);
        if cs.len() > 1 {
            assert(cs.drop_last().last() == cs[cs.len() - 2]);
            assert(cs[cs.len() - 2].key < cs.last().key);
        }
        assert(accepts(prev.last_key, cs.last().key));
    }
}

/// With no losses anywhere in history — closes never fall — every output
/// entry is exactly 100: the zero loss average divides nothing.
pub proof fn lemma_rsi_all_gains(cs: Seq<Candle>, period: int)
    requires
        1 <= period <= PERIOD_LIMIT,
        candles_wf(cs),
        forall|i: int| 0 <= i < cs.len() - 1 ==> (#[trigger] cs[i]).close <= cs[i + 1].close,
    ensures
        forall|i: int|
            0 <= i < rsi_replay(cs, period).out.len() ==> (#[trigger] rsi_replay(
                cs,
                period,
            ).out[i]).1 == 100,
        rsi_replay(cs, period).loss_sum == 0,
        rsi_replay(cs, period).avg_loss is Some ==> rsi_replay(cs, period).avg_loss.unwrap()
            == 0,
    decreases cs.len(),
{
    let r = rsi_replay(cs, period);
    if cs.len() > 0 {
        lemma_candles_wf_drop_last(cs);
        assert(forall|i: int|
            0 <= i < cs.drop_last().len() - 1 ==> (#[trigger] cs.drop_last()[i]).close
                <= cs.drop_last()[i + 1].close) by {
            assert(forall|i: int|
                0 <= i < cs.len() - 1 ==> (#[trigger] cs[i]).close <= cs[i + 1].close);
        }
        lemma_rsi_all_gains(cs.drop_last(), period);
        lemma_rsi_replay_basics(cs.drop_last(), period);
        let prev = rsi_replay(cs.drop_last(), period);
        let c = cs.last();
        match prev.last_close {
            Option::None => {
                assert(forall|i: int|
                    0 <= i < r.out.len() ==> (#[trigger] r.out[i]) == pruned(
                        prev.out,
                        prev.last_key,
                    )[i]);
            },
            Option::Some(pc) => {
                assert(cs.drop_last().last() == cs[cs.len() - 2]);
                assert(pc == cs[cs.len() - 2].close);
                assert(cs[cs.len() - 2].close <= c.close);
                let ch = c.close - pc;
                assert(ch >= 0);
                assert(loss_of(ch) == 0);
                if prev.changes < prev.period - 1 {
                } else if prev.changes == prev.period - 1 {
                    assert(prev.loss_sum + loss_of(ch) == 0);
                    assert(div_trunc(0, prev.period) == 0) by {
                        vstd::arithmetic::div_mod::lemma_div_of0(prev.period);
                    }
                    assert(rsi_value(
                        div_trunc(prev.gain_sum + gain_of(ch), prev.period),
                        0,
                    ) == 100);
                } else {
                    assert(prev.avg_loss.unwrap() == 0);
                    assert(wilder_step(0, 0, prev.period) == 0) by {
                        assert(0 * (prev.period - 1) + 0 == 0);
                        vstd::arithmetic::div_mod::lemma_div_of0(prev.period);
                    }
                }
            },
        }
    }
}

/// Revision non-drift: revising the open candle twice with the same
/// contents equals revising it once; the Wilder averages never move.
pub proof fn lemma_rsi_revision_idempotent(m: RsiModel, c: Candle)
    requires
        rsi_wf(m),
        c.ok(),
    ensures
        rsi_revise(rsi_revise(m, c), c) == rsi_revise(m, c),
        rsi_revise(m, c).avg_gain == m.avg_gain,
        rsi_revise(m, c).avg_loss == m.avg_loss,
{
    let m1 = rsi_revise(m, c);
    let base = pruned(m.out, m.last_key);
    lemma_pruned(m.out, m.last_key);
    if accepts(m.last_key, c.key) {
        assert(keys_at_most(base, c.key)) by {
            match m.last_key {
                Option::None => {},
                Option::Some(k) => {
                    assert(forall|i: int|
                        0 <= i < base.len() ==> (#[trigger] base[i]).0 <= k < c.key);
                },
            }
        }
        match m.last_close {
            Option::None => {
                assert(m1.out == base);
                assert(pruned(m1.out, m.last_key) =~= base);
                assert(rsi_revise(m1, c) =~= m1);
            },
            Option::Some(pc) => {
                if m.changes < m.period - 1 {
                    assert(m1.out == base);
                    assert(pruned(m1.out, m.last_key) =~= base);
                    assert(rsi_revise(m1, c) =~= m1);
                } else {
                    let v = rsi_ingest(m, c).out.last().1;
                    lemma_upserted_sorted(base, c.key, v);
                    assert(m1.out.last() == (c.key, v));
                    assert(pruned(m1.out, m.last_key) =~= base);
                    assert(upserted(base, c.key, v) =~= m1.out);
                    assert(rsi_revise(m1, c) =~= m1);
                }
            },
        }
    } else if m.last_key == Option::Some(c.key) {
        match rsi_tentative(m, c.close) {
            Option::Some(v) => {
                assert(keys_at_most(base, c.key));
                lemma_upserted_sorted(base, c.key, v);
                assert(m1.out.last() == (c.key, v));
                assert(rsi_tentative(m1, c.close) == Option::Some(v));
                assert(!accepts(m.last_key, m1.out.last().0));
                assert(pruned(m1.out, m.last_key) == m1.out);
                assert(upserted(m1.out, c.key, v) =~= m1.out);
                assert(rsi_revise(m1, c) =~= m1);
            },
            Option::None => {},
        }
    }
}

/// The relative-strength-index engine.
pub struct RSIIndicator {
    period: usize,
    changes: usize,
    last_close: Option<i128>,
    gain_sum: i128,
    loss_sum: i128,
    avg_gain: Option<i128>,
    avg_loss: Option<i128>,
    last_key: Option<u64>,
    data: Series<i128>,
}

impl View for RSIIndicator {
    type V = RsiModel;

    closed spec fn view(&self) -> RsiModel {
        RsiModel {
            period: self.period as int,
            changes: self.changes as int,
            last_close: self.last_close,
            gain_sum: self.gain_sum as int,
            loss_sum: self.loss_sum as int,
            avg_gain: self.avg_gain,
            avg_loss: self.avg_loss,
            last_key: self.last_key,
            out: self.data@,
        }
    }
}

impl RSIIndicator {
    pub open spec fn wf(self) -> bool {
        rsi_wf(self@)
    }

    /// An engine with the default period.
    pub fn new() -> (s: Self)
        ensures
            s.wf(),
            s@ == rsi_init(RSI_PERIOD as int),
    {
        Self::with_period(RSI_PERIOD)
    }

    /// An engine with period `period`.
    pub fn with_period(period: usize) -> (s: Self)
        requires
            1 <= period <= PERIOD_LIMIT,
        ensures
            s.wf(),
            s@ == rsi_init(period as int),
    {
        let s = RSIIndicator {
            period,
            changes: 0,
            last_close: Option::None,
            gain_sum: 0,
            loss_sum: 0,
            avg_gain: Option::None,
            avg_loss: Option::None,
            last_key: Option::None,
            data: Series::new(),
        };
        proof {
            assert(s@ =~= rsi_init(period as int));
        }
        s
    }

    /// The output series, for read-only consumption.
    pub fn output(&self) -> (r: &Series<i128>)
        requires
            self.wf(),
        ensures
            r@ == self@.out,
            r.wf(),
    {
        &self.data
    }

    /// The key of the last processed candle.
    pub fn last_processed_key(&self) -> (r: Option<u64>)
        ensures
            r == self@.last_key,
    {
        self.last_key
    }

    /// The gain and loss of a change, in executable form.
    fn split_change(prev: i128, close: i128) -> (r: (i128, i128))
        requires
            abs(prev as int) <= PRICE_LIMIT as int,
            abs(close as int) <= PRICE_LIMIT as int,
        ensures
            r.0 as int == gain_of(close - prev),
            r.1 as int == loss_of(close - prev),
            0 <= r.0 as int <= 2 * PRICE_LIMIT,
            0 <= r.1 as int <= 2 * PRICE_LIMIT,
    {
        let ch = close - prev;
        if ch > 0 {
            (ch, 0)
        } else {
            (0, -ch)
        }
    }

    /// The index for non-negative averages, in executable form.
    fn rsi_of(g: i128, l: i128) -> (r: i128)
        requires
            0 <= g as int <= 2 * PRICE_LIMIT,
            0 <= l as int <= 2 * PRICE_LIMIT,
        ensures
            r == rsi_value(g as int, l as int),
            0 <= r <= 100,
    {
        proof {
            lemma_rsi_value_range(g as int, l as int);
        }
        if l == 0 {
            100
        } else {
            (100 * g) / (g + l)
        }
    }

    /// One Wilder smoothing step, in executable form.
    fn wilder_of(&self, avg: i128, x: i128) -> (r: i128)
        requires
            self.wf(),
            0 <= avg as int <= 2 * PRICE_LIMIT,
            0 <= x as int <= 2 * PRICE_LIMIT,
        ensures
            r as int == wilder_step(avg as int, x as int, self@.period),
            0 <= r as int <= 2 * PRICE_LIMIT,
    {
        proof {
            lemma_wilder_step_bounds(avg as int, x as int, self@.period, 2 * PRICE_LIMIT);
            assert(avg * ((self@.period - 1) as i128) <= avg * 64 && 0 <= avg * (
            (self@.period - 1) as i128)) by (nonlinear_arith)
                requires
                    0 <= avg,
                    0 <= (self@.period - 1) as i128 <= 64,
            ;
        }
        (avg * (self.period as i128 - 1) + x) / (self.period as i128)
    }

    /// Ingest one candle known to advance the key.
    fn ingest_step(&mut self, c: Candle)
        requires
            old(self).wf(),
            c.ok(),
            accepts(old(self)@.last_key, c.key),
        ensures
            final(self).wf(),
            final(self)@ == rsi_ingest(old(self)@, c),
    {
        proof {
            lemma_rsi_ingest_wf(old(self)@, c);
            lemma_pruned(self@.out, self@.last_key);
        }
        self.data.drop_tentative(self.last_key);
        proof {
            match old(self)@.last_key {
                Option::None => {},
                Option::Some(k) => {
                    assert(forall|i: int|
                        0 <= i < self@.out.len() ==> (#[trigger] self@.out[i]).0 <= k < c.key);
                },
            }
        }
        let prev = match self.last_close {
            Option::Some(p) => p,
            Option::None => {
                self.last_close = Option::Some(c.close);
                self.last_key = Option::Some(c.key);
                proof {
                    assert(self@ =~= rsi_ingest(old(self)@, c));
                }
                return ;
            },
        };
        let (g, l) = Self::split_change(prev, c.close);
        if self.changes + 1 < self.period {
            self.gain_sum = self.gain_sum + g;
            self.loss_sum = self.loss_sum + l;
            self.changes = self.changes + 1;
            self.last_close = Option::Some(c.close);
            self.last_key = Option::Some(c.key);
            proof {
                assert(self@ =~= rsi_ingest(old(self)@, c));
            }
        } else if self.changes + 1 == self.period {
            let ghost gs0 = self@.gain_sum;
            let ghost ls0 = self@.loss_sum;
            let ghost n0 = self@.changes;
            let ghost p0 = self@.period;
            self.gain_sum = self.gain_sum + g;
            self.loss_sum = self.loss_sum + l;
            proof {
                assert(0 <= self@.gain_sum <= p0 * (2 * PRICE_LIMIT) && 0 <= self@.loss_sum
                    <= p0 * (2 * PRICE_LIMIT)) by (nonlinear_arith)
                    requires
                        0 <= gs0 <= n0 * (2 * PRICE_LIMIT),
                        0 <= ls0 <= n0 * (2 * PRICE_LIMIT),
                        0 <= g as int <= 2 * PRICE_LIMIT,
                        0 <= l as int <= 2 * PRICE_LIMIT,
                        n0 == p0 - 1,
                        self@.gain_sum == gs0 + g,
                        self@.loss_sum == ls0 + l,
                        PRICE_LIMIT > 0,
                ;
                lemma_div_trunc_mean_bound(self@.gain_sum, p0, 2 * PRICE_LIMIT);
                lemma_div_trunc_mean_bound(self@.loss_sum, p0, 2 * PRICE_LIMIT);
                vstd::arithmetic::div_mod::lemma_div_pos_is_pos(self@.gain_sum, p0);
                vstd::arithmetic::div_mod::lemma_div_pos_is_pos(self@.loss_sum, p0);
            }
            let ag = self.gain_sum / (self.period as i128);
            let al = self.loss_sum / (self.period as i128);
            self.avg_gain = Option::Some(ag);
            self.avg_loss = Option::Some(al);
            self.changes = self.period;
            self.last_close = Option::Some(c.close);
            self.last_key = Option::Some(c.key);
            let v = Self::rsi_of(ag, al);
            self.data.upsert_at_end(c.key, v);
            proof {
                assert(self@ =~= rsi_ingest(old(self)@, c));
            }
        } else {
            let ag0 = match self.avg_gain {
                Option::Some(a) => a,
                Option::None => 0,
            };
            let al0 = match self.avg_loss {
                Option::Some(a) => a,
                Option::None => 0,
            };
            let ag = self.wilder_of(ag0, g);
            let al = self.wilder_of(al0, l);
            self.avg_gain = Option::Some(ag);
            self.avg_loss = Option::Some(al);
            self.last_close = Option::Some(c.close);
            self.last_key = Option::Some(c.key);
            let v = Self::rsi_of(ag, al);
            self.data.upsert_at_end(c.key, v);
            proof {
                assert(self@ =~= rsi_ingest(old(self)@, c));
            }
        }
    }

    /// A newly finalized candle arrived.  A key at or before the last
    /// processed one is dropped with the whole state untouched.
    pub fn on_finalized_candle(&mut self, c: Candle)
        requires
            old(self).wf(),
            c.ok(),
        ensures
            final(self).wf(),
            final(self)@ == rsi_feed(old(self)@, c),
            !accepts(old(self)@.last_key, c.key) ==> *final(self) == *old(self),
    {
        if let Option::Some(k) = self.last_key {
            if c.key <= k {
                return ;
            }
        }
        self.ingest_step(c);
    }

    /// A batch of finalized candles arrived.
    pub fn on_finalized_batch(&mut self, candles: &Vec<Candle>)
        requires
            old(self).wf(),
            forall|i: int| 0 <= i < candles@.len() ==> candles@[i].ok(),
        ensures
            final(self).wf(),
            final(self)@ == rsi_feed_all(old(self)@, candles@),
    {
        let n = candles.len();
        let mut i: usize = 0;
        proof {
            assert(candles@.take(0) =~= Seq::<Candle>::empty());
        }
        while i < n
            invariant
                i <= n,
                n == candles@.len(),
                forall|j: int| 0 <= j < candles@.len() ==> candles@[j].ok(),
                self.wf(),
                self@ == rsi_feed_all(old(self)@, candles@.take(i as int)),
            decreases n - i,
        {
            self.on_finalized_candle(candles[i]);
            proof {
                assert(candles@.take(i + 1).drop_last() =~= candles@.take(i as int));
                assert(candles@.take(i + 1).last() == candles@[i as int]);
            }
            i = i + 1;
        }
        proof {
            assert(candles@.take(n as int) =~= candles@);
        }
    }

    /// The still-open candle changed.  A tentative index is computed from
    /// the finalized averages — which are never overwritten — and written
    /// at the candle's key.
    pub fn on_open_candle_revision(&mut self, c: Candle)
        requires
            old(self).wf(),
            c.ok(),
        ensures
            final(self).wf(),
            final(self)@ == rsi_revise(old(self)@, c),
    {
        let is_new = match self.last_key {
            Option::None => true,
            Option::Some(k) => c.key > k,
        };
        if is_new {
            proof {
                lemma_rsi_ingest_wf(self@, c);
                lemma_pruned(self@.out, self@.last_key);
            }
            self.data.drop_tentative(self.last_key);
            proof {
                match old(self)@.last_key {
                    Option::None => {},
                    Option::Some(k) => {
                        assert(forall|i: int|
                            0 <= i < self@.out.len() ==> (#[trigger] self@.out[i]).0 <= k
                                < c.key);
                    },
                }
            }
            let prev = match self.last_close {
                Option::Some(p) => p,
                Option::None => {
                    proof {
                        assert(self@ =~= rsi_revise(old(self)@, c));
                    }
                    return ;
                },
            };
            let (g, l) = Self::split_change(prev, c.close);
            if self.changes + 1 < self.period {
                // not enough history: no tentative value
            } else if self.changes + 1 == self.period {
                proof {
                    let gs0 = self@.gain_sum;
                    let ls0 = self@.loss_sum;
                    let n0 = self@.changes;
                    let p0 = self@.period;
                    assert(0 <= gs0 + g <= p0 * (2 * PRICE_LIMIT) && 0 <= ls0 + l <= p0 * (2
                        * PRICE_LIMIT)) by (nonlinear_arith)
                        requires
                            0 <= gs0 <= n0 * (2 * PRICE_LIMIT),
                            0 <= ls0 <= n0 * (2 * PRICE_LIMIT),
                            0 <= g as int <= 2 * PRICE_LIMIT,
                            0 <= l as int <= 2 * PRICE_LIMIT,
                            n0 == p0 - 1,
                            PRICE_LIMIT > 0,
                    ;
                    lemma_div_trunc_mean_bound(self@.gain_sum + g, self@.period, 2 * PRICE_LIMIT);
                    lemma_div_trunc_mean_bound(self@.loss_sum + l, self@.period, 2 * PRICE_LIMIT);
                    vstd::arithmetic::div_mod::lemma_div_pos_is_pos(
                        self@.gain_sum + g,
                        self@.period,
                    );
                    vstd::arithmetic::div_mod::lemma_div_pos_is_pos(
                        self@.loss_sum + l,
                        self@.period,
                    );
                }
                let ag = (self.gain_sum + g) / (self.period as i128);
                let al = (self.loss_sum + l) / (self.period as i128);
                let v = Self::rsi_of(ag, al);
                self.data.upsert_at_end(c.key, v);
            } else {
                let ag0 = match self.avg_gain {
                    Option::Some(a) => a,
                    Option::None => 0,
                };
                let al0 = match self.avg_loss {
                    Option::Some(a) => a,
                    Option::None => 0,
                };
                let ag = self.wilder_of(ag0, g);
                let al = self.wilder_of(al0, l);
                let v = Self::rsi_of(ag, al);
                self.data.upsert_at_end(c.key, v);
            }
            proof {
                assert(self@ =~= rsi_revise(old(self)@, c));
            }
        } else if let Option::Some(k) = self.last_key {
            if k == c.key {
                let prev = match self.last_close {
                    Option::Some(p) => p,
                    Option::None => {
                        return ;
                    },
                };
                let (ag0, al0) = match (self.avg_gain, self.avg_loss) {
                    (Option::Some(a), Option::Some(b)) => (a, b),
                    _ => {
                        return ;
                    },
                };
                proof {
                    lemma_pruned(self@.out, self@.last_key);
                }
                self.data.drop_tentative(self.last_key);
                let (g, l) = Self::split_change(prev, c.close);
                let ag = self.wilder_of(ag0, g);
                let al = self.wilder_of(al0, l);
                let v = Self::rsi_of(ag, al);
                self.data.upsert_at_end(c.key, v);
                proof {
                    assert(self@ =~= rsi_revise(old(self)@, c));
                }
            }
        }
    }

    /// Clear all state and replay the whole source through the
    /// finalized-candle path.
    pub fn rebuild(&mut self, src: &Source)
        requires
            old(self).wf(),
            src.wf(),
        ensures
            final(self).wf(),
            final(self)@ == rsi_replay(src.candles(), old(self)@.period),
    {
        let ghost period = self@.period;
        let ghost cs = src.candles();
        self.changes = 0;
        self.last_close = Option::None;
        self.gain_sum = 0;
        self.loss_sum = 0;
        self.avg_gain = Option::None;
        self.avg_loss = Option::None;
        self.last_key = Option::None;
        self.data.clear();
        proof {
            assert(self@ =~= rsi_init(period));
            assert(cs.take(0) =~= Seq::<Candle>::empty());
        }
        match src {
            Source::TimeBased(v) => {
                let n = v.len();
                let mut i: usize = 0;
                while i < n
                    invariant
                        i <= n,
                        n == cs.len(),
                        cs == src.candles(),
                        src.wf(),
                        src is TimeBased,
                        v@ == cs,
                        self.wf(),
                        self@.period == period,
                        1 <= period <= PERIOD_LIMIT,
                        self@ == rsi_replay(cs.take(i as int), period),
                    decreases n - i,
                {
                    proof {
                        assert(candles_wf(cs.take(i as int)));
                        lemma_rsi_replay_basics(cs.take(i as int), period);
                        if i > 0 {
                            assert(cs.take(i as int).last() == cs[i - 1]);
                            assert(cs[i - 1].key < cs[i as int].key);
                        }
                    }
                    self.ingest_step(v[i]);
                    proof {
                        assert(cs.take(i + 1).drop_last() =~= cs.take(i as int));
                        assert(cs.take(i + 1).last() == cs[i as int]);
                    }
                    i = i + 1;
                }
                proof {
                    assert(cs.take(n as int) =~= cs);
                }
            },
            Source::TickBased(v) => {
                let n = v.len();
                let mut i: usize = 0;
                while i < n
                    invariant
                        i <= n,
                        n == cs.len(),
                        cs == src.candles(),
                        src.wf(),
                        src is TickBased,
                        v@.len() == cs.len(),
                        forall|j: int| 0 <= j < cs.len() ==> cs[j] == (Candle {
                            key: j as u64,
                            close: v@[j].close,
                            buy_volume: v@[j].buy_volume,
                            sell_volume: v@[j].sell_volume,
                        }),
                        self.wf(),
                        self@.period == period,
                        1 <= period <= PERIOD_LIMIT,
                        self@ == rsi_replay(cs.take(i as int), period),
                    decreases n - i,
                {
                    proof {
                        assert(candles_wf(cs.take(i as int)));
                        lemma_rsi_replay_basics(cs.take(i as int), period);
                        if i > 0 {
                            assert(cs.take(i as int).last() == cs[i - 1]);
                            assert(cs[i - 1].key < cs[i as int].key);
                        }
                    }
                    let dp = v[i];
                    let c = Candle {
                        key: i as u64,
                        close: dp.close,
                        buy_volume: dp.buy_volume,
                        sell_volume: dp.sell_volume,
                    };
                    proof {
                        assert(c == cs[i as int]);
                    }
                    self.ingest_step(c);
                    proof {
                        assert(cs.take(i + 1).drop_last() =~= cs.take(i as int));
                        assert(cs.take(i + 1).last() == cs[i as int]);
                    }
                    i = i + 1;
                }
                proof {
                    assert(cs.take(n as int) =~= cs);
                }
            },
        }
    }

    /// A ticksize or aggregation-basis change invalidates every candle:
    /// equivalent to a full rebuild.
    pub fn on_structural_change(&mut self, src: &Source)
        requires
            old(self).wf(),
            src.wf(),
        ensures
            final(self).wf(),
            final(self)@ == rsi_replay(src.candles(), old(self)@.period),
    {
        self.rebuild(src);
    }
}

} // verus!
