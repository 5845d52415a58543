//! Bollinger bands.
//!
//! The middle band follows the exponential-moving-average recurrence; the
//! band half-width is twice the rolling population standard deviation over
//! the same window, computed from a rolling sum and sum of squares with the
//! same eviction scheme as the simple moving average.  The variance
//! numerator `period * sum_sq - sum * sum` is clamped at zero before the
//! square root, and the deviation is `sqrt(period² · variance) / period` in
//! floor integer arithmetic, so `lower <= middle <= upper` always holds.

use vstd::prelude::*;

verus! {

use crate::arith::{
    div_trunc, ema_step, isqrt, lemma_div_trunc_mean_bound, lemma_ema_step_between,
    lemma_sqrt_floor_char, lemma_sum_bounds, lemma_sums_drop_first, lemma_sums_update_last,
    sqrt_floor, sum_seq, sum_sq_seq,
};
use crate::candle::{
    accepts, candles_wf, lemma_candles_wf_drop_last, Candle, PERIOD_LIMIT, PRICE_LIMIT, Source,
};
use crate::series::{
    keys_at_most, keys_increasing, lemma_pruned, lemma_upserted_sorted, out_keys_ok, pruned,
    upserted, Series,
};
use vstd::arithmetic::div_mod::{lemma_div_nonincreasing, lemma_div_pos_is_pos};
use vstd::math::abs;

/// Default window length.
pub const BB_PERIOD: usize = 20;

/// Band half-width multiplier: the deviation enters the bands doubled.
pub const BB_DEV_FACTOR: i128 = 2;

/// One Bollinger output entry.
#[derive(Clone, Copy, PartialEq, Eq, Structural, Debug)]
pub struct BandValue {
    pub upper: i128,
    pub middle: i128,
    pub lower: i128,
}

/// Largest value the deviation can take under the window bounds: `2^62`.
pub const DEV_LIMIT: i128 = 4611686018427387904;

/// The rolling population standard deviation, in floor integer arithmetic:
/// `sqrt(period * sum_sq - sum²) / period`, the numerator clamped at zero
/// against cancellation.
pub open spec fn boll_dev(sum: int, sum_sq: int, period: int) -> int {
    let num = period * sum_sq - sum * sum;
    let clamped = if num < 0 {
        0
    } else {
        num
    };
    sqrt_floor(clamped) / period
}

/// The band triple around middle `mid` with deviation `sd`.
pub open spec fn band_of(mid: i128, sd: int) -> BandValue {
    BandValue {
        upper: (mid + BB_DEV_FACTOR * sd) as i128,
        middle: mid,
        lower: (mid - BB_DEV_FACTOR * sd) as i128,
    }
}

/// The sums of a bounded window are capped independently of its length.
pub proof fn lemma_window_sum_caps(w: Seq<int>)
    requires
        w.len() <= PERIOD_LIMIT,
        forall|i: int| 0 <= i < w.len() ==> abs(w[i]) <= PRICE_LIMIT as int,
    ensures
        abs(sum_seq(w)) <= PERIOD_LIMIT * PRICE_LIMIT,
        0 <= sum_sq_seq(w) <= PERIOD_LIMIT * (PRICE_LIMIT * PRICE_LIMIT),
{
    lemma_sum_bounds(w, PRICE_LIMIT as int);
    assert(w.len() * PRICE_LIMIT <= PERIOD_LIMIT * PRICE_LIMIT && w.len() * (PRICE_LIMIT
        * PRICE_LIMIT) <= PERIOD_LIMIT * (PRICE_LIMIT * PRICE_LIMIT)) by (nonlinear_arith)
        requires
            0 <= w.len() <= PERIOD_LIMIT,
            PRICE_LIMIT > 0,
    ;
}

/// Under the window bounds the deviation is non-negative and at most
/// `DEV_LIMIT`, so the band arithmetic never wraps.
pub proof fn lemma_boll_dev_bounds(sum: int, sum_sq: int, period: int)
    requires
        1 <= period <= PERIOD_LIMIT,
        abs(sum) <= PERIOD_LIMIT * PRICE_LIMIT,
        0 <= sum_sq <= PERIOD_LIMIT * (PRICE_LIMIT * PRICE_LIMIT),
    ensures
        0 <= boll_dev(sum, sum_sq, period) <= DEV_LIMIT,
{
    let num = period * sum_sq - sum * sum;
    let clamped = if num < 0 {
        0
    } else {
        num
    };
    assert(clamped <= DEV_LIMIT * DEV_LIMIT) by (nonlinear_arith)
        requires
            1 <= period <= PERIOD_LIMIT,
            0 <= sum_sq <= PERIOD_LIMIT * (PRICE_LIMIT * PRICE_LIMIT),
            clamped == if num < 0 {
                0
            } else {
                num
            },
            num == period * sum_sq - sum * sum,
            PERIOD_LIMIT == 64,
            PRICE_LIMIT == 72057594037927936,
            DEV_LIMIT == 4611686018427387904,
    ;
    lemma_sqrt_floor_char(clamped);
    let r = sqrt_floor(clamped);
    assert(r <= DEV_LIMIT) by (nonlinear_arith)
        requires
            0 <= r,
            r * r <= clamped,
            clamped <= DEV_LIMIT * DEV_LIMIT,
            DEV_LIMIT > 0,
    ;
    lemma_div_pos_is_pos(r, period);
    lemma_div_nonincreasing(r, period);
}

/// Abstract state of the engine.
#[verifier::ext_equal]
pub ghost struct BollModel {
    pub period: int,
    pub window: Seq<int>,
    pub sum: int,
    pub sum_sq: int,
    /// The middle band after the last finalized candle, once the window has
    /// been full.
    pub last_ema: Option<i128>,
    pub last_key: Option<u64>,
    pub out: Seq<(u64, BandValue)>,
}

pub open spec fn boll_init(period: int) -> BollModel {
    BollModel {
        period,
        window: Seq::empty(),
        sum: 0,
        sum_sq: 0,
        last_ema: Option::None,
        last_key: Option::None,
        out: Seq::empty(),
    }
}

/// Every stored band is ordered and has a bounded middle.
pub open spec fn bands_ok(s: Seq<(u64, BandValue)>) -> bool {
    forall|i: int|
        0 <= i < s.len() ==> {
            let b = (#[trigger] s[i]).1;
            &&& b.lower <= b.middle <= b.upper
            &&& abs(b.middle as int) <= PRICE_LIMIT as int
        }
}

pub open spec fn boll_wf(m: BollModel) -> bool {
    &&& 1 <= m.period <= PERIOD_LIMIT
    &&& m.window.len() <= m.period
    &&& m.sum == sum_seq(m.window)
    &&& m.sum_sq == sum_sq_seq(m.window)
    &&& forall|i: int| 0 <= i < m.window.len() ==> abs(m.window[i]) <= PRICE_LIMIT as int
    &&& (m.window.len() == m.period ==> m.last_ema is Some)
    &&& (match m.last_ema {
        Option::None => true,
        Option::Some(e) => abs(e as int) <= PRICE_LIMIT as int,
    })
    &&& keys_increasing(m.out)
    &&& out_keys_ok(m.out, m.last_key)
    &&& bands_ok(m.out)
    &&& (m.last_key is None <==> m.window.len() == 0)
}

/// Ingesting one finalized candle: update the rolling window and both sums
/// as the simple moving average does, and once the window is full emit the
/// band around the smoothed middle — seeded with the window mean.
pub open spec fn boll_ingest(m: BollModel, c: Candle) -> BollModel {
    let evict = m.window.len() >= m.period;
    let w0 = if evict {
        m.window.drop_first()
    } else {
        m.window
    };
    let s0 = if evict {
        m.sum - m.window[0]
    } else {
        m.sum
    };
    let q0 = if evict {
        m.sum_sq - m.window[0] * m.window[0]
    } else {
        m.sum_sq
    };
    let w = w0.push(c.close as int);
    let s = s0 + c.close;
    let q = q0 + (c.close as int) * (c.close as int);
    let base = pruned(m.out, m.last_key);
    if w.len() >= m.period {
        let mid = if evict {
            ema_step(m.last_ema.unwrap() as int, c.close as int, m.period) as i128
        } else {
            div_trunc(s, m.period) as i128
        };
        let sd = boll_dev(s, q, m.period);
        BollModel {
            period: m.period,
            window: w,
            sum: s,
            sum_sq: q,
            last_ema: Option::Some(mid),
            last_key: Option::Some(c.key),
            out: upserted(base, c.key, band_of(mid, sd)),
        }
    } else {
        BollModel {
            period: m.period,
            window: w,
            sum: s,
            sum_sq: q,
            last_ema: m.last_ema,
            last_key: Option::Some(c.key),
            out: base,
        }
    }
}

pub open spec fn boll_feed(m: BollModel, c: Candle) -> BollModel {
    if accepts(m.last_key, c.key) {
        boll_ingest(m, c)
    } else {
        m
    }
}

pub open spec fn boll_feed_all(m: BollModel, cs: Seq<Candle>) -> BollModel
    decreases cs.len(),
{
    if cs.len() == 0 {
        m
    } else {
        boll_feed(boll_feed_all(m, cs.drop_last()), cs.last())
    }
}

pub open spec fn boll_replay(cs: Seq<Candle>, period: int) -> BollModel
    decreases cs.len(),
{
    if cs.len() == 0 {
        boll_init(period)
    } else {
        boll_ingest(boll_replay(cs.drop_last(), period), cs.last())
    }
}

/// An open-candle revision.  A new key gets the band it would produce if
/// ingested, with the accumulator untouched.  The last processed key has
/// its window entry replaced, both sums adjusted by the enter/exit delta,
/// and the middle recomputed against the output entry preceding it.
pub open spec fn boll_revise(m: BollModel, c: Candle) -> BollModel {
    if accepts(m.last_key, c.key) {
        BollModel { out: boll_ingest(m, c).out, ..m }
    } else if m.last_key == Option::Some(c.key) && m.window.len() > 0 {
        let x = m.window.last();
        let w = m.window.update(m.window.len() - 1, c.close as int);
        let s = m.sum - x + c.close;
        let q = m.sum_sq - x * x + (c.close as int) * (c.close as int);
        if m.out.len() >= 2 && m.out.last().0 == c.key {
            let mid = ema_step(m.out[m.out.len() - 2].1.middle as int, c.close as int, m.period)
                as i128;
            let sd = boll_dev(s, q, m.period);
            BollModel {
                window: w,
                sum: s,
                sum_sq: q,
                last_ema: Option::Some(mid),
                out: upserted(m.out, c.key, band_of(mid, sd)),
                ..m
            }
        } else {
            BollModel { window: w, sum: s, sum_sq: q, ..m }
        }
    } else {
        m
    }
}

/// The new band written by an ingest is ordered and has a bounded middle.
pub proof fn lemma_band_of_ok(mid: i128, sd: int)
    requires
        abs(mid as int) <= PRICE_LIMIT as int,
        0 <= sd <= DEV_LIMIT,
    ensures
        band_of(mid, sd).lower <= band_of(mid, sd).middle <= band_of(mid, sd).upper,
        abs(band_of(mid, sd).middle as int) <= PRICE_LIMIT as int,
{
}

pub proof fn lemma_boll_ingest_wf(m: BollModel, c: Candle)
    requires
        boll_wf(m),
        c.ok(),
        accepts(m.last_key, c.key),
    ensures
        boll_wf(boll_ingest(m, c)),
{
    let r = boll_ingest(m, c);
    let evict = m.window.len() >= m.period;
    let w0 = if evict {
        m.window.drop_first()
    } else {
        m.window
    };
    if evict {
        lemma_sums_drop_first(m.window);
    }
    assert(r.window.drop_last() =~= w0);
    assert(r.sum == sum_seq(r.window));
    assert(r.sum_sq == sum_sq_seq(r.window));
    assert forall|i: int| 0 <= i < r.window.len() implies abs(r.window[i]) <= PRICE_LIMIT as int by {
        if i < r.window.len() - 1 {
            if evict {
                assert(r.window[i] == m.window[i + 1]);
            } else {
                assert(r.window[i] == m.window[i]);
            }
        }
    }
    let base = pruned(m.out, m.last_key);
    lemma_pruned(m.out, m.last_key);
    assert(keys_at_most(base, c.key)) by {
        match m.last_key {
            Option::None => {},
            Option::Some(k) => {
                assert(forall|i: int| 0 <= i < base.len() ==> (#[trigger] base[i]).0 <= k < c.key);
            },
        }
    }
    assert(bands_ok(base)) by {
        assert(forall|i: int| 0 <= i < base.len() ==> (#[trigger] base[i]) == m.out[i]);
    }
    if r.window.len() >= m.period {
        lemma_sum_bounds(r.window, PRICE_LIMIT as int);
        let mid = if evict {
            ema_step(m.last_ema.unwrap() as int, c.close as int, m.period) as i128
        } else {
            div_trunc(r.sum, m.period) as i128
        };
        if evict {
            lemma_ema_step_between(m.last_ema.unwrap() as int, c.close as int, m.period);
        } else {
            lemma_div_trunc_mean_bound(r.sum, m.period, PRICE_LIMIT as int);
        }
        let sd = boll_dev(r.sum, r.sum_sq, m.period);
        lemma_window_sum_caps(r.window);
        lemma_boll_dev_bounds(r.sum, r.sum_sq, m.period);
        lemma_band_of_ok(mid, sd);
        lemma_upserted_sorted(base, c.key, band_of(mid, sd));
    }
}

pub proof fn lemma_boll_replay_basics(cs: Seq<Candle>, period: int)
    requires
        1 <= period <= PERIOD_LIMIT,
        candles_wf(cs),
    ensures
        boll_wf(boll_replay(cs, period)),
        boll_replay(cs, period).period == period,
        boll_replay(cs, period).last_key == if cs.len() == 0 {
            Option::<u64>::None
        } else {
            Option::Some(cs.last().key)
        },
    decreases cs.len(),
{
    if cs.len() > 0 {
        lemma_candles_wf_drop_last(cs);
        lemma_boll_replay_basics(cs.drop_last(), period);
        let prev = boll_replay(cs.drop_last(), period);
        if cs.len() > 1 {
            assert(cs.drop_last().last() == cs[cs.len() - 2]);
            assert(cs[cs.len() - 2].key < cs.last().key);
        }
        assert(accepts(prev.last_key, cs.last().key));
        lemma_boll_ingest_wf(prev, cs.last());
    }
}

/// Rebuild equivalence for the Bollinger bands.
pub proof fn lemma_boll_rebuild_equivalence(cs: Seq<Candle>, period: int)
    requires
        1 <= period <= PERIOD_LIMIT,
        candles_wf(cs),
    ensures
        boll_feed_all(boll_init(period), cs) == boll_replay(cs, period),
    decreases cs.len(),
{
    if cs.len() > 0 {
        lemma_candles_wf_drop_last(cs);
        lemma_boll_rebuild_equivalence(cs.drop_last(), period);
        lemma_boll_replay_basics(cs.drop_last(), period);
        let prev = boll_replay(cs.drop_last(), period);
        if cs.len() > 1 {
            assert(cs.drop_last().last() == cs[cs.len() - 2]);
            assert(cs[cs.len() - 2].key < cs.last().key);
        }
        assert(accepts(prev.last_key, cs.last().key));
    }
}

/// Band order: in every well-formed state, each defined entry satisfies
/// `lower <= middle <= upper`.
pub proof fn lemma_bollinger_bands_ordered(m: BollModel)
    requires
        boll_wf(m),
    ensures
        forall|i: int|
            0 <= i < m.out.len() ==> ((#[trigger] m.out[i]).1.lower <= m.out[i].1.middle
                && m.out[i].1.middle <= m.out[i].1.upper),
{
}

/// Revision non-drift: revising the open candle twice with the same
/// contents equals revising it once.
pub proof fn lemma_boll_revision_idempotent(m: BollModel, c: Candle)
    requires
        boll_wf(m),
        c.ok(),
    ensures
        boll_revise(boll_revise(m, c), c) == boll_revise(m, c),
{
    let m1 = boll_revise(m, c);
    let base = pruned(m.out, m.last_key);
    lemma_pruned(m.out, m.last_key);
    if accepts(m.last_key, c.key) {
        assert(keys_at_most(base, c.key)) by {
            match m.last_key {
                Option::None => {},
                Option::Some(k) => {
                    assert(forall|i: int|
                        0 <= i < base.len() ==> (#[trigger] base[i]).0 <= k < c.key);
                },
            }
        }
        let t = boll_ingest(m, c);
        if t.window.len() >= m.period {
            let v = t.out.last().1;
            lemma_upserted_sorted(base, c.key, v);
            assert(m1.out.last() == (c.key, v));
            assert(pruned(m1.out, m.last_key) =~= base);
            assert(upserted(base, c.key, v) =~= m1.out);
            assert(boll_revise(m1, c) =~= m1);
        } else {
            assert(m1.out == base);
            assert(pruned(m1.out, m.last_key) =~= base);
            assert(boll_revise(m1, c) =~= m1);
        }
    } else if m.last_key == Option::Some(c.key) && m.window.len() > 0 {
        let x = m.window.last();
        let w1 = m.window.update(m.window.len() - 1, c.close as int);
        assert(w1.last() == c.close as int);
        assert(m1.window.update(m1.window.len() - 1, c.close as int) =~= w1);
        assert(m1.sum - w1.last() + c.close == m1.sum);
        assert(m1.sum_sq - w1.last() * w1.last() + (c.close as int) * (c.close as int)
            == m1.sum_sq);
        if m.out.len() >= 2 && m.out.last().0 == c.key {
            let mid = ema_step(m.out[m.out.len() - 2].1.middle as int, c.close as int, m.period)
                as i128;
            let sd = boll_dev(m1.sum, m1.sum_sq, m.period);
            let v = band_of(mid, sd);
            assert(m.out.last().0 <= c.key);
            lemma_upserted_sorted(m.out, c.key, v);
            assert(m1.out == m.out.update(m.out.len() - 1, (c.key, v)));
            assert(m1.out.len() == m.out.len());
            assert(m1.out[m.out.len() - 2] == m.out[m.out.len() - 2]);
            assert(m1.out.last().0 == c.key);
            assert(upserted(m1.out, c.key, v) =~= m1.out);
            assert(boll_revise(m1, c) =~= m1);
        } else {
            assert(boll_revise(m1, c) =~= m1);
        }
    }
}

impl Series<BandValue> {
    /// The least lower-band and greatest upper-band value at a key in
    /// `lo ..= hi`: the vertical extent the renderer scales its axis to.
    /// `None` exactly when no key of the series falls in the range.
    pub fn band_extent_in_range(&self, lo: u64, hi: u64) -> (r: Option<(i128, i128)>)
        ensures
            (r is None) <==> (forall|j: int|
                0 <= j < self@.len() ==> !self.entry_in_range(j, lo, hi)),
            r matches Option::Some(mm) ==> {
                &&& exists|j: int|
                    0 <= j < self@.len() && self.entry_in_range(j, lo, hi) && self@[j].1.lower
                        == mm.0
                &&& exists|j: int|
                    0 <= j < self@.len() && self.entry_in_range(j, lo, hi) && self@[j].1.upper
                        == mm.1
                &&& forall|j: int|
                    0 <= j < self@.len() && self.entry_in_range(j, lo, hi) ==> mm.0
                        <= (#[trigger] self@[j]).1.lower && self@[j].1.upper <= mm.1
            },
    {
        let n = self.len();
        let mut best: Option<(i128, i128)> = Option::None;
        let mut i: usize = 0;
        while i < n
            invariant
                i <= n,
                n == self@.len(),
                (best is None) <==> (forall|j: int|
                    0 <= j < i ==> !self.entry_in_range(j, lo, hi)),
                best matches Option::Some(mm) ==> {
                    &&& exists|j: int|
                        0 <= j < i && self.entry_in_range(j, lo, hi) && self@[j].1.lower == mm.0
                    &&& exists|j: int|
                        0 <= j < i && self.entry_in_range(j, lo, hi) && self@[j].1.upper == mm.1
                    &&& forall|j: int|
                        0 <= j < i && self.entry_in_range(j, lo, hi) ==> mm.0
                            <= (#[trigger] self@[j]).1.lower && self@[j].1.upper <= mm.1
                },
            decreases n - i,
        {
            let ghost iv = i as int;
            let ghost prior = best;
            let e = self.entry_at(i);
            if lo <= e.0 && e.0 <= hi {
                best = match best {
                    Option::None => Option::Some((e.1.lower, e.1.upper)),
                    Option::Some((mn, mx)) => {
                        let mn2 = if e.1.lower < mn {
                            e.1.lower
                        } else {
                            mn
                        };
                        let mx2 = if e.1.upper > mx {
                            e.1.upper
                        } else {
                            mx
                        };
                        Option::Some((mn2, mx2))
                    },
                };
                proof {
                    let mm = best.unwrap();
                    assert(self.entry_in_range(iv, lo, hi));
                    if mm.0 == e.1.lower {
                        assert(0 <= iv < iv + 1 && self.entry_in_range(iv, lo, hi)
                            && self@[iv].1.lower == mm.0);
                    } else {
                        let j0 = choose|j: int|
                            0 <= j < iv && self.entry_in_range(j, lo, hi) && self@[j].1.lower
                                == prior.unwrap().0;
                        assert(0 <= j0 < iv + 1 && self.entry_in_range(j0, lo, hi)
                            && self@[j0].1.lower == mm.0);
                    }
                    if mm.1 == e.1.upper {
                        assert(0 <= iv < iv + 1 && self.entry_in_range(iv, lo, hi)
                            && self@[iv].1.upper == mm.1);
                    } else {
                        let j1 = choose|j: int|
                            0 <= j < iv && self.entry_in_range(j, lo, hi) && self@[j].1.upper
                                == prior.unwrap().1;
                        assert(0 <= j1 < iv + 1 && self.entry_in_range(j1, lo, hi)
                            && self@[j1].1.upper == mm.1);
                    }
                }
            } else {
                proof {
                    assert(!self.entry_in_range(iv, lo, hi));
                }
            }
            i = i + 1;
        }
        best
    }
}

/// The Bollinger-bands engine.
pub struct BollingerIndicator {
    period: usize,
    window: Vec<i128>,
    sum: i128,
    sum_sq: i128,
    last_ema: Option<i128>,
    last_key: Option<u64>,
    data: Series<BandValue>,
}

impl View for BollingerIndicator {
    type V = BollModel;

    closed spec fn view(&self) -> BollModel {
        BollModel {
            period: self.period as int,
            window: self.window@.map_values(|x: i128| x as int),
            sum: self.sum as int,
            sum_sq: self.sum_sq as int,
            last_ema: self.last_ema,
            last_key: self.last_key,
            out: self.data@,
        }
    }
}

impl BollingerIndicator {
    pub open spec fn wf(self) -> bool {
        boll_wf(self@)
    }

    /// An engine with the default window length.
    pub fn new() -> (s: Self)
        ensures
            s.wf(),
            s@ == boll_init(BB_PERIOD as int),
    {
        Self::with_period(BB_PERIOD)
    }

    /// An engine with window length `period`.
    pub fn with_period(period: usize) -> (s: Self)
        requires
            1 <= period <= PERIOD_LIMIT,
        ensures
            s.wf(),
            s@ == boll_init(period as int),
    {
        let s = BollingerIndicator {
            period,
            window: Vec::new(),
            sum: 0,
            sum_sq: 0,
            last_ema: Option::None,
            last_key: Option::None,
            data: Series::new(),
        };
        proof {
            assert(s@ =~= boll_init(period as int));
        }
        s
    }

    /// The output series, for read-only consumption.
    pub fn output(&self) -> (r: &Series<BandValue>)
        requires
            self.wf(),
        ensures
            r@ == self@.out,
            r.wf(),
    {
        &self.data
    }

    /// The key of the last processed candle.
    pub fn last_processed_key(&self) -> (r: Option<u64>)
        ensures
            r == self@.last_key,
    {
        self.last_key
    }

    /// A square of a bounded close, in executable form.
    fn sq(x: i128) -> (r: i128)
        requires
            abs(x as int) <= PRICE_LIMIT as int,
        ensures
            r as int == (x as int) * (x as int),
            0 <= r as int <= PRICE_LIMIT * PRICE_LIMIT,
    {
        proof {
            assert(0 <= (x as int) * (x as int) <= PRICE_LIMIT * PRICE_LIMIT)
                by (nonlinear_arith)
                requires
                    abs(x as int) <= PRICE_LIMIT as int,
                    PRICE_LIMIT > 0,
            ;
        }
        x * x
    }

    /// The band around `mid` for the current sums, in executable form.
    fn band_for(&self, s: i128, q: i128, mid: i128) -> (r: BandValue)
        requires
            1 <= self@.period <= PERIOD_LIMIT,
            abs(s as int) <= PERIOD_LIMIT * PRICE_LIMIT,
            0 <= q as int <= PERIOD_LIMIT * (PRICE_LIMIT * PRICE_LIMIT),
            abs(mid as int) <= PRICE_LIMIT as int,
        ensures
            r == band_of(mid, boll_dev(s as int, q as int, self@.period)),
    {
        proof {
            lemma_boll_dev_bounds(s as int, q as int, self@.period);
            assert((self@.period as i128) * q == self@.period * (q as int)) by (nonlinear_arith)
                requires
                    self@.period == self.period as int,
            ;
            assert(s * s == (s as int) * (s as int));
            assert(abs((self@.period) * (q as int)) <= 64 * (PERIOD_LIMIT * (PRICE_LIMIT
                * PRICE_LIMIT)) && abs((s as int) * (s as int)) <= (PERIOD_LIMIT * PRICE_LIMIT) * (
            PERIOD_LIMIT * PRICE_LIMIT)) by (nonlinear_arith)
                requires
                    1 <= self@.period <= PERIOD_LIMIT,
                    abs(s as int) <= PERIOD_LIMIT * PRICE_LIMIT,
                    0 <= q as int <= PERIOD_LIMIT * (PRICE_LIMIT * PRICE_LIMIT),
                    PERIOD_LIMIT == 64,
                    PRICE_LIMIT == 72057594037927936,
            ;
        }
        let num = (self.period as i128) * q - s * s;
        let clamped: i128 = if num < 0 {
            0
        } else {
            num
        };
        proof {
            assert(clamped < crate::arith::SQRT_ARG_LIMIT);
        }
        let root = isqrt(clamped);
        proof {
            lemma_sqrt_floor_char(clamped as int);
            assert(root as int == sqrt_floor(clamped as int));
            lemma_div_pos_is_pos(root as int, self@.period);
            lemma_div_nonincreasing(root as int, self@.period);
        }
        let sd = root / (self.period as i128);
        BandValue { upper: mid + BB_DEV_FACTOR * sd, middle: mid, lower: mid - BB_DEV_FACTOR * sd }
    }

    /// Ingest one candle known to advance the key.
    fn ingest_step(&mut self, c: Candle)
        requires
            old(self).wf(),
            c.ok(),
            accepts(old(self)@.last_key, c.key),
        ensures
            final(self).wf(),
            final(self)@ == boll_ingest(old(self)@, c),
    {
        proof {
            lemma_boll_ingest_wf(old(self)@, c);
            lemma_sum_bounds(self@.window, PRICE_LIMIT as int);
            lemma_window_sum_caps(self@.window);
            lemma_pruned(self@.out, self@.last_key);
        }
        self.data.drop_tentative(self.last_key);
        proof {
            match old(self)@.last_key {
                Option::None => {},
                Option::Some(k) => {
                    assert(forall|i: int|
                        0 <= i < self@.out.len() ==> (#[trigger] self@.out[i]).0 <= k < c.key);
                },
            }
        }
        let evicting = self.window.len() >= self.period;
        if evicting {
            let evicted = self.window.remove(0);
            proof {
                lemma_sums_drop_first(old(self)@.window);
                assert(self@.window =~= old(self)@.window.drop_first());
            }
            self.sum = self.sum - evicted + c.close;
            self.sum_sq = self.sum_sq - Self::sq(evicted) + Self::sq(c.close);
        } else {
            self.sum = self.sum + c.close;
            self.sum_sq = self.sum_sq + Self::sq(c.close);
        }
        let had_ema = match self.last_ema {
            Option::Some(_) => true,
            Option::None => false,
        };
        self.window.push(c.close);
        self.last_key = Option::Some(c.key);
        proof {
            assert(self@.window =~= boll_ingest(old(self)@, c).window);
            lemma_sum_bounds(self@.window, PRICE_LIMIT as int);
            lemma_window_sum_caps(self@.window);
        }
        if self.window.len() >= self.period {
            let mid: i128 = if evicting {
                let prev = match self.last_ema {
                    Option::Some(p) => p,
                    Option::None => 0,
                };
                proof {
                    lemma_ema_step_between(prev as int, c.close as int, self@.period);
                }
                prev + (c.close - prev) * 2 / (self.period as i128 + 1)
            } else {
                proof {
                    lemma_div_trunc_mean_bound(self@.sum, self@.period, PRICE_LIMIT as int);
                }
                self.sum / (self.period as i128)
            };
            let band = self.band_for(self.sum, self.sum_sq, mid);
            self.last_ema = Option::Some(mid);
            self.data.upsert_at_end(c.key, band);
        }
        proof {
            assert(self@ =~= boll_ingest(old(self)@, c));
        }
    }

    /// A newly finalized candle arrived.  A key at or before the last
    /// processed one is dropped with the whole state untouched.
    pub fn on_finalized_candle(&mut self, c: Candle)
        requires
            old(self).wf(),
            c.ok(),
        ensures
            final(self).wf(),
            final(self)@ == boll_feed(old(self)@, c),
            !accepts(old(self)@.last_key, c.key) ==> *final(self) == *old(self),
    {
        if let Option::Some(k) = self.last_key {
            if c.key <= k {
                return ;
            }
        }
        self.ingest_step(c);
    }

    /// A batch of finalized candles arrived.
    pub fn on_finalized_batch(&mut self, candles: &Vec<Candle>)
        requires
            old(self).wf(),
            forall|i: int| 0 <= i < candles@.len() ==> candles@[i].ok(),
        ensures
            final(self).wf(),
            final(self)@ == boll_feed_all(old(self)@, candles@),
    {
        let n = candles.len();
        let mut i: usize = 0;
        proof {
            assert(candles@.take(0) =~= Seq::<Candle>::empty());
        }
        while i < n
            invariant
                i <= n,
                n == candles@.len(),
                forall|j: int| 0 <= j < candles@.len() ==> candles@[j].ok(),
                self.wf(),
                self@ == boll_feed_all(old(self)@, candles@.take(i as int)),
            decreases n - i,
        {
            self.on_finalized_candle(candles[i]);
            proof {
                assert(candles@.take(i + 1).drop_last() =~= candles@.take(i as int));
                assert(candles@.take(i + 1).last() == candles@[i as int]);
            }
            i = i + 1;
        }
        proof {
            assert(candles@.take(n as int) =~= candles@);
        }
    }

    /// The still-open candle changed.  A new key gets the band it would
    /// produce if ingested, with the accumulator untouched; the last
    /// processed key has its window entry replaced, both sums adjusted, and
    /// the middle recomputed against the preceding output entry.
    pub fn on_open_candle_revision(&mut self, c: Candle)
        requires
            old(self).wf(),
            c.ok(),
        ensures
            final(self).wf(),
            final(self)@ == boll_revise(old(self)@, c),
    {
        let is_new = match self.last_key {
            Option::None => true,
            Option::Some(k) => c.key > k,
        };
        if is_new {
            proof {
                lemma_boll_ingest_wf(self@, c);
                lemma_sum_bounds(self@.window, PRICE_LIMIT as int);
                lemma_window_sum_caps(self@.window);
                lemma_pruned(self@.out, self@.last_key);
            }
            self.data.drop_tentative(self.last_key);
            proof {
                match old(self)@.last_key {
                    Option::None => {},
                    Option::Some(k) => {
                        assert(forall|i: int|
                            0 <= i < self@.out.len() ==> (#[trigger] self@.out[i]).0 <= k
                                < c.key);
                    },
                }
            }
            let evicting = self.window.len() >= self.period;
            let mut s = self.sum + c.close;
            let mut q = self.sum_sq + Self::sq(c.close);
            if evicting {
                let ev = self.window[0];
                proof {
                    lemma_sums_drop_first(self@.window);
                }
                s = s - ev;
                q = q - Self::sq(ev);
            }
            if self.window.len() + 1 >= self.period || evicting {
                proof {
                    let t = boll_ingest(old(self)@, c);
                    assert(t.window.drop_last() =~= if old(self)@.window.len()
                        >= old(self)@.period {
                        old(self)@.window.drop_first()
                    } else {
                        old(self)@.window
                    });
                    assert(s == t.sum);
                    assert(q == t.sum_sq);
                    lemma_sum_bounds(t.window, PRICE_LIMIT as int);
                    lemma_window_sum_caps(t.window);
                }
                let mid: i128 = if evicting {
                    let prev = match self.last_ema {
                        Option::Some(p) => p,
                        Option::None => 0,
                    };
                    proof {
                        lemma_ema_step_between(prev as int, c.close as int, self@.period);
                    }
                    prev + (c.close - prev) * 2 / (self.period as i128 + 1)
                } else {
                    proof {
                        lemma_div_trunc_mean_bound(s as int, self@.period, PRICE_LIMIT as int);
                    }
                    s / (self.period as i128)
                };
                let band = self.band_for(s, q, mid);
                self.data.upsert_at_end(c.key, band);
            }
            proof {
                assert(self@.window =~= old(self)@.window);
                assert(self@ =~= boll_revise(old(self)@, c));
            }
        } else if let Option::Some(k) = self.last_key {
            if k == c.key {
                proof {
                    lemma_sum_bounds(self@.window, PRICE_LIMIT as int);
                    lemma_window_sum_caps(self@.window);
                }
                let idx = self.window.len() - 1;
                let old_last = self.window[idx];
                self.window[idx] = c.close;
                self.sum = self.sum - old_last + c.close;
                self.sum_sq = self.sum_sq - Self::sq(old_last) + Self::sq(c.close);
                proof {
                    lemma_sums_update_last(old(self)@.window, c.close as int);
                    assert(self@.window =~= old(self)@.window.update(
                        old(self)@.window.len() - 1,
                        c.close as int,
                    ));
                    assert(self@.sum == sum_seq(self@.window));
                    assert(self@.sum_sq == sum_sq_seq(self@.window));
                    lemma_sum_bounds(self@.window, PRICE_LIMIT as int);
                    lemma_window_sum_caps(self@.window);
                }
                let n = self.data.len();
                if n >= 2 {
                    let last_e = self.data.entry_at(n - 1);
                    if last_e.0 == c.key {
                        let prev = self.data.entry_at(n - 2).1.middle;
                        proof {
                            lemma_ema_step_between(prev as int, c.close as int, self@.period);
                        }
                        let mid = prev + (c.close - prev) * 2 / (self.period as i128 + 1);
                        proof {
                            lemma_boll_dev_bounds(self@.sum, self@.sum_sq, self@.period);
                            lemma_band_of_ok(
                                mid,
                                boll_dev(self@.sum, self@.sum_sq, self@.period),
                            );
                        }
                        let band = self.band_for(self.sum, self.sum_sq, mid);
                        proof {
                            lemma_upserted_sorted(self@.out, c.key, band);
                            assert(bands_ok(upserted(self@.out, c.key, band))) by {
                                assert(forall|i: int|
                                    0 <= i < upserted(self@.out, c.key, band).len() - 1
                                        ==> (#[trigger] upserted(self@.out, c.key, band)[i])
                                        == self@.out[i]);
                            }
                        }
                        self.last_ema = Option::Some(mid);
                        self.data.upsert_at_end(c.key, band);
                    }
                }
                proof {
                    assert(self@ =~= boll_revise(old(self)@, c));
                }
            }
        }
    }

    /// Clear all state and replay the whole source through the
    /// finalized-candle path.
    pub fn rebuild(&mut self, src: &Source)
        requires
            old(self).wf(),
            src.wf(),
        ensures
            final(self).wf(),
            final(self)@ == boll_replay(src.candles(), old(self)@.period),
    {
        let ghost period = self@.period;
        let ghost cs = src.candles();
        self.window.clear();
        self.sum = 0;
        self.sum_sq = 0;
        self.last_ema = Option::None;
        self.last_key = Option::None;
        self.data.clear();
        proof {
            assert(self@ =~= boll_init(period));
            assert(cs.take(0) =~= Seq::<Candle>::empty());
        }
        match src {
            Source::TimeBased(v) => {
                let n = v.len();
                let mut i: usize = 0;
                while i < n
                    invariant
                        i <= n,
                        n == cs.len(),
                        cs == src.candles(),
                        src.wf(),
                        src is TimeBased,
                        v@ == cs,
                        self.wf(),
                        self@.period == period,
                        1 <= period <= PERIOD_LIMIT,
                        self@ == boll_replay(cs.take(i as int), period),
                    decreases n - i,
                {
                    proof {
                        assert(candles_wf(cs.take(i as int)));
                        lemma_boll_replay_basics(cs.take(i as int), period);
                        if i > 0 {
                            assert(cs.take(i as int).last() == cs[i - 1]);
                            assert(cs[i - 1].key < cs[i as int].key);
                        }
                    }
                    self.ingest_step(v[i]);
                    proof {
                        assert(cs.take(i + 1).drop_last() =~= cs.take(i as int));
                        assert(cs.take(i + 1).last() == cs[i as int]);
                    }
                    i = i + 1;
                }
                proof {
                    assert(cs.take(n as int) =~= cs);
                }
            },
            Source::TickBased(v) => {
                let n = v.len();
                let mut i: usize = 0;
                while i < n
                    invariant
                        i <= n,
                        n == cs.len(),
                        cs == src.candles(),
                        src.wf(),
                        src is TickBased,
                        v@.len() == cs.len(),
                        forall|j: int| 0 <= j < cs.len() ==> cs[j] == (Candle {
                            key: j as u64,
                            close: v@[j].close,
                            buy_volume: v@[j].buy_volume,
                            sell_volume: v@[j].sell_volume,
                        }),
                        self.wf(),
                        self@.period == period,
                        1 <= period <= PERIOD_LIMIT,
                        self@ == boll_replay(cs.take(i as int), period),
                    decreases n - i,
                {
                    proof {
                        assert(candles_wf(cs.take(i as int)));
                        lemma_boll_replay_basics(cs.take(i as int), period);
                        if i > 0 {
                            assert(cs.take(i as int).last() == cs[i - 1]);
                            assert(cs[i - 1].key < cs[i as int].key);
                        }
                    }
                    let dp = v[i];
                    let c = Candle {
                        key: i as u64,
                        close: dp.close,
                        buy_volume: dp.buy_volume,
                        sell_volume: dp.sell_volume,
                    };
                    proof {
                        assert(c == cs[i as int]);
                    }
                    self.ingest_step(c);
                    proof {
                        assert(cs.take(i + 1).drop_last() =~= cs.take(i as int));
                        assert(cs.take(i + 1).last() == cs[i as int]);
                    }
                    i = i + 1;
                }
                proof {
                    assert(cs.take(n as int) =~= cs);
                }
            },
        }
    }

    /// A ticksize or aggregation-basis change invalidates every candle:
    /// equivalent to a full rebuild.
    pub fn on_structural_change(&mut self, src: &Source)
        requires
            old(self).wf(),
            src.wf(),
        ensures
            final(self).wf(),
            final(self)@ == boll_replay(src.candles(), old(self)@.period),
    {
        self.rebuild(src);
    }
}

} // verus!
