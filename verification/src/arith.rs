//! Shared integer arithmetic for the indicator engines: the truncating
//! division that Rust's `/` performs on signed operands, the exponential and
//! Wilder smoothing steps, sums and sums of squares of sequences, and a
//! floor integer square root.

use vstd::prelude::*;

verus! {

use vstd::arithmetic::div_mod::{
    lemma_div_is_ordered, lemma_div_is_ordered_by_denominator, lemma_div_multiples_vanish,
    lemma_div_pos_is_pos,
};
use vstd::math::abs;

/// What Rust's `/` computes on signed integers: the quotient rounded toward
/// zero.  Spec-mode `/` on `int` is Euclidean, so the negative case is
/// spelled out through the magnitude.
pub open spec fn div_trunc(a: int, b: int) -> int {
    if a >= 0 {
        a / b
    } else {
        -((-a) / b)
    }
}

/// A sum of `n` terms each within `bnd` has a mean within `bnd`.
pub proof fn lemma_div_trunc_mean_bound(s: int, n: int, bnd: int)
    requires
        1 <= n,
        0 <= bnd,
        abs(s) <= n * bnd,
    ensures
        abs(div_trunc(s, n)) <= bnd,
{
    if s >= 0 {
        lemma_div_pos_is_pos(s, n);
        lemma_div_is_ordered(s, n * bnd, n);
        lemma_div_multiples_vanish(bnd, n);
    } else {
        lemma_div_pos_is_pos(-s, n);
        lemma_div_is_ordered(-s, n * bnd, n);
        lemma_div_multiples_vanish(bnd, n);
    }
}

/// One step of exponential smoothing with multiplier `2 / (n + 1)`:
/// `prev + (price - prev) * 2 / (n + 1)` in truncating integer arithmetic.
pub open spec fn ema_step(prev: int, price: int, n: int) -> int {
    prev + div_trunc(2 * (price - prev), n + 1)
}

/// The smoothed value lies between the previous value and the new price.
pub proof fn lemma_ema_step_between(prev: int, price: int, n: int)
    requires
        1 <= n,
    ensures
        prev <= price ==> prev <= ema_step(prev, price, n) <= price,
        price <= prev ==> price <= ema_step(prev, price, n) <= prev,
{
    let d = price - prev;
    if d >= 0 {
        lemma_div_pos_is_pos(2 * d, n + 1);
        lemma_div_is_ordered_by_denominator(2 * d, 2, n + 1);
        lemma_div_multiples_vanish(d, 2);
    } else {
        lemma_div_pos_is_pos(2 * (-d), n + 1);
        lemma_div_is_ordered_by_denominator(2 * (-d), 2, n + 1);
        lemma_div_multiples_vanish(-d, 2);
        assert(2 * (-d) == -(2 * d));
    }
}

/// One step of Wilder smoothing with period `n`:
/// `(avg * (n - 1) + x) / n` in truncating integer arithmetic.
pub open spec fn wilder_step(avg: int, x: int, n: int) -> int {
    div_trunc(avg * (n - 1) + x, n)
}

/// Wilder smoothing of non-negative terms stays within their common bound.
pub proof fn lemma_wilder_step_bounds(avg: int, x: int, n: int, bnd: int)
    requires
        1 <= n,
        0 <= avg <= bnd,
        0 <= x <= bnd,
    ensures
        0 <= wilder_step(avg, x, n) <= bnd,
{
    let num = avg * (n - 1) + x;
    assert(0 <= num && num <= n * bnd) by (nonlinear_arith)
        requires
            1 <= n,
            0 <= avg <= bnd,
            0 <= x <= bnd,
            num == avg * (n - 1) + x,
    ;
    lemma_div_trunc_mean_bound(num, n, bnd);
}

/// The sum of a sequence of integers.
pub open spec fn sum_seq(s: Seq<int>) -> int
    decreases s.len(),
{
    if s.len() == 0 {
        0
    } else {
        sum_seq(s.drop_last()) + s.last()
    }
}

/// The sum of the squares of a sequence of integers.
pub open spec fn sum_sq_seq(s: Seq<int>) -> int
    decreases s.len(),
{
    if s.len() == 0 {
        0
    } else {
        sum_sq_seq(s.drop_last()) + s.last() * s.last()
    }
}

/// Both sums can also be peeled from the front.
pub proof fn lemma_sums_drop_first(s: Seq<int>)
    requires
        s.len() > 0,
    ensures
        sum_seq(s) == s[0] + sum_seq(s.drop_first()),
        sum_sq_seq(s) == s[0] * s[0] + sum_sq_seq(s.drop_first()),
    decreases s.len(),
{
    if s.len() == 1 {
        assert(s.drop_first() =~= Seq::<int>::empty());
        assert(s.drop_last() =~= Seq::<int>::empty());
    } else {
        lemma_sums_drop_first(s.drop_last());
        assert(s.drop_last().drop_first() =~= s.drop_first().drop_last());
        assert(s.drop_last()[0] == s[0]);
        assert(s.drop_first().last() == s.last());
    }
}

/// Elementwise bounds give bounds on the sum and on the sum of squares.
pub proof fn lemma_sum_bounds(s: Seq<int>, bnd: int)
    requires
        0 <= bnd,
        forall|i: int| 0 <= i < s.len() ==> abs(s[i]) <= bnd,
    ensures
        abs(sum_seq(s)) <= s.len() * bnd,
        0 <= sum_sq_seq(s) <= s.len() * (bnd * bnd),
    decreases s.len(),
{
    if s.len() == 0 {
    } else {
        let t = s.drop_last();
        assert(forall|i: int| 0 <= i < t.len() ==> abs(t[i]) <= bnd);
        lemma_sum_bounds(t, bnd);
        let x = s.last();
        assert(abs(x) <= bnd);
        assert(x * x <= bnd * bnd && 0 <= x * x) by (nonlinear_arith)
            requires
                abs(x) <= bnd,
        ;
        assert(t.len() * bnd + bnd == s.len() * bnd) by (nonlinear_arith)
            requires
                t.len() + 1 == s.len(),
        ;
        assert(t.len() * (bnd * bnd) + bnd * bnd == s.len() * (bnd * bnd)) by (nonlinear_arith)
            requires
                t.len() + 1 == s.len(),
        ;
    }
}

/// Replacing the last element adjusts a sum by the difference of the entering
/// and leaving values, and likewise for the sum of squares.
pub proof fn lemma_sums_update_last(s: Seq<int>, x: int)
    requires
        s.len() > 0,
    ensures
        sum_seq(s.update(s.len() - 1, x)) == sum_seq(s) - s.last() + x,
        sum_sq_seq(s.update(s.len() - 1, x)) == sum_sq_seq(s) - s.last() * s.last() + x * x,
{
    let u = s.update(s.len() - 1, x);
    assert(u.drop_last() =~= s.drop_last());
    assert(u.last() == x);
}

/// The floor of the square root of a non-negative integer, defined by
/// counting up.
pub open spec fn sqrt_floor(x: int) -> int
    decreases
            if x >= 0 {
                x
            } else {
                0
            },
{
    if x <= 0 {
        0
    } else {
        let r = sqrt_floor(x - 1);
        if (r + 1) * (r + 1) <= x {
            r + 1
        } else {
            r
        }
    }
}

/// `sqrt_floor(x)` is the unique `r >= 0` with `r * r <= x < (r + 1) * (r + 1)`.
pub proof fn lemma_sqrt_floor_char(x: int)
    requires
        0 <= x,
    ensures
        0 <= sqrt_floor(x),
        sqrt_floor(x) * sqrt_floor(x) <= x,
        x < (sqrt_floor(x) + 1) * (sqrt_floor(x) + 1),
    decreases x,
{
    if x == 0 {
    } else {
        lemma_sqrt_floor_char(x - 1);
        let r = sqrt_floor(x - 1);
        if (r + 1) * (r + 1) <= x {
            assert(x - 1 < (r + 1) * (r + 1));
            assert(x < (r + 2) * (r + 2)) by (nonlinear_arith)
                requires
                    0 <= r,
                    x <= (r + 1) * (r + 1),
            ;
        }
    }
}

pub proof fn lemma_sqrt_floor_unique(x: int, r: int)
    requires
        0 <= x,
        0 <= r,
        r * r <= x,
        x < (r + 1) * (r + 1),
    ensures
        r == sqrt_floor(x),
{
    lemma_sqrt_floor_char(x);
    let s = sqrt_floor(x);
    assert(r == s) by (nonlinear_arith)
        requires
            0 <= r,
            0 <= s,
            r * r <= x,
            x < (r + 1) * (r + 1),
            s * s <= x,
            x < (s + 1) * (s + 1),
    ;
}

/// Largest argument the executable square root accepts: `2^126`, so that the
/// root fits under `2^63` and its square stays inside `i128`.
pub const SQRT_ARG_LIMIT: i128 = 85070591730234615865843651857942052864;

/// Floor integer square root by binary search on the root.
pub fn isqrt(x: i128) -> (r: i128)
    requires
        0 <= x < SQRT_ARG_LIMIT,
    ensures
        r == sqrt_floor(x as int),
{
    let mut lo: i128 = 0;
    let mut hi: i128 = 9223372036854775808;
    proof {
        assert((9223372036854775808 as int) * (9223372036854775808 as int)
            == SQRT_ARG_LIMIT as int);
    }
    while lo + 1 < hi
        invariant
            0 <= lo < hi <= 9223372036854775808,
            lo * lo <= x as int,
            (x as int) < hi * hi,
        decreases hi - lo,
    {
        let mid = lo + (hi - lo) / 2;
        assert(lo < mid < hi);
        assert(0 <= (mid as int) * (mid as int) < SQRT_ARG_LIMIT as int) by (nonlinear_arith)
            requires
                0 <= mid as int <= 9223372036854775807,
                SQRT_ARG_LIMIT as int == 85070591730234615865843651857942052864,
        ;
        let sq = mid * mid;
        if sq <= x {
            lo = mid;
        } else {
            hi = mid;
        }
    }
    proof {
        lemma_sqrt_floor_unique(x as int, lo as int);
    }
    lo
}

} // verus!
