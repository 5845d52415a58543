//! The cache-invalidation throttle.
//!
//! Recomputation and visual refresh are separate concerns: the output
//! series is always immediately consistent, while the render cache is
//! invalidated at most once per a fixed minimum interval when driven by
//! high-frequency revision events.  Structural changes force an immediate
//! invalidation.  The throttle itself is pure decision logic over
//! millisecond timestamps that the caller supplies.

use vstd::prelude::*;

verus! {

/// Minimum number of milliseconds between event-driven invalidations.
pub const INVALIDATE_MIN_INTERVAL_MS: u64 = 200;

/// Whether an invalidation is due at `now`, given when the last one was.
pub open spec fn invalidation_due(last: Option<u64>, now: u64) -> bool {
    match last {
        Option::None => true,
        Option::Some(l) => now >= l && now - l >= INVALIDATE_MIN_INTERVAL_MS,
    }
}

/// Tracks the wall-clock moment of the last cache invalidation.
pub struct InvalidationThrottle {
    last_ms: Option<u64>,
}

impl InvalidationThrottle {
    /// When the cache was last invalidated, if ever.
    pub closed spec fn last_marked(self) -> Option<u64> {
        self.last_ms
    }

    /// A throttle that has never invalidated: the first event passes.
    pub fn new() -> (t: Self)
        ensures
            t.last_marked() is None,
    {
        InvalidationThrottle { last_ms: Option::None }
    }

    /// A computation event happened at `now_ms`.  Returns whether the
    /// caller should invalidate its render cache now; if so, the moment is
    /// recorded.
    pub fn on_event(&mut self, now_ms: u64) -> (r: bool)
        ensures
            r == invalidation_due(old(self).last_marked(), now_ms),
            final(self).last_marked() == if r {
                Option::Some(now_ms)
            } else {
                old(self).last_marked()
            },
    {
        let due = match self.last_ms {
            Option::None => true,
            Option::Some(l) => now_ms >= l && now_ms - l >= INVALIDATE_MIN_INTERVAL_MS,
        };
        if due {
            self.last_ms = Option::Some(now_ms);
        }
        due
    }

    /// A structural change happened at `now_ms`: invalidate immediately,
    /// whatever the elapsed time.
    pub fn force(&mut self, now_ms: u64)
        ensures
            final(self).last_marked() == Option::Some(now_ms),
    {
        self.last_ms = Option::Some(now_ms);
    }
}

} // verus!
