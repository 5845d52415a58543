//! The ordered key-to-value mapping that every indicator engine produces.
//!
//! Keys arrive in increasing order and only the entry with the greatest key
//! is ever rewritten, so the series is kept as a sorted vector of pairs: an
//! append-heavy ordered map, as the renderer contract allows.

use vstd::prelude::*;

verus! {

/// Keys are strictly increasing along the sequence of entries.
pub open spec fn keys_increasing<V>(s: Seq<(u64, V)>) -> bool {
    forall|i: int, j: int| 0 <= i < j < s.len() ==> s[i].0 < s[j].0
}

/// Every key in the sequence is at most `k`.
pub open spec fn keys_at_most<V>(s: Seq<(u64, V)>, k: u64) -> bool {
    forall|i: int| 0 <= i < s.len() ==> s[i].0 <= k
}

/// The value stored at `key`, searching from the most recent entry.
pub open spec fn lookup<V>(s: Seq<(u64, V)>, key: u64) -> Option<V>
    decreases s.len(),
{
    if s.len() == 0 {
        None
    } else if s.last().0 == key {
        Some(s.last().1)
    } else {
        lookup(s.drop_last(), key)
    }
}

/// Writing `(key, v)` at the end: replaces the last entry when it already
/// carries `key`, otherwise appends.
pub open spec fn upserted<V>(s: Seq<(u64, V)>, key: u64, v: V) -> Seq<(u64, V)> {
    if s.len() > 0 && s.last().0 == key {
        s.update(s.len() - 1, (key, v))
    } else {
        s.push((key, v))
    }
}

/// An upsert at a key no smaller than every present key keeps the series
/// sorted, leaves all earlier entries alone, and bounds the keys by `key`.
pub proof fn lemma_upserted_sorted<V>(s: Seq<(u64, V)>, key: u64, v: V)
    requires
        keys_increasing(s),
        s.len() > 0 ==> s.last().0 <= key,
    ensures
        keys_increasing(upserted(s, key, v)),
        keys_at_most(s, key) ==> keys_at_most(upserted(s, key, v), key),
        upserted(s, key, v).len() > 0,
        upserted(s, key, v).last() == (key, v),
        forall|i: int|
            0 <= i < upserted(s, key, v).len() - 1 ==> upserted(s, key, v)[i] == s[i],
{
    let u = upserted(s, key, v);
    if s.len() > 0 && s.last().0 == key {
        assert forall|i: int, j: int| 0 <= i < j < u.len() implies u[i].0 < u[j].0 by {
            if j < u.len() - 1 {
                assert(s[i].0 < s[j].0);
            } else {
                assert(u[j].0 == key);
                assert(u[i].0 == s[i].0);
                assert(s[i].0 < s[s.len() - 1].0);
            }
        }
    } else {
        assert forall|i: int, j: int| 0 <= i < j < u.len() implies u[i].0 < u[j].0 by {
            if j < u.len() - 1 {
                assert(s[i].0 < s[j].0);
            } else if s.len() > 0 {
                assert(u[j].0 == key);
                assert(u[i].0 == s[i].0);
                if i < s.len() - 1 {
                    assert(s[i].0 < s[s.len() - 1].0);
                }
                assert(s[i].0 <= s[s.len() - 1].0);
                assert(s.last().0 < key);
            }
        }
    }
}

/// All entries but the last are keyed at or before the last finalized key.
/// The last entry may instead be a tentative value for the still-open
/// candle, keyed beyond it; with no finalized candle yet, at most that one
/// tentative entry exists.
pub open spec fn out_keys_ok<V>(s: Seq<(u64, V)>, last: Option<u64>) -> bool {
    match last {
        Option::None => s.len() <= 1,
        Option::Some(k) => forall|i: int| 0 <= i < s.len() - 1 ==> (#[trigger] s[i]).0 <= k,
    }
}

/// The series with its tentative tail entry removed, if one is present.
pub open spec fn pruned<V>(s: Seq<(u64, V)>, last: Option<u64>) -> Seq<(u64, V)> {
    if s.len() > 0 && crate::candle::accepts(last, s.last().0) {
        s.drop_last()
    } else {
        s
    }
}

/// Pruning a well-formed output leaves a sorted series of finalized entries
/// only: every remaining key is at or before the last finalized key.
pub proof fn lemma_pruned<V>(s: Seq<(u64, V)>, last: Option<u64>)
    requires
        keys_increasing(s),
        out_keys_ok(s, last),
    ensures
        keys_increasing(pruned(s, last)),
        match last {
            Option::None => pruned(s, last).len() == 0,
            Option::Some(k) => keys_at_most(pruned(s, last), k),
        },
{
    let p = pruned(s, last);
    assert(keys_increasing(p));
    match last {
        Option::None => {},
        Option::Some(k) => {
            assert forall|i: int| 0 <= i < p.len() implies p[i].0 <= k by {
                if s.len() > 0 && crate::candle::accepts(last, s.last().0) {
                    assert(p[i] == s[i]);
                    assert(i < s.len() - 1);
                } else {
                    assert(p[i] == s[i]);
                    if i == s.len() - 1 {
                        assert(!crate::candle::accepts(last, s.last().0));
                    }
                }
            }
        },
    }
}

/// An ordered series of output values, one per candle key.
pub struct Series<V> {
    entries: Vec<(u64, V)>,
}

impl<V> View for Series<V> {
    type V = Seq<(u64, V)>;

    closed spec fn view(&self) -> Seq<(u64, V)> {
        self.entries@
    }
}

impl<V: Copy> Series<V> {
    /// The sorting invariant.
    pub open spec fn wf(self) -> bool {
        keys_increasing(self@)
    }

    pub fn new() -> (s: Self)
        ensures
            s@ == Seq::<(u64, V)>::empty(),
            s.wf(),
    {
        Series { entries: Vec::new() }
    }

    pub fn len(&self) -> (n: usize)
        ensures
            n == self@.len(),
    {
        self.entries.len()
    }

    pub fn is_empty(&self) -> (r: bool)
        ensures
            r == (self@.len() == 0),
    {
        self.entries.len() == 0
    }

    /// The entry at position `i` in key order.
    pub fn entry_at(&self, i: usize) -> (e: (u64, V))
        requires
            i < self@.len(),
        ensures
            e == self@[i as int],
    {
        self.entries[i]
    }

    /// The greatest key present, if any.
    pub fn last_key(&self) -> (r: Option<u64>)
        ensures
            self@.len() == 0 ==> r is None,
            self@.len() > 0 ==> r == Some(self@.last().0),
    {
        if self.entries.len() == 0 {
            None
        } else {
            Some(self.entries[self.entries.len() - 1].0)
        }
    }

    /// The value stored at `key`, if any.
    pub fn get(&self, key: u64) -> (r: Option<V>)
        ensures
            r == lookup(self@, key),
    {
        let n = self.entries.len();
        let mut i: usize = n;
        proof {
            assert(self@.subrange(0, n as int) =~= self@);
        }
        while i > 0
            invariant
                i <= n,
                n == self@.len(),
                lookup(self@, key) == lookup(self@.subrange(0, i as int), key),
            decreases i,
        {
            let e = self.entries[i - 1];
            proof {
                assert(self@.subrange(0, i as int).last() == self@[i - 1]);
            }
            if e.0 == key {
                return Some(e.1);
            }
            proof {
                assert(self@.subrange(0, i as int).drop_last() =~= self@.subrange(
                    0,
                    i as int - 1,
                ));
            }
            i = i - 1;
        }
        proof {
            assert(self@.subrange(0, 0) =~= Seq::<(u64, V)>::empty());
        }
        None
    }

    /// Write `(key, v)` at the end of the series: replace the last entry when
    /// it already carries `key`, append otherwise.
    pub fn upsert_at_end(&mut self, key: u64, v: V)
        requires
            old(self).wf(),
            old(self)@.len() > 0 ==> old(self)@.last().0 <= key,
        ensures
            final(self)@ == upserted(old(self)@, key, v),
            final(self).wf(),
    {
        proof {
            lemma_upserted_sorted(self@, key, v);
        }
        let n = self.entries.len();
        if n > 0 && self.entries[n - 1].0 == key {
            self.entries[n - 1] = (key, v);
        } else {
            self.entries.push((key, v));
        }
    }

    /// The number of entries always fits the machine word backing the store.
    pub proof fn lemma_len_fits(&self)
        ensures
            self@.len() <= usize::MAX,
    {
        vstd::std_specs::vec::axiom_spec_len(&self.entries);
    }

    /// Remove the tentative tail entry, if the last entry is keyed beyond
    /// the last finalized key.
    pub fn drop_tentative(&mut self, last: Option<u64>)
        requires
            old(self).wf(),
        ensures
            final(self)@ == pruned(old(self)@, last),
            final(self).wf(),
    {
        let n = self.entries.len();
        if n > 0 {
            let tk = self.entries[n - 1].0;
            let beyond = match last {
                Option::None => true,
                Option::Some(l) => tk > l,
            };
            if beyond {
                self.entries.pop();
                proof {
                    assert(self@ =~= old(self)@.drop_last());
                }
            }
        }
    }

    /// Whether the entry at position `i` falls in the visible key range.
    pub open spec fn entry_in_range(self, i: int, lo: u64, hi: u64) -> bool {
        lo <= self@[i].0 <= hi
    }

    /// Drop every entry.
    pub fn clear(&mut self)
        ensures
            final(self)@ == Seq::<(u64, V)>::empty(),
            final(self).wf(),
    {
        self.entries.clear();
    }
}

impl Series<i128> {
    /// The least and greatest value stored at a key in `lo ..= hi`: the
    /// vertical extent the renderer scales its axis to.  `None` exactly
    /// when no key of the series falls in the range.
    pub fn extent_in_range(&self, lo: u64, hi: u64) -> (r: Option<(i128, i128)>)
        ensures
            (r is None) <==> (forall|j: int|
                0 <= j < self@.len() ==> !self.entry_in_range(j, lo, hi)),
            r matches Option::Some(mm) ==> {
                &&& exists|j: int|
                    0 <= j < self@.len() && self.entry_in_range(j, lo, hi) && self@[j].1 == mm.0
                &&& exists|j: int|
                    0 <= j < self@.len() && self.entry_in_range(j, lo, hi) && self@[j].1 == mm.1
                &&& forall|j: int|
                    0 <= j < self@.len() && self.entry_in_range(j, lo, hi) ==> mm.0
                        <= (#[trigger] self@[j]).1 <= mm.1
            },
    {
        let n = self.entries.len();
        let mut best: Option<(i128, i128)> = Option::None;
        let mut i: usize = 0;
        while i < n
            invariant
                i <= n,
                n == self@.len(),
                (best is None) <==> (forall|j: int|
                    0 <= j < i ==> !self.entry_in_range(j, lo, hi)),
                best matches Option::Some(mm) ==> {
                    &&& exists|j: int|
                        0 <= j < i && self.entry_in_range(j, lo, hi) && self@[j].1 == mm.0
                    &&& exists|j: int|
                        0 <= j < i && self.entry_in_range(j, lo, hi) && self@[j].1 == mm.1
                    &&& forall|j: int|
                        0 <= j < i && self.entry_in_range(j, lo, hi) ==> mm.0
                            <= (#[trigger] self@[j]).1 <= mm.1
                },
            decreases n - i,
        {
            let ghost iv = i as int;
            let ghost prior = best;
            let e = self.entries[i];
            if lo <= e.0 && e.0 <= hi {
                best = match best {
                    Option::None => Option::Some((e.1, e.1)),
                    Option::Some((mn, mx)) => {
                        let mn2 = if e.1 < mn {
                            e.1
                        } else {
                            mn
                        };
                        let mx2 = if e.1 > mx {
                            e.1
                        } else {
                            mx
                        };
                        Option::Some((mn2, mx2))
                    },
                };
                proof {
                    let mm = best.unwrap();
                    assert(self.entry_in_range(iv, lo, hi));
                    if mm.0 == e.1 {
                        assert(0 <= iv < iv + 1 && self.entry_in_range(iv, lo, hi) && self@[iv].1
                            == mm.0);
                    } else {
                        let j0 = choose|j: int|
                            0 <= j < iv && self.entry_in_range(j, lo, hi) && self@[j].1
                                == prior.unwrap().0;
                        assert(0 <= j0 < iv + 1 && self.entry_in_range(j0, lo, hi) && self@[j0].1
                            == mm.0);
                    }
                    if mm.1 == e.1 {
                        assert(0 <= iv < iv + 1 && self.entry_in_range(iv, lo, hi) && self@[iv].1
                            == mm.1);
                    } else {
                        let j1 = choose|j: int|
                            0 <= j < iv && self.entry_in_range(j, lo, hi) && self@[j].1
                                == prior.unwrap().1;
                        assert(0 <= j1 < iv + 1 && self.entry_in_range(j1, lo, hi) && self@[j1].1
                            == mm.1);
                    }
                }
            } else {
                proof {
                    assert(!self.entry_in_range(iv, lo, hi));
                }
            }
            i = i + 1;
        }
        best
    }
}

} // verus!
