//! The range tracker: a monotone accumulator of the least and greatest
//! height seen, and the exact minimum and maximum of a finished buffer.

use crate::fixed::ints_of;
use vstd::math::{max, min};
use vstd::prelude::*;

verus! {

/// The least height in a non-empty sequence.
pub open spec fn seq_min(s: Seq<int>) -> int
    decreases s.len(),
{
    if s.len() <= 1 {
        s[0]
    } else {
        min(seq_min(s.drop_last()), s.last())
    }
}

/// The greatest height in a non-empty sequence.
pub open spec fn seq_max(s: Seq<int>) -> int
    decreases s.len(),
{
    if s.len() <= 1 {
        s[0]
    } else {
        max(seq_max(s.drop_last()), s.last())
    }
}

/// Every element of a non-empty sequence lies between its minimum and its
/// maximum.
pub proof fn lemma_min_max_contain_all(s: Seq<int>)
    requires
        s.len() >= 1,
    ensures
        forall|i: int| 0 <= i < s.len() ==> seq_min(s) <= #[trigger] s[i] <= seq_max(s),
    decreases s.len(),
{
    if s.len() > 1 {
        lemma_min_max_contain_all(s.drop_last());
        assert(forall|i: int| 0 <= i < s.len() - 1 ==> s.drop_last()[i] == s[i]);
    }
}

/// Accumulates the least and the greatest height observed so far. The pair
/// only ever widens: the minimum never rises and the maximum never falls.
pub struct RangeTracker {
    lo: i64,
    hi: i64,
}

impl RangeTracker {
    /// The least height observed.
    pub closed spec fn min_spec(&self) -> int {
        self.lo as int
    }

    /// The greatest height observed.
    pub closed spec fn max_spec(&self) -> int {
        self.hi as int
    }

    #[verifier::type_invariant]
    spec fn inv(&self) -> bool {
        self.lo <= self.hi
    }

    /// Starts tracking with a first observation: both bounds are `v`.
    pub fn new(v: i64) -> (t: Self)
        ensures
            t.min_spec() == v as int,
            t.max_spec() == v as int,
    {
        RangeTracker { lo: v, hi: v }
    }

    /// Widens the tracked pair to include `v`.
    pub fn observe(&mut self, v: i64)
        ensures
            final(self).min_spec() == min(old(self).min_spec(), v as int),
            final(self).max_spec() == max(old(self).max_spec(), v as int),
    {
        proof {
            use_type_invariant(&*self);
        }
        if v < self.lo {
            self.lo = v;
        }
        if v > self.hi {
            self.hi = v;
        }
    }

    /// The tracked pair, least first.
    pub fn current(&self) -> (r: (i64, i64))
        ensures
            r.0 as int == self.min_spec(),
            r.1 as int == self.max_spec(),
            r.0 <= r.1,
    {
        proof {
            use_type_invariant(self);
        }
        (self.lo, self.hi)
    }
}

/// Observes every height of a non-empty buffer in order and returns the
/// exact minimum and maximum.
pub(crate) fn scan_range(cells: &Vec<i64>) -> (r: (i64, i64))
    requires
        cells@.len() >= 1,
    ensures
        r.0 as int == seq_min(ints_of(cells@)),
        r.1 as int == seq_max(ints_of(cells@)),
        r.0 <= r.1,
{
    let ghost s = ints_of(cells@);
    let mut tracker = RangeTracker::new(cells[0]);
    let mut i: usize = 1;
    while i < cells.len()
        invariant
            1 <= i <= cells@.len(),
            s == ints_of(cells@),
            s.len() == cells@.len(),
            tracker.min_spec() == seq_min(s.take(i as int)),
            tracker.max_spec() == seq_max(s.take(i as int)),
        decreases cells@.len() - i,
    {
        tracker.observe(cells[i]);
        proof {
            assert(s.take(i + 1).drop_last() =~= s.take(i as int));
            assert(s.take(i + 1).last() == s[i as int]);
        }
        i += 1;
    }
    proof {
        assert(s.take(s.len() as int) =~= s);
    }
    tracker.current()
}

} // verus!
