//! Cursors that keep a coarser series in step with the primary clock.
use vstd::prelude::*;

verus! {

/// Times never decrease.
pub open spec fn times_sorted(times: Seq<i64>) -> bool {
    forall|i: int, j: int| 0 <= i <= j < times.len() ==> times[i] <= times[j]
}

/// How many of `times[0..hi)` are at or before `t`.
pub open spec fn closed_count(times: Seq<i64>, hi: int, t: int) -> nat
    decreases hi,
{
    if hi <= 0 {
        0
    } else {
        closed_count(times, hi - 1, t) + if times[hi - 1] <= t {
            1nat
        } else {
            0nat
        }
    }
}

/// Index of the latest element closed at or before `t` (0 when none is).
pub open spec fn latest_closed(times: Seq<i64>, t: int) -> int {
    let c = closed_count(times, times.len() as int, t);
    if c > 0 {
        c - 1
    } else {
        0
    }
}

/// Some element is closed at or before `t`.
pub open spec fn is_aligned(times: Seq<i64>, t: int) -> bool {
    closed_count(times, times.len() as int, t) > 0
}

/// On sorted times the elements closed at or before `t` form a prefix.
pub proof fn lemma_closed_prefix(times: Seq<i64>, hi: int, t: int)
    requires
        0 <= hi <= times.len(),
        times_sorted(times),
    ensures
        closed_count(times, hi, t) <= hi,
        forall|j: int| 0 <= j < hi ==> (times[j] <= t <==> j < closed_count(times, hi, t)),
    decreases hi,
{
    if hi > 0 {
        lemma_closed_prefix(times, hi - 1, t);
    }
}

/// A later time closes at least as many elements.
pub proof fn lemma_closed_monotone(times: Seq<i64>, hi: int, t: int, u: int)
    requires
        0 <= hi <= times.len(),
        t <= u,
    ensures
        closed_count(times, hi, t) <= closed_count(times, hi, u),
    decreases hi,
{
    if hi > 0 {
        lemma_closed_monotone(times, hi - 1, t, u);
    }
}

/// A cursor into one secondary series, driven forward by the primary clock.
#[derive(Clone, Copy, Debug, PartialEq, Eq)]
pub struct TimeframeAligner {
    pub pos: usize,
}

impl TimeframeAligner {
    pub fn new() -> (r: TimeframeAligner)
        ensures
            r.pos == 0,
    {
        TimeframeAligner { pos: 0 }
    }

    /// Moves forward while the next element has closed at or before `t`, and reports
    /// whether the element under the cursor has closed at or before `t`. The cursor
    /// never moves backward and stays inside the series.
    pub fn advance_to(&mut self, times: &[i64], t: i64) -> (aligned: bool)
        requires
            old(self).pos < times@.len(),
        ensures
            old(self).pos <= final(self).pos < times@.len(),
            final(self).pos + 1 == times@.len() || times@[final(self).pos + 1] > t,
            forall|j: int| old(self).pos < j <= final(self).pos ==> times@[j] <= t,
            aligned == (times@[final(self).pos as int] <= t),
    {
        let len = times.len();
        while self.pos + 1 < len && times[self.pos + 1] <= t
            invariant
                len == times@.len(),
                old(self).pos <= self.pos < len,
                forall|j: int| old(self).pos < j <= self.pos ==> times@[j] <= t,
            decreases len - self.pos,
        {
            self.pos = self.pos + 1;
        }
        times[self.pos] <= t
    }
}

/// On sorted times, a cursor that stood at the latest element closed by an earlier
/// time lands, after `advance_to(t)`, on the latest element closed by `t`.
pub proof fn lemma_cursor_lands(times: Seq<i64>, prev: int, t: int, p0: int, p1: int)
    requires
        times_sorted(times),
        prev <= t,
        0 <= p0 <= p1 < times.len(),
        p0 == latest_closed(times, prev),
        p1 + 1 == times.len() || times[p1 + 1] > t,
        forall|j: int| p0 < j <= p1 ==> times[j] <= t,
    ensures
        p1 == latest_closed(times, t),
        (times[p1] <= t) == is_aligned(times, t),
{
    let n = times.len() as int;
    lemma_closed_prefix(times, n, t);
    lemma_closed_prefix(times, n, prev);
    lemma_closed_monotone(times, n, prev, t);
}

} // verus!
