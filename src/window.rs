//! Ordered buffer over one series of records, in a bounded streaming mode that
//! evicts the oldest record, or in a batch mode that keeps everything pulled.
use vstd::prelude::*;
use std::collections::VecDeque;
use crate::model::{Candle, MetricSample, MAX_TIMESTAMP};

verus! {

/// A record with a position on the time axis.
pub trait Timed {
    spec fn time(&self) -> int;

    fn timestamp(&self) -> (r: i64)
        ensures
            r == self.time(),
    ;
}

impl Timed for Candle {
    /// A candle counts at its close time.
    open spec fn time(&self) -> int {
        self.close_time as int
    }

    fn timestamp(&self) -> (r: i64) {
        self.close_time
    }
}

impl Timed for MetricSample {
    open spec fn time(&self) -> int {
        self.timestamp as int
    }

    fn timestamp(&self) -> (r: i64) {
        self.timestamp
    }
}

/// First buffered index when `consumed` records have been pulled.
pub open spec fn window_start(consumed: int, size: int, bounded: bool) -> int {
    if bounded && consumed > size {
        consumed - size
    } else {
        0
    }
}

/// Records, pulled in order from an ordered source, of which the window keeps the
/// newest `window_size` (streaming) or all (batch).
pub struct TimeSeriesWindow<T> {
    source: Vec<T>,
    consumed: usize,
    buffer: VecDeque<T>,
    window_size: usize,
    bounded: bool,
}

impl<T: Timed + Copy> TimeSeriesWindow<T> {
    /// Every record of the source, pulled or not.
    pub closed spec fn records(&self) -> Seq<T> {
        self.source@
    }

    /// How many records have been pulled.
    pub closed spec fn pulled(&self) -> nat {
        self.consumed as nat
    }

    pub closed spec fn size(&self) -> nat {
        self.window_size as nat
    }

    pub closed spec fn streaming(&self) -> bool {
        self.bounded
    }

    pub closed spec fn wf(&self) -> bool {
        &&& self.consumed <= self.source@.len()
        &&& self.bounded ==> self.window_size > 0
        &&& self.buffer@ == self.source@.subrange(
            window_start(self.consumed as int, self.window_size as int, self.bounded),
            self.consumed as int,
        )
    }

    /// The buffered records, oldest first.
    pub open spec fn buffered(&self) -> Seq<T> {
        self.records().subrange(
            window_start(self.pulled() as int, self.size() as int, self.streaming()),
            self.pulled() as int,
        )
    }

    /// A well-formed window has pulled no more records than its source holds, and a
    /// streaming one buffers at most `size()` of them.
    pub proof fn lemma_bounds(&self)
        requires
            self.wf(),
        ensures
            self.pulled() <= self.records().len(),
            self.buffered().len() <= self.pulled(),
            self.streaming() ==> 0 < self.size() && self.buffered().len() <= self.size(),
    {
    }

    /// A streaming window over `records` that keeps at most `window_size` of them.
    pub fn new(records: Vec<T>, window_size: usize) -> (r: Self)
        requires
            window_size > 0,
        ensures
            r.wf(),
            r.records() == records@,
            r.pulled() == 0,
            r.size() == window_size,
            r.streaming(),
    {
        let r = TimeSeriesWindow {
            source: records,
            consumed: 0,
            buffer: VecDeque::new(),
            window_size,
            bounded: true,
        };
        assert(r.buffer@ =~= r.source@.subrange(0, 0));
        r
    }

    /// A batch window over `records` that keeps every record it pulls; `initial_size`
    /// is how many records `fill_initial_buffer` pulls.
    pub fn batch(records: Vec<T>, initial_size: usize) -> (r: Self)
        ensures
            r.wf(),
            r.records() == records@,
            r.pulled() == 0,
            r.size() == initial_size,
            !r.streaming(),
    {
        let r = TimeSeriesWindow {
            source: records,
            consumed: 0,
            buffer: VecDeque::new(),
            window_size: initial_size,
            bounded: false,
        };
        assert(r.buffer@ =~= r.source@.subrange(0, 0));
        r
    }

    /// Pulls one record, evicting the oldest when a streaming window overflows.
    fn pull(&mut self)
        requires
            old(self).wf(),
            old(self).pulled() < old(self).records().len(),
        ensures
            final(self).wf(),
            final(self).pulled() == old(self).pulled() + 1,
            final(self).records() == old(self).records(),
            final(self).size() == old(self).size(),
            final(self).streaming() == old(self).streaming(),
    {
        let n = self.source.len();
        let x = self.source[self.consumed];
        self.buffer.push_back(x);
        if self.bounded && self.buffer.len() > self.window_size {
            let _ = self.buffer.pop_front();
        }
        self.consumed = self.consumed + 1;
        assert(self.buffer@ =~= self.source@.subrange(
            window_start(self.consumed as int, self.window_size as int, self.bounded),
            self.consumed as int,
        ));
    }

    /// Pulls records until the buffer holds `size()` of them or the source runs out.
    pub fn fill_initial_buffer(&mut self)
        requires
            old(self).wf(),
        ensures
            final(self).wf(),
            final(self).records() == old(self).records(),
            final(self).size() == old(self).size(),
            final(self).streaming() == old(self).streaming(),
            final(self).pulled() == if old(self).pulled() >= old(self).size() {
                old(self).pulled() as int
            } else if old(self).size() <= old(self).records().len() {
                old(self).size() as int
            } else {
                old(self).records().len() as int
            },
    {
        while self.buffer.len() < self.window_size && self.consumed < self.source.len()
            invariant
                self.wf(),
                self.records() == old(self).records(),
                self.size() == old(self).size(),
                self.streaming() == old(self).streaming(),
                old(self).pulled() <= self.pulled(),
                self.pulled() > old(self).pulled() ==> self.pulled() <= self.size(),
            decreases self.source@.len() - self.consumed,
        {
            self.pull();
        }
    }

    /// Pulls the next record; `None` when the source is exhausted.
    pub fn advance(&mut self) -> (r: Option<T>)
        requires
            old(self).wf(),
        ensures
            final(self).wf(),
            final(self).records() == old(self).records(),
            final(self).size() == old(self).size(),
            final(self).streaming() == old(self).streaming(),
            old(self).pulled() < old(self).records().len() ==> final(self).pulled()
                == old(self).pulled() + 1 && r == Some(
                old(self).records()[old(self).pulled() as int],
            ),
            old(self).pulled() >= old(self).records().len() ==> final(self).pulled()
                == old(self).pulled() && r.is_none(),
    {
        if self.consumed < self.source.len() {
            let x = self.source[self.consumed];
            self.pull();
            Some(x)
        } else {
            None
        }
    }

    /// Pulls records until the newest one is at or after `target`, or the source runs
    /// out; reports whether the target was reached. Never pulls past a record that
    /// reaches it.
    pub fn advance_until(&mut self, target: i64) -> (r: bool)
        requires
            old(self).wf(),
        ensures
            final(self).wf(),
            final(self).records() == old(self).records(),
            final(self).size() == old(self).size(),
            final(self).streaming() == old(self).streaming(),
            old(self).pulled() <= final(self).pulled() <= final(self).records().len(),
            forall|c: int|
                old(self).pulled() <= c < final(self).pulled() ==> !(c > 0 && (
                #[trigger] final(self).records()[c - 1]).time() >= target),
            r == (final(self).pulled() > 0 && final(self).records()[final(self).pulled() - 1].time()
                >= target),
            !r ==> final(self).pulled() == final(self).records().len(),
    {
        loop
            invariant
                self.wf(),
                self.records() == old(self).records(),
                self.size() == old(self).size(),
                self.streaming() == old(self).streaming(),
                old(self).pulled() <= self.pulled() <= self.records().len(),
                forall|c: int|
                    old(self).pulled() <= c < self.pulled() ==> !(c > 0 && (
                    #[trigger] self.records()[c - 1]).time() >= target),
            decreases self.source@.len() - self.consumed,
        {
            if self.consumed > 0 && self.source[self.consumed - 1].timestamp() >= target {
                return true;
            }
            if self.consumed >= self.source.len() {
                return false;
            }
            self.pull();
        }
    }

    /// Pulls records while the newest one closes after `target` and the source lasts.
    pub fn sync_to(&mut self, target: i64)
        requires
            old(self).wf(),
        ensures
            final(self).wf(),
            final(self).records() == old(self).records(),
            final(self).size() == old(self).size(),
            final(self).streaming() == old(self).streaming(),
            old(self).pulled() <= final(self).pulled() <= final(self).records().len(),
            final(self).pulled() > old(self).pulled() ==> old(self).pulled() > 0,
            forall|c: int|
                old(self).pulled() <= c < final(self).pulled() && c > 0 ==> (
                #[trigger] final(self).records()[c - 1]).time() > target,
            final(self).pulled() == 0 || final(self).records()[final(self).pulled() - 1].time()
                <= target || final(self).pulled() == final(self).records().len(),
    {
        loop
            invariant
                self.wf(),
                self.records() == old(self).records(),
                self.size() == old(self).size(),
                self.streaming() == old(self).streaming(),
                old(self).pulled() <= self.pulled() <= self.records().len(),
                self.pulled() > old(self).pulled() ==> old(self).pulled() > 0,
                forall|c: int|
                    old(self).pulled() <= c < self.pulled() && c > 0 ==> (
                    #[trigger] self.records()[c - 1]).time() > target,
            decreases self.source@.len() - self.consumed,
        {
            if self.consumed == 0 || self.consumed >= self.source.len() {
                return;
            }
            if self.source[self.consumed - 1].timestamp() <= target {
                return;
            }
            let ghost c0 = self.consumed as int;
            assert(self.records()[c0 - 1].time() > target);
            self.pull();
            assert(self.records()[c0 - 1].time() > target);
        }
    }

    /// The newest buffered record.
    pub fn current(&self) -> (r: Option<T>)
        requires
            self.wf(),
        ensures
            self.buffered().len() == 0 ==> r.is_none(),
            self.buffered().len() > 0 ==> r == Some(self.buffered().last()),
    {
        let n = self.buffer.len();
        if n == 0 {
            None
        } else {
            Some(self.buffer[n - 1])
        }
    }

    /// The buffered records, oldest first.
    pub fn as_vec(&self) -> (r: Vec<T>)
        requires
            self.wf(),
        ensures
            r@ == self.buffered(),
    {
        let mut out: Vec<T> = Vec::new();
        let mut i: usize = 0;
        while i < self.buffer.len()
            invariant
                self.wf(),
                i <= self.buffer@.len(),
                out@ == self.buffer@.subrange(0, i as int),
            decreases self.buffer@.len() - i,
        {
            out.push(self.buffer[i]);
            i = i + 1;
            assert(out@ =~= self.buffer@.subrange(0, i as int));
        }
        assert(self.buffer@.subrange(0, i as int) =~= self.buffer@);
        out
    }

    pub fn len(&self) -> (r: usize)
        requires
            self.wf(),
        ensures
            r == self.buffered().len(),
    {
        self.buffer.len()
    }

    pub fn is_empty(&self) -> (r: bool)
        requires
            self.wf(),
        ensures
            r == (self.buffered().len() == 0),
    {
        self.buffer.len() == 0
    }

    /// The buffer holds at least `required` records.
    pub fn has_sufficient_data(&self, required: usize) -> (r: bool)
        requires
            self.wf(),
        ensures
            r == (self.buffered().len() >= required),
    {
        self.buffer.len() >= required
    }

    /// The source holds any record at all.
    pub fn has_data(&self) -> (r: bool)
        ensures
            r == (self.records().len() > 0),
    {
        self.source.len() > 0
    }

    /// The buffered records at or before `ts`, in their order.
    pub fn window_at_or_before(&self, ts: i64) -> (r: Vec<T>)
        requires
            self.wf(),
        ensures
            r@ == self.buffered().filter(|x: T| x.time() <= ts),
    {
        let mut out: Vec<T> = Vec::new();
        let mut i: usize = 0;
        let ghost pred = |x: T| x.time() <= ts;
        while i < self.buffer.len()
            invariant
                self.wf(),
                i <= self.buffer@.len(),
                pred == (|x: T| x.time() <= ts),
                out@ == self.buffer@.subrange(0, i as int).filter(pred),
            decreases self.buffer@.len() - i,
        {
            let x = self.buffer[i];
            proof {
                assert(self.buffer@.subrange(0, i + 1) =~= self.buffer@.subrange(0, i as int).push(x));
                self.buffer@.subrange(0, i as int).lemma_filter_push(x, pred);
            }
            if x.timestamp() <= ts {
                out.push(x);
            }
            i = i + 1;
        }
        assert(self.buffer@.subrange(0, i as int) =~= self.buffer@);
        out
    }
}

} // verus!

verus! {

/// Open interest of the newest sample of `s` at or before `target`.
pub open spec fn latest_oi(s: Seq<MetricSample>, target: int) -> Option<int>
    decreases s.len(),
{
    if s.len() == 0 {
        None
    } else if s.last().timestamp <= target {
        Some(s.last().sum_open_interest as int)
    } else {
        latest_oi(s.drop_last(), target)
    }
}

/// Smallest open interest of the samples of `s` timed within `[from, to]`.
pub open spec fn min_oi_between(s: Seq<MetricSample>, from: int, to: int) -> Option<int>
    decreases s.len(),
{
    if s.len() == 0 {
        None
    } else {
        let rest = min_oi_between(s.drop_last(), from, to);
        let x = s.last();
        if from <= x.timestamp <= to {
            crate::signal::min_opt(rest, Some(x.sum_open_interest as int))
        } else {
            rest
        }
    }
}

impl TimeSeriesWindow<MetricSample> {
    /// Open interest of the newest buffered sample at or before `target`.
    pub fn get_current_oi(&self, target: i64) -> (r: Option<u64>)
        requires
            self.wf(),
        ensures
            r.is_some() == latest_oi(self.buffered(), target as int).is_some(),
            r.is_some() ==> r.unwrap() as int == latest_oi(self.buffered(), target as int).unwrap(),
    {
        let mut i: usize = self.buffer.len();
        assert(self.buffer@.subrange(0, i as int) =~= self.buffer@);
        while i > 0
            invariant
                self.wf(),
                i <= self.buffer@.len(),
                latest_oi(self.buffer@, target as int) == latest_oi(
                    self.buffer@.subrange(0, i as int),
                    target as int,
                ),
            decreases i,
        {
            let m = self.buffer[i - 1];
            assert(self.buffer@.subrange(0, i as int).drop_last() =~= self.buffer@.subrange(
                0,
                i - 1,
            ));
            if m.timestamp <= target {
                return Some(m.sum_open_interest);
            }
            i = i - 1;
        }
        None
    }

    /// Smallest open interest of the buffered samples within `lookback_ms` before `target`.
    pub fn get_min_oi(&self, target: i64, lookback_ms: i64) -> (r: Option<u64>)
        requires
            self.wf(),
            0 <= lookback_ms <= MAX_TIMESTAMP,
            0 <= target <= MAX_TIMESTAMP,
        ensures
            r.is_some() == min_oi_between(self.buffered(), target - lookback_ms, target as int).is_some(),
            r.is_some() ==> r.unwrap() as int == min_oi_between(
                self.buffered(),
                target - lookback_ms,
                target as int,
            ).unwrap(),
    {
        let from = target - lookback_ms;
        let mut acc: Option<u64> = None;
        let mut i: usize = 0;
        while i < self.buffer.len()
            invariant
                self.wf(),
                i <= self.buffer@.len(),
                from == target - lookback_ms,
                min_oi_between(self.buffer@.subrange(0, i as int), from as int, target as int)
                    == match acc {
                    None => None,
                    Some(v) => Some(v as int),
                },
            decreases self.buffer@.len() - i,
        {
            let m = self.buffer[i];
            assert(self.buffer@.subrange(0, i + 1).drop_last() =~= self.buffer@.subrange(
                0,
                i as int,
            ));
            if from <= m.timestamp && m.timestamp <= target {
                acc = match acc {
                    None => Some(m.sum_open_interest),
                    Some(v) => Some(if v < m.sum_open_interest { v } else { m.sum_open_interest }),
                };
            }
            i = i + 1;
        }
        assert(self.buffer@.subrange(0, i as int) =~= self.buffer@);
        acc
    }
}

} // verus!
