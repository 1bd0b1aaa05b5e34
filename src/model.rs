//! Records the engine consumes: candles, open-interest samples and exact ratios.
use vstd::prelude::*;

verus! {

/// Largest close price, in ticks (fixed-point units chosen by the caller), that a candle may carry.
pub const MAX_PRICE: u64 = 1_099_511_627_776;

/// Largest volume, in volume ticks, that a candle may carry.
pub const MAX_VOLUME: u64 = 281_474_976_710_656;

/// Largest open-interest value, in ticks, that a sample may carry.
pub const MAX_OPEN_INTEREST: u64 = 1_152_921_504_606_846_976;

/// Largest timestamp (milliseconds since the epoch) that a record may carry.
pub const MAX_TIMESTAMP: i64 = 4_611_686_018_427_387_904;

/// Largest rolling-window length.
pub const MAX_PERIOD: usize = 4096;

/// Largest numerator or denominator of a multiplier.
pub const MAX_RATIO_TERM: u64 = 1024;

/// Why the engine could not produce a value.
#[derive(Clone, Copy, Debug, PartialEq, Eq)]
pub enum ScanError {
    /// Fewer records than the window needs.
    InsufficientData { required: usize, actual: usize },
}

/// One interval tick of a symbol. Prices and volume are fixed-point integers.
#[derive(Clone, Copy, Debug, PartialEq, Eq)]
pub struct Candle {
    pub open_time: i64,
    pub open: u64,
    pub high: u64,
    pub low: u64,
    pub close: u64,
    pub volume: u64,
    pub close_time: i64,
}

/// An open-interest snapshot.
#[derive(Clone, Copy, Debug, PartialEq, Eq)]
pub struct MetricSample {
    pub timestamp: i64,
    pub sum_open_interest: u64,
}

/// An exact non-negative multiplier `num / den`.
#[derive(Clone, Copy, Debug, PartialEq, Eq)]
pub struct Ratio {
    pub num: u64,
    pub den: u64,
}

impl Ratio {
    pub open spec fn wf(self) -> bool {
        0 < self.den <= MAX_RATIO_TERM && self.num <= MAX_RATIO_TERM
    }

    /// Builds `num / den`; `None` when a term is out of range or the denominator is zero.
    pub fn new(num: u64, den: u64) -> (r: Option<Ratio>)
        ensures
            r.is_some() <==> (0 < den <= MAX_RATIO_TERM && num <= MAX_RATIO_TERM),
            r.is_some() ==> r.unwrap() == (Ratio { num, den }),
    {
        if 0 < den && den <= MAX_RATIO_TERM && num <= MAX_RATIO_TERM {
            Some(Ratio { num, den })
        } else {
            None
        }
    }
}

impl Candle {
    /// The admission rule for a candle, together with the ranges the engine computes in.
    pub open spec fn wf(self) -> bool {
        &&& 0 <= self.open_time < self.close_time <= MAX_TIMESTAMP
        &&& 0 < self.close <= MAX_PRICE
        &&& self.volume <= MAX_VOLUME
    }

    pub fn is_valid(&self) -> (r: bool)
        ensures
            r == self.wf(),
    {
        0 <= self.open_time && self.open_time < self.close_time && self.close_time <= MAX_TIMESTAMP
            && 0 < self.close && self.close <= MAX_PRICE && self.volume <= MAX_VOLUME
    }
}

impl MetricSample {
    pub open spec fn wf(self) -> bool {
        &&& 0 <= self.timestamp <= MAX_TIMESTAMP
        &&& self.sum_open_interest <= MAX_OPEN_INTEREST
    }

    pub fn is_valid(&self) -> (r: bool)
        ensures
            r == self.wf(),
    {
        0 <= self.timestamp && self.timestamp <= MAX_TIMESTAMP
            && self.sum_open_interest <= MAX_OPEN_INTEREST
    }
}

/// Every candle is admitted and close times strictly increase.
pub open spec fn candles_ok(cs: Seq<Candle>) -> bool {
    &&& forall|i: int| 0 <= i < cs.len() ==> (#[trigger] cs[i]).wf()
    &&& forall|i: int, j: int| 0 <= i < j < cs.len() ==> cs[i].close_time < cs[j].close_time
}

/// Every sample is in range and timestamps never decrease.
pub open spec fn samples_ok(ms: Seq<MetricSample>) -> bool {
    &&& forall|i: int| 0 <= i < ms.len() ==> (#[trigger] ms[i]).wf()
    &&& forall|i: int, j: int| 0 <= i < j < ms.len() ==> ms[i].timestamp <= ms[j].timestamp
}

/// Checks that a candle series is admissible for the engine.
pub fn check_candles(cs: &Vec<Candle>) -> (r: bool)
    ensures
        r == candles_ok(cs@),
{
    let mut i: usize = 0;
    while i < cs.len()
        invariant
            i <= cs.len(),
            forall|a: int| 0 <= a < i ==> (#[trigger] cs@[a]).wf(),
            forall|a: int, b: int| 0 <= a < b < i ==> cs@[a].close_time < cs@[b].close_time,
        decreases cs.len() - i,
    {
        if !cs[i].is_valid() {
            return false;
        }
        if i > 0 && cs[i - 1].close_time >= cs[i].close_time {
            return false;
        }
        i = i + 1;
    }
    true
}

/// Checks that an open-interest series is admissible for the engine.
pub fn check_samples(ms: &Vec<MetricSample>) -> (r: bool)
    ensures
        r == samples_ok(ms@),
{
    let mut i: usize = 0;
    while i < ms.len()
        invariant
            i <= ms.len(),
            forall|a: int| 0 <= a < i ==> (#[trigger] ms@[a]).wf(),
            forall|a: int, b: int| 0 <= a < b < i ==> ms@[a].timestamp <= ms@[b].timestamp,
        decreases ms.len() - i,
    {
        if !ms[i].is_valid() {
            return false;
        }
        if i > 0 && ms[i - 1].timestamp > ms[i].timestamp {
            return false;
        }
        i = i + 1;
    }
    true
}

} // verus!
