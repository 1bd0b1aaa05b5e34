//! Rolling mean / variance over a trailing window of closes, kept as exact moments.
//!
//! A `Band` stores the sum `S` and the sum of squares `Q` of `n` closes. With
//! `mean = S / n` and `variance = max(0, Q / n - mean^2) = max(0, n·Q - S^2) / n^2`,
//! a price `p` lies above `upper = mean + k·σ` exactly when `n·p - S > 0` and
//! `(n·p - S)^2 > k^2 · max(0, n·Q - S^2)`. Every comparison below is decided that
//! way, in integers, with no rounding.
use vstd::prelude::*;
use crate::model::{Candle, Ratio, MAX_PERIOD, MAX_PRICE, MAX_RATIO_TERM};

verus! {

/// Sum of the closes of `cs[lo..hi)`.
pub open spec fn close_sum(cs: Seq<Candle>, lo: int, hi: int) -> int
    decreases hi - lo,
{
    if hi <= lo {
        0
    } else {
        close_sum(cs, lo, hi - 1) + cs[hi - 1].close
    }
}

/// Sum of the squared closes of `cs[lo..hi)`.
pub open spec fn close_sq_sum(cs: Seq<Candle>, lo: int, hi: int) -> int
    decreases hi - lo,
{
    if hi <= lo {
        0
    } else {
        close_sq_sum(cs, lo, hi - 1) + cs[hi - 1].close * cs[hi - 1].close
    }
}

/// Closes of `cs[lo..hi)` that are at most `MAX_PRICE`.
pub open spec fn closes_bounded(cs: Seq<Candle>, lo: int, hi: int) -> bool {
    forall|i: int| lo <= i < hi ==> (#[trigger] cs[i]).close <= MAX_PRICE
}

pub proof fn lemma_sums_bounded(cs: Seq<Candle>, lo: int, hi: int)
    requires
        lo <= hi,
        closes_bounded(cs, lo, hi),
    ensures
        0 <= close_sum(cs, lo, hi) <= (hi - lo) * MAX_PRICE,
        0 <= close_sq_sum(cs, lo, hi) <= (hi - lo) * (MAX_PRICE * MAX_PRICE),
    decreases hi - lo,
{
    if hi > lo {
        lemma_sums_bounded(cs, lo, hi - 1);
        let c = cs[hi - 1].close as int;
        assert(0 <= c * c <= MAX_PRICE * MAX_PRICE) by (nonlinear_arith)
            requires
                0 <= c <= MAX_PRICE,
        ;
        assert((hi - 1 - lo) * MAX_PRICE + MAX_PRICE == (hi - lo) * MAX_PRICE) by (nonlinear_arith);
        assert((hi - 1 - lo) * (MAX_PRICE * MAX_PRICE) + MAX_PRICE * MAX_PRICE == (hi - lo) * (
        MAX_PRICE * MAX_PRICE)) by (nonlinear_arith);
    }
}

/// Bollinger statistics of one trailing window: `period` closes with sum `sum`
/// and sum of squares `sum_sq`, and the band width multiplier `k`.
#[derive(Clone, Copy, Debug, PartialEq, Eq)]
pub struct Band {
    pub sum: u64,
    pub sum_sq: u128,
    pub period: u64,
    pub k: Ratio,
}

impl Band {
    pub open spec fn wf(self) -> bool {
        &&& 0 < self.period <= MAX_PERIOD
        &&& self.k.wf()
        &&& self.sum <= self.period * MAX_PRICE
        &&& self.sum_sq <= self.period * (MAX_PRICE * MAX_PRICE)
    }

    /// `n^2 · variance`, clamped at zero.
    pub open spec fn spread(self) -> int {
        let v = self.period * self.sum_sq - self.sum * self.sum;
        if v > 0 {
            v
        } else {
            0
        }
    }

    /// `n · (p - mean)`.
    pub open spec fn gap(self, p: int) -> int {
        self.period * p - self.sum
    }

    /// `p > mean + k·σ`.
    pub open spec fn spec_above_upper(self, p: int) -> bool {
        let d = self.gap(p);
        d > 0 && self.k.den * self.k.den * (d * d) > self.k.num * self.k.num * self.spread()
    }

    /// `p < mean + k·σ`.
    pub open spec fn spec_below_upper(self, p: int) -> bool {
        let d = self.gap(p);
        d < 0 || self.k.den * self.k.den * (d * d) < self.k.num * self.k.num * self.spread()
    }

    /// `p < mean - k·σ`.
    pub open spec fn spec_below_lower(self, p: int) -> bool {
        let d = self.gap(p);
        d < 0 && self.k.den * self.k.den * (d * d) > self.k.num * self.k.num * self.spread()
    }

    /// `p > mean`.
    pub open spec fn spec_above_middle(self, p: int) -> bool {
        self.gap(p) > 0
    }

    /// `p < mean`.
    pub open spec fn spec_below_middle(self, p: int) -> bool {
        self.gap(p) < 0
    }

    /// Returns `(n·p - S >= 0, |n·p - S|, k.den^2 · (n·p - S)^2, k.num^2 · spread)`.
    fn terms(&self, p: u64) -> (r: (bool, u128, u128))
        requires
            self.wf(),
            p <= MAX_PRICE,
        ensures
            r.0 == (self.gap(p as int) >= 0),
            r.1 == self.k.den * self.k.den * (self.gap(p as int) * self.gap(p as int)),
            r.2 == self.k.num * self.k.num * self.spread(),
    {
        let n = self.period as u128;
        let s = self.sum as u128;
        let q = self.sum_sq;
        let kd = self.k.den as u128;
        let kn = self.k.num as u128;
        proof {
            assert(n * (p as int) <= MAX_PERIOD * MAX_PRICE) by (nonlinear_arith)
                requires
                    n <= MAX_PERIOD,
                    p <= MAX_PRICE,
            ;
            assert(s <= MAX_PERIOD * MAX_PRICE) by (nonlinear_arith)
                requires
                    s <= n * MAX_PRICE,
                    n <= MAX_PERIOD,
            ;
            assert(q <= MAX_PERIOD * (MAX_PRICE * MAX_PRICE)) by (nonlinear_arith)
                requires
                    q <= n * (MAX_PRICE * MAX_PRICE),
                    n <= MAX_PERIOD,
            ;
            assert(n * q <= MAX_PERIOD * (MAX_PERIOD * (MAX_PRICE * MAX_PRICE))) by (nonlinear_arith)
                requires
                    q <= MAX_PERIOD * (MAX_PRICE * MAX_PRICE),
                    n <= MAX_PERIOD,
            ;
            assert(s * s <= (MAX_PERIOD * MAX_PRICE) * (MAX_PERIOD * MAX_PRICE)) by (nonlinear_arith)
                requires
                    s <= MAX_PERIOD * MAX_PRICE,
            ;
            assert(kd * kd <= MAX_RATIO_TERM * MAX_RATIO_TERM) by (nonlinear_arith)
                requires
                    kd <= MAX_RATIO_TERM,
            ;
            assert(kn * kn <= MAX_RATIO_TERM * MAX_RATIO_TERM) by (nonlinear_arith)
                requires
                    kn <= MAX_RATIO_TERM,
            ;
        }
        let np = n * (p as u128);
        let (nonneg, d) = if np >= s {
            (true, np - s)
        } else {
            (false, s - np)
        };
        let nq = n * q;
        let ss = s * s;
        let spread: u128 = if nq > ss {
            nq - ss
        } else {
            0
        };
        proof {
            assert(d <= MAX_PERIOD * MAX_PRICE);
            assert(d * d <= (MAX_PERIOD * MAX_PRICE) * (MAX_PERIOD * MAX_PRICE)) by (nonlinear_arith)
                requires
                    d <= MAX_PERIOD * MAX_PRICE,
            ;
            assert((kd * kd) * (d * d) <= (MAX_RATIO_TERM * MAX_RATIO_TERM) * ((MAX_PERIOD
                * MAX_PRICE) * (MAX_PERIOD * MAX_PRICE))) by (nonlinear_arith)
                requires
                    d * d <= (MAX_PERIOD * MAX_PRICE) * (MAX_PERIOD * MAX_PRICE),
                    kd * kd <= MAX_RATIO_TERM * MAX_RATIO_TERM,
            ;
            assert((kn * kn) * spread <= (MAX_RATIO_TERM * MAX_RATIO_TERM) * (MAX_PERIOD * (
            MAX_PERIOD * (MAX_PRICE * MAX_PRICE)))) by (nonlinear_arith)
                requires
                    spread <= MAX_PERIOD * (MAX_PERIOD * (MAX_PRICE * MAX_PRICE)),
                    kn * kn <= MAX_RATIO_TERM * MAX_RATIO_TERM,
            ;
            let g = self.gap(p as int);
            assert(d * d == g * g) by (nonlinear_arith)
                requires
                    d == g || d == -g,
            ;
        }
        (nonneg, (kd * kd) * (d * d), (kn * kn) * spread)
    }

    /// Whether `p` lies strictly above the upper band.
    pub fn above_upper(&self, p: u64) -> (r: bool)
        requires
            self.wf(),
            p <= MAX_PRICE,
        ensures
            r == self.spec_above_upper(p as int),
    {
        let (nonneg, lhs, rhs) = self.terms(p);
        proof {
            let g = self.gap(p as int);
            if g == 0 {
                assert(self.k.den * self.k.den * (g * g) == 0) by (nonlinear_arith)
                    requires
                        g == 0,
                ;
                assert(self.k.num * self.k.num * self.spread() >= 0) by (nonlinear_arith)
                    requires
                        self.spread() >= 0,
                ;
            }
        }
        nonneg && lhs > rhs
    }

    /// Whether `p` lies strictly below the upper band.
    pub fn below_upper(&self, p: u64) -> (r: bool)
        requires
            self.wf(),
            p <= MAX_PRICE,
        ensures
            r == self.spec_below_upper(p as int),
    {
        let (nonneg, lhs, rhs) = self.terms(p);
        !nonneg || lhs < rhs
    }

    /// Whether `p` lies strictly below the lower band.
    pub fn below_lower(&self, p: u64) -> (r: bool)
        requires
            self.wf(),
            p <= MAX_PRICE,
        ensures
            r == self.spec_below_lower(p as int),
    {
        let (nonneg, lhs, rhs) = self.terms(p);
        !nonneg && lhs > rhs
    }

    /// Whether `p` lies strictly above the middle band.
    pub fn above_middle(&self, p: u64) -> (r: bool)
        requires
            self.wf(),
            p <= MAX_PRICE,
        ensures
            r == self.spec_above_middle(p as int),
    {
        proof {
            assert(self.period * p <= MAX_PERIOD * MAX_PRICE) by (nonlinear_arith)
                requires
                    self.period <= MAX_PERIOD,
                    p <= MAX_PRICE,
            ;
        }
        (self.period as u128) * (p as u128) > self.sum as u128
    }

    /// Whether `p` lies strictly below the middle band.
    pub fn below_middle(&self, p: u64) -> (r: bool)
        requires
            self.wf(),
            p <= MAX_PRICE,
        ensures
            r == self.spec_below_middle(p as int),
    {
        proof {
            assert(self.period * p <= MAX_PERIOD * MAX_PRICE) by (nonlinear_arith)
                requires
                    self.period <= MAX_PERIOD,
                    p <= MAX_PRICE,
            ;
        }
        ((self.period as u128) * (p as u128)) < self.sum as u128
    }
}

} // verus!

verus! {

/// A level that closes are compared against.
#[derive(Clone, Copy, Debug, PartialEq, Eq)]
pub enum Level {
    /// The price `num / den`, in ticks.
    Price { num: u64, den: u64 },
    /// The upper line of a band.
    Upper(Band),
    /// The middle line (moving average) of a band.
    Middle(Band),
}

impl Level {
    pub open spec fn wf(self) -> bool {
        match self {
            Level::Price { num, den } => den > 0,
            Level::Upper(b) => b.wf(),
            Level::Middle(b) => b.wf(),
        }
    }

    /// `p` lies strictly below this level.
    pub open spec fn spec_is_above(self, p: int) -> bool {
        match self {
            Level::Price { num, den } => p * den < num,
            Level::Upper(b) => b.spec_below_upper(p),
            Level::Middle(b) => b.spec_below_middle(p),
        }
    }

    pub fn is_above(&self, p: u64) -> (r: bool)
        requires
            self.wf(),
            p <= MAX_PRICE,
        ensures
            r == self.spec_is_above(p as int),
    {
        match self {
            Level::Price { num, den } => {
                proof {
                    assert(p * *den <= MAX_PRICE * 0xffff_ffff_ffff_ffff) by (nonlinear_arith)
                        requires
                            p <= MAX_PRICE,
                            *den <= 0xffff_ffff_ffff_ffff,
                    ;
                }
                (p as u128) * (*den as u128) < *num as u128
            },
            Level::Upper(b) => b.below_upper(p),
            Level::Middle(b) => b.below_middle(p),
        }
    }
}

/// Number of candles of `cs[lo..hi)` whose close lies strictly below `level`.
pub open spec fn count_below(cs: Seq<Candle>, lo: int, hi: int, level: Level) -> nat
    decreases hi - lo,
{
    if hi <= lo {
        0
    } else {
        count_below(cs, lo, hi - 1, level) + if level.spec_is_above(cs[hi - 1].close as int) {
            1nat
        } else {
            0nat
        }
    }
}

pub proof fn lemma_count_below_le(cs: Seq<Candle>, lo: int, hi: int, level: Level)
    requires
        lo <= hi,
    ensures
        count_below(cs, lo, hi, level) <= hi - lo,
    decreases hi - lo,
{
    if hi > lo {
        lemma_count_below_le(cs, lo, hi - 1, level);
    }
}

/// Band of the `n` closes starting at index `start`.
pub open spec fn is_window_band(b: Band, cs: Seq<Candle>, start: int, n: int, k: Ratio) -> bool {
    &&& b.sum == close_sum(cs, start, start + n)
    &&& b.sum_sq == close_sq_sum(cs, start, start + n)
    &&& b.period == n
    &&& b.k == k
}

/// Sum and sum of squares kept up to date by sliding: the window at `j` is the
/// window at `j - 1` minus the close leaving it plus the close entering it.
pub open spec fn sliding_sums(cs: Seq<Candle>, n: int, j: int) -> (int, int)
    decreases j,
{
    if j <= 0 {
        (close_sum(cs, 0, n), close_sq_sum(cs, 0, n))
    } else {
        let prev = sliding_sums(cs, n, j - 1);
        let out = cs[j - 1].close as int;
        let inc = cs[j - 1 + n].close as int;
        (prev.0 - out + inc, prev.1 - out * out + inc * inc)
    }
}

proof fn lemma_sums_split_front(cs: Seq<Candle>, lo: int, hi: int)
    requires
        lo < hi,
    ensures
        close_sum(cs, lo, hi) == cs[lo].close + close_sum(cs, lo + 1, hi),
        close_sq_sum(cs, lo, hi) == cs[lo].close * cs[lo].close + close_sq_sum(cs, lo + 1, hi),
    decreases hi - lo,
{
    if hi > lo + 1 {
        lemma_sums_split_front(cs, lo, hi - 1);
        assert(close_sum(cs, lo + 1, hi) == close_sum(cs, lo + 1, hi - 1) + cs[hi - 1].close);
        assert(close_sq_sum(cs, lo + 1, hi) == close_sq_sum(cs, lo + 1, hi - 1) + cs[hi - 1].close
            * cs[hi - 1].close);
    } else {
        assert(close_sum(cs, lo, lo) == 0);
        assert(close_sum(cs, lo + 1, hi) == 0);
        assert(close_sq_sum(cs, lo, lo) == 0);
        assert(close_sq_sum(cs, lo + 1, hi) == 0);
    }
}

/// Moving a window one step forward changes its sums by the close that leaves and
/// the close that enters.
pub proof fn lemma_slide(cs: Seq<Candle>, lo: int, hi: int)
    requires
        lo < hi,
    ensures
        close_sum(cs, lo + 1, hi + 1) == close_sum(cs, lo, hi) - cs[lo].close + cs[hi].close,
        close_sq_sum(cs, lo + 1, hi + 1) == close_sq_sum(cs, lo, hi) - cs[lo].close * cs[lo].close
            + cs[hi].close * cs[hi].close,
{
    lemma_sums_split_front(cs, lo, hi);
    lemma_sums_split_front(cs, lo, hi + 1);
}

/// Incremental and from-scratch computation agree: after any number of slides the
/// running sums equal the sums taken afresh over the current window.
pub proof fn lemma_sliding_matches_scratch(cs: Seq<Candle>, n: int, j: int)
    requires
        0 < n,
        0 <= j,
    ensures
        sliding_sums(cs, n, j) == (close_sum(cs, j, j + n), close_sq_sum(cs, j, j + n)),
    decreases j,
{
    if j > 0 {
        lemma_sliding_matches_scratch(cs, n, j - 1);
        lemma_slide(cs, j - 1, j - 1 + n);
    }
}

/// Computes bands of a fixed window length and multiplier.
#[derive(Clone, Copy, Debug, PartialEq, Eq)]
pub struct BollingerCalculator {
    pub period: usize,
    pub std_dev_multiplier: Ratio,
}

impl BollingerCalculator {
    pub open spec fn wf(self) -> bool {
        0 < self.period <= MAX_PERIOD && self.std_dev_multiplier.wf()
    }

    pub fn new(period: usize, std_dev_multiplier: Ratio) -> (r: BollingerCalculator)
        ensures
            r.period == period,
            r.std_dev_multiplier == std_dev_multiplier,
    {
        BollingerCalculator { period, std_dev_multiplier }
    }

    /// Band of the last `period` closes, or `InsufficientData` when there are fewer.
    pub fn calculate(&self, klines: &[Candle]) -> (r: Result<Band, crate::model::ScanError>)
        requires
            self.wf(),
            closes_bounded(klines@, 0, klines@.len() as int),
        ensures
            klines@.len() < self.period <==> r.is_err(),
            r.is_err() ==> r == Err::<Band, crate::model::ScanError>(
                crate::model::ScanError::InsufficientData {
                    required: self.period,
                    actual: klines@.len() as usize,
                },
            ),
            r.is_ok() ==> is_window_band(
                r.unwrap(),
                klines@,
                klines@.len() - self.period,
                self.period as int,
                self.std_dev_multiplier,
            ),
            r.is_ok() ==> r.unwrap().wf(),
    {
        let len = klines.len();
        if len < self.period {
            return Err(crate::model::ScanError::InsufficientData { required: self.period, actual: len });
        }
        let start = len - self.period;
        let mut sum: u64 = 0;
        let mut sum_sq: u128 = 0;
        let mut i: usize = start;
        while i < len
            invariant
                start <= i <= len,
                start == klines@.len() - self.period,
                len == klines@.len(),
                self.wf(),
                closes_bounded(klines@, 0, klines@.len() as int),
                sum == close_sum(klines@, start as int, i as int),
                sum_sq == close_sq_sum(klines@, start as int, i as int),
            decreases len - i,
        {
            proof {
                assert(closes_bounded(klines@, start as int, i + 1));
                lemma_sums_bounded(klines@, start as int, i + 1);
                assert((i + 1 - start) * MAX_PRICE <= MAX_PERIOD * MAX_PRICE) by (nonlinear_arith)
                    requires
                        i + 1 - start <= MAX_PERIOD,
                ;
                assert((i + 1 - start) * (MAX_PRICE * MAX_PRICE) <= MAX_PERIOD * (MAX_PRICE
                    * MAX_PRICE)) by (nonlinear_arith)
                    requires
                        i + 1 - start <= MAX_PERIOD,
                ;
            }
            let c = klines[i].close;
            sum = sum + c;
            sum_sq = sum_sq + (c as u128) * (c as u128);
            i = i + 1;
        }
        proof {
            lemma_sums_bounded(klines@, start as int, len as int);
        }
        Ok(Band { sum, sum_sq, period: self.period as u64, k: self.std_dev_multiplier })
    }

    /// How many of the last `n` closes (all of them when fewer) lie strictly below `threshold`.
    pub fn count_below_threshold(&self, klines: &[Candle], threshold: &Level, n: usize) -> (r:
        usize)
        requires
            threshold.wf(),
            closes_bounded(klines@, 0, klines@.len() as int),
        ensures
            r == count_below(
                klines@,
                if n < klines@.len() {
                    klines@.len() - n
                } else {
                    0
                },
                klines@.len() as int,
                *threshold,
            ),
    {
        let len = klines.len();
        let start: usize = if n < len {
            len - n
        } else {
            0
        };
        count_in_range(klines, start, len, threshold)
    }

    /// Whether at least `threshold_count` of the last `check_count` closes lie below `threshold`.
    pub fn check_history_condition(
        &self,
        klines: &[Candle],
        threshold: &Level,
        check_count: usize,
        threshold_count: usize,
    ) -> (r: bool)
        requires
            threshold.wf(),
            closes_bounded(klines@, 0, klines@.len() as int),
        ensures
            r == (count_below(
                klines@,
                if check_count < klines@.len() {
                    klines@.len() - check_count
                } else {
                    0
                },
                klines@.len() as int,
                *threshold,
            ) >= threshold_count),
    {
        let below_count = self.count_below_threshold(klines, threshold, check_count);
        below_count >= threshold_count
    }
}

/// Number of closes of `klines[lo..hi)` strictly below `level`.
pub fn count_in_range(klines: &[Candle], lo: usize, hi: usize, level: &Level) -> (r: usize)
    requires
        lo <= hi <= klines@.len(),
        level.wf(),
        closes_bounded(klines@, lo as int, hi as int),
    ensures
        r == count_below(klines@, lo as int, hi as int, *level),
{
    let mut count: usize = 0;
    let mut i: usize = lo;
    while i < hi
        invariant
            lo <= i <= hi <= klines@.len(),
            level.wf(),
            closes_bounded(klines@, lo as int, hi as int),
            count == count_below(klines@, lo as int, i as int, *level),
        decreases hi - i,
    {
        proof {
            lemma_count_below_le(klines@, lo as int, i as int, *level);
        }
        if level.is_above(klines[i].close) {
            count = count + 1;
        }
        i = i + 1;
    }
    count
}

/// Bands of every full window: element `j` is the band of `klines[j..j + period)`.
/// Each band is obtained from the previous one by removing the close that leaves
/// the window and adding the close that enters it.
pub fn calc_all_bands(klines: &[Candle], period: usize, k: Ratio) -> (r: Vec<Band>)
    requires
        0 < period <= MAX_PERIOD,
        k.wf(),
        closes_bounded(klines@, 0, klines@.len() as int),
    ensures
        r@.len() == if klines@.len() >= period {
            klines@.len() - period + 1
        } else {
            0
        },
        forall|j: int|
            0 <= j < r@.len() ==> is_window_band(#[trigger] r@[j], klines@, j, period as int, k),
        forall|j: int| 0 <= j < r@.len() ==> (#[trigger] r@[j]).wf(),
{
    let len = klines.len();
    let mut out: Vec<Band> = Vec::new();
    if len < period {
        return out;
    }
    let calc = BollingerCalculator::new(period, k);
    let first = match calc.calculate(&klines[0..period]) {
        Ok(b) => b,
        Err(_) => {
            return out;
        },
    };
    proof {
        assert(klines@.subrange(0, period as int).len() == period);
        assert forall|i: int| 0 <= i <= period implies close_sum(
            klines@.subrange(0, period as int),
            0,
            i,
        ) == close_sum(klines@, 0, i) && close_sq_sum(klines@.subrange(0, period as int), 0, i)
            == close_sq_sum(klines@, 0, i) by {
            lemma_sums_prefix(klines@, period as int, i);
        }
    }
    let mut sum = first.sum;
    let mut sum_sq = first.sum_sq;
    out.push(first);
    let mut j: usize = 1;
    while j <= len - period
        invariant
            1 <= j,
            j + period <= len + 1,
            len == klines@.len(),
            0 < period <= MAX_PERIOD,
            k.wf(),
            closes_bounded(klines@, 0, klines@.len() as int),
            out@.len() == j,
            sum == close_sum(klines@, j - 1, j - 1 + period),
            sum_sq == close_sq_sum(klines@, j - 1, j - 1 + period),
            forall|i: int|
                0 <= i < out@.len() ==> is_window_band(#[trigger] out@[i], klines@, i, period as int, k),
            forall|i: int| 0 <= i < out@.len() ==> (#[trigger] out@[i]).wf(),
        decreases len + 1 - j - period,
    {
        let old_c = klines[j - 1].close;
        let new_c = klines[j - 1 + period].close;
        proof {
            lemma_slide(klines@, j - 1, j - 1 + period);
            lemma_sums_split_front(klines@, j - 1, j - 1 + period);
            assert(closes_bounded(klines@, j as int, j + period));
            lemma_sums_bounded(klines@, j as int, j + period);
            lemma_sums_bounded(klines@, j as int, j - 1 + period);
            assert(period * MAX_PRICE <= MAX_PERIOD * MAX_PRICE) by (nonlinear_arith)
                requires
                    period <= MAX_PERIOD,
            ;
            assert(period * (MAX_PRICE * MAX_PRICE) <= MAX_PERIOD * (MAX_PRICE * MAX_PRICE)) by (
            nonlinear_arith)
                requires
                    period <= MAX_PERIOD,
            ;
        }
        sum = sum - old_c + new_c;
        sum_sq = sum_sq - (old_c as u128) * (old_c as u128) + (new_c as u128) * (new_c as u128);
        let b = Band { sum, sum_sq, period: period as u64, k };
        out.push(b);
        j = j + 1;
    }
    out
}

proof fn lemma_sums_prefix(cs: Seq<Candle>, n: int, i: int)
    requires
        0 <= i <= n <= cs.len(),
    ensures
        close_sum(cs.subrange(0, n), 0, i) == close_sum(cs, 0, i),
        close_sq_sum(cs.subrange(0, n), 0, i) == close_sq_sum(cs, 0, i),
    decreases i,
{
    if i > 0 {
        lemma_sums_prefix(cs, n, i - 1);
    }
}

} // verus!
