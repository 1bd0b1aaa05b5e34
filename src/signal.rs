//! The seven entry conditions of one primary tick, stated over the three candle
//! series and the open-interest samples of a symbol, and the signal record.
use vstd::prelude::*;
use crate::align::{closed_count, is_aligned, latest_closed, lemma_closed_prefix, times_sorted};
use crate::clock::{format_timestamp, timestamp_text};
use crate::model::{
    candles_ok, samples_ok, Candle, MetricSample, Ratio, MAX_PERIOD, MAX_TIMESTAMP, MAX_VOLUME,
};
use crate::rolling::{close_sq_sum, close_sum, count_below, Band, Level};

verus! {

/// Fixed parameters of the evaluator.
#[derive(Clone, Copy, Debug, PartialEq, Eq)]
pub struct ScanConfig {
    /// Closes per band window.
    pub period: usize,
    /// Band width in standard deviations.
    pub std_dev: Ratio,
    /// Closes looked back over by the history checks.
    pub history_check_count: usize,
    /// Closes of that history that must lie below the band line.
    pub history_threshold: usize,
    /// Factor applied to the current open interest.
    pub oi_multiplier: Ratio,
    /// Trailing window, in milliseconds, of the open-interest minimum.
    pub oi_lookback_ms: i64,
    /// Quiet time, in milliseconds, after a signal (or after an exit in back-tests).
    pub cooldown_ms: i64,
    /// Coarse bars whose volume the current coarse bar is compared with.
    pub volume_lookback: usize,
}

impl ScanConfig {
    pub open spec fn wf(self) -> bool {
        &&& 0 < self.period <= MAX_PERIOD
        &&& self.std_dev.wf()
        &&& self.oi_multiplier.wf()
        &&& 0 <= self.oi_lookback_ms <= MAX_TIMESTAMP
        &&& 0 <= self.cooldown_ms <= MAX_TIMESTAMP
        &&& self.volume_lookback <= MAX_PERIOD
    }

    /// Period 400, two standard deviations, 25 of the last 50 closes, open interest
    /// times 0.91 against its 3-day minimum, a 2-day cooldown and 6 prior coarse bars.
    pub open spec fn spec_standard() -> ScanConfig {
        ScanConfig {
            period: 400,
            std_dev: Ratio { num: 2, den: 1 },
            history_check_count: 50,
            history_threshold: 25,
            oi_multiplier: Ratio { num: 91, den: 100 },
            oi_lookback_ms: 259_200_000,
            cooldown_ms: 172_800_000,
            volume_lookback: 6,
        }
    }

    pub fn standard() -> (r: ScanConfig)
        ensures
            r == ScanConfig::spec_standard(),
            r.wf(),
    {
        ScanConfig {
            period: 400,
            std_dev: Ratio { num: 2, den: 1 },
            history_check_count: 50,
            history_threshold: 25,
            oi_multiplier: Ratio { num: 91, den: 100 },
            oi_lookback_ms: 259_200_000,
            cooldown_ms: 172_800_000,
            volume_lookback: 6,
        }
    }
}

/// The three candle series of one symbol, finest first, and its open-interest samples.
#[derive(Clone, Debug)]
pub struct SeriesSet {
    pub primary: Vec<Candle>,
    pub mid: Vec<Candle>,
    pub coarse: Vec<Candle>,
    pub metrics: Vec<MetricSample>,
}

impl SeriesSet {
    /// Admissible input: admitted candles with increasing close times, ordered samples.
    pub open spec fn wf(self) -> bool {
        &&& candles_ok(self.primary@)
        &&& candles_ok(self.mid@)
        &&& candles_ok(self.coarse@)
        &&& samples_ok(self.metrics@)
    }

    /// Every timeframe holds at least `period` candles.
    pub open spec fn has_history(self, period: int) -> bool {
        &&& self.primary@.len() >= period
        &&& self.mid@.len() >= period
        &&& self.coarse@.len() >= period
    }
}

/// Band of the `n` closes of `cs` starting at `start`.
pub open spec fn band_of(cs: Seq<Candle>, start: int, n: int, k: Ratio) -> Band {
    Band {
        sum: close_sum(cs, start, start + n) as u64,
        sum_sq: close_sq_sum(cs, start, start + n) as u128,
        period: n as u64,
        k,
    }
}

/// Close time of the last candle of each full window: element `j` belongs to the
/// window `cs[j..j + n)`.
pub open spec fn band_times(cs: Seq<Candle>, n: int) -> Seq<i64> {
    Seq::new((cs.len() - n + 1) as nat, |j: int| cs[j + n - 1].close_time)
}

pub open spec fn sample_times(ms: Seq<MetricSample>) -> Seq<i64> {
    Seq::new(ms.len(), |j: int| ms[j].timestamp)
}

/// First index of the `h` closes that end at index `last`.
pub open spec fn history_start(last: int, h: int) -> int {
    if last + 1 >= h {
        last + 1 - h
    } else {
        0
    }
}

/// Sum of the volumes of `cs[lo..hi)`.
pub open spec fn volume_sum(cs: Seq<Candle>, lo: int, hi: int) -> int
    decreases hi - lo,
{
    if hi <= lo {
        0
    } else {
        volume_sum(cs, lo, hi - 1) + cs[hi - 1].volume
    }
}

/// The coarse bar at `c` exists and, doubled, out-trades the `v` bars before it.
pub open spec fn volume_burst(cs: Seq<Candle>, c: int, v: int) -> bool {
    v <= c < cs.len() && 2 * cs[c].volume > volume_sum(cs, c - v, c)
}

/// The smaller of two optional values; `None` when both are.
pub open spec fn min_opt(a: Option<int>, b: Option<int>) -> Option<int> {
    match a {
        None => b,
        Some(x) => match b {
            None => Some(x),
            Some(y) => Some(if x < y { x } else { y }),
        },
    }
}

/// Smallest open interest of the samples from `j` back to the first one older than `from`.
pub open spec fn oi_floor(ms: Seq<MetricSample>, j: int, from: int) -> Option<int>
    decreases j + 1,
{
    if j < 0 || ms[j].timestamp < from {
        None
    } else {
        min_opt(Some(ms[j].sum_open_interest as int), oi_floor(ms, j - 1, from))
    }
}

/// Reading with the cursor on sample `c`: `(current, trailing minimum or 0, condition)`.
pub open spec fn oi_at(cfg: ScanConfig, ms: Seq<MetricSample>, c: int, t: int) -> (int, int, bool) {
    let cur = ms[c].sum_open_interest as int;
    match oi_floor(ms, c, t - cfg.oi_lookback_ms) {
        None => (cur, 0, true),
        Some(m) => (cur, m, cur * cfg.oi_multiplier.num > m * cfg.oi_multiplier.den),
    }
}

/// Open-interest reading at time `t`: `(current, trailing minimum, condition)`, or
/// `None` when samples exist but none is at or before `t`. Without samples the
/// condition holds vacuously; with no sample in the trailing window it holds too.
pub open spec fn oi_reading(cfg: ScanConfig, ms: Seq<MetricSample>, t: int) -> Option<(int, int, bool)> {
    if ms.len() == 0 {
        Some((0, 0, true))
    } else if !is_aligned(sample_times(ms), t) {
        None
    } else {
        Some(oi_at(cfg, ms, latest_closed(sample_times(ms), t), t))
    }
}

/// Window start, in `d.mid`, of the mid band aligned with time `t`.
pub open spec fn mid_at(cfg: ScanConfig, d: SeriesSet, t: int) -> int {
    latest_closed(band_times(d.mid@, cfg.period as int), t)
}

/// Window start, in `d.coarse`, of the coarse band aligned with time `t`.
pub open spec fn coarse_at(cfg: ScanConfig, d: SeriesSet, t: int) -> int {
    latest_closed(band_times(d.coarse@, cfg.period as int), t)
}

pub open spec fn primary_band(cfg: ScanConfig, d: SeriesSet, i: int) -> Band {
    band_of(d.primary@, i - cfg.period + 1, cfg.period as int, cfg.std_dev)
}

pub open spec fn mid_band(cfg: ScanConfig, d: SeriesSet, t: int) -> Band {
    band_of(d.mid@, mid_at(cfg, d, t), cfg.period as int, cfg.std_dev)
}

pub open spec fn coarse_band(cfg: ScanConfig, d: SeriesSet, t: int) -> Band {
    band_of(d.coarse@, coarse_at(cfg, d, t), cfg.period as int, cfg.std_dev)
}

/// All seven conditions hold at primary index `i`, every series being aligned.
#[verifier::opaque]
pub open spec fn tick_fires(cfg: ScanConfig, d: SeriesSet, i: int) -> bool {
    let p = d.primary@;
    let t = p[i].close_time as int;
    let price = p[i].close as int;
    let n = cfg.period as int;
    let h = cfg.history_check_count as int;
    let b15 = primary_band(cfg, d, i);
    let b30 = mid_band(cfg, d, t);
    let b4h = coarse_band(cfg, d, t);
    let last30 = mid_at(cfg, d, t) + n - 1;
    let last4h = coarse_at(cfg, d, t) + n - 1;
    let oi = oi_reading(cfg, d.metrics@, t);
    &&& is_aligned(band_times(d.mid@, n), t)
    &&& is_aligned(band_times(d.coarse@, n), t)
    &&& b15.spec_above_upper(price)
    &&& b30.spec_above_middle(price)
    &&& b4h.spec_above_middle(price)
    &&& count_below(p, history_start(i, h), i + 1, Level::Upper(b15)) >= cfg.history_threshold
    &&& count_below(d.mid@, history_start(last30, h), last30 + 1, Level::Middle(b30))
        >= cfg.history_threshold
    &&& oi.is_some() && oi.unwrap().2
    &&& volume_burst(d.coarse@, last4h, cfg.volume_lookback as int)
}

/// The tick at `i` falls inside the cooldown that started at `last`.
pub open spec fn cooling(cfg: ScanConfig, d: SeriesSet, i: int, last: Option<i64>) -> bool {
    match last {
        Some(l) => d.primary@[i].close_time - l < cfg.cooldown_ms,
        None => false,
    }
}

/// Primary indices, from `i` on, at which a live scan fires, given the time of
/// the previous signal.
pub open spec fn fired_from(cfg: ScanConfig, d: SeriesSet, i: int, last: Option<i64>) -> Seq<int>
    decreases d.primary@.len() - i,
{
    if i >= d.primary@.len() || i < 0 {
        Seq::empty()
    } else if cooling(cfg, d, i, last) {
        fired_from(cfg, d, i + 1, last)
    } else if tick_fires(cfg, d, i) {
        seq![i].add(fired_from(cfg, d, i + 1, Some(d.primary@[i].close_time)))
    } else {
        fired_from(cfg, d, i + 1, last)
    }
}

/// Indices at which a live scan of `d` fires.
pub open spec fn fired(cfg: ScanConfig, d: SeriesSet) -> Seq<int> {
    if d.has_history(cfg.period as int) {
        fired_from(cfg, d, cfg.period - 1, None)
    } else {
        Seq::empty()
    }
}

/// A signal record.
#[derive(Clone, Debug)]
pub struct Signal {
    pub timestamp: i64,
    pub datetime: String,
    pub symbol: String,
    pub price: u64,
    pub primary_band: Band,
    pub mid_band: Band,
    pub coarse_band: Band,
    pub current_oi: u64,
    pub min_oi_3d: u64,
    /// Twice the current coarse bar's volume; the volume ratio is this over `volume_prior`.
    pub volume_twice: u64,
    /// Volume of the coarse bars before it; a zero here means a ratio of 0.
    pub volume_prior: u64,
}

impl Signal {
    pub fn new(
        timestamp: i64,
        symbol: String,
        price: u64,
        primary_band: Band,
        mid_band: Band,
        coarse_band: Band,
        current_oi: u64,
        min_oi_3d: u64,
        volume_twice: u64,
        volume_prior: u64,
    ) -> (r: Signal)
        ensures
            r.timestamp == timestamp,
            r.datetime@ == timestamp_text(timestamp as int),
            r.symbol == symbol,
            r.price == price,
            r.primary_band == primary_band,
            r.mid_band == mid_band,
            r.coarse_band == coarse_band,
            r.current_oi == current_oi,
            r.min_oi_3d == min_oi_3d,
            r.volume_twice == volume_twice,
            r.volume_prior == volume_prior,
    {
        Signal {
            timestamp,
            datetime: format_timestamp(timestamp),
            symbol,
            price,
            primary_band,
            mid_band,
            coarse_band,
            current_oi,
            min_oi_3d,
            volume_twice,
            volume_prior,
        }
    }
}

/// `s` is the signal of primary index `i`.
pub open spec fn is_signal_at(cfg: ScanConfig, d: SeriesSet, symbol: Seq<char>, i: int, s: Signal) -> bool {
    let p = d.primary@;
    let t = p[i].close_time as int;
    let last4h = coarse_at(cfg, d, t) + cfg.period - 1;
    let oi = oi_reading(cfg, d.metrics@, t).unwrap();
    &&& s.timestamp == p[i].close_time
    &&& s.datetime@ == timestamp_text(t)
    &&& s.symbol@ == symbol
    &&& s.price == p[i].close
    &&& s.primary_band == primary_band(cfg, d, i)
    &&& s.mid_band == mid_band(cfg, d, t)
    &&& s.coarse_band == coarse_band(cfg, d, t)
    &&& s.current_oi == oi.0
    &&& s.min_oi_3d == oi.1
    &&& s.volume_twice == 2 * d.coarse@[last4h].volume
    &&& s.volume_prior == volume_sum(d.coarse@, last4h - cfg.volume_lookback, last4h)
}

} // verus!

verus! {

/// Close times of the last candle of each full window of `cs`.
pub(crate) fn band_close_times(cs: &[Candle], period: usize) -> (r: Vec<i64>)
    requires
        0 < period <= cs@.len(),
    ensures
        r@ == band_times(cs@, period as int),
{
    let mut out: Vec<i64> = Vec::new();
    let mut j: usize = 0;
    let len = cs.len();
    let count = len - period + 1;
    while j < count
        invariant
            len == cs@.len(),
            0 < period <= cs@.len(),
            count == cs@.len() - period + 1,
            j <= count,
            out@.len() == j,
            forall|a: int| 0 <= a < j ==> out@[a] == cs@[a + period - 1].close_time,
        decreases count - j,
    {
        out.push(cs[(period - 1) + j].close_time);
        j = j + 1;
    }
    assert(out@ =~= band_times(cs@, period as int));
    out
}

/// Timestamps of the samples.
pub(crate) fn metric_times(ms: &[MetricSample]) -> (r: Vec<i64>)
    ensures
        r@ == sample_times(ms@),
{
    let mut out: Vec<i64> = Vec::new();
    let mut j: usize = 0;
    while j < ms.len()
        invariant
            j <= ms@.len(),
            out@.len() == j,
            forall|a: int| 0 <= a < j ==> out@[a] == ms@[a].timestamp,
        decreases ms@.len() - j,
    {
        out.push(ms[j].timestamp);
        j = j + 1;
    }
    assert(out@ =~= sample_times(ms@));
    out
}

pub(crate) proof fn lemma_band_times_sorted(cs: Seq<Candle>, n: int)
    requires
        candles_ok(cs),
        0 < n <= cs.len(),
    ensures
        times_sorted(band_times(cs, n)),
        forall|j: int| 0 <= j < band_times(cs, n).len() ==> band_times(cs, n)[j] > 0,
{
    let bt = band_times(cs, n);
    assert forall|i: int, j: int| 0 <= i <= j < bt.len() implies bt[i] <= bt[j] by {
        if i < j {
            assert(cs[i + n - 1].close_time < cs[j + n - 1].close_time);
        }
    }
    assert forall|j: int| 0 <= j < bt.len() implies bt[j] > 0 by {
        assert(cs[j + n - 1].wf());
    }
}

pub(crate) proof fn lemma_sample_times_sorted(ms: Seq<MetricSample>)
    requires
        samples_ok(ms),
    ensures
        times_sorted(sample_times(ms)),
        forall|j: int| 0 <= j < ms.len() ==> sample_times(ms)[j] >= 0,
{
    let st = sample_times(ms);
    assert forall|i: int, j: int| 0 <= i <= j < st.len() implies st[i] <= st[j] by {
        if i < j {
            assert(ms[i].timestamp <= ms[j].timestamp);
        }
    }
    assert forall|j: int| 0 <= j < ms.len() implies st[j] >= 0 by {
        assert(ms[j].wf());
    }
}

/// Before any tick every cursor stands at 0, which is where a time before every
/// record puts it.
pub(crate) proof fn lemma_cursor_start(times: Seq<i64>)
    requires
        times_sorted(times),
        forall|j: int| 0 <= j < times.len() ==> times[j] >= 0,
    ensures
        latest_closed(times, -1) == 0,
{
    lemma_closed_prefix(times, times.len() as int, -1);
    if closed_count(times, times.len() as int, -1) > 0 {
        assert(times[0] <= -1);
    }
}

/// Whether the coarse bar at `c`, doubled, out-trades the `lookback` bars before it;
/// also returns that doubled volume and the prior volume. `(false, 0, 0)` when the bar
/// does not exist or has fewer than `lookback` bars before it.
pub fn check_volume(klines: &[Candle], c: usize, lookback: usize) -> (r: (bool, u64, u64))
    requires
        lookback <= MAX_PERIOD,
        forall|j: int| 0 <= j < klines@.len() ==> (#[trigger] klines@[j]).volume <= MAX_VOLUME,
    ensures
        r.0 == volume_burst(klines@, c as int, lookback as int),
        (c < lookback || c >= klines@.len()) ==> r == (false, 0u64, 0u64),
        lookback <= c < klines@.len() ==> r.1 == 2 * klines@[c as int].volume && r.2 == volume_sum(
            klines@,
            c - lookback,
            c as int,
        ),
{
    if c < lookback || c >= klines.len() {
        return (false, 0, 0);
    }
    let lo = c - lookback;
    let mut sum: u64 = 0;
    let mut j: usize = lo;
    while j < c
        invariant
            lo <= j <= c < klines@.len(),
            lo == c - lookback,
            lookback <= MAX_PERIOD,
            forall|a: int| 0 <= a < klines@.len() ==> (#[trigger] klines@[a]).volume <= MAX_VOLUME,
            sum == volume_sum(klines@, lo as int, j as int),
            sum <= (j - lo) * MAX_VOLUME,
        decreases c - j,
    {
        proof {
            assert(klines@[j as int].volume <= MAX_VOLUME);
            assert((j + 1 - lo) * MAX_VOLUME <= MAX_PERIOD * MAX_VOLUME) by (nonlinear_arith)
                requires
                    j + 1 - lo <= MAX_PERIOD,
            ;
            assert((j - lo) * MAX_VOLUME + MAX_VOLUME == (j + 1 - lo) * MAX_VOLUME) by (
            nonlinear_arith);
        }
        sum = sum + klines[j].volume;
        j = j + 1;
    }
    let twice = 2 * klines[c].volume;
    (twice > sum, twice, sum)
}

/// Open-interest reading with the cursor on sample `c`.
pub fn check_oi_condition(cfg: &ScanConfig, metrics: &[MetricSample], c: usize, t: i64) -> (r: (
    u64,
    u64,
    bool,
))
    requires
        cfg.wf(),
        c < metrics@.len(),
        samples_ok(metrics@),
        0 <= t <= MAX_TIMESTAMP,
    ensures
        (r.0 as int, r.1 as int, r.2) == oi_at(*cfg, metrics@, c as int, t as int),
{
    let from = t - cfg.oi_lookback_ms;
    let cur = metrics[c].sum_open_interest;
    let mut acc: Option<u64> = None;
    let mut k: usize = c + 1;
    while k > 0 && metrics[k - 1].timestamp >= from
        invariant
            k <= c + 1,
            c < metrics@.len(),
            from == t - cfg.oi_lookback_ms,
            oi_floor(metrics@, c as int, from as int) == min_opt(
                oi_floor(metrics@, k - 1, from as int),
                match acc {
                    None => None,
                    Some(v) => Some(v as int),
                },
            ),
        decreases k,
    {
        let here = metrics[k - 1].sum_open_interest;
        acc = match acc {
            None => Some(here),
            Some(m) => Some(if here < m { here } else { m }),
        };
        k = k - 1;
    }
    proof {
        assert(oi_floor(metrics@, k - 1, from as int) == None::<int>);
        assert(cfg.oi_lookback_ms >= 0);
    }
    match acc {
        None => (cur, 0, true),
        Some(m) => {
            let mn = cfg.oi_multiplier.num;
            let md = cfg.oi_multiplier.den;
            proof {
                assert(metrics@[c as int].wf());
                assert(cur * mn <= 0xffff_ffff_ffff_ffff * 0xffff_ffff_ffff_ffff) by (nonlinear_arith)
                    requires
                        cur <= 0xffff_ffff_ffff_ffff,
                        mn <= 0xffff_ffff_ffff_ffff,
                ;
                assert(m * md <= 0xffff_ffff_ffff_ffff * 0xffff_ffff_ffff_ffff) by (nonlinear_arith)
                    requires
                        m <= 0xffff_ffff_ffff_ffff,
                        md <= 0xffff_ffff_ffff_ffff,
                ;
            }
            (cur, m, (cur as u128) * (mn as u128) > (m as u128) * (md as u128))
        },
    }
}

} // verus!
