//! The scans of one symbol: live signals with a cooldown, and back-tested round trips.
use vstd::prelude::*;
use crate::align::{is_aligned, latest_closed, lemma_closed_prefix, lemma_cursor_lands, TimeframeAligner};
use crate::model::{candles_ok, Candle, Ratio, MAX_TIMESTAMP, MAX_VOLUME};
use crate::rolling::{calc_all_bands, closes_bounded, count_in_range, is_window_band, Band, Level};
use crate::signal::{
    band_close_times, band_of, band_times, check_oi_condition, check_volume, coarse_band,
    cooling, fired, fired_from, is_signal_at, lemma_band_times_sorted, lemma_cursor_start,
    lemma_sample_times_sorted, metric_times, mid_band, primary_band, sample_times, tick_fires,
    ScanConfig, SeriesSet, Signal,
};
use crate::trade::{
    first_exit, is_trade_at, lemma_first_exit, lemma_round_trip_shape, round_trips, trades_from,
    trip_ok, Trade,
};

verus! {

/// `bs[j]` is the band of `cs[j..j + n)` for every full window.
pub open spec fn bands_ok(bs: Seq<Band>, cs: Seq<Candle>, n: int, k: Ratio) -> bool {
    &&& bs.len() == cs.len() - n + 1
    &&& forall|j: int| 0 <= j < bs.len() ==> is_window_band(#[trigger] bs[j], cs, j, n, k)
    &&& forall|j: int| 0 <= j < bs.len() ==> (#[trigger] bs[j]).wf()
}

/// Bands and close-time series computed once per scan.
struct Prepared {
    primary_bands: Vec<Band>,
    mid_bands: Vec<Band>,
    coarse_bands: Vec<Band>,
    mid_times: Vec<i64>,
    coarse_times: Vec<i64>,
    metric_times: Vec<i64>,
}

spec fn prepared_ok(cfg: ScanConfig, d: SeriesSet, pr: Prepared) -> bool {
    let n = cfg.period as int;
    &&& bands_ok(pr.primary_bands@, d.primary@, n, cfg.std_dev)
    &&& bands_ok(pr.mid_bands@, d.mid@, n, cfg.std_dev)
    &&& bands_ok(pr.coarse_bands@, d.coarse@, n, cfg.std_dev)
    &&& pr.mid_times@ == band_times(d.mid@, n)
    &&& pr.coarse_times@ == band_times(d.coarse@, n)
    &&& pr.metric_times@ == sample_times(d.metrics@)
}

proof fn lemma_candles_bounded(cs: Seq<Candle>)
    requires
        candles_ok(cs),
    ensures
        closes_bounded(cs, 0, cs.len() as int),
        forall|j: int| 0 <= j < cs.len() ==> (#[trigger] cs[j]).volume <= MAX_VOLUME,
{
    assert forall|j: int| 0 <= j < cs.len() implies (#[trigger] cs[j]).close <= crate::model::MAX_PRICE
        && cs[j].volume <= MAX_VOLUME by {
        assert(cs[j].wf());
    }
}

proof fn lemma_band_is_band_of(b: Band, cs: Seq<Candle>, start: int, n: int, k: Ratio)
    requires
        is_window_band(b, cs, start, n, k),
    ensures
        b == band_of(cs, start, n, k),
{
}

fn prepare(cfg: &ScanConfig, d: &SeriesSet) -> (r: Prepared)
    requires
        cfg.wf(),
        d.wf(),
        d.has_history(cfg.period as int),
    ensures
        prepared_ok(*cfg, *d, r),
{
    proof {
        lemma_candles_bounded(d.primary@);
        lemma_candles_bounded(d.mid@);
        lemma_candles_bounded(d.coarse@);
    }
    let n = cfg.period;
    Prepared {
        primary_bands: calc_all_bands(d.primary.as_slice(), n, cfg.std_dev),
        mid_bands: calc_all_bands(d.mid.as_slice(), n, cfg.std_dev),
        coarse_bands: calc_all_bands(d.coarse.as_slice(), n, cfg.std_dev),
        mid_times: band_close_times(d.mid.as_slice(), n),
        coarse_times: band_close_times(d.coarse.as_slice(), n),
        metric_times: metric_times(d.metrics.as_slice()),
    }
}

/// One cursor per secondary series.
struct Cursors {
    mid: TimeframeAligner,
    coarse: TimeframeAligner,
    metrics: TimeframeAligner,
}

spec fn cursors_at(cfg: ScanConfig, d: SeriesSet, cur: Cursors, t: int) -> bool {
    let n = cfg.period as int;
    &&& cur.mid.pos == latest_closed(band_times(d.mid@, n), t)
    &&& cur.coarse.pos == latest_closed(band_times(d.coarse@, n), t)
    &&& d.metrics@.len() > 0 ==> cur.metrics.pos == latest_closed(sample_times(d.metrics@), t)
}

proof fn lemma_cursors_start(cfg: ScanConfig, d: SeriesSet)
    requires
        cfg.wf(),
        d.wf(),
        d.has_history(cfg.period as int),
    ensures
        cursors_at(
            cfg,
            d,
            Cursors {
                mid: TimeframeAligner { pos: 0 },
                coarse: TimeframeAligner { pos: 0 },
                metrics: TimeframeAligner { pos: 0 },
            },
            -1,
        ),
{
    let n = cfg.period as int;
    lemma_band_times_sorted(d.mid@, n);
    lemma_band_times_sorted(d.coarse@, n);
    lemma_sample_times_sorted(d.metrics@);
    lemma_cursor_start(band_times(d.mid@, n));
    lemma_cursor_start(band_times(d.coarse@, n));
    lemma_cursor_start(sample_times(d.metrics@));
}

/// Moves every cursor to time `t` and reports which series are aligned.
fn sync_cursors(
    cfg: &ScanConfig,
    d: &SeriesSet,
    pr: &Prepared,
    cur: &mut Cursors,
    t: i64,
    Ghost(prev): Ghost<int>,
) -> (r: (bool, bool, bool))
    requires
        cfg.wf(),
        d.wf(),
        d.has_history(cfg.period as int),
        prepared_ok(*cfg, *d, *pr),
        cursors_at(*cfg, *d, *old(cur), prev),
        prev <= t,
    ensures
        cursors_at(*cfg, *d, *final(cur), t as int),
        r.0 == is_aligned(band_times(d.mid@, cfg.period as int), t as int),
        r.1 == is_aligned(band_times(d.coarse@, cfg.period as int), t as int),
        d.metrics@.len() > 0 ==> r.2 == is_aligned(sample_times(d.metrics@), t as int),
{
    let ghost n = cfg.period as int;
    proof {
        lemma_band_times_sorted(d.mid@, n);
        lemma_band_times_sorted(d.coarse@, n);
        lemma_sample_times_sorted(d.metrics@);
        lemma_closed_prefix(band_times(d.mid@, n), band_times(d.mid@, n).len() as int, prev);
        lemma_closed_prefix(band_times(d.coarse@, n), band_times(d.coarse@, n).len() as int, prev);
        lemma_closed_prefix(sample_times(d.metrics@), d.metrics@.len() as int, prev);
    }
    let ghost m0 = cur.mid.pos as int;
    let a_mid = cur.mid.advance_to(pr.mid_times.as_slice(), t);
    proof {
        lemma_cursor_lands(band_times(d.mid@, n), prev, t as int, m0, cur.mid.pos as int);
    }
    let ghost c0 = cur.coarse.pos as int;
    let a_coarse = cur.coarse.advance_to(pr.coarse_times.as_slice(), t);
    proof {
        lemma_cursor_lands(band_times(d.coarse@, n), prev, t as int, c0, cur.coarse.pos as int);
    }
    let mut a_met = true;
    if pr.metric_times.len() > 0 {
        let ghost s0 = cur.metrics.pos as int;
        a_met = cur.metrics.advance_to(pr.metric_times.as_slice(), t);
        proof {
            lemma_cursor_lands(sample_times(d.metrics@), prev, t as int, s0, cur.metrics.pos as int);
        }
    }
    (a_mid, a_coarse, a_met)
}

/// Evaluates the seven conditions at primary index `i`, the cursors standing at its time.
fn evaluate_tick(
    cfg: &ScanConfig,
    symbol: &str,
    d: &SeriesSet,
    pr: &Prepared,
    cur: &Cursors,
    aligned: (bool, bool, bool),
    i: usize,
) -> (r: Option<Signal>)
    requires
        cfg.wf(),
        d.wf(),
        d.has_history(cfg.period as int),
        prepared_ok(*cfg, *d, *pr),
        cfg.period - 1 <= i < d.primary@.len(),
        cursors_at(*cfg, *d, *cur, d.primary@[i as int].close_time as int),
        aligned.0 == is_aligned(
            band_times(d.mid@, cfg.period as int),
            d.primary@[i as int].close_time as int,
        ),
        aligned.1 == is_aligned(
            band_times(d.coarse@, cfg.period as int),
            d.primary@[i as int].close_time as int,
        ),
        d.metrics@.len() > 0 ==> aligned.2 == is_aligned(
            sample_times(d.metrics@),
            d.primary@[i as int].close_time as int,
        ),
    ensures
        r.is_some() == tick_fires(*cfg, *d, i as int),
        r.is_some() ==> is_signal_at(*cfg, *d, symbol@, i as int, r.unwrap()),
{
    let ghost n = cfg.period as int;
    let ghost g = *d;
    reveal(tick_fires);
    let p = d.primary.as_slice();
    let t = p[i].close_time;
    let price = p[i].close;
    proof {
        lemma_candles_bounded(d.primary@);
        lemma_candles_bounded(d.mid@);
        lemma_candles_bounded(d.coarse@);
        assert(d.primary@[i as int].wf());
        lemma_band_times_sorted(d.mid@, n);
        lemma_band_times_sorted(d.coarse@, n);
        lemma_closed_prefix(band_times(d.mid@, n), band_times(d.mid@, n).len() as int, t as int);
        lemma_closed_prefix(band_times(d.coarse@, n), band_times(d.coarse@, n).len() as int, t as int);
    }
    let (a_mid, a_coarse, a_met) = aligned;
    if !a_mid || !a_coarse {
        return None;
    }
    let period = cfg.period;
    let j30 = cur.mid.pos;
    let j4h = cur.coarse.pos;
    let b15 = pr.primary_bands[i + 1 - period];
    let b30 = pr.mid_bands[j30];
    let b4h = pr.coarse_bands[j4h];
    proof {
        lemma_band_is_band_of(b15, d.primary@, i + 1 - n, n, cfg.std_dev);
        lemma_band_is_band_of(b30, d.mid@, j30 as int, n, cfg.std_dev);
        lemma_band_is_band_of(b4h, d.coarse@, j4h as int, n, cfg.std_dev);
        assert(b15 == primary_band(*cfg, g, i as int));
        assert(b30 == mid_band(*cfg, g, t as int));
        assert(b4h == coarse_band(*cfg, g, t as int));
    }
    if !b15.above_upper(price) || !b30.above_middle(price) || !b4h.above_middle(price) {
        return None;
    }
    let h = cfg.history_check_count;
    let lo4: usize = if i + 1 >= h {
        i + 1 - h
    } else {
        0
    };
    let below_upper = count_in_range(p, lo4, i + 1, &Level::Upper(b15));
    if below_upper < cfg.history_threshold {
        return None;
    }
    let mid_len = d.mid.len();
    assert(j30 + period <= mid_len);
    let last30 = (period - 1) + j30;
    let lo5: usize = if last30 + 1 >= h {
        last30 + 1 - h
    } else {
        0
    };
    let below_middle = count_in_range(d.mid.as_slice(), lo5, last30 + 1, &Level::Middle(b30));
    if below_middle < cfg.history_threshold {
        return None;
    }
    let oi: (u64, u64, bool) = if d.metrics.len() == 0 {
        (0, 0, true)
    } else if !a_met {
        return None;
    } else {
        proof {
            assert(t >= 0);
            lemma_sample_times_sorted(d.metrics@);
            lemma_closed_prefix(sample_times(d.metrics@), d.metrics@.len() as int, t as int);
        }
        check_oi_condition(cfg, d.metrics.as_slice(), cur.metrics.pos, t)
    };
    if !oi.2 {
        return None;
    }
    let coarse_len = d.coarse.len();
    assert(j4h + period <= coarse_len);
    let last4h = (period - 1) + j4h;
    let (burst, twice, prior) = check_volume(d.coarse.as_slice(), last4h, cfg.volume_lookback);
    if !burst {
        return None;
    }
    let name = symbol.to_owned();
    Some(Signal::new(t, name, price, b15, b30, b4h, oi.0, oi.1, twice, prior))
}

} // verus!

verus! {

/// Signals of one symbol fire at increasing indices, each at least a cooldown after
/// the one before it (and after `last`, when given).
pub proof fn lemma_fired_spacing(cfg: ScanConfig, d: SeriesSet, i: int, last: Option<i64>)
    requires
        candles_ok(d.primary@),
        0 <= i,
    ensures
        forall|a: int|
            0 <= a < fired_from(cfg, d, i, last).len() ==> i <= #[trigger] fired_from(
                cfg,
                d,
                i,
                last,
            )[a] < d.primary@.len(),
        forall|a: int, b: int|
            0 <= a < b < fired_from(cfg, d, i, last).len() ==> fired_from(cfg, d, i, last)[a]
                < fired_from(cfg, d, i, last)[b],
        last.is_some() ==> forall|a: int|
            0 <= a < fired_from(cfg, d, i, last).len() ==> d.primary@[#[trigger] fired_from(
                cfg,
                d,
                i,
                last,
            )[a]].close_time - last.unwrap() >= cfg.cooldown_ms,
        forall|a: int, b: int|
            0 <= a < b < fired_from(cfg, d, i, last).len() ==> d.primary@[fired_from(
                cfg,
                d,
                i,
                last,
            )[b]].close_time - d.primary@[fired_from(cfg, d, i, last)[a]].close_time
                >= cfg.cooldown_ms,
    decreases d.primary@.len() - i,
{
    let p = d.primary@;
    if i >= p.len() {
        assert(fired_from(cfg, d, i, last).len() == 0);
    } else if cooling(cfg, d, i, last) {
        lemma_fired_spacing(cfg, d, i + 1, last);
        assert(fired_from(cfg, d, i, last) == fired_from(cfg, d, i + 1, last));
    } else if tick_fires(cfg, d, i) {
        let t = p[i].close_time;
        lemma_fired_spacing(cfg, d, i + 1, Some(t));
        let rest = fired_from(cfg, d, i + 1, Some(t));
        let all = fired_from(cfg, d, i, last);
        assert(all == seq![i].add(rest));
        assert forall|a: int| 0 <= a < all.len() implies i <= #[trigger] all[a] < p.len() by {
            if a > 0 {
                assert(all[a] == rest[a - 1]);
            }
        }
        assert forall|a: int, b: int| 0 <= a < b < all.len() implies all[a] < all[b] by {
            assert(all[b] == rest[b - 1]);
            if a > 0 {
                assert(all[a] == rest[a - 1]);
            }
        }
        if last.is_some() {
            assert forall|a: int| 0 <= a < all.len() implies p[#[trigger] all[a]].close_time
                - last.unwrap() >= cfg.cooldown_ms by {
                if a > 0 {
                    assert(all[a] == rest[a - 1]);
                    assert(p[rest[a - 1]].close_time - t >= cfg.cooldown_ms);
                    assert(i < rest[a - 1]);
                    assert(p[i].close_time < p[rest[a - 1]].close_time);
                }
            }
        }
        assert forall|a: int, b: int| 0 <= a < b < all.len() implies p[all[b]].close_time
            - p[all[a]].close_time >= cfg.cooldown_ms by {
            assert(all[b] == rest[b - 1]);
            if a > 0 {
                assert(all[a] == rest[a - 1]);
            } else {
                assert(p[rest[b - 1]].close_time - t >= cfg.cooldown_ms);
            }
        }
    } else {
        lemma_fired_spacing(cfg, d, i + 1, last);
        assert(fired_from(cfg, d, i, last) == fired_from(cfg, d, i + 1, last));
    }
}

/// Scans the series of one symbol for the breakout pattern.
#[derive(Clone, Copy, Debug, PartialEq, Eq)]
pub struct FastScanner {
    pub config: ScanConfig,
}

impl FastScanner {
    /// A scanner with the standard parameters.
    pub fn new() -> (r: FastScanner)
        ensures
            r.config == ScanConfig::spec_standard(),
            r.config.wf(),
    {
        FastScanner { config: ScanConfig::standard() }
    }

    pub fn with_config(config: ScanConfig) -> (r: FastScanner)
        ensures
            r.config == config,
    {
        FastScanner { config }
    }

    /// Live-mode scan: one signal per primary tick at which the seven conditions hold
    /// outside the cooldown of the previous signal. Empty when a timeframe holds fewer
    /// than `period` candles.
    pub fn scan_symbol(&self, symbol: &str, data: &SeriesSet) -> (r: Vec<Signal>)
        requires
            self.config.wf(),
            data.wf(),
        ensures
            r@.len() == fired(self.config, *data).len(),
            forall|k: int|
                0 <= k < r@.len() ==> is_signal_at(
                    self.config,
                    *data,
                    symbol@,
                    fired(self.config, *data)[k],
                    #[trigger] r@[k],
                ),
            forall|a: int, b: int|
                0 <= a < b < r@.len() ==> r@[b].timestamp - r@[a].timestamp
                    >= self.config.cooldown_ms,
            forall|a: int, b: int| 0 <= a < b < r@.len() ==> r@[a].timestamp < r@[b].timestamp,
    {
        let cfg = &self.config;
        let ghost g = *data;
        let mut out: Vec<Signal> = Vec::new();
        if data.primary.len() < cfg.period || data.mid.len() < cfg.period || data.coarse.len()
            < cfg.period {
            return out;
        }
        let pr = prepare(cfg, data);
        let mut cur = Cursors {
            mid: TimeframeAligner::new(),
            coarse: TimeframeAligner::new(),
            metrics: TimeframeAligner::new(),
        };
        proof {
            lemma_cursors_start(*cfg, g);
        }
        let len = data.primary.len();
        let start = cfg.period - 1;
        let mut last: Option<i64> = None;
        let mut i: usize = start;
        let ghost mut done: Seq<int> = Seq::empty();
        let ghost mut prev: int = -1;
        while i < len
            invariant
                cfg.wf(),
                g == *data,
                data.wf(),
                data.has_history(cfg.period as int),
                prepared_ok(*cfg, g, pr),
                len == data.primary@.len(),
                start == cfg.period - 1,
                start <= i <= len,
                cursors_at(*cfg, g, cur, prev),
                i == start ==> prev == -1,
                i > start ==> prev == data.primary@[i - 1].close_time,
                last.is_some() ==> 0 < last.unwrap() <= MAX_TIMESTAMP,
                fired_from(*cfg, g, start as int, None) == done.add(
                    fired_from(*cfg, g, i as int, last),
                ),
                out@.len() == done.len(),
                forall|k: int|
                    0 <= k < out@.len() ==> is_signal_at(
                        *cfg,
                        g,
                        symbol@,
                        done[k],
                        #[trigger] out@[k],
                    ),
            decreases len - i,
        {
            let t = data.primary[i].close_time;
            proof {
                assert(data.primary@[i as int].wf());
                if i > start {
                    assert(data.primary@[i - 1].close_time < data.primary@[i as int].close_time);
                }
            }
            let aligned = sync_cursors(cfg, data, &pr, &mut cur, t, Ghost(prev));
            proof {
                prev = t as int;
            }
            let cooling = match last {
                Some(l) => t - l < cfg.cooldown_ms,
                None => false,
            };
            if !cooling {
                match evaluate_tick(cfg, symbol, data, &pr, &cur, aligned, i) {
                    Some(s) => {
                        proof {
                            let rest = fired_from(*cfg, g, i + 1, Some(t));
                            assert(fired_from(*cfg, g, i as int, last) == seq![i as int].add(rest));
                            assert(done.add(seq![i as int].add(rest)) =~= done.push(i as int).add(
                                rest,
                            ));
                            done = done.push(i as int);
                        }
                        out.push(s);
                        last = Some(t);
                    },
                    None => {},
                }
            }
            i = i + 1;
        }
        proof {
            assert(done.add(fired_from(*cfg, g, len as int, last)) =~= done);
            lemma_fired_spacing(*cfg, g, start as int, None);
            assert forall|a: int, b: int| 0 <= a < b < out@.len() implies out@[a].timestamp
                < out@[b].timestamp by {
                assert(done[a] < done[b]);
            }
        }
        out
    }
}

impl Default for FastScanner {
    fn default() -> (r: FastScanner)
        ensures
            r.config == ScanConfig::spec_standard(),
    {
        FastScanner::new()
    }
}

} // verus!

verus! {

/// First bar from `from` on that closes below its own upper band.
fn find_exit(cfg: &ScanConfig, d: &SeriesSet, pr: &Prepared, from: usize) -> (r: Option<usize>)
    requires
        cfg.wf(),
        d.wf(),
        d.has_history(cfg.period as int),
        prepared_ok(*cfg, *d, *pr),
        cfg.period - 1 <= from,
    ensures
        r.is_some() == first_exit(*cfg, *d, from as int).is_some(),
        r.is_some() ==> r.unwrap() as int == first_exit(*cfg, *d, from as int).unwrap(),
{
    let ghost g = *d;
    let len = d.primary.len();
    let period = cfg.period;
    let mut j: usize = from;
    proof {
        lemma_candles_bounded(d.primary@);
    }
    while j < len
        invariant
            g == *d,
            len == d.primary@.len(),
            period == cfg.period,
            cfg.wf(),
            d.wf(),
            prepared_ok(*cfg, g, *pr),
            closes_bounded(d.primary@, 0, d.primary@.len() as int),
            period - 1 <= from <= j,
            first_exit(*cfg, g, from as int) == first_exit(*cfg, g, j as int),
        decreases len - j,
    {
        let b = pr.primary_bands[(j + 1) - period];
        proof {
            lemma_band_is_band_of(b, d.primary@, j + 1 - period, period as int, cfg.std_dev);
        }
        if b.below_upper(d.primary[j].close) {
            return Some(j);
        }
        j = j + 1;
    }
    None
}

impl FastScanner {
    /// Back-test scan: the round trips the position machine completes, in order.
    /// Empty when a timeframe holds fewer than `period` candles.
    pub fn scan_symbol_trades(&self, symbol: &str, data: &SeriesSet) -> (r: Vec<Trade>)
        requires
            self.config.wf(),
            data.wf(),
        ensures
            r@.len() == round_trips(self.config, *data).len(),
            forall|k: int|
                0 <= k < r@.len() ==> is_trade_at(
                    *data,
                    symbol@,
                    round_trips(self.config, *data)[k],
                    #[trigger] r@[k],
                ),
            forall|k: int|
                0 <= k < r@.len() ==> trip_ok(
                    self.config,
                    *data,
                    #[trigger] round_trips(self.config, *data)[k],
                ),
            forall|k: int| 0 <= k < r@.len() ==> (#[trigger] r@[k]).sell_time > r@[k].buy_time,
            forall|a: int, b: int|
                0 <= a && b == a + 1 && b < r@.len() ==> (#[trigger] r@[b]).buy_time - (
                #[trigger] r@[a]).sell_time > self.config.cooldown_ms,
    {
        let cfg = &self.config;
        let ghost g = *data;
        let mut out: Vec<Trade> = Vec::new();
        if data.primary.len() < cfg.period || data.mid.len() < cfg.period || data.coarse.len()
            < cfg.period {
            return out;
        }
        let pr = prepare(cfg, data);
        let mut cur = Cursors {
            mid: TimeframeAligner::new(),
            coarse: TimeframeAligner::new(),
            metrics: TimeframeAligner::new(),
        };
        proof {
            lemma_cursors_start(*cfg, g);
        }
        let len = data.primary.len();
        let start = cfg.period - 1;
        let mut last: Option<i64> = None;
        let mut i: usize = start;
        let ghost mut done: Seq<(int, int)> = Seq::empty();
        let ghost mut prev: int = -1;
        while i < len
            invariant
                cfg.wf(),
                g == *data,
                data.wf(),
                data.has_history(cfg.period as int),
                prepared_ok(*cfg, g, pr),
                len == data.primary@.len(),
                start == cfg.period - 1,
                start <= i <= len,
                cursors_at(*cfg, g, cur, prev),
                i == start ==> prev == -1,
                i > start ==> prev == data.primary@[i - 1].close_time,
                last.is_some() ==> 0 < last.unwrap() <= MAX_TIMESTAMP,
                trades_from(*cfg, g, start as int, None) == done.add(
                    trades_from(*cfg, g, i as int, last),
                ),
                out@.len() == done.len(),
                forall|k: int|
                    0 <= k < out@.len() ==> is_trade_at(g, symbol@, done[k], #[trigger] out@[k]),
            decreases len - i,
        {
            let t = data.primary[i].close_time;
            proof {
                assert(data.primary@[i as int].wf());
                if i > start {
                    assert(data.primary@[i - 1].close_time < data.primary@[i as int].close_time);
                }
            }
            let aligned = sync_cursors(cfg, data, &pr, &mut cur, t, Ghost(prev));
            proof {
                prev = t as int;
            }
            let cooling = match last {
                Some(l) => t - l < cfg.cooldown_ms,
                None => false,
            };
            if !cooling && i + 1 < len {
                if evaluate_tick(cfg, symbol, data, &pr, &cur, aligned, i).is_some() {
                    match find_exit(cfg, data, &pr, i + 2) {
                        Some(j) => {
                            proof {
                                lemma_first_exit(*cfg, g, i + 2);
                            }
                            let buy = data.primary[i + 1];
                            let sell = data.primary[j];
                            proof {
                                assert(sell.wf());
                                let rest = trades_from(*cfg, g, i + 1, Some(sell.close_time));
                                assert(trades_from(*cfg, g, i as int, last) == seq![
                                    (i + 1, j as int),
                                ].add(rest));
                                assert(done.add(seq![(i + 1, j as int)].add(rest)) =~= done.push(
                                    (i + 1, j as int),
                                ).add(rest));
                                done = done.push((i + 1, j as int));
                            }
                            out.push(
                                Trade::new(
                                    symbol.to_owned(),
                                    buy.close_time,
                                    buy.close,
                                    sell.close_time,
                                    sell.close,
                                ),
                            );
                            last = Some(sell.close_time);
                        },
                        None => {},
                    }
                }
            }
            i = i + 1;
        }
        proof {
            assert(done.add(trades_from(*cfg, g, len as int, last)) =~= done);
            lemma_round_trip_shape(*cfg, g, start as int, None);
            let rt = trades_from(*cfg, g, start as int, None);
            assert forall|a: int, b: int|
                0 <= a && b == a + 1 && b < out@.len() implies (#[trigger] out@[b]).buy_time - (
                #[trigger] out@[a]).sell_time > cfg.cooldown_ms by {
                assert(trip_ok(*cfg, g, rt[b]));
                assert(data.primary@[rt[b].0 - 1].close_time < data.primary@[rt[b].0].close_time);
            }
        }
        out
    }
}

} // verus!
