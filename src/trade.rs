//! The back-test position machine: entry on the bar after a signal, exit at the first
//! bar that closes below its own upper band, cooldown from the exit.
use vstd::prelude::*;
use crate::clock::{format_timestamp, timestamp_text};
use crate::model::{candles_ok, MAX_TIMESTAMP};
use crate::signal::{cooling, primary_band, tick_fires, ScanConfig, SeriesSet};

verus! {

/// The primary bar at `j` closes strictly below its own upper band.
pub open spec fn exit_at(cfg: ScanConfig, d: SeriesSet, j: int) -> bool {
    primary_band(cfg, d, j).spec_below_upper(d.primary@[j].close as int)
}

/// First bar from `j` on that meets the exit condition.
pub open spec fn first_exit(cfg: ScanConfig, d: SeriesSet, j: int) -> Option<int>
    decreases d.primary@.len() - j,
{
    if j >= d.primary@.len() || j < 0 {
        None
    } else if exit_at(cfg, d, j) {
        Some(j)
    } else {
        first_exit(cfg, d, j + 1)
    }
}

/// `(buy index, sell index)` of the round trips completed from tick `i` on, given
/// the time at which the previous cooldown started. An entry is the close after
/// the signal bar; the exit is the first later bar closing below its upper band;
/// the cooldown restarts at the exit. A position that never exits is dropped.
pub open spec fn trades_from(cfg: ScanConfig, d: SeriesSet, i: int, last: Option<i64>) -> Seq<
    (int, int),
>
    decreases d.primary@.len() - i,
{
    if i >= d.primary@.len() || i < 0 {
        Seq::empty()
    } else if cooling(cfg, d, i, last) {
        trades_from(cfg, d, i + 1, last)
    } else if tick_fires(cfg, d, i) && i + 1 < d.primary@.len() {
        match first_exit(cfg, d, i + 2) {
            Some(j) => seq![(i + 1, j)].add(
                trades_from(cfg, d, i + 1, Some(d.primary@[j].close_time)),
            ),
            None => trades_from(cfg, d, i + 1, last),
        }
    } else {
        trades_from(cfg, d, i + 1, last)
    }
}

/// Round trips of a back-test of `d`.
pub open spec fn round_trips(cfg: ScanConfig, d: SeriesSet) -> Seq<(int, int)> {
    if d.has_history(cfg.period as int) {
        trades_from(cfg, d, cfg.period - 1, None)
    } else {
        Seq::empty()
    }
}

/// A completed round trip.
#[derive(Clone, Debug)]
pub struct Trade {
    pub symbol: String,
    pub buy_time: i64,
    pub buy_datetime: String,
    pub buy_price: u64,
    pub sell_time: i64,
    pub sell_datetime: String,
    pub sell_price: u64,
}

impl Trade {
    pub fn new(symbol: String, buy_time: i64, buy_price: u64, sell_time: i64, sell_price: u64) -> (r:
        Trade)
        ensures
            r.symbol == symbol,
            r.buy_time == buy_time,
            r.buy_datetime@ == timestamp_text(buy_time as int),
            r.buy_price == buy_price,
            r.sell_time == sell_time,
            r.sell_datetime@ == timestamp_text(sell_time as int),
            r.sell_price == sell_price,
    {
        Trade {
            symbol,
            buy_time,
            buy_datetime: format_timestamp(buy_time),
            buy_price,
            sell_time,
            sell_datetime: format_timestamp(sell_time),
            sell_price,
        }
    }

    /// Milliseconds the position was held.
    pub fn hold_ms(&self) -> (r: i64)
        requires
            0 <= self.buy_time <= MAX_TIMESTAMP,
            0 <= self.sell_time <= MAX_TIMESTAMP,
        ensures
            r == self.sell_time - self.buy_time,
    {
        self.sell_time - self.buy_time
    }

    /// Sell price minus buy price, in ticks; the profit in percent is this over the
    /// buy price, times 100.
    pub fn price_change(&self) -> (r: i128)
        ensures
            r == self.sell_price - self.buy_price,
    {
        self.sell_price as i128 - self.buy_price as i128
    }
}

/// `tr` is the trade of the round trip `(b, s)`.
pub open spec fn is_trade_at(d: SeriesSet, symbol: Seq<char>, bs: (int, int), tr: Trade) -> bool {
    let p = d.primary@;
    &&& tr.symbol@ == symbol
    &&& tr.buy_time == p[bs.0].close_time
    &&& tr.buy_datetime@ == timestamp_text(p[bs.0].close_time as int)
    &&& tr.buy_price == p[bs.0].close
    &&& tr.sell_time == p[bs.1].close_time
    &&& tr.sell_datetime@ == timestamp_text(p[bs.1].close_time as int)
    &&& tr.sell_price == p[bs.1].close
}

pub proof fn lemma_first_exit(cfg: ScanConfig, d: SeriesSet, j: int)
    requires
        0 <= j,
    ensures
        first_exit(cfg, d, j).is_some() ==> j <= first_exit(cfg, d, j).unwrap() < d.primary@.len(),
        first_exit(cfg, d, j).is_some() ==> exit_at(cfg, d, first_exit(cfg, d, j).unwrap()),
        first_exit(cfg, d, j).is_some() ==> forall|m: int|
            j <= m < first_exit(cfg, d, j).unwrap() ==> !exit_at(cfg, d, m),
    decreases d.primary@.len() - j,
{
    if j < d.primary@.len() && !exit_at(cfg, d, j) {
        lemma_first_exit(cfg, d, j + 1);
    }
}

/// A round trip `(b, s)` of the back-test: the exit bar comes at least two bars after
/// the signal bar (`b - 1`), closes below its own upper band, no bar between entry
/// and exit does, and the exit closes later than the entry.
pub open spec fn trip_ok(cfg: ScanConfig, d: SeriesSet, bs: (int, int)) -> bool {
    &&& 1 <= bs.0
    &&& bs.0 < bs.1 < d.primary@.len()
    &&& exit_at(cfg, d, bs.1)
    &&& forall|m: int| bs.0 < m < bs.1 ==> !exit_at(cfg, d, m)
    &&& d.primary@[bs.0].close_time < d.primary@[bs.1].close_time
}

/// Every round trip has the shape of `trip_ok`, buys after tick `i`, and each entry
/// signal comes at least a cooldown after the previous exit (or after `last`).
pub proof fn lemma_round_trip_shape(cfg: ScanConfig, d: SeriesSet, i: int, last: Option<i64>)
    requires
        candles_ok(d.primary@),
        0 <= i,
    ensures
        forall|a: int|
            0 <= a < trades_from(cfg, d, i, last).len() ==> i + 1 <= (
            #[trigger] trades_from(cfg, d, i, last)[a]).0 && trip_ok(
                cfg,
                d,
                trades_from(cfg, d, i, last)[a],
            ),
        last.is_some() ==> forall|a: int|
            0 <= a < trades_from(cfg, d, i, last).len() ==> d.primary@[(
            #[trigger] trades_from(cfg, d, i, last)[a]).0 - 1].close_time - last.unwrap()
                >= cfg.cooldown_ms,
        forall|a: int, b: int|
            0 <= a && b == a + 1 && b < trades_from(cfg, d, i, last).len() ==> d.primary@[(
            #[trigger] trades_from(cfg, d, i, last)[b]).0 - 1].close_time - d.primary@[(
            #[trigger] trades_from(cfg, d, i, last)[a]).1].close_time >= cfg.cooldown_ms,
    decreases d.primary@.len() - i,
{
    let p = d.primary@;
    let all = trades_from(cfg, d, i, last);
    if i >= p.len() {
        assert(all.len() == 0);
    } else if cooling(cfg, d, i, last) {
        lemma_round_trip_shape(cfg, d, i + 1, last);
        assert(all == trades_from(cfg, d, i + 1, last));
    } else if tick_fires(cfg, d, i) && i + 1 < p.len() {
        lemma_first_exit(cfg, d, i + 2);
        match first_exit(cfg, d, i + 2) {
            Some(j) => {
                let tj = p[j].close_time;
                lemma_round_trip_shape(cfg, d, i + 1, Some(tj));
                let rest = trades_from(cfg, d, i + 1, Some(tj));
                assert(all == seq![(i + 1, j)].add(rest));
                assert(p[i + 1].close_time < p[j].close_time);
                assert(trip_ok(cfg, d, (i + 1, j)));
                assert forall|a: int| 0 <= a < all.len() implies i + 1 <= (#[trigger] all[a]).0
                    && trip_ok(cfg, d, all[a]) by {
                    if a > 0 {
                        assert(all[a] == rest[a - 1]);
                    }
                }
                if last.is_some() {
                    assert forall|a: int| 0 <= a < all.len() implies p[(#[trigger] all[a]).0
                        - 1].close_time - last.unwrap() >= cfg.cooldown_ms by {
                        if a > 0 {
                            assert(all[a] == rest[a - 1]);
                            let b0 = rest[a - 1].0;
                            assert(p[b0 - 1].close_time - tj >= cfg.cooldown_ms);
                            assert(i + 1 < j);
                            assert(p[i].close_time < p[j].close_time);
                        }
                    }
                }
                assert forall|a: int, b: int|
                    0 <= a && b == a + 1 && b < all.len() implies p[(#[trigger] all[b]).0
                    - 1].close_time - p[(#[trigger] all[a]).1].close_time >= cfg.cooldown_ms by {
                    assert(all[b] == rest[a]);
                    if a > 0 {
                        assert(all[a] == rest[a - 1]);
                    } else {
                        assert(all[0] == (i + 1, j));
                        assert(p[rest[0].0 - 1].close_time - tj >= cfg.cooldown_ms);
                    }
                }
            },
            None => {
                lemma_round_trip_shape(cfg, d, i + 1, last);
                assert(all == trades_from(cfg, d, i + 1, last));
            },
        }
    } else {
        lemma_round_trip_shape(cfg, d, i + 1, last);
        assert(all == trades_from(cfg, d, i + 1, last));
    }
}

} // verus!
