//! Evaluation of the seven conditions on the newest bar of freshly fetched series.
use vstd::prelude::*;
use crate::model::{candles_ok, Candle, ScanError, MAX_PRICE};
use crate::rolling::{count_below, count_in_range, Band, BollingerCalculator, Level};
use crate::signal::{band_of, check_volume, history_start, volume_burst, volume_sum, ScanConfig};

verus! {

/// Outcome of the seven conditions on the newest bars of one symbol.
#[derive(Clone, Debug)]
pub struct AnalyzedCoin {
    pub symbol: String,
    pub current_price: u64,
    pub boll_15m: Band,
    pub boll_30m: Band,
    pub boll_4h: Band,
    pub cond1_price_above_15m_upper: bool,
    pub cond2_price_above_30m_middle: bool,
    pub cond3_price_above_4h_middle: bool,
    pub cond4_15m_history_below_upper: bool,
    pub cond5_30m_history_below_middle: bool,
    pub cond6_oi_condition: bool,
    pub cond7_4h_volume_burst: bool,
    pub current_oi: u64,
    pub min_oi_3d: Option<u64>,
    pub volume_twice: u64,
    pub volume_prior: u64,
}

impl AnalyzedCoin {
    pub fn meets_all_conditions(&self) -> (r: bool)
        ensures
            r == (self.cond1_price_above_15m_upper && self.cond2_price_above_30m_middle
                && self.cond3_price_above_4h_middle && self.cond4_15m_history_below_upper
                && self.cond5_30m_history_below_middle && self.cond6_oi_condition
                && self.cond7_4h_volume_burst),
    {
        self.cond1_price_above_15m_upper && self.cond2_price_above_30m_middle
            && self.cond3_price_above_4h_middle && self.cond4_15m_history_below_upper
            && self.cond5_30m_history_below_middle && self.cond6_oi_condition
            && self.cond7_4h_volume_burst
    }
}

/// Smallest of the open-interest history values; `None` for an empty history.
pub fn min_open_interest(hist: &[u64]) -> (r: Option<u64>)
    ensures
        r.is_none() <==> hist@.len() == 0,
        r.is_some() ==> exists|j: int| 0 <= j < hist@.len() && hist@[j] == r.unwrap(),
        r.is_some() ==> forall|j: int| 0 <= j < hist@.len() ==> r.unwrap() <= hist@[j],
{
    let mut acc: Option<u64> = None;
    let mut i: usize = 0;
    while i < hist.len()
        invariant
            i <= hist@.len(),
            acc.is_none() <==> i == 0,
            acc.is_some() ==> exists|j: int| 0 <= j < i && hist@[j] == acc.unwrap(),
            acc.is_some() ==> forall|j: int| 0 <= j < i ==> acc.unwrap() <= hist@[j],
        decreases hist@.len() - i,
    {
        let v = hist[i];
        acc = match acc {
            None => Some(v),
            Some(m) => Some(if v < m { v } else { m }),
        };
        i = i + 1;
    }
    acc
}

/// Live-mode check of the newest bar of each timeframe. The open-interest condition is
/// `current_oi × multiplier > min_oi`; without any history it holds vacuously.
/// Fails with `InsufficientData` when a timeframe holds fewer than `period` candles.
pub fn analyze_coin(
    cfg: &ScanConfig,
    symbol: &str,
    klines_15m: &[Candle],
    klines_30m: &[Candle],
    klines_4h: &[Candle],
    current_oi: u64,
    min_oi: Option<u64>,
) -> (r: Result<AnalyzedCoin, ScanError>)
    requires
        cfg.wf(),
        candles_ok(klines_15m@),
        candles_ok(klines_30m@),
        candles_ok(klines_4h@),
    ensures
        r.is_err() <==> (klines_15m@.len() < cfg.period || klines_30m@.len() < cfg.period
            || klines_4h@.len() < cfg.period),
        klines_15m@.len() < cfg.period ==> r == Err::<AnalyzedCoin, ScanError>(
            ScanError::InsufficientData { required: cfg.period, actual: klines_15m@.len() as usize },
        ),
        klines_15m@.len() >= cfg.period && klines_30m@.len() < cfg.period ==> r == Err::<
            AnalyzedCoin,
            ScanError,
        >(ScanError::InsufficientData { required: cfg.period, actual: klines_30m@.len() as usize }),
        klines_15m@.len() >= cfg.period && klines_30m@.len() >= cfg.period && klines_4h@.len()
            < cfg.period ==> r == Err::<AnalyzedCoin, ScanError>(
            ScanError::InsufficientData { required: cfg.period, actual: klines_4h@.len() as usize },
        ),
        r.is_ok() ==> ({
            let a = r.unwrap();
            let n = cfg.period as int;
            let h = cfg.history_check_count as int;
            let l15 = klines_15m@.len() as int;
            let l30 = klines_30m@.len() as int;
            let l4 = klines_4h@.len() as int;
            let price = klines_15m@[l15 - 1].close as int;
            &&& a.symbol@ == symbol@
            &&& a.current_price == price
            &&& a.boll_15m == band_of(klines_15m@, l15 - n, n, cfg.std_dev)
            &&& a.boll_30m == band_of(klines_30m@, l30 - n, n, cfg.std_dev)
            &&& a.boll_4h == band_of(klines_4h@, l4 - n, n, cfg.std_dev)
            &&& a.cond1_price_above_15m_upper == a.boll_15m.spec_above_upper(price)
            &&& a.cond2_price_above_30m_middle == a.boll_30m.spec_above_middle(price)
            &&& a.cond3_price_above_4h_middle == a.boll_4h.spec_above_middle(price)
            &&& a.cond4_15m_history_below_upper == (count_below(
                klines_15m@,
                history_start(l15 - 1, h),
                l15,
                Level::Upper(a.boll_15m),
            ) >= cfg.history_threshold)
            &&& a.cond5_30m_history_below_middle == (count_below(
                klines_30m@,
                history_start(l30 - 1, h),
                l30,
                Level::Middle(a.boll_30m),
            ) >= cfg.history_threshold)
            &&& a.cond6_oi_condition == (min_oi.is_none() || current_oi * cfg.oi_multiplier.num
                > min_oi.unwrap() * cfg.oi_multiplier.den)
            &&& a.cond7_4h_volume_burst == volume_burst(
                klines_4h@,
                l4 - 1,
                cfg.volume_lookback as int,
            )
            &&& a.current_oi == current_oi
            &&& a.min_oi_3d == min_oi
            &&& l4 - 1 >= cfg.volume_lookback ==> a.volume_twice == 2 * klines_4h@[l4 - 1].volume
                && a.volume_prior == volume_sum(klines_4h@, l4 - 1 - cfg.volume_lookback, l4 - 1)
        }),
{
    proof {
        assert forall|j: int| 0 <= j < klines_15m@.len() implies (#[trigger] klines_15m@[j]).close
            <= MAX_PRICE by {
            assert(klines_15m@[j].wf());
        }
        assert forall|j: int| 0 <= j < klines_30m@.len() implies (#[trigger] klines_30m@[j]).close
            <= MAX_PRICE by {
            assert(klines_30m@[j].wf());
        }
        assert forall|j: int| 0 <= j < klines_4h@.len() implies (#[trigger] klines_4h@[j]).close
            <= MAX_PRICE && klines_4h@[j].volume <= crate::model::MAX_VOLUME by {
            assert(klines_4h@[j].wf());
        }
    }
    let calc = BollingerCalculator::new(cfg.period, cfg.std_dev);
    let b15 = match calc.calculate(klines_15m) {
        Ok(b) => b,
        Err(e) => {
            return Err(e);
        },
    };
    let b30 = match calc.calculate(klines_30m) {
        Ok(b) => b,
        Err(e) => {
            return Err(e);
        },
    };
    let b4h = match calc.calculate(klines_4h) {
        Ok(b) => b,
        Err(e) => {
            return Err(e);
        },
    };
    let l15 = klines_15m.len();
    let l30 = klines_30m.len();
    let l4 = klines_4h.len();
    let price = klines_15m[l15 - 1].close;
    let h = cfg.history_check_count;
    let lo15: usize = if l15 >= h {
        l15 - h
    } else {
        0
    };
    let lo30: usize = if l30 >= h {
        l30 - h
    } else {
        0
    };
    let below15 = count_in_range(klines_15m, lo15, l15, &Level::Upper(b15));
    let below30 = count_in_range(klines_30m, lo30, l30, &Level::Middle(b30));
    let cond6 = match min_oi {
        None => true,
        Some(m) => {
            proof {
                assert(current_oi * cfg.oi_multiplier.num <= 0xffff_ffff_ffff_ffff
                    * 0xffff_ffff_ffff_ffff) by (nonlinear_arith)
                    requires
                        current_oi <= 0xffff_ffff_ffff_ffff,
                        cfg.oi_multiplier.num <= 0xffff_ffff_ffff_ffff,
                ;
                assert(m * cfg.oi_multiplier.den <= 0xffff_ffff_ffff_ffff * 0xffff_ffff_ffff_ffff)
                    by (nonlinear_arith)
                    requires
                        m <= 0xffff_ffff_ffff_ffff,
                        cfg.oi_multiplier.den <= 0xffff_ffff_ffff_ffff,
                ;
            }
            (current_oi as u128) * (cfg.oi_multiplier.num as u128) > (m as u128) * (
            cfg.oi_multiplier.den as u128)
        },
    };
    let (burst, twice, prior) = check_volume(klines_4h, l4 - 1, cfg.volume_lookback);
    Ok(
        AnalyzedCoin {
            symbol: symbol.to_owned(),
            current_price: price,
            boll_15m: b15,
            boll_30m: b30,
            boll_4h: b4h,
            cond1_price_above_15m_upper: b15.above_upper(price),
            cond2_price_above_30m_middle: b30.above_middle(price),
            cond3_price_above_4h_middle: b4h.above_middle(price),
            cond4_15m_history_below_upper: below15 >= cfg.history_threshold,
            cond5_30m_history_below_middle: below30 >= cfg.history_threshold,
            cond6_oi_condition: cond6,
            cond7_4h_volume_burst: burst,
            current_oi,
            min_oi_3d: min_oi,
            volume_twice: twice,
            volume_prior: prior,
        },
    )
}

/// Volume burst on the newest of the coarse bars: the newest volume doubled against
/// the six bars before it, with those two volumes. `false` with fewer than seven bars.
pub fn check_4h_volume_condition(klines: &[Candle]) -> (r: (bool, u64, u64))
    requires
        candles_ok(klines@),
    ensures
        klines@.len() < 7 ==> r == (false, 0u64, 0u64),
        klines@.len() >= 7 ==> r.0 == volume_burst(klines@, klines@.len() - 1, 6),
        klines@.len() >= 7 ==> r.1 == 2 * klines@[klines@.len() - 1].volume,
        klines@.len() >= 7 ==> r.2 == volume_sum(klines@, klines@.len() - 7, klines@.len() - 1),
{
    let n = klines.len();
    if n < 7 {
        return (false, 0, 0);
    }
    proof {
        assert forall|j: int| 0 <= j < klines@.len() implies (#[trigger] klines@[j]).volume
            <= crate::model::MAX_VOLUME by {
            assert(klines@[j].wf());
        }
    }
    check_volume(klines, n - 1, 6)
}

} // verus!
