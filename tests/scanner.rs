use prophet_scan::live::{analyze_coin, check_4h_volume_condition, min_open_interest};
use prophet_scan::model::{check_candles, check_samples};
use prophet_scan::signal::{check_oi_condition, check_volume};
use prophet_scan::{Candle, FastScanner, MetricSample, Ratio, ScanConfig, SeriesSet};

const STEP: i64 = 900_000;
const START: i64 = 1_700_000_000_000;

fn bar(i: usize, close: u64, volume: u64) -> Candle {
    let open_time = START + i as i64 * STEP;
    Candle { open_time, open: close, high: close, low: close, close, volume, close_time: open_time + STEP - 1 }
}

/// Baseline closes 100, 100, 100, 104 repeating, volume 10; spikes at the given bars.
fn series(len: usize, spikes: &[usize]) -> Vec<Candle> {
    (0..len)
        .map(|i| {
            if spikes.contains(&i) {
                bar(i, 150, 100)
            } else {
                bar(i, if i % 4 == 3 { 104 } else { 100 }, 10)
            }
        })
        .collect()
}

fn small_config(cooldown_ms: i64) -> ScanConfig {
    ScanConfig {
        period: 20,
        std_dev: Ratio { num: 2, den: 1 },
        history_check_count: 10,
        history_threshold: 5,
        oi_multiplier: Ratio { num: 91, den: 100 },
        oi_lookback_ms: 3 * 24 * 60 * 60 * 1000,
        cooldown_ms,
        volume_lookback: 2,
    }
}

fn data(primary: Vec<Candle>, mid: Vec<Candle>, coarse: Vec<Candle>, metrics: Vec<MetricSample>) -> SeriesSet {
    SeriesSet { primary, mid, coarse, metrics }
}

#[test]
fn spike_at_bar_420_fires_once() {
    let s = series(500, &[420]);
    let d = data(s.clone(), s.clone(), s.clone(), Vec::new());
    assert!(check_candles(&d.primary));
    let scanner = FastScanner::new();
    let signals = scanner.scan_symbol("BTCUSDT", &d);
    assert_eq!(signals.len(), 1);
    let sig = &signals[0];
    assert_eq!(sig.timestamp, s[420].close_time);
    assert_eq!(sig.price, 150);
    assert_eq!(sig.symbol, "BTCUSDT");
    // no samples at all: the open-interest condition holds vacuously
    assert_eq!(sig.current_oi, 0);
    assert_eq!(sig.min_oi_3d, 0);
    assert_eq!(sig.volume_twice, 200);
    assert_eq!(sig.volume_prior, 60);
    assert_eq!(sig.primary_band.period, 400);
    assert!(sig.primary_band.above_upper(150));
    assert!(sig.mid_band.above_middle(150));
    assert!(sig.coarse_band.above_middle(150));
    assert_eq!(sig.datetime.len(), 19);
}

#[test]
fn short_history_gives_nothing() {
    let s = series(399, &[398]);
    let d = data(s.clone(), s.clone(), s.clone(), Vec::new());
    assert!(FastScanner::new().scan_symbol("X", &d).is_empty());
    assert!(FastScanner::new().scan_symbol_trades("X", &d).is_empty());
}

#[test]
fn cooldown_suppresses_close_signals() {
    let s = series(60, &[30, 32]);
    let d = data(s.clone(), s.clone(), s.clone(), Vec::new());
    let without = FastScanner::with_config(small_config(0)).scan_symbol("X", &d);
    let times: Vec<i64> = without.iter().map(|x| x.timestamp).collect();
    assert_eq!(times, vec![s[30].close_time, s[32].close_time]);
    let with = FastScanner::with_config(small_config(2 * 24 * 60 * 60 * 1000)).scan_symbol("X", &d);
    assert_eq!(with.len(), 1);
    assert_eq!(with[0].timestamp, s[30].close_time);
}

#[test]
fn cooldown_is_strict_at_its_boundary() {
    let s = series(60, &[30, 32]);
    let d = data(s.clone(), s.clone(), s.clone(), Vec::new());
    let gap = s[32].close_time - s[30].close_time;
    assert_eq!(FastScanner::with_config(small_config(gap)).scan_symbol("X", &d).len(), 2);
    assert_eq!(FastScanner::with_config(small_config(gap + 1)).scan_symbol("X", &d).len(), 1);
}

#[test]
fn backtest_round_trip() {
    let s = series(60, &[30]);
    let d = data(s.clone(), s.clone(), s.clone(), Vec::new());
    let trades = FastScanner::with_config(small_config(0)).scan_symbol_trades("ETHUSDT", &d);
    assert_eq!(trades.len(), 1);
    let t = &trades[0];
    assert_eq!(t.symbol, "ETHUSDT");
    assert_eq!(t.buy_time, s[31].close_time);
    assert_eq!(t.buy_price, 104);
    assert_eq!(t.sell_time, s[32].close_time);
    assert_eq!(t.sell_price, 100);
    assert!(t.sell_time > t.buy_time);
    assert_eq!(t.hold_ms(), STEP);
    assert_eq!(t.price_change(), -4);
}

#[test]
fn backtest_signal_on_last_bar_is_discarded() {
    let s = series(31, &[30]);
    let d = data(s.clone(), s.clone(), s.clone(), Vec::new());
    let cfg = small_config(0);
    assert_eq!(FastScanner::with_config(cfg).scan_symbol("X", &d).len(), 1);
    assert!(FastScanner::with_config(cfg).scan_symbol_trades("X", &d).is_empty());
}

#[test]
fn backtest_without_exit_is_dropped() {
    // the spike at 30, then closes that keep climbing so no bar falls below its upper band
    let mut s = series(30, &[]);
    s.push(bar(30, 150, 100));
    s.push(bar(31, 150, 10));
    for i in 32..36 {
        s.push(bar(i, 400 + 200 * (i as u64 - 32), 10));
    }
    let d = data(s.clone(), s.clone(), s.clone(), Vec::new());
    assert!(FastScanner::with_config(small_config(0)).scan_symbol_trades("X", &d).is_empty());
}

#[test]
fn open_interest_condition_gates_signals() {
    let s = series(60, &[30]);
    let t = s[30].close_time;
    let rising = vec![
        MetricSample { timestamp: t - 2 * STEP, sum_open_interest: 1000 },
        MetricSample { timestamp: t - STEP, sum_open_interest: 2000 },
    ];
    assert!(check_samples(&rising));
    let d = data(s.clone(), s.clone(), s.clone(), rising);
    let sigs = FastScanner::with_config(small_config(0)).scan_symbol("X", &d);
    assert_eq!(sigs.len(), 1);
    assert_eq!(sigs[0].current_oi, 2000);
    assert_eq!(sigs[0].min_oi_3d, 1000);

    let flat = vec![MetricSample { timestamp: t - STEP, sum_open_interest: 1000 }];
    let d = data(s.clone(), s.clone(), s.clone(), flat);
    assert!(FastScanner::with_config(small_config(0)).scan_symbol("X", &d).is_empty());

    // samples exist but none is at or before the tick: not aligned, skipped
    let late = vec![MetricSample { timestamp: t + STEP, sum_open_interest: 1 }];
    let d = data(s.clone(), s.clone(), s.clone(), late);
    assert!(FastScanner::with_config(small_config(0)).scan_symbol("X", &d).is_empty());
}

#[test]
fn oi_reading_values() {
    let cfg = small_config(0);
    let day = 24 * 60 * 60 * 1000;
    let ms = vec![
        MetricSample { timestamp: 0, sum_open_interest: 5 },
        MetricSample { timestamp: 5 * day, sum_open_interest: 900 },
        MetricSample { timestamp: 6 * day, sum_open_interest: 1000 },
    ];
    // window [4 days, 7 days]: min 900, 1000 * 0.91 = 910 > 900
    assert_eq!(check_oi_condition(&cfg, &ms, 2, 7 * day), (1000, 900, true));
    // stale sample only: no minimum, condition holds
    assert_eq!(check_oi_condition(&cfg, &ms, 0, 10 * day), (5, 0, true));
    let ms2 = vec![
        MetricSample { timestamp: day, sum_open_interest: 950 },
        MetricSample { timestamp: 2 * day, sum_open_interest: 1000 },
    ];
    // 910 > 950 fails
    assert_eq!(check_oi_condition(&cfg, &ms2, 1, 2 * day), (1000, 950, false));
}

#[test]
fn secondary_not_yet_closed_is_not_aligned() {
    let s = series(60, &[30]);
    // the mid series starts later than the primary spike: not aligned at bar 30
    let mid: Vec<Candle> = series(60, &[]).into_iter().map(|mut c| {
        c.open_time += 1000 * STEP;
        c.close_time += 1000 * STEP;
        c
    }).collect();
    let d = data(s.clone(), mid, s.clone(), Vec::new());
    assert!(FastScanner::with_config(small_config(0)).scan_symbol("X", &d).is_empty());
}

#[test]
fn volume_condition_on_last_bars() {
    let mut s = series(10, &[]);
    assert_eq!(check_4h_volume_condition(&s[..6]), (false, 0, 0));
    assert_eq!(check_4h_volume_condition(&s), (false, 20, 60));
    s[9].volume = 31;
    assert_eq!(check_4h_volume_condition(&s), (true, 62, 60));
    s[8].volume = 0;
    assert_eq!(check_4h_volume_condition(&s), (true, 62, 50));
}

#[test]
fn live_analysis_of_latest_bar() {
    let s = series(421, &[420]);
    let cfg = ScanConfig::standard();
    let a = analyze_coin(&cfg, "BTCUSDT", &s, &s, &s, 1000, Some(900)).unwrap();
    assert!(a.meets_all_conditions());
    assert_eq!(a.current_price, 150);
    let b = analyze_coin(&cfg, "BTCUSDT", &s, &s, &s, 1000, Some(950)).unwrap();
    assert!(!b.cond6_oi_condition);
    assert!(!b.meets_all_conditions());
    // no open-interest history at all: the condition holds vacuously
    let c = analyze_coin(&cfg, "BTCUSDT", &s, &s, &s, 1000, min_open_interest(&[])).unwrap();
    assert!(c.cond6_oi_condition);
    assert!(c.meets_all_conditions());
    let short = series(399, &[]);
    assert_eq!(
        analyze_coin(&cfg, "X", &short, &s, &s, 1, Some(1)).unwrap_err(),
        prophet_scan::ScanError::InsufficientData { required: 400, actual: 399 }
    );
    assert_eq!(
        analyze_coin(&cfg, "X", &s, &short, &s, 1, Some(1)).unwrap_err(),
        prophet_scan::ScanError::InsufficientData { required: 400, actual: 399 }
    );
    let shorter = series(10, &[]);
    assert_eq!(
        analyze_coin(&cfg, "X", &s, &s, &shorter, 1, Some(1)).unwrap_err(),
        prophet_scan::ScanError::InsufficientData { required: 400, actual: 10 }
    );
    assert_eq!(
        analyze_coin(&cfg, "X", &s, &shorter, &short, 1, Some(1)).unwrap_err(),
        prophet_scan::ScanError::InsufficientData { required: 400, actual: 10 }
    );
}

#[test]
fn min_open_interest_of_history() {
    assert_eq!(min_open_interest(&[]), None);
    assert_eq!(min_open_interest(&[5, 3, 9]), Some(3));
}

#[test]
fn standard_parameters() {
    let cfg = FastScanner::new().config;
    assert_eq!(cfg.period, 400);
    assert_eq!(cfg.history_check_count, 50);
    assert_eq!(cfg.history_threshold, 25);
    assert_eq!(cfg.cooldown_ms, 172_800_000);
    assert_eq!(cfg.oi_lookback_ms, 259_200_000);
    assert_eq!(FastScanner::default(), FastScanner::new());
}

#[test]
fn volume_check_short_history_and_past_the_end() {
    let s = series(10, &[]);
    assert_eq!(check_volume(&s, 5, 6), (false, 0, 0));
    assert_eq!(check_volume(&s, 10, 6), (false, 0, 0));
    assert_eq!(check_volume(&s, 100, 2), (false, 0, 0));
    assert_eq!(check_volume(&s, 6, 6), (false, 20, 60));
    assert_eq!(check_volume(&s, 9, 0), (true, 20, 0));
}

#[test]
fn candle_admission() {
    let mut zero = bar(0, 1, 0);
    zero.open_time = 0;
    zero.close_time = 1000;
    assert!(zero.is_valid());
    assert!(bar(0, 1, 0).is_valid());
    assert!(!bar(0, 0, 0).is_valid());
    let mut c = bar(0, 1, 0);
    c.close_time = c.open_time;
    assert!(!c.is_valid());
    let unordered = vec![bar(1, 1, 0), bar(0, 1, 0)];
    assert!(!check_candles(&unordered));
}

#[test]
fn cooldown_restarts_at_exit() {
    let s = series(60, &[30, 33]);
    let d = data(s.clone(), s.clone(), s.clone(), Vec::new());
    let cfg = small_config(2 * STEP);
    // live mode: the second spike is three bars after the first, outside the cooldown
    let live = FastScanner::with_config(cfg).scan_symbol("X", &d);
    assert_eq!(live.len(), 2);
    // back-test: the first trade exits at bar 32, so bar 33 is still cooling down
    let trades = FastScanner::with_config(cfg).scan_symbol_trades("X", &d);
    assert_eq!(trades.len(), 1);
    assert_eq!(trades[0].sell_time, s[32].close_time);
}
