use prophet_scan::align::TimeframeAligner;
use prophet_scan::clock::{format_timestamp, timestamp_ms};
use prophet_scan::config::{DownloadResult, Stats};
use prophet_scan::window::TimeSeriesWindow;
use prophet_scan::{Candle, MetricSample};

fn c(t: i64) -> Candle {
    Candle { open_time: t - 1, open: 1, high: 1, low: 1, close: t as u64, volume: 0, close_time: t }
}

fn times(v: &[Candle]) -> Vec<i64> {
    v.iter().map(|k| k.close_time).collect()
}

#[test]
fn streaming_window_evicts_oldest() {
    let mut w = TimeSeriesWindow::new(vec![c(10), c(20), c(30), c(40), c(50)], 3);
    w.fill_initial_buffer();
    assert_eq!(times(&w.as_vec()), vec![10, 20, 30]);
    assert_eq!(w.advance().map(|k| k.close_time), Some(40));
    assert_eq!(times(&w.as_vec()), vec![20, 30, 40]);
    assert_eq!(w.current().map(|k| k.close_time), Some(40));
    assert_eq!(w.advance().map(|k| k.close_time), Some(50));
    assert_eq!(w.advance(), None);
    assert_eq!(times(&w.as_vec()), vec![30, 40, 50]);
    assert_eq!(w.len(), 3);
    assert!(w.has_sufficient_data(3));
    assert!(!w.has_sufficient_data(4));
}

#[test]
fn batch_window_keeps_everything() {
    let mut w = TimeSeriesWindow::batch(vec![c(10), c(20), c(30), c(40)], 2);
    w.fill_initial_buffer();
    assert_eq!(times(&w.as_vec()), vec![10, 20]);
    assert!(w.advance_until(35));
    assert_eq!(times(&w.as_vec()), vec![10, 20, 30, 40]);
    assert!(w.advance_until(35));
    assert!(!w.advance_until(41));
}

#[test]
fn advance_until_stops_at_target() {
    let mut w = TimeSeriesWindow::new(vec![c(10), c(20), c(30), c(40)], 2);
    assert!(w.is_empty());
    assert!(w.advance_until(20));
    assert_eq!(times(&w.as_vec()), vec![10, 20]);
    assert!(w.advance_until(15));
    assert_eq!(times(&w.as_vec()), vec![10, 20]);
    assert!(!w.advance_until(100));
    assert_eq!(times(&w.as_vec()), vec![30, 40]);
}

#[test]
fn window_projection_at_time() {
    let mut w = TimeSeriesWindow::new(vec![c(10), c(20), c(30)], 5);
    w.fill_initial_buffer();
    assert_eq!(times(&w.window_at_or_before(20)), vec![10, 20]);
    assert!(w.window_at_or_before(5).is_empty());
    assert_eq!(times(&w.window_at_or_before(99)), vec![10, 20, 30]);
}

#[test]
fn sync_to_pulls_while_newest_is_later() {
    let mut w = TimeSeriesWindow::new(vec![c(10), c(20), c(30)], 5);
    w.sync_to(15);
    assert!(w.is_empty());
    w.advance();
    w.advance();
    w.sync_to(15);
    assert_eq!(times(&w.as_vec()), vec![10, 20, 30]);
}

#[test]
fn open_interest_queries() {
    let day = 24 * 60 * 60 * 1000;
    let ms = vec![
        MetricSample { timestamp: day, sum_open_interest: 7 },
        MetricSample { timestamp: 2 * day, sum_open_interest: 5 },
        MetricSample { timestamp: 5 * day, sum_open_interest: 9 },
    ];
    let mut w = TimeSeriesWindow::new(ms, 10);
    assert!(w.has_data());
    w.fill_initial_buffer();
    assert_eq!(w.get_current_oi(3 * day), Some(5));
    assert_eq!(w.get_current_oi(0), None);
    assert_eq!(w.get_min_oi(5 * day, 3 * day), Some(5));
    assert_eq!(w.get_min_oi(5 * day, day), Some(9));
    assert_eq!(w.get_min_oi(4 * day, day), None);
}

#[test]
fn aligner_cursor_never_moves_back() {
    let ts = vec![10i64, 20, 30, 40];
    let mut a = TimeframeAligner::new();
    assert!(!a.advance_to(&ts, 5));
    assert_eq!(a.pos, 0);
    assert!(a.advance_to(&ts, 25));
    assert_eq!(a.pos, 1);
    assert!(!a.advance_to(&ts, 12));
    assert_eq!(a.pos, 1);
    assert!(a.advance_to(&ts, 1000));
    assert_eq!(a.pos, 3);
    // out-of-order times: still monotone and inside the series
    let odd = vec![50i64, 10, 60, 20];
    let mut b = TimeframeAligner::new();
    let mut last = 0;
    for t in [55, 15, 70, 0, 100] {
        b.advance_to(&odd, t);
        assert!(b.pos >= last && b.pos < odd.len());
        last = b.pos;
    }
}

#[test]
fn timestamps_as_text() {
    assert_eq!(format_timestamp(0), "1970-01-01 00:00:00");
    assert_eq!(format_timestamp(1_704_067_200_000), "2024-01-01 00:00:00");
    assert_eq!(format_timestamp(i64::MAX), "Invalid");
    assert_eq!(timestamp_ms("2024-01-01 00:00:00"), 1_704_067_200_000);
    assert_eq!(timestamp_ms("not a date"), 0);
}

#[test]
fn download_stats_count() {
    let mut s = Stats::new();
    s.record(DownloadResult::Success);
    s.record(DownloadResult::Success);
    s.record(DownloadResult::Failed);
    s.record(DownloadResult::NotFound);
    assert_eq!(s.get_counts(), (2, 0, 1, 1));
}
