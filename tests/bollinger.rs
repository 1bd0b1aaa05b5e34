use prophet_scan::model::{Candle, MAX_PERIOD, MAX_PRICE};
use prophet_scan::rolling::{calc_all_bands, Band, BollingerCalculator, Level};
use prophet_scan::Ratio;

fn create_test_klines(closes: &[u64]) -> Vec<Candle> {
    closes
        .iter()
        .enumerate()
        .map(|(i, &close)| Candle {
            open_time: 1 + i as i64 * 1000,
            open: close,
            high: close,
            low: close,
            close,
            volume: 0,
            close_time: 1000 + i as i64 * 1000,
        })
        .collect()
}

fn two() -> Ratio {
    Ratio { num: 2, den: 1 }
}

fn middle(b: &Band) -> f64 {
    b.sum as f64 / b.period as f64
}

#[test]
fn test_bollinger_calculation() {
    let closes: Vec<u64> = (1..=20).collect();
    let klines = create_test_klines(&closes);

    let calc = BollingerCalculator::new(20, two());
    let result = calc.calculate(&klines).unwrap();

    // SMA of 1..=20 is 10.5
    assert!((middle(&result) - 10.5).abs() < 0.001);
    assert_eq!(result.sum, 210);
    assert_eq!(result.sum_sq, 2870);
}

#[test]
fn test_insufficient_data() {
    let closes: Vec<u64> = (1..=10).collect();
    let klines = create_test_klines(&closes);

    let calc = BollingerCalculator::new(20, two());
    let result = calc.calculate(&klines);

    assert!(result.is_err());
    assert_eq!(
        result.unwrap_err(),
        prophet_scan::ScanError::InsufficientData { required: 20, actual: 10 }
    );
}

#[test]
fn test_count_below_threshold() {
    let closes: Vec<u64> = vec![1, 2, 3, 4, 5, 6, 7, 8, 9, 10];
    let klines = create_test_klines(&closes);

    let calc = BollingerCalculator::new(5, two());

    // among the last five (6..=10) only 6 is below 7.0
    let count = calc.count_below_threshold(&klines, &Level::Price { num: 7, den: 1 }, 5);
    assert_eq!(count, 1);

    // among the last ten, 1..=5 are below 5.5
    let count = calc.count_below_threshold(&klines, &Level::Price { num: 11, den: 2 }, 10);
    assert_eq!(count, 5);
}

#[test]
fn count_below_threshold_longer_than_history() {
    let klines = create_test_klines(&[1, 2, 3]);
    let calc = BollingerCalculator::new(2, two());
    assert_eq!(calc.count_below_threshold(&klines, &Level::Price { num: 3, den: 1 }, 100), 2);
    assert_eq!(calc.count_below_threshold(&klines, &Level::Price { num: 3, den: 1 }, 0), 0);
}

#[test]
fn insufficient_data_never_gives_a_band() {
    let calc = BollingerCalculator::new(5, two());
    for n in 0..5u64 {
        let closes: Vec<u64> = (1..=n).collect();
        let klines = create_test_klines(&closes);
        assert_eq!(
            calc.calculate(&klines),
            Err(prophet_scan::ScanError::InsufficientData { required: 5, actual: n as usize })
        );
    }
    let klines = create_test_klines(&[1, 2, 3, 4, 5]);
    assert!(calc.calculate(&klines).is_ok());
}

#[test]
fn band_lines_are_exact() {
    // closes 2, 4, 4, 4, 5, 5, 7, 9: mean 5, population sigma 2
    let klines = create_test_klines(&[2, 4, 4, 4, 5, 5, 7, 9]);
    let b = BollingerCalculator::new(8, two()).calculate(&klines).unwrap();
    // upper = 9, lower = 1, middle = 5
    assert!(!b.above_upper(9));
    assert!(!b.below_upper(9));
    assert!(b.above_upper(10));
    assert!(b.below_upper(8));
    assert!(b.above_middle(6));
    assert!(!b.above_middle(5));
    assert!(!b.below_middle(5));
    assert!(b.below_middle(4));
    assert!(b.below_lower(0));
    assert!(!b.below_lower(1));
}

#[test]
fn sliding_bands_match_scratch() {
    let closes: Vec<u64> = (0..200u64).map(|i| (i * 7919 + 13) % 997 + 1).collect();
    let klines = create_test_klines(&closes);
    let period = 20;
    let all = calc_all_bands(&klines, period, two());
    assert_eq!(all.len(), closes.len() - period + 1);
    let calc = BollingerCalculator::new(period, two());
    for (j, band) in all.iter().enumerate() {
        let scratch = calc.calculate(&klines[..j + period]).unwrap();
        assert_eq!(*band, scratch);
    }
}

#[test]
fn sliding_bands_short_series_is_empty() {
    let klines = create_test_klines(&[1, 2, 3]);
    assert!(calc_all_bands(&klines, 4, two()).is_empty());
    assert_eq!(calc_all_bands(&klines, 3, two()).len(), 1);
}

#[test]
fn history_condition_counts_against_threshold() {
    let klines = create_test_klines(&[1, 2, 3, 4, 5, 6, 7, 8, 9, 10]);
    let calc = BollingerCalculator::new(5, two());
    let seven = Level::Price { num: 7, den: 1 };
    assert!(calc.check_history_condition(&klines, &seven, 10, 6));
    assert!(!calc.check_history_condition(&klines, &seven, 10, 7));
}

#[test]
fn ratio_bounds() {
    assert_eq!(Ratio::new(91, 100), Some(Ratio { num: 91, den: 100 }));
    assert_eq!(Ratio::new(1, 0), None);
    assert_eq!(Ratio::new(2000, 1), None);
}

#[test]
fn largest_window_of_largest_prices() {
    let closes = vec![MAX_PRICE; MAX_PERIOD];
    let klines = create_test_klines(&closes);
    let calc = BollingerCalculator::new(MAX_PERIOD, Ratio { num: 1024, den: 1024 });
    let b = calc.calculate(&klines).unwrap();
    assert_eq!(b.sum, MAX_PRICE * MAX_PERIOD as u64);
    assert!(!b.above_upper(MAX_PRICE));
    assert!(!b.below_upper(MAX_PRICE));
    assert!(b.below_upper(MAX_PRICE - 1));
    assert!(!b.above_middle(MAX_PRICE));
    assert!(b.below_middle(0));
    let mut mixed = closes.clone();
    mixed[0] = 1;
    let b = calc.calculate(&create_test_klines(&mixed)).unwrap();
    // one outlier widens the band past the common close
    assert!(b.below_upper(MAX_PRICE));
    assert!(b.below_lower(1));
}
