//! Multi-timeframe breakout scanner: rolling Bollinger statistics, cross-timeframe
//! alignment and the signal / trade state machine, all over exact fixed-point values.
pub mod model;
pub mod rolling;
pub mod align;
pub mod clock;
pub mod signal;
pub mod trade;
pub mod scan;
pub mod window;
pub mod live;
pub mod config;
pub mod decimal;

pub use model::{Candle, MetricSample, Ratio, ScanError};
pub use rolling::{Band, BollingerCalculator, Level};
pub use scan::FastScanner;
pub use signal::{ScanConfig, SeriesSet, Signal};
pub use trade::Trade;
