//! Settings of the collaborators around the engine, and the exchange's open-interest
//! records, as plain data.
use vstd::prelude::*;

verus! {

#[derive(Clone, Debug)]
pub struct CoinGeckoConfig {
    pub base_url: String,
    pub top_n: usize,
}

#[derive(Clone, Debug)]
pub struct BinanceConfig {
    pub spot_base_url: String,
    pub futures_base_url: String,
    pub kline_limit: u32,
}

#[derive(Clone, Debug)]
pub struct EmailConfig {
    pub smtp_server: String,
    pub smtp_port: u16,
    pub username: String,
    pub password: String,
    pub from: String,
    pub to: String,
}

#[derive(Clone, Copy, Debug, PartialEq, Eq)]
pub struct SchedulerConfig {
    pub interval_minutes: u64,
}

/// Current open interest of a symbol, as the exchange reports it (a decimal text).
#[derive(Clone, Debug)]
pub struct OpenInterest {
    pub symbol: String,
    pub open_interest: String,
    pub time: i64,
}

/// One point of a symbol's open-interest history (decimal texts).
#[derive(Clone, Debug)]
pub struct OpenInterestHist {
    pub symbol: String,
    pub sum_open_interest: String,
    pub sum_open_interest_value: String,
    pub timestamp: i64,
}

/// Outcome of one download.
#[derive(Clone, Copy, Debug, PartialEq, Eq)]
pub enum DownloadResult {
    Success,
    Skipped,
    NotFound,
    Failed,
}

/// Counters of download outcomes.
#[derive(Clone, Copy, Debug, PartialEq, Eq)]
pub struct Stats {
    pub success: u64,
    pub skipped: u64,
    pub not_found: u64,
    pub failed: u64,
}

impl Stats {
    pub fn new() -> (r: Stats)
        ensures
            r == (Stats { success: 0, skipped: 0, not_found: 0, failed: 0 }),
    {
        Stats { success: 0, skipped: 0, not_found: 0, failed: 0 }
    }

    /// Counts one outcome; a counter at its maximum wraps to zero.
    pub fn record(&mut self, result: DownloadResult)
        ensures
            final(self).success == if result == DownloadResult::Success {
                if old(self).success == u64::MAX { 0 } else { (old(self).success + 1) as u64 }
            } else {
                old(self).success
            },
            final(self).skipped == if result == DownloadResult::Skipped {
                if old(self).skipped == u64::MAX { 0 } else { (old(self).skipped + 1) as u64 }
            } else {
                old(self).skipped
            },
            final(self).not_found == if result == DownloadResult::NotFound {
                if old(self).not_found == u64::MAX { 0 } else { (old(self).not_found + 1) as u64 }
            } else {
                old(self).not_found
            },
            final(self).failed == if result == DownloadResult::Failed {
                if old(self).failed == u64::MAX { 0 } else { (old(self).failed + 1) as u64 }
            } else {
                old(self).failed
            },
    {
        match result {
            DownloadResult::Success => {
                self.success = if self.success == u64::MAX { 0 } else { self.success + 1 };
            },
            DownloadResult::Skipped => {
                self.skipped = if self.skipped == u64::MAX { 0 } else { self.skipped + 1 };
            },
            DownloadResult::NotFound => {
                self.not_found = if self.not_found == u64::MAX { 0 } else { self.not_found + 1 };
            },
            DownloadResult::Failed => {
                self.failed = if self.failed == u64::MAX { 0 } else { self.failed + 1 };
            },
        }
    }

    /// `(success, skipped, not_found, failed)`.
    pub fn get_counts(&self) -> (r: (u64, u64, u64, u64))
        ensures
            r == (self.success, self.skipped, self.not_found, self.failed),
    {
        (self.success, self.skipped, self.not_found, self.failed)
    }
}

} // verus!
