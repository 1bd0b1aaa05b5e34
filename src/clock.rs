//! Conversions between epoch milliseconds and `YYYY-MM-DD HH:MM:SS` UTC text.
use vstd::prelude::*;
use chrono::TimeZone;

verus! {

/// UTC text of an epoch-millisecond timestamp, `None` when out of chrono's range.
pub uninterp spec fn utc_text(ms: int) -> Option<Seq<char>>;

/// Epoch milliseconds of a `YYYY-MM-DD HH:MM:SS` UTC text, `None` when it does not parse.
pub uninterp spec fn parsed_utc_millis(s: Seq<char>) -> Option<int>;

/// Relies on chrono's `Utc.timestamp_millis_opt(..).single()` and `DateTime::format`
/// with the pattern `%Y-%m-%d %H:%M:%S`: the text depends on `ms` alone.
#[verifier::external_body]
fn utc_millis_to_text(ms: i64) -> (r: Option<String>)
    ensures
        r.is_some() == utc_text(ms as int).is_some(),
        r.is_some() ==> r.unwrap()@ == utc_text(ms as int).unwrap(),
{
    let dt = chrono::Utc.timestamp_millis_opt(ms).single()?;
    Some(dt.format("%Y-%m-%d %H:%M:%S").to_string())
}

/// Relies on chrono's `NaiveDateTime::parse_from_str` with the pattern
/// `%Y-%m-%d %H:%M:%S`, read as UTC by `and_utc().timestamp_millis()`.
#[verifier::external_body]
fn text_to_utc_millis(s: &str) -> (r: Option<i64>)
    ensures
        r.is_some() == parsed_utc_millis(s@).is_some(),
        r.is_some() ==> r.unwrap() as int == parsed_utc_millis(s@).unwrap(),
{
    let dt = chrono::NaiveDateTime::parse_from_str(s, "%Y-%m-%d %H:%M:%S").ok()?;
    Some(dt.and_utc().timestamp_millis())
}

/// The text a record shows for its timestamp.
pub open spec fn timestamp_text(ms: int) -> Seq<char> {
    match utc_text(ms) {
        Some(s) => s,
        None => "Invalid"@,
    }
}

/// Formats a timestamp as UTC text, or `Invalid` when it is out of range.
pub fn format_timestamp(timestamp: i64) -> (r: String)
    ensures
        r@ == timestamp_text(timestamp as int),
{
    match utc_millis_to_text(timestamp) {
        Some(s) => s,
        None => {
            let s = "Invalid".to_owned();
            proof {
                reveal_strlit("Invalid");
            }
            s
        },
    }
}

/// Epoch milliseconds of a sample's `create_time` text, 0 when it does not parse.
pub fn timestamp_ms(create_time: &str) -> (r: i64)
    ensures
        parsed_utc_millis(create_time@).is_some() ==> r as int == parsed_utc_millis(
            create_time@,
        ).unwrap(),
        parsed_utc_millis(create_time@).is_none() ==> r == 0,
{
    match text_to_utc_millis(create_time) {
        Some(ms) => ms,
        None => 0,
    }
}

} // verus!
