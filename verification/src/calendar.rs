use vstd::prelude::*;
use chrono::{DateTime, Datelike, Days, Months, NaiveDate};

verus! {

/// Seconds in a UTC day; a UTC day has no leap seconds in UNIX time.
pub const SECONDS_PER_DAY: i64 = 86400;

/// The largest distance from the epoch, in seconds, that the statistics accept. Every
/// timestamp a `chrono::DateTime` can hold (about 262 000 years either side) is within it.
pub const TIME_LIMIT: i64 = 0x2000_0000_0000;

pub open spec fn in_time_range(ts: int) -> bool {
    -TIME_LIMIT <= ts <= TIME_LIMIT
}

/// The UTC date of a timestamp, as a count of days since 1970-01-01 (floor division).
pub open spec fn day_of(ts: int) -> int {
    ts / 86400
}

/// `DateTime<Utc>::date_naive` on a timestamp: the day number of its date.
pub fn utc_day(ts: i64) -> (day: i64)
    ensures
        day == day_of(ts as int),
{
    match ts.checked_div_euclid(SECONDS_PER_DAY) {
        Some(day) => day,
        None => {
            assert(false);
            0
        },
    }
}

/// The timestamp of midnight UTC at the start of a day: `and_hms(0, 0, 0).and_utc().timestamp()`.
pub fn day_start(day: i64) -> (ts: i64)
    requires
        -TIME_LIMIT <= day <= TIME_LIMIT,
    ensures
        ts == day * 86400,
{
    day * SECONDS_PER_DAY
}

pub proof fn lemma_day_of_monotonic(a: int, b: int)
    requires
        a <= b,
    ensures
        day_of(a) <= day_of(b),
{
    vstd::arithmetic::div_mod::lemma_div_is_ordered(a, b, 86400);
}

pub proof fn lemma_day_of_bounds(ts: int)
    requires
        in_time_range(ts),
    ensures
        -TIME_LIMIT / 86400 - 1 <= day_of(ts) <= TIME_LIMIT / 86400,
{
    lemma_day_of_monotonic(ts, TIME_LIMIT as int);
    lemma_day_of_monotonic(-TIME_LIMIT as int, ts);
}

/// The first day `chrono::NaiveDate` can represent (-262143-01-01), in days since 1970-01-01.
pub const FIRST_DATE_DAY: i64 = -96465292;

/// The last day `chrono::NaiveDate` can represent (+262142-12-31), in days since 1970-01-01.
pub const LAST_DATE_DAY: i64 = 95026236;

/// The first year of chrono's dates.
pub const FIRST_YEAR: i32 = -262143;

/// The last year of chrono's dates.
pub const LAST_YEAR: i32 = 262142;

pub open spec fn in_date_range(day: int) -> bool {
    FIRST_DATE_DAY <= day <= LAST_DATE_DAY
}

/// A timestamp on one of chrono's dates is within `TIME_LIMIT`.
pub proof fn lemma_date_range_in_time(ts: int)
    requires
        in_date_range(day_of(ts)),
    ensures
        in_time_range(ts),
{
    vstd::arithmetic::div_mod::lemma_fundamental_div_mod(ts, 86400);
}

/// The month, counted from 0, of a UTC timestamp; `None` where chrono cannot represent it.
pub uninterp spec fn utc_month0(ts: i64) -> Option<u32>;

/// A UTC timestamp moved by whole calendar months, the day clamped to the end of a shorter
/// month; `None` where chrono cannot represent the timestamp or the result.
pub uninterp spec fn utc_add_months(ts: i64, months: u32) -> Option<i64>;

/// The (year, month, day of month) of a day number; `None` outside chrono's dates.
pub uninterp spec fn civil_parts(day: i32) -> Option<(i32, u32, u32)>;

/// The day number of a calendar date; `None` if the date does not exist or is out of range.
pub uninterp spec fn civil_from_ymd(year: i32, month: u32, day: u32) -> Option<i32>;

/// The day number of the given day of the year; `None` if it does not exist or is out of range.
pub uninterp spec fn civil_from_yo(year: i32, ordinal: u32) -> Option<i32>;

/// A day moved by whole calendar months, the day clamped to the end of a shorter month.
pub uninterp spec fn civil_add_months(day: i32, months: u32) -> Option<i32>;

/// A day with its year replaced, month and day of month kept; `None` if that date does not exist.
pub uninterp spec fn civil_with_year(day: i32, year: i32) -> Option<i32>;

/// A day with its day of month replaced; `None` if that date does not exist.
pub uninterp spec fn civil_with_day(day: i32, day_of_month: u32) -> Option<i32>;

/// `DateTime::<Utc>::from_timestamp(ts, 0)` followed by `Datelike::month0`. Claims that the
/// result is the named month, that a month counted from 0 is below 12, as chrono documents,
/// and, as chrono's source shows, that there is one exactly when the timestamp's day is one
/// of chrono's dates.
#[verifier::external_body]
pub(crate) fn month0_of_timestamp(ts: i64) -> (month0: Option<u32>)
    ensures
        month0 == utc_month0(ts),
        month0 matches Some(m) ==> m < 12,
        month0 is Some <==> in_date_range(day_of(ts as int)),
{
    match DateTime::from_timestamp(ts, 0) {
        Some(t) => Some(t.month0()),
        None => None,
    }
}

/// `DateTime::<Utc>::from_timestamp(ts, 0)`, then `DateTime::checked_add_months`, then
/// `DateTime::timestamp`. Claims that the result is the named one; as a `DateTime` holds only
/// dates from chrono's first to its last, that it lies within `TIME_LIMIT`; and, as chrono's
/// source shows (the day of the month is clamped to the new month, whose every month has 28
/// to 31 days), that the date moves by 28 to 31 days a month and that there is a result
/// whenever the start and the date 31 days a month on are chrono dates.
#[verifier::external_body]
pub(crate) fn timestamp_add_months(ts: i64, months: u32) -> (moved: Option<i64>)
    ensures
        moved == utc_add_months(ts, months),
        moved matches Some(t) ==> in_time_range(t as int),
        moved matches Some(t) ==> day_of(ts as int) + 28 * months <= day_of(t as int) <= day_of(ts as int)
            + 31 * months,
        in_date_range(day_of(ts as int)) && in_date_range(day_of(ts as int) + 31 * months) && months
            <= i32::MAX ==> moved is Some,
{
    match DateTime::from_timestamp(ts, 0) {
        Some(t) => match t.checked_add_months(Months::new(months)) {
            Some(m) => Some(m.timestamp()),
            None => None,
        },
        None => None,
    }
}

/// `NaiveDate::from_epoch_days` followed by `Datelike::{year, month, day}`. Claims that the
/// result is the named one, that there is one exactly when the day is one of chrono's dates,
/// and, as chrono documents, that months count from 1 to 12, days of the month from 1 to 31
/// and years from `FIRST_YEAR` to `LAST_YEAR`. Also claims two facts of the calendar that
/// chrono's source keeps: the date names the day back (`from_ymd_opt` gives it again), and
/// the days of a month up to this one are the day numbers just before it.
#[verifier::external_body]
pub(crate) fn date_parts(day: i32) -> (parts: Option<(i32, u32, u32)>)
    ensures
        parts == civil_parts(day),
        parts is Some <==> in_date_range(day as int),
        parts matches Some((y, m, d)) ==> 1 <= m <= 12 && 1 <= d <= 31 && FIRST_YEAR <= y <= LAST_YEAR,
        parts matches Some((y, m, d)) ==> civil_from_ymd(y, m, d) == Some(day),
        parts matches Some((y, m, d)) ==> forall|a: i32|
            day - d < a <= day ==> #[trigger] civil_parts(a) == Some((y, m, (d - (day - a)) as u32)),
{
    match NaiveDate::from_epoch_days(day) {
        Some(date) => Some((date.year(), date.month(), date.day())),
        None => None,
    }
}

/// `NaiveDate::from_ymd_opt` followed by `NaiveDate::to_epoch_days`. Claims that the result
/// is the named one; that a result is a chrono date with the given year, month and day; and,
/// as chrono's source shows, that there is one for a month from 1 to 12 and a day from 1 to
/// 28 of a year of chrono's, and for a day of a month no later than a day that exists.
#[verifier::external_body]
pub(crate) fn date_from_ymd(year: i32, month: u32, day: u32) -> (date: Option<i32>)
    ensures
        date == civil_from_ymd(year, month, day),
        date matches Some(x) ==> civil_parts(x) == Some((year, month, day)) && in_date_range(x as int),
        FIRST_YEAR <= year <= LAST_YEAR && 1 <= month <= 12 && 1 <= day <= 28 ==> date is Some,
        (exists|x: i32|
            #[trigger] civil_parts(x) matches Some((y, m, last)) && y == year && m == month && 1 <= day
                <= last) ==> date is Some,
{
    match NaiveDate::from_ymd_opt(year, month, day) {
        Some(d) => Some(d.to_epoch_days()),
        None => None,
    }
}

/// `NaiveDate::from_yo_opt` followed by `NaiveDate::to_epoch_days`. Claims that the result
/// is the named one; that a result is a chrono date, the first of January for the first day
/// of the year; and, as chrono's source shows, that there is one for a day from 1 to 365 of a
/// year of chrono's.
#[verifier::external_body]
pub(crate) fn date_from_yo(year: i32, ordinal: u32) -> (date: Option<i32>)
    ensures
        date == civil_from_yo(year, ordinal),
        date matches Some(x) ==> in_date_range(x as int) && (ordinal == 1 ==> civil_parts(x) == Some(
            (year, 1u32, 1u32),
        )),
        FIRST_YEAR <= year <= LAST_YEAR && 1 <= ordinal <= 365 ==> date is Some,
{
    match NaiveDate::from_yo_opt(year, ordinal) {
        Some(d) => Some(d.to_epoch_days()),
        None => None,
    }
}

/// `NaiveDate::from_epoch_days`, then `NaiveDate::checked_add_days`, then
/// `NaiveDate::to_epoch_days`. Claims what chrono's source shows: the day number grows by
/// `days`, and the result is `None` exactly when the start or the end lies outside chrono's
/// dates.
#[verifier::external_body]
pub(crate) fn date_add_days(day: i32, days: u64) -> (moved: Option<i32>)
    ensures
        moved == (if in_date_range(day as int) && in_date_range(day + days) {
            Some((day + days) as i32)
        } else {
            None
        }),
{
    match NaiveDate::from_epoch_days(day) {
        Some(d) => match d.checked_add_days(Days::new(days)) {
            Some(m) => Some(m.to_epoch_days()),
            None => None,
        },
        None => None,
    }
}

/// `NaiveDate::from_epoch_days`, then `NaiveDate::checked_add_months`, then
/// `NaiveDate::to_epoch_days`. Claims that the result is the named one and, as chrono's source
/// shows (the day of the month is clamped to the new month, and months have 28 to 31 days),
/// that a result is a chrono date 28 to 31 days a month on, and that there is one whenever
/// the start and the day 31 days a month on are chrono dates.
#[verifier::external_body]
pub(crate) fn date_add_months(day: i32, months: u32) -> (moved: Option<i32>)
    ensures
        moved == civil_add_months(day, months),
        moved matches Some(n) ==> day + 28 * months <= n <= day + 31 * months && in_date_range(n as int),
        in_date_range(day as int) && in_date_range(day + 31 * months) && months <= i32::MAX ==> moved is Some,
{
    match NaiveDate::from_epoch_days(day) {
        Some(d) => match d.checked_add_months(Months::new(months)) {
            Some(m) => Some(m.to_epoch_days()),
            None => None,
        },
        None => None,
    }
}

/// `NaiveDate::from_epoch_days`, then `Datelike::with_year`, then `NaiveDate::to_epoch_days`.
/// Claims that the result is the named one and, as chrono's source shows, that a result is the
/// chrono date with the new year and the same month and day, 365 to 366 days a year later
/// for a later year, and that there is one for a day of the month up to 28 whenever the date
/// 366 days a year later is one of chrono's.
#[verifier::external_body]
pub(crate) fn date_with_year(day: i32, year: i32) -> (moved: Option<i32>)
    ensures
        moved == civil_with_year(day, year),
        moved matches Some(n) ==> civil_parts(day) matches Some((y, m, d)) && civil_parts(n) == Some(
            (year, m, d),
        ) && in_date_range(n as int) && (year >= y ==> day + 365 * (year - y) <= n <= day + 366 * (year
            - y)),
        civil_parts(day) matches Some((y, m, d)) && d <= 28 && year >= y && in_date_range(day + 366 * (
        year - y)) ==> moved is Some,
{
    match NaiveDate::from_epoch_days(day) {
        Some(d) => match d.with_year(year) {
            Some(m) => Some(m.to_epoch_days()),
            None => None,
        },
        None => None,
    }
}

/// `NaiveDate::from_epoch_days`, then `Datelike::with_day`, then `NaiveDate::to_epoch_days`.
/// Claims that the result is the named one and, as chrono's source shows, that a result is the
/// given day of the same month, as many days away as the days of the month differ, and that
/// there is one for a day of the month from 1 to 28 of any chrono date.
#[verifier::external_body]
pub(crate) fn date_with_day(day: i32, day_of_month: u32) -> (moved: Option<i32>)
    ensures
        moved == civil_with_day(day, day_of_month),
        moved matches Some(f) ==> civil_parts(day) matches Some((y, m, d)) && f == day - d + day_of_month
            && civil_parts(f) == Some((y, m, day_of_month)) && in_date_range(f as int),
        in_date_range(day as int) && 1 <= day_of_month <= 28 ==> moved is Some,
{
    match NaiveDate::from_epoch_days(day) {
        Some(d) => match d.with_day(day_of_month) {
            Some(m) => Some(m.to_epoch_days()),
            None => None,
        },
        None => None,
    }
}

} // verus!
