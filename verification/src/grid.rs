use vstd::prelude::*;
use std::collections::HashMap;
use crate::collections::map_values;
use crate::calendar::{
    civil_add_months, civil_from_ymd, civil_from_yo, civil_parts, civil_with_day, civil_with_year,
    date_add_days, date_add_months, date_from_ymd, date_from_yo, date_parts, date_with_day,
    date_with_year, day_of, in_date_range, lemma_date_range_in_time, FIRST_YEAR, LAST_DATE_DAY, LAST_YEAR, in_time_range, lemma_day_of_bounds, utc_day, TIME_LIMIT,
};

verus! {

broadcast use vstd::std_specs::hash::group_hash_axioms;

/// A grid line of the time axis: where it stands and the spacing of its level, in seconds.
#[derive(Clone, Copy, Debug, PartialEq, Eq, Structural)]
pub struct GridMark {
    pub value: i64,
    pub step_size: i64,
}

/// Rust's integer division, which rounds toward zero.
pub open spec fn trunc_div(a: int, b: int) -> int {
    if a >= 0 {
        a / b
    } else {
        -((-a) / b)
    }
}

/// Inserts a mark for each timestamp, in order, all with the same spacing.
pub open spec fn insert_marks(m: Map<i64, GridMark>, stamps: Seq<i64>, step: i64) -> Map<i64, GridMark>
    decreases stamps.len(),
{
    if stamps.len() == 0 {
        m
    } else {
        insert_marks(m, stamps.drop_last(), step).insert(
            stamps.last(),
            GridMark { value: stamps.last(), step_size: step },
        )
    }
}

/// How many days are left before `end`, and zero once it is reached.
pub open spec fn remaining_days(day: i32, end: int) -> int {
    if end > day {
        end - day
    } else {
        0
    }
}

pub open spec fn midnight(day: i32) -> i64 {
    (day * 86400) as i64
}

pub open spec fn prepend_mark(day: i32, rest: Option<Seq<i64>>) -> Option<Seq<i64>> {
    match rest {
        Some(r) => Some(seq![midnight(day)] + r),
        None => None,
    }
}

/// `days` days on from a day, within chrono's dates.
pub open spec fn spec_add_days(day: i32, days: u32) -> Option<i32> {
    if in_date_range(day as int) && in_date_range(day + days) {
        Some((day + days) as i32)
    } else {
        None
    }
}

/// Where the daily walk goes after `day`: `days` days on, and back to the first of the month
/// when that crosses into a new month. Yields the day and its month.
pub open spec fn day_walk_next(day: i32, month: u32, days: u32) -> Option<(i32, u32)> {
    match spec_add_days(day, days) {
        None => None,
        Some(n) => match civil_parts(n) {
            None => None,
            Some(p) => if p.1 != month {
                match civil_with_day(n, 1) {
                    None => None,
                    Some(f) => match civil_parts(f) {
                        None => None,
                        Some(q) => Some((f, q.1)),
                    },
                }
            } else {
                Some((n, month))
            },
        },
    }
}

/// The midnights of the daily walk from `day` while it is before day `end`. `None` where a
/// calendar step fails or does not move forward.
pub open spec fn day_marks_from(day: i32, month: u32, end: int, days: u32) -> Option<Seq<i64>>
    decreases remaining_days(day, end),
{
    if day >= end {
        Some(Seq::empty())
    } else {
        match day_walk_next(day, month, days) {
            None => None,
            Some(next) => if next.0 <= day {
                None
            } else {
                prepend_mark(day, day_marks_from(next.0, next.1, end, days))
            },
        }
    }
}

/// Daily marks every `days` days from the start of the `days`-day block of the start's month
/// that holds the start, restarting at each month's first day.
pub open spec fn day_marks(start: i64, end: i64, days: u32) -> Option<Seq<i64>> {
    match civil_parts(day_of(start as int) as i32) {
        None => None,
        Some(p) => match civil_from_ymd(p.0, p.1, ((p.2 - 1) as u32 / days * days + 1) as u32) {
            None => None,
            Some(first) => day_marks_from(first, p.1, day_of(end as int), days),
        },
    }
}

/// The midnights of the monthly walk from `day` while it is before day `end`.
pub open spec fn month_marks_from(day: i32, end: int, months: u32) -> Option<Seq<i64>>
    decreases remaining_days(day, end),
{
    if day >= end {
        Some(Seq::empty())
    } else {
        match civil_add_months(day, months) {
            None => None,
            Some(next) => if next <= day {
                None
            } else {
                prepend_mark(day, month_marks_from(next, end, months))
            },
        }
    }
}

/// Marks every `months` months from the first day of the start's `months`-month block of
/// the year.
pub open spec fn month_marks(start: i64, end: i64, months: u32) -> Option<Seq<i64>> {
    match civil_parts(day_of(start as int) as i32) {
        None => None,
        Some(p) => match civil_from_ymd(p.0, ((p.1 - 1) as u32 / months * months + 1) as u32, 1) {
            None => None,
            Some(first) => month_marks_from(first, day_of(end as int), months),
        },
    }
}

/// The midnights of the yearly walk from `day` while it is before day `end`.
pub open spec fn year_marks_from(day: i32, end: int, years: i32) -> Option<Seq<i64>>
    decreases remaining_days(day, end),
{
    if day >= end {
        Some(Seq::empty())
    } else {
        match civil_parts(day) {
            None => None,
            Some(p) => if p.0 + years > i32::MAX {
                None
            } else {
                match civil_with_year(day, (p.0 + years) as i32) {
                    None => None,
                    Some(next) => if next <= day {
                        None
                    } else {
                        prepend_mark(day, year_marks_from(next, end, years))
                    },
                }
            },
        }
    }
}

/// Marks every `years` years from the first day of the start's year, rounded toward zero to
/// a multiple of `years`.
pub open spec fn year_marks(start: i64, end: i64, years: i32) -> Option<Seq<i64>> {
    match civil_parts(day_of(start as int) as i32) {
        None => None,
        Some(p) => match civil_from_yo((trunc_div(p.0 as int, years as int) * years) as i32, 1) {
            None => None,
            Some(first) => year_marks_from(first, day_of(end as int), years),
        },
    }
}

pub open spec fn start_in_range(start: i64) -> bool {
    in_time_range(start as int)
}

proof fn lemma_start_day_fits(ts: i64)
    requires
        in_time_range(ts as int),
    ensures
        -0x2000_0000 < day_of(ts as int) < 0x2000_0000,
{
    lemma_day_of_bounds(ts as int);
}

/// Marks a grid line every `days` days (see `day_marks`) from the start's date up to the
/// end's date, into `marks`. False where a calendar step fails.
fn marks_by_day(start: i64, end: i64, days: u32, marks: &mut HashMap<i64, GridMark>) -> (ok: bool)
    requires
        in_time_range(start as int),
        in_time_range(end as int),
        1 <= days,
    ensures
        ok == day_marks(start, end, days) is Some,
        ok ==> final(marks)@ == insert_marks(old(marks)@, day_marks(start, end, days)->0, (days * 86400) as i64),
        in_date_range(day_of(start as int)) && day_of(end as int) + days <= LAST_DATE_DAY ==> ok,
{
    proof {
        lemma_start_day_fits(start);
        lemma_start_day_fits(end);
    }
    let ghost good = in_date_range(day_of(start as int)) && day_of(end as int) + days <= LAST_DATE_DAY;
    let start_day = utc_day(start);
    let end_day = utc_day(end);
    let parts = match date_parts(start_day as i32) {
        Some(p) => p,
        None => return false,
    };
    let day0 = parts.2 - 1;
    assert(day0 / days * days <= day0) by (nonlinear_arith)
        requires
            days >= 1,
    ;
    let floor_day = day0 / days * days;
    proof {
        assert(civil_parts(start_day as i32) matches Some((y, m, last)) && y == parts.0 && m == parts.1 && 1
            <= floor_day + 1 <= last);
    }
    let mut current = match date_from_ymd(parts.0, parts.1, floor_day + 1) {
        Some(d) => d,
        None => return false,
    };
    let mut current_month = parts.1;
    let step: i64 = days as i64 * 86400;
    let ghost mut done: Seq<i64> = Seq::empty();
    while (current as i64) < end_day
        invariant
            end_day == day_of(end as int),
            -0x2000_0000 < end_day < 0x2000_0000,
            1 <= days,
            step == days * 86400,
            marks@ == insert_marks(old(marks)@, done, step),
            good == (in_date_range(day_of(start as int)) && day_of(end as int) + days <= LAST_DATE_DAY),
            good ==> in_date_range(current as int) && civil_parts(current) is Some,
            good ==> (civil_parts(current) matches Some(p) ==> p.1 == current_month),
            day_marks(start, end, days) == match day_marks_from(current, current_month, end_day as int, days) {
                Some(rest) => Some(done + rest),
                None => None,
            },
        decreases remaining_days(current, end_day as int),
    {
        let ts: i64 = current as i64 * 86400;
        marks.insert(ts, GridMark { value: ts, step_size: step });
        let next_day = match date_add_days(current, days as u64) {
            Some(n) => n,
            None => return false,
        };
        let next_parts = match date_parts(next_day) {
            Some(p) => p,
            None => return false,
        };
        let mut next = next_day;
        let mut next_month = current_month;
        if next_parts.1 != current_month {
            next = match date_with_day(next_day, 1) {
                Some(f) => f,
                None => return false,
            };
            next_month = match date_parts(next) {
                Some(p) => p.1,
                None => return false,
            };
        }
        proof {
            if good && next_parts.1 != current_month && next <= current {
                assert(next_day - next_parts.2 < current <= next_day);
                assert(civil_parts(current) == Some((next_parts.0, next_parts.1, (next_parts.2 - (next_day - current)) as u32)));
            }
        }
        if next <= current {
            return false;
        }
        proof {
            let rest = day_marks_from(next, next_month, end_day as int, days);
            assert(insert_marks(old(marks)@, done.push(ts), step) == insert_marks(old(marks)@, done, step).insert(ts, GridMark { value: ts, step_size: step })) by {
                assert(done.push(ts).drop_last() == done);
            }
            if let Some(r) = rest {
                assert(done + (seq![ts] + r) == done.push(ts) + r);
            }
            done = done.push(ts);
        }
        current = next;
        current_month = next_month;
    }
    proof {
        assert(done + Seq::<i64>::empty() == done);
    }
    true
}

/// Marks a grid line every `months` months (see `month_marks`) up to the end's date, into
/// `marks`. False where a calendar step fails.
fn marks_by_month(start: i64, end: i64, months: u32, marks: &mut HashMap<i64, GridMark>) -> (ok: bool)
    requires
        in_time_range(start as int),
        in_time_range(end as int),
        1 <= months,
    ensures
        ok == month_marks(start, end, months) is Some,
        ok ==> final(marks)@ == insert_marks(old(marks)@, month_marks(start, end, months)->0, (months * 30 * 86400) as i64),
        in_date_range(day_of(start as int)) && day_of(end as int) + 31 * months <= LAST_DATE_DAY && months
            <= i32::MAX ==> ok,
{
    proof {
        lemma_start_day_fits(start);
        lemma_start_day_fits(end);
    }
    let ghost good = in_date_range(day_of(start as int)) && day_of(end as int) + 31 * months <= LAST_DATE_DAY
        && months <= i32::MAX;
    let start_day = utc_day(start);
    let end_day = utc_day(end);
    let parts = match date_parts(start_day as i32) {
        Some(p) => p,
        None => return false,
    };
    let month0 = parts.1 - 1;
    assert(month0 / months * months <= month0) by (nonlinear_arith)
        requires
            months >= 1,
    ;
    let floor_month = month0 / months * months;
    let mut current = match date_from_ymd(parts.0, floor_month + 1, 1) {
        Some(d) => d,
        None => return false,
    };
    let step: i64 = months as i64 * 30 * 86400;
    let ghost mut done: Seq<i64> = Seq::empty();
    while (current as i64) < end_day
        invariant
            end_day == day_of(end as int),
            -0x2000_0000 < end_day < 0x2000_0000,
            1 <= months,
            step == months * 30 * 86400,
            marks@ == insert_marks(old(marks)@, done, step),
            good == (in_date_range(day_of(start as int)) && day_of(end as int) + 31 * months <= LAST_DATE_DAY
                && months <= i32::MAX),
            good ==> in_date_range(current as int),
            month_marks(start, end, months) == match month_marks_from(current, end_day as int, months) {
                Some(rest) => Some(done + rest),
                None => None,
            },
        decreases remaining_days(current, end_day as int),
    {
        let ts: i64 = current as i64 * 86400;
        marks.insert(ts, GridMark { value: ts, step_size: step });
        let next = match date_add_months(current, months) {
            Some(n) => n,
            None => return false,
        };
        if next <= current {
            return false;
        }
        proof {
            let rest = month_marks_from(next, end_day as int, months);
            assert(insert_marks(old(marks)@, done.push(ts), step) == insert_marks(old(marks)@, done, step).insert(ts, GridMark { value: ts, step_size: step })) by {
                assert(done.push(ts).drop_last() == done);
            }
            if let Some(r) = rest {
                assert(done + (seq![ts] + r) == done.push(ts) + r);
            }
            done = done.push(ts);
        }
        current = next;
    }
    proof {
        assert(done + Seq::<i64>::empty() == done);
    }
    true
}

fn trunc_div_exec(a: i32, b: i32) -> (q: i32)
    requires
        b >= 1,
    ensures
        q == trunc_div(a as int, b as int),
        -0x8000_0000 <= q * b <= 0x7fff_ffff,
{
    let q = a / b;
    assert(q == trunc_div(a as int, b as int));
    assert(-0x8000_0000 <= q * b <= 0x7fff_ffff) by (nonlinear_arith)
        requires
            b >= 1,
            q == trunc_div(a as int, b as int),
            -0x8000_0000 <= a <= 0x7fff_ffff,
    {
        if a >= 0 {
            assert(q * b <= a);
            assert(q >= 0);
        } else {
            assert(q * b >= a);
            assert(q <= 0);
        }
    }
    q
}

/// Marks a grid line every `years` years (see `year_marks`) up to the end's date, into
/// `marks`. False where a calendar step fails.
fn marks_by_year(start: i64, end: i64, years: i32, marks: &mut HashMap<i64, GridMark>) -> (ok: bool)
    requires
        in_time_range(start as int),
        in_time_range(end as int),
        1 <= years,
    ensures
        ok == year_marks(start, end, years) is Some,
        ok ==> final(marks)@ == insert_marks(old(marks)@, year_marks(start, end, years)->0, (years * 365 * 86400) as i64),
        in_date_range(day_of(start as int)) && day_of(end as int) + 366 * years <= LAST_DATE_DAY ==> ok,
{
    proof {
        lemma_start_day_fits(start);
        lemma_start_day_fits(end);
    }
    let ghost good = in_date_range(day_of(start as int)) && day_of(end as int) + 366 * years <= LAST_DATE_DAY;
    let start_day = utc_day(start);
    let end_day = utc_day(end);
    let parts = match date_parts(start_day as i32) {
        Some(p) => p,
        None => return false,
    };
    let q = trunc_div_exec(parts.0, years);
    let floor_year = q * years;
    proof {
        let y = parts.0;
        assert(y >= 0 ==> 0 <= q * years <= y) by (nonlinear_arith)
            requires
                q == trunc_div(y as int, years as int),
                years >= 1,
        {
            if y >= 0 {
                assert(q >= 0);
            }
        }
        assert(y < 0 ==> y <= q * years <= 0) by (nonlinear_arith)
            requires
                q == trunc_div(y as int, years as int),
                years >= 1,
        {
            if y < 0 {
                assert(q <= 0);
            }
        }
    }
    let mut current = match date_from_yo(floor_year, 1) {
        Some(d) => d,
        None => return false,
    };
    let step: i64 = years as i64 * 365 * 86400;
    let ghost mut done: Seq<i64> = Seq::empty();
    while (current as i64) < end_day
        invariant
            end_day == day_of(end as int),
            -0x2000_0000 < end_day < 0x2000_0000,
            1 <= years,
            step == years * 365 * 86400,
            marks@ == insert_marks(old(marks)@, done, step),
            good == (in_date_range(day_of(start as int)) && day_of(end as int) + 366 * years <= LAST_DATE_DAY),
            good ==> in_date_range(current as int) && civil_parts(current) is Some,
            good ==> (civil_parts(current) matches Some(p) ==> p.1 == 1 && p.2 == 1),
            year_marks(start, end, years) == match year_marks_from(current, end_day as int, years) {
                Some(rest) => Some(done + rest),
                None => None,
            },
        decreases remaining_days(current, end_day as int),
    {
        let ts: i64 = current as i64 * 86400;
        marks.insert(ts, GridMark { value: ts, step_size: step });
        let year = match date_parts(current) {
            Some(p) => p.0,
            None => return false,
        };
        let next_year = match year.checked_add(years) {
            Some(y) => y,
            None => return false,
        };
        let next = match date_with_year(current, next_year) {
            Some(n) => n,
            None => return false,
        };
        if next <= current {
            return false;
        }
        proof {
            let rest = year_marks_from(next, end_day as int, years);
            assert(insert_marks(old(marks)@, done.push(ts), step) == insert_marks(old(marks)@, done, step).insert(ts, GridMark { value: ts, step_size: step })) by {
                assert(done.push(ts).drop_last() == done);
            }
            if let Some(r) = rest {
                assert(done + (seq![ts] + r) == done.push(ts) + r);
            }
            done = done.push(ts);
        }
        current = next;
    }
    proof {
        assert(done + Seq::<i64>::empty() == done);
    }
    true
}

/// The largest spacing, in seconds either way, that a `chrono::TimeDelta` holds.
pub const MAX_STEP_SECONDS: i64 = 9_223_372_036_854_775;

/// How many levels of grid lines there are, from daily to six-yearly.
pub const LEVELS: usize = 8;

/// The spacing in days from which a level of grid lines is used.
pub open spec fn level_days(level: int) -> int {
    if level == 0 {
        1
    } else if level == 1 {
        7
    } else if level == 2 {
        30
    } else if level == 3 {
        60
    } else if level == 4 {
        180
    } else if level == 5 {
        365
    } else if level == 6 {
        1095
    } else {
        2190
    }
}

/// The marks of one level: every 1 or 7 days, every 1, 2 or 6 months, every 1, 3 or 6 years.
pub open spec fn level_marks(level: int, start: i64, end: i64) -> Option<Seq<i64>> {
    if level == 0 {
        day_marks(start, end, 1)
    } else if level == 1 {
        day_marks(start, end, 7)
    } else if level == 2 {
        month_marks(start, end, 1)
    } else if level == 3 {
        month_marks(start, end, 2)
    } else if level == 4 {
        month_marks(start, end, 6)
    } else if level == 5 {
        year_marks(start, end, 1)
    } else if level == 6 {
        year_marks(start, end, 3)
    } else {
        year_marks(start, end, 6)
    }
}

/// The spacing a level's marks carry, in seconds: days, months of 30 days, years of 365.
pub open spec fn level_step(level: int) -> i64 {
    if level == 0 {
        86400
    } else if level == 1 {
        604800
    } else if level == 2 {
        2592000
    } else if level == 3 {
        5184000
    } else if level == 4 {
        15552000
    } else if level == 5 {
        31536000
    } else if level == 6 {
        94608000
    } else {
        189216000
    }
}

/// The first level from `level` on whose spacing reaches the plot's base step; the last
/// level when none does.
pub open spec fn first_level_from(base_step: i64, level: int) -> int
    decreases LEVELS - level,
{
    if level >= LEVELS - 1 {
        (LEVELS - 1) as int
    } else if level_days(level) * 86400 >= base_step {
        level
    } else {
        first_level_from(base_step, level + 1)
    }
}

/// The marks of levels `level` up to `last`, inserted level by level into `m`, so that a
/// timestamp marked by several levels keeps the spacing of the last.
pub open spec fn grid_levels(m: Map<i64, GridMark>, start: i64, end: i64, level: int, last: int) -> Option<Map<i64, GridMark>>
    decreases last - level,
{
    if level >= last {
        Some(m)
    } else {
        match level_marks(level, start, end) {
            None => None,
            Some(stamps) => grid_levels(insert_marks(m, stamps, level_step(level)), start, end, level + 1, last),
        }
    }
}

pub open spec fn min_int(a: int, b: int) -> int {
    if a < b {
        a
    } else {
        b
    }
}

/// The grid lines of a time axis from `start` to `end`: up to four levels, from the first
/// whose spacing reaches `base_step`. `None` where a chrono conversion fails:
/// a time or step it cannot represent, or a failing calendar step.
pub open spec fn grid_spec(start: i64, end: i64, base_step: i64) -> Option<Map<i64, GridMark>> {
    if !(-MAX_STEP_SECONDS <= base_step <= MAX_STEP_SECONDS) || !in_time_range(start as int)
        || !in_time_range(end as int) || civil_parts(day_of(end as int) as i32) is None {
        None
    } else {
        let first = first_level_from(base_step, 0);
        grid_levels(Map::empty(), start, end, first, min_int(first + 4, LEVELS as int))
    }
}

fn level_threshold(level: usize) -> (seconds: i64)
    requires
        level < LEVELS,
    ensures
        seconds == level_days(level as int) * 86400,
{
    let days: i64 = if level == 0 {
        1
    } else if level == 1 {
        7
    } else if level == 2 {
        30
    } else if level == 3 {
        60
    } else if level == 4 {
        180
    } else if level == 5 {
        365
    } else if level == 6 {
        3 * 365
    } else {
        6 * 365
    };
    days * 86400
}

/// Room left after the end's date for the coarsest walk to take its last step: six years of
/// 366 days.
pub const GRID_MARGIN_DAYS: i64 = 2196;

/// Dates on which every level of the grid succeeds: the start's and the end's dates are
/// chrono's, with room after the end for the coarsest level's last step.
pub open spec fn grid_dates_ok(start: i64, end: i64) -> bool {
    &&& in_date_range(day_of(start as int))
    &&& in_date_range(day_of(end as int))
    &&& day_of(end as int) + GRID_MARGIN_DAYS <= LAST_DATE_DAY
}

fn run_level(level: usize, start: i64, end: i64, marks: &mut HashMap<i64, GridMark>) -> (ok: bool)
    requires
        level < LEVELS,
        in_time_range(start as int),
        in_time_range(end as int),
    ensures
        ok == level_marks(level as int, start, end) is Some,
        ok ==> final(marks)@ == insert_marks(old(marks)@, level_marks(level as int, start, end)->0, level_step(level as int)),
        grid_dates_ok(start, end) ==> ok,
{
    if level == 0 {
        marks_by_day(start, end, 1, marks)
    } else if level == 1 {
        marks_by_day(start, end, 7, marks)
    } else if level == 2 {
        marks_by_month(start, end, 1, marks)
    } else if level == 3 {
        marks_by_month(start, end, 2, marks)
    } else if level == 4 {
        marks_by_month(start, end, 6, marks)
    } else if level == 5 {
        marks_by_year(start, end, 1, marks)
    } else if level == 6 {
        marks_by_year(start, end, 3, marks)
    } else {
        marks_by_year(start, end, 6, marks)
    }
}

/// The grid lines of a time axis from `start` to `end`, both UNIX timestamps, for a plot whose
/// finest useful spacing is `base_step` seconds (see `grid_spec`). Each timestamp appears once.
/// It succeeds for a spacing a `TimeDelta` holds and dates as `grid_dates_ok` asks.
pub fn grid_spacer(start: i64, end: i64, base_step: i64) -> (marks: Option<Vec<GridMark>>)
    ensures
        match (marks, grid_spec(start, end, base_step)) {
            (Some(v), Some(m)) => v@.to_set() == m.values() && v@.len() == m.dom().len(),
            (None, None) => true,
            _ => false,
        },
        -MAX_STEP_SECONDS <= base_step <= MAX_STEP_SECONDS && grid_dates_ok(start, end) ==> marks is Some,
{
    proof {
        if grid_dates_ok(start, end) {
            lemma_date_range_in_time(start as int);
            lemma_date_range_in_time(end as int);
        }
    }
    if !(-MAX_STEP_SECONDS <= base_step && base_step <= MAX_STEP_SECONDS) {
        return None;
    }
    if !(-TIME_LIMIT <= start && start <= TIME_LIMIT && -TIME_LIMIT <= end && end <= TIME_LIMIT) {
        return None;
    }
    proof {
        lemma_start_day_fits(end);
    }
    if date_parts(utc_day(end) as i32).is_none() {
        return None;
    }
    let mut first: usize = 0;
    while first < LEVELS - 1 && level_threshold(first) < base_step
        invariant
            first < LEVELS,
            first_level_from(base_step, 0) == first_level_from(base_step, first as int),
        decreases LEVELS - first,
    {
        first = first + 1;
    }
    let last: usize = if first + 4 < LEVELS { first + 4 } else { LEVELS };
    let mut marks: HashMap<i64, GridMark> = HashMap::new();
    let mut level = first;
    while level < last
        invariant
            first <= level <= last <= LEVELS,
            first == first_level_from(base_step, 0),
            last == min_int(first + 4, LEVELS as int),
            in_time_range(start as int),
            in_time_range(end as int),
            grid_spec(start, end, base_step) == grid_levels(marks@, start, end, level as int, last as int),
        decreases last - level,
    {
        if !run_level(level, start, end, &mut marks) {
            return None;
        }
        level = level + 1;
    }
    Some(map_values(&marks))
}

/// What a time-axis label shows: the year for yearly marks, the month and year for monthly
/// ones, the day of the month otherwise.
#[derive(Clone, Copy, Debug, PartialEq, Eq, Structural)]
pub enum AxisLabel {
    Year(i32),
    MonthOfYear(u32, i32),
    Day(u32),
}

/// The label of a mark at `value` whose level is `step_size` seconds apart: from 365 days
/// on the year, from 30 days on month and year, below that the day. `None` where
/// a chrono conversion fails.
pub open spec fn axis_label_spec(value: i64, step_size: i64) -> Option<AxisLabel> {
    if !(-MAX_STEP_SECONDS <= step_size <= MAX_STEP_SECONDS) || !in_time_range(value as int) {
        None
    } else {
        match civil_parts(day_of(value as int) as i32) {
            None => None,
            Some(p) => if step_size >= 365 * 86400 {
                Some(AxisLabel::Year(p.0))
            } else if step_size >= 30 * 86400 {
                Some(AxisLabel::MonthOfYear(p.1, p.0))
            } else {
                Some(AxisLabel::Day(p.2))
            },
        }
    }
}

/// The label of a time-axis mark (see `axis_label_spec`).
pub fn axis_label(value: i64, step_size: i64) -> (label: Option<AxisLabel>)
    ensures
        label == axis_label_spec(value, step_size),
        label is Some <==> -MAX_STEP_SECONDS <= step_size <= MAX_STEP_SECONDS && in_date_range(
            day_of(value as int),
        ),
{
    proof {
        if in_date_range(day_of(value as int)) {
            lemma_date_range_in_time(value as int);
        }
    }
    if !(-MAX_STEP_SECONDS <= step_size && step_size <= MAX_STEP_SECONDS) {
        return None;
    }
    if !(-TIME_LIMIT <= value && value <= TIME_LIMIT) {
        return None;
    }
    proof {
        lemma_start_day_fits(value);
    }
    let parts = match date_parts(utc_day(value) as i32) {
        Some(p) => p,
        None => return None,
    };
    if step_size >= 365 * 86400 {
        Some(AxisLabel::Year(parts.0))
    } else if step_size >= 30 * 86400 {
        Some(AxisLabel::MonthOfYear(parts.1, parts.0))
    } else {
        Some(AxisLabel::Day(parts.2))
    }
}

/// Every mark of the map stands at its own key.
pub open spec fn marks_keyed(m: Map<i64, GridMark>) -> bool {
    &&& m.dom().finite()
    &&& forall|k: i64| #[trigger] m.contains_key(k) ==> m[k].value == k
}

proof fn lemma_insert_marks_keyed(m: Map<i64, GridMark>, stamps: Seq<i64>, step: i64)
    requires
        marks_keyed(m),
    ensures
        marks_keyed(insert_marks(m, stamps, step)),
    decreases stamps.len(),
{
    if stamps.len() > 0 {
        lemma_insert_marks_keyed(m, stamps.drop_last(), step);
    }
}

proof fn lemma_grid_levels_keyed(m: Map<i64, GridMark>, start: i64, end: i64, level: int, last: int)
    requires
        marks_keyed(m),
    ensures
        grid_levels(m, start, end, level, last) matches Some(r) ==> marks_keyed(r),
    decreases last - level,
{
    if level < last {
        if let Some(stamps) = level_marks(level, start, end) {
            lemma_insert_marks_keyed(m, stamps, level_step(level));
            lemma_grid_levels_keyed(insert_marks(m, stamps, level_step(level)), start, end, level + 1, last);
        }
    }
}

/// Law: the grid lines stand at distinct places; where several levels mark the same time,
/// one line remains.
pub proof fn lemma_grid_lines_distinct(start: i64, end: i64, base_step: i64, lines: Seq<GridMark>)
    requires
        grid_spec(start, end, base_step) matches Some(m) && lines.to_set() == m.values() && lines.len() == m.dom().len(),
    ensures
        forall|a: int, b: int| 0 <= a < b < lines.len() ==> (#[trigger] lines[a]).value != (#[trigger] lines[b]).value,
{
    let m = grid_spec(start, end, base_step)->0;
    let first = first_level_from(base_step, 0);
    assert(Map::<i64, GridMark>::empty().dom() =~= Set::empty());
    assert(marks_keyed(Map::<i64, GridMark>::empty()));
    lemma_grid_levels_keyed(Map::empty(), start, end, first, min_int(first + 4, LEVELS as int));
    assert forall|a: int, b: int| 0 <= a < b < lines.len() implies (#[trigger] lines[a]).value != (#[trigger] lines[b]).value by {
        if lines[a].value == lines[b].value {
            assert(lines.to_set().contains(lines[a]));
            assert(lines.to_set().contains(lines[b]));
            assert(m.values().contains(lines[a]));
            assert(m.values().contains(lines[b]));
            let ka = choose|k: i64| #[trigger] m.contains_key(k) && m[k] == lines[a];
            let kb = choose|k: i64| #[trigger] m.contains_key(k) && m[k] == lines[b];
            assert(lines[a] == lines[b]);
            lemma_no_duplicates_from_len(lines, m);
        }
    }
}

/// A sequence listing the values of a map once per key, with as many entries as keys, has
/// no repeated entry when the map's values are its keys' marks.
proof fn lemma_no_duplicates_from_len(lines: Seq<GridMark>, m: Map<i64, GridMark>)
    requires
        marks_keyed(m),
        lines.to_set() == m.values(),
        lines.len() == m.dom().len(),
        m.dom().finite(),
    ensures
        lines.no_duplicates(),
{
    assert(m.is_injective()) by {
        assert forall|a: i64, b: i64| m.dom().contains(a) && m.dom().contains(b) && #[trigger] m[a] == #[trigger] m[b] implies a == b by {
            assert(m.contains_key(a) && m.contains_key(b));
        }
    }
    m.lemma_injective_values_len();
    lines.lemma_no_dup_set_cardinality();
}


/// Every timestamp of the list is a midnight UTC.
pub open spec fn all_midnights(stamps: Seq<i64>) -> bool {
    forall|i: int| 0 <= i < stamps.len() ==> #[trigger] stamps[i] % 86400 == 0
}

proof fn lemma_midnight(day: i32)
    ensures
        midnight(day) % 86400 == 0,
{
    assert(((day * 86400) as i64) == day * 86400) by (nonlinear_arith)
        requires
            -0x8000_0000 <= day < 0x8000_0000,
    ;
    vstd::arithmetic::div_mod::lemma_mod_multiples_basic(day as int, 86400);
}

proof fn lemma_prepend_midnights(day: i32, rest: Option<Seq<i64>>)
    requires
        rest matches Some(r) ==> all_midnights(r),
    ensures
        prepend_mark(day, rest) matches Some(r) ==> all_midnights(r),
{
    lemma_midnight(day);
    if let Some(r) = rest {
        let s = seq![midnight(day)] + r;
        assert forall|i: int| 0 <= i < s.len() implies #[trigger] s[i] % 86400 == 0 by {
            if i > 0 {
                assert(s[i] == r[i - 1]);
            }
        }
    }
}

proof fn lemma_day_marks_midnights(day: i32, month: u32, end: int, days: u32)
    ensures
        day_marks_from(day, month, end, days) matches Some(r) ==> all_midnights(r),
    decreases remaining_days(day, end),
{
    if day < end {
        if let Some(next) = day_walk_next(day, month, days) {
            if next.0 > day {
                lemma_day_marks_midnights(next.0, next.1, end, days);
                lemma_prepend_midnights(day, day_marks_from(next.0, next.1, end, days));
            }
        }
    }
}

proof fn lemma_month_marks_midnights(day: i32, end: int, months: u32)
    ensures
        month_marks_from(day, end, months) matches Some(r) ==> all_midnights(r),
    decreases remaining_days(day, end),
{
    if day < end {
        if let Some(next) = civil_add_months(day, months) {
            if next > day {
                lemma_month_marks_midnights(next, end, months);
                lemma_prepend_midnights(day, month_marks_from(next, end, months));
            }
        }
    }
}

proof fn lemma_year_marks_midnights(day: i32, end: int, years: i32)
    ensures
        year_marks_from(day, end, years) matches Some(r) ==> all_midnights(r),
    decreases remaining_days(day, end),
{
    if day < end {
        if let Some(p) = civil_parts(day) {
            if p.0 + years <= i32::MAX {
                if let Some(next) = civil_with_year(day, (p.0 + years) as i32) {
                    if next > day {
                        lemma_year_marks_midnights(next, end, years);
                        lemma_prepend_midnights(day, year_marks_from(next, end, years));
                    }
                }
            }
        }
    }
}

proof fn lemma_level_marks_midnights(level: int, start: i64, end: i64)
    ensures
        level_marks(level, start, end) matches Some(r) ==> all_midnights(r),
{
    let (y, mo, d) = match civil_parts(day_of(start as int) as i32) {
        Some(p) => p,
        None => (0i32, 1u32, 1u32),
    };
    let e = day_of(end as int);
    if level == 0 || level == 1 {
        let days: u32 = if level == 0 { 1 } else { 7 };
        if let Some(first) = civil_from_ymd(y, mo, ((d - 1) as u32 / days * days + 1) as u32) {
            lemma_day_marks_midnights(first, mo, e, days);
        }
    } else if level == 2 || level == 3 || level == 4 {
        let months: u32 = if level == 2 { 1 } else if level == 3 { 2 } else { 6 };
        if let Some(first) = civil_from_ymd(y, ((mo - 1) as u32 / months * months + 1) as u32, 1) {
            lemma_month_marks_midnights(first, e, months);
        }
    } else {
        let years: i32 = if level == 5 { 1 } else if level == 6 { 3 } else { 6 };
        if let Some(first) = civil_from_yo((trunc_div(y as int, years as int) * years) as i32, 1) {
            lemma_year_marks_midnights(first, e, years);
        }
    }
}

/// Every mark of the map stands at its own key, a midnight UTC.
pub open spec fn marks_at_midnight(m: Map<i64, GridMark>) -> bool {
    forall|k: i64| #[trigger] m.contains_key(k) ==> m[k].value == k && k % 86400 == 0
}

proof fn lemma_insert_marks_midnight(m: Map<i64, GridMark>, stamps: Seq<i64>, step: i64)
    requires
        marks_at_midnight(m),
        all_midnights(stamps),
    ensures
        marks_at_midnight(insert_marks(m, stamps, step)),
    decreases stamps.len(),
{
    if stamps.len() > 0 {
        assert(all_midnights(stamps.drop_last())) by {
            assert forall|i: int| 0 <= i < stamps.drop_last().len() implies #[trigger] stamps.drop_last()[i] % 86400 == 0 by {
                assert(stamps.drop_last()[i] == stamps[i]);
            }
        }
        assert(stamps.last() % 86400 == 0);
        lemma_insert_marks_midnight(m, stamps.drop_last(), step);
    }
}

proof fn lemma_grid_levels_midnight(m: Map<i64, GridMark>, start: i64, end: i64, level: int, last: int)
    requires
        marks_at_midnight(m),
    ensures
        grid_levels(m, start, end, level, last) matches Some(r) ==> marks_at_midnight(r),
    decreases last - level,
{
    if level < last {
        if let Some(stamps) = level_marks(level, start, end) {
            lemma_level_marks_midnights(level, start, end);
            lemma_insert_marks_midnight(m, stamps, level_step(level));
            lemma_grid_levels_midnight(insert_marks(m, stamps, level_step(level)), start, end, level + 1, last);
        }
    }
}

/// Law: every grid line of the time axis stands at a midnight UTC, the start of a day.
pub proof fn lemma_grid_lines_at_midnight(start: i64, end: i64, base_step: i64, lines: Seq<GridMark>)
    requires
        grid_spec(start, end, base_step) matches Some(m) && lines.to_set() == m.values(),
    ensures
        forall|a: int| 0 <= a < lines.len() ==> (#[trigger] lines[a]).value % 86400 == 0,
{
    let m = grid_spec(start, end, base_step)->0;
    let first = first_level_from(base_step, 0);
    lemma_grid_levels_midnight(Map::empty(), start, end, first, min_int(first + 4, LEVELS as int));
    assert forall|a: int| 0 <= a < lines.len() implies (#[trigger] lines[a]).value % 86400 == 0 by {
        assert(lines.to_set().contains(lines[a]));
        assert(m.values().contains(lines[a]));
        let k = choose|k: i64| #[trigger] m.contains_key(k) && m[k] == lines[a];
    }
}


/// `marks` are the midnights of the days reached from `first` by steps of `months` calendar
/// months, for as long as they are before day `end`; the day reached after the last mark is
/// not before `end`.
pub open spec fn month_walk(marks: Seq<i64>, first: i32, end: int, months: u32) -> bool {
    exists|days: Seq<i32>| #[trigger] month_walk_days(marks, days, first, end, months)
}

/// `days` are the days of a month walk (see `month_walk`) and the day after its last mark.
pub open spec fn month_walk_days(marks: Seq<i64>, days: Seq<i32>, first: i32, end: int, months: u32) -> bool {
    &&& days.len() == marks.len() + 1
    &&& days[0] == first
    &&& days[marks.len() as int] >= end
    &&& forall|i: int|
        0 <= i < marks.len() ==> (#[trigger] days[i]) < end && marks[i] == midnight(days[i]) && civil_add_months(
            days[i],
            months,
        ) == Some(days[i + 1])
}

/// `marks` are the midnights of the days reached from `first` by steps of one calendar year
/// (the same month and day of the next year), for as long as they are before day `end`; the
/// day reached after the last mark is not before `end`.
pub open spec fn yearly_walk(marks: Seq<i64>, first: i32, end: int) -> bool {
    exists|days: Seq<i32>| #[trigger] yearly_walk_days(marks, days, first, end)
}

/// `days` are the days of a yearly walk (see `yearly_walk`) and the day after its last mark.
pub open spec fn yearly_walk_days(marks: Seq<i64>, days: Seq<i32>, first: i32, end: int) -> bool {
    &&& days.len() == marks.len() + 1
    &&& days[0] == first
    &&& days[marks.len() as int] >= end
    &&& forall|i: int|
        0 <= i < marks.len() ==> (#[trigger] days[i]) < end && marks[i] == midnight(days[i]) && next_year(days[i])
            == Some(days[i + 1])
}

/// The same month and day of the next year.
pub open spec fn next_year(day: i32) -> Option<i32> {
    match civil_parts(day) {
        Some(p) => if p.0 < i32::MAX {
            civil_with_year(day, (p.0 + 1) as i32)
        } else {
            None
        },
        None => None,
    }
}

proof fn lemma_month_marks_walk(day: i32, end: int, months: u32)
    ensures
        month_marks_from(day, end, months) matches Some(r) ==> month_walk(r, day, end, months),
    decreases remaining_days(day, end),
{
    if day >= end {
        let days = seq![day];
        assert(month_walk_days(Seq::empty(), days, day, end, months));
    } else if let Some(next) = civil_add_months(day, months) {
        if next > day {
            lemma_month_marks_walk(next, end, months);
            if let Some(rest) = month_marks_from(next, end, months) {
                let d = choose|d: Seq<i32>| #[trigger] month_walk_days(rest, d, next, end, months);
                let days = seq![day] + d;
                let r = seq![midnight(day)] + rest;
                assert forall|i: int| 0 <= i < r.len() implies (#[trigger] days[i]) < end && r[i] == midnight(days[i])
                    && civil_add_months(days[i], months) == Some(days[i + 1]) by {
                    if i > 0 {
                        assert(days[i] == d[i - 1] && days[i + 1] == d[i] && r[i] == rest[i - 1]);
                    }
                }
                assert(days[r.len() as int] == d[rest.len() as int]);
                assert(month_walk_days(r, days, day, end, months));
            }
        }
    }
}

proof fn lemma_year_marks_walk(day: i32, end: int)
    ensures
        year_marks_from(day, end, 1) matches Some(r) ==> yearly_walk(r, day, end),
    decreases remaining_days(day, end),
{
    if day >= end {
        let days = seq![day];
        assert(yearly_walk_days(Seq::empty(), days, day, end));
    } else if let Some(p) = civil_parts(day) {
        if p.0 + 1 <= i32::MAX {
            if let Some(next) = civil_with_year(day, (p.0 + 1) as i32) {
                if next > day {
                    lemma_year_marks_walk(next, end);
                    if let Some(rest) = year_marks_from(next, end, 1) {
                        let d = choose|d: Seq<i32>| #[trigger] yearly_walk_days(rest, d, next, end);
                        let days = seq![day] + d;
                        let r = seq![midnight(day)] + rest;
                        assert(next_year(day) == Some(next));
                        assert forall|i: int| 0 <= i < r.len() implies (#[trigger] days[i]) < end && r[i] == midnight(
                            days[i],
                        ) && next_year(days[i]) == Some(days[i + 1]) by {
                            if i > 0 {
                                assert(days[i] == d[i - 1] && days[i + 1] == d[i] && r[i] == rest[i - 1]);
                            }
                        }
                        assert(days[r.len() as int] == d[rest.len() as int]);
                        assert(yearly_walk_days(r, days, day, end));
                    }
                }
            }
        }
    }
}

/// The marks of an `n`-month level, where a level is used: the first day of the start's
/// `n`-month block of its year (the month counted from 0 rounded down to a multiple of `n`),
/// then every `n` calendar months on, while before the end's date.
pub open spec fn month_level_law(r: Seq<i64>, start: i64, end: i64, n: u32) -> bool {
    match civil_parts(day_of(start as int) as i32) {
        Some(p) => match civil_from_ymd(p.0, ((p.1 - 1) as u32 / n * n + 1) as u32, 1) {
            Some(first) => month_walk(r, first, day_of(end as int), n) && ((p.1 - 1) as u32 / n * n) as int % (n as int) == 0
                && (p.1 - 1) as u32 / n * n <= (p.1 - 1) as u32,
            None => false,
        },
        None => false,
    }
}

/// The marks of the yearly level: the first of January of the start's year, then the same day
/// of every following year, while before the end's date.
pub open spec fn year_level_law(r: Seq<i64>, start: i64, end: i64) -> bool {
    match civil_parts(day_of(start as int) as i32) {
        Some(p) => match civil_from_yo(p.0, 1) {
            Some(first) => yearly_walk(r, first, day_of(end as int)),
            None => false,
        },
        None => false,
    }
}

/// Law: the monthly, two-monthly and six-monthly levels, used from spacings of 30, 60 and 180
/// days, mark the first day of every month, every second month and every sixth month, counting
/// from the start of the start's block of that many months in its year, while before the end's
/// date; and they carry spacings of 30, 60 and 180 days.
pub proof fn lemma_month_levels(start: i64, end: i64)
    ensures
        level_days(2) == 30 && level_step(2) == 30 * 86400,
        level_days(3) == 60 && level_step(3) == 60 * 86400,
        level_days(4) == 180 && level_step(4) == 180 * 86400,
        level_marks(2, start, end) matches Some(r) ==> month_level_law(r, start, end, 1),
        level_marks(3, start, end) matches Some(r) ==> month_level_law(r, start, end, 2),
        level_marks(4, start, end) matches Some(r) ==> month_level_law(r, start, end, 6),
{
    lemma_month_level(start, end, 1);
    lemma_month_level(start, end, 2);
    lemma_month_level(start, end, 6);
}

proof fn lemma_month_level(start: i64, end: i64, n: u32)
    requires
        n >= 1,
    ensures
        month_marks(start, end, n) matches Some(r) ==> month_level_law(r, start, end, n),
{
    if let Some(p) = civil_parts(day_of(start as int) as i32) {
        if let Some(first) = civil_from_ymd(p.0, ((p.1 - 1) as u32 / n * n + 1) as u32, 1) {
            lemma_month_marks_walk(first, day_of(end as int), n);
            let q = (p.1 - 1) as u32;
            assert((q / n * n) as int % (n as int) == 0 && q / n * n <= q) by (nonlinear_arith)
                requires
                    n >= 1,
            ;
        }
    }
}

/// Law: the yearly level, used from a spacing of 365 days, marks the first of January of every
/// year from the start's year while before the end's date, and carries a spacing of 365 days.
pub proof fn lemma_yearly_level(start: i64, end: i64)
    ensures
        level_days(5) == 365 && level_step(5) == 365 * 86400,
        level_marks(5, start, end) matches Some(r) ==> year_level_law(r, start, end),
{
    if let Some(p) = civil_parts(day_of(start as int) as i32) {
        assert(trunc_div(p.0 as int, 1) * 1 == p.0);
        if let Some(first) = civil_from_yo(p.0, 1) {
            lemma_year_marks_walk(first, day_of(end as int));
        }
    }
}


/// One step of a daily level from day `d` of month `m`: `n` days on, unless that lands in
/// another month, in which case the first day of that month; with the month it is in.
pub open spec fn daily_step(d: i32, m: u32, n: u32) -> Option<(i32, u32)> {
    if in_date_range(d as int) && in_date_range(d + n) {
        let a = (d + n) as i32;
        match civil_parts(a) {
            Some(pa) => if pa.1 == m {
                Some((a, m))
            } else {
                match civil_with_day(a, 1) {
                    Some(f) => match civil_parts(f) {
                        Some(pf) => Some((f, pf.1)),
                        None => None,
                    },
                    None => None,
                }
            },
            None => None,
        }
    } else {
        None
    }
}

/// `days` (with their months `ms`) are the days of a daily level's walk from `first`, a mark at
/// the midnight of each day before `end`, and the day reached after the last mark.
pub open spec fn daily_walk_days(
    marks: Seq<i64>,
    days: Seq<i32>,
    ms: Seq<u32>,
    first: i32,
    first_month: u32,
    end: int,
    n: u32,
) -> bool {
    &&& days.len() == marks.len() + 1
    &&& ms.len() == days.len()
    &&& days[0] == first
    &&& ms[0] == first_month
    &&& days[marks.len() as int] >= end
    &&& forall|i: int|
        0 <= i < marks.len() ==> (#[trigger] days[i]) < end && marks[i] == midnight(days[i]) && daily_step(
            days[i],
            ms[i],
            n,
        ) == Some((days[i + 1], ms[i + 1]))
}

pub open spec fn daily_walk(marks: Seq<i64>, first: i32, first_month: u32, end: int, n: u32) -> bool {
    exists|days: Seq<i32>, ms: Seq<u32>| #[trigger] daily_walk_days(marks, days, ms, first, first_month, end, n)
}

/// The marks of an `n`-day level: the start of the start's `n`-day block of its month (the day
/// of the month counted from 0 rounded down to a multiple of `n`), then every `n` days, going
/// back to the first of the month whenever a step enters a new month, while before the end's
/// date.
pub open spec fn day_level_law(r: Seq<i64>, start: i64, end: i64, n: u32) -> bool {
    match civil_parts(day_of(start as int) as i32) {
        Some(p) => match civil_from_ymd(p.0, p.1, ((p.2 - 1) as u32 / n * n + 1) as u32) {
            Some(first) => daily_walk(r, first, p.1, day_of(end as int), n) && ((p.2 - 1) as u32 / n * n) as int % (
            n as int) == 0 && (p.2 - 1) as u32 / n * n <= (p.2 - 1) as u32,
            None => false,
        },
        None => false,
    }
}

proof fn lemma_day_marks_walk(day: i32, month: u32, end: int, n: u32)
    ensures
        day_marks_from(day, month, end, n) matches Some(r) ==> daily_walk(r, day, month, end, n),
    decreases remaining_days(day, end),
{
    if day >= end {
        assert(daily_walk_days(Seq::empty(), seq![day], seq![month], day, month, end, n));
    } else if let Some(next) = day_walk_next(day, month, n) {
        if next.0 > day {
            lemma_day_marks_walk(next.0, next.1, end, n);
            if let Some(rest) = day_marks_from(next.0, next.1, end, n) {
                let (d, m) = choose|d: Seq<i32>, m: Seq<u32>| #[trigger] daily_walk_days(rest, d, m, next.0, next.1, end, n);
                let days = seq![day] + d;
                let ms = seq![month] + m;
                let r = seq![midnight(day)] + rest;
                assert(daily_step(day, month, n) == Some(next));
                assert forall|i: int| 0 <= i < r.len() implies (#[trigger] days[i]) < end && r[i] == midnight(days[i])
                    && daily_step(days[i], ms[i], n) == Some((days[i + 1], ms[i + 1])) by {
                    if i > 0 {
                        assert(days[i] == d[i - 1] && days[i + 1] == d[i] && r[i] == rest[i - 1]);
                        assert(ms[i] == m[i - 1] && ms[i + 1] == m[i]);
                    }
                }
                assert(days[r.len() as int] == d[rest.len() as int]);
                assert(daily_walk_days(r, days, ms, day, month, end, n));
            }
        }
    }
}

proof fn lemma_day_level(start: i64, end: i64, n: u32)
    requires
        n >= 1,
    ensures
        day_marks(start, end, n) matches Some(r) ==> day_level_law(r, start, end, n),
{
    if let Some(p) = civil_parts(day_of(start as int) as i32) {
        if let Some(first) = civil_from_ymd(p.0, p.1, ((p.2 - 1) as u32 / n * n + 1) as u32) {
            lemma_day_marks_walk(first, p.1, day_of(end as int), n);
            let q = (p.2 - 1) as u32;
            assert((q / n * n) as int % (n as int) == 0 && q / n * n <= q) by (nonlinear_arith)
                requires
                    n >= 1,
            ;
        }
    }
}

/// Law: the daily and weekly levels, used from spacings of 1 and 7 days, mark every day, and
/// every seventh day counting from the 1st, 8th, 15th, 22nd or 29th of each month, going back
/// to the 1st whenever a step enters a new month; they carry spacings of 1 and 7 days.
pub proof fn lemma_day_levels(start: i64, end: i64)
    ensures
        level_days(0) == 1 && level_step(0) == 86400,
        level_days(1) == 7 && level_step(1) == 7 * 86400,
        level_marks(0, start, end) matches Some(r) ==> day_level_law(r, start, end, 1),
        level_marks(1, start, end) matches Some(r) ==> day_level_law(r, start, end, 7),
{
    lemma_day_level(start, end, 1);
    lemma_day_level(start, end, 7);
}


/// Level `l` puts a line at timestamp `k`.
pub open spec fn marked_by(start: i64, end: i64, l: int, k: i64) -> bool {
    match level_marks(l, start, end) {
        Some(r) => r.contains(k),
        None => false,
    }
}

proof fn lemma_insert_marks_facts(m: Map<i64, GridMark>, stamps: Seq<i64>, step: i64)
    ensures
        forall|k: i64| #[trigger] insert_marks(m, stamps, step).contains_key(k) <==> m.contains_key(k) || stamps.contains(k),
        forall|k: i64| stamps.contains(k) ==> #[trigger] insert_marks(m, stamps, step)[k] == (GridMark { value: k, step_size: step }),
        forall|k: i64| !stamps.contains(k) && m.contains_key(k) ==> #[trigger] insert_marks(m, stamps, step)[k] == m[k],
    decreases stamps.len(),
{
    if stamps.len() > 0 {
        let dl = stamps.drop_last();
        lemma_insert_marks_facts(m, dl, step);
        let prev = insert_marks(m, dl, step);
        let x = stamps.last();
        assert(insert_marks(m, stamps, step) == prev.insert(x, GridMark { value: x, step_size: step }));
        assert forall|k: i64| stamps.contains(k) <==> dl.contains(k) || k == stamps.last() by {
            if stamps.contains(k) {
                let i = choose|i: int| 0 <= i < stamps.len() && stamps[i] == k;
                if i < dl.len() {
                    assert(dl[i] == k);
                }
            }
            if dl.contains(k) {
                let i = choose|i: int| 0 <= i < dl.len() && dl[i] == k;
                assert(stamps[i] == k);
            }
            if k == stamps.last() {
                assert(stamps[stamps.len() - 1] == k);
            }
        }
        assert forall|k: i64| #[trigger] insert_marks(m, stamps, step).contains_key(k) <==> m.contains_key(k) || stamps.contains(k) by {
            assert(prev.contains_key(k) <==> m.contains_key(k) || dl.contains(k));
        }
        assert forall|k: i64| stamps.contains(k) implies #[trigger] insert_marks(m, stamps, step)[k] == (GridMark { value: k, step_size: step }) by {
            if k != x {
                assert(dl.contains(k));
                assert(prev[k] == (GridMark { value: k, step_size: step }));
            }
        }
        assert forall|k: i64| !stamps.contains(k) && m.contains_key(k) implies #[trigger] insert_marks(m, stamps, step)[k] == m[k] by {
            assert(!dl.contains(k));
            assert(k != x);
            assert(prev[k] == m[k]);
        }
    }
}

proof fn lemma_grid_levels_facts(m: Map<i64, GridMark>, start: i64, end: i64, level: int, last: int)
    requires
        level <= last,
        grid_levels(m, start, end, level, last) is Some,
    ensures
        forall|l: int| level <= l < last ==> (#[trigger] level_marks(l, start, end)) is Some,
        forall|k: i64|
            #[trigger] grid_levels(m, start, end, level, last)->0.contains_key(k) <==> m.contains_key(k) || exists|l: int|
                level <= l < last && #[trigger] marked_by(start, end, l, k),
        forall|k: i64, l: int|
            level <= l < last && #[trigger] marked_by(start, end, l, k) && (forall|l2: int|
                l < l2 < last ==> !#[trigger] marked_by(start, end, l2, k)) ==> grid_levels(m, start, end, level, last)->0[k]
                == (GridMark { value: k, step_size: level_step(l) }),
        forall|k: i64|
            m.contains_key(k) && (forall|l: int| level <= l < last ==> !#[trigger] marked_by(start, end, l, k))
                ==> #[trigger] grid_levels(m, start, end, level, last)->0[k] == m[k],
    decreases last - level,
{
    if level < last {
        let stamps = level_marks(level, start, end)->0;
        let m1 = insert_marks(m, stamps, level_step(level));
        lemma_insert_marks_facts(m, stamps, level_step(level));
        lemma_grid_levels_facts(m1, start, end, level + 1, last);
        let r = grid_levels(m, start, end, level, last)->0;
        assert(r == grid_levels(m1, start, end, level + 1, last)->0);
        assert forall|k: i64| r.contains_key(k) <==> m.contains_key(k) || exists|l: int|
            level <= l < last && #[trigger] marked_by(start, end, l, k) by {
            if stamps.contains(k) {
                assert(marked_by(start, end, level, k));
            }
            if exists|l: int| level <= l < last && #[trigger] marked_by(start, end, l, k) {
                let l = choose|l: int| level <= l < last && #[trigger] marked_by(start, end, l, k);
                if l == level {
                    assert(stamps.contains(k));
                }
            }
        }
        assert forall|k: i64, l: int|
            level <= l < last && #[trigger] marked_by(start, end, l, k) && (forall|l2: int|
                l < l2 < last ==> !#[trigger] marked_by(start, end, l2, k)) implies r[k] == (GridMark {
            value: k,
            step_size: level_step(l),
        }) by {
            if l == level {
                assert(stamps.contains(k));
                assert(m1.contains_key(k));
                assert(m1[k] == (GridMark { value: k, step_size: level_step(l) }));
                assert(forall|l2: int| level + 1 <= l2 < last ==> !#[trigger] marked_by(start, end, l2, k));
            }
        }
        assert forall|k: i64|
            m.contains_key(k) && (forall|l: int| level <= l < last ==> !#[trigger] marked_by(start, end, l, k))
                implies #[trigger] r[k] == m[k] by {
            assert(!marked_by(start, end, level, k));
            assert(!stamps.contains(k));
            assert(m1[k] == m[k]);
            assert(forall|l: int| level + 1 <= l < last ==> !#[trigger] marked_by(start, end, l, k));
        }
    }
}

proof fn lemma_first_level(base_step: i64, level: int)
    requires
        0 <= level < LEVELS,
        forall|l: int| 0 <= l < level ==> level_days(l) * 86400 < base_step,
    ensures
        0 <= first_level_from(base_step, level) < LEVELS,
        forall|l: int| 0 <= l < first_level_from(base_step, level) ==> level_days(l) * 86400 < base_step,
        first_level_from(base_step, level) < LEVELS - 1 ==> level_days(first_level_from(base_step, level)) * 86400
            >= base_step,
    decreases LEVELS - level,
{
    if level < LEVELS - 1 && level_days(level) * 86400 < base_step {
        lemma_first_level(base_step, level + 1);
    }
}

/// Law: the grid uses the first level whose spacing reaches the plot's base step (the
/// six-yearly level when none does) and the next levels up to four in all; a timestamp is
/// marked exactly when one of those levels marks it, and its line carries the spacing of the
/// coarsest of those levels that marks it.
pub proof fn lemma_grid_levels_used(start: i64, end: i64, base_step: i64)
    requires
        grid_spec(start, end, base_step) is Some,
    ensures
        ({
            let m = grid_spec(start, end, base_step)->0;
            let f = first_level_from(base_step, 0);
            let last = min_int(f + 4, LEVELS as int);
            &&& 0 <= f < LEVELS
            &&& forall|l: int| 0 <= l < f ==> level_days(l) * 86400 < base_step
            &&& f < LEVELS - 1 ==> level_days(f) * 86400 >= base_step
            &&& last == (if f + 4 < 8 { f + 4 } else { 8 })
            &&& forall|l: int| f <= l < last ==> (#[trigger] level_marks(l, start, end)) is Some
            &&& forall|k: i64|
                #[trigger] m.contains_key(k) <==> exists|l: int| f <= l < last && #[trigger] marked_by(start, end, l, k)
            &&& forall|k: i64, l: int|
                f <= l < last && #[trigger] marked_by(start, end, l, k) && (forall|l2: int|
                    l < l2 < last ==> !#[trigger] marked_by(start, end, l2, k)) ==> m[k] == (GridMark {
                    value: k,
                    step_size: level_step(l),
                })
        }),
{
    let f = first_level_from(base_step, 0);
    lemma_first_level(base_step, 0);
    lemma_grid_levels_facts(Map::empty(), start, end, f, min_int(f + 4, LEVELS as int));
}


/// Law: a mark's label is its year when its level's spacing is a year (365 days) or more, its
/// month and year when the spacing is 30 days up to a year, and its day of the month below
/// that; the numbers are those of the mark's UTC date.
pub proof fn lemma_axis_label_by_spacing(value: i64, step_size: i64)
    ensures
        axis_label_spec(value, step_size) matches Some(l) ==> match civil_parts(day_of(value as int) as i32) {
            Some(p) => if step_size >= 31536000 {
                l == AxisLabel::Year(p.0)
            } else if step_size >= 2592000 {
                l == AxisLabel::MonthOfYear(p.1, p.0)
            } else {
                l == AxisLabel::Day(p.2)
            },
            None => false,
        },
{
}

} // verus!
