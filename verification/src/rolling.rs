use vstd::prelude::*;
use std::collections::VecDeque;
use crate::calendar::{
    day_of, day_start, in_time_range, lemma_day_of_bounds, lemma_day_of_monotonic, utc_day, FIRST_DATE_DAY,
    LAST_DATE_DAY, TIME_LIMIT,
};
use crate::model::{IssueTimes, Point, StateChangeKind};
use crate::collections::lemma_same_len;
use crate::times::{
    closed_only, event_times, lemma_closing_times_of_closed, lemma_event_times_permutation,
    lemma_sorted_times_unique, sorted_event_times, sorted_times,
};

verus! {

/// How many days before the current day the rolling window reaches back.
pub const WINDOW_DAYS: i64 = 30;

/// How many days before the current day a window's point is plotted, the middle of the window.
pub const PLOT_OFFSET_DAYS: i64 = 15;

/// A timestamp from whose day chrono can step back through the window and on to the next
/// day: both `WINDOW_DAYS` days before it and the day after it are dates chrono holds.
pub open spec fn in_window_range(ts: int) -> bool {
    FIRST_DATE_DAY + WINDOW_DAYS <= day_of(ts) < LAST_DATE_DAY
}

/// Whether a timestamp is in the range of `in_window_range`.
pub fn is_in_window_range(ts: i64) -> (r: bool)
    ensures
        r == in_window_range(ts as int),
{
    let day = utc_day(ts);
    FIRST_DATE_DAY + WINDOW_DAYS <= day && day < LAST_DATE_DAY
}

pub proof fn lemma_window_range_in_time(ts: int)
    requires
        in_window_range(ts),
    ensures
        in_time_range(ts),
{
    vstd::arithmetic::div_mod::lemma_fundamental_div_mod(ts, 86400);
}

/// How many of the timestamps fall on a day from `lo` to `hi`, both included.
pub open spec fn count_days_between(times: Seq<i64>, lo: int, hi: int) -> nat
    decreases times.len(),
{
    if times.len() == 0 {
        0
    } else {
        count_days_between(times.drop_last(), lo, hi) + (if lo <= day_of(times.last() as int) <= hi {
            1nat
        } else {
            0
        })
    }
}

/// How many of the timestamps fall on a day before `d`.
pub open spec fn count_days_before(times: Seq<i64>, d: int) -> nat
    decreases times.len(),
{
    if times.len() == 0 {
        0
    } else {
        count_days_before(times.drop_last(), d) + (if day_of(times.last() as int) < d {
            1nat
        } else {
            0
        })
    }
}

/// The rolling curve of sorted timestamps: one point per day from the first timestamp's day to
/// the last one's, plotted `PLOT_OFFSET_DAYS` before that day, counting the timestamps on that
/// day and the `WINDOW_DAYS` days before it.
pub open spec fn rolling_points(times: Seq<i64>) -> Seq<Point> {
    let first = day_of(times[0] as int);
    let last = day_of(times.last() as int);
    Seq::new(
        (last - first + 1) as nat,
        |k: int|
            Point {
                x: ((first + k - PLOT_OFFSET_DAYS) * 86400) as i64,
                y: count_days_between(times, first + k - WINDOW_DAYS, first + k) as i64,
            },
    )
}

proof fn lemma_between_is_difference(times: Seq<i64>, lo: int, hi: int)
    requires
        lo <= hi + 1,
    ensures
        count_days_between(times, lo, hi) + count_days_before(times, lo) == count_days_before(
            times,
            hi + 1,
        ),
    decreases times.len(),
{
    if times.len() > 0 {
        lemma_between_is_difference(times.drop_last(), lo, hi);
    }
}

proof fn lemma_before_is_index(times: Seq<i64>, d: int, p: int)
    requires
        0 <= p <= times.len(),
        forall|i: int| 0 <= i < p ==> day_of(#[trigger] times[i] as int) < d,
        forall|i: int| p <= i < times.len() ==> day_of(#[trigger] times[i] as int) >= d,
    ensures
        count_days_before(times, d) == p,
    decreases times.len(),
{
    if times.len() > 0 {
        let last = times.len() - 1;
        assert(day_of(times[last] as int) < d <==> p == times.len());
        if p == times.len() {
            lemma_before_is_index(times.drop_last(), d, p - 1);
        } else {
            lemma_before_is_index(times.drop_last(), d, p);
        }
    }
}

/// What `closed_issues_per_month` returns: the rolling curve of the event times in ascending
/// order.
pub open spec fn rolling_result(issues: Seq<IssueTimes>, kind: StateChangeKind, points: Seq<Point>) -> bool {
    exists|times: Seq<i64>|
        times.to_multiset() == event_times(issues, kind).to_multiset() && sorted_times(times)
            && points == rolling_points(times)
}

/// Number of issues opened (or closed) per day, averaged over a rolling window: for each day
/// from the first such event to the last, the count of events in the window of that day.
pub fn closed_issues_per_month(issues: &[IssueTimes], kind: StateChangeKind) -> (points: Vec<Point>)
    requires
        event_times(issues@, kind).len() > 0,
        forall|i: int| 0 <= i < event_times(issues@, kind).len()
            ==> in_window_range(#[trigger] event_times(issues@, kind)[i] as int),
    ensures
        rolling_result(issues@, kind, points@),
{
    let times = sorted_event_times(issues, kind);
    let ghost c = times@;
    proof {
        lemma_same_len(c, event_times(issues@, kind));
        assert forall|i: int| 0 <= i < c.len() implies in_time_range(#[trigger] c[i] as int) by {
            c.to_multiset_ensures();
            event_times(issues@, kind).to_multiset_ensures();
            assert(c.to_multiset().count(c[i]) > 0);
            assert(event_times(issues@, kind).contains(c[i]));
            lemma_window_range_in_time(c[i] as int);
        }
    }
    let n = times.len();
    let first_day = utc_day(times[0]);
    let last_day = utc_day(times[n - 1]);
    proof {
        lemma_day_of_bounds(times[0] as int);
        lemma_day_of_bounds(times[n - 1] as int);
        lemma_day_of_monotonic(times[0] as int, times[n - 1] as int);
    }
    let mut points: Vec<Point> = Vec::new();
    let mut triggered: VecDeque<i64> = VecDeque::new();
    let mut current_issue_index: usize = 0;
    let ghost mut lo: int = 0;
    let mut current_day = first_day;
    while current_day <= last_day
        invariant
            c == times@,
            n == c.len(),
            n > 0,
            sorted_times(c),
            forall|i: int| 0 <= i < c.len() ==> in_time_range(#[trigger] c[i] as int),
            forall|i: int| 0 <= i < lo ==> day_of(#[trigger] c[i] as int) < current_day - WINDOW_DAYS,
            first_day == day_of(c[0] as int),
            last_day == day_of(c[n - 1] as int),
            first_day <= current_day <= last_day + 1,
            -TIME_LIMIT / 86400 - 1 <= first_day <= last_day <= TIME_LIMIT / 86400,
            0 <= lo <= current_issue_index <= n,
            triggered@ == c.subrange(lo, current_issue_index as int),
            forall|i: int| 0 <= i < current_issue_index ==> day_of(#[trigger] c[i] as int) < current_day,
            forall|i: int| current_issue_index <= i < n ==> day_of(#[trigger] c[i] as int) >= current_day,
            points@.len() == current_day - first_day,
            forall|k: int| 0 <= k < points@.len() ==> #[trigger] points@[k] == rolling_points(c)[k],
        decreases last_day + 1 - current_day,
    {
        // Take in the events of the current day.
        while current_issue_index < n
            invariant
                c == times@,
                n == c.len(),
                sorted_times(c),
                0 <= lo <= current_issue_index <= n,
                triggered@ == c.subrange(lo, current_issue_index as int),
                forall|i: int| 0 <= i < current_issue_index ==> day_of(#[trigger] c[i] as int) <= current_day,
                forall|i: int| current_issue_index <= i < n ==> day_of(#[trigger] c[i] as int) >= current_day,
            ensures
                forall|i: int| 0 <= i < current_issue_index ==> day_of(#[trigger] c[i] as int) <= current_day,
                forall|i: int| current_issue_index <= i < n ==> day_of(#[trigger] c[i] as int) > current_day,
            decreases n - current_issue_index,
        {
            let t = times[current_issue_index];
            if utc_day(t) == current_day {
                triggered.push_back(t);
            } else {
                proof {
                    assert forall|i: int| current_issue_index <= i < n implies day_of(#[trigger] c[i] as int) > current_day by {
                        lemma_day_of_monotonic(c[current_issue_index as int] as int, c[i] as int);
                    }
                }
                break;
            }
            current_issue_index = current_issue_index + 1;
        }
        // Let go of the events that fell out of the window.
        let cutoff_day = current_day - WINDOW_DAYS;
        while triggered.len() > 0
            invariant
                c == times@,
                n == c.len(),
                sorted_times(c),
                0 <= lo <= current_issue_index <= n,
                triggered@ == c.subrange(lo, current_issue_index as int),
                forall|i: int| 0 <= i < lo ==> day_of(#[trigger] c[i] as int) < cutoff_day,
            ensures
                forall|i: int| 0 <= i < lo ==> day_of(#[trigger] c[i] as int) < cutoff_day,
                forall|i: int| lo <= i < current_issue_index ==> day_of(#[trigger] c[i] as int) >= cutoff_day,
            decreases triggered@.len(),
        {
            let front = triggered[0];
            if utc_day(front) < cutoff_day {
                triggered.pop_front();
                proof {
                    lo = lo + 1;
                }
            } else {
                proof {
                    assert forall|i: int| lo <= i < current_issue_index implies day_of(#[trigger] c[i] as int) >= cutoff_day by {
                        lemma_day_of_monotonic(c[lo] as int, c[i] as int);
                    }
                }
                break;
            }
        }
        let count = triggered.len();
        proof {
            assert forall|i: int| current_issue_index <= i < n implies day_of(#[trigger] c[i] as int) >= cutoff_day by {
                if lo < current_issue_index {
                    lemma_day_of_monotonic(c[lo] as int, c[i] as int);
                } else if 0 < lo {
                    lemma_day_of_monotonic(c[lo - 1] as int, c[i] as int);
                }
            }
            lemma_before_is_index(c, cutoff_day as int, lo);
            lemma_before_is_index(c, current_day + 1, current_issue_index as int);
            lemma_between_is_difference(c, cutoff_day as int, current_day as int);
        }
        let middle = day_start(current_day - PLOT_OFFSET_DAYS);
        points.push(Point { x: middle, y: count as i64 });
        current_day = current_day + 1;
    }
    assert(points@ == rolling_points(c));
    points
}


/// Law: the rolling curve of openings (or closings) depends on those times alone, however the
/// issues and equal times are ordered: issues opened (or closed) at the same times give the
/// same curve.
pub proof fn lemma_rolling_curve_determined(
    a: Seq<IssueTimes>,
    b: Seq<IssueTimes>,
    kind: StateChangeKind,
    p: Seq<Point>,
    q: Seq<Point>,
)
    requires
        rolling_result(a, kind, p),
        rolling_result(b, kind, q),
        event_times(a, kind).to_multiset() == event_times(b, kind).to_multiset(),
    ensures
        p == q,
{
    let ta = choose|times: Seq<i64>|
        times.to_multiset() == event_times(a, kind).to_multiset() && sorted_times(times) && p
            == rolling_points(times);
    let tb = choose|times: Seq<i64>|
        times.to_multiset() == event_times(b, kind).to_multiset() && sorted_times(times) && q
            == rolling_points(times);
    lemma_sorted_times_unique(ta, tb);
}


/// Law: the rolling curve of closings is the same whether the never-closed issues are left in
/// or dropped, and whatever order the remaining issues come in.
pub proof fn lemma_rolling_closings_of_closed_issues(a: Seq<IssueTimes>, b: Seq<IssueTimes>, p: Seq<Point>, q: Seq<Point>)
    requires
        rolling_result(a, StateChangeKind::Close, p),
        rolling_result(b, StateChangeKind::Close, q),
        b.to_multiset() == closed_only(a).to_multiset(),
    ensures
        p == q,
{
    lemma_event_times_permutation(b, closed_only(a), StateChangeKind::Close);
    lemma_closing_times_of_closed(a);
    lemma_rolling_curve_determined(a, b, StateChangeKind::Close, p, q);
}


/// How many of the timestamps fall on day `d`.
pub open spec fn count_on_day(times: Seq<i64>, d: int) -> nat
    decreases times.len(),
{
    if times.len() == 0 {
        0
    } else {
        count_on_day(times.drop_last(), d) + (if day_of(times.last() as int) == d { 1nat } else { 0 })
    }
}

proof fn lemma_between_top(times: Seq<i64>, lo: int, hi: int)
    requires
        lo <= hi,
    ensures
        count_days_between(times, lo, hi) == count_days_between(times, lo, hi - 1) + count_on_day(times, hi),
    decreases times.len(),
{
    if times.len() > 0 {
        lemma_between_top(times.drop_last(), lo, hi);
    }
}

proof fn lemma_between_bottom(times: Seq<i64>, lo: int, hi: int)
    requires
        lo <= hi,
    ensures
        count_days_between(times, lo, hi) == count_on_day(times, lo) + count_days_between(times, lo + 1, hi),
    decreases times.len(),
{
    if times.len() > 0 {
        lemma_between_bottom(times.drop_last(), lo, hi);
    }
}

proof fn lemma_between_none_before(times: Seq<i64>, lo: int, hi: int)
    requires
        forall|i: int| 0 <= i < times.len() ==> day_of(#[trigger] times[i] as int) > hi,
    ensures
        count_days_between(times, lo, hi) == 0,
    decreases times.len(),
{
    if times.len() > 0 {
        assert forall|i: int| 0 <= i < times.drop_last().len() implies day_of(#[trigger] times.drop_last()[i] as int) > hi by {
            assert(times.drop_last()[i] == times[i]);
        }
        lemma_between_none_before(times.drop_last(), lo, hi);
        assert(day_of(times[times.len() - 1] as int) > hi);
    }
}

proof fn lemma_count_between_bound(times: Seq<i64>, lo: int, hi: int)
    ensures
        count_days_between(times, lo, hi) <= times.len(),
    decreases times.len(),
{
    if times.len() > 0 {
        lemma_count_between_bound(times.drop_last(), lo, hi);
    }
}

/// Law: the rolling curve has one point per day from the first timestamp's day to the last
/// one's, plotted 15 days earlier; it starts at the number of timestamps on the first day, and
/// from one day to the next it gains the timestamps of the new day and loses those of the day
/// 30 days before the old one, so each point counts the 31 days ending on its day.
pub proof fn lemma_rolling_window_slides(times: Seq<i64>)
    requires
        times.len() > 0,
        sorted_times(times),
        times.len() < 0x4000_0000_0000_0000,
    ensures
        ({
            let first = day_of(times[0] as int);
            let last = day_of(times.last() as int);
            let p = rolling_points(times);
            &&& p.len() == last - first + 1
            &&& forall|k: int| 0 <= k < p.len() ==> (#[trigger] p[k]).x == ((first + k - 15) * 86400) as i64
            &&& p[0].y == count_on_day(times, first)
            &&& forall|k: int|
                0 <= k < p.len() - 1 ==> #[trigger] p[k + 1].y == p[k].y + count_on_day(times, first + k + 1)
                    - count_on_day(times, first + k - 30)
        }),
{
    let first = day_of(times[0] as int);
    let last = day_of(times.last() as int);
    let p = rolling_points(times);
    lemma_day_of_monotonic(times[0] as int, times.last() as int);
    assert forall|i: int| 0 <= i < times.len() implies day_of(#[trigger] times[i] as int) > first - 1 by {
        lemma_day_of_monotonic(times[0] as int, times[i] as int);
    }
    lemma_between_none_before(times, first - 30, first - 1);
    lemma_between_top(times, first - 30, first);
    lemma_count_between_bound(times, first - 30, first);
    assert(p[0].y == count_days_between(times, first - 30, first) as i64);
    assert forall|k: int| 0 <= k < p.len() - 1 implies #[trigger] p[k + 1].y == p[k].y + count_on_day(times, first + k + 1)
        - count_on_day(times, first + k - 30) by {
        lemma_between_top(times, first + k - 30, first + k + 1);
        lemma_between_bottom(times, first + k - 30, first + k + 1);
        lemma_count_between_bound(times, first + k - 30, first + k);
        lemma_count_between_bound(times, first + k + 1 - 30, first + k + 1);
        assert(p[k].y == count_days_between(times, first + k - 30, first + k) as i64);
        assert(p[k + 1].y == count_days_between(times, first + k + 1 - 30, first + k + 1) as i64);
    }
}

} // verus!
