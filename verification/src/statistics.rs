use vstd::prelude::*;
use crate::bars::{points_to_stacked_bars, small_counts, stack_from, BarsAndDiff, Stacked};
use crate::events::{live_issues, live_issues_result};
use crate::model::{issue_times_of, times_of, Issue, IssueTimes, Point, StateChangeKind};
use crate::months::{age_lines, issues_ready_for_months, issues_associated_with_month, months_result, points_per_month_of_issues, MonthOfIssues};
use crate::rolling::{closed_issues_per_month, in_window_range, is_in_window_range, count_days_between, rolling_points, rolling_result};
use crate::times::{closed_issues, closed_issues_result, event_times, issue_event_time, lemma_event_times_len};
use crate::collections::lemma_same_len;

verus! {

/// Width of a daily bar, in seconds.
pub const DAY_BAR_WIDTH: i64 = 86400;

/// Everything the statistics window plots, for plain issues and for pull requests.
pub struct Statistics {
    pub issue_points: Vec<Point>,
    pub pr_points: Vec<Point>,
    pub closed_issue_points: Vec<Point>,
    pub closed_pr_points: Vec<Point>,
    pub opened_issues_per_day: Vec<Point>,
    pub opened_prs_per_day: Vec<Point>,
    pub closed_issues_per_day: Vec<Point>,
    pub closed_prs_per_day: Vec<Point>,
    pub issue_bars: BarsAndDiff,
    pub pr_bars: BarsAndDiff,
    pub issue_age_lines: Vec<Vec<Point>>,
    pub pr_age_lines: Vec<Vec<Point>>,
}

/// The age limits of the buckets of the age plot, in seconds: 1, 7, 14, 30, 90, 180 and 365
/// days.
pub fn bucket_ages() -> (ages: Vec<i64>)
    ensures
        ages@ == seq![86400i64, 604800, 1209600, 2592000, 7776000, 15552000, 31536000],
{
    let mut ages: Vec<i64> = Vec::new();
    ages.push(86400);
    ages.push(7 * 86400);
    ages.push(14 * 86400);
    ages.push(30 * 86400);
    ages.push(90 * 86400);
    ages.push(180 * 86400);
    ages.push(365 * 86400);
    ages
}

pub open spec fn times_in_range(issues: Seq<Issue>) -> bool {
    forall|i: int|
        0 <= i < issues.len() ==> in_window_range((#[trigger] issues[i]).created_at as int) && (issues[i].closed_at matches Some(c) ==> in_window_range(c as int))
}

/// What the statistics need: some plain issues and some pull requests, each group with a
/// closed one, and times whose rolling window chrono can step through.
pub open spec fn ready_for_statistics(issues: Seq<Issue>) -> bool {
    &&& issues.len() < 0x0100_0000_0000_0000
    &&& times_in_range(issues)
    &&& has_closed(issues, false)
    &&& has_closed(issues, true)
}

/// The plots of one group (plain issues or pull requests) as `compute_statistics` states them.
pub open spec fn group_plots(
    times: Seq<IssueTimes>,
    ages: Seq<i64>,
    live: Seq<Point>,
    closed: Seq<Point>,
    opened_per_day: Seq<Point>,
    closed_per_day: Seq<Point>,
    bars: BarsAndDiff,
    age: Seq<Vec<Point>>,
) -> bool {
    &&& live_issues_result(times, live)
    &&& closed_issues_result(times, closed)
    &&& rolling_result(times, StateChangeKind::Open, opened_per_day)
    &&& rolling_result(times, StateChangeKind::Close, closed_per_day)
    &&& bars.view() == stack_from(closed_per_day, opened_per_day, 0, 0, true, DAY_BAR_WIDTH)
    &&& exists|months: Vec<MonthOfIssues>| months_result(times, Some(months)) && age_lines(months@, ages, age)
}

proof fn lemma_times_of(issues: Seq<Issue>, pull_requests: bool)
    requires
        times_in_range(issues),
    ensures
        times_of(issues, pull_requests).len() <= issues.len(),
        forall|k: int|
            0 <= k < times_of(issues, pull_requests).len() ==> in_window_range(
                (#[trigger] times_of(issues, pull_requests)[k]).created_at as int,
            ) && (times_of(issues, pull_requests)[k].closed_at matches Some(c) ==> in_window_range(c as int)),
    decreases issues.len(),
{
    if issues.len() > 0 {
        assert(times_in_range(issues.drop_last())) by {
            assert forall|i: int| 0 <= i < issues.drop_last().len() implies in_window_range((#[trigger] issues.drop_last()[i]).created_at as int) && (issues.drop_last()[i].closed_at matches Some(c) ==> in_window_range(c as int)) by {
                assert(issues.drop_last()[i] == issues[i]);
            }
        }
        lemma_times_of(issues.drop_last(), pull_requests);
        let last = issues.len() - 1;
        assert(in_window_range(issues[last].created_at as int));
    }
}

proof fn lemma_event_times_in_range(times: Seq<IssueTimes>, kind: StateChangeKind)
    requires
        forall|k: int|
            0 <= k < times.len() ==> in_window_range((#[trigger] times[k]).created_at as int) && (times[k].closed_at matches Some(c) ==> in_window_range(c as int)),
    ensures
        forall|k: int| 0 <= k < event_times(times, kind).len() ==> in_window_range(#[trigger] event_times(times, kind)[k] as int),
    decreases times.len(),
{
    if times.len() > 0 {
        assert forall|k: int| 0 <= k < times.drop_last().len() implies in_window_range((#[trigger] times.drop_last()[k]).created_at as int) && (times.drop_last()[k].closed_at matches Some(c) ==> in_window_range(c as int)) by {
            assert(times.drop_last()[k] == times[k]);
        }
        lemma_event_times_in_range(times.drop_last(), kind);
        let last = times.len() - 1;
        assert(in_window_range(times[last].created_at as int));
        let prefix = event_times(times.drop_last(), kind);
        assert forall|k: int| 0 <= k < event_times(times, kind).len() implies in_window_range(#[trigger] event_times(times, kind)[k] as int) by {
            if k < prefix.len() {
                assert(event_times(times, kind)[k] == prefix[k]);
            } else {
                assert(event_times(times, kind)[k] == times.last().event_time(kind));
            }
        }
    }
}

proof fn lemma_open_times_nonempty(times: Seq<IssueTimes>)
    requires
        event_times(times, StateChangeKind::Close).len() > 0,
    ensures
        event_times(times, StateChangeKind::Open).len() > 0,
        times.len() > 0,
    decreases times.len(),
{
    if times.len() == 0 {
    } else if event_times(times.drop_last(), StateChangeKind::Close).len() > 0 {
        lemma_open_times_nonempty(times.drop_last());
    }
}

proof fn lemma_count_bound(times: Seq<i64>, lo: int, hi: int)
    ensures
        count_days_between(times, lo, hi) <= times.len(),
    decreases times.len(),
{
    if times.len() > 0 {
        lemma_count_bound(times.drop_last(), lo, hi);
    }
}

proof fn lemma_rolling_small(times: Seq<IssueTimes>, kind: StateChangeKind, points: Seq<Point>)
    requires
        rolling_result(times, kind, points),
        times.len() < 0x0100_0000_0000_0000,
    ensures
        small_counts(points),
{
    let sorted = choose|s: Seq<i64>|
        s.to_multiset() == event_times(times, kind).to_multiset() && crate::times::sorted_times(s)
            && points == rolling_points(s);
    lemma_same_len(sorted, event_times(times, kind));
    lemma_event_times_len(times, kind);
    assert forall|k: int| 0 <= k < points.len() implies -0x4000_0000_0000_0000 < #[trigger] points[k].y < 0x4000_0000_0000_0000 by {
        let first = crate::calendar::day_of(sorted[0] as int);
        lemma_count_bound(sorted, first + k - crate::rolling::WINDOW_DAYS, first + k);
    }
}

/// The plots of one group of issues.
fn group_statistics(
    times: &Vec<IssueTimes>,
    ages: &Vec<i64>,
) -> (r: Option<(Vec<Point>, Vec<Point>, Vec<Point>, Vec<Point>, BarsAndDiff, Vec<Vec<Point>>)>)
    requires
        times@.len() < 0x0100_0000_0000_0000,
        event_times(times@, StateChangeKind::Close).len() > 0,
        forall|k: int|
            0 <= k < times@.len() ==> in_window_range((#[trigger] times@[k]).created_at as int) && (times@[k].closed_at matches Some(c) ==> in_window_range(c as int)),
    ensures
        match r {
            Some(g) => group_plots(times@, ages@, g.0@, g.1@, g.2@, g.3@, g.4, g.5@),
            None => months_result(times@, None),
        },
        issues_ready_for_months(times@) ==> r is Some,
{
    proof {
        lemma_open_times_nonempty(times@);
        lemma_event_times_in_range(times@, StateChangeKind::Open);
        lemma_event_times_in_range(times@, StateChangeKind::Close);
    }
    let live = live_issues(times.as_slice());
    let closed = closed_issues(times.as_slice());
    let opened_per_day = closed_issues_per_month(times.as_slice(), StateChangeKind::Open);
    let closed_per_day = closed_issues_per_month(times.as_slice(), StateChangeKind::Close);
    proof {
        lemma_rolling_small(times@, StateChangeKind::Open, opened_per_day@);
        lemma_rolling_small(times@, StateChangeKind::Close, closed_per_day@);
    }
    let bars = points_to_stacked_bars(
        Stacked { top: closed_per_day.as_slice(), bottom: opened_per_day.as_slice() },
        DAY_BAR_WIDTH,
        true,
    );
    let months = issues_associated_with_month(times.as_slice());
    match months {
        Some(months) => {
            let age = points_per_month_of_issues(months.as_slice(), ages.as_slice());
            Some((live, closed, opened_per_day, closed_per_day, bars, age))
        },
        None => None,
    }
}

/// The plots of the statistics window: for plain issues and for pull requests, the open and
/// the closed counts over time, the daily openings and closings over a rolling window, their
/// stacked shares and difference, and the monthly age buckets. `None` where grouping the
/// events by month fails (see `months_of_events`), which it does not on groups ready for it
/// (see `issues_ready_for_months`).
pub fn compute_statistics(issues: &[Issue]) -> (r: Option<Statistics>)
    requires
        ready_for_statistics(issues@),
    ensures
        match r {
            Some(st) => group_plots(
                times_of(issues@, false),
                bucket_ages_spec(),
                st.issue_points@,
                st.closed_issue_points@,
                st.opened_issues_per_day@,
                st.closed_issues_per_day@,
                st.issue_bars,
                st.issue_age_lines@,
            ) && group_plots(
                times_of(issues@, true),
                bucket_ages_spec(),
                st.pr_points@,
                st.closed_pr_points@,
                st.opened_prs_per_day@,
                st.closed_prs_per_day@,
                st.pr_bars,
                st.pr_age_lines@,
            ),
            None => months_result(times_of(issues@, false), None) || months_result(times_of(issues@, true), None),
        },
        issues_ready_for_months(times_of(issues@, false)) && issues_ready_for_months(times_of(issues@, true))
            ==> r is Some,
{
    let ages = bucket_ages();
    let issue_times = issue_times_of(issues, false);
    let pr_times = issue_times_of(issues, true);
    proof {
        lemma_times_of(issues@, false);
        lemma_times_of(issues@, true);
    }
    let issue_group = match group_statistics(&issue_times, &ages) {
        Some(g) => g,
        None => return None,
    };
    let pr_group = match group_statistics(&pr_times, &ages) {
        Some(g) => g,
        None => return None,
    };
    Some(
        Statistics {
            issue_points: issue_group.0,
            pr_points: pr_group.0,
            closed_issue_points: issue_group.1,
            closed_pr_points: pr_group.1,
            opened_issues_per_day: issue_group.2,
            opened_prs_per_day: pr_group.2,
            closed_issues_per_day: issue_group.3,
            closed_prs_per_day: pr_group.3,
            issue_bars: issue_group.4,
            pr_bars: pr_group.4,
            issue_age_lines: issue_group.5,
            pr_age_lines: pr_group.5,
        },
    )
}

pub open spec fn bucket_ages_spec() -> Seq<i64> {
    seq![86400i64, 604800, 1209600, 2592000, 7776000, 15552000, 31536000]
}


/// Whether some issue of the group, pull requests or plain issues, was closed.
pub open spec fn has_closed(issues: Seq<Issue>, pull_requests: bool) -> bool {
    event_times(times_of(issues, pull_requests), StateChangeKind::Close).len() > 0
}

proof fn lemma_has_closed_push(issues: Seq<Issue>, x: Issue, pull_requests: bool)
    ensures
        has_closed(issues.push(x), pull_requests) == (has_closed(issues, pull_requests) || ((x.pr is Some)
            == pull_requests && x.closed_at is Some)),
{
    let s = issues.push(x);
    assert(s.drop_last() == issues);
    let t = times_of(issues, pull_requests);
    if (x.pr is Some) == pull_requests {
        let it = IssueTimes { number: x.number, created_at: x.created_at, closed_at: x.closed_at };
        assert(times_of(s, pull_requests) == t.push(it));
        assert(t.push(it).drop_last() == t);
        assert(event_times(t.push(it), StateChangeKind::Close) == event_times(t, StateChangeKind::Close)
            + issue_event_time(it, StateChangeKind::Close));
    } else {
        assert(times_of(s, pull_requests) == t);
    }
}

/// Whether the issues meet what `compute_statistics` needs (see `ready_for_statistics`).
pub fn is_ready_for_statistics(issues: &[Issue]) -> (r: bool)
    ensures
        r == ready_for_statistics(issues@),
{
    if issues.len() as u64 >= 0x0100_0000_0000_0000u64 {
        return false;
    }
    let mut times_ok = true;
    let mut closed_issue = false;
    let mut closed_pr = false;
    let mut i: usize = 0;
    while i < issues.len()
        invariant
            i <= issues@.len(),
            times_ok == times_in_range(issues@.take(i as int)),
            closed_issue == has_closed(issues@.take(i as int), false),
            closed_pr == has_closed(issues@.take(i as int), true),
        decreases issues@.len() - i,
    {
        let issue = &issues[i];
        let ok = is_in_window_range(issue.created_at) && match issue.closed_at {
            Some(c) => is_in_window_range(c),
            None => true,
        };
        let ghost prefix = issues@.take(i as int);
        proof {
            assert(issues@.take(i + 1) == prefix.push(issues@[i as int]));
            lemma_has_closed_push(prefix, issues@[i as int], false);
            lemma_has_closed_push(prefix, issues@[i as int], true);
            let next = issues@.take(i + 1);
            if times_in_range(next) {
                assert(next[i as int] == issues@[i as int]);
                assert forall|k: int| 0 <= k < prefix.len() implies in_window_range((#[trigger] prefix[k]).created_at as int) && (prefix[k].closed_at matches Some(c) ==> in_window_range(c as int)) by {
                    assert(prefix[k] == next[k]);
                }
            }
            if times_in_range(prefix) && ok {
                assert forall|k: int| 0 <= k < next.len() implies in_window_range((#[trigger] next[k]).created_at as int) && (next[k].closed_at matches Some(c) ==> in_window_range(c as int)) by {
                    if k < prefix.len() {
                        assert(prefix[k] == next[k]);
                    }
                }
            }
        }
        times_ok = times_ok && ok;
        if issue.closed_at.is_some() {
            if issue.is_issue() {
                closed_issue = true;
            } else {
                closed_pr = true;
            }
        }
        i = i + 1;
    }
    assert(issues@.take(issues@.len() as int) == issues@);
    times_ok && closed_issue && closed_pr
}

} // verus!
