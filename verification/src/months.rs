use vstd::prelude::*;
use std::collections::HashMap;
use crate::collections::map_values;
use crate::calendar::{
    day_of, in_date_range, month0_of_timestamp, timestamp_add_months, utc_add_months, utc_month0, FIRST_DATE_DAY,
    LAST_DATE_DAY,
};
use crate::events::{
    distinct_numbers, event_of, generate_events, lemma_raw_events_has_opening, lemma_raw_events_member,
    lemma_raw_events_no_duplicates, opening, raw_events, sorted_by_time, Event, StateChange,
};
use crate::model::{IssueTimes, Point};

verus! {

broadcast use vstd::std_specs::hash::group_hash_axioms;

/// The issues that belong to a month: those closed during it, then those still open when it
/// ended.
pub struct MonthOfIssues {
    pub timestamp: i64,
    pub issues: Vec<IssueTimes>,
}

/// A finished month: its timestamp, the issues closed during it in order, and the issues
/// open at its end by number.
pub struct MonthSpec {
    pub timestamp: i64,
    pub closed: Seq<IssueTimes>,
    pub open: Map<u64, IssueTimes>,
}

/// The state of the walk over the events: the finished months, the month being filled,
/// the issues open by number, and those closed so far in the current month.
pub struct MonthScan {
    pub months: Seq<MonthSpec>,
    pub current_time: i64,
    pub current_month: u32,
    pub open: Map<u64, IssueTimes>,
    pub closed: Seq<IssueTimes>,
}

/// One event of the walk. When the event's month differs from the current one, the current
/// month is finished and the next starts a calendar month later. An opening records the
/// issue under its number; a closing removes it and counts it for the month. `None` where
/// chrono cannot place a time or a closing finds no open issue of its number.
pub open spec fn scan_step(s: MonthScan, e: Event) -> Option<MonthScan> {
    match utc_month0(e.timestamp) {
        None => None,
        Some(month) => {
            let moved = if month != s.current_month {
                match utc_add_months(s.current_time, 1) {
                    None => None,
                    Some(next) => Some(
                        MonthScan {
                            months: s.months.push(
                                MonthSpec { timestamp: s.current_time, closed: s.closed, open: s.open },
                            ),
                            current_time: next,
                            current_month: month,
                            open: s.open,
                            closed: Seq::empty(),
                        },
                    ),
                }
            } else {
                Some(s)
            };
            match moved {
                None => None,
                Some(t) => match e.state_change {
                    StateChange::Open => Some(
                        MonthScan {
                            months: t.months,
                            current_time: t.current_time,
                            current_month: t.current_month,
                            open: t.open.insert(e.issue.number, e.issue),
                            closed: t.closed,
                        },
                    ),
                    StateChange::Close => if t.open.contains_key(e.issue.number) {
                        Some(
                            MonthScan {
                                months: t.months,
                                current_time: t.current_time,
                                current_month: t.current_month,
                                open: t.open.remove(e.issue.number),
                                closed: t.closed.push(e.issue),
                            },
                        )
                    } else {
                        None
                    },
                },
            }
        },
    }
}

/// The walk over the first `k` events, starting in the month of the first event.
pub open spec fn scan_events(events: Seq<Event>, k: nat) -> Option<MonthScan>
    decreases k,
{
    if k == 0 {
        match utc_month0(events[0].timestamp) {
            Some(m) => Some(
                MonthScan {
                    months: Seq::empty(),
                    current_time: events[0].timestamp,
                    current_month: m,
                    open: Map::empty(),
                    closed: Seq::empty(),
                },
            ),
            None => None,
        }
    } else {
        match scan_events(events, (k - 1) as nat) {
            None => None,
            Some(s) => scan_step(s, events[k - 1]),
        }
    }
}

/// The issues of a month as listed: first those closed during it, in order, then every issue
/// open at its end, once each, in some order.
pub open spec fn issues_match(listed: Seq<IssueTimes>, month: MonthSpec) -> bool {
    &&& listed.len() == month.closed.len() + month.open.dom().len()
    &&& listed.take(month.closed.len() as int) == month.closed
    &&& listed.skip(month.closed.len() as int).to_set() == month.open.values()
}

pub open spec fn months_match(listed: Seq<MonthOfIssues>, months: Seq<MonthSpec>) -> bool {
    &&& listed.len() == months.len()
    &&& forall|k: int|
        0 <= k < months.len() ==> (#[trigger] listed[k]).timestamp == months[k].timestamp
            && issues_match(listed[k].issues@, months[k])
}

/// Whether, just before event `k`, the last of the earlier events of issue number `n` is its
/// opening.
pub open spec fn open_before(events: Seq<Event>, k: int, n: u64) -> bool {
    exists|j: int| #[trigger] opens_at(events, j, n) && j < k && no_event_between(events, j, k, n)
}

/// Event `j` opens issue number `n`.
pub open spec fn opens_at(events: Seq<Event>, j: int, n: u64) -> bool {
    0 <= j < events.len() && events[j].issue.number == n && events[j].state_change == StateChange::Open
}

/// No event strictly between `lo` and `hi` is of issue number `n`.
pub open spec fn no_event_between(events: Seq<Event>, lo: int, hi: int, n: u64) -> bool {
    forall|x: int| lo < x < hi ==> (#[trigger] events[x]).issue.number != n
}

/// Events on which the month walk succeeds: their dates are chrono's, the first date leaves
/// room for a month of 31 days per event, and every closing comes after its issue's opening
/// with no other event of that number in between.
pub open spec fn months_ready(events: Seq<Event>) -> bool {
    &&& events.len() > 0
    &&& forall|k: int| 0 <= k < events.len() ==> in_date_range(day_of((#[trigger] events[k]).timestamp as int))
    &&& day_of(events[0].timestamp as int) + 31 * events.len() <= LAST_DATE_DAY
    &&& forall|k: int|
        0 <= k < events.len() && (#[trigger] events[k]).state_change == StateChange::Close ==> open_before(
            events,
            k,
            events[k].issue.number,
        )
}

/// Groups events, in the given order, by calendar month: each finished month lists the issues
/// closed during it and the issues still open when it ended. The month being filled when
/// the events run out is not listed. `None` where the walk fails (see `scan_step`).
pub fn months_of_events(events: &[Event]) -> (months: Option<Vec<MonthOfIssues>>)
    requires
        events@.len() > 0,
    ensures
        match (months, scan_events(events@, events@.len())) {
            (None, None) => true,
            (Some(ms), Some(s)) => months_match(ms@, s.months),
            _ => false,
        },
        months_ready(events@) ==> months is Some,
{
    let ghost good = months_ready(events@);
    let ghost mut changes: int = 0;
    let n = events.len();
    let mut open: HashMap<u64, IssueTimes> = HashMap::new();
    let mut months: Vec<MonthOfIssues> = Vec::new();
    let mut current_time = events[0].timestamp;
    let mut current_month = match month0_of_timestamp(current_time) {
        Some(m) => m,
        None => {
            proof {
                lemma_scan_failure_persists(events@, 0, n as nat);
            }
            return None;
        },
    };
    let mut current_issues: Vec<IssueTimes> = Vec::new();
    let mut i: usize = 0;
    while i < n
        invariant
            n == events@.len(),
            i <= n,
            scan_events(events@, i as nat) matches Some(s) && s.current_time == current_time
                && s.current_month == current_month && s.open == open@ && s.closed == current_issues@
                && months_match(months@, s.months),
            good == months_ready(events@),
            good ==> 0 <= changes <= i,
            good ==> FIRST_DATE_DAY <= day_of(current_time as int) <= day_of(events@[0].timestamp as int) + 31
                * changes,
            good ==> forall|m: u64| #[trigger] open@.contains_key(m) <==> open_before(events@, i as int, m),
        decreases n - i,
    {
        let ghost s = scan_events(events@, i as nat)->0;
        let event = events[i];
        let month = match month0_of_timestamp(event.timestamp) {
            Some(m) => m,
            None => {
                proof {
                    lemma_scan_failure_persists(events@, (i + 1) as nat, n as nat);
                }
                return None;
            },
        };
        let ghost mut t = s;
        if month != current_month {
            let mut month_issues = current_issues;
            let mut still_open = map_values(&open);
            let ghost open_list = still_open@;
            month_issues.append(&mut still_open);
            let ghost finished = MonthSpec { timestamp: current_time, closed: s.closed, open: s.open };
            proof {
                assert(month_issues@.take(s.closed.len() as int) == s.closed);
                assert(month_issues@.skip(s.closed.len() as int) == open_list);
                assert(issues_match(month_issues@, finished));
            }
            let ghost old_months = months@;
            months.push(MonthOfIssues { timestamp: current_time, issues: month_issues });
            proof {
                assert forall|k: int| 0 <= k < s.months.len() + 1 implies (#[trigger] months@[k]).timestamp
                    == s.months.push(finished)[k].timestamp && issues_match(months@[k].issues@, s.months.push(finished)[k]) by {
                    if k < s.months.len() {
                        assert(months@[k] == old_months[k]);
                    }
                }
            }
            let next_time = match timestamp_add_months(current_time, 1) {
                Some(t) => t,
                None => {
                    proof {
                        lemma_scan_failure_persists(events@, (i + 1) as nat, n as nat);
                    }
                    return None;
                },
            };
            proof {
                changes = changes + 1;
                t = MonthScan {
                    months: s.months.push(finished),
                    current_time: next_time,
                    current_month: month,
                    open: s.open,
                    closed: Seq::empty(),
                };
            }
            current_time = next_time;
            current_month = month;
            current_issues = Vec::new();
        }
        assert(months_match(months@, t.months));
        let ghost before_open = open@;
        proof {
            if good {
                assert(events@[i as int] == event);
                assert(forall|m: u64| #![trigger open_before(events@, i + 1, m)] m != event.issue.number ==> (open_before(events@, i + 1, m) <==> open_before(events@, i as int, m))) by {
                    assert forall|m: u64| m != event.issue.number implies (open_before(events@, i + 1, m) <==> open_before(events@, i as int, m)) by {
                        lemma_open_before_step(events@, i as int, m);
                    }
                }
                lemma_open_before_step(events@, i as int, event.issue.number);
                if event.state_change == StateChange::Close {
                    assert(open_before(events@, i as int, event.issue.number));
                    assert(before_open.contains_key(event.issue.number));
                }
            }
        }
        match event.state_change {
            StateChange::Open => {
                open.insert(event.issue.number, event.issue);
            },
            StateChange::Close => {
                match open.remove(&event.issue.number) {
                    Some(_) => {},
                    None => {
                        proof {
                            lemma_scan_failure_persists(events@, (i + 1) as nat, n as nat);
                        }
                        return None;
                    },
                }
                current_issues.push(event.issue);
            },
        }
        proof {
            if good {
                assert forall|m: u64| #[trigger] open@.contains_key(m) <==> open_before(events@, i + 1, m) by {
                    lemma_open_before_step(events@, i as int, m);
                }
            }
        }
        i = i + 1;
    }
    Some(months)
}

proof fn lemma_open_before_step(events: Seq<Event>, i: int, m: u64)
    requires
        0 <= i < events.len(),
    ensures
        m != events[i].issue.number ==> (open_before(events, i + 1, m) <==> open_before(events, i, m)),
        m == events[i].issue.number ==> (open_before(events, i + 1, m) <==> events[i].state_change
            == StateChange::Open),
{
    if m != events[i].issue.number {
        if open_before(events, i, m) {
            let j = choose|j: int| #[trigger] opens_at(events, j, m) && j < i && no_event_between(events, j, i, m);
            assert(no_event_between(events, j, i + 1, m));
        }
        if open_before(events, i + 1, m) {
            let j = choose|j: int| #[trigger] opens_at(events, j, m) && j < i + 1 && no_event_between(events, j, i + 1, m);
            assert(j != i);
            assert(no_event_between(events, j, i, m));
        }
    } else {
        if events[i].state_change == StateChange::Open {
            assert(opens_at(events, i, m));
            assert(no_event_between(events, i, i + 1, m));
        }
        if open_before(events, i + 1, m) {
            let j = choose|j: int| #[trigger] opens_at(events, j, m) && j < i + 1 && no_event_between(events, j, i + 1, m);
            if j < i {
                assert(events[i].issue.number != m);
            }
        }
    }
}

/// Once the walk has failed it stays failed.
proof fn lemma_scan_failure_persists(events: Seq<Event>, k: nat, m: nat)
    requires
        k <= m,
        scan_events(events, k) is None,
    ensures
        scan_events(events, m) is None,
    decreases m - k,
{
    if k < m {
        lemma_scan_failure_persists(events, k, (m - 1) as nat);
    }
}

/// What `issues_associated_with_month` returns: the months of the issues' events in time
/// order, where events at the same time may come in any order.
pub open spec fn months_result(issues: Seq<IssueTimes>, months: Option<Vec<MonthOfIssues>>) -> bool {
    exists|events: Seq<Event>|
        events.to_multiset() == raw_events(issues).to_multiset() && sorted_by_time(events)
            && match (months, scan_events(events, events.len())) {
            (None, None) => true,
            (Some(ms), Some(s)) => months_match(ms@, s.months),
            _ => false,
        }
}

/// Issues on which grouping by month succeeds: some issues, with distinct numbers, each
/// closed after it was opened, on chrono's dates, every opening leaving room for a month of 31
/// days per event.
pub open spec fn issues_ready_for_months(issues: Seq<IssueTimes>) -> bool {
    &&& issues.len() > 0
    &&& distinct_numbers(issues)
    &&& forall|i: int|
        0 <= i < issues.len() ==> in_date_range(day_of((#[trigger] issues[i]).created_at as int)) && day_of(
            issues[i].created_at as int,
        ) + 62 * issues.len() <= LAST_DATE_DAY
    &&& forall|i: int|
        0 <= i < issues.len() ==> ((#[trigger] issues[i]).closed_at matches Some(c) ==> in_date_range(
            day_of(c as int),
        ) && issues[i].created_at < c)
}

/// Every event of ready issues, in time order, is ready for the month walk.
proof fn lemma_months_ready(issues: Seq<IssueTimes>, events: Seq<Event>)
    requires
        issues_ready_for_months(issues),
        events.to_multiset() == raw_events(issues).to_multiset(),
        sorted_by_time(events),
    ensures
        months_ready(events),
{
    broadcast use vstd::seq_lib::group_to_multiset_ensures;
    let raw = raw_events(issues);
    crate::collections::lemma_same_len(events, raw);
    crate::events::lemma_raw_events_nonempty(issues);
    crate::events::lemma_raw_events_len(issues);
    lemma_raw_events_no_duplicates(issues);
    raw.lemma_multiset_has_no_duplicates();
    events.lemma_multiset_has_no_duplicates_conv();
    // Each event is one of an issue's, and that issue's opening is among the events.
    assert forall|k: int| #![trigger events[k]] 0 <= k < events.len() implies exists|idx: int|
        0 <= idx < issues.len() && event_of(events[k], #[trigger] issues[idx]) by {
        assert(events.to_multiset().count(events[k]) > 0);
        assert(raw.contains(events[k]));
        let p = choose|p: int| 0 <= p < raw.len() && raw[p] == events[k];
        lemma_raw_events_member(issues, p);
    }
    assert forall|idx: int| 0 <= idx < issues.len() implies events.contains(opening(#[trigger] issues[idx])) by {
        lemma_raw_events_has_opening(issues, idx);
        assert(raw.to_multiset().count(opening(issues[idx])) > 0);
    }
    assert forall|k: int| 0 <= k < events.len() implies in_date_range(day_of((#[trigger] events[k]).timestamp as int)) by {
        let idx = choose|idx: int| 0 <= idx < issues.len() && event_of(events[k], #[trigger] issues[idx]);
    }
    // The first event is no later than the opening of its issue.
    let idx0 = choose|idx: int| 0 <= idx < issues.len() && event_of(events[0], #[trigger] issues[idx]);
    assert(events.contains(opening(issues[idx0])));
    let j0 = choose|j: int| 0 <= j < events.len() && events[j] == opening(issues[idx0]);
    assert(events[0].timestamp <= events[j0].timestamp);
    crate::calendar::lemma_day_of_monotonic(events[0].timestamp as int, issues[idx0].created_at as int);
    // Each closing follows its issue's opening with no other event of that number between.
    assert forall|k: int|
        0 <= k < events.len() && (#[trigger] events[k]).state_change == StateChange::Close implies open_before(
        events,
        k,
        events[k].issue.number,
    ) by {
        let e = events[k];
        let idx = choose|idx: int| 0 <= idx < issues.len() && event_of(e, #[trigger] issues[idx]);
        let t = issues[idx];
        assert(events.contains(opening(t)));
        let j = choose|j: int| 0 <= j < events.len() && events[j] == opening(t);
        if j >= k {
            assert(events[k].timestamp <= events[j].timestamp);
        }
        assert(opens_at(events, j, e.issue.number));
        assert forall|x: int| j < x < k implies (#[trigger] events[x]).issue.number != e.issue.number by {
            if events[x].issue.number == e.issue.number {
                let ix = choose|i: int| 0 <= i < issues.len() && event_of(events[x], #[trigger] issues[i]);
                if ix != idx {
                    if ix < idx {
                        assert(issues[ix].number != issues[idx].number);
                    } else {
                        assert(issues[idx].number != issues[ix].number);
                    }
                }
                assert(events[x].issue == t);
                if events[x].state_change == StateChange::Open {
                    assert(events[x] == events[j]);
                } else {
                    assert(events[x] == events[k]);
                }
            }
        }
        assert(no_event_between(events, j, k, e.issue.number));
    }
}

/// Groups the issues' events, ordered by time, by calendar month (see `months_of_events`).
/// It succeeds on issues ready for it (see `issues_ready_for_months`).
pub fn issues_associated_with_month(issues: &[IssueTimes]) -> (months: Option<Vec<MonthOfIssues>>)
    requires
        0 < issues@.len() < 0x1000_0000_0000_0000,
    ensures
        months_result(issues@, months),
        issues_ready_for_months(issues@) ==> months is Some,
{
    let events = generate_events(issues);
    proof {
        crate::events::lemma_raw_events_nonempty(issues@);
        crate::collections::lemma_same_len(events@, raw_events(issues@));
        if issues_ready_for_months(issues@) {
            lemma_months_ready(issues@, events@);
        }
    }
    months_of_events(events.as_slice())
}

/// The bucket of an age: the last of the first `n` buckets whose age limit it is under.
pub open spec fn bucket_index(age: int, ages: Seq<i64>, n: int) -> Option<int>
    decreases n,
{
    if n <= 0 {
        None
    } else if age < ages[n - 1] {
        Some(n - 1)
    } else {
        bucket_index(age, ages, n - 1)
    }
}

/// How many of the issues fall into bucket `b` by their age at time `at`.
pub open spec fn bucket_count(issues: Seq<IssueTimes>, at: i64, ages: Seq<i64>, b: int) -> nat
    decreases issues.len(),
{
    if issues.len() == 0 {
        0
    } else {
        bucket_count(issues.drop_last(), at, ages, b) + (if bucket_index(
            at - issues.last().created_at,
            ages,
            ages.len() as int,
        ) == Some(b) {
            1nat
        } else {
            0
        })
    }
}

/// One line per bucket, one point per month.
pub open spec fn age_lines(months: Seq<MonthOfIssues>, ages: Seq<i64>, lines: Seq<Vec<Point>>) -> bool {
    &&& lines.len() == ages.len()
    &&& forall|b: int|
        0 <= b < ages.len() ==> (#[trigger] lines[b])@.len() == months.len() && forall|m: int|
            0 <= m < months.len() ==> (#[trigger] lines[b]@[m]) == age_point(months[m].timestamp, months[m].issues@, ages, b)
}

/// The point of one month on one bucket's line.
pub open spec fn age_point(at: i64, issues: Seq<IssueTimes>, ages: Seq<i64>, b: int) -> Point {
    Point { x: at, y: bucket_count(issues, at, ages, b) as i64 }
}

/// One line per age bucket: for every month, how many of its issues fall into the bucket by
/// their age at the month's time, where an issue goes to the last bucket whose age limit
/// it is under.
pub fn points_per_month_of_issues(months: &[MonthOfIssues], bucket_ages: &[i64]) -> (lines: Vec<Vec<Point>>)
    ensures
        age_lines(months@, bucket_ages@, lines@),
{
    let nb = bucket_ages.len();
    let mut all_counts: Vec<Vec<usize>> = Vec::new();
    let mut m: usize = 0;
    while m < months.len()
        invariant
            m <= months@.len(),
            nb == bucket_ages@.len(),
            all_counts@.len() == m,
            forall|p: int| 0 <= p < m ==> (#[trigger] all_counts@[p])@.len() == nb && forall|b: int|
                0 <= b < nb ==> (#[trigger] all_counts@[p]@[b]) == bucket_count(
                    months@[p].issues@,
                    months@[p].timestamp,
                    bucket_ages@,
                    b,
                ),
        decreases months@.len() - m,
    {
        let counts = month_bucket_counts(&months[m], bucket_ages);
        all_counts.push(counts);
        m = m + 1;
    }
    let mut lines: Vec<Vec<Point>> = Vec::new();
    let mut b: usize = 0;
    while b < nb
        invariant
            b <= nb,
            nb == bucket_ages@.len(),
            all_counts@.len() == months@.len(),
            forall|p: int| 0 <= p < months@.len() ==> (#[trigger] all_counts@[p])@.len() == nb && forall|c: int|
                0 <= c < nb ==> (#[trigger] all_counts@[p]@[c]) == bucket_count(
                    months@[p].issues@,
                    months@[p].timestamp,
                    bucket_ages@,
                    c,
                ),
            lines@.len() == b,
            forall|c: int|
                0 <= c < b ==> (#[trigger] lines@[c])@.len() == months@.len() && forall|p: int|
                    0 <= p < months@.len() ==> (#[trigger] lines@[c]@[p]) == age_point(months@[p].timestamp, months@[p].issues@, bucket_ages@, c),
        decreases nb - b,
    {
        let mut line: Vec<Point> = Vec::new();
        let mut p: usize = 0;
        while p < months.len()
            invariant
                b < nb,
                nb == bucket_ages@.len(),
                p <= months@.len(),
                all_counts@.len() == months@.len(),
                forall|q: int| 0 <= q < months@.len() ==> (#[trigger] all_counts@[q])@.len() == nb && forall|c: int|
                    0 <= c < nb ==> (#[trigger] all_counts@[q]@[c]) == bucket_count(
                        months@[q].issues@,
                        months@[q].timestamp,
                        bucket_ages@,
                        c,
                    ),
                line@.len() == p,
                forall|q: int|
                    0 <= q < p ==> (#[trigger] line@[q]) == age_point(months@[q].timestamp, months@[q].issues@, bucket_ages@, b as int),
            decreases months@.len() - p,
        {
            line.push(Point { x: months[p].timestamp, y: all_counts[p][b] as i64 });
            p = p + 1;
        }
        lines.push(line);
        b = b + 1;
    }
    lines
}

proof fn lemma_bucket_count_bound(issues: Seq<IssueTimes>, at: i64, ages: Seq<i64>, b: int)
    ensures
        bucket_count(issues, at, ages, b) <= issues.len(),
    decreases issues.len(),
{
    if issues.len() > 0 {
        lemma_bucket_count_bound(issues.drop_last(), at, ages, b);
    }
}

/// The bucket counts of one month, one per bucket.
fn month_bucket_counts(month: &MonthOfIssues, bucket_ages: &[i64]) -> (counts: Vec<usize>)
    ensures
        counts@.len() == bucket_ages@.len(),
        forall|b: int| 0 <= b < bucket_ages@.len() ==> (#[trigger] counts@[b]) == bucket_count(
            month.issues@,
            month.timestamp,
            bucket_ages@,
            b,
        ),
{
    let nb = bucket_ages.len();
    let mut counts: Vec<usize> = Vec::new();
    let mut b: usize = 0;
    while b < nb
        invariant
            b <= nb,
            counts@.len() == b,
            forall|c: int| 0 <= c < b ==> counts@[c] == 0,
        decreases nb - b,
    {
        counts.push(0);
        b = b + 1;
    }
    let issues = &month.issues;
    let mut i: usize = 0;
    while i < issues.len()
        invariant
            i <= issues@.len(),
            nb == bucket_ages@.len(),
            counts@.len() == nb,
            forall|c: int| 0 <= c < nb ==> (#[trigger] counts@[c]) == bucket_count(
                issues@.take(i as int),
                month.timestamp,
                bucket_ages@,
                c,
            ),
        decreases issues@.len() - i,
    {
        let age: i128 = month.timestamp as i128 - issues[i].created_at as i128;
        let ghost before = counts@;
        assert(issues@.take(i + 1).drop_last() == issues@.take(i as int));
        proof {
            lemma_bucket_count_bound(issues@.take(i as int), month.timestamp, bucket_ages@, 0);
        }
        let mut k: usize = nb;
        while k > 0
            invariant
                k <= nb,
                nb == bucket_ages@.len(),
                counts@ == before,
                bucket_index(age as int, bucket_ages@, nb as int) == bucket_index(age as int, bucket_ages@, k as int),
            ensures
                counts@ == before,
                k == 0 ==> bucket_index(age as int, bucket_ages@, nb as int) is None,
                k > 0 ==> bucket_index(age as int, bucket_ages@, nb as int) == Some(k - 1),
            decreases k,
        {
            if age < bucket_ages[k - 1] as i128 {
                break;
            }
            k = k - 1;
        }
        if k > 0 {
            proof {
                lemma_bucket_count_bound(issues@.take(i as int), month.timestamp, bucket_ages@, k - 1);
            }
            let c = counts[k - 1];
            counts.set(k - 1, c + 1);
        }
        i = i + 1;
    }
    assert(issues@.take(issues@.len() as int) == issues@);
    counts
}


/// The bucket counts of buckets `0` up to `nb`, added up.
pub open spec fn bucket_total(issues: Seq<IssueTimes>, at: i64, ages: Seq<i64>, nb: int) -> int
    decreases nb,
{
    if nb <= 0 {
        0
    } else {
        bucket_total(issues, at, ages, nb - 1) + bucket_count(issues, at, ages, nb - 1)
    }
}

/// How many of the issues fall into some bucket.
pub open spec fn bucketed_count(issues: Seq<IssueTimes>, at: i64, ages: Seq<i64>) -> nat
    decreases issues.len(),
{
    if issues.len() == 0 {
        0
    } else {
        bucketed_count(issues.drop_last(), at, ages) + (if bucket_index(
            at - issues.last().created_at,
            ages,
            ages.len() as int,
        ) is Some {
            1nat
        } else {
            0
        })
    }
}

/// How many of the first `nb` buckets a bucket index names: one or none.
pub open spec fn bucket_indicator_total(idx: Option<int>, nb: int) -> int
    decreases nb,
{
    if nb <= 0 {
        0
    } else {
        bucket_indicator_total(idx, nb - 1) + (if idx == Some(nb - 1) { 1int } else { 0 })
    }
}

proof fn lemma_bucket_index_range(age: int, ages: Seq<i64>, n: int)
    ensures
        bucket_index(age, ages, n) matches Some(b) ==> 0 <= b < n,
    decreases n,
{
    if n > 0 {
        lemma_bucket_index_range(age, ages, n - 1);
    }
}

/// Added over the first `nb` buckets, the indicator of one bucket index counts it once if it
/// is among them.
proof fn lemma_indicator_total(idx: Option<int>, nb: int)
    requires
        nb >= 0,
    ensures
        ({
            let total = bucket_indicator_total(idx, nb);
            total == (if idx matches Some(b) && 0 <= b < nb { 1int } else { 0 })
        }),
    decreases nb,
{
    if nb > 0 {
        lemma_indicator_total(idx, nb - 1);
    }
}

proof fn lemma_bucket_total_split(issues: Seq<IssueTimes>, at: i64, ages: Seq<i64>, nb: int)
    requires
        issues.len() > 0,
        nb >= 0,
    ensures
        bucket_total(issues, at, ages, nb) == bucket_total(issues.drop_last(), at, ages, nb)
            + bucket_indicator_total(bucket_index(at - issues.last().created_at, ages, ages.len() as int), nb),
    decreases nb,
{
    if nb > 0 {
        lemma_bucket_total_split(issues, at, ages, nb - 1);
    }
}

/// Law: an issue falls into one age bucket at most, so the bucket counts of a month add up to
/// the number of its issues that fall into some bucket, and never to more than its issues.
pub proof fn lemma_buckets_partition(issues: Seq<IssueTimes>, at: i64, ages: Seq<i64>)
    ensures
        bucket_total(issues, at, ages, ages.len() as int) == bucketed_count(issues, at, ages),
        bucketed_count(issues, at, ages) <= issues.len(),
    decreases issues.len(),
{
    let nb = ages.len() as int;
    if issues.len() == 0 {
        assert(bucket_total(issues, at, ages, nb) == 0) by {
            lemma_bucket_total_empty(issues, at, ages, nb);
        }
    } else {
        lemma_buckets_partition(issues.drop_last(), at, ages);
        lemma_bucket_total_split(issues, at, ages, nb);
        let idx = bucket_index(at - issues.last().created_at, ages, nb);
        lemma_bucket_index_range(at - issues.last().created_at, ages, nb);
        lemma_indicator_total(idx, nb);
    }
}

proof fn lemma_bucket_total_empty(issues: Seq<IssueTimes>, at: i64, ages: Seq<i64>, nb: int)
    requires
        issues.len() == 0,
    ensures
        bucket_total(issues, at, ages, nb) == 0,
    decreases nb,
{
    if nb > 0 {
        lemma_bucket_total_empty(issues, at, ages, nb - 1);
    }
}


/// Event `p` starts a new calendar month: its month differs from that of the event before it.
pub open spec fn month_changes_at(events: Seq<Event>, p: int) -> bool {
    0 < p < events.len() && utc_month0(events[p].timestamp) != utc_month0(events[p - 1].timestamp)
}

/// The issues of the closing events from `lo` up to, not including, `hi`, in event order.
pub open spec fn closings_between(events: Seq<Event>, lo: int, hi: int) -> Seq<IssueTimes>
    decreases hi - lo,
{
    if hi <= lo {
        Seq::empty()
    } else {
        closings_between(events, lo, hi - 1) + (if events[hi - 1].state_change == StateChange::Close {
            seq![events[hi - 1].issue]
        } else {
            Seq::empty()
        })
    }
}

/// A timestamp moved on by `q` calendar months, one at a time.
pub open spec fn months_on(t: i64, q: nat) -> Option<i64>
    decreases q,
{
    if q == 0 {
        Some(t)
    } else {
        match months_on(t, (q - 1) as nat) {
            Some(u) => utc_add_months(u, 1),
            None => None,
        }
    }
}

/// `bounds` are where the months of the first `k` events begin: the first event, then each
/// event whose month differs from the one before it, and no other.
pub open spec fn month_bounds(events: Seq<Event>, bounds: Seq<int>, k: int) -> bool {
    &&& bounds.len() >= 1
    &&& bounds[0] == 0
    &&& forall|q: int| 0 < q < bounds.len() ==> bounds[q - 1] < #[trigger] bounds[q] && month_changes_at(events, bounds[q])
    &&& bounds.last() <= k
    &&& (k > 0 ==> bounds.last() < k)
    &&& forall|p: int| 0 < p < k && month_changes_at(events, p) ==> exists|q: int| 0 <= q < bounds.len() && #[trigger] bounds[q] == p
}

/// What the walk over the first `k` events holds, against `bounds`.
pub open spec fn scan_shape(events: Seq<Event>, k: int, s: MonthScan, bounds: Seq<int>) -> bool {
    &&& month_bounds(events, bounds, k)
    &&& bounds.len() == s.months.len() + 1
    &&& forall|q: int| 0 <= q < s.months.len() ==> (#[trigger] s.months[q]).closed == closings_between(events, bounds[q], bounds[q + 1])
    &&& forall|q: int| 0 <= q < s.months.len() ==> months_on(events[0].timestamp, q as nat) == Some((#[trigger] s.months[q]).timestamp)
    &&& forall|q: int, n: u64| 0 <= q < s.months.len() ==> (#[trigger] s.months[q].open.contains_key(n) <==> open_before(events, bounds[q + 1], n))
    &&& s.closed == closings_between(events, bounds.last(), k)
    &&& months_on(events[0].timestamp, s.months.len()) == Some(s.current_time)
    &&& utc_month0(events[if k > 0 { k - 1 } else { 0 }].timestamp) == Some(s.current_month)
    &&& forall|n: u64| #[trigger] s.open.contains_key(n) <==> open_before(events, k, n)
}

#[verifier::rlimit(100)]
#[verifier::spinoff_prover]
proof fn lemma_scan_shape(events: Seq<Event>, k: nat) -> (bounds: Seq<int>)
    requires
        events.len() > 0,
        k <= events.len(),
        scan_events(events, k) is Some,
    ensures
        scan_shape(events, k as int, scan_events(events, k)->0, bounds),
    decreases k,
{
    if k == 0 {
        let b = seq![0int];
        let s = scan_events(events, 0)->0;
        assert(months_on(events[0].timestamp, 0) == Some(events[0].timestamp));
        assert forall|n: u64| #[trigger] s.open.contains_key(n) <==> open_before(events, 0, n) by {}
        assert(month_bounds(events, b, 0));
        b
    } else {
        let p = (k - 1) as int;
        lemma_scan_failure_persists_back(events, (k - 1) as nat, k);
        let b = lemma_scan_shape(events, (k - 1) as nat);
        let s = scan_events(events, (k - 1) as nat)->0;
        let e = events[p];
        let s2 = scan_events(events, k)->0;
        assert(scan_step(s, e) == Some(s2));
        let month = utc_month0(e.timestamp)->0;
        assert forall|n: u64| #[trigger] s2.open.contains_key(n) <==> open_before(events, k as int, n) by {
            lemma_open_before_step(events, p, n);
        }
        if month != s.current_month {
            assert(p > 0);
            assert(month_changes_at(events, p));
            assert(b.last() < p);
            let b2 = b.push(p);
            let ms = s.months.len();
            assert(s2.months == s.months.push(MonthSpec { timestamp: s.current_time, closed: s.closed, open: s.open }));
            assert(months_on(events[0].timestamp, (ms + 1) as nat) == utc_add_months(s.current_time, 1));
            assert forall|q: int| 0 < q < b2.len() implies b2[q - 1] < #[trigger] b2[q] && month_changes_at(events, b2[q]) by {
                if q < b.len() {
                    assert(b2[q] == b[q] && b2[q - 1] == b[q - 1]);
                }
            }
            assert forall|x: int| 0 < x < k && month_changes_at(events, x) implies exists|q: int| 0 <= q < b2.len() && #[trigger] b2[q] == x by {
                if x < p {
                    let q = choose|q: int| 0 <= q < b.len() && #[trigger] b[q] == x;
                    assert(b2[q] == x);
                } else {
                    assert(b2[b.len() as int] == x);
                }
            }
            assert(month_bounds(events, b2, k as int));
            assert forall|q: int| 0 <= q < s2.months.len() implies (#[trigger] s2.months[q]).closed == closings_between(events, b2[q], b2[q + 1]) by {
                if q < ms {
                    assert(s2.months[q] == s.months[q]);
                    assert(b2[q] == b[q] && b2[q + 1] == b[q + 1]);
                }
            }
            assert forall|q: int| 0 <= q < s2.months.len() implies months_on(events[0].timestamp, q as nat) == Some((#[trigger] s2.months[q]).timestamp) by {
                if q < ms {
                    assert(s2.months[q] == s.months[q]);
                }
            }
            assert forall|q: int, n: u64| 0 <= q < s2.months.len() implies (#[trigger] s2.months[q].open.contains_key(n) <==> open_before(events, b2[q + 1], n)) by {
                if q < ms {
                    assert(s2.months[q] == s.months[q]);
                    assert(b2[q + 1] == b[q + 1]);
                }
            }
            assert(closings_between(events, p, p) == Seq::<IssueTimes>::empty());
            assert(s2.closed == closings_between(events, p, k as int));
            assert(scan_shape(events, k as int, s2, b2));
            b2
        } else {
            assert(s2.months == s.months);
            assert(p > 0 ==> !month_changes_at(events, p));
            assert forall|x: int| 0 < x < k && month_changes_at(events, x) implies exists|q: int| 0 <= q < b.len() && #[trigger] b[q] == x by {
                assert(x < p);
            }
            assert(month_bounds(events, b, k as int));
            assert(s2.closed == closings_between(events, b.last(), k as int));
            assert(scan_shape(events, k as int, s2, b));
            b
        }
    }
}

/// A walk that got through `k` events got through fewer.
proof fn lemma_scan_failure_persists_back(events: Seq<Event>, j: nat, k: nat)
    requires
        j <= k,
        scan_events(events, k) is Some,
    ensures
        scan_events(events, j) is Some,
{
    if scan_events(events, j) is None {
        lemma_scan_failure_persists(events, j, k);
    }
}

/// Law: the months the walk finishes are cut where the calendar month changes from one event
/// to the next. Finished month `q` runs from `bounds[q]` up to `bounds[q + 1]`; it lists as
/// closed exactly the issues whose closing events fall in it, in event order (none closed in
/// an earlier month); as open, exactly the issues whose last event so far is their opening; and
/// its timestamp is the first event's time moved on by `q` calendar months.
pub proof fn lemma_month_contents(events: Seq<Event>) -> (bounds: Seq<int>)
    requires
        events.len() > 0,
        scan_events(events, events.len()) is Some,
    ensures
        ({
            let s = scan_events(events, events.len())->0;
            &&& month_bounds(events, bounds, events.len() as int)
            &&& bounds.len() == s.months.len() + 1
            &&& forall|q: int|
                0 <= q < s.months.len() ==> (#[trigger] s.months[q]).closed == closings_between(
                    events,
                    bounds[q],
                    bounds[q + 1],
                )
            &&& forall|q: int|
                0 <= q < s.months.len() ==> months_on(events[0].timestamp, q as nat) == Some(
                    (#[trigger] s.months[q]).timestamp,
                )
            &&& forall|q: int, n: u64|
                0 <= q < s.months.len() ==> (#[trigger] s.months[q].open.contains_key(n) <==> open_before(
                    events,
                    bounds[q + 1],
                    n,
                ))
        }),
{
    lemma_scan_shape(events, events.len())
}


/// Law: an issue falls into bucket `b` exactly when its age is under bucket `b`'s limit and
/// not under the limit of any later bucket; it falls into none when it is under no limit.
pub proof fn lemma_bucket_choice(age: int, ages: Seq<i64>, n: int)
    requires
        0 <= n <= ages.len(),
    ensures
        forall|b: int|
            bucket_index(age, ages, n) == Some(b) <==> 0 <= b < n && age < ages[b] && forall|c: int|
                b < c < n ==> !(age < #[trigger] ages[c]),
        bucket_index(age, ages, n) is None <==> forall|c: int| 0 <= c < n ==> !(age < #[trigger] ages[c]),
    decreases n,
{
    if n > 0 {
        lemma_bucket_choice(age, ages, n - 1);
    }
}

} // verus!
