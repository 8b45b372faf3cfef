use vstd::prelude::*;
use crate::collections::lemma_same_len;
use crate::model::{IssueTimes, Point};

verus! {


/// What happened to an issue at an event.
#[derive(Clone, Copy, Debug, PartialEq, Eq, Structural)]
pub enum StateChange {
    Open,
    Close,
}

/// An issue opening or closing at a point in time.
#[derive(Clone, Copy, Debug, PartialEq, Eq, Structural)]
pub struct Event {
    pub issue: IssueTimes,
    pub state_change: StateChange,
    pub timestamp: i64,
}

/// The events of one issue: its closing, if it was closed, and its opening.
pub open spec fn issue_events(t: IssueTimes) -> Seq<Event> {
    let open = Event { issue: t, state_change: StateChange::Open, timestamp: t.created_at };
    match t.closed_at {
        Some(c) => seq![Event { issue: t, state_change: StateChange::Close, timestamp: c }, open],
        None => seq![open],
    }
}

/// The events of all issues, issue by issue, before sorting.
pub open spec fn raw_events(issues: Seq<IssueTimes>) -> Seq<Event>
    decreases issues.len(),
{
    if issues.len() == 0 {
        Seq::empty()
    } else {
        raw_events(issues.drop_last()) + issue_events(issues.last())
    }
}

pub open spec fn sorted_by_time(events: Seq<Event>) -> bool {
    forall|i: int, j: int| 0 <= i <= j < events.len() ==> events[i].timestamp <= events[j].timestamp
}

/// `+1` for an opening, `-1` for a closing.
pub open spec fn delta(e: Event) -> int {
    match e.state_change {
        StateChange::Open => 1,
        StateChange::Close => -1,
    }
}

/// How many issues are open after the given events: openings minus closings.
pub open spec fn open_count(events: Seq<Event>) -> int
    decreases events.len(),
{
    if events.len() == 0 {
        0
    } else {
        open_count(events.drop_last()) + delta(events.last())
    }
}

/// The points of the open-issue curve: for each event, the count just before it and just
/// after it, both at the event's time.
pub open spec fn live_points(events: Seq<Event>) -> Seq<Point> {
    Seq::new(
        2 * events.len(),
        |k: int|
            Point {
                x: events[k / 2].timestamp,
                y: (if k % 2 == 0 {
                    open_count(events.take(k / 2))
                } else {
                    open_count(events.take(k / 2 + 1))
                }) as i64,
            },
    )
}

/// How many of the issues were never closed.
pub open spec fn unclosed_count(issues: Seq<IssueTimes>) -> int
    decreases issues.len(),
{
    if issues.len() == 0 {
        0
    } else {
        unclosed_count(issues.drop_last()) + (if issues.last().closed_at is None { 1int } else { 0 })
    }
}

/// `slice::sort_unstable_by_key` with the event's timestamp as the key. Per std's
/// documentation the slice ends up a permutation of what it was, ordered by the key;
/// the order of events with equal timestamps is left open, and so is it here.
#[verifier::external_body]
fn sort_events_by_timestamp(events: &mut Vec<Event>)
    ensures
        final(events)@.to_multiset() == old(events)@.to_multiset(),
        sorted_by_time(final(events)@),
{
    events.sort_unstable_by_key(|event| event.timestamp);
}

/// The opening and closing events of the issues, ordered by time.
pub fn generate_events(issues: &[IssueTimes]) -> (events: Vec<Event>)
    ensures
        events@.to_multiset() == raw_events(issues@).to_multiset(),
        sorted_by_time(events@),
{
    let mut events: Vec<Event> = Vec::new();
    let mut i: usize = 0;
    while i < issues.len()
        invariant
            i <= issues.len(),
            events@ == raw_events(issues@.take(i as int)),
        decreases issues.len() - i,
    {
        let issue = issues[i];
        if let Some(closed_at) = issue.closed_at {
            events.push(Event { issue, state_change: StateChange::Close, timestamp: closed_at });
        }
        events.push(Event { issue, state_change: StateChange::Open, timestamp: issue.created_at });
        assert(issues@.take(i + 1).drop_last() == issues@.take(i as int));
        i = i + 1;
    }
    assert(issues@.take(issues.len() as int) == issues@);
    sort_events_by_timestamp(&mut events);
    events
}


/// The open-issue curve of events taken in the given order.
pub fn live_points_of(events: &[Event]) -> (points: Vec<Point>)
    requires
        events@.len() < 0x4000_0000_0000_0000,
    ensures
        points@ == live_points(events@),
{
    let mut points: Vec<Point> = Vec::new();
    let mut open: i64 = 0;
    let mut i: usize = 0;
    while i < events.len()
        invariant
            i <= events@.len() < 0x4000_0000_0000_0000,
            points@.len() == 2 * i,
            open == open_count(events@.take(i as int)),
            -(i as int) <= open <= i,
            forall|k: int| 0 <= k < 2 * i ==> #[trigger] points@[k] == live_points(events@)[k],
        decreases events.len() - i,
    {
        let event = events[i];
        assert(events@.take(i + 1).drop_last() == events@.take(i as int));
        points.push(Point { x: event.timestamp, y: open });
        match event.state_change {
            StateChange::Open => open = open + 1,
            StateChange::Close => open = open - 1,
        }
        points.push(Point { x: event.timestamp, y: open });
        i = i + 1;
    }
    assert(points@ == live_points(events@));
    points
}

/// Removing one event from a sequence takes its delta out of the count.
proof fn lemma_open_count_remove(s: Seq<Event>, j: int)
    requires
        0 <= j < s.len(),
    ensures
        open_count(s) == open_count(s.remove(j)) + delta(s[j]),
    decreases s.len(),
{
    if j < s.len() - 1 {
        lemma_open_count_remove(s.drop_last(), j);
        assert(s.remove(j).drop_last() == s.drop_last().remove(j));
    } else {
        assert(s.remove(j) == s.drop_last());
    }
}

/// The count after a set of events does not depend on their order.
pub proof fn lemma_open_count_permutation(s: Seq<Event>, t: Seq<Event>)
    requires
        s.to_multiset() == t.to_multiset(),
    ensures
        open_count(s) == open_count(t),
    decreases s.len(),
{
    broadcast use vstd::seq_lib::group_to_multiset_ensures;
    if s.len() == 0 {
        assert(t.to_multiset().len() == 0);
        assert(t.len() == 0);
    } else {
        let x = s.last();
        assert(s.to_multiset().count(x) > 0) by {
            assert(s.drop_last().push(x) == s);
        }
        assert(t.contains(x));
        let j = choose|j: int| 0 <= j < t.len() && t[j] == x;
        lemma_open_count_remove(t, j);
        assert(s.drop_last().push(x) == s);
        assert(t.remove(j).to_multiset() == t.to_multiset().remove(x));
        assert(s.drop_last().to_multiset() == s.to_multiset().remove(x));
        lemma_open_count_permutation(s.drop_last(), t.remove(j));
    }
}

proof fn lemma_open_count_append(a: Seq<Event>, b: Seq<Event>)
    ensures
        open_count(a + b) == open_count(a) + open_count(b),
    decreases b.len(),
{
    if b.len() == 0 {
        assert(a + b == a);
    } else {
        lemma_open_count_append(a, b.drop_last());
        assert((a + b).drop_last() == a + b.drop_last());
    }
}

/// Law: once all events have happened, the open-issue count is the number of issues that
/// were never closed, whatever order the sort gave events with equal timestamps.
pub proof fn lemma_final_open_count(events: Seq<Event>, issues: Seq<IssueTimes>)
    requires
        events.to_multiset() == raw_events(issues).to_multiset(),
    ensures
        open_count(events) == unclosed_count(issues),
    decreases issues.len(),
{
    lemma_open_count_permutation(events, raw_events(issues));
    if issues.len() > 0 {
        let last = issues.last();
        lemma_final_open_count(raw_events(issues.drop_last()), issues.drop_last());
        lemma_open_count_append(raw_events(issues.drop_last()), issue_events(last));
        let ie = issue_events(last);
        reveal_with_fuel(open_count, 3);
        if ie.len() == 2 {
            assert(ie.drop_last().drop_last() == Seq::<Event>::empty());
            assert(open_count(ie.drop_last()) == -1);
            assert(open_count(ie) == 0);
        } else {
            assert(ie.drop_last() == Seq::<Event>::empty());
            assert(open_count(ie) == 1);
        }
    }
}

pub proof fn lemma_raw_events_nonempty(issues: Seq<IssueTimes>)
    requires
        issues.len() > 0,
    ensures
        raw_events(issues).len() > 0,
{
}

pub proof fn lemma_raw_events_len(issues: Seq<IssueTimes>)
    ensures
        raw_events(issues).len() <= 2 * issues.len(),
    decreases issues.len(),
{
    if issues.len() > 0 {
        lemma_raw_events_len(issues.drop_last());
    }
}

proof fn lemma_open_count_bound(s: Seq<Event>)
    ensures
        -s.len() <= open_count(s) <= s.len(),
    decreases s.len(),
{
    if s.len() > 0 {
        lemma_open_count_bound(s.drop_last());
    }
}

proof fn lemma_last_live_point(events: Seq<Event>)
    requires
        events.len() > 0,
        i64::MIN <= open_count(events) <= i64::MAX,
    ensures
        live_points(events).last().y == open_count(events),
{
    let n = events.len() as int;
    assert(events.take(n) == events);
}

/// How many of the issues are open at time `t`: those opened at or before it minus those
/// closed at or before it.
pub open spec fn net_open_by(issues: Seq<IssueTimes>, t: int) -> int
    decreases issues.len(),
{
    if issues.len() == 0 {
        0
    } else {
        let i = issues.last();
        net_open_by(issues.drop_last(), t) + (if i.created_at <= t { 1int } else { 0 }) - (if i.closed_at matches Some(c)
            && c <= t {
            1int
        } else {
            0
        })
    }
}

/// The count after those of the events that happen at or before time `t`.
pub open spec fn open_count_until(events: Seq<Event>, t: int) -> int
    decreases events.len(),
{
    if events.len() == 0 {
        0
    } else {
        open_count_until(events.drop_last(), t) + (if events.last().timestamp <= t {
            delta(events.last())
        } else {
            0
        })
    }
}

proof fn lemma_until_remove(s: Seq<Event>, j: int, t: int)
    requires
        0 <= j < s.len(),
    ensures
        open_count_until(s, t) == open_count_until(s.remove(j), t) + (if s[j].timestamp <= t {
            delta(s[j])
        } else {
            0
        }),
    decreases s.len(),
{
    if j < s.len() - 1 {
        lemma_until_remove(s.drop_last(), j, t);
        assert(s.remove(j).drop_last() == s.drop_last().remove(j));
    } else {
        assert(s.remove(j) == s.drop_last());
    }
}

proof fn lemma_until_permutation(s: Seq<Event>, u: Seq<Event>, t: int)
    requires
        s.to_multiset() == u.to_multiset(),
    ensures
        open_count_until(s, t) == open_count_until(u, t),
    decreases s.len(),
{
    broadcast use vstd::seq_lib::group_to_multiset_ensures;
    if s.len() == 0 {
        assert(u.to_multiset().len() == 0);
        assert(u.len() == 0);
    } else {
        let x = s.last();
        assert(s.to_multiset().count(x) > 0) by {
            assert(s.drop_last().push(x) == s);
        }
        assert(u.contains(x));
        let j = choose|j: int| 0 <= j < u.len() && u[j] == x;
        lemma_until_remove(u, j, t);
        assert(s.drop_last().push(x) == s);
        assert(u.remove(j).to_multiset() == u.to_multiset().remove(x));
        assert(s.drop_last().to_multiset() == s.to_multiset().remove(x));
        lemma_until_permutation(s.drop_last(), u.remove(j), t);
    }
}

proof fn lemma_until_append(a: Seq<Event>, b: Seq<Event>, t: int)
    ensures
        open_count_until(a + b, t) == open_count_until(a, t) + open_count_until(b, t),
    decreases b.len(),
{
    if b.len() == 0 {
        assert(a + b == a);
    } else {
        lemma_until_append(a, b.drop_last(), t);
        assert((a + b).drop_last() == a + b.drop_last());
    }
}

/// Counting the issues' own events up to `t` gives the issues open at `t`.
proof fn lemma_until_raw(issues: Seq<IssueTimes>, t: int)
    ensures
        open_count_until(raw_events(issues), t) == net_open_by(issues, t),
    decreases issues.len(),
{
    if issues.len() > 0 {
        let last = issues.last();
        lemma_until_raw(issues.drop_last(), t);
        lemma_until_append(raw_events(issues.drop_last()), issue_events(last), t);
        let ie = issue_events(last);
        reveal_with_fuel(open_count_until, 3);
        if ie.len() == 2 {
            assert(ie.drop_last().drop_last() == Seq::<Event>::empty());
        } else {
            assert(ie.drop_last() == Seq::<Event>::empty());
        }
    }
}

/// When exactly the first `p` events happen at or before `t`, counting up to `t` is counting
/// those `p` events.
proof fn lemma_until_prefix(s: Seq<Event>, t: int, p: int)
    requires
        0 <= p <= s.len(),
        forall|i: int| 0 <= i < p ==> (#[trigger] s[i]).timestamp <= t,
        forall|i: int| p <= i < s.len() ==> (#[trigger] s[i]).timestamp > t,
    ensures
        open_count_until(s, t) == open_count(s.take(p)),
    decreases s.len(),
{
    if s.len() > 0 {
        let n = s.len() - 1;
        if p == s.len() {
            assert(s[n].timestamp <= t);
            lemma_until_prefix(s.drop_last(), t, p - 1);
            assert(s.take(p).drop_last() == s.drop_last().take(p - 1));
            assert(s.take(p).last() == s[n]);
        } else {
            assert(s[n].timestamp > t);
            lemma_until_prefix(s.drop_last(), t, p);
            assert(s.drop_last().take(p) == s.take(p));
        }
    }
}

/// Law: wherever the time moves on between two points of the open-issue curve, and at both
/// ends, the curve shows how many issues were opened minus how many were closed by then,
/// whatever order events at the same time took. Just after the last event of a time it is
/// the count at that time; just before the first event of a time, the count a second earlier.
pub proof fn lemma_live_curve_counts(issues: Seq<IssueTimes>, points: Seq<Point>, k: int)
    requires
        issues.len() < 0x1000_0000_0000_0000,
        live_issues_result(issues, points),
        0 <= k < points.len(),
    ensures
        k % 2 == 1 && (k + 1 == points.len() || points[k].x < points[k + 1].x) ==> points[k].y
            == net_open_by(issues, points[k].x as int),
        k % 2 == 0 && (k == 0 || points[k - 1].x < points[k].x) ==> points[k].y == net_open_by(
            issues,
            points[k].x - 1,
        ),
{
    let events = choose|events: Seq<Event>|
        events.to_multiset() == raw_events(issues).to_multiset() && sorted_by_time(events) && points
            == live_points(events);
    lemma_same_len(events, raw_events(issues));
    lemma_raw_events_len(issues);
    let n = events.len();
    let m = k / 2;
    assert(points[k] == live_points(events)[k]);
    if k % 2 == 1 && (k + 1 == points.len() || points[k].x < points[k + 1].x) {
        let t = events[m].timestamp as int;
        if k + 1 < points.len() {
            assert(points[k + 1] == live_points(events)[k + 1]);
            assert((k + 1) / 2 == m + 1);
        }
        assert forall|i: int| m + 1 <= i < n implies (#[trigger] events[i]).timestamp > t by {
            assert(events[m + 1].timestamp <= events[i].timestamp);
        }
        lemma_until_prefix(events, t, m + 1);
        lemma_until_permutation(events, raw_events(issues), t);
        lemma_until_raw(issues, t);
        lemma_open_count_bound(events.take(m + 1));
    }
    if k % 2 == 0 && (k == 0 || points[k - 1].x < points[k].x) {
        let t = events[m].timestamp - 1;
        if k > 0 {
            assert(points[k - 1] == live_points(events)[k - 1]);
            assert((k - 1) / 2 == m - 1);
        }
        assert forall|i: int| 0 <= i < m implies (#[trigger] events[i]).timestamp <= t by {
            assert(events[i].timestamp <= events[m - 1].timestamp);
        }
        lemma_until_prefix(events, t, m);
        lemma_until_permutation(events, raw_events(issues), t);
        lemma_until_raw(issues, t);
        lemma_open_count_bound(events.take(m));
    }
}

/// What `live_issues` returns: the open-issue curve of the issues' events in time order, where
/// events at the same time may come in any order.
pub open spec fn live_issues_result(issues: Seq<IssueTimes>, points: Seq<Point>) -> bool {
    exists|events: Seq<Event>|
        events.to_multiset() == raw_events(issues).to_multiset() && sorted_by_time(events)
            && points == live_points(events)
}

/// The number of open issues over time: for each event in time order, a point with the count
/// before it and one with the count after it.
pub fn live_issues(issues: &[IssueTimes]) -> (points: Vec<Point>)
    requires
        issues@.len() < 0x1000_0000_0000_0000,
    ensures
        live_issues_result(issues@, points@),
        points@.len() == 2 * raw_events(issues@).len(),
        points@.len() > 0 ==> points@.last().y == unclosed_count(issues@),
{
    let events = generate_events(issues);
    proof {
        lemma_same_len(events@, raw_events(issues@));
        lemma_raw_events_len(issues@);
        lemma_final_open_count(events@, issues@);
    }
    let points = live_points_of(events.as_slice());
    proof {
        if events@.len() > 0 {
            lemma_open_count_bound(events@);
            lemma_last_live_point(events@);
        }
    }
    points
}


/// Law: the open-issue curve is a step curve that starts at zero, never goes back in time,
/// and moves by exactly one at each event: each event gives two points at its time, the
/// second one more or one less than the first, and the next event starts where it ended.
pub proof fn lemma_live_curve_steps(issues: Seq<IssueTimes>, points: Seq<Point>)
    requires
        issues.len() < 0x1000_0000_0000_0000,
        live_issues_result(issues, points),
    ensures
        points.len() % 2 == 0,
        points.len() > 0 ==> points[0].y == 0,
        forall|k: int| 0 <= k < points.len() - 1 ==> #[trigger] points[k].x <= points[k + 1].x,
        forall|m: int|
            0 <= m < points.len() / 2 ==> points[2 * m].x == points[2 * m + 1].x && (#[trigger] points[2 * m
                + 1].y == points[2 * m].y + 1 || points[2 * m + 1].y == points[2 * m].y - 1),
        forall|m: int| 0 < m < points.len() / 2 ==> #[trigger] points[2 * m].y == points[2 * m - 1].y,
{
    let events = choose|events: Seq<Event>|
        events.to_multiset() == raw_events(issues).to_multiset() && sorted_by_time(events) && points
            == live_points(events);
    lemma_same_len(events, raw_events(issues));
    lemma_raw_events_len(issues);
    let n = events.len();
    if n > 0 {
        assert(points[0] == live_points(events)[0]);
        assert(events.take(0) == Seq::<Event>::empty());
    }
    assert forall|k: int| 0 <= k < points.len() - 1 implies #[trigger] points[k].x <= points[k + 1].x by {
        assert(points[k] == live_points(events)[k]);
        assert(points[k + 1] == live_points(events)[k + 1]);
        assert(k / 2 <= (k + 1) / 2);
    }
    assert forall|m: int| 0 <= m < points.len() / 2 implies points[2 * m].x == points[2 * m + 1].x && (
    #[trigger] points[2 * m + 1].y == points[2 * m].y + 1 || points[2 * m + 1].y == points[2 * m].y - 1) by {
        assert(points[2 * m] == live_points(events)[2 * m]);
        assert(points[2 * m + 1] == live_points(events)[2 * m + 1]);
        assert((2 * m) / 2 == m && (2 * m) % 2 == 0);
        assert((2 * m + 1) / 2 == m && (2 * m + 1) % 2 == 1);
        assert(events.take(m + 1).drop_last() == events.take(m));
        lemma_open_count_bound(events.take(m + 1));
        lemma_open_count_bound(events.take(m));
    }
    assert forall|m: int| 0 < m < points.len() / 2 implies #[trigger] points[2 * m].y == points[2 * m - 1].y by {
        assert(points[2 * m] == live_points(events)[2 * m]);
        assert(points[2 * m - 1] == live_points(events)[2 * m - 1]);
        assert((2 * m) / 2 == m && (2 * m) % 2 == 0);
        assert((2 * m - 1) / 2 == m - 1 && (2 * m - 1) % 2 == 1);
    }
}


/// Event `e` is one of the events of issue `t`: its opening at its creation, or its closing at
/// its closing time.
pub open spec fn event_of(e: Event, t: IssueTimes) -> bool {
    &&& e.issue == t
    &&& match e.state_change {
        StateChange::Open => e.timestamp == t.created_at,
        StateChange::Close => t.closed_at == Some(e.timestamp),
    }
}

/// The opening event of an issue.
pub open spec fn opening(t: IssueTimes) -> Event {
    Event { issue: t, state_change: StateChange::Open, timestamp: t.created_at }
}

/// No two of the issues share a number.
pub open spec fn distinct_numbers(issues: Seq<IssueTimes>) -> bool {
    forall|i: int, j: int| 0 <= i < j < issues.len() ==> (#[trigger] issues[i]).number != (#[trigger] issues[j]).number
}

/// Every event of the issues belongs to one of them.
pub proof fn lemma_raw_events_member(issues: Seq<IssueTimes>, k: int)
    requires
        0 <= k < raw_events(issues).len(),
    ensures
        exists|idx: int| 0 <= idx < issues.len() && event_of(raw_events(issues)[k], #[trigger] issues[idx]),
    decreases issues.len(),
{
    let dl = issues.drop_last();
    let last = issues.len() - 1;
    if k < raw_events(dl).len() {
        lemma_raw_events_member(dl, k);
        let idx = choose|idx: int| 0 <= idx < dl.len() && event_of(raw_events(dl)[k], #[trigger] dl[idx]);
        assert(raw_events(issues)[k] == raw_events(dl)[k]);
        assert(dl[idx] == issues[idx]);
    } else {
        assert(raw_events(issues)[k] == issue_events(issues[last])[k - raw_events(dl).len()]);
        assert(event_of(raw_events(issues)[k], issues[last]));
    }
}

/// The events of the issues include each issue's opening.
pub proof fn lemma_raw_events_has_opening(issues: Seq<IssueTimes>, idx: int)
    requires
        0 <= idx < issues.len(),
    ensures
        raw_events(issues).contains(opening(issues[idx])),
    decreases issues.len(),
{
    let dl = issues.drop_last();
    if idx < issues.len() - 1 {
        lemma_raw_events_has_opening(dl, idx);
        assert(dl[idx] == issues[idx]);
        let p = choose|p: int| 0 <= p < raw_events(dl).len() && raw_events(dl)[p] == opening(issues[idx]);
        assert(raw_events(issues)[p] == raw_events(dl)[p]);
    } else {
        let ie = issue_events(issues[idx]);
        let p = raw_events(dl).len() + ie.len() - 1;
        assert(raw_events(issues)[p] == ie[ie.len() - 1]);
    }
}

/// Issues with distinct numbers have no event twice.
pub proof fn lemma_raw_events_no_duplicates(issues: Seq<IssueTimes>)
    requires
        distinct_numbers(issues),
    ensures
        raw_events(issues).no_duplicates(),
    decreases issues.len(),
{
    if issues.len() > 0 {
        let dl = issues.drop_last();
        let last = issues.last();
        assert(distinct_numbers(dl)) by {
            assert forall|i: int, j: int| 0 <= i < j < dl.len() implies (#[trigger] dl[i]).number != (#[trigger] dl[j]).number by {
                assert(dl[i] == issues[i] && dl[j] == issues[j]);
            }
        }
        lemma_raw_events_no_duplicates(dl);
        let a = raw_events(dl);
        let b = issue_events(last);
        assert forall|i: int, j: int| 0 <= i < a.len() && 0 <= j < b.len() implies a[i] != b[j] by {
            lemma_raw_events_member(dl, i);
            let idx = choose|idx: int| 0 <= idx < dl.len() && event_of(a[i], #[trigger] dl[idx]);
            assert(dl[idx] == issues[idx]);
            assert(issues[idx].number != issues[issues.len() - 1].number);
        }
        vstd::seq_lib::lemma_no_dup_in_concat(a, b);
    }
}

} // verus!
