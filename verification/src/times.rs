use vstd::prelude::*;
use crate::collections::lemma_same_len;
use crate::model::{IssueTimes, Point, StateChangeKind};
use vstd::relations::{sorted_by, total_ordering};

verus! {

pub open spec fn sorted_times(s: Seq<i64>) -> bool {
    forall|i: int, j: int| 0 <= i <= j < s.len() ==> s[i] <= s[j]
}

/// The timestamps of the issues' events of one kind, issue by issue: every issue was opened,
/// only the closed ones were closed.
pub open spec fn event_times(issues: Seq<IssueTimes>, kind: StateChangeKind) -> Seq<i64>
    decreases issues.len(),
{
    if issues.len() == 0 {
        Seq::empty()
    } else {
        let t = issues.last();
        event_times(issues.drop_last(), kind) + (if t.has_event(kind) {
            seq![t.event_time(kind)]
        } else {
            Seq::empty()
        })
    }
}

/// `slice::sort_unstable` on timestamps. Per std's documentation the slice ends up a
/// permutation of what it was, in ascending order.
#[verifier::external_body]
fn sort_timestamps(times: &mut Vec<i64>)
    ensures
        final(times)@.to_multiset() == old(times)@.to_multiset(),
        sorted_times(final(times)@),
{
    times.sort_unstable();
}

/// The timestamps of the issues' events of one kind, in ascending order.
pub fn sorted_event_times(issues: &[IssueTimes], kind: StateChangeKind) -> (times: Vec<i64>)
    ensures
        times@.to_multiset() == event_times(issues@, kind).to_multiset(),
        sorted_times(times@),
{
    let mut times: Vec<i64> = Vec::new();
    let mut i: usize = 0;
    while i < issues.len()
        invariant
            i <= issues.len(),
            times@ == event_times(issues@.take(i as int), kind),
        decreases issues.len() - i,
    {
        let issue = issues[i];
        assert(issues@.take(i + 1).drop_last() == issues@.take(i as int));
        match kind {
            StateChangeKind::Open => times.push(issue.created_at),
            StateChangeKind::Close => {
                if let Some(closed_at) = issue.closed_at {
                    times.push(closed_at);
                }
            },
        }
        i = i + 1;
    }
    assert(issues@.take(issues.len() as int) == issues@);
    sort_timestamps(&mut times);
    times
}

/// The closed-issue curve of closing times taken in the given order: for each closing, the
/// count before it and the count after it, both at its time.
pub open spec fn closed_points(times: Seq<i64>) -> Seq<Point> {
    Seq::new(
        2 * times.len(),
        |k: int| Point { x: times[k / 2], y: (k / 2 + k % 2) as i64 },
    )
}

/// What `closed_issues` returns: the closed-issue curve of the closing times in ascending order.
pub open spec fn closed_issues_result(issues: Seq<IssueTimes>, points: Seq<Point>) -> bool {
    exists|times: Seq<i64>|
        times.to_multiset() == event_times(issues, StateChangeKind::Close).to_multiset()
            && sorted_times(times) && points == closed_points(times)
}

/// The number of closed issues over time: for each closing in time order, a point with the
/// count before it and one with the count after it.
pub fn closed_issues(issues: &[IssueTimes]) -> (points: Vec<Point>)
    requires
        issues@.len() < 0x1000_0000_0000_0000,
    ensures
        closed_issues_result(issues@, points@),
        points@.len() == 2 * event_times(issues@, StateChangeKind::Close).len(),
        points@.len() > 0 ==> points@.last().y == event_times(issues@, StateChangeKind::Close).len(),
{
    let times = sorted_event_times(issues, StateChangeKind::Close);
    proof {
        lemma_same_len(times@, event_times(issues@, StateChangeKind::Close));
        lemma_event_times_len(issues@, StateChangeKind::Close);
    }
    let mut points: Vec<Point> = Vec::new();
    let mut closed: i64 = 0;
    let mut i: usize = 0;
    while i < times.len()
        invariant
            i <= times@.len() < 0x2000_0000_0000_0000,
            closed == i,
            points@.len() == 2 * i,
            forall|k: int| 0 <= k < 2 * i ==> #[trigger] points@[k] == closed_points(times@)[k],
        decreases times.len() - i,
    {
        let closed_at = times[i];
        points.push(Point { x: closed_at, y: closed });
        closed = closed + 1;
        points.push(Point { x: closed_at, y: closed });
        i = i + 1;
    }
    assert(points@ == closed_points(times@));
    proof {
        if points@.len() > 0 {
            let k = points@.len() - 1;
            assert(points@[k] == closed_points(times@)[k]);
            assert(k / 2 + k % 2 == times@.len());
        }
    }
    points
}

pub proof fn lemma_event_times_len(issues: Seq<IssueTimes>, kind: StateChangeKind)
    ensures
        event_times(issues, kind).len() <= issues.len(),
    decreases issues.len(),
{
    if issues.len() > 0 {
        lemma_event_times_len(issues.drop_last(), kind);
    }
}


/// The event time of one issue, if it has one of that kind.
pub open spec fn issue_event_time(t: IssueTimes, kind: StateChangeKind) -> Seq<i64> {
    if t.has_event(kind) {
        seq![t.event_time(kind)]
    } else {
        Seq::empty()
    }
}

proof fn lemma_event_times_remove(s: Seq<IssueTimes>, j: int, kind: StateChangeKind)
    requires
        0 <= j < s.len(),
    ensures
        event_times(s, kind).to_multiset() == event_times(s.remove(j), kind).to_multiset().add(
            issue_event_time(s[j], kind).to_multiset(),
        ),
    decreases s.len(),
{
    broadcast use vstd::seq_lib::lemma_multiset_commutative;
    broadcast use vstd::multiset::group_multiset_axioms;
    let last = s.last();
    assert(event_times(s, kind) == event_times(s.drop_last(), kind) + issue_event_time(last, kind));
    if j == s.len() - 1 {
        assert(s.remove(j) == s.drop_last());
    } else {
        lemma_event_times_remove(s.drop_last(), j, kind);
        assert(s.remove(j).drop_last() == s.drop_last().remove(j));
        assert(s.remove(j).last() == last);
        assert(event_times(s.remove(j), kind) == event_times(s.drop_last().remove(j), kind)
            + issue_event_time(last, kind));
        let a = event_times(s.drop_last().remove(j), kind).to_multiset();
        let b = issue_event_time(s[j], kind).to_multiset();
        let c = issue_event_time(last, kind).to_multiset();
        assert(a.add(b).add(c) =~= a.add(c).add(b));
    }
}

/// Law: the event times of a list of issues do not depend on the order of the issues.
pub proof fn lemma_event_times_permutation(a: Seq<IssueTimes>, b: Seq<IssueTimes>, kind: StateChangeKind)
    requires
        a.to_multiset() == b.to_multiset(),
    ensures
        event_times(a, kind).to_multiset() == event_times(b, kind).to_multiset(),
    decreases a.len(),
{
    broadcast use vstd::seq_lib::group_to_multiset_ensures;
    broadcast use vstd::seq_lib::lemma_multiset_commutative;
    if a.len() == 0 {
        assert(b.to_multiset().len() == 0);
        assert(b.len() == 0);
        assert(a == b);
    } else {
        let x = a.last();
        assert(a.drop_last().push(x) == a);
        assert(a.to_multiset().count(x) > 0);
        assert(b.contains(x));
        let j = choose|j: int| 0 <= j < b.len() && b[j] == x;
        lemma_event_times_remove(b, j, kind);
        assert(b.remove(j).to_multiset() == b.to_multiset().remove(x));
        assert(a.drop_last().to_multiset() == a.to_multiset().remove(x));
        lemma_event_times_permutation(a.drop_last(), b.remove(j), kind);
        assert(event_times(a, kind) == event_times(a.drop_last(), kind) + issue_event_time(x, kind));
    }
}

/// Two ascending orderings of the same timestamps are the same sequence.
pub proof fn lemma_sorted_times_unique(a: Seq<i64>, b: Seq<i64>)
    requires
        sorted_times(a),
        sorted_times(b),
        a.to_multiset() == b.to_multiset(),
    ensures
        a == b,
{
    let leq = |x: i64, y: i64| x <= y;
    assert(sorted_by(a, leq));
    assert(sorted_by(b, leq));
    assert(total_ordering(leq));
    vstd::seq_lib::lemma_sorted_unique(a, b, leq);
}

/// Law: the closed-issue curve depends on the closing times alone, however the issues and
/// equal closing times are ordered: issues closed at the same times give the same curve.
pub proof fn lemma_closed_curve_determined(a: Seq<IssueTimes>, b: Seq<IssueTimes>, p: Seq<Point>, q: Seq<Point>)
    requires
        closed_issues_result(a, p),
        closed_issues_result(b, q),
        event_times(a, StateChangeKind::Close).to_multiset() == event_times(b, StateChangeKind::Close).to_multiset(),
    ensures
        p == q,
{
    let ta = choose|times: Seq<i64>|
        times.to_multiset() == event_times(a, StateChangeKind::Close).to_multiset() && sorted_times(times)
            && p == closed_points(times);
    let tb = choose|times: Seq<i64>|
        times.to_multiset() == event_times(b, StateChangeKind::Close).to_multiset() && sorted_times(times)
            && q == closed_points(times);
    lemma_sorted_times_unique(ta, tb);
}


/// Law: the closed-issue curve is a step curve that starts at zero, never goes back in time,
/// and climbs by exactly one at each closing: each closing gives two points at its time, the
/// second one more than the first, and the next closing starts where it ended.
pub proof fn lemma_closed_curve_steps(issues: Seq<IssueTimes>, points: Seq<Point>)
    requires
        issues.len() < 0x1000_0000_0000_0000,
        closed_issues_result(issues, points),
    ensures
        points.len() % 2 == 0,
        points.len() > 0 ==> points[0].y == 0,
        forall|k: int| 0 <= k < points.len() - 1 ==> #[trigger] points[k].x <= points[k + 1].x,
        forall|m: int|
            0 <= m < points.len() / 2 ==> points[2 * m].x == points[2 * m + 1].x && #[trigger] points[2 * m
                + 1].y == points[2 * m].y + 1,
        forall|m: int| 0 < m < points.len() / 2 ==> #[trigger] points[2 * m].y == points[2 * m - 1].y,
{
    let times = choose|times: Seq<i64>|
        times.to_multiset() == event_times(issues, StateChangeKind::Close).to_multiset() && sorted_times(times)
            && points == closed_points(times);
    lemma_same_len(times, event_times(issues, StateChangeKind::Close));
    lemma_event_times_len(issues, StateChangeKind::Close);
    if times.len() > 0 {
        assert(points[0] == closed_points(times)[0]);
    }
    assert forall|k: int| 0 <= k < points.len() - 1 implies #[trigger] points[k].x <= points[k + 1].x by {
        assert(points[k] == closed_points(times)[k]);
        assert(points[k + 1] == closed_points(times)[k + 1]);
        assert(k / 2 <= (k + 1) / 2);
    }
    assert forall|m: int| 0 <= m < points.len() / 2 implies points[2 * m].x == points[2 * m + 1].x
        && #[trigger] points[2 * m + 1].y == points[2 * m].y + 1 by {
        assert(points[2 * m] == closed_points(times)[2 * m]);
        assert(points[2 * m + 1] == closed_points(times)[2 * m + 1]);
        assert((2 * m) / 2 == m && (2 * m) % 2 == 0);
        assert((2 * m + 1) / 2 == m && (2 * m + 1) % 2 == 1);
    }
    assert forall|m: int| 0 < m < points.len() / 2 implies #[trigger] points[2 * m].y == points[2 * m - 1].y by {
        assert(points[2 * m] == closed_points(times)[2 * m]);
        assert(points[2 * m - 1] == closed_points(times)[2 * m - 1]);
        assert((2 * m) / 2 == m && (2 * m) % 2 == 0);
        assert((2 * m - 1) / 2 == m - 1 && (2 * m - 1) % 2 == 1);
    }
}


/// The issues that were closed, in their order.
pub open spec fn closed_only(issues: Seq<IssueTimes>) -> Seq<IssueTimes>
    decreases issues.len(),
{
    if issues.len() == 0 {
        Seq::empty()
    } else {
        closed_only(issues.drop_last()) + (if issues.last().closed_at is Some {
            seq![issues.last()]
        } else {
            Seq::empty()
        })
    }
}

/// Dropping the issues that were never closed leaves the closing times as they were.
pub proof fn lemma_closing_times_of_closed(issues: Seq<IssueTimes>)
    ensures
        event_times(closed_only(issues), StateChangeKind::Close) == event_times(issues, StateChangeKind::Close),
    decreases issues.len(),
{
    if issues.len() > 0 {
        let last = issues.last();
        lemma_closing_times_of_closed(issues.drop_last());
        let c = closed_only(issues.drop_last());
        if last.closed_at is Some {
            assert(closed_only(issues) == c.push(last));
            assert(c.push(last).drop_last() == c);
        } else {
            assert(closed_only(issues) == c);
        }
    }
}

/// Law: the closed-issue curve is the same whether the never-closed issues are left in or
/// dropped, and whatever order the remaining issues come in.
pub proof fn lemma_closed_curve_of_closed_issues(a: Seq<IssueTimes>, b: Seq<IssueTimes>, p: Seq<Point>, q: Seq<Point>)
    requires
        closed_issues_result(a, p),
        closed_issues_result(b, q),
        b.to_multiset() == closed_only(a).to_multiset(),
    ensures
        p == q,
{
    lemma_event_times_permutation(b, closed_only(a), StateChangeKind::Close);
    lemma_closing_times_of_closed(a);
    lemma_closed_curve_determined(a, b, p, q);
}

} // verus!
