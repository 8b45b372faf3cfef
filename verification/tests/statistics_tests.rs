use github_graph::bars::{points_to_stacked_bars, Bar, Fraction, Stacked};
use github_graph::events::{generate_events, live_issues, live_points_of, Event, StateChange};
use github_graph::model::{IssueTimes, Point, StateChangeKind};
use github_graph::months::{issues_associated_with_month, months_of_events, points_per_month_of_issues, MonthOfIssues};
use github_graph::rolling::closed_issues_per_month;
use github_graph::times::{closed_issues, sorted_event_times};

const DAY: i64 = 86400;
const JAN_5_2024: i64 = 1704412800;
const JAN_10_2024: i64 = 1704844800;
const JAN_20_2024: i64 = 1705708800;
const FEB_3_2024: i64 = 1706918400;
const FEB_5_2024: i64 = 1707091200;

fn times(number: u64, created_at: i64, closed_at: Option<i64>) -> IssueTimes {
    IssueTimes { number, created_at, closed_at }
}

fn p(x: i64, y: i64) -> Point {
    Point { x, y }
}

#[test]
fn generate_events_sorts_openings_and_closings_by_time() {
    let issues = vec![times(1, 100, Some(300)), times(2, 200, None)];
    let events = generate_events(&issues);
    assert_eq!(events.len(), 3);
    let stamps: Vec<i64> = events.iter().map(|e| e.timestamp).collect();
    assert_eq!(stamps, vec![100, 200, 300]);
    assert_eq!(events[0].state_change, StateChange::Open);
    assert_eq!(events[0].issue.number, 1);
    assert_eq!(events[2].state_change, StateChange::Close);
    assert_eq!(events[2].issue.number, 1);
}

#[test]
fn live_issues_counts_before_and_after_each_event() {
    let issues = vec![times(1, 100, Some(300)), times(2, 200, None)];
    let points = live_issues(&issues);
    assert_eq!(points, vec![p(100, 0), p(100, 1), p(200, 1), p(200, 2), p(300, 2), p(300, 1)]);
}

#[test]
fn live_issues_ends_with_the_number_of_unclosed_issues() {
    let issues = vec![
        times(1, 10, Some(50)),
        times(2, 20, None),
        times(3, 30, Some(40)),
        times(4, 35, None),
        times(5, 60, Some(70)),
    ];
    let points = live_issues(&issues);
    assert_eq!(points.len(), 2 * 8);
    assert_eq!(points.last().unwrap().y, 2);
}

#[test]
fn live_issues_of_nothing_is_empty() {
    assert!(live_issues(&[]).is_empty());
}

#[test]
fn live_points_follow_the_given_order() {
    let a = times(1, 5, Some(5));
    let events = vec![
        Event { issue: a, state_change: StateChange::Close, timestamp: 5 },
        Event { issue: a, state_change: StateChange::Open, timestamp: 5 },
    ];
    assert_eq!(live_points_of(&events), vec![p(5, 0), p(5, -1), p(5, -1), p(5, 0)]);
}

#[test]
fn closed_issues_counts_closings_in_time_order() {
    let issues = vec![times(1, 0, Some(300)), times(2, 0, None), times(3, 0, Some(150))];
    assert_eq!(closed_issues(&issues), vec![p(150, 0), p(150, 1), p(300, 1), p(300, 2)]);
}

#[test]
fn sorted_event_times_picks_the_kind() {
    let issues = vec![times(1, 30, Some(90)), times(2, 10, None), times(3, 20, Some(40))];
    assert_eq!(sorted_event_times(&issues, StateChangeKind::Open), vec![10, 20, 30]);
    assert_eq!(sorted_event_times(&issues, StateChangeKind::Close), vec![40, 90]);
}

#[test]
fn rolling_window_counts_the_last_thirty_one_days() {
    let issues = vec![times(1, 0, None), times(2, DAY + 5, None), times(3, 40 * DAY + 100, None)];
    let points = closed_issues_per_month(&issues, StateChangeKind::Open);
    assert_eq!(points.len(), 41);
    for (k, point) in points.iter().enumerate() {
        let k = k as i64;
        assert_eq!(point.x, (k - 15) * DAY);
        let expected = [0i64, 1, 40].iter().filter(|&&d| k - 30 <= d && d <= k).count() as i64;
        assert_eq!(point.y, expected, "day {}", k);
    }
    assert_eq!(points[0].y, 1);
    assert_eq!(points[1].y, 2);
    assert_eq!(points[30].y, 2);
    assert_eq!(points[31].y, 1);
    assert_eq!(points[32].y, 0);
    assert_eq!(points[40].y, 1);
}

#[test]
fn rolling_window_uses_utc_days_before_the_epoch() {
    let issues = vec![times(1, -1, Some(-1)), times(2, 0, Some(1))];
    let points = closed_issues_per_month(&issues, StateChangeKind::Close);
    assert_eq!(points, vec![p(-16 * DAY, 1), p(-15 * DAY, 2)]);
}

fn frac(numerator: i64, denominator: i64) -> Fraction {
    Fraction { numerator, denominator }
}

#[test]
fn stacked_bars_share_a_common_day() {
    let top = [p(0, 1)];
    let bottom = [p(0, 3)];
    let result = points_to_stacked_bars(Stacked { top: &top, bottom: &bottom }, DAY, true);
    assert_eq!(
        result.bars.top,
        vec![Bar { x: 0, width: DAY, height: frac(1, 4), base_offset: Some(frac(3, 4)) }]
    );
    assert_eq!(result.bars.bottom, vec![Bar { x: 0, width: DAY, height: frac(3, 4), base_offset: None }]);
    assert_eq!(result.diff, vec![p(0, 2)]);
}

#[test]
fn stacked_bars_of_lone_points_are_full_when_normalised() {
    let top = [p(0, 5), p(20, 2)];
    let bottom = [p(10, 7)];
    let result = points_to_stacked_bars(Stacked { top: &top, bottom: &bottom }, 3, true);
    assert_eq!(
        result.bars.top,
        vec![
            Bar { x: 0, width: 3, height: frac(1, 1), base_offset: None },
            Bar { x: 20, width: 3, height: frac(1, 1), base_offset: None },
        ]
    );
    assert_eq!(result.bars.bottom, vec![Bar { x: 10, width: 3, height: frac(1, 1), base_offset: None }]);
    assert_eq!(result.diff, vec![p(0, -5), p(10, 7), p(20, -2)]);
}

#[test]
fn stacked_bars_keep_counts_without_normalising() {
    let top = [p(0, 0), p(1, 4)];
    let bottom = [p(0, 0), p(2, 6)];
    let result = points_to_stacked_bars(Stacked { top: &top, bottom: &bottom }, 1, false);
    assert_eq!(
        result.bars.top,
        vec![
            Bar { x: 0, width: 1, height: frac(0, 1), base_offset: Some(frac(0, 1)) },
            Bar { x: 1, width: 1, height: frac(4, 1), base_offset: None },
        ]
    );
    assert_eq!(
        result.bars.bottom,
        vec![
            Bar { x: 0, width: 1, height: frac(0, 1), base_offset: None },
            Bar { x: 2, width: 1, height: frac(6, 1), base_offset: None },
        ]
    );
    assert_eq!(result.diff, vec![p(0, 0), p(1, -4), p(2, 6)]);
}

#[test]
fn stacked_bars_with_a_zero_total_stay_unnormalised() {
    let top = [p(0, 0)];
    let bottom = [p(0, 0)];
    let result = points_to_stacked_bars(Stacked { top: &top, bottom: &bottom }, 1, true);
    assert_eq!(result.bars.top[0].height, frac(0, 1));
    assert_eq!(result.bars.bottom[0].height, frac(0, 1));
}

#[test]
fn months_list_closed_and_still_open_issues() {
    let a = times(1, JAN_5_2024, Some(JAN_20_2024));
    let b = times(2, JAN_10_2024, None);
    let c = times(3, FEB_3_2024, None);
    let months = issues_associated_with_month(&[a, b, c]).unwrap();
    assert_eq!(months.len(), 1);
    assert_eq!(months[0].timestamp, JAN_5_2024);
    assert_eq!(months[0].issues, vec![a, b]);
}

#[test]
fn months_advance_one_calendar_month_per_change() {
    let a = times(1, JAN_5_2024, None);
    let c = times(3, FEB_3_2024, None);
    let d = times(4, 1711843200, None);
    let months = issues_associated_with_month(&[a, c, d]).unwrap();
    assert_eq!(months.len(), 2);
    assert_eq!(months[0].timestamp, JAN_5_2024);
    assert_eq!(months[1].timestamp, FEB_5_2024);
    assert_eq!(months[1].issues.len(), 2);
}

#[test]
fn months_fail_on_a_closing_without_opening() {
    let a = times(1, JAN_20_2024, Some(JAN_5_2024));
    assert!(issues_associated_with_month(&[a]).is_none());
}

#[test]
fn months_fail_on_times_chrono_cannot_hold() {
    let a = times(1, 1 << 44, None);
    let events = generate_events(&[a]);
    assert!(months_of_events(&events).is_none());
}

#[test]
fn age_buckets_take_the_last_matching_limit() {
    let at = JAN_20_2024;
    let month = MonthOfIssues {
        timestamp: at,
        issues: vec![times(1, at - 2 * DAY, None), times(2, at - 400 * DAY, None), times(3, at - 10 * DAY, None)],
    };
    let ages = [DAY, 7 * DAY, 14 * DAY, 30 * DAY, 90 * DAY, 180 * DAY, 365 * DAY];
    let lines = points_per_month_of_issues(&[month], &ages);
    assert_eq!(lines.len(), 7);
    for (b, line) in lines.iter().enumerate() {
        assert_eq!(line.len(), 1);
        assert_eq!(line[0].x, at);
        assert_eq!(line[0].y, if b == 6 { 2 } else { 0 });
    }
}

#[test]
fn age_buckets_with_decreasing_limits() {
    let at = 1000;
    let month = MonthOfIssues { timestamp: at, issues: vec![times(1, 995, None), times(2, 900, None)] };
    let lines = points_per_month_of_issues(&[month], &[200, 10]);
    assert_eq!(lines[0][0].y, 1);
    assert_eq!(lines[1][0].y, 1);
}

use github_graph::model::{Issue, PullRequest};
use github_graph::statistics::{bucket_ages, compute_statistics, is_ready_for_statistics};
use github_graph::rolling::is_in_window_range;
use github_graph::calendar::{FIRST_DATE_DAY, LAST_DATE_DAY};

fn full_issue(number: u64, created_at: i64, closed_at: Option<i64>, pr: bool) -> Issue {
    Issue {
        repo: "gfx-rs/wgpu".to_string(),
        author: "a".to_string(),
        number,
        title: "t".to_string(),
        created_at,
        closed_at,
        closed_reason: None,
        pr: if pr { Some(PullRequest { draft: false, merged: true }) } else { None },
    }
}

#[test]
fn bucket_ages_are_one_day_to_one_year() {
    assert_eq!(bucket_ages(), vec![DAY, 7 * DAY, 14 * DAY, 30 * DAY, 90 * DAY, 180 * DAY, 365 * DAY]);
}

#[test]
fn statistics_of_issues_and_pull_requests() {
    let issues = vec![
        full_issue(1, JAN_5_2024, Some(JAN_20_2024), false),
        full_issue(2, JAN_10_2024, None, false),
        full_issue(3, FEB_3_2024, None, false),
        full_issue(4, JAN_10_2024, Some(JAN_10_2024 + 3600), true),
    ];
    let st = compute_statistics(&issues).unwrap();
    assert_eq!(
        st.issue_points,
        vec![
            p(JAN_5_2024, 0),
            p(JAN_5_2024, 1),
            p(JAN_10_2024, 1),
            p(JAN_10_2024, 2),
            p(JAN_20_2024, 2),
            p(JAN_20_2024, 1),
            p(FEB_3_2024, 1),
            p(FEB_3_2024, 2),
        ]
    );
    assert_eq!(st.pr_points, vec![
        p(JAN_10_2024, 0),
        p(JAN_10_2024, 1),
        p(JAN_10_2024 + 3600, 1),
        p(JAN_10_2024 + 3600, 0),
    ]);
    assert_eq!(st.closed_issue_points, vec![p(JAN_20_2024, 0), p(JAN_20_2024, 1)]);
    assert_eq!(st.closed_pr_points, vec![p(JAN_10_2024 + 3600, 0), p(JAN_10_2024 + 3600, 1)]);
    assert_eq!(st.opened_issues_per_day.len(), 30);
    assert_eq!(st.opened_issues_per_day[0], p(JAN_5_2024 - 15 * DAY, 1));
    assert_eq!(st.opened_issues_per_day[29], p(FEB_3_2024 - 15 * DAY, 3));
    assert_eq!(st.closed_issues_per_day, vec![p(JAN_20_2024 - 15 * DAY, 1)]);
    assert_eq!(st.closed_prs_per_day, vec![p(JAN_10_2024 - 15 * DAY, 1)]);
    assert_eq!(st.opened_prs_per_day, vec![p(JAN_10_2024 - 15 * DAY, 1)]);
    assert_eq!(st.pr_bars.diff, vec![p(JAN_10_2024 - 15 * DAY, 0)]);
    assert_eq!(st.pr_bars.bars.top.len(), 1);
    assert_eq!(st.pr_bars.bars.top[0].height.numerator, 1);
    assert_eq!(st.pr_bars.bars.top[0].height.denominator, 2);
    assert_eq!(st.issue_bars.bars.bottom.len(), 30);
    assert_eq!(st.issue_bars.bars.top.len(), 1);
    assert_eq!(st.issue_age_lines.len(), 7);
    assert_eq!(st.issue_age_lines[6], vec![p(JAN_5_2024, 2)]);
    assert_eq!(st.issue_age_lines[0], vec![p(JAN_5_2024, 0)]);
    assert_eq!(st.pr_age_lines.len(), 7);
    assert!(st.pr_age_lines.iter().all(|line| line.is_empty()));
}

#[test]
fn live_curve_shows_net_open_count_where_time_moves_on() {
    // At 200 one issue closes and another opens; their order is left to the sort.
    let issues = vec![times(1, 100, Some(200)), times(2, 200, None)];
    let points = live_issues(&issues);
    assert_eq!(points.len(), 6);
    assert_eq!(points[0], p(100, 0));
    assert_eq!(points[1], p(100, 1));
    // Just before the first event at 200: one issue open.
    assert_eq!(points[2], p(200, 1));
    // Between the two events at 200 the count depends on their order.
    assert!(points[3] == p(200, 0) || points[3] == p(200, 2));
    assert_eq!(points[3], points[4]);
    // After the last event at 200: two opened, one closed.
    assert_eq!(points[5], p(200, 1));
}

#[test]
fn closed_curve_ignores_the_order_of_issues() {
    let a = vec![times(1, 0, Some(300)), times(2, 0, Some(150)), times(3, 0, Some(150))];
    let b = vec![times(3, 0, Some(150)), times(1, 0, Some(300)), times(2, 0, Some(150))];
    assert_eq!(closed_issues(&a), closed_issues(&b));
    assert_eq!(closed_issues(&a), vec![p(150, 0), p(150, 1), p(150, 1), p(150, 2), p(300, 2), p(300, 3)]);
}

#[test]
fn rolling_curve_ignores_the_order_of_issues() {
    let a = vec![times(1, JAN_5_2024, None), times(2, JAN_10_2024 + 5, None), times(3, JAN_5_2024 + 60, None)];
    let b = vec![times(3, JAN_5_2024 + 60, None), times(2, JAN_10_2024 + 5, None), times(1, JAN_5_2024, None)];
    let pa = closed_issues_per_month(&a, StateChangeKind::Open);
    assert_eq!(pa, closed_issues_per_month(&b, StateChangeKind::Open));
    assert_eq!(pa.len(), 6);
    assert_eq!(pa[0], p(JAN_5_2024 - 15 * DAY, 2));
    assert_eq!(pa[5], p(JAN_10_2024 - 15 * DAY, 3));
}

#[test]
fn statistics_need_closed_issues_and_pull_requests_in_range() {
    let good = vec![
        full_issue(1, JAN_5_2024, Some(JAN_20_2024), false),
        full_issue(2, JAN_10_2024, Some(FEB_3_2024), true),
    ];
    assert!(is_ready_for_statistics(&good));
    assert!(is_ready_for_statistics(&[]) == false);
    let no_closed_pr = vec![
        full_issue(1, JAN_5_2024, Some(JAN_20_2024), false),
        full_issue(2, JAN_10_2024, None, true),
    ];
    assert!(!is_ready_for_statistics(&no_closed_pr));
    let no_closed_issue = vec![
        full_issue(1, JAN_5_2024, None, false),
        full_issue(2, JAN_10_2024, Some(FEB_3_2024), true),
    ];
    assert!(!is_ready_for_statistics(&no_closed_issue));
    let too_early = vec![
        full_issue(1, (FIRST_DATE_DAY + 29) * DAY, Some(JAN_20_2024), false),
        full_issue(2, JAN_10_2024, Some(FEB_3_2024), true),
    ];
    assert!(!is_ready_for_statistics(&too_early));
}

#[test]
fn window_range_leaves_room_for_the_window_and_the_next_day() {
    assert!(is_in_window_range((FIRST_DATE_DAY + 30) * DAY));
    assert!(!is_in_window_range((FIRST_DATE_DAY + 30) * DAY - 1));
    assert!(is_in_window_range(LAST_DATE_DAY * DAY - 1));
    assert!(!is_in_window_range(LAST_DATE_DAY * DAY));
    assert!(is_in_window_range(JAN_5_2024));
}

#[test]
fn open_and_closed_curves_are_step_curves() {
    let issues = vec![
        times(1, 10, Some(50)),
        times(2, 20, None),
        times(3, 30, Some(40)),
        times(4, 35, Some(35)),
        times(5, 60, Some(70)),
        times(6, 50, None),
    ];
    for points in [live_issues(&issues), closed_issues(&issues)] {
        assert_eq!(points.len() % 2, 0);
        assert_eq!(points[0].y, 0);
        for k in 0..points.len() - 1 {
            assert!(points[k].x <= points[k + 1].x);
        }
        for m in 0..points.len() / 2 {
            assert_eq!(points[2 * m].x, points[2 * m + 1].x);
            assert_eq!((points[2 * m + 1].y - points[2 * m].y).abs(), 1);
            if m > 0 {
                assert_eq!(points[2 * m].y, points[2 * m - 1].y);
            }
        }
    }
    let closed = closed_issues(&issues);
    assert!((0..closed.len() / 2).all(|m| closed[2 * m + 1].y == closed[2 * m].y + 1));
}

#[test]
fn each_issue_counts_in_one_age_bucket_at_most() {
    let at = 100 * DAY;
    let month = MonthOfIssues {
        timestamp: at,
        issues: vec![
            times(1, at - 1, None),
            times(2, at - 3 * DAY, None),
            times(3, at - 20 * DAY, None),
            times(4, at - 400 * DAY, None),
            times(5, at + DAY, None),
        ],
    };
    let ages = bucket_ages();
    let lines = points_per_month_of_issues(&[month], &ages);
    let total: i64 = lines.iter().map(|l| l[0].y).sum();
    // Ages under a year land in the last bucket whose limit they are under, which is the year;
    // the issue older than a year lands nowhere.
    assert_eq!(total, 4);
    assert_eq!(lines[6][0].y, 4);
    assert!(lines[..6].iter().all(|l| l[0].y == 0));
}

#[test]
fn closing_curves_ignore_issues_never_closed() {
    let all = vec![
        times(1, JAN_5_2024, Some(JAN_20_2024)),
        times(2, JAN_5_2024, None),
        times(3, JAN_10_2024, Some(FEB_3_2024)),
        times(4, JAN_10_2024, None),
    ];
    let closed: Vec<IssueTimes> = vec![all[2], all[0]];
    assert_eq!(
        closed_issues_per_month(&all, StateChangeKind::Close),
        closed_issues_per_month(&closed, StateChangeKind::Close)
    );
    assert_eq!(closed_issues(&all), closed_issues(&closed));
}

#[test]
fn months_are_grouped_for_ready_issues() {
    let issues = vec![
        times(1, JAN_5_2024, Some(FEB_3_2024)),
        times(2, JAN_10_2024, None),
        times(3, JAN_20_2024, Some(JAN_20_2024 + 1)),
        times(4, FEB_5_2024, None),
    ];
    let months = issues_associated_with_month(&issues).unwrap();
    assert_eq!(months.len(), 1);
    assert_eq!(months[0].timestamp, JAN_5_2024);
    let numbers: Vec<u64> = months[0].issues.iter().map(|t| t.number).collect();
    assert_eq!(numbers[0], 3);
    let mut open: Vec<u64> = numbers[1..].to_vec();
    open.sort();
    assert_eq!(open, vec![1, 2]);
}
