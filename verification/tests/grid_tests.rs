use github_graph::calendar::{day_start, utc_day, FIRST_DATE_DAY, LAST_DATE_DAY};
use github_graph::grid::{axis_label, grid_spacer, AxisLabel, GridMark};

const DAY: i64 = 86400;

fn sorted(mut marks: Vec<GridMark>) -> Vec<(i64, i64)> {
    marks.sort_by_key(|m| m.value);
    marks.iter().map(|m| (m.value, m.step_size)).collect()
}

#[test]
fn grid_of_a_week_keeps_the_coarsest_level_per_line() {
    let jan_1 = 1704067200;
    let jan_3 = 1704240000;
    let jan_10 = 1704844800;
    let marks = sorted(grid_spacer(jan_3, jan_10, 3600).unwrap());
    let mut expected = vec![(jan_1, 60 * DAY)];
    for d in 2..9 {
        let step = if d == 7 { 7 * DAY } else { DAY };
        expected.push((jan_1 + d * DAY, step));
    }
    assert_eq!(marks, expected);
}

#[test]
fn weekly_marks_restart_at_the_first_of_the_month() {
    let jan_1 = 1704067200;
    let jan_29 = 1706486400;
    let jan_30 = 1706572800;
    let feb_1 = 1706745600;
    let feb_8 = 1707350400;
    let feb_15 = 1707955200;
    let feb_20 = 1708387200;
    let marks = sorted(grid_spacer(jan_30, feb_20, 7 * DAY).unwrap());
    assert_eq!(
        marks,
        vec![(jan_1, 180 * DAY), (jan_29, 7 * DAY), (feb_1, 30 * DAY), (feb_8, 7 * DAY), (feb_15, 7 * DAY)]
    );
}

#[test]
fn yearly_marks_start_at_a_multiple_of_the_years() {
    let y2022 = 1640995200;
    let y2025 = 1735689600;
    let y2028 = 1830297600;
    let may_2024 = 1714521600;
    let june_2030 = 1906502400;
    let marks = sorted(grid_spacer(may_2024, june_2030, 400 * DAY).unwrap());
    assert_eq!(marks, vec![(y2022, 6 * 365 * DAY), (y2025, 3 * 365 * DAY), (y2028, 6 * 365 * DAY)]);
}

#[test]
fn grid_with_a_huge_step_uses_the_last_level_only() {
    let may_2024 = 1714521600;
    let june_2030 = 1906502400;
    let y2022 = 1640995200;
    let y2028 = 1830297600;
    let marks = sorted(grid_spacer(may_2024, june_2030, 100_000 * DAY).unwrap());
    assert_eq!(marks, vec![(y2022, 6 * 365 * DAY), (y2028, 6 * 365 * DAY)]);
}

#[test]
fn grid_of_an_empty_range_keeps_block_starts_before_it() {
    let jan_1 = 1704067200;
    let jan_3 = 1704240000;
    assert_eq!(sorted(grid_spacer(jan_3, jan_3, 3600).unwrap()), vec![(jan_1, 60 * DAY)]);
    assert_eq!(grid_spacer(jan_1, jan_1, 3600).unwrap(), vec![]);
}

#[test]
fn grid_fails_where_chrono_cannot_go() {
    assert!(grid_spacer(0, i64::MAX, 3600).is_none());
    assert!(grid_spacer(i64::MIN, 0, 3600).is_none());
    assert!(grid_spacer(0, DAY, i64::MAX).is_none());
    let last = LAST_DATE_DAY * DAY;
    assert!(grid_spacer(last, last + 3600, 7 * DAY).is_none());
    assert!(grid_spacer(last, (LAST_DATE_DAY + 1) * DAY, DAY).is_none());
}

#[test]
fn grid_fails_when_a_coarser_level_leaves_chrono_dates() {
    let last = LAST_DATE_DAY * DAY;
    assert!(grid_spacer(last - 3 * DAY, last, 6 * 365 * DAY).is_none());
    assert!(grid_spacer(last - 10 * DAY, last - 9 * DAY, DAY).is_none());
}

#[test]
fn grid_works_from_the_first_chrono_date() {
    let first = FIRST_DATE_DAY * DAY;
    let marks = sorted(grid_spacer(first, first + 3 * DAY, DAY).unwrap());
    assert_eq!(marks, vec![(first, 60 * DAY), (first + DAY, DAY), (first + 2 * DAY, DAY)]);
    assert!(grid_spacer(first - 1, first + 3 * DAY, DAY).is_none());
}

#[test]
fn axis_labels_by_step() {
    let jan_5_2024 = 1704412800;
    assert_eq!(axis_label(jan_5_2024, 400 * DAY), Some(AxisLabel::Year(2024)));
    assert_eq!(axis_label(jan_5_2024, 365 * DAY), Some(AxisLabel::Year(2024)));
    assert_eq!(axis_label(jan_5_2024, 40 * DAY), Some(AxisLabel::MonthOfYear(1, 2024)));
    assert_eq!(axis_label(jan_5_2024, 30 * DAY), Some(AxisLabel::MonthOfYear(1, 2024)));
    assert_eq!(axis_label(jan_5_2024, 29 * DAY), Some(AxisLabel::Day(5)));
    assert_eq!(axis_label(-DAY, DAY), Some(AxisLabel::Day(31)));
    assert_eq!(axis_label(-1, 40 * DAY), Some(AxisLabel::MonthOfYear(12, 1969)));
}

#[test]
fn axis_labels_end_at_chrono_dates() {
    assert_eq!(axis_label(LAST_DATE_DAY * DAY, 0), Some(AxisLabel::Day(31)));
    assert_eq!(axis_label(LAST_DATE_DAY * DAY, 365 * DAY), Some(AxisLabel::Year(262142)));
    assert_eq!(axis_label((LAST_DATE_DAY + 1) * DAY, 0), None);
    assert_eq!(axis_label(FIRST_DATE_DAY * DAY, 365 * DAY), Some(AxisLabel::Year(-262143)));
    assert_eq!(axis_label(FIRST_DATE_DAY * DAY - 1, 0), None);
    assert_eq!(axis_label(0, i64::MAX), None);
}

#[test]
fn utc_days_round_down() {
    assert_eq!(utc_day(0), 0);
    assert_eq!(utc_day(86399), 0);
    assert_eq!(utc_day(86400), 1);
    assert_eq!(utc_day(-1), -1);
    assert_eq!(utc_day(-86400), -1);
    assert_eq!(utc_day(-86401), -2);
    assert_eq!(day_start(2), 172800);
    assert_eq!(day_start(-1), -86400);
}

#[test]
fn grid_lines_stand_at_distinct_midnights() {
    let start = 1_600_000_123;
    let end = 1_700_000_456;
    for base_step in [60, DAY, 40 * DAY, 400 * DAY] {
        let marks = grid_spacer(start, end, base_step).unwrap();
        assert!(!marks.is_empty());
        let mut values: Vec<i64> = marks.iter().map(|m| m.value).collect();
        assert!(values.iter().all(|v| v % DAY == 0));
        let n = values.len();
        values.sort();
        values.dedup();
        assert_eq!(values.len(), n);
    }
}
