use wca_odds::dates::{
    calculate_fetch_start, convert_to_dated_results, filter_and_convert_relative, group_by_date,
    history_windows, DatedCompetitionResult,
};
use wca_odds::events::DNF_VALUE;
use wca_odds::samples::{apply_weights, failed_samples, trim_outliers, valid_samples};

// Day numbers counted from January 1 of year 1 (that day being 1).
const JAN_31_2024: i32 = 738916;
const MAR_31_2024: i32 = 738976;
const FEB_29_2024: i32 = 738945;
const JAN_1_2024: i32 = 738886;
const JAN_29_2024: i32 = 738914;

#[test]
fn outliers_above_the_threshold_are_trimmed() {
    let data: Vec<(i32, f32)> = vec![(100, 1.0), (100, 1.0), (100, 1.0), (10000, 1.0)];
    // Weighted mean 2575, standard deviation 4950: the threshold is 12475.
    let (mean, stdev) = (2575.0f32, 4950.0f32);
    let threshold = (mean + stdev * 2.0) as i32;
    assert_eq!(threshold, 12475);
    let kept = trim_outliers(data.clone(), threshold);
    assert_eq!(kept, data);
    let kept = trim_outliers(data, 9999);
    assert_eq!(kept, vec![(100, 1.0), (100, 1.0), (100, 1.0)]);
}

#[test]
fn only_positive_values_are_samples() {
    let data: Vec<(i32, f32)> =
        vec![(1000, 0.5), (-1, 0.5), (0, 0.25), (1200, 1.0), (-2, 1.0), (DNF_VALUE, 0.75)];
    assert_eq!(valid_samples(&data), vec![(1000, 0.5), (1200, 1.0)]);
    assert_eq!(failed_samples(&data), vec![(-1, 0.5), (-2, 1.0), (DNF_VALUE, 0.75)]);
}

#[test]
fn each_value_takes_its_dates_weight() {
    let results = vec![
        DatedCompetitionResult { days_since: 0, results: vec![1000, 1100] },
        DatedCompetitionResult { days_since: 30, results: vec![] },
        DatedCompetitionResult { days_since: 60, results: vec![-1] },
    ];
    let weights = vec![1.0f32, 0.5, 0.25];
    assert_eq!(apply_weights(&results, &weights), vec![(1000, 1.0), (1100, 1.0), (-1, 0.25)]);
}

#[test]
fn results_are_dated_relative_to_the_window_end() {
    let raw = vec![(100, vec![1000]), (150, vec![900, 950]), (210, vec![800]), (90, vec![700])];
    let dated = filter_and_convert_relative(&raw, 100, 200);
    assert_eq!(dated.len(), 2);
    assert_eq!(dated[0].days_since, 100);
    assert_eq!(dated[0].results, vec![1000]);
    assert_eq!(dated[1].days_since, 50);
    assert_eq!(dated[1].results, vec![900, 950]);
    let all = convert_to_dated_results(&raw, 300);
    let days: Vec<i32> = all.iter().map(|d| d.days_since).collect();
    assert_eq!(days, vec![200, 150, 90, 210]);
}

#[test]
fn history_windows_step_back_a_month_at_a_time() {
    let windows = history_windows(JAN_1_2024, MAR_31_2024, 3);
    assert_eq!(windows.len(), 3);
    // Oldest first; March 31 minus one month is February 29, and each
    // step starts from the window before: February 29 gives January 29.
    assert_eq!(windows[2], (JAN_1_2024, MAR_31_2024));
    assert_eq!(windows[1].1, FEB_29_2024);
    assert_eq!(windows[0].1, JAN_29_2024);
    assert!(history_windows(JAN_1_2024, MAR_31_2024, 0).is_empty());
}

#[test]
fn fetching_starts_months_before_the_window() {
    // Two extra months: March 31 minus two months is January 31.
    assert_eq!(calculate_fetch_start(MAR_31_2024, 0), JAN_31_2024);
    // Outside the calendar the start itself is used.
    assert_eq!(calculate_fetch_start(i32::MIN, 1), i32::MIN);
}

#[test]
fn rows_are_grouped_by_date_in_order() {
    let rows = vec![(20, 1000), (10, 900), (20, 1100), (30, -1), (10, 950)];
    let groups = group_by_date(&rows);
    assert_eq!(
        groups,
        vec![(20, vec![1000, 1100]), (10, vec![900, 950]), (30, vec![-1])]
    );
    assert!(group_by_date(&vec![]).is_empty());
}
