use wca_odds::chart::{create_full_histogram_chart, create_individual_histogram_chart, generate_rank_chart};
use wca_odds::histogram::{truncate_for_histogram, HistogramAccumulator, HistogramData};
use wca_odds::keys::HistogramKeys;
use wca_odds::rank::RankAccumulator;

fn histogram_of(keys: &[(i32, u64)], samples: u64, scale: u64, min_count: u64) -> HistogramData {
    let mut acc = HistogramAccumulator::new();
    for &(k, n) in keys {
        for _ in 0..n {
            acc.record(k);
        }
    }
    acc.into_histogram_data(samples, scale, min_count)
}

#[test]
fn test_histogram_keys_standard() {
    // Standard time, step 10
    let keys: Vec<i32> = HistogramKeys::new(100, 130, false, false)
        .unwrap()
        .collect_keys();
    // Min 100 -> Start 80 (pad 20). Max 130 -> End 150.
    assert_eq!(keys, vec![80, 90, 100, 110, 120, 130, 140, 150]);
}

#[test]
fn test_histogram_keys_fmc_single() {
    // FMC Single, step 100
    let keys: Vec<i32> = HistogramKeys::new(2000, 2200, true, false)
        .unwrap()
        .collect_keys();
    // Min 2000 -> Start 1900 (pad 100). Max 2200 -> End 2300.
    assert_eq!(keys, vec![1900, 2000, 2100, 2200, 2300]);
}

#[test]
fn histogram_keys_fmc_average_thirds() {
    let keys = HistogramKeys::new(2033, 2100, true, true).unwrap().collect_keys();
    assert_eq!(keys, vec![1933, 1967, 2000, 2033, 2067, 2100, 2133, 2167, 2200]);
}

#[test]
fn histogram_keys_start_clamped_at_zero() {
    let keys = HistogramKeys::new(5, 15, false, false).unwrap().collect_keys();
    assert_eq!(keys, vec![0, 10, 20, 30]);
}

#[test]
fn histogram_keys_misaligned_start_is_rejected() {
    assert!(HistogramKeys::new(125, 200, false, false).is_none());
    assert!(HistogramKeys::new(2050, 2200, true, true).is_none());
}

#[test]
fn histogram_keys_next_key_walks_the_axis() {
    let mut keys = HistogramKeys::new(30, 30, false, false).unwrap();
    assert_eq!(keys.next_key(), Some(10));
    assert_eq!(keys.next_key(), Some(20));
    assert_eq!(keys.next_key(), Some(30));
    assert_eq!(keys.next_key(), Some(40));
    assert_eq!(keys.next_key(), Some(50));
    assert_eq!(keys.next_key(), None);
}

#[test]
fn bucketing_cuts_to_tens_except_move_counts() {
    assert_eq!(truncate_for_histogram(1234, false), 1230);
    assert_eq!(truncate_for_histogram(1239, false), 1230);
    assert_eq!(truncate_for_histogram(1234, true), 1234);
    assert_eq!(truncate_for_histogram(-15, false), -10);
}

#[test]
fn accumulator_counts_and_drops_rare_bins() {
    let h = histogram_of(&[(1000, 3), (990, 1), (1010, 5)], 10, 100, 2);
    assert_eq!(h.len(), 2);
    assert_eq!(h.bin(0), (1000, 300));
    assert_eq!(h.bin(1), (1010, 500));
    assert_eq!(h.get(1000), 300);
    assert_eq!(h.get(990), 0);
    assert_eq!(h.key_range(), Some((1000, 1010)));
    assert_eq!(h.samples(), 10);
}

#[test]
fn empty_histogram_has_no_range() {
    let h = HistogramAccumulator::new().into_histogram_data(10, 100, 0);
    assert_eq!(h.len(), 0);
    assert_eq!(h.key_range(), None);
}

#[test]
fn retained_percentages_stay_within_one_hundred() {
    // 10 trials, one round result each: 100% when nothing is dropped.
    let all = histogram_of(&[(1000, 4), (1010, 6)], 10, 100, 1);
    let sum: u64 = (0..all.len()).map(|i| all.bin(i).1).sum();
    assert_eq!(sum, 100 * 10);
    // A rare bin dropped: strictly below 100%.
    let some = histogram_of(&[(1000, 1), (1010, 9)], 10, 100, 2);
    let sum: u64 = (0..some.len()).map(|i| some.bin(i).1).sum();
    assert!(sum < 100 * 10);
    assert_eq!(sum, 900);
}

#[test]
fn full_chart_lays_series_on_shared_axis() {
    let a = histogram_of(&[(100, 2)], 4, 100, 0);
    let b = histogram_of(&[(120, 1)], 4, 100, 0);
    let chart = create_full_histogram_chart(vec![("A".to_string(), a), ("B".to_string(), b)], false, true);
    assert_eq!(chart.labels, vec!["A".to_string(), "B".to_string()]);
    let keys: Vec<i32> = chart.data.iter().map(|p| p.key).collect();
    assert_eq!(keys, vec![80, 90, 100, 110, 120, 130, 140]);
    assert_eq!(chart.data[2].values, vec![200, 0]);
    assert_eq!(chart.data[4].values, vec![0, 100]);
    assert!(chart.data.iter().all(|p| p.span == 1));
}

#[test]
fn full_chart_merges_long_axes_to_at_most_256_points() {
    // Keys 0..=9990 padded: 1003 keys, merged 4 to a point.
    let a = histogram_of(&[(20, 1), (9990, 1)], 1, 100, 0);
    let chart = create_full_histogram_chart(vec![("A".to_string(), a)], false, false);
    assert!(chart.data.len() <= 256);
    assert_eq!(chart.data.len(), 251);
    assert_eq!(chart.data[0].key, 0);
    assert_eq!(chart.data[0].span, 4);
    assert_eq!(chart.data[0].values, vec![100]);
    assert_eq!(chart.data[1].key, 40);
    assert_eq!(chart.data[250].span, 2);
    let total: u128 = chart.data.iter().map(|p| p.values[0]).sum();
    assert_eq!(total, 200);
}

#[test]
fn full_chart_of_empty_series_is_empty() {
    let a = HistogramAccumulator::new().into_histogram_data(1, 100, 0);
    let chart = create_full_histogram_chart(vec![("A".to_string(), a)], false, false);
    assert_eq!(chart.labels.len(), 1);
    assert!(chart.data.is_empty());
}

#[test]
fn individual_chart_has_single_and_average() {
    let s = histogram_of(&[(2000, 3)], 1, 33, 0);
    let a = histogram_of(&[(2033, 1)], 1, 100, 0);
    let chart = create_individual_histogram_chart(s, a, true);
    assert_eq!(chart.labels, vec!["single".to_string(), "average".to_string()]);
    let keys: Vec<i32> = chart.data.iter().map(|p| p.key).collect();
    assert_eq!(keys, vec![1900, 1933, 1967, 2000, 2033, 2067, 2100, 2133]);
    assert_eq!(chart.data.len(), 8);
    assert_eq!(chart.data[3].values, vec![99, 0]);
    assert_eq!(chart.data[4].values, vec![0, 100]);
}

#[test]
fn test_generate_rank_chart() {
    let mut acc1 = RankAccumulator::new(3);
    let mut acc2 = RankAccumulator::new(3);

    for _ in 0..500 {
        acc1.record_rank(0);
    }
    for _ in 0..300 {
        acc1.record_rank(1);
    }
    for _ in 0..200 {
        acc1.record_rank(2);
    }

    for _ in 0..100 {
        acc2.record_rank(0);
    }
    for _ in 0..400 {
        acc2.record_rank(1);
    }
    for _ in 0..500 {
        acc2.record_rank(2);
    }

    let stats1 = acc1.into_rank_stats(1000);
    let stats2 = acc2.into_rank_stats(1000);
    let samples = stats1.sample_count();

    let input = vec![("P1".to_string(), stats1), ("P2".to_string(), stats2)];

    assert!(generate_rank_chart(vec![]).data.is_empty());
    let chart = generate_rank_chart(input);
    let percent = |v: u128, span: u64| v as f64 / (span * samples) as f64;

    assert_eq!(chart.labels.len(), 2);
    assert_eq!(chart.labels[0], "P1");
    assert_eq!(chart.data.len(), 3);
    assert_eq!(chart.data[0].key.to_string(), "1");
    assert_eq!(percent(chart.data[0].values[0], chart.data[0].span), 50.0);
    assert_eq!(percent(chart.data[0].values[1], chart.data[0].span), 10.0);
}
