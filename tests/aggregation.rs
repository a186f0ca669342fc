use glucose_hourly::bands::{axis_ceiling, build_bands};
use glucose_hourly::cleaner::{CleanReading, GLUCOSE_COLUMN, TIMESTAMP_COLUMN};
use glucose_hourly::error::PipelineError;
use glucose_hourly::pipeline::hourly_stats_of_table;
use glucose_hourly::stats::{
    aggregate, hourly_stat, kth_smallest_value, quantile_nearest, values_at_hour, HourlyStat,
};
use glucose_hourly::timestamp::Timestamp;

fn reading(day: u32, hour: u32, g: i32) -> CleanReading {
    CleanReading {
        timestamp: Timestamp { year: 2024, month: 5, day, hour, minute: 0, second: 0 },
        glucose_mgdl: g,
    }
}

fn header() -> Vec<String> {
    vec![TIMESTAMP_COLUMN.to_string(), GLUCOSE_COLUMN.to_string()]
}

fn record(ts: &str, g: &str) -> Vec<String> {
    vec![ts.to_string(), g.to_string()]
}

fn mean(s: &HourlyStat) -> f64 {
    s.total as f64 / s.count as f64
}

#[test]
fn quantiles_are_nearest_rank_members() {
    let v = vec![10, 20, 30, 40];
    assert_eq!(quantile_nearest(&v, 25), 20);
    assert_eq!(quantile_nearest(&v, 5), 10);
    assert_eq!(quantile_nearest(&v, 75), 30);
    assert_eq!(quantile_nearest(&v, 95), 40);
    assert_eq!(quantile_nearest(&v, 50), 30);
}

#[test]
fn quantile_of_unsorted_values_with_repeats() {
    let v = vec![50, 10, 50, 20, 10];
    assert_eq!(kth_smallest_value(&v, 0), 10);
    assert_eq!(kth_smallest_value(&v, 1), 10);
    assert_eq!(kth_smallest_value(&v, 2), 20);
    assert_eq!(kth_smallest_value(&v, 3), 50);
    assert_eq!(kth_smallest_value(&v, 4), 50);
    // 0.95 * 4 = 3.8 rounds to 4; 0.25 * 4 = 1
    assert_eq!(quantile_nearest(&v, 95), 50);
    assert_eq!(quantile_nearest(&v, 25), 10);
}

#[test]
fn quantile_rounds_half_up() {
    // 0.05 * 10 = 0.5 rounds to position 1; 0.95 * 10 = 9.5 rounds to 10
    let v: Vec<i32> = (0..11).map(|x| x * 10).collect();
    assert_eq!(quantile_nearest(&v, 5), 10);
    assert_eq!(quantile_nearest(&v, 95), 100);
    assert_eq!(quantile_nearest(&vec![7], 95), 7);
}

#[test]
fn aggregate_empty_is_error() {
    assert_eq!(aggregate(&vec![]).unwrap_err(), PipelineError::EmptyInput);
}

#[test]
fn aggregate_pools_dates_by_hour() {
    let rs = vec![reading(1, 8, 100), reading(2, 8, 140), reading(3, 7, 90)];
    let stats = aggregate(&rs).unwrap();
    assert_eq!(stats.len(), 2);
    assert_eq!(stats[0].hour, 7);
    assert_eq!(stats[0].count, 1);
    assert_eq!(stats[1].hour, 8);
    assert_eq!(stats[1].count, 2);
    assert_eq!(stats[1].total, 240);
    assert_eq!(mean(&stats[1]), 120.0);
}

#[test]
fn aggregate_hours_strictly_ascending() {
    let rs = vec![
        reading(1, 23, 100),
        reading(1, 0, 110),
        reading(2, 12, 120),
        reading(2, 0, 130),
        reading(3, 5, 140),
    ];
    let stats = aggregate(&rs).unwrap();
    let hours: Vec<u32> = stats.iter().map(|s| s.hour).collect();
    assert_eq!(hours, vec![0, 5, 12, 23]);
    assert!(hours.windows(2).all(|w| w[0] < w[1]));
}

#[test]
fn hourly_stat_fields() {
    let st = hourly_stat(6, &vec![40, 10, 30, 20]);
    assert_eq!(
        st,
        HourlyStat { hour: 6, count: 4, total: 100, p5: 10, p25: 20, p75: 30, p95: 40 }
    );
}

#[test]
fn values_at_hour_ignores_dates() {
    let rs = vec![reading(1, 8, 100), reading(2, 9, 50), reading(9, 8, 140)];
    assert_eq!(values_at_hour(&rs, 8), vec![100, 140]);
    assert_eq!(values_at_hour(&rs, 10), Vec::<i32>::new());
}

#[test]
fn axis_ceiling_formula() {
    assert_eq!(axis_ceiling(180), 225);
    assert_eq!(axis_ceiling(200), 250);
    assert_eq!(axis_ceiling(0), 50);
    assert_eq!(axis_ceiling(1), 50);
    assert_eq!(axis_ceiling(24), 50);
    assert_eq!(axis_ceiling(-180), -125);
}

#[test]
fn bands_from_stats() {
    let stats = vec![
        HourlyStat { hour: 8, count: 2, total: 120, p5: 30, p25: 30, p75: 90, p95: 90 },
        HourlyStat { hour: 12, count: 3, total: 450, p5: 100, p25: 120, p75: 180, p95: 180 },
    ];
    let b = build_bands(&stats).unwrap();
    assert_eq!(b.hours, vec![8, 12]);
    assert_eq!(b.labels, vec!["8".to_string(), "12".to_string()]);
    assert_eq!(b.outer_floor, vec![30, 100]);
    assert_eq!(b.outer_width, vec![60, 80]);
    assert_eq!(b.inner_floor, vec![30, 120]);
    assert_eq!(b.inner_width, vec![60, 60]);
    assert_eq!(b.y_axis_max, 225);
}

#[test]
fn bands_tolerate_inverted_percentiles() {
    let stats = vec![HourlyStat { hour: 3, count: 1, total: 5, p5: 50, p25: 40, p75: 30, p95: 20 }];
    let b = build_bands(&stats).unwrap();
    assert_eq!(b.outer_width, vec![-30]);
    assert_eq!(b.inner_width, vec![-10]);
    assert_eq!(b.y_axis_max, 50);
}

#[test]
fn bands_empty_is_error() {
    assert_eq!(build_bands(&vec![]).unwrap_err(), PipelineError::NoData);
}

#[test]
fn scenario_low_and_ninety_at_eight() {
    let recs = vec![record("2024-05-01T08:00:00", "Low"), record("2024-05-01T08:30:00", "90")];
    let stats = hourly_stats_of_table(&header(), &recs).unwrap();
    assert_eq!(stats.len(), 1);
    let s = &stats[0];
    assert_eq!(s.hour, 8);
    assert_eq!(mean(s), 60.0);
    for p in [s.p5, s.p25, s.p75, s.p95] {
        assert!(p == 30 || p == 90);
    }
    assert_eq!((s.p5, s.p25, s.p75, s.p95), (30, 30, 90, 90));
}

#[test]
fn scenario_empty_timestamp_row_excluded() {
    let with_bad = vec![
        record("2024-05-01T08:00:00", "100"),
        record("", "400"),
        record("2024-05-02T09:00:00", "120"),
    ];
    let without = vec![record("2024-05-01T08:00:00", "100"), record("2024-05-02T09:00:00", "120")];
    let a = hourly_stats_of_table(&header(), &with_bad).unwrap();
    let b = hourly_stats_of_table(&header(), &without).unwrap();
    assert_eq!(a, b);
    assert_eq!(a.len(), 2);
}

#[test]
fn scenario_rerun_is_identical() {
    let recs = vec![
        record("2024-05-01T08:00:00", "100"),
        record("2024-05-01T13:00:00", "Low"),
        record("2024-05-02T08:00:00", "160"),
        record("2024-05-02T13:10:00", "-1"),
    ];
    let a = hourly_stats_of_table(&header(), &recs).unwrap();
    let b = hourly_stats_of_table(&header(), &recs).unwrap();
    assert_eq!(a, b);
}

#[test]
fn pipeline_errors() {
    assert_eq!(
        hourly_stats_of_table(&vec!["x".to_string()], &vec![]).unwrap_err(),
        PipelineError::Schema
    );
    assert_eq!(
        hourly_stats_of_table(&header(), &vec![record("", "100")]).unwrap_err(),
        PipelineError::EmptyInput
    );
}
