use glucose_hourly::cleaner::{
    clean, clean_table, find_column, parse_timestamp, select_columns, CleanReading, RawReading, GLUCOSE_COLUMN, TIMESTAMP_COLUMN,
};
use glucose_hourly::error::PipelineError;
use glucose_hourly::glucose::{is_low, parse_glucose, parse_int32};
use glucose_hourly::timestamp::Timestamp;

fn raw(ts: &str, g: &str) -> RawReading {
    RawReading { timestamp_text: ts.to_string(), glucose_text: g.to_string() }
}

fn header() -> Vec<String> {
    vec![
        "Index".to_string(),
        TIMESTAMP_COLUMN.to_string(),
        "Event Type".to_string(),
        GLUCOSE_COLUMN.to_string(),
    ]
}

fn record(ts: &str, g: &str) -> Vec<String> {
    vec!["1".to_string(), ts.to_string(), "EGV".to_string(), g.to_string()]
}

#[test]
fn low_reads_as_thirty() {
    assert_eq!(parse_glucose("Low"), Some(30));
    assert!(is_low("Low"));
    assert!(!is_low("low"));
    assert!(!is_low("LOW"));
    assert_eq!(parse_glucose("low"), None);
}

#[test]
fn glucose_integers() {
    assert_eq!(parse_glucose("90"), Some(90));
    assert_eq!(parse_glucose("0"), Some(0));
    assert_eq!(parse_glucose("+7"), Some(7));
    assert_eq!(parse_glucose("007"), Some(7));
    assert_eq!(parse_glucose("-5"), None);
    assert_eq!(parse_glucose(""), None);
    assert_eq!(parse_glucose("abc"), None);
    assert_eq!(parse_glucose("12a"), None);
    assert_eq!(parse_glucose("-"), None);
    assert_eq!(parse_glucose("2147483648"), None);
    assert_eq!(parse_glucose("2147483647"), Some(2147483647));
}

#[test]
fn int32_range() {
    assert_eq!(parse_int32("-2147483648"), Some(i32::MIN));
    assert_eq!(parse_int32("-2147483649"), None);
    assert_eq!(parse_int32("99999999999999999999"), None);
    assert_eq!(parse_int32("-17"), Some(-17));
    assert_eq!(parse_int32("+"), None);
}

#[test]
fn timestamps_parse_in_fixed_format() {
    assert_eq!(
        parse_timestamp("2024-03-05T08:15:30"),
        Some(Timestamp { year: 2024, month: 3, day: 5, hour: 8, minute: 15, second: 30 })
    );
    assert_eq!(parse_timestamp(""), None);
    assert_eq!(parse_timestamp("2024-03-05 08:15:30"), None);
    assert_eq!(parse_timestamp("2024-13-05T08:15:30"), None);
    assert_eq!(parse_timestamp("2024-02-30T08:15:30"), None);
    assert_eq!(parse_timestamp("2024-03-05T24:00:00"), None);
    assert_eq!(parse_timestamp("not a date"), None);
}

#[test]
fn clean_keeps_only_valid_rows_in_order() {
    let rows = vec![
        raw("2024-03-05T08:00:00", "Low"),
        raw("2024-03-05T08:05:00", "-1"),
        raw("", "120"),
        raw("2024-03-05T09:00:00", "0"),
        raw("garbage", "100"),
        raw("2024-03-05T10:00:00", "oops"),
        raw("2024-03-06T11:30:00", "145"),
    ];
    let out = clean(&rows);
    assert_eq!(out.len(), 3);
    assert_eq!(out[0].glucose_mgdl, 30);
    assert_eq!(out[0].timestamp.hour, 8);
    assert_eq!(out[1].glucose_mgdl, 0);
    assert_eq!(out[1].timestamp.hour, 9);
    assert_eq!(
        out[2],
        CleanReading {
            timestamp: Timestamp { year: 2024, month: 3, day: 6, hour: 11, minute: 30, second: 0 },
            glucose_mgdl: 145,
        }
    );
}

#[test]
fn clean_low_with_bad_timestamp_is_dropped() {
    let out = clean(&vec![raw("yesterday", "Low")]);
    assert!(out.is_empty());
}

#[test]
fn clean_empty_input() {
    assert!(clean(&Vec::new()).is_empty());
}

#[test]
fn columns_found_by_exact_name() {
    let h = header();
    assert_eq!(find_column(&h, TIMESTAMP_COLUMN), Some(1));
    assert_eq!(find_column(&h, GLUCOSE_COLUMN), Some(3));
    assert_eq!(find_column(&h, "glucose value (mg/dl)"), None);
}

#[test]
fn missing_column_is_schema_error() {
    let h = vec![TIMESTAMP_COLUMN.to_string(), "Glucose".to_string()];
    assert_eq!(select_columns(&h, &vec![]).unwrap_err(), PipelineError::Schema);
    let h2 = vec![GLUCOSE_COLUMN.to_string()];
    assert_eq!(clean_table(&h2, &vec![]).unwrap_err(), PipelineError::Schema);
}

#[test]
fn select_projects_two_columns() {
    let recs = vec![record("2024-03-05T08:00:00", "95"), vec!["2".to_string()]];
    let rows = select_columns(&header(), &recs).unwrap();
    assert_eq!(rows.len(), 2);
    assert_eq!(rows[0].timestamp_text, "2024-03-05T08:00:00");
    assert_eq!(rows[0].glucose_text, "95");
    assert_eq!(rows[1].timestamp_text, "");
    assert_eq!(rows[1].glucose_text, "");
}

#[test]
fn clean_table_end_to_end() {
    let recs = vec![
        record("2024-03-05T08:00:00", "95"),
        record("2024-03-05T08:05:00", "-3"),
        record("2024-03-05T08:10:00", "Low"),
    ];
    let out = clean_table(&header(), &recs).unwrap();
    let values: Vec<i32> = out.iter().map(|r| r.glucose_mgdl).collect();
    assert_eq!(values, vec![95, 30]);
}
