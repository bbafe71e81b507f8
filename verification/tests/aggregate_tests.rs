use timelog::aggregate::{aggregation_fits, summary, sum_timestamps, DayError};
use timelog::date::Date;
use timelog::duration::format_span;
use timelog::ledger::TimeLogger;
use timelog::time::{sub_times, TimeOfDay, TimeSpan};

fn t(hour: u8, minute: u8) -> TimeOfDay {
    TimeOfDay::new(hour, minute).unwrap()
}

fn d(year: u16, month: u8, day: u8) -> Date {
    Date::new(year, month, day).unwrap()
}

#[test]
fn format_span_zero() {
    assert_eq!(format_span(&TimeSpan { minutes: 0 }), "0:00:00");
}

#[test]
fn format_span_negative_has_single_leading_sign() {
    // A zero-minute day against a 468-minute workday: exactly -7:48:00.
    assert_eq!(format_span(&TimeSpan { minutes: -468 }), "-7:48:00");
}

#[test]
fn format_span_positive() {
    assert_eq!(format_span(&TimeSpan { minutes: 450 }), "7:30:00");
    assert_eq!(format_span(&TimeSpan { minutes: 30 }), "0:30:00");
    assert_eq!(format_span(&TimeSpan { minutes: 26 * 60 }), "26:00:00");
}

#[test]
fn sub_times_can_be_negative() {
    let span = sub_times(&t(8, 0), &t(9, 30));
    assert_eq!(span.minutes, -90);
    assert_eq!(format_span(&span), "-1:30:00");
}

#[test]
fn sum_timestamps_pairs_chunks() {
    let total = sum_timestamps(&vec![t(9, 0), t(12, 0), t(13, 0), t(17, 30)]).unwrap();
    assert_eq!(total.minutes, 180 + 270);
}

#[test]
fn sum_timestamps_empty_chain_is_zero() {
    assert_eq!(sum_timestamps(&vec![]).unwrap().minutes, 0);
}

#[test]
fn sum_timestamps_odd_chain_fails() {
    match sum_timestamps(&vec![t(9, 0), t(12, 0), t(13, 0)]) {
        Err(DayError::OddCount) => {},
        other => panic!("expected an odd-count failure, got {:?}", other),
    }
}

#[test]
fn summary_example_day_with_workday() {
    // One full day against a 480-minute workday: worked 7h30m, overtime -0h30m.
    let mut tlr = TimeLogger::new();
    tlr.set_workday_minutes(Some(480));
    tlr.set_day(d(2024, 1, 1), vec![t(9, 0), t(12, 0), t(13, 0), t(17, 30)]);
    let (header, rows) = summary(&tlr, &d(2024, 1, 5), 5);
    assert_eq!(
        header,
        vec!["Date", "Duration", "Time stamps", "Over time", "Aggregated over time"]
    );
    assert_eq!(rows.len(), 1);
    assert_eq!(
        rows[0],
        vec!["Mon 2024-01-01", "7:30:00", "09:00 12:00 13:00 17:30", "-0:30:00", "-0:30:00"]
    );
}

#[test]
fn summary_without_workday_has_no_overtime_columns() {
    let mut tlr = TimeLogger::new();
    tlr.set_day(d(2024, 1, 1), vec![t(9, 0), t(17, 0)]);
    let (header, rows) = summary(&tlr, &d(2024, 1, 5), 5);
    assert_eq!(header, vec!["Date", "Duration", "Time stamps"]);
    assert_eq!(rows.len(), 1);
    assert_eq!(rows[0], vec!["Mon 2024-01-01", "8:00:00", "09:00 17:00"]);
}

#[test]
fn summary_zero_worked_day_against_468_minutes() {
    let mut tlr = TimeLogger::new();
    tlr.set_workday_minutes(Some(468));
    tlr.set_day(d(2024, 1, 1), vec![]);
    let (_, rows) = summary(&tlr, &d(2024, 1, 5), 5);
    assert_eq!(rows.len(), 1);
    assert_eq!(rows[0][1], "0:00:00");
    assert_eq!(rows[0][3], "-7:48:00");
    assert_eq!(rows[0][4], "-7:48:00");
}

#[test]
fn summary_excludes_today_even_count() {
    let mut tlr = TimeLogger::new();
    tlr.set_workday_minutes(Some(480));
    tlr.set_day(d(2024, 1, 5), vec![t(9, 0), t(17, 0)]);
    let (_, rows) = summary(&tlr, &d(2024, 1, 5), 5);
    assert_eq!(rows.len(), 0);
}

#[test]
fn summary_excludes_today_odd_count() {
    // Today may legitimately be open; it yields no row either way.
    let mut tlr = TimeLogger::new();
    tlr.set_workday_minutes(Some(480));
    tlr.set_day(d(2024, 1, 5), vec![t(9, 0)]);
    let (_, rows) = summary(&tlr, &d(2024, 1, 5), 5);
    assert_eq!(rows.len(), 0);
}

#[test]
fn summary_odd_day_fails_without_aborting_others() {
    let mut tlr = TimeLogger::new();
    tlr.set_workday_minutes(Some(480));
    tlr.set_day(d(2024, 1, 1), vec![t(9, 0), t(17, 0)]);
    tlr.set_day(d(2024, 1, 2), vec![t(9, 0), t(12, 0), t(13, 0)]);
    tlr.set_day(d(2024, 1, 3), vec![t(9, 0), t(18, 0)]);
    let (_, rows) = summary(&tlr, &d(2024, 1, 9), 5);
    assert_eq!(rows.len(), 2);
    assert_eq!(rows[0][0], "Mon 2024-01-01");
    assert_eq!(rows[1][0], "Wed 2024-01-03");
    // The odd day moves the cumulative overtime by nothing.
    assert_eq!(rows[0][4], "0:00:00");
    assert_eq!(rows[1][4], "1:00:00");
}

#[test]
fn summary_window_keeps_last_rows_and_full_cumulative() {
    // Ten days, one hour of overtime each; a window of five shows the last
    // five days, and the last displayed cumulative is the ten-day total.
    let mut tlr = TimeLogger::new();
    tlr.set_workday_minutes(Some(420));
    for day in 1..=10u8 {
        tlr.set_day(d(2024, 1, day), vec![t(9, 0), t(17, 0)]);
    }
    let (_, rows) = summary(&tlr, &d(2024, 2, 1), 5);
    assert_eq!(rows.len(), 5);
    let dates: Vec<&str> = rows.iter().map(|r| r[0].as_str()).collect();
    assert_eq!(
        dates,
        vec![
            "Sat 2024-01-06",
            "Sun 2024-01-07",
            "Mon 2024-01-08",
            "Tue 2024-01-09",
            "Wed 2024-01-10"
        ]
    );
    assert_eq!(rows[4][4], "10:00:00");
    assert_eq!(rows[0][4], "6:00:00");
}

#[test]
fn summary_window_larger_than_history() {
    let mut tlr = TimeLogger::new();
    tlr.set_day(d(2024, 1, 1), vec![t(9, 0), t(10, 0)]);
    let (_, rows) = summary(&tlr, &d(2024, 2, 1), 50);
    assert_eq!(rows.len(), 1);
}

#[test]
fn summary_window_of_zero_shows_nothing() {
    let mut tlr = TimeLogger::new();
    tlr.set_day(d(2024, 1, 1), vec![t(9, 0), t(10, 0)]);
    let (_, rows) = summary(&tlr, &d(2024, 2, 1), 0);
    assert_eq!(rows.len(), 0);
}

#[test]
fn aggregation_fits_ordinary_ledger() {
    let mut tlr = TimeLogger::new();
    tlr.set_workday_minutes(Some(480));
    tlr.set_day(d(2024, 1, 1), vec![t(9, 0), t(17, 0)]);
    assert!(aggregation_fits(&tlr, &d(2024, 2, 1)));
}

#[test]
fn aggregation_fits_rejects_extreme_workday() {
    // Overtime against a workday of i64::MIN minutes cannot be represented.
    let mut tlr = TimeLogger::new();
    tlr.set_workday_minutes(Some(i64::MIN));
    tlr.set_day(d(2024, 1, 1), vec![t(9, 0), t(17, 0)]);
    assert!(!aggregation_fits(&tlr, &d(2024, 2, 1)));
}

#[test]
fn summary_fresh_ledger_is_empty() {
    let tlr = TimeLogger::new();
    let (header, rows) = summary(&tlr, &d(2024, 1, 5), 3);
    assert_eq!(header, vec!["Date", "Duration", "Time stamps"]);
    assert_eq!(rows.len(), 0);
}
