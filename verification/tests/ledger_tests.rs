use timelog::date::Date;
use timelog::ledger::{process_replacement, record_prompt, repair_prompt, ReplaceError, TimeLogger};
use timelog::time::TimeOfDay;

fn t(hour: u8, minute: u8) -> TimeOfDay {
    TimeOfDay::new(hour, minute).unwrap()
}

fn d(year: u16, month: u8, day: u8) -> Date {
    Date::new(year, month, day).unwrap()
}

#[test]
fn date_new_rejects_non_days() {
    assert!(Date::new(2024, 2, 29).is_some());
    assert!(Date::new(2023, 2, 29).is_none());
    assert!(Date::new(1900, 2, 29).is_none());
    assert!(Date::new(2000, 2, 29).is_some());
    assert!(Date::new(2024, 4, 31).is_none());
    assert!(Date::new(2024, 0, 1).is_none());
    assert!(Date::new(2024, 13, 1).is_none());
    assert!(Date::new(2024, 1, 0).is_none());
}

#[test]
fn time_new_rejects_off_clock_values() {
    assert!(TimeOfDay::new(24, 0).is_none());
    assert!(TimeOfDay::new(0, 60).is_none());
    assert!(TimeOfDay::new(23, 59).is_some());
}

#[test]
fn set_day_keeps_ascending_date_order() {
    let mut tlr = TimeLogger::new();
    tlr.set_day(d(2024, 3, 10), vec![t(9, 0), t(17, 0)]);
    tlr.set_day(d(2024, 1, 1), vec![t(8, 0), t(16, 0)]);
    tlr.set_day(d(2024, 2, 5), vec![t(10, 0), t(18, 0)]);
    let days = tlr.days();
    assert_eq!(days.len(), 3);
    assert_eq!(days[0].date, d(2024, 1, 1));
    assert_eq!(days[1].date, d(2024, 2, 5));
    assert_eq!(days[2].date, d(2024, 3, 10));
}

#[test]
fn set_day_replaces_existing_entry() {
    let mut tlr = TimeLogger::new();
    tlr.set_day(d(2024, 1, 1), vec![t(9, 0)]);
    tlr.set_day(d(2024, 1, 1), vec![t(9, 0), t(17, 0)]);
    assert_eq!(tlr.day_count(), 1);
    assert_eq!(tlr.day_at(0).stamps, vec![t(9, 0), t(17, 0)]);
}

#[test]
fn find_day_locates_entries() {
    let mut tlr = TimeLogger::new();
    tlr.set_day(d(2024, 1, 1), vec![t(9, 0), t(17, 0)]);
    tlr.set_day(d(2024, 1, 3), vec![t(8, 0), t(16, 0)]);
    assert_eq!(tlr.find_day(&d(2024, 1, 1)), Some(0));
    assert_eq!(tlr.find_day(&d(2024, 1, 3)), Some(1));
    assert_eq!(tlr.find_day(&d(2024, 1, 2)), None);
}

#[test]
fn workday_minutes_round_trip() {
    let mut tlr = TimeLogger::new();
    assert_eq!(tlr.workday_minutes(), None);
    tlr.set_workday_minutes(Some(480));
    assert_eq!(tlr.workday_minutes(), Some(480));
}

#[test]
fn repair_list_has_odd_days_except_today() {
    let mut tlr = TimeLogger::new();
    tlr.set_day(d(2024, 1, 1), vec![t(9, 0), t(17, 0)]);
    tlr.set_day(d(2024, 1, 2), vec![t(9, 0)]);
    tlr.set_day(d(2024, 1, 3), vec![t(9, 0), t(12, 0), t(13, 0)]);
    tlr.set_day(d(2024, 1, 4), vec![t(9, 0)]);
    let today = d(2024, 1, 4);
    let broken = tlr.days_needing_repair(&today);
    assert_eq!(broken, vec![d(2024, 1, 2), d(2024, 1, 3)]);
}

#[test]
fn prompts_carry_weekday_and_date() {
    assert_eq!(record_prompt(&d(2024, 1, 1)), "Today Mon 2024-01-01");
    assert_eq!(repair_prompt(&d(2024, 1, 2)), "Fixing Tue 2024-01-02");
}

#[test]
fn record_proposal_appends_now_to_existing_chain() {
    let mut tlr = TimeLogger::new();
    tlr.set_day(d(2024, 1, 5), vec![t(9, 0), t(12, 0)]);
    let proposal = tlr.record_proposal(&d(2024, 1, 5), &t(13, 7));
    assert_eq!(proposal, "09:00 12:00 13:07");
}

#[test]
fn record_proposal_for_fresh_day_is_now_alone() {
    let tlr = TimeLogger::new();
    let proposal = tlr.record_proposal(&d(2024, 1, 5), &t(8, 30));
    assert_eq!(proposal, "08:30");
}

#[test]
fn record_proposal_for_existing_empty_day_keeps_separator() {
    let mut tlr = TimeLogger::new();
    tlr.set_day(d(2024, 1, 5), vec![]);
    let proposal = tlr.record_proposal(&d(2024, 1, 5), &t(8, 30));
    assert_eq!(proposal, " 08:30");
}

#[test]
fn placeholder_token_is_rejected_on_submit() {
    assert_eq!(
        process_replacement("09:00 12:00 13:00 ??:??"),
        Err(ReplaceError::ParseFailure)
    );
}

#[test]
fn repair_proposal_appends_placeholder() {
    let mut tlr = TimeLogger::new();
    tlr.set_day(d(2024, 1, 2), vec![t(9, 0), t(12, 0), t(13, 0)]);
    let proposal = tlr.repair_proposal(&d(2024, 1, 2));
    assert_eq!(proposal, "09:00 12:00 13:00 ??:??");
}
