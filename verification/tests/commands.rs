//! Tests of the date-range logic, the argument validation kernel, and the
//! small data types.
use doist::dates::{calculate_date_range, validate_date_range, DateRangeError, RangeQuery};
use doist::model::{default_lang, DueDate, Duration, DurationUnit, Priority};
use doist::params::{parse_duration_arg, prepare_task_extras, TaskExtrasError};
use doist::project::ViewStyle;
use doist::section::Section;

fn quiet_query() -> RangeQuery {
    RangeQuery {
        today: false,
        yesterday: false,
        this_week: false,
        last_week: false,
        this_month: false,
        since: None,
        until: None,
    }
}

#[test]
fn today_range_covers_the_whole_day() {
    let mut q = quiet_query();
    q.today = true;
    let (since, until) = calculate_date_range(&q, 2025, 6, 15).unwrap();
    assert_eq!(since, "2025-06-15T00:00:00Z");
    assert_eq!(until, "2025-06-15T23:59:59Z");
}

#[test]
fn yesterday_range_crosses_month_boundaries() {
    let mut q = quiet_query();
    q.yesterday = true;
    let (since, until) = calculate_date_range(&q, 2025, 3, 1).unwrap();
    assert_eq!(since, "2025-02-28T00:00:00Z");
    assert_eq!(until, "2025-02-28T23:59:59Z");
}

#[test]
fn this_week_starts_on_monday() {
    // 2025-06-15 is a Sunday; its week began on Monday the 9th.
    let mut q = quiet_query();
    q.this_week = true;
    let (since, until) = calculate_date_range(&q, 2025, 6, 15).unwrap();
    assert_eq!(since, "2025-06-09T00:00:00Z");
    assert_eq!(until, "2025-06-15T23:59:59Z");
}

#[test]
fn last_week_runs_monday_to_sunday() {
    let mut q = quiet_query();
    q.last_week = true;
    let (since, until) = calculate_date_range(&q, 2025, 6, 15).unwrap();
    assert_eq!(since, "2025-06-02T00:00:00Z");
    assert_eq!(until, "2025-06-08T23:59:59Z");
}

#[test]
fn this_month_starts_on_the_first() {
    let mut q = quiet_query();
    q.this_month = true;
    let (since, until) = calculate_date_range(&q, 2025, 6, 15).unwrap();
    assert_eq!(since, "2025-06-01T00:00:00Z");
    assert_eq!(until, "2025-06-15T23:59:59Z");
}

#[test]
fn explicit_bounds_pass_through() {
    let mut q = quiet_query();
    q.since = Some("2025-10-01".to_string());
    q.until = Some("2025-10-31".to_string());
    let (since, until) = calculate_date_range(&q, 2025, 11, 3).unwrap();
    assert_eq!(since, "2025-10-01");
    assert_eq!(until, "2025-10-31");
}

#[test]
fn no_flags_default_to_today() {
    let q = quiet_query();
    let (since, until) = calculate_date_range(&q, 2024, 12, 31).unwrap();
    assert_eq!(since, "2024-12-31T00:00:00Z");
    assert_eq!(until, "2024-12-31T23:59:59Z");
}

#[test]
fn validate_accepts_a_short_range() {
    assert!(validate_date_range("2025-10-06", "2025-10-06", 6).is_ok());
    assert!(validate_date_range("2025-10-01", "2025-11-30", 12).is_ok());
}

#[test]
fn validate_reads_rfc3339_bounds() {
    assert!(validate_date_range("2025-10-01T00:00:00Z", "2025-10-02T23:59:59Z", 6).is_ok());
}

#[test]
fn validate_rejects_reversed_ranges() {
    assert_eq!(
        validate_date_range("2025-10-06", "2025-10-01", 6).unwrap_err(),
        DateRangeError::UntilBeforeSince
    );
}

#[test]
fn validate_rejects_overlong_ranges() {
    assert_eq!(
        validate_date_range("2025-01-01", "2025-06-01", 6).unwrap_err(),
        DateRangeError::TooLong
    );
}

#[test]
fn validate_rejects_unreadable_bounds() {
    assert_eq!(
        validate_date_range("soon", "2025-10-06", 6).unwrap_err(),
        DateRangeError::BadDate
    );
}

#[test]
fn duration_argument_parses_amount_and_unit() {
    assert_eq!(parse_duration_arg("30:minute").unwrap(), (30, DurationUnit::Minute));
    assert_eq!(parse_duration_arg("2:day").unwrap(), (2, DurationUnit::Day));
}

#[test]
fn duration_argument_rejects_bad_shapes() {
    assert_eq!(parse_duration_arg("30minute").unwrap_err(), TaskExtrasError::BadDurationFormat);
    assert_eq!(parse_duration_arg("x:minute").unwrap_err(), TaskExtrasError::BadDurationAmount);
    assert_eq!(parse_duration_arg("0:day").unwrap_err(), TaskExtrasError::ZeroDuration);
    assert_eq!(parse_duration_arg("5:hour").unwrap_err(), TaskExtrasError::BadDurationUnit);
    assert_eq!(
        parse_duration_arg("99999999999:minute").unwrap_err(),
        TaskExtrasError::BadDurationAmount
    );
}

#[test]
fn extras_accept_a_dated_deadline() {
    let extras =
        prepare_task_extras(false, Some("2025-12-24".to_string()), None).unwrap();
    assert_eq!(extras.deadline_date.as_deref(), Some("2025-12-24"));
    assert_eq!(extras.deadline_lang.as_deref(), Some("en"));
    assert!(extras.duration.is_none());
}

#[test]
fn extras_reject_a_malformed_deadline() {
    let err = prepare_task_extras(false, Some("next week".to_string()), None).unwrap_err();
    assert_eq!(err, TaskExtrasError::BadDeadline);
}

#[test]
fn extras_require_a_due_date_for_durations() {
    let err = prepare_task_extras(false, None, Some("30:minute".to_string())).unwrap_err();
    assert_eq!(err, TaskExtrasError::DurationWithoutDue);
    let extras = prepare_task_extras(true, None, Some("30:minute".to_string())).unwrap();
    assert_eq!(extras.duration, Some(30));
    assert_eq!(extras.duration_unit, Some(DurationUnit::Minute));
}

#[test]
fn exact_datetime_reads_rfc3339_only() {
    let dated = DueDate {
        string: "Jan 1".to_string(),
        date: "2025-01-01T09:00:00Z".to_string(),
        timezone: None,
        lang: "en".to_string(),
        is_recurring: false,
    };
    assert!(dated.exact_datetime().is_some());
    let bare = DueDate { date: "2025-01-01".to_string(), ..dated };
    assert!(bare.exact_datetime().is_none());
}

#[test]
fn durations_convert_to_minutes() {
    assert_eq!(Duration { amount: 2, unit: DurationUnit::Day }.minutes(), 2880);
    assert_eq!(Duration { amount: 45, unit: DurationUnit::Minute }.minutes(), 45);
}

#[test]
fn priority_wire_values_run_from_normal_to_urgent() {
    assert_eq!(Priority::Normal.value(), 1);
    assert_eq!(Priority::High.value(), 2);
    assert_eq!(Priority::VeryHigh.value(), 3);
    assert_eq!(Priority::Urgent.value(), 4);
}

#[test]
fn sections_start_blank() {
    let s = Section::new("s1", "p1", "Backlog");
    assert_eq!(s.id, "s1");
    assert_eq!(s.project_id, "p1");
    assert_eq!(s.name, "Backlog");
    assert_eq!(s.order, 0);
    assert!(!s.is_archived && !s.is_deleted && !s.is_collapsed);
}

#[test]
fn defaults_match_the_service() {
    assert_eq!(default_lang(), "en");
    assert!(matches!(ViewStyle::default(), ViewStyle::List));
}

#[test]
fn sections_order_by_position_then_id() {
    let mut first = Section::new("b", "p", "First");
    first.order = 1;
    let mut second = Section::new("a", "p", "Second");
    second.order = 2;
    assert!(first.precedes(&second));
    assert!(!second.precedes(&first));
    let tie_a = Section::new("a", "p", "A");
    let tie_b = Section::new("b", "p", "B");
    assert!(tie_a.precedes(&tie_b));
    assert!(!tie_b.precedes(&tie_a));
}
