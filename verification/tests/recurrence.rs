use obsidian_todo::calendar::Date;
use obsidian_todo::recurrence::{
    parse_date, validate_date_value, Frequency, RecurrenceMode, RecurrenceRule, Weekday,
};

fn date(value: &str) -> Date {
    parse_date(value, "date").expect("valid date")
}

fn next(rule: &str, due: &str, completed: &str, mode: RecurrenceMode) -> Date {
    RecurrenceRule::parse(rule)
        .expect("valid rule")
        .next_due(date(due), date(completed), mode)
        .expect("next occurrence")
}

#[test]
fn parses_and_normalizes_every_supported_clause() {
    let rule = RecurrenceRule::parse("bymonth=12,2;freq=yearly;bymonthday=31,1;interval=2")
        .expect("rule");
    assert_eq!(
        rule.to_string(),
        "FREQ=YEARLY;INTERVAL=2;BYMONTHDAY=1,31;BYMONTH=2,12"
    );
    assert_eq!(
        RecurrenceRule::parse("FREQ=DAILY")
            .expect("daily")
            .to_string(),
        "FREQ=DAILY;INTERVAL=1"
    );
}

#[test]
fn rejects_unknown_duplicate_and_misplaced_clauses() {
    for source in [
        "FREQ=DAILY;COUNT=2",
        "FREQ=DAILY;FREQ=WEEKLY",
        "FREQ=DAILY;BYDAY=MO",
        "FREQ=WEEKLY;BYMONTHDAY=1",
        "FREQ=MONTHLY;BYMONTH=2",
        "FREQ=DAILY;INTERVAL=0",
        "FREQ=WEEKLY;BYDAY=1MO",
        "FREQ=MONTHLY;BYMONTHDAY=-1",
        "FREQ=YEARLY;BYMONTH=13",
    ] {
        assert!(RecurrenceRule::parse(source).is_err(), "{source}");
    }
}
#[test]
fn every_documented_unsupported_feature_returns_exit_seven() {
    for clause in [
        "DTSTART=20260901",
        "COUNT=2",
        "UNTIL=20261231",
        "WKST=MO",
        "BYSETPOS=1",
        "BYYEARDAY=1",
        "BYWEEKNO=1",
        "BYHOUR=9",
        "BYMINUTE=30",
        "BYSECOND=0",
    ] {
        let source = format!("FREQ=DAILY;{clause}");
        let error = RecurrenceRule::parse(&source).expect_err("unsupported clause");
        assert_eq!(error.code(), "unsupported_recurrence", "{source}");
        assert_eq!(error.exit_code(), 7, "{source}");
    }
    for source in [
        "FREQ=WEEKLY;BYDAY=1MO",
        "FREQ=MONTHLY;BYMONTHDAY=-1",
        "FREQ=YEARLY;BYMONTH=-1",
    ] {
        let error = RecurrenceRule::parse(source).expect_err("unsupported value");
        assert_eq!(error.code(), "unsupported_recurrence", "{source}");
        assert_eq!(error.exit_code(), 7, "{source}");
    }
}

#[test]
fn daily_interval_anchors_to_schedule_or_completion() {
    assert_eq!(
        next(
            "FREQ=DAILY;INTERVAL=3",
            "2026-09-01",
            "2026-09-09",
            RecurrenceMode::Schedule,
        ),
        date("2026-09-10")
    );
    assert_eq!(
        next(
            "FREQ=DAILY;INTERVAL=3",
            "2026-09-01",
            "2026-09-09",
            RecurrenceMode::Completion,
        ),
        date("2026-09-12")
    );
}

#[test]
fn weekly_multiple_days_and_interval_keep_week_alignment() {
    let rule = "FREQ=WEEKLY;INTERVAL=2;BYDAY=MO,TH";
    assert_eq!(
        next(rule, "2026-09-07", "2026-09-07", RecurrenceMode::Schedule),
        date("2026-09-10")
    );
    assert_eq!(
        next(rule, "2026-09-07", "2026-09-11", RecurrenceMode::Schedule),
        date("2026-09-21")
    );
    assert_eq!(
        next(rule, "2026-09-07", "2026-09-09", RecurrenceMode::Completion),
        date("2026-09-10")
    );
}

#[test]
fn weekly_early_and_late_completion_use_strictly_later_occurrence() {
    let rule = "FREQ=WEEKLY;BYDAY=MO";
    assert_eq!(
        next(rule, "2026-09-07", "2026-09-05", RecurrenceMode::Schedule),
        date("2026-09-14")
    );
    assert_eq!(
        next(rule, "2026-09-07", "2026-09-09", RecurrenceMode::Schedule),
        date("2026-09-14")
    );
}

#[test]
fn monthly_skips_missing_29th_30th_and_31st() {
    assert_eq!(
        next(
            "FREQ=MONTHLY;BYMONTHDAY=29",
            "2025-01-29",
            "2025-01-29",
            RecurrenceMode::Schedule,
        ),
        date("2025-03-29")
    );
    assert_eq!(
        next(
            "FREQ=MONTHLY;BYMONTHDAY=30",
            "2026-01-30",
            "2026-01-30",
            RecurrenceMode::Schedule,
        ),
        date("2026-03-30")
    );
    assert_eq!(
        next(
            "FREQ=MONTHLY;BYMONTHDAY=31",
            "2026-01-31",
            "2026-01-31",
            RecurrenceMode::Schedule,
        ),
        date("2026-03-31")
    );
    assert_eq!(
        next(
            "FREQ=MONTHLY;BYMONTHDAY=29",
            "2024-01-29",
            "2024-01-29",
            RecurrenceMode::Schedule,
        ),
        date("2024-02-29")
    );
}

#[test]
fn yearly_february_29_skips_non_leap_years() {
    assert_eq!(
        next(
            "FREQ=YEARLY;BYMONTH=2;BYMONTHDAY=29",
            "2024-02-29",
            "2024-02-29",
            RecurrenceMode::Schedule,
        ),
        date("2028-02-29")
    );
}

#[test]
fn monthly_and_yearly_defaults_derive_from_anchor() {
    assert_eq!(
        next(
            "FREQ=MONTHLY;INTERVAL=1",
            "2026-01-31",
            "2026-01-31",
            RecurrenceMode::Schedule,
        ),
        date("2026-03-31")
    );
    assert_eq!(
        next(
            "FREQ=YEARLY;INTERVAL=1",
            "2024-02-29",
            "2024-02-29",
            RecurrenceMode::Schedule,
        ),
        date("2028-02-29")
    );
}

#[test]
fn date_parser_rejects_bad_shape_and_non_leap_day() {
    for invalid in ["2026-2-01", "2026/02/01", "2026-02-29", "abcd-ef-gh"] {
        assert!(parse_date(invalid, "due_date").is_err(), "{invalid}");
    }
    assert_eq!(
        date("2024-02-29"),
        Date::new(2024, 2, 29).expect("leap day")
    );
}

#[test]
fn rules_say_what_they_repeat_on() {
    let rule = RecurrenceRule::parse("FREQ=WEEKLY;INTERVAL=2;BYDAY=TH,MO").expect("rule");
    assert_eq!(rule.frequency(), Frequency::Weekly);
    assert_eq!(rule.interval(), 2);
    assert_eq!(rule.by_day(), &vec![Weekday::Mon, Weekday::Thu]);
    assert!(rule.by_month_day().is_empty());
    assert!(rule.by_month().is_empty());
    assert!(rule.matches_date(date("2026-09-10")));
    assert!(!rule.matches_date(date("2026-09-11")));
}

#[test]
fn written_rules_are_read_as_they_were() {
    for source in [
        "FREQ=DAILY;INTERVAL=3",
        "FREQ=WEEKLY;INTERVAL=1;BYDAY=MO,SU",
        "FREQ=MONTHLY;INTERVAL=12;BYMONTHDAY=1,31",
        "FREQ=YEARLY;INTERVAL=1;BYMONTHDAY=29;BYMONTH=2",
    ] {
        let rule = RecurrenceRule::parse(source).expect("rule");
        assert_eq!(rule.to_string(), source);
        assert_eq!(RecurrenceRule::parse(&rule.to_string()).expect("again"), rule);
    }
}

#[test]
fn the_next_date_is_later_and_of_the_rule() {
    let rule = RecurrenceRule::parse("FREQ=MONTHLY;BYMONTHDAY=13").expect("rule");
    let mut due = date("2026-01-13");
    for _ in 0..20 {
        let later = rule
            .next_due(due, due, RecurrenceMode::Schedule)
            .expect("next");
        assert!(due.is_before(&later));
        assert!(rule.matches_date(later));
        due = later;
    }
    assert_eq!(due, date("2027-09-13"));
}

#[test]
fn dates_that_cannot_be_written_are_refused() {
    assert!(validate_date_value(date("9999-12-31"), "due_date").is_ok());
    let far = Date::new(10000, 1, 1).expect("date");
    let error = validate_date_value(far, "due_date").expect_err("far");
    assert_eq!(error.field(), Some("due_date"));
    let rule = RecurrenceRule::parse("FREQ=DAILY").expect("rule");
    let last = date("9999-12-31");
    let next = rule
        .next_due(last, last, RecurrenceMode::Schedule)
        .expect("next");
    assert!(validate_date_value(next, "due_date").is_err());
}

#[test]
fn modes_are_named() {
    for mode in [RecurrenceMode::Schedule, RecurrenceMode::Completion] {
        assert_eq!(RecurrenceMode::parse(mode.as_str()).expect("mode"), mode);
    }
    assert_eq!(
        RecurrenceMode::parse("sometimes").expect_err("mode").code(),
        "invalid_recurrence_mode"
    );
}

#[test]
fn dates_are_written_with_all_digits() {
    assert_eq!(date("0009-01-02").to_string(), "0009-01-02");
    assert_eq!(date("2026-12-31").year(), 2026);
    assert_eq!(date("2026-12-31").month(), 12);
    assert_eq!(date("2026-12-31").day(), 31);
}
