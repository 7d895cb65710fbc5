use chrono::{DateTime, FixedOffset, Datelike, Timelike};
use obsidian_todo::calendar::{Date, Time};
use obsidian_todo::error::Error;
use obsidian_todo::input::{
    parse_line, read_line as raw_line, Later, ParsedInput, ParsedTaskInput, SyncPolicy,
    MAX_LINE_BYTES,
};
use obsidian_todo::model::parse_time;
use obsidian_todo::recurrence::parse_date;

fn moment(value: &str) -> DateTime<FixedOffset> {
    DateTime::parse_from_rfc3339(value).unwrap()
}

fn reference() -> DateTime<FixedOffset> {
    moment("2026-09-04T12:00:00+00:00")
}

fn read_line(value: &str, reference: &DateTime<FixedOffset>) -> Result<ParsedInput, Error> {
    let local = reference.naive_local();
    let today = Date::new(local.year(), local.month(), local.day()).unwrap();
    let time = Time::new(
        local.hour(),
        local.minute(),
        local.second(),
        local.nanosecond(),
    )
    .unwrap();
    parse_line(value, today, &Later::Civil { date: today, time })
}

fn parse(value: &str) -> ParsedTaskInput {
    parse_at(value, &reference())
}

fn parse_at(value: &str, reference: &DateTime<FixedOffset>) -> ParsedTaskInput {
    match read_line(value, reference).unwrap() {
        ParsedInput::Task(task) => task,
        _ => panic!("expected a task capture"),
    }
}

fn date(value: &str) -> Date {
    parse_date(value, "date").unwrap()
}

fn time(value: &str) -> Time {
    parse_time(value).unwrap()
}

#[test]
fn slash_list_filters_are_literal_and_deduplicated() {
    let ParsedInput::List(filter) = read_line(
        "  /list #personal #personal @Chörés/home @Chörés/home @tomorrow !open !done !open  ",
        &reference(),
    )
    .unwrap() else {
        panic!("expected a list command");
    };
    assert_eq!(filter.projects, ["personal"]);
    assert_eq!(filter.tags, ["Chörés/home", "tomorrow"]);
    assert_eq!(filter.states, ["open", "done"]);
    assert!(filter.include_terminal);
    assert!(matches!(
        read_line("/list", &reference()).unwrap(),
        ParsedInput::List(_)
    ));
}

#[test]
fn slash_commands_require_a_leading_whole_token_and_never_fall_back_to_tasks() {
    for (line, code) in [
        ("/", "unknown_input_command"),
        ("/delete #personal", "unknown_input_command"),
        ("/list#personal", "unknown_input_command"),
        ("/list tomorrow", "invalid_input_filter"),
        ("/list !", "invalid_input_filter"),
        ("/list !open\n", "invalid_input"),
    ] {
        assert_eq!(
            read_line(line, &reference()).unwrap_err().code(),
            code,
            "{line:?}"
        );
    }
    for line in ["/list #", "/list @", "/list @bad,tag"] {
        assert!(read_line(line, &reference()).is_err(), "{line}");
    }
    let task = parse("Review /list !open");
    assert_eq!(task.name, "Review /list !open");
    assert_eq!(task.due_date, None);
}

#[test]
fn captures_requested_examples_without_losing_links() {
    let call = parse("Call Plumber tom 9am #personal @chores");
    assert_eq!(call.name, "Call Plumber");
    assert_eq!(call.projects, ["personal"]);
    assert_eq!(call.tags, ["chores"]);
    assert_eq!(call.due_date, Some(date("2026-09-05")));
    assert_eq!(call.due_time, Some(time("09:00")));
    let follow = parse("follow up with John about https://github.com/issues/124 #work @prs");
    assert_eq!(
        follow.name,
        "follow up with John about https://github.com/issues/124"
    );
    assert_eq!(follow.url.as_deref(), Some("https://github.com/issues/124"));
    assert_eq!(follow.projects, ["work"]);
    assert_eq!(follow.tags, ["prs"]);
    assert_eq!(follow.due_date, None);
}

#[test]
fn only_last_contributing_date_and_time_are_removed() {
    let parsed = parse("Call today at 9 am tomorrow with team at 4 pm");
    assert_eq!(parsed.name, "Call today at 9 am with team");
    assert_eq!(parsed.due_date, Some(date("2026-09-05")));
    assert_eq!(parsed.due_time, Some(time("16:00")));
    let replaced = parse("Call in 2 hours tomorrow at 4 pm");
    assert_eq!(replaced.name, "Call in 2 hours");
    let date_from_relative = parse("Call in 2 hours at 4 pm");
    assert_eq!(date_from_relative.name, "Call");
    assert_eq!(date_from_relative.due_date, Some(date("2026-09-04")));
    assert_eq!(date_from_relative.due_time, Some(time("16:00")));
    let time_from_relative = parse("Call at 4 pm in 2 hours tomorrow");
    assert_eq!(time_from_relative.name, "Call at 4 pm");
    assert_eq!(time_from_relative.due_date, Some(date("2026-09-05")));
    assert_eq!(time_from_relative.due_time, Some(time("14:00")));
    let malformed_clock = parse("Call tomorrow at 25:30");
    assert_eq!(malformed_clock.name, "Call at 25:30");
    assert_eq!(malformed_clock.due_date, Some(date("2026-09-05")));
    assert_eq!(malformed_clock.due_time, None);
    let superseded = parse("Call in 9223372036854775807 months tomorrow");
    assert_eq!(superseded.name, "Call in 9223372036854775807 months");
    assert_eq!(superseded.due_date, Some(date("2026-09-05")));
}

#[test]
fn calendar_phrases_use_next_occurrence_and_clamped_months() {
    for (phrase, expected) in [
        ("ToDaY", "2026-09-04"),
        ("tod", "2026-09-04"),
        ("tomorrow", "2026-09-05"),
        ("Sun", "2026-09-06"),
        ("Monday", "2026-09-07"),
        ("Tues", "2026-09-08"),
        ("Wed", "2026-09-09"),
        ("Thurs", "2026-09-10"),
        ("Friday", "2026-09-11"),
        ("Sat", "2026-09-05"),
        ("next week", "2026-09-11"),
        ("next month", "2026-10-04"),
        ("in 3 days", "2026-09-07"),
        ("in 2 weeks", "2026-09-18"),
    ] {
        assert_eq!(
            parse(&format!("Task {phrase}")).due_date,
            Some(date(expected)),
            "{phrase}"
        );
    }
    let january = moment("2024-01-31T12:00:00+00:00");
    assert_eq!(
        parse_at("Budget next month", &january).due_date,
        Some(date("2024-02-29"))
    );
    assert_eq!(
        parse_at("Budget in 2 months", &january).due_date,
        Some(date("2024-03-31"))
    );
    let end = moment("9999-12-31T23:59:00+00:00");
    for phrase in [
        "tomorrow",
        "next month",
        "in 1 minute",
        "in 9223372036854775807 weeks",
    ] {
        assert!(
            read_line(&format!("Task {phrase}"), &end).is_err(),
            "{phrase}"
        );
    }
}

#[test]
fn relative_time_rounds_up_and_uses_local_date() {
    let late = moment("2026-09-04T23:59:45-08:00");
    let parsed = parse_at("Check oven in 1 minute", &late);
    assert_eq!(parsed.name, "Check oven");
    assert_eq!(parsed.due_date, Some(date("2026-09-05")));
    assert_eq!(parsed.due_time, Some(time("00:01")));
    let exact = moment("2026-09-04T23:59:00-08:00");
    assert_eq!(
        parse_at("Check in 1 minute", &exact).due_time,
        Some(time("00:00"))
    );
    let fractional =
        moment("2026-09-04T23:58:00.000000001-08:00");
    let rounded = parse_at("Check in 1 minute", &fractional);
    assert_eq!(rounded.due_date, Some(date("2026-09-05")));
    assert_eq!(rounded.due_time, Some(time("00:00")));
    let clock = parse_at("Call 09:30", &late);
    assert_eq!(clock.due_date, Some(date("2026-09-04")));
}

#[test]
fn clocks_cover_noon_midnight_and_reject_invalid_suffixes() {
    for (phrase, expected) in [
        ("00:00", "00:00"),
        ("23:59", "23:59"),
        ("12 am", "00:00"),
        ("12 PM", "12:00"),
        ("at 1:05 pm", "13:05"),
        ("AT 9am", "09:00"),
    ] {
        let parsed = parse(&format!("Call {phrase}"));
        assert_eq!(parsed.name, "Call");
        assert_eq!(parsed.due_time, Some(time(expected)));
    }
    for phrase in [
        "24:00",
        "09:60",
        "9:30",
        "009:30",
        "09:300",
        "09:30:00",
        "09:30:",
        "09:3 pm",
        "13:00 pm",
        "0 am",
        "12:60 am",
        "09:30 pmish",
        "3 p.m.",
        "-09:30",
        "09:30.5",
        "v09:30",
        "09:30beta",
        "9am2",
        "task_09:30",
        "in 0 hours",
        "in -2 hours",
        "in 1.5 hours",
    ] {
        let input = format!("Call {phrase}");
        let parsed = parse(&input);
        assert_eq!(parsed.name, input);
        assert_eq!(parsed.due_time, None, "{phrase}");
        assert_eq!(parsed.due_date, None, "{phrase}");
    }
}

#[test]
fn unicode_metadata_and_address_boundaries_are_lossless() {
    let parsed = parse("  Café\u{2003}with Zoë, Wed., after lunch #work #work @Équipe/Été @Équipe/Été @équipe/été");
    assert_eq!(parsed.name, "Café with Zoë after lunch");
    assert_eq!(parsed.projects, ["work"]);
    assert_eq!(parsed.tags, ["Équipe/Été", "équipe/été"]);
    for input in [
        "Read https://example.test/today",
        "Read https://example.test?time=09:30",
        "Mail today@example.test",
        "Read /tmp/tomorrow",
        "Read C:\\today",
        "Read task_today",
        "Read today-task",
        "Read today.md",
        "Read étodé",
        "Read today\u{301}",
        "Call in 2 hours/path",
        "Check Mon2",
        "Visit Tomorrowland",
    ] {
        let parsed = parse(input);
        assert_eq!(parsed.name, input);
        assert_eq!(parsed.due_date, None, "{input}");
        assert_eq!(parsed.due_time, None, "{input}");
    }
    let metadata = parse("Task #today @tomorrow @9am @Team/nested");
    assert_eq!(metadata.name, "Task");
    assert_eq!(metadata.due_date, None);
    assert_eq!(metadata.due_time, None);
    for input in ["Task #Work", "Task #", "Task @", "Task @bad,tag"] {
        assert!(read_line(input, &reference()).is_err(), "{input}");
    }
}

#[test]
fn urls_keep_balanced_punctuation_and_first_valid_explicit_link() {
    let link = "HTTPS://example.com/a_(b)?q=hello%20world&sort=new#section";
    let input = format!("Read ({link}). https://second.test tomorrow");
    let parsed = parse(&input);
    assert_eq!(parsed.url.as_deref(), Some(link));
    assert_eq!(parsed.name, format!("Read ({link}). https://second.test"));
    let parsed = parse("Read https://bad.test/%ZZ https://例え.jp/道");
    assert_eq!(parsed.url.as_deref(), Some("https://例え.jp/道"));
    let parsed = parse("Read https://example.test/? at 14:30 with team!");
    assert_eq!(parsed.name, "Read https://example.test/? with team!");
    for input in [
        "Read example.com",
        "Read ftp://example.com",
        "Read prefixhttps://example.com",
        "Read user@https://example.com",
        "Read https://",
        "Read https://example.com:65536",
    ] {
        assert_eq!(parse(input).url, None, "{input}");
    }
    let parsed = parse("Read https://example.test/#work user@host @work");
    assert!(parsed.projects.is_empty());
    assert_eq!(parsed.tags, ["work"]);
    assert_eq!(parsed.name, "Read https://example.test/#work user@host");
}

#[test]
fn refuses_empty_titles_and_non_single_line_input() {
    for input in [
        "",
        "   ",
        "tomorrow 9am #work @chores",
        "Task\nOther",
        "Task\rOther",
        "Task\tOther",
        "Task\0Other",
        "Task\u{2028}Other",
        "Task\u{2029}Other",
    ] {
        assert!(read_line(input, &reference()).is_err(), "{input:?}");
    }
}

#[test]
fn lists_can_be_narrowed_by_due_date() {
    let filter = |value: &str| match read_line(value, &reference()).unwrap() {
        ParsedInput::List(filter) => filter,
        _ => panic!("expected a list command"),
    };
    assert_eq!(filter("/list due:today").due_on, Some(date("2026-09-04")));
    assert_eq!(
        filter("/list due:tomorrow due:tomorrow").due_on,
        Some(date("2026-09-05"))
    );
    assert!(filter("/list due:overdue").overdue);
    assert!(filter("/list #work due:none").undated);
    for input in ["/list due:soon", "/list due:today due:none", "/list due:"] {
        assert_eq!(
            read_line(input, &reference()).unwrap_err().code(),
            "invalid_input_filter",
            "{input}"
        );
    }
}

#[test]
fn a_clock_that_is_set_is_looked_up() {
    let today = date("2026-10-25");
    let after = Later::Given(vec![(3600, Some((today, time("01:30"))))]);
    match parse_line("Call in 1 hour", today, &after).unwrap() {
        ParsedInput::Task(task) => {
            assert_eq!(task.due_date, Some(today));
            assert_eq!(task.due_time, Some(time("01:30")));
        }
        _ => panic!("expected a task capture"),
    }
    assert!(parse_line("Call in 2 hours", today, &after).is_err());
}

#[test]
fn sync_takes_at_most_one_policy() {
    for (input, expected) in [
        ("/sync", None),
        ("  /sync ours ", Some(SyncPolicy::Ours)),
        ("/sync theirs", Some(SyncPolicy::Theirs)),
    ] {
        match read_line(input, &reference()).unwrap() {
            ParsedInput::Sync(policy) => assert_eq!(policy, expected),
            _ => panic!("expected a sync command"),
        }
    }
    for input in ["/sync mine", "/sync Ours", "/sync ours theirs", "/sync ours ours"] {
        let error = read_line(input, &reference()).unwrap_err();
        assert_eq!(error.code(), "invalid_sync_option", "{input}");
        assert_eq!(error.exit_code(), 2);
        assert_eq!(error.field(), Some("input"));
    }
    assert_eq!(
        read_line("/synced", &reference()).unwrap_err().code(),
        "unknown_input_command"
    );
}

#[test]
fn raw_lines_lose_their_ends_and_are_bounded() {
    for (bytes, expected) in [
        (b"Call\n".as_slice(), Some("Call")),
        (b"Call\r\n".as_slice(), Some("Call")),
        (b" Call".as_slice(), Some(" Call")),
        (b" \t\r\n".as_slice(), None),
        (b"".as_slice(), None),
    ] {
        assert_eq!(raw_line(bytes).unwrap().as_deref(), expected);
    }
    assert!(raw_line(&vec![b'a'; MAX_LINE_BYTES]).is_ok());
    for bytes in [vec![b'a'; MAX_LINE_BYTES + 1], vec![0xff, b'\n']] {
        let error = raw_line(&bytes).unwrap_err();
        assert_eq!(error.code(), "invalid_input");
        assert_eq!(error.field(), Some("input"));
    }
}
