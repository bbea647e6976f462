use rtimelog::date::Date;
use rtimelog::date::DateTime;
use rtimelog::store::render_timestamp;
use rtimelog::store::ParseError;
use rtimelog::store::Timelog;

const TWO_DAYS: &str = "
2022-06-09 06:02: arrived
2022-06-09 06:27: email
2022-06-09 06:32: **tea
2022-06-09 12:00: work

2022-06-10 07:00: arrived
2022-06-10 12:05: rtimelog: code
2022-06-10 12:30: **lunch
2022-06-10 14:00: rtimelog: code
2022-06-10 15:00: bug triage
2022-06-10 16:00: customer joe: support
";

#[test]
fn test_parse_line_valid() {
    let e1 = Timelog::parse_line("2022-05-31 13:59: email").unwrap();
    assert_eq!(e1.task, "email");
    assert_eq!(render_timestamp(&e1.stop), "2022-05-31 13:59");

    let e2 = Timelog::parse_line("2022-05-31 14:07: read docs").unwrap();
    assert_eq!(e2.task, "read docs");
    assert_eq!(render_timestamp(&e2.stop), "2022-05-31 14:07");

    let m1 = e1.stop.hour as i32 * 60 + e1.stop.minute as i32;
    let m2 = e2.stop.hour as i32 * 60 + e2.stop.minute as i32;
    assert_eq!(m2 - m1, 8);
}

#[test]
fn test_parse_line_invalid() {
    assert_eq!(Timelog::parse_line(""), None);
    assert_eq!(Timelog::parse_line("  "), None);
    assert_eq!(Timelog::parse_line("a"), None);
    // no ': '
    assert_eq!(Timelog::parse_line("2022-05-31 13:59 email"), None);
    // invalid time
    assert_eq!(Timelog::parse_line("2022-05-31 25:61: email"), None);
    // invalid date
    assert_eq!(Timelog::parse_line("2022-13-32 13:59: email"), None);
}

#[test]
fn test_parse_valid() {
    let entries = Timelog::parse("").unwrap();
    assert_eq!(entries.len(), 0);

    let entries = Timelog::parse(TWO_DAYS).unwrap();
    assert_eq!(entries.len(), 10);
    assert_eq!(entries[0].render(), "2022-06-09 06:02: arrived");
    assert_eq!(entries[9].render(), "2022-06-10 16:00: customer joe: support");
}

#[test]
#[should_panic]
fn test_parse_out_of_order() {
    Timelog::parse(
        "
2022-06-09 06:02: arrived
2022-06-09 06:10: ** tea
2022-06-08 07:32: huh, previous day
",
    )
    .unwrap();
}

#[test]
fn test_constructor() {
    let tl = Timelog::new_from_string("").unwrap();
    assert_eq!(tl.get_all().len(), 0);

    let tl = Timelog::new_from_string(TWO_DAYS).unwrap();
    let entries = tl.get_all();
    assert_eq!(entries[0].render(), "2022-06-09 06:02: arrived");
    assert_eq!(entries[9].render(), "2022-06-10 16:00: customer joe: support");
    assert_eq!(entries.len(), 10);
}

#[test]
fn test_get_day() {
    let tl = Timelog::new_from_string("").unwrap();
    assert_eq!(
        tl.get_day(&Date { year: 2022, month: 6, day: 8 }).len(),
        0
    );

    let tl = Timelog::new_from_string(TWO_DAYS).unwrap();
    assert_eq!(
        tl.get_day(&Date { year: 2022, month: 6, day: 8 }).len(),
        0
    );

    let entries = tl.get_day(&Date { year: 2022, month: 6, day: 9 });
    assert_eq!(entries.len(), 4);
    assert_eq!(entries[0].render(), "2022-06-09 06:02: arrived");
    assert_eq!(entries[3].render(), "2022-06-09 12:00: work");

    let entries = tl.get_day(&Date { year: 2022, month: 6, day: 10 });
    assert_eq!(entries.len(), 6);
    assert_eq!(entries[0].render(), "2022-06-10 07:00: arrived");
    assert_eq!(entries[5].render(), "2022-06-10 16:00: customer joe: support");
}

#[test]
fn test_format_store() {
    let tl = Timelog::new_from_string(TWO_DAYS).unwrap();
    // simple roundtrip; but our constant starts with an empty line
    assert_eq!(tl.format_store(), TWO_DAYS.trim_start());
}

#[test]
fn test_add() {
    let mut tl = Timelog::new_from_string("").unwrap();
    tl.add("think hard".to_string());
    assert_eq!(tl.get_all().len(), 1);
    assert_eq!(tl.get_all()[0].task, "think hard");
}

#[test]
fn test_round_trip_same_day() {
    let input = "2022-06-09 06:02: arrived\n2022-06-09 06:27: email\n";
    let tl = Timelog::new_from_string(input).unwrap();
    assert_eq!(tl.get_all().len(), 2);
    // no leading blank line, no blank line within a day
    assert_eq!(tl.format_store(), input);
}

#[test]
fn test_parse_error_value() {
    let err = Timelog::parse(
        "2022-06-09 06:02: arrived\n2022-06-08 07:32: earlier\n",
    )
    .unwrap_err();
    assert_eq!(err, ParseError::TimeRegression);
}

#[test]
fn test_malformed_lines_kept_out() {
    let blob = "
junk without separator
2022-06-09 06:02: arrived
2022-99-09 06:10: bad month
2022-06-09 06:27: email
not a date: but with separator
";
    let entries = Timelog::parse(blob).unwrap();
    assert_eq!(entries.len(), 2);
    assert_eq!(entries[0].render(), "2022-06-09 06:02: arrived");
    assert_eq!(entries[1].render(), "2022-06-09 06:27: email");

    // the dropped non-blank lines are reported, trimmed, in order
    let (entries, skipped) = Timelog::parse_with_warnings(blob).unwrap();
    assert_eq!(entries.len(), 2);
    assert_eq!(
        skipped,
        vec![
            "junk without separator".to_string(),
            "2022-99-09 06:10: bad month".to_string(),
            "not a date: but with separator".to_string(),
        ]
    );
}

#[test]
fn test_trim_unicode_whitespace() {
    // no-break space and ideographic space count as whitespace, as str::trim has it
    let e = Timelog::parse_line("\u{00A0}2022-05-31 13:59: email\u{3000}").unwrap();
    assert_eq!(e.task, "email");
}

#[test]
fn test_leap_year_days() {
    // 2024 is a leap year, 2022 is not; 1900 is not, 2000 is.
    assert!(Timelog::parse_line("2024-02-29 10:00: leap").is_some());
    assert!(Timelog::parse_line("2022-02-29 10:00: no leap").is_none());
    assert!(Timelog::parse_line("2000-02-29 10:00: leap century").is_some());
    assert!(Timelog::parse_line("1900-02-29 10:00: no leap century").is_none());
    assert!(Timelog::parse_line("2022-04-31 10:00: short month").is_none());
}

#[test]
fn test_render_timestamp_padded() {
    let dt = DateTime { year: 987, month: 1, day: 2, hour: 3, minute: 4 };
    assert_eq!(render_timestamp(&dt), "0987-01-02 03:04");
}

#[test]
fn test_task_keeps_later_colons() {
    let e = Timelog::parse_line("2022-06-10 16:00: customer joe: support").unwrap();
    assert_eq!(e.task, "customer joe: support");
    assert_eq!(e.stop, DateTime { year: 2022, month: 6, day: 10, hour: 16, minute: 0 });
}

#[test]
fn test_get_today_subset() {
    let tl = Timelog::new_from_string(TWO_DAYS).unwrap();
    // whatever today is, it is not a day of the 2022 fixture
    let today = tl.get_today();
    assert!(today.len() <= tl.get_all().len());
    let mut tl = tl;
    tl.add("just now".to_string());
    let today = tl.get_today();
    assert_eq!(today[today.len() - 1].task, "just now");
}
