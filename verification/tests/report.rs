use timereport::date::{month_to_string, weekday_of, Date};
use timereport::parse::read_report;
use timereport::render::{remainder_minutes, rounded_minutes};
use timereport::split::{day_reports_from_contributions, day_reports_from_entries, DayReport};
use timereport::{process_report, Config, ReportError};

fn as_chrono(d: Date) -> chrono::NaiveDate {
    chrono::NaiveDate::from_ymd_opt(d.year, d.month as u32, d.day as u32).unwrap()
}

fn date(year: i32, month: u8, day: u8) -> Date {
    Date { year, month, day }
}

#[test]
fn one_entry_spanning_two_midnights_yield_three_day_reports() {
    let year = 2020;
    let day1_str = "1 Jan";
    let day2_str = "2 Jan";
    let day3_str = "3 Jan";
    let line = format!("Work;0,2;{} 23:59;{} 00:02;", day1_str, day3_str);
    let entries = read_report(&line);
    let day_reports = day_reports_from_entries(&entries, year).unwrap();

    let date1 =
        chrono::NaiveDate::parse_from_str(format!("{} {}", year, day1_str).as_str(), "%Y %d %b")
            .unwrap();
    assert_eq!(as_chrono(day_reports[0].date), date1);
    assert_eq!(day_reports[0].seconds, 60);

    let date2 =
        chrono::NaiveDate::parse_from_str(format!("{} {}", year, day2_str).as_str(), "%Y %d %b")
            .unwrap();
    assert_eq!(as_chrono(day_reports[1].date), date2);
    assert_eq!(day_reports[1].seconds, 24 * 60 * 60);

    let date3 =
        chrono::NaiveDate::parse_from_str(format!("{} {}", year, day3_str).as_str(), "%Y %d %b")
            .unwrap();
    assert_eq!(as_chrono(day_reports[2].date), date3);
    assert_eq!(day_reports[2].seconds, 120);

    assert_eq!(day_reports.len(), 3);
}

#[test]
fn work_entry_yields_three_exact_day_totals() {
    let entries = read_report("Work;0:02;1 Jan 23:59;3 Jan 00:02;");
    let totals = day_reports_from_entries(&entries, 2020).unwrap();
    assert_eq!(totals.len(), 3);
    assert_eq!(totals[0].date, date(2020, 1, 1));
    assert_eq!(totals[0].seconds, 60);
    assert_eq!(totals[1].date, date(2020, 1, 2));
    assert_eq!(totals[1].seconds, 86400);
    assert_eq!(totals[2].date, date(2020, 1, 3));
    assert_eq!(totals[2].seconds, 120);
}

#[test]
fn same_date_contributions_aggregate_to_one_total() {
    let d = date(2020, 6, 15);
    let contribs = vec![(d, 90i64), (d, 30i64)];
    let totals = day_reports_from_contributions(&contribs);
    assert_eq!(totals.len(), 1);
    assert_eq!(totals[0].date, d);
    assert_eq!(totals[0].seconds, 120);
}

#[test]
fn contributions_come_out_sorted_by_date() {
    let contribs = vec![
        (date(2020, 3, 2), 10i64),
        (date(2020, 1, 30), 20i64),
        (date(2020, 3, 2), 5i64),
        (date(2019, 12, 31), 7i64),
    ];
    let totals = day_reports_from_contributions(&contribs);
    assert_eq!(totals.len(), 3);
    assert_eq!(totals[0].date, date(2019, 12, 31));
    assert_eq!(totals[0].seconds, 7);
    assert_eq!(totals[1].date, date(2020, 1, 30));
    assert_eq!(totals[1].seconds, 20);
    assert_eq!(totals[2].date, date(2020, 3, 2));
    assert_eq!(totals[2].seconds, 15);
}

#[test]
fn rounding_with_three_minute_unit() {
    assert_eq!(rounded_minutes(125 * 60, 3), 123);
    assert_eq!(remainder_minutes(125 * 60, 3), 2);
}

#[test]
fn rounding_with_other_units() {
    assert_eq!(rounded_minutes(125 * 60, 60), 120);
    assert_eq!(remainder_minutes(125 * 60, 60), 5);
    assert_eq!(rounded_minutes(0, 3), 0);
    assert_eq!(remainder_minutes(0, 3), 0);
    assert_eq!(rounded_minutes(179, 1), 2);
    assert_eq!(remainder_minutes(179, 1), 0);
}

#[test]
fn header_row_is_skipped_and_short_trailer_stops_parsing() {
    let text = "Activity type;Duration;From;To;Comment\nWork;1:00;1 Jan 10:00;1 Jan 11:00;\nfoo;bar;baz\nMore;x;2 Jan 10:00;2 Jan 10:30;\n";
    let entries = read_report(text);
    assert_eq!(entries.len(), 1);
    let totals = day_reports_from_entries(&entries, 2020).unwrap();
    assert_eq!(totals.len(), 1);
    assert_eq!(totals[0].date, date(2020, 1, 1));
    assert_eq!(totals[0].seconds, 3600);
}

#[test]
fn parsing_twice_gives_identical_day_totals() {
    let text = "A;;1 Jan 10:00;2 Jan 09:00;\nB;;1 Jan 22:00;1 Jan 23:30;x\n";
    let first = day_reports_from_entries(&read_report(text), 2022).unwrap();
    let second = day_reports_from_entries(&read_report(text), 2022).unwrap();
    assert_eq!(first, second);
}

#[test]
fn malformed_timestamp_is_fatal() {
    let entries = read_report("Work;x;1 Foo 10:00;1 Jan 11:00;");
    assert_eq!(
        day_reports_from_entries(&entries, 2020),
        Err(ReportError::MalformedTimestamp)
    );
    let entries = read_report("Work;x;1 Jan 10:60;1 Jan 11:00;");
    assert_eq!(
        day_reports_from_entries(&entries, 2020),
        Err(ReportError::MalformedTimestamp)
    );
    let entries = read_report("Work;x;31 Feb 10:00;1 Mar 11:00;");
    assert_eq!(
        day_reports_from_entries(&entries, 2021),
        Err(ReportError::MalformedTimestamp)
    );
}

#[test]
fn inverted_interval_is_fatal() {
    let entries = read_report("Work;x;2 Jan 10:00;1 Jan 09:00;");
    assert_eq!(
        day_reports_from_entries(&entries, 2020),
        Err(ReportError::InvertedInterval)
    );
}

#[test]
fn zero_duration_entry_keeps_its_date() {
    let entries = read_report("Idle;;5 Mar 10:00;5 Mar 10:00;");
    let totals = day_reports_from_entries(&entries, 2020).unwrap();
    assert_eq!(totals.len(), 1);
    assert_eq!(totals[0].date, date(2020, 3, 5));
    assert_eq!(totals[0].seconds, 0);
}

#[test]
fn leap_day_parses_only_in_leap_years() {
    let entries = read_report("W;;29 Feb 08:00;29 Feb 09:00;");
    assert!(day_reports_from_entries(&entries, 2020).is_ok());
    assert_eq!(
        day_reports_from_entries(&entries, 2021),
        Err(ReportError::MalformedTimestamp)
    );
}

#[test]
fn month_names_match() {
    assert_eq!(month_to_string(1), "Jan");
    assert_eq!(month_to_string(6), "Jun");
    assert_eq!(month_to_string(12), "Dec");
}

#[test]
fn weekday_agrees_with_chrono() {
    let samples = [
        date(2020, 1, 1),
        date(2020, 2, 29),
        date(1999, 12, 31),
        date(2026, 10, 11),
        date(1, 1, 1),
        date(9999, 12, 31),
    ];
    for d in samples {
        let expected = chrono::Datelike::weekday(&as_chrono(d)).num_days_from_monday();
        assert_eq!(weekday_of(&d) as u32, expected);
    }
}

#[test]
fn rendered_lines_match_layout_with_remainder() {
    let lines = process_report("Work;;1 Jan 08:00;1 Jan 10:05;", 2020, 3, true).unwrap();
    assert_eq!(
        lines,
        vec![
            "Jan 2020   002:03 +2".to_string(),
            "  Week 01   02:03 +2".to_string(),
            "    01 Wed  02:03 +2".to_string(),
        ]
    );
}

#[test]
fn rendered_lines_use_iso_week_of_date() {
    // 2021-01-01 falls in ISO week 53 of the previous ISO year.
    let lines = process_report("Party;;1 Jan 10:00;1 Jan 10:03;", 2021, 3, false).unwrap();
    assert_eq!(
        lines,
        vec![
            "Jan 2021   000:03".to_string(),
            "  Week 53   00:03".to_string(),
            "    01 Fri  00:03".to_string(),
        ]
    );
}

#[test]
fn month_change_emits_new_headers_and_splits_boundary_week() {
    let text = "A;;31 Jan 10:00;31 Jan 10:30;\nB;;1 Feb 10:00;1 Feb 10:30;\n";
    let lines = process_report(text, 2020, 3, false).unwrap();
    assert_eq!(
        lines,
        vec![
            "Jan 2020   000:30".to_string(),
            "  Week 05   00:30".to_string(),
            "    31 Fri  00:30".to_string(),
            "Feb 2020   000:30".to_string(),
            "  Week 05   00:30".to_string(),
            "    01 Sat  00:30".to_string(),
        ]
    );
}

#[test]
fn empty_input_renders_nothing() {
    assert_eq!(read_report("").len(), 0);
    let lines = process_report("", 2020, 3, false).unwrap();
    assert_eq!(lines.len(), 0);
}

#[test]
fn entry_fields_are_kept_verbatim() {
    let entries = read_report("A;B;1 Jan 10:00;1 Jan 10:30;C");
    assert_eq!(entries.len(), 1);
    assert_eq!(entries[0].activity, b"A".to_vec());
    assert_eq!(entries[0].duration, b"B".to_vec());
    assert_eq!(entries[0].from, b"1 Jan 10:00".to_vec());
    assert_eq!(entries[0].to, b"1 Jan 10:30".to_vec());
    assert_eq!(entries[0].comment, b"C".to_vec());
}

#[test]
fn error_messages_describe_the_condition() {
    assert_eq!(
        ReportError::MalformedTimestamp.message(),
        "malformed timestamp in report entry"
    );
    assert_eq!(
        ReportError::InvertedInterval.message(),
        "report entry ends before it starts"
    );
}

#[test]
fn day_report_starts_empty_and_config_holds_values() {
    let r = DayReport::new(date(2020, 5, 4));
    assert_eq!(r.date, date(2020, 5, 4));
    assert_eq!(r.seconds, 0);
    let c = Config { input: String::from("report.csv"), minutes_per_unit: 3, verbose: true };
    assert_eq!(c.input, "report.csv");
    assert_eq!(c.minutes_per_unit, 3);
    assert!(c.verbose);
}

#[test]
fn one_midnight_splits_into_two_exact_parts() {
    let entries = read_report("N;;1 Jan 22:00;2 Jan 03:30;");
    let totals = day_reports_from_entries(&entries, 2020).unwrap();
    assert_eq!(totals.len(), 2);
    assert_eq!(totals[0].date, date(2020, 1, 1));
    assert_eq!(totals[0].seconds, 7200);
    assert_eq!(totals[1].date, date(2020, 1, 2));
    assert_eq!(totals[1].seconds, 12600);
    assert_eq!(totals[0].seconds + totals[1].seconds, 5 * 3600 + 1800);
}
