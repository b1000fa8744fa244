use activitywatch::cli::{
    category_name, choose_instant, choose_time, data_str, desktop_params, fmt_duration,
    parse_datetime, printable,
    resolve_datetime, resolve_range, server_port, shorten, total, write_table, ParsedTime,
};
use activitywatch::classes::default_classes;
use activitywatch::event::Event;
use activitywatch::json::{Json, JsonMap};
use activitywatch::time::Instant;
use chrono::{DateTime, Local, TimeZone, Utc};

fn seconds(n: i128) -> i128 {
    n * 1_000_000_000
}

fn nanos(time: DateTime<Utc>) -> i128 {
    i128::from(time.timestamp_nanos_opt().unwrap())
}

fn instant(time: DateTime<Utc>) -> Instant {
    at(time.timestamp(), time.timestamp_subsec_nanos())
}

fn at(seconds: i64, nanos: u32) -> Instant {
    Instant { seconds, nanos }
}

/// Reads a date and time, the local time zone being that of this machine.
fn read(value: &str) -> Result<Instant, String> {
    let parsed = parse_datetime(value);
    let resolved = match &parsed {
        ParsedTime::Local(time) => {
            let naive = DateTime::from_timestamp(time.seconds, time.nanos)
                .unwrap()
                .naive_utc();
            Local
                .from_local_datetime(&naive)
                .earliest()
                .map(|time| instant(time.with_timezone(&Utc)))
        }
        _ => None,
    };
    resolve_datetime(value, parsed, resolved)
}

#[test]
fn formats_durations_like_python_timedelta() {
    assert_eq!(fmt_duration(1500 * 1_000_000), "0:00:01");
    assert_eq!(fmt_duration(seconds(3 * 3600 + 62)), "3:01:02");
    assert_eq!(fmt_duration(seconds(26 * 3600)), "26:00:00");
}

#[test]
fn parses_rfc3339_and_local_datetimes() {
    let utc = read("2024-05-01T09:00:00Z").unwrap();
    assert_eq!(utc, instant(Utc.with_ymd_and_hms(2024, 5, 1, 9, 0, 0).unwrap()));
    let local = Local.with_ymd_and_hms(2024, 5, 1, 9, 30, 0).unwrap();
    let local = instant(local.with_timezone(&Utc));
    assert_eq!(read("2024-05-01 09:30").unwrap(), local);
    assert_eq!(read("2024-05-01T09:30:00").unwrap(), local);
    let midnight = Local.with_ymd_and_hms(2024, 5, 1, 0, 0, 0).unwrap();
    assert_eq!(
        read("2024-05-01").unwrap(),
        instant(midnight.with_timezone(&Utc))
    );
    assert!(read("yesterday").is_err());
}

#[test]
fn shortens_long_titles() {
    assert_eq!(shorten("short   title", 60), "short title");
    let long = "word ".repeat(30);
    let short = shorten(&long, 20);
    assert!(
        short.ends_with("...") && short.chars().count() <= 20,
        "{short}"
    );
}

#[test]
fn escapes_control_characters_in_tables() {
    let out = write_table(
        &vec!["Key".to_string()],
        &vec![vec!["evil\u{1b}]0;pwned\u{7}\ttitle".into()]],
    );
    assert!(!out.chars().any(|c| c.is_control() && c != '\n'), "{out:?}");
    assert!(out.contains("evil\\u{1b}]0;pwned\\u{7}\\ttitle"), "{out:?}");
}

#[test]
fn writes_aligned_tables() {
    let out = write_table(
        &vec!["Duration".to_string(), "Key".to_string()],
        &vec![vec!["0:00:05".into(), "Work".into()]],
    );
    assert_eq!(
        out,
        "Duration  Key\n--------  ----\n0:00:05   Work\n"
    );
}

#[test]
fn negative_durations_count_as_none() {
    assert_eq!(fmt_duration(-1), "0:00:00");
    assert_eq!(fmt_duration(seconds(-3600)), "0:00:00");
}

#[test]
fn unreadable_and_missing_local_times_are_told_apart() {
    assert_eq!(
        read("yesterday").unwrap_err(),
        "invalid date/time \"yesterday\""
    );
    assert_eq!(
        resolve_datetime("2024-03-31 02:30", parse_datetime("2024-03-31 02:30"), None).unwrap_err(),
        "\"2024-03-31 02:30\" doesn't exist in the local time zone"
    );
    assert_eq!(
        read("a \"b\"").unwrap_err(),
        "invalid date/time \"a \\\"b\\\"\""
    );
}

#[test]
fn local_times_are_read_in_every_format() {
    let expected = instant(Utc.with_ymd_and_hms(2024, 5, 1, 9, 30, 15).unwrap());
    let minute = instant(Utc.with_ymd_and_hms(2024, 5, 1, 9, 30, 0).unwrap());
    let day = instant(Utc.with_ymd_and_hms(2024, 5, 1, 0, 0, 0).unwrap());
    let local = |value: &str| match parse_datetime(value) {
        ParsedTime::Local(time) => time,
        other => panic!("{other:?}"),
    };
    assert_eq!(local("2024-05-01T09:30:15"), expected);
    assert_eq!(local("2024-05-01 09:30:15"), expected);
    assert_eq!(local("2024-05-01T09:30"), minute);
    assert_eq!(local("2024-05-01 09:30"), minute);
    assert_eq!(local("2024-05-01"), day);
    assert_eq!(local("1969-12-31"), at(-86_400, 0));
}

#[test]
fn offsets_and_fractions_are_read() {
    match parse_datetime("2024-05-01T09:00:00.25+02:00") {
        ParsedTime::Instant(time) => assert_eq!(
            time,
            Instant {
                nanos: 250_000_000,
                ..instant(Utc.with_ymd_and_hms(2024, 5, 1, 7, 0, 0).unwrap())
            }
        ),
        other => panic!("{other:?}"),
    }
}

#[test]
fn leap_seconds_are_kept() {
    let last = Utc.with_ymd_and_hms(2016, 12, 31, 23, 59, 59).unwrap();
    let leap = at(last.timestamp(), 1_500_000_000);
    assert_eq!(read("2016-12-31T23:59:60.5Z").unwrap(), leap);
    assert_eq!(read("2017-01-01T00:59:60.5+01:00").unwrap(), leap);
    assert!(matches!(
        parse_datetime("2016-12-31 23:59:60"),
        ParsedTime::Local(time) if time == at(last.timestamp(), 1_000_000_000)
    ));
    assert_eq!(resolve_range(Some(leap), Some(leap), 0), (leap, leap));
}

#[test]
fn ranges_reach_from_a_day_ago_to_a_year_from_now() {
    let now = nanos(Utc.with_ymd_and_hms(2024, 5, 1, 9, 0, 0).unwrap());
    assert_eq!(
        resolve_range(None, None, now),
        (
            instant(Utc.with_ymd_and_hms(2024, 4, 30, 9, 0, 0).unwrap()),
            instant(Utc.with_ymd_and_hms(2025, 5, 1, 9, 0, 0).unwrap())
        )
    );
    assert_eq!(resolve_range(Some(at(1, 0)), Some(at(2, 0)), now), (at(1, 0), at(2, 0)));
}

#[test]
fn ports_have_defaults() {
    assert_eq!(server_port(None, false), 5600);
    assert_eq!(server_port(None, true), 5666);
    assert_eq!(server_port(Some(80), true), 80);
}

#[test]
fn shortening_cuts_at_the_width() {
    assert_eq!(shorten("  a \t b\u{a0}c ", 60), "a b c");
    assert_eq!(shorten("abcdef", 6), "abcdef");
    assert_eq!(shorten("abcdefg", 6), "abc...");
    // No space is left before the dots.
    assert_eq!(shorten("ab cdefg", 6), "ab...");
    assert_eq!(shorten("abcdef", 2), "...");
    // Shortening again changes nothing.
    for text in ["  a \t b\u{a0}c ", "ab cdefg", "abcdefg", ""] {
        for width in [0, 2, 3, 4, 6, 60] {
            let short = shorten(text, width);
            assert_eq!(shorten(&short, width), short);
        }
    }
}

#[test]
fn control_characters_are_escaped() {
    assert_eq!(printable("a\tb\r\nc"), "a\\tb\\r\\nc");
    assert_eq!(printable("\u{0}\u{1f}\u{7f}\u{85}"), "\\u{0}\\u{1f}\\u{7f}\\u{85}");
    assert_eq!(printable("\"quoted\" \\ åäö"), "\"quoted\" \\ åäö");
}

#[test]
fn tables_are_as_wide_as_their_widest_cell() {
    let out = write_table(
        &vec!["A".to_string(), "Beta".to_string(), "C".to_string()],
        &vec![
            vec!["xyz".into(), "å".into(), "".into()],
            vec!["x".into(), "".into(), "last".into()],
        ],
    );
    assert_eq!(
        out,
        "A    Beta  C\n---  ----  ----\nxyz  å\nx          last\n"
    );
}

#[test]
fn values_are_shown_as_text() {
    let mut data = JsonMap::new();
    data.insert("title".into(), Json::Text("main.rs".into()));
    data.insert("n".into(), Json::Number("1".into()));
    assert_eq!(data_str(&data, "title", "\"main.rs\""), "main.rs");
    assert_eq!(data_str(&data, "n", "1"), "1");
    assert_eq!(data_str(&data, "none", ""), "");
}

#[test]
fn categories_are_joined() {
    let mut data = JsonMap::new();
    let parts = vec![
        Json::Text("Work".into()),
        Json::Number("3".into()),
        Json::Text("Rust".into()),
    ];
    data.insert("$category".into(), Json::Array(parts));
    let written = vec!["\"Work\"".to_string(), "3".to_string(), "\"Rust\"".to_string()];
    assert_eq!(category_name(&data, &written, ""), "Work > 3 > Rust");

    let mut data = JsonMap::new();
    data.insert("$category".into(), Json::Text("Media".into()));
    assert_eq!(category_name(&data, &vec![], "\"Media\""), "Media");
    assert_eq!(category_name(&JsonMap::new(), &vec![], ""), "");
}

#[test]
fn totals_add_up() {
    let events: Vec<Event> = [1, 2, 3]
        .iter()
        .map(|n| Event::new(0, seconds(*n), JsonMap::new()))
        .collect();
    assert_eq!(total(&events), seconds(6));
    assert_eq!(total(&vec![]), 0);
}

#[test]
fn desktop_queries_name_the_watchers_of_the_host() {
    let params = desktop_params("clihost", default_classes());
    assert_eq!(params.bid_window, "aw-watcher-window_clihost");
    assert_eq!(params.bid_afk, "aw-watcher-afk_clihost");
    assert_eq!(params.base.classes.len(), 13);
    assert!(params.base.filter_afk && params.base.include_audible);
    assert!(params.base.bid_browsers.is_empty() && params.base.filter_classes.is_empty());
    assert!(params.always_active_pattern.is_none());
}

#[test]
fn the_first_reading_of_a_time_is_chosen() {
    let no = || Err("invalid".to_string());
    let (five, six) = (at(5, 0), at(6, 0));
    assert!(matches!(
        choose_time(Ok((5, 7)), Some((1, 1)), Some(1)),
        ParsedTime::Instant(time) if time == at(5, 7)
    ));
    assert!(matches!(
        choose_time(no(), Some((-1, 1)), Some(1)),
        ParsedTime::Local(time) if time == at(-1, 1)
    ));
    assert!(matches!(
        choose_time(no(), None, Some(719_163)),
        ParsedTime::Local(time) if time == at(0, 0)
    ));
    assert!(matches!(
        choose_time(no(), None, Some(719_164)),
        ParsedTime::Local(time) if time == at(86_400, 0)
    ));
    assert!(matches!(choose_time(no(), None, None), ParsedTime::Unknown));
    assert_eq!(choose_instant("x", ParsedTime::Instant(five), None), Ok(five));
    assert_eq!(choose_instant("x", ParsedTime::Local(five), Some(six)), Ok(six));
    assert_eq!(
        choose_instant("x", ParsedTime::Local(five), None),
        Err("x doesn't exist in the local time zone".to_string())
    );
    assert_eq!(
        choose_instant("x", ParsedTime::Unknown, Some(six)),
        Err("invalid date/time x".to_string())
    );
}
