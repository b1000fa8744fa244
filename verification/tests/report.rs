use activitywatch::cli::{category_name, data_str};
use activitywatch::event::Event;
use activitywatch::json::{Json, JsonMap};
use activitywatch::report::{
    activity_report, buckets_report, canonical_report, describe_last_events, events_report,
    fmt_starts, fmt_time, heartbeat_data, list_events,
    print_top, query_report, sort_texts,
};
use chrono::{TimeZone, Utc};

fn seconds(n: i128) -> i128 {
    n * 1_000_000_000
}

fn start() -> i128 {
    let time = Utc.with_ymd_and_hms(2024, 5, 1, 9, 0, 0).unwrap();
    i128::from(time.timestamp_nanos_opt().unwrap())
}

fn event(minute: i128, duration: i128, app: &str, title: &str) -> Event {
    let mut data = JsonMap::new();
    data.insert("app".into(), Json::Text(app.into()));
    data.insert("title".into(), Json::Text(title.into()));
    Event::new(start() + seconds(60 * minute), seconds(duration), data)
}

#[test]
fn commands_render_their_results() {
    let host = "clihost";
    let window = format!("aw-watcher-window_{host}");
    let afk = format!("aw-watcher-afk_{host}");

    // buckets
    let out = buckets_report(vec![window.clone(), afk]);
    assert!(out.starts_with("Buckets:\n"), "{out}");
    assert!(out.contains(&format!(" - {window}\n")), "{out}");

    // heartbeat, then events
    let mut k = JsonMap::new();
    k.insert("k".into(), Json::Number("1".into()));
    let data = heartbeat_data(Json::Object(k)).unwrap();
    let heartbeat = Event::new(start(), 0, data);
    let out = events_report(&vec![heartbeat], &vec!["{\"k\":1}".to_string()]);
    assert!(out.starts_with("events:\n - "), "{out}");
    assert!(out.contains("(0:00:00) {\"k\":1}"), "{out}");

    // query
    let events = vec![
        event(30, 600, "vim", "main.rs - GitHub"),
        event(10, 300, "Firefox", "Reddit"),
    ];
    let data = vec!["{}".to_string(), "{}".to_string()];
    let out = query_report(&events, &data);
    assert!(out.contains("Showing 10 out of 2 events:"), "{out}");
    assert!(out.contains("Total duration:\t 0:15:00"), "{out}");
    // A range with no events
    let out = query_report(&vec![], &vec![]);
    assert!(out.contains("Showing 10 out of 0 events:"), "{out}");

    // report
    let mut work = JsonMap::new();
    let parts = vec![Json::Text("Work".into()), Json::Text("Programming".into())];
    work.insert("$category".into(), Json::Array(parts));
    let mut media = JsonMap::new();
    let parts = vec![Json::Text("Media".into()), Json::Text("Social Media".into())];
    media.insert("$category".into(), Json::Array(parts));
    let cat_events = vec![
        Event::new(start(), seconds(600), work),
        Event::new(start(), seconds(300), media),
    ];
    let unused = vec![String::new(), String::new()];
    let categories: Vec<String> = cat_events
        .iter()
        .map(|e| category_name(&e.data, &unused, ""))
        .collect();
    let titles: Vec<String> = events
        .iter()
        .map(|e| data_str(&e.data, "title", ""))
        .collect();
    let out = activity_report(&cat_events, &categories, &events, &titles, 10, 900_000);
    assert!(out.contains("Top 10 Categories"), "{out}");
    assert!(out.contains("Work > Programming"), "{out}");
    assert!(out.contains("Media > Social Media"), "{out}");
    assert!(out.contains("Top 10 Titles"), "{out}");
    assert!(out.contains("main.rs - GitHub"), "{out}");
    assert!(out.contains("Total duration:\t 0:15:00"), "{out}");

    // canonical
    let apps: Vec<String> = events.iter().map(|e| data_str(&e.data, "app", "")).collect();
    let out = canonical_report(&events, &apps, &titles);
    assert!(out.contains("Showing last 10 out of 2 events:"), "{out}");
    assert!(out.contains("[vim] main.rs - GitHub"), "{out}");
    assert!(out.contains("[Firefox] Reddit"), "{out}");
}

#[test]
fn times_are_written_to_the_second() {
    assert_eq!(fmt_time(start()), "2024-05-01 09:00:00");
    assert_eq!(fmt_time(start() + 999_999_999), "2024-05-01 09:00:00");
    assert_eq!(fmt_time(-1), "1969-12-31 23:59:59");
}

#[test]
fn buckets_are_sorted_and_printable() {
    let ids = vec!["b".to_string(), "a\u{1b}".to_string(), "B".to_string()];
    assert_eq!(
        buckets_report(ids),
        "Buckets:\n - B\n - a\\u{1b}\n - b\n"
    );
    let mut list: Vec<String> = ["ab", "a", "", "å", "z", "ab", "aa", "\u{10000}", "\u{ffff}"]
        .iter()
        .map(|s| s.to_string())
        .collect();
    let sorted = sort_texts(list.clone());
    list.sort();
    assert_eq!(sorted, list);
}

#[test]
fn only_objects_are_heartbeat_data() {
    assert_eq!(
        heartbeat_data(Json::Array(vec![])).unwrap_err(),
        "data must be a JSON object"
    );
}

#[test]
fn the_longest_come_first_in_the_top() {
    let events = vec![
        event(0, 5, "a", ""),
        event(1, 60, "b", ""),
        event(2, 5, "c", ""),
        event(3, 7, "d", ""),
    ];
    let keys: Vec<String> = events.iter().map(|e| data_str(&e.data, "app", "")).collect();
    assert_eq!(
        print_top(&events, &keys, "Titles", 3),
        "Top 3 Titles (out of 4)\nDuration  Key\n--------  ---\n0:01:00   b\n0:00:07   d\n0:00:05   a\n\n"
    );
    assert_eq!(
        print_top(&events[..1].to_vec(), &keys[..1].to_vec(), "Titles", 3),
        "Top 3 Titles\nDuration  Key\n--------  ---\n0:00:05   a\n\n"
    );
}

#[test]
fn queries_show_the_first_ten_events() {
    let events: Vec<Event> = (0..12).map(|n| event(n, n, "a", "b")).collect();
    let data: Vec<String> = (0..12).map(|n| format!("d{n}")).collect();
    let out = query_report(&events, &data);
    assert!(out.starts_with("Showing 10 out of 12 events:\n - Duration: 0:00:00 \tData: d0\n"));
    assert!(out.contains(" - Duration: 0:00:09 \tData: d9\nTotal duration:\t 0:01:06\n"));
    assert!(!out.contains("d10"));
}

#[test]
fn canonical_events_are_the_last_ten() {
    let events: Vec<Event> = (0..12).map(|n| event(n, 1, "vim", "x")).collect();
    let apps: Vec<String> = (0..12).map(|n| format!("app{n}")).collect();
    let titles = vec!["a  title".to_string(); 12];
    let out = canonical_report(&events, &apps, &titles);
    assert!(out.starts_with(
        "\nShowing last 10 out of 12 events:\nTimestamp            Duration  Data\n"
    ));
    assert!(!out.contains("[app1]"));
    assert!(out.contains("2024-05-01 09:02:00  0:00:01   [app2] a title\n"));
    assert!(out.ends_with("[app11] a title\n\nTotal duration:\t 0:00:12\n"));
}

#[test]
fn reports_take_the_times_as_they_are_written() {
    let events = vec![event(0, 61, "vim", "main.rs"), event(1, 5, "a", "b")];
    let times = vec!["first".to_string(), "second".to_string()];
    let data = vec!["{}".to_string(), "[]".to_string()];
    assert_eq!(
        list_events(&times, &events, &data),
        "events:\n - first (0:01:01) {}\n - second (0:00:05) []\n"
    );
    assert_eq!(fmt_starts(&events, 1), vec!["2024-05-01 09:01:00"]);
    let apps = vec!["vim".to_string(), "a".to_string()];
    let titles = vec!["main.rs".to_string(), "b".to_string()];
    assert_eq!(
        describe_last_events(&times, &events, &apps, &titles),
        "\nShowing last 10 out of 2 events:\nTimestamp  Duration  Data\n---------  --------  -------------\nfirst      0:01:01   [vim] main.rs\nsecond     0:00:05   [a] b\n\nTotal duration:\t 0:01:06\n"
    );
}
