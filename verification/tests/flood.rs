use activitywatch::event::Event;
use activitywatch::flood::flood;
use activitywatch::json::{Json, JsonMap};
use chrono::{DateTime, Utc};

fn seconds(n: i128) -> i128 {
    n * 1_000_000_000
}

fn millis(n: i128) -> i128 {
    n * 1_000_000
}

/// The instant that a text stands for, in nanoseconds since the Unix epoch.
fn time(text: &str) -> i128 {
    let time: DateTime<Utc> = text.parse().unwrap();
    i128::from(time.timestamp_nanos_opt().unwrap())
}

fn text(value: &str) -> Json {
    Json::Text(value.to_string())
}

fn map(name: &str, value: Json) -> JsonMap {
    let mut map = JsonMap::new();
    map.insert(name.to_string(), value);
    map
}

fn number(n: i64) -> Json {
    Json::Number(n.to_string())
}

#[test]
fn test_flood_merge() {
    // Test merging of events with the same data
    let e1 = Event {
        id: None,
        timestamp: time("2000-01-01T00:00:00Z"),
        duration: seconds(1),
        data: map("test", number(1)),
    };
    let e2 = Event {
        id: None,
        timestamp: time("2000-01-01T00:00:03Z"),
        duration: seconds(1),
        data: map("test", number(1)),
    };
    let e_expected = Event {
        id: None,
        timestamp: time("2000-01-01T00:00:00Z"),
        duration: seconds(4),
        data: map("test", number(1)),
    };
    let res = flood(vec![e1, e2], seconds(5));
    assert_eq!(1, res.len());
    assert_eq!(&res[0], &e_expected);
}

#[test]
fn test_flood_meet_in_middle() {
    // Test flood gap between two different events which should meet in the middle
    let e1 = Event {
        id: None,
        timestamp: time("2000-01-01T00:00:00Z"),
        duration: seconds(1),
        data: map("test", number(1)),
    };
    let e2 = Event {
        id: None,
        timestamp: time("2000-01-01T00:00:03Z"),
        duration: seconds(1),
        data: map("test", number(2)),
    };
    let e1_expected = Event {
        id: None,
        timestamp: time("2000-01-01T00:00:00Z"),
        duration: seconds(2),
        data: map("test", number(1)),
    };
    let e2_expected = Event {
        id: None,
        timestamp: time("2000-01-01T00:00:02Z"),
        duration: seconds(2),
        data: map("test", number(2)),
    };
    let res = flood(vec![e1, e2], seconds(5));
    assert_eq!(2, res.len());
    assert_eq!(&res[0], &e1_expected);
    assert_eq!(&res[1], &e2_expected);
}

#[test]
fn test_flood_partial_overlap() {
    // Tests flooding an identical event contained within another event
    let e1 = Event {
        id: None,
        timestamp: time("2000-01-01T00:00:00Z"),
        duration: seconds(10),
        data: map("type", text("a")),
    };
    let e2 = Event {
        id: None,
        timestamp: time("2000-01-01T00:00:05Z"),
        duration: seconds(10),
        data: map("type", text("a")),
    };
    let e1_expected = Event {
        id: None,
        timestamp: time("2000-01-01T00:00:00Z"),
        duration: seconds(15),
        data: map("type", text("a")),
    };
    let res = flood(vec![e1, e2], seconds(5));
    assert_eq!(1, res.len());
    assert_eq!(&res[0], &e1_expected);
}

#[test]
fn test_flood_containing() {
    // Tests flooding an identical event contained within another event
    let e1 = Event {
        id: None,
        timestamp: time("2000-01-01T00:00:00Z"),
        duration: seconds(10),
        data: map("type", text("a")),
    };
    let e2 = Event {
        id: None,
        timestamp: time("2000-01-01T00:00:01Z"),
        duration: seconds(5),
        data: map("type", text("a")),
    };
    let res = flood(vec![e1.clone(), e2], seconds(5));
    assert_eq!(1, res.len());
    assert_eq!(&res[0], &e1);
}

#[test]
fn test_flood_containing_diff() {
    // An event with different data contained within another event takes precedence from its
    // start, so that the result has no overlap.
    let e1 = Event {
        id: None,
        timestamp: time("2000-01-01T00:00:00Z"),
        duration: seconds(10),
        data: map("type", text("a")),
    };
    let e2 = Event {
        id: None,
        timestamp: time("2000-01-01T00:00:01Z"),
        duration: seconds(5),
        data: map("type", text("b")),
    };
    let res = flood(vec![e1.clone(), e2.clone()], seconds(5));
    assert_eq!(2, res.len());
    let mut e1_expected = e1;
    e1_expected.duration = seconds(1);
    assert_eq!(&res[0], &e1_expected);
    assert_eq!(&res[1], &e2);
}

#[test]
fn test_flood_same_timestamp() {
    // e1, stay same
    // e2, base merge (longest duration, this should be the duration selected)
    // e3, merge with e2
    // e4, stay same
    let e1 = Event {
        id: None,
        timestamp: time("2000-01-01T00:00:00Z"),
        duration: seconds(1),
        data: map("status", text("afk")),
    };
    let e2 = Event {
        id: None,
        timestamp: time("2000-01-01T00:00:01Z"),
        duration: seconds(5),
        data: map("status", text("not-afk")),
    };
    let e3 = Event {
        id: None,
        timestamp: time("2000-01-01T00:00:01Z"),
        duration: seconds(1),
        data: map("status", text("not-afk")),
    };
    let e4 = Event {
        id: None,
        timestamp: time("2000-01-01T00:00:06Z"),
        duration: seconds(1),
        data: map("status", text("afk")),
    };
    let res = flood(
        vec![e1.clone(), e2.clone(), e3, e4.clone()],
        seconds(5),
    );
    assert_eq!(3, res.len());
    assert_eq!(&res[0], &e1);
    assert_eq!(&res[1], &e2);
    assert_eq!(&res[2], &e4);
}

#[test]
fn test_flood_same_timestamp_duplicates() {
    // e1, stay same
    // e2, base merge
    // e3, merge with e2
    // e4, merge with e2 (longest duration, this should be the duration selected)
    // e5, stay same
    let e1 = Event {
        id: None,
        timestamp: time("2000-01-01T00:00:00Z"),
        duration: seconds(1),
        data: map("status", text("afk")),
    };
    let e2 = Event {
        id: None,
        timestamp: time("2000-01-01T00:00:01Z"),
        duration: seconds(5),
        data: map("status", text("not-afk")),
    };
    let e3 = Event {
        id: None,
        timestamp: time("2000-01-01T00:00:01Z"),
        duration: seconds(1),
        data: map("status", text("not-afk")),
    };
    let e4 = Event {
        id: None,
        timestamp: time("2000-01-01T00:00:01Z"),
        duration: seconds(10),
        data: map("status", text("not-afk")),
    };
    let e5 = Event {
        id: None,
        timestamp: time("2000-01-01T00:00:11Z"),
        duration: seconds(1),
        data: map("status", text("afk")),
    };
    let res = flood(
        vec![e1.clone(), e2, e3, e4.clone(), e5.clone()],
        seconds(5),
    );
    assert_eq!(3, res.len());
    assert_eq!(&res[0], &e1);
    assert_eq!(&res[1], &e4);
    assert_eq!(&res[2], &e5);
}

/// Event starting `start` seconds after 10:00:00Z, lasting `duration` seconds, with data
/// `{"app": app}`.
fn ev(start: f64, duration: f64, app: &str) -> Event {
    let base: i128 = time("2026-01-01T10:00:00Z");
    Event {
        id: None,
        timestamp: base + millis((start * 1000.0) as i128),
        duration: millis((duration * 1000.0) as i128),
        data: map("app", text(app)),
    }
}

fn assert_no_overlap(events: &[Event]) {
    for pair in events.windows(2) {
        assert!(
            pair[0].calculate_endtime() <= pair[1].timestamp,
            "{:?} overlaps {:?}",
            pair[0],
            pair[1]
        );
    }
}

#[test]
fn test_flood_overlap_diff_data() {
    // Overlapping events with different data must not count time twice
    let res = flood(
        vec![ev(0., 10., "x"), ev(9., 10., "y")],
        seconds(5),
    );
    assert_eq!(res, vec![ev(0., 9., "x"), ev(9., 10., "y")]);
}

#[test]
fn test_flood_drops_zero_duration() {
    let res = flood(
        vec![ev(0., 0., "x"), ev(60., 10., "y")],
        seconds(5),
    );
    assert_eq!(res, vec![ev(60., 10., "y")]);
}

#[test]
fn test_flood_gap_equal_to_pulsetime() {
    // A gap of exactly pulsetime is filled, meeting in the middle
    let res = flood(
        vec![ev(0., 10., "x"), ev(15., 10., "y")],
        seconds(5),
    );
    assert_eq!(res, vec![ev(0., 12.5, "x"), ev(12.5, 12.5, "y")]);

    // A gap just above pulsetime is left alone
    let events = vec![ev(0., 10., "x"), ev(15.001, 10., "y")];
    assert_eq!(flood(events.clone(), seconds(5)), events);
}

#[test]
fn test_flood_adjacent_same_data() {
    let res = flood(
        vec![ev(0., 10., "x"), ev(10., 10., "x")],
        seconds(5),
    );
    assert_eq!(res, vec![ev(0., 20., "x")]);
}

#[test]
fn test_flood_merge_chains() {
    // Chains of same-data events merge into one event, whether adjacent or within pulsetime
    let pt = seconds(5);
    let adjacent = vec![ev(0., 10., "x"), ev(10., 10., "x"), ev(20., 10., "x")];
    assert_eq!(flood(adjacent, pt), vec![ev(0., 30., "x")]);

    let gaps = vec![ev(0., 10., "x"), ev(12., 1., "x"), ev(14., 1., "x")];
    assert_eq!(flood(gaps, pt), vec![ev(0., 15., "x")]);

    let then_other = vec![ev(0., 10., "x"), ev(12., 1., "x"), ev(14., 1., "y")];
    assert_eq!(
        flood(then_other, pt),
        vec![ev(0., 13.5, "x"), ev(13.5, 1.5, "y")]
    );
}

#[test]
fn test_flood_merges_adjacent_randomized() {
    let mut seed: u64 = 0x6a09_e667_f3bc_c908;
    let mut next = |m: u64| {
        seed ^= seed << 13;
        seed ^= seed >> 7;
        seed ^= seed << 17;
        seed % m
    };
    for _ in 0..500 {
        let n = next(12) as usize;
        let events: Vec<Event> = (0..n)
            .map(|_| {
                let app = ["a", "b"][next(2) as usize];
                ev(next(60) as f64, next(15) as f64, app)
            })
            .collect();
        let once = flood(events.clone(), seconds(5));
        // No two adjacent same-data events are left unmerged
        for pair in once.windows(2) {
            assert!(
                pair[0].data != pair[1].data || pair[0].calculate_endtime() < pair[1].timestamp,
                "{events:?} -> {once:?}"
            );
        }
    }
}

#[test]
fn test_flood_pulsetime() {
    let events = vec![ev(0., 10., "x"), ev(20., 10., "y")];
    assert_eq!(flood(events.clone(), seconds(5)), events);
    assert_eq!(
        flood(events, seconds(10)),
        vec![ev(0., 15., "x"), ev(15., 15., "y")]
    );
}

#[test]
fn test_flood_small_negative_gap_diff_data() {
    // Overlaps smaller than 100ms between differing events are split in the middle
    let res = flood(
        vec![ev(0., 10., "x"), ev(9.95, 10., "y")],
        seconds(5),
    );
    assert_eq!(res, vec![ev(0., 9.975, "x"), ev(9.975, 9.975, "y")]);
}

#[test]
fn test_flood_later_event_wins() {
    // A later event overlapping several earlier ones truncates or removes them all
    let res = flood(
        vec![ev(0., 10., "x"), ev(2., 10., "y"), ev(2., 20., "z")],
        seconds(5),
    );
    assert_no_overlap(&res);
    assert_eq!(res, vec![ev(0., 2., "x"), ev(2., 20., "z")]);
}

#[test]
fn test_flood_no_overlap_randomized() {
    // Deterministic pseudo-random inputs; the output must be sorted and free of overlap.
    let mut seed: u64 = 0x2545_f491_4f6c_dd1d;
    let mut next = |m: u64| {
        seed ^= seed << 13;
        seed ^= seed >> 7;
        seed ^= seed << 17;
        seed % m
    };
    for _ in 0..500 {
        let n = next(12) as usize;
        let events: Vec<Event> = (0..n)
            .map(|_| {
                let app = ["a", "b", "c"][next(3) as usize];
                ev(next(60) as f64, next(15) as f64, app)
            })
            .collect();
        let res = flood(events, seconds(5));
        assert_no_overlap(&res);
        assert!(res.iter().all(|e| e.duration > 0));
    }
}

#[test]
fn the_order_of_the_given_events_does_not_matter() {
    let events = vec![ev(0., 10., "x"), ev(12., 1., "x"), ev(12., 4., "y"), ev(5., 3., "z")];
    let expected = flood(events.clone(), seconds(5));
    let backwards = events.iter().rev().cloned().collect();
    assert_eq!(flood(backwards, seconds(5)), expected);
    // Of two that start together and last as long, the later one takes precedence.
    let (x, y) = (ev(0., 10., "x"), ev(0., 10., "y"));
    assert_eq!(flood(vec![x.clone(), y.clone()], seconds(5)), vec![y.clone()]);
    assert_eq!(flood(vec![y, x.clone()], seconds(5)), vec![x]);
}

#[test]
fn both_zeros_count_as_the_same_data() {
    let zero = |text: &str| map("n", Json::Array(vec![Json::Number(text.to_string())]));
    let with = |start: f64, text: &str| Event { data: zero(text), ..ev(start, 10., "") };
    let res = flood(vec![with(0., "-0.0"), with(10., "0.0")], seconds(5));
    assert_eq!(res.len(), 1);
    assert_eq!(res[0].duration, seconds(20));
    // It is the data of the first that is kept.
    assert!(res[0].data.same(&zero("-0.0")) && !res[0].data.same(&zero("0.0")));
    assert_eq!(flood(vec![with(0., "0"), with(10., "0.0")], seconds(5)).len(), 2);
}
