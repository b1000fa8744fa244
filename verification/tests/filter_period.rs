use activitywatch::event::Event;
use activitywatch::filter_period::filter_period_intersect;
use activitywatch::json::{Json, JsonMap};
use chrono::{DateTime, Utc};

fn seconds(n: i128) -> i128 {
    n * 1_000_000_000
}

fn millis(n: i128) -> i128 {
    n * 1_000_000
}

/// The instant that a text stands for, in nanoseconds since the Unix epoch.
fn time(text: &str) -> i128 {
    let time: DateTime<Utc> = text.parse().unwrap();
    i128::from(time.timestamp_nanos_opt().unwrap())
}

fn text(value: &str) -> Json {
    Json::Text(value.to_string())
}

fn map(name: &str, value: Json) -> JsonMap {
    let mut map = JsonMap::new();
    map.insert(name.to_string(), value);
    map
}

fn number(n: i64) -> Json {
    Json::Number(n.to_string())
}

#[test]
fn test_filter_period_intersect() {
    let e1 = Event {
        id: None,
        timestamp: time("2000-01-01T00:00:01Z"),
        duration: seconds(1),
        data: map("test", number(1)),
    };
    let mut e2 = e1.clone();
    e2.timestamp = time("2000-01-01T00:00:02Z");
    let mut e3 = e1.clone();
    e3.timestamp = time("2000-01-01T00:00:03Z");
    let mut e4 = e1.clone();
    e4.timestamp = time("2000-01-01T00:00:04Z");
    let mut e5 = e1.clone();
    e5.timestamp = time("2000-01-01T00:00:05Z");

    let filter_event = Event {
        id: None,
        timestamp: time("2000-01-01T00:00:02.5Z"),
        duration: seconds(2),
        data: map("test", number(1)),
    };

    let filtered_events =
        filter_period_intersect(vec![e1, e2, e3, e4, e5], vec![filter_event.clone()]);
    assert_eq!(filtered_events.len(), 3);
    assert_eq!(filtered_events[0].duration, millis(500));
    assert_eq!(filtered_events[1].duration, millis(1000));
    assert_eq!(filtered_events[2].duration, millis(500));

    let dt: i128 = time("2000-01-01T00:00:02.500Z");
    assert_eq!(filtered_events[0].timestamp, dt);
    let dt: i128 = time("2000-01-01T00:00:03.000Z");
    assert_eq!(filtered_events[1].timestamp, dt);
    let dt: i128 = time("2000-01-01T00:00:04.000Z");
    assert_eq!(filtered_events[2].timestamp, dt);

    let timestamp_01s = time("2000-01-01T00:00:01Z");
    let e = Event {
        id: None,
        timestamp: timestamp_01s,
        duration: seconds(1),
        data: map("test", number(1)),
    };
    let mut f2 = filter_event.clone();
    f2.timestamp = time("2000-01-01T00:00:00Z");
    f2.duration = millis(1500);
    let res = filter_period_intersect(vec![e.clone()], vec![f2]);
    assert_eq!(res[0].timestamp, timestamp_01s);
    assert_eq!(res[0].duration, millis(500));

    let timestamp_01_5s = time("2000-01-01T00:00:01.5Z");
    let mut f3 = filter_event.clone();
    f3.timestamp = timestamp_01_5s;
    f3.duration = millis(1000);
    let res = filter_period_intersect(vec![e.clone()], vec![f3]);
    assert_eq!(res[0].timestamp, timestamp_01_5s);
    assert_eq!(res[0].duration, millis(500));

    let mut f4 = filter_event.clone();
    f4.timestamp = time("2000-01-01T00:00:01.5Z");
    f4.duration = millis(100);
    let res = filter_period_intersect(vec![e.clone()], vec![f4]);
    assert_eq!(res[0].timestamp, timestamp_01_5s);
    assert_eq!(res[0].duration, millis(100));

    let mut f5 = filter_event.clone();
    f5.timestamp = time("2000-01-01T00:00:00Z");
    f5.duration = seconds(10);
    let res = filter_period_intersect(vec![e.clone()], vec![f5]);
    assert_eq!(res[0].timestamp, timestamp_01s);
    assert_eq!(res[0].duration, millis(1000));
}

/// Event starting `start` seconds after 10:00:00Z, lasting `duration` seconds.
fn ev(start: i64, duration: i64, app: &str) -> Event {
    let base: i128 = time("2026-01-01T10:00:00Z");
    Event {
        id: None,
        timestamp: base + seconds(i128::from(start)),
        duration: seconds(i128::from(duration)),
        data: map("app", text(app)),
    }
}

#[test]
fn test_filter_period_intersect_zero_duration() {
    let res = filter_period_intersect(vec![ev(5, 0, "x")], vec![ev(0, 10, "")]);
    assert_eq!(res, vec![ev(5, 0, "x")]);

    // Boundaries are included
    let res = filter_period_intersect(vec![ev(0, 0, "x")], vec![ev(0, 10, "")]);
    assert_eq!(res, vec![ev(0, 0, "x")]);
    let res = filter_period_intersect(vec![ev(10, 0, "x")], vec![ev(0, 10, "")]);
    assert_eq!(res, vec![ev(10, 0, "x")]);

    // Outside of and between filter events they are dropped
    let res = filter_period_intersect(
        vec![ev(0, 0, "a"), ev(15, 0, "b"), ev(30, 0, "c")],
        vec![ev(5, 5, ""), ev(20, 5, "")],
    );
    assert_eq!(res, vec![]);

    // At the boundary of two adjacent filter events they are emitted once
    let res =
        filter_period_intersect(vec![ev(10, 0, "x")], vec![ev(0, 10, ""), ev(10, 10, "")]);
    assert_eq!(res, vec![ev(10, 0, "x")]);

    // Mixed with events that have a duration
    let res = filter_period_intersect(
        vec![
            ev(0, 3, "a"),
            ev(4, 0, "b"),
            ev(5, 5, "a"),
            ev(12, 0, "c"),
            ev(20, 0, "d"),
        ],
        vec![ev(2, 4, ""), ev(8, 4, "")],
    );
    assert_eq!(
        res,
        vec![
            ev(2, 1, "a"),
            ev(4, 0, "b"),
            ev(5, 1, "a"),
            ev(8, 2, "a"),
            ev(12, 0, "c")
        ]
    );
}

#[test]
fn test_filter_period_intersect_zero_duration_filter() {
    // An event containing a zero-duration filter event yields a zero-duration
    // part at that point.
    let res = filter_period_intersect(vec![ev(0, 1, "x")], vec![ev(0, 0, ""), ev(0, 10, "")]);
    assert_eq!(res, vec![ev(0, 0, "x"), ev(0, 1, "x")]);

    let res = filter_period_intersect(vec![ev(0, 10, "x")], vec![ev(5, 0, "")]);
    assert_eq!(res, vec![ev(5, 0, "x")]);
}

#[test]
fn test_filter_period_intersect_overlapping_filters() {
    // Time covered by several filter events is emitted once
    let res = filter_period_intersect(vec![ev(0, 10, "x")], vec![ev(0, 6, ""), ev(4, 4, "")]);
    assert_eq!(res, vec![ev(0, 6, "x"), ev(6, 2, "x")]);

    // A filter event contained in an earlier one adds nothing, also when they end at the
    // same time
    for filter in [ev(2, 2, ""), ev(2, 4, "")] {
        let res = filter_period_intersect(vec![ev(0, 10, "x")], vec![ev(0, 6, ""), filter]);
        assert_eq!(res, vec![ev(0, 6, "x")]);
    }

    // A zero-duration filter event within time that was already emitted adds nothing
    let res = filter_period_intersect(
        vec![ev(0, 10, "x")],
        vec![ev(0, 6, ""), ev(4, 4, ""), ev(5, 0, "")],
    );
    assert_eq!(res, vec![ev(0, 6, "x"), ev(6, 2, "x")]);
}

#[test]
fn test_filter_period_intersect_randomized() {
    // Deterministic pseudo-random non-overlapping events (with some zero-duration ones) and
    // non-overlapping filter events, like window and not-afk events.
    let mut seed: u64 = 0x9e37_79b9_7f4a_7c15;
    let mut next = |m: u64| {
        seed ^= seed << 13;
        seed ^= seed >> 7;
        seed ^= seed << 17;
        seed % m
    };
    let sequence = |n: u64, min_duration: u64, next: &mut dyn FnMut(u64) -> u64| {
        let mut t = 0;
        let mut events = Vec::new();
        for k in 0..n {
            t += next(4) as i64;
            let d = if next(4) == 0 {
                0
            } else {
                (min_duration + next(6)) as i64
            };
            events.push(ev(t, d, &k.to_string()));
            t += d;
        }
        events
    };
    for _ in 0..2000 {
        let n_events = next(8);
        let n_filters = next(5);
        let events = sequence(n_events, 0, &mut next);
        let filters: Vec<Event> = sequence(n_filters, 1, &mut next)
            .into_iter()
            .filter(|f| f.duration > 0)
            .collect();
        let res = filter_period_intersect(events.clone(), filters.clone());

        let ctx = format!("events: {events:?}\nfilters: {filters:?}\nresult: {res:?}");
        assert!(
            res.windows(2)
                .all(|w| w[0].calculate_endtime() <= w[1].timestamp),
            "{ctx}"
        );
        // Every part lies within its event and within a filter event
        for r in &res {
            assert!(
                events.iter().any(|e| e.data == r.data
                    && e.timestamp <= r.timestamp
                    && r.calculate_endtime() <= e.calculate_endtime()),
                "{ctx}"
            );
            assert!(
                filters.iter().any(|f| f.timestamp <= r.timestamp
                    && r.calculate_endtime() <= f.calculate_endtime()),
                "{ctx}"
            );
        }
        // The total duration is the total overlap between events and filter events
        let overlap: i128 = events
            .iter()
            .flat_map(|e| filters.iter().map(move |f| (e, f)))
            .map(|(e, f)| {
                let start = e.timestamp.max(f.timestamp);
                let end = e.calculate_endtime().min(f.calculate_endtime());
                (end - start).max(0)
            })
            .sum();
        let total: i128 = res.iter().map(|e| e.duration).sum();
        assert_eq!(total, overlap, "{ctx}");
        // Zero-duration events are kept once if they lie within a filter event
        for e in events.iter().filter(|e| e.duration == 0) {
            let inside = filters
                .iter()
                .any(|f| f.timestamp <= e.timestamp && e.timestamp <= f.calculate_endtime());
            let count = res.iter().filter(|r| *r == e).count();
            assert_eq!(count, usize::from(inside), "{e:?}\n{ctx}");
        }
    }
}

#[test]
fn parts_of_overlapping_events_lie_within() {
    let event = |start: i128, duration: i128, n: i64| {
        Event::new(seconds(start), seconds(duration), map("test", number(n)))
    };
    let events = vec![event(0, 10, 1), event(2, 1, 2), event(4, 8, 3)];
    let filters = vec![event(1, 2, 0), event(2, 7, 0)];
    let parts = filter_period_intersect(events.clone(), filters.clone());
    assert!(!parts.is_empty());
    for part in &parts {
        let within = |other: &Event| {
            other.timestamp <= part.timestamp
                && part.calculate_endtime() <= other.calculate_endtime()
        };
        assert!(part.duration >= 0);
        assert!(events.iter().any(|e| e.data == part.data && within(e)), "{part:?}");
        assert!(filters.iter().any(within), "{part:?}");
    }
}
