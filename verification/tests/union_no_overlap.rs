use activitywatch::event::Event;
use activitywatch::json::{Json, JsonMap};
use activitywatch::union_no_overlap::{split_event, union_no_overlap};
use chrono::Utc;

fn seconds(n: i128) -> i128 {
    n * 1_000_000_000
}

fn millis(n: i128) -> i128 {
    n * 1_000_000
}

fn minutes(n: i128) -> i128 {
    seconds(60 * n)
}

fn hours(n: i128) -> i128 {
    minutes(60 * n)
}

fn now() -> i128 {
    i128::from(Utc::now().timestamp_nanos_opt().unwrap())
}

fn text(value: &str) -> Json {
    Json::Text(value.to_string())
}

/// The source that an event is tagged with.
fn source_of(event: &Event) -> &str {
    match event.data.get("source") {
        Some(Json::Text(source)) => source,
        _ => panic!("no source"),
    }
}

#[test]
fn union_matches_discrete_coverage_for_all_small_inputs() {
    let now = now();
    let events = |mask: u32, source: &str| {
        let mut result = Vec::new();
        let mut start = 0;
        while start < 6 {
            if mask & (1 << start) == 0 {
                start += 1;
                continue;
            }
            let mut end = start + 1;
            while end < 6 && mask & (1 << end) != 0 {
                end += 1;
            }
            let mut data = JsonMap::new();
            data.insert("source".into(), text(source));
            result.push(Event::new(
                now + seconds(start),
                seconds(end - start),
                data,
            ));
            start = end;
        }
        result
    };
    for a in 0..64 {
        for b in 0..64 {
            let result = union_no_overlap(events(a, "a"), events(b, "b"));
            for slot in 0..6 {
                let time = now + seconds(slot);
                let covering: Vec<_> = result
                    .iter()
                    .filter(|e| e.timestamp <= time && time < e.timestamp + e.duration)
                    .collect();
                let expected = if a & (1 << slot) != 0 {
                    Some("a")
                } else if b & (1 << slot) != 0 {
                    Some("b")
                } else {
                    None
                };
                assert_eq!(
                    covering.len(),
                    usize::from(expected.is_some()),
                    "a={a}, b={b}, slot={slot}"
                );
                if let Some(source) = expected {
                    assert_eq!(source_of(covering[0]), source);
                }
            }
            assert!(result
                .windows(2)
                .all(|pair| pair[0].timestamp + pair[0].duration <= pair[1].timestamp));
        }
    }
}

#[test]
fn repeated_splits_preserve_precedence_payloads_and_ids() {
    let now = now();
    let mut background = Event::new(now, seconds(12), JsonMap::new());
    background.id = Some(99);
    background
        .data
        .insert("source".into(), text("background"));
    let foreground: Vec<_> = [2, 5, 8]
        .into_iter()
        .map(|start| {
            let mut e = Event::new(
                now + seconds(start),
                seconds(1),
                JsonMap::new(),
            );
            e.id = Some(start as i64);
            e.data
                .insert("source".into(), text("foreground"));
            e
        })
        .collect();
    let result = union_no_overlap(foreground, vec![background]);
    let expected = [
        (0, 2, None),
        (2, 1, Some(2)),
        (3, 2, None),
        (5, 1, Some(5)),
        (6, 2, None),
        (8, 1, Some(8)),
        (9, 3, None),
    ];
    assert_eq!(result.len(), expected.len());
    for (event, (start, duration, id)) in result.iter().zip(expected) {
        assert_eq!(event.timestamp, now + seconds(start));
        assert_eq!(event.duration, seconds(duration));
        assert_eq!(event.id, id);
        assert_eq!(
            source_of(event),
            if id.is_some() {
                "foreground"
            } else {
                "background"
            }
        );
    }
}

#[test]
fn empty_disjoint_and_zero_duration_events_keep_ids() {
    let now = now();
    let mut event = Event::new(now, 0, JsonMap::new());
    event.id = Some(12);
    assert_eq!(
        union_no_overlap(vec![], vec![event.clone()])[0].id,
        Some(12)
    );
    assert_eq!(
        union_no_overlap(vec![event.clone()], vec![])[0].id,
        Some(12)
    );
    let mut later = event.clone();
    later.timestamp += seconds(1);
    later.id = Some(13);
    let result = union_no_overlap(vec![event], vec![later]);
    assert_eq!(
        result.iter().map(|e| e.id).collect::<Vec<_>>(),
        vec![Some(12), Some(13)]
    );
}

#[test]
fn test_split_event() {
    let now = now();
    let td1h = hours(1);
    let e = Event {
        id: None,
        timestamp: now,
        duration: hours(2),
        data: JsonMap::new(),
    };
    let (e1, e2_opt) = split_event(e.clone(), now + td1h);
    assert_eq!(e1.timestamp, now);
    assert_eq!(e1.duration, td1h);

    let e2 = e2_opt.unwrap();
    assert_eq!(e2.timestamp, now + td1h);
    assert_eq!(e2.duration, td1h);

    // Now a test which does not lead to a split
    let (e1, e2_opt) = split_event(e, now);
    assert_eq!(e1.timestamp, now);
    assert_eq!(e1.duration, hours(2));
    assert!(e2_opt.is_none());
}

#[test]
fn test_union_no_overlap() {
    // A test without any actual overlap
    let now = now();
    let td1h = hours(1);
    let e1 = Event::new(now, td1h, JsonMap::new());
    let e2 = Event::new(now + td1h, td1h, JsonMap::new());
    let events1 = vec![e1.clone()];
    let events2 = vec![e2.clone()];
    let events_union = union_no_overlap(events1, events2);

    assert_eq!(events_union.len(), 2);
    assert_eq!(events_union[0].timestamp, now);
    assert_eq!(events_union[0].duration, td1h);
    assert_eq!(events_union[1].timestamp, now + td1h);
    assert_eq!(events_union[1].duration, td1h);

    // Now do in reverse order
    let events1 = vec![e2];
    let events2 = vec![e1];
    let events_union = union_no_overlap(events1, events2);

    // Resulting order should be the same, since there is no overlap.
    assert_eq!(events_union.len(), 2);
    assert_eq!(events_union[0].timestamp, now);
    assert_eq!(events_union[0].duration, td1h);
    assert_eq!(events_union[1].timestamp, now + td1h);
    assert_eq!(events_union[1].duration, td1h);
}

#[test]
fn test_union_no_overlap_with_overlap() {
    // A test where the events overlap
    let now = now();
    let td1h = hours(1);
    let e1 = Event::new(now, td1h, JsonMap::new());
    let e2 = Event::new(now, hours(2), JsonMap::new());
    let events1 = vec![e1];
    let events2 = vec![e2];
    let events_union = union_no_overlap(events1, events2);

    assert_eq!(events_union.len(), 2);
    assert_eq!(events_union[0].timestamp, now);
    assert_eq!(events_union[0].duration, td1h);
    assert_eq!(events_union[1].timestamp, now + td1h);
    assert_eq!(events_union[1].duration, td1h);

    // Now test the case where e2 starts before e1
    let e1 = Event::new(now + td1h, td1h, JsonMap::new());
    let e2 = Event::new(now, hours(2), JsonMap::new());
    let events1 = vec![e1];
    let events2 = vec![e2];
    let events_union = union_no_overlap(events1, events2);

    assert_eq!(events_union.len(), 2);
    assert_eq!(events_union[0].timestamp, now);
    assert_eq!(events_union[0].duration, td1h);
    assert_eq!(events_union[1].timestamp, now + td1h);
    assert_eq!(events_union[1].duration, td1h);
}

/// Builds sorted, internally non-overlapping events from `(start, duration)`
/// pairs (in seconds), tagging each with `source`.
fn events_from(now: i128, spans: &[(i64, i64)], source: &str) -> Vec<Event> {
    events_from_unit(now, spans, seconds(1), source)
}

fn events_from_unit(
    now: i128,
    spans: &[(i64, i64)],
    unit: i128,
    source: &str,
) -> Vec<Event> {
    spans
        .iter()
        .map(|&(start, duration)| {
            let mut data = JsonMap::new();
            data.insert("source".into(), text(source));
            Event::new(now + unit * i128::from(start), unit * i128::from(duration), data)
        })
        .collect()
}

fn spans(events: &[Event], now: i128) -> Vec<(i64, i64, String)> {
    events
        .iter()
        .map(|e| {
            (
                ((e.timestamp - now) / seconds(1)) as i64,
                (e.duration / seconds(1)) as i64,
                source_of(e).to_string(),
            )
        })
        .collect()
}

/// Checks the union invariants: output is sorted, events with a duration
/// never overlap, every `events1` event survives unchanged, zero-duration
/// `events2` events are kept exactly when no `events1` event covers them, and every
/// second is covered by the result exactly when either input covers it.
fn assert_union_invariants(events1: &[Event], events2: &[Event], result: &[Event]) {
    let covers = |events: &[Event], t: i128| {
        events
            .iter()
            .filter(|e| e.timestamp <= t && t < e.timestamp + e.duration)
            .count()
    };
    assert!(
        result.windows(2).all(|w| w[0].timestamp <= w[1].timestamp),
        "result not sorted"
    );
    let with_duration: Vec<_> = result.iter().filter(|e| e.duration != 0).collect();
    assert!(
        with_duration
            .windows(2)
            .all(|w| w[0].timestamp + w[0].duration <= w[1].timestamp),
        "result has overlapping events"
    );
    for e in events1 {
        assert!(result.contains(e), "events1 event missing from result");
    }
    let points: Vec<_> = result
        .iter()
        .filter(|e| e.duration == 0 && !events1.contains(e))
        .collect();
    let expected_points: Vec<_> = events2
        .iter()
        .filter(|e| e.duration == 0 && covers(events1, e.timestamp) == 0)
        .collect();
    assert_eq!(points, expected_points, "wrong events2 points kept");
    // Coverage is constant between consecutive event boundaries, so checking
    // one point inside each gap between boundaries is exact at any resolution.
    let mut bounds: Vec<i128> = events1
        .iter()
        .chain(events2)
        .chain(result)
        .flat_map(|e| [e.timestamp, e.timestamp + e.duration])
        .collect();
    bounds.sort();
    bounds.dedup();
    for w in bounds.windows(2) {
        let t = w[0] + (w[1] - w[0]) / 2;
        let expected = if covers(events1, t) > 0 {
            1
        } else {
            covers(events2, t).min(1)
        };
        assert_eq!(covers(result, t), expected, "wrong coverage at {t}");
    }
}

#[test]
fn edge_cases_keep_union_free_of_overlap() {
    let now = now();
    // (events1, events2) as (start, duration) in seconds
    type Spans = &'static [(i64, i64)];
    let cases: &[(Spans, Spans)] = &[
        // identical ranges
        (&[(0, 10)], &[(0, 10)]),
        // events1 contains events2, and vice versa
        (&[(0, 10)], &[(2, 3)]),
        (&[(2, 3)], &[(0, 10)]),
        // one events1 event covering several events2 events, followed by more events1
        (&[(0, 10), (20, 5)], &[(1, 2), (4, 2), (8, 5)]),
        // one events2 event spanning several events1 events
        (&[(2, 1), (5, 1), (8, 1)], &[(0, 12)]),
        // adjacent / touching boundaries
        (&[(0, 5)], &[(5, 5)]),
        (&[(5, 5)], &[(0, 5)]),
        (&[(0, 5), (5, 5)], &[(0, 10)]),
        // zero-duration events inside, at the start and at the end of the other list's events
        (&[(5, 0), (7, 1)], &[(0, 10)]),
        (&[(0, 0), (2, 1)], &[(0, 10)]),
        (&[(10, 0)], &[(0, 10)]),
        (&[(0, 10)], &[(5, 0), (12, 1)]),
        (&[(3, 0), (3, 2)], &[(0, 10)]),
    ];
    for (a, b) in cases {
        let events1 = events_from(now, a, "a");
        let events2 = events_from(now, b, "b");
        let result = union_no_overlap(events1.clone(), events2.clone());
        assert_union_invariants(&events1, &events2, &result);
    }
}

#[test]
fn zero_duration_event_does_not_let_background_event_through_whole() {
    // A zero-duration events1 event inside an events2 event must not have the whole events2
    // event emitted: the later events1 event at 7s would overlap it.
    let now = now();
    let result = union_no_overlap(
        events_from(now, &[(5, 0), (7, 1)], "a"),
        events_from(now, &[(0, 10)], "b"),
    );
    assert_eq!(
        spans(&result, now),
        vec![
            (0, 5, "b".into()),
            (5, 0, "a".into()),
            (5, 2, "b".into()),
            (7, 1, "a".into()),
            (8, 2, "b".into()),
        ]
    );
}

#[test]
fn chained_unions_match_single_pass_priority() {
    // Devices are combined one by one: events = union_no_overlap(events, host_i)
    let now = now();
    let hosts = [
        events_from(now, &[(0, 4), (10, 0), (12, 6)], "a"),
        events_from(now, &[(2, 5), (9, 4), (20, 2)], "b"),
        events_from(now, &[(0, 30)], "c"),
    ];
    let mut result = Vec::new();
    for host in hosts {
        let next = union_no_overlap(result.clone(), host.clone());
        assert_union_invariants(&result, &host, &next);
        result = next;
    }
    assert_eq!(
        spans(&result, now)
            .into_iter()
            .filter(|(_, d, _)| *d > 0)
            .collect::<Vec<_>>(),
        vec![
            (0, 4, "a".into()),
            (4, 3, "b".into()),
            (7, 2, "c".into()),
            (9, 1, "b".into()),
            (10, 2, "b".into()),
            (12, 6, "a".into()),
            (18, 2, "c".into()),
            (20, 2, "b".into()),
            (22, 8, "c".into()),
        ]
    );
}

#[test]
fn random_inputs_keep_union_invariants() {
    // A small deterministic generator of numbers.
    let mut state: u64 = 0x2545_f491_4f6c_dd1d;
    let mut next = |n: u64| {
        state = state
            .wrapping_mul(6_364_136_223_846_793_005)
            .wrapping_add(1_442_695_040_888_963_407);
        ((state >> 33) % n) as i64
    };
    let now = now();
    for _ in 0..2_000 {
        let mut lists = Vec::new();
        for source in ["a", "b"] {
            let mut spans = Vec::new();
            // Millisecond units so boundaries fall on fractional seconds.
            let mut t = next(3_000);
            for _ in 0..next(6) {
                let duration = if next(4) == 0 { 0 } else { 1 + next(5_000) };
                spans.push((t, duration));
                if duration > 0 && next(4) == 0 {
                    // Zero-duration point inside the event just added.
                    spans.push((t + next(duration as u64), 0));
                }
                t += duration + next(3_000);
            }
            lists.push(events_from_unit(
                now,
                &spans,
                millis(1),
                source,
            ));
        }
        let result = union_no_overlap(lists[0].clone(), lists[1].clone());
        assert_union_invariants(&lists[0], &lists[1], &result);
    }
}

#[test]
fn zero_duration_events2_points_yield_to_events1() {
    // events2 keeps only what events1 does not cover: a point strictly inside
    // or at the start of an events1 event is dropped, one at its end is kept.
    let now = now();
    type Expected = Vec<(i64, i64, String)>;
    let cases: &[(i64, Expected)] = &[
        (5, vec![(0, 10, "a".into())]),
        (0, vec![(0, 10, "a".into())]),
        (10, vec![(0, 10, "a".into()), (10, 0, "b".into())]),
    ];
    for (point, expected) in cases {
        let result = union_no_overlap(
            events_from(now, &[(0, 10)], "a"),
            events_from(now, &[(*point, 0)], "b"),
        );
        assert_eq!(&spans(&result, now), expected, "point at {point}s");
    }
}

#[test]
fn fractional_second_boundaries_split_exactly() {
    let now = now();
    let ms = millis(1);
    let result = union_no_overlap(
        events_from_unit(now, &[(1_250, 0), (1_500, 250)], ms, "a"),
        events_from_unit(now, &[(1_000, 1_000)], ms, "b"),
    );
    let got: Vec<_> = result
        .iter()
        .map(|e| {
            (
                (e.timestamp - now) / millis(1),
                e.duration / millis(1),
            )
        })
        .collect();
    assert_eq!(
        got,
        vec![
            (1_000, 250),
            (1_250, 0),
            (1_250, 250),
            (1_500, 250),
            (1_750, 250)
        ]
    );
}

#[test]
fn events2_points_inside_events2_stay_sorted() {
    let now = now();
    type Spans = &'static [(i64, i64)];
    type Expected = Vec<(i64, i64, String)>;
    let cases: &[(Spans, Spans, Expected)] = &[
        // point inside the part of an events2 event covered by events1: dropped
        (
            &[(0, 1)],
            &[(0, 3), (0, 0)],
            vec![(0, 1, "a".into()), (1, 2, "b".into())],
        ),
        // point in the part emitted before events1: kept, in order
        (
            &[(5, 1)],
            &[(0, 10), (2, 0)],
            vec![
                (0, 5, "b".into()),
                (2, 0, "b".into()),
                (5, 1, "a".into()),
                (6, 4, "b".into()),
            ],
        ),
        // point in the part after events1: kept, in order
        (
            &[(2, 1)],
            &[(0, 10), (7, 0)],
            vec![
                (0, 2, "b".into()),
                (2, 1, "a".into()),
                (3, 7, "b".into()),
                (7, 0, "b".into()),
            ],
        ),
    ];
    for (a, b, expected) in cases {
        let events1 = events_from(now, a, "a");
        let events2 = events_from(now, b, "b");
        let result = union_no_overlap(events1.clone(), events2.clone());
        assert_eq!(&spans(&result, now), expected);
        assert_union_invariants(&events1, &events2, &result);
    }
}

#[test]
fn events1_event_containing_several_events2_events() {
    // Once the first events1 event is emitted, the second contained events2 event (5-6 min)
    // must not be emitted on top of it.
    let now = now();
    let min = minutes(1);
    let result = union_no_overlap(
        events_from_unit(now, &[(0, 10), (20, 10)], min, "A"),
        events_from_unit(now, &[(2, 1), (5, 1)], min, "b"),
    );
    assert_eq!(
        spans(&result, now),
        vec![(0, 600, "A".into()), (1200, 600, "A".into())]
    );
}

#[test]
fn each_of_many_lists_yields_to_those_before_it() {
    let list = |spans: &[(i128, i128)], source: &str| -> Vec<Event> {
        spans
            .iter()
            .map(|(start, duration)| {
                let mut data = JsonMap::new();
                data.insert("source".to_string(), Json::Text(source.to_string()));
                Event::new(*start, *duration, data)
            })
            .collect()
    };
    let lists = [
        list(&[(2, 2)], "a"),
        list(&[(0, 3), (6, 1)], "b"),
        list(&[(0, 8)], "c"),
    ];
    let mut merged = Vec::new();
    for list in lists {
        merged = union_no_overlap(merged, list);
    }
    let spans: Vec<_> = merged
        .iter()
        .map(|e| (e.timestamp, e.duration, source_of(e)))
        .collect();
    assert_eq!(
        spans,
        vec![
            (0, 2, "b"),
            (2, 2, "a"),
            (4, 2, "c"),
            (6, 1, "b"),
            (7, 1, "c"),
        ]
    );
}

#[test]
fn merging_the_second_list_again_changes_nothing() {
    let now = now();
    let first = || events_from(now, &[(2, 3), (10, 0), (12, 5)], "a");
    let second = || events_from(now, &[(0, 4), (6, 8), (7, 0), (20, 1)], "b");
    let merged = union_no_overlap(first(), second());
    assert_eq!(union_no_overlap(merged.clone(), second()), merged);
    // A point that nothing covers is there once more.
    let point = || events_from(now, &[(30, 0)], "b");
    let merged = union_no_overlap(first(), point());
    assert_eq!(union_no_overlap(merged.clone(), point()).len(), merged.len() + 1);
}
