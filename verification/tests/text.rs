use activitywatch::event::{
    sort_by_timestamp, sort_events, Event, EventOrder, TIME_MAX, TIME_MIN,
};
use activitywatch::json::{Json, JsonMap};
use activitywatch::text::{
    decimal_text, is_blank, is_white_space, parse_natural, signed_decimal_text, split_lines,
    starts_with, trim,
};
use activitywatch::textmap::TextMap;

#[test]
fn texts_are_trimmed_as_std_does() {
    for text in ["", " ", "\u{3000}a b\u{a0}\n", "x", "\t\u{85}x y\u{2029}", "\u{200b} a"] {
        assert_eq!(trim(text), text.trim(), "{text:?}");
        assert_eq!(is_blank(text), text.trim().is_empty(), "{text:?}");
    }
    for n in 0..0x11_0000u32 {
        if let Some(c) = char::from_u32(n) {
            assert_eq!(is_white_space(c), c.is_whitespace(), "{n:x}");
        }
    }
}

#[test]
fn lines_are_split_as_std_does() {
    for text in ["", "\n", "a", "a\n", "a\r\nb", "a\n\nb\r", "\r\n\r\n", "a\rb\n"] {
        let expected: Vec<String> = text.lines().map(str::to_string).collect();
        assert_eq!(split_lines(text), expected, "{text:?}");
    }
}

#[test]
fn numbers_are_written_and_read_as_std_does() {
    for n in [0, 7, 10, 99, 100, u128::MAX] {
        assert_eq!(decimal_text(n), n.to_string());
    }
    for n in [0, -1, 42, -1000, i128::MAX, i128::MIN + 1] {
        assert_eq!(signed_decimal_text(n), n.to_string());
    }
    for text in ["0", "007", "+5", "18446744073709551615", "18446744073709551616", "", "+", "1x"] {
        assert_eq!(parse_natural(text, u64::MAX), text.parse::<u64>().ok(), "{text:?}");
    }
    assert_eq!(parse_natural("256", 255), None);
    assert!(starts_with("settings.a", "settings."));
    assert!(!starts_with("settings", "settings."));
}

#[test]
fn maps_hold_each_key_once() {
    let mut map: TextMap<i32> = TextMap::new();
    map.insert("a".to_string(), 1);
    map.insert("b".to_string(), 2);
    map.insert("a".to_string(), 3);
    assert_eq!(map.entries.len(), 2);
    assert_eq!(map.get("a"), Some(&3));
    assert_eq!(map.remove("a"), Some(3));
    assert_eq!(map.remove("a"), None);
    assert!(map.contains_key("b") && !map.contains_key("a"));
}

#[test]
fn objects_are_equal_whatever_their_order() {
    let object = |names: &[&str]| {
        let mut map = JsonMap::new();
        for name in names {
            map.insert(name.to_string(), Json::Text(name.to_string()));
        }
        map
    };
    assert_eq!(object(&["a", "b"]), object(&["b", "a"]));
    assert_ne!(object(&["a", "b"]), object(&["a"]));
    assert_ne!(object(&["a"]), object(&["a", "b"]));
    let deep = Json::Array(vec![Json::Object(object(&["a"])), Json::Bool(true), Json::Null]);
    assert_eq!(deep.clone(), deep);
    assert_ne!(Json::Number("1".into()), Json::Number("1.0".into()));
}

#[test]
fn events_are_sorted_and_stay_in_place_otherwise() {
    let event = |id: i64, timestamp: i128, duration: i128| Event {
        id: Some(id),
        timestamp,
        duration,
        data: JsonMap::new(),
    };
    let events = || vec![event(0, 5, 1), event(1, 3, 2), event(2, 5, 9), event(3, 3, 1)];
    let ids = |events: Vec<Event>| -> Vec<i64> { events.iter().map(|e| e.id.unwrap()).collect() };
    assert_eq!(ids(sort_by_timestamp(events())), vec![1, 3, 0, 2]);
    assert_eq!(
        ids(sort_events(EventOrder::TimeThenDuration, events())),
        vec![3, 1, 0, 2]
    );
    assert_eq!(
        ids(sort_events(EventOrder::LongestFirst, events())),
        vec![2, 1, 0, 3]
    );
}

#[test]
fn times_have_the_range_of_chrono() {
    let nanos = |time: chrono::DateTime<chrono::Utc>| {
        i128::from(time.timestamp()) * 1_000_000_000 + i128::from(time.timestamp_subsec_nanos())
    };
    assert_eq!(TIME_MIN, nanos(chrono::DateTime::<chrono::Utc>::MIN_UTC));
    assert_eq!(TIME_MAX, nanos(chrono::DateTime::<chrono::Utc>::MAX_UTC));
}
