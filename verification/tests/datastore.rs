use activitywatch::datastore::{
    bucket_created_at, bucket_from_row, bucket_statement, delete_key_value, event_deleted,
    found_settings, found_value, get_key_value, get_key_values, insert_key_value, legacy_import,
    remember_heartbeat, value_stored, BucketRow, DatastoreInstance, HeartbeatAction,
    NEWEST_DB_VERSION, TableSetup,
};
use activitywatch::event::Event;
use activitywatch::json::{Json, JsonMap};
use activitywatch::model::{Bucket, BucketMetadata, DatastoreError};
use activitywatch::query::{
    events_from_rows, EventRow, FilterValue, RowError, SqlValue, Statement,
};
use activitywatch::time::Instant;
use activitywatch::textmap::TextMap;

fn params(statement: &Statement) -> Vec<String> {
    statement
        .params
        .iter()
        .map(|value| match value {
            SqlValue::Null => "NULL".to_string(),
            SqlValue::Integer(n) => n.to_string(),
            SqlValue::Text(text) => format!("'{text}'"),
        })
        .collect()
}

fn at(seconds: i64, nanos: u32) -> Instant {
    Instant { seconds, nanos }
}

fn bucket(id: &str) -> Bucket {
    Bucket {
        bid: None,
        id: id.to_string(),
        _type: "currentwindow".to_string(),
        client: "test".to_string(),
        hostname: "host".to_string(),
        created: Some(at(1, 500_000_000)),
        data: JsonMap::new(),
        metadata: BucketMetadata { start: None, end: None },
        events: None,
        last_updated: None,
    }
}

fn event(timestamp: i128, duration: i128) -> Event {
    Event::new(timestamp, duration, JsonMap::new())
}

/// A datastore with one bucket of the name `window`, in row 4.
fn store() -> DatastoreInstance {
    let (setup, mut ds) = DatastoreInstance::new(false, true).unwrap();
    assert_eq!(setup, TableSetup::Create);
    let (created, _) = ds.create_bucket(bucket("window"), "{}".to_string(), 0).unwrap();
    assert!(ds.bucket_created(created, Ok(4)).unwrap().is_none());
    ds
}

#[test]
fn a_datastore_is_opened_or_refused() {
    let (setup, mut ds) = DatastoreInstance::new(false, true).unwrap();
    assert_eq!(setup, TableSetup::Create);
    assert_eq!(ds.db_version, NEWEST_DB_VERSION);
    assert!(ds.ensure_legacy_import());
    assert!(!ds.ensure_legacy_import());
    assert!(legacy_import().is_ok());

    let (setup, mut ds) = DatastoreInstance::new(true, false).unwrap();
    assert_eq!(setup, TableSetup::Keep);
    assert!(!ds.ensure_legacy_import());
    assert!(matches!(
        DatastoreInstance::new(false, false),
        Err(DatastoreError::Uninitialized(why))
            if why == "Tried to open an uninitialized datastore with migration disabled"
    ));
}

#[test]
fn stored_buckets_are_read() {
    let row = |created: &str| BucketRow {
        bid: 3,
        id: "window".to_string(),
        _type: "t".to_string(),
        client: "c".to_string(),
        hostname: "h".to_string(),
        created: created.to_string(),
        start: Some(5),
        end: None,
        data: Ok(JsonMap::new()),
    };
    let read = bucket_from_row(row("1970-01-01T01:00:02.5+01:00")).unwrap();
    assert_eq!(read.bid, Some(3));
    assert_eq!(read.created, Some(at(2, 500_000_000)));
    // A leap second is kept.
    let leap = bucket_from_row(row("1970-01-01T00:00:60.5Z")).unwrap();
    assert_eq!(leap.created, Some(at(59, 1_500_000_000)));
    assert_eq!((read.metadata.start, read.metadata.end), (Some(5), None));
    let why = bucket_from_row(row("yesterday")).unwrap_err();
    assert!(why.starts_with("Failed to parse created: "), "{why}");
    let mut broken = row("1970-01-01T00:00:00Z");
    broken.data = Err("x".to_string());
    let why = bucket_from_row(broken).unwrap_err();
    assert_eq!(why, "Failed to parse data to JSON: x");

    let (_, mut ds) = DatastoreInstance::new(true, true).unwrap();
    assert!(ds.get_stored_buckets(Ok(vec![Ok(read)])).is_ok());
    assert_eq!(ds.bid_of("window").unwrap(), 3);
    assert!(matches!(
        ds.get_stored_buckets(Ok(vec![Err("x".to_string())])),
        Err(DatastoreError::InternalError(e))
            if e == "Failed to parse bucket from DuckDB, database is corrupt! x"
    ));
    assert!(matches!(
        ds.get_stored_buckets(Err(RowError::Prepare("x".to_string()))),
        Err(DatastoreError::InternalError(e))
            if e == "Failed to prepare get_stored_buckets SQL statement: x"
    ));
    assert!(matches!(
        ds.get_stored_buckets(Err(RowError::Other("x".to_string()))),
        Err(DatastoreError::InternalError(e))
            if e == "Failed to query get_stored_buckets SQL statement: x"
    ));
    assert_eq!(ds.bid_of("window").unwrap(), 3);
}

#[test]
fn a_bucket_is_created_once() {
    let (_, mut ds) = DatastoreInstance::new(true, true).unwrap();
    let mut wanted = bucket("window");
    wanted.created = None;
    wanted.events = Some(vec![event(1, 2)]);
    let (created, statement) = ds
        .create_bucket(wanted, "{\"k\":1}".to_string(), 1_500_000_000)
        .unwrap();
    assert_eq!(created.created, Some(at(1, 500_000_000)));
    assert!(statement.sql.starts_with("INSERT INTO buckets"));
    assert_eq!(
        params(&statement),
        vec![
            "'window'",
            "'currentwindow'",
            "'test'",
            "'host'",
            "'1970-01-01T00:00:01.500+00:00'",
            "'{\"k\":1}'",
        ]
    );
    let events = ds.bucket_created(created, Ok(4)).unwrap().unwrap();
    assert_eq!(events.len(), 1);
    let stored = ds.get_bucket("window").unwrap();
    assert_eq!(stored.bid, Some(4));
    assert!(stored.events.is_none());
    let all = ds.get_buckets().entries;
    assert_eq!(all.len(), 1);
    assert!(all.iter().all(|(id, b)| *id == b.id && b.bid.is_some() && b.events.is_none()));

    assert!(matches!(
        ds.create_bucket(bucket("window"), String::new(), 0),
        Err(DatastoreError::BucketAlreadyExists(id)) if id == "window"
    ));
    assert!(matches!(
        ds.bucket_created(bucket("other"), Err(RowError::Other("x".to_string()))),
        Err(DatastoreError::InternalError(e))
            if e == "Failed to execute create_bucket SQL statement: x"
    ));
    assert!(matches!(
        ds.bucket_created(bucket("other"), Err(RowError::Prepare("x".to_string()))),
        Err(DatastoreError::InternalError(e))
            if e == "Failed to prepare create_bucket SQL statement: x"
    ));
    assert!(ds.get_bucket("other").is_err());
}

#[test]
fn a_deleted_bucket_is_gone() {
    let mut ds = store();
    let (events, bucket) = ds.delete_bucket("window").unwrap();
    assert_eq!(events.sql, "DELETE FROM events WHERE bucketrow = ?");
    assert_eq!(bucket.sql, "DELETE FROM buckets WHERE id = ?");
    assert_eq!((params(&events), params(&bucket)), (vec!["4".into()], vec!["4".into()]));
    assert!(matches!(
        ds.bucket_deleted("window", Err("x".to_string())),
        Err(DatastoreError::InternalError(e)) if e == "x"
    ));
    assert!(ds.get_bucket("window").is_ok());
    ds.bucket_deleted("window", Ok(())).unwrap();
    assert!(matches!(
        ds.get_bucket("window"),
        Err(DatastoreError::NoSuchBucket(id)) if id == "window"
    ));
    assert!(ds.delete_bucket("window").is_err());
}

#[test]
fn inserted_events_widen_their_bucket() {
    let mut ds = store();
    let mut explicit = event(30, 20);
    explicit.id = Some(9);
    let mut insert = ds
        .insert_events("window", vec![event(40, 5), explicit])
        .unwrap();
    let statement = insert.statement("{}".to_string()).unwrap();
    assert!(statement.sql.starts_with("INSERT INTO events"));
    assert_eq!(params(&statement), vec!["4", "40", "45", "'{}'"]);
    insert.inserted(&mut ds, Ok(1), "event").unwrap();
    assert!(!insert.saw_explicit_id);
    let statement = insert.statement("{}".to_string()).unwrap();
    assert!(statement.sql.starts_with("INSERT OR REPLACE INTO events"));
    assert_eq!(params(&statement), vec!["9", "4", "30", "50", "'{}'"]);
    insert.inserted(&mut ds, Ok(9), "event").unwrap();
    assert!(insert.saw_explicit_id);
    assert!(insert.next().is_none());
    let ids: Vec<_> = insert.events.iter().map(|e| e.id).collect();
    assert_eq!(ids, vec![Some(1), Some(9)]);
    let stored = ds.get_bucket("window").unwrap().metadata;
    assert_eq!((stored.start, stored.end), (Some(30), Some(50)));
}

#[test]
fn an_event_that_cannot_be_stored_is_an_error() {
    let mut ds = store();
    let mut insert = ds.insert_events("window", vec![event(1, 2)]).unwrap();
    assert!(matches!(
        insert.inserted(&mut ds, Err(RowError::Other("full".to_string())), "the event"),
        Err(DatastoreError::InternalError(e)) if e == "Failed to insert event: the event, full"
    ));
    assert!(matches!(
        insert.inserted(&mut ds, Err(RowError::NoRows), "the event"),
        Err(DatastoreError::InternalError(e))
            if e == "Failed to insert event: the event, Query returned no rows"
    ));
    assert!(matches!(
        insert.inserted(&mut ds, Err(RowError::Prepare("no table".to_string())), "the event"),
        Err(DatastoreError::InternalError(e)) if e == "no table"
    ));
    assert_eq!(ds.get_bucket("window").unwrap().metadata.start, None);
    let insert = ds
        .insert_events("window", vec![event(1, i128::from(i64::MAX) + 1)])
        .unwrap();
    assert!(matches!(
        insert.statement(String::new()),
        Err(DatastoreError::InternalError(e)) if e == "Failed to convert duration to nanoseconds"
    ));
    assert!(ds.insert_events("nothing", vec![]).is_err());
}

#[test]
fn the_last_event_is_replaced_in_its_row() {
    let mut ds = store();
    let longer = event(10, 90);
    let statement = ds
        .replace_last_event("window", 6, &longer, "{}".to_string())
        .unwrap();
    assert!(statement.sql.starts_with("UPDATE events"));
    assert_eq!(params(&statement), vec!["10", "100", "'{}'", "4", "6"]);
    assert!(matches!(
        ds.last_event_replaced("window", 6, &longer, Ok(0)),
        Err(DatastoreError::InternalError(e))
            if e == "replace_last_event matched 0 rows for event_id 6 - cache/DB inconsistency"
    ));
    assert!(matches!(
        ds.last_event_replaced("window", 6, &longer, Err(RowError::Other("x".to_string()))),
        Err(DatastoreError::InternalError(e))
            if e == "Failed to execute replace_last_event SQL statement: x"
    ));
    assert!(matches!(
        ds.last_event_replaced("window", 6, &longer, Err(RowError::Prepare("x".to_string()))),
        Err(DatastoreError::InternalError(e))
            if e == "Failed to prepare replace_last_event SQL statement: x"
    ));
    ds.last_event_replaced("window", 6, &longer, Ok(1)).unwrap();
    assert_eq!(ds.get_bucket("window").unwrap().metadata.end, Some(100));
}

#[test]
fn heartbeats_extend_the_last_event_or_follow_it() {
    let ds = store();
    let mut last_heartbeat: TextMap<Event> = TextMap::new();
    assert!(ds
        .take_last_heartbeat("window", &mut last_heartbeat)
        .unwrap()
        .is_none());
    assert!(ds.take_last_heartbeat("nothing", &mut last_heartbeat).is_err());

    let mut last = event(0, 10);
    last.id = Some(5);
    remember_heartbeat(&mut last_heartbeat, "window", &last);
    let taken = ds
        .take_last_heartbeat("window", &mut last_heartbeat)
        .unwrap()
        .unwrap();
    assert_eq!(taken.id, Some(5));
    // It is taken out: a heartbeat that fails leaves nothing behind.
    assert!(!last_heartbeat.contains_key("window"));

    match DatastoreInstance::heartbeat(None, event(20, 0), None).unwrap() {
        HeartbeatAction::Insert { event, remember } => {
            assert_eq!(event.timestamp, 20);
            assert!(!remember);
        }
        other => panic!("{other:?}"),
    }
    match DatastoreInstance::heartbeat(Some(last.copy()), event(20, 0), None).unwrap() {
        HeartbeatAction::Insert { remember, .. } => assert!(remember),
        other => panic!("{other:?}"),
    }
    let merged = event(0, 20);
    match DatastoreInstance::heartbeat(Some(last), event(20, 0), Some(merged)).unwrap() {
        HeartbeatAction::Replace { event_id, event } => {
            assert_eq!(event_id, 5);
            assert_eq!((event.id, event.duration), (Some(5), 20));
        }
        other => panic!("{other:?}"),
    }
    assert!(matches!(
        DatastoreInstance::heartbeat(Some(event(0, 10)), event(20, 0), Some(event(0, 20))),
        Err(DatastoreError::InternalError(e)) if e == "last_event has no ID"
    ));
}

#[test]
fn reads_are_for_a_bucket_that_exists() {
    let ds = store();
    assert_eq!(params(&ds.get_event("window", 2).unwrap()), vec!["4", "2"]);
    let query = ds.get_events("window", Some(1), Some(2), Some(3)).unwrap().unwrap();
    assert_eq!(params(&query.statement), vec!["4", "1", "2", "3"]);
    assert!(query.clip);
    let query = ds.get_events_unclipped("window", None, None, None).unwrap().unwrap();
    assert!(!query.clip);
    let query = ds.get_events_filtered("window", None, None, None, &vec![]).unwrap().unwrap();
    assert!(query.clip);
    let grouped = ds.get_events_grouped("window", None, None, "app").unwrap().unwrap();
    assert_eq!(params(&grouped)[0], "4");
    let count = ds.get_event_count("window", Some(1), Some(2)).unwrap().unwrap();
    assert_eq!(params(&count), vec!["4", "1", "2"]);
    assert!(ds.get_events("window", Some(2), Some(1), None).unwrap().is_none());

    let afk = FilterValue {
        value: Json::Text("afk".to_string()),
        written: "\"afk\"".to_string(),
    };
    let both = ds
        .get_events_intersected("window", "window", None, None, "status", &afk)
        .unwrap()
        .unwrap();
    assert_eq!(params(&both)[..3], ["4", "4", "'afk'"]);
    assert!(matches!(
        ds.get_events_intersected("window", "other", None, None, "status", &afk),
        Err(DatastoreError::NoSuchBucket(id)) if id == "other"
    ));
    assert!(matches!(
        ds.get_events_intersected("none", "other", None, None, "status", &afk),
        Err(DatastoreError::NoSuchBucket(id)) if id == "none"
    ));
    assert!(ds.get_event("none", 2).is_err());
    assert!(ds.get_events("none", None, None, None).is_err());
    assert!(ds.get_events_unclipped("none", None, None, None).is_err());
    assert!(ds.get_events_filtered("none", None, None, None, &vec![]).is_err());
    assert!(ds.get_events_grouped("none", None, None, "app").is_err());
    assert!(ds.get_event_count("none", None, None).is_err());

    let deletions = ds.delete_events_by_id("window", vec![8, 9]).unwrap();
    let ids: Vec<_> = deletions.iter().map(params).collect();
    assert_eq!(ids, vec![vec!["4", "8"], vec!["4", "9"]]);
    assert!(ds.delete_events_by_id("none", vec![]).is_err());
    assert!(event_deleted("window", 7, Ok(())).is_ok());
    assert!(matches!(
        event_deleted("window", -7, Err(RowError::Other("x".to_string()))),
        Err(DatastoreError::InternalError(e))
            if e == "Failed to delete event with id -7 in bucket window: x"
    ));
    assert!(matches!(
        event_deleted("window", 7, Err(RowError::Prepare("x".to_string()))),
        Err(DatastoreError::InternalError(e))
            if e == "Failed to prepare delete_events SQL statement: x"
    ));
}

#[test]
fn values_are_kept_by_key() {
    let statement = insert_key_value("settings.a", "1", 77);
    assert_eq!(params(&statement), vec!["'settings.a'", "'1'", "77"]);
    assert!(statement.sql.starts_with("INSERT OR REPLACE INTO key_value"));
    assert_eq!(delete_key_value("k").sql, "DELETE FROM key_value WHERE key = ?");
    assert_eq!(params(&get_key_value("k")), vec!["'k'"]);
    assert_eq!(params(&get_key_values("settings.%")), vec!["'settings.%'"]);

    assert_eq!(found_value("k", Ok("v".to_string())).unwrap(), "v");
    assert!(matches!(
        found_value("k", Err(RowError::NoRows)),
        Err(DatastoreError::NoSuchKey(key)) if key == "k"
    ));
    assert!(matches!(
        found_value("k", Err(RowError::Prepare("x".into()))),
        Err(DatastoreError::InternalError(e))
            if e == "Failed to prepare get_value SQL statement: x"
    ));
    assert!(matches!(
        found_value("k", Err(RowError::Other("x".into()))),
        Err(DatastoreError::InternalError(e)) if e == "Get value query failed for key k"
    ));

    assert!(value_stored(Ok(())).is_ok());
    assert!(matches!(
        value_stored(Err("x".to_string())),
        Err(DatastoreError::InternalError(e))
            if e == "Failed to prepare insert_value SQL statement: x"
    ));
    assert!(matches!(
        found_settings(Err(RowError::Prepare("x".to_string()))),
        Err(DatastoreError::InternalError(e))
            if e == "Failed to prepare get_value SQL statement: x"
    ));
    assert!(matches!(
        found_settings(Err(RowError::Other("x".to_string()))),
        Err(DatastoreError::InternalError(e)) if e == "Failed to get settings"
    ));
    assert!(found_settings(Err(RowError::NoRows)).unwrap().entries.is_empty());
    let found = found_settings(Ok(vec![
        ("settings.a".to_string(), "1".to_string()),
        ("secret".to_string(), "2".to_string()),
        ("settings.a".to_string(), "3".to_string()),
    ]))
    .unwrap();
    assert_eq!(found.entries.len(), 1);
    assert_eq!(found.get("settings.a"), Some(&"3".to_string()));
    assert!(found.get("secret").is_none());
}

#[test]
fn a_stored_bucket_reads_back() {
    let (_, ds) = DatastoreInstance::new(true, true).unwrap();
    for then in [
        at(0, 0),
        at(0, 1),
        at(-1, 999_999_999),
        at(1_704_067_200, 123_456_789),
        at(1_483_228_799, 1_000_000_000),
        at(1_483_228_799, 1_999_999_999),
        at(253_402_300_799, 999_999_999),
    ] {
        let mut wanted = bucket("window");
        wanted.created = Some(then);
        let (_, statement) = ds.create_bucket(wanted, "{}".to_string(), 0).unwrap();
        let created = match &statement.params[4] {
            SqlValue::Text(text) => text.clone(),
            other => panic!("{other:?}"),
        };
        let read = bucket_from_row(BucketRow {
            bid: 7,
            id: "window".to_string(),
            _type: "currentwindow".to_string(),
            client: "test".to_string(),
            hostname: "host".to_string(),
            created,
            start: None,
            end: None,
            data: Ok(JsonMap::new()),
        })
        .unwrap();
        assert_eq!(read.created, Some(then));
        assert_eq!((read.bid, read.id.as_str()), (Some(7), "window"));
    }
}

#[test]
fn a_stored_event_reads_back() {
    let mut ds = store();
    let mut insert = ds.insert_events("window", vec![event(25, 17)]).unwrap();
    let statement = insert.statement("{}".to_string()).unwrap();
    insert.inserted(&mut ds, Ok(3), "").unwrap();
    let (starttime, endtime) = match statement.params[1..3] {
        [SqlValue::Integer(start), SqlValue::Integer(end)] => (start, end),
        _ => panic!("{statement:?}"),
    };
    let query = ds.get_events("window", None, None, None).unwrap().unwrap();
    let row = EventRow {
        id: 3,
        starttime,
        endtime,
        data: Ok(JsonMap::new()),
    };
    let read = events_from_rows(vec![Ok(row)], query.clip_start, query.clip_end, query.clip);
    assert_eq!(read.events, insert.events);
}

#[test]
fn parts_of_buckets_are_put_together() {
    let statement = bucket_statement(&bucket("b"), "then".to_string(), "[]".to_string());
    assert_eq!(
        params(&statement),
        vec!["'b'", "'currentwindow'", "'test'", "'host'", "'then'", "'[]'"]
    );
    let row = || BucketRow {
        bid: 7,
        id: "b".to_string(),
        _type: String::new(),
        client: String::new(),
        hostname: String::new(),
        created: "then".to_string(),
        start: None,
        end: Some(9),
        data: Ok(JsonMap::new()),
    };
    let read = bucket_created_at(row(), Ok((-1, 5))).unwrap();
    assert_eq!(read.created, Some(at(-1, 5)));
    assert_eq!(read.metadata.end, Some(9));
    assert_eq!(
        bucket_created_at(row(), Err("no".to_string())).unwrap_err(),
        "Failed to parse created: no"
    );
}
