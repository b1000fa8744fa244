use activitywatch::json::{Json, JsonMap};
use activitywatch::model::DatastoreError;
use activitywatch::query::{
    advance_statement, create_tables, event_from_row, events_from_rows, found_bid, found_count,
    found_event, found_events, found_groups, found_intersections, found_max_id, found_number,
    grouped_event, intersected_event, json_extract_expr, max_id_statement, nextval_statement,
    numbered_tables, query_bid, query_event, query_event_count, query_events, query_events_grouped,
    query_events_intersected, range_of, select_events, sequence_advanced, stored_buckets,
    tables_exist, EventFilter, EventRow, FilterValue, GroupRow, RowError, SqlValue, Statement,
};

fn filter_value(value: Json, written: &str) -> FilterValue {
    FilterValue {
        value,
        written: written.to_string(),
    }
}

fn text(value: &str) -> FilterValue {
    filter_value(Json::Text(value.to_string()), "")
}

fn params(statement: &Statement) -> Vec<String> {
    statement
        .params
        .iter()
        .map(|value| match value {
            SqlValue::Null => "NULL".to_string(),
            SqlValue::Integer(n) => n.to_string(),
            SqlValue::Text(text) => format!("'{text}'"),
        })
        .collect()
}

fn row(id: i64, starttime: i64, endtime: i64) -> EventRow {
    let mut data = JsonMap::new();
    data.insert("id".to_string(), Json::Number(id.to_string()));
    EventRow {
        id,
        starttime,
        endtime,
        data: Ok(data),
    }
}

#[test]
fn keys_are_escaped_for_the_path_and_the_literal() {
    assert_eq!(
        json_extract_expr("data", "app"),
        "json_extract_string(data, '$.\"app\"')"
    );
    assert_eq!(
        json_extract_expr("afk.data", "a\\b\"c'd"),
        "json_extract_string(afk.data, '$.\"a\\\\b\\\"c''d\"')"
    );
}

#[test]
fn values_are_compared_as_text() {
    assert_eq!(text("x").text(), "x");
    assert_eq!(filter_value(Json::Null, "null").text(), "");
    assert_eq!(filter_value(Json::Bool(true), "true").text(), "true");
    assert_eq!(filter_value(Json::Number("1.5".into()), "1.5").text(), "1.5");
}

#[test]
fn events_are_read_newest_first() {
    let statement = query_events(7, Some(10), Some(20), Some(3), &vec![]).unwrap();
    assert_eq!(
        statement.sql,
        "SELECT id, starttime, endtime, data FROM events WHERE bucketrow = ? AND endtime >= ? AND starttime <= ? ORDER BY starttime DESC, id ASC LIMIT ?"
    );
    assert_eq!(params(&statement), vec!["7", "10", "20", "3"]);
    let statement = query_events(7, None, None, None, &vec![]).unwrap();
    assert_eq!(
        params(&statement),
        vec!["7", "0", "9223372036854775807", "NULL"]
    );
    // A limit that is too large to matter is none.
    let statement = query_events(7, None, None, Some(u64::MAX), &vec![]).unwrap();
    assert_eq!(params(&statement)[3], "NULL");
    assert!(query_events(7, Some(2), Some(2), None, &vec![]).is_some());
    assert!(query_events(7, Some(3), Some(2), None, &vec![]).is_none());
}

#[test]
fn filters_narrow_what_is_read() {
    let filters = vec![
        EventFilter {
            key: "app".to_string(),
            vals: vec![text("a"), filter_value(Json::Number("2".into()), "2")],
        },
        EventFilter {
            key: "title".to_string(),
            vals: vec![],
        },
    ];
    let statement = query_events(1, None, Some(5), Some(0), &filters).unwrap();
    assert_eq!(
        statement.sql,
        "SELECT id, starttime, endtime, data FROM events WHERE bucketrow = ? AND endtime >= ? AND starttime <= ? AND json_extract_string(data, '$.\"app\"') IN (?, ?) AND 1=0 ORDER BY starttime DESC, id ASC LIMIT ?"
    );
    assert_eq!(params(&statement), vec!["1", "0", "5", "'a'", "'2'", "0"]);
}

#[test]
fn a_query_knows_what_it_clips_to() {
    let query = select_events(1, Some(5), None, None, &vec![], true).unwrap();
    assert_eq!((query.clip_start, query.clip_end, query.clip), (5, i64::MAX, true));
    assert_eq!(query.statement.params.len(), 4);
    assert!(!select_events(1, None, Some(9), None, &vec![], false).unwrap().clip);
    assert!(select_events(1, Some(5), Some(4), None, &vec![], true).is_none());
    assert_eq!(range_of(Some(-3), Some(8)), (-3, 8));
}

#[test]
fn other_statements_bind_their_values() {
    let statement = query_event(1, 2);
    assert!(statement.sql.ends_with("WHERE bucketrow = ? AND id = ? LIMIT 1"));
    assert_eq!(params(&statement), vec!["1", "2"]);

    let statement = query_events_grouped(1, Some(2), Some(3), "app").unwrap();
    assert!(statement.sql.contains("json_extract_string(data, '$.\"app\"') as group_val"));
    assert!(statement.sql.ends_with("GROUP BY group_val ORDER BY duration_ns DESC"));
    assert_eq!(params(&statement), vec!["1", "2", "3"]);
    assert!(query_events_grouped(1, Some(4), Some(3), "app").is_none());

    let statement =
        query_events_intersected(1, 2, Some(3), Some(4), "status", &text("not-afk")).unwrap();
    assert!(statement.sql.contains("AND json_extract_string(afk.data, '$.\"status\"') = ?"));
    assert_eq!(params(&statement), vec!["1", "2", "'not-afk'", "3", "4"]);
    assert!(query_events_intersected(1, 2, Some(5), Some(4), "s", &text("")).is_none());

    let statement = query_event_count(1, Some(2), Some(3)).unwrap();
    assert!(statement.sql.starts_with("SELECT count(*) FROM events"));
    assert_eq!(params(&statement), vec!["1", "2", "3"]);
    assert!(query_event_count(1, Some(3), Some(3)).is_none());

    let statement = query_bid("window");
    assert_eq!(statement.sql, "SELECT id FROM buckets WHERE name = ?");
    assert_eq!(params(&statement), vec!["'window'"]);
}

#[test]
fn a_bucket_is_found_or_not() {
    assert!(matches!(found_bid("b", Ok(4)), Ok(4)));
    assert!(matches!(
        found_bid("b", Err(RowError::NoRows)),
        Err(DatastoreError::NoSuchBucket(id)) if id == "b"
    ));
    assert!(matches!(
        found_bid("b", Err(RowError::Prepare("x".into()))),
        Err(DatastoreError::InternalError(e)) if e == "Failed to prepare bucket id lookup: x"
    ));
    assert!(matches!(
        found_bid("b", Err(RowError::Other("x".into()))),
        Err(DatastoreError::InternalError(e)) if e == "Failed to look up bucket id for b: x"
    ));
}

#[test]
fn rows_are_clipped_to_the_range() {
    let event = event_from_row(row(3, 10, 50), 20, 40, true).unwrap();
    assert_eq!((event.id, event.timestamp, event.duration), (Some(3), 20, 20));
    let event = event_from_row(row(3, 10, 50), 20, 40, false).unwrap();
    assert_eq!((event.timestamp, event.duration), (10, 40));
    let event = event_from_row(row(3, 25, 30), 20, 40, true).unwrap();
    assert_eq!((event.timestamp, event.duration), (25, 5));
}

#[test]
fn rows_that_cannot_be_read_are_left_out() {
    let mut broken = row(2, 5, 6);
    broken.data = Err("expected value".to_string());
    let read = events_from_rows(
        vec![Ok(row(1, 0, 10)), Ok(broken), Err("no column".to_string()), Ok(row(4, 3, 4))],
        2,
        8,
        true,
    );
    let events: Vec<_> = read
        .events
        .iter()
        .map(|e| (e.id, e.timestamp, e.duration))
        .collect();
    assert_eq!(events, vec![(Some(1), 2, 6), (Some(4), 3, 1)]);
    assert_eq!(
        read.corrupt,
        vec!["Invalid column name: invalid event data JSON: expected value", "no column"]
    );
}

#[test]
fn grouped_and_intersected_rows_become_events() {
    let event = grouped_event(5, 7, "app", Some("vim".to_string()));
    assert_eq!((event.id, event.timestamp, event.duration), (None, 5, 7));
    assert_eq!(event.data.get("app"), Some(&Json::Text("vim".into())));
    let event = grouped_event(5, 7, "app", None);
    assert_eq!(event.data.get("app"), Some(&Json::Null));

    let event = intersected_event(row(9, 4, 6));
    assert_eq!((event.id, event.timestamp, event.duration), (Some(9), 4, 2));
    assert_eq!(event.data.get("id"), Some(&Json::Number("9".into())));
    // Data that cannot be read is left out.
    let mut broken = row(9, 4, 6);
    broken.data = Err("x".to_string());
    assert_eq!(intersected_event(broken).data, JsonMap::new());
}

#[test]
fn what_the_database_says_becomes_events_or_an_error() {
    let event = found_event(Ok(row(3, 10, 50))).unwrap();
    assert_eq!((event.id, event.timestamp, event.duration), (Some(3), 10, 40));
    let mut broken = row(3, 10, 50);
    broken.data = Err("expected value".to_string());
    let said = |e: DatastoreError| match e {
        DatastoreError::InternalError(text) => text,
        other => panic!("{other:?}"),
    };
    assert_eq!(
        said(found_event(Ok(broken)).unwrap_err()),
        "Failed to map get_event SQL statement: Invalid column name: \
         invalid event data JSON: expected value"
    );
    assert_eq!(
        said(found_event(Err(RowError::NoRows)).unwrap_err()),
        "Failed to map get_event SQL statement: Query returned no rows"
    );
    assert_eq!(
        said(found_event(Err(RowError::Prepare("x".into()))).unwrap_err()),
        "Failed to prepare get_event SQL statement: x"
    );

    let read = found_events(Ok(vec![Ok(row(1, 0, 10))]), 2, 8, true).unwrap();
    assert_eq!((read.events[0].timestamp, read.events[0].duration), (2, 6));
    assert_eq!(
        said(found_events(Err(RowError::Other("x".into())), 2, 8, true).unwrap_err()),
        "Failed to map get_events SQL statement: x"
    );

    let group = |value: Option<&str>| GroupRow {
        starttime: 5,
        duration: 7,
        value: value.map(str::to_string),
    };
    let groups = vec![Ok(group(Some("vim"))), Err("no column".to_string()), Ok(group(None))];
    let read = found_groups(Ok(groups), "app").unwrap();
    let values: Vec<_> = read.events.iter().map(|e| e.data.get("app").unwrap()).collect();
    assert_eq!(values, vec![&Json::Text("vim".into()), &Json::Null]);
    assert_eq!(read.corrupt, vec!["no column"]);
    assert_eq!(
        said(found_groups(Err(RowError::Prepare("x".into())), "app").unwrap_err()),
        "Failed to prepare query_events_grouped SQL statement: x"
    );

    let mut broken = row(9, 4, 6);
    broken.data = Err("x".to_string());
    let parts = vec![Ok(row(9, 4, 6)), Err("no column".to_string()), Ok(broken)];
    let read = found_intersections(Ok(parts)).unwrap();
    assert_eq!(read.events[0].data.get("id"), Some(&Json::Number("9".into())));
    assert_eq!(read.events[1].data, JsonMap::new());
    assert_eq!((read.events.len(), read.corrupt), (2, vec!["no column".to_string()]));
    assert_eq!(
        said(found_intersections(Err(RowError::Other("x".into()))).unwrap_err()),
        "Failed to map query_events_intersected SQL statement: x"
    );

    assert_eq!(found_count(Ok(3)).unwrap(), 3);
    assert_eq!(
        said(found_count(Err(RowError::Other("x".into()))).unwrap_err()),
        "Failed to query get_event_count SQL statement: x"
    );
}

#[test]
fn sequences_are_moved_past_the_largest_number() {
    assert_eq!(
        max_id_statement("events").sql,
        "SELECT coalesce(max(id), 0) FROM events"
    );
    assert_eq!(
        nextval_statement("seq_event_id", 10).unwrap().sql,
        "SELECT nextval('seq_event_id')"
    );
    assert!(nextval_statement("seq_event_id", 0).is_none());
    assert_eq!(
        numbered_tables(),
        vec![
            ("seq_bucket_id".to_string(), "buckets".to_string()),
            ("seq_event_id".to_string(), "events".to_string()),
        ]
    );
    assert_eq!(found_max_id("events", Ok(10)).unwrap(), 10);
    assert!(matches!(
        found_max_id("events", Err("x".to_string())),
        Err(DatastoreError::InternalError(e)) if e == "Failed to read max id from events: x"
    ));
    assert_eq!(found_number("seq_event_id", Ok(4)).unwrap(), 4);
    assert!(matches!(
        found_number("seq_event_id", Err("x".to_string())),
        Err(DatastoreError::InternalError(e)) if e == "Failed to read sequence seq_event_id: x"
    ));
    assert!(sequence_advanced("seq_event_id", Ok(())).is_ok());
    assert!(matches!(
        sequence_advanced("seq_event_id", Err("x".to_string())),
        Err(DatastoreError::InternalError(e)) if e == "Failed to advance sequence seq_event_id: x"
    ));
    assert_eq!(
        advance_statement("seq_event_id", 10, 4).unwrap().sql,
        "SELECT nextval('seq_event_id') FROM range(6);"
    );
    assert!(advance_statement("seq_event_id", 4, 4).is_none());
    assert!(advance_statement("seq_event_id", 3, 4).is_none());
}

#[test]
fn the_tables_are_named() {
    let sql = create_tables();
    for name in ["seq_bucket_id", "buckets", "seq_event_id", "events", "key_value"] {
        assert!(sql.contains(name), "{name}");
    }
    assert!(tables_exist().sql.ends_with("WHERE table_name = 'buckets'"));
    assert!(stored_buckets().sql.contains("GROUP BY ALL"));
}
