use activitywatch::datastore::DatastoreInstance;
use activitywatch::event::Event;
use activitywatch::json::{Json, JsonMap};
use activitywatch::model::{Bucket, BucketMetadata, DatastoreError, DatastoreMethod};
use activitywatch::query::{EventFilter, FilterValue};
use activitywatch::worker::{
    filter_in_memory, group_in_memory, intersect_in_memory, privacy_filter_found,
    reads_beside_worker, BatchStep, Command, DatastoreWorker, Outcome, Reader, Reply, Response,
    RulesStep, Work, _unwrap_empty_response,
};

fn event(timestamp: i128, duration: i128, app: &str) -> Event {
    let mut data = JsonMap::new();
    data.insert("app".to_string(), Json::Text(app.to_string()));
    Event::new(timestamp, duration, data)
}

fn bucket(id: &str) -> Bucket {
    Bucket {
        bid: None,
        id: id.to_string(),
        _type: String::new(),
        client: String::new(),
        hostname: String::new(),
        created: None,
        data: JsonMap::new(),
        metadata: BucketMetadata { start: None, end: None },
        events: None,
        last_updated: None,
    }
}

fn store() -> DatastoreInstance {
    DatastoreInstance::new(true, true).unwrap().1
}

const SECOND: i128 = 1_000_000_000;

#[test]
fn writes_are_committed_in_batches() {
    let mut worker = DatastoreWorker::new(false);
    worker.begin();
    for n in 1..=100 {
        let answer = worker.finish(Outcome::HeartbeatStored(Ok(event(n, 0, "a"))));
        assert_eq!(worker.work_loop(false, &answer, 0), BatchStep::Continue);
    }
    let answer = worker.finish(Outcome::HeartbeatStored(Ok(event(0, 0, "a"))));
    assert_eq!(worker.uncommitted_events, 101);
    assert_eq!(worker.work_loop(false, &answer, 0), BatchStep::Commit);
    worker.begin();
    assert_eq!(worker.uncommitted_events, 0);
    assert_eq!(worker.work_loop(false, &answer, 15 * SECOND), BatchStep::Continue);
    assert_eq!(worker.work_loop(false, &answer, 15 * SECOND + 1), BatchStep::Commit);
}

#[test]
fn changes_of_buckets_are_committed_at_once() {
    let mut worker = DatastoreWorker::new(true);
    worker.begin();
    let work = worker.handle_request(&store(), Command::CreateBucket(bucket("b")));
    assert!(matches!(work, Work::CreateBucket(b) if b.id == "b"));
    let refused = Err(DatastoreError::BucketAlreadyExists("b".into()));
    let answer = worker.finish(Outcome::BucketChanged(refused));
    assert_eq!(worker.work_loop(false, &answer, 0), BatchStep::Continue);
    let answer = worker.finish(Outcome::BucketChanged(Ok(())));
    assert!(matches!(answer, Ok(Response::Empty())));
    assert_eq!(worker.work_loop(false, &answer, 0), BatchStep::Commit);
}

#[test]
fn only_errors_of_the_database_roll_back() {
    let mut worker = DatastoreWorker::new(false);
    worker.begin();
    for error in [
        DatastoreError::NoSuchBucket("b".into()),
        DatastoreError::NoSuchKey("k".into()),
        DatastoreError::MpscError,
        DatastoreError::Uninitialized("u".into()),
        DatastoreError::OldDbVersion("o".into()),
    ] {
        let answer = worker.finish(Outcome::EventFound(Err(error)));
        assert_eq!(worker.work_loop(false, &answer, 0), BatchStep::Continue);
    }
    let broken = Err(DatastoreError::InternalError("full".into()));
    let answer = worker.finish(Outcome::EventsInserted("b".into(), broken));
    assert_eq!(worker.work_loop(false, &answer, 0), BatchStep::Rollback);
}

#[test]
fn promised_commits_are_answered_after_them() {
    assert!(DatastoreWorker::ack_after_commit(&Command::ForceCommit()));
    assert!(DatastoreWorker::ack_after_commit(&Command::Close()));
    assert!(!DatastoreWorker::ack_after_commit(&Command::GetBuckets()));
    let mut worker = DatastoreWorker::new(false);
    worker.begin();
    let answer = match worker.handle_request(&store(), Command::ForceCommit()) {
        Work::Answer(answer) => answer,
        other => panic!("{other:?}"),
    };
    assert_eq!(worker.work_loop(true, &answer, 0), BatchStep::Commit);
    assert!(matches!(
        DatastoreWorker::committed(Some(answer), Ok(())),
        Some(Ok(Response::Empty()))
    ));
    assert!(matches!(
        DatastoreWorker::committed(Some(Ok(Response::Empty())), Err("x".into())),
        Some(Err(DatastoreError::InternalError(e)))
            if e == "Failed to commit datastore transaction: x"
    ));
    assert!(DatastoreWorker::committed(None, Err("x".into())).is_none());
    assert!(!worker.quit);
    worker.handle_request(&store(), Command::Close());
    assert!(worker.quit);
}

#[test]
fn requests_that_the_buckets_answer_need_no_database() {
    let mut worker = DatastoreWorker::new(false);
    let work = worker.handle_request(&store(), Command::GetBucket("b".into()));
    assert!(matches!(work, Work::Answer(Err(DatastoreError::NoSuchBucket(id))) if id == "b"));
    let work = worker.handle_request(&store(), Command::GetBuckets());
    assert!(matches!(
        work,
        Work::Answer(Ok(Response::BucketMap(map))) if map.entries.is_empty()
    ));
}

#[test]
fn other_requests_are_handed_on() {
    let mut worker = DatastoreWorker::new(false);
    let ds = store();
    let mut work = |command| format!("{:?}", worker.handle_request(&ds, command));
    assert_eq!(work(Command::DeleteBucket("b".into())), "DeleteBucket(\"b\")");
    assert_eq!(work(Command::GetEvent("b".into(), 3)), "GetEvent(\"b\", 3)");
    assert_eq!(
        work(Command::GetEvents("b".into(), Some(1), None, Some(2), true)),
        "GetEvents(\"b\", Some(1), None, Some(2), true)"
    );
    assert_eq!(
        work(Command::GetEventCount("b".into(), None, Some(2))),
        "GetEventCount(\"b\", None, Some(2))"
    );
    assert_eq!(
        work(Command::DeleteEventsById("b".into(), vec![1, 2])),
        "DeleteEventsById(\"b\", [1, 2])"
    );
    assert_eq!(work(Command::GetKeyValues("p".into())), "GetKeyValues(\"p\")");
    assert_eq!(work(Command::GetKeyValue("k".into())), "GetKeyValue(\"k\")");
    assert_eq!(
        work(Command::SetKeyValue("k".into(), "v".into())),
        "SetKeyValue(\"k\", \"v\")"
    );
    assert_eq!(work(Command::DeleteKeyValue("k".into())), "DeleteKeyValue(\"k\")");
    assert_eq!(
        work(Command::RefreshPrivacyFilter()),
        "LoadPrivacyFilter(\"settings.privacy_filters\")"
    );
}

#[test]
fn filtered_events_are_not_stored() {
    let mut worker = DatastoreWorker::new(false);
    let work = worker.handle_request(
        &store(),
        Command::InsertEvents("b".into(), vec![event(0, 1, "a")]),
    );
    assert!(matches!(work, Work::FilterEvents(id, events) if id == "b" && events.len() == 1));
    assert!(matches!(
        worker.events_filtered("b".into(), vec![]),
        Work::Answer(Ok(Response::EventList(events))) if events.is_empty()
    ));
    assert!(matches!(
        worker.events_filtered("b".into(), vec![event(0, 1, "a")]),
        Work::InsertEvents(id, events) if id == "b" && events.len() == 1
    ));

    // A heartbeat that is filtered out is answered with the last one, or with itself.
    assert!(matches!(
        worker.heartbeat_filtered("b".into(), event(7, 0, "a"), 5, None),
        Work::Answer(Ok(Response::Event(e))) if e.timestamp == 7
    ));
    worker.last_heartbeat.insert("b".into(), event(3, 1, "a"));
    assert!(matches!(
        worker.heartbeat_filtered("b".into(), event(7, 0, "a"), 5, None),
        Work::Answer(Ok(Response::Event(e))) if e.timestamp == 3
    ));
    assert!(matches!(
        worker.heartbeat_filtered("b".into(), event(7, 0, "a"), 5, Some(event(8, 0, "x"))),
        Work::Heartbeat(id, e, 5) if id == "b" && e.timestamp == 8
    ));

    // Inserted events are not what the next heartbeat extends without a look.
    let answer = worker.finish(Outcome::EventsInserted("b".into(), Ok(vec![event(9, 0, "a")])));
    assert!(matches!(answer, Ok(Response::EventList(events)) if events.len() == 1));
    assert!(!worker.last_heartbeat.contains_key("b"));
    assert_eq!(worker.uncommitted_events, 1);
}

#[test]
fn a_worker_without_clients_commits_and_quits() {
    let mut worker = DatastoreWorker::new(false);
    worker.begin();
    assert_eq!(worker.abandoned(), BatchStep::Commit);
    assert!(worker.quit);
}

#[test]
fn answers_carry_what_was_found() {
    let mut worker = DatastoreWorker::new(false);
    assert!(matches!(
        worker.finish(Outcome::EventsFound(Ok(vec![]))),
        Ok(Response::EventList(_))
    ));
    assert!(matches!(
        worker.finish(Outcome::EventsCounted(Ok(4))),
        Ok(Response::Count(4))
    ));
    assert!(matches!(worker.finish(Outcome::Changed(Ok(()))), Ok(Response::Empty())));
    assert!(matches!(
        worker.finish(Outcome::KeyValueFound(Ok("v".into()))),
        Ok(Response::KeyValue(v)) if v == "v"
    ));
    assert!(matches!(
        worker.finish(Outcome::PrivacyFilterLoaded(Ok("[]".into()), true)),
        Ok(Response::Empty())
    ));
    assert!(_unwrap_empty_response(Response::Empty()).is_ok());
}

#[test]
fn reads_of_files_run_beside_the_worker() {
    let file = DatastoreMethod::File("db".into());
    assert!(reads_beside_worker(&file, false));
    assert!(!reads_beside_worker(&file, true));
    assert!(!reads_beside_worker(&DatastoreMethod::Memory(), false));

    let mut reader = Reader::new();
    assert!(reader.keeps_connection(3));
    assert!(!reader.keeps_connection(4));
    assert_eq!(reader.resolve_bid("b"), None);
    reader.remember_bid("b", 4);
    assert_eq!(reader.resolve_bid("b"), Some(4));
    reader.invalidate_bid("b");
    assert_eq!(reader.resolve_bid("b"), None);
}

#[test]
fn events_are_filtered_in_memory() {
    let filter = |key: &str, values: &[&str]| EventFilter {
        key: key.to_string(),
        vals: values
            .iter()
            .map(|value| FilterValue {
                value: Json::Text(value.to_string()),
                written: format!("\"{value}\""),
            })
            .collect(),
    };
    let events = || vec![event(0, 1, "a"), event(1, 1, "b"), event(2, 1, "c")];
    let times = |events: Vec<Event>| -> Vec<i128> { events.iter().map(|e| e.timestamp).collect() };
    assert_eq!(
        times(filter_in_memory(events(), &vec![filter("app", &["a", "c"])])),
        vec![0, 2]
    );
    assert_eq!(
        times(filter_in_memory(
            events(),
            &vec![filter("app", &["a", "c"]), filter("app", &["c"])]
        )),
        vec![2]
    );
    assert!(filter_in_memory(events(), &vec![filter("title", &["a"])]).is_empty());
    assert!(filter_in_memory(events(), &vec![filter("app", &[])]).is_empty());
    assert_eq!(times(filter_in_memory(events(), &vec![])), vec![0, 1, 2]);
}

#[test]
fn events_are_grouped_in_memory() {
    let mut other = event(5, 100, "x");
    other.data = JsonMap::new();
    let grouped = group_in_memory(
        vec![event(0, 1, "a"), event(1, 5, "b"), event(2, 7, "a"), other],
        "app",
    );
    let found: Vec<_> = grouped
        .iter()
        .map(|e| (e.id, e.timestamp, e.duration, e.data.get("app").cloned()))
        .collect();
    assert_eq!(
        found,
        vec![
            (None, 0, 8, Some(Json::Text("a".into()))),
            (None, 1, 5, Some(Json::Text("b".into()))),
        ]
    );
}

#[test]
fn events_are_intersected_in_memory() {
    let kept = intersect_in_memory(
        vec![event(0, 10, "window")],
        vec![event(2, 3, "yes"), event(6, 2, "no")],
        "app",
        &Json::Text("yes".into()),
    );
    assert_eq!(kept.len(), 1);
    assert_eq!((kept[0].timestamp, kept[0].duration), (2, 3));
}

#[test]
fn privacy_rules_are_cleared_replaced_or_kept() {
    let absent = || Err(DatastoreError::NoSuchKey("settings.privacy_filters".into()));
    assert_eq!(privacy_filter_found(&absent(), true), RulesStep::Clear);
    assert_eq!(privacy_filter_found(&absent(), false), RulesStep::Clear);
    assert_eq!(privacy_filter_found(&Ok("[1]".into()), true), RulesStep::Replace);
    assert_eq!(privacy_filter_found(&Ok("[1".into()), false), RulesStep::Keep);

    let mut worker = DatastoreWorker::new(false);
    assert_eq!(worker.privacy_rules, None);
    for (found, parses, rules) in [
        (Ok("[1]".to_string()), true, Some("[1]")),
        (Ok("[2".to_string()), false, Some("[1]")),
        (Ok("[2]".to_string()), true, Some("[2]")),
        (absent(), true, None),
        (Ok("[3".to_string()), false, None),
    ] {
        assert!(matches!(
            worker.finish(Outcome::PrivacyFilterLoaded(found, parses)),
            Ok(Response::Empty())
        ));
        assert_eq!(worker.privacy_rules.as_deref(), rules);
    }
    worker.finish(Outcome::PrivacyFilterLoaded(Ok("[4]".into()), true)).unwrap();
    worker.finish(Outcome::Changed(Ok(()))).unwrap();
    assert_eq!(worker.privacy_rules.as_deref(), Some("[4]"));
}

#[test]
fn only_promised_commits_hold_an_answer_back() {
    assert!(matches!(
        DatastoreWorker::reply(true, Ok(Response::Empty())),
        Reply::AfterCommit(Ok(Response::Empty()))
    ));
    assert!(matches!(
        DatastoreWorker::reply(false, Ok(Response::Count(3))),
        Reply::Now(Ok(Response::Count(3)))
    ));
    assert_eq!(DatastoreWorker::after_commit(&Ok(())), BatchStep::Continue);
    assert_eq!(DatastoreWorker::after_commit(&Err("full".into())), BatchStep::Rollback);
}

#[test]
fn zeros_are_filtered_by_value_and_grouped_as_written() {
    let with = |timestamp: i128, number: &str| {
        let mut data = JsonMap::new();
        data.insert("n".to_string(), Json::Number(number.to_string()));
        Event::new(timestamp, 1, data)
    };
    let events = || vec![with(0, "-0.0"), with(1, "0.0"), with(2, "0"), with(3, "1.5")];
    let filter = EventFilter {
        key: "n".to_string(),
        vals: vec![FilterValue {
            value: Json::Number("0.0".to_string()),
            written: "0.0".to_string(),
        }],
    };
    let kept = filter_in_memory(events(), &vec![filter]);
    assert_eq!(kept.iter().map(|e| e.timestamp).collect::<Vec<_>>(), vec![0, 1]);
    assert_eq!(group_in_memory(events(), "n").len(), 4);
}
