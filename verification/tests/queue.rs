//! The offline request queue against a scripted server, with the files held in memory.

use std::path::PathBuf;

use activitywatch::event::Event;
use activitywatch::json::{Json, JsonMap};
use activitywatch::queue::{
    classify, default_queue_path, sibling, AfterDelivery, ConnectAttempt, ConnectRequest, Delivery,
    QueueStep, QueuedHeartbeat, State, Transport,
};
use activitywatch::queue_file::{
    append_action, delivered_lines, open_actions, waiting, FileAction, QueueLog,
};
use serde_json::Value;

/// The files of a queue.
#[derive(Default)]
struct Disk {
    contents: String,
    offset: Option<String>,
    temp: String,
}

impl Disk {
    fn perform(&mut self, action: &FileAction) {
        match action {
            FileAction::WriteTemp(text) => self.temp = text.clone(),
            FileAction::RemoveOffset => self.offset = None,
            FileAction::ReplaceByTemp => self.contents = std::mem::take(&mut self.temp),
            FileAction::Append(text) => self.contents.push_str(text),
            FileAction::Empty => self.contents.clear(),
            FileAction::WriteOffset(text) => self.offset = Some(text.clone()),
        }
    }
}

fn app_of(event: &Event) -> String {
    match event.data.get("app") {
        Some(Json::Text(app)) => app.clone(),
        _ => String::new(),
    }
}

fn to_line(request: &QueuedHeartbeat) -> String {
    let mut event = serde_json::Map::new();
    event.insert("timestamp".into(), Value::from(request.event.timestamp as i64));
    event.insert("app".into(), Value::from(app_of(&request.event)));
    let mut line = serde_json::Map::new();
    line.insert("bucket_id".into(), Value::from(request.bucket_id.clone()));
    if let Some(bucket_type) = &request.bucket_type {
        line.insert("bucket_type".into(), Value::from(bucket_type.clone()));
    }
    line.insert(
        "pulsetime".into(),
        Value::from(f64::from_bits(request.pulsetime_bits)),
    );
    line.insert("event".into(), Value::Object(event));
    Value::Object(line).to_string()
}

fn from_line(line: &str) -> Option<QueuedHeartbeat> {
    let value: Value = serde_json::from_str(line).ok()?;
    let mut data = JsonMap::new();
    let app = value["event"]["app"].as_str()?;
    data.insert("app".into(), Json::Text(app.to_string()));
    let timestamp = i128::from(value["event"]["timestamp"].as_i64()?);
    Some(QueuedHeartbeat {
        bucket_id: value["bucket_id"].as_str()?.to_string(),
        bucket_type: value["bucket_type"].as_str().map(str::to_string),
        pulsetime_bits: value["pulsetime"].as_f64()?.to_bits(),
        event: Event::new(timestamp, 0, data),
    })
}

fn event(second: i128, app: &str) -> Event {
    let mut data = JsonMap::new();
    data.insert("app".to_string(), Json::Text(app.to_string()));
    Event::new(1_704_067_200_000_000_000 + second * 1_000_000_000, 0, data)
}

const BASE: &str = "http://127.0.0.1:5600";

struct Queue {
    state: State,
    log: QueueLog,
    disk: Disk,
    transport: Transport,
    /// The request lines and what came with them.
    requests: Vec<(String, String)>,
    /// How often the worker has waited before it tried again.
    waits: usize,
    /// The buckets that are registered while requests to create buckets are in flight.
    registered_in_flight: Vec<(&'static str, &'static str)>,
}

impl Queue {
    fn open(disk: Disk) -> Queue {
        let mut disk = disk;
        let delivered = delivered_lines(disk.offset.as_deref());
        let pending: Vec<QueuedHeartbeat> = waiting(&disk.contents, delivered)
            .iter()
            .filter_map(|line| from_line(&line.text))
            .collect();
        let lines: Vec<String> = pending.iter().map(to_line).collect();
        for action in open_actions(&lines) {
            disk.perform(&action);
        }
        Queue {
            state: State::new(pending),
            log: QueueLog::new(),
            disk,
            transport: Transport {
                baseurl: BASE.to_string(),
                name: "test".to_string(),
                hostname: "host".to_string(),
            },
            requests: Vec::new(),
            waits: 0,
            registered_in_flight: Vec::new(),
        }
    }

    fn heartbeat(&mut self, bucket_id: &str, event: &Event, pulsetime: f64) {
        let request = self.state.heartbeat(bucket_id, event, pulsetime.to_bits());
        self.disk.perform(&append_action(&to_line(&request)));
        self.state.enqueue(request);
    }

    /// Sends a request; `respond` picks the status, or no answer at all.
    fn send(
        &mut self,
        method: &str,
        url: String,
        body: String,
        respond: &mut dyn FnMut(&str) -> Option<u16>,
    ) -> Delivery {
        let line = format!("{method} {} HTTP/1.1", url.strip_prefix(BASE).unwrap());
        let status = respond(&line);
        if method == "POST" && !line.contains("/heartbeat") {
            if let Some((bucket_id, event_type)) = self.registered_in_flight.pop() {
                self.state.register_bucket(bucket_id, event_type);
            }
        }
        self.requests.push((line, body));
        match status {
            None => classify(true, false, false, None),
            Some(200) => Delivery::Sent,
            status => classify(false, false, false, status),
        }
    }

    /// Lets the worker run until it has nothing to do, or has waited so often.
    fn run(&mut self, max_waits: usize, respond: &mut dyn FnMut(&str) -> Option<u16>) {
        while self.waits < max_waits {
            match self.state.next_step() {
                QueueStep::Stop | QueueStep::Idle => return,
                QueueStep::Connect { buckets } => {
                    let mut attempt = ConnectAttempt::new(buckets);
                    let connected = loop {
                        let answer = match attempt.request() {
                            ConnectRequest::Done => break true,
                            ConnectRequest::Ping => {
                                let url = self.transport.ping_url().unwrap();
                                self.send("GET", url, String::new(), respond)
                            }
                            ConnectRequest::Create {
                                bucket_id,
                                event_type,
                            } => {
                                let url = self.transport.bucket_url(&bucket_id).unwrap();
                                let body = self.transport.create_bucket(&bucket_id, &event_type);
                                let kind = match body.get("type") {
                                    Some(Json::Text(kind)) => kind.clone(),
                                    _ => String::new(),
                                };
                                self.send("POST", url, kind, respond)
                            }
                        };
                        if !attempt.answer(answer) {
                            break false;
                        }
                    };
                    if connected {
                        self.state.attempt_succeeded(attempt.refused);
                    } else if self.state.attempt_failed() {
                        self.waits += 1;
                    }
                }
                QueueStep::Send { request } => {
                    let pulsetime = f64::from_bits(request.pulsetime_bits).to_string();
                    let url = self
                        .transport
                        .heartbeat_url(&request.bucket_id, &pulsetime)
                        .unwrap();
                    let delivery = self.send("POST", url, app_of(&request.event), respond);
                    match self.state.answer(&request, delivery) {
                        AfterDelivery::Finished { remaining } => {
                            for action in self.log.mark_delivered(remaining) {
                                self.disk.perform(&action);
                                self.log.performed(&action);
                            }
                        }
                        AfterDelivery::Reconnect => {}
                        AfterDelivery::Wait => self.waits += 1,
                    }
                }
            }
        }
    }

    fn lines(&self) -> Vec<&str> {
        self.requests.iter().map(|(line, _)| line.as_str()).collect()
    }
}

#[test]
fn creates_registered_buckets_then_delivers_heartbeats_in_order() {
    let mut queue = Queue::open(Disk::default());
    queue.state.register_bucket("bucket a", "currentwindow");
    for (second, app) in [(0, "one"), (1, "two"), (2, "three")] {
        queue.heartbeat("bucket a", &event(second, app), 5.0);
    }
    queue.run(10, &mut |_| Some(200));
    assert!(queue.state.is_empty());
    assert!(queue.state.is_connected());
    assert_eq!(
        queue.lines(),
        vec![
            "POST /api/0/buckets/bucket%20a HTTP/1.1",
            "POST /api/0/buckets/bucket%20a/heartbeat?pulsetime=5 HTTP/1.1",
            "POST /api/0/buckets/bucket%20a/heartbeat?pulsetime=5 HTTP/1.1",
            "POST /api/0/buckets/bucket%20a/heartbeat?pulsetime=5 HTTP/1.1",
        ]
    );
    assert_eq!(queue.requests[0].1, "currentwindow");
    let apps: Vec<_> = queue.requests[1..].iter().map(|(_, app)| app.as_str()).collect();
    assert_eq!(apps, vec!["one", "two", "three"]);

    // Drained: the queue file is emptied.
    assert_eq!(queue.disk.contents, "");
}

#[test]
fn keeps_heartbeats_while_server_is_down_and_sends_them_later() {
    let mut queue = Queue::open(Disk::default());
    queue.heartbeat("bucket", &event(0, "one"), 5.0);
    queue.heartbeat("bucket", &event(1, "two"), 5.0);
    queue.run(3, &mut |_| None);
    assert_eq!(queue.state.len(), 2);
    assert!(!queue.state.is_connected());

    // A new queue on the same file picks them up.
    let mut queue = Queue::open(queue.disk);
    queue.run(10, &mut |_| Some(200));
    assert!(queue.state.is_empty());
    assert_eq!(
        queue.lines(),
        vec![
            "GET /api/0/info HTTP/1.1",
            "POST /api/0/buckets/bucket/heartbeat?pulsetime=5 HTTP/1.1",
            "POST /api/0/buckets/bucket/heartbeat?pulsetime=5 HTTP/1.1",
        ]
    );
}

#[test]
fn drops_bad_requests_and_retries_server_errors() {
    let mut heartbeats = 0;
    let mut respond = |line: &str| {
        if !line.contains("/heartbeat") {
            return Some(200);
        }
        heartbeats += 1;
        match heartbeats {
            1 => Some(400), // first heartbeat: rejected, dropped
            2 => Some(500), // second heartbeat: server error, retried
            _ => Some(200),
        }
    };
    let mut queue = Queue::open(Disk::default());
    queue.heartbeat("bucket", &event(0, "rejected"), 5.0);
    queue.heartbeat("bucket", &event(1, "retried"), 5.0);
    queue.run(10, &mut respond);
    assert!(queue.state.is_empty());
    let apps: Vec<_> = queue
        .requests
        .iter()
        .filter(|(line, _)| line.contains("/heartbeat"))
        .map(|(_, app)| app.as_str())
        .collect();
    assert_eq!(apps, vec!["rejected", "retried", "retried"]);
}

#[test]
fn reopening_skips_delivered_and_partial_lines() {
    let line = |second, app| {
        to_line(&QueuedHeartbeat {
            bucket_id: "bucket".to_string(),
            bucket_type: None,
            pulsetime_bits: 5.0f64.to_bits(),
            event: event(second, app),
        })
    };
    // Three complete lines, the first already delivered, then a line cut short mid-write.
    let disk = Disk {
        contents: format!(
            "{}\n{}\n{}\n{{\"bucket_id\":\"buck",
            line(0, "delivered"),
            line(1, "two"),
            line(2, "three")
        ),
        offset: Some("1".to_string()),
        temp: String::new(),
    };
    let mut queue = Queue::open(disk);
    assert_eq!(queue.state.len(), 2);
    queue.heartbeat("bucket", &event(3, "four"), 5.0);

    // The file was compacted to the pending heartbeats, and the new one appended cleanly.
    let apps: Vec<_> = queue
        .disk
        .contents
        .lines()
        .map(|l| app_of(&from_line(l).unwrap().event))
        .collect();
    assert_eq!(apps, vec!["two", "three", "four"]);
    assert!(queue.disk.offset.is_none());
}

#[test]
fn default_queue_path_separates_testing() {
    let prod: PathBuf = default_queue_path("aw-watcher-x", false, false).iter().collect();
    let testing: PathBuf = default_queue_path("aw-watcher-x", true, false).iter().collect();
    assert!(prod.ends_with("aw-client/queued/aw-watcher-x.v1.jsonl"));
    assert!(testing.ends_with("aw-client/queued/aw-watcher-x-testing.v1.jsonl"));
    let windows: PathBuf = default_queue_path("x", false, true).iter().collect();
    assert!(windows.ends_with("activitywatch/activitywatch/aw-client/queued/x.v1.jsonl"));
}

#[test]
fn reopened_queue_recreates_buckets_before_sending() {
    let mut queue = Queue::open(Disk::default());
    queue.state.register_bucket("window", "currentwindow");
    queue.heartbeat("window", &event(0, "one"), 5.0);
    queue.run(1, &mut |_| None);

    // The queue delivers before the watcher registers anything.
    let mut queue = Queue::open(queue.disk);
    queue.run(10, &mut |_| Some(200));
    assert!(queue.state.is_empty());
    assert_eq!(
        queue.lines(),
        vec![
            "POST /api/0/buckets/window HTTP/1.1",
            "POST /api/0/buckets/window/heartbeat?pulsetime=5 HTTP/1.1",
        ]
    );
}

#[test]
fn a_missing_bucket_is_recreated_and_temporary_errors_retried() {
    let mut heartbeats = 0;
    let mut respond = |line: &str| {
        if !line.contains("/heartbeat") {
            return Some(200);
        }
        heartbeats += 1;
        match heartbeats {
            1 => Some(404), // bucket deleted behind our back: recreate, then retry
            2 => Some(503), // temporarily unavailable: retry
            3 => Some(429), // rate limited: retry
            _ => Some(200),
        }
    };
    let mut queue = Queue::open(Disk::default());
    queue.state.register_bucket("window", "currentwindow");
    queue.heartbeat("window", &event(0, "one"), 5.0);
    queue.run(10, &mut respond);
    assert!(queue.state.is_empty());
    assert_eq!(
        queue.lines(),
        vec![
            "POST /api/0/buckets/window HTTP/1.1",
            "POST /api/0/buckets/window/heartbeat?pulsetime=5 HTTP/1.1",
            "POST /api/0/buckets/window HTTP/1.1",
            "POST /api/0/buckets/window/heartbeat?pulsetime=5 HTTP/1.1",
            "POST /api/0/buckets/window/heartbeat?pulsetime=5 HTTP/1.1",
            "POST /api/0/buckets/window/heartbeat?pulsetime=5 HTTP/1.1",
        ]
    );
}

#[test]
fn heartbeats_to_an_unknown_missing_bucket_are_dropped() {
    let mut respond = |line: &str| {
        if line.contains("/heartbeat") {
            Some(404)
        } else {
            Some(200)
        }
    };
    let mut queue = Queue::open(Disk::default());
    queue.heartbeat("never-registered", &event(0, "one"), 5.0);
    queue.run(10, &mut respond);
    assert!(queue.state.is_empty());
    assert_eq!(
        queue.lines(),
        vec![
            "GET /api/0/info HTTP/1.1",
            "POST /api/0/buckets/never-registered/heartbeat?pulsetime=5 HTTP/1.1",
        ]
    );
}

#[test]
fn a_bucket_the_server_refuses_does_not_block_other_heartbeats() {
    let mut queue = Queue::open(Disk::default());
    queue.state.register_bucket("refused", "currentwindow");
    queue.state.register_bucket("ok", "currentwindow");
    queue.heartbeat("refused", &event(0, "one"), 5.0);
    queue.heartbeat("ok", &event(0, "two"), 5.0);
    queue.run(1, &mut |_| None);

    let mut respond = |line: &str| {
        if line.contains("/buckets/refused") {
            if line.contains("/heartbeat") {
                Some(404)
            } else {
                Some(400)
            }
        } else {
            Some(200)
        }
    };
    let mut queue = Queue::open(queue.disk);
    queue.run(10, &mut respond);
    assert!(queue.state.is_empty());
    let lines = queue.lines();
    assert!(
        lines.contains(&"POST /api/0/buckets/ok/heartbeat?pulsetime=5 HTTP/1.1"),
        "{lines:?}"
    );
}

#[test]
fn transient_errors_creating_a_bucket_are_retried() {
    let (mut creates, mut created) = (0, false);
    let mut respond = |line: &str| {
        if line.contains("/api/0/info") {
            return Some(200);
        }
        if line.contains("/heartbeat") {
            // Like the server: no bucket, no heartbeat.
            return if created { Some(200) } else { Some(404) };
        }
        creates += 1;
        match creates {
            1 => Some(429),
            2 => Some(408),
            _ => {
                created = true;
                Some(200)
            }
        }
    };
    let mut queue = Queue::open(Disk::default());
    queue.state.register_bucket("window", "currentwindow");
    queue.heartbeat("window", &event(0, "one"), 5.0);
    // Registering again wakes the worker instead of waiting out the reconnect interval.
    // A registration made while an attempt is in flight must not be lost.
    queue.registered_in_flight = vec![("window", "currentwindow"), ("window", "currentwindow")];
    queue.run(10, &mut respond);
    assert!(queue.state.is_empty());
    assert!(queue.registered_in_flight.is_empty());
    assert_eq!(queue.waits, 0);
    let lines = queue.lines();
    let creates = lines
        .iter()
        .filter(|l| **l == "POST /api/0/buckets/window HTTP/1.1")
        .count();
    assert!(creates >= 3, "bucket creation wasn't retried: {lines:?}");
    assert_eq!(
        *lines.last().unwrap(),
        "POST /api/0/buckets/window/heartbeat?pulsetime=5 HTTP/1.1",
        "{lines:?}"
    );
}

#[test]
fn a_registration_during_an_attempt_is_not_waited_for() {
    let mut state = State::new(vec![]);
    assert!(matches!(state.next_step(), QueueStep::Connect { .. }));
    state.register_bucket("window", "currentwindow");
    assert!(!state.attempt_failed());
    match state.next_step() {
        QueueStep::Connect { buckets } => {
            assert_eq!(buckets, vec![("window".to_string(), "currentwindow".to_string())])
        }
        _ => panic!("no attempt"),
    }
    // Nothing happened during this one.
    assert!(state.attempt_failed());

    assert!(matches!(state.next_step(), QueueStep::Connect { .. }));
    state.register_bucket("window", "currentwindow");
    state.attempt_succeeded(vec![]);
    assert!(matches!(state.next_step(), QueueStep::Connect { .. }));
    state.attempt_succeeded(vec![]);
    assert!(matches!(state.next_step(), QueueStep::Idle));
    state.shutdown();
    assert!(matches!(state.next_step(), QueueStep::Stop));
}

#[test]
fn errors_are_told_apart() {
    assert_eq!(classify(true, false, false, Some(400)), Delivery::Disconnected);
    assert_eq!(classify(false, true, false, None), Delivery::Disconnected);
    assert_eq!(classify(false, false, true, None), Delivery::Disconnected);
    assert_eq!(classify(false, false, false, Some(404)), Delivery::MissingBucket);
    for status in [408, 429, 500, 503, 599] {
        assert_eq!(classify(false, false, false, Some(status)), Delivery::Retry);
    }
    for status in [301, 400, 401, 409, 499, 600] {
        assert_eq!(classify(false, false, false, Some(status)), Delivery::Drop);
    }
    assert_eq!(classify(false, false, false, None), Delivery::Drop);
}

#[test]
fn lost_connections_keep_the_heartbeat() {
    let mut queue = Queue::open(Disk::default());
    queue.heartbeat("bucket", &event(0, "one"), 5.0);
    let mut requests = 0;
    queue.run(2, &mut |line| {
        requests += 1;
        if line.contains("/heartbeat") || requests > 1 {
            None
        } else {
            Some(200)
        }
    });
    assert_eq!(queue.state.len(), 1);
    assert!(!queue.state.is_connected());
    assert_eq!(queue.disk.contents.lines().count(), 1);
}

#[test]
fn a_crash_may_repeat_but_never_skips() {
    // Every prefix of what is done to the files, and every prefix of what is written, keeps the
    // heartbeats that are not delivered.
    let apps = |disk: &Disk| -> Vec<String> {
        waiting(&disk.contents, delivered_lines(disk.offset.as_deref()))
            .iter()
            .filter_map(|line| from_line(&line.text))
            .map(|request| app_of(&request.event))
            .collect()
    };
    let mut queue = Queue::open(Disk::default());
    for n in 0..12 {
        queue.heartbeat("bucket", &event(n, &format!("app{n}")), 5.0);
    }
    for n in 0..12i128 {
        let left: Vec<String> = (n + 1..12).map(|k| format!("app{k}")).collect();
        for action in queue.log.mark_delivered(left.len()) {
            if let FileAction::WriteOffset(text) = &action {
                for k in 0..text.len() {
                    let torn = Disk {
                        contents: queue.disk.contents.clone(),
                        offset: Some(text[..k].to_string()),
                        temp: String::new(),
                    };
                    assert!(apps(&torn).ends_with(&left), "{text} {k}");
                }
            }
            queue.disk.perform(&action);
            queue.log.performed(&action);
            assert!(apps(&queue.disk).ends_with(&left), "{action:?}");
        }
        assert_eq!(apps(&queue.disk), left);
    }
    assert_eq!(queue.disk.contents, "");
    assert_eq!(queue.log.delivered, 0);
}

#[test]
fn opening_never_loses_a_line() {
    let disk = Disk {
        contents: "a\n\nb\r\n \t\nc\npart".to_string(),
        offset: Some(" 1\n".to_string()),
        temp: String::new(),
    };
    let found = waiting(&disk.contents, delivered_lines(disk.offset.as_deref()));
    let lines: Vec<(usize, &str)> = found.iter().map(|l| (l.number, l.text.as_str())).collect();
    assert_eq!(lines, vec![(3, "b"), (5, "c"), (6, "part")]);
    let kept = vec!["b".to_string(), "c".to_string()];
    let actions = open_actions(&kept);
    assert!(matches!(&actions[0], FileAction::WriteTemp(text) if text == "b\nc\n"));
    assert!(matches!(actions[1], FileAction::RemoveOffset));
    assert!(matches!(actions[2], FileAction::ReplaceByTemp));
    assert_eq!(actions.len(), 3);
}

#[test]
fn a_count_that_cannot_be_read_counts_nothing() {
    assert_eq!(delivered_lines(None), 0);
    assert_eq!(delivered_lines(Some("")), 0);
    assert_eq!(delivered_lines(Some("x1")), 0);
    assert_eq!(delivered_lines(Some("-1")), 0);
    assert_eq!(delivered_lines(Some("18446744073709551616")), 0);
    assert_eq!(delivered_lines(Some("18446744073709551615")), u64::MAX);
    assert_eq!(delivered_lines(Some(" 12 \n")), 12);
}

#[test]
fn files_beside_the_queue_file_have_its_name() {
    assert_eq!(sibling(Some("queue.v1.jsonl"), ".offset"), "queue.v1.jsonl.offset");
    assert_eq!(sibling(None, ".lock"), ".lock");
}

#[test]
fn addresses_are_encoded() {
    let transport = Transport {
        baseurl: "http://localhost:5600/".to_string(),
        name: "client".to_string(),
        hostname: "host".to_string(),
    };
    assert_eq!(
        transport.ping_url().unwrap(),
        "http://localhost:5600/api/0/info"
    );
    assert_eq!(
        transport.heartbeat_url("a/b?c", "2.5").unwrap(),
        "http://localhost:5600/api/0/buckets/a%2Fb%3Fc/heartbeat?pulsetime=2.5"
    );
    let body = transport.create_bucket("id", "kind");
    assert_eq!(body.get("id"), Some(&Json::Text("id".into())));
    assert_eq!(body.get("client"), Some(&Json::Text("client".into())));
    assert_eq!(body.get("type"), Some(&Json::Text("kind".into())));
    assert_eq!(body.get("hostname"), Some(&Json::Text("host".into())));
    assert_eq!(body.get("data"), Some(&Json::Object(JsonMap::new())));
    let nowhere = Transport {
        baseurl: "not a url".to_string(),
        name: String::new(),
        hostname: String::new(),
    };
    assert!(nowhere.ping_url().is_none());
}

#[test]
fn reopening_finds_no_delivered_line() {
    let mut disk = Disk { contents: String::new(), offset: None, temp: String::new() };
    let mut log = QueueLog::new();
    for line in ["a", "b", "c"] {
        disk.perform(&append_action(line));
    }
    let waits = |disk: &Disk| -> Vec<String> {
        waiting(&disk.contents, delivered_lines(disk.offset.as_deref()))
            .into_iter()
            .map(|line| line.text)
            .collect()
    };
    for (remaining, left) in [(2, vec!["b", "c"]), (1, vec!["c"]), (0, vec![])] {
        for action in log.mark_delivered(remaining) {
            disk.perform(&action);
            log.performed(&action);
        }
        assert_eq!(waits(&disk), left);
    }
    disk.perform(&append_action("d"));
    assert_eq!(waits(&disk), vec!["d"]);
}
