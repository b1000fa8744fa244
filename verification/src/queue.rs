//! The offline request queue.
//!
//! Heartbeats are written to a file and delivered by a background worker, so that a watcher
//! keeps recording while the server is down, and nothing queued is lost when the watcher
//! exits. Registered buckets are created every time the queue connects, before any queued
//! heartbeat is sent. Each queued heartbeat remembers the type of its bucket, so that a queue
//! that is opened again on the same file can create the buckets it has heartbeats for, and a
//! bucket that has disappeared is created anew.
//!
//! Connection failures, timeouts, 408, 429 and 5xx responses are retried. After any other error
//! the heartbeat is dropped. A bucket that the server refuses to create does not keep the other
//! buckets and heartbeats waiting.

use std::collections::VecDeque;

use vstd::prelude::*;

use crate::event::Event;
#[allow(unused_imports)]
use crate::event::EventView;
use crate::json::{Json, JsonMap};
#[allow(unused_imports)]
use crate::json::JsonView;
use crate::text::{join, same_text};
#[allow(unused_imports)]
use crate::text::texts;

verus! {

/// How long to wait between attempts to connect, in milliseconds.
pub const RECONNECT_INTERVAL: u64 = 10_000;

/// How long to wait after a failed delivery before it is retried, in milliseconds.
pub const RETRY_DELAY: u64 = 500;

/// How long one request may take, in milliseconds, so that stopping the queue never waits long
/// on a server that hangs.
pub const REQUEST_TIMEOUT: u64 = 10_000;

/// How long an idle worker waits before it looks at the queue again, in milliseconds.
pub const IDLE_INTERVAL: u64 = 1_000;

/// A heartbeat that waits for its delivery.
#[derive(Debug)]
pub struct QueuedHeartbeat {
    pub bucket_id: String,
    /// The type of the bucket if it was registered, so that the bucket can be created again.
    pub bucket_type: Option<String>,
    /// The bits of the pulse time, a number of seconds in double precision.
    pub pulsetime_bits: u64,
    pub event: Event,
}

/// What a [`QueuedHeartbeat`] stands for.
#[verifier::ext_equal]
pub struct HeartbeatView {
    pub bucket_id: Seq<char>,
    pub bucket_type: Option<Seq<char>>,
    pub pulsetime_bits: u64,
    pub event: EventView,
}

/// What an optional string stands for.
pub open spec fn optional_text(text: Option<String>) -> Option<Seq<char>> {
    match text {
        Some(text) => Some(text@),
        None => None,
    }
}

impl View for QueuedHeartbeat {
    type V = HeartbeatView;

    open spec fn view(&self) -> HeartbeatView {
        HeartbeatView {
            bucket_id: self.bucket_id@,
            bucket_type: optional_text(self.bucket_type),
            pulsetime_bits: self.pulsetime_bits,
            event: self.event@,
        }
    }
}

impl QueuedHeartbeat {
    pub fn copy(&self) -> (copied: QueuedHeartbeat)
        ensures
            copied@ == self@,
    {
        let bucket_type = match &self.bucket_type {
            Some(text) => Some(text.clone()),
            None => None,
        };
        QueuedHeartbeat {
            bucket_id: self.bucket_id.clone(),
            bucket_type,
            pulsetime_bits: self.pulsetime_bits,
            event: self.event.copy(),
        }
    }
}

/// What became of a request to the server.
#[derive(Debug, Clone, Copy, PartialEq, Eq, Structural)]
pub enum Delivery {
    Sent,
    /// The server cannot be reached: connect again first.
    Disconnected,
    /// A transient error of the server: try the same again shortly.
    Retry,
    /// The bucket does not exist.
    MissingBucket,
    /// It will never succeed.
    Drop,
}

/// What an error means: its kind as the transport sees it, and the status of the response if
/// there was one.
pub open spec fn meaning(no_connection: bool, status: Option<u16>) -> Delivery {
    if no_connection {
        Delivery::Disconnected
    } else {
        match status {
            Some(status) => if status == 404 {
                Delivery::MissingBucket
            } else if status == 408 || status == 429 || 500 <= status < 600 {
                Delivery::Retry
            } else {
                Delivery::Drop
            },
            None => Delivery::Drop,
        }
    }
}

/// Tells what an error means for the delivery.
pub fn classify(is_connect: bool, is_timeout: bool, is_request: bool, status: Option<u16>) -> (r:
    Delivery)
    ensures
        r == meaning(is_connect || is_timeout || is_request, status),
{
    if is_connect || is_timeout || is_request {
        return Delivery::Disconnected;
    }
    match status {
        Some(404) => Delivery::MissingBucket,
        Some(408) => Delivery::Retry,
        Some(429) => Delivery::Retry,
        Some(status) => if 500 <= status && status < 600 {
            Delivery::Retry
        } else {
            Delivery::Drop
        },
        None => Delivery::Drop,
    }
}

/// What a list of buckets stands for: the id and the type of each.
pub open spec fn bucket_views(buckets: Seq<(String, String)>) -> Seq<(Seq<char>, Seq<char>)> {
    buckets.map_values(|b: (String, String)| (b.0@, b.1@))
}

/// What a list of heartbeats stands for.
pub open spec fn heartbeat_views(queue: Seq<QueuedHeartbeat>) -> Seq<HeartbeatView> {
    queue.map_values(|h: QueuedHeartbeat| h@)
}

/// The state of a queue.
#[verifier::ext_equal]
pub struct QueueView {
    /// The heartbeats that wait, the next one to be sent first.
    pub queue: Seq<HeartbeatView>,
    /// The id and the type of each bucket to create on every connection.
    pub buckets: Seq<(Seq<char>, Seq<char>)>,
    /// The ids of the buckets that the server refused to create on the last connection.
    pub refused: Seq<Seq<char>>,
    pub buckets_pending: bool,
    pub connected: bool,
    pub stop: bool,
}

/// What the worker does next.
pub enum QueueStepView {
    Stop,
    Connect { buckets: Seq<(Seq<char>, Seq<char>)> },
    Send { request: HeartbeatView },
    Idle,
}

/// What the worker does after a delivery.
#[derive(Debug, Clone, Copy, PartialEq, Eq, Structural)]
pub enum AfterDelivery {
    /// The heartbeat has left the queue, which holds this many more.
    Finished { remaining: usize },
    /// The server has to be connected to first.
    Reconnect,
    /// The same heartbeat is sent again after [`RETRY_DELAY`].
    Wait,
}

/// The type under which the bucket is known.
pub open spec fn known_type(buckets: Seq<(Seq<char>, Seq<char>)>, bucket_id: Seq<char>) -> Option<
    Seq<char>,
>
    decreases buckets.len(),
{
    if buckets.len() == 0 {
        None
    } else if buckets[0].0 == bucket_id {
        Some(buckets[0].1)
    } else {
        known_type(buckets.drop_first(), bucket_id)
    }
}

/// The buckets with one more, if it is not among them.
pub open spec fn with_bucket(
    buckets: Seq<(Seq<char>, Seq<char>)>,
    bucket: (Seq<char>, Seq<char>),
) -> Seq<(Seq<char>, Seq<char>)> {
    if buckets.contains(bucket) {
        buckets
    } else {
        buckets.push(bucket)
    }
}

/// The buckets that the heartbeats belong to, each once, in the order of their first heartbeat.
pub open spec fn buckets_of(queue: Seq<HeartbeatView>) -> Seq<(Seq<char>, Seq<char>)>
    decreases queue.len(),
{
    if queue.len() == 0 {
        Seq::empty()
    } else {
        match queue.last().bucket_type {
            Some(bucket_type) => with_bucket(
                buckets_of(queue.drop_last()),
                (queue.last().bucket_id, bucket_type),
            ),
            None => buckets_of(queue.drop_last()),
        }
    }
}

impl QueueView {
    /// The state of a queue that has just been opened.
    pub open spec fn opened(queue: Seq<HeartbeatView>) -> QueueView {
        QueueView {
            queue,
            buckets: buckets_of(queue),
            refused: Seq::empty(),
            buckets_pending: buckets_of(queue).len() > 0,
            connected: false,
            stop: false,
        }
    }

    /// A bucket is registered.
    pub open spec fn registered(self, bucket_id: Seq<char>, event_type: Seq<char>) -> QueueView {
        QueueView {
            buckets: with_bucket(self.buckets, (bucket_id, event_type)),
            buckets_pending: true,
            ..self
        }
    }

    /// The heartbeat to queue for an event.
    pub open spec fn request(
        self,
        bucket_id: Seq<char>,
        event: EventView,
        pulsetime_bits: u64,
    ) -> HeartbeatView {
        HeartbeatView {
            bucket_id,
            bucket_type: known_type(self.buckets, bucket_id),
            pulsetime_bits,
            event,
        }
    }

    /// A heartbeat is queued.
    pub open spec fn enqueued(self, request: HeartbeatView) -> QueueView {
        QueueView { queue: self.queue.push(request), ..self }
    }

    /// The queue is told to stop.
    pub open spec fn stopped(self) -> QueueView {
        QueueView { stop: true, ..self }
    }

    /// What the worker does next.
    pub open spec fn next_step(self) -> QueueStepView {
        if self.stop {
            QueueStepView::Stop
        } else if !self.connected || self.buckets_pending {
            QueueStepView::Connect { buckets: self.buckets }
        } else if self.queue.len() == 0 {
            QueueStepView::Idle
        } else {
            QueueStepView::Send { request: self.queue[0] }
        }
    }

    /// The worker starts to connect: it creates the buckets that are known at this point.
    pub open spec fn attempt_started(self) -> QueueView {
        QueueView { buckets_pending: false, refused: Seq::empty(), ..self }
    }

    /// The worker has connected. The server has refused to create some of the buckets.
    pub open spec fn attempt_succeeded(self, refused: Seq<Seq<char>>) -> QueueView {
        QueueView { connected: true, refused, ..self }
    }

    /// The worker could not connect.
    pub open spec fn attempt_failed(self) -> QueueView {
        QueueView { connected: false, ..self }
    }

    /// What the answer to a heartbeat means once it is known whether its bucket can be created.
    pub open spec fn verdict(self, request: HeartbeatView, delivery: Delivery) -> Delivery {
        if delivery != Delivery::MissingBucket {
            delivery
        } else if self.refused.contains(request.bucket_id) {
            Delivery::Drop
        } else if known_type(self.buckets, request.bucket_id) is Some || request.bucket_type is Some {
            Delivery::Retry
        } else {
            Delivery::Drop
        }
    }

    /// The state after the answer to a heartbeat.
    pub open spec fn answered(self, request: HeartbeatView, delivery: Delivery) -> QueueView {
        match self.verdict(request, delivery) {
            Delivery::Sent | Delivery::Drop => QueueView {
                queue: if self.queue.len() > 0 {
                    self.queue.drop_first()
                } else {
                    self.queue
                },
                ..self
            },
            Delivery::Disconnected => QueueView { connected: false, ..self },
            _ => if delivery == Delivery::MissingBucket {
                QueueView {
                    buckets: match known_type(self.buckets, request.bucket_id) {
                        Some(_) => self.buckets,
                        None => self.buckets.push(
                            (request.bucket_id, request.bucket_type->Some_0),
                        ),
                    },
                    buckets_pending: true,
                    ..self
                }
            } else {
                self
            },
        }
    }
}

/// The state of a queue, which the worker and the users of the queue share.
pub struct State {
    pub queue: VecDeque<QueuedHeartbeat>,
    /// The id and the type of each bucket to create on every connection.
    pub buckets: Vec<(String, String)>,
    /// The ids of the buckets that the server refused to create on the last connection.
    pub refused: Vec<String>,
    /// Set when a bucket is registered or is missing, so that it is created before the next
    /// delivery.
    pub buckets_pending: bool,
    pub connected: bool,
    pub stop: bool,
}

impl View for State {
    type V = QueueView;

    open spec fn view(&self) -> QueueView {
        QueueView {
            queue: heartbeat_views(self.queue@),
            buckets: bucket_views(self.buckets@),
            refused: texts(self.refused@),
            buckets_pending: self.buckets_pending,
            connected: self.connected,
            stop: self.stop,
        }
    }
}

/// What the worker does next.
pub enum QueueStep {
    /// Return.
    Stop,
    /// Create these buckets, or ask whether the server is there if there are none.
    Connect { buckets: Vec<(String, String)> },
    /// Send this heartbeat.
    Send { request: QueuedHeartbeat },
    /// Wait for something to do.
    Idle,
}

impl View for QueueStep {
    type V = QueueStepView;

    open spec fn view(&self) -> QueueStepView {
        match self {
            QueueStep::Stop => QueueStepView::Stop,
            QueueStep::Connect { buckets } => QueueStepView::Connect {
                buckets: bucket_views(buckets@),
            },
            QueueStep::Send { request } => QueueStepView::Send { request: request@ },
            QueueStep::Idle => QueueStepView::Idle,
        }
    }
}

fn holds_bucket(buckets: &Vec<(String, String)>, bucket_id: &str, event_type: &str) -> (r: bool)
    ensures
        r == bucket_views(buckets@).contains((bucket_id@, event_type@)),
{
    let mut i: usize = 0;
    while i < buckets.len()
        invariant
            i <= buckets.len(),
            forall|k: int|
                0 <= k < i ==> #[trigger] bucket_views(buckets@)[k] != (bucket_id@, event_type@),
        decreases buckets.len() - i,
    {
        if same_text(buckets[i].0.as_str(), bucket_id) && same_text(
            buckets[i].1.as_str(),
            event_type,
        ) {
            assert(bucket_views(buckets@)[i as int] == (bucket_id@, event_type@));
            return true;
        }
        i += 1;
    }
    false
}

fn holds_text(list: &Vec<String>, text: &str) -> (r: bool)
    ensures
        r == texts(list@).contains(text@),
{
    let mut i: usize = 0;
    while i < list.len()
        invariant
            i <= list.len(),
            forall|k: int| 0 <= k < i ==> #[trigger] texts(list@)[k] != text@,
        decreases list.len() - i,
    {
        if same_text(list[i].as_str(), text) {
            assert(texts(list@)[i as int] == text@);
            return true;
        }
        i += 1;
    }
    false
}

fn copy_buckets(buckets: &Vec<(String, String)>) -> (copied: Vec<(String, String)>)
    ensures
        bucket_views(copied@) == bucket_views(buckets@),
{
    let mut copied: Vec<(String, String)> = Vec::new();
    let mut i: usize = 0;
    while i < buckets.len()
        invariant
            i <= buckets.len(),
            bucket_views(copied@) == bucket_views(buckets@).take(i as int),
        decreases buckets.len() - i,
    {
        let ghost before = bucket_views(copied@);
        copied.push((buckets[i].0.clone(), buckets[i].1.clone()));
        proof {
            let all = bucket_views(buckets@);
            assert(bucket_views(copied@) =~= before.push(all[i as int]));
            assert(all.take(i + 1) =~= all.take(i as int).push(all[i as int]));
        }
        i += 1;
    }
    proof {
        assert(bucket_views(buckets@).take(i as int) =~= bucket_views(buckets@));
    }
    copied
}

fn add_bucket(buckets: &mut Vec<(String, String)>, bucket_id: &str, event_type: &str)
    ensures
        bucket_views(final(buckets)@) == with_bucket(
            bucket_views(old(buckets)@),
            (bucket_id@, event_type@),
        ),
{
    if !holds_bucket(buckets, bucket_id, event_type) {
        let ghost before = bucket_views(buckets@);
        buckets.push((bucket_id.to_string(), event_type.to_string()));
        proof {
            assert(bucket_views(buckets@) =~= before.push((bucket_id@, event_type@)));
        }
    }
}

impl State {
    /// The state of a queue that has just been opened with these heartbeats. The buckets that
    /// they belong to are created before they are sent.
    pub fn new(pending: Vec<QueuedHeartbeat>) -> (state: State)
        ensures
            state@ == QueueView::opened(heartbeat_views(pending@)),
    {
        let ghost all = heartbeat_views(pending@);
        let mut queue: VecDeque<QueuedHeartbeat> = VecDeque::new();
        let mut buckets: Vec<(String, String)> = Vec::new();
        proof {
            assert(bucket_views(buckets@) =~= Seq::empty());
            assert(heartbeat_views(queue@) =~= all.take(0));
        }
        for request in it: pending
            invariant
                it.seq() == pending@,
                all == heartbeat_views(pending@),
                heartbeat_views(queue@) == all.take(it.index()),
                bucket_views(buckets@) == buckets_of(all.take(it.index())),
        {
            let ghost i = it.index();
            let ghost before = heartbeat_views(queue@);
            proof {
                assert(all[i] == request@);
                assert(all.take(i + 1) =~= all.take(i).push(all[i]));
                assert(all.take(i + 1).drop_last() =~= all.take(i));
            }
            if let Some(bucket_type) = &request.bucket_type {
                add_bucket(&mut buckets, request.bucket_id.as_str(), bucket_type.as_str());
            }
            queue.push_back(request);
            proof {
                assert(heartbeat_views(queue@) =~= before.push(request@));
            }
        }
        proof {
            assert(all.take(all.len() as int) =~= all);
        }
        let buckets_pending = buckets.len() > 0;
        let state = State {
            queue,
            buckets,
            refused: Vec::new(),
            buckets_pending,
            connected: false,
            stop: false,
        };
        proof {
            assert(state@ =~= QueueView::opened(all));
        }
        state
    }

    /// The type under which the bucket is known.
    pub fn bucket_type(&self, bucket_id: &str) -> (r: Option<String>)
        ensures
            optional_text(r) == known_type(self@.buckets, bucket_id@),
    {
        let ghost all = bucket_views(self.buckets@);
        let mut i: usize = 0;
        proof {
            assert(all.skip(0) =~= all);
        }
        while i < self.buckets.len()
            invariant
                all == bucket_views(self.buckets@),
                i <= self.buckets.len(),
                known_type(all, bucket_id@) == known_type(all.skip(i as int), bucket_id@),
            decreases self.buckets.len() - i,
        {
            proof {
                assert(all.skip(i as int).drop_first() =~= all.skip(i + 1));
            }
            if same_text(self.buckets[i].0.as_str(), bucket_id) {
                return Some(self.buckets[i].1.clone());
            }
            i += 1;
        }
        None
    }

    /// Has the bucket created whenever the queue connects, before queued heartbeats are sent.
    pub fn register_bucket(&mut self, bucket_id: &str, event_type: &str)
        ensures
            final(self)@ == old(self)@.registered(bucket_id@, event_type@),
    {
        add_bucket(&mut self.buckets, bucket_id, event_type);
        self.buckets_pending = true;
        proof {
            assert(self@ =~= old(self)@.registered(bucket_id@, event_type@));
        }
    }

    /// The heartbeat to write to the file, and then to queue with [`State::enqueue`].
    pub fn heartbeat(&self, bucket_id: &str, event: &Event, pulsetime_bits: u64) -> (request:
        QueuedHeartbeat)
        ensures
            request@ == self@.request(bucket_id@, event@, pulsetime_bits),
    {
        QueuedHeartbeat {
            bucket_id: bucket_id.to_string(),
            bucket_type: self.bucket_type(bucket_id),
            pulsetime_bits,
            event: event.copy(),
        }
    }

    /// Queues a heartbeat that has been written to the file.
    pub fn enqueue(&mut self, request: QueuedHeartbeat)
        ensures
            final(self)@ == old(self)@.enqueued(request@),
    {
        self.queue.push_back(request);
        proof {
            assert(self@ =~= old(self)@.enqueued(request@));
        }
    }

    /// The number of heartbeats that are not delivered yet.
    pub fn len(&self) -> (len: usize)
        ensures
            len == self@.queue.len(),
    {
        self.queue.len()
    }

    pub fn is_empty(&self) -> (r: bool)
        ensures
            r == (self@.queue.len() == 0),
    {
        self.queue.len() == 0
    }

    /// Whether the last attempt to reach the server succeeded.
    pub fn is_connected(&self) -> (r: bool)
        ensures
            r == self@.connected,
    {
        self.connected
    }

    /// Tells the worker to return.
    pub fn shutdown(&mut self)
        ensures
            final(self)@ == old(self)@.stopped(),
    {
        self.stop = true;
        proof {
            assert(self@ =~= old(self)@.stopped());
        }
    }

    /// What the worker does next. An attempt to connect starts with this call.
    pub fn next_step(&mut self) -> (step: QueueStep)
        ensures
            step@ == old(self)@.next_step(),
            step is Connect ==> final(self)@ == old(self)@.attempt_started(),
            !(step is Connect) ==> final(self)@ == old(self)@,
    {
        if self.stop {
            return QueueStep::Stop;
        }
        if !self.connected || self.buckets_pending {
            let buckets = copy_buckets(&self.buckets);
            self.buckets_pending = false;
            self.refused = Vec::new();
            proof {
                assert(texts(self.refused@) =~= Seq::empty());
                assert(self@ =~= old(self)@.attempt_started());
            }
            return QueueStep::Connect { buckets };
        }
        if self.queue.len() == 0 {
            return QueueStep::Idle;
        }
        QueueStep::Send { request: self.queue[0].copy() }
    }

    /// Notes that the worker has connected, and which buckets the server refused to create.
    pub fn attempt_succeeded(&mut self, refused: Vec<String>)
        ensures
            final(self)@ == old(self)@.attempt_succeeded(texts(refused@)),
    {
        self.connected = true;
        self.refused = refused;
        proof {
            assert(self@ =~= old(self)@.attempt_succeeded(texts(refused@)));
        }
    }

    /// Notes that the worker could not connect. Tells whether it waits before it tries again:
    /// not if a bucket was registered meanwhile.
    pub fn attempt_failed(&mut self) -> (wait: bool)
        ensures
            final(self)@ == old(self)@.attempt_failed(),
            wait == !old(self)@.buckets_pending,
    {
        self.connected = false;
        proof {
            assert(self@ =~= old(self)@.attempt_failed());
        }
        !self.buckets_pending
    }

    /// Takes the answer to a heartbeat.
    pub fn answer(&mut self, request: &QueuedHeartbeat, delivery: Delivery) -> (after: AfterDelivery)
        ensures
            final(self)@ == old(self)@.answered(request@, delivery),
            match old(self)@.verdict(request@, delivery) {
                Delivery::Sent | Delivery::Drop => after is Finished && after->remaining
                    == final(self)@.queue.len(),
                Delivery::Disconnected => after is Reconnect,
                _ => after is Wait,
            },
    {
        let ghost before = self@;
        let mut verdict = delivery;
        if delivery == Delivery::MissingBucket {
            if holds_text(&self.refused, request.bucket_id.as_str()) {
                verdict = Delivery::Drop;
            } else {
                match self.bucket_type(request.bucket_id.as_str()) {
                    Some(_) => {
                        // Created again, with every other bucket, before the next attempt.
                        self.buckets_pending = true;
                        verdict = Delivery::Retry;
                    },
                    None => match &request.bucket_type {
                        Some(bucket_type) => {
                            let ghost known = bucket_views(self.buckets@);
                            self.buckets.push((request.bucket_id.clone(), bucket_type.clone()));
                            self.buckets_pending = true;
                            verdict = Delivery::Retry;
                            proof {
                                assert(bucket_views(self.buckets@) =~= known.push(
                                    (request@.bucket_id, bucket_type@),
                                ));
                            }
                        },
                        None => {
                            verdict = Delivery::Drop;
                        },
                    },
                }
            }
        }
        assert(verdict == before.verdict(request@, delivery));
        match verdict {
            Delivery::Sent | Delivery::Drop => {
                let ghost queued = self.queue@;
                let _ = self.queue.pop_front();
                proof {
                    if queued.len() > 0 {
                        assert(heartbeat_views(self.queue@) =~= before.queue.drop_first());
                    }
                    assert(self@ =~= before.answered(request@, delivery));
                }
                AfterDelivery::Finished { remaining: self.queue.len() }
            },
            Delivery::Disconnected => {
                self.connected = false;
                proof {
                    assert(self@ =~= before.answered(request@, delivery));
                }
                AfterDelivery::Reconnect
            },
            _ => {
                proof {
                    assert(self@ =~= before.answered(request@, delivery));
                }
                AfterDelivery::Wait
            },
        }
    }
}

/// A request of an attempt to connect.
pub enum ConnectRequest {
    /// Ask whether the server is there.
    Ping,
    /// Create a bucket.
    Create { bucket_id: String, event_type: String },
    /// There is no more to ask: the attempt has succeeded.
    Done,
}

/// An attempt to connect: each bucket is created in turn, or the server is asked whether it is
/// there if there is no bucket.
pub struct ConnectAttempt {
    pub buckets: Vec<(String, String)>,
    /// How many requests have been answered.
    pub answered: usize,
    /// The ids of the buckets that the server has refused to create.
    pub refused: Vec<String>,
}

/// The ids of the buckets that are refused when each creation is answered in turn.
pub open spec fn refused_ids(
    buckets: Seq<(Seq<char>, Seq<char>)>,
    answers: Seq<Delivery>,
) -> Seq<Seq<char>>
    decreases answers.len(),
{
    if answers.len() == 0 {
        Seq::empty()
    } else {
        let before = refused_ids(buckets, answers.drop_last());
        if refuses(answers.last()) {
            before.push(buckets[answers.len() - 1].0)
        } else {
            before
        }
    }
}

/// Whether the server has refused to create the bucket, so that asking again is of no use.
pub open spec fn refuses(answer: Delivery) -> bool {
    answer == Delivery::MissingBucket || answer == Delivery::Drop
}

impl ConnectAttempt {
    /// The attempt has come this far with these answers.
    pub open spec fn after(self, answers: Seq<Delivery>) -> bool {
        &&& self.answered == answers.len()
        &&& if self.buckets@.len() == 0 {
            self.answered <= 1 && texts(self.refused@) == Seq::<Seq<char>>::empty()
        } else {
            self.answered <= self.buckets@.len() && texts(self.refused@) == refused_ids(
                bucket_views(self.buckets@),
                answers,
            )
        }
    }

    pub fn new(buckets: Vec<(String, String)>) -> (attempt: ConnectAttempt)
        ensures
            attempt.buckets == buckets,
            attempt.after(Seq::empty()),
    {
        let attempt = ConnectAttempt { buckets, answered: 0, refused: Vec::new() };
        proof {
            assert(texts(attempt.refused@) =~= Seq::empty());
        }
        attempt
    }

    /// The request to send next.
    pub fn request(&self) -> (request: ConnectRequest)
        ensures
            match request {
                ConnectRequest::Ping => self.buckets@.len() == 0 && self.answered == 0,
                ConnectRequest::Create { bucket_id, event_type } => self.answered
                    < self.buckets@.len() && bucket_views(self.buckets@)[self.answered as int] == (
                    bucket_id@,
                    event_type@,
                ),
                ConnectRequest::Done => self.answered >= self.buckets@.len() && (self.buckets@.len()
                    == 0 ==> self.answered > 0),
            },
    {
        if self.buckets.len() == 0 {
            if self.answered == 0 {
                ConnectRequest::Ping
            } else {
                ConnectRequest::Done
            }
        } else if self.answered < self.buckets.len() {
            let (bucket_id, event_type) = &self.buckets[self.answered];
            ConnectRequest::Create { bucket_id: bucket_id.clone(), event_type: event_type.clone() }
        } else {
            ConnectRequest::Done
        }
    }

    /// Takes the answer to the request. Tells whether the attempt goes on: it fails if the
    /// server cannot be reached or has a transient error, not if it refuses a bucket.
    pub fn answer(&mut self, answer: Delivery) -> (goes_on: bool)
        requires
            old(self).answered < old(self).buckets@.len() || (old(self).buckets@.len() == 0 && old(
                self,
            ).answered == 0),
        ensures
            final(self).buckets == old(self).buckets,
            goes_on == (answer == Delivery::Sent || (old(self).buckets@.len() > 0 && refuses(
                answer,
            ))),
            !goes_on ==> *final(self) == *old(self),
            forall|answers: Seq<Delivery>|
                goes_on && #[trigger] old(self).after(answers) ==> final(self).after(
                    answers.push(answer),
                ),
    {
        let ghost before = *self;
        let count: usize = self.buckets.len();
        let goes_on: bool;
        if answer == Delivery::Sent {
            self.answered = self.answered + 1;
            goes_on = true;
        } else if count > 0 && (answer == Delivery::MissingBucket || answer == Delivery::Drop) {
            let ghost refused = texts(self.refused@);
            self.refused.push(self.buckets[self.answered].0.clone());
            proof {
                assert(texts(self.refused@) =~= refused.push(
                    bucket_views(before.buckets@)[before.answered as int].0,
                ));
            }
            self.answered = self.answered + 1;
            goes_on = true;
        } else {
            goes_on = false;
        }
        proof {
            assert forall|answers: Seq<Delivery>|
                goes_on && #[trigger] before.after(answers) implies self.after(
                answers.push(answer),
            ) by {
                assert(answers.push(answer).drop_last() =~= answers);
            }
        }
        goes_on
    }
}

/// What happens to a queue.
pub enum QueueOperation {
    Register { bucket_id: Seq<char>, event_type: Seq<char> },
    Enqueue { request: HeartbeatView },
    StartAttempt,
    Succeed { refused: Seq<Seq<char>> },
    Fail,
    Answer { request: HeartbeatView, delivery: Delivery },
    Stop,
}

/// The state after an operation.
pub open spec fn operated(state: QueueView, operation: QueueOperation) -> QueueView {
    match operation {
        QueueOperation::Register { bucket_id, event_type } => state.registered(
            bucket_id,
            event_type,
        ),
        QueueOperation::Enqueue { request } => state.enqueued(request),
        QueueOperation::StartAttempt => state.attempt_started(),
        QueueOperation::Succeed { refused } => state.attempt_succeeded(refused),
        QueueOperation::Fail => state.attempt_failed(),
        QueueOperation::Answer { request, delivery } => state.answered(request, delivery),
        QueueOperation::Stop => state.stopped(),
    }
}

/// The state after a number of operations.
pub open spec fn operated_all(state: QueueView, operations: Seq<QueueOperation>) -> QueueView
    decreases operations.len(),
{
    if operations.len() == 0 {
        state
    } else {
        operated(operated_all(state, operations.drop_last()), operations.last())
    }
}

/// The heartbeats that the operations queue.
pub open spec fn queued_by(operations: Seq<QueueOperation>) -> Seq<HeartbeatView>
    decreases operations.len(),
{
    if operations.len() == 0 {
        Seq::empty()
    } else {
        match operations.last() {
            QueueOperation::Enqueue { request } => queued_by(operations.drop_last()).push(request),
            _ => queued_by(operations.drop_last()),
        }
    }
}

/// The heartbeats that leave the queue, sent or dropped.
pub open spec fn finished_by(state: QueueView, operations: Seq<QueueOperation>) -> Seq<HeartbeatView>
    decreases operations.len(),
{
    if operations.len() == 0 {
        Seq::empty()
    } else {
        let earlier = finished_by(state, operations.drop_last());
        let before = operated_all(state, operations.drop_last());
        match operations.last() {
            QueueOperation::Answer { request, delivery } => if before.queue.len() > 0
                && finishes(before.verdict(request, delivery)) {
                earlier.push(before.queue[0])
            } else {
                earlier
            },
            _ => earlier,
        }
    }
}

/// Whether the heartbeat leaves the queue.
pub open spec fn finishes(verdict: Delivery) -> bool {
    verdict == Delivery::Sent || verdict == Delivery::Drop
}

/// Heartbeats leave the queue in the order in which they came. Whatever happens to the queue,
/// those that have left it and those that are in it are together, in order, those that were
/// in it at first and those that were queued.
pub proof fn law_first_in_first_out(state: QueueView, operations: Seq<QueueOperation>)
    ensures
        finished_by(state, operations) + operated_all(state, operations).queue == state.queue
            + queued_by(operations),
    decreases operations.len(),
{
    if operations.len() > 0 {
        let earlier = operations.drop_last();
        law_first_in_first_out(state, earlier);
        let before = operated_all(state, earlier);
        let done = finished_by(state, earlier);
        match operations.last() {
            QueueOperation::Answer { request, delivery } => {
                if before.queue.len() > 0 && finishes(before.verdict(request, delivery)) {
                    assert(done.push(before.queue[0]) + before.queue.drop_first() =~= done
                        + before.queue);
                }
            },
            QueueOperation::Enqueue { request } => {
                assert(done + before.queue.push(request) =~= (done + before.queue).push(request));
                assert((state.queue + queued_by(earlier)).push(request) =~= state.queue + queued_by(
                    earlier,
                ).push(request));
            },
            _ => {},
        }
    } else {
        assert(Seq::<HeartbeatView>::empty() + state.queue =~= state.queue
            + Seq::<HeartbeatView>::empty());
    }
}

/// A connection failure, a timeout, a 408, a 429 and any 5xx response leave every heartbeat in
/// the queue.
pub proof fn law_transient_errors_lose_nothing(
    state: QueueView,
    request: HeartbeatView,
    no_connection: bool,
    status: Option<u16>,
)
    requires
        no_connection || (status matches Some(s) && (s == 408 || s == 429 || 500 <= s < 600)),
    ensures
        state.answered(request, meaning(no_connection, status)).queue == state.queue,
{
}

/// A queue that is not connected, or that has a bucket to create, creates every registered
/// bucket next.
pub proof fn law_buckets_are_created_on_every_connection(state: QueueView)
    requires
        !state.connected || state.buckets_pending,
        !state.stop,
    ensures
        state.next_step() == (QueueStepView::Connect { buckets: state.buckets }),
{
}

/// Which buckets the server has been asked to create.
pub struct AskedBuckets {
    /// Whether an attempt to connect is under way.
    pub in_attempt: bool,
    /// The buckets of the last attempt.
    pub attempt: Seq<(Seq<char>, Seq<char>)>,
    /// The buckets of the attempt that made the connection, if there is one.
    pub asked: Seq<(Seq<char>, Seq<char>)>,
}

/// Which buckets the server has been asked to create, in the course of the operations.
pub open spec fn asked_by(state: QueueView, operations: Seq<QueueOperation>) -> AskedBuckets
    decreases operations.len(),
{
    if operations.len() == 0 {
        AskedBuckets { in_attempt: false, attempt: Seq::empty(), asked: Seq::empty() }
    } else {
        let earlier = asked_by(state, operations.drop_last());
        let before = operated_all(state, operations.drop_last());
        match operations.last() {
            QueueOperation::StartAttempt => AskedBuckets {
                in_attempt: true,
                attempt: before.buckets,
                ..earlier
            },
            QueueOperation::Succeed { .. } => AskedBuckets {
                in_attempt: false,
                asked: earlier.attempt,
                ..earlier
            },
            QueueOperation::Fail => AskedBuckets {
                in_attempt: false,
                asked: Seq::empty(),
                ..earlier
            },
            QueueOperation::Answer { request, delivery } => if before.verdict(request, delivery)
                == Delivery::Disconnected {
                AskedBuckets { asked: Seq::empty(), ..earlier }
            } else {
                earlier
            },
            _ => earlier,
        }
    }
}

/// Whether the first list holds every bucket of the second.
spec fn holds_all(
    list: Seq<(Seq<char>, Seq<char>)>,
    buckets: Seq<(Seq<char>, Seq<char>)>,
) -> bool {
    forall|i: int| 0 <= i < buckets.len() ==> list.contains(#[trigger] buckets[i])
}

proof fn lemma_asked(queue: Seq<HeartbeatView>, operations: Seq<QueueOperation>)
    ensures
        ({
            let state = operated_all(QueueView::opened(queue), operations);
            let asked = asked_by(QueueView::opened(queue), operations);
            &&& !state.buckets_pending ==> holds_all(asked.attempt, state.buckets)
            &&& state.connected && !asked.in_attempt ==> asked.asked == asked.attempt
        }),
    decreases operations.len(),
{
    if operations.len() > 0 {
        lemma_asked(queue, operations.drop_last());
    }
}

/// No heartbeat is sent before the server has been asked, on the same connection, to create
/// every bucket that is registered, or that a heartbeat in the queue belonged to when the queue
/// was opened.
pub proof fn law_buckets_come_before_heartbeats(
    queue: Seq<HeartbeatView>,
    operations: Seq<QueueOperation>,
    bucket: (Seq<char>, Seq<char>),
)
    requires
        operated_all(QueueView::opened(queue), operations).next_step() is Send,
        !asked_by(QueueView::opened(queue), operations).in_attempt,
        operated_all(QueueView::opened(queue), operations).buckets.contains(bucket),
    ensures
        asked_by(QueueView::opened(queue), operations).asked.contains(bucket),
{
    lemma_asked(queue, operations);
    let buckets = operated_all(QueueView::opened(queue), operations).buckets;
    let i = choose|i: int| 0 <= i < buckets.len() && buckets[i] == bucket;
    assert(asked_by(QueueView::opened(queue), operations).attempt.contains(buckets[i]));
}

/// A registration that is made while the worker tries to connect is not lost: whatever comes of
/// the attempt, the worker connects again with that bucket, and at once.
pub proof fn law_registration_during_an_attempt_is_kept(
    state: QueueView,
    bucket_id: Seq<char>,
    event_type: Seq<char>,
    refused: Seq<Seq<char>>,
)
    requires
        !state.stop,
    ensures
        ({
            let registered = state.attempt_started().registered(bucket_id, event_type);
            &&& registered.buckets_pending
            &&& registered.attempt_succeeded(refused).next_step() matches QueueStepView::Connect {
                buckets,
            } && buckets.contains((bucket_id, event_type))
            &&& registered.attempt_failed().next_step() matches QueueStepView::Connect {
                buckets,
            } && buckets.contains((bucket_id, event_type))
        }),
{
    let bucket = (bucket_id, event_type);
    if !state.buckets.contains(bucket) {
        assert(state.buckets.push(bucket).last() == bucket);
    }
}

proof fn lemma_known_type_of_pushed(
    buckets: Seq<(Seq<char>, Seq<char>)>,
    bucket: (Seq<char>, Seq<char>),
)
    ensures
        known_type(buckets.push(bucket), bucket.0) is Some,
    decreases buckets.len(),
{
    let all = buckets.push(bucket);
    if buckets.len() > 0 {
        assert(all.drop_first() =~= buckets.drop_first().push(bucket));
        lemma_known_type_of_pushed(buckets.drop_first(), bucket);
    }
}

/// A heartbeat whose bucket is missing stays first in the queue if the type of the bucket is
/// known, and the worker creates the bucket before it sends the heartbeat again.
pub proof fn law_missing_bucket_is_created_again(state: QueueView, request: HeartbeatView)
    requires
        !state.stop,
        !state.refused.contains(request.bucket_id),
        known_type(state.buckets, request.bucket_id) is Some || request.bucket_type is Some,
    ensures
        ({
            let after = state.answered(request, Delivery::MissingBucket);
            &&& after.queue == state.queue
            &&& after.next_step() == (QueueStepView::Connect { buckets: after.buckets })
            &&& known_type(after.buckets, request.bucket_id) is Some
        }),
{
    if known_type(state.buckets, request.bucket_id) is None {
        lemma_known_type_of_pushed(
            state.buckets,
            (request.bucket_id, request.bucket_type->Some_0),
        );
    }
}

/// A bucket that the server refuses to create keeps nothing waiting: its heartbeats leave the
/// queue when the server says that the bucket is missing.
pub proof fn law_refused_bucket_does_not_block(
    state: QueueView,
    request: HeartbeatView,
    refused: Seq<Seq<char>>,
)
    requires
        refused.contains(request.bucket_id),
        state.queue.len() > 0,
    ensures
        state.attempt_succeeded(refused).answered(request, Delivery::MissingBucket).queue
            == state.queue.drop_first(),
{
}

/// The buckets that an opened queue creates first are those that its heartbeats belong to.
pub proof fn law_reopened_queue_creates_its_buckets(queue: Seq<HeartbeatView>, i: int)
    requires
        0 <= i < queue.len(),
        queue[i].bucket_type is Some,
    ensures
        QueueView::opened(queue).next_step() matches QueueStepView::Connect { buckets }
            && buckets.contains((queue[i].bucket_id, queue[i].bucket_type->Some_0)),
    decreases queue.len(),
{
    let bucket = (queue[i].bucket_id, queue[i].bucket_type->Some_0);
    let earlier = buckets_of(queue.drop_last());
    if i < queue.len() - 1 {
        law_reopened_queue_creates_its_buckets(queue.drop_last(), i);
        assert(earlier.contains(bucket));
        if let Some(bucket_type) = queue.last().bucket_type {
            let other = (queue.last().bucket_id, bucket_type);
            if !earlier.contains(other) {
                let k = choose|k: int| 0 <= k < earlier.len() && earlier[k] == bucket;
                assert(earlier.push(other)[k] == bucket);
            }
        }
    } else if !earlier.contains(bucket) {
        assert(earlier.push(bucket).last() == bucket);
    }
}

/// What `Url::path_segments_mut` makes of a URL by `pop_if_empty` and `extend`: the URL with
/// the path segments added, percent-encoded. Nothing if the text is not a URL.
pub uninterp spec fn url_with_segments(url: Seq<char>, segments: Seq<Seq<char>>) -> Option<Seq<char>>;

/// What `Url::query_pairs_mut` and `append_pair` make of a URL: the URL with one more pair in
/// its query. Nothing if the text is not a URL.
pub uninterp spec fn url_with_query_pair(
    url: Seq<char>,
    name: Seq<char>,
    value: Seq<char>,
) -> Option<Seq<char>>;

/// Adds path segments to a URL by `Url::path_segments_mut`, `pop_if_empty` and `extend`. The
/// result is what these make of the URL and the segments; a URL without a path stays as it is.
#[verifier::external_body]
fn add_segments(url: &str, segments: &Vec<String>) -> (r: Option<String>)
    ensures
        optional_text(r) == url_with_segments(url@, texts(segments@)),
{
    let mut url = reqwest::Url::parse(url).ok()?;
    if let Ok(mut path) = url.path_segments_mut() {
        path.pop_if_empty().extend(segments);
    }
    Some(String::from(url))
}

/// Adds a pair to the query of a URL by `Url::query_pairs_mut` and `append_pair`. The result is
/// what these make of the URL and the pair.
#[verifier::external_body]
fn add_query_pair(url: &str, name: &str, value: &str) -> (r: Option<String>)
    ensures
        optional_text(r) == url_with_query_pair(url@, name@, value@),
{
    let mut url = reqwest::Url::parse(url).ok()?;
    url.query_pairs_mut().append_pair(name, value);
    Some(String::from(url))
}

/// Where the server is, and how this client presents itself to it.
pub struct Transport {
    pub baseurl: String,
    pub name: String,
    pub hostname: String,
}

/// The path of the API, before the segments of one call.
pub open spec fn api_segments(segments: Seq<Seq<char>>) -> Seq<Seq<char>> {
    seq!["api"@, "0"@] + segments
}

/// The object that describes a bucket to the server.
pub open spec fn bucket_description(
    bucket_id: Seq<char>,
    client: Seq<char>,
    event_type: Seq<char>,
    hostname: Seq<char>,
) -> Map<Seq<char>, JsonView> {
    Map::<Seq<char>, JsonView>::empty().insert("id"@, JsonView::Text(bucket_id)).insert(
        "client"@,
        JsonView::Text(client),
    ).insert("type"@, JsonView::Text(event_type)).insert("hostname"@, JsonView::Text(hostname)).insert(
        "data"@,
        JsonView::Object(Map::empty()),
    )
}

impl Transport {
    /// The address of one call of the API.
    pub fn url(&self, segments: Vec<String>) -> (r: Option<String>)
        ensures
            optional_text(r) == url_with_segments(
                self.baseurl@,
                api_segments(texts(segments@)),
            ),
    {
        let ghost wanted = texts(segments@);
        let mut all: Vec<String> = Vec::new();
        all.push("api".to_string());
        all.push("0".to_string());
        let mut segments = segments;
        all.append(&mut segments);
        proof {
            assert(texts(all@) =~= api_segments(wanted));
        }
        add_segments(self.baseurl.as_str(), &all)
    }

    /// Where to ask whether the server is there.
    pub fn ping_url(&self) -> (r: Option<String>)
        ensures
            optional_text(r) == url_with_segments(self.baseurl@, api_segments(seq!["info"@])),
    {
        let mut segments: Vec<String> = Vec::new();
        segments.push("info".to_string());
        proof {
            assert(texts(segments@) =~= seq!["info"@]);
        }
        self.url(segments)
    }

    /// Where to create a bucket.
    pub fn bucket_url(&self, bucket_id: &str) -> (r: Option<String>)
        ensures
            optional_text(r) == url_with_segments(
                self.baseurl@,
                api_segments(seq!["buckets"@, bucket_id@]),
            ),
    {
        let mut segments: Vec<String> = Vec::new();
        segments.push("buckets".to_string());
        segments.push(bucket_id.to_string());
        proof {
            assert(texts(segments@) =~= seq!["buckets"@, bucket_id@]);
        }
        self.url(segments)
    }

    /// Where to send a heartbeat. The pulse time is given as it is written in decimal.
    pub fn heartbeat_url(&self, bucket_id: &str, pulsetime: &str) -> (r: Option<String>)
        ensures
            optional_text(r) == match url_with_segments(
                self.baseurl@,
                api_segments(seq!["buckets"@, bucket_id@, "heartbeat"@]),
            ) {
                Some(url) => url_with_query_pair(url, "pulsetime"@, pulsetime@),
                None => None,
            },
    {
        let mut segments: Vec<String> = Vec::new();
        segments.push("buckets".to_string());
        segments.push(bucket_id.to_string());
        segments.push("heartbeat".to_string());
        proof {
            assert(texts(segments@) =~= seq!["buckets"@, bucket_id@, "heartbeat"@]);
        }
        match self.url(segments) {
            Some(url) => add_query_pair(url.as_str(), "pulsetime", pulsetime),
            None => None,
        }
    }

    /// The object to send to create a bucket.
    pub fn create_bucket(&self, bucket_id: &str, event_type: &str) -> (body: JsonMap)
        ensures
            body@ == bucket_description(bucket_id@, self.name@, event_type@, self.hostname@),
    {
        let mut body = JsonMap::new();
        body.insert("id".to_string(), Json::Text(bucket_id.to_string()));
        body.insert("client".to_string(), Json::Text(self.name.clone()));
        body.insert("type".to_string(), Json::Text(event_type.to_string()));
        body.insert("hostname".to_string(), Json::Text(self.hostname.clone()));
        body.insert("data".to_string(), Json::Object(JsonMap::new()));
        body
    }
}

/// Where the queue file of a client lies, below the directory for the data of applications.
pub open spec fn queue_path(client_name: Seq<char>, testing: bool, windows: bool) -> Seq<Seq<char>> {
    (if windows {
        seq!["activitywatch"@, "activitywatch"@]
    } else {
        seq!["activitywatch"@]
    }) + seq![
        "aw-client"@,
        "queued"@,
        client_name + (if testing {
            "-testing"@
        } else {
            Seq::empty()
        }) + ".v1.jsonl"@,
    ]
}

/// The queue file of a client: the names that lead to it from the directory for the data of
/// applications. On Windows that is the local one.
pub fn default_queue_path(client_name: &str, testing: bool, windows: bool) -> (path: Vec<String>)
    ensures
        texts(path@) == queue_path(client_name@, testing, windows),
{
    let mut path: Vec<String> = Vec::new();
    path.push("activitywatch".to_string());
    if windows {
        path.push("activitywatch".to_string());
    }
    path.push("aw-client".to_string());
    path.push("queued".to_string());
    let mut file = client_name.to_string();
    if testing {
        file.append("-testing");
    }
    file.append(".v1.jsonl");
    path.push(file);
    proof {
        assert(client_name@ + Seq::<char>::empty() =~= client_name@);
        assert(texts(path@) =~= queue_path(client_name@, testing, windows));
    }
    path
}

/// The name of a file beside the queue file: the name of the queue file with a suffix. The
/// suffix alone if the queue file has no name.
pub fn sibling(file_name: Option<&str>, suffix: &str) -> (name: String)
    ensures
        name@ == match file_name {
            Some(file_name) => file_name@ + suffix@,
            None => suffix@,
        },
{
    match file_name {
        Some(file_name) => join(file_name, suffix),
        None => suffix.to_string(),
    }
}

/// What a bucket is described as to the server says each thing under its name: its id, the client,
/// the type of its events and the host. It has no data, and nothing else is said.
pub proof fn law_bucket_is_described_by_its_parts(
    bucket_id: Seq<char>,
    client: Seq<char>,
    event_type: Seq<char>,
    hostname: Seq<char>,
)
    ensures
        ({
            let description = bucket_description(bucket_id, client, event_type, hostname);
            &&& description.contains_key("id"@) && description["id"@] == JsonView::Text(bucket_id)
            &&& description.contains_key("client"@) && description["client"@] == JsonView::Text(
                client,
            )
            &&& description.contains_key("type"@) && description["type"@] == JsonView::Text(
                event_type,
            )
            &&& description.contains_key("hostname"@) && description["hostname"@] == JsonView::Text(
                hostname,
            )
            &&& description.contains_key("data"@) && description["data"@] == JsonView::Object(
                Map::empty(),
            )
            &&& description.dom() == set!["id"@, "client"@, "type"@, "hostname"@, "data"@]
        }),
{
    reveal_strlit("id");
    reveal_strlit("client");
    reveal_strlit("type");
    reveal_strlit("hostname");
    reveal_strlit("data");
    assert("id"@.len() == 2 && "client"@.len() == 6 && "hostname"@.len() == 8);
    assert("type"@[0] == 't' && "data"@[0] == 'd' && "type"@.len() == 4 && "data"@.len() == 4);
    assert(bucket_description(bucket_id, client, event_type, hostname).dom() =~= set![
        "id"@,
        "client"@,
        "type"@,
        "hostname"@,
        "data"@,
    ]);
}

/// A bucket is refused if and only if the server has answered its creation by refusing it.
pub proof fn law_refused_buckets_are_those_refused(
    buckets: Seq<(Seq<char>, Seq<char>)>,
    answers: Seq<Delivery>,
    id: Seq<char>,
)
    requires
        answers.len() <= buckets.len(),
    ensures
        refused_ids(buckets, answers).contains(id) <==> exists|i: int|
            0 <= i < answers.len() && (#[trigger] answers[i] == Delivery::MissingBucket || answers[i]
                == Delivery::Drop) && buckets[i].0 == id,
    decreases answers.len(),
{
    let all = refused_ids(buckets, answers);
    if answers.len() > 0 {
        let head = answers.drop_last();
        let n = answers.len() - 1;
        let before = refused_ids(buckets, head);
        law_refused_buckets_are_those_refused(buckets, head, id);
        assert forall|i: int| 0 <= i < head.len() implies #[trigger] head[i] == answers[i] by {}
        if all.contains(id) {
            let k = choose|k: int| 0 <= k < all.len() && all[k] == id;
            if k < before.len() {
                assert(before[k] == id);
                assert(before.contains(id));
                let i = choose|i: int|
                    0 <= i < head.len() && (#[trigger] head[i] == Delivery::MissingBucket || head[i]
                        == Delivery::Drop) && buckets[i].0 == id;
                assert(answers[i] == head[i]);
            } else {
                assert(answers[n] == answers.last());
            }
        }
        if exists|i: int|
            0 <= i < answers.len() && (#[trigger] answers[i] == Delivery::MissingBucket || answers[i]
                == Delivery::Drop) && buckets[i].0 == id {
            let i = choose|i: int|
                0 <= i < answers.len() && (#[trigger] answers[i] == Delivery::MissingBucket
                    || answers[i] == Delivery::Drop) && buckets[i].0 == id;
            if i < n {
                assert(head[i] == answers[i]);
                assert(before.contains(id));
                let k = choose|k: int| 0 <= k < before.len() && before[k] == id;
                assert(all[k] == id);
            } else {
                assert(all[all.len() - 1] == id);
            }
        }
    }
}

/// The buckets of heartbeats are those that a heartbeat with a known type belongs to, each of them
/// once.
pub proof fn law_buckets_are_those_of_heartbeats(queue: Seq<HeartbeatView>)
    ensures
        buckets_of(queue).no_duplicates(),
        forall|k: int|
            0 <= k < buckets_of(queue).len() ==> has_heartbeat_for(
                queue,
                #[trigger] buckets_of(queue)[k],
            ),
    decreases queue.len(),
{
    if queue.len() > 0 {
        let head = queue.drop_last();
        let before = buckets_of(head);
        let all = buckets_of(queue);
        law_buckets_are_those_of_heartbeats(head);
        assert forall|k: int| 0 <= k < all.len() implies has_heartbeat_for(queue, #[trigger] all[k]) by {
            if k < before.len() {
                assert(all[k] == before[k]);
                assert(has_heartbeat_for(head, before[k]));
                let i = choose|i: int|
                    0 <= i < head.len() && (#[trigger] head[i]).bucket_id == before[k].0
                        && head[i].bucket_type == Some(before[k].1);
                assert(queue[i] == head[i]);
            } else {
                assert(queue[queue.len() - 1].bucket_id == all[k].0);
            }
        }
    }
}

/// Whether a heartbeat belongs to a bucket of this type.
pub open spec fn has_heartbeat_for(
    queue: Seq<HeartbeatView>,
    bucket: (Seq<char>, Seq<char>),
) -> bool {
    exists|i: int|
        0 <= i < queue.len() && (#[trigger] queue[i]).bucket_id == bucket.0 && queue[i].bucket_type
            == Some(bucket.1)
}

/// A heartbeat that the server has refused for good leaves the queue, as one that was sent does,
/// and nothing else of the queue changes: any status but those that ask to try again later, and
/// but that of a missing bucket.
pub proof fn law_permanent_errors_block_nothing(
    state: QueueView,
    request: HeartbeatView,
    status: Option<u16>,
)
    requires
        state.queue.len() > 0,
        status matches Some(s) ==> s != 404 && s != 408 && s != 429 && !(500 <= s < 600),
    ensures
        state.answered(request, meaning(false, status)) == (QueueView {
            queue: state.queue.drop_first(),
            ..state
        }),
        state.answered(request, Delivery::Sent) == (QueueView {
            queue: state.queue.drop_first(),
            ..state
        }),
{
}

/// Clients have their own queue files, and a client has another one for tests.
pub proof fn law_queue_files_are_kept_apart(
    client: Seq<char>,
    other: Seq<char>,
    testing: bool,
    windows: bool,
)
    ensures
        queue_path(client, testing, windows) == queue_path(other, testing, windows) <==> client
            == other,
        queue_path(client, true, windows) != queue_path(client, false, windows),
        client.is_prefix_of(queue_path(client, testing, windows).last()),
        queue_path(client, testing, windows).last().len() == client.len() + (if testing {
            17int
        } else {
            9
        }),
{
    reveal_strlit("-testing");
    reveal_strlit(".v1.jsonl");
    let path = queue_path(client, testing, windows);
    let name = path.last();
    let other_name = queue_path(other, testing, windows).last();
    assert(client =~= name.subrange(0, client.len() as int));
    assert(other =~= other_name.subrange(0, other.len() as int));
    assert(queue_path(client, true, windows).last().len() == client.len() + 17);
    assert(queue_path(client, false, windows).last().len() == client.len() + 9);
}

/// Connecting changes what is known of the connection, and nothing else: no heartbeat is lost or
/// added by it, and no bucket is forgotten.
pub proof fn law_connecting_loses_nothing(state: QueueView, refused: Seq<Seq<char>>)
    ensures
        forall|after: QueueView|
            after == state.attempt_started() || after == state.attempt_succeeded(refused) || after
                == state.attempt_failed() ==> {
                &&& #[trigger] after.queue == state.queue
                &&& after.buckets == state.buckets
                &&& after.stop == state.stop
            },
        state.attempt_succeeded(refused).connected,
        state.attempt_succeeded(refused).refused == refused,
        state.attempt_succeeded(refused).buckets_pending == state.buckets_pending,
        !state.attempt_failed().connected,
        state.attempt_failed().refused == state.refused,
        state.attempt_failed().buckets_pending == state.buckets_pending,
        !state.attempt_started().buckets_pending,
        state.attempt_started().refused.len() == 0,
        state.attempt_started().connected == state.connected,
{
}

/// Whether a bucket is the first of those with an id.
pub open spec fn is_first_bucket(
    buckets: Seq<(Seq<char>, Seq<char>)>,
    bucket_id: Seq<char>,
    i: int,
) -> bool {
    &&& 0 <= i < buckets.len()
    &&& buckets[i].0 == bucket_id
    &&& forall|j: int| 0 <= j < i ==> (#[trigger] buckets[j]).0 != bucket_id
}

proof fn lemma_known_type_is_of_the_first(
    buckets: Seq<(Seq<char>, Seq<char>)>,
    bucket_id: Seq<char>,
)
    ensures
        match known_type(buckets, bucket_id) {
            Some(event_type) => exists|i: int| #[trigger]
                is_first_bucket(buckets, bucket_id, i) && buckets[i].1 == event_type,
            None => forall|i: int| 0 <= i < buckets.len() ==> (#[trigger] buckets[i]).0 != bucket_id,
        },
    decreases buckets.len(),
{
    if buckets.len() > 0 {
        let rest = buckets.drop_first();
        if buckets[0].0 == bucket_id {
            assert(is_first_bucket(buckets, bucket_id, 0));
        } else {
            lemma_known_type_is_of_the_first(rest, bucket_id);
            match known_type(rest, bucket_id) {
                Some(event_type) => {
                    let i = choose|i: int| #[trigger]
                        is_first_bucket(rest, bucket_id, i) && rest[i].1 == event_type;
                    assert forall|j: int| 0 <= j < i + 1 implies (#[trigger] buckets[j]).0
                        != bucket_id by {
                        if j > 0 {
                            assert(rest[j - 1].0 != bucket_id);
                        }
                    }
                    assert(is_first_bucket(buckets, bucket_id, i + 1));
                },
                None => {
                    assert forall|i: int| 0 <= i < buckets.len() implies (#[trigger] buckets[i]).0
                        != bucket_id by {
                        if i > 0 {
                            assert(rest[i - 1].0 != bucket_id);
                        }
                    }
                },
            }
        }
    }
}

/// A heartbeat carries the type with which its bucket was first registered, so that the bucket can
/// be created again. It carries none only if the bucket was never registered.
pub proof fn law_heartbeat_carries_the_type_of_its_bucket(
    state: QueueView,
    bucket_id: Seq<char>,
    event: EventView,
    pulsetime_bits: u64,
)
    ensures
        ({
            let request = state.request(bucket_id, event, pulsetime_bits);
            &&& request.bucket_id == bucket_id
            &&& request.event == event
            &&& request.pulsetime_bits == pulsetime_bits
            &&& match request.bucket_type {
                Some(event_type) => exists|i: int| #[trigger]
                    is_first_bucket(state.buckets, bucket_id, i) && state.buckets[i].1
                        == event_type,
                None => forall|i: int|
                    0 <= i < state.buckets.len() ==> (#[trigger] state.buckets[i]).0 != bucket_id,
            }
        }),
{
    lemma_known_type_is_of_the_first(state.buckets, bucket_id);
}

/// A worker that is told to stop does so at once, whatever still waits, and no other one stops. It
/// sends the heartbeat that has waited longest, and only over a connection on which every bucket
/// has been asked for. It waits only where there is nothing to send.
pub proof fn law_worker_stops_when_told(state: QueueView)
    ensures
        state.next_step() is Stop <==> state.stop,
        match state.next_step() {
            QueueStepView::Stop => true,
            QueueStepView::Connect { buckets } => buckets == state.buckets && (!state.connected
                || state.buckets_pending),
            QueueStepView::Send { request } => {
                &&& state.connected
                &&& !state.buckets_pending
                &&& state.queue.len() > 0
                &&& request == state.queue.first()
            },
            QueueStepView::Idle => {
                &&& state.connected
                &&& !state.buckets_pending
                &&& state.queue.len() == 0
            },
        },
{
}

/// Requests go to the first version of the interface, and keep their own path below it.
pub proof fn law_requests_keep_their_path(segments: Seq<Seq<char>>)
    ensures
        api_segments(segments).len() == segments.len() + 2,
        api_segments(segments)[0] == "api"@,
        api_segments(segments)[1] == "0"@,
        api_segments(segments).skip(2) == segments,
{
    assert(api_segments(segments).skip(2) =~= segments);
}

} // verus!
