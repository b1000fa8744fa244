//! The worker of a datastore: what becomes of each request, and when changes are committed.
//!
//! Requests are gathered in transactions. A request says what work it takes; once that is done,
//! the worker takes the outcome, answers, and decides whether the transaction goes on, is
//! committed or is rolled back.

use vstd::prelude::*;

use crate::datastore::DatastoreInstance;
#[allow(unused_imports)]
use crate::datastore::{bucket_map, event_map, text_map};
use crate::event::{sort_events, Event, EventOrder};
#[allow(unused_imports)]
use crate::event::{all_valid, stable_sort, views, EventView};
use crate::filter_period::filter_period_intersect;
#[allow(unused_imports)]
use crate::filter_period::period_intersection;
use crate::json::{Json, JsonMap};
#[allow(unused_imports)]
use crate::json::{equal, JsonView};
use crate::model::{internal_error, Bucket, DatastoreError, DatastoreMethod};
#[allow(unused_imports)]
use crate::model::{BucketView, DatastoreErrorView};
use crate::query::EventFilter;
#[allow(unused_imports)]
use crate::query::{filter_views, EventFilterView};
use crate::textmap::TextMap;

verus! {

/// How long a transaction stays open at most, in nanoseconds.
pub const COMMIT_INTERVAL: i128 = 15_000_000_000;

/// How many stored events a transaction may gather before it is committed.
pub const MAX_UNCOMMITTED_EVENTS: usize = 100;

/// How many idle connections are kept for reading.
pub const MAX_IDLE_CONNECTIONS: usize = 4;

/// A request to a datastore. Times are in nanoseconds since the Unix epoch.
#[derive(Debug)]
pub enum Command {
    CreateBucket(Bucket),
    DeleteBucket(String),
    GetBucket(String),
    GetBuckets(),
    InsertEvents(String, Vec<Event>),
    /// A heartbeat, with the bits of its pulse time in seconds.
    Heartbeat(String, Event, u64),
    GetEvent(String, i64),
    /// The events of a bucket: from, to, how many at most, and whether they are not clipped.
    GetEvents(String, Option<i128>, Option<i128>, Option<u64>, bool),
    GetEventCount(String, Option<i128>, Option<i128>),
    DeleteEventsById(String, Vec<i64>),
    ForceCommit(),
    GetKeyValues(String),
    GetKeyValue(String),
    SetKeyValue(String, String),
    DeleteKeyValue(String),
    RefreshPrivacyFilter(),
    Close(),
}

/// The answer of a datastore.
#[derive(Debug)]
pub enum Response {
    Empty(),
    Bucket(Bucket),
    BucketMap(TextMap<Bucket>),
    Event(Event),
    EventList(Vec<Event>),
    Count(i64),
    KeyValue(String),
    KeyValues(TextMap<String>),
}

/// What a [`Response`] stands for.
pub enum ResponseView {
    Empty,
    Bucket(BucketView),
    BucketMap(Map<Seq<char>, BucketView>),
    Event(EventView),
    EventList(Seq<EventView>),
    Count(i64),
    KeyValue(Seq<char>),
    KeyValues(Map<Seq<char>, Seq<char>>),
}

impl View for Response {
    type V = ResponseView;

    open spec fn view(&self) -> ResponseView {
        match self {
            Response::Empty() => ResponseView::Empty,
            Response::Bucket(bucket) => ResponseView::Bucket(bucket@),
            Response::BucketMap(buckets) => ResponseView::BucketMap(bucket_map(buckets@)),
            Response::Event(event) => ResponseView::Event(event@),
            Response::EventList(events) => ResponseView::EventList(views(events@)),
            Response::Count(n) => ResponseView::Count(*n),
            Response::KeyValue(value) => ResponseView::KeyValue(value@),
            Response::KeyValues(values) => ResponseView::KeyValues(text_map(values@)),
        }
    }
}

/// What an answer stands for.
pub open spec fn answer_view(answer: Result<Response, DatastoreError>) -> Result<
    ResponseView,
    DatastoreErrorView,
> {
    match answer {
        Ok(response) => Ok(response@),
        Err(e) => Err(e@),
    }
}

/// The outcome of a request that is answered with nothing but its success.
pub fn _unwrap_empty_response(response: Response) -> (r: Result<(), DatastoreError>)
    requires
        response is Empty,
    ensures
        r is Ok,
{
    Ok(())
}

/// The work that a request takes.
#[derive(Debug)]
pub enum Work {
    /// None: the answer is here.
    Answer(Result<Response, DatastoreError>),
    CreateBucket(Bucket),
    DeleteBucket(String),
    /// Have the privacy filter go over the events for a bucket, by the rules that the worker has.
    FilterEvents(String, Vec<Event>),
    /// Store what the privacy filter has left of the events for a bucket.
    InsertEvents(String, Vec<Event>),
    /// Have the privacy filter go over a heartbeat, by the rules that the worker has.
    FilterHeartbeat(String, Event, u64),
    /// Store what the privacy filter has left of a heartbeat.
    Heartbeat(String, Event, u64),
    GetEvent(String, i64),
    GetEvents(String, Option<i128>, Option<i128>, Option<u64>, bool),
    GetEventCount(String, Option<i128>, Option<i128>),
    DeleteEventsById(String, Vec<i64>),
    GetKeyValues(String),
    GetKeyValue(String),
    SetKeyValue(String, String),
    DeleteKeyValue(String),
    /// Look up the rules of the privacy filter under this key, and find out whether they parse.
    LoadPrivacyFilter(String),
}

/// What becomes of the rules of the privacy filter.
#[derive(Debug, Clone, Copy, PartialEq, Eq, Structural)]
pub enum RulesStep {
    /// No rules are left.
    Clear,
    /// The rules that were found take the place of the old ones.
    Replace,
    /// The rules stay as they are.
    Keep,
}

/// What becomes of the rules of the privacy filter when they are loaded again. Without stored
/// rules nothing is filtered; stored rules that do not parse change nothing.
pub fn privacy_filter_found(found: &Result<String, DatastoreError>, parses: bool) -> (step:
    RulesStep)
    ensures
        step == (match *found {
            Err(_) => RulesStep::Clear,
            Ok(_) => if parses {
                RulesStep::Replace
            } else {
                RulesStep::Keep
            },
        }),
{
    match found {
        Err(_) => RulesStep::Clear,
        Ok(_) => if parses {
            RulesStep::Replace
        } else {
            RulesStep::Keep
        },
    }
}

/// The rules of the privacy filter once they are loaded again: none if none are stored, the
/// stored ones if they parse, and else the old ones.
pub open spec fn rules_after(
    rules: Option<Seq<char>>,
    found: Result<String, DatastoreError>,
    parses: bool,
) -> Option<Seq<char>> {
    match found {
        Err(_) => None,
        Ok(text) => if parses {
            Some(text@)
        } else {
            rules
        },
    }
}

/// The outcome of work.
#[derive(Debug)]
pub enum Outcome {
    /// A bucket has been created or deleted.
    BucketChanged(Result<(), DatastoreError>),
    /// Events have been stored in a bucket.
    EventsInserted(String, Result<Vec<Event>, DatastoreError>),
    /// A heartbeat has been stored.
    HeartbeatStored(Result<Event, DatastoreError>),
    EventFound(Result<Event, DatastoreError>),
    EventsFound(Result<Vec<Event>, DatastoreError>),
    EventsCounted(Result<i64, DatastoreError>),
    /// Events, or the value of a key, have been deleted, or a value has been stored.
    Changed(Result<(), DatastoreError>),
    KeyValuesFound(Result<TextMap<String>, DatastoreError>),
    KeyValueFound(Result<String, DatastoreError>),
    /// The rules of the privacy filter have been looked up, and whether they parse.
    PrivacyFilterLoaded(Result<String, DatastoreError>, bool),
}

/// The answer for an outcome.
pub open spec fn outcome_answer(outcome: Outcome) -> Result<ResponseView, DatastoreErrorView> {
    match outcome {
        Outcome::BucketChanged(Ok(_)) | Outcome::Changed(Ok(_)) | Outcome::PrivacyFilterLoaded(
            _,
            _,
        ) => Ok(ResponseView::Empty),
        Outcome::EventsInserted(_, Ok(events)) | Outcome::EventsFound(Ok(events)) => Ok(
            ResponseView::EventList(views(events@)),
        ),
        Outcome::HeartbeatStored(Ok(event)) | Outcome::EventFound(Ok(event)) => Ok(
            ResponseView::Event(event@),
        ),
        Outcome::EventsCounted(Ok(n)) => Ok(ResponseView::Count(n)),
        Outcome::KeyValuesFound(Ok(values)) => Ok(ResponseView::KeyValues(text_map(values@))),
        Outcome::KeyValueFound(Ok(value)) => Ok(ResponseView::KeyValue(value@)),
        Outcome::BucketChanged(Err(e)) => Err(e@),
        Outcome::EventsInserted(_, Err(e)) => Err(e@),
        Outcome::HeartbeatStored(Err(e)) => Err(e@),
        Outcome::EventFound(Err(e)) => Err(e@),
        Outcome::EventsFound(Err(e)) => Err(e@),
        Outcome::EventsCounted(Err(e)) => Err(e@),
        Outcome::Changed(Err(e)) => Err(e@),
        Outcome::KeyValuesFound(Err(e)) => Err(e@),
        Outcome::KeyValueFound(Err(e)) => Err(e@),
    }
}

/// How many events an outcome has stored.
pub open spec fn events_stored(outcome: Outcome) -> nat {
    match outcome {
        Outcome::EventsInserted(_, Ok(events)) => events@.len(),
        Outcome::HeartbeatStored(Ok(_)) => 1,
        _ => 0,
    }
}

/// What becomes of a transaction.
#[derive(Debug, Clone, Copy, PartialEq, Eq, Structural)]
pub enum BatchStep {
    /// It goes on: the open one takes the next request, or after a commit the next one starts.
    Continue,
    Commit,
    Rollback,
}

/// The state of a worker.
#[derive(Debug)]
pub struct DatastoreWorker {
    pub legacy_import: bool,
    pub quit: bool,
    /// How many events have been stored in the transaction.
    pub uncommitted_events: usize,
    /// Whether the transaction is to be committed after this request.
    pub commit: bool,
    /// The last heartbeat of each bucket that had one since its last other change.
    pub last_heartbeat: TextMap<Event>,
    /// The rules that the privacy filter goes by, as they are written, if there are any.
    pub privacy_rules: Option<String>,
}

/// What [`DatastoreWorker`] stands for.
#[verifier::ext_equal]
pub struct WorkerView {
    pub legacy_import: bool,
    pub quit: bool,
    pub uncommitted_events: nat,
    pub commit: bool,
    pub last_heartbeat: Map<Seq<char>, EventView>,
    pub privacy_rules: Option<Seq<char>>,
}

impl View for DatastoreWorker {
    type V = WorkerView;

    open spec fn view(&self) -> WorkerView {
        WorkerView {
            legacy_import: self.legacy_import,
            quit: self.quit,
            uncommitted_events: self.uncommitted_events as nat,
            commit: self.commit,
            last_heartbeat: event_map(self.last_heartbeat@),
            privacy_rules: match self.privacy_rules {
                Some(text) => Some(text@),
                None => None,
            },
        }
    }
}

impl WorkerView {
    /// The state of the worker after an outcome.
    pub open spec fn after(self, outcome: Outcome) -> WorkerView {
        WorkerView {
            commit: self.commit || outcome matches Outcome::BucketChanged(Ok(_)),
            uncommitted_events: self.uncommitted_events + events_stored(outcome),
            last_heartbeat: match outcome {
                Outcome::EventsInserted(bucket, Ok(_)) => self.last_heartbeat.remove(bucket@),
                _ => self.last_heartbeat,
            },
            privacy_rules: match outcome {
                Outcome::PrivacyFilterLoaded(found, parses) => rules_after(
                    self.privacy_rules,
                    found,
                    parses,
                ),
                _ => self.privacy_rules,
            },
            ..self
        }
    }

    /// What becomes of the transaction once a request is answered, so long after the last
    /// commit.
    pub open spec fn step(
        self,
        promises_commit: bool,
        answer: Result<ResponseView, DatastoreErrorView>,
        elapsed: int,
    ) -> BatchStep {
        if promises_commit {
            BatchStep::Commit
        } else if answer matches Err(DatastoreErrorView::InternalError(_)) {
            BatchStep::Rollback
        } else if self.commit || elapsed > COMMIT_INTERVAL || self.uncommitted_events
            > MAX_UNCOMMITTED_EVENTS || self.quit {
            BatchStep::Commit
        } else {
            BatchStep::Continue
        }
    }
}

/// Whether a command promises that all that came before is committed. It is answered once the
/// transaction is.
pub open spec fn promises_commit(command: Command) -> bool {
    command is ForceCommit || command is Close
}

/// The answer to a command that promises a commit, once the transaction has been committed or
/// could not be.
pub open spec fn answer_after_commit(
    held_back: Option<Result<ResponseView, DatastoreErrorView>>,
    committed: Result<(), Seq<char>>,
) -> Option<Result<ResponseView, DatastoreErrorView>> {
    match held_back {
        None => None,
        Some(answer) => match committed {
            Ok(_) => Some(answer),
            Err(reason) => Some(
                Err(
                    DatastoreErrorView::InternalError(
                        "Failed to commit datastore transaction: "@ + reason,
                    ),
                ),
            ),
        },
    }
}

/// When the answer to a request is sent.
#[derive(Debug)]
pub enum Reply {
    /// At once, before the transaction is committed or rolled back.
    Now(Result<Response, DatastoreError>),
    /// It is held back until a commit of the transaction was tried.
    AfterCommit(Result<Response, DatastoreError>),
}

/// What a [`Reply`] stands for.
pub enum ReplyView {
    Now(Result<ResponseView, DatastoreErrorView>),
    AfterCommit(Result<ResponseView, DatastoreErrorView>),
}

impl View for Reply {
    type V = ReplyView;

    open spec fn view(&self) -> ReplyView {
        match self {
            Reply::Now(answer) => ReplyView::Now(answer_view(*answer)),
            Reply::AfterCommit(answer) => ReplyView::AfterCommit(answer_view(*answer)),
        }
    }
}

/// When an answer is sent: only one that promises a commit waits for it.
pub open spec fn reply_to(
    promises_commit: bool,
    answer: Result<ResponseView, DatastoreErrorView>,
) -> ReplyView {
    if promises_commit {
        ReplyView::AfterCommit(answer)
    } else {
        ReplyView::Now(answer)
    }
}

/// What becomes of a transaction once a commit was tried: one that could not be committed is
/// rolled back.
pub open spec fn step_after_commit(committed: bool) -> BatchStep {
    if committed {
        BatchStep::Continue
    } else {
        BatchStep::Rollback
    }
}

impl DatastoreWorker {
    pub open spec fn wf(self) -> bool {
        self.last_heartbeat.wf()
    }

    pub fn new(legacy_import: bool) -> (worker: DatastoreWorker)
        ensures
            worker.wf(),
            worker@ == (WorkerView {
                legacy_import,
                quit: false,
                uncommitted_events: 0,
                commit: false,
                last_heartbeat: Map::empty(),
                privacy_rules: None,
            }),
    {
        let worker = DatastoreWorker {
            legacy_import,
            quit: false,
            uncommitted_events: 0,
            commit: false,
            last_heartbeat: TextMap::new(),
            privacy_rules: None,
        };
        proof {
            assert(event_map(worker.last_heartbeat@) =~= Map::empty());
        }
        worker
    }

    /// Whether a request is answered only once the transaction is committed.
    pub fn ack_after_commit(request: &Command) -> (r: bool)
        ensures
            r == promises_commit(*request),
    {
        match request {
            Command::ForceCommit() => true,
            Command::Close() => true,
            _ => false,
        }
    }

    /// Starts a transaction.
    pub fn begin(&mut self)
        requires
            old(self).wf(),
        ensures
            final(self).wf(),
            final(self)@ == (WorkerView { uncommitted_events: 0, commit: false, ..old(self)@ }),
    {
        self.uncommitted_events = 0;
        self.commit = false;
    }

    /// Takes a request. Tells what work it takes, or answers it.
    pub fn handle_request(&mut self, ds: &DatastoreInstance, request: Command) -> (work: Work)
        requires
            old(self).wf(),
            ds.wf(),
        ensures
            final(self).wf(),
            final(self)@ == (WorkerView {
                commit: old(self)@.commit || request is ForceCommit,
                quit: old(self)@.quit || request is Close,
                ..old(self)@
            }),
            match request {
                Command::CreateBucket(bucket) => work == Work::CreateBucket(bucket),
                Command::DeleteBucket(name) => work == Work::DeleteBucket(name),
                Command::GetBucket(name) => work matches Work::Answer(answer) && answer_view(answer)
                    == if ds.buckets().contains_key(name@) {
                    Ok::<ResponseView, DatastoreErrorView>(
                        ResponseView::Bucket(ds.buckets()[name@]),
                    )
                } else {
                    Err::<ResponseView, DatastoreErrorView>(DatastoreErrorView::NoSuchBucket(name@))
                },
                Command::GetBuckets() => work matches Work::Answer(answer) && answer_view(answer)
                    == Ok::<ResponseView, DatastoreErrorView>(
                    ResponseView::BucketMap(ds.buckets()),
                ),
                Command::InsertEvents(name, events) => work == Work::FilterEvents(name, events),
                Command::Heartbeat(name, event, pulsetime) => work == Work::FilterHeartbeat(
                    name,
                    event,
                    pulsetime,
                ),
                Command::GetEvent(name, id) => work == Work::GetEvent(name, id),
                Command::GetEvents(name, start, end, limit, unclipped) => work == Work::GetEvents(
                    name,
                    start,
                    end,
                    limit,
                    unclipped,
                ),
                Command::GetEventCount(name, start, end) => work == Work::GetEventCount(
                    name,
                    start,
                    end,
                ),
                Command::DeleteEventsById(name, ids) => work == Work::DeleteEventsById(name, ids),
                Command::ForceCommit() | Command::Close() => work matches Work::Answer(answer)
                    && answer_view(answer) == Ok::<ResponseView, DatastoreErrorView>(
                    ResponseView::Empty,
                ),
                Command::GetKeyValues(pattern) => work == Work::GetKeyValues(pattern),
                Command::GetKeyValue(key) => work == Work::GetKeyValue(key),
                Command::SetKeyValue(key, data) => work == Work::SetKeyValue(key, data),
                Command::DeleteKeyValue(key) => work == Work::DeleteKeyValue(key),
                Command::RefreshPrivacyFilter() => work matches Work::LoadPrivacyFilter(key) && key@
                    == "settings.privacy_filters"@,
            },
    {
        match request {
            Command::CreateBucket(bucket) => Work::CreateBucket(bucket),
            Command::DeleteBucket(name) => Work::DeleteBucket(name),
            Command::GetBucket(name) => match ds.get_bucket(name.as_str()) {
                Ok(bucket) => Work::Answer(Ok(Response::Bucket(bucket))),
                Err(e) => Work::Answer(Err(e)),
            },
            Command::GetBuckets() => Work::Answer(Ok(Response::BucketMap(ds.get_buckets()))),
            Command::InsertEvents(name, events) => Work::FilterEvents(name, events),
            Command::Heartbeat(name, event, pulsetime) => Work::FilterHeartbeat(
                name,
                event,
                pulsetime,
            ),
            Command::GetEvent(name, id) => Work::GetEvent(name, id),
            Command::GetEvents(name, start, end, limit, unclipped) => Work::GetEvents(
                name,
                start,
                end,
                limit,
                unclipped,
            ),
            Command::GetEventCount(name, start, end) => Work::GetEventCount(name, start, end),
            Command::DeleteEventsById(name, ids) => Work::DeleteEventsById(name, ids),
            Command::ForceCommit() => {
                self.commit = true;
                Work::Answer(Ok(Response::Empty()))
            },
            Command::GetKeyValues(pattern) => Work::GetKeyValues(pattern),
            Command::GetKeyValue(key) => Work::GetKeyValue(key),
            Command::SetKeyValue(key, data) => Work::SetKeyValue(key, data),
            Command::DeleteKeyValue(key) => Work::DeleteKeyValue(key),
            Command::RefreshPrivacyFilter() => Work::LoadPrivacyFilter(
                "settings.privacy_filters".to_string(),
            ),
            Command::Close() => {
                self.quit = true;
                Work::Answer(Ok(Response::Empty()))
            },
        }
    }

    /// Takes what the privacy filter has left of events. If nothing is left, nothing is stored.
    pub fn events_filtered(&self, bucket_name: String, filtered: Vec<Event>) -> (work: Work)
        ensures
            if filtered@.len() == 0 {
                work matches Work::Answer(answer) && answer_view(answer) == Ok::<
                    ResponseView,
                    DatastoreErrorView,
                >(ResponseView::EventList(Seq::empty()))
            } else {
                work == Work::InsertEvents(bucket_name, filtered)
            },
    {
        if filtered.len() == 0 {
            let none: Vec<Event> = Vec::new();
            proof {
                assert(views(none@) =~= Seq::empty());
            }
            Work::Answer(Ok(Response::EventList(none)))
        } else {
            Work::InsertEvents(bucket_name, filtered)
        }
    }

    /// Takes what the privacy filter has left of a heartbeat. If nothing is left, nothing is
    /// stored, and the answer is the last heartbeat of the bucket, or else this one.
    pub fn heartbeat_filtered(
        &self,
        bucket_name: String,
        event: Event,
        pulsetime: u64,
        filtered: Option<Event>,
    ) -> (work: Work)
        requires
            self.wf(),
        ensures
            match filtered {
                Some(filtered) => work == Work::Heartbeat(bucket_name, filtered, pulsetime),
                None => work matches Work::Answer(answer) && answer_view(answer) == Ok::<
                    ResponseView,
                    DatastoreErrorView,
                >(
                    ResponseView::Event(
                        if self@.last_heartbeat.contains_key(bucket_name@) {
                            self@.last_heartbeat[bucket_name@]
                        } else {
                            event@
                        },
                    ),
                ),
            },
    {
        match filtered {
            Some(filtered) => Work::Heartbeat(bucket_name, filtered, pulsetime),
            None => match self.last_heartbeat.get(bucket_name.as_str()) {
                Some(last) => Work::Answer(Ok(Response::Event(last.copy()))),
                None => Work::Answer(Ok(Response::Event(event))),
            },
        }
    }

    /// Takes the outcome of work, and answers the request.
    pub fn finish(&mut self, outcome: Outcome) -> (answer: Result<Response, DatastoreError>)
        requires
            old(self).wf(),
            old(self).uncommitted_events + events_stored(outcome) <= usize::MAX,
        ensures
            final(self).wf(),
            final(self)@ == old(self)@.after(outcome),
            answer_view(answer) == outcome_answer(outcome),
    {
        let ghost before = self@;
        match outcome {
            Outcome::BucketChanged(Ok(_)) => {
                self.commit = true;
                Ok(Response::Empty())
            },
            Outcome::EventsInserted(bucket, Ok(events)) => {
                self.uncommitted_events = self.uncommitted_events + events.len();
                // The last heartbeat may not be the newest event any more.
                let _ = self.last_heartbeat.remove(bucket.as_str());
                proof {
                    assert(event_map(self.last_heartbeat@) =~= before.last_heartbeat.remove(
                        bucket@,
                    ));
                }
                Ok(Response::EventList(events))
            },
            Outcome::HeartbeatStored(Ok(event)) => {
                self.uncommitted_events = self.uncommitted_events + 1;
                Ok(Response::Event(event))
            },
            Outcome::EventFound(Ok(event)) => Ok(Response::Event(event)),
            Outcome::EventsFound(Ok(events)) => Ok(Response::EventList(events)),
            Outcome::EventsCounted(Ok(n)) => Ok(Response::Count(n)),
            Outcome::Changed(Ok(_)) => Ok(Response::Empty()),
            Outcome::KeyValuesFound(Ok(values)) => Ok(Response::KeyValues(values)),
            Outcome::KeyValueFound(Ok(value)) => Ok(Response::KeyValue(value)),
            Outcome::PrivacyFilterLoaded(found, parses) => {
                match privacy_filter_found(&found, parses) {
                    RulesStep::Clear => {
                        self.privacy_rules = None;
                    },
                    RulesStep::Replace => {
                        if let Ok(text) = found {
                            self.privacy_rules = Some(text);
                        }
                    },
                    RulesStep::Keep => {},
                }
                Ok(Response::Empty())
            },
            Outcome::BucketChanged(Err(e)) => Err(e),
            Outcome::EventsInserted(_, Err(e)) => Err(e),
            Outcome::HeartbeatStored(Err(e)) => Err(e),
            Outcome::EventFound(Err(e)) => Err(e),
            Outcome::EventsFound(Err(e)) => Err(e),
            Outcome::EventsCounted(Err(e)) => Err(e),
            Outcome::Changed(Err(e)) => Err(e),
            Outcome::KeyValuesFound(Err(e)) => Err(e),
            Outcome::KeyValueFound(Err(e)) => Err(e),
        }
    }

    /// Notes that nobody is left to send requests. The transaction is committed then.
    pub fn abandoned(&mut self) -> (step: BatchStep)
        requires
            old(self).wf(),
        ensures
            final(self).wf(),
            final(self)@ == (WorkerView { quit: true, ..old(self)@ }),
            step == BatchStep::Commit,
    {
        self.quit = true;
        BatchStep::Commit
    }

    /// What becomes of the transaction once a request is answered, `elapsed` nanoseconds after
    /// the transaction was started. A failed statement spoils the whole transaction, which is
    /// rolled back then; an error of the request itself leaves it intact.
    pub fn work_loop(
        &self,
        ack_after_commit: bool,
        answer: &Result<Response, DatastoreError>,
        elapsed: i128,
    ) -> (step: BatchStep)
        ensures
            step == self@.step(ack_after_commit, answer_view(*answer), elapsed as int),
    {
        if ack_after_commit {
            return BatchStep::Commit;
        }
        match answer {
            Err(DatastoreError::InternalError(_)) => {
                return BatchStep::Rollback;
            },
            _ => {},
        }
        if self.commit || elapsed > COMMIT_INTERVAL || self.uncommitted_events
            > MAX_UNCOMMITTED_EVENTS || self.quit {
            BatchStep::Commit
        } else {
            BatchStep::Continue
        }
    }

    /// When the answer to a request is sent. One to a request that promises a commit is held
    /// back until a commit was tried; every other one is sent before that.
    pub fn reply(ack_after_commit: bool, answer: Result<Response, DatastoreError>) -> (reply: Reply)
        ensures
            reply@ == reply_to(ack_after_commit, answer_view(answer)),
    {
        if ack_after_commit {
            Reply::AfterCommit(answer)
        } else {
            Reply::Now(answer)
        }
    }

    /// What becomes of a transaction once a commit was tried. If it could not be committed, it
    /// is rolled back.
    pub fn after_commit(outcome: &Result<(), String>) -> (step: BatchStep)
        ensures
            step == step_after_commit(*outcome is Ok),
    {
        match outcome {
            Ok(_) => BatchStep::Continue,
            Err(_) => BatchStep::Rollback,
        }
    }

    /// The answer that was held back until the transaction was committed, now that it has been
    /// or could not be.
    pub fn committed(
        held_back: Option<Result<Response, DatastoreError>>,
        outcome: Result<(), String>,
    ) -> (answer: Option<Result<Response, DatastoreError>>)
        ensures
            (match answer {
                Some(answer) => Some(answer_view(answer)),
                None => None,
            }) == answer_after_commit(
                match held_back {
                    Some(answer) => Some(answer_view(answer)),
                    None => None,
                },
                match outcome {
                    Ok(_) => Ok(()),
                    Err(reason) => Err(reason@),
                },
            ),
    {
        match held_back {
            None => None,
            Some(answer) => match outcome {
                Ok(_) => Some(answer),
                Err(reason) => Some(
                    Err(
                        internal_error(
                            "Failed to commit datastore transaction: ",
                            reason.as_str(),
                        ),
                    ),
                ),
            },
        }
    }
}

/// A request that promises a commit always leads to one. Its answer is held back until the
/// commit was tried: it is sent as it is if and only if the transaction has been committed, and
/// else it is an error and the transaction is rolled back. Every other request is answered
/// before a commit is tried, whatever becomes of the transaction.
pub proof fn law_promised_commits_are_kept(
    worker: WorkerView,
    command: Command,
    answer: Result<ResponseView, DatastoreErrorView>,
    elapsed: int,
    committed: Result<(), Seq<char>>,
)
    ensures
        promises_commit(command) ==> {
            &&& worker.step(promises_commit(command), answer, elapsed) == BatchStep::Commit
            &&& reply_to(promises_commit(command), answer) == ReplyView::AfterCommit(answer)
            &&& answer_after_commit(Some(answer), committed) matches Some(sent) && {
                &&& committed is Ok ==> sent == answer && step_after_commit(committed is Ok)
                    == BatchStep::Continue
                &&& committed is Err ==> {
                    &&& sent matches Err(DatastoreErrorView::InternalError(_))
                    &&& step_after_commit(committed is Ok) == BatchStep::Rollback
                }
                &&& answer is Ok ==> (sent is Ok <==> committed is Ok)
            }
        },
        !promises_commit(command) ==> reply_to(promises_commit(command), answer)
            == ReplyView::Now(answer),
{
}

/// When the privacy filter is loaded again, the request is answered with success whatever is
/// found. From then on there are no rules if none are stored, the stored ones hold if they
/// parse, and else the old ones go on to hold. Nothing else of the worker changes, and no other
/// outcome changes the rules.
pub proof fn law_loading_decides_the_rules(
    worker: WorkerView,
    found: Result<String, DatastoreError>,
    parses: bool,
    other: Outcome,
)
    requires
        !(other is PrivacyFilterLoaded),
    ensures
        ({
            let loaded = Outcome::PrivacyFilterLoaded(found, parses);
            &&& outcome_answer(loaded) == Ok::<ResponseView, DatastoreErrorView>(
                ResponseView::Empty,
            )
            &&& found is Err ==> worker.after(loaded).privacy_rules is None
            &&& found is Ok && parses ==> worker.after(loaded).privacy_rules == Some(
                found->Ok_0@,
            )
            &&& found is Ok && !parses ==> worker.after(loaded).privacy_rules
                == worker.privacy_rules
            &&& worker.after(loaded) == (WorkerView {
                privacy_rules: worker.after(loaded).privacy_rules,
                ..worker
            })
            &&& worker.after(other).privacy_rules == worker.privacy_rules
        }),
{
}

/// A transaction that takes another request has been open no longer than the interval, holds no
/// more events than it may, and nothing in it asks for a commit.
pub proof fn law_open_transactions_are_bounded(
    worker: WorkerView,
    ack_after_commit: bool,
    answer: Result<ResponseView, DatastoreErrorView>,
    elapsed: int,
)
    requires
        worker.step(ack_after_commit, answer, elapsed) == BatchStep::Continue,
    ensures
        elapsed <= COMMIT_INTERVAL,
        worker.uncommitted_events <= MAX_UNCOMMITTED_EVENTS,
        !worker.commit && !worker.quit && !ack_after_commit,
{
}

/// Only an error of the database itself makes a transaction roll back: a request for a bucket or
/// a key that is not there, or for a new bucket that is, costs nothing that came before it.
pub proof fn law_only_internal_errors_roll_back(
    worker: WorkerView,
    ack_after_commit: bool,
    answer: Result<ResponseView, DatastoreErrorView>,
    elapsed: int,
)
    requires
        worker.step(ack_after_commit, answer, elapsed) == BatchStep::Rollback,
    ensures
        answer matches Err(DatastoreErrorView::InternalError(_)),
{
}

/// Whether reading bypasses the worker: for files, unless it is switched off.
pub fn reads_beside_worker(method: &DatastoreMethod, disabled: bool) -> (r: bool)
    ensures
        r == (!disabled && *method is File),
{
    if disabled {
        return false;
    }
    match method {
        DatastoreMethod::Memory() => false,
        DatastoreMethod::File(_) => true,
    }
}

/// What the readers beside the worker know: the numbers of the rows of buckets.
pub struct Reader {
    pub max_idle: usize,
    pub bids: TextMap<i64>,
}

impl Reader {
    pub open spec fn wf(self) -> bool {
        self.bids.wf()
    }

    pub fn new() -> (reader: Reader)
        ensures
            reader.wf(),
            reader.max_idle == MAX_IDLE_CONNECTIONS,
            reader.bids@ == Map::<Seq<char>, i64>::empty(),
    {
        Reader { max_idle: MAX_IDLE_CONNECTIONS, bids: TextMap::new() }
    }

    /// Whether a connection that is done with is kept, beside so many idle ones.
    pub fn keeps_connection(&self, idle: usize) -> (r: bool)
        ensures
            r == (idle < self.max_idle),
    {
        idle < self.max_idle
    }

    /// The number of the row of a bucket, if it is known.
    pub fn resolve_bid(&self, bucket_id: &str) -> (bid: Option<i64>)
        requires
            self.wf(),
        ensures
            match bid {
                Some(bid) => self.bids@.contains_key(bucket_id@) && self.bids@[bucket_id@] == bid,
                None => !self.bids@.contains_key(bucket_id@),
            },
    {
        match self.bids.get(bucket_id) {
            Some(bid) => Some(*bid),
            None => None,
        }
    }

    /// Remembers the number of the row of a bucket.
    pub fn remember_bid(&mut self, bucket_id: &str, bid: i64)
        requires
            old(self).wf(),
        ensures
            final(self).wf(),
            final(self).max_idle == old(self).max_idle,
            final(self).bids@ == old(self).bids@.insert(bucket_id@, bid),
    {
        self.bids.insert(bucket_id.to_string(), bid);
    }

    /// Forgets the number of the row of a bucket that has been deleted or created: a bucket
    /// that is created anew gets another row.
    pub fn invalidate_bid(&mut self, bucket_id: &str)
        requires
            old(self).wf(),
        ensures
            final(self).wf(),
            final(self).max_idle == old(self).max_idle,
            final(self).bids@ == old(self).bids@.remove(bucket_id@),
    {
        let _ = self.bids.remove(bucket_id);
    }
}

/// Whether one of the values is equal to that of the key.
pub open spec fn has_value(event: EventView, key: Seq<char>, vals: Seq<JsonView>) -> bool {
    event.data.contains_key(key) && exists|i: int|
        0 <= i < vals.len() && equal(#[trigger] vals[i], event.data[key])
}

/// The events whose value for the key is equal to one of these.
pub open spec fn with_keyvals(events: Seq<EventView>, key: Seq<char>, vals: Seq<JsonView>) -> Seq<
    EventView,
> {
    events.filter(|e: EventView| has_value(e, key, vals))
}

/// What a list of values stands for.
pub open spec fn json_views(vals: Seq<Json>) -> Seq<JsonView> {
    vals.map_values(|v: Json| v@)
}

fn holds_value(event: &Event, key: &str, vals: &Vec<Json>) -> (r: bool)
    ensures
        r == has_value(event@, key@, json_views(vals@)),
{
    match event.data.get(key) {
        Some(value) => {
            let mut i: usize = 0;
            while i < vals.len()
                invariant
                    i <= vals.len(),
                    event@.data.contains_key(key@) && event@.data[key@] == value@,
                    forall|k: int|
                        0 <= k < i ==> !equal(#[trigger] json_views(vals@)[k], value@),
                decreases vals.len() - i,
            {
                if vals[i].equals(value) {
                    assert(equal(json_views(vals@)[i as int], value@));
                    return true;
                }
                i += 1;
            }
            false
        },
        None => false,
    }
}

/// Keeps the events whose value for the key is equal to one of these.
pub fn filter_keyvals(events: Vec<Event>, key: &str, vals: &Vec<Json>) -> (r: Vec<Event>)
    ensures
        views(r@) == with_keyvals(views(events@), key@, json_views(vals@)),
        all_valid(views(events@)) ==> all_valid(views(r@)),
{
    let ghost all = views(events@);
    let ghost wanted = json_views(vals@);
    let ghost keeps = |e: EventView| has_value(e, key@, wanted);
    let mut r: Vec<Event> = Vec::new();
    proof {
        assert(all.take(0) =~= Seq::empty());
        assert(views(r@) =~= Seq::<EventView>::empty().filter(keeps));
    }
    for event in it: events
        invariant
            it.seq() == events@,
            all == views(events@),
            wanted == json_views(vals@),
            keeps == (|e: EventView| has_value(e, key@, wanted)),
            views(r@) == all.take(it.index()).filter(keeps),
            all_valid(all) ==> all_valid(views(r@)),
    {
        let ghost before = views(r@);
        proof {
            let i = it.index();
            assert(all[i] == event@);
            assert(all.take(i + 1) =~= all.take(i).push(event@));
            all.take(i).lemma_filter_push(event@, keeps);
        }
        if holds_value(&event, key, vals) {
            r.push(event);
            proof {
                assert(views(r@) =~= before.push(event@));
                assert(all_valid(all) ==> event@.valid());
            }
        }
    }
    proof {
        assert(all.take(all.len() as int) =~= all);
    }
    r
}

/// The values of a filter.
pub open spec fn filter_vals(filter: EventFilterView) -> Seq<JsonView> {
    filter.vals.map_values(|v: (JsonView, Seq<char>)| v.0)
}

/// The events that meet every filter.
pub open spec fn with_filters(events: Seq<EventView>, filters: Seq<EventFilterView>) -> Seq<EventView>
    decreases filters.len(),
{
    if filters.len() == 0 {
        events
    } else {
        with_keyvals(
            with_filters(events, filters.drop_last()),
            filters.last().key,
            filter_vals(filters.last()),
        )
    }
}

/// Keeps the events that meet every filter.
pub fn filter_in_memory(events: Vec<Event>, filters: &Vec<EventFilter>) -> (r: Vec<Event>)
    ensures
        views(r@) == with_filters(views(events@), filter_views(filters@)),
{
    let ghost all = views(events@);
    let ghost wanted = filter_views(filters@);
    let mut r = events;
    let mut i: usize = 0;
    proof {
        assert(wanted.take(0) =~= Seq::empty());
    }
    while i < filters.len()
        invariant
            i <= filters.len(),
            wanted == filter_views(filters@),
            views(r@) == with_filters(all, wanted.take(i as int)),
        decreases filters.len() - i,
    {
        let filter = &filters[i];
        let mut vals: Vec<Json> = Vec::new();
        let mut k: usize = 0;
        while k < filter.vals.len()
            invariant
                k <= filter.vals.len(),
                json_views(vals@) == filter_vals(filter@).take(k as int),
            decreases filter.vals.len() - k,
        {
            let ghost before = json_views(vals@);
            vals.push(filter.vals[k].value.copy());
            proof {
                let all_vals = filter_vals(filter@);
                assert(all_vals[k as int] == filter.vals@[k as int].value@);
                assert(json_views(vals@) =~= before.push(all_vals[k as int]));
                assert(all_vals.take(k + 1) =~= all_vals.take(k as int).push(all_vals[k as int]));
            }
            k += 1;
        }
        proof {
            assert(filter_vals(filter@).take(k as int) =~= filter_vals(filter@));
            assert(wanted.take(i + 1).drop_last() =~= wanted.take(i as int));
            assert(wanted.take(i + 1).last() == filter@);
        }
        r = filter_keyvals(r, filter.key.as_str(), &vals);
        i += 1;
    }
    proof {
        assert(wanted.take(i as int) =~= wanted);
    }
    r
}

/// Where the group for a value is among the groups, if it is there. Values belong together that
/// are written alike.
pub open spec fn group_at(groups: Seq<EventView>, key: Seq<char>, value: JsonView) -> Option<int>
    decreases groups.len(),
{
    if groups.len() == 0 {
        None
    } else if groups.last().data.contains_key(key) && groups.last().data[key] == value {
        Some(groups.len() - 1)
    } else {
        group_at(groups.drop_last(), key, value)
    }
}

/// One event for each value of the key, in the order in which the values first occur: with the
/// start of the first event that has it, and the sum of the lengths of all of them.
pub open spec fn groups_of(events: Seq<EventView>, key: Seq<char>) -> Seq<EventView>
    decreases events.len(),
{
    if events.len() == 0 {
        Seq::empty()
    } else {
        let earlier = groups_of(events.drop_last(), key);
        let event = events.last();
        if !event.data.contains_key(key) {
            earlier
        } else {
            let value = event.data[key];
            match group_at(earlier, key, value) {
                Some(i) => earlier.update(
                    i,
                    EventView { duration: earlier[i].duration + event.duration, ..earlier[i] },
                ),
                None => earlier.push(
                    EventView {
                        id: None,
                        timestamp: event.timestamp,
                        duration: event.duration,
                        data: Map::<Seq<char>, JsonView>::empty().insert(key, value),
                    },
                ),
            }
        }
    }
}

/// The longest length of time, in nanoseconds.
pub const LENGTH_MAX: i128 = 9_223_372_036_854_775_807_000_000;

/// Whether no sum of lengths leaves the range of lengths on the way.
pub open spec fn sums_fit(events: Seq<EventView>, key: Seq<char>) -> bool {
    forall|k: int, i: int|
        0 <= k <= events.len() && 0 <= i < groups_of(events.take(k), key).len() ==> -LENGTH_MAX <= (
        #[trigger] groups_of(events.take(k), key)[i]).duration <= LENGTH_MAX
}

proof fn lemma_group_at(groups: Seq<EventView>, key: Seq<char>, value: JsonView)
    ensures
        match group_at(groups, key, value) {
            Some(i) => 0 <= i < groups.len() && groups[i].data.contains_key(key)
                && groups[i].data[key] == value,
            None => forall|i: int|
                0 <= i < groups.len() ==> !((#[trigger] groups[i]).data.contains_key(key)
                    && groups[i].data[key] == value),
        },
    decreases groups.len(),
{
    if groups.len() > 0 {
        let head = groups.drop_last();
        lemma_group_at(head, key, value);
        assert forall|i: int| 0 <= i < head.len() implies #[trigger] groups[i] == head[i] by {}
    }
}

/// Whether the event has this value for the key.
pub open spec fn is_valued(event: EventView, key: Seq<char>, value: JsonView) -> bool {
    event.data.contains_key(key) && event.data[key] == value
}

/// The sum of the lengths of the events that have this value for the key.
pub open spec fn length_with(events: Seq<EventView>, key: Seq<char>, value: JsonView) -> int
    decreases events.len(),
{
    if events.len() == 0 {
        0
    } else {
        length_with(events.drop_last(), key, value) + if is_valued(events.last(), key, value) {
            events.last().duration
        } else {
            0
        }
    }
}

/// The sum of the lengths of the events that have a value for the key.
pub open spec fn length_with_key(events: Seq<EventView>, key: Seq<char>) -> int
    decreases events.len(),
{
    if events.len() == 0 {
        0
    } else {
        length_with_key(events.drop_last(), key) + if events.last().data.contains_key(key) {
            events.last().duration
        } else {
            0
        }
    }
}

/// Whether the event at `i` is the first one that has this value for the key.
pub open spec fn is_first_with(
    events: Seq<EventView>,
    key: Seq<char>,
    value: JsonView,
    i: int,
) -> bool {
    &&& 0 <= i < events.len()
    &&& is_valued(events[i], key, value)
    &&& forall|j: int| 0 <= j < i ==> !is_valued(#[trigger] events[j], key, value)
}

/// Whether a group stands for all events that have its value: it has no number and no other data,
/// the start of the first of them, and the sum of their lengths.
pub open spec fn is_group_of(group: EventView, events: Seq<EventView>, key: Seq<char>) -> bool {
    &&& group.id is None
    &&& group.data.contains_key(key)
    &&& group.data == Map::<Seq<char>, JsonView>::empty().insert(key, group.data[key])
    &&& group.duration == length_with(events, key, group.data[key])
    &&& exists|i: int| #[trigger]
        is_first_with(events, key, group.data[key], i) && group.timestamp == events[i].timestamp
}

/// Whether there is a group for a value of the key.
pub open spec fn has_group_for(groups: Seq<EventView>, key: Seq<char>, value: JsonView) -> bool {
    exists|i: int| 0 <= i < groups.len() && (#[trigger] groups[i]).data[key] == value
}

proof fn lemma_length_without(events: Seq<EventView>, key: Seq<char>, value: JsonView)
    requires
        forall|i: int| 0 <= i < events.len() ==> !is_valued(#[trigger] events[i], key, value),
    ensures
        length_with(events, key, value) == 0,
    decreases events.len(),
{
    if events.len() > 0 {
        let head = events.drop_last();
        assert forall|i: int| 0 <= i < head.len() implies !is_valued(#[trigger] head[i], key, value) by {
            assert(head[i] == events[i]);
        }
        assert(!is_valued(events[events.len() - 1], key, value));
        lemma_length_without(head, key, value);
    }
}

/// Putting events together by the value of a key leaves one group for each value that occurs, and
/// no two for the same. Each has the sum of the lengths of all events with its value, and the
/// start of the first of them.
pub proof fn law_groups_add_up_their_events(events: Seq<EventView>, key: Seq<char>)
    ensures
        ({
            let groups = groups_of(events, key);
            &&& forall|i: int| 0 <= i < groups.len() ==> is_group_of(#[trigger] groups[i], events, key)
            &&& forall|i: int, j: int|
                0 <= i < j < groups.len() ==> (#[trigger] groups[i]).data[key] != (
                #[trigger] groups[j]).data[key]
            &&& forall|n: int|
                0 <= n < events.len() && (#[trigger] events[n]).data.contains_key(key) ==> has_group_for(groups, key, events[n].data[key])
        }),
    decreases events.len(),
{
    let groups = groups_of(events, key);
    if events.len() > 0 {
        let head = events.drop_last();
        let earlier = groups_of(head, key);
        let event = events.last();
        let last = events.len() - 1;
        law_groups_add_up_their_events(head, key);
        assert forall|n: int| 0 <= n < head.len() implies #[trigger] head[n] == events[n] by {}
        assert forall|value: JsonView, n: int| #[trigger]
            is_first_with(head, key, value, n) implies is_first_with(events, key, value, n) by {
            assert forall|j: int| 0 <= j < n implies !is_valued(#[trigger] events[j], key, value) by {
                assert(head[j] == events[j]);
            }
        }
        if event.data.contains_key(key) {
            let value = event.data[key];
            lemma_group_at(earlier, key, value);
            match group_at(earlier, key, value) {
                Some(at) => {
                    assert forall|i: int| 0 <= i < groups.len() implies is_group_of(
                        #[trigger] groups[i],
                        events,
                        key,
                    ) by {
                        assert(is_group_of(earlier[i], head, key));
                        if i != at {
                            assert(earlier[i].data[key] != earlier[at].data[key]);
                        }
                        assert(groups[i].data == earlier[i].data);
                        assert(is_valued(event, key, earlier[i].data[key]) <==> i == at);
                        assert(length_with(events, key, earlier[i].data[key]) == length_with(
                            head,
                            key,
                            earlier[i].data[key],
                        ) + if i == at {
                            event.duration
                        } else {
                            0
                        });
                        let n = choose|n: int| #[trigger]
                            is_first_with(head, key, earlier[i].data[key], n)
                                && earlier[i].timestamp == head[n].timestamp;
                        assert(is_first_with(events, key, groups[i].data[key], n));
                        assert(events[n] == head[n]);
                    }
                    assert forall|i: int, j: int| 0 <= i < j < groups.len() implies (#[trigger]
                    groups[i]).data[key] != (#[trigger] groups[j]).data[key] by {
                        assert(earlier[i].data[key] != earlier[j].data[key]);
                    }
                    assert forall|n: int|
                        0 <= n < events.len() && (#[trigger] events[n]).data.contains_key(
                            key,
                        ) implies has_group_for(groups, key, events[n].data[key]) by {
                        if n < last {
                            assert(head[n].data.contains_key(key));
                            let i = choose|i: int|
                                0 <= i < earlier.len() && (#[trigger] earlier[i]).data[key]
                                    == head[n].data[key];
                            assert(groups[i].data[key] == events[n].data[key]);
                        } else {
                            assert(groups[at].data[key] == value);
                        }
                    }
                },
                None => {
                    assert forall|n: int| 0 <= n < head.len() implies !is_valued(
                        #[trigger] head[n],
                        key,
                        value,
                    ) by {
                        if is_valued(head[n], key, value) {
                            let i = choose|i: int|
                                0 <= i < earlier.len() && (#[trigger] earlier[i]).data[key]
                                    == head[n].data[key];
                            assert(is_group_of(earlier[i], head, key));
                        }
                    }
                    lemma_length_without(head, key, value);
                    assert(is_first_with(events, key, value, last)) by {
                        assert forall|j: int| 0 <= j < last implies !is_valued(
                            #[trigger] events[j],
                            key,
                            value,
                        ) by {
                            assert(head[j] == events[j]);
                        }
                    }
                    assert forall|i: int| 0 <= i < groups.len() implies is_group_of(
                        #[trigger] groups[i],
                        events,
                        key,
                    ) by {
                        if i < earlier.len() {
                            assert(is_group_of(earlier[i], head, key));
                            assert(earlier[i].data[key] != value);
                            assert(groups[i] == earlier[i]);
                            assert(!is_valued(event, key, earlier[i].data[key]));
                            assert(length_with(events, key, earlier[i].data[key]) == length_with(
                                head,
                                key,
                                earlier[i].data[key],
                            ));
                            let n = choose|n: int| #[trigger]
                                is_first_with(head, key, earlier[i].data[key], n)
                                    && earlier[i].timestamp == head[n].timestamp;
                            assert(is_first_with(events, key, groups[i].data[key], n));
                            assert(events[n] == head[n]);
                        } else {
                            assert(groups[i].data[key] == value);
                            assert(groups[i].timestamp == events[last].timestamp);
                        }
                    }
                    assert forall|i: int, j: int| 0 <= i < j < groups.len() implies (#[trigger]
                    groups[i]).data[key] != (#[trigger] groups[j]).data[key] by {
                        assert(is_group_of(earlier[i], head, key));
                        if j < earlier.len() {
                            assert(earlier[i].data[key] != earlier[j].data[key]);
                        }
                    }
                    assert forall|n: int|
                        0 <= n < events.len() && (#[trigger] events[n]).data.contains_key(
                            key,
                        ) implies has_group_for(groups, key, events[n].data[key]) by {
                        if n < last {
                            assert(head[n].data.contains_key(key));
                            let i = choose|i: int|
                                0 <= i < earlier.len() && (#[trigger] earlier[i]).data[key]
                                    == head[n].data[key];
                            assert(groups[i].data[key] == events[n].data[key]);
                        } else {
                            assert(groups[groups.len() - 1].data[key] == value);
                        }
                    }
                },
            }
        } else {
            assert forall|i: int| 0 <= i < groups.len() implies is_group_of(
                #[trigger] groups[i],
                events,
                key,
            ) by {
                let value = earlier[i].data[key];
                assert(groups[i] == earlier[i]);
                assert(is_group_of(earlier[i], head, key));
                assert(!is_valued(events.last(), key, value));
                assert(length_with(events, key, value) == length_with(head, key, value));
                let n = choose|n: int| #[trigger]
                    is_first_with(head, key, value, n) && earlier[i].timestamp == head[n].timestamp;
                assert(is_first_with(events, key, value, n));
                assert(events[n] == head[n]);
            }
            assert forall|n: int|
                0 <= n < events.len() && (#[trigger] events[n]).data.contains_key(key) implies has_group_for(groups, key, events[n].data[key]) by {
                assert(head[n].data.contains_key(key));
            }
        }
    }
}

/// The sum of the lengths of events.
pub open spec fn length_of_all(events: Seq<EventView>) -> int
    decreases events.len(),
{
    if events.len() == 0 {
        0
    } else {
        length_of_all(events.drop_last()) + events.last().duration
    }
}

proof fn lemma_length_of_update(events: Seq<EventView>, i: int, event: EventView)
    requires
        0 <= i < events.len(),
    ensures
        length_of_all(events.update(i, event)) == length_of_all(events) - events[i].duration
            + event.duration,
    decreases events.len(),
{
    if i == events.len() - 1 {
        assert(events.update(i, event).drop_last() =~= events.drop_last());
    } else {
        lemma_length_of_update(events.drop_last(), i, event);
        assert(events.update(i, event).drop_last() =~= events.drop_last().update(i, event));
    }
}

/// No time is lost or added when events are put together: the groups are as long as all events
/// that have a value for the key.
pub proof fn law_groups_keep_the_total_length(events: Seq<EventView>, key: Seq<char>)
    ensures
        length_of_all(groups_of(events, key)) == length_with_key(events, key),
    decreases events.len(),
{
    if events.len() > 0 {
        let head = events.drop_last();
        let earlier = groups_of(head, key);
        let event = events.last();
        law_groups_keep_the_total_length(head, key);
        if event.data.contains_key(key) {
            let value = event.data[key];
            lemma_group_at(earlier, key, value);
            match group_at(earlier, key, value) {
                Some(at) => {
                    lemma_length_of_update(
                        earlier,
                        at,
                        EventView { duration: earlier[at].duration + event.duration, ..earlier[at] },
                    );
                },
                None => {
                    let groups = groups_of(events, key);
                    assert(groups.drop_last() =~= earlier);
                },
            }
        }
    }
}

fn find_group(groups: &Vec<Event>, key: &str, value: &Json) -> (at: Option<usize>)
    ensures
        match at {
            Some(at) => group_at(views(groups@), key@, value@) == Some(at as int),
            None => group_at(views(groups@), key@, value@) is None,
        },
{
    let ghost all = views(groups@);
    let mut i: usize = groups.len();
    proof {
        assert(all.take(all.len() as int) =~= all);
    }
    while i > 0
        invariant
            all == views(groups@),
            i <= groups.len(),
            group_at(all, key@, value@) == group_at(all.take(i as int), key@, value@),
        decreases i,
    {
        i -= 1;
        proof {
            assert(all.take(i + 1).drop_last() =~= all.take(i as int));
            assert(all.take(i + 1).last() == groups@[i as int]@);
        }
        match groups[i].data.get(key) {
            Some(other) => {
                if other.same(value) {
                    return Some(i);
                }
            },
            None => {},
        }
    }
    None
}

/// One event for each value of the key: with the start of the first event that has it, and the
/// sum of the lengths of all of them. The longest come first.
pub fn group_in_memory(events: Vec<Event>, group_by_key: &str) -> (r: Vec<Event>)
    requires
        sums_fit(views(events@), group_by_key@),
    ensures
        views(r@) == stable_sort(
            EventOrder::LongestFirst,
            groups_of(views(events@), group_by_key@),
        ),
{
    let ghost all = views(events@);
    let mut groups: Vec<Event> = Vec::new();
    proof {
        assert(views(groups@) =~= groups_of(all.take(0), group_by_key@));
    }
    for event in it: events
        invariant
            it.seq() == events@,
            all == views(events@),
            sums_fit(all, group_by_key@),
            views(groups@) == groups_of(all.take(it.index()), group_by_key@),
    {
        let ghost before = views(groups@);
        let ghost n = it.index() as int;
        proof {
            assert(all[n] == event@);
            assert(all.take(n + 1).drop_last() =~= all.take(n));
            assert(all.take(n + 1).last() == event@);
        }
        if let Some(value) = event.data.get(group_by_key) {
            proof {
                lemma_group_at(before, group_by_key@, value@);
            }
            match find_group(&groups, group_by_key, value) {
                Some(at) => {
                    let mut group = groups[at].copy();
                    proof {
                        let after = groups_of(all.take(n + 1), group_by_key@);
                        assert(after == before.update(
                            at as int,
                            EventView {
                                duration: before[at as int].duration + event@.duration,
                                ..before[at as int]
                            },
                        ));
                        assert(-LENGTH_MAX <= after[at as int].duration <= LENGTH_MAX);
                    }
                    group.duration = group.duration + event.duration;
                    groups.set(at, group);
                    proof {
                        assert(views(groups@) =~= before.update(at as int, group@));
                    }
                },
                None => {
                    let mut data = JsonMap::new();
                    data.insert(group_by_key.to_string(), value.copy());
                    let group = Event {
                        id: None,
                        timestamp: event.timestamp,
                        duration: event.duration,
                        data,
                    };
                    groups.push(group);
                    proof {
                        assert(views(groups@) =~= before.push(group@));
                    }
                },
            }
        }
    }
    proof {
        assert(all.take(all.len() as int) =~= all);
    }
    sort_events(EventOrder::LongestFirst, groups)
}

/// Keeps the parts of events during which one of the others has this value for the key.
pub fn intersect_in_memory(
    target_events: Vec<Event>,
    filter_events: Vec<Event>,
    filter_key: &str,
    filter_val: &Json,
) -> (r: Vec<Event>)
    requires
        all_valid(views(target_events@)),
        all_valid(views(filter_events@)),
    ensures
        views(r@) == period_intersection(
            views(target_events@),
            with_keyvals(views(filter_events@), filter_key@, seq![filter_val@]),
        ),
{
    let mut vals: Vec<Json> = Vec::new();
    vals.push(filter_val.copy());
    proof {
        assert(json_views(vals@) =~= seq![filter_val@]);
    }
    let filter_events = filter_keyvals(filter_events, filter_key, &vals);
    filter_period_intersect(target_events, filter_events)
}

/// Whether an event has, for the key of each filter, a value that is equal to one of the filter's.
pub open spec fn meets_all(event: EventView, filters: Seq<EventFilterView>) -> bool {
    forall|f: int|
        0 <= f < filters.len() ==> has_value(
            event,
            (#[trigger] filters[f]).key,
            filter_vals(filters[f]),
        )
}

/// Filtering in memory keeps exactly the events that meet every filter, each as often as it was
/// there.
pub proof fn law_kept_events_meet_every_filter(
    events: Seq<EventView>,
    filters: Seq<EventFilterView>,
)
    ensures
        with_filters(events, filters) == events.filter(|e: EventView| meets_all(e, filters)),
    decreases filters.len(),
{
    let all = |e: EventView| meets_all(e, filters);
    if filters.len() == 0 {
        lemma_filter_keeps_all(events, all);
    } else {
        let head = filters.drop_last();
        let last = filters.last();
        let first = |e: EventView| meets_all(e, head);
        let second = |e: EventView| has_value(e, last.key, filter_vals(last));
        law_kept_events_meet_every_filter(events, head);
        assert forall|e: EventView| #[trigger] all(e) <==> first(e) && second(e) by {
            assert(filters[filters.len() - 1] == last);
            if meets_all(e, filters) {
                assert forall|f: int| 0 <= f < head.len() implies has_value(
                    e,
                    (#[trigger] head[f]).key,
                    filter_vals(head[f]),
                ) by {
                    assert(head[f] == filters[f]);
                }
            }
            if meets_all(e, head) && second(e) {
                assert forall|f: int| 0 <= f < filters.len() implies has_value(
                    e,
                    (#[trigger] filters[f]).key,
                    filter_vals(filters[f]),
                ) by {
                    if f < head.len() {
                        assert(head[f] == filters[f]);
                    }
                }
            }
        }
        lemma_filter_twice(events, first, second, all);
    }
}

proof fn lemma_filter_keeps_all(events: Seq<EventView>, pred: spec_fn(EventView) -> bool)
    requires
        forall|e: EventView| #[trigger] pred(e),
    ensures
        events.filter(pred) == events,
    decreases events.len(),
{
    reveal(Seq::filter);
    if events.len() > 0 {
        lemma_filter_keeps_all(events.drop_last(), pred);
        assert(pred(events.last()));
        assert(events.drop_last().push(events.last()) =~= events);
    } else {
        assert(events.filter(pred) =~= events);
    }
}

proof fn lemma_filter_twice(
    events: Seq<EventView>,
    first: spec_fn(EventView) -> bool,
    second: spec_fn(EventView) -> bool,
    both: spec_fn(EventView) -> bool,
)
    requires
        forall|e: EventView| #[trigger] both(e) <==> first(e) && second(e),
    ensures
        events.filter(first).filter(second) == events.filter(both),
    decreases events.len(),
{
    reveal(Seq::filter);
    if events.len() > 0 {
        let head = events.drop_last();
        let last = events.last();
        lemma_filter_twice(head, first, second, both);
        assert(both(last) <==> first(last) && second(last));
        let kept = head.filter(first);
        if first(last) {
            assert(kept.push(last).drop_last() =~= kept);
            assert(kept.push(last).last() == last);
        }
    } else {
        assert(events.filter(first) =~= events);
        assert(events.filter(both) =~= events);
        assert(events.filter(first).filter(second) =~= events);
    }
}

/// A request is answered with what was found or stored, and with the error if there was one.
pub proof fn law_answers_hand_out_what_was_found(
    bucket: String,
    events: Vec<Event>,
    event: Event,
    count: i64,
    value: String,
    error: DatastoreError,
)
    ensures
        outcome_answer(Outcome::EventsInserted(bucket, Ok(events))) == Ok::<
            ResponseView,
            DatastoreErrorView,
        >(ResponseView::EventList(views(events@))),
        outcome_answer(Outcome::EventsFound(Ok(events))) == Ok::<ResponseView, DatastoreErrorView>(
            ResponseView::EventList(views(events@)),
        ),
        outcome_answer(Outcome::HeartbeatStored(Ok(event))) == Ok::<
            ResponseView,
            DatastoreErrorView,
        >(ResponseView::Event(event@)),
        outcome_answer(Outcome::EventFound(Ok(event))) == Ok::<ResponseView, DatastoreErrorView>(
            ResponseView::Event(event@),
        ),
        outcome_answer(Outcome::EventsCounted(Ok(count))) == Ok::<ResponseView, DatastoreErrorView>(
            ResponseView::Count(count),
        ),
        outcome_answer(Outcome::KeyValueFound(Ok(value))) == Ok::<ResponseView, DatastoreErrorView>(
            ResponseView::KeyValue(value@),
        ),
        outcome_answer(Outcome::BucketChanged(Err(error))) == Err::<ResponseView, DatastoreErrorView>(
            error@,
        ),
        outcome_answer(Outcome::EventsInserted(bucket, Err(error))) == Err::<
            ResponseView,
            DatastoreErrorView,
        >(error@),
        outcome_answer(Outcome::HeartbeatStored(Err(error))) == Err::<
            ResponseView,
            DatastoreErrorView,
        >(error@),
        outcome_answer(Outcome::EventFound(Err(error))) == Err::<ResponseView, DatastoreErrorView>(
            error@,
        ),
        outcome_answer(Outcome::EventsFound(Err(error))) == Err::<ResponseView, DatastoreErrorView>(
            error@,
        ),
        outcome_answer(Outcome::EventsCounted(Err(error))) == Err::<ResponseView, DatastoreErrorView>(
            error@,
        ),
        outcome_answer(Outcome::Changed(Err(error))) == Err::<ResponseView, DatastoreErrorView>(
            error@,
        ),
        outcome_answer(Outcome::KeyValuesFound(Err(error))) == Err::<ResponseView, DatastoreErrorView>(
            error@,
        ),
        outcome_answer(Outcome::KeyValueFound(Err(error))) == Err::<ResponseView, DatastoreErrorView>(
            error@,
        ),
{
}

/// Storing events makes the worker forget the last heartbeat of their bucket, since it is no longer
/// the last event there, and of no other one; a request that fails makes it forget none. Every
/// event that is stored counts as one that is not committed yet.
pub proof fn law_stored_events_are_counted_and_end_a_heartbeat(
    worker: WorkerView,
    bucket: String,
    events: Vec<Event>,
    event: Event,
    error: DatastoreError,
    other: Seq<char>,
)
    ensures
        ({
            let after = worker.after(Outcome::EventsInserted(bucket, Ok(events)));
            &&& !after.last_heartbeat.contains_key(bucket@)
            &&& other != bucket@ ==> (after.last_heartbeat.contains_key(other)
                <==> worker.last_heartbeat.contains_key(other))
            &&& other != bucket@ && worker.last_heartbeat.contains_key(other)
                ==> after.last_heartbeat[other] == worker.last_heartbeat[other]
            &&& after.uncommitted_events == worker.uncommitted_events + events@.len()
        }),
        ({
            let after = worker.after(Outcome::HeartbeatStored(Ok(event)));
            &&& after.uncommitted_events == worker.uncommitted_events + 1
            &&& after.last_heartbeat == worker.last_heartbeat
        }),
        ({
            let after = worker.after(Outcome::EventsInserted(bucket, Err(error)));
            &&& after.uncommitted_events == worker.uncommitted_events
            &&& after.last_heartbeat == worker.last_heartbeat
            &&& after.commit == worker.commit
        }),
        worker.after(Outcome::BucketChanged(Ok(()))).commit,
{
}

} // verus!
