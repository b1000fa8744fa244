//! Buckets, and what can go wrong with them.

use vstd::prelude::*;

use crate::event::Event;
#[allow(unused_imports)]
use crate::event::{views, EventView};
use crate::json::JsonMap;
#[allow(unused_imports)]
use crate::json::JsonView;
use crate::time::Instant;

verus! {

/// The time that the events of a bucket span, in nanoseconds since the Unix epoch.
#[derive(Debug, Clone, Copy, PartialEq, Eq, Structural)]
pub struct BucketMetadata {
    pub start: Option<i128>,
    pub end: Option<i128>,
}

/// A bucket of events of one kind, from one watcher.
#[derive(Debug)]
pub struct Bucket {
    /// The number of the row that stores the bucket.
    pub bid: Option<i64>,
    pub id: String,
    pub _type: String,
    pub client: String,
    pub hostname: String,
    /// When the bucket was created.
    pub created: Option<Instant>,
    pub data: JsonMap,
    pub metadata: BucketMetadata,
    /// The events that come with a bucket to be stored.
    pub events: Option<Vec<Event>>,
    pub last_updated: Option<Instant>,
}

/// What a [`Bucket`] stands for.
#[verifier::ext_equal]
pub struct BucketView {
    pub bid: Option<i64>,
    pub id: Seq<char>,
    pub _type: Seq<char>,
    pub client: Seq<char>,
    pub hostname: Seq<char>,
    pub created: Option<Instant>,
    pub data: Map<Seq<char>, JsonView>,
    pub metadata: BucketMetadata,
    pub events: Option<Seq<EventView>>,
    pub last_updated: Option<Instant>,
}

impl View for Bucket {
    type V = BucketView;

    open spec fn view(&self) -> BucketView {
        BucketView {
            bid: self.bid,
            id: self.id@,
            _type: self._type@,
            client: self.client@,
            hostname: self.hostname@,
            created: self.created,
            data: self.data@,
            metadata: self.metadata,
            events: match self.events {
                Some(events) => Some(views(events@)),
                None => None,
            },
            last_updated: self.last_updated,
        }
    }
}

/// Copies a list of events.
pub fn copy_events(events: &Vec<Event>) -> (copied: Vec<Event>)
    ensures
        views(copied@) == views(events@),
{
    let mut copied: Vec<Event> = Vec::new();
    let mut i: usize = 0;
    while i < events.len()
        invariant
            i <= events.len(),
            views(copied@) == views(events@).take(i as int),
        decreases events.len() - i,
    {
        let ghost before = views(copied@);
        copied.push(events[i].copy());
        proof {
            let all = views(events@);
            assert(views(copied@) =~= before.push(all[i as int]));
            assert(all.take(i + 1) =~= all.take(i as int).push(all[i as int]));
        }
        i += 1;
    }
    proof {
        assert(views(events@).take(i as int) =~= views(events@));
    }
    copied
}

impl Bucket {
    pub fn copy(&self) -> (copied: Bucket)
        ensures
            copied@ == self@,
    {
        let events = match &self.events {
            Some(events) => Some(copy_events(events)),
            None => None,
        };
        Bucket {
            bid: self.bid,
            id: self.id.clone(),
            _type: self._type.clone(),
            client: self.client.clone(),
            hostname: self.hostname.clone(),
            created: self.created,
            data: self.data.copy(),
            metadata: self.metadata,
            events,
            last_updated: self.last_updated,
        }
    }
}

impl Clone for Bucket {
    fn clone(&self) -> (copied: Bucket)
        ensures
            copied@ == self@,
    {
        self.copy()
    }
}

/// Where a datastore keeps its data.
#[derive(Debug)]
pub enum DatastoreMethod {
    Memory(),
    File(String),
}

/// What can go wrong in a datastore.
#[derive(Debug)]
pub enum DatastoreError {
    NoSuchBucket(String),
    BucketAlreadyExists(String),
    NoSuchKey(String),
    MpscError,
    InternalError(String),
    /// The database has no tables yet, and it may not create them.
    Uninitialized(String),
    /// The database is of an older version, and it may not be migrated.
    OldDbVersion(String),
}

/// What a [`DatastoreError`] stands for.
pub enum DatastoreErrorView {
    NoSuchBucket(Seq<char>),
    BucketAlreadyExists(Seq<char>),
    NoSuchKey(Seq<char>),
    MpscError,
    InternalError(Seq<char>),
    Uninitialized(Seq<char>),
    OldDbVersion(Seq<char>),
}

impl View for DatastoreError {
    type V = DatastoreErrorView;

    open spec fn view(&self) -> DatastoreErrorView {
        match self {
            DatastoreError::NoSuchBucket(text) => DatastoreErrorView::NoSuchBucket(text@),
            DatastoreError::BucketAlreadyExists(text) => DatastoreErrorView::BucketAlreadyExists(
                text@,
            ),
            DatastoreError::NoSuchKey(text) => DatastoreErrorView::NoSuchKey(text@),
            DatastoreError::MpscError => DatastoreErrorView::MpscError,
            DatastoreError::InternalError(text) => DatastoreErrorView::InternalError(text@),
            DatastoreError::Uninitialized(text) => DatastoreErrorView::Uninitialized(text@),
            DatastoreError::OldDbVersion(text) => DatastoreErrorView::OldDbVersion(text@),
        }
    }
}

impl Clone for DatastoreError {
    fn clone(&self) -> (copied: DatastoreError)
        ensures
            copied@ == self@,
    {
        match self {
            DatastoreError::NoSuchBucket(text) => DatastoreError::NoSuchBucket(text.clone()),
            DatastoreError::BucketAlreadyExists(text) => DatastoreError::BucketAlreadyExists(
                text.clone(),
            ),
            DatastoreError::NoSuchKey(text) => DatastoreError::NoSuchKey(text.clone()),
            DatastoreError::MpscError => DatastoreError::MpscError,
            DatastoreError::InternalError(text) => DatastoreError::InternalError(text.clone()),
            DatastoreError::Uninitialized(text) => DatastoreError::Uninitialized(text.clone()),
            DatastoreError::OldDbVersion(text) => DatastoreError::OldDbVersion(text.clone()),
        }
    }
}

/// What can go wrong in the import of an older database.
#[derive(Debug)]
pub enum LegacyDatastoreImportError {
    SQLPrepareError(String),
    SQLMapError(String),
}

/// An error of the database itself, with what was being done and what the database says.
pub fn internal_error(doing: &str, reason: &str) -> (e: DatastoreError)
    ensures
        e@ == DatastoreErrorView::InternalError(doing@ + reason@),
{
    DatastoreError::InternalError(crate::text::join(doing, reason))
}

} // verus!
