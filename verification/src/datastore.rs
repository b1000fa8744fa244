//! The buckets of a datastore, and what every change of the database does to them.
//!
//! The database itself stays outside: each operation says which statement comes next, and takes
//! what the database says to it.

use vstd::prelude::*;

use crate::event::Event;
#[allow(unused_imports)]
use crate::event::{views, EventView, TIME_MAX, TIME_MIN};
use crate::json::JsonMap;
use crate::model::{
    internal_error, Bucket, BucketMetadata, DatastoreError, LegacyDatastoreImportError,
};
#[allow(unused_imports)]
use crate::model::{BucketView, DatastoreErrorView};
use crate::query::{
    query_event, query_event_count, query_events_grouped, query_events_intersected, select_events,
    statement_error, EventFilter, EventsQuery, FilterValue, RowError, SqlValue, Statement,
};
#[allow(unused_imports)]
use crate::query::{
    comparable, count_statement, event_statement, events_query, filter_views, fits,
    grouped_statement, intersected_statement, optional_query, optional_statement, query_range,
    row_event, row_span, splits_evenly, statement_failure, EventFilterView, SqlValueView,
    StatementView,
};
use crate::text::{join, signed_decimal_text, starts_with};
#[allow(unused_imports)]
use crate::text::{has_prefix, signed_decimal};
use crate::textmap::TextMap;
#[allow(unused_imports)]
use crate::time::{
    instant_at, reads_as, rfc3339_instant, rfc3339_text, RFC3339_FIRST, RFC3339_LAST,
};
use crate::time::{instant_after, read_rfc3339, write_rfc3339, Instant};

verus! {

/// The version of the tables.
pub const NEWEST_DB_VERSION: i32 = 5;

/// What is to be done to the tables when a datastore is opened.
#[derive(Debug, Clone, Copy, PartialEq, Eq, Structural)]
pub enum TableSetup {
    /// Create the tables that are not there, and advance the sequences of numbers.
    Create,
    /// Leave them as they are.
    Keep,
}

/// The row of a bucket, with the time that its events span.
#[derive(Debug)]
pub struct BucketRow {
    pub bid: i64,
    pub id: String,
    pub _type: String,
    pub client: String,
    pub hostname: String,
    /// When the bucket was created, by RFC 3339.
    pub created: String,
    /// The earliest start of an event, in nanoseconds since the Unix epoch.
    pub start: Option<i64>,
    /// The latest end of an event, in nanoseconds since the Unix epoch.
    pub end: Option<i64>,
    /// The data, or why it is not an object of JSON.
    pub data: Result<JsonMap, String>,
}

/// The instant, if there is one.
pub open spec fn instant_of(time: Option<i64>) -> Option<i128> {
    match time {
        Some(t) => Some(t as i128),
        None => None,
    }
}

/// Whether the instant, if there is one, can be taken apart into seconds and a fraction that
/// is not negative, without rounding down.
pub open spec fn proper_instant(time: Option<i64>) -> bool {
    match time {
        Some(t) => splits_evenly(t as int),
        None => true,
    }
}

/// The bucket of a row, or why there is none. `created` is what is read of when it was created.
pub open spec fn row_bucket(
    row: BucketRow,
    created: Result<(i64, u32), Seq<char>>,
) -> Result<BucketView, Seq<char>> {
    match row.data {
        Err(reason) => Err("Failed to parse data to JSON: "@ + reason@),
        Ok(data) => match created {
            Err(reason) => Err("Failed to parse created: "@ + reason),
            Ok(created) => Ok(
                BucketView {
                    bid: Some(row.bid),
                    id: row.id@,
                    _type: row._type@,
                    client: row.client@,
                    hostname: row.hostname@,
                    created: Some(Instant { seconds: created.0, nanos: created.1 }),
                    data: data@,
                    metadata: BucketMetadata {
                        start: instant_of(row.start),
                        end: instant_of(row.end),
                    },
                    events: None,
                    last_updated: None,
                },
            ),
        },
    }
}

/// The bucket of a row, given what is read of when it was created.
pub fn bucket_created_at(row: BucketRow, created: Result<(i64, u32), String>) -> (r: Result<
    Bucket,
    String,
>)
    requires
        proper_instant(row.start),
        proper_instant(row.end),
    ensures
        (match r {
            Ok(bucket) => Ok(bucket@),
            Err(reason) => Err(reason@),
        }) == row_bucket(
            row,
            match created {
                Ok(instant) => Ok(instant),
                Err(reason) => Err(reason@),
            },
        ),
{
    let start = match row.start {
        Some(t) => Some(t as i128),
        None => None,
    };
    let end = match row.end {
        Some(t) => Some(t as i128),
        None => None,
    };
    let data = match row.data {
        Ok(data) => data,
        Err(reason) => {
            return Err(join("Failed to parse data to JSON: ", reason.as_str()));
        },
    };
    let created = match created {
        Ok((seconds, nanos)) => Instant { seconds, nanos },
        Err(reason) => {
            return Err(join("Failed to parse created: ", reason.as_str()));
        },
    };
    Ok(
        Bucket {
            bid: Some(row.bid),
            id: row.id,
            _type: row._type,
            client: row.client,
            hostname: row.hostname,
            created: Some(created),
            data,
            metadata: BucketMetadata { start, end },
            events: None,
            last_updated: None,
        },
    )
}

/// The bucket of a row.
pub fn bucket_from_row(row: BucketRow) -> (r: Result<Bucket, String>)
    requires
        proper_instant(row.start),
        proper_instant(row.end),
    ensures
        (match r {
            Ok(bucket) => Ok(bucket@),
            Err(reason) => Err(reason@),
        }) == row_bucket(row, rfc3339_instant(row.created@)),
{
    let created = read_rfc3339(row.created.as_str());
    bucket_created_at(row, created)
}

/// The time that a bucket spans, widened by an event.
pub open spec fn widened(metadata: BucketMetadata, event: EventView) -> BucketMetadata {
    BucketMetadata {
        start: match metadata.start {
            Some(start) => if start > event.timestamp {
                Some(event.timestamp as i128)
            } else {
                Some(start)
            },
            None => Some(event.timestamp as i128),
        },
        end: match metadata.end {
            Some(end) => if end < event.end() {
                Some(event.end() as i128)
            } else {
                Some(end)
            },
            None => Some(event.end() as i128),
        },
    }
}

/// The time that a bucket spans, widened by each event in turn.
pub open spec fn widened_by_all(metadata: BucketMetadata, events: Seq<EventView>) -> BucketMetadata
    decreases events.len(),
{
    if events.len() == 0 {
        metadata
    } else {
        widened(widened_by_all(metadata, events.drop_last()), events.last())
    }
}

/// Whether the time that a bucket spans holds an event.
pub open spec fn spans(metadata: BucketMetadata, event: EventView) -> bool {
    &&& metadata.start matches Some(start) && start <= event.timestamp
    &&& metadata.end matches Some(end) && event.end() <= end
}

/// The time that a bucket spans, once widened by events, holds each of them and all that it
/// held before, and reaches no further than it must: each of its ends is an old one or an end
/// of one of the events.
pub proof fn law_widened_span_holds_every_event(metadata: BucketMetadata, events: Seq<EventView>)
    requires
        forall|i: int| 0 <= i < events.len() ==> (#[trigger] events[i]).valid(),
    ensures
        ({
            let after = widened_by_all(metadata, events);
            &&& forall|i: int| 0 <= i < events.len() ==> spans(after, #[trigger] events[i])
            &&& forall|e: EventView| #[trigger] spans(metadata, e) ==> spans(after, e)
            &&& after.start == metadata.start || exists|i: int|
                0 <= i < events.len() && after.start == Some(
                    (#[trigger] events[i]).timestamp as i128,
                )
            &&& after.end == metadata.end || exists|i: int|
                0 <= i < events.len() && after.end == Some((#[trigger] events[i]).end() as i128)
        }),
    decreases events.len(),
{
    if events.len() > 0 {
        let earlier = events.drop_last();
        let last = events.last();
        assert forall|i: int| 0 <= i < earlier.len() implies (#[trigger] earlier[i]).valid() by {
            assert(earlier[i] == events[i]);
        }
        law_widened_span_holds_every_event(metadata, earlier);
        let before = widened_by_all(metadata, earlier);
        let after = widened_by_all(metadata, events);
        assert(events[events.len() - 1].valid());
        assert forall|i: int| 0 <= i < events.len() implies spans(after, #[trigger] events[i]) by {
            if i < earlier.len() {
                assert(spans(before, earlier[i]));
            }
        }
        if after.start != metadata.start {
            if after.start == before.start {
                let i = choose|i: int|
                    0 <= i < earlier.len() && before.start == Some(
                        (#[trigger] earlier[i]).timestamp as i128,
                    );
                assert(events[i] == earlier[i]);
            } else {
                assert(after.start == Some(events[events.len() - 1].timestamp as i128));
            }
        }
        if after.end != metadata.end {
            if after.end == before.end {
                let i = choose|i: int|
                    0 <= i < earlier.len() && before.end == Some(
                        (#[trigger] earlier[i]).end() as i128,
                    );
                assert(events[i] == earlier[i]);
            } else {
                assert(after.end == Some(events[events.len() - 1].end() as i128));
            }
        }
    }
}

/// What the cached buckets stand for.
pub open spec fn bucket_map(cache: Map<Seq<char>, Bucket>) -> Map<Seq<char>, BucketView> {
    cache.map_values(|b: Bucket| b@)
}

/// The buckets that a datastore holds.
pub struct DatastoreInstance {
    pub buckets_cache: TextMap<Bucket>,
    /// Whether the tables have just been created.
    pub first_init: bool,
    pub db_version: i32,
}

/// The bucket with the number of its row, without the events that came with it.
pub open spec fn stored_bucket(bucket: BucketView, rowid: i64) -> BucketView {
    BucketView { bid: Some(rowid), events: None, ..bucket }
}

/// The buckets after an event of a bucket has been stored. The cache is only touched if the
/// event has widened the time that the bucket spans.
pub open spec fn with_event(
    buckets: Map<Seq<char>, BucketView>,
    bucket: BucketView,
    event: EventView,
) -> Map<Seq<char>, BucketView> {
    if widened(bucket.metadata, event) != bucket.metadata {
        buckets.insert(
            bucket.id,
            BucketView { metadata: widened(bucket.metadata, event), ..bucket },
        )
    } else {
        buckets
    }
}

/// The buckets after events of a bucket have been stored, one after the other.
pub open spec fn with_events(
    buckets: Map<Seq<char>, BucketView>,
    bucket: BucketView,
    events: Seq<EventView>,
) -> Map<Seq<char>, BucketView>
    decreases events.len(),
{
    if events.len() == 0 {
        buckets
    } else {
        let earlier = events.drop_last();
        with_event(
            with_events(buckets, bucket, earlier),
            BucketView { metadata: widened_by_all(bucket.metadata, earlier), ..bucket },
            events.last(),
        )
    }
}

/// Storing events in a bucket leaves the other buckets alone, and of the bucket itself changes
/// nothing but the time that it spans, which is widened by all of them.
pub proof fn law_storing_events_widens_their_bucket(
    buckets: Map<Seq<char>, BucketView>,
    bucket: BucketView,
    events: Seq<EventView>,
)
    requires
        buckets.contains_key(bucket.id),
        buckets[bucket.id] == bucket,
    ensures
        with_events(buckets, bucket, events) == buckets.insert(
            bucket.id,
            BucketView { metadata: widened_by_all(bucket.metadata, events), ..bucket },
        ),
    decreases events.len(),
{
    if events.len() > 0 {
        law_storing_events_widens_their_bucket(buckets, bucket, events.drop_last());
    }
    assert(with_events(buckets, bucket, events) =~= buckets.insert(
        bucket.id,
        BucketView { metadata: widened_by_all(bucket.metadata, events), ..bucket },
    ));
}

/// Whether RFC 3339 writes the year of an instant with four digits.
pub open spec fn in_four_digit_years(at: Instant) -> bool {
    RFC3339_FIRST <= at.seconds <= RFC3339_LAST
}

/// A bucket that was created at `at` reads back from its row as it was stored: its name, its
/// type, its client, its host, its data, and when it was created, to the nanosecond. What is
/// written of that when the bucket is stored reads as this instant for a year of four digits.
pub proof fn law_stored_bucket_reads_back(bucket: BucketView, at: Instant, row: BucketRow)
    requires
        row.id@ == bucket.id,
        row._type@ == bucket._type,
        row.client@ == bucket.client,
        row.hostname@ == bucket.hostname,
        row.data matches Ok(data) && data@ == bucket.data,
    ensures
        row_bucket(row, Ok((at.seconds, at.nanos))) == Ok::<BucketView, Seq<char>>(
            BucketView {
                bid: Some(row.bid),
                created: Some(at),
                metadata: BucketMetadata { start: instant_of(row.start), end: instant_of(row.end) },
                events: None,
                last_updated: None,
                ..bucket
            },
        ),
{
}

/// An event reads back from its row as it was stored, with the number of the row: always if it
/// is not clipped, and if a query without a range clips it, unless it starts before the Unix
/// epoch.
pub proof fn law_stored_event_reads_back(event: EventView, id: i64, clip_start: int, clip_end: int)
    requires
        storable_times(event),
        storable_length(event),
    ensures
        ({
            let (starttime, endtime) = stored_span(event);
            let (first, last) = query_range(None, None);
            &&& row_event(
                id,
                row_span(starttime, endtime, clip_start, clip_end, false),
                event.data,
            ) == (EventView { id: Some(id), ..event })
            &&& event.timestamp >= 0 ==> row_event(
                id,
                row_span(starttime, endtime, first, last, true),
                event.data,
            ) == (EventView { id: Some(id), ..event })
        }),
{
}

/// Every bucket that a datastore hands out stands under its own name, has a row, and carries no
/// events. It is so from the start, and every operation keeps it so.
pub proof fn law_buckets_are_stored_without_events(ds: DatastoreInstance, id: Seq<char>)
    requires
        ds.wf(),
        ds.buckets().contains_key(id),
    ensures
        ds.buckets()[id].id == id,
        ds.buckets()[id].bid is Some,
        ds.buckets()[id].events is None,
{
    assert(ds.buckets_cache@.contains_key(id));
}

/// Deleting a bucket undoes its creation.
pub proof fn law_deleting_undoes_creating(
    buckets: Map<Seq<char>, BucketView>,
    bucket: BucketView,
    rowid: i64,
)
    requires
        !buckets.contains_key(bucket.id),
    ensures
        buckets.insert(bucket.id, stored_bucket(bucket, rowid)).remove(bucket.id) == buckets,
{
    assert(buckets.insert(bucket.id, stored_bucket(bucket, rowid)).remove(bucket.id) =~= buckets);
}

/// The nanoseconds of an event as they are stored: its start and its end.
pub open spec fn stored_span(event: EventView) -> (int, int) {
    (event.timestamp, event.end())
}

/// Whether an event can be stored: its length counts its nanoseconds in 64 bits.
pub open spec fn storable_length(event: EventView) -> bool {
    i64::MIN <= event.duration <= i64::MAX
}

/// Whether the start of an event, and its end if its length can be stored, count their
/// nanoseconds in 64 bits.
pub open spec fn storable_times(event: EventView) -> bool {
    &&& i64::MIN <= event.timestamp <= i64::MAX
    &&& storable_length(event) ==> i64::MIN <= event.end() <= i64::MAX
}

/// The error for an event that cannot be stored.
pub open spec fn length_error() -> DatastoreErrorView {
    DatastoreErrorView::InternalError("Failed to convert duration to nanoseconds"@)
}

/// The start and the end of an event as they are stored.
fn span_to_store(event: &Event) -> (r: Result<(i64, i64), DatastoreError>)
    requires
        storable_times(event@),
    ensures
        match r {
            Ok(span) => storable_length(event@) && (span.0 as int, span.1 as int) == stored_span(
                event@,
            ),
            Err(e) => !storable_length(event@) && e@ == length_error(),
        },
{
    if event.duration < i64::MIN as i128 || event.duration > i64::MAX as i128 {
        return Err(
            DatastoreError::InternalError("Failed to convert duration to nanoseconds".to_string()),
        );
    }
    let start: i64 = event.timestamp as i64;
    let end: i64 = start + event.duration as i64;
    Ok((start, end))
}

impl DatastoreInstance {
    /// The buckets by name.
    pub open spec fn buckets(self) -> Map<Seq<char>, BucketView> {
        bucket_map(self.buckets_cache@)
    }

    /// Every cached bucket is stored, so that it has a row, stands under its own name, and
    /// carries no events.
    pub open spec fn wf(self) -> bool {
        &&& self.buckets_cache.wf()
        &&& forall|id: Seq<char>| #[trigger]
            self.buckets_cache@.contains_key(id) ==> {
                &&& self.buckets_cache@[id]@.bid is Some
                &&& self.buckets_cache@[id]@.id == id
                &&& self.buckets_cache@[id]@.events is None
            }
    }

    /// What is to be done to the tables of a database, and the datastore to fill with its
    /// buckets then. It is an error if there are no tables and none may be created.
    pub fn new(existed: bool, migrate_enabled: bool) -> (r: Result<
        (TableSetup, DatastoreInstance),
        DatastoreError,
    >)
        ensures
            match r {
                Ok((setup, ds)) => {
                    &&& existed || migrate_enabled
                    &&& setup == if migrate_enabled {
                        TableSetup::Create
                    } else {
                        TableSetup::Keep
                    }
                    &&& ds.wf()
                    &&& ds.buckets() == Map::<Seq<char>, BucketView>::empty()
                    &&& ds.first_init == !existed
                    &&& ds.db_version == NEWEST_DB_VERSION
                },
                Err(e) => !existed && !migrate_enabled && e@ == DatastoreErrorView::Uninitialized(
                    "Tried to open an uninitialized datastore with migration disabled"@,
                ),
            },
    {
        if !migrate_enabled && !existed {
            return Err(
                DatastoreError::Uninitialized(
                    "Tried to open an uninitialized datastore with migration disabled".to_string(),
                ),
            );
        }
        let setup = if migrate_enabled {
            TableSetup::Create
        } else {
            TableSetup::Keep
        };
        let ds = DatastoreInstance {
            buckets_cache: TextMap::new(),
            first_init: !existed,
            db_version: NEWEST_DB_VERSION,
        };
        proof {
            assert(ds.buckets() =~= Map::<Seq<char>, BucketView>::empty());
        }
        Ok((setup, ds))
    }

    fn cache(&mut self, bucket: Bucket)
        requires
            old(self).wf(),
            bucket@.bid is Some,
            bucket@.events is None,
        ensures
            final(self).wf(),
            final(self).buckets() == old(self).buckets().insert(bucket@.id, bucket@),
            final(self).first_init == old(self).first_init,
            final(self).db_version == old(self).db_version,
    {
        self.buckets_cache.insert(bucket.id.clone(), bucket);
        proof {
            assert(self.buckets() =~= old(self).buckets().insert(bucket@.id, bucket@));
        }
    }

    /// Takes the buckets that the database holds. They are cached up to the first row that
    /// cannot be read, which is an error: the database is corrupt then.
    pub fn get_stored_buckets(
        &mut self,
        rows: Result<Vec<Result<Bucket, String>>, RowError>,
    ) -> (r: Result<(), DatastoreError>)
        requires
            old(self).wf(),
            rows matches Ok(rows) ==> forall|i: int|
                0 <= i < rows@.len() && rows@[i] is Ok ==> is_row_bucket(
                    (#[trigger] rows@[i])->Ok_0@,
                ),
        ensures
            final(self).wf(),
            final(self).first_init == old(self).first_init,
            final(self).db_version == old(self).db_version,
            match rows {
                Ok(rows) => {
                    &&& final(self).buckets() == cached_rows(old(self).buckets(), rows@)
                    &&& match first_error(rows@) {
                        None => r is Ok,
                        Some(reason) => r matches Err(e) && e@ == DatastoreErrorView::InternalError(
                            "Failed to parse bucket from DuckDB, database is corrupt! "@ + reason,
                        ),
                    }
                },
                Err(error) => {
                    &&& final(self).buckets() == old(self).buckets()
                    &&& r matches Err(e) && e@ == DatastoreErrorView::InternalError(
                        statement_failure("get_stored_buckets"@, "query"@, error),
                    )
                },
            },
    {
        let found = match rows {
            Ok(found) => found,
            Err(error) => {
                return Err(statement_error("get_stored_buckets", "query", error));
            },
        };
        let ghost all = found@;
        let ghost before = self.buckets();
        proof {
            assert(all.skip(0) =~= all);
        }
        for row in it: found
            invariant
                it.seq() == all,
                rows matches Ok(listed) && listed@ == all,
                self.wf(),
                forall|i: int|
                    0 <= i < all.len() && all[i] is Ok ==> is_row_bucket(
                        (#[trigger] all[i])->Ok_0@,
                    ),
                self.first_init == old(self).first_init,
                self.db_version == old(self).db_version,
                before == old(self).buckets(),
                cached_rows(before, all) == cached_rows(self.buckets(), all.skip(it.index())),
                first_error(all) == first_error(all.skip(it.index())),
        {
            proof {
                let i = it.index();
                assert(row == all[i]);
                assert(all.skip(i)[0] == row);
                assert(all.skip(i).drop_first() =~= all.skip(i + 1));
            }
            match row {
                Ok(bucket) => {
                    self.cache(bucket);
                },
                Err(reason) => {
                    return Err(
                        internal_error(
                            "Failed to parse bucket from DuckDB, database is corrupt! ",
                            reason.as_str(),
                        ),
                    );
                },
            }
        }
        Ok(())
    }

    /// Whether the import of an older database is still to be done. It is done at most once,
    /// and only into tables that have just been created.
    pub fn ensure_legacy_import(&mut self) -> (import: bool)
        ensures
            import == old(self).first_init,
            final(self).first_init == false,
            old(self).wf() ==> final(self).wf(),
            final(self).buckets_cache == old(self).buckets_cache,
            final(self).db_version == old(self).db_version,
    {
        if !self.first_init {
            false
        } else {
            self.first_init = false;
            true
        }
    }

    /// The bucket of this name.
    pub fn get_bucket(&self, bucket_id: &str) -> (r: Result<Bucket, DatastoreError>)
        requires
            self.wf(),
        ensures
            match r {
                Ok(bucket) => self.buckets().contains_key(bucket_id@) && bucket@
                    == self.buckets()[bucket_id@] && is_row_bucket(bucket@) && bucket@.id
                    == bucket_id@,
                Err(e) => !self.buckets().contains_key(bucket_id@) && e@
                    == DatastoreErrorView::NoSuchBucket(bucket_id@),
            },
    {
        match self.buckets_cache.get(bucket_id) {
            Some(bucket) => Ok(bucket.copy()),
            None => Err(DatastoreError::NoSuchBucket(bucket_id.to_string())),
        }
    }

    /// All the buckets, by name.
    pub fn get_buckets(&self) -> (buckets: TextMap<Bucket>)
        requires
            self.wf(),
        ensures
            buckets.wf(),
            bucket_map(buckets@) == self.buckets(),
            forall|id: Seq<char>| #[trigger]
                bucket_map(buckets@).contains_key(id) ==> bucket_map(buckets@)[id].id == id
                    && is_row_bucket(bucket_map(buckets@)[id]),
    {
        let buckets = copy_bucket_map(&self.buckets_cache);
        proof {
            assert forall|id: Seq<char>| #[trigger]
                bucket_map(buckets@).contains_key(id) implies bucket_map(buckets@)[id].id == id
                && is_row_bucket(bucket_map(buckets@)[id]) by {
                assert(self.buckets().contains_key(id));
                assert(self.buckets_cache@.contains_key(id));
            }
        }
        buckets
    }

    /// The number of the row of a bucket.
    pub fn bid_of(&self, bucket_id: &str) -> (r: Result<i64, DatastoreError>)
        requires
            self.wf(),
        ensures
            match r {
                Ok(bid) => self.buckets().contains_key(bucket_id@)
                    && self.buckets()[bucket_id@].bid == Some(bid),
                Err(e) => !self.buckets().contains_key(bucket_id@) && e@
                    == DatastoreErrorView::NoSuchBucket(bucket_id@),
            },
    {
        match self.buckets_cache.get(bucket_id) {
            Some(bucket) => match bucket.bid {
                Some(bid) => Ok(bid),
                None => Err(DatastoreError::NoSuchBucket(bucket_id.to_string())),
            },
            None => Err(DatastoreError::NoSuchBucket(bucket_id.to_string())),
        }
    }

    /// The statement that stores a new bucket, whose data is written in JSON, and the bucket as
    /// it is to be stored. It is an error if there is a bucket of that name. A bucket that does
    /// not say when it was created is created now.
    pub fn create_bucket(&self, bucket: Bucket, data: String, now: i128) -> (r: Result<
        (Bucket, Statement),
        DatastoreError,
    >)
        requires
            self.wf(),
            TIME_MIN <= now <= TIME_MAX,
            bucket.created matches Some(created) ==> created.valid(),
        ensures
            match r {
                Ok((created, statement)) => {
                    let at = match bucket.created {
                        Some(at) => at,
                        None => instant_at(now as int),
                    };
                    &&& !self.buckets().contains_key(bucket@.id)
                    &&& created@ == (BucketView { created: Some(at), ..bucket@ })
                    &&& rfc3339_text(at.seconds, at.nanos) matches Some(text) && {
                        &&& statement@ == new_bucket_statement(bucket@, text, data@)
                        &&& in_four_digit_years(at) ==> reads_as(text, at.seconds, at.nanos)
                    }
                },
                Err(e) => self.buckets().contains_key(bucket@.id) && e@
                    == DatastoreErrorView::BucketAlreadyExists(bucket@.id),
            },
    {
        if self.buckets_cache.contains_key(bucket.id.as_str()) {
            return Err(DatastoreError::BucketAlreadyExists(bucket.id.clone()));
        }
        let mut bucket = bucket;
        let at = match bucket.created {
            Some(at) => at,
            None => instant_after(now),
        };
        bucket.created = Some(at);
        let created = match write_rfc3339(at.seconds, at.nanos) {
            Some(text) => text,
            None => String::new(),
        };
        let statement = bucket_statement(&bucket, created, data);
        proof {
            assert(statement@ =~= new_bucket_statement(bucket@, created@, data@));
        }
        Ok((bucket, statement))
    }

    /// Takes what the database says to the statement that stores a new bucket: the number of
    /// its row. The bucket is cached without its events, which are handed back to be stored.
    pub fn bucket_created(&mut self, bucket: Bucket, rowid: Result<i64, RowError>) -> (r: Result<
        Option<Vec<Event>>,
        DatastoreError,
    >)
        requires
            old(self).wf(),
        ensures
            final(self).wf(),
            final(self).first_init == old(self).first_init,
            final(self).db_version == old(self).db_version,
            match rowid {
                Ok(rowid) => {
                    &&& final(self).buckets() == old(self).buckets().insert(
                        bucket@.id,
                        stored_bucket(bucket@, rowid),
                    )
                    &&& r matches Ok(events) && events == bucket.events
                },
                Err(error) => {
                    &&& final(self).buckets() == old(self).buckets()
                    &&& r matches Err(e) && e@ == DatastoreErrorView::InternalError(
                        statement_failure("create_bucket"@, "execute"@, error),
                    )
                },
            },
    {
        match rowid {
            Ok(rowid) => {
                let mut bucket = bucket;
                bucket.bid = Some(rowid);
                let events = bucket.events;
                bucket.events = None;
                self.cache(bucket);
                Ok(events)
            },
            Err(error) => Err(statement_error("create_bucket", "execute", error)),
        }
    }

    /// The statements that delete a bucket: first its events, then the bucket itself.
    pub fn delete_bucket(&self, bucket_id: &str) -> (r: Result<
        (Statement, Statement),
        DatastoreError,
    >)
        requires
            self.wf(),
        ensures
            match r {
                Ok((events, bucket)) => {
                    &&& self.buckets().contains_key(bucket_id@)
                    &&& events@ == delete_events_statement(
                        self.buckets()[bucket_id@].bid->Some_0,
                    )
                    &&& bucket@ == delete_bucket_statement(
                        self.buckets()[bucket_id@].bid->Some_0,
                    )
                },
                Err(e) => !self.buckets().contains_key(bucket_id@) && e@
                    == DatastoreErrorView::NoSuchBucket(bucket_id@),
            },
    {
        let bid: i64 = match self.bid_of(bucket_id) {
            Ok(bid) => bid,
            Err(e) => {
                return Err(e);
            },
        };
        let mut events = Statement::new("DELETE FROM events WHERE bucketrow = ?".to_string());
        events.bind(SqlValue::Integer(bid));
        let mut bucket = Statement::new("DELETE FROM buckets WHERE id = ?".to_string());
        bucket.bind(SqlValue::Integer(bid));
        proof {
            assert(events@.params =~= seq![SqlValueView::Integer(bid)]);
            assert(bucket@.params =~= seq![SqlValueView::Integer(bid)]);
        }
        Ok((events, bucket))
    }

    /// Takes what the database says to the statements that delete a bucket.
    pub fn bucket_deleted(&mut self, bucket_id: &str, outcome: Result<(), String>) -> (r: Result<
        (),
        DatastoreError,
    >)
        requires
            old(self).wf(),
        ensures
            final(self).wf(),
            final(self).first_init == old(self).first_init,
            final(self).db_version == old(self).db_version,
            match outcome {
                Ok(_) => r is Ok && final(self).buckets() == old(self).buckets().remove(bucket_id@),
                Err(reason) => {
                    &&& r matches Err(e) && e@ == DatastoreErrorView::InternalError(reason@)
                    &&& final(self).buckets() == old(self).buckets()
                },
            },
    {
        match outcome {
            Ok(_) => {
                let _ = self.buckets_cache.remove(bucket_id);
                proof {
                    assert(self.buckets() =~= old(self).buckets().remove(bucket_id@));
                }
                Ok(())
            },
            Err(reason) => Err(DatastoreError::InternalError(reason)),
        }
    }

    /// Widens the time that a bucket spans by an event that has been stored in it.
    pub fn update_endtime(&mut self, bucket: &mut Bucket, event: &Event)
        requires
            old(self).wf(),
            is_row_bucket(old(bucket)@),
            event@.valid(),
        ensures
            final(self).wf(),
            final(self).first_init == old(self).first_init,
            final(self).db_version == old(self).db_version,
            final(self).buckets() == with_event(old(self).buckets(), old(bucket)@, event@),
            final(bucket)@ == (BucketView {
                metadata: widened(old(bucket)@.metadata, event@),
                ..old(bucket)@
            }),
    {
        let mut update = false;
        match bucket.metadata.start {
            None => {
                bucket.metadata.start = Some(event.timestamp);
                update = true;
            },
            Some(current_start) => {
                if current_start > event.timestamp {
                    bucket.metadata.start = Some(event.timestamp);
                    update = true;
                }
            },
        }
        let event_endtime = event.calculate_endtime();
        match bucket.metadata.end {
            None => {
                bucket.metadata.end = Some(event_endtime);
                update = true;
            },
            Some(current_end) => {
                if current_end < event_endtime {
                    bucket.metadata.end = Some(event_endtime);
                    update = true;
                }
            },
        }
        if update {
            self.cache(bucket.copy());
        }
    }

    /// Starts to store events in a bucket.
    pub fn insert_events(&self, bucket_id: &str, events: Vec<Event>) -> (r: Result<
        InsertEvents,
        DatastoreError,
    >)
        requires
            self.wf(),
        ensures
            match r {
                Ok(insert) => {
                    &&& self.buckets().contains_key(bucket_id@)
                    &&& insert.bucket@ == self.buckets()[bucket_id@]
                    &&& is_row_bucket(insert.bucket@)
                    &&& insert.events == events
                    &&& insert.done == 0
                    &&& !insert.saw_explicit_id
                },
                Err(e) => !self.buckets().contains_key(bucket_id@) && e@
                    == DatastoreErrorView::NoSuchBucket(bucket_id@),
            },
    {
        match self.get_bucket(bucket_id) {
            Ok(bucket) => Ok(InsertEvents { bucket, events, done: 0, saw_explicit_id: false }),
            Err(e) => Err(e),
        }
    }

    /// The statement that puts an event, whose data is written in JSON, in the place of a
    /// stored one.
    pub fn replace_last_event(
        &self,
        bucket_id: &str,
        event_id: i64,
        event: &Event,
        data: String,
    ) -> (r: Result<Statement, DatastoreError>)
        requires
            self.wf(),
            self.buckets().contains_key(bucket_id@) ==> storable_times(event@),
        ensures
            match r {
                Ok(statement) => {
                    &&& self.buckets().contains_key(bucket_id@)
                    &&& storable_length(event@)
                    &&& statement@ == replace_statement(
                        self.buckets()[bucket_id@].bid->Some_0,
                        event_id,
                        event@,
                        data@,
                    )
                },
                Err(e) => if self.buckets().contains_key(bucket_id@) {
                    !storable_length(event@) && e@ == length_error()
                } else {
                    e@ == DatastoreErrorView::NoSuchBucket(bucket_id@)
                },
            },
    {
        let bid: i64 = match self.bid_of(bucket_id) {
            Ok(bid) => bid,
            Err(e) => {
                return Err(e);
            },
        };
        let (start, end) = match span_to_store(event) {
            Ok(span) => span,
            Err(e) => {
                return Err(e);
            },
        };
        let mut statement = Statement::new(
            "UPDATE events SET starttime = ?, endtime = ?, data = ? WHERE bucketrow = ? AND id = ?".to_string(),
        );
        statement.bind(SqlValue::Integer(start));
        statement.bind(SqlValue::Integer(end));
        statement.bind(SqlValue::Text(data));
        statement.bind(SqlValue::Integer(bid));
        statement.bind(SqlValue::Integer(event_id));
        proof {
            assert(statement@.params =~= seq![
                SqlValueView::Integer(start),
                SqlValueView::Integer(end),
                SqlValueView::Text(data@),
                SqlValueView::Integer(bid),
                SqlValueView::Integer(event_id),
            ]);
        }
        Ok(statement)
    }

    /// Takes what the database says to that statement: how many rows it has changed. It is an
    /// error if there was none: the event that was to be replaced is not there.
    pub fn last_event_replaced(
        &mut self,
        bucket_id: &str,
        event_id: i64,
        event: &Event,
        changed: Result<usize, RowError>,
    ) -> (r: Result<(), DatastoreError>)
        requires
            old(self).wf(),
            old(self).buckets().contains_key(bucket_id@) && changed is Ok && changed->Ok_0 > 0
                ==> event@.valid(),
        ensures
            final(self).wf(),
            final(self).first_init == old(self).first_init,
            final(self).db_version == old(self).db_version,
            ({
                let known = old(self).buckets().contains_key(bucket_id@);
                &&& r is Ok <==> (known && changed is Ok && changed->Ok_0 > 0)
                &&& r is Ok ==> final(self).buckets() == with_event(
                    old(self).buckets(),
                    old(self).buckets()[bucket_id@],
                    event@,
                )
                &&& r is Err ==> final(self).buckets() == old(self).buckets()
                &&& r matches Err(e) ==> e@ == if !known {
                    DatastoreErrorView::NoSuchBucket(bucket_id@)
                } else {
                    match changed {
                        Ok(_) => DatastoreErrorView::InternalError(
                            "replace_last_event matched 0 rows for event_id "@ + signed_decimal(
                                event_id as int,
                            ) + " - cache/DB inconsistency"@,
                        ),
                        Err(error) => DatastoreErrorView::InternalError(
                            statement_failure("replace_last_event"@, "execute"@, error),
                        ),
                    }
                }
            }),
    {
        let mut bucket = match self.get_bucket(bucket_id) {
            Ok(bucket) => bucket,
            Err(e) => {
                return Err(e);
            },
        };
        match changed {
            Ok(0) => {
                let number = signed_decimal_text(event_id as i128);
                let doing = join("replace_last_event matched 0 rows for event_id ", number.as_str());
                Err(internal_error(doing.as_str(), " - cache/DB inconsistency"))
            },
            Ok(_) => {
                self.update_endtime(&mut bucket, event);
                Ok(())
            },
            Err(error) => Err(statement_error("replace_last_event", "execute", error)),
        }
    }

    /// The statements that delete events of a bucket, in the order of their numbers.
    pub fn delete_events_by_id(&self, bucket_id: &str, event_ids: Vec<i64>) -> (r: Result<
        Vec<Statement>,
        DatastoreError,
    >)
        requires
            self.wf(),
        ensures
            match r {
                Ok(statements) => {
                    &&& self.buckets().contains_key(bucket_id@)
                    &&& statements@.len() == event_ids@.len()
                    &&& forall|i: int|
                        0 <= i < event_ids@.len() ==> (#[trigger] statements@[i])@
                            == delete_event_statement(
                            self.buckets()[bucket_id@].bid->Some_0,
                            event_ids@[i],
                        )
                },
                Err(e) => !self.buckets().contains_key(bucket_id@) && e@
                    == DatastoreErrorView::NoSuchBucket(bucket_id@),
            },
    {
        let bid: i64 = match self.bid_of(bucket_id) {
            Ok(bid) => bid,
            Err(e) => {
                return Err(e);
            },
        };
        let mut statements: Vec<Statement> = Vec::new();
        let mut i: usize = 0;
        while i < event_ids.len()
            invariant
                i <= event_ids.len(),
                statements@.len() == i,
                forall|k: int|
                    0 <= k < i ==> (#[trigger] statements@[k])@ == delete_event_statement(
                        bid,
                        event_ids@[k],
                    ),
            decreases event_ids.len() - i,
        {
            let mut statement = Statement::new(
                "DELETE FROM events WHERE bucketrow = ? AND id = ?".to_string(),
            );
            statement.bind(SqlValue::Integer(bid));
            statement.bind(SqlValue::Integer(event_ids[i]));
            proof {
                assert(statement@.params =~= seq![
                    SqlValueView::Integer(bid),
                    SqlValueView::Integer(event_ids@[i as int]),
                ]);
            }
            statements.push(statement);
            i += 1;
        }
        Ok(statements)
    }

    /// The statement that reads one event of a bucket.
    pub fn get_event(
        &self,
        bucket_id: &str,
        event_id: i64,
    ) -> (r: Result<Statement, DatastoreError>)
        requires
            self.wf(),
        ensures
            match r {
                Ok(found) => self.buckets().contains_key(bucket_id@) && found@ == event_statement(
                    self.buckets()[bucket_id@].bid->Some_0,
                    event_id,
                ),
                Err(e) => !self.buckets().contains_key(bucket_id@) && e@
                    == DatastoreErrorView::NoSuchBucket(bucket_id@),
            },
    {
        match self.bid_of(bucket_id) {
            Ok(bid) => Ok(query_event(bid, event_id)),
            Err(e) => Err(e),
        }
    }

    /// The query for the events of a bucket that overlap a range of time, clipped to it.
    pub fn get_events(
        &self,
        bucket_id: &str,
        start: Option<i128>,
        end: Option<i128>,
        limit: Option<u64>,
    ) -> (r: Result<Option<EventsQuery>, DatastoreError>)
        requires
            self.wf(),
            fits(start),
            fits(end),
        ensures
            match r {
                Ok(found) => self.buckets().contains_key(bucket_id@) && optional_query(found) == events_query(
                    self.buckets()[bucket_id@].bid->Some_0,
                    start,
                    end,
                    limit,
                    Seq::empty(),
                    true,
                ),
                Err(e) => !self.buckets().contains_key(bucket_id@) && e@
                    == DatastoreErrorView::NoSuchBucket(bucket_id@),
            },
    {
        match self.bid_of(bucket_id) {
            Ok(bid) => Ok(select_events(bid, start, end, limit, &no_filters(), true)),
            Err(e) => Err(e),
        }
    }

    /// The query for the events of a bucket that overlap a range of time, each as it was stored.
    pub fn get_events_unclipped(
        &self,
        bucket_id: &str,
        start: Option<i128>,
        end: Option<i128>,
        limit: Option<u64>,
    ) -> (r: Result<Option<EventsQuery>, DatastoreError>)
        requires
            self.wf(),
            fits(start),
            fits(end),
        ensures
            match r {
                Ok(found) => self.buckets().contains_key(bucket_id@) && optional_query(found) == events_query(
                    self.buckets()[bucket_id@].bid->Some_0,
                    start,
                    end,
                    limit,
                    Seq::empty(),
                    false,
                ),
                Err(e) => !self.buckets().contains_key(bucket_id@) && e@
                    == DatastoreErrorView::NoSuchBucket(bucket_id@),
            },
    {
        match self.bid_of(bucket_id) {
            Ok(bid) => Ok(select_events(bid, start, end, limit, &no_filters(), false)),
            Err(e) => Err(e),
        }
    }

    /// The query for the events of a bucket that overlap a range of time and meet every filter,
    /// clipped to the range.
    pub fn get_events_filtered(
        &self,
        bucket_id: &str,
        start: Option<i128>,
        end: Option<i128>,
        limit: Option<u64>,
        filters: &Vec<EventFilter>,
    ) -> (r: Result<Option<EventsQuery>, DatastoreError>)
        requires
            self.wf(),
            fits(start),
            fits(end),
        ensures
            match r {
                Ok(found) => self.buckets().contains_key(bucket_id@) && optional_query(found) == events_query(
                    self.buckets()[bucket_id@].bid->Some_0,
                    start,
                    end,
                    limit,
                    filter_views(filters@),
                    true,
                ),
                Err(e) => !self.buckets().contains_key(bucket_id@) && e@
                    == DatastoreErrorView::NoSuchBucket(bucket_id@),
            },
    {
        match self.bid_of(bucket_id) {
            Ok(bid) => Ok(select_events(bid, start, end, limit, filters, true)),
            Err(e) => Err(e),
        }
    }

    /// The statement that adds up the lengths of the events of a bucket by the value of a key.
    pub fn get_events_grouped(
        &self,
        bucket_id: &str,
        start: Option<i128>,
        end: Option<i128>,
        group_by_key: &str,
    ) -> (r: Result<Option<Statement>, DatastoreError>)
        requires
            self.wf(),
            fits(start),
            fits(end),
        ensures
            match r {
                Ok(found) => self.buckets().contains_key(bucket_id@) && optional_statement(found) == grouped_statement(
                    self.buckets()[bucket_id@].bid->Some_0,
                    start,
                    end,
                    group_by_key@,
                ),
                Err(e) => !self.buckets().contains_key(bucket_id@) && e@
                    == DatastoreErrorView::NoSuchBucket(bucket_id@),
            },
    {
        match self.bid_of(bucket_id) {
            Ok(bid) => Ok(query_events_grouped(bid, start, end, group_by_key)),
            Err(e) => Err(e),
        }
    }

    /// The statement that reads the parts of the events of one bucket during which an event of
    /// another bucket has a value.
    pub fn get_events_intersected(
        &self,
        target_bucket_id: &str,
        filter_bucket_id: &str,
        start: Option<i128>,
        end: Option<i128>,
        filter_key: &str,
        filter_val: &FilterValue,
    ) -> (r: Result<Option<Statement>, DatastoreError>)
        requires
            self.wf(),
            fits(start),
            fits(end),
        ensures
            match r {
                Ok(found) => {
                    &&& self.buckets().contains_key(target_bucket_id@)
                    &&& self.buckets().contains_key(filter_bucket_id@)
                    &&& optional_statement(found) == intersected_statement(
                        self.buckets()[target_bucket_id@].bid->Some_0,
                        self.buckets()[filter_bucket_id@].bid->Some_0,
                        start,
                        end,
                        filter_key@,
                        comparable(filter_val.value@, filter_val.written@),
                    )
                },
                Err(e) => if !self.buckets().contains_key(target_bucket_id@) {
                    e@ == DatastoreErrorView::NoSuchBucket(target_bucket_id@)
                } else {
                    !self.buckets().contains_key(filter_bucket_id@) && e@
                        == DatastoreErrorView::NoSuchBucket(filter_bucket_id@)
                },
            },
    {
        let target_bid: i64 = match self.bid_of(target_bucket_id) {
            Ok(bid) => bid,
            Err(e) => {
                return Err(e);
            },
        };
        match self.bid_of(filter_bucket_id) {
            Ok(filter_bid) => Ok(
                query_events_intersected(
                    target_bid,
                    filter_bid,
                    start,
                    end,
                    filter_key,
                    filter_val,
                ),
            ),
            Err(e) => Err(e),
        }
    }

    /// The statement that counts the events of a bucket that overlap a range of time.
    pub fn get_event_count(
        &self,
        bucket_id: &str,
        start: Option<i128>,
        end: Option<i128>,
    ) -> (r: Result<Option<Statement>, DatastoreError>)
        requires
            self.wf(),
            fits(start),
            fits(end),
        ensures
            match r {
                Ok(found) => self.buckets().contains_key(bucket_id@) && optional_statement(found) == count_statement(
                    self.buckets()[bucket_id@].bid->Some_0,
                    start,
                    end,
                ),
                Err(e) => !self.buckets().contains_key(bucket_id@) && e@
                    == DatastoreErrorView::NoSuchBucket(bucket_id@),
            },
    {
        match self.bid_of(bucket_id) {
            Ok(bid) => Ok(query_event_count(bid, start, end)),
            Err(e) => Err(e),
        }
    }
}

/// Takes what the database says to the statement that deletes an event of a bucket.
pub fn event_deleted(bucket_id: &str, event_id: i64, outcome: Result<(), RowError>) -> (r: Result<
    (),
    DatastoreError,
>)
    ensures
        match outcome {
            Ok(_) => r is Ok,
            Err(error) => r matches Err(e) && e@ == DatastoreErrorView::InternalError(
                if error is Prepare {
                    "Failed to prepare delete_events SQL statement: "@ + error.says()
                } else {
                    "Failed to delete event with id "@ + signed_decimal(event_id as int)
                        + " in bucket "@ + bucket_id@ + ": "@ + error.says()
                },
            ),
        },
{
    match outcome {
        Ok(_) => Ok(()),
        Err(RowError::Prepare(reason)) => Err(
            internal_error("Failed to prepare delete_events SQL statement: ", reason.as_str()),
        ),
        Err(error) => {
            let number = signed_decimal_text(event_id as i128);
            let mut doing = join("Failed to delete event with id ", number.as_str());
            doing.append(" in bucket ");
            doing.append(bucket_id);
            doing.append(": ");
            let reason = error.text();
            Err(internal_error(doing.as_str(), reason.as_str()))
        },
    }
}

fn no_filters() -> (filters: Vec<EventFilter>)
    ensures
        filter_views(filters@) == Seq::<EventFilterView>::empty(),
{
    let filters: Vec<EventFilter> = Vec::new();
    proof {
        assert(filter_views(filters@) =~= Seq::<EventFilterView>::empty());
    }
    filters
}

/// The statement that deletes all events of a bucket.
pub open spec fn delete_events_statement(bid: i64) -> StatementView {
    StatementView {
        sql: "DELETE FROM events WHERE bucketrow = ?"@,
        params: seq![SqlValueView::Integer(bid)],
    }
}

/// The statement that deletes a bucket.
pub open spec fn delete_bucket_statement(bid: i64) -> StatementView {
    StatementView {
        sql: "DELETE FROM buckets WHERE id = ?"@,
        params: seq![SqlValueView::Integer(bid)],
    }
}

/// The statement that deletes an event of a bucket.
pub open spec fn delete_event_statement(bid: i64, event_id: i64) -> StatementView {
    StatementView {
        sql: "DELETE FROM events WHERE bucketrow = ? AND id = ?"@,
        params: seq![SqlValueView::Integer(bid), SqlValueView::Integer(event_id)],
    }
}

/// The statement that puts an event in the place of a stored one.
pub open spec fn replace_statement(bid: i64, event_id: i64, event: EventView, data: Seq<char>) -> StatementView {
    StatementView {
        sql: "UPDATE events SET starttime = ?, endtime = ?, data = ? WHERE bucketrow = ? AND id = ?"@,
        params: seq![
            SqlValueView::Integer(stored_span(event).0 as i64),
            SqlValueView::Integer(stored_span(event).1 as i64),
            SqlValueView::Text(data),
            SqlValueView::Integer(bid),
            SqlValueView::Integer(event_id),
        ],
    }
}

/// The statement that stores a value under a key, and when that was.
pub open spec fn store_value_statement(key: Seq<char>, data: Seq<char>, timestamp: i64) -> StatementView {
    StatementView {
        sql: "INSERT OR REPLACE INTO key_value(key, value, last_modified) VALUES (?, ?, ?)"@,
        params: seq![
            SqlValueView::Text(key),
            SqlValueView::Text(data),
            SqlValueView::Integer(timestamp),
        ],
    }
}

/// The statement that deletes the value of a key.
pub open spec fn delete_value_statement(key: Seq<char>) -> StatementView {
    StatementView {
        sql: "DELETE FROM key_value WHERE key = ?"@,
        params: seq![SqlValueView::Text(key)],
    }
}

/// The statement that reads the value of a key.
pub open spec fn value_statement(key: Seq<char>) -> StatementView {
    StatementView {
        sql: "SELECT value FROM key_value WHERE key = ?"@,
        params: seq![SqlValueView::Text(key)],
    }
}

/// The statement that reads the values of the keys that are like a pattern.
pub open spec fn values_statement(pattern: Seq<char>) -> StatementView {
    StatementView {
        sql: "SELECT key, value FROM key_value WHERE key LIKE ?"@,
        params: seq![SqlValueView::Text(pattern)],
    }
}

/// The statement that stores a new bucket.
pub open spec fn new_bucket_statement(
    bucket: BucketView,
    created: Seq<char>,
    data: Seq<char>,
) -> StatementView {
    StatementView {
        sql: "INSERT INTO buckets (name, \"type\", client, hostname, created, data) VALUES (?, ?, ?, ?, ?, ?) RETURNING id"@,
        params: seq![
            SqlValueView::Text(bucket.id),
            SqlValueView::Text(bucket._type),
            SqlValueView::Text(bucket.client),
            SqlValueView::Text(bucket.hostname),
            SqlValueView::Text(created),
            SqlValueView::Text(data),
        ],
    }
}

/// The statement that stores a new bucket, given when it was created and its data as they are
/// written.
pub fn bucket_statement(bucket: &Bucket, created: String, data: String) -> (statement: Statement)
    ensures
        statement@ == new_bucket_statement(bucket@, created@, data@),
{
    let mut statement = Statement::new(
        "INSERT INTO buckets (name, \"type\", client, hostname, created, data) VALUES (?, ?, ?, ?, ?, ?) RETURNING id".to_string(),
    );
    statement.bind(SqlValue::Text(bucket.id.clone()));
    statement.bind(SqlValue::Text(bucket._type.clone()));
    statement.bind(SqlValue::Text(bucket.client.clone()));
    statement.bind(SqlValue::Text(bucket.hostname.clone()));
    statement.bind(SqlValue::Text(created));
    statement.bind(SqlValue::Text(data));
    proof {
        assert(statement@.params =~= new_bucket_statement(bucket@, created@, data@).params);
    }
    statement
}

/// Whether a bucket is as it stands in its row: with a number, and without events.
pub open spec fn is_row_bucket(bucket: BucketView) -> bool {
    bucket.bid is Some && bucket.events is None
}

/// The buckets with those of the rows, up to the first row that cannot be read.
pub open spec fn cached_rows(
    buckets: Map<Seq<char>, BucketView>,
    rows: Seq<Result<Bucket, String>>,
) -> Map<Seq<char>, BucketView>
    decreases rows.len(),
{
    if rows.len() == 0 {
        buckets
    } else {
        match rows[0] {
            Ok(bucket) => cached_rows(buckets.insert(bucket@.id, bucket@), rows.drop_first()),
            Err(_) => buckets,
        }
    }
}

/// Why the first row that cannot be read cannot be read.
pub open spec fn first_error(rows: Seq<Result<Bucket, String>>) -> Option<Seq<char>>
    decreases rows.len(),
{
    if rows.len() == 0 {
        None
    } else {
        match rows[0] {
            Ok(_) => first_error(rows.drop_first()),
            Err(reason) => Some(reason@),
        }
    }
}

fn copy_bucket_map(map: &TextMap<Bucket>) -> (copied: TextMap<Bucket>)
    requires
        map.wf(),
    ensures
        copied.wf(),
        bucket_map(copied@) == bucket_map(map@),
{
    let mut copied: TextMap<Bucket> = TextMap::new();
    let ghost all = map.entries@;
    let mut i: usize = 0;
    proof {
        assert(bucket_map(copied@) =~= bucket_map(crate::textmap::contents(all.take(0))));
    }
    while i < map.entries.len()
        invariant
            all == map.entries@,
            i <= map.entries.len(),
            copied.wf(),
            bucket_map(copied@) == bucket_map(crate::textmap::contents(all.take(i as int))),
        decreases map.entries.len() - i,
    {
        let ghost before = copied@;
        let ghost so_far = crate::textmap::contents(all.take(i as int));
        copied.insert(map.entries[i].0.clone(), map.entries[i].1.copy());
        proof {
            assert(all.take(i + 1).drop_last() =~= all.take(i as int));
            let name = all[i as int].0@;
            let bucket = all[i as int].1;
            assert(bucket_map(copied@) =~= bucket_map(before).insert(name, bucket@));
            assert(bucket_map(so_far.insert(name, bucket)) =~= bucket_map(so_far).insert(
                name,
                bucket@,
            ));
        }
        i += 1;
    }
    proof {
        assert(all.take(i as int) =~= all);
    }
    copied
}

/// Events that are being stored in a bucket, one after the other.
#[derive(Debug)]
pub struct InsertEvents {
    pub bucket: Bucket,
    pub events: Vec<Event>,
    /// How many of the events are stored.
    pub done: usize,
    /// Whether one of the stored events came with a number of its own. Such numbers bypass the
    /// sequence, which has to be advanced then.
    pub saw_explicit_id: bool,
}

/// The statement that stores an event. One with a number of its own takes the place of the
/// event that has that number.
pub open spec fn insert_statement(bid: i64, event: EventView, data: Seq<char>) -> StatementView {
    let times = seq![
        SqlValueView::Integer(bid),
        SqlValueView::Integer(stored_span(event).0 as i64),
        SqlValueView::Integer(stored_span(event).1 as i64),
        SqlValueView::Text(data),
    ];
    match event.id {
        Some(id) => StatementView {
            sql: "INSERT OR REPLACE INTO events(id, bucketrow, starttime, endtime, data) VALUES (?, ?, ?, ?, ?) RETURNING id"@,
            params: seq![SqlValueView::Integer(id)] + times,
        },
        None => StatementView {
            sql: "INSERT INTO events(bucketrow, starttime, endtime, data) VALUES (?, ?, ?, ?) RETURNING id"@,
            params: times,
        },
    }
}

impl InsertEvents {
    /// The event that is stored next.
    pub fn next(&self) -> (event: Option<&Event>)
        ensures
            match event {
                Some(event) => self.done < self.events@.len() && *event
                    == self.events@[self.done as int],
                None => self.done >= self.events@.len(),
            },
    {
        if self.done < self.events.len() {
            Some(&self.events[self.done])
        } else {
            None
        }
    }

    /// The statement that stores the next event, whose data is written in JSON.
    pub fn statement(&self, data: String) -> (r: Result<Statement, DatastoreError>)
        requires
            self.bucket@.bid is Some,
            self.done < self.events@.len(),
            storable_times(self.events@[self.done as int]@),
        ensures
            match r {
                Ok(statement) => storable_length(self.events@[self.done as int]@) && statement@
                    == insert_statement(
                    self.bucket@.bid->Some_0,
                    self.events@[self.done as int]@,
                    data@,
                ),
                Err(e) => !storable_length(self.events@[self.done as int]@) && e@
                    == length_error(),
            },
    {
        let event = &self.events[self.done];
        let (start, end) = match span_to_store(event) {
            Ok(span) => span,
            Err(e) => {
                return Err(e);
            },
        };
        let bid: i64 = match self.bucket.bid {
            Some(bid) => bid,
            None => 0,
        };
        let mut statement = match event.id {
            Some(id) => {
                let mut statement = Statement::new(
                    "INSERT OR REPLACE INTO events(id, bucketrow, starttime, endtime, data) VALUES (?, ?, ?, ?, ?) RETURNING id".to_string(),
                );
                statement.bind(SqlValue::Integer(id));
                statement
            },
            None => Statement::new(
                "INSERT INTO events(bucketrow, starttime, endtime, data) VALUES (?, ?, ?, ?) RETURNING id".to_string(),
            ),
        };
        statement.bind(SqlValue::Integer(bid));
        statement.bind(SqlValue::Integer(start));
        statement.bind(SqlValue::Integer(end));
        statement.bind(SqlValue::Text(data));
        proof {
            assert(statement@.params =~= insert_statement(bid, event@, data@).params);
        }
        Ok(statement)
    }

    /// Takes what the database says to that statement: the number of the event. `shown` is how
    /// the event is shown if it could not be stored.
    pub fn inserted(
        &mut self,
        ds: &mut DatastoreInstance,
        id: Result<i64, RowError>,
        shown: &str,
    ) -> (r: Result<(), DatastoreError>)
        requires
            old(ds).wf(),
            is_row_bucket(old(self).bucket@),
            old(self).done < old(self).events@.len(),
            id is Ok ==> old(self).events@[old(self).done as int]@.valid(),
        ensures
            final(ds).wf(),
            final(ds).first_init == old(ds).first_init,
            final(ds).db_version == old(ds).db_version,
            ({
                let at = old(self).done as int;
                let event = old(self).events@[at]@;
                match id {
                    Ok(id) => {
                        &&& r is Ok
                        &&& final(self).done == old(self).done + 1
                        &&& final(self).saw_explicit_id == (old(self).saw_explicit_id
                            || event.id is Some)
                        &&& views(final(self).events@) == views(old(self).events@).update(
                            at,
                            EventView { id: Some(id), ..event },
                        )
                        &&& final(self).bucket@ == (BucketView {
                            metadata: widened(old(self).bucket@.metadata, event),
                            ..old(self).bucket@
                        })
                        &&& final(ds).buckets() == with_event(
                            old(ds).buckets(),
                            old(self).bucket@,
                            event,
                        )
                    },
                    Err(error) => {
                        &&& r matches Err(e) && e@ == DatastoreErrorView::InternalError(
                            if error is Prepare {
                                error.says()
                            } else {
                                "Failed to insert event: "@ + shown@ + ", "@ + error.says()
                            },
                        )
                        &&& final(ds).buckets() == old(ds).buckets()
                        &&& final(self)@ == old(self)@
                    },
                }
            }),
    {
        match id {
            Ok(id) => {
                let ghost at = self.done as int;
                let ghost before = views(self.events@);
                assert(self.done < self.events.len());
                let event = self.events[self.done].copy();
                if event.id.is_some() {
                    self.saw_explicit_id = true;
                }
                ds.update_endtime(&mut self.bucket, &event);
                let mut event = event;
                event.id = Some(id);
                self.events.set(self.done, event);
                self.done = self.done + 1;
                proof {
                    assert(views(self.events@) =~= before.update(
                        at,
                        EventView { id: Some(id), ..before[at] },
                    ));
                }
                Ok(())
            },
            Err(RowError::Prepare(reason)) => Err(DatastoreError::InternalError(reason)),
            Err(error) => {
                let mut doing = join("Failed to insert event: ", shown);
                doing.append(", ");
                let reason = error.text();
                Err(internal_error(doing.as_str(), reason.as_str()))
            },
        }
    }
}

/// What the last heartbeats of the buckets stand for.
pub open spec fn event_map(cache: Map<Seq<char>, Event>) -> Map<Seq<char>, EventView> {
    cache.map_values(|e: Event| e@)
}

/// What a heartbeat does to the events of its bucket.
#[derive(Debug)]
pub enum HeartbeatAction {
    /// It is stored as a new event, which is remembered as the last heartbeat or not.
    Insert { event: Event, remember: bool },
    /// It is merged with the last event, in the place of which this one is stored.
    Replace { event_id: i64, event: Event },
}

/// What a [`HeartbeatAction`] stands for.
pub enum HeartbeatActionView {
    Insert { event: EventView, remember: bool },
    Replace { event_id: i64, event: EventView },
}

impl View for HeartbeatAction {
    type V = HeartbeatActionView;

    open spec fn view(&self) -> HeartbeatActionView {
        match self {
            HeartbeatAction::Insert { event, remember } => HeartbeatActionView::Insert {
                event: event@,
                remember: *remember,
            },
            HeartbeatAction::Replace { event_id, event } => HeartbeatActionView::Replace {
                event_id: *event_id,
                event: event@,
            },
        }
    }
}

impl DatastoreInstance {
    /// Takes the last heartbeat of a bucket out of the cache. If there is none, the newest
    /// event of the bucket stands for it.
    pub fn take_last_heartbeat(&self, bucket_id: &str, last_heartbeat: &mut TextMap<Event>) -> (r:
        Result<Option<Event>, DatastoreError>)
        requires
            self.wf(),
            old(last_heartbeat).wf(),
        ensures
            final(last_heartbeat).wf(),
            match r {
                Ok(last) => {
                    &&& self.buckets().contains_key(bucket_id@)
                    &&& event_map(final(last_heartbeat)@) == event_map(
                        old(last_heartbeat)@,
                    ).remove(bucket_id@)
                    &&& match last {
                        Some(event) => old(last_heartbeat)@.contains_key(bucket_id@) && event@
                            == event_map(old(last_heartbeat)@)[bucket_id@],
                        None => !old(last_heartbeat)@.contains_key(bucket_id@),
                    }
                },
                Err(e) => {
                    &&& !self.buckets().contains_key(bucket_id@)
                    &&& e@ == DatastoreErrorView::NoSuchBucket(bucket_id@)
                    &&& final(last_heartbeat)@ == old(last_heartbeat)@
                },
            },
    {
        if !self.buckets_cache.contains_key(bucket_id) {
            return Err(DatastoreError::NoSuchBucket(bucket_id.to_string()));
        }
        let last = last_heartbeat.remove(bucket_id);
        proof {
            assert(event_map(last_heartbeat@) =~= event_map(old(last_heartbeat)@).remove(
                bucket_id@,
            ));
        }
        Ok(last)
    }
}

/// What a heartbeat does, given the last event of its bucket and what came of merging the two.
pub open spec fn heartbeat_action(
    last: Option<EventView>,
    heartbeat: EventView,
    merged: Option<EventView>,
) -> Result<HeartbeatActionView, DatastoreErrorView> {
    match last {
        None => Ok(HeartbeatActionView::Insert { event: heartbeat, remember: false }),
        Some(last) => match merged {
            Some(merged) => match last.id {
                Some(event_id) => Ok(
                    HeartbeatActionView::Replace {
                        event_id,
                        event: EventView { id: Some(event_id), ..merged },
                    },
                ),
                None => Err(DatastoreErrorView::InternalError("last_event has no ID"@)),
            },
            None => Ok(HeartbeatActionView::Insert { event: heartbeat, remember: true }),
        },
    }
}

/// What an optional event stands for.
pub open spec fn optional_event(event: Option<Event>) -> Option<EventView> {
    match event {
        Some(event) => Some(event@),
        None => None,
    }
}

impl DatastoreInstance {
    /// What a heartbeat does, given the last event of its bucket and what came of merging the two.
    /// A merged heartbeat keeps the number of the last event, so that it is found again.
    pub fn heartbeat(last: Option<Event>, beat: Event, merged: Option<Event>) -> (r: Result<
        HeartbeatAction,
        DatastoreError,
    >)
        ensures
            match r {
                Ok(action) => heartbeat_action(
                    optional_event(last),
                    beat@,
                    optional_event(merged),
                ) == Ok::<HeartbeatActionView, DatastoreErrorView>(action@),
                Err(e) => heartbeat_action(optional_event(last), beat@, optional_event(merged))
                    == Err::<HeartbeatActionView, DatastoreErrorView>(e@),
            },
    {
        match last {
            None => Ok(HeartbeatAction::Insert { event: beat, remember: false }),
            Some(last) => match merged {
                Some(merged) => match last.id {
                    Some(event_id) => {
                        let mut event = merged;
                        event.id = Some(event_id);
                        Ok(HeartbeatAction::Replace { event_id, event })
                    },
                    None => Err(DatastoreError::InternalError("last_event has no ID".to_string())),
                },
                None => Ok(HeartbeatAction::Insert { event: beat, remember: true }),
            },
        }
    }
}

/// Where a heartbeat does not merge with the last event of its bucket, or there is none, it is
/// itself inserted: with its own start, length, data and number. It is remembered if there was a
/// last event.
pub proof fn law_unmerged_heartbeat_is_inserted_as_it_came(
    last: Option<EventView>,
    heartbeat: EventView,
    merged: Option<EventView>,
)
    requires
        last is None || merged is None,
    ensures
        match heartbeat_action(last, heartbeat, merged) {
            Ok(HeartbeatActionView::Insert { event, remember }) => {
                &&& event.timestamp == heartbeat.timestamp
                &&& event.duration == heartbeat.duration
                &&& event.data == heartbeat.data
                &&& event.id == heartbeat.id
                &&& remember == (last is Some)
            },
            _ => false,
        },
{
}

/// Where a heartbeat merges with the last event of its bucket, the row of that event is the one
/// that is replaced, what is stored there has the start, length and data of the merged event, and
/// it keeps the number of the last one. It fails if and only if the last event has no number.
pub proof fn law_merged_heartbeat_replaces_the_last_event(
    last: EventView,
    heartbeat: EventView,
    merged: EventView,
)
    ensures
        match heartbeat_action(Some(last), heartbeat, Some(merged)) {
            Ok(HeartbeatActionView::Replace { event_id, event }) => {
                &&& last.id == Some(event_id)
                &&& event.id == last.id
                &&& event.timestamp == merged.timestamp
                &&& event.duration == merged.duration
                &&& event.data == merged.data
            },
            Ok(_) => false,
            Err(_) => last.id is None,
        },
{
}

/// Remembers the last heartbeat of a bucket.
pub fn remember_heartbeat(last_heartbeat: &mut TextMap<Event>, bucket_id: &str, stored: &Event)
    requires
        old(last_heartbeat).wf(),
    ensures
        final(last_heartbeat).wf(),
        event_map(final(last_heartbeat)@) == event_map(old(last_heartbeat)@).insert(
            bucket_id@,
            stored@,
        ),
{
    last_heartbeat.insert(bucket_id.to_string(), stored.copy());
    proof {
        assert(event_map(last_heartbeat@) =~= event_map(old(last_heartbeat)@).insert(
            bucket_id@,
            stored@,
        ));
    }
}

/// The statement that stores a value under a key, and when that was, in seconds since the Unix
/// epoch.
pub fn insert_key_value(key: &str, data: &str, timestamp: i64) -> (statement: Statement)
    ensures
        statement@ == store_value_statement(key@, data@, timestamp),
{
    let mut statement = Statement::new(
        "INSERT OR REPLACE INTO key_value(key, value, last_modified) VALUES (?, ?, ?)".to_string(),
    );
    statement.bind(SqlValue::Text(key.to_string()));
    statement.bind(SqlValue::Text(data.to_string()));
    statement.bind(SqlValue::Integer(timestamp));
    proof {
        assert(statement@.params =~= seq![
            SqlValueView::Text(key@),
            SqlValueView::Text(data@),
            SqlValueView::Integer(timestamp),
        ]);
    }
    statement
}

/// Takes what the database says when that statement is prepared.
pub fn value_stored(outcome: Result<(), String>) -> (r: Result<(), DatastoreError>)
    ensures
        match outcome {
            Ok(_) => r is Ok,
            Err(reason) => r matches Err(e) && e@ == DatastoreErrorView::InternalError(
                "Failed to prepare insert_value SQL statement: "@ + reason@,
            ),
        },
{
    match outcome {
        Ok(_) => Ok(()),
        Err(reason) => Err(
            internal_error("Failed to prepare insert_value SQL statement: ", reason.as_str()),
        ),
    }
}

fn statement_of_text(sql: &str, text: &str) -> (statement: Statement)
    ensures
        statement@ == (StatementView { sql: sql@, params: seq![SqlValueView::Text(text@)] }),
{
    let mut statement = Statement::new(sql.to_string());
    statement.bind(SqlValue::Text(text.to_string()));
    proof {
        assert(statement@.params =~= seq![SqlValueView::Text(text@)]);
    }
    statement
}

/// The statement that deletes the value of a key.
pub fn delete_key_value(key: &str) -> (statement: Statement)
    ensures
        statement@ == delete_value_statement(key@),
{
    statement_of_text("DELETE FROM key_value WHERE key = ?", key)
}

/// The statement that reads the value of a key.
pub fn get_key_value(key: &str) -> (statement: Statement)
    ensures
        statement@ == value_statement(key@),
{
    statement_of_text("SELECT value FROM key_value WHERE key = ?", key)
}

/// The value of a key, by what the database says to that statement.
pub fn found_value(key: &str, row: Result<String, RowError>) -> (r: Result<String, DatastoreError>)
    ensures
        match row {
            Ok(value) => r matches Ok(found) && found@ == value@,
            Err(RowError::NoRows) => r matches Err(e) && e@ == DatastoreErrorView::NoSuchKey(key@),
            Err(RowError::Prepare(reason)) => r matches Err(e) && e@
                == DatastoreErrorView::InternalError(
                "Failed to prepare get_value SQL statement: "@ + reason@,
            ),
            Err(RowError::Other(_)) => r matches Err(e) && e@ == DatastoreErrorView::InternalError(
                "Get value query failed for key "@ + key@,
            ),
        },
{
    match row {
        Ok(value) => Ok(value),
        Err(RowError::NoRows) => Err(DatastoreError::NoSuchKey(key.to_string())),
        Err(RowError::Prepare(reason)) => Err(
            internal_error("Failed to prepare get_value SQL statement: ", reason.as_str()),
        ),
        Err(RowError::Other(_)) => Err(internal_error("Get value query failed for key ", key)),
    }
}

/// The statement that reads the keys that match a pattern, with their values.
pub fn get_key_values(pattern: &str) -> (statement: Statement)
    ensures
        statement@ == values_statement(pattern@),
{
    statement_of_text("SELECT key, value FROM key_value WHERE key LIKE ?", pattern)
}

/// What the values of keys stand for.
pub open spec fn text_map(values: Map<Seq<char>, String>) -> Map<Seq<char>, Seq<char>> {
    values.map_values(|v: String| v@)
}

/// The settings among the rows: the keys that start with "settings.", with their values.
pub open spec fn settings_of(rows: Seq<(String, String)>) -> Map<Seq<char>, Seq<char>>
    decreases rows.len(),
{
    if rows.len() == 0 {
        Map::empty()
    } else {
        let earlier = settings_of(rows.drop_last());
        if has_prefix(rows.last().0@, "settings."@) {
            earlier.insert(rows.last().0@, rows.last().1@)
        } else {
            earlier
        }
    }
}

/// Only settings are handed out, and every one that the database returns: a key belongs to the
/// result if it starts with "settings." and a row holds it.
pub proof fn law_only_settings_are_handed_out(rows: Seq<(String, String)>, key: Seq<char>)
    ensures
        settings_of(rows).contains_key(key) <==> has_prefix(key, "settings."@) && exists|i: int|
            0 <= i < rows.len() && #[trigger] rows[i].0@ == key,
    decreases rows.len(),
{
    if rows.len() > 0 {
        let earlier = rows.drop_last();
        law_only_settings_are_handed_out(earlier, key);
        assert forall|i: int| 0 <= i < earlier.len() implies #[trigger] earlier[i] == rows[i] by {}
        assert(rows[rows.len() - 1].0@ == rows.last().0@);
        if exists|i: int| 0 <= i < rows.len() && #[trigger] rows[i].0@ == key {
            let i = choose|i: int| 0 <= i < rows.len() && #[trigger] rows[i].0@ == key;
            if i < earlier.len() {
                assert(earlier[i].0@ == key);
            }
        }
        if exists|i: int| 0 <= i < earlier.len() && #[trigger] earlier[i].0@ == key {
            let i = choose|i: int| 0 <= i < earlier.len() && #[trigger] earlier[i].0@ == key;
            assert(rows[i].0@ == key);
        }
    }
}

/// The settings among the rows that the database returns. Only keys that start with "settings."
/// are handed out.
pub fn found_settings(rows: Result<Vec<(String, String)>, RowError>) -> (r: Result<
    TextMap<String>,
    DatastoreError,
>)
    ensures
        match rows {
            Ok(rows) => r matches Ok(found) && found.wf() && text_map(found@) == settings_of(rows@),
            Err(RowError::NoRows) => r matches Ok(found) && found.wf() && text_map(found@)
                == Map::<Seq<char>, Seq<char>>::empty(),
            Err(RowError::Prepare(reason)) => r matches Err(e) && e@
                == DatastoreErrorView::InternalError(
                "Failed to prepare get_value SQL statement: "@ + reason@,
            ),
            Err(RowError::Other(_)) => r matches Err(e) && e@ == DatastoreErrorView::InternalError(
                "Failed to get settings"@,
            ),
        },
{
    let rows = match rows {
        Ok(rows) => rows,
        Err(RowError::NoRows) => Vec::new(),
        Err(RowError::Prepare(reason)) => {
            return Err(
                internal_error("Failed to prepare get_value SQL statement: ", reason.as_str()),
            );
        },
        Err(RowError::Other(_)) => {
            return Err(DatastoreError::InternalError("Failed to get settings".to_string()));
        },
    };
    let mut output: TextMap<String> = TextMap::new();
    let ghost all = rows@;
    proof {
        assert(text_map(output@) =~= settings_of(all.take(0)));
    }
    for row in it: rows
        invariant
            it.seq() == all,
            output.wf(),
            text_map(output@) == settings_of(all.take(it.index())),
    {
        let ghost before = output@;
        proof {
            let i = it.index();
            assert(row == all[i]);
            assert(all.take(i + 1).drop_last() =~= all.take(i));
            assert(all.take(i + 1).last() == row);
        }
        let (key, value) = row;
        if starts_with(key.as_str(), "settings.") {
            output.insert(key, value);
            proof {
                assert(text_map(output@) =~= text_map(before).insert(key@, value@));
            }
        }
    }
    proof {
        assert(all.take(all.len() as int) =~= all);
    }
    Ok(output)
}

/// The import of a database of an older kind. It is not supported: such a database is left
/// alone, which is no error.
pub fn legacy_import() -> (r: Result<(), LegacyDatastoreImportError>)
    ensures
        r is Ok,
{
    Ok(())
}

/// What [`InsertEvents`] stands for.
#[verifier::ext_equal]
pub struct InsertEventsView {
    pub bucket: BucketView,
    pub events: Seq<EventView>,
    pub done: usize,
    pub saw_explicit_id: bool,
}

impl View for InsertEvents {
    type V = InsertEventsView;

    open spec fn view(&self) -> InsertEventsView {
        InsertEventsView {
            bucket: self.bucket@,
            events: views(self.events@),
            done: self.done,
            saw_explicit_id: self.saw_explicit_id,
        }
    }
}

/// The value of a setting is the one in the last row with its key.
pub proof fn law_setting_has_its_last_value(rows: Seq<(String, String)>, i: int)
    requires
        0 <= i < rows.len(),
        has_prefix(rows[i].0@, "settings."@),
        forall|j: int| i < j < rows.len() ==> (#[trigger] rows[j]).0@ != rows[i].0@,
    ensures
        settings_of(rows).contains_key(rows[i].0@),
        settings_of(rows)[rows[i].0@] == rows[i].1@,
    decreases rows.len(),
{
    let n = rows.len() - 1;
    if i < n {
        let head = rows.drop_last();
        assert(rows[n].0@ != rows[i].0@);
        assert(head[i] == rows[i]);
        assert forall|j: int| i < j < head.len() implies (#[trigger] head[j]).0@ != head[i].0@ by {
            assert(head[j] == rows[j]);
        }
        law_setting_has_its_last_value(head, i);
    }
}

/// Whether every row can be read.
pub open spec fn all_read(rows: Seq<Result<Bucket, String>>) -> bool {
    forall|i: int| 0 <= i < rows.len() ==> (#[trigger] rows[i]) is Ok
}

/// Whether no row from a certain one on is that of a bucket with a name.
pub open spec fn none_named(rows: Seq<Result<Bucket, String>>, from: int, name: Seq<char>) -> bool {
    forall|i: int| from <= i < rows.len() ==> (#[trigger] rows[i])->Ok_0@.id != name
}

proof fn lemma_later_rows(rows: Seq<Result<Bucket, String>>, from: int, name: Seq<char>)
    requires
        rows.len() > 0,
        from > 0,
        all_read(rows),
        none_named(rows, from, name),
    ensures
        all_read(rows.drop_first()),
        none_named(rows.drop_first(), from - 1, name),
{
    let rest = rows.drop_first();
    assert forall|i: int| 0 <= i < rest.len() implies (#[trigger] rest[i]) is Ok by {
        assert(rows[i + 1] is Ok);
    }
    assert forall|i: int| from - 1 <= i < rest.len() implies (#[trigger] rest[i])->Ok_0@.id
        != name by {
        assert(rows[i + 1]->Ok_0@.id != name);
    }
}

proof fn lemma_rows_without(
    buckets: Map<Seq<char>, BucketView>,
    rows: Seq<Result<Bucket, String>>,
    name: Seq<char>,
)
    requires
        all_read(rows),
        none_named(rows, 0, name),
    ensures
        cached_rows(buckets, rows).contains_key(name) <==> buckets.contains_key(name),
        buckets.contains_key(name) ==> cached_rows(buckets, rows)[name] == buckets[name],
    decreases rows.len(),
{
    if rows.len() > 0 {
        assert(rows[0] is Ok);
        assert(rows[0]->Ok_0@.id != name);
        assert(none_named(rows, 1, name));
        lemma_later_rows(rows, 1, name);
        let first = rows[0]->Ok_0@;
        lemma_rows_without(buckets.insert(first.id, first), rows.drop_first(), name);
    }
}

proof fn lemma_no_error(rows: Seq<Result<Bucket, String>>)
    requires
        all_read(rows),
    ensures
        first_error(rows) is None,
    decreases rows.len(),
{
    if rows.len() > 0 {
        assert(rows[0] is Ok);
        assert(all_read(rows.drop_first())) by {
            let rest = rows.drop_first();
            assert forall|i: int| 0 <= i < rest.len() implies (#[trigger] rest[i]) is Ok by {
                assert(rows[i + 1] is Ok);
            }
        }
        lemma_no_error(rows.drop_first());
    }
}

/// Where every row of a bucket can be read, no error is reported, and a bucket stands under its
/// name as the last row with that name has it.
pub proof fn law_every_readable_bucket_is_known(
    buckets: Map<Seq<char>, BucketView>,
    rows: Seq<Result<Bucket, String>>,
    i: int,
)
    requires
        all_read(rows),
        0 <= i < rows.len(),
        none_named(rows, i + 1, rows[i]->Ok_0@.id),
    ensures
        first_error(rows) is None,
        cached_rows(buckets, rows).contains_key(rows[i]->Ok_0@.id),
        cached_rows(buckets, rows)[rows[i]->Ok_0@.id] == rows[i]->Ok_0@,
    decreases rows.len(),
{
    let name = rows[i]->Ok_0@.id;
    let first = rows[0]->Ok_0@;
    let rest = rows.drop_first();
    assert(rows[0] is Ok);
    lemma_no_error(rows);
    lemma_later_rows(rows, i + 1, name);
    if i == 0 {
        lemma_rows_without(buckets.insert(first.id, first), rest, name);
    } else {
        assert(rest[i - 1] == rows[i]);
        law_every_readable_bucket_is_known(buckets.insert(first.id, first), rest, i - 1);
    }
}

/// Rows do not touch the buckets of other names.
pub proof fn law_rows_touch_no_other_bucket(
    buckets: Map<Seq<char>, BucketView>,
    rows: Seq<Result<Bucket, String>>,
    name: Seq<char>,
)
    requires
        all_read(rows),
        none_named(rows, 0, name),
    ensures
        cached_rows(buckets, rows).contains_key(name) <==> buckets.contains_key(name),
        buckets.contains_key(name) ==> cached_rows(buckets, rows)[name] == buckets[name],
{
    lemma_rows_without(buckets, rows, name);
}

/// The first row that cannot be read is the one that is reported.
pub proof fn law_first_unreadable_bucket_is_reported(rows: Seq<Result<Bucket, String>>, i: int)
    requires
        0 <= i < rows.len(),
        rows[i] is Err,
        forall|j: int| 0 <= j < i ==> (#[trigger] rows[j]) is Ok,
    ensures
        first_error(rows) == Some(rows[i]->Err_0@),
    decreases i,
{
    if i > 0 {
        let rest = rows.drop_first();
        assert(rows[0] is Ok);
        assert(rest[i - 1] == rows[i]);
        assert forall|j: int| 0 <= j < i - 1 implies (#[trigger] rest[j]) is Ok by {
            assert(rows[j + 1] is Ok);
        }
        law_first_unreadable_bucket_is_reported(rest, i - 1);
    }
}

/// A bucket that has been stored is the one that was given, under the number that the database
/// has given it. Its events are kept elsewhere.
pub proof fn law_stored_bucket_is_the_one_given(bucket: BucketView, rowid: i64)
    ensures
        ({
            let stored = stored_bucket(bucket, rowid);
            &&& stored.bid == Some(rowid)
            &&& stored.events is None
            &&& stored.id == bucket.id
            &&& stored._type == bucket._type
            &&& stored.client == bucket.client
            &&& stored.hostname == bucket.hostname
            &&& stored.created == bucket.created
            &&& stored.data == bucket.data
            &&& stored.metadata == bucket.metadata
            &&& stored.last_updated == bucket.last_updated
        }),
{
}

/// Whether a number of the database is a given one.
pub open spec fn is_number(n: i64, value: int) -> bool {
    n == value
}

/// An event can be stored if its length fits the numbers of the database, and not otherwise. Its
/// times in the table are then as far apart as it is long.
pub proof fn law_storable_length_fits(event: EventView)
    ensures
        storable_length(event) <==> exists|n: i64| #[trigger] is_number(n, event.duration),
        stored_span(event).0 == event.timestamp,
        stored_span(event).1 - stored_span(event).0 == event.duration,
{
    if storable_length(event) {
        let n = event.duration as i64;
        assert(is_number(n, event.duration));
    }
}

} // verus!
