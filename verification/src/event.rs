//! Events: spans of time that carry data.

use vstd::prelude::*;

use crate::json::JsonMap;
#[allow(unused_imports)]
use crate::json::{equal_data, JsonView};

verus! {

/// The earliest instant, in nanoseconds since the Unix epoch: the start of the
/// year -262143.
pub const TIME_MIN: i128 = -8334601228800000000000;

/// The latest instant, in nanoseconds since the Unix epoch: the end of the year
/// 262142.
pub const TIME_MAX: i128 = 8210266876799999999999;

/// A span of time with data.
#[derive(Debug)]
pub struct Event {
    pub id: Option<i64>,
    /// Start, in nanoseconds since the Unix epoch.
    pub timestamp: i128,
    /// Length in nanoseconds.
    pub duration: i128,
    pub data: JsonMap,
}

/// What an [`Event`] stands for.
#[verifier::ext_equal]
pub struct EventView {
    pub id: Option<i64>,
    pub timestamp: int,
    pub duration: int,
    pub data: Map<Seq<char>, JsonView>,
}

impl View for Event {
    type V = EventView;

    open spec fn view(&self) -> EventView {
        EventView {
            id: self.id,
            timestamp: self.timestamp as int,
            duration: self.duration as int,
            data: self.data@,
        }
    }
}

impl EventView {
    /// The instant at which the event ends.
    pub open spec fn end(self) -> int {
        self.timestamp + self.duration
    }

    /// Both ends of the event are instants.
    pub open spec fn valid(self) -> bool {
        &&& TIME_MIN <= self.timestamp <= TIME_MAX
        &&& TIME_MIN <= self.end() <= TIME_MAX
    }

    /// Whether the event covers the instant `t`. Its start belongs to it, its end does not.
    pub open spec fn covers(self, t: int) -> bool {
        self.timestamp <= t < self.end()
    }

    /// The event, moved to run from `start` to `end`.
    pub open spec fn spanning(self, start: int, end: int) -> EventView {
        EventView { timestamp: start, duration: end - start, ..self }
    }
}

/// What a list of events stands for.
pub open spec fn views(events: Seq<Event>) -> Seq<EventView> {
    events.map_values(|e: Event| e@)
}

pub open spec fn all_valid(events: Seq<EventView>) -> bool {
    forall|i: int| 0 <= i < events.len() ==> (#[trigger] events[i]).valid()
}

/// Whether one of the events covers the instant `t` with the data `data`.
pub open spec fn covered_with(events: Seq<EventView>, t: int, data: Map<Seq<char>, JsonView>) -> bool {
    exists|i: int|
        0 <= i < events.len() && (#[trigger] events[i]).covers(t) && events[i].data == data
}

/// Whether one of the events covers the instant `t`.
pub open spec fn covered(events: Seq<EventView>, t: int) -> bool {
    exists|i: int| 0 <= i < events.len() && (#[trigger] events[i]).covers(t)
}

/// Each event ends before the next one starts, or where it starts.
pub open spec fn no_overlap(events: Seq<EventView>) -> bool {
    forall|i: int, j: int|
        0 <= i < j < events.len() ==> (#[trigger] events[i]).end() <= (#[trigger] events[j]).timestamp
}

pub open spec fn sorted_by_time(events: Seq<EventView>) -> bool {
    forall|i: int, j: int|
        0 <= i < j < events.len() ==> (#[trigger] events[i]).timestamp <= (#[trigger] events[j]).timestamp
}

impl Event {
    /// An event that is not stored yet.
    pub fn new(timestamp: i128, duration: i128, data: JsonMap) -> (event: Event)
        ensures
            event@ == (EventView {
                id: None,
                timestamp: timestamp as int,
                duration: duration as int,
                data: data@,
            }),
    {
        Event { id: None, timestamp, duration, data }
    }

    /// The instant at which the event ends.
    pub fn calculate_endtime(&self) -> (end: i128)
        requires
            self@.valid(),
        ensures
            end == self@.end(),
    {
        self.timestamp + self.duration
    }

    pub fn copy(&self) -> (copied: Event)
        ensures
            copied@ == self@,
    {
        Event {
            id: self.id,
            timestamp: self.timestamp,
            duration: self.duration,
            data: self.data.copy(),
        }
    }
}

impl Clone for Event {
    fn clone(&self) -> (copied: Event)
        ensures
            copied@ == self@,
    {
        self.copy()
    }
}

impl PartialEq for Event {
    fn eq(&self, other: &Event) -> (same: bool) {
        self.id == other.id && self.timestamp == other.timestamp && self.duration == other.duration
            && self.data.equals(&other.data)
    }
}

impl vstd::std_specs::cmp::PartialEqSpecImpl for Event {
    open spec fn obeys_eq_spec() -> bool {
        true
    }

    open spec fn eq_spec(&self, other: &Event) -> bool {
        &&& self@.id == other@.id
        &&& self@.timestamp == other@.timestamp
        &&& self@.duration == other@.duration
        &&& equal_data(self@.data, other@.data)
    }
}

/// An order in which events can be put.
#[derive(Clone, Copy, PartialEq, Eq, Structural)]
pub enum EventOrder {
    /// By start.
    Time,
    /// By start, and among those by length.
    TimeThenDuration,
    /// By length, the longest first.
    LongestFirst,
}

/// Whether `a` may stand before `b`.
pub open spec fn may_precede(order: EventOrder, a: EventView, b: EventView) -> bool {
    match order {
        EventOrder::Time => a.timestamp <= b.timestamp,
        EventOrder::TimeThenDuration => a.timestamp < b.timestamp || (a.timestamp == b.timestamp
            && a.duration <= b.duration),
        EventOrder::LongestFirst => a.duration >= b.duration,
    }
}

/// `events` with `event` put behind all that may precede it.
pub open spec fn sorted_insert(order: EventOrder, events: Seq<EventView>, event: EventView) -> Seq<
    EventView,
>
    decreases events.len(),
{
    if events.len() == 0 || may_precede(order, events.last(), event) {
        events.push(event)
    } else {
        sorted_insert(order, events.drop_last(), event).push(events.last())
    }
}

/// `events` in the given order; those that may stand either way keep their order.
pub open spec fn stable_sort(order: EventOrder, events: Seq<EventView>) -> Seq<EventView>
    decreases events.len(),
{
    if events.len() == 0 {
        events
    } else {
        sorted_insert(order, stable_sort(order, events.drop_last()), events.last())
    }
}

pub open spec fn is_sorted(order: EventOrder, events: Seq<EventView>) -> bool {
    forall|i: int, j: int|
        0 <= i < j < events.len() ==> may_precede(order, #[trigger] events[i], #[trigger] events[j])
}

/// Two ordered lists as one; of two that may stand either way, the one of `a` comes first.
spec fn merge(order: EventOrder, a: Seq<EventView>, b: Seq<EventView>) -> Seq<EventView>
    decreases a.len() + b.len(),
{
    if b.len() == 0 {
        a
    } else if a.len() == 0 {
        b
    } else if may_precede(order, a.last(), b.last()) {
        merge(order, a, b.drop_last()).push(b.last())
    } else {
        merge(order, a.drop_last(), b).push(a.last())
    }
}

proof fn lemma_merge_insert(order: EventOrder, a: Seq<EventView>, b: Seq<EventView>, event: EventView)
    ensures
        merge(order, a, sorted_insert(order, b, event)) == sorted_insert(
            order,
            merge(order, a, b),
            event,
        ),
    decreases a.len() + b.len(),
{
    let inserted = sorted_insert(order, b, event);
    if b.len() == 0 || may_precede(order, b.last(), event) {
        assert(inserted.drop_last() =~= b);
        if a.len() > 0 && !may_precede(order, a.last(), event) {
            lemma_merge_insert(order, a.drop_last(), b, event);
            if b.len() > 0 {
                assert(merge(order, a, b).drop_last() =~= merge(order, a.drop_last(), b));
            }
        }
    } else {
        let shorter = sorted_insert(order, b.drop_last(), event);
        assert(inserted.drop_last() =~= shorter);
        if a.len() > 0 {
            if may_precede(order, a.last(), b.last()) {
                lemma_merge_insert(order, a, b.drop_last(), event);
                assert(merge(order, a, b).drop_last() =~= merge(order, a, b.drop_last()));
            } else {
                lemma_merge_insert(order, a.drop_last(), b, event);
                assert(merge(order, a, b).drop_last() =~= merge(order, a.drop_last(), b));
            }
        }
    }
}

proof fn lemma_sort_by_halves(order: EventOrder, a: Seq<EventView>, b: Seq<EventView>)
    ensures
        stable_sort(order, a + b) == merge(order, stable_sort(order, a), stable_sort(order, b)),
    decreases b.len(),
{
    if b.len() == 0 {
        assert(a + b =~= a);
    } else {
        lemma_sort_by_halves(order, a, b.drop_last());
        assert((a + b).drop_last() =~= a + b.drop_last());
        lemma_merge_insert(
            order,
            stable_sort(order, a),
            stable_sort(order, b.drop_last()),
            b.last(),
        );
    }
}

proof fn lemma_sorted_insert(order: EventOrder, events: Seq<EventView>, event: EventView)
    requires
        is_sorted(order, events),
    ensures
        is_sorted(order, sorted_insert(order, events, event)),
        sorted_insert(order, events, event).to_multiset() == events.to_multiset().insert(event),
        sorted_insert(order, events, event).len() == events.len() + 1,
    decreases events.len(),
{
    broadcast use vstd::seq_lib::group_to_multiset_ensures;

    let inserted = sorted_insert(order, events, event);
    if !(events.len() == 0 || may_precede(order, events.last(), event)) {
        let shorter = sorted_insert(order, events.drop_last(), event);
        lemma_sorted_insert(order, events.drop_last(), event);
        assert(events =~= events.drop_last().push(events.last()));
        assert(inserted.to_multiset() =~= events.to_multiset().insert(event));
        assert forall|i: int| 0 <= i < shorter.len() implies may_precede(
            order,
            #[trigger] shorter[i],
            events.last(),
        ) by {
            assert(shorter.to_multiset().contains(shorter[i]));
            if shorter[i] != event {
                assert(events.drop_last().to_multiset().contains(shorter[i]));
                assert(events.drop_last().contains(shorter[i]));
            }
        }
    }
}

/// Sorting puts the events in order, and neither adds nor loses one.
pub proof fn law_sort_orders_and_keeps(order: EventOrder, events: Seq<EventView>)
    ensures
        is_sorted(order, stable_sort(order, events)),
        stable_sort(order, events).to_multiset() == events.to_multiset(),
        stable_sort(order, events).len() == events.len(),
    decreases events.len(),
{
    broadcast use vstd::seq_lib::group_to_multiset_ensures;

    if events.len() > 0 {
        law_sort_orders_and_keeps(order, events.drop_last());
        lemma_sorted_insert(order, stable_sort(order, events.drop_last()), events.last());
        assert(events =~= events.drop_last().push(events.last()));
    }
}

/// A sorted list stays as it is.
pub proof fn law_sort_keeps_sorted(order: EventOrder, events: Seq<EventView>)
    requires
        is_sorted(order, events),
    ensures
        stable_sort(order, events) == events,
    decreases events.len(),
{
    if events.len() > 0 {
        law_sort_keeps_sorted(order, events.drop_last());
        if events.len() > 1 {
            assert(may_precede(order, events[events.len() - 2], events[events.len() - 1]));
        }
        assert(events.drop_last().push(events.last()) =~= events);
    }
}

/// Whether the order decides between any two different events of a list.
pub open spec fn order_decides(order: EventOrder, events: Seq<EventView>) -> bool {
    forall|i: int, j: int|
        0 <= i < events.len() && 0 <= j < events.len() && may_precede(
            order,
            #[trigger] events[i],
            #[trigger] events[j],
        ) && may_precede(order, events[j], events[i]) ==> events[i] == events[j]
}

proof fn lemma_sorted_is_unique(order: EventOrder, a: Seq<EventView>, b: Seq<EventView>)
    requires
        is_sorted(order, a),
        is_sorted(order, b),
        order_decides(order, a),
        a.to_multiset() == b.to_multiset(),
    ensures
        a == b,
    decreases a.len(),
{
    broadcast use vstd::seq_lib::group_to_multiset_ensures;

    assert(a.len() == a.to_multiset().len());
    assert(b.len() == b.to_multiset().len());
    if a.len() > 0 {
        let la = a.last();
        let lb = b.last();
        assert(a.to_multiset().contains(la));
        assert(b.to_multiset().contains(lb));
        assert(b.contains(la));
        assert(a.contains(lb));
        let i = choose|i: int| 0 <= i < b.len() && b[i] == la;
        let j = choose|j: int| 0 <= j < a.len() && a[j] == lb;
        if i < b.len() - 1 && j < a.len() - 1 {
            assert(may_precede(order, b[i], b[b.len() - 1]));
            assert(may_precede(order, a[j], a[a.len() - 1]));
            assert(a[j] == a[a.len() - 1]);
        }
        assert(la == lb);
        assert(a =~= a.drop_last().push(la));
        assert(b =~= b.drop_last().push(lb));
        assert(a.drop_last().to_multiset() =~= a.to_multiset().remove(la));
        assert(b.drop_last().to_multiset() =~= b.to_multiset().remove(lb));
        lemma_sorted_is_unique(order, a.drop_last(), b.drop_last());
    } else {
        assert(a =~= b);
    }
}

/// Where the order decides between any two different events, a list is sorted in one way only,
/// however its events stood before.
pub proof fn law_sort_forgets_the_given_order(
    order: EventOrder,
    a: Seq<EventView>,
    b: Seq<EventView>,
)
    requires
        a.to_multiset() == b.to_multiset(),
        order_decides(order, a),
    ensures
        stable_sort(order, a) == stable_sort(order, b),
{
    law_sort_orders_and_keeps(order, a);
    law_sort_orders_and_keeps(order, b);
    let sorted = stable_sort(order, a);
    assert forall|i: int, j: int|
        0 <= i < sorted.len() && 0 <= j < sorted.len() && may_precede(
            order,
            #[trigger] sorted[i],
            #[trigger] sorted[j],
        ) && may_precede(order, sorted[j], sorted[i]) implies sorted[i] == sorted[j] by {
        lemma_sort_contains(order, a, i);
        lemma_sort_contains(order, a, j);
        let k = choose|k: int| 0 <= k < a.len() && a[k] == sorted[i];
        let l = choose|l: int| 0 <= l < a.len() && a[l] == sorted[j];
        assert(may_precede(order, a[k], a[l]));
    }
    lemma_sorted_is_unique(order, sorted, stable_sort(order, b));
}

/// Every event of the sorted list is one of the given events.
pub(crate) proof fn lemma_sort_contains(order: EventOrder, events: Seq<EventView>, i: int)
    requires
        0 <= i < stable_sort(order, events).len(),
    ensures
        events.contains(stable_sort(order, events)[i]),
{
    broadcast use vstd::seq_lib::group_to_multiset_ensures;

    law_sort_orders_and_keeps(order, events);
    let sorted = stable_sort(order, events);
    assert(sorted.to_multiset().contains(sorted[i]));
    assert(events.to_multiset().contains(sorted[i]));
}

/// Every given event is one of the sorted list.
pub(crate) proof fn lemma_sort_contains_back(order: EventOrder, events: Seq<EventView>, i: int)
    requires
        0 <= i < events.len(),
    ensures
        stable_sort(order, events).contains(events[i]),
{
    broadcast use vstd::seq_lib::group_to_multiset_ensures;

    law_sort_orders_and_keeps(order, events);
    let sorted = stable_sort(order, events);
    assert(events.to_multiset().contains(events[i]));
    assert(sorted.to_multiset().contains(events[i]));
}

pub(crate) proof fn lemma_sort_valid(order: EventOrder, events: Seq<EventView>)
    requires
        all_valid(events),
    ensures
        all_valid(stable_sort(order, events)),
{
    assert forall|i: int| 0 <= i < stable_sort(order, events).len() implies (
    #[trigger] stable_sort(order, events)[i]).valid() by {
        lemma_sort_contains(order, events, i);
        let j = choose|j: int|
            0 <= j < events.len() && events[j] == stable_sort(order, events)[i];
        assert(events[j].valid());
    }
}

fn event_may_precede(order: EventOrder, a: &Event, b: &Event) -> (r: bool)
    ensures
        r == may_precede(order, a@, b@),
{
    match order {
        EventOrder::Time => a.timestamp <= b.timestamp,
        EventOrder::TimeThenDuration => a.timestamp < b.timestamp || (a.timestamp == b.timestamp
            && a.duration <= b.duration),
        EventOrder::LongestFirst => a.duration >= b.duration,
    }
}

/// The last event of a merged list, moved to the front of what follows.
proof fn lemma_move_last(head: Seq<EventView>, event: EventView, backwards: Seq<EventView>)
    ensures
        head.push(event) + backwards.reverse() == head + backwards.push(event).reverse(),
{
    assert(backwards.push(event).reverse() =~= seq![event] + backwards.reverse());
    assert(head.push(event) + backwards.reverse() =~= head + (seq![event] + backwards.reverse()));
}

/// Where the last event of a merged list comes from.
proof fn lemma_merge_last(order: EventOrder, a: Seq<EventView>, b: Seq<EventView>)
    requires
        a.len() + b.len() > 0,
    ensures
        b.len() > 0 && (a.len() == 0 || may_precede(order, a.last(), b.last())) ==> merge(
            order,
            a,
            b,
        ) == merge(order, a, b.drop_last()).push(b.last()),
        a.len() > 0 && (b.len() == 0 || !may_precede(order, a.last(), b.last())) ==> merge(
            order,
            a,
            b,
        ) == merge(order, a.drop_last(), b).push(a.last()),
{
    if a.len() == 0 {
        assert(merge(order, a, b.drop_last()) =~= b.drop_last());
        assert(b =~= b.drop_last().push(b.last()));
    }
    if b.len() == 0 {
        assert(a =~= a.drop_last().push(a.last()));
    }
}

fn merge_sorted(order: EventOrder, a: Vec<Event>, b: Vec<Event>) -> (merged: Vec<Event>)
    ensures
        views(merged@) == merge(order, views(a@), views(b@)),
{
    let mut a = a;
    let mut b = b;
    let ghost whole = merge(order, views(a@), views(b@));
    // The merged list from its end, back to front.
    let mut backwards: Vec<Event> = Vec::new();
    assert(merge(order, views(a@), views(b@)) + views(backwards@).reverse() =~= whole);
    while a.len() > 0 || b.len() > 0
        invariant
            merge(order, views(a@), views(b@)) + views(backwards@).reverse() == whole,
        decreases a.len() + b.len(),
    {
        let take_b = if b.len() == 0 {
            false
        } else if a.len() == 0 {
            true
        } else {
            event_may_precede(order, &a[a.len() - 1], &b[b.len() - 1])
        };
        let ghost va = views(a@);
        let ghost vb = views(b@);
        let ghost vo = views(backwards@);
        proof {
            lemma_merge_last(order, va, vb);
        }
        let next = if take_b {
            b.pop()
        } else {
            a.pop()
        };
        if let Some(event) = next {
            backwards.push(event);
        }
        proof {
            if take_b {
                assert(views(b@) =~= vb.drop_last());
                assert(views(backwards@) =~= vo.push(vb.last()));
                lemma_move_last(merge(order, va, vb.drop_last()), vb.last(), vo);
            } else {
                assert(views(a@) =~= va.drop_last());
                assert(views(backwards@) =~= vo.push(va.last()));
                lemma_move_last(merge(order, va.drop_last(), vb), va.last(), vo);
            }
        }
    }
    let mut merged: Vec<Event> = Vec::new();
    assert(views(merged@) + views(backwards@).reverse() =~= whole);
    while backwards.len() > 0
        invariant
            views(merged@) + views(backwards@).reverse() == whole,
        decreases backwards.len(),
    {
        let ghost vm = views(merged@);
        let ghost vo = views(backwards@);
        if let Some(event) = backwards.pop() {
            merged.push(event);
        }
        proof {
            assert(views(backwards@) =~= vo.drop_last());
            assert(vo.drop_last().push(vo.last()) =~= vo);
            assert(views(merged@) =~= vm.push(vo.last()));
            lemma_move_last(vm, vo.last(), vo.drop_last());
        }
    }
    assert(views(merged@) =~= whole);
    merged
}

/// Put the events in the given order; those that may stand either way keep their order.
pub fn sort_events(order: EventOrder, events: Vec<Event>) -> (sorted: Vec<Event>)
    ensures
        views(sorted@) == stable_sort(order, views(events@)),
    decreases events.len(),
{
    if events.len() <= 1 {
        proof {
            law_sort_keeps_sorted(order, views(events@));
        }
        return events;
    }
    let mut first = events;
    let ghost all = first@;
    let middle: usize = first.len() / 2;
    let second = first.split_off(middle);
    proof {
        assert(views(all) =~= views(first@) + views(second@));
        lemma_sort_by_halves(order, views(first@), views(second@));
    }
    merge_sorted(order, sort_events(order, first), sort_events(order, second))
}

/// Put the events in the order of their starts; those that start together keep their order.
pub fn sort_by_timestamp(events: Vec<Event>) -> (sorted: Vec<Event>)
    ensures
        views(sorted@) == stable_sort(EventOrder::Time, views(events@)),
{
    sort_events(EventOrder::Time, events)
}

/// In the order of time no event comes before one that starts earlier. Where lengths count too, the
/// shorter of two that start together comes first. In the order of lengths no event comes before a
/// longer one.
pub proof fn law_sorted_events_follow_their_times_and_lengths(events: Seq<EventView>, i: int, j: int)
    requires
        0 <= i < j < events.len(),
    ensures
        stable_sort(EventOrder::Time, events)[i].timestamp <= stable_sort(
            EventOrder::Time,
            events,
        )[j].timestamp,
        ({
            let sorted = stable_sort(EventOrder::TimeThenDuration, events);
            &&& sorted[i].timestamp <= sorted[j].timestamp
            &&& sorted[i].timestamp == sorted[j].timestamp ==> sorted[i].duration
                <= sorted[j].duration
        }),
        stable_sort(EventOrder::LongestFirst, events)[i].duration >= stable_sort(
            EventOrder::LongestFirst,
            events,
        )[j].duration,
{
    law_sort_orders_and_keeps(EventOrder::Time, events);
    law_sort_orders_and_keeps(EventOrder::TimeThenDuration, events);
    law_sort_orders_and_keeps(EventOrder::LongestFirst, events);
    let by_time = stable_sort(EventOrder::Time, events);
    let by_both = stable_sort(EventOrder::TimeThenDuration, events);
    let by_length = stable_sort(EventOrder::LongestFirst, events);
    assert(may_precede(EventOrder::Time, by_time[i], by_time[j]));
    assert(may_precede(EventOrder::TimeThenDuration, by_both[i], by_both[j]));
    assert(may_precede(EventOrder::LongestFirst, by_length[i], by_length[j]));
}

} // verus!
