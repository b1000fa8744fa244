//! Keeping of events only what lies within other events.

use vstd::prelude::*;

use crate::event::{sort_by_timestamp, Event};
#[allow(unused_imports)]
use crate::event::{
    all_valid, covered, covered_with, law_sort_orders_and_keeps, lemma_sort_contains,
    lemma_sort_contains_back, lemma_sort_valid, may_precede, no_overlap, sorted_by_time, stable_sort, views, EventOrder, EventView,
};
#[allow(unused_imports)]
use crate::json::JsonView;

verus! {

/// The intersection of the intervals `a` and `b`.
///
/// Intervals count as closed where one of them has no length: an instant within an interval,
/// its ends included, is the intersection of the two.
pub open spec fn interval_intersection(a_start: int, a_end: int, b_start: int, b_end: int) -> Option<
    (int, int),
> {
    if a_start <= b_start && b_end <= a_end {
        Some((b_start, b_end))
    } else if a_start <= b_start && b_start < a_end {
        Some((b_start, a_end))
    } else if a_start < b_end && b_end <= a_end {
        Some((a_start, b_end))
    } else if b_start <= a_start && a_end <= b_end {
        Some((a_start, a_end))
    } else {
        None
    }
}

/// Where the part of the first event starts that has not been emitted yet.
pub open spec fn part_start(event: EventView, emitted_until: Option<int>) -> int {
    match emitted_until {
        Some(t) => if t >= event.timestamp { t } else { event.timestamp },
        None => event.timestamp,
    }
}

/// The parts of `events` that lie within one of `filters`, both in the order of their starts.
/// Of the first event, what lies before `emitted_until` is left out.
pub open spec fn kept_parts(
    events: Seq<EventView>,
    filters: Seq<EventView>,
    emitted_until: Option<int>,
) -> Seq<EventView>
    decreases events.len() + filters.len(),
{
    if events.len() == 0 || filters.len() == 0 {
        Seq::empty()
    } else {
        let event = events[0];
        let filter = filters[0];
        let start = part_start(event, emitted_until);
        match interval_intersection(start, event.end(), filter.timestamp, filter.end()) {
            Some((from, to)) => seq![event.spanning(from, to)] + if event.end() <= filter.end() {
                kept_parts(events.drop_first(), filters, None)
            } else {
                kept_parts(events, filters.drop_first(), Some(to))
            },
            None => if event.end() <= filter.timestamp {
                kept_parts(events.drop_first(), filters, None)
            } else {
                kept_parts(events, filters.drop_first(), emitted_until)
            },
        }
    }
}

/// The parts of `events` that lie within one of `filter_events`.
pub open spec fn period_intersection(events: Seq<EventView>, filter_events: Seq<EventView>) -> Seq<
    EventView,
> {
    kept_parts(
        stable_sort(EventOrder::Time, events),
        stable_sort(EventOrder::Time, filter_events),
        None,
    )
}

/// No event of the list has a negative length.
pub open spec fn no_negative_length(events: Seq<EventView>) -> bool {
    forall|i: int| 0 <= i < events.len() ==> (#[trigger] events[i]).duration >= 0
}

/// Whether the instant `t` lies within one of the events, their ends included.
pub open spec fn within(events: Seq<EventView>, t: int) -> bool {
    exists|i: int|
        0 <= i < events.len() && (#[trigger] events[i]).timestamp <= t && t <= events[i].end()
}

/// Whether `part` is a part of one of the events, with its data and identity.
pub open spec fn part_of_one(part: EventView, events: Seq<EventView>) -> bool {
    exists|i: int|
        0 <= i < events.len() && (#[trigger] events[i]).timestamp <= part.timestamp && part.end()
            <= events[i].end() && part == events[i].spanning(part.timestamp, part.end())
}

/// Whether `part` lies within one of the events.
pub open spec fn inside_one(part: EventView, events: Seq<EventView>) -> bool {
    exists|i: int|
        0 <= i < events.len() && (#[trigger] events[i]).timestamp <= part.timestamp && part.end()
            <= events[i].end()
}

/// How much of the time from `start` to `end` one of the events covers.
pub open spec fn overlap_with(start: int, end: int, event: EventView) -> int {
    let from = if start >= event.timestamp { start } else { event.timestamp };
    let to = if end <= event.end() { end } else { event.end() };
    if from < to { to - from } else { 0 }
}

/// The sum of the overlaps of the time from `start` to `end` with each of the events.
pub open spec fn overlap_sum(start: int, end: int, events: Seq<EventView>) -> int
    decreases events.len(),
{
    if events.len() == 0 {
        0
    } else {
        overlap_with(start, end, events[0]) + overlap_sum(start, end, events.drop_first())
    }
}

/// The sum of the overlaps of each event with each of the others.
pub open spec fn total_overlap(events: Seq<EventView>, others: Seq<EventView>) -> int
    decreases events.len(),
{
    if events.len() == 0 {
        0
    } else {
        overlap_sum(events[0].timestamp, events[0].end(), others) + total_overlap(
            events.drop_first(),
            others,
        )
    }
}

/// The sum of the lengths of the events.
pub open spec fn total_length(events: Seq<EventView>) -> int
    decreases events.len(),
{
    if events.len() == 0 {
        0
    } else {
        events[0].duration + total_length(events.drop_first())
    }
}

/// What holds whenever the next event is held against the next filter.
spec fn scanning(events: Seq<EventView>, filters: Seq<EventView>, emitted_until: Option<int>) -> bool {
    &&& no_negative_length(events)
    &&& no_negative_length(filters)
    &&& no_overlap(events)
    &&& sorted_by_time(filters)
    &&& emitted_until matches Some(t) ==> events.len() > 0 && t < events[0].end()
}

proof fn lemma_scanning_step(
    events: Seq<EventView>,
    filters: Seq<EventView>,
    emitted_until: Option<int>,
)
    requires
        scanning(events, filters, emitted_until),
    ensures
        events.len() > 0 ==> scanning(events.drop_first(), filters, None),
        filters.len() > 0 ==> scanning(events, filters.drop_first(), emitted_until),
        filters.len() > 0 && events.len() > 0 ==> forall|t: int|
            t < events[0].end() ==> #[trigger] scanning(events, filters.drop_first(), Some(t)),
{
    if events.len() > 0 {
        let rest = events.drop_first();
        assert forall|i: int| 0 <= i < rest.len() implies #[trigger] rest[i] == events[i + 1] by {}
    }
    if filters.len() > 0 {
        let rest = filters.drop_first();
        assert forall|i: int| 0 <= i < rest.len() implies #[trigger] rest[i] == filters[i + 1] by {}
    }
}

/// A filter that has ended before the events start keeps nothing of them.
proof fn lemma_ended_filter(events: Seq<EventView>, filters: Seq<EventView>)
    requires
        scanning(events, filters, None),
        filters.len() > 0,
        events.len() > 0 ==> filters[0].end() < events[0].timestamp,
    ensures
        kept_parts(events, filters, None) == kept_parts(events, filters.drop_first(), None),
{
    if events.len() > 0 {
        assert(events[0].duration >= 0);
        assert(filters[0].duration >= 0);
    }
}

proof fn lemma_first_event_alone(
    events: Seq<EventView>,
    filters: Seq<EventView>,
    emitted_until: Option<int>,
)
    requires
        scanning(events, filters, emitted_until),
        events.len() > 0,
    ensures
        kept_parts(events, filters, emitted_until) == kept_parts(
            seq![events[0]],
            filters,
            emitted_until,
        ) + kept_parts(events.drop_first(), filters, None),
    decreases filters.len(),
{
    let event = events[0];
    let alone = seq![event];
    let rest = events.drop_first();
    lemma_scanning_step(events, filters, emitted_until);
    assert(alone.drop_first() =~= Seq::<EventView>::empty());
    assert(kept_parts(alone.drop_first(), filters, None) =~= Seq::<EventView>::empty());
    if filters.len() > 0 {
        let filter = filters[0];
        let later = filters.drop_first();
        let start = part_start(event, emitted_until);
        assert(event.duration >= 0 && filter.duration >= 0);
        if rest.len() > 0 {
            assert(rest[0] == events[1]);
            assert(events[0].end() <= events[1].timestamp);
        }
        match interval_intersection(start, event.end(), filter.timestamp, filter.end()) {
            Some((from, to)) => {
                let part = seq![event.spanning(from, to)];
                if event.end() <= filter.end() {
                    assert(part + Seq::<EventView>::empty() =~= part);
                } else {
                    assert(to == filter.end());
                    lemma_first_event_alone(events, later, Some(to));
                    lemma_ended_filter(rest, filters);
                    assert(kept_parts(events, filters, emitted_until) =~= (part + kept_parts(
                        alone,
                        later,
                        Some(to),
                    )) + kept_parts(rest, later, None));
                }
            },
            None => {
                if event.end() <= filter.timestamp {
                    assert(Seq::<EventView>::empty() + kept_parts(rest, filters, None)
                        =~= kept_parts(rest, filters, None));
                } else {
                    lemma_first_event_alone(events, later, emitted_until);
                    lemma_ended_filter(rest, filters);
                }
            },
        }
    } else {
        assert(kept_parts(events, filters, emitted_until) =~= kept_parts(alone, filters, emitted_until)
            + kept_parts(rest, filters, None));
    }
}

/// What is kept of one event.
proof fn lemma_parts_of_event(event: EventView, filters: Seq<EventView>, emitted_until: Option<int>)
    requires
        scanning(seq![event], filters, emitted_until),
    ensures
        ({
            let parts = kept_parts(seq![event], filters, emitted_until);
            &&& no_overlap(parts)
            &&& no_negative_length(parts)
            &&& forall|i: int|
                0 <= i < parts.len() ==> {
                    &&& part_start(event, emitted_until) <= (#[trigger] parts[i]).timestamp
                    &&& parts[i].end() <= event.end()
                    &&& parts[i] == event.spanning(parts[i].timestamp, parts[i].end())
                    &&& inside_one(parts[i], filters)
                }
            &&& forall|t: int|
                #[trigger] covered(parts, t) <==> part_start(event, emitted_until) <= t
                    < event.end() && covered(filters, t)
        }),
    decreases filters.len(),
{
    let alone = seq![event];
    assert(alone[0].duration >= 0);
    assert(alone.drop_first() =~= Seq::<EventView>::empty());
    assert(kept_parts(alone.drop_first(), filters, None) =~= Seq::<EventView>::empty());
    lemma_scanning_step(alone, filters, emitted_until);
    let parts = kept_parts(alone, filters, emitted_until);
    let start = part_start(event, emitted_until);
    if filters.len() > 0 {
        let filter = filters[0];
        let later = filters.drop_first();
        assert(filter.duration >= 0);
        assert forall|i: int| 0 <= i < later.len() implies #[trigger] later[i] == filters[i + 1]
            && filter.timestamp <= later[i].timestamp by {}
        assert forall|t: int| #[trigger] covered(filters, t) <==> filter.covers(t) || covered(
            later,
            t,
        ) by {
            if covered(filters, t) && !filter.covers(t) {
                let i = choose|i: int| 0 <= i < filters.len() && (#[trigger] filters[i]).covers(t);
                assert(later[i - 1].covers(t));
            }
            if covered(later, t) {
                let i = choose|i: int| 0 <= i < later.len() && (#[trigger] later[i]).covers(t);
                assert(filters[i + 1].covers(t));
            }
            if filter.covers(t) {
                assert(filters[0].covers(t));
            }
        }
        assert forall|t: int| #[trigger] covered(later, t) implies filter.timestamp <= t by {
            let i = choose|i: int| 0 <= i < later.len() && (#[trigger] later[i]).covers(t);
        }
        assert forall|part: EventView| #[trigger] inside_one(part, later) implies inside_one(
            part,
            filters,
        ) by {
            let i = choose|i: int|
                0 <= i < later.len() && (#[trigger] later[i]).timestamp <= part.timestamp
                    && part.end() <= later[i].end();
            assert(filters[i + 1] == later[i]);
        }
        match interval_intersection(start, event.end(), filter.timestamp, filter.end()) {
            Some((from, to)) => {
                let part = event.spanning(from, to);
                assert(inside_one(part, filters)) by {
                    assert(filters[0].timestamp <= part.timestamp && part.end()
                        <= filters[0].end());
                }
                if event.end() <= filter.end() {
                    assert(parts =~= seq![part]);
                    assert forall|t: int| #[trigger] covered(parts, t) <==> start <= t < event.end()
                        && covered(filters, t) by {
                        if start <= t < event.end() && covered(filters, t) {
                            assert(parts[0].covers(t));
                        }
                    }
                } else {
                    lemma_parts_of_event(event, later, Some(to));
                    let more = kept_parts(alone, later, Some(to));
                    assert(parts =~= seq![part] + more);
                    assert forall|i: int| 1 <= i < parts.len() implies #[trigger] parts[i]
                        == more[i - 1] by {}
                    assert(parts[0] == part);
                    assert forall|t: int| #[trigger] covered(parts, t) <==> start <= t < event.end()
                        && covered(filters, t) by {
                        if covered(parts, t) {
                            let i = choose|i: int|
                                0 <= i < parts.len() && (#[trigger] parts[i]).covers(t);
                            if i > 0 {
                                assert(more[i - 1].covers(t));
                                assert(covered(more, t));
                            }
                        }
                        if start <= t < event.end() && covered(filters, t) {
                            if t < to {
                                assert(parts[0].covers(t));
                            } else {
                                assert(covered(more, t));
                                let k = choose|k: int|
                                    0 <= k < more.len() && (#[trigger] more[k]).covers(t);
                                assert(parts[k + 1].covers(t));
                            }
                        }
                    }
                }
            },
            None => {
                if event.end() > filter.timestamp {
                    lemma_parts_of_event(event, later, emitted_until);
                    assert forall|t: int| #[trigger] covered(parts, t) <==> start <= t < event.end()
                        && covered(filters, t) by {
                        assert(!(start <= t < event.end() && filter.covers(t)));
                    }
                } else {
                    assert(parts =~= Seq::<EventView>::empty());
                    assert forall|t: int| #[trigger] covered(parts, t) <==> start <= t < event.end()
                        && covered(filters, t) by {}
                }
            },
        }
    } else {
        assert(parts =~= Seq::<EventView>::empty());
    }
}

proof fn lemma_parts(events: Seq<EventView>, filters: Seq<EventView>)
    requires
        scanning(events, filters, None),
    ensures
        ({
            let parts = kept_parts(events, filters, None);
            &&& no_overlap(parts)
            &&& no_negative_length(parts)
            &&& forall|i: int|
                0 <= i < parts.len() ==> {
                    &&& part_of_one(#[trigger] parts[i], events)
                    &&& inside_one(parts[i], filters)
                }
            &&& forall|t: int, data: Map<Seq<char>, JsonView>|
                #[trigger] covered_with(parts, t, data) <==> covered_with(events, t, data)
                    && covered(filters, t)
        }),
    decreases events.len(),
{
    let parts = kept_parts(events, filters, None);
    if events.len() > 0 {
        let event = events[0];
        let rest = events.drop_first();
        let own = kept_parts(seq![event], filters, None);
        let others = kept_parts(rest, filters, None);
        assert(scanning(seq![event], filters, None)) by {
            assert(events[0].duration >= 0);
        }
        lemma_scanning_step(events, filters, None);
        lemma_first_event_alone(events, filters, None);
        lemma_parts_of_event(event, filters, None);
        lemma_parts(rest, filters);
        assert(parts =~= own + others);
        assert forall|i: int| 0 <= i < rest.len() implies #[trigger] rest[i] == events[i + 1]
            && event.end() <= rest[i].timestamp by {}
        assert forall|i: int| 0 <= i < own.len() implies #[trigger] parts[i] == own[i] by {}
        assert forall|i: int| own.len() <= i < parts.len() implies #[trigger] parts[i] == others[i
            - own.len()] by {}
        assert forall|i: int| 0 <= i < others.len() implies event.end() <= (
        #[trigger] others[i]).timestamp && part_of_one(others[i], events) by {
            let k = choose|k: int|
                0 <= k < rest.len() && (#[trigger] rest[k]).timestamp <= others[i].timestamp
                    && others[i].end() <= rest[k].end() && others[i] == rest[k].spanning(
                    others[i].timestamp,
                    others[i].end(),
                );
            assert(events[k + 1] == rest[k]);
        }
        assert forall|i: int| 0 <= i < own.len() implies part_of_one(#[trigger] own[i], events) by {
            assert(events[0].timestamp <= own[i].timestamp);
        }
        assert forall|t: int, data: Map<Seq<char>, JsonView>|
            #[trigger] covered_with(parts, t, data) <==> covered_with(events, t, data) && covered(
                filters,
                t,
            ) by {
            if covered_with(parts, t, data) {
                let i = choose|i: int|
                    0 <= i < parts.len() && (#[trigger] parts[i]).covers(t) && parts[i].data
                        == data;
                if i < own.len() {
                    assert(own[i].covers(t));
                    assert(covered(own, t));
                    assert(events[0].covers(t) && events[0].data == data);
                } else {
                    assert(others[i - own.len()].covers(t));
                    assert(covered_with(others, t, data));
                    let k = choose|k: int|
                        0 <= k < rest.len() && (#[trigger] rest[k]).covers(t) && rest[k].data
                            == data;
                    assert(events[k + 1] == rest[k]);
                }
            }
            if covered_with(events, t, data) && covered(filters, t) {
                let k = choose|k: int|
                    0 <= k < events.len() && (#[trigger] events[k]).covers(t) && events[k].data
                        == data;
                if k == 0 {
                    assert(covered(own, t));
                    let i = choose|i: int| 0 <= i < own.len() && (#[trigger] own[i]).covers(t);
                    assert(parts[i].covers(t) && parts[i].data == data);
                } else {
                    assert(rest[k - 1] == events[k]);
                    assert(covered_with(rest, t, data));
                    assert(covered_with(others, t, data));
                    let i = choose|i: int|
                        0 <= i < others.len() && (#[trigger] others[i]).covers(t)
                            && others[i].data == data;
                    assert(parts[i + own.len()] == others[i]);
                }
            }
        }
    } else {
        assert(parts =~= Seq::<EventView>::empty());
    }
}

/// The hypothesis of the laws below: the events do not overlap, and nothing has a negative
/// length.
pub open spec fn disjoint_events(events: Seq<EventView>, filter_events: Seq<EventView>) -> bool {
    &&& no_negative_length(events)
    &&& no_negative_length(filter_events)
    &&& no_overlap(stable_sort(EventOrder::Time, events))
}

proof fn lemma_sorted_lengths(events: Seq<EventView>)
    requires
        no_negative_length(events),
    ensures
        no_negative_length(stable_sort(EventOrder::Time, events)),
{
    let sorted = stable_sort(EventOrder::Time, events);
    assert forall|i: int| 0 <= i < sorted.len() implies (#[trigger] sorted[i]).duration >= 0 by {
        lemma_sort_contains(EventOrder::Time, events, i);
        let j = choose|j: int| 0 <= j < events.len() && events[j] == sorted[i];
        assert(events[j].duration >= 0);
    }
}

proof fn lemma_sorted_scanning(events: Seq<EventView>, filter_events: Seq<EventView>)
    requires
        disjoint_events(events, filter_events),
    ensures
        scanning(
            stable_sort(EventOrder::Time, events),
            stable_sort(EventOrder::Time, filter_events),
            None,
        ),
{
    let order = EventOrder::Time;
    let filters = stable_sort(order, filter_events);
    crate::event::law_sort_orders_and_keeps(order, filter_events);
    lemma_sorted_lengths(events);
    lemma_sorted_lengths(filter_events);
    assert forall|i: int, j: int| 0 <= i < j < filters.len() implies (
    #[trigger] filters[i]).timestamp <= (#[trigger] filters[j]).timestamp by {
        assert(crate::event::may_precede(order, filters[i], filters[j]));
    }
}

proof fn lemma_sort_covers(events: Seq<EventView>, t: int, data: Map<Seq<char>, JsonView>)
    ensures
        covered_with(stable_sort(EventOrder::Time, events), t, data) == covered_with(events, t, data),
        covered(stable_sort(EventOrder::Time, events), t) == covered(events, t),
{
    let sorted = stable_sort(EventOrder::Time, events);
    assert forall|i: int| 0 <= i < sorted.len() implies exists|j: int|
        0 <= j < events.len() && events[j] == #[trigger] sorted[i] by {
        lemma_sort_contains(EventOrder::Time, events, i);
    }
    assert forall|i: int| 0 <= i < events.len() implies exists|j: int|
        0 <= j < sorted.len() && sorted[j] == #[trigger] events[i] by {
        lemma_sort_contains_back(EventOrder::Time, events, i);
    }
}

proof fn lemma_parts_lie_within(
    events: Seq<EventView>,
    filters: Seq<EventView>,
    emitted_until: Option<int>,
)
    requires
        no_negative_length(events),
        no_negative_length(filters),
        emitted_until matches Some(t) ==> events.len() > 0 && t < events[0].end(),
    ensures
        ({
            let parts = kept_parts(events, filters, emitted_until);
            &&& no_negative_length(parts)
            &&& forall|i: int|
                0 <= i < parts.len() ==> part_of_one(#[trigger] parts[i], events) && inside_one(
                    parts[i],
                    filters,
                )
        }),
    decreases events.len() + filters.len(),
{
    let parts = kept_parts(events, filters, emitted_until);
    if events.len() > 0 && filters.len() > 0 {
        let event = events[0];
        let filter = filters[0];
        let later_events = events.drop_first();
        let later_filters = filters.drop_first();
        assert(event.duration >= 0 && filter.duration >= 0);
        assert forall|i: int| 0 <= i < later_events.len() implies #[trigger] later_events[i]
            == events[i + 1] by {}
        assert forall|i: int| 0 <= i < later_filters.len() implies #[trigger] later_filters[i]
            == filters[i + 1] by {}
        assert forall|part: EventView| #[trigger] part_of_one(part, later_events) implies part_of_one(
            part,
            events,
        ) by {
            let k = choose|k: int|
                0 <= k < later_events.len() && (#[trigger] later_events[k]).timestamp
                    <= part.timestamp && part.end() <= later_events[k].end() && part
                    == later_events[k].spanning(part.timestamp, part.end());
            assert(events[k + 1] == later_events[k]);
        }
        assert forall|part: EventView| #[trigger] inside_one(part, later_filters) implies inside_one(
            part,
            filters,
        ) by {
            let k = choose|k: int|
                0 <= k < later_filters.len() && (#[trigger] later_filters[k]).timestamp
                    <= part.timestamp && part.end() <= later_filters[k].end();
            assert(filters[k + 1] == later_filters[k]);
        }
        let start = part_start(event, emitted_until);
        match interval_intersection(start, event.end(), filter.timestamp, filter.end()) {
            Some((from, to)) => {
                let part = event.spanning(from, to);
                assert(events[0].timestamp <= part.timestamp && filters[0].timestamp
                    <= part.timestamp);
                assert(part_of_one(part, events) && inside_one(part, filters));
                let more = if event.end() <= filter.end() {
                    lemma_parts_lie_within(later_events, filters, None);
                    kept_parts(later_events, filters, None)
                } else {
                    lemma_parts_lie_within(events, later_filters, Some(to));
                    kept_parts(events, later_filters, Some(to))
                };
                assert(parts =~= seq![part] + more);
                assert(parts[0] == part);
                assert forall|i: int| 1 <= i < parts.len() implies #[trigger] parts[i] == more[i
                    - 1] by {}
            },
            None => {
                if event.end() <= filter.timestamp {
                    lemma_parts_lie_within(later_events, filters, None);
                } else {
                    lemma_parts_lie_within(events, later_filters, emitted_until);
                }
            },
        }
    }
}

/// Whether events overlap or not, no part that is kept has a negative length, and each is a part
/// of one of the events, with its data and identity, and lies within one of the filter events.
pub proof fn law_kept_parts_lie_within(events: Seq<EventView>, filter_events: Seq<EventView>)
    requires
        no_negative_length(events),
        no_negative_length(filter_events),
    ensures
        ({
            let parts = period_intersection(events, filter_events);
            &&& no_negative_length(parts)
            &&& forall|i: int|
                0 <= i < parts.len() ==> part_of_one(#[trigger] parts[i], events) && inside_one(
                    parts[i],
                    filter_events,
                )
        }),
{
    let order = EventOrder::Time;
    let sorted = stable_sort(order, events);
    let filters = stable_sort(order, filter_events);
    let parts = period_intersection(events, filter_events);
    lemma_sorted_lengths(events);
    lemma_sorted_lengths(filter_events);
    lemma_parts_lie_within(sorted, filters, None);
    assert forall|i: int| 0 <= i < parts.len() implies part_of_one(#[trigger] parts[i], events)
        && inside_one(parts[i], filter_events) by {
        let p = parts[i];
        assert(part_of_one(p, sorted) && inside_one(p, filters));
        let k = choose|k: int|
            0 <= k < sorted.len() && (#[trigger] sorted[k]).timestamp <= p.timestamp && p.end()
                <= sorted[k].end() && p == sorted[k].spanning(p.timestamp, p.end());
        lemma_sort_contains(order, events, k);
        let j = choose|j: int| 0 <= j < events.len() && events[j] == sorted[k];
        assert(events[j].timestamp <= p.timestamp);
        let f = choose|f: int|
            0 <= f < filters.len() && (#[trigger] filters[f]).timestamp <= p.timestamp && p.end()
                <= filters[f].end();
        lemma_sort_contains(order, filter_events, f);
        let g = choose|g: int| 0 <= g < filter_events.len() && filter_events[g] == filters[f];
        assert(filter_events[g].timestamp <= p.timestamp);
    }
}

/// Of events that do not overlap, exactly the time is kept that a filter event covers, with
/// the data of the event that covers it, and the parts do not overlap.
pub proof fn law_kept_time_is_the_intersection(events: Seq<EventView>, filter_events: Seq<EventView>)
    requires
        disjoint_events(events, filter_events),
    ensures
        ({
            let parts = period_intersection(events, filter_events);
            &&& no_overlap(parts)
            &&& forall|t: int, data: Map<Seq<char>, JsonView>|
                #[trigger] covered_with(parts, t, data) <==> covered_with(events, t, data)
                    && covered(filter_events, t)
        }),
{
    let order = EventOrder::Time;
    let parts = period_intersection(events, filter_events);
    lemma_sorted_scanning(events, filter_events);
    lemma_parts(stable_sort(order, events), stable_sort(order, filter_events));
    assert forall|t: int, data: Map<Seq<char>, JsonView>|
        #[trigger] covered_with(parts, t, data) <==> covered_with(events, t, data) && covered(
            filter_events,
            t,
        ) by {
        lemma_sort_covers(events, t, data);
        lemma_sort_covers(filter_events, t, data);
    }
}

/// Of events that do not overlap, each is filtered as if it stood alone: what is kept of the
/// first one does not depend on the others, nor what is kept of the others on it.
pub proof fn law_events_are_filtered_one_by_one(events: Seq<EventView>, filters: Seq<EventView>)
    requires
        events.len() > 0,
        no_negative_length(events),
        no_negative_length(filters),
        no_overlap(events),
        sorted_by_time(filters),
    ensures
        kept_parts(events, filters, None) == kept_parts(seq![events[0]], filters, None)
            + kept_parts(events.drop_first(), filters, None),
{
    lemma_first_event_alone(events, filters, None);
}

/// An event without length is kept, once, if it lies within a filter event, the ends of which
/// belong to it; otherwise it is dropped.
pub proof fn law_instant_is_kept_once(event: EventView, filters: Seq<EventView>)
    requires
        event.duration == 0,
        no_negative_length(filters),
        sorted_by_time(filters),
    ensures
        kept_parts(seq![event], filters, None) == if within(filters, event.timestamp) {
            seq![event]
        } else {
            Seq::empty()
        },
    decreases filters.len(),
{
    let alone = seq![event];
    assert(alone.drop_first() =~= Seq::<EventView>::empty());
    assert(kept_parts(alone.drop_first(), filters, None) =~= Seq::<EventView>::empty());
    if filters.len() > 0 {
        let filter = filters[0];
        let later = filters.drop_first();
        let t = event.timestamp;
        assert(filter.duration >= 0);
        assert forall|i: int| 0 <= i < later.len() implies #[trigger] later[i] == filters[i + 1] by {}
        law_instant_is_kept_once(event, later);
        if filter.timestamp <= t && t <= filter.end() {
            assert(filters[0].timestamp <= t);
            assert(kept_parts(alone, filters, None) =~= seq![event]);
        } else {
            assert(within(filters, t) ==> within(later, t)) by {
                if within(filters, t) {
                    let i = choose|i: int|
                        0 <= i < filters.len() && (#[trigger] filters[i]).timestamp <= t && t
                            <= filters[i].end();
                    assert(later[i - 1] == filters[i]);
                }
            }
            assert(within(later, t) ==> within(filters, t)) by {
                if within(later, t) {
                    let i = choose|i: int|
                        0 <= i < later.len() && (#[trigger] later[i]).timestamp <= t && t
                            <= later[i].end();
                    assert(filters[i + 1] == later[i]);
                }
            }
            if t <= filter.timestamp {
                assert(!within(later, t));
            }
        }
    }
}

proof fn lemma_overlap_sum_from(start: int, from: int, end: int, filters: Seq<EventView>)
    requires
        start <= from,
        forall|i: int| 0 <= i < filters.len() ==> from <= (#[trigger] filters[i]).timestamp,
    ensures
        overlap_sum(from, end, filters) == overlap_sum(start, end, filters),
    decreases filters.len(),
{
    if filters.len() > 0 {
        let later = filters.drop_first();
        assert forall|i: int| 0 <= i < later.len() implies #[trigger] later[i] == filters[i + 1] by {}
        assert(from <= filters[0].timestamp);
        lemma_overlap_sum_from(start, from, end, later);
    }
}

proof fn lemma_overlap_sum_none(start: int, end: int, filters: Seq<EventView>)
    requires
        forall|i: int| 0 <= i < filters.len() ==> end <= (#[trigger] filters[i]).timestamp,
    ensures
        overlap_sum(start, end, filters) == 0,
    decreases filters.len(),
{
    if filters.len() > 0 {
        let later = filters.drop_first();
        assert forall|i: int| 0 <= i < later.len() implies #[trigger] later[i] == filters[i + 1] by {}
        assert(end <= filters[0].timestamp);
        lemma_overlap_sum_none(start, end, later);
    }
}

proof fn lemma_event_total(event: EventView, filters: Seq<EventView>, emitted_until: Option<int>)
    requires
        scanning(seq![event], filters, emitted_until),
        no_overlap(filters),
    ensures
        total_length(kept_parts(seq![event], filters, emitted_until)) == overlap_sum(
            part_start(event, emitted_until),
            event.end(),
            filters,
        ),
    decreases filters.len(),
{
    let alone = seq![event];
    assert(alone[0].duration >= 0);
    assert(alone.drop_first() =~= Seq::<EventView>::empty());
    assert(kept_parts(alone.drop_first(), filters, None) =~= Seq::<EventView>::empty());
    lemma_scanning_step(alone, filters, emitted_until);
    let start = part_start(event, emitted_until);
    let parts = kept_parts(alone, filters, emitted_until);
    if filters.len() > 0 {
        let filter = filters[0];
        let later = filters.drop_first();
        assert(filter.duration >= 0);
        assert forall|i: int| 0 <= i < later.len() implies #[trigger] later[i] == filters[i + 1]
            && filter.end() <= later[i].timestamp by {}
        match interval_intersection(start, event.end(), filter.timestamp, filter.end()) {
            Some((from, to)) => {
                let part = event.spanning(from, to);
                if event.end() <= filter.end() {
                    assert(parts =~= seq![part]);
                    assert(parts.drop_first() =~= Seq::<EventView>::empty());
                    reveal_with_fuel(total_length, 2);
                    lemma_overlap_sum_none(start, event.end(), later);
                } else {
                    let more = kept_parts(alone, later, Some(to));
                    lemma_event_total(event, later, Some(to));
                    assert(parts =~= seq![part] + more);
                    assert(parts.drop_first() =~= more);
                    if to >= event.timestamp {
                        lemma_overlap_sum_from(start, to, event.end(), later);
                    }
                }
            },
            None => {
                if event.end() <= filter.timestamp {
                    assert(parts =~= Seq::<EventView>::empty());
                    lemma_overlap_sum_none(start, event.end(), filters);
                } else {
                    lemma_event_total(event, later, emitted_until);
                }
            },
        }
    }
}

proof fn lemma_total_length_add(a: Seq<EventView>, b: Seq<EventView>)
    ensures
        total_length(a + b) == total_length(a) + total_length(b),
    decreases a.len(),
{
    if a.len() == 0 {
        assert(a + b =~= b);
    } else {
        assert((a + b).drop_first() =~= a.drop_first() + b);
        lemma_total_length_add(a.drop_first(), b);
    }
}

/// Where neither the events nor the filter events overlap among themselves, the parts are
/// together as long as the overlaps of each event with each filter event.
pub proof fn law_total_is_the_total_overlap(events: Seq<EventView>, filters: Seq<EventView>)
    requires
        no_negative_length(events),
        no_negative_length(filters),
        no_overlap(events),
        no_overlap(filters),
    ensures
        total_length(kept_parts(events, filters, None)) == total_overlap(events, filters),
    decreases events.len(),
{
    assert(sorted_by_time(filters)) by {
        assert forall|i: int, j: int| 0 <= i < j < filters.len() implies (
        #[trigger] filters[i]).timestamp <= (#[trigger] filters[j]).timestamp by {
            assert(filters[i].duration >= 0);
        }
    }
    if events.len() > 0 {
        let rest = events.drop_first();
        assert(scanning(seq![events[0]], filters, None)) by {
            assert(events[0].duration >= 0);
        }
        assert forall|i: int| 0 <= i < rest.len() implies #[trigger] rest[i] == events[i + 1] by {}
        lemma_first_event_alone(events, filters, None);
        lemma_event_total(events[0], filters, None);
        law_total_is_the_total_overlap(rest, filters);
        lemma_total_length_add(
            kept_parts(seq![events[0]], filters, None),
            kept_parts(rest, filters, None),
        );
    }
}

/// The intersection of the intervals from `a_start` to `a_end` and from `b_start` to `b_end`.
pub fn intersection(a_start: i128, a_end: i128, b_start: i128, b_end: i128) -> (r: Option<
    (i128, i128),
>)
    ensures
        r is Some <==> interval_intersection(
            a_start as int,
            a_end as int,
            b_start as int,
            b_end as int,
        ) is Some,
        r matches Some((start, end)) ==> interval_intersection(
            a_start as int,
            a_end as int,
            b_start as int,
            b_end as int,
        ) == Some((start as int, end as int)),
{
    if a_start <= b_start && b_end <= a_end {
        Some((b_start, b_end))
    } else if a_start <= b_start && b_start < a_end {
        Some((b_start, a_end))
    } else if a_start < b_end && b_end <= a_end {
        Some((a_start, b_end))
    } else if b_start <= a_start && a_end <= b_end {
        Some((a_start, a_end))
    } else {
        None
    }
}

/// Removes what does not intersect with one of the filter events.
///
/// Usually events that do not know whether the user is there are held against events that do:
/// the events of the window watcher against the "not-afk" events give the time that the user
/// spent in each window.
///
/// ```text
/// events:        [a          ][b   ]
/// filter_events: [     ]  [      ]
/// output:        [a    ]  [a ][b ]
/// ```
pub fn filter_period_intersect(events: Vec<Event>, filter_events: Vec<Event>) -> (result: Vec<Event>)
    requires
        all_valid(views(events@)),
        all_valid(views(filter_events@)),
    ensures
        views(result@) == period_intersection(views(events@), views(filter_events@)),
        all_valid(views(result@)),
{
    proof {
        lemma_sort_valid(EventOrder::Time, views(events@));
        lemma_sort_valid(EventOrder::Time, views(filter_events@));
    }
    let ghost expected = period_intersection(views(events@), views(filter_events@));
    let events = sort_by_timestamp(events);
    let filter_events = sort_by_timestamp(filter_events);
    let ghost sorted = views(events@);
    let ghost filters = views(filter_events@);
    let mut kept: Vec<Event> = Vec::new();
    let mut i: usize = 0;
    let mut j: usize = 0;
    // Start of the part of the current event that has not been emitted yet, so that overlapping
    // filter events do not emit the same time twice.
    let mut emitted_until: Option<i128> = None;
    proof {
        assert(sorted.skip(0) =~= sorted);
        assert(filters.skip(0) =~= filters);
        assert(views(kept@) + expected =~= expected);
    }
    while i < events.len() && j < filter_events.len()
        invariant
            i <= events.len(),
            j <= filter_events.len(),
            sorted == views(events@),
            filters == views(filter_events@),
            all_valid(sorted),
            all_valid(filters),
            all_valid(views(kept@)),
            emitted_until matches Some(t) ==> crate::event::TIME_MIN <= t
                <= crate::event::TIME_MAX,
            views(kept@) + kept_parts(
                sorted.skip(i as int),
                filters.skip(j as int),
                match emitted_until {
                    Some(t) => Some(t as int),
                    None => None,
                },
            ) == expected,
        decreases events.len() - i + filter_events.len() - j,
    {
        let event = &events[i];
        let filter = &filter_events[j];
        assert(sorted[i as int].valid() && filters[j as int].valid());
        let e_start: i128 = match emitted_until {
            Some(t) => if t >= event.timestamp {
                t
            } else {
                event.timestamp
            },
            None => event.timestamp,
        };
        let e_end = event.calculate_endtime();
        let f_start: i128 = filter.timestamp;
        let f_end = filter.calculate_endtime();
        let ghost before = views(kept@);
        proof {
            assert(sorted.skip(i as int)[0] == event@);
            assert(filters.skip(j as int)[0] == filter@);
            assert(sorted.skip(i as int).drop_first() =~= sorted.skip(i + 1));
            assert(filters.skip(j as int).drop_first() =~= filters.skip(j + 1));
        }
        match intersection(e_start, e_end, f_start, f_end) {
            Some((start, end)) => {
                let mut part = event.copy();
                part.timestamp = start;
                part.duration = end - start;
                kept.push(part);
                proof {
                    assert(views(kept@) =~= before.push(event@.spanning(start as int, end as int)));
                }
                if e_end <= f_end {
                    i += 1;
                    emitted_until = None;
                } else {
                    j += 1;
                    emitted_until = Some(end);
                }
                proof {
                    let rest = kept_parts(
                        sorted.skip(i as int),
                        filters.skip(j as int),
                        match emitted_until {
                            Some(t) => Some(t as int),
                            None => None,
                        },
                    );
                    assert(before + (seq![event@.spanning(start as int, end as int)] + rest) =~= views(
                        kept@,
                    ) + rest);
                }
            },
            None => {
                if e_end <= f_start {
                    i += 1;
                    emitted_until = None;
                } else {
                    j += 1;
                }
            },
        }
    }
    proof {
        assert(views(kept@) + Seq::<EventView>::empty() =~= views(kept@));
    }
    kept
}

/// Whether the event at `i` is the first one of the list that covers the instant `t`.
pub open spec fn is_first_at(events: Seq<EventView>, i: int, t: int) -> bool {
    &&& 0 <= i < events.len()
    &&& events[i].covers(t)
    &&& forall|j: int| 0 <= j < i ==> !(#[trigger] events[j]).covers(t)
}

/// An instant that an event covers, before which all events in front of it have ended, is kept of
/// it if a filter event covers it.
proof fn lemma_first_event_is_kept(
    events: Seq<EventView>,
    filters: Seq<EventView>,
    emitted_until: Option<int>,
    i: int,
    f: int,
    t: int,
) -> (k: int)
    requires
        no_negative_length(events),
        no_negative_length(filters),
        sorted_by_time(filters),
        0 <= i < events.len(),
        events[i].covers(t),
        forall|j: int| 0 <= j < i ==> (#[trigger] events[j]).end() <= t,
        i == 0 ==> part_start(events[0], emitted_until) <= t,
        0 <= f < filters.len(),
        filters[f].covers(t),
    ensures
        0 <= k < kept_parts(events, filters, emitted_until).len(),
        kept_parts(events, filters, emitted_until)[k].covers(t),
        kept_parts(events, filters, emitted_until)[k].data == events[i].data,
        kept_parts(events, filters, emitted_until)[k].id == events[i].id,
    decreases events.len() + filters.len(),
{
    let parts = kept_parts(events, filters, emitted_until);
    let event = events[0];
    let filter = filters[0];
    let start = part_start(event, emitted_until);
    let later_events = events.drop_first();
    let later_filters = filters.drop_first();
    assert(event.duration >= 0 && filter.duration >= 0);
    assert forall|j: int| 0 <= j < later_events.len() implies #[trigger] later_events[j] == events[j
        + 1] by {}
    assert forall|j: int| 0 <= j < later_filters.len() implies #[trigger] later_filters[j]
        == filters[j + 1] by {}
    assert(sorted_by_time(later_filters));
    if f > 0 {
        assert(filters[0].timestamp <= filters[f].timestamp);
    }
    match interval_intersection(start, event.end(), filter.timestamp, filter.end()) {
        Some((from, to)) => {
            let part = event.spanning(from, to);
            if i == 0 && filter.covers(t) {
                assert(parts[0] == part);
                0
            } else if event.end() <= filter.end() {
                let rest = kept_parts(later_events, filters, None);
                let k = lemma_first_event_is_kept(later_events, filters, None, i - 1, f, t);
                assert(parts == seq![part] + rest);
                assert(parts[k + 1] == rest[k]);
                k + 1
            } else {
                let rest = kept_parts(events, later_filters, Some(to));
                assert(f > 0);
                let k = lemma_first_event_is_kept(events, later_filters, Some(to), i, f - 1, t);
                assert(parts == seq![part] + rest);
                assert(parts[k + 1] == rest[k]);
                k + 1
            }
        },
        None => if event.end() <= filter.timestamp {
            lemma_first_event_is_kept(later_events, filters, None, i - 1, f, t)
        } else {
            assert(f > 0);
            lemma_first_event_is_kept(events, later_filters, emitted_until, i, f - 1, t)
        },
    }
}

/// Whether events overlap or not, exactly the time is kept that both an event and a filter event
/// cover. An instant is kept with the data and the identity of the first event, in the order of
/// starts, that covers it.
pub proof fn law_shared_time_is_kept(
    events: Seq<EventView>,
    filter_events: Seq<EventView>,
    t: int,
)
    requires
        no_negative_length(events),
        no_negative_length(filter_events),
    ensures
        ({
            let sorted = stable_sort(EventOrder::Time, events);
            let parts = period_intersection(events, filter_events);
            &&& covered(parts, t) <==> covered(events, t) && covered(filter_events, t)
            &&& forall|i: int| #[trigger]
                is_first_at(sorted, i, t) && covered(filter_events, t) ==> exists|k: int|
                    0 <= k < parts.len() && (#[trigger] parts[k]).covers(t) && parts[k].data
                        == sorted[i].data && parts[k].id == sorted[i].id
        }),
{
    let order = EventOrder::Time;
    let sorted = stable_sort(order, events);
    let filters = stable_sort(order, filter_events);
    let parts = period_intersection(events, filter_events);
    lemma_sorted_lengths(events);
    lemma_sorted_lengths(filter_events);
    law_sort_orders_and_keeps(order, events);
    law_sort_orders_and_keeps(order, filter_events);
    assert(sorted_by_time(sorted)) by {
        assert forall|i: int, j: int| 0 <= i < j < sorted.len() implies (#[trigger] sorted[i]).timestamp
            <= (#[trigger] sorted[j]).timestamp by {
            assert(may_precede(order, sorted[i], sorted[j]));
        }
    }
    assert(sorted_by_time(filters)) by {
        assert forall|i: int, j: int|
            0 <= i < j < filters.len() implies (#[trigger] filters[i]).timestamp <= (
        #[trigger] filters[j]).timestamp by {
            assert(may_precede(order, filters[i], filters[j]));
        }
    }
    assert forall|i: int| #[trigger]
        is_first_at(sorted, i, t) && covered(filter_events, t) implies exists|k: int|
        0 <= k < parts.len() && (#[trigger] parts[k]).covers(t) && parts[k].data == sorted[i].data
            && parts[k].id == sorted[i].id by {
        let g = choose|g: int| 0 <= g < filter_events.len() && (#[trigger] filter_events[g]).covers(t);
        lemma_sort_contains_back(order, filter_events, g);
        let f = choose|f: int| 0 <= f < filters.len() && filters[f] == filter_events[g];
        assert forall|j: int| 0 <= j < i implies (#[trigger] sorted[j]).end() <= t by {
            assert(!sorted[j].covers(t));
            assert(sorted[j].timestamp <= sorted[i].timestamp);
        }
        let k = lemma_first_event_is_kept(sorted, filters, None, i, f, t);
        assert(parts[k].covers(t));
    }
    if covered(events, t) && covered(filter_events, t) {
        let e = choose|e: int| 0 <= e < events.len() && (#[trigger] events[e]).covers(t);
        lemma_sort_contains_back(order, events, e);
        let at = choose|at: int| 0 <= at < sorted.len() && sorted[at] == events[e];
        let i = lemma_some_event_is_first(sorted, at, t);
        assert(is_first_at(sorted, i, t));
        let k = choose|k: int|
            0 <= k < parts.len() && (#[trigger] parts[k]).covers(t) && parts[k].data
                == sorted[i].data && parts[k].id == sorted[i].id;
        assert(parts[k].covers(t));
    }
    if covered(parts, t) {
        law_kept_parts_lie_within(events, filter_events);
        let k = choose|k: int| 0 <= k < parts.len() && (#[trigger] parts[k]).covers(t);
        assert(part_of_one(parts[k], events) && inside_one(parts[k], filter_events));
    }
}

proof fn lemma_some_event_is_first(events: Seq<EventView>, at: int, t: int) -> (i: int)
    requires
        0 <= at < events.len(),
        events[at].covers(t),
    ensures
        is_first_at(events, i, t),
    decreases at,
{
    if exists|j: int| 0 <= j < at && (#[trigger] events[j]).covers(t) {
        let j = choose|j: int| 0 <= j < at && (#[trigger] events[j]).covers(t);
        lemma_some_event_is_first(events, j, t)
    } else {
        at
    }
}

/// Two periods that have a length meet where they share some time, and then in all of it. Periods
/// that only touch do not meet.
pub proof fn law_periods_meet_in_what_they_share(
    a_start: int,
    a_end: int,
    b_start: int,
    b_end: int,
    t: int,
)
    requires
        a_start < a_end,
        b_start < b_end,
    ensures
        ({
            let met = interval_intersection(a_start, a_end, b_start, b_end);
            &&& met is Some <==> a_start < b_end && b_start < a_end
            &&& met matches Some((from, to)) ==> (from <= t < to <==> a_start <= t < a_end
                && b_start <= t < b_end)
        }),
{
}

/// Which party comes first makes no difference to where two periods meet.
pub proof fn law_meeting_is_mutual(a_start: int, a_end: int, b_start: int, b_end: int)
    requires
        a_start < a_end,
        b_start < b_end,
    ensures
        interval_intersection(a_start, a_end, b_start, b_end) == interval_intersection(
            b_start,
            b_end,
            a_start,
            a_end,
        ),
{
}

} // verus!
