//! Merging two lists of events, the first of which takes precedence.

use vstd::prelude::*;

use crate::event::Event;
#[allow(unused_imports)]
use crate::event::{all_valid, covered, covered_with, sorted_by_time, views, EventView};
#[allow(unused_imports)]
use crate::json::JsonView;

verus! {

/// Whether the event has no length and lies before `t`.
pub open spec fn point_before(event: EventView, t: int) -> bool {
    event.duration == 0 && event.timestamp < t
}

/// How many events at the front of the list are points before `t`.
pub open spec fn leading_points(events: Seq<EventView>, t: int) -> nat
    decreases events.len(),
{
    if events.len() > 0 && point_before(events[0], t) {
        1 + leading_points(events.drop_first(), t)
    } else {
        0
    }
}

/// A part of an event: a new event, which is not stored yet.
pub open spec fn piece(event: EventView, start: int, end: int) -> EventView {
    EventView { id: None, ..event.spanning(start, end) }
}

/// What one step of the union emits, and what it leaves of the two lists.
pub struct UnionStep {
    pub emitted: Seq<EventView>,
    pub events1: Seq<EventView>,
    pub events2: Seq<EventView>,
}

/// One step of the union of two lists, both of which hold an event.
pub open spec fn union_step(events1: Seq<EventView>, events2: Seq<EventView>) -> UnionStep {
    let e1 = events1[0];
    let e2 = events2[0];
    let rest1 = events1.drop_first();
    let rest2 = events2.drop_first();
    if e2.timestamp < e1.timestamp {
        if e1.timestamp < e2.end() {
            let points = leading_points(rest2, e1.timestamp) as int;
            UnionStep {
                emitted: seq![piece(e2, e2.timestamp, e1.timestamp)] + rest2.take(points),
                events1,
                events2: seq![piece(e2, e1.timestamp, e2.end())] + rest2.skip(points),
            }
        } else {
            UnionStep { emitted: seq![e2], events1, events2: rest2 }
        }
    } else if e2.timestamp < e1.end() {
        if e2.end() <= e1.end() {
            UnionStep { emitted: Seq::empty(), events1, events2: rest2 }
        } else {
            let points = leading_points(rest2, e1.end()) as int;
            UnionStep {
                emitted: seq![e1],
                events1: rest1,
                events2: seq![piece(e2, e1.end(), e2.end())] + rest2.skip(points),
            }
        }
    } else {
        UnionStep { emitted: seq![e1], events1: rest1, events2 }
    }
}

/// Whether the second list starts before the first.
pub open spec fn second_starts_first(events1: Seq<EventView>, events2: Seq<EventView>) -> bool {
    events1.len() > 0 && events2.len() > 0 && events2[0].timestamp < events1[0].timestamp
}

/// The union of two lists of events. Of the second, only what the first leaves free is kept.
pub open spec fn union(events1: Seq<EventView>, events2: Seq<EventView>) -> Seq<EventView>
    decreases
            events1.len() + events2.len(),
            (if second_starts_first(events1, events2) {
                1int
            } else {
                0int
            }),
{
    if events1.len() == 0 || events2.len() == 0 {
        events1 + events2
    } else {
        proof {
            lemma_leading_points(events2.drop_first(), events1[0].timestamp);
            lemma_leading_points(events2.drop_first(), events1[0].end());
        }
        let step = union_step(events1, events2);
        step.emitted + union(step.events1, step.events2)
    }
}

/// The count of leading points counts points, as many as there are.
pub proof fn lemma_leading_points(events: Seq<EventView>, t: int)
    ensures
        leading_points(events, t) <= events.len(),
        forall|i: int|
            0 <= i < leading_points(events, t) ==> point_before(#[trigger] events[i], t),
        leading_points(events, t) < events.len() ==> !point_before(
            events[leading_points(events, t) as int],
            t,
        ),
    decreases events.len(),
{
    if events.len() > 0 && point_before(events[0], t) {
        let rest = events.drop_first();
        lemma_leading_points(rest, t);
        assert forall|i: int| 0 <= i < leading_points(events, t) implies point_before(
            #[trigger] events[i],
            t,
        ) by {
            if i > 0 {
                assert(rest[i - 1] == events[i]);
            }
        }
    }
}

/// The list is in the order of the starts, no event in it has a negative length, and those
/// with a length do not overlap. Points may lie inside other events.
pub open spec fn orderly(events: Seq<EventView>) -> bool {
    &&& sorted_by_time(events)
    &&& forall|i: int| 0 <= i < events.len() ==> (#[trigger] events[i]).duration >= 0
    &&& lengths_apart(events)
}

/// The events with a length do not overlap.
pub open spec fn lengths_apart(events: Seq<EventView>) -> bool {
    forall|i: int, j: int|
        0 <= i < j < events.len() && events[i].duration > 0 && events[j].duration > 0 ==> (
        #[trigger] events[i]).end() <= (#[trigger] events[j]).timestamp
}

/// Whether the instant `t` belongs to the union, with the data `data`.
pub open spec fn in_union(
    events1: Seq<EventView>,
    events2: Seq<EventView>,
    t: int,
    data: Map<Seq<char>, JsonView>,
) -> bool {
    covered_with(events1, t, data) || (!covered(events1, t) && covered_with(events2, t, data))
}

/// How often the event occurs in the list.
pub open spec fn occurrences(events: Seq<EventView>, event: EventView) -> nat
    decreases events.len(),
{
    if events.len() == 0 {
        0
    } else {
        (if events[0] == event {
            1nat
        } else {
            0nat
        }) + occurrences(events.drop_first(), event)
    }
}

/// How often the point belongs to the union: as often as in the first list, and as often as
/// in the second, unless the first covers it.
pub open spec fn point_occurrences(
    events1: Seq<EventView>,
    events2: Seq<EventView>,
    point: EventView,
) -> nat {
    occurrences(events1, point) + if covered(events1, point.timestamp) {
        0
    } else {
        occurrences(events2, point)
    }
}

/// Whether `part` occurs in `whole`, in order, with nothing changed.
pub open spec fn is_subsequence(part: Seq<EventView>, whole: Seq<EventView>) -> bool
    decreases whole.len(),
{
    if part.len() == 0 {
        true
    } else if whole.len() == 0 {
        false
    } else {
        (part[0] == whole[0] && is_subsequence(part.drop_first(), whole.drop_first()))
            || is_subsequence(part, whole.drop_first())
    }
}

proof fn lemma_covered_cons(
    first: EventView,
    rest: Seq<EventView>,
    t: int,
    data: Map<Seq<char>, JsonView>,
)
    ensures
        covered_with(seq![first] + rest, t, data) == ((first.covers(t) && first.data == data)
            || covered_with(rest, t, data)),
        covered(seq![first] + rest, t) == (first.covers(t) || covered(rest, t)),
{
    let all = seq![first] + rest;
    assert(all[0] == first);
    assert forall|i: int| 0 <= i < rest.len() implies #[trigger] rest[i] == all[i + 1] by {}
    assert forall|i: int| 1 <= i < all.len() implies #[trigger] all[i] == rest[i - 1] by {}
}

proof fn lemma_covered_add(
    a: Seq<EventView>,
    b: Seq<EventView>,
    t: int,
    data: Map<Seq<char>, JsonView>,
)
    ensures
        covered_with(a + b, t, data) == (covered_with(a, t, data) || covered_with(b, t, data)),
{
    let all = a + b;
    assert forall|i: int| 0 <= i < a.len() implies #[trigger] a[i] == all[i] by {}
    assert forall|i: int| 0 <= i < b.len() implies #[trigger] b[i] == all[i + a.len()] by {}
    if covered_with(all, t, data) {
        let i = choose|i: int|
            0 <= i < all.len() && (#[trigger] all[i]).covers(t) && all[i].data == data;
        if i >= a.len() {
            assert(b[i - a.len()] == all[i]);
        }
    }
}

/// Points cover no time.
proof fn lemma_points_cover_nothing(
    events: Seq<EventView>,
    limit: int,
    t: int,
    data: Map<Seq<char>, JsonView>,
)
    ensures
        covered_with(events.take(leading_points(events, limit) as int), t, data) == false,
        covered_with(events.skip(leading_points(events, limit) as int), t, data) == covered_with(
            events,
            t,
            data,
        ),
{
    lemma_leading_points(events, limit);
    let n = leading_points(events, limit) as int;
    let before = events.take(n);
    let after = events.skip(n);
    assert(events =~= before + after);
    lemma_covered_add(before, after, t, data);
    assert forall|i: int| 0 <= i < before.len() implies !(#[trigger] before[i]).covers(t) by {
        assert(point_before(events[i], limit));
    }
}

proof fn lemma_orderly_rest(events: Seq<EventView>)
    requires
        orderly(events),
        events.len() > 0,
    ensures
        orderly(events.drop_first()),
        forall|i: int|
            0 <= i < events.drop_first().len() ==> {
                &&& events[0].timestamp <= (#[trigger] events.drop_first()[i]).timestamp
                &&& events[0].duration > 0 && events.drop_first()[i].duration > 0
                    ==> events[0].end() <= events.drop_first()[i].timestamp
            },
{
    let rest = events.drop_first();
    assert forall|i: int| 0 <= i < rest.len() implies #[trigger] rest[i] == events[i + 1] by {}
}

/// The rest of an event and what follows it, once the points before its new start are gone.
proof fn lemma_orderly_remainder(events: Seq<EventView>, start: int)
    requires
        orderly(events),
        events.len() > 0,
        events[0].timestamp <= start < events[0].end(),
    ensures
        ({
            let rest = events.drop_first();
            let kept = rest.skip(leading_points(rest, start) as int);
            let all = seq![piece(events[0], start, events[0].end())] + kept;
            &&& orderly(all)
            &&& forall|i: int| 0 <= i < all.len() ==> start <= (#[trigger] all[i]).timestamp
        }),
{
    let e = events[0];
    let rest = events.drop_first();
    let n = leading_points(rest, start) as int;
    let kept = rest.skip(n);
    let first = piece(e, start, e.end());
    let all = seq![first] + kept;
    lemma_orderly_rest(events);
    lemma_leading_points(rest, start);
    assert forall|i: int| 0 <= i < kept.len() implies #[trigger] kept[i] == rest[i + n] by {}
    assert forall|i: int| 0 <= i < kept.len() implies start <= (#[trigger] kept[i]).timestamp by {
        assert(rest[n].timestamp >= start) by {
            assert(rest[n].duration >= 0);
            assert(!point_before(rest[n], start));
        }
        assert(rest[n].timestamp <= rest[i + n].timestamp);
    }
    assert forall|i: int| 1 <= i < all.len() implies #[trigger] all[i] == kept[i - 1] by {}
    assert(all[0] == first);
    assert forall|i: int, j: int| 0 <= i < j < all.len() implies (#[trigger] all[i]).timestamp <= (
    #[trigger] all[j]).timestamp by {}
    assert forall|i: int, j: int|
        0 <= i < j < all.len() && all[i].duration > 0 && all[j].duration > 0 implies (
    #[trigger] all[i]).end() <= (#[trigger] all[j]).timestamp by {
        if i == 0 {
            assert(all[j] == rest[j - 1 + n]);
            assert(e.end() <= rest[j - 1 + n].timestamp);
        } else {
            assert(rest[i - 1 + n].end() <= rest[j - 1 + n].timestamp);
        }
    }
}

/// What one step keeps: the order, and that lengths do not overlap.
#[verifier::rlimit(30)]
proof fn lemma_step_order(events1: Seq<EventView>, events2: Seq<EventView>)
    requires
        orderly(events1),
        orderly(events2),
        events1.len() > 0,
        events2.len() > 0,
    ensures
        ({
            let step = union_step(events1, events2);
            &&& orderly(step.events1)
            &&& orderly(step.events2)
            &&& sorted_by_time(step.emitted)
            &&& lengths_apart(step.emitted)
            &&& forall|i: int, j: int|
                0 <= i < step.emitted.len() && 0 <= j < step.events1.len() ==> {
                    &&& (#[trigger] step.emitted[i]).timestamp <= (
                    #[trigger] step.events1[j]).timestamp
                    &&& step.emitted[i].duration > 0 && step.events1[j].duration > 0
                        ==> step.emitted[i].end() <= step.events1[j].timestamp
                }
            &&& forall|i: int, j: int|
                0 <= i < step.emitted.len() && 0 <= j < step.events2.len() ==> {
                    &&& (#[trigger] step.emitted[i]).timestamp <= (
                    #[trigger] step.events2[j]).timestamp
                    &&& step.emitted[i].duration > 0 && step.events2[j].duration > 0
                        ==> step.emitted[i].end() <= step.events2[j].timestamp
                }
        }),
{
    let e1 = events1[0];
    let e2 = events2[0];
    let rest1 = events1.drop_first();
    let rest2 = events2.drop_first();
    lemma_orderly_rest(events1);
    lemma_orderly_rest(events2);
    assert forall|j: int| 0 <= j < events1.len() implies e1.timestamp <= (
    #[trigger] events1[j]).timestamp by {
        if j > 0 {
            assert(rest1[j - 1] == events1[j]);
        }
    }
    assert forall|j: int| 0 <= j < events2.len() implies e2.timestamp <= (
    #[trigger] events2[j]).timestamp by {
        if j > 0 {
            assert(rest2[j - 1] == events2[j]);
        }
    }
    assert(e1.duration >= 0 && e2.duration >= 0);
    if e2.timestamp < e1.timestamp && e1.timestamp < e2.end() {
        let n = leading_points(rest2, e1.timestamp) as int;
        lemma_leading_points(rest2, e1.timestamp);
        lemma_orderly_remainder(events2, e1.timestamp);
        let emitted = seq![piece(e2, e2.timestamp, e1.timestamp)] + rest2.take(n);
        assert(emitted[0] == piece(e2, e2.timestamp, e1.timestamp));
        assert forall|i: int| 1 <= i < emitted.len() implies #[trigger] emitted[i] == rest2[i - 1]
            && point_before(rest2[i - 1], e1.timestamp) by {}
    } else if e1.timestamp <= e2.timestamp < e1.end() && e1.end() < e2.end() {
        lemma_orderly_remainder(events2, e1.end());
    }
}

/// One step keeps which instant belongs to the union, and with which data.
#[verifier::rlimit(30)]
proof fn lemma_step_cover(
    events1: Seq<EventView>,
    events2: Seq<EventView>,
    t: int,
    data: Map<Seq<char>, JsonView>,
)
    requires
        orderly(events1),
        orderly(events2),
        events1.len() > 0,
        events2.len() > 0,
    ensures
        ({
            let step = union_step(events1, events2);
            in_union(events1, events2, t, data) <==> covered_with(step.emitted, t, data)
                || in_union(step.events1, step.events2, t, data)
        }),
{
    let e1 = events1[0];
    let e2 = events2[0];
    let rest1 = events1.drop_first();
    let rest2 = events2.drop_first();
    lemma_orderly_rest(events1);
    lemma_orderly_rest(events2);
    assert(e1.duration >= 0 && e2.duration >= 0);
    assert(events1 =~= seq![e1] + rest1);
    assert(events2 =~= seq![e2] + rest2);
    lemma_covered_cons(e1, rest1, t, data);
    lemma_covered_cons(e2, rest2, t, data);
    lemma_covered_cons(e1, Seq::empty(), t, data);
    lemma_covered_cons(e2, Seq::empty(), t, data);
    assert(seq![e1] + Seq::<EventView>::empty() =~= seq![e1]);
    assert(seq![e2] + Seq::<EventView>::empty() =~= seq![e2]);
    assert(t < e1.timestamp ==> !covered(events1, t)) by {
        if covered(events1, t) {
            let i = choose|i: int| 0 <= i < events1.len() && (#[trigger] events1[i]).covers(t);
            if i > 0 {
                assert(rest1[i - 1] == events1[i]);
            }
        }
    }
    assert(e1.covers(t) ==> !covered(rest1, t));
    assert(e2.covers(t) || t < e2.timestamp ==> !covered_with(rest2, t, data));
    assert(e1.covers(t) && covered_with(events1, t, data) ==> e1.data == data);
    if e2.timestamp < e1.timestamp && e1.timestamp < e2.end() {
        lemma_points_cover_nothing(rest2, e1.timestamp, t, data);
        let n = leading_points(rest2, e1.timestamp) as int;
        let first = piece(e2, e2.timestamp, e1.timestamp);
        let remainder = piece(e2, e1.timestamp, e2.end());
        lemma_covered_cons(first, rest2.take(n), t, data);
        lemma_covered_cons(remainder, rest2.skip(n), t, data);
    } else if e1.timestamp <= e2.timestamp < e1.end() && e1.end() < e2.end() {
        lemma_points_cover_nothing(rest2, e1.end(), t, data);
        let n = leading_points(rest2, e1.end()) as int;
        let remainder = piece(e2, e1.end(), e2.end());
        lemma_covered_cons(remainder, rest2.skip(n), t, data);
    }
}

proof fn lemma_occurrences_add(a: Seq<EventView>, b: Seq<EventView>, event: EventView)
    ensures
        occurrences(a + b, event) == occurrences(a, event) + occurrences(b, event),
    decreases a.len(),
{
    if a.len() == 0 {
        assert(a + b =~= b);
    } else {
        assert((a + b).drop_first() =~= a.drop_first() + b);
        lemma_occurrences_add(a.drop_first(), b, event);
    }
}

proof fn lemma_occurs(events: Seq<EventView>, event: EventView)
    ensures
        occurrences(events, event) > 0 <==> exists|i: int|
            0 <= i < events.len() && #[trigger] events[i] == event,
    decreases events.len(),
{
    if events.len() > 0 {
        let rest = events.drop_first();
        lemma_occurs(rest, event);
        assert forall|i: int| 0 <= i < rest.len() implies #[trigger] rest[i] == events[i + 1] by {}
        assert forall|i: int| 1 <= i < events.len() implies #[trigger] events[i] == rest[i - 1] by {}
    }
}

proof fn lemma_occurrences_cons(first: EventView, rest: Seq<EventView>, event: EventView)
    ensures
        occurrences(seq![first] + rest, event) == occurrences(rest, event) + if first == event {
            1nat
        } else {
            0nat
        },
{
    assert((seq![first] + rest).drop_first() =~= rest);
}

/// Nothing of an orderly list covers an instant before its first event.
proof fn lemma_nothing_before(events: Seq<EventView>, t: int)
    requires
        orderly(events),
        events.len() > 0,
        t < events[0].timestamp,
    ensures
        !covered(events, t),
        forall|e: EventView| e.timestamp == t ==> #[trigger] occurrences(events, e) == 0,
{
    lemma_orderly_rest(events);
    let rest = events.drop_first();
    assert forall|i: int| 0 <= i < events.len() implies t < (#[trigger] events[i]).timestamp by {
        if i > 0 {
            assert(rest[i - 1] == events[i]);
        }
    }
    assert forall|e: EventView| e.timestamp == t implies #[trigger] occurrences(events, e) == 0 by {
        lemma_occurs(events, e);
    }
}

/// How often a point occurs among the leading points of a list, and among the rest.
proof fn lemma_point_occurrences_split(events: Seq<EventView>, limit: int, point: EventView)
    requires
        orderly(events),
    ensures
        ({
            let n = leading_points(events, limit) as int;
            let before = events.take(n);
            let after = events.skip(n);
            &&& occurrences(events, point) == occurrences(before, point) + occurrences(after, point)
            &&& occurrences(before, point) > 0 ==> point.timestamp < limit && occurrences(
                events,
                point,
            ) > 0
        }),
{
    let n = leading_points(events, limit) as int;
    let before = events.take(n);
    let after = events.skip(n);
    lemma_leading_points(events, limit);
    assert(events =~= before + after);
    lemma_occurrences_add(before, after, point);
    lemma_occurs(before, point);
    if occurrences(before, point) > 0 {
        let i = choose|i: int| 0 <= i < before.len() && #[trigger] before[i] == point;
        assert(point_before(events[i], limit));
    }
}

/// One step keeps how often a point belongs to the union, where the second list starts first.
proof fn lemma_step_points_before(
    events1: Seq<EventView>,
    events2: Seq<EventView>,
    point: EventView,
)
    requires
        orderly(events1),
        orderly(events2),
        events1.len() > 0,
        events2.len() > 0,
        point.duration == 0,
        events2[0].timestamp < events1[0].timestamp,
    ensures
        ({
            let step = union_step(events1, events2);
            point_occurrences(events1, events2, point) == occurrences(step.emitted, point)
                + point_occurrences(step.events1, step.events2, point)
        }),
{
    let e1 = events1[0];
    let e2 = events2[0];
    let rest2 = events2.drop_first();
    let none = Seq::<EventView>::empty();
    lemma_orderly_rest(events2);
    assert(events2 =~= seq![e2] + rest2);
    lemma_occurrences_cons(e2, rest2, point);
    if point.timestamp < e1.timestamp {
        lemma_nothing_before(events1, point.timestamp);
    }
    if e1.timestamp < e2.end() {
        let n = leading_points(rest2, e1.timestamp) as int;
        lemma_point_occurrences_split(rest2, e1.timestamp, point);
        lemma_occurrences_cons(
            piece(e2, e2.timestamp, e1.timestamp),
            rest2.take(n),
            point,
        );
        lemma_occurrences_cons(piece(e2, e1.timestamp, e2.end()), rest2.skip(n), point);
    } else {
        lemma_occurrences_cons(e2, none, point);
        assert(seq![e2] + none =~= seq![e2]);
    }
}

/// One step keeps how often a point belongs to the union, where the first event of the first
/// list covers the start of the second and ends before it.
proof fn lemma_step_points_cut(events1: Seq<EventView>, events2: Seq<EventView>, point: EventView)
    requires
        orderly(events1),
        orderly(events2),
        events1.len() > 0,
        events2.len() > 0,
        point.duration == 0,
        events1[0].timestamp <= events2[0].timestamp < events1[0].end(),
        events1[0].end() < events2[0].end(),
    ensures
        ({
            let step = union_step(events1, events2);
            point_occurrences(events1, events2, point) == occurrences(step.emitted, point)
                + point_occurrences(step.events1, step.events2, point)
        }),
{
    let e1 = events1[0];
    let e2 = events2[0];
    let rest1 = events1.drop_first();
    let rest2 = events2.drop_first();
    let none = Seq::<EventView>::empty();
    let t = point.timestamp;
    lemma_orderly_rest(events1);
    lemma_orderly_rest(events2);
    assert(events1 =~= seq![e1] + rest1);
    assert(events2 =~= seq![e2] + rest2);
    assert(seq![e1] + none =~= seq![e1]);
    lemma_occurrences_cons(e1, rest1, point);
    lemma_occurrences_cons(e1, none, point);
    lemma_occurrences_cons(e2, rest2, point);
    lemma_covered_cons(e1, rest1, t, point.data);
    let n = leading_points(rest2, e1.end()) as int;
    let after = rest2.skip(n);
    let remainder = piece(e2, e1.end(), e2.end());
    lemma_point_occurrences_split(rest2, e1.end(), point);
    lemma_occurrences_cons(remainder, after, point);
    lemma_orderly_remainder(events2, e1.end());
    let all = seq![remainder] + after;
    if t < e1.end() {
        lemma_nothing_before(all, t);
    }
    if t < e2.timestamp {
        lemma_nothing_before(events2, t);
    }
}

/// One step keeps how often a point belongs to the union.
proof fn lemma_step_points(events1: Seq<EventView>, events2: Seq<EventView>, point: EventView)
    requires
        orderly(events1),
        orderly(events2),
        events1.len() > 0,
        events2.len() > 0,
        point.duration == 0,
    ensures
        ({
            let step = union_step(events1, events2);
            point_occurrences(events1, events2, point) == occurrences(step.emitted, point)
                + point_occurrences(step.events1, step.events2, point)
        }),
{
    let e1 = events1[0];
    let e2 = events2[0];
    let rest1 = events1.drop_first();
    let rest2 = events2.drop_first();
    let none = Seq::<EventView>::empty();
    let t = point.timestamp;
    if e2.timestamp < e1.timestamp {
        lemma_step_points_before(events1, events2, point);
    } else if e2.timestamp < e1.end() {
        if e2.end() <= e1.end() {
            assert(events2 =~= seq![e2] + rest2);
            lemma_occurrences_cons(e2, rest2, point);
            if e2 == point {
                assert(events1[0].covers(t));
            }
        } else {
            lemma_step_points_cut(events1, events2, point);
        }
    } else {
        assert(events1 =~= seq![e1] + rest1);
        assert(seq![e1] + none =~= seq![e1]);
        lemma_occurrences_cons(e1, rest1, point);
        lemma_occurrences_cons(e1, none, point);
        lemma_covered_cons(e1, rest1, t, point.data);
        if t < e2.timestamp {
            lemma_nothing_before(events2, t);
        }
    }
}

proof fn lemma_subsequence_prefix(
    part: Seq<EventView>,
    prefix: Seq<EventView>,
    whole: Seq<EventView>,
)
    requires
        is_subsequence(part, whole),
    ensures
        is_subsequence(part, prefix + whole),
    decreases prefix.len(),
{
    if prefix.len() == 0 {
        assert(prefix + whole =~= whole);
    } else {
        lemma_subsequence_prefix(part, prefix.drop_first(), whole);
        assert((prefix + whole).drop_first() =~= prefix.drop_first() + whole);
    }
}

proof fn lemma_subsequence_of_longer(part: Seq<EventView>, more: Seq<EventView>)
    ensures
        is_subsequence(part, part + more),
    decreases part.len(),
{
    if part.len() > 0 {
        lemma_subsequence_of_longer(part.drop_first(), more);
        assert((part + more).drop_first() =~= part.drop_first() + more);
    }
}

/// Every event of the first list survives unchanged, in the order of the list.
pub proof fn law_first_list_survives(events1: Seq<EventView>, events2: Seq<EventView>)
    ensures
        is_subsequence(events1, union(events1, events2)),
    decreases
            events1.len() + events2.len(),
            (if second_starts_first(events1, events2) {
                1int
            } else {
                0int
            }),
{
    if events1.len() == 0 || events2.len() == 0 {
        lemma_subsequence_of_longer(events1, events2);
    } else {
        lemma_leading_points(events2.drop_first(), events1[0].timestamp);
        lemma_leading_points(events2.drop_first(), events1[0].end());
        let step = union_step(events1, events2);
        let rest = union(step.events1, step.events2);
        law_first_list_survives(step.events1, step.events2);
        if step.events1 == events1 {
            lemma_subsequence_prefix(events1, step.emitted, rest);
        } else {
            assert(step.emitted =~= seq![events1[0]]);
            assert((step.emitted + rest).drop_first() =~= rest);
        }
    }
}

/// What starts no earlier than each event of a list, and does not overlap it, still does so
/// after the union.
proof fn lemma_union_after(events1: Seq<EventView>, events2: Seq<EventView>, before: EventView)
    requires
        orderly(events1),
        orderly(events2),
        forall|j: int|
            0 <= j < events1.len() ==> {
                &&& before.timestamp <= (#[trigger] events1[j]).timestamp
                &&& before.duration > 0 && events1[j].duration > 0 ==> before.end()
                    <= events1[j].timestamp
            },
        forall|j: int|
            0 <= j < events2.len() ==> {
                &&& before.timestamp <= (#[trigger] events2[j]).timestamp
                &&& before.duration > 0 && events2[j].duration > 0 ==> before.end()
                    <= events2[j].timestamp
            },
    ensures
        forall|j: int|
            0 <= j < union(events1, events2).len() ==> {
                &&& before.timestamp <= (#[trigger] union(events1, events2)[j]).timestamp
                &&& before.duration > 0 && union(events1, events2)[j].duration > 0 ==> before.end()
                    <= union(events1, events2)[j].timestamp
            },
    decreases
            events1.len() + events2.len(),
            (if second_starts_first(events1, events2) {
                1int
            } else {
                0int
            }),
{
    if events1.len() > 0 && events2.len() > 0 {
        let rest1 = events1.drop_first();
        let rest2 = events2.drop_first();
        let step = union_step(events1, events2);
        lemma_leading_points(rest2, events1[0].timestamp);
        lemma_leading_points(rest2, events1[0].end());
        lemma_step_order(events1, events2);
        assert forall|j: int| 0 <= j < rest1.len() implies #[trigger] rest1[j] == events1[j + 1] by {}
        assert forall|j: int| 0 <= j < rest2.len() implies #[trigger] rest2[j] == events2[j + 1] by {}
        assert forall|j: int| 0 <= j < step.events1.len() implies {
            &&& before.timestamp <= (#[trigger] step.events1[j]).timestamp
            &&& before.duration > 0 && step.events1[j].duration > 0 ==> before.end()
                <= step.events1[j].timestamp
        } by {}
        assert forall|j: int| 0 <= j < step.events2.len() implies {
            &&& before.timestamp <= (#[trigger] step.events2[j]).timestamp
            &&& before.duration > 0 && step.events2[j].duration > 0 ==> before.end()
                <= step.events2[j].timestamp
        } by {}
        assert forall|j: int| 0 <= j < step.emitted.len() implies {
            &&& before.timestamp <= (#[trigger] step.emitted[j]).timestamp
            &&& before.duration > 0 && step.emitted[j].duration > 0 ==> before.end()
                <= step.emitted[j].timestamp
        } by {}
        lemma_union_after(step.events1, step.events2, before);
    }
}

/// The union of two orderly lists is orderly: it is in the order of the starts, and no two
/// events with a length overlap in it.
pub proof fn law_union_is_sorted_and_free_of_overlap(
    events1: Seq<EventView>,
    events2: Seq<EventView>,
)
    requires
        orderly(events1),
        orderly(events2),
    ensures
        orderly(union(events1, events2)),
    decreases
            events1.len() + events2.len(),
            (if second_starts_first(events1, events2) {
                1int
            } else {
                0int
            }),
{
    if events1.len() == 0 || events2.len() == 0 {
        assert(union(events1, events2) =~= events1 || union(events1, events2) =~= events2);
    } else {
        lemma_leading_points(events2.drop_first(), events1[0].timestamp);
        lemma_leading_points(events2.drop_first(), events1[0].end());
        let step = union_step(events1, events2);
        let rest = union(step.events1, step.events2);
        let all = step.emitted + rest;
        lemma_step_order(events1, events2);
        law_union_is_sorted_and_free_of_overlap(step.events1, step.events2);
        assert forall|i: int, j: int| 0 <= i < j < all.len() implies (
        #[trigger] all[i]).timestamp <= (#[trigger] all[j]).timestamp && (all[i].duration > 0
            && all[j].duration > 0 ==> all[i].end() <= all[j].timestamp) by {
            if i < step.emitted.len() && j >= step.emitted.len() {
                assert(all[i] == step.emitted[i]);
                lemma_union_after(step.events1, step.events2, step.emitted[i]);
                assert(all[j] == rest[j - step.emitted.len()]);
            } else if j < step.emitted.len() {
                assert(all[i] == step.emitted[i] && all[j] == step.emitted[j]);
            } else {
                assert(all[i] == rest[i - step.emitted.len()]);
                assert(all[j] == rest[j - step.emitted.len()]);
            }
        }
        assert forall|i: int| 0 <= i < all.len() implies (#[trigger] all[i]).duration >= 0 by {
            if i < step.emitted.len() {
                assert(all[i] == step.emitted[i]);
                assert(events1[0].duration >= 0 && events2[0].duration >= 0);
            } else {
                assert(all[i] == rest[i - step.emitted.len()]);
            }
        }
    }
}

/// The union of two orderly lists covers what the first one covers, and of the rest what the
/// second one covers, with the data of the event that covers it there.
pub proof fn law_union_covers_both_with_precedence(
    events1: Seq<EventView>,
    events2: Seq<EventView>,
    t: int,
    data: Map<Seq<char>, JsonView>,
)
    requires
        orderly(events1),
        orderly(events2),
    ensures
        covered_with(union(events1, events2), t, data) <==> covered_with(events1, t, data) || (
        !covered(events1, t) && covered_with(events2, t, data)),
    decreases
            events1.len() + events2.len(),
            (if second_starts_first(events1, events2) {
                1int
            } else {
                0int
            }),
{
    if events1.len() == 0 || events2.len() == 0 {
        lemma_covered_add(events1, events2, t, data);
    } else {
        lemma_leading_points(events2.drop_first(), events1[0].timestamp);
        lemma_leading_points(events2.drop_first(), events1[0].end());
        let step = union_step(events1, events2);
        lemma_step_order(events1, events2);
        lemma_step_cover(events1, events2, t, data);
        law_union_covers_both_with_precedence(step.events1, step.events2, t, data);
        lemma_covered_add(step.emitted, union(step.events1, step.events2), t, data);
    }
}

proof fn lemma_covered_with(events: Seq<EventView>, t: int, data: Map<Seq<char>, JsonView>)
    requires
        covered_with(events, t, data),
    ensures
        covered(events, t),
{
}

/// The union covers an instant if one of the two lists does.
proof fn lemma_union_covers_both(events1: Seq<EventView>, events2: Seq<EventView>, t: int)
    requires
        orderly(events1),
        orderly(events2),
    ensures
        covered(union(events1, events2), t) <==> covered(events1, t) || covered(events2, t),
{
    let all = union(events1, events2);
    if covered(all, t) {
        let i = choose|i: int| 0 <= i < all.len() && (#[trigger] all[i]).covers(t);
        law_union_covers_both_with_precedence(events1, events2, t, all[i].data);
    }
    if covered(events1, t) {
        let i = choose|i: int| 0 <= i < events1.len() && (#[trigger] events1[i]).covers(t);
        law_union_covers_both_with_precedence(events1, events2, t, events1[i].data);
    } else if covered(events2, t) {
        let i = choose|i: int| 0 <= i < events2.len() && (#[trigger] events2[i]).covers(t);
        law_union_covers_both_with_precedence(events1, events2, t, events2[i].data);
    }
}

/// A point occurs in the union of two orderly lists as often as in the first list, and, unless
/// an event of the first covers it, as often again as in the second. A point at the end of an
/// event is not covered by it.
pub proof fn law_points_yield_to_the_first_list(
    events1: Seq<EventView>,
    events2: Seq<EventView>,
    point: EventView,
)
    requires
        orderly(events1),
        orderly(events2),
        point.duration == 0,
    ensures
        occurrences(union(events1, events2), point) == point_occurrences(events1, events2, point),
    decreases
            events1.len() + events2.len(),
            (if second_starts_first(events1, events2) {
                1int
            } else {
                0int
            }),
{
    if events1.len() == 0 || events2.len() == 0 {
        lemma_occurrences_add(events1, events2, point);
    } else {
        lemma_leading_points(events2.drop_first(), events1[0].timestamp);
        lemma_leading_points(events2.drop_first(), events1[0].end());
        let step = union_step(events1, events2);
        lemma_step_order(events1, events2);
        lemma_step_points(events1, events2, point);
        law_points_yield_to_the_first_list(step.events1, step.events2, point);
        lemma_occurrences_add(step.emitted, union(step.events1, step.events2), point);
    }
}

/// The union of many lists, each of which yields to those before it.
pub open spec fn chained_union(lists: Seq<Seq<EventView>>) -> Seq<EventView>
    decreases lists.len(),
{
    if lists.len() == 0 {
        Seq::empty()
    } else {
        union(chained_union(lists.drop_last()), lists.last())
    }
}

/// Whether the first of the lists that cover the instant `t` covers it with the data `data`.
pub open spec fn first_covers_with(
    lists: Seq<Seq<EventView>>,
    t: int,
    data: Map<Seq<char>, JsonView>,
) -> bool {
    exists|k: int|
        0 <= k < lists.len() && covered_with(#[trigger] lists[k], t, data) && forall|i: int|
            0 <= i < k ==> !covered(#[trigger] lists[i], t)
}

/// Whether a list covers all of an event: every instant of one with a length, and the instant
/// of a point.
pub open spec fn covers_all_of(events: Seq<EventView>, event: EventView) -> bool {
    forall|t: int|
        (event.covers(t) || t == event.timestamp) ==> #[trigger] covered(events, t)
}

/// Whether a list covers all of the events of another.
pub open spec fn covers_all(events1: Seq<EventView>, events2: Seq<EventView>) -> bool {
    forall|i: int| 0 <= i < events2.len() ==> covers_all_of(events1, #[trigger] events2[i])
}

/// What starts when the first event of a list is over, the rest of the list covers.
proof fn lemma_rest_covers(events: Seq<EventView>, event: EventView)
    requires
        events.len() > 0,
        covers_all_of(events, event),
        events[0].end() <= event.timestamp,
    ensures
        covers_all_of(events.drop_first(), event),
{
    let rest = events.drop_first();
    assert forall|t: int| (event.covers(t) || t == event.timestamp) implies #[trigger] covered(
        rest,
        t,
    ) by {
        assert(covered(events, t));
        let i = choose|i: int| 0 <= i < events.len() && (#[trigger] events[i]).covers(t);
        assert(rest[i - 1] == events[i]);
    }
}

#[verifier::rlimit(30)]
proof fn lemma_covered_list_adds_nothing(events1: Seq<EventView>, events2: Seq<EventView>)
    requires
        orderly(events1),
        orderly(events2),
        covers_all(events1, events2),
    ensures
        union(events1, events2) == events1,
    decreases
            events1.len() + events2.len(),
            (if second_starts_first(events1, events2) {
                1int
            } else {
                0int
            }),
{
    if events2.len() == 0 {
        assert(events1 + events2 =~= events1);
    } else {
        let e2 = events2[0];
        assert(covers_all_of(events1, e2));
        assert(covered(events1, e2.timestamp));
        let at = choose|i: int|
            0 <= i < events1.len() && (#[trigger] events1[i]).covers(e2.timestamp);
        let e1 = events1[0];
        assert(e1.timestamp <= events1[at].timestamp);
        let rest1 = events1.drop_first();
        let rest2 = events2.drop_first();
        lemma_leading_points(rest2, e1.timestamp);
        lemma_leading_points(rest2, e1.end());
        lemma_orderly_rest(events1);
        lemma_orderly_rest(events2);
        assert forall|i: int| 0 <= i < rest2.len() implies covers_all_of(
            events1,
            #[trigger] rest2[i],
        ) by {
            assert(rest2[i] == events2[i + 1]);
        }
        let step = union_step(events1, events2);
        if e2.timestamp < e1.end() {
            if e2.end() <= e1.end() {
                lemma_covered_list_adds_nothing(events1, rest2);
                assert(step.emitted + events1 =~= events1);
            } else {
                let n = leading_points(rest2, e1.end()) as int;
                let first = piece(e2, e1.end(), e2.end());
                let left = seq![first] + rest2.skip(n);
                lemma_orderly_remainder(events2, e1.end());
                assert forall|i: int| 0 <= i < left.len() implies covers_all_of(
                    rest1,
                    #[trigger] left[i],
                ) by {
                    if i == 0 {
                        assert forall|t: int| (first.covers(t) || t
                            == first.timestamp) implies #[trigger] covered(events1, t) by {
                            assert(e2.covers(t));
                        }
                    } else {
                        assert(left[i] == rest2[i - 1 + n]);
                    }
                    lemma_rest_covers(events1, left[i]);
                }
                lemma_covered_list_adds_nothing(rest1, left);
                assert(seq![e1] + rest1 =~= events1);
            }
        } else {
            assert forall|i: int| 0 <= i < events2.len() implies covers_all_of(
                rest1,
                #[trigger] events2[i],
            ) by {
                assert(e2.timestamp <= events2[i].timestamp);
                lemma_rest_covers(events1, events2[i]);
            }
            lemma_covered_list_adds_nothing(rest1, events2);
            assert(seq![e1] + rest1 =~= events1);
        }
    }
}

/// Merging the second of two orderly lists in again changes nothing, unless a point of it lies
/// where neither list covers the time: the union would hold such a point once more.
pub proof fn law_merging_again_changes_nothing(events1: Seq<EventView>, events2: Seq<EventView>)
    requires
        orderly(events1),
        orderly(events2),
        forall|i: int|
            0 <= i < events2.len() && (#[trigger] events2[i]).duration == 0 ==> covered(
                events1,
                events2[i].timestamp,
            ) || covered(events2, events2[i].timestamp),
    ensures
        union(union(events1, events2), events2) == union(events1, events2),
{
    let merged = union(events1, events2);
    law_union_is_sorted_and_free_of_overlap(events1, events2);
    assert forall|i: int| 0 <= i < events2.len() implies covers_all_of(
        merged,
        #[trigger] events2[i],
    ) by {
        let e = events2[i];
        assert forall|t: int| (e.covers(t) || t == e.timestamp) implies #[trigger] covered(
            merged,
            t,
        ) by {
            lemma_union_covers_both(events1, events2, t);
            if e.covers(t) {
                assert(covered(events2, t));
            } else {
                assert(e.duration >= 0);
            }
        }
    }
    lemma_covered_list_adds_nothing(merged, events2);
}

/// Lists that are merged one after another are merged by their priority: the result is
/// orderly, and covers each instant as the first list does that covers it.
pub proof fn law_chained_unions_keep_priority(
    lists: Seq<Seq<EventView>>,
    t: int,
    data: Map<Seq<char>, JsonView>,
)
    requires
        forall|k: int| 0 <= k < lists.len() ==> orderly(#[trigger] lists[k]),
    ensures
        orderly(chained_union(lists)),
        covered(chained_union(lists), t) <==> exists|k: int|
            0 <= k < lists.len() && covered(#[trigger] lists[k], t),
        covered_with(chained_union(lists), t, data) <==> first_covers_with(lists, t, data),
    decreases lists.len(),
{
    if lists.len() > 0 {
        let earlier = lists.drop_last();
        let merged = chained_union(earlier);
        let last = lists.last();
        law_chained_unions_keep_priority(earlier, t, data);
        law_union_is_sorted_and_free_of_overlap(merged, last);
        law_union_covers_both_with_precedence(merged, last, t, data);
        lemma_union_covers_both(merged, last, t);
        let n = lists.len() - 1;
        assert forall|k: int| 0 <= k < n implies #[trigger] earlier[k] == lists[k] by {}
        assert(last == lists[n]);
        if covered(merged, t) {
            let k = choose|k: int| 0 <= k < earlier.len() && covered(#[trigger] earlier[k], t);
            assert(covered(lists[k], t));
        } else if exists|k: int| 0 <= k < lists.len() && covered(#[trigger] lists[k], t) {
            let k = choose|k: int| 0 <= k < lists.len() && covered(#[trigger] lists[k], t);
            if k < n {
                assert(covered(earlier[k], t));
            }
        }
        assert(covered(last, t) ==> covered(lists[n], t));
        if covered_with(merged, t, data) {
            let k = choose|k: int|
                0 <= k < earlier.len() && covered_with(#[trigger] earlier[k], t, data)
                    && forall|i: int| 0 <= i < k ==> !covered(#[trigger] earlier[i], t);
            assert(covered_with(lists[k], t, data));
            assert forall|i: int| 0 <= i < k implies !covered(#[trigger] lists[i], t) by {
                assert(!covered(earlier[i], t));
            }
            lemma_covered_with(merged, t, data);
        }
        if first_covers_with(lists, t, data) {
            let k = choose|k: int|
                0 <= k < lists.len() && covered_with(#[trigger] lists[k], t, data) && forall|i: int|
                    0 <= i < k ==> !covered(#[trigger] lists[i], t);
            if k < n {
                assert(covered_with(earlier[k], t, data));
                assert forall|i: int| 0 <= i < k implies !covered(#[trigger] earlier[i], t) by {
                    assert(!covered(lists[i], t));
                }
            } else {
                assert(!covered(merged, t)) by {
                    if covered(merged, t) {
                        let i = choose|i: int|
                            0 <= i < earlier.len() && covered(#[trigger] earlier[i], t);
                        assert(!covered(lists[i], t));
                    }
                }
            }
        }
        if !covered(merged, t) && covered_with(last, t, data) {
            assert forall|i: int| 0 <= i < n implies !covered(#[trigger] lists[i], t) by {
                assert(!covered(earlier[i], t));
            }
        }
    }
}

/// Points of the second list may lie inside an earlier event of it. When the start of that
/// event moves forward, points before the new start are handled at once: they would otherwise
/// be emitted after it, out of order.
pub fn is_point_before(e: &Event, t: i128) -> (r: bool)
    ensures
        r == point_before(e@, t as int),
{
    e.duration == 0 && e.timestamp < t
}

/// Splits the event at an instant inside it. There is no second part if the instant is not
/// inside it.
pub fn split_event(e: Event, timestamp: i128) -> (parts: (Event, Option<Event>))
    requires
        e@.valid(),
    ensures
        e@.timestamp < timestamp < e@.end() ==> {
            &&& parts.0@ == piece(e@, e@.timestamp, timestamp as int)
            &&& parts.1 matches Some(rest) && rest@ == piece(e@, timestamp as int, e@.end())
        },
        !(e@.timestamp < timestamp < e@.end()) ==> parts.0@ == e@ && parts.1 is None,
{
    let end = e.calculate_endtime();
    if e.timestamp < timestamp && timestamp < end {
        let e1 = Event::new(e.timestamp, timestamp - e.timestamp, e.data.copy());
        let mut rest = e;
        rest.duration = end - timestamp;
        rest.timestamp = timestamp;
        rest.id = None;
        (e1, Some(rest))
    } else {
        (e, None)
    }
}

/// What is left of the second list: the event in hand, and those that follow it.
spec fn second_left(pending: Option<Event>, events2: Seq<EventView>, j: int) -> Seq<EventView> {
    match pending {
        Some(e) => seq![e@] + events2.skip(j),
        None => Seq::empty(),
    }
}

proof fn lemma_leading_points_step(events: Seq<EventView>, j: int, t: int)
    requires
        0 <= j <= events.len(),
    ensures
        leading_points(events.skip(j), t) == if j < events.len() && point_before(events[j], t) {
            1 + leading_points(events.skip(j + 1), t)
        } else {
            0
        },
{
    if j < events.len() {
        assert(events.skip(j).drop_first() =~= events.skip(j + 1));
    }
}

/// Merges two lists of events and removes overlap. The first list has precedence.
///
/// ```text
/// events1  | xxx    xx     xxx     |
/// events2  |  ----     ------   -- |
/// result   | xxx--  xx ----xxx  -- |
/// ```
pub fn union_no_overlap(events1: Vec<Event>, events2: Vec<Event>) -> (events_union: Vec<Event>)
    requires
        all_valid(views(events1@)),
        all_valid(views(events2@)),
    ensures
        views(events_union@) == union(views(events1@), views(events2@)),
        all_valid(views(events_union@)),
{
    let ghost first = views(events1@);
    let ghost second = views(events2@);
    let ghost expected = union(first, second);
    let mut events_union: Vec<Event> = Vec::new();
    let mut i: usize = 0;
    let mut j: usize = 0;
    // A split remainder is kept here instead of being inserted ahead of the events that follow.
    let mut pending: Option<Event> = None;
    if events2.len() > 0 {
        pending = Some(events2[0].copy());
        j = 1;
    }
    proof {
        assert(first.skip(0) =~= first);
        assert(second_left(pending, second, j as int) =~= second);
        assert(views(events_union@) + expected =~= expected);
    }
    loop
        invariant_except_break
            first == views(events1@),
            second == views(events2@),
            all_valid(first),
            all_valid(second),
            all_valid(views(events_union@)),
            i <= events1.len(),
            j <= events2.len(),
            pending is None ==> j == events2.len(),
            pending matches Some(e) ==> e@.valid(),
            views(events_union@) + union(
                first.skip(i as int),
                second_left(pending, second, j as int),
            ) == expected,
        ensures
            first == views(events1@),
            second == views(events2@),
            all_valid(first),
            all_valid(second),
            all_valid(views(events_union@)),
            i <= events1.len(),
            j <= events2.len(),
            pending is None ==> j == events2.len(),
            pending matches Some(e) ==> e@.valid(),
            views(events_union@) + (first.skip(i as int) + second_left(pending, second, j as int))
                == expected,
        decreases
                events1.len() - i + events2.len() - j + if pending is Some {
                    1int
                } else {
                    0int
                },
                (if second_starts_first(
                    first.skip(i as int),
                    second_left(pending, second, j as int),
                ) {
                    1int
                } else {
                    0int
                }),
    {
        let ghost before = views(events_union@);
        let ghost left1 = first.skip(i as int);
        let ghost left2 = second_left(pending, second, j as int);
        if i >= events1.len() {
            break;
        }
        let e2 = match pending {
            Some(e2) => e2,
            None => {
                pending = None;
                break;
            },
        };
        pending = None;
        let e1 = &events1[i];
        let ghost step = union_step(left1, left2);
        let ghost rest2 = second.skip(j as int);
        proof {
            assert(first[i as int].valid());
            assert(left1[0] == e1@);
            assert(left1.drop_first() =~= first.skip(i + 1));
            assert(left2[0] == e2@);
            assert(left2.drop_first() =~= rest2);
            if j < second.len() {
                assert(second[j as int].valid());
                assert(rest2 =~= seq![second[j as int]] + second.skip(j + 1));
            } else {
                assert(rest2 =~= Seq::<EventView>::empty());
            }
        }
        let e1_end = e1.calculate_endtime();
        let e2_end = e2.calculate_endtime();
        if e2.timestamp < e1.timestamp {
            // e2 starts first: its part before e1 is emitted, the rest stays pending.
            let split_at: i128 = e1.timestamp;
            let (prefix, remainder) = split_event(e2, split_at);
            let ghost emitted = seq![prefix@];
            events_union.push(prefix);
            proof {
                assert(views(events_union@) =~= before + emitted);
            }
            match remainder {
                Some(remainder) => {
                    // Points before e1 lie inside the emitted prefix.
                    let ghost from = j as int;
                    while j < events2.len() && is_point_before(&events2[j], split_at)
                        invariant
                            second == views(events2@),
                            all_valid(second),
                            0 <= from <= j <= events2.len(),
                            all_valid(views(events_union@)),
                            views(events_union@) == before + emitted + second.subrange(
                                from,
                                j as int,
                            ),
                            leading_points(second.skip(from), split_at as int) == j - from
                                + leading_points(second.skip(j as int), split_at as int),
                        decreases events2.len() - j,
                    {
                        let ghost so_far = views(events_union@);
                        events_union.push(events2[j].copy());
                        proof {
                            assert(second[j as int] == events2@[j as int]@);
                            assert(views(events_union@) =~= so_far.push(second[j as int]));
                            assert(second.subrange(from, j + 1) =~= second.subrange(
                                from,
                                j as int,
                            ).push(second[j as int]));
                            lemma_leading_points_step(second, j as int, split_at as int);
                            assert(second[j as int].valid());
                        }
                        j += 1;
                    }
                    proof {
                        lemma_leading_points_step(second, j as int, split_at as int);
                        let n = j - from;
                        assert(second.subrange(from, j as int) =~= rest2.take(n));
                        assert(second.skip(j as int) =~= rest2.skip(n));
                        assert(step.emitted =~= emitted + second.subrange(from, j as int));
                    }
                    pending = Some(remainder);
                    proof {
                        assert(step.events2 =~= second_left(pending, second, j as int));
                        assert(views(events_union@) =~= before + step.emitted);
                    }
                },
                None => {
                    if j < events2.len() {
                        pending = Some(events2[j].copy());
                        j += 1;
                    }
                    proof {
                        assert(step.events2 =~= second_left(pending, second, j as int));
                        assert(views(events_union@) =~= before + step.emitted);
                    }
                },
            }
        } else if e2.timestamp < e1_end {
            // e1 starts first, or together with e2, and covers the start of e2.
            if e2_end <= e1_end {
                // e2 is fully covered. e1 stays, it may cover more events.
                if j < events2.len() {
                    pending = Some(events2[j].copy());
                    j += 1;
                }
                proof {
                    assert(step.events2 =~= second_left(pending, second, j as int));
                    assert(views(events_union@) =~= before + step.emitted);
                }
            } else {
                let mut remainder = e2;
                remainder.timestamp = e1_end;
                remainder.duration = e2_end - e1_end;
                remainder.id = None;
                // Points before the end of e1 are covered by it and dropped.
                let ghost from = j as int;
                while j < events2.len() && is_point_before(&events2[j], e1_end)
                    invariant
                        second == views(events2@),
                        0 <= from <= j <= events2.len(),
                        leading_points(second.skip(from), e1_end as int) == j - from
                            + leading_points(second.skip(j as int), e1_end as int),
                    decreases events2.len() - j,
                {
                    proof {
                        assert(second[j as int] == events2@[j as int]@);
                        lemma_leading_points_step(second, j as int, e1_end as int);
                    }
                    j += 1;
                }
                events_union.push(e1.copy());
                i += 1;
                pending = Some(remainder);
                proof {
                    lemma_leading_points_step(second, j as int, e1_end as int);
                    assert(second.skip(j as int) =~= rest2.skip(j - from));
                    assert(remainder@ =~= piece(left2[0], e1_end as int, e2_end as int));
                    assert(step.events2 =~= second_left(pending, second, j as int));
                    assert(views(events_union@) =~= before + step.emitted);
                }
            }
        } else {
            // e1 ends before e2 starts, or where it starts.
            events_union.push(e1.copy());
            i += 1;
            pending = Some(e2);
            proof {
                assert(step.events2 =~= second_left(pending, second, j as int));
                assert(views(events_union@) =~= before + step.emitted);
            }
        }
        proof {
            assert(step.events1 =~= first.skip(i as int));
            let rest = union(step.events1, step.events2);
            assert(before + (step.emitted + rest) =~= (before + step.emitted) + rest);
        }
    }
    // What is left of either list follows.
    let ghost before = views(events_union@);
    let ghost left2 = second_left(pending, second, j as int);
    let ghost from1 = i as int;
    while i < events1.len()
        invariant
            first == views(events1@),
            all_valid(first),
            all_valid(views(events_union@)),
            0 <= from1 <= i <= events1.len(),
            views(events_union@) == before + first.subrange(from1, i as int),
        decreases events1.len() - i,
    {
        let ghost so_far = views(events_union@);
        events_union.push(events1[i].copy());
        proof {
            assert(first[i as int] == events1@[i as int]@);
            assert(first[i as int].valid());
            assert(views(events_union@) =~= so_far.push(first[i as int]));
            assert(first.subrange(from1, i + 1) =~= first.subrange(from1, i as int).push(
                first[i as int],
            ));
        }
        i += 1;
    }
    let ghost with_first = views(events_union@);
    let ghost rest2 = second.skip(j as int);
    let ghost mut in_hand: Seq<EventView> = Seq::empty();
    if let Some(e2) = pending {
        proof {
            in_hand = seq![e2@];
        }
        events_union.push(e2);
    }
    proof {
        assert(first.subrange(from1, i as int) =~= first.skip(from1));
        assert(left2 =~= in_hand + rest2);
        assert(views(events_union@) =~= with_first + in_hand);
    }
    let ghost from2 = j as int;
    let ghost so_far2 = views(events_union@);
    while j < events2.len()
        invariant
            second == views(events2@),
            all_valid(second),
            all_valid(views(events_union@)),
            0 <= from2 <= j <= events2.len(),
            views(events_union@) == so_far2 + second.subrange(from2, j as int),
        decreases events2.len() - j,
    {
        let ghost so_far = views(events_union@);
        events_union.push(events2[j].copy());
        proof {
            assert(second[j as int] == events2@[j as int]@);
            assert(second[j as int].valid());
            assert(views(events_union@) =~= so_far.push(second[j as int]));
            assert(second.subrange(from2, j + 1) =~= second.subrange(from2, j as int).push(
                second[j as int],
            ));
        }
        j += 1;
    }
    proof {
        assert(second.subrange(from2, j as int) =~= rest2);
        assert(views(events_union@) =~= before + (first.skip(from1) + left2));
    }
    events_union
}

/// Whether an event is one of the second list, or a piece of one: a new event without a number that
/// lies within it and has its data.
pub open spec fn from_second(event: EventView, events2: Seq<EventView>) -> bool {
    events2.contains(event) || (event.id is None && exists|j: int|
        0 <= j < events2.len() && (#[trigger] events2[j]).data == event.data && events2[j].timestamp
            <= event.timestamp && event.end() <= events2[j].end())
}

proof fn lemma_piece_from_second(
    event: EventView,
    start: int,
    end: int,
    events2: Seq<EventView>,
)
    requires
        from_second(event, events2),
        event.timestamp <= start,
        end <= event.end(),
    ensures
        from_second(piece(event, start, end), events2),
{
    let part = piece(event, start, end);
    if events2.contains(event) {
        let j = choose|j: int| 0 <= j < events2.len() && events2[j] == event;
        assert(events2[j].data == part.data && events2[j].timestamp <= part.timestamp && part.end()
            <= events2[j].end());
    } else {
        let j = choose|j: int|
            0 <= j < events2.len() && (#[trigger] events2[j]).data == event.data
                && events2[j].timestamp <= event.timestamp && event.end() <= events2[j].end();
        assert(events2[j].data == part.data && events2[j].timestamp <= part.timestamp && part.end()
            <= events2[j].end());
    }
}

proof fn lemma_union_comes_from(
    events1: Seq<EventView>,
    events2: Seq<EventView>,
    given1: Seq<EventView>,
    given2: Seq<EventView>,
)
    requires
        forall|i: int| 0 <= i < events1.len() ==> given1.contains(#[trigger] events1[i]),
        forall|i: int| 0 <= i < events2.len() ==> from_second(#[trigger] events2[i], given2),
    ensures
        forall|k: int|
            0 <= k < union(events1, events2).len() ==> given1.contains(
                #[trigger] union(events1, events2)[k],
            ) || from_second(union(events1, events2)[k], given2),
    decreases
            events1.len() + events2.len(),
            (if second_starts_first(events1, events2) {
                1int
            } else {
                0int
            }),
{
    let all = union(events1, events2);
    if events1.len() == 0 || events2.len() == 0 {
        assert forall|k: int| 0 <= k < all.len() implies given1.contains(#[trigger] all[k])
            || from_second(all[k], given2) by {
            if events1.len() == 0 {
                assert(all =~= events2);
                assert(from_second(events2[k], given2));
            } else {
                assert(all =~= events1);
                assert(given1.contains(events1[k]));
            }
        }
    } else {
        let e1 = events1[0];
        let e2 = events2[0];
        let rest1 = events1.drop_first();
        let rest2 = events2.drop_first();
        let step = union_step(events1, events2);
        let later = union(step.events1, step.events2);
        assert(given1.contains(events1[0]));
        assert(from_second(events2[0], given2));
        lemma_leading_points(rest2, e1.timestamp);
        lemma_leading_points(rest2, e1.end());
        if e2.timestamp < e1.timestamp && e1.timestamp < e2.end() {
            lemma_piece_from_second(e2, e2.timestamp, e1.timestamp, given2);
            lemma_piece_from_second(e2, e1.timestamp, e2.end(), given2);
        }
        if e2.timestamp < e1.end() && e1.end() < e2.end() {
            lemma_piece_from_second(e2, e1.end(), e2.end(), given2);
        }
        assert forall|i: int| 0 <= i < rest2.len() implies #[trigger] rest2[i] == events2[i + 1] by {}
        assert forall|i: int| 0 <= i < step.events1.len() implies given1.contains(
            #[trigger] step.events1[i],
        ) by {
            if step.events1 == rest1 {
                assert(step.events1[i] == events1[i + 1]);
            }
        }
        assert forall|i: int| 0 <= i < step.events2.len() implies from_second(
            #[trigger] step.events2[i],
            given2,
        ) by {
            if step.events2 != events2 && step.events2 != rest2 && i > 0 {
                let points = rest2.len() - (step.events2.len() - 1);
                assert(step.events2[i] == rest2[points + (i - 1)]);
            }
        }
        assert forall|i: int| 0 <= i < step.emitted.len() implies given1.contains(
            #[trigger] step.emitted[i],
        ) || from_second(step.emitted[i], given2) by {
            if i > 0 {
                assert(step.emitted[i] == rest2[i - 1]);
            }
        }
        lemma_union_comes_from(step.events1, step.events2, given1, given2);
        assert(all =~= step.emitted + later);
        assert forall|k: int| 0 <= k < all.len() implies given1.contains(#[trigger] all[k])
            || from_second(all[k], given2) by {
            if k < step.emitted.len() {
                assert(all[k] == step.emitted[k]);
            } else {
                assert(all[k] == later[k - step.emitted.len()]);
            }
        }
    }
}

/// Whatever the lists hold, each event of the union is one of the first list as it was, one of the
/// second as it was, or a piece of one of the second: that has no number, the data of the event,
/// and lies within it.
pub proof fn law_union_holds_nothing_else(events1: Seq<EventView>, events2: Seq<EventView>, k: int)
    requires
        0 <= k < union(events1, events2).len(),
    ensures
        events1.contains(union(events1, events2)[k]) || from_second(
            union(events1, events2)[k],
            events2,
        ),
{
    assert forall|i: int| 0 <= i < events2.len() implies from_second(
        #[trigger] events2[i],
        events2,
    ) by {
        assert(events2.contains(events2[i]));
    }
    lemma_union_comes_from(events1, events2, events1, events2);
}

} // verus!
