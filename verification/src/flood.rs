//! Flooding: filling short gaps between events and merging events with the same data.

use vstd::prelude::*;

use crate::event::{sort_events, Event, EventOrder};
#[allow(unused_imports)]
use crate::event::{
    all_valid, covered, law_sort_forgets_the_given_order, lemma_sort_contains_back,
    lemma_sort_valid, may_precede, no_overlap, order_decides, stable_sort, views, EventView,
};
#[allow(unused_imports)]
use crate::json::{equal_data, JsonView};

verus! {

/// Events that overlap by less than this are treated as if they met: 100 ms.
pub const NEGATIVE_GAP_TRIM: i128 = 100_000_000;

/// Two neighbours, the first of which starts no later, after the gap between them has been
/// looked at.
///
/// - Overlapping events with the same data become one; the second is left without length at
///   its end.
/// - Where the gap is at most `pulsetime`, events with the same data become one, which keeps
///   the identity of the longer one; events with different data meet in the middle of it.
/// - Other events stay as they are.
pub open spec fn flood_pair(e1: EventView, e2: EventView, pulsetime: int) -> (EventView, EventView) {
    let gap = e2.timestamp - e1.end();
    if gap < 0 && equal_data(e1.data, e2.data) {
        let start = if e1.timestamp <= e2.timestamp { e1.timestamp } else { e2.timestamp };
        let end = if e1.end() <= e2.end() { e2.end() } else { e1.end() };
        (e1.spanning(start, end), e2.spanning(end, end))
    } else if -NEGATIVE_GAP_TRIM < gap <= pulsetime {
        if equal_data(e1.data, e2.data) {
            if e1.duration >= e2.duration {
                (e1.spanning(e1.timestamp, e2.end()), e2.spanning(e2.end(), e2.end()))
            } else {
                (e1.spanning(e1.timestamp, e1.timestamp), e2.spanning(e1.timestamp, e2.end()))
            }
        } else {
            let midpoint = e1.end() + gap / 2;
            (e1.spanning(e1.timestamp, midpoint), e2.spanning(midpoint, e2.end()))
        }
    } else {
        (e1, e2)
    }
}

/// `first` and the events behind it, each looked at together with its predecessor as that one
/// left it.
pub open spec fn flood_pairs(first: EventView, rest: Seq<EventView>, pulsetime: int) -> Seq<EventView>
    decreases rest.len(),
{
    if rest.len() == 0 {
        seq![first]
    } else {
        let (done, next) = flood_pair(first, rest[0], pulsetime);
        seq![done] + flood_pairs(next, rest.drop_first(), pulsetime)
    }
}

/// `done` with `event` laid over its end: an event with the same data that reaches it takes it
/// in, events with other data are cut off where it starts.
pub open spec fn lay_over(done: Seq<EventView>, event: EventView) -> Seq<EventView>
    decreases done.len(),
{
    if done.len() == 0 {
        seq![event]
    } else {
        let previous = done.last();
        let same_data = equal_data(previous.data, event.data);
        if previous.end() < event.timestamp || (previous.end() == event.timestamp && !same_data) {
            done.push(event)
        } else if same_data {
            let end = if previous.end() <= event.end() { event.end() } else { previous.end() };
            done.drop_last().push(previous.spanning(previous.timestamp, end))
        } else if previous.timestamp < event.timestamp {
            done.drop_last().push(previous.spanning(previous.timestamp, event.timestamp)).push(event)
        } else {
            lay_over(done.drop_last(), event)
        }
    }
}

/// `done` with those of the events laid over it, one after the other, that have a length.
pub open spec fn lay_over_all(done: Seq<EventView>, events: Seq<EventView>) -> Seq<EventView>
    decreases events.len(),
{
    if events.len() == 0 {
        done
    } else {
        let next = if events[0].duration > 0 { lay_over(done, events[0]) } else { done };
        lay_over_all(next, events.drop_first())
    }
}

/// The flooded events.
pub open spec fn flooded(events: Seq<EventView>, pulsetime: int) -> Seq<EventView> {
    let sorted = stable_sort(EventOrder::TimeThenDuration, events);
    if sorted.len() == 0 {
        sorted
    } else {
        lay_over_all(Seq::empty(), flood_pairs(sorted[0], sorted.drop_first(), pulsetime))
    }
}

/// Every event has a length.
pub open spec fn all_have_length(events: Seq<EventView>) -> bool {
    forall|i: int| 0 <= i < events.len() ==> (#[trigger] events[i]).duration > 0
}

/// Between two events with the same data there is a gap, or another event.
pub open spec fn same_data_apart(events: Seq<EventView>) -> bool {
    forall|i: int, j: int|
        0 <= i < j < events.len() && equal_data(
            (#[trigger] events[i]).data,
            (#[trigger] events[j]).data,
        ) ==> events[i].end() < events[j].timestamp
}

/// Between two neighbours there is no gap, or one of more than `pulsetime`.
pub open spec fn short_gaps_filled(events: Seq<EventView>, pulsetime: int) -> bool {
    forall|i: int, j: int|
        0 <= i < j < events.len() && j == i + 1 ==> gap_filled(
            #[trigger] events[i],
            #[trigger] events[j],
            pulsetime,
        )
}

/// From `a` to `b` there is no gap, or one of more than `pulsetime`.
pub open spec fn gap_filled(a: EventView, b: EventView, pulsetime: int) -> bool {
    b.timestamp == a.end() || b.timestamp - a.end() > pulsetime
}

proof fn lemma_lay_over(done: Seq<EventView>, event: EventView)
    requires
        all_have_length(done),
        no_overlap(done),
        same_data_apart(done),
        event.duration > 0,
    ensures
        all_have_length(lay_over(done, event)),
        no_overlap(lay_over(done, event)),
        same_data_apart(lay_over(done, event)),
        all_valid(done) && event.valid() ==> all_valid(lay_over(done, event)),
    decreases done.len(),
{
    if done.len() > 0 {
        let previous = done.last();
        let same_data = equal_data(previous.data, event.data);
        if previous.end() < event.timestamp || (previous.end() == event.timestamp && !same_data) {
            let laid = done.push(event);
            assert forall|i: int| 0 <= i < done.len() implies (#[trigger] laid[i]).end()
                <= event.timestamp by {
                if i < done.len() - 1 {
                    assert(done[i].end() <= done[done.len() - 1].timestamp);
                    assert(done[done.len() - 1].duration > 0);
                }
            }
        } else if same_data {
            let laid = lay_over(done, event);
            let n = done.len() as int;
            assert forall|i: int| 0 <= i < n - 1 implies #[trigger] laid[i] == done[i] by {}
            assert(laid[n - 1].timestamp == done[n - 1].timestamp);
            assert(laid[n - 1].data == done[n - 1].data);
        } else if previous.timestamp < event.timestamp {
            let laid = lay_over(done, event);
            let n = done.len() as int;
            assert forall|i: int| 0 <= i < n - 1 implies #[trigger] laid[i] == done[i] && laid[i].end()
                <= previous.timestamp by {
                assert(done[i].end() <= done[n - 1].timestamp);
            }
        } else {
            assert(no_overlap(done.drop_last()));
            lemma_lay_over(done.drop_last(), event);
        }
    }
}

proof fn lemma_lay_over_all(done: Seq<EventView>, events: Seq<EventView>)
    requires
        all_have_length(done),
        no_overlap(done),
        same_data_apart(done),
    ensures
        all_have_length(lay_over_all(done, events)),
        no_overlap(lay_over_all(done, events)),
        same_data_apart(lay_over_all(done, events)),
    decreases events.len(),
{
    if events.len() > 0 {
        if events[0].duration > 0 {
            lemma_lay_over(done, events[0]);
            lemma_lay_over_all(lay_over(done, events[0]), events.drop_first());
        } else {
            lemma_lay_over_all(done, events.drop_first());
        }
    }
}

/// Flooded events have a length and do not overlap, and no two neighbours with the same data
/// are left that meet.
pub proof fn law_flooded_is_disjoint_and_merged(events: Seq<EventView>, pulsetime: int)
    ensures
        all_have_length(flooded(events, pulsetime)),
        no_overlap(flooded(events, pulsetime)),
        same_data_apart(flooded(events, pulsetime)),
{
    let sorted = stable_sort(EventOrder::TimeThenDuration, events);
    if sorted.len() > 0 {
        lemma_lay_over_all(
            Seq::empty(),
            flood_pairs(sorted[0], sorted.drop_first(), pulsetime),
        );
    }
}

/// Whether one of the events covers the instant `t` with data that is equal to `data`.
pub open spec fn covered_equally(
    events: Seq<EventView>,
    t: int,
    data: Map<Seq<char>, JsonView>,
) -> bool {
    exists|i: int| 0 <= i < events.len() && covers_equally(#[trigger] events[i], t, data)
}

/// Whether the event covers the instant `t` with data that is equal to `data`.
pub open spec fn covers_equally(event: EventView, t: int, data: Map<Seq<char>, JsonView>) -> bool {
    event.covers(t) && equal_data(event.data, data)
}

/// Whether the instant `t` lies in a gap between `a` and `b` of at most `pulsetime`, where it is
/// filled with data equal to `data`: that of `a` before the middle of the gap, and that of `b`
/// from there on.
pub open spec fn fills_gap(
    a: EventView,
    b: EventView,
    t: int,
    data: Map<Seq<char>, JsonView>,
    pulsetime: int,
) -> bool {
    let gap = b.timestamp - a.end();
    &&& a.end() <= t < b.timestamp
    &&& gap <= pulsetime
    &&& equal_data(
        if t < a.end() + gap / 2 {
            a.data
        } else {
            b.data
        },
        data,
    )
}

/// Whether the instant `t` lies in a gap between neighbours of at most `pulsetime`, where it is
/// filled with data equal to `data`.
pub open spec fn filled_equally(
    events: Seq<EventView>,
    t: int,
    data: Map<Seq<char>, JsonView>,
    pulsetime: int,
) -> bool {
    exists|i: int, j: int|
        0 <= i < j < events.len() && j == i + 1 && fills_gap(
            #[trigger] events[i],
            #[trigger] events[j],
            t,
            data,
            pulsetime,
        )
}

/// No event of the list has a negative length, and they do not overlap.
spec fn in_a_row(events: Seq<EventView>) -> bool {
    &&& forall|i: int| 0 <= i < events.len() ==> (#[trigger] events[i]).duration >= 0
    &&& no_overlap(events)
}

/// Two neighbours cover afterwards what they covered, and the gap between them if it is short.
proof fn lemma_flood_pair_in_a_row(e1: EventView, e2: EventView, pulsetime: int)
    requires
        e1.duration >= 0,
        e2.duration >= 0,
        e1.end() <= e2.timestamp,
        pulsetime >= 0,
    ensures
        ({
            let (done, next) = flood_pair(e1, e2, pulsetime);
            &&& done.timestamp == e1.timestamp
            &&& done.duration >= 0
            &&& next.duration >= 0
            &&& done.end() <= next.timestamp
            &&& gap_filled(done, next, pulsetime)
            &&& next.end() == e2.end()
            &&& next.data == e2.data
            &&& forall|t: int, data: Map<Seq<char>, JsonView>|
                #![trigger covers_equally(done, t, data)]
                #![trigger covers_equally(next, t, data)]
                #![trigger covers_equally(e1, t, data)]
                #![trigger covers_equally(e2, t, data)]
                #![trigger fills_gap(e1, e2, t, data, pulsetime)]
                (covers_equally(done, t, data) || covers_equally(next, t, data)) <==> (
                covers_equally(e1, t, data) || covers_equally(e2, t, data) || fills_gap(
                    e1,
                    e2,
                    t,
                    data,
                    pulsetime,
                ))
        }),
{
}

/// What a list with one more event in front covers, and which of its gaps are filled.
proof fn lemma_covered_in_front(
    first: EventView,
    rest: Seq<EventView>,
    t: int,
    data: Map<Seq<char>, JsonView>,
    pulsetime: int,
)
    ensures
        covered_equally(seq![first] + rest, t, data) <==> covers_equally(first, t, data)
            || covered_equally(rest, t, data),
        filled_equally(seq![first] + rest, t, data, pulsetime) <==> (rest.len() > 0 && fills_gap(
            first,
            rest[0],
            t,
            data,
            pulsetime,
        )) || filled_equally(rest, t, data, pulsetime),
{
    let all = seq![first] + rest;
    assert(all[0] == first);
    assert forall|i: int| 0 <= i < rest.len() implies #[trigger] rest[i] == all[i + 1] by {}
    assert forall|i: int| 1 <= i < all.len() implies #[trigger] all[i] == rest[i - 1] by {}
    if covered_equally(rest, t, data) {
        let i = choose|i: int| 0 <= i < rest.len() && covers_equally(#[trigger] rest[i], t, data);
        assert(covers_equally(all[i + 1], t, data));
    }
    if covers_equally(first, t, data) {
        assert(covers_equally(all[0], t, data));
    }
    if filled_equally(rest, t, data, pulsetime) {
        let (i, j) = choose|i: int, j: int|
            0 <= i < j < rest.len() && j == i + 1 && fills_gap(
                #[trigger] rest[i],
                #[trigger] rest[j],
                t,
                data,
                pulsetime,
            );
        assert(fills_gap(all[i + 1], all[j + 1], t, data, pulsetime));
    }
    if rest.len() > 0 && fills_gap(first, rest[0], t, data, pulsetime) {
        assert(fills_gap(all[0], all[1], t, data, pulsetime));
    }
}

proof fn lemma_flood_pairs_in_a_row(first: EventView, rest: Seq<EventView>, pulsetime: int)
    requires
        in_a_row(seq![first] + rest),
        pulsetime >= 0,
    ensures
        flood_pairs(first, rest, pulsetime).len() == rest.len() + 1,
        flood_pairs(first, rest, pulsetime)[0].timestamp == first.timestamp,
        in_a_row(flood_pairs(first, rest, pulsetime)),
        short_gaps_filled(flood_pairs(first, rest, pulsetime), pulsetime),
        forall|t: int, data: Map<Seq<char>, JsonView>|
            #[trigger] covered_equally(flood_pairs(first, rest, pulsetime), t, data) <==> (
            covered_equally(seq![first] + rest, t, data) || filled_equally(
                seq![first] + rest,
                t,
                data,
                pulsetime,
            )),
    decreases rest.len(),
{
    let all = seq![first] + rest;
    let out = flood_pairs(first, rest, pulsetime);
    if rest.len() == 0 {
        assert(all =~= seq![first]);
    } else {
        let (done, next) = flood_pair(first, rest[0], pulsetime);
        let tail = rest.drop_first();
        let moved = seq![next] + tail;
        let tail_out = flood_pairs(next, tail, pulsetime);
        assert(all[0] == first && all[1] == rest[0]);
        lemma_flood_pair_in_a_row(first, rest[0], pulsetime);
        assert forall|i: int| 1 <= i < moved.len() implies #[trigger] moved[i] == all[i + 1] by {}
        assert forall|i: int, j: int| 0 <= i < j < moved.len() implies (#[trigger] moved[i]).end()
            <= (#[trigger] moved[j]).timestamp by {
            assert(all[i + 1].end() <= all[j + 1].timestamp);
        }
        lemma_flood_pairs_in_a_row(next, tail, pulsetime);
        assert(out =~= seq![done] + tail_out);
        assert forall|i: int| 1 <= i < out.len() implies #[trigger] out[i] == tail_out[i - 1] by {}
        assert(out[0] == done);
        assert forall|j: int| 0 <= j < tail_out.len() implies done.end() <= (
        #[trigger] tail_out[j]).timestamp by {
            if j > 0 {
                assert(tail_out[0].duration >= 0);
                assert(tail_out[0].end() <= tail_out[j].timestamp);
            }
        }
        assert(in_a_row(out));
        assert(gap_filled(done, tail_out[0], pulsetime));
        assert(short_gaps_filled(out, pulsetime));
        assert(rest =~= seq![rest[0]] + tail);
        assert forall|t: int, data: Map<Seq<char>, JsonView>|
            #[trigger] covered_equally(out, t, data) <==> (covered_equally(all, t, data)
                || filled_equally(all, t, data, pulsetime)) by {
            lemma_covered_in_front(first, rest, t, data, pulsetime);
            lemma_covered_in_front(rest[0], tail, t, data, pulsetime);
            lemma_covered_in_front(next, tail, t, data, pulsetime);
            lemma_covered_in_front(done, tail_out, t, data, pulsetime);
            assert(covered_equally(tail_out, t, data) <==> (covered_equally(moved, t, data)
                || filled_equally(moved, t, data, pulsetime)));
            assert(covers_equally(done, t, data) || covers_equally(next, t, data) <==> (
            covers_equally(first, t, data) || covers_equally(rest[0], t, data) || fills_gap(
                first,
                rest[0],
                t,
                data,
                pulsetime,
            )));
            if tail.len() > 0 {
                assert(fills_gap(next, tail[0], t, data, pulsetime) == fills_gap(
                    rest[0],
                    tail[0],
                    t,
                    data,
                    pulsetime,
                ));
            }
        }
    }
}

/// Laying an event over a list that it does not overlap neither loses nor adds time, and opens
/// no gap.
proof fn lemma_lay_over_in_a_row(done: Seq<EventView>, event: EventView, pulsetime: int)
    requires
        in_a_row(done),
        event.duration > 0,
        short_gaps_filled(done, pulsetime),
        pulsetime >= 0,
        done.len() > 0 ==> done.last().end() <= event.timestamp && gap_filled(
            done.last(),
            event,
            pulsetime,
        ),
    ensures
        in_a_row(lay_over(done, event)),
        short_gaps_filled(lay_over(done, event), pulsetime),
        lay_over(done, event).len() > 0,
        lay_over(done, event).last().end() == event.end(),
        forall|t: int, data: Map<Seq<char>, JsonView>|
            #[trigger] covered_equally(lay_over(done, event), t, data) <==> (covered_equally(
                done,
                t,
                data,
            ) || covers_equally(event, t, data)),
{
    let next = lay_over(done, event);
    let n = done.len() as int;
    let merges = n > 0 && done.last().end() == event.timestamp && equal_data(
        done.last().data,
        event.data,
    );
    if merges {
        assert(next =~= done.drop_last().push(
            done.last().spanning(done.last().timestamp, event.end()),
        ));
        assert forall|i: int| 0 <= i < n - 1 implies #[trigger] next[i] == done[i] by {}
        assert(done[n - 1].duration >= 0);
    } else {
        assert(next =~= done.push(event));
        assert forall|i: int| 0 <= i < n implies #[trigger] next[i] == done[i] && next[i].end()
            <= event.timestamp by {
            if i < n - 1 {
                assert(done[i].end() <= done[n - 1].timestamp);
                assert(done[n - 1].duration >= 0);
            }
        }
    }
    assert forall|t: int, data: Map<Seq<char>, JsonView>|
        #[trigger] covered_equally(next, t, data) <==> (covered_equally(done, t, data)
            || covers_equally(event, t, data)) by {
        if covered_equally(done, t, data) {
            let i = choose|i: int|
                0 <= i < done.len() && covers_equally(#[trigger] done[i], t, data);
            assert(covers_equally(next[i], t, data));
        }
        if covers_equally(event, t, data) {
            assert(covers_equally(next[next.len() - 1], t, data));
        }
        if covered_equally(next, t, data) {
            let i = choose|i: int|
                0 <= i < next.len() && covers_equally(#[trigger] next[i], t, data);
            if i < n - 1 || (i == n - 1 && !merges) {
                assert(covers_equally(done[i], t, data));
            } else if merges {
                assert(covers_equally(done[n - 1], t, data) || covers_equally(event, t, data));
            }
        }
    }
}

proof fn lemma_lay_over_all_in_a_row(done: Seq<EventView>, events: Seq<EventView>, pulsetime: int)
    requires
        in_a_row(done),
        in_a_row(events),
        short_gaps_filled(done, pulsetime),
        short_gaps_filled(events, pulsetime),
        pulsetime >= 0,
        done.len() > 0 && events.len() > 0 ==> done.last().end() <= events[0].timestamp
            && gap_filled(done.last(), events[0], pulsetime),
    ensures
        short_gaps_filled(lay_over_all(done, events), pulsetime),
        forall|t: int, data: Map<Seq<char>, JsonView>|
            #[trigger] covered_equally(lay_over_all(done, events), t, data) <==> (covered_equally(
                done,
                t,
                data,
            ) || covered_equally(events, t, data)),
    decreases events.len(),
{
    if events.len() > 0 {
        let event = events[0];
        let tail = events.drop_first();
        let next = if event.duration > 0 { lay_over(done, event) } else { done };
        assert(event.duration >= 0);
        assert forall|i: int| 0 <= i < tail.len() implies #[trigger] tail[i] == events[i + 1] by {}
        assert(in_a_row(tail));
        assert(short_gaps_filled(tail, pulsetime));
        if event.duration > 0 {
            lemma_lay_over_in_a_row(done, event, pulsetime);
        }
        if tail.len() > 0 {
            assert(tail[0] == events[1]);
            assert(gap_filled(events[0], events[1], pulsetime));
            assert(events[0].end() <= events[1].timestamp);
        }
        lemma_lay_over_all_in_a_row(next, tail, pulsetime);
        assert(seq![event] + tail =~= events);
        assert forall|t: int, data: Map<Seq<char>, JsonView>|
            #[trigger] covered_equally(lay_over_all(done, events), t, data) <==> (covered_equally(
                done,
                t,
                data,
            ) || covered_equally(events, t, data)) by {
            lemma_covered_in_front(event, tail, t, data, pulsetime);
            assert(covered_equally(next, t, data) <==> (covered_equally(done, t, data)
                || covers_equally(event, t, data)));
        }
    }
}

/// Where the given events do not overlap, no gap of at most `pulsetime` is left between
/// flooded events. Afterwards an instant is covered, with data equal to that which it has there,
/// if and only if an event covered it so, or it lies in a gap of at most `pulsetime`: there the
/// two neighbours meet in the middle, each of them covering its half with its own data.
pub proof fn law_flooding_fills_gaps_and_keeps_time(events: Seq<EventView>, pulsetime: int)
    requires
        pulsetime >= 0,
        forall|i: int| 0 <= i < events.len() ==> (#[trigger] events[i]).duration >= 0,
        no_overlap(stable_sort(EventOrder::TimeThenDuration, events)),
    ensures
        short_gaps_filled(flooded(events, pulsetime), pulsetime),
        forall|t: int, data: Map<Seq<char>, JsonView>|
            #[trigger] covered_equally(flooded(events, pulsetime), t, data) <==> (covered_equally(
                events,
                t,
                data,
            ) || filled_equally(
                stable_sort(EventOrder::TimeThenDuration, events),
                t,
                data,
                pulsetime,
            )),
{
    let order = EventOrder::TimeThenDuration;
    let sorted = stable_sort(order, events);
    crate::event::law_sort_orders_and_keeps(order, events);
    if sorted.len() > 0 {
        let pairs = flood_pairs(sorted[0], sorted.drop_first(), pulsetime);
        assert(seq![sorted[0]] + sorted.drop_first() =~= sorted);
        assert forall|i: int| 0 <= i < sorted.len() implies (#[trigger] sorted[i]).duration >= 0 by {
            crate::event::lemma_sort_contains(order, events, i);
            let j = choose|j: int| 0 <= j < events.len() && events[j] == sorted[i];
            assert(events[j].duration >= 0);
        }
        lemma_flood_pairs_in_a_row(sorted[0], sorted.drop_first(), pulsetime);
        lemma_lay_over_all_in_a_row(Seq::empty(), pairs, pulsetime);
        assert forall|t: int, data: Map<Seq<char>, JsonView>|
            #[trigger] covered_equally(flooded(events, pulsetime), t, data) <==> (covered_equally(
                events,
                t,
                data,
            ) || filled_equally(sorted, t, data, pulsetime)) by {
            assert(covered_equally(pairs, t, data) <==> (covered_equally(sorted, t, data)
                || filled_equally(sorted, t, data, pulsetime)));
            assert(!covered_equally(Seq::empty(), t, data));
            if covered_equally(sorted, t, data) {
                let i = choose|i: int|
                    0 <= i < sorted.len() && covers_equally(#[trigger] sorted[i], t, data);
                crate::event::lemma_sort_contains(order, events, i);
                let j = choose|j: int| 0 <= j < events.len() && events[j] == sorted[i];
                assert(covers_equally(events[j], t, data));
            }
            if covered_equally(events, t, data) {
                let i = choose|i: int|
                    0 <= i < events.len() && covers_equally(#[trigger] events[i], t, data);
                lemma_sort_contains_back(order, events, i);
                let j = choose|j: int| 0 <= j < sorted.len() && sorted[j] == events[i];
                assert(covers_equally(sorted[j], t, data));
            }
        }
    }
}

/// Whether `data` is what is asked for: anything, or data equal to the given one.
pub open spec fn matches_data(
    data: Map<Seq<char>, JsonView>,
    wanted: Option<Map<Seq<char>, JsonView>>,
) -> bool {
    match wanted {
        Some(wanted) => equal_data(data, wanted),
        None => true,
    }
}

/// Whether one of the events covers the instant `t` with data that is asked for.
spec fn covered_as(
    events: Seq<EventView>,
    t: int,
    wanted: Option<Map<Seq<char>, JsonView>>,
) -> bool {
    exists|i: int|
        0 <= i < events.len() && (#[trigger] events[i]).covers(t) && matches_data(
            events[i].data,
            wanted,
        )
}

/// Whether an event that starts after `t` follows only on one that covers `t`.
spec fn covered_before(
    events: Seq<EventView>,
    t: int,
    wanted: Option<Map<Seq<char>, JsonView>>,
) -> bool {
    forall|i: int|
        0 <= i < events.len() && (#[trigger] events[i]).timestamp > t ==> covered_as(
            events.take(i),
            t,
            wanted,
        )
}

/// An event that is laid over others covers its time afterwards, unless it was covered before,
/// and leaves the time before it as it was.
proof fn lemma_lay_over_keeps(
    done: Seq<EventView>,
    event: EventView,
    t: int,
    wanted: Option<Map<Seq<char>, JsonView>>,
)
    requires
        event.duration > 0,
        no_overlap(done),
        all_have_length(done),
        covered_before(done, t, wanted),
        event.timestamp > t ==> covered_as(done, t, wanted),
    ensures
        covered_before(lay_over(done, event), t, wanted),
        event.timestamp > t || (event.covers(t) && matches_data(event.data, wanted)) ==> covered_as(
            lay_over(done, event),
            t,
            wanted,
        ),
    decreases done.len(),
{
    let laid = lay_over(done, event);
    let n = done.len() as int;
    if n == 0 {
        assert(laid[0] == event);
    } else {
        let previous = done.last();
        let same_data = equal_data(previous.data, event.data);
        let shorter = done.drop_last();
        if event.timestamp > t {
            let i = choose|i: int|
                0 <= i < done.len() && (#[trigger] done[i]).covers(t) && matches_data(
                    done[i].data,
                    wanted,
                );
            if previous.end() < event.timestamp || (previous.end() == event.timestamp && !same_data)
                || same_data || previous.timestamp < event.timestamp {
                assert(laid[i].covers(t) && laid[i].data == done[i].data);
                assert forall|q: int| 0 <= q < laid.len() && (#[trigger] laid[q]).timestamp > t implies
                    covered_as(laid.take(q), t, wanted) by {
                    if q < n {
                        assert(done[q].timestamp > t);
                        assert(laid.take(q) =~= done.take(q));
                    } else {
                        assert(laid.take(q)[i] == laid[i]);
                    }
                }
            } else {
                assert(i < n - 1);
                assert(shorter[i] == done[i]);
                assert(no_overlap(shorter));
                assert forall|q: int|
                    0 <= q < shorter.len() && (#[trigger] shorter[q]).timestamp > t implies covered_as(
                    shorter.take(q),
                    t,
                    wanted,
                ) by {
                    assert(done[q].timestamp > t);
                    assert(shorter.take(q) =~= done.take(q));
                }
                lemma_lay_over_keeps(shorter, event, t, wanted);
            }
        } else {
            if previous.end() < event.timestamp || (previous.end() == event.timestamp && !same_data) {
                assert(laid[n] == event);
                assert forall|q: int| 0 <= q < laid.len() && (#[trigger] laid[q]).timestamp > t implies
                    covered_as(laid.take(q), t, wanted) by {
                    assert(done[q].timestamp > t);
                    assert(laid.take(q) =~= done.take(q));
                }
            } else if same_data {
                assert forall|q: int| 0 <= q < laid.len() && (#[trigger] laid[q]).timestamp > t implies
                    covered_as(laid.take(q), t, wanted) by {
                    assert(done[q].timestamp > t);
                    assert(laid.take(q) =~= done.take(q));
                }
                if previous.timestamp <= t {
                    assert(event.covers(t) ==> laid[n - 1].covers(t));
                } else {
                    assert(done[n - 1].timestamp > t);
                    let i = choose|i: int|
                        0 <= i < done.take(n - 1).len() && (#[trigger] done.take(n - 1)[i]).covers(t)
                            && matches_data(done.take(n - 1)[i].data, wanted);
                    assert(laid[i] == done.take(n - 1)[i]);
                }
            } else if previous.timestamp < event.timestamp {
                assert(laid[n] == event);
                assert forall|q: int| 0 <= q < laid.len() && (#[trigger] laid[q]).timestamp > t implies
                    covered_as(laid.take(q), t, wanted) by {
                    assert(done[q].timestamp > t);
                    assert(laid.take(q) =~= done.take(q));
                }
            } else {
                assert(no_overlap(shorter));
                assert forall|q: int|
                    0 <= q < shorter.len() && (#[trigger] shorter[q]).timestamp > t implies covered_as(
                    shorter.take(q),
                    t,
                    wanted,
                ) by {
                    assert(done[q].timestamp > t);
                    assert(shorter.take(q) =~= done.take(q));
                }
                lemma_lay_over_keeps(shorter, event, t, wanted);
            }
        }
    }
}

/// What comes after an instant that is covered leaves it covered.
proof fn lemma_later_events_keep(
    done: Seq<EventView>,
    current: EventView,
    rest: Seq<EventView>,
    pulsetime: int,
    t: int,
    wanted: Option<Map<Seq<char>, JsonView>>,
)
    requires
        all_have_length(done),
        no_overlap(done),
        same_data_apart(done),
        covered_before(done, t, wanted),
        forall|i: int| 0 <= i < rest.len() ==> (#[trigger] rest[i]).duration >= 0,
        forall|i: int| 0 <= i < rest.len() ==> (#[trigger] rest[i]).timestamp > t,
        current.end() > t,
        current.timestamp > t ==> covered_as(done, t, wanted),
        current.timestamp <= t ==> matches_data(current.data, wanted),
    ensures
        covered_as(lay_over_all(done, flood_pairs(current, rest, pulsetime)), t, wanted),
    decreases rest.len(),
{
    let pairs = flood_pairs(current, rest, pulsetime);
    let emitted = pairs[0];
    let laid = if emitted.duration > 0 { lay_over(done, emitted) } else { done };
    reveal_with_fuel(lay_over_all, 2);
    if rest.len() == 0 {
        assert(pairs =~= seq![current]);
        assert(pairs.drop_first() =~= Seq::<EventView>::empty());
        if current.duration > 0 {
            lemma_lay_over_keeps(done, current, t, wanted);
        }
    } else {
        let (first, next) = flood_pair(current, rest[0], pulsetime);
        let tail = rest.drop_first();
        assert(pairs.drop_first() =~= flood_pairs(next, tail, pulsetime));
        assert(emitted == first);
        assert(rest[0].duration >= 0 && rest[0].timestamp > t);
        assert forall|i: int| 0 <= i < tail.len() implies #[trigger] tail[i] == rest[i + 1] by {}
        if emitted.duration > 0 {
            lemma_lay_over_keeps(done, emitted, t, wanted);
            lemma_lay_over(done, emitted);
        }
        lemma_later_events_keep(laid, next, tail, pulsetime, t, wanted);
    }
}

/// No event of the list has a negative length, and they are in the order of their starts.
pub open spec fn in_order(events: Seq<EventView>) -> bool {
    &&& forall|i: int| 0 <= i < events.len() ==> (#[trigger] events[i]).duration >= 0
    &&& forall|i: int, j: int|
        0 <= i < j < events.len() ==> (#[trigger] events[i]).timestamp <= (
        #[trigger] events[j]).timestamp
}

/// Whether `b`, which starts no earlier than `a`, starts less than 100 ms before the end of `a`.
pub open spec fn overlap_is_short(a: EventView, b: EventView) -> bool {
    0 < a.end() - b.timestamp < NEGATIVE_GAP_TRIM
}

/// No event starts less than 100 ms before the end of an earlier one.
pub open spec fn no_short_overlap(events: Seq<EventView>) -> bool {
    forall|i: int, j: int|
        0 <= i < j < events.len() ==> !overlap_is_short(#[trigger] events[i], #[trigger] events[j])
}

/// Whether the event at `i` covers the instant `t`, and none behind it has started by then.
pub open spec fn latest_at(events: Seq<EventView>, i: int, t: int) -> bool {
    &&& 0 <= i < events.len()
    &&& events[i].covers(t)
    &&& forall|j: int| i < j < events.len() ==> (#[trigger] events[j]).timestamp > t
}

/// An instant at which the event at `i` is the latest one is covered when `current`, which came
/// of the first event, is looked at together with those behind it.
proof fn lemma_latest_event_is_covered(
    done: Seq<EventView>,
    current: EventView,
    given: Seq<EventView>,
    i: int,
    t: int,
    pulsetime: int,
)
    requires
        all_have_length(done),
        no_overlap(done),
        same_data_apart(done),
        in_order(given),
        latest_at(given, i, t),
        covered_before(done, t, None),
        current.end() >= given[0].end(),
        current.timestamp > t ==> covered_as(done, t, None),
    ensures
        covered_as(lay_over_all(done, flood_pairs(current, given.drop_first(), pulsetime)), t, None),
    decreases i,
{
    let rest = given.drop_first();
    let pairs = flood_pairs(current, rest, pulsetime);
    assert forall|k: int| 0 <= k < rest.len() implies #[trigger] rest[k] == given[k + 1] by {}
    if i == 0 {
        lemma_later_events_keep(done, current, rest, pulsetime, t, None);
    } else {
        let (first, next) = flood_pair(current, rest[0], pulsetime);
        let tail = rest.drop_first();
        let laid = if first.duration > 0 { lay_over(done, first) } else { done };
        assert(pairs.drop_first() =~= flood_pairs(next, tail, pulsetime));
        assert(pairs[0] == first);
        assert(rest[0] == given[1] && rest[0].duration >= 0 && rest[0].timestamp <= t);
        assert forall|k: int| 0 <= k < tail.len() implies #[trigger] tail[k] == rest[k + 1] by {}
        assert(in_order(rest));
        assert(latest_at(rest, i - 1, t));
        if first.duration > 0 {
            lemma_lay_over(done, first);
            lemma_lay_over_keeps(done, first, t, None);
        }
        lemma_latest_event_is_covered(laid, next, rest, i - 1, t, pulsetime);
    }
}

/// Without short overlaps, such an instant is covered with the data of that event.
proof fn lemma_latest_event_keeps_its_data(
    done: Seq<EventView>,
    current: EventView,
    given: Seq<EventView>,
    i: int,
    t: int,
    pulsetime: int,
)
    requires
        all_have_length(done),
        no_overlap(done),
        same_data_apart(done),
        in_order(given),
        no_short_overlap(given),
        latest_at(given, i, t),
        forall|q: int| 0 <= q < done.len() ==> (#[trigger] done[q]).timestamp <= t,
        current.duration >= 0,
        current.duration > 0 ==> current.timestamp <= t,
        current.data == given[0].data,
        current.end() >= given[0].end(),
        forall|j: int| 0 < j < given.len() ==> !overlap_is_short(current, #[trigger] given[j]),
        current.timestamp > t ==> covered_as(done, t, Some(current.data)),
    ensures
        covered_as(
            lay_over_all(done, flood_pairs(current, given.drop_first(), pulsetime)),
            t,
            Some(given[i].data),
        ),
    decreases i,
{
    let rest = given.drop_first();
    let pairs = flood_pairs(current, rest, pulsetime);
    assert forall|k: int| 0 <= k < rest.len() implies #[trigger] rest[k] == given[k + 1] by {}
    if i == 0 {
        lemma_later_events_keep(done, current, rest, pulsetime, t, Some(current.data));
    } else {
        let (first, next) = flood_pair(current, rest[0], pulsetime);
        let tail = rest.drop_first();
        let laid = if first.duration > 0 { lay_over(done, first) } else { done };
        assert(pairs.drop_first() =~= flood_pairs(next, tail, pulsetime));
        assert(pairs[0] == first);
        assert(rest[0] == given[1] && rest[0].duration >= 0 && rest[0].timestamp <= t);
        assert(!overlap_is_short(current, given[1]));
        assert forall|k: int| 0 <= k < tail.len() implies #[trigger] tail[k] == rest[k + 1] by {}
        assert(in_order(rest));
        assert(latest_at(rest, i - 1, t));
        assert forall|j: int| 0 < j < rest.len() implies !overlap_is_short(
            next,
            #[trigger] rest[j],
        ) by {
            assert(!overlap_is_short(current, given[j + 1]));
            assert(!overlap_is_short(given[1], given[j + 1]));
        }
        if first.duration > 0 {
            assert(first.timestamp <= t);
            lemma_lay_over(done, first);
            lemma_lay_over_keeps(done, first, t, Some(next.data));
            lemma_lay_over_starts(done, first, t);
        }
        lemma_latest_event_keeps_its_data(laid, next, rest, i - 1, t, pulsetime);
    }
}

/// Laying an event over others starts no event later than they start.
proof fn lemma_lay_over_starts(done: Seq<EventView>, event: EventView, t: int)
    requires
        forall|q: int| 0 <= q < done.len() ==> (#[trigger] done[q]).timestamp <= t,
        event.timestamp <= t,
    ensures
        forall|q: int|
            0 <= q < lay_over(done, event).len() ==> (#[trigger] lay_over(
                done,
                event,
            )[q]).timestamp <= t,
    decreases done.len(),
{
    if done.len() > 0 {
        assert(done[done.len() - 1].timestamp <= t);
        lemma_lay_over_starts(done.drop_last(), event, t);
    }
}

/// Whatever the given events overlap: an instant that one of them covers, and at which no later
/// one has started, is covered afterwards. Where none of them starts less than 100 ms before the
/// end of an earlier one, it is covered with data equal to that of the event.
///
/// An event is therefore cut off by a later one at its start and no earlier, and only by it.
pub proof fn law_time_before_later_events_is_kept(
    events: Seq<EventView>,
    pulsetime: int,
    i: int,
    t: int,
)
    requires
        forall|k: int| 0 <= k < events.len() ==> (#[trigger] events[k]).duration >= 0,
        latest_at(stable_sort(EventOrder::TimeThenDuration, events), i, t),
    ensures
        covered(flooded(events, pulsetime), t),
        no_short_overlap(stable_sort(EventOrder::TimeThenDuration, events)) ==> covered_equally(
            flooded(events, pulsetime),
            t,
            stable_sort(EventOrder::TimeThenDuration, events)[i].data,
        ),
{
    let sorted = stable_sort(EventOrder::TimeThenDuration, events);
    let result = flooded(events, pulsetime);
    lemma_sorted_in_order(events);
    lemma_latest_event_is_covered(Seq::empty(), sorted[0], sorted, i, t, pulsetime);
    let k = choose|k: int|
        0 <= k < result.len() && (#[trigger] result[k]).covers(t) && matches_data(
            result[k].data,
            None,
        );
    assert(result[k].covers(t));
    if no_short_overlap(sorted) {
        assert(0 < i ==> sorted[0].timestamp <= sorted[i].timestamp);
        lemma_latest_event_keeps_its_data(Seq::empty(), sorted[0], sorted, i, t, pulsetime);
        let wanted = Some(sorted[i].data);
        let k = choose|k: int|
            0 <= k < result.len() && (#[trigger] result[k]).covers(t) && matches_data(
                result[k].data,
                wanted,
            );
        assert(covers_equally(result[k], t, sorted[i].data));
    }
}

proof fn lemma_sorted_in_order(events: Seq<EventView>)
    requires
        forall|k: int| 0 <= k < events.len() ==> (#[trigger] events[k]).duration >= 0,
    ensures
        in_order(stable_sort(EventOrder::TimeThenDuration, events)),
{
    let order = EventOrder::TimeThenDuration;
    let sorted = stable_sort(order, events);
    crate::event::law_sort_orders_and_keeps(order, events);
    assert forall|i: int| 0 <= i < sorted.len() implies (#[trigger] sorted[i]).duration >= 0 by {
        crate::event::lemma_sort_contains(order, events, i);
        let j = choose|j: int| 0 <= j < events.len() && events[j] == sorted[i];
        assert(events[j].duration >= 0);
    }
    assert forall|i: int, j: int| 0 <= i < j < sorted.len() implies (#[trigger] sorted[i]).timestamp
        <= (#[trigger] sorted[j]).timestamp by {
        assert(may_precede(order, sorted[i], sorted[j]));
    }
}

/// Whether the instant `t` lies between the end of one of the events and the start of another, no
/// more than `pulsetime` apart, in the half of the one whose data is equal to `data`.
pub open spec fn between_equally(
    events: Seq<EventView>,
    t: int,
    data: Map<Seq<char>, JsonView>,
    pulsetime: int,
) -> bool {
    exists|i: int, j: int|
        0 <= i < events.len() && 0 <= j < events.len() && fills_gap(
            #[trigger] events[i],
            #[trigger] events[j],
            t,
            data,
            pulsetime,
        )
}

/// Whether an event that has come of the given ones may cover the instant `t` with that data.
spec fn has_source(
    given: Seq<EventView>,
    t: int,
    data: Map<Seq<char>, JsonView>,
    pulsetime: int,
) -> bool {
    covered_equally(given, t, data) || between_equally(given, t, data, pulsetime)
}

proof fn lemma_lay_over_has_source(
    done: Seq<EventView>,
    event: EventView,
    given: Seq<EventView>,
    t: int,
    data: Map<Seq<char>, JsonView>,
    pulsetime: int,
)
    requires
        event.duration > 0,
        covered_equally(done, t, data) ==> has_source(given, t, data, pulsetime),
        covers_equally(event, t, data) ==> has_source(given, t, data, pulsetime),
    ensures
        covered_equally(lay_over(done, event), t, data) ==> has_source(given, t, data, pulsetime),
    decreases done.len(),
{
    let laid = lay_over(done, event);
    if covered_equally(laid, t, data) {
        let i = choose|i: int| 0 <= i < laid.len() && covers_equally(#[trigger] laid[i], t, data);
        let n = done.len() as int;
        if n == 0 {
            assert(laid[i] == event);
        } else {
            let previous = done.last();
            let same_data = equal_data(previous.data, event.data);
            if previous.end() < event.timestamp || (previous.end() == event.timestamp && !same_data)
                || same_data || previous.timestamp < event.timestamp {
                if i < n {
                    assert(covers_equally(done[i], t, data) || covers_equally(event, t, data));
                } else {
                    assert(laid[i] == event);
                }
            } else {
                let shorter = done.drop_last();
                if covered_equally(shorter, t, data) {
                    let k = choose|k: int|
                        0 <= k < shorter.len() && covers_equally(#[trigger] shorter[k], t, data);
                    assert(covers_equally(done[k], t, data));
                }
                lemma_lay_over_has_source(shorter, event, given, t, data, pulsetime);
            }
        }
    }
}

/// Whether `current`, which came of the event at `k`, covers nothing but time that has a source.
spec fn grown_from(
    given: Seq<EventView>,
    k: int,
    current: EventView,
    t: int,
    data: Map<Seq<char>, JsonView>,
    pulsetime: int,
) -> bool {
    &&& current.data == given[k].data
    &&& exists|j: int|
        0 <= j < given.len() && (#[trigger] given[j]).end() == current.end() && equal_data(
            given[j].data,
            current.data,
        )
    &&& (current.timestamp <= t || given[k].timestamp <= t) && t < current.end() && equal_data(
        current.data,
        data,
    ) ==> has_source(given, t, data, pulsetime)
}

proof fn lemma_flooding_has_source(
    done: Seq<EventView>,
    current: EventView,
    given: Seq<EventView>,
    k: int,
    t: int,
    data: Map<Seq<char>, JsonView>,
    pulsetime: int,
)
    requires
        in_order(given),
        0 <= k < given.len(),
        grown_from(given, k, current, t, data, pulsetime),
        covered_equally(done, t, data) ==> has_source(given, t, data, pulsetime),
    ensures
        covered_equally(lay_over_all(done, flood_pairs(current, given.skip(k + 1), pulsetime)), t, data)
            ==> has_source(given, t, data, pulsetime),
    decreases given.len() - k,
{
    let rest = given.skip(k + 1);
    let pairs = flood_pairs(current, rest, pulsetime);
    reveal_with_fuel(lay_over_all, 2);
    if rest.len() == 0 {
        assert(pairs =~= seq![current]);
        assert(pairs.drop_first() =~= Seq::<EventView>::empty());
        if current.duration > 0 {
            lemma_lay_over_has_source(done, current, given, t, data, pulsetime);
        }
    } else {
        let e2 = given[k + 1];
        assert(rest[0] == e2);
        assert(given[k].timestamp <= e2.timestamp && e2.duration >= 0);
        let (first, next) = flood_pair(current, e2, pulsetime);
        assert(rest.drop_first() =~= given.skip(k + 2));
        assert(pairs.drop_first() =~= flood_pairs(next, given.skip(k + 2), pulsetime));
        assert(pairs[0] == first);
        let laid = if first.duration > 0 { lay_over(done, first) } else { done };
        let j = choose|j: int|
            0 <= j < given.len() && (#[trigger] given[j]).end() == current.end() && equal_data(
                given[j].data,
                current.data,
            );
        assert(covers_equally(e2, t, data) ==> has_source(given, t, data, pulsetime));
        assert(fills_gap(given[j], given[k + 1], t, data, pulsetime) ==> has_source(
            given,
            t,
            data,
            pulsetime,
        ));
        assert(covers_equally(first, t, data) ==> has_source(given, t, data, pulsetime));
        assert(grown_from(given, k + 1, next, t, data, pulsetime)) by {
            assert(next.end() == given[k + 1].end() || next.end() == given[j].end());
        }
        if first.duration > 0 {
            lemma_lay_over_has_source(done, first, given, t, data, pulsetime);
        }
        lemma_flooding_has_source(laid, next, given, k + 1, t, data, pulsetime);
    }
}

/// Whatever the given events overlap: an instant is covered afterwards, with some data, only if
/// an event with equal data covers it, or it lies between the end of an event and the start of
/// another that are at most `pulsetime` apart, in the half of the one with equal data.
pub proof fn law_flooding_covers_nothing_else(
    events: Seq<EventView>,
    pulsetime: int,
    t: int,
    data: Map<Seq<char>, JsonView>,
)
    requires
        forall|k: int| 0 <= k < events.len() ==> (#[trigger] events[k]).duration >= 0,
        covered_equally(flooded(events, pulsetime), t, data),
    ensures
        covered_equally(events, t, data) || between_equally(events, t, data, pulsetime),
{
    let order = EventOrder::TimeThenDuration;
    let sorted = stable_sort(order, events);
    lemma_sorted_in_order(events);
    assert(sorted.len() > 0);
    assert(sorted.skip(1) =~= sorted.drop_first());
    if sorted[0].covers(t) && equal_data(sorted[0].data, data) {
        assert(covers_equally(sorted[0], t, data));
    }
    assert(sorted[0].end() == sorted[0].end());
    lemma_flooding_has_source(Seq::empty(), sorted[0], sorted, 0, t, data, pulsetime);
    if covered_equally(sorted, t, data) {
        let i = choose|i: int| 0 <= i < sorted.len() && covers_equally(#[trigger] sorted[i], t, data);
        crate::event::lemma_sort_contains(order, events, i);
        let j = choose|j: int| 0 <= j < events.len() && events[j] == sorted[i];
        assert(covers_equally(events[j], t, data));
    } else {
        let (i, j) = choose|i: int, j: int|
            0 <= i < sorted.len() && 0 <= j < sorted.len() && fills_gap(
                #[trigger] sorted[i],
                #[trigger] sorted[j],
                t,
                data,
                pulsetime,
            );
        crate::event::lemma_sort_contains(order, events, i);
        crate::event::lemma_sort_contains(order, events, j);
        let a = choose|a: int| 0 <= a < events.len() && events[a] == sorted[i];
        let b = choose|b: int| 0 <= b < events.len() && events[b] == sorted[j];
        assert(fills_gap(events[a], events[b], t, data, pulsetime));
    }
}

/// The order in which events are given does not matter, unless two different events have both
/// the same start and the same length: of those the later one takes precedence.
pub proof fn law_flooding_forgets_the_given_order(
    a: Seq<EventView>,
    b: Seq<EventView>,
    pulsetime: int,
)
    requires
        a.to_multiset() == b.to_multiset(),
        order_decides(EventOrder::TimeThenDuration, a),
    ensures
        flooded(a, pulsetime) == flooded(b, pulsetime),
{
    law_sort_forgets_the_given_order(EventOrder::TimeThenDuration, a, b);
}

/// Of two events with different data that overlap by 100 ms or more, the later one is kept
/// whole, and of the earlier one the part before it, if there is one.
pub proof fn law_later_event_takes_precedence(e1: EventView, e2: EventView, pulsetime: int)
    requires
        e1.duration > 0,
        e2.duration > 0,
        !equal_data(e1.data, e2.data),
        e1.timestamp <= e2.timestamp,
        e1.timestamp == e2.timestamp ==> e1.duration <= e2.duration,
        e1.end() - e2.timestamp >= NEGATIVE_GAP_TRIM,
    ensures
        flooded(seq![e1, e2], pulsetime) == if e1.timestamp < e2.timestamp {
            seq![e1.spanning(e1.timestamp, e2.timestamp), e2]
        } else {
            seq![e2]
        },
{
    let both = seq![e1, e2];
    crate::event::law_sort_keeps_sorted(EventOrder::TimeThenDuration, both);
    assert(both.drop_first() =~= seq![e2]);
    assert(seq![e2].drop_first() =~= Seq::<EventView>::empty());
    reveal_with_fuel(flood_pairs, 2);
    let pairs = flood_pairs(e1, seq![e2], pulsetime);
    assert(pairs =~= both);
    assert(lay_over(Seq::empty(), e1) =~= seq![e1]);
    assert(seq![e1].drop_last() =~= Seq::<EventView>::empty());
    reveal_with_fuel(lay_over, 2);
    reveal_with_fuel(lay_over_all, 3);
    let cut = seq![e1.spanning(e1.timestamp, e2.timestamp), e2];
    if e1.timestamp < e2.timestamp {
        assert(lay_over(seq![e1], e2) =~= cut);
    }
}

/// Of two events with the same data that overlap, or are at most `pulsetime` apart, one is left
/// that runs from the start of the first to the end of the one that ends last. Its number and its
/// data are those of the first if the two overlap, else those of the longer one, of the first if
/// they are equally long.
pub proof fn law_longer_event_takes_in_the_other(e1: EventView, e2: EventView, pulsetime: int)
    requires
        e1.duration > 0,
        e2.duration > 0,
        equal_data(e1.data, e2.data),
        e1.timestamp <= e2.timestamp,
        e1.timestamp == e2.timestamp ==> e1.duration <= e2.duration,
        e2.timestamp < e1.end() || e2.timestamp - e1.end() <= pulsetime,
    ensures
        ({
            let result = flooded(seq![e1, e2], pulsetime);
            let kept = if e2.timestamp >= e1.end() && e2.duration > e1.duration {
                e2
            } else {
                e1
            };
            &&& result.len() == 1
            &&& result[0].timestamp == e1.timestamp
            &&& result[0].end() == if e1.end() >= e2.end() {
                e1.end()
            } else {
                e2.end()
            }
            &&& result[0].id == kept.id
            &&& result[0].data == kept.data
        }),
{
    let both = seq![e1, e2];
    crate::event::law_sort_keeps_sorted(EventOrder::TimeThenDuration, both);
    assert(both.drop_first() =~= seq![e2]);
    assert(seq![e2].drop_first() =~= Seq::<EventView>::empty());
    reveal_with_fuel(flood_pairs, 2);
    let (first, next) = flood_pair(e1, e2, pulsetime);
    let pairs = flood_pairs(e1, seq![e2], pulsetime);
    assert(pairs =~= seq![first, next]);
    assert(pairs.drop_first() =~= seq![next]);
    assert(seq![next].drop_first() =~= Seq::<EventView>::empty());
    reveal_with_fuel(lay_over_all, 3);
    assert(lay_over(Seq::empty(), first) =~= seq![first]);
    assert(lay_over(Seq::empty(), next) =~= seq![next]);
}

/// Two events with different data that overlap by less than 100 ms meet in the middle of the
/// overlap, to the nanosecond, if the second one lasts that long. Each keeps its number and data.
pub proof fn law_short_overlap_is_halved(e1: EventView, e2: EventView, pulsetime: int)
    requires
        pulsetime >= 0,
        e1.duration > 0,
        e2.duration > 0,
        !equal_data(e1.data, e2.data),
        e1.timestamp < e2.timestamp,
        0 < e1.end() - e2.timestamp < NEGATIVE_GAP_TRIM,
        e1.end() <= e2.end(),
    ensures
        ({
            let result = flooded(seq![e1, e2], pulsetime);
            let middle = result[0].end();
            &&& result.len() == 2
            &&& result[0].timestamp == e1.timestamp
            &&& result[1].timestamp == middle
            &&& result[1].end() == e2.end()
            &&& e2.timestamp <= middle <= e1.end()
            &&& -1 <= (middle - e2.timestamp) - (e1.end() - middle) <= 1
            &&& result[0].id == e1.id && result[0].data == e1.data
            &&& result[1].id == e2.id && result[1].data == e2.data
        }),
{
    let both = seq![e1, e2];
    crate::event::law_sort_keeps_sorted(EventOrder::TimeThenDuration, both);
    assert(both.drop_first() =~= seq![e2]);
    assert(seq![e2].drop_first() =~= Seq::<EventView>::empty());
    reveal_with_fuel(flood_pairs, 2);
    let (first, next) = flood_pair(e1, e2, pulsetime);
    let pairs = flood_pairs(e1, seq![e2], pulsetime);
    assert(pairs =~= seq![first, next]);
    assert(pairs.drop_first() =~= seq![next]);
    assert(seq![next].drop_first() =~= Seq::<EventView>::empty());
    reveal_with_fuel(lay_over_all, 3);
    assert(lay_over(Seq::empty(), first) =~= seq![first]);
    assert(lay_over(seq![first], next) =~= seq![first, next]);
}

/// Half of a number of nanoseconds, rounded down.
fn half(n: i128) -> (h: i128)
    requires
        n > i128::MIN + 1,
    ensures
        h == n as int / 2,
{
    if n >= 0 {
        n / 2
    } else {
        -((-n + 1) / 2)
    }
}

/// Look at the gap between two neighbours.
fn flood_two(e1: &mut Event, e2: &mut Event, pulsetime: i128)
    requires
        old(e1)@.valid(),
        old(e2)@.valid(),
    ensures
        (final(e1)@, final(e2)@) == flood_pair(old(e1)@, old(e2)@, pulsetime as int),
        final(e1)@.valid(),
        final(e2)@.valid(),
{
    let e1_end = e1.calculate_endtime();
    let e2_end = e2.calculate_endtime();
    let gap: i128 = e2.timestamp - e1_end;
    let same_data = e1.data.equals(&e2.data);
    if gap < 0 && same_data {
        let start: i128 = if e1.timestamp <= e2.timestamp { e1.timestamp } else { e2.timestamp };
        let end: i128 = if e1_end <= e2_end { e2_end } else { e1_end };
        e1.timestamp = start;
        e1.duration = end - start;
        e2.timestamp = end;
        e2.duration = 0;
    } else if gap > -NEGATIVE_GAP_TRIM && gap <= pulsetime {
        if same_data {
            if e1.duration >= e2.duration {
                e1.duration = e2_end - e1.timestamp;
                e2.timestamp = e2_end;
                e2.duration = 0;
            } else {
                e2.timestamp = e1.timestamp;
                e2.duration = e2_end - e2.timestamp;
                e1.duration = 0;
            }
        } else {
            let midpoint: i128 = e1_end + half(gap);
            e1.duration = midpoint - e1.timestamp;
            e2.timestamp = midpoint;
            e2.duration = e2_end - midpoint;
        }
    }
}

/// Lay `event` over the end of `done`.
fn lay_event_over(done: &mut Vec<Event>, event: Event)
    requires
        all_valid(views(old(done)@)),
        event@.valid(),
    ensures
        views(final(done)@) == lay_over(views(old(done)@), event@),
        all_valid(views(final(done)@)),
{
    let ghost whole = lay_over(views(done@), event@);
    assert(all_valid(views(done@)));
    while done.len() > 0
        invariant
            whole == lay_over(views(old(done)@), event@),
            lay_over(views(done@), event@) == whole,
            all_valid(views(done@)),
            event@.valid(),
        ensures
            whole == views(done@).push(event@),
        decreases done.len(),
    {
        let last: usize = done.len() - 1;
        assert(views(done@)[last as int].valid());
        let ghost before = views(done@);
        let previous_end = done[last].calculate_endtime();
        let same_data = done[last].data.equals(&event.data);
        if previous_end < event.timestamp || (previous_end == event.timestamp && !same_data) {
            break;
        }
        let start: i128 = done[last].timestamp;
        if same_data {
            let event_end = event.calculate_endtime();
            let end: i128 = if previous_end <= event_end { event_end } else { previous_end };
            if let Some(previous) = done.pop() {
                done.push(Event { duration: end - start, ..previous });
            }
            assert(views(done@) =~= whole);
            assert(all_valid(views(done@)));
            return;
        }
        if start < event.timestamp {
            if let Some(previous) = done.pop() {
                done.push(Event { duration: event.timestamp - start, ..previous });
            }
            done.push(event);
            assert(views(done@) =~= whole);
            assert(all_valid(views(done@)));
            return;
        }
        done.pop();
        assert(views(done@) =~= before.drop_last());
    }
    let ghost before = views(done@);
    done.push(event);
    assert(views(done@) =~= before.push(event@));
}

/// Fills short gaps between events and merges nearby events with the same data.
///
/// - Flooding: a gap of at most `pulsetime` between events with different data is removed by
///   extending both events to the middle of it.
/// - Merging: overlapping events, and events separated by a gap of at most `pulsetime`, that
///   have the same data become one.
///
/// Events are processed in the order of their starts, and among those of their lengths. The
/// result never contains overlapping events: where events with different data overlap, the
/// later one takes precedence and the earlier one is cut off at its start. Events without
/// length are dropped.
///
/// ```text
/// pulsetime: 1 second (one space)
/// input:  [a] [b] [c]
/// output: [a ][b ][c]
///
/// input:  [a] [a] [b ][b]
/// output: [a    ] [b    ]
/// ```
pub fn flood(events: Vec<Event>, pulsetime: i128) -> (result: Vec<Event>)
    requires
        all_valid(views(events@)),
    ensures
        views(result@) == flooded(views(events@), pulsetime as int),
        all_valid(views(result@)),
        all_have_length(views(result@)),
        no_overlap(views(result@)),
        same_data_apart(views(result@)),
{
    let ghost given = views(events@);
    proof {
        lemma_sort_valid(EventOrder::TimeThenDuration, given);
        law_flooded_is_disjoint_and_merged(given, pulsetime as int);
    }
    let mut rest: Vec<Event> = sort_events(EventOrder::TimeThenDuration, events);
    let mut normalized: Vec<Event> = Vec::new();
    if rest.len() == 0 {
        assert(views(normalized@) =~= flooded(given, pulsetime as int));
        return normalized;
    }
    let ghost sorted = views(rest@);
    let mut current = rest.remove(0);
    assert(views(rest@) =~= sorted.drop_first());
    proof {
        assert(sorted[0].valid());
        assert forall|i: int| 0 <= i < rest@.len() implies (#[trigger] views(rest@)[i]).valid() by {
            assert(views(rest@)[i] == sorted[i + 1]);
        }
    }
    proof {
        assert(views(rest@).skip(0) =~= sorted.drop_first());
        assert(views(normalized@) =~= Seq::<EventView>::empty());
    }
    let ghost tail = views(rest@);
    // Each event is compared with the next one, which may be changed before it is compared with
    // its own successor; what is done with is laid over the events before it.
    for next in iter: rest
        invariant
            all_valid(views(normalized@)),
            current@.valid(),
            all_valid(tail),
            views(iter.seq()) == tail,
            lay_over_all(
                views(normalized@),
                flood_pairs(current@, tail.skip(iter.index() as int), pulsetime as int),
            ) == flooded(given, pulsetime as int),
    {
        let mut done = current;
        current = next;
        let ghost i = iter.index() as int;
        assert(current@ == tail[i]);
        assert(tail[i].valid());
        let ghost remaining = tail.skip(i);
        let ghost before = views(normalized@);
        let ghost first = done@;
        flood_two(&mut done, &mut current, pulsetime);
        proof {
            let pairs = flood_pairs(first, remaining, pulsetime as int);
            let shorter = flood_pairs(current@, tail.skip(i + 1), pulsetime as int);
            assert(remaining[0] == tail[i]);
            assert(remaining.drop_first() =~= tail.skip(i + 1));
            assert(pairs =~= seq![done@] + shorter);
            assert(pairs.drop_first() =~= shorter);
            assert(pairs[0] == done@);
        }
        if done.duration > 0 {
            lay_event_over(&mut normalized, done);
        }
    }
    proof {
        assert(tail.skip(tail.len() as int) =~= Seq::<EventView>::empty());
        let pairs = flood_pairs(current@, Seq::<EventView>::empty(), pulsetime as int);
        assert(pairs =~= seq![current@]);
        assert(pairs.drop_first() =~= Seq::<EventView>::empty());
        reveal_with_fuel(lay_over_all, 2);
    }
    if current.duration > 0 {
        lay_event_over(&mut normalized, current);
    }
    normalized
}

} // verus!
