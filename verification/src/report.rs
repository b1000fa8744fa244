//! The reports of the command-line client.

use vstd::prelude::*;

use crate::cli::{fmt_duration, printable, shorten, total, write_table};
#[allow(unused_imports)]
use crate::cli::{
    duration_text, naive_formats, printable_text, row_views, rows_complete, shortened, table, total_of,
    totals_fit,
};
use crate::event::{sort_events, Event, EventOrder};
#[allow(unused_imports)]
use crate::event::{stable_sort, views, EventView, TIME_MAX, TIME_MIN};
use crate::json::{Json, JsonMap};
#[allow(unused_imports)]
use crate::json::JsonView;
use crate::text::{chars_of, decimal_text, join};
#[allow(unused_imports)]
use crate::text::{decimal, fed_lines, lemma_fed_lines_push, texts};
use crate::time::{split_instant, write_formatted};
#[allow(unused_imports)]
use crate::time::{formatted_instant, fraction_of, seconds_of};

verus! {

/// Whether a text comes before another in the order of their characters, or is the same.
pub open spec fn text_le(a: Seq<char>, b: Seq<char>) -> bool
    decreases a.len(),
{
    if a.len() == 0 {
        true
    } else if b.len() == 0 {
        false
    } else if a[0] != b[0] {
        a[0] < b[0]
    } else {
        text_le(a.drop_first(), b.drop_first())
    }
}

/// A sorted list with one more text.
pub open spec fn with_text(sorted: Seq<Seq<char>>, text: Seq<char>) -> Seq<Seq<char>>
    decreases sorted.len(),
{
    if sorted.len() == 0 || text_le(sorted.last(), text) {
        sorted.push(text)
    } else {
        with_text(sorted.drop_last(), text).push(sorted.last())
    }
}

/// The texts in the order of their characters.
pub open spec fn sorted_texts(list: Seq<Seq<char>>) -> Seq<Seq<char>>
    decreases list.len(),
{
    if list.len() == 0 {
        list
    } else {
        with_text(sorted_texts(list.drop_last()), list.last())
    }
}

proof fn lemma_text_le_total(a: Seq<char>, b: Seq<char>)
    ensures
        text_le(a, b) || text_le(b, a),
    decreases a.len(),
{
    if a.len() > 0 && b.len() > 0 && a[0] == b[0] {
        lemma_text_le_total(a.drop_first(), b.drop_first());
    }
}

proof fn lemma_text_le_transitive(a: Seq<char>, b: Seq<char>, c: Seq<char>)
    requires
        text_le(a, b),
        text_le(b, c),
    ensures
        text_le(a, c),
    decreases a.len(),
{
    if a.len() > 0 && b.len() > 0 && c.len() > 0 && a[0] == b[0] && b[0] == c[0] {
        lemma_text_le_transitive(a.drop_first(), b.drop_first(), c.drop_first());
    }
}

/// Whether the texts are in the order of their characters.
pub open spec fn texts_sorted(list: Seq<Seq<char>>) -> bool {
    forall|i: int, j: int|
        0 <= i < j < list.len() ==> text_le(#[trigger] list[i], #[trigger] list[j])
}

proof fn lemma_with_text(sorted: Seq<Seq<char>>, text: Seq<char>)
    requires
        texts_sorted(sorted),
    ensures
        texts_sorted(with_text(sorted, text)),
        with_text(sorted, text).to_multiset() =~= sorted.to_multiset().insert(text),
        forall|i: int|
            0 <= i < with_text(sorted, text).len() ==> #[trigger] with_text(sorted, text)[i] == text
                || (sorted.len() > 0 && text_le(with_text(sorted, text)[i], sorted.last())),
    decreases sorted.len(),
{
    broadcast use vstd::seq_lib::group_to_multiset_ensures;

    let all = with_text(sorted, text);
    if sorted.len() == 0 || text_le(sorted.last(), text) {
        assert forall|i: int, j: int| 0 <= i < j < all.len() implies text_le(
            #[trigger] all[i],
            #[trigger] all[j],
        ) by {
            if j == sorted.len() {
                if i < sorted.len() - 1 {
                    assert(text_le(sorted[i], sorted[sorted.len() - 1]));
                    lemma_text_le_transitive(sorted[i], sorted.last(), text);
                }
            }
        }
        assert forall|i: int| 0 <= i < all.len() implies #[trigger] all[i] == text || (
        sorted.len() > 0 && text_le(all[i], sorted.last())) by {
            if i < sorted.len() - 1 {
                assert(text_le(sorted[i], sorted[sorted.len() - 1]));
            } else if i == sorted.len() - 1 {
                lemma_text_le_total(sorted.last(), sorted.last());
            }
        }
    } else {
        let head = sorted.drop_last();
        let last = sorted.last();
        lemma_with_text(head, text);
        lemma_text_le_total(last, text);
        lemma_text_le_total(last, last);
        let before = with_text(head, text);
        assert(sorted =~= head.push(last));
        assert forall|i: int| 0 <= i < before.len() implies text_le(#[trigger] before[i], last) by {
            if before[i] != text {
                assert(text_le(before[i], head.last()));
                assert(text_le(sorted[head.len() - 1], sorted[sorted.len() - 1]));
                lemma_text_le_transitive(before[i], head.last(), last);
            }
        }
        assert forall|i: int, j: int| 0 <= i < j < all.len() implies text_le(
            #[trigger] all[i],
            #[trigger] all[j],
        ) by {
            assert(all[i] == before[i]);
            if j < before.len() {
                assert(all[j] == before[j]);
            }
        }
        assert forall|i: int| 0 <= i < all.len() implies #[trigger] all[i] == text || (
        sorted.len() > 0 && text_le(all[i], sorted.last())) by {
            if i < before.len() {
                assert(all[i] == before[i]);
            }
        }
    }
}

/// Sorting puts texts in the order of their characters, and neither loses nor adds one.
pub proof fn law_sorting_texts_orders_and_keeps(list: Seq<Seq<char>>)
    ensures
        texts_sorted(sorted_texts(list)),
        sorted_texts(list).to_multiset() =~= list.to_multiset(),
    decreases list.len(),
{
    broadcast use vstd::seq_lib::group_to_multiset_ensures;

    if list.len() > 0 {
        let head = list.drop_last();
        law_sorting_texts_orders_and_keeps(head);
        lemma_with_text(sorted_texts(head), list.last());
        assert(list =~= head.push(list.last()));
    }
}

fn text_before(a: &Vec<char>, b: &Vec<char>) -> (r: bool)
    ensures
        r == text_le(a@, b@),
{
    let mut i: usize = 0;
    proof {
        assert(a@.skip(0) =~= a@);
        assert(b@.skip(0) =~= b@);
    }
    loop
        invariant
            i <= a@.len(),
            i <= b@.len(),
            text_le(a@, b@) == text_le(a@.skip(i as int), b@.skip(i as int)),
        decreases a@.len() - i,
    {
        if i == a.len() {
            return true;
        }
        if i == b.len() {
            return false;
        }
        proof {
            assert(a@.skip(i as int).drop_first() =~= a@.skip(i + 1));
            assert(b@.skip(i as int).drop_first() =~= b@.skip(i + 1));
        }
        if a[i] != b[i] {
            return a[i] < b[i];
        }
        i += 1;
    }
}

fn insert_text(sorted: &mut Vec<String>, text: String)
    ensures
        texts(final(sorted)@) == with_text(texts(old(sorted)@), text@),
{
    let ghost all = texts(sorted@);
    let chars = chars_of(text.as_str());
    let mut at: usize = sorted.len();
    proof {
        assert(all.take(all.len() as int) =~= all);
        assert(with_text(all, text@) =~= with_text(all.take(at as int), text@) + all.skip(
            at as int,
        ));
    }
    while at > 0
        invariant_except_break
            all == texts(sorted@),
            chars@ == text@,
            at <= sorted@.len(),
            with_text(all, text@) == with_text(all.take(at as int), text@) + all.skip(at as int),
        ensures
            all == texts(sorted@),
            at <= sorted@.len(),
            with_text(all, text@) == all.take(at as int).push(text@) + all.skip(at as int),
        decreases at,
    {
        let last = chars_of(sorted[at - 1].as_str());
        let ghost head = all.take(at as int);
        assert(head.last() == last@);
        if text_before(&last, &chars) {
            break;
        }
        proof {
            assert(head.drop_last() =~= all.take(at - 1));
            assert(with_text(head, text@) + all.skip(at as int) =~= with_text(
                all.take(at - 1),
                text@,
            ) + all.skip(at - 1));
        }
        at -= 1;
    }
    sorted.insert(at, text);
    proof {
        assert(texts(sorted@) =~= all.take(at as int).push(text@) + all.skip(at as int));
    }
}

/// Puts texts in the order of their characters.
pub fn sort_texts(list: Vec<String>) -> (sorted: Vec<String>)
    ensures
        texts(sorted@) == sorted_texts(texts(list@)),
{
    let ghost all = texts(list@);
    let mut sorted: Vec<String> = Vec::new();
    proof {
        assert(all.take(0) =~= Seq::empty());
        assert(texts(sorted@) =~= sorted_texts(all.take(0)));
    }
    for text in it: list
        invariant
            it.seq() == list@,
            all == texts(list@),
            texts(sorted@) == sorted_texts(all.take(it.index())),
    {
        proof {
            let i = it.index();
            assert(all[i] == text@);
            assert(all.take(i + 1).drop_last() =~= all.take(i));
            assert(all.take(i + 1).last() == text@);
        }
        insert_text(&mut sorted, text);
    }
    proof {
        assert(all.take(all.len() as int) =~= all);
    }
    sorted
}

/// The lines on buckets.
pub open spec fn bucket_id_lines(ids: Seq<Seq<char>>) -> Seq<char>
    decreases ids.len(),
{
    if ids.len() == 0 {
        Seq::empty()
    } else {
        bucket_id_lines(ids.drop_last()) + (" - "@ + printable_text(ids.last()) + "\n"@)
    }
}

/// The list of buckets, in the order of their names.
pub fn buckets_report(ids: Vec<String>) -> (text: String)
    ensures
        text@ == "Buckets:\n"@ + bucket_id_lines(sorted_texts(texts(ids@))),
{
    let sorted = sort_texts(ids);
    let ghost all = texts(sorted@);
    let mut text = "Buckets:\n".to_string();
    let mut i: usize = 0;
    proof {
        assert(all.take(0) =~= Seq::empty());
        assert(text@ + Seq::<char>::empty() =~= text@);
    }
    while i < sorted.len()
        invariant
            all == texts(sorted@),
            i <= sorted.len(),
            text@ == "Buckets:\n"@ + bucket_id_lines(all.take(i as int)),
        decreases sorted.len() - i,
    {
        text.append(" - ");
        let shown = printable(sorted[i].as_str());
        text.append(shown.as_str());
        text.append("\n");
        proof {
            assert(all.take(i + 1).drop_last() =~= all.take(i as int));
            assert(all.take(i + 1).last() == sorted@[i as int]@);
            assert(text@ =~= "Buckets:\n"@ + bucket_id_lines(all.take(i + 1)));
        }
        i += 1;
    }
    proof {
        assert(all.take(i as int) =~= all);
    }
    text
}

/// The data of a heartbeat, which has to be an object.
pub fn heartbeat_data(value: Json) -> (r: Result<JsonMap, String>)
    ensures
        match value@ {
            JsonView::Object(map) => r matches Ok(data) && data@ == map,
            _ => r matches Err(reason) && reason@ == "data must be a JSON object"@,
        },
{
    match value {
        Json::Object(map) => Ok(map),
        _ => Err("data must be a JSON object".to_string()),
    }
}

/// An instant, to the second.
pub open spec fn time_text(time: int) -> Seq<char> {
    formatted_instant(seconds_of(time) as i64, fraction_of(time) as u32, "%Y-%m-%d %H:%M:%S"@)->Some_0
}

/// Writes an instant, to the second.
pub fn fmt_time(time: i128) -> (text: String)
    requires
        TIME_MIN <= time <= TIME_MAX,
    ensures
        text@ == time_text(time as int),
{
    let (seconds, nanos) = split_instant(time);
    match write_formatted(seconds, nanos, "%Y-%m-%d %H:%M:%S") {
        Some(text) => text,
        None => String::new(),
    }
}

/// Whether every event starts at an instant.
pub open spec fn starts_valid(events: Seq<EventView>) -> bool {
    forall|i: int|
        0 <= i < events.len() ==> TIME_MIN <= (#[trigger] events[i]).timestamp <= TIME_MAX
}

/// When the events from a certain one on start, to the second.
pub open spec fn start_texts(events: Seq<EventView>, from: int) -> Seq<Seq<char>> {
    Seq::new((events.len() - from) as nat, |i: int| time_text(events[from + i].timestamp))
}

/// Writes when the events from a certain one on start, to the second.
pub fn fmt_starts(events: &Vec<Event>, from: usize) -> (times: Vec<String>)
    requires
        from <= events@.len(),
        starts_valid(views(events@)),
    ensures
        texts(times@) == start_texts(views(events@), from as int),
{
    let ghost all = views(events@);
    let ghost wanted = start_texts(all, from as int);
    let mut times: Vec<String> = Vec::new();
    let mut i: usize = from;
    while i < events.len()
        invariant
            all == views(events@),
            starts_valid(all),
            wanted == start_texts(all, from as int),
            from <= i <= events@.len(),
            texts(times@) == wanted.take(i - from),
        decreases events.len() - i,
    {
        let ghost before = texts(times@);
        proof {
            assert(all[i as int] == events@[i as int]@);
        }
        let time = fmt_time(events[i].timestamp);
        times.push(time);
        proof {
            let k = i - from;
            assert(texts(times@) =~= before.push(wanted[k]));
            assert(wanted.take(k + 1) =~= wanted.take(k).push(wanted[k]));
        }
        i += 1;
    }
    proof {
        assert(wanted.take(i - from) =~= wanted);
    }
    times
}

/// The lines on events that start at the given times.
pub open spec fn event_lines(
    times: Seq<Seq<char>>,
    events: Seq<EventView>,
    data: Seq<Seq<char>>,
) -> Seq<char>
    decreases events.len(),
{
    if events.len() == 0 {
        Seq::empty()
    } else {
        event_lines(times, events.drop_last(), data) + (" - "@ + times[events.len() - 1] + " ("@
            + duration_text(events.last().duration) + ") "@ + data[events.len() - 1] + "\n"@)
    }
}

/// The list of events. When each starts and how JSON writes its data are given.
pub fn list_events(times: &Vec<String>, events: &Vec<Event>, data: &Vec<String>) -> (text: String)
    requires
        times@.len() == events@.len(),
        data@.len() == events@.len(),
    ensures
        text@ == "events:\n"@ + event_lines(texts(times@), views(events@), texts(data@)),
{
    let ghost all = views(events@);
    let ghost starts = texts(times@);
    let ghost shown = texts(data@);
    let mut text = "events:\n".to_string();
    let mut i: usize = 0;
    proof {
        assert(all.take(0) =~= Seq::empty());
        assert(text@ + Seq::<char>::empty() =~= text@);
    }
    while i < events.len()
        invariant
            all == views(events@),
            starts == texts(times@),
            shown == texts(data@),
            times@.len() == events@.len(),
            data@.len() == events@.len(),
            i <= events.len(),
            text@ == "events:\n"@ + event_lines(starts, all.take(i as int), shown),
        decreases events.len() - i,
    {
        proof {
            assert(all.take(i + 1).drop_last() =~= all.take(i as int));
            assert(all.take(i + 1).last() == events@[i as int]@);
        }
        let ghost before = text@;
        let duration = fmt_duration(events[i].duration);
        text.append(" - ");
        text.append(times[i].as_str());
        text.append(" (");
        text.append(duration.as_str());
        text.append(") ");
        text.append(data[i].as_str());
        text.append("\n");
        proof {
            assert(text@ =~= before + (" - "@ + times@[i as int]@ + " ("@ + duration@ + ") "@
                + data@[i as int]@ + "\n"@));
            assert(text@ =~= "events:\n"@ + event_lines(starts, all.take(i + 1), shown));
        }
        i += 1;
    }
    proof {
        assert(all.take(i as int) =~= all);
    }
    text
}

/// The list of events. How JSON writes the data of each is given.
pub fn events_report(events: &Vec<Event>, data: &Vec<String>) -> (text: String)
    requires
        data@.len() == events@.len(),
        starts_valid(views(events@)),
    ensures
        text@ == "events:\n"@ + event_lines(
            start_texts(views(events@), 0),
            views(events@),
            texts(data@),
        ),
{
    let times = fmt_starts(events, 0);
    proof {
        assert(texts(times@).len() == events@.len());
    }
    list_events(&times, events, data)
}

/// How many events a query shows.
pub const SHOWN_EVENTS: usize = 10;

/// The lines on the first events of a query.
pub open spec fn query_lines(events: Seq<EventView>, data: Seq<Seq<char>>) -> Seq<char>
    decreases events.len(),
{
    if events.len() == 0 {
        Seq::empty()
    } else {
        query_lines(events.drop_last(), data) + (" - Duration: "@ + duration_text(
            events.last().duration,
        ) + " \tData: "@ + data[events.len() - 1] + "\n"@)
    }
}

/// The line on the length of all events.
pub open spec fn total_line(duration: int) -> Seq<char> {
    "Total duration:\t "@ + duration_text(duration) + "\n"@
}

fn append_total(text: &mut String, duration: i128)
    ensures
        final(text)@ == old(text)@ + total_line(duration as int),
{
    let ghost before = text@;
    let shown = fmt_duration(duration);
    text.append("Total duration:\t ");
    text.append(shown.as_str());
    text.append("\n");
    proof {
        assert(text@ =~= before + total_line(duration as int));
    }
}

/// The first so many of the events.
pub open spec fn first_of(events: Seq<EventView>, count: nat) -> Seq<EventView> {
    if events.len() <= count {
        events
    } else {
        events.take(count as int)
    }
}

/// What a query found in a period: how many events there are, the first of them, and how long
/// they are together. How JSON writes the data of each is given.
pub fn query_report(events: &Vec<Event>, data: &Vec<String>) -> (text: String)
    requires
        data@.len() == events@.len(),
        totals_fit(views(events@)),
    ensures
        text@ == "Showing 10 out of "@ + decimal(events@.len()) + " events:\n"@ + query_lines(
            first_of(views(events@), SHOWN_EVENTS as nat),
            texts(data@),
        ) + total_line(total_of(views(events@))),
{
    let ghost all = views(events@);
    let ghost shown = texts(data@);
    let number = decimal_text(events.len() as u128);
    let mut text = join("Showing 10 out of ", number.as_str());
    text.append(" events:\n");
    let ghost head = text@;
    let count: usize = if events.len() <= SHOWN_EVENTS {
        events.len()
    } else {
        SHOWN_EVENTS
    };
    let mut i: usize = 0;
    proof {
        assert(all.take(0) =~= Seq::empty());
        assert(head + Seq::<char>::empty() =~= head);
    }
    while i < count
        invariant
            all == views(events@),
            shown == texts(data@),
            data@.len() == events@.len(),
            count <= events@.len(),
            i <= count,
            text@ == head + query_lines(all.take(i as int), shown),
        decreases count - i,
    {
        proof {
            assert(all.take(i + 1).drop_last() =~= all.take(i as int));
            assert(all.take(i + 1).last() == events@[i as int]@);
        }
        let ghost before = text@;
        let duration = fmt_duration(events[i].duration);
        text.append(" - Duration: ");
        text.append(duration.as_str());
        text.append(" \tData: ");
        text.append(data[i].as_str());
        text.append("\n");
        proof {
            assert(text@ =~= before + (" - Duration: "@ + duration@ + " \tData: "@ + data@[i as int]@
                + "\n"@));
            assert(text@ =~= head + query_lines(all.take(i + 1), shown));
        }
        i += 1;
    }
    proof {
        assert(all.take(count as int) =~= first_of(all, SHOWN_EVENTS as nat));
    }
    append_total(&mut text, total(events));
    text
}

/// The events, each of which stands for its length and its key.
pub open spec fn keyed(events: Seq<EventView>, keys: Seq<Seq<char>>) -> Seq<EventView> {
    Seq::new(
        events.len(),
        |i: int|
            EventView {
                id: None,
                timestamp: events[i].timestamp,
                duration: events[i].duration,
                data: Map::<Seq<char>, JsonView>::empty().insert("key"@, JsonView::Text(keys[i])),
            },
    )
}

/// The rows on events that stand for their lengths and keys.
pub open spec fn keyed_rows(events: Seq<EventView>) -> Seq<Seq<Seq<char>>> {
    events.map_values(
        |e: EventView| seq![duration_text(e.duration), e.data["key"@]->Text_0],
    )
}

/// The longest events, with their keys.
pub open spec fn top_report(
    events: Seq<EventView>,
    keys: Seq<Seq<char>>,
    title: Seq<char>,
    n: nat,
) -> Seq<char> {
    "Top "@ + decimal(n) + " "@ + title + (if events.len() > n {
        " (out of "@ + decimal(events.len()) + ")"@
    } else {
        Seq::empty()
    }) + "\n"@ + table(
        seq!["Duration"@, "Key"@],
        keyed_rows(first_of(stable_sort(EventOrder::LongestFirst, keyed(events, keys)), n)),
    ) + "\n"@
}

/// Whether the data of an event holds a text as its key.
spec fn has_key(event: EventView) -> bool {
    event.data.contains_key("key"@) && event.data["key"@] is Text
}

/// The longest `n` events, the longest first, with the key of each. Events that are equally long
/// keep their order.
pub fn print_top(events: &Vec<Event>, keys: &Vec<String>, title: &str, n: usize) -> (text: String)
    requires
        keys@.len() == events@.len(),
    ensures
        text@ == top_report(views(events@), texts(keys@), title@, n as nat),
{
    let ghost all = views(events@);
    let ghost wanted = keyed(all, texts(keys@));
    let mut entries: Vec<Event> = Vec::new();
    let mut i: usize = 0;
    while i < events.len()
        invariant
            all == views(events@),
            wanted == keyed(all, texts(keys@)),
            keys@.len() == events@.len(),
            i <= events.len(),
            views(entries@) == wanted.take(i as int),
        decreases events.len() - i,
    {
        let ghost before = views(entries@);
        let mut data = JsonMap::new();
        data.insert("key".to_string(), Json::Text(keys[i].clone()));
        let entry = Event {
            id: None,
            timestamp: events[i].timestamp,
            duration: events[i].duration,
            data,
        };
        entries.push(entry);
        proof {
            assert(all[i as int] == events@[i as int]@);
            assert(texts(keys@)[i as int] == keys@[i as int]@);
            assert(views(entries@) =~= before.push(wanted[i as int]));
            assert(wanted.take(i + 1) =~= wanted.take(i as int).push(wanted[i as int]));
        }
        i += 1;
    }
    proof {
        assert(wanted.take(i as int) =~= wanted);
    }
    let sorted = sort_events(EventOrder::LongestFirst, entries);
    let ghost order = stable_sort(EventOrder::LongestFirst, wanted);
    proof {
        assert forall|k: int| 0 <= k < order.len() implies has_key(#[trigger] order[k]) by {
            crate::event::lemma_sort_contains(EventOrder::LongestFirst, wanted, k);
            let j = choose|j: int| 0 <= j < wanted.len() && wanted[j] == order[k];
            assert(has_key(wanted[j]));
        }
    }
    let count: usize = if sorted.len() <= n {
        sorted.len()
    } else {
        n
    };
    let mut rows: Vec<Vec<String>> = Vec::new();
    let mut k: usize = 0;
    proof {
        assert(row_views(rows@) =~= keyed_rows(order.take(0)));
    }
    while k < count
        invariant
            order == views(sorted@),
            forall|m: int| 0 <= m < order.len() ==> has_key(#[trigger] order[m]),
            count <= sorted@.len(),
            k <= count,
            row_views(rows@) == keyed_rows(order.take(k as int)),
        decreases count - k,
    {
        let ghost before = row_views(rows@);
        let mut row: Vec<String> = Vec::new();
        row.push(fmt_duration(sorted[k].duration));
        proof {
            assert(order[k as int] == sorted@[k as int]@);
            assert(has_key(order[k as int]));
        }
        match sorted[k].data.get("key") {
            Some(Json::Text(key)) => {
                row.push(key.clone());
            },
            _ => {
                row.push(String::new());
            },
        }
        rows.push(row);
        proof {
            assert(texts(row@) =~= seq![
                duration_text(order[k as int].duration),
                order[k as int].data["key"@]->Text_0,
            ]);
            assert(row_views(rows@) =~= before.push(texts(row@)));
            assert(keyed_rows(order.take(k + 1)) =~= keyed_rows(order.take(k as int)).push(
                texts(row@),
            ));
        }
        k += 1;
    }
    proof {
        assert(sorted@.len() == order.len());
        assert(order.take(count as int) =~= first_of(order, n as nat));
        assert(rows_complete(2, row_views(rows@)));
        crate::event::law_sort_orders_and_keeps(EventOrder::LongestFirst, wanted);
    }
    let mut headers: Vec<String> = Vec::new();
    headers.push("Duration".to_string());
    headers.push("Key".to_string());
    proof {
        assert(texts(headers@) =~= seq!["Duration"@, "Key"@]);
    }
    let rest = write_table(&headers, &rows);
    let number = decimal_text(n as u128);
    let mut text = join("Top ", number.as_str());
    text.append(" ");
    text.append(title);
    if events.len() > n {
        text.append(" (out of ");
        let all_of_them = decimal_text(events.len() as u128);
        text.append(all_of_them.as_str());
        text.append(")");
    }
    text.append("\n");
    text.append(rest.as_str());
    text.append("\n");
    proof {
        assert(text@ =~= top_report(all, texts(keys@), title@, n as nat));
    }
    text
}

/// The report on a period: the categories and the titles that took longest, and how long it was
/// in all, in milliseconds.
pub fn activity_report(
    cat_events: &Vec<Event>,
    categories: &Vec<String>,
    title_events: &Vec<Event>,
    titles: &Vec<String>,
    limit: u16,
    total_millis: i64,
) -> (text: String)
    requires
        categories@.len() == cat_events@.len(),
        titles@.len() == title_events@.len(),
    ensures
        text@ == "\n"@ + top_report(
            views(cat_events@),
            texts(categories@),
            "Categories"@,
            limit as nat,
        ) + top_report(views(title_events@), texts(titles@), "Titles"@, limit as nat) + total_line(
            total_millis * 1_000_000,
        ),
{
    let top_categories = print_top(cat_events, categories, "Categories", limit as usize);
    let top_titles = print_top(title_events, titles, "Titles", limit as usize);
    let mut text = join("\n", top_categories.as_str());
    text.append(top_titles.as_str());
    append_total(&mut text, total_millis as i128 * 1_000_000);
    text
}

/// The row on an event: when it was, how long, and what it was about.
pub open spec fn canonical_row(
    time: Seq<char>,
    event: EventView,
    app: Seq<char>,
    title: Seq<char>,
) -> Seq<Seq<char>> {
    seq![
        time,
        duration_text(event.duration),
        "["@ + app + "] "@ + shortened(title, 60),
    ]
}

/// The rows on events from a certain one on, which start at the given times.
pub open spec fn canonical_rows(
    times: Seq<Seq<char>>,
    events: Seq<EventView>,
    apps: Seq<Seq<char>>,
    titles: Seq<Seq<char>>,
    from: int,
) -> Seq<Seq<Seq<char>>> {
    Seq::new(
        (events.len() - from) as nat,
        |i: int| canonical_row(times[i], events[from + i], apps[from + i], titles[from + i]),
    )
}

/// Which event is the first of the last so many.
pub open spec fn last_from(len: nat, count: nat) -> int {
    if len > count {
        len - count
    } else {
        0
    }
}

/// The report on the events of a period.
pub open spec fn canonical_text(
    times: Seq<Seq<char>>,
    events: Seq<EventView>,
    apps: Seq<Seq<char>>,
    titles: Seq<Seq<char>>,
) -> Seq<char> {
    "\nShowing last 10 out of "@ + decimal(events.len()) + " events:\n"@ + table(
        seq!["Timestamp"@, "Duration"@, "Data"@],
        canonical_rows(
            times,
            events,
            apps,
            titles,
            last_from(events.len(), SHOWN_EVENTS as nat),
        ),
    ) + "\n"@ + total_line(total_of(events))
}

/// The report on the events of a period: how many there are, the last of them, and how long
/// they are together. The application and the title of each are given, and when the last ones
/// start.
pub fn describe_last_events(
    times: &Vec<String>,
    events: &Vec<Event>,
    apps: &Vec<String>,
    titles: &Vec<String>,
) -> (text: String)
    requires
        times@.len() == events@.len() - last_from(events@.len(), SHOWN_EVENTS as nat),
        apps@.len() == events@.len(),
        titles@.len() == events@.len(),
        totals_fit(views(events@)),
    ensures
        text@ == canonical_text(texts(times@), views(events@), texts(apps@), texts(titles@)),
{
    let ghost all = views(events@);
    let from: usize = if events.len() > SHOWN_EVENTS {
        events.len() - SHOWN_EVENTS
    } else {
        0
    };
    let ghost wanted = canonical_rows(
        texts(times@),
        all,
        texts(apps@),
        texts(titles@),
        from as int,
    );
    let mut rows: Vec<Vec<String>> = Vec::new();
    let mut i: usize = from;
    proof {
        assert(row_views(rows@) =~= wanted.take(0));
    }
    while i < events.len()
        invariant
            all == views(events@),
            times@.len() == events@.len() - from,
            apps@.len() == events@.len(),
            titles@.len() == events@.len(),
            from <= i <= events@.len(),
            wanted == canonical_rows(
                texts(times@),
                all,
                texts(apps@),
                texts(titles@),
                from as int,
            ),
            row_views(rows@) == wanted.take(i - from),
        decreases events.len() - i,
    {
        let ghost before = row_views(rows@);
        proof {
            assert(all[i as int] == events@[i as int]@);
            assert(texts(times@)[i - from] == times@[i - from]@);
            assert(texts(apps@)[i as int] == apps@[i as int]@);
            assert(texts(titles@)[i as int] == titles@[i as int]@);
        }
        let mut data = join("[", apps[i].as_str());
        data.append("] ");
        let title = shorten(titles[i].as_str(), 60);
        data.append(title.as_str());
        let mut row: Vec<String> = Vec::new();
        row.push(times[i - from].clone());
        row.push(fmt_duration(events[i].duration));
        row.push(data);
        rows.push(row);
        proof {
            let k = i - from;
            assert(texts(row@) =~= wanted[k]);
            assert(row_views(rows@) =~= before.push(texts(row@)));
            assert(wanted.take(k + 1) =~= wanted.take(k).push(wanted[k]));
        }
        i += 1;
    }
    proof {
        assert(wanted.take(i - from) =~= wanted);
        assert(rows_complete(3, row_views(rows@)));
    }
    let mut headers: Vec<String> = Vec::new();
    headers.push("Timestamp".to_string());
    headers.push("Duration".to_string());
    headers.push("Data".to_string());
    proof {
        assert(texts(headers@) =~= seq!["Timestamp"@, "Duration"@, "Data"@]);
    }
    let rest = write_table(&headers, &rows);
    let number = decimal_text(events.len() as u128);
    let mut text = join("\nShowing last 10 out of ", number.as_str());
    text.append(" events:\n");
    text.append(rest.as_str());
    text.append("\n");
    append_total(&mut text, total(events));
    text
}

/// The report on the events of a period: how many there are, the last of them, and how long
/// they are together. The application and the title of each are given.
pub fn canonical_report(events: &Vec<Event>, apps: &Vec<String>, titles: &Vec<String>) -> (text:
    String)
    requires
        apps@.len() == events@.len(),
        titles@.len() == events@.len(),
        starts_valid(views(events@)),
        totals_fit(views(events@)),
    ensures
        text@ == canonical_text(
            start_texts(views(events@), last_from(events@.len(), SHOWN_EVENTS as nat)),
            views(events@),
            texts(apps@),
            texts(titles@),
        ),
{
    let from: usize = if events.len() > SHOWN_EVENTS {
        events.len() - SHOWN_EVENTS
    } else {
        0
    };
    let times = fmt_starts(events, from);
    proof {
        assert(texts(times@).len() == events@.len() - from);
    }
    describe_last_events(&times, events, apps, titles)
}

/// The events of which a report shows so many are the longest: they come with the longest first,
/// there are no fewer than asked for if there are enough, and none that is left out is longer than
/// one that is shown.
pub proof fn law_shown_events_are_the_longest(events: Seq<EventView>, n: nat, event: EventView)
    requires
        events.contains(event),
    ensures
        ({
            let shown = first_of(stable_sort(EventOrder::LongestFirst, events), n);
            &&& shown.len() == if events.len() <= n {
                events.len()
            } else {
                n
            }
            &&& forall|i: int, j: int|
                0 <= i < j < shown.len() ==> (#[trigger] shown[i]).duration >= (
                #[trigger] shown[j]).duration
            &&& forall|i: int| 0 <= i < shown.len() ==> events.contains(#[trigger] shown[i])
            &&& shown.contains(event) || forall|i: int|
                0 <= i < shown.len() ==> (#[trigger] shown[i]).duration >= event.duration
        }),
{
    let order = EventOrder::LongestFirst;
    let sorted = stable_sort(order, events);
    let shown = first_of(sorted, n);
    crate::event::law_sort_orders_and_keeps(order, events);
    assert forall|i: int| 0 <= i < shown.len() implies #[trigger] shown[i] == sorted[i]
        && events.contains(shown[i]) by {
        crate::event::lemma_sort_contains(order, events, i);
    }
    assert forall|i: int, j: int| 0 <= i < j < shown.len() implies (#[trigger] shown[i]).duration >= (
    #[trigger] shown[j]).duration by {
        assert(crate::event::may_precede(order, sorted[i], sorted[j]));
    }
    let k = choose|k: int| 0 <= k < events.len() && events[k] == event;
    crate::event::lemma_sort_contains_back(order, events, k);
    let at = choose|at: int| 0 <= at < sorted.len() && sorted[at] == event;
    if at < shown.len() {
        assert(shown[at] == event);
    } else {
        assert forall|i: int| 0 <= i < shown.len() implies (#[trigger] shown[i]).duration
            >= event.duration by {
            assert(crate::event::may_precede(order, sorted[i], sorted[at]));
        }
    }
}

/// The report on a period shows the last events in their order, each with its start, its length,
/// its application and its title, and no fewer than ten if there are as many.
pub proof fn law_last_events_are_shown(
    times: Seq<Seq<char>>,
    events: Seq<EventView>,
    apps: Seq<Seq<char>>,
    titles: Seq<Seq<char>>,
    k: int,
)
    requires
        0 <= k < 10,
        k < events.len(),
    ensures
        ({
            let rows = canonical_rows(
                times,
                events,
                apps,
                titles,
                last_from(events.len(), SHOWN_EVENTS as nat),
            );
            let row = rows[rows.len() - 1 - k];
            let at = events.len() - 1 - k;
            &&& rows.len() == if events.len() < 10 {
                events.len() as int
            } else {
                10
            }
            &&& row[0] == times[rows.len() - 1 - k]
            &&& row[1] == duration_text(events[at].duration)
            &&& row[2] == "["@ + apps[at] + "] "@ + shortened(titles[at], 60)
        }),
{
}

/// The rows on the longest events tell the length and the key of each of them.
pub proof fn law_rows_tell_lengths_and_keys(
    events: Seq<EventView>,
    keys: Seq<Seq<char>>,
    k: int,
)
    requires
        keys.len() == events.len(),
        0 <= k < events.len(),
    ensures
        keyed(events, keys).len() == events.len(),
        keyed(events, keys)[k].duration == events[k].duration,
        keyed_rows(keyed(events, keys)).len() == events.len(),
        keyed_rows(keyed(events, keys))[k] == seq![duration_text(events[k].duration), keys[k]],
{
}

/// The line on a total ends with the length, and the report on a period with the line on all of
/// its events, also those that it does not show.
pub proof fn law_report_ends_with_the_total(
    times: Seq<Seq<char>>,
    events: Seq<EventView>,
    apps: Seq<Seq<char>>,
    titles: Seq<Seq<char>>,
)
    ensures
        ({
            let text = canonical_text(times, events, apps, titles);
            let length = duration_text(total_of(events));
            &&& text.len() >= length.len() + 1
            &&& text.last() == '\n'
            &&& text.subrange(text.len() - 1 - length.len(), text.len() - 1) == length
        }),
{
    reveal_strlit("\n");
    let text = canonical_text(times, events, apps, titles);
    let length = duration_text(total_of(events));
    let line = total_line(total_of(events));
    let n = text.len() - line.len();
    assert(text.skip(n) =~= line);
    assert(text.subrange(text.len() - 1 - length.len(), text.len() - 1) =~= length) by {
        assert(line.subrange(line.len() - 1 - length.len(), line.len() - 1) =~= length);
        assert forall|i: int| 0 <= i < length.len() implies #[trigger] text[text.len() - 1
            - length.len() + i] == length[i] by {
            assert(text.skip(n)[line.len() - 1 - length.len() + i] == length[i]);
        }
    }
}

/// The list of buckets has one line for each of them, in their order, which shows nothing but the
/// printable form of its id.
pub proof fn law_each_bucket_has_its_line(ids: Seq<Seq<char>>)
    ensures
        bucket_id_lines(ids) == fed_lines(
            Seq::new(ids.len(), |i: int| " - "@ + printable_text(ids[i])),
        ),
    decreases ids.len(),
{
    let all = Seq::new(ids.len(), |i: int| " - "@ + printable_text(ids[i]));
    if ids.len() > 0 {
        let head = ids.drop_last();
        let heads = Seq::new(head.len(), |i: int| " - "@ + printable_text(head[i]));
        let line = " - "@ + printable_text(ids.last());
        law_each_bucket_has_its_line(head);
        assert(all =~= heads.push(line));
        lemma_fed_lines_push(heads, line);
        reveal_strlit("\n");
        assert(line + "\n"@ =~= line.push('\n'));
    }
}

/// The list of events has one line for each of them, in their order, with its time, its length and
/// its data.
pub proof fn law_each_event_has_its_line(
    times: Seq<Seq<char>>,
    events: Seq<EventView>,
    data: Seq<Seq<char>>,
)
    ensures
        event_lines(times, events, data) == fed_lines(
            Seq::new(
                events.len(),
                |i: int|
                    " - "@ + times[i] + " ("@ + duration_text(events[i].duration) + ") "@ + data[i],
            ),
        ),
    decreases events.len(),
{
    let all = Seq::new(
        events.len(),
        |i: int| " - "@ + times[i] + " ("@ + duration_text(events[i].duration) + ") "@ + data[i],
    );
    if events.len() > 0 {
        let head = events.drop_last();
        let heads = Seq::new(
            head.len(),
            |i: int| " - "@ + times[i] + " ("@ + duration_text(head[i].duration) + ") "@ + data[i],
        );
        let n = events.len() - 1;
        let line = " - "@ + times[n] + " ("@ + duration_text(events[n].duration) + ") "@ + data[n];
        law_each_event_has_its_line(times, head, data);
        assert(all =~= heads.push(line));
        lemma_fed_lines_push(heads, line);
        reveal_strlit("\n");
        assert(line + "\n"@ =~= line.push('\n'));
    }
}

/// The result of a query has one line for each event, in their order, with its length and its
/// data.
pub proof fn law_each_result_has_its_line(events: Seq<EventView>, data: Seq<Seq<char>>)
    ensures
        query_lines(events, data) == fed_lines(
            Seq::new(
                events.len(),
                |i: int|
                    " - Duration: "@ + duration_text(events[i].duration) + " \tData: "@ + data[i],
            ),
        ),
    decreases events.len(),
{
    let all = Seq::new(
        events.len(),
        |i: int| " - Duration: "@ + duration_text(events[i].duration) + " \tData: "@ + data[i],
    );
    if events.len() > 0 {
        let head = events.drop_last();
        let heads = Seq::new(
            head.len(),
            |i: int| " - Duration: "@ + duration_text(head[i].duration) + " \tData: "@ + data[i],
        );
        let n = events.len() - 1;
        let line = " - Duration: "@ + duration_text(events[n].duration) + " \tData: "@ + data[n];
        law_each_result_has_its_line(head, data);
        assert(all =~= heads.push(line));
        lemma_fed_lines_push(heads, line);
        reveal_strlit("\n");
        assert(line + "\n"@ =~= line.push('\n'));
    }
}

/// Times are shown in a form in which they can be given.
pub proof fn law_times_are_shown_as_they_are_given(time: int)
    ensures
        exists|i: int|
            0 <= i < naive_formats().len() && time_text(time) == formatted_instant(
                seconds_of(time) as i64,
                fraction_of(time) as u32,
                #[trigger] naive_formats()[i],
            )->Some_0,
{
    assert(naive_formats()[1] == "%Y-%m-%d %H:%M:%S"@);
}

/// Each event from a certain one on is shown with the time at which it starts itself.
pub proof fn law_each_event_has_its_own_time(events: Seq<EventView>, from: int, k: int)
    requires
        0 <= from <= events.len(),
        0 <= k < events.len() - from,
    ensures
        ({
            let shown = start_texts(events, from);
            &&& shown.len() == events.len() - from
            &&& shown[shown.len() - 1 - k] == time_text(events[events.len() - 1 - k].timestamp)
        }),
{
}

/// The heading says how many events there are if some of them are not shown, and only then.
pub proof fn law_heading_tells_what_is_left_out(
    events: Seq<EventView>,
    keys: Seq<Seq<char>>,
    title: Seq<char>,
    n: nat,
)
    ensures
        events.len() > n ==> ("Top "@ + decimal(n) + " "@ + title + " (out of "@ + decimal(
            events.len(),
        ) + ")"@ + "\n"@).is_prefix_of(top_report(events, keys, title, n)),
        events.len() <= n ==> ("Top "@ + decimal(n) + " "@ + title + "\n"@).is_prefix_of(
            top_report(events, keys, title, n),
        ),
{
    let text = top_report(events, keys, title, n);
    let front = "Top "@ + decimal(n) + " "@ + title;
    if events.len() > n {
        let head = front + " (out of "@ + decimal(events.len()) + ")"@ + "\n"@;
        assert(head =~= text.subrange(0, head.len() as int));
    } else {
        let head = front + "\n"@;
        assert(front + Seq::<char>::empty() =~= front);
        assert(head =~= text.subrange(0, head.len() as int));
    }
}

} // verus!
