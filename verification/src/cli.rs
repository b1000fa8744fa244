//! What the command-line client reads and writes.

use vstd::prelude::*;

use crate::classes::{CategoryId, CategorySpec};
use crate::event::Event;
#[allow(unused_imports)]
use crate::event::{views, EventView, TIME_MAX, TIME_MIN};
use crate::json::{Json, JsonMap};
#[allow(unused_imports)]
use crate::json::{lemma_list_view, list_view, JsonView};
use crate::text::{chars_of, decimal_text, is_white_space, join, text_of};
#[allow(unused_imports)]
use crate::text::{decimal, fed_lines, lemma_fed_lines_push, texts, trimmed_end, white_space};
#[allow(unused_imports)]
use crate::time::{instant_at, naive_day, naive_instant, rfc3339_instant};
use crate::time::{
    instant_after, read_naive, read_naive_day, read_rfc3339, Instant, NANOS_PER_SECOND,
    SECONDS_PER_DAY, UNIX_EPOCH_DAY,
};
#[allow(unused_imports)]
use crate::worker::LENGTH_MAX;

verus! {

/// The length of a day in nanoseconds.
pub const DAY: i128 = 86_400_000_000_000;

/// The port of a server: the one that is asked for, or else the default one.
pub fn server_port(port: Option<u16>, testing: bool) -> (r: u16)
    ensures
        r == match port {
            Some(port) => port,
            None => if testing {
                5666
            } else {
                5600
            },
        },
{
    match port {
        Some(port) => port,
        None => if testing {
            5666
        } else {
            5600
        },
    }
}

/// The period to ask for: from a day ago to a year from now, but for what is given.
pub fn resolve_range(start: Option<Instant>, stop: Option<Instant>, now: i128) -> (range: (
    Instant,
    Instant,
))
    requires
        TIME_MIN + DAY <= now <= TIME_MAX - 365 * DAY,
    ensures
        range.0 == match start {
            Some(start) => start,
            None => instant_at(now - DAY),
        },
        range.1 == match stop {
            Some(stop) => stop,
            None => instant_at(now + 365 * DAY),
        },
{
    let from = match start {
        Some(start) => start,
        None => instant_after(now - DAY),
    };
    let to = match stop {
        Some(stop) => stop,
        None => instant_after(now + 365 * DAY),
    };
    (from, to)
}

/// What a text that stands for a date and time says.
#[derive(Debug)]
pub enum ParsedTime {
    /// An instant.
    Instant(Instant),
    /// A date and time in the local time zone, as if it were in UTC.
    Local(Instant),
    /// Nothing.
    Unknown,
}

/// The formats of dates and times without an offset, in the order in which they are tried.
pub open spec fn naive_formats() -> Seq<Seq<char>> {
    seq!["%Y-%m-%dT%H:%M:%S"@, "%Y-%m-%d %H:%M:%S"@, "%Y-%m-%dT%H:%M"@, "%Y-%m-%d %H:%M"@]
}

/// What the first format says that can read the text.
pub open spec fn first_naive(text: Seq<char>, formats: Seq<Seq<char>>) -> Option<(i64, u32)>
    decreases formats.len(),
{
    if formats.len() == 0 {
        None
    } else {
        match naive_instant(text, formats[0]) {
            Some(instant) => Some(instant),
            None => first_naive(text, formats.drop_first()),
        }
    }
}

/// The midnight at which a day begins.
pub open spec fn midnight(day: int) -> Instant {
    Instant { seconds: ((day - UNIX_EPOCH_DAY) * SECONDS_PER_DAY) as i64, nanos: 0 }
}

/// What a text that stands for a date and time says, by what the readers make of it.
pub open spec fn parsed_time(
    rfc3339: Result<(i64, u32), Seq<char>>,
    naive: Option<(i64, u32)>,
    day: Option<i32>,
) -> ParsedTime {
    match rfc3339 {
        Ok((seconds, nanos)) => ParsedTime::Instant(Instant { seconds, nanos }),
        Err(_) => match naive {
            Some((seconds, nanos)) => ParsedTime::Local(Instant { seconds, nanos }),
            None => match day {
                Some(day) => ParsedTime::Local(midnight(day as int)),
                None => ParsedTime::Unknown,
            },
        },
    }
}

fn day_start(day: i32) -> (time: Instant)
    ensures
        time == midnight(day as int),
{
    let days: i64 = day as i64 - UNIX_EPOCH_DAY;
    Instant { seconds: days * SECONDS_PER_DAY, nanos: 0 }
}

/// What a text that stands for a date and time says, by what the readers make of it: the one for
/// RFC 3339, the first one that can read it as a date and time without an offset, and the one
/// for a day.
pub fn choose_time(
    rfc3339: Result<(i64, u32), String>,
    naive: Option<(i64, u32)>,
    day: Option<i32>,
) -> (parsed: ParsedTime)
    ensures
        parsed == parsed_time(
            match rfc3339 {
                Ok(instant) => Ok(instant),
                Err(reason) => Err(reason@),
            },
            naive,
            day,
        ),
{
    if let Ok((seconds, nanos)) = rfc3339 {
        return ParsedTime::Instant(Instant { seconds, nanos });
    }
    match naive {
        Some((seconds, nanos)) => ParsedTime::Local(Instant { seconds, nanos }),
        None => match day {
            Some(day) => ParsedTime::Local(day_start(day)),
            None => ParsedTime::Unknown,
        },
    }
}

/// Reads a date and time: by RFC 3339, or one without an offset in the local time zone.
pub fn parse_datetime(value: &str) -> (parsed: ParsedTime)
    ensures
        parsed == parsed_time(
            rfc3339_instant(value@),
            first_naive(value@, naive_formats()),
            naive_day(value@, "%Y-%m-%d"@),
        ),
{
    proof {
        let formats = naive_formats();
        assert(formats.drop_first().drop_first().drop_first().drop_first() =~= Seq::empty());
        reveal_with_fuel(first_naive, 5);
        assert(first_naive(value@, formats) == match naive_instant(value@, formats[0]) {
            Some(t) => Some(t),
            None => match naive_instant(value@, formats[1]) {
                Some(t) => Some(t),
                None => match naive_instant(value@, formats[2]) {
                    Some(t) => Some(t),
                    None => naive_instant(value@, formats[3]),
                },
            },
        });
    }
    let rfc3339 = read_rfc3339(value);
    let mut naive = read_naive(value, "%Y-%m-%dT%H:%M:%S");
    if naive.is_none() {
        naive = read_naive(value, "%Y-%m-%d %H:%M:%S");
    }
    if naive.is_none() {
        naive = read_naive(value, "%Y-%m-%dT%H:%M");
    }
    if naive.is_none() {
        naive = read_naive(value, "%Y-%m-%d %H:%M");
    }
    let day = read_naive_day(value, "%Y-%m-%d");
    choose_time(rfc3339, naive, day)
}

/// How `Debug` shows a text: in quotes, with some characters escaped.
pub uninterp spec fn debug_text(text: Seq<char>) -> Seq<char>;

/// Shows a text by its `Debug`. The result is what that makes of it.
#[verifier::external_body]
fn show(text: &str) -> (shown: String)
    ensures
        shown@ == debug_text(text@),
{
    format!("{text:?}")
}

/// The instant for a date and time that has been read, or why there is none. `shown` is the text
/// that it was read from, as `Debug` shows it. For one in the local time zone, `resolved` is the
/// earliest instant at which it occurs there.
pub open spec fn resolved_time(
    shown: Seq<char>,
    parsed: ParsedTime,
    resolved: Option<Instant>,
) -> Result<Instant, Seq<char>> {
    match parsed {
        ParsedTime::Instant(time) => Ok(time),
        ParsedTime::Local(_) => match resolved {
            Some(time) => Ok(time),
            None => Err(shown + " doesn't exist in the local time zone"@),
        },
        ParsedTime::Unknown => Err("invalid date/time "@ + shown),
    }
}

/// The instant for a date and time that has been read, or why there is none. `shown` is the text
/// that it was read from, as `Debug` shows it. For one in the local time zone, `resolved` is the
/// earliest instant at which it occurs there, if it does.
pub fn choose_instant(shown: &str, parsed: ParsedTime, resolved: Option<Instant>) -> (r: Result<
    Instant,
    String,
>)
    ensures
        (match r {
            Ok(time) => Ok(time),
            Err(reason) => Err(reason@),
        }) == resolved_time(shown@, parsed, resolved),
{
    match parsed {
        ParsedTime::Instant(time) => Ok(time),
        ParsedTime::Local(_) => match resolved {
            Some(time) => Ok(time),
            None => Err(join(shown, " doesn't exist in the local time zone")),
        },
        ParsedTime::Unknown => Err(join("invalid date/time ", shown)),
    }
}

/// The instant for a date and time that has been read from `value`, or why there is none. For
/// one in the local time zone, `resolved` is the earliest instant at which it occurs there, if
/// it does.
pub fn resolve_datetime(value: &str, parsed: ParsedTime, resolved: Option<Instant>) -> (r: Result<
    Instant,
    String,
>)
    ensures
        (match r {
            Ok(time) => Ok(time),
            Err(reason) => Err(reason@),
        }) == resolved_time(debug_text(value@), parsed, resolved),
{
    let shown = show(value);
    choose_instant(shown.as_str(), parsed, resolved)
}

/// What a query about the desktop of a host is built from.
#[derive(Debug)]
pub struct QueryParamsBase {
    pub bid_browsers: Vec<String>,
    pub classes: Vec<(CategoryId, CategorySpec)>,
    pub filter_classes: Vec<CategoryId>,
    pub filter_afk: bool,
    pub include_audible: bool,
}

/// What a query about the desktop of a host is built from.
#[derive(Debug)]
pub struct DesktopQueryParams {
    pub base: QueryParamsBase,
    pub bid_window: String,
    pub bid_afk: String,
    pub always_active_pattern: Option<String>,
}

/// What a query about the desktop of a host is built from: its watchers of windows and of
/// absence, and the classes. Time away counts only where something is heard.
pub fn desktop_params(hostname: &str, classes: Vec<(CategoryId, CategorySpec)>) -> (params:
    DesktopQueryParams)
    ensures
        params.base.bid_browsers@.len() == 0,
        params.base.classes == classes,
        params.base.filter_classes@.len() == 0,
        params.base.filter_afk,
        params.base.include_audible,
        params.bid_window@ == "aw-watcher-window_"@ + hostname@,
        params.bid_afk@ == "aw-watcher-afk_"@ + hostname@,
        params.always_active_pattern is None,
{
    DesktopQueryParams {
        base: QueryParamsBase {
            bid_browsers: Vec::new(),
            classes,
            filter_classes: Vec::new(),
            filter_afk: true,
            include_audible: true,
        },
        bid_window: join("aw-watcher-window_", hostname),
        bid_afk: join("aw-watcher-afk_", hostname),
        always_active_pattern: None,
    }
}

/// The sum of the lengths of the events.
pub open spec fn total_of(events: Seq<EventView>) -> int
    decreases events.len(),
{
    if events.len() == 0 {
        0
    } else {
        total_of(events.drop_last()) + events.last().duration
    }
}

/// Whether no sum of the lengths leaves the range of lengths on the way.
pub open spec fn totals_fit(events: Seq<EventView>) -> bool {
    forall|k: int|
        0 <= k <= events.len() ==> -LENGTH_MAX <= #[trigger] total_of(events.take(k)) <= LENGTH_MAX
}

/// The sum of the lengths of the events, in nanoseconds.
pub fn total(events: &Vec<Event>) -> (sum: i128)
    requires
        totals_fit(views(events@)),
    ensures
        sum == total_of(views(events@)),
{
    let ghost all = views(events@);
    let mut sum: i128 = 0;
    let mut i: usize = 0;
    while i < events.len()
        invariant
            all == views(events@),
            totals_fit(all),
            i <= events.len(),
            sum == total_of(all.take(i as int)),
        decreases events.len() - i,
    {
        proof {
            assert(all.take(i + 1).drop_last() =~= all.take(i as int));
            assert(all.take(i + 1).last() == events@[i as int]@);
            assert(-LENGTH_MAX <= total_of(all.take(i + 1)) <= LENGTH_MAX);
        }
        sum = sum + events[i].duration;
        i += 1;
    }
    proof {
        assert(all.take(i as int) =~= all);
    }
    sum
}

/// The text of a value: a text stands for itself, anything else for how JSON writes it.
pub open spec fn value_text(value: JsonView, written: Seq<char>) -> Seq<char> {
    match value {
        JsonView::Text(text) => text,
        _ => written,
    }
}

/// The text of the value of a key. Empty if there is none.
pub open spec fn data_text(data: Map<Seq<char>, JsonView>, key: Seq<char>, written: Seq<char>) -> Seq<
    char,
> {
    if data.contains_key(key) {
        value_text(data[key], written)
    } else {
        Seq::empty()
    }
}

/// The text of the value of a key: a text itself, or how JSON writes the value, which is given.
/// Empty if there is none.
pub fn data_str(data: &JsonMap, key: &str, written: &str) -> (text: String)
    ensures
        text@ == data_text(data@, key@, written@),
{
    match data.get(key) {
        Some(Json::Text(text)) => text.clone(),
        Some(_) => written.to_string(),
        None => {
            let empty = String::new();
            proof {
                assert(empty@ =~= Seq::empty());
            }
            empty
        },
    }
}

/// The parts of the name of a category, joined.
pub open spec fn joined_parts(parts: Seq<JsonView>, written: Seq<Seq<char>>) -> Seq<char>
    decreases parts.len(),
{
    if parts.len() == 0 {
        Seq::empty()
    } else if parts.len() == 1 {
        value_text(parts[0], written[0])
    } else {
        joined_parts(parts.drop_last(), written) + " > "@ + value_text(
            parts.last(),
            written[parts.len() - 1],
        )
    }
}

/// The name of the category of an event.
pub open spec fn category_text(
    data: Map<Seq<char>, JsonView>,
    written_parts: Seq<Seq<char>>,
    written: Seq<char>,
) -> Seq<char> {
    if data.contains_key("$category"@) && data["$category"@] is Array {
        joined_parts(data["$category"@]->Array_0, written_parts)
    } else {
        data_text(data, "$category"@, written)
    }
}

/// The name of the category of an event: the names of the categories that it lies in, and its
/// own. How JSON writes the value, and each of its parts if it is a list, is given.
pub fn category_name(data: &JsonMap, written_parts: &Vec<String>, written: &str) -> (name: String)
    requires
        data@.contains_key("$category"@) && data@["$category"@] is Array ==> written_parts@.len()
            == data@["$category"@]->Array_0.len(),
    ensures
        name@ == category_text(data@, texts(written_parts@), written@),
{
    match data.get("$category") {
        Some(Json::Array(parts)) => {
            let ghost all = list_view(parts@);
            let ghost other = texts(written_parts@);
            let mut name = String::new();
            let mut i: usize = 0;
            proof {
                lemma_list_view(parts@);
                assert(all.take(0) =~= Seq::empty());
                assert(name@ =~= joined_parts(all.take(0), other));
            }
            while i < parts.len()
                invariant
                    all == list_view(parts@),
                    all.len() == parts@.len(),
                    other == texts(written_parts@),
                    written_parts@.len() == parts@.len(),
                    forall|k: int| 0 <= k < parts@.len() ==> #[trigger] all[k] == parts@[k]@,
                    i <= parts.len(),
                    name@ == joined_parts(all.take(i as int), other),
                decreases parts.len() - i,
            {
                let ghost before = name@;
                if i > 0 {
                    name.append(" > ");
                }
                match &parts[i] {
                    Json::Text(text) => {
                        name.append(text.as_str());
                    },
                    _ => {
                        name.append(written_parts[i].as_str());
                    },
                }
                proof {
                    assert(all.take(i + 1).drop_last() =~= all.take(i as int));
                    assert(all.take(i + 1).last() == parts@[i as int]@);
                    assert(other[i as int] == written_parts@[i as int]@);
                    assert(name@ =~= joined_parts(all.take(i + 1), other));
                }
                i += 1;
            }
            proof {
                assert(all.take(i as int) =~= all);
            }
            name
        },
        _ => data_str(data, "$category", written),
    }
}

/// Whether the character is a control character of Unicode.
pub open spec fn control(c: char) -> bool {
    c as u32 <= 0x1f || 0x7f <= c as u32 <= 0x9f
}

/// A digit of a number in base 16.
pub open spec fn hex_digit(n: int) -> char {
    if n < 10 {
        ('0' as int + n) as char
    } else {
        ('a' as int + n - 10) as char
    }
}

/// How a control character is written so that it does nothing.
pub open spec fn escaped_control(c: char) -> Seq<char> {
    let n = c as u32 as int;
    if c == '\t' {
        seq!['\\', 't']
    } else if c == '\r' {
        seq!['\\', 'r']
    } else if c == '\n' {
        seq!['\\', 'n']
    } else if n < 16 {
        seq!['\\', 'u', '{', hex_digit(n), '}']
    } else {
        seq!['\\', 'u', '{', hex_digit(n / 16), hex_digit(n % 16), '}']
    }
}

/// A text with its control characters escaped.
pub open spec fn printable_text(text: Seq<char>) -> Seq<char>
    decreases text.len(),
{
    if text.len() == 0 {
        Seq::empty()
    } else if control(text.last()) {
        printable_text(text.drop_last()) + escaped_control(text.last())
    } else {
        printable_text(text.drop_last()).push(text.last())
    }
}

/// A printable text holds no control character, and one without any is printable as it is.
pub proof fn law_printable_text_drives_no_terminal(text: Seq<char>)
    ensures
        forall|i: int|
            0 <= i < printable_text(text).len() ==> !control(#[trigger] printable_text(text)[i]),
        (forall|i: int| 0 <= i < text.len() ==> !control(#[trigger] text[i])) ==> printable_text(
            text,
        ) == text,
    decreases text.len(),
{
    if text.len() > 0 {
        let head = text.drop_last();
        let c = text.last();
        law_printable_text_drives_no_terminal(head);
        let all = printable_text(text);
        let before = printable_text(head);
        assert forall|i: int| 0 <= i < all.len() implies !control(#[trigger] all[i]) by {
            if i < before.len() {
                assert(all[i] == before[i]);
            } else if control(c) {
                assert(all[i] == escaped_control(c)[i - before.len()]);
            }
        }
        if forall|i: int| 0 <= i < text.len() ==> !control(#[trigger] text[i]) {
            assert forall|i: int| 0 <= i < head.len() implies !control(#[trigger] head[i]) by {
                assert(head[i] == text[i]);
            }
            assert(!control(text[text.len() - 1]));
            assert(head.push(c) =~= text);
        }
    } else {
        assert(printable_text(text) =~= text);
    }
}

fn hex_char(n: u32) -> (c: char)
    requires
        n < 16,
    ensures
        c == hex_digit(n as int),
{
    if n < 10 {
        (0x30u8 + n as u8) as char
    } else {
        (0x61u8 + (n as u8 - 10)) as char
    }
}

/// Escapes control characters, such as those of sequences that drive a terminal.
pub fn printable(text: &str) -> (r: String)
    ensures
        r@ == printable_text(text@),
{
    let chars = chars_of(text);
    let mut r = String::new();
    let mut i: usize = 0;
    proof {
        assert(text@.take(0) =~= Seq::empty());
        assert(r@ =~= Seq::empty());
    }
    while i < chars.len()
        invariant
            chars@ == text@,
            i <= chars.len(),
            r@ == printable_text(text@.take(i as int)),
        decreases chars.len() - i,
    {
        let c = chars[i];
        let ghost before = r@;
        proof {
            assert(text@.take(i + 1).drop_last() =~= text@.take(i as int));
            assert(text@.take(i + 1).last() == c);
        }
        let n: u32 = c as u32;
        if n <= 0x1f || (0x7f <= n && n <= 0x9f) {
            r.push('\\');
            if c == '\t' {
                r.push('t');
            } else if c == '\r' {
                r.push('r');
            } else if c == '\n' {
                r.push('n');
            } else {
                r.push('u');
                r.push('{');
                if n >= 16 {
                    r.push(hex_char(n / 16));
                }
                r.push(hex_char(n % 16));
                r.push('}');
            }
            proof {
                assert(r@ =~= before + escaped_control(c));
            }
        } else {
            r.push(c);
        }
        i += 1;
    }
    proof {
        assert(text@.take(i as int) =~= text@);
    }
    r
}

/// A number below a hundred, in two digits.
pub open spec fn two_digits(n: nat) -> Seq<char> {
    if n < 10 {
        "0"@ + decimal(n)
    } else {
        decimal(n)
    }
}

/// The seconds of a length of time in nanoseconds. A negative length counts as none.
pub open spec fn whole_seconds(duration: int) -> nat {
    if duration <= 0 {
        0
    } else {
        (duration / NANOS_PER_SECOND as int) as nat
    }
}

/// A length of time, as hours, minutes and seconds.
pub open spec fn duration_text(duration: int) -> Seq<char> {
    let seconds = whole_seconds(duration);
    decimal(seconds / 3600) + ":"@ + two_digits(seconds / 60 % 60) + ":"@ + two_digits(seconds % 60)
}

fn append_two_digits(text: &mut String, n: u128)
    ensures
        final(text)@ == old(text)@ + two_digits(n as nat),
{
    let ghost before = text@;
    if n < 10 {
        text.append("0");
    }
    let digits = decimal_text(n);
    text.append(digits.as_str());
    proof {
        assert(text@ =~= before + two_digits(n as nat));
    }
}

/// Writes a length of time in nanoseconds as `H:MM:SS`, without the fraction of a second.
pub fn fmt_duration(duration: i128) -> (text: String)
    ensures
        text@ == duration_text(duration as int),
{
    let seconds: u128 = if duration <= 0 {
        0
    } else {
        (duration / NANOS_PER_SECOND) as u128
    };
    let mut text = decimal_text(seconds / 3600);
    text.append(":");
    append_two_digits(&mut text, seconds / 60 % 60);
    text.append(":");
    append_two_digits(&mut text, seconds % 60);
    text
}

/// The words of a text with one space between each two.
pub open spec fn collapsed(text: Seq<char>) -> Seq<char>
    decreases text.len(),
{
    if text.len() == 0 {
        Seq::empty()
    } else {
        let head = text.drop_last();
        let c = text.last();
        if white_space(c) {
            collapsed(head)
        } else if collapsed(head).len() > 0 && white_space(head.last()) {
            collapsed(head).push(' ').push(c)
        } else {
            collapsed(head).push(c)
        }
    }
}

/// A text with its white space collapsed, cut to a width.
pub open spec fn shortened(text: Seq<char>, width: nat) -> Seq<char> {
    let words = collapsed(text);
    if words.len() <= width {
        words
    } else {
        trimmed_end(
            words.take(
                if width >= 3 {
                    width - 3
                } else {
                    0
                },
            ),
        ) + "..."@
    }
}

proof fn lemma_trimmed_end_is_a_prefix(text: Seq<char>)
    ensures
        trimmed_end(text).len() <= text.len(),
        trimmed_end(text) == text.take(trimmed_end(text).len() as int),
        trimmed_end(text).len() > 0 ==> !white_space(trimmed_end(text).last()),
    decreases text.len(),
{
    if text.len() > 0 && white_space(text.last()) {
        lemma_trimmed_end_is_a_prefix(text.drop_last());
        let n = trimmed_end(text).len() as int;
        assert(text.drop_last().take(n) =~= text.take(n));
    } else {
        assert(text.take(text.len() as int) =~= text);
    }
}

/// A shortened text is no longer than the width, where the width leaves room for the dots.
pub proof fn law_shortened_text_fits(text: Seq<char>, width: nat)
    requires
        width >= 3,
    ensures
        shortened(text, width).len() <= width,
{
    let words = collapsed(text);
    if words.len() > width {
        lemma_trimmed_end_is_a_prefix(words.take(width - 3));
        reveal_strlit("...");
    }
}

/// Whether white space stands in a text as single spaces only, and not at its front.
spec fn spaced(text: Seq<char>) -> bool {
    forall|i: int|
        0 <= i < text.len() && white_space(#[trigger] text[i]) ==> text[i] == ' ' && 0 < i
            && !white_space(text[i - 1])
}

proof fn lemma_collapsed_is_spaced(text: Seq<char>)
    ensures
        spaced(collapsed(text)),
        collapsed(text).len() > 0 ==> !white_space(collapsed(text).last()),
    decreases text.len(),
{
    if text.len() > 0 {
        lemma_collapsed_is_spaced(text.drop_last());
    }
}

proof fn lemma_spaced_stays(text: Seq<char>)
    requires
        spaced(text),
    ensures
        collapsed(text) == if text.len() > 0 && white_space(text.last()) {
            text.drop_last()
        } else {
            text
        },
    decreases text.len(),
{
    if text.len() > 0 {
        let head = text.drop_last();
        assert(spaced(head)) by {
            assert forall|i: int| 0 <= i < head.len() && white_space(#[trigger] head[i]) implies head[i]
                == ' ' && 0 < i && !white_space(head[i - 1]) by {
                assert(text[i] == head[i]);
            }
        }
        lemma_spaced_stays(head);
        let c = text[text.len() - 1];
        if head.len() > 0 {
            assert(head.last() == text[text.len() - 2]);
        }
        if white_space(c) {
            assert(collapsed(text) =~= head);
        } else if head.len() > 0 && white_space(head.last()) {
            assert(collapsed(text) =~= head.drop_last().push(' ').push(c));
            assert(collapsed(text) =~= text);
        } else {
            assert(collapsed(text) =~= head.push(c));
            assert(collapsed(text) =~= text);
        }
    }
}

/// Shortening a text again changes nothing.
pub proof fn law_shortened_text_stays(text: Seq<char>, width: nat)
    ensures
        shortened(shortened(text, width), width) == shortened(text, width),
{
    let words = collapsed(text);
    let short = shortened(text, width);
    lemma_collapsed_is_spaced(text);
    if words.len() <= width {
        lemma_spaced_stays(words);
    } else {
        reveal_strlit("...");
        let keep: int = if width >= 3 {
            width - 3
        } else {
            0
        };
        let cut = words.take(keep);
        let head = trimmed_end(cut);
        let n = head.len() as int;
        lemma_trimmed_end_is_a_prefix(cut);
        assert forall|i: int| 0 <= i < short.len() && white_space(#[trigger] short[i]) implies short[i]
            == ' ' && 0 < i && !white_space(short[i - 1]) by {
            if i < n {
                assert(short[i] == head[i] && head[i] == words[i]);
                if i > 0 {
                    assert(short[i - 1] == head[i - 1] && head[i - 1] == words[i - 1]);
                }
            } else {
                assert(short[i] == "..."@[i - n]);
            }
        }
        assert(short.last() == "..."@[2]);
        lemma_spaced_stays(short);
        if width < 3 {
            assert(cut =~= Seq::empty());
            assert(short =~= "..."@);
            assert(short.take(0) =~= Seq::empty());
        }
    }
}

fn collapse(text: &str) -> (r: Vec<char>)
    ensures
        r@ == collapsed(text@),
{
    let chars = chars_of(text);
    let mut r: Vec<char> = Vec::new();
    let mut i: usize = 0;
    proof {
        assert(text@.take(0) =~= Seq::empty());
    }
    while i < chars.len()
        invariant
            chars@ == text@,
            i <= chars.len(),
            r@ == collapsed(text@.take(i as int)),
        decreases chars.len() - i,
    {
        let c = chars[i];
        proof {
            let head = text@.take(i as int);
            assert(text@.take(i + 1).drop_last() =~= head);
            assert(text@.take(i + 1).last() == c);
            if i > 0 {
                assert(head.last() == text@[i - 1]);
            } else {
                assert(head =~= Seq::empty());
            }
        }
        if !is_white_space(c) {
            if r.len() > 0 && i > 0 && is_white_space(chars[i - 1]) {
                r.push(' ');
            }
            r.push(c);
        }
        i += 1;
    }
    proof {
        assert(text@.take(i as int) =~= text@);
    }
    r
}

/// Removes the white space at the end of a text.
fn trim_end(chars: &Vec<char>, to: usize) -> (text: String)
    requires
        to <= chars@.len(),
    ensures
        text@ == trimmed_end(chars@.take(to as int)),
{
    let mut end: usize = to;
    while end > 0 && is_white_space(chars[end - 1])
        invariant
            end <= to <= chars@.len(),
            trimmed_end(chars@.take(to as int)) == trimmed_end(chars@.take(end as int)),
        decreases end,
    {
        proof {
            assert(chars@.take(end as int).drop_last() =~= chars@.take(end - 1));
        }
        end -= 1;
    }
    proof {
        assert(chars@.subrange(0, end as int) =~= chars@.take(end as int));
    }
    text_of(chars, 0, end)
}

/// Collapses white space, and cuts to `width` characters with dots in the place of the rest.
pub fn shorten(text: &str, width: usize) -> (r: String)
    ensures
        r@ == shortened(text@, width as nat),
{
    let words = collapse(text);
    if words.len() <= width {
        let length: usize = words.len();
        proof {
            assert(words@.subrange(0, length as int) =~= words@);
        }
        return text_of(&words, 0, length);
    }
    let keep: usize = if width >= 3 {
        width - 3
    } else {
        0
    };
    let cut = trim_end(&words, keep);
    join(cut.as_str(), "...")
}

/// What the rows of a table stand for.
pub open spec fn row_views(rows: Seq<Vec<String>>) -> Seq<Seq<Seq<char>>> {
    rows.map_values(|row: Vec<String>| texts(row@))
}

/// The cells of a row, made printable.
pub open spec fn printable_row(row: Seq<Seq<char>>) -> Seq<Seq<char>> {
    row.map_values(|cell: Seq<char>| printable_text(cell))
}

/// How wide a column is: as wide as its widest cell, or its header.
pub open spec fn column_width(header: Seq<char>, rows: Seq<Seq<Seq<char>>>, column: int) -> nat
    decreases rows.len(),
{
    if rows.len() == 0 {
        header.len()
    } else {
        let earlier = column_width(header, rows.drop_last(), column);
        let here = printable_text(rows.last()[column]).len();
        if here > earlier {
            here
        } else {
            earlier
        }
    }
}

/// How wide each column is.
pub open spec fn column_widths(headers: Seq<Seq<char>>, rows: Seq<Seq<Seq<char>>>) -> Seq<nat> {
    Seq::new(headers.len(), |i: int| column_width(headers[i], rows, i))
}

/// So many of the same character.
pub open spec fn repeated(c: char, count: nat) -> Seq<char> {
    Seq::new(count, |i: int| c)
}

/// A cell, filled up with spaces.
pub open spec fn padded(cell: Seq<char>, width: nat) -> Seq<char> {
    cell + repeated(
        ' ',
        if width > cell.len() {
            (width - cell.len()) as nat
        } else {
            0
        },
    )
}

/// The first so many cells of a line, each as wide as its column.
pub open spec fn padded_cells(cells: Seq<Seq<char>>, widths: Seq<nat>, count: nat) -> Seq<char>
    decreases count,
{
    if count == 0 {
        Seq::empty()
    } else if count == 1 {
        padded(cells[0], widths[0])
    } else {
        padded_cells(cells, widths, (count - 1) as nat) + "  "@ + padded(
            cells[count - 1],
            widths[count - 1],
        )
    }
}

/// A line of a table.
pub open spec fn table_line(cells: Seq<Seq<char>>, widths: Seq<nat>) -> Seq<char> {
    trimmed_end(
        padded_cells(
            cells,
            widths,
            if cells.len() < widths.len() {
                cells.len()
            } else {
                widths.len()
            },
        ),
    ).push('\n')
}

/// The rule under the headers.
pub open spec fn dashes(widths: Seq<nat>) -> Seq<Seq<char>> {
    widths.map_values(|w: nat| repeated('-', w))
}

/// The lines of the rows.
pub open spec fn row_lines(rows: Seq<Seq<Seq<char>>>, widths: Seq<nat>) -> Seq<char>
    decreases rows.len(),
{
    if rows.len() == 0 {
        Seq::empty()
    } else {
        row_lines(rows.drop_last(), widths) + table_line(printable_row(rows.last()), widths)
    }
}

/// A table: the headers, a rule, and the rows.
pub open spec fn table(headers: Seq<Seq<char>>, rows: Seq<Seq<Seq<char>>>) -> Seq<char> {
    let widths = column_widths(headers, rows);
    table_line(headers, widths) + table_line(dashes(widths), widths) + row_lines(rows, widths)
}

/// What a list of widths stands for.
spec fn width_views(widths: Seq<usize>) -> Seq<nat> {
    widths.map_values(|w: usize| w as nat)
}

fn append_padded(line: &mut Vec<char>, cell: &str, width: usize)
    ensures
        final(line)@ == old(line)@ + padded(cell@, width as nat),
{
    let ghost before = line@;
    let mut chars = chars_of(cell);
    let length: usize = chars.len();
    line.append(&mut chars);
    let mut i: usize = length;
    proof {
        assert(line@ =~= before + cell@);
        assert(before + (cell@ + repeated(' ', 0)) =~= before + cell@);
    }
    while i < width
        invariant
            length == cell@.len(),
            length <= i,
            i <= width || i == length,
            line@ == before + (cell@ + repeated(' ', (i - length) as nat)),
        decreases width - i,
    {
        line.push(' ');
        proof {
            assert(line@ =~= before + (cell@ + repeated(' ', (i + 1 - length) as nat)));
        }
        i += 1;
    }
}

fn append_line(text: &mut String, cells: &Vec<String>, widths: &Vec<usize>)
    ensures
        final(text)@ == old(text)@ + table_line(texts(cells@), width_views(widths@)),
{
    let ghost all = texts(cells@);
    let ghost wide = width_views(widths@);
    let mut line: Vec<char> = Vec::new();
    let count: usize = if cells.len() < widths.len() {
        cells.len()
    } else {
        widths.len()
    };
    let mut i: usize = 0;
    while i < count
        invariant
            all == texts(cells@),
            wide == width_views(widths@),
            i <= count,
            count <= cells@.len(),
            count <= widths@.len(),
            line@ == padded_cells(all, wide, i as nat),
        decreases count - i,
    {
        let ghost before = line@;
        if i > 0 {
            line.push(' ');
            line.push(' ');
        }
        proof {
            reveal_strlit("  ");
            if i > 0 {
                assert(line@ =~= before + "  "@);
            }
            assert(all[i as int] == cells@[i as int]@);
        }
        append_padded(&mut line, cells[i].as_str(), widths[i]);
        proof {
            assert(line@ =~= padded_cells(all, wide, (i + 1) as nat));
        }
        i += 1;
    }
    let length: usize = line.len();
    let trimmed = trim_end(&line, length);
    let ghost before = text@;
    text.append(trimmed.as_str());
    text.push('\n');
    proof {
        assert(line@.take(length as int) =~= line@);
        assert(text@ =~= before + table_line(all, wide));
    }
}

/// Whether every row has a cell for each header.
pub open spec fn rows_complete(headers: nat, rows: Seq<Seq<Seq<char>>>) -> bool {
    forall|i: int| 0 <= i < rows.len() ==> (#[trigger] rows[i]).len() >= headers
}

fn printable_rows(rows: &Vec<Vec<String>>) -> (r: Vec<Vec<String>>)
    ensures
        r@.len() == rows@.len(),
        forall|i: int|
            0 <= i < rows@.len() ==> texts((#[trigger] r@[i])@) == printable_row(
                row_views(rows@)[i],
            ),
{
    let ghost all = row_views(rows@);
    let mut r: Vec<Vec<String>> = Vec::new();
    let mut i: usize = 0;
    while i < rows.len()
        invariant
            all == row_views(rows@),
            i <= rows.len(),
            r@.len() == i,
            forall|k: int| 0 <= k < i ==> texts((#[trigger] r@[k])@) == printable_row(all[k]),
        decreases rows.len() - i,
    {
        let row = &rows[i];
        let ghost cells = texts(row@);
        let mut done: Vec<String> = Vec::new();
        let mut k: usize = 0;
        while k < row.len()
            invariant
                cells == texts(row@),
                k <= row.len(),
                texts(done@) == printable_row(cells).take(k as int),
            decreases row.len() - k,
        {
            let ghost before = texts(done@);
            done.push(printable(row[k].as_str()));
            proof {
                let wanted = printable_row(cells);
                assert(texts(done@) =~= before.push(wanted[k as int]));
                assert(wanted.take(k + 1) =~= wanted.take(k as int).push(wanted[k as int]));
            }
            k += 1;
        }
        proof {
            assert(printable_row(cells).take(k as int) =~= printable_row(cells));
            assert(all[i as int] == cells);
        }
        r.push(done);
        i += 1;
    }
    r
}

/// Writes a table, left-aligned, with a rule of dashes under the headers.
pub fn write_table(headers: &Vec<String>, rows: &Vec<Vec<String>>) -> (text: String)
    requires
        rows_complete(headers@.len(), row_views(rows@)),
    ensures
        text@ == table(texts(headers@), row_views(rows@)),
{
    let ghost all = row_views(rows@);
    let ghost heads = texts(headers@);
    let cells = printable_rows(rows);
    let mut widths: Vec<usize> = Vec::new();
    let mut i: usize = 0;
    while i < headers.len()
        invariant
            all == row_views(rows@),
            heads == texts(headers@),
            rows_complete(headers@.len(), all),
            cells@.len() == rows@.len(),
            forall|k: int|
                0 <= k < rows@.len() ==> texts((#[trigger] cells@[k])@) == printable_row(all[k]),
            i <= headers.len(),
            width_views(widths@) == column_widths(heads, all).take(i as int),
        decreases headers.len() - i,
    {
        let header = chars_of(headers[i].as_str());
        let mut width: usize = header.len();
        let mut k: usize = 0;
        proof {
            assert(all.take(0) =~= Seq::empty());
        }
        while k < cells.len()
            invariant
                all == row_views(rows@),
                heads == texts(headers@),
                rows_complete(headers@.len(), all),
                cells@.len() == rows@.len(),
                forall|n: int|
                    0 <= n < rows@.len() ==> texts((#[trigger] cells@[n])@) == printable_row(
                        all[n],
                    ),
                i < headers@.len(),
                k <= cells@.len(),
                width == column_width(heads[i as int], all.take(k as int), i as int),
            decreases cells.len() - k,
        {
            proof {
                assert(all.take(k + 1).drop_last() =~= all.take(k as int));
                assert(all.take(k + 1).last() == all[k as int]);
                assert(all[k as int].len() >= headers@.len());
                assert(texts(cells@[k as int]@).len() == all[k as int].len());
                assert(cells@[k as int]@.len() == texts(cells@[k as int]@).len());
                assert(texts(cells@[k as int]@)[i as int] == printable_text(
                    all[k as int][i as int],
                ));
            }
            let here = chars_of(cells[k][i].as_str());
            if here.len() > width {
                width = here.len();
            }
            k += 1;
        }
        let ghost before = width_views(widths@);
        widths.push(width);
        proof {
            assert(all.take(k as int) =~= all);
            let wanted = column_widths(heads, all);
            assert(width_views(widths@) =~= before.push(wanted[i as int]));
            assert(wanted.take(i + 1) =~= wanted.take(i as int).push(wanted[i as int]));
        }
        i += 1;
    }
    let ghost wide = column_widths(heads, all);
    proof {
        assert(wide.take(i as int) =~= wide);
        assert(width_views(widths@) == wide);
    }
    let mut text = String::new();
    append_line(&mut text, headers, &widths);
    let mut rule: Vec<String> = Vec::new();
    let mut n: usize = 0;
    while n < widths.len()
        invariant
            wide == width_views(widths@),
            n <= widths.len(),
            texts(rule@) == dashes(wide).take(n as int),
        decreases widths.len() - n,
    {
        let mut dash = String::new();
        let mut d: usize = 0;
        proof {
            assert(dash@ =~= repeated('-', 0));
        }
        while d < widths[n]
            invariant
                n < widths@.len(),
                d <= widths@[n as int],
                dash@ == repeated('-', d as nat),
            decreases widths@[n as int] - d,
        {
            dash.push('-');
            proof {
                assert(dash@ =~= repeated('-', (d + 1) as nat));
            }
            d += 1;
        }
        let ghost before = texts(rule@);
        rule.push(dash);
        proof {
            let wanted = dashes(wide);
            assert(wanted[n as int] == repeated('-', widths@[n as int] as nat));
            assert(texts(rule@) =~= before.push(wanted[n as int]));
            assert(wanted.take(n + 1) =~= wanted.take(n as int).push(wanted[n as int]));
        }
        n += 1;
    }
    proof {
        assert(dashes(wide).take(n as int) =~= dashes(wide));
    }
    append_line(&mut text, &rule, &widths);
    let ghost head = table_line(heads, wide) + table_line(dashes(wide), wide);
    let mut r: usize = 0;
    proof {
        assert(all.take(0) =~= Seq::empty());
        assert(text@ =~= head + row_lines(all.take(0), wide));
    }
    while r < cells.len()
        invariant
            all == row_views(rows@),
            cells@.len() == rows@.len(),
            forall|k: int|
                0 <= k < rows@.len() ==> texts((#[trigger] cells@[k])@) == printable_row(all[k]),
            wide == width_views(widths@),
            r <= cells@.len(),
            text@ == head + row_lines(all.take(r as int), wide),
        decreases cells.len() - r,
    {
        let ghost before = text@;
        append_line(&mut text, &cells[r], &widths);
        proof {
            assert(all.take(r + 1).drop_last() =~= all.take(r as int));
            assert(all.take(r + 1).last() == all[r as int]);
            assert(text@ =~= head + row_lines(all.take(r + 1), wide));
        }
        r += 1;
    }
    proof {
        assert(all.take(r as int) =~= all);
    }
    text
}

/// The length of events is that of some of them and that of the others, and the length of one event
/// is its own.
pub proof fn law_total_adds_up(a: Seq<EventView>, b: Seq<EventView>, event: EventView)
    ensures
        total_of(a + b) == total_of(a) + total_of(b),
        total_of(seq![event]) == event.duration,
        total_of(Seq::empty()) == 0,
    decreases b.len(),
{
    if b.len() == 0 {
        assert(a + b =~= a);
    } else {
        law_total_adds_up(a, b.drop_last(), event);
        assert((a + b).drop_last() =~= a + b.drop_last());
        assert((a + b).last() == b.last());
    }
    assert(seq![event].drop_last() =~= Seq::<EventView>::empty());
    reveal_with_fuel(total_of, 2);
}

/// The hours, minutes and seconds that a length of time is written as make up its full seconds:
/// they are no more than the length, and less than a second short of it. There are less than sixty
/// minutes and less than sixty seconds, each in two digits. A negative length is written as none.
pub proof fn law_duration_text_tells_the_length(duration: int) -> (parts: (nat, nat, nat))
    ensures
        parts.1 < 60,
        parts.2 < 60,
        ({
            let seconds = parts.0 * 3600 + parts.1 * 60 + parts.2;
            &&& duration <= 0 ==> seconds == 0
            &&& duration > 0 ==> seconds * NANOS_PER_SECOND <= duration < (seconds + 1)
                * NANOS_PER_SECOND
        }),
        duration_text(duration) == decimal(parts.0) + ":"@ + seq![
            crate::text::digit(parts.1 as int / 10),
            crate::text::digit(parts.1 as int % 10),
        ] + ":"@ + seq![
            crate::text::digit(parts.2 as int / 10),
            crate::text::digit(parts.2 as int % 10),
        ],
{
    let seconds = whole_seconds(duration);
    let parts = (seconds / 3600, seconds / 60 % 60, seconds % 60);
    lemma_two_digits(parts.1);
    lemma_two_digits(parts.2);
    assert(seconds == parts.0 * 3600 + parts.1 * 60 + parts.2);
    parts
}

proof fn lemma_two_digits(n: nat)
    requires
        n < 60,
    ensures
        two_digits(n) == seq![
            crate::text::digit(n as int / 10),
            crate::text::digit(n as int % 10),
        ],
{
    reveal_strlit("0");
    if n < 10 {
        assert(crate::text::digit(0) == '0');
        assert(two_digits(n) =~= seq![crate::text::digit(0), crate::text::digit(n as int)]);
    } else {
        assert(decimal(n / 10) == seq![crate::text::digit(n as int / 10)]);
        assert(two_digits(n) =~= seq![
            crate::text::digit(n as int / 10),
            crate::text::digit(n as int % 10),
        ]);
    }
}

/// A column is as wide as the widest of its header and its cells: none of them is wider, and one of
/// them is as wide.
pub proof fn law_column_fits_its_cells(
    header: Seq<char>,
    rows: Seq<Seq<Seq<char>>>,
    column: int,
)
    ensures
        header.len() <= column_width(header, rows, column),
        forall|i: int|
            0 <= i < rows.len() ==> printable_text((#[trigger] rows[i])[column]).len()
                <= column_width(header, rows, column),
        column_width(header, rows, column) == header.len() || exists|i: int|
            0 <= i < rows.len() && printable_text((#[trigger] rows[i])[column]).len()
                == column_width(header, rows, column),
    decreases rows.len(),
{
    if rows.len() > 0 {
        let head = rows.drop_last();
        law_column_fits_its_cells(header, head, column);
        assert forall|i: int| 0 <= i < rows.len() implies printable_text(
            (#[trigger] rows[i])[column],
        ).len() <= column_width(header, rows, column) by {
            if i < head.len() {
                assert(head[i] == rows[i]);
            }
        }
        if column_width(header, head, column) == column_width(header, rows, column) {
            if column_width(header, head, column) != header.len() {
                let i = choose|i: int|
                    0 <= i < head.len() && printable_text((#[trigger] head[i])[column]).len()
                        == column_width(header, head, column);
                assert(rows[i] == head[i]);
            }
        } else {
            assert(rows[rows.len() - 1] == rows.last());
        }
    }
}

/// Where a column of a line begins.
pub open spec fn column_start(widths: Seq<nat>, column: int) -> int
    decreases column,
{
    if column <= 0 {
        0
    } else {
        column_start(widths, column - 1) + widths[column - 1] + 2
    }
}

proof fn lemma_padded_cells_len(cells: Seq<Seq<char>>, widths: Seq<nat>, count: nat)
    requires
        0 < count <= cells.len(),
        count <= widths.len(),
        forall|k: int| 0 <= k < count ==> (#[trigger] cells[k]).len() <= widths[k],
    ensures
        padded_cells(cells, widths, count).len() == column_start(widths, count - 1) + widths[count
            - 1],
    decreases count,
{
    reveal_strlit("  ");
    assert(cells[count - 1].len() <= widths[count - 1]);
    if count > 1 {
        lemma_padded_cells_len(cells, widths, (count - 1) as nat);
    }
}

/// Each cell of a line stands where its column begins, with spaces behind it up to the next one.
pub proof fn law_cells_stand_in_their_columns(
    cells: Seq<Seq<char>>,
    widths: Seq<nat>,
    count: nat,
    column: int,
)
    requires
        0 <= column < count <= cells.len(),
        count <= widths.len(),
        forall|k: int| 0 <= k < count ==> (#[trigger] cells[k]).len() <= widths[k],
    ensures
        ({
            let line = padded_cells(cells, widths, count);
            let start = column_start(widths, column);
            &&& 0 <= start
            &&& start + widths[column] <= line.len()
            &&& line.subrange(start, start + cells[column].len()) == cells[column]
            &&& forall|i: int|
                start + cells[column].len() <= i < start + widths[column] ==> #[trigger] line[i] == ' '
            &&& column + 1 < count ==> start + widths[column] + 2 <= line.len() && line[start
                + widths[column]] == ' ' && line[start + widths[column] + 1] == ' '
        }),
    decreases count,
{
    let line = padded_cells(cells, widths, count);
    let start = column_start(widths, column);
    reveal_strlit("  ");
    assert(cells[count - 1].len() <= widths[count - 1]);
    lemma_padded_cells_len(cells, widths, count);
    if count > 1 {
        lemma_padded_cells_len(cells, widths, (count - 1) as nat);
        let before = padded_cells(cells, widths, (count - 1) as nat);
        assert forall|i: int| 0 <= i < before.len() implies #[trigger] line[i] == before[i] by {}
        if column < count - 1 {
            law_cells_stand_in_their_columns(cells, widths, (count - 1) as nat, column);
            assert(line.subrange(start, start + cells[column].len()) =~= before.subrange(
                start,
                start + cells[column].len(),
            ));
            assert forall|i: int|
                start + cells[column].len() <= i < start + widths[column] implies #[trigger] line[i]
                == ' ' by {
                assert(line[i] == before[i]);
            }
            if column + 1 == count - 1 {
                assert(before.len() == start + widths[column]);
                assert(line[before.len() as int] == "  "@[0]);
                assert(line[before.len() as int + 1] == "  "@[1]);
            }
        } else {
            let cell = padded(cells[column], widths[column]);
            assert(start == before.len() + 2);
            assert forall|i: int| 0 <= i < cell.len() implies #[trigger] cell[i] == line[start + i] by {}
            assert(line.subrange(start, start + cells[column].len()) =~= cells[column]);
            assert forall|i: int|
                start + cells[column].len() <= i < start + widths[column] implies #[trigger] line[i]
                == ' ' by {
                assert(line[i] == cell[i - start]);
            }
        }
    } else {
        assert(line.subrange(0, cells[0].len() as int) =~= cells[0]);
    }
}

/// Midnights are a day apart, and the day of the Unix epoch begins with it.
pub proof fn law_midnights_are_a_day_apart(day: i32)
    requires
        day < i32::MAX,
    ensures
        midnight(day + 1).seconds == midnight(day as int).seconds + 24 * 60 * 60,
        midnight(day as int).nanos == 0,
        midnight(UNIX_EPOCH_DAY as int).seconds == 0,
{
}

/// A date and time is read by the first of the formats that can read it, and by none if none can.
pub proof fn law_first_format_that_reads_counts(text: Seq<char>, formats: Seq<Seq<char>>)
    ensures
        match first_naive(text, formats) {
            Some(instant) => exists|i: int| #[trigger]
                is_first_reading(text, formats, i) && naive_instant(text, formats[i]) == Some(
                    instant,
                ),
            None => forall|i: int|
                0 <= i < formats.len() ==> naive_instant(text, #[trigger] formats[i]) is None,
        },
    decreases formats.len(),
{
    if formats.len() > 0 {
        let rest = formats.drop_first();
        law_first_format_that_reads_counts(text, rest);
        if naive_instant(text, formats[0]) is Some {
            assert(is_first_reading(text, formats, 0));
        } else {
            match first_naive(text, rest) {
                Some(instant) => {
                    let i = choose|i: int| #[trigger]
                        is_first_reading(text, rest, i) && naive_instant(text, rest[i]) == Some(
                            instant,
                        );
                    assert(formats[i + 1] == rest[i]);
                    assert forall|j: int| 0 <= j < i + 1 implies naive_instant(
                        text,
                        #[trigger] formats[j],
                    ) is None by {
                        if j > 0 {
                            assert(rest[j - 1] == formats[j]);
                        }
                    }
                    assert(is_first_reading(text, formats, i + 1));
                },
                None => {
                    assert forall|i: int| 0 <= i < formats.len() implies naive_instant(
                        text,
                        #[trigger] formats[i],
                    ) is None by {
                        if i > 0 {
                            assert(rest[i - 1] == formats[i]);
                        }
                    }
                },
            }
        }
    }
}

/// Whether the format at `i` can read the text, and none before it can.
pub open spec fn is_first_reading(text: Seq<char>, formats: Seq<Seq<char>>, i: int) -> bool {
    &&& 0 <= i < formats.len()
    &&& naive_instant(text, formats[i]) is Some
    &&& forall|j: int| 0 <= j < i ==> naive_instant(text, #[trigger] formats[j]) is None
}

/// The name of a category is that of the categories that it lies in, an arrow, and its own.
pub proof fn law_category_is_named_by_its_path(
    parents: Seq<JsonView>,
    own: Seq<char>,
    written: Seq<Seq<char>>,
)
    ensures
        joined_parts(parents.push(JsonView::Text(own)), written) == if parents.len() == 0 {
            own
        } else {
            joined_parts(parents, written) + " > "@ + own
        },
{
    let all = parents.push(JsonView::Text(own));
    assert(all.drop_last() =~= parents);
}

/// Different control characters are written differently.
pub proof fn law_escaped_characters_differ(a: char, b: char)
    requires
        control(a),
        control(b),
        escaped_control(a) == escaped_control(b),
    ensures
        a == b,
{
    let x = escaped_control(a);
    let y = escaped_control(b);
    assert(x.len() == y.len());
    assert(x[1] == y[1]);
    if x.len() == 5 {
        assert(x[3] == y[3]);
    } else if x.len() == 6 {
        assert(x[3] == y[3] && x[4] == y[4]);
    }
}

/// The characters of a text that are not white space.
pub open spec fn visible(text: Seq<char>) -> Seq<char>
    decreases text.len(),
{
    if text.len() == 0 {
        Seq::empty()
    } else if white_space(text.last()) {
        visible(text.drop_last())
    } else {
        visible(text.drop_last()).push(text.last())
    }
}

/// The words of a text with one space between each two hold what can be seen of the text, in order,
/// and of white space only spaces: none at the ends, and never two in a row.
pub proof fn law_words_are_kept_one_space_apart(text: Seq<char>)
    ensures
        visible(collapsed(text)) == visible(text),
        ({
            let words = collapsed(text);
            &&& words.len() > 0 ==> !white_space(words[0]) && !white_space(words.last())
            &&& forall|i: int|
                0 <= i < words.len() && white_space(#[trigger] words[i]) ==> words[i] == ' '
            &&& forall|i: int, j: int|
                0 <= i < j < words.len() && j == i + 1 ==> !(white_space(#[trigger] words[i])
                    && white_space(#[trigger] words[j]))
        }),
    decreases text.len(),
{
    if text.len() > 0 {
        let head = text.drop_last();
        let c = text.last();
        let before = collapsed(head);
        let words = collapsed(text);
        law_words_are_kept_one_space_apart(head);
        if !white_space(c) {
            if before.len() > 0 && white_space(head.last()) {
                assert(words == before.push(' ').push(c));
                assert(words.drop_last() =~= before.push(' '));
                assert(words.drop_last().drop_last() =~= before);
                assert(white_space(' '));
                reveal_with_fuel(visible, 3);
                assert(words[0] == before[0]);
            } else {
                assert(words == before.push(c));
                assert(words.drop_last() =~= before);
                if before.len() > 0 {
                    assert(words[0] == before[0]);
                }
            }
        }
    }
}

/// A text that is shortened is its words if they fit. Otherwise it is the first of them, up to three
/// characters less than the width, without a space behind them, and three dots.
pub proof fn law_shortened_text_starts_alike(text: Seq<char>, width: nat) -> (n: int)
    requires
        width >= 3,
    ensures
        0 <= n <= collapsed(text).len(),
        collapsed(text).len() <= width ==> shortened(text, width) == collapsed(text),
        collapsed(text).len() > width ==> {
            &&& shortened(text, width) == collapsed(text).take(n) + "..."@
            &&& n <= width - 3
            &&& n > 0 ==> !white_space(collapsed(text)[n - 1])
            &&& forall|i: int| n <= i < width - 3 ==> white_space(#[trigger] collapsed(text)[i])
        },
{
    let words = collapsed(text);
    if words.len() <= width {
        0
    } else {
        let part = words.take(width - 3);
        let n = crate::text::lemma_trimmed_end_takes_white(part);
        assert(part.take(n) =~= words.take(n));
        assert forall|i: int| n <= i < width - 3 implies white_space(#[trigger] words[i]) by {
            assert(part.skip(n)[i - n] == words[i]);
        }
        n
    }
}

/// A text that names its offset stands for that instant, whatever else it could be read as. One
/// without an offset is a time of day where the user is, and a day alone is its midnight there.
/// Only what nothing can read stands for no time.
pub proof fn law_offset_decides_what_a_time_is(
    rfc3339: Result<(i64, u32), Seq<char>>,
    naive: Option<(i64, u32)>,
    day: Option<i32>,
)
    ensures
        match parsed_time(rfc3339, naive, day) {
            ParsedTime::Instant(time) => rfc3339 == Ok::<(i64, u32), Seq<char>>(
                (time.seconds, time.nanos),
            ),
            ParsedTime::Local(time) => {
                &&& rfc3339 is Err
                &&& naive matches Some(read) ==> read == (time.seconds, time.nanos)
                &&& naive is None ==> day is Some && time.nanos == 0 && time.seconds
                    == (day->Some_0 - 719163) * 86400
            },
            ParsedTime::Unknown => rfc3339 is Err && naive is None && day is None,
        },
{
}

/// An instant needs no time zone. A local time is the instant at which it occurs there; where it
/// does not occur, and where nothing could be read, the reason names the text that was given.
pub proof fn law_time_is_found_or_its_text_is_named(
    shown: Seq<char>,
    parsed: ParsedTime,
    resolved: Option<Instant>,
)
    ensures
        match resolved_time(shown, parsed, resolved) {
            Ok(time) => {
                ||| parsed == ParsedTime::Instant(time)
                ||| parsed is Local && resolved == Some(time)
            },
            Err(reason) => {
                &&& parsed !is Instant
                &&& parsed is Local ==> resolved is None && shown.is_prefix_of(reason)
                &&& parsed is Unknown ==> shown.is_suffix_of(reason)
            },
        },
{
    if let ParsedTime::Unknown = parsed {
        let reason = "invalid date/time "@ + shown;
        assert(shown =~= reason.subrange(reason.len() - shown.len(), reason.len() as int));
    }
    if parsed is Local && resolved is None {
        let reason = shown + " doesn't exist in the local time zone"@;
        assert(shown =~= reason.subrange(0, shown.len() as int));
    }
}

/// A text in the data of an event is shown as it is, any other value as JSON writes it, and what
/// is not there as nothing. Other keys make no difference.
pub proof fn law_value_is_shown_as_it_is(
    data: Map<Seq<char>, JsonView>,
    key: Seq<char>,
    value: JsonView,
    written: Seq<char>,
)
    ensures
        data_text(data.insert(key, value), key, written) == match value {
            JsonView::Text(text) => text,
            _ => written,
        },
        data_text(data.remove(key), key, written).len() == 0,
{
}

/// A category that is no list is shown like any other value.
pub proof fn law_plain_category_is_shown_as_it_is(
    data: Map<Seq<char>, JsonView>,
    value: JsonView,
    written_parts: Seq<Seq<char>>,
    written: Seq<char>,
)
    requires
        value !is Array,
    ensures
        category_text(data.insert("$category"@, value), written_parts, written) == match value {
            JsonView::Text(text) => text,
            _ => written,
        },
        category_text(data.remove("$category"@), written_parts, written).len() == 0,
{
}

/// What the cells of a line of a table show: the headers, dashes as wide as the column, and then
/// the rows.
pub open spec fn shown_cells(headers: Seq<Seq<char>>, rows: Seq<Seq<Seq<char>>>, line: int) -> Seq<
    Seq<char>,
> {
    Seq::new(
        headers.len(),
        |k: int|
            if line == 0 {
                headers[k]
            } else if line == 1 {
                Seq::new(column_width(headers[k], rows, k), |j: int| '-')
            } else {
                printable_text(rows[line - 2][k])
            },
    )
}

/// A line of a table.
pub open spec fn shown_line(headers: Seq<Seq<char>>, rows: Seq<Seq<Seq<char>>>, line: int) -> Seq<
    char,
> {
    trimmed_end(
        padded_cells(shown_cells(headers, rows, line), column_widths(headers, rows), headers.len()),
    )
}

proof fn lemma_row_lines(
    headers: Seq<Seq<char>>,
    rows: Seq<Seq<Seq<char>>>,
    count: nat,
)
    requires
        count <= rows.len(),
        forall|i: int| 0 <= i < rows.len() ==> (#[trigger] rows[i]).len() == headers.len(),
    ensures
        row_lines(rows.take(count as int), column_widths(headers, rows)) == fed_lines(
            Seq::new(count, |i: int| shown_line(headers, rows, i + 2)),
        ),
    decreases count,
{
    let widths = column_widths(headers, rows);
    let all = Seq::new(count, |i: int| shown_line(headers, rows, i + 2));
    if count > 0 {
        let n = count - 1;
        let heads = Seq::new(n as nat, |i: int| shown_line(headers, rows, i + 2));
        let line = shown_line(headers, rows, n + 2);
        lemma_row_lines(headers, rows, n as nat);
        assert(rows.take(count as int).drop_last() =~= rows.take(n));
        assert(rows[n].len() == headers.len());
        assert(printable_row(rows[n]) =~= shown_cells(headers, rows, n + 2));
        assert(table_line(printable_row(rows[n]), widths) == line.push('\n'));
        assert(all =~= heads.push(line));
        lemma_fed_lines_push(heads, line);
    } else {
        assert(rows.take(0).len() == 0);
    }
}

/// A table has a line for its headers, a rule, and a line for each row, in their order. What the
/// rows show drives no terminal.
pub proof fn law_table_has_a_line_for_each_row(
    headers: Seq<Seq<char>>,
    rows: Seq<Seq<Seq<char>>>,
)
    requires
        forall|i: int| 0 <= i < rows.len() ==> (#[trigger] rows[i]).len() == headers.len(),
    ensures
        table(headers, rows) == fed_lines(
            Seq::new(rows.len() + 2, |i: int| shown_line(headers, rows, i)),
        ),
{
    let widths = column_widths(headers, rows);
    let all = Seq::new(rows.len() + 2, |i: int| shown_line(headers, rows, i));
    let below = Seq::new(rows.len(), |i: int| shown_line(headers, rows, i + 2));
    lemma_row_lines(headers, rows, rows.len());
    assert(rows.take(rows.len() as int) =~= rows);
    assert(shown_cells(headers, rows, 0) =~= headers);
    assert(dashes(widths).len() == headers.len());
    assert forall|k: int| 0 <= k < headers.len() implies #[trigger] dashes(widths)[k]
        == shown_cells(headers, rows, 1)[k] by {
        assert(dashes(widths)[k] =~= shown_cells(headers, rows, 1)[k]);
    }
    assert(dashes(widths) =~= shown_cells(headers, rows, 1));
    let rest = all.drop_first();
    assert(rest.drop_first() =~= below);
    assert(fed_lines(rest) == rest[0].push('\n') + fed_lines(below));
    assert(fed_lines(all) == all[0].push('\n') + fed_lines(rest));
    assert(table(headers, rows) =~= fed_lines(all));
}

/// A date and time without an offset is a date, a `T` or a space, and a time of day, with or
/// without seconds. The more precise forms are tried first.
pub proof fn law_dates_and_times_have_these_forms(i: int)
    requires
        0 <= i < 4,
    ensures
        naive_formats().len() == 4,
        naive_formats()[i] == "%Y-%m-%d"@ + (if i % 2 == 0 {
            "T"@
        } else {
            " "@
        }) + "%H:%M"@ + (if i < 2 {
            ":%S"@
        } else {
            Seq::empty()
        }),
{
    reveal_strlit("%Y-%m-%d");
    reveal_strlit("T");
    reveal_strlit(" ");
    reveal_strlit("%H:%M");
    reveal_strlit(":%S");
    reveal_strlit("%Y-%m-%dT%H:%M:%S");
    reveal_strlit("%Y-%m-%d %H:%M:%S");
    reveal_strlit("%Y-%m-%dT%H:%M");
    reveal_strlit("%Y-%m-%d %H:%M");
    assert("%Y-%m-%d"@ + "T"@ + "%H:%M"@ + ":%S"@ =~= "%Y-%m-%dT%H:%M:%S"@);
    assert("%Y-%m-%d"@ + " "@ + "%H:%M"@ + ":%S"@ =~= "%Y-%m-%d %H:%M:%S"@);
    assert("%Y-%m-%d"@ + "T"@ + "%H:%M"@ + Seq::<char>::empty() =~= "%Y-%m-%dT%H:%M"@);
    assert("%Y-%m-%d"@ + " "@ + "%H:%M"@ + Seq::<char>::empty() =~= "%Y-%m-%d %H:%M"@);
}

} // verus!
