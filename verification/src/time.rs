//! Instants and how they are written.

use vstd::prelude::*;

#[allow(unused_imports)]
use crate::event::{TIME_MAX, TIME_MIN};
#[allow(unused_imports)]
use crate::queue::optional_text;

verus! {

/// The number of nanoseconds in a second.
pub const NANOS_PER_SECOND: i128 = 1_000_000_000;

/// The number of seconds in a day.
pub const SECONDS_PER_DAY: i64 = 86_400;

/// The day of the Unix epoch, counted from the first day of the year 1, which is day 1.
pub const UNIX_EPOCH_DAY: i64 = 719_163;

/// The first second of the year 0, counted from the Unix epoch. RFC 3339 writes years with four
/// digits.
pub const RFC3339_FIRST: i64 = -62_167_219_200;

/// The last second of the year 9999, counted from the Unix epoch.
pub const RFC3339_LAST: i64 = 253_402_300_799;

/// An instant: the seconds since the Unix epoch, and the nanoseconds after that second. Within a
/// leap second, which follows the last second of a minute, the nanoseconds go on to count from
/// 1,000,000,000 to 1,999,999,999.
#[derive(Debug, Clone, Copy, PartialEq, Eq, Structural)]
pub struct Instant {
    pub seconds: i64,
    pub nanos: u32,
}

/// Whether there is such an instant: the nanoseconds stay below one second, or below two where a
/// leap second may follow.
pub open spec fn proper_fraction(seconds: i64, nanos: u32) -> bool {
    nanos < NANOS_PER_SECOND || (nanos < 2 * NANOS_PER_SECOND && seconds % 60 == 59)
}

impl Instant {
    /// The instant lies in the range of instants.
    pub open spec fn valid(self) -> bool {
        &&& TIME_MIN <= self.seconds * NANOS_PER_SECOND <= TIME_MAX
        &&& proper_fraction(self.seconds, self.nanos)
    }
}

/// What `DateTime::parse_from_rfc3339` reads: the seconds since the Unix epoch and the
/// nanoseconds of the fraction, or what is wrong with the text.
pub uninterp spec fn rfc3339_instant(text: Seq<char>) -> Result<(i64, u32), Seq<char>>;

/// Whether `DateTime::parse_from_rfc3339` reads this instant.
pub open spec fn reads_as(text: Seq<char>, seconds: i64, nanos: u32) -> bool {
    rfc3339_instant(text) == Ok::<(i64, u32), Seq<char>>((seconds, nanos))
}

/// What `DateTime::to_rfc3339` writes for an instant in UTC, given as seconds since the Unix
/// epoch and nanoseconds of the fraction.
pub uninterp spec fn rfc3339_text(seconds: i64, nanos: u32) -> Option<Seq<char>>;

/// What `NaiveDateTime::parse_from_str` reads: the date and time, as if it were in UTC.
pub uninterp spec fn naive_instant(text: Seq<char>, format: Seq<char>) -> Option<(i64, u32)>;

/// What `NaiveDate::parse_from_str` reads: the day, counted from the first day of the year 1.
pub uninterp spec fn naive_day(text: Seq<char>, format: Seq<char>) -> Option<i32>;

/// What `DateTime::format` writes for an instant in UTC.
pub uninterp spec fn formatted_instant(seconds: i64, nanos: u32, format: Seq<char>) -> Option<
    Seq<char>,
>;

/// Reads an instant by `DateTime::parse_from_rfc3339`. The result is what that function makes
/// of the text, the instant taken apart into seconds and a fraction.
#[verifier::external_body]
pub(crate) fn read_rfc3339(text: &str) -> (r: Result<(i64, u32), String>)
    ensures
        match r {
            Ok(instant) => rfc3339_instant(text@) == Ok::<(i64, u32), Seq<char>>(instant),
            Err(reason) => rfc3339_instant(text@) == Err::<(i64, u32), Seq<char>>(reason@),
        },
{
    match chrono::DateTime::parse_from_rfc3339(text) {
        Ok(instant) => Ok((instant.timestamp(), instant.timestamp_subsec_nanos())),
        Err(error) => Err(format!("{error:?}")),
    }
}

/// Writes an instant by `DateTime::to_rfc3339`. The result is what that function makes of it.
/// There is one for every instant in the range of `DateTime`, those within a leap second among
/// them, whose second is written as 60. It holds every digit of the fraction that is not zero,
/// so that for a year of four digits `DateTime::parse_from_rfc3339` reads the same instant back.
#[verifier::external_body]
pub(crate) fn write_rfc3339(seconds: i64, nanos: u32) -> (r: Option<String>)
    ensures
        optional_text(r) == rfc3339_text(seconds, nanos),
        TIME_MIN <= seconds * NANOS_PER_SECOND <= TIME_MAX && proper_fraction(seconds, nanos)
            ==> r is Some,
        RFC3339_FIRST <= seconds <= RFC3339_LAST && proper_fraction(seconds, nanos) ==> r is Some
            && reads_as(r->Some_0@, seconds, nanos),
{
    let instant = chrono::DateTime::<chrono::Utc>::from_timestamp(seconds, nanos)?;
    Some(instant.to_rfc3339())
}

/// Reads a date and time without an offset by `NaiveDateTime::parse_from_str`. The result is
/// what that function makes of the text, taken apart into seconds and a fraction.
#[verifier::external_body]
pub(crate) fn read_naive(text: &str, format: &str) -> (r: Option<(i64, u32)>)
    ensures
        r == naive_instant(text@, format@),
{
    let naive = chrono::NaiveDateTime::parse_from_str(text, format).ok()?.and_utc();
    Some((naive.timestamp(), naive.timestamp_subsec_nanos()))
}

/// Reads a date by `NaiveDate::parse_from_str`. The result is what that function makes of the
/// text, as a number of days.
#[verifier::external_body]
pub(crate) fn read_naive_day(text: &str, format: &str) -> (r: Option<i32>)
    ensures
        r == naive_day(text@, format@),
{
    let date = chrono::NaiveDate::parse_from_str(text, format).ok()?;
    Some(chrono::Datelike::num_days_from_ce(&date))
}

/// Writes an instant in UTC by `DateTime::format`. The result is what that function makes of
/// it. There is one for every instant in the range of `DateTime`, given with a fraction below
/// one second. The format has to be one that `DateTime::format` can write.
#[verifier::external_body]
pub(crate) fn write_formatted(seconds: i64, nanos: u32, format: &str) -> (r: Option<String>)
    requires
        format@ == "%Y-%m-%d %H:%M:%S"@,
    ensures
        optional_text(r) == formatted_instant(seconds, nanos, format@),
        TIME_MIN <= seconds * NANOS_PER_SECOND && seconds * NANOS_PER_SECOND + nanos <= TIME_MAX
            && nanos < NANOS_PER_SECOND ==> r is Some,
{
    let instant = chrono::DateTime::<chrono::Utc>::from_timestamp(seconds, nanos)?;
    Some(instant.format(format).to_string())
}

/// The seconds since the Unix epoch of an instant, rounded down.
pub open spec fn seconds_of(time: int) -> int {
    time / NANOS_PER_SECOND as int
}

/// The nanoseconds of an instant after its last full second.
pub open spec fn fraction_of(time: int) -> int {
    time % NANOS_PER_SECOND as int
}

/// The instant so many nanoseconds after the Unix epoch. It does not lie within a leap second.
pub open spec fn instant_at(time: int) -> Instant {
    Instant { seconds: seconds_of(time) as i64, nanos: fraction_of(time) as u32 }
}

/// The instant so many nanoseconds after the Unix epoch.
pub(crate) fn instant_after(time: i128) -> (instant: Instant)
    requires
        TIME_MIN <= time <= TIME_MAX,
    ensures
        instant == instant_at(time as int),
        instant.valid(),
{
    let (seconds, nanos) = split_instant(time);
    Instant { seconds, nanos }
}

/// Takes an instant apart into seconds since the Unix epoch and the nanoseconds of the fraction.
pub(crate) fn split_instant(time: i128) -> (instant: (i64, u32))
    requires
        TIME_MIN <= time <= TIME_MAX,
    ensures
        instant.0 == seconds_of(time as int),
        instant.1 == fraction_of(time as int),
        instant.0 * NANOS_PER_SECOND + instant.1 == time,
        instant.1 < NANOS_PER_SECOND,
{
    let mut seconds: i128 = time / NANOS_PER_SECOND;
    let mut nanos: i128 = time % NANOS_PER_SECOND;
    if nanos < 0 {
        seconds = seconds - 1;
        nanos = nanos + NANOS_PER_SECOND;
    }
    proof {
        assert(seconds * NANOS_PER_SECOND + nanos == time);
        assert(0 <= nanos < NANOS_PER_SECOND);
    }
    (seconds as i64, nanos as u32)
}

/// An instant is its full seconds since the Unix epoch and the nanoseconds after the last of them,
/// of which there are less than a second's.
pub proof fn law_instant_is_the_sum_of_its_parts(time: int)
    ensures
        seconds_of(time) * NANOS_PER_SECOND + fraction_of(time) == time,
        0 <= fraction_of(time) < NANOS_PER_SECOND,
{
}

} // verus!
