//! Reading the instants and days given on the command line.
use vstd::prelude::*;
use crate::time::{
    Clock, LocalMapping, MAX_TIMESTAMP, MIN_TIMESTAMP, local_offset_at, local_to_utc, naive_date_from_text,
    naive_datetime_from_text, naive_time_from_text, now, parse_naive_date, parse_naive_datetime,
    parse_naive_time, spec_day, valid_timestamp, within_a_day,
};

verus! {

/// What `chrono::DateTime::parse_from_rfc3339` reads from the text, as a whole
/// second.
pub uninterp spec fn rfc3339_from_text(text: Seq<char>) -> Option<i64>;

/// `chrono::DateTime::parse_from_rfc3339`, taken to a whole second with
/// `timestamp`. Claimed: the result depends on the text alone and lies in
/// chrono's range.
#[verifier::external_body]
pub(crate) fn parse_rfc3339(text: &str) -> (r: Option<i64>)
    ensures
        r == rfc3339_from_text(text@),
        r matches Some(t) ==> valid_timestamp(t as int),
{
    chrono::DateTime::parse_from_rfc3339(text).ok().map(|dt| dt.timestamp())
}

pub const DATE_TIME_SECONDS_FORMAT: &'static str = "%Y-%m-%d %H:%M:%S";

pub const DATE_TIME_MINUTES_FORMAT: &'static str = "%Y-%m-%d %H:%M";

pub const TIME_SECONDS_FORMAT: &'static str = "%H:%M:%S";

pub const TIME_MINUTES_FORMAT: &'static str = "%H:%M";

pub const DAY_FORMAT: &'static str = "%Y-%m-%d";

pub const UNSUPPORTED_TIMESTAMP: &'static str = "Unsupported format. Use HH:MM, HH:MM:SS, YYYY-MM-DD HH:MM, YYYY-MM-DD HH:MM:SS, or RFC3339.";

pub const UNSUPPORTED_DAY: &'static str = "Unsupported date format. Use YYYY-MM-DD.";

pub const INVALID_LOCAL_DATETIME: &'static str = "Invalid local datetime: ";

pub const INVALID_LOCAL_TIME: &'static str = "Invalid local time: ";

/// The wall-clock date and time the text gives, in the first format that
/// reads it.
pub open spec fn naive_datetime_given(text: Seq<char>) -> Option<i64> {
    match naive_datetime_from_text(text, DATE_TIME_SECONDS_FORMAT@) {
        Some(t) => Some(t),
        None => naive_datetime_from_text(text, DATE_TIME_MINUTES_FORMAT@),
    }
}

/// The time of day the text gives, in the first format that reads it.
pub open spec fn naive_time_given(text: Seq<char>) -> Option<u32> {
    match naive_time_from_text(text, TIME_SECONDS_FORMAT@) {
        Some(t) => Some(t),
        None => naive_time_from_text(text, TIME_MINUTES_FORMAT@),
    }
}

/// A way the machine's time zone can map the wall-clock time `naive` to
/// instants: each instant in chrono's range and within a day of `naive`.
pub open spec fn mapping_admissible(naive: int, m: LocalMapping) -> bool {
    match m {
        LocalMapping::Single(t) => valid_timestamp(t as int) && within_a_day(naive, t as int),
        LocalMapping::Ambiguous(a, b) => valid_timestamp(a as int) && valid_timestamp(b as int)
            && within_a_day(naive, a as int) && within_a_day(naive, b as int),
        LocalMapping::Missing => true,
    }
}

/// The answer for a wall-clock time mapped as `m`: the instant it happens
/// at, or, where the clock skipped it, the message `msg`.
pub open spec fn mapped_answer(m: LocalMapping, msg: Seq<char>, r: Result<i64, String>) -> bool {
    match mapped_instant(m) {
        Some(t) => r == Ok::<i64, String>(t),
        None => r matches Err(e) && e@ == msg,
    }
}

/// The answer for the wall-clock time `naive` on the machine's clock, for
/// some mapping its time zone can give.
pub open spec fn local_time_answer(naive: int, msg: Seq<char>, r: Result<i64, String>) -> bool {
    exists|m: LocalMapping| mapping_admissible(naive, m) && #[trigger] mapped_answer(m, msg, r)
}

/// The answer for `secs` after midnight of the day `today` (counted from
/// 1970-01-01): a day chrono cannot hold gives the message.
pub open spec fn time_on_day_answer(today: int, secs: int, msg: Seq<char>, r: Result<i64, String>) -> bool {
    if today > 95026236 || today < -96465293 {
        r matches Err(e) && e@ == msg
    } else {
        local_time_answer(today * 86400 + secs, msg, r)
    }
}

/// The answer for `secs` after midnight of today, today being the day of
/// some instant on the machine's clock.
pub open spec fn time_of_today_answer(secs: int, msg: Seq<char>, r: Result<i64, String>) -> bool {
    exists|t: int, offset: int|
        {
            &&& valid_timestamp(t)
            &&& -86400 < offset < 86400
            &&& #[trigger] time_on_day_answer(spec_day(t, offset), secs, msg, r)
        }
}

/// What `parse_timestamp` answers for `text` when the clock shows `now`
/// on a clock `offset` seconds ahead of UTC: a time of day is taken on the
/// day of `now` on that clock.
pub open spec fn timestamp_answer_at(text: Seq<char>, now: int, offset: int, r: Result<i64, String>) -> bool {
    match rfc3339_from_text(text) {
        Some(t) => r == Ok::<i64, String>(t),
        None => match naive_datetime_given(text) {
            Some(n) => local_time_answer(n as int, INVALID_LOCAL_DATETIME@ + text, r),
            None => match naive_time_given(text) {
                Some(secs) => time_on_day_answer(spec_day(now, offset), secs as int, INVALID_LOCAL_TIME@ + text, r),
                None => r matches Err(m) && m@ == UNSUPPORTED_TIMESTAMP@,
            },
        },
    }
}

/// The answer at a clock reading is an answer.
proof fn lemma_answer_at(text: Seq<char>, now: int, offset: int, r: Result<i64, String>)
    requires
        valid_timestamp(now),
        -86400 < offset < 86400,
        timestamp_answer_at(text, now, offset, r),
    ensures
        timestamp_answer(text, r),
{
    if rfc3339_from_text(text) is None && naive_datetime_given(text) is None {
        if let Some(secs) = naive_time_given(text) {
            assert(time_on_day_answer(spec_day(now, offset), secs as int, INVALID_LOCAL_TIME@ + text, r));
        }
    }
}

/// What `parse_timestamp` answers for `text`: an RFC 3339 instant as it is;
/// a date and time, or a time of today, on the machine's clock, as the
/// instant it happens, within a day of that wall-clock time (the message
/// names the text where the clock skipped it); any other text, the list of
/// accepted forms.
pub open spec fn timestamp_answer(text: Seq<char>, r: Result<i64, String>) -> bool {
    match rfc3339_from_text(text) {
        Some(t) => r == Ok::<i64, String>(t),
        None => match naive_datetime_given(text) {
            Some(n) => local_time_answer(n as int, INVALID_LOCAL_DATETIME@ + text, r),
            None => match naive_time_given(text) {
                Some(secs) => time_of_today_answer(secs as int, INVALID_LOCAL_TIME@ + text, r),
                None => r matches Err(m) && m@ == UNSUPPORTED_TIMESTAMP@,
            },
        },
    }
}

/// `prefix` followed by `text`.
fn message(prefix: &str, text: &str) -> (m: String)
    ensures
        m@ == prefix@ + text@,
{
    let mut m = String::from_str(prefix);
    m.append(text);
    m
}

/// The instant a wall-clock time happens at, given how it maps to instants:
/// the earlier one when the clock was turned back over it, none when it
/// skipped it.
pub open spec fn mapped_instant(m: LocalMapping) -> Option<i64> {
    match m {
        LocalMapping::Single(t) => Some(t),
        LocalMapping::Ambiguous(t, _) => Some(t),
        LocalMapping::Missing => None,
    }
}

/// The instant a wall-clock time happens at, given how it maps to instants.
pub fn instant_of_mapping(m: LocalMapping) -> (r: Option<i64>)
    ensures
        r == mapped_instant(m),
{
    match m {
        LocalMapping::Single(t) => Some(t),
        LocalMapping::Ambiguous(t, _) => Some(t),
        LocalMapping::Missing => None,
    }
}

/// The instant a wall-clock time of the machine's clock happens at, as the
/// machine's time zone maps it.
fn local_instant(naive: i64) -> (r: Option<i64>)
    requires
        valid_timestamp(naive as int),
    ensures
        exists|m: LocalMapping| mapping_admissible(naive as int, m) && r == #[trigger] mapped_instant(m),
{
    let m = local_to_utc(naive);
    let r = instant_of_mapping(m);
    assert(mapping_admissible(naive as int, m));
    r
}

/// The instant the wall-clock time `naive` happens at on the machine's
/// clock, or the message `prefix` followed by `input`.
fn answer_local(naive: i64, prefix: &str, input: &str) -> (r: Result<i64, String>)
    requires
        valid_timestamp(naive as int),
    ensures
        local_time_answer(naive as int, prefix@ + input@, r),
        r matches Ok(t) ==> valid_timestamp(t as int),
{
    let found = local_instant(naive);
    let r = match found {
        Some(t) => Ok(t),
        None => Err(message(prefix, input)),
    };
    proof {
        let m = choose|m: LocalMapping| mapping_admissible(naive as int, m) && found == #[trigger] mapped_instant(m);
        assert(mapped_answer(m, prefix@ + input@, r));
    }
    r
}

/// An instant given on the command line, the clock showing `now` on a
/// clock `offset` seconds ahead of UTC: RFC 3339, `YYYY-MM-DD HH:MM[:SS]`,
/// or `HH:MM[:SS]` on the day of `now`, on the machine's clock.
pub fn timestamp_at(input: &str, now: i64, offset: i32) -> (r: Result<i64, String>)
    requires
        valid_timestamp(now as int),
        -86400 < offset < 86400,
    ensures
        timestamp_answer_at(input@, now as int, offset as int, r),
        r matches Ok(t) ==> valid_timestamp(t as int),
{
    if let Some(t) = parse_rfc3339(input) {
        return Ok(t);
    }
    let naive = match parse_naive_datetime(input, DATE_TIME_SECONDS_FORMAT) {
        Some(t) => Some(t),
        None => parse_naive_datetime(input, DATE_TIME_MINUTES_FORMAT),
    };
    if let Some(n) = naive {
        return answer_local(n, INVALID_LOCAL_DATETIME, input);
    }
    let time = match parse_naive_time(input, TIME_SECONDS_FORMAT) {
        Some(t) => Some(t),
        None => parse_naive_time(input, TIME_MINUTES_FORMAT),
    };
    if let Some(secs) = time {
        let today = crate::time::day_of(now, offset);
        if today > (MAX_TIMESTAMP - 86399) / 86400 || today < MIN_TIMESTAMP / 86400 {
            return Err(message(INVALID_LOCAL_TIME, input));
        }
        let naive = today * 86400 + secs as i64;
        return answer_local(naive, INVALID_LOCAL_TIME, input);
    }
    Err(String::from_str(UNSUPPORTED_TIMESTAMP))
}

/// The answer for `text` when the clock showed `now`, on the machine's
/// clock some offset (under a day) ahead of UTC.
pub open spec fn answer_at_reading(text: Seq<char>, now: i64, r: Result<i64, String>) -> bool {
    exists|offset: int| -86400 < offset < 86400 && #[trigger] timestamp_answer_at(text, now as int, offset, r)
}

/// An instant given on the command line, reading the clock and then the
/// machine's time zone at that reading through `clock`, once each: RFC 3339,
/// `YYYY-MM-DD HH:MM[:SS]`, or `HH:MM[:SS]` on the day of that reading on the
/// machine's clock, whose offset is the one read.
pub fn timestamp_on_clock(input: &str, clock: &mut Clock) -> (r: Result<i64, String>)
    ensures
        final(clock).readings() == old(clock).readings().push(final(clock).readings().last()),
        final(clock).offsets() == old(clock).offsets().push(
            (final(clock).readings().last(), final(clock).offsets().last().1),
        ),
        valid_timestamp(final(clock).readings().last() as int),
        -86400 < final(clock).offsets().last().1 < 86400,
        timestamp_answer_at(
            input@,
            final(clock).readings().last() as int,
            final(clock).offsets().last().1 as int,
            r,
        ),
        answer_at_reading(input@, final(clock).readings().last(), r),
        timestamp_answer(input@, r),
        r matches Ok(t) ==> valid_timestamp(t as int),
{
    let current = now(clock);
    let offset = local_offset_at(current, clock);
    let r = timestamp_at(input, current, offset);
    proof {
        lemma_answer_at(input@, current as int, offset as int, r);
        assert(timestamp_answer_at(input@, current as int, offset as int, r));
    }
    r
}

/// A time of day given alone (no RFC 3339 instant, no date) is taken on the
/// day that the clock reading `now` falls on at the offset `offset`: the
/// answer is the instant at which the wall clock shows that time on that
/// day, within a day of it; no other day is used.
pub proof fn lemma_time_of_day_on_reading_day(text: Seq<char>, now: int, offset: int, t: i64)
    requires
        timestamp_answer_at(text, now, offset, Ok(t)),
        rfc3339_from_text(text) is None,
        naive_datetime_given(text) is None,
    ensures
        naive_time_given(text) is Some,
        local_time_answer(
            spec_day(now, offset) * 86400 + naive_time_given(text)->Some_0,
            INVALID_LOCAL_TIME@ + text,
            Ok(t),
        ),
        within_a_day(spec_day(now, offset) * 86400 + naive_time_given(text)->Some_0, t as int),
{
    let secs = naive_time_given(text)->Some_0;
    let naive = spec_day(now, offset) * 86400 + secs;
    let r = Ok::<i64, String>(t);
    assert(!(spec_day(now, offset) > 95026236 || spec_day(now, offset) < -96465293));
    assert(local_time_answer(naive, INVALID_LOCAL_TIME@ + text, r));
    let m = choose|m: LocalMapping| mapping_admissible(naive, m) && #[trigger] mapped_answer(m, INVALID_LOCAL_TIME@ + text, r);
    assert(mapped_instant(m) == Some(t));
}

/// An instant given on the command line: RFC 3339, `YYYY-MM-DD HH:MM[:SS]` or
/// `HH:MM[:SS]` (today) on the machine's clock. It reads the clock through a
/// handle of its own, which its caller never sees; `timestamp_on_clock` is
/// the same reading through the caller's handle, tied to that reading.
pub fn parse_timestamp(input: &str) -> (r: Result<i64, String>)
    ensures
        timestamp_answer(input@, r),
        exists|now: int, offset: int|
            valid_timestamp(now) && -86400 < offset < 86400 && #[trigger] timestamp_answer_at(input@, now, offset, r),
        r matches Ok(t) ==> valid_timestamp(t as int),
{
    let mut clock = Clock::new();
    let r = timestamp_on_clock(input, &mut clock);
    proof {
        let t = clock.readings().last();
        let offset = choose|offset: int| -86400 < offset < 86400 && #[trigger] timestamp_answer_at(input@, t as int, offset, r);
        assert(timestamp_answer_at(input@, t as int, offset, r));
    }
    r
}

/// A day given on the command line as `YYYY-MM-DD`, counted from 1970-01-01.
pub fn parse_day(input: &str) -> (r: Result<i32, String>)
    ensures
        match naive_date_from_text(input@, DAY_FORMAT@) {
            Some(d) => r == Ok::<i32, String>(d),
            None => r matches Err(m) && m@ == UNSUPPORTED_DAY@,
        },
        r matches Ok(d) ==> valid_timestamp(d * 86400),
{
    match parse_naive_date(input, DAY_FORMAT) {
        Some(d) => Ok(d),
        None => Err(String::from_str(UNSUPPORTED_DAY)),
    }
}

} // verus!
