//! Instants, half-hour rounding, days, and the calls into `chrono` that parse,
//! format and localise instants.
use vstd::prelude::*;
use vstd::arithmetic::div_mod::{lemma_fundamental_div_mod, lemma_fundamental_div_mod_converse, lemma_mod_bound};

verus! {

/// The earliest whole second a `chrono::DateTime<Utc>` holds (-262143-01-01 00:00:00 UTC).
pub const MIN_TIMESTAMP: i64 = -8334601315200i64;

/// The latest whole second a `chrono::DateTime<Utc>` holds (262142-12-31 23:59:59 UTC).
pub const MAX_TIMESTAMP: i64 = 8210266876799i64;

pub const SECONDS_PER_MINUTE: i64 = 60i64;

pub const SECONDS_PER_HOUR: i64 = 3600i64;

pub const SECONDS_PER_HALF_HOUR: i64 = 1800i64;

pub const SECONDS_PER_DAY: i64 = 86400i64;

/// The text form in which instants are stored in the database.
pub const STORAGE_FORMAT: &'static str = "%Y-%m-%d %H:%M:%S";

/// An instant that `chrono` can represent.
pub open spec fn valid_timestamp(t: int) -> bool {
    MIN_TIMESTAMP <= t <= MAX_TIMESTAMP
}

/// Seconds elapsed since the last full or half hour (UTC).
pub open spec fn half_hour_offset(t: int) -> int {
    t % 1800
}

/// The start of the half hour that holds `t`.
pub open spec fn spec_round_down(t: int) -> int {
    t - half_hour_offset(t)
}

/// The first full or half hour at or after `t`.
pub open spec fn spec_round_up(t: int) -> int {
    if half_hour_offset(t) == 0 {
        t
    } else {
        t - half_hour_offset(t) + 1800
    }
}

/// The day (counted from 1970-01-01) that holds the instant `t`, read on a clock
/// that is `offset` seconds ahead of UTC.
pub open spec fn spec_day(t: int, offset: int) -> int {
    (t + offset) / 86400
}

/// Minute of the hour of `t` on a clock `offset` seconds ahead of UTC.
pub open spec fn spec_minute(t: int, offset: int) -> int {
    ((t + offset) % 3600) / 60
}

/// Hour of the day of `t` on a clock `offset` seconds ahead of UTC.
pub open spec fn spec_hour(t: int, offset: int) -> int {
    ((t + offset) % 86400) / 3600
}

/// Second of the minute of `t` (the same on every clock chrono knows).
pub open spec fn spec_second(t: int) -> int {
    t % 60
}

/// `t` split at the divisor `d`: `t == d * (t / d) + t % d` with the
/// remainder in `0..d`.
proof fn lemma_split(t: int, d: int)
    requires
        d > 0,
    ensures
        t == d * (t / d) + t % d,
        0 <= t % d < d,
{
    lemma_fundamental_div_mod(t, d);
    lemma_mod_bound(t, d);
}

/// The quotient and remainder of `q * d + r` for a remainder in `0..d`.
proof fn lemma_unsplit(q: int, d: int, r: int)
    requires
        d > 0,
        0 <= r < d,
    ensures
        (q * d + r) / d == q,
        (q * d + r) % d == r,
{
    lemma_fundamental_div_mod_converse(q * d + r, d, q, r);
}

/// Rounding down yields a half-hour boundary no later than `t` and less than
/// half an hour before it, and leaves a boundary alone.
pub proof fn lemma_round_down(t: int)
    ensures
        spec_round_down(t) <= t < spec_round_down(t) + 1800,
        spec_round_down(t) % 1800 == 0,
        spec_round_down(spec_round_down(t)) == spec_round_down(t),
{
    lemma_split(t, 1800);
    let q = t / 1800;
    lemma_unsplit(q, 1800, 0);
}

/// Rounding down keeps the hour and the day, sets the minutes to 0 (minutes
/// 0-29) or 30 (minutes 30-59), and the seconds to 0.
pub proof fn lemma_round_down_fields(t: int)
    ensures
        spec_second(spec_round_down(t)) == 0,
        spec_minute(spec_round_down(t), 0) == if spec_minute(t, 0) < 30 { 0int } else { 30int },
        spec_hour(spec_round_down(t), 0) == spec_hour(t, 0),
        spec_day(spec_round_down(t), 0) == spec_day(t, 0),
{
    lemma_split(t, 3600);
    let h = t / 3600;
    let s = t % 3600;
    lemma_split(s, 60);
    let m = s / 60;
    lemma_split(t, 86400);
    let dd = t / 86400;
    let e = t % 86400;
    assert(e == 3600 * (h - 24 * dd) + s);
    lemma_unsplit(h - 24 * dd, 3600, s);
    let base = if m < 30 { 0int } else { 1800int };
    assert(t == (2 * h + base / 1800) * 1800 + (s - base));
    lemma_unsplit(2 * h + base / 1800, 1800, s - base);
    let r = spec_round_down(t);
    assert(r == h * 3600 + base);
    lemma_unsplit(h, 3600, base);
    lemma_unsplit(base / 60, 60, 0);
    lemma_unsplit(h * 60 + base / 60, 60, 0);
    lemma_unsplit(dd, 86400, e - s + base);
    lemma_unsplit(h - 24 * dd, 3600, base);
}

/// Rounding up leaves a half-hour boundary alone and otherwise moves to the
/// next one: the result is no earlier than `t` and less than half an hour after it.
pub proof fn lemma_round_up(t: int)
    ensures
        t <= spec_round_up(t) < t + 1800,
        spec_round_up(t) % 1800 == 0,
        spec_round_up(t) == t <==> t % 1800 == 0,
        spec_round_down(t) <= spec_round_up(t),
        spec_round_up(spec_round_up(t)) == spec_round_up(t),
{
    lemma_split(t, 1800);
    let q = t / 1800;
    lemma_unsplit(q, 1800, 0);
    lemma_unsplit(q + 1, 1800, 0);
}

/// Both roundings are monotonic.
pub proof fn lemma_rounding_monotonic(a: int, b: int)
    requires
        a <= b,
    ensures
        spec_round_down(a) <= spec_round_down(b),
        spec_round_up(a) <= spec_round_up(b),
{
    lemma_split(a, 1800);
    lemma_split(b, 1800);
    let qa = a / 1800;
    let qb = b / 1800;
    assert(qa <= qb);
}

/// The rounded (billable) span covers the actual one: it starts at the
/// half hour that holds the start, stops at the first full or half hour not
/// before the stop, so it is no shorter than the actual span and less than an
/// hour longer, and it is a whole number of half hours.
pub proof fn lemma_billable_covers_actual(start: int, stop: int)
    requires
        start <= stop,
    ensures
        spec_round_down(start) <= start,
        stop <= spec_round_up(stop),
        stop - start <= spec_round_up(stop) - spec_round_down(start) < stop - start + 3600,
        (spec_round_up(stop) - spec_round_down(start)) % 1800 == 0,
{
    lemma_round_down(start);
    lemma_round_up(stop);
    let a = spec_round_down(start);
    let b = spec_round_up(stop);
    lemma_split(a, 1800);
    lemma_split(b, 1800);
    lemma_unsplit(b / 1800 - a / 1800, 1800, 0);
}

/// The start of the half hour that holds `t`.
pub fn round_down_to_30min(t: i64) -> (r: i64)
    requires
        valid_timestamp(t as int),
    ensures
        r == spec_round_down(t as int),
        valid_timestamp(r as int),
{
    let offset: i64 = match t.checked_rem_euclid(SECONDS_PER_HALF_HOUR) {
        Some(o) => o,
        None => 0,
    };
    proof {
        assert(MIN_TIMESTAMP % 1800 == 0);
        assert(spec_round_down(MIN_TIMESTAMP as int) == MIN_TIMESTAMP);
        lemma_rounding_monotonic(MIN_TIMESTAMP as int, t as int);
        lemma_round_down(t as int);
    }
    t - offset
}

/// The first full or half hour at or after `t`; `t` itself when it is one.
pub fn round_up_to_30min(t: i64) -> (r: i64)
    requires
        valid_timestamp(t as int),
        valid_timestamp(spec_round_up(t as int)),
    ensures
        r == spec_round_up(t as int),
        valid_timestamp(r as int),
{
    let offset: i64 = match t.checked_rem_euclid(SECONDS_PER_HALF_HOUR) {
        Some(o) => o,
        None => 0,
    };
    if offset == 0 {
        t
    } else {
        t - offset + SECONDS_PER_HALF_HOUR
    }
}

/// The day (counted from 1970-01-01) of the instant `t` on a clock `offset`
/// seconds ahead of UTC.
pub fn day_of(t: i64, offset: i32) -> (d: i64)
    requires
        valid_timestamp(t as int),
        -86400 < offset < 86400,
    ensures
        d == spec_day(t as int, offset as int),
{
    let local: i64 = t + offset as i64;
    match local.checked_div_euclid(SECONDS_PER_DAY) {
        Some(d) => d,
        None => 0,
    }
}

// ---------------------------------------------------------------------------
// chrono
// ---------------------------------------------------------------------------

/// What `s.parse::<chrono::DateTime<chrono::Utc>>()` reads from the text, as a
/// whole second: an RFC 3339 date and time with an offset.
pub uninterp spec fn utc_datetime_from_text(text: Seq<char>) -> Option<i64>;

/// What `chrono::NaiveDateTime::parse_from_str(text, format)` reads, as the
/// whole seconds from 1970-01-01 00:00:00 on the same wall clock.
pub uninterp spec fn naive_datetime_from_text(text: Seq<char>, format: Seq<char>) -> Option<i64>;

/// What `chrono::NaiveTime::parse_from_str(text, format)` reads, as seconds
/// since midnight.
pub uninterp spec fn naive_time_from_text(text: Seq<char>, format: Seq<char>) -> Option<u32>;

/// What `chrono::NaiveDate::parse_from_str(text, format)` reads, as days since
/// 1970-01-01.
pub uninterp spec fn naive_date_from_text(text: Seq<char>, format: Seq<char>) -> Option<i32>;

/// The text that chrono's `format(format)` writes for the UTC instant `t`.
pub uninterp spec fn datetime_text(t: i64, format: Seq<char>) -> Seq<char>;

/// `str::parse::<chrono::DateTime<chrono::Utc>>` (chrono's `FromStr`, which reads
/// an RFC 3339 date and time with an offset), taken to a whole second with
/// `DateTime::timestamp`. Claimed: the result depends on the text alone, and
/// every instant that chrono holds lies in its range.
#[verifier::external_body]
pub(crate) fn parse_utc_datetime(text: &str) -> (r: Option<i64>)
    ensures
        r == utc_datetime_from_text(text@),
        r matches Some(t) ==> valid_timestamp(t as int),
{
    text.parse::<chrono::DateTime<chrono::Utc>>().ok().map(|dt| dt.timestamp())
}

/// `chrono::NaiveDateTime::parse_from_str`, taken to whole seconds with
/// `and_utc().timestamp()`. Claimed: the result depends on the arguments
/// alone, and lies in chrono's range.
#[verifier::external_body]
pub(crate) fn parse_naive_datetime(text: &str, format: &str) -> (r: Option<i64>)
    ensures
        r == naive_datetime_from_text(text@, format@),
        r matches Some(t) ==> valid_timestamp(t as int),
{
    chrono::NaiveDateTime::parse_from_str(text, format).ok().map(|dt| dt.and_utc().timestamp())
}

/// `chrono::NaiveTime::parse_from_str`, taken to `num_seconds_from_midnight`.
/// Claimed: the result depends on the arguments alone and, as chrono
/// documents for that method, is less than a day.
#[verifier::external_body]
pub(crate) fn parse_naive_time(text: &str, format: &str) -> (r: Option<u32>)
    ensures
        r == naive_time_from_text(text@, format@),
        r matches Some(s) ==> s < 86400,
{
    chrono::NaiveTime::parse_from_str(text, format).ok().map(
        |t| chrono::Timelike::num_seconds_from_midnight(&t),
    )
}

/// `chrono::NaiveDate::parse_from_str`, taken to `to_epoch_days`. Claimed: the
/// result depends on the arguments alone and is a day of chrono's range.
#[verifier::external_body]
pub(crate) fn parse_naive_date(text: &str, format: &str) -> (r: Option<i32>)
    ensures
        r == naive_date_from_text(text@, format@),
        r matches Some(d) ==> valid_timestamp(d * 86400),
{
    chrono::NaiveDate::parse_from_str(text, format).ok().map(|d| d.to_epoch_days())
}

/// `chrono::DateTime::from_timestamp(t, 0)` written out with `format(format)`.
/// Claimed: the text depends on the arguments alone. Only the storage format
/// is admitted, for which chrono's formatting cannot fail.
#[verifier::external_body]
pub(crate) fn format_datetime(t: i64, format: &str) -> (r: String)
    requires
        valid_timestamp(t as int),
        format@ == STORAGE_FORMAT@,
    ensures
        r@ == datetime_text(t, format@),
{
    chrono::DateTime::from_timestamp(t, 0).unwrap().format(format).to_string()
}

/// The readings taken of the system clock and of the machine's time zone
/// through one handle, oldest first.
pub struct Clock {
    readings: Ghost<Seq<i64>>,
    offsets: Ghost<Seq<(i64, i32)>>,
}

impl Clock {
    /// The instants the clock showed, oldest reading first.
    pub closed spec fn readings(&self) -> Seq<i64> {
        self.readings@
    }

    /// The offsets the time zone gave, each with the instant it was asked
    /// for, oldest first.
    pub closed spec fn offsets(&self) -> Seq<(i64, i32)> {
        self.offsets@
    }

    /// A handle through which nothing has been read yet.
    pub fn new() -> (c: Clock)
        ensures
            c.readings() == Seq::<i64>::empty(),
            c.offsets() == Seq::<(i64, i32)>::empty(),
    {
        Clock { readings: Ghost(Seq::empty()), offsets: Ghost(Seq::empty()) }
    }
}

/// `chrono::Utc::now()` as a whole second (`timestamp`). Claimed: an instant in
/// chrono's range, which is written down as the latest reading of `clock`;
/// which instant it is depends on the clock.
#[verifier::external_body]
pub(crate) fn now(clock: &mut Clock) -> (r: i64)
    ensures
        valid_timestamp(r as int),
        final(clock).readings() == old(clock).readings().push(r),
        final(clock).offsets() == old(clock).offsets(),
{
    let _ = clock;
    chrono::Utc::now().timestamp()
}

/// The instant the system clock shows, read through a handle of its own.
pub fn current_instant() -> (r: i64)
    ensures
        valid_timestamp(r as int),
{
    let mut clock = Clock::new();
    now(&mut clock)
}

/// The offset of the machine's time zone at the UTC instant `t`:
/// `chrono::Local`'s `offset_from_utc_datetime(..).local_minus_utc()`, as used
/// by `with_timezone(&Local)`. Claimed: it depends on the time zone settings,
/// and lies strictly within a day either way, as `FixedOffset` guarantees; the
/// offset given is written down in `clock` with `t`.
#[verifier::external_body]
pub(crate) fn local_offset_at(t: i64, clock: &mut Clock) -> (r: i32)
    requires
        valid_timestamp(t as int),
    ensures
        -86400 < r < 86400,
        final(clock).offsets() == old(clock).offsets().push((t, r)),
        final(clock).readings() == old(clock).readings(),
{
    let _ = clock;
    let utc = chrono::DateTime::from_timestamp(t, 0).unwrap().naive_utc();
    chrono::TimeZone::offset_from_utc_datetime(&chrono::Local, &utc).local_minus_utc()
}

/// The instant `t` lies less than a day before or after `naive`: they differ
/// by an offset of a time zone.
pub open spec fn within_a_day(naive: int, t: int) -> bool {
    naive - 86400 < t < naive + 86400
}

/// How a wall-clock time of the machine's time zone maps to instants.
pub enum LocalMapping {
    /// One instant.
    Single(i64),
    /// Two instants (the clock was turned back); the earlier one first.
    Ambiguous(i64, i64),
    /// No instant (the clock skipped that time).
    Missing,
}

/// `chrono::Local.from_local_datetime` for the wall-clock time `naive` (whole
/// seconds from 1970-01-01 00:00:00 on the local clock), each instant taken
/// with `timestamp`. Claimed: the instants lie in chrono's range, and each is
/// the wall-clock time less an offset of the zone (`local.checked_sub_offset`),
/// which a `FixedOffset` keeps strictly within a day; which mapping comes back
/// depends on the time zone settings.
#[verifier::external_body]
pub(crate) fn local_to_utc(naive: i64) -> (r: LocalMapping)
    requires
        valid_timestamp(naive as int),
    ensures
        r matches LocalMapping::Single(t) ==> valid_timestamp(t as int) && within_a_day(naive as int, t as int),
        r matches LocalMapping::Ambiguous(a, b) ==> valid_timestamp(a as int) && valid_timestamp(
            b as int,
        ) && within_a_day(naive as int, a as int) && within_a_day(naive as int, b as int),
{
    let local = chrono::DateTime::from_timestamp(naive, 0).unwrap().naive_utc();
    match chrono::TimeZone::from_local_datetime(&chrono::Local, &local) {
        chrono::LocalResult::Single(dt) => LocalMapping::Single(dt.timestamp()),
        chrono::LocalResult::Ambiguous(a, b) => LocalMapping::Ambiguous(a.timestamp(), b.timestamp()),
        chrono::LocalResult::None => LocalMapping::Missing,
    }
}

} // verus!
