//! What the log shows of entries, tasks and projects: local clock times,
//! durations, and the entries of each day.
use vstd::prelude::*;
use crate::duration::{format_duration, spec_format_duration, two_digit_string, two_digits};
use crate::summary::{DetailView, TimeEntryDetail};
use crate::time::{Clock, day_of, local_offset_at, spec_day, spec_hour, spec_minute, valid_timestamp};

verus! {

/// `HH:MM` of the instant `t` on a clock `offset` seconds ahead of UTC.
pub open spec fn hhmm(t: int, offset: int) -> Seq<char> {
    two_digits(spec_hour(t, offset) as nat) + seq![':'] + two_digits(spec_minute(t, offset) as nat)
}

/// `HH:MM` of the instant `t` on a clock `offset` seconds ahead of UTC, as
/// chrono's `format("%H:%M")` writes it.
pub fn clock_hhmm(t: i64, offset: i32) -> (s: String)
    requires
        valid_timestamp(t as int),
        -86400 < offset < 86400,
    ensures
        s@ == hhmm(t as int, offset as int),
{
    let local: i64 = t + offset as i64;
    let of_day: i64 = match local.checked_rem_euclid(86400) {
        Some(v) => v,
        None => 0,
    };
    let of_hour: i64 = match local.checked_rem_euclid(3600) {
        Some(v) => v,
        None => 0,
    };
    let mut s = two_digit_string((of_day / 3600) as u64);
    s.append(":");
    let minutes = two_digit_string((of_hour / 60) as u64);
    s.append(minutes.as_str());
    proof {
        reveal_strlit(":");
        assert(":"@ =~= seq![':']);
        assert(s@ =~= hhmm(t as int, offset as int));
    }
    s
}

/// Where and how long an entry shows in the log.
pub struct EntryDisplayInfo {
    /// The local day the shown start falls on, counted from 1970-01-01.
    pub day: i64,
    /// "HH:MM to HH:MM", or "HH:MM to ..." while the entry runs.
    pub time_range: String,
    pub start: i64,
    pub end: i64,
    pub duration_seconds: i64,
    pub is_active: bool,
}

/// The start shown: the billable one in a billable log where there is one.
pub open spec fn shown_start(e: DetailView, billable_only: bool) -> i64 {
    if billable_only {
        match e.billable_started_at {
            Some(t) => t,
            None => e.started_at,
        }
    } else {
        e.started_at
    }
}

/// The stop shown: the billable one in a billable log where there is one.
pub open spec fn shown_stop(e: DetailView, billable_only: bool) -> Option<i64> {
    if billable_only {
        match e.billable_stopped_at {
            Some(t) => Some(t),
            None => e.stopped_at,
        }
    } else {
        e.stopped_at
    }
}

/// The duration shown: the billable one in a billable log where there is one.
pub open spec fn shown_duration(e: DetailView, billable_only: bool) -> i64 {
    if billable_only {
        match e.billable_seconds {
            Some(b) => b,
            None => e.duration_seconds,
        }
    } else {
        e.duration_seconds
    }
}

/// The instants of the entry that the log shows lie in chrono's range.
pub open spec fn shown_times_valid(e: DetailView) -> bool {
    &&& valid_timestamp(e.started_at as int)
    &&& e.stopped_at matches Some(t) ==> valid_timestamp(t as int)
    &&& e.billable_started_at matches Some(t) ==> valid_timestamp(t as int)
    &&& e.billable_stopped_at matches Some(t) ==> valid_timestamp(t as int)
}

/// How the log shows the entry `e` at the instant `now`, the start read on a
/// clock `start_offset` seconds ahead of UTC and the end on one `end_offset`
/// ahead (the two differ across a change of daylight saving time).
pub open spec fn display_info(
    e: DetailView,
    billable_only: bool,
    now: i64,
    start_offset: int,
    end_offset: int,
    info: EntryDisplayInfo,
) -> bool {
    let start = shown_start(e, billable_only);
    let stop = shown_stop(e, billable_only);
    let end = match stop {
        Some(t) => t,
        None => now,
    };
    &&& info.start == start
    &&& info.end == end
    &&& info.duration_seconds == shown_duration(e, billable_only)
    &&& info.is_active == stop is None
    &&& info.day == spec_day(start as int, start_offset)
    &&& info.time_range@ == if stop is None {
        hhmm(start as int, start_offset) + " to ..."@
    } else {
        hhmm(start as int, start_offset) + " to "@ + hhmm(end as int, end_offset)
    }
}

/// How the log shows the entry at `now`, given the offsets of the machine's
/// time zone at the shown start and end.
pub fn display_info_at(
    entry: &TimeEntryDetail,
    billable_only: bool,
    now: i64,
    start_offset: i32,
    end_offset: i32,
) -> (info: EntryDisplayInfo)
    requires
        shown_times_valid(entry@),
        valid_timestamp(now as int),
        -86400 < start_offset < 86400,
        -86400 < end_offset < 86400,
    ensures
        display_info(entry@, billable_only, now, start_offset as int, end_offset as int, info),
{
    let start = if billable_only {
        match entry.billable_started_at {
            Some(t) => t,
            None => entry.started_at,
        }
    } else {
        entry.started_at
    };
    let stop = if billable_only {
        match entry.billable_stopped_at {
            Some(t) => Some(t),
            None => entry.stopped_at,
        }
    } else {
        entry.stopped_at
    };
    let end = match stop {
        Some(t) => t,
        None => now,
    };
    let duration_seconds = if billable_only {
        match entry.billable_seconds {
            Some(b) => b,
            None => entry.duration_seconds,
        }
    } else {
        entry.duration_seconds
    };
    let is_active = stop.is_none();
    let mut time_range = clock_hhmm(start, start_offset);
    if is_active {
        time_range.append(" to ...");
    } else {
        time_range.append(" to ");
        let end_text = clock_hhmm(end, end_offset);
        time_range.append(end_text.as_str());
    }
    EntryDisplayInfo {
        day: day_of(start, start_offset),
        time_range,
        start,
        end,
        duration_seconds,
        is_active,
    }
}

/// How the log shows the entry at `now`, read on the machine's clock.
pub fn entry_display_info(entry: &TimeEntryDetail, billable_only: bool, now: i64) -> (info:
    EntryDisplayInfo)
    requires
        shown_times_valid(entry@),
        valid_timestamp(now as int),
    ensures
        exists|start_offset: int, end_offset: int|
            -86400 < start_offset < 86400 && -86400 < end_offset < 86400 && #[trigger] display_info(
                entry@,
                billable_only,
                now,
                start_offset,
                end_offset,
                info,
            ),
{
    let start = if billable_only {
        match entry.billable_started_at {
            Some(t) => t,
            None => entry.started_at,
        }
    } else {
        entry.started_at
    };
    let end = if billable_only {
        match entry.billable_stopped_at {
            Some(t) => t,
            None => match entry.stopped_at {
                Some(t) => t,
                None => now,
            },
        }
    } else {
        match entry.stopped_at {
            Some(t) => t,
            None => now,
        }
    };
    let mut zone = Clock::new();
    let start_offset = local_offset_at(start, &mut zone);
    let end_offset = local_offset_at(end, &mut zone);
    let info = display_info_at(entry, billable_only, now, start_offset, end_offset);
    assert(display_info(entry@, billable_only, now, start_offset as int, end_offset as int, info));
    info
}

/// A total as the log shows it: the billable time alone in a billable log,
/// else the actual time, followed by the billable time where they differ.
pub open spec fn time_summary_text(total: i64, billable: i64, billable_only: bool) -> Seq<char> {
    if billable_only {
        spec_format_duration(billable as int)
    } else if billable != total {
        spec_format_duration(total as int) + " / billable: "@ + spec_format_duration(billable as int)
    } else {
        spec_format_duration(total as int)
    }
}

/// A total of a task or project as the log shows it.
pub fn time_summary(total: i64, billable: i64, billable_only: bool) -> (s: String)
    ensures
        s@ == time_summary_text(total, billable, billable_only),
{
    if billable_only {
        format_duration(billable)
    } else if billable != total {
        let mut s = format_duration(total);
        s.append(" / billable: ");
        let b = format_duration(billable);
        s.append(b.as_str());
        s
    } else {
        format_duration(total)
    }
}

/// The duration of one entry as the log shows it: the billable one alone
/// in a billable log, else the actual one, followed by the billable one
/// where it was rounded to another value.
pub open spec fn entry_duration_text(e: DetailView, billable_only: bool) -> Seq<char> {
    if billable_only {
        spec_format_duration(shown_duration(e, true) as int)
    } else {
        match e.billable_seconds {
            Some(b) => if b != e.duration_seconds {
                spec_format_duration(e.duration_seconds as int) + " / billable: "@
                    + spec_format_duration(b as int)
            } else {
                spec_format_duration(e.duration_seconds as int)
            },
            None => spec_format_duration(e.duration_seconds as int),
        }
    }
}

/// The duration of one entry as the log shows it.
pub fn entry_duration(entry: &TimeEntryDetail, billable_only: bool) -> (s: String)
    ensures
        s@ == entry_duration_text(entry@, billable_only),
{
    if billable_only {
        format_duration(
            match entry.billable_seconds {
                Some(b) => b,
                None => entry.duration_seconds,
            },
        )
    } else {
        match entry.billable_seconds {
            Some(b) => if b != entry.duration_seconds {
                let mut s = format_duration(entry.duration_seconds);
                s.append(" / billable: ");
                let t = format_duration(b);
                s.append(t.as_str());
                s
            } else {
                format_duration(entry.duration_seconds)
            },
            None => format_duration(entry.duration_seconds),
        }
    }
}

} // verus!
