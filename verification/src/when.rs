//! When a record takes place.
use vstd::prelude::*;

use crate::date::{local_instant, local_offset, plus_seconds, read_date, Date, Moment};
use crate::record::EventRecord;
use crate::text::{parse_number, split_once};

verus! {

/// A timed record has no end; on a server it takes this many minutes.
pub const DEFAULT_DURATION_MIN: i32 = 60;

/// Why a record cannot be sent to a server.
#[derive(Clone, Copy, Debug, PartialEq, Eq, Structural)]
pub enum RecordError {
    /// The date is not one.
    BadDate,
    /// The time is not one.
    BadTime,
    /// The clocks here never show the time on that date.
    SkippedTime,
    /// The end lies beyond the calendar.
    OutOfRange,
    /// There is no event to change.
    NoEvent,
}

/// The hour and the minute that a time writes.
pub open spec fn clock_read(time: Seq<char>) -> Option<(u32, u32)> {
    let k = crate::text::find(time, ':');
    if k < time.len() {
        match (crate::text::number(time.take(k)), crate::text::number(time.skip(k + 1))) {
            (Some(h), Some(m)) => Some((h, m)),
            _ => None,
        }
    } else {
        None
    }
}

/// The date of a record and, where it has one, its time.
pub open spec fn record_when(r: crate::record::RecordView) -> Result<
    (Date, Option<(u32, u32)>),
    RecordError,
> {
    match crate::date::date_read(r.date) {
        None => Err(RecordError::BadDate),
        Some(date) => match r.time {
            None => Ok((date, None)),
            Some(time) => match clock_read(time) {
                None => Err(RecordError::BadTime),
                Some(t) => Ok((date, Some(t))),
            },
        },
    }
}

/// Whether a record has a date and, where there is one, a time written as the mirror and the
/// calendar write them.
pub open spec fn is_dated(
    r: crate::record::RecordView,
    date: Date,
    time: Option<(u32, u32)>,
) -> bool {
    &&& crate::date::valid_date(date)
    &&& crate::agenda::valid_time(time)
    &&& r.date == crate::date::date_text(date)
    &&& r.time == match time {
        Some((hour, minute)) => Some(crate::mirror::clock_text(hour, minute)),
        None => None,
    }
}

/// Reads the date and the time of a record: those that were written, where the mirror or the
/// calendar wrote it.
pub fn parse_record_time(r: &EventRecord) -> (w: Result<(Date, Option<(u32, u32)>), RecordError>)
    ensures
        w == record_when(r@),
        w matches Ok((date, _)) ==> crate::date::valid_date(date),
        forall|date: Date, time: Option<(u32, u32)>| #[trigger]
            is_dated(r@, date, time) ==> w == Ok::<(Date, Option<(u32, u32)>), RecordError>(
                (date, time),
            ),
{
    let read = read_date(r.date.as_str());
    proof {
        assert forall|date: Date, time: Option<(u32, u32)>| #[trigger]
            is_dated(r@, date, time) implies record_when(r@) == Ok::<
            (Date, Option<(u32, u32)>),
            RecordError,
        >((date, time)) by {
            if let Some((hour, minute)) = time {
                crate::agenda::lemma_time_reads_back(hour, minute);
            }
        }
    }
    let date = match read {
        None => return Err(RecordError::BadDate),
        Some(d) => d,
    };
    match &r.time {
        None => Ok((date, None)),
        Some(t) => match split_once(t.as_str(), ':') {
            None => Err(RecordError::BadTime),
            Some((h, m)) => match (parse_number(h), parse_number(m)) {
                (Some(h), Some(m)) => Ok((date, Some((h, m)))),
                _ => Err(RecordError::BadTime),
            },
        },
    }
}

/// What the clocks here show when a record starts; an untimed record starts with its day.
pub open spec fn record_start(r: crate::record::RecordView) -> Result<Moment, RecordError> {
    match record_when(r) {
        Err(e) => Err(e),
        Ok((date, None)) => Ok(Moment { date, hour: 0, minute: 0, second: 0 }),
        Ok((date, Some((hour, minute)))) => if hour < 24 && minute < 60 {
            Ok(Moment { date, hour, minute, second: 0 })
        } else {
            Err(RecordError::BadTime)
        },
    }
}

/// Reads when a record starts by the clocks here.
pub fn start_of_record(r: &EventRecord) -> (m: Result<Moment, RecordError>)
    ensures
        m == record_start(r@),
        m matches Ok(m) ==> crate::date::valid_moment(m),
{
    let (date, time) = match parse_record_time(r) {
        Err(e) => return Err(e),
        Ok(w) => w,
    };
    match time {
        None => Ok(Moment { date, hour: 0, minute: 0, second: 0 }),
        Some((hour, minute)) => {
            if hour < 24 && minute < 60 {
                Ok(Moment { date, hour, minute, second: 0 })
            } else {
                Err(RecordError::BadTime)
            }
        },
    }
}

/// The start and the end of a record in UTC, each with the seconds by which the clocks here
/// are then ahead.
#[derive(Clone, Copy, Debug)]
pub struct Span {
    pub start: Moment,
    pub start_offset: i32,
    pub end: Moment,
    pub end_offset: i32,
}

/// Whether a span starts when the clocks here show `local`, and takes the time of a record
/// without an end.
pub open spec fn spans(span: Span, local: Moment) -> bool {
    &&& crate::date::valid_moment(span.start)
    &&& crate::date::valid_moment(span.end)
    &&& -86400 < span.start_offset < 86400
    &&& -86400 < span.end_offset < 86400
    &&& crate::date::second_number(span.start) == crate::date::second_number(local)
        - span.start_offset
    &&& crate::date::second_number(span.end) == crate::date::second_number(span.start)
        + DEFAULT_DURATION_MIN * 60
}

/// Whether what starts at a reading of the clocks may end beyond the calendar.
pub open spec fn is_near_end(local: Moment) -> bool {
    crate::date::second_number(local) + 86400 + DEFAULT_DURATION_MIN * 60 > (
    crate::date::day_number(crate::date::max_date()) + 1) * 86400
}

/// Whether a record cannot be sent to a server for a reason: its date or its time is not one;
/// it takes the last day of the calendar; or, of a timed record, the clocks of the machine
/// never show the time, or it ends beyond the calendar.
pub open spec fn fails_with(r: crate::record::RecordView, e: RecordError) -> bool {
    match record_when(r) {
        Err(why) => e == why,
        Ok((date, None)) => e == RecordError::OutOfRange && date == crate::date::max_date(),
        Ok((_, Some(_))) => match record_start(r) {
            Err(why) => e == why,
            Ok(local) => e == RecordError::SkippedTime || (e == RecordError::OutOfRange
                && is_near_end(local)),
        },
    }
}

/// Whether the date and the time of a record are ones, and its day is not the last of the
/// calendar.
pub open spec fn may_be_sent(r: crate::record::RecordView) -> bool {
    match record_when(r) {
        Err(_) => false,
        Ok((date, None)) => date != crate::date::max_date(),
        Ok((_, Some(_))) => record_start(r) is Ok,
    }
}

/// Whether a record that starts at an instant ends within the calendar.
pub open spec fn ends_in_calendar(start: Moment) -> bool {
    crate::date::second_number(start) + DEFAULT_DURATION_MIN * 60 < (crate::date::day_number(
        crate::date::max_date(),
    ) + 1) * 86400
}

/// When a timed record ends, given the instant at which the clocks show its start, if they ever
/// do, with the seconds by which they are then ahead.
pub fn end_of_record(found: Option<(Moment, i32)>) -> (end: Result<Moment, RecordError>)
    requires
        found matches Some((start, _)) ==> crate::date::valid_moment(start),
    ensures
        match found {
            None => end == Err::<Moment, RecordError>(RecordError::SkippedTime),
            Some((start, _)) => if ends_in_calendar(start) {
                &&& end matches Ok(end)
                &&& crate::date::valid_moment(end)
                &&& crate::date::second_number(end) == crate::date::second_number(start)
                    + DEFAULT_DURATION_MIN * 60
            } else {
                end == Err::<Moment, RecordError>(RecordError::OutOfRange)
            },
        },
{
    match found {
        None => Err(RecordError::SkippedTime),
        Some((start, _)) => {
            proof {
                crate::date::lemma_number_bounds(start.date);
            }
            match plus_seconds(start, DEFAULT_DURATION_MIN * 60) {
                None => Err(RecordError::OutOfRange),
                Some(end) => {
                    proof {
                        crate::date::lemma_number_bounds(end.date);
                    }
                    Ok(end)
                },
            }
        },
    }
}

/// The start of a record and its default end. The machine's time zone decides which instants
/// these are, and whether the clocks ever show the start.
pub fn record_span(r: &EventRecord) -> (s: Result<Span, RecordError>)
    ensures
        match record_start(r@) {
            Err(e) => s == Err::<Span, RecordError>(e),
            Ok(local) => match s {
                Ok(span) => spans(span, local),
                Err(e) => e == RecordError::SkippedTime || (e == RecordError::OutOfRange
                    && is_near_end(local)),
            },
        },
{
    let local = match start_of_record(r) {
        Err(e) => return Err(e),
        Ok(m) => m,
    };
    let found = local_instant(local);
    match (end_of_record(found), found) {
        (Ok(end), Some((start, start_offset))) => {
            let end_offset = local_offset(end);
            Ok(Span { start, start_offset, end, end_offset })
        },
        (Err(e), _) => Err(e),
        (Ok(_), None) => Err(RecordError::SkippedTime),
    }
}

} // verus!
