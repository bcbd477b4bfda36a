//! Remote events as records of the calendar file.
use vstd::prelude::*;

use crate::date::{instant_in_zone, is_earlier, local_offset, plus_days, plus_seconds, write_date};
use crate::date::{Date, Moment};
use crate::ics::{DtValue, VEvent};
use crate::record::{copy_opt, opt_eq, EventRecord};
use crate::text::{text_eq, two_digits};

verus! {

/// A whole-day event that covers more days than this is almost certainly bad data; the days
/// beyond are left out.
pub const MAX_ALLDAY_SPAN: u64 = 62;

// ── Local readings ────────────────────────────────────────────────────────

/// Whether a date and a time of day have the number `n`.
pub open spec fn is_second(n: int, date: Date, hour: u32, minute: u32, second: u32) -> bool {
    let m = Moment { date, hour, minute, second };
    crate::date::valid_moment(m) && crate::date::second_number(m) == n
}

/// Whether `r` is what clocks `offset` seconds ahead of UTC show at an instant: a date, an
/// hour and a minute, or nothing when that lies outside the calendar.
pub open spec fn shows(utc: Moment, offset: int, r: Option<(Date, Option<(u32, u32)>)>) -> bool {
    let n = crate::date::second_number(utc) + offset;
    match r {
        Some((date, Some((hour, minute)))) => exists|second: u32| #[trigger]
            is_second(n, date, hour, minute, second),
        Some((_, None)) => false,
        None => n < crate::date::day_number(crate::date::min_date()) * 86400 || n >= (
        crate::date::day_number(crate::date::max_date()) + 1) * 86400,
    }
}

/// Whether `r` is what the clocks of some time zone show at an instant.
pub open spec fn is_reading(utc: Moment, r: Option<(Date, Option<(u32, u32)>)>) -> bool {
    exists|offset: int| -86400 < offset < 86400 && #[trigger] shows(utc, offset, r)
}

/// Whether `r` is a date, with the time of day where there is one, on which an event starts or
/// ends by the clocks of a machine: a whole day is the same everywhere; an instant is as the
/// clocks of some time zone show it; a reading in a zone that is not known, or that the clocks
/// of the zone skip, is taken as it stands.
pub open spec fn is_local(
    dt: crate::ics::DtView,
    r: Option<(Date, Option<(u32, u32)>)>,
) -> bool {
    match dt {
        crate::ics::DtView::Date(d) => r == Some((d, None::<(u32, u32)>)),
        crate::ics::DtView::Utc(m) => is_reading(m, r),
        crate::ics::DtView::Zoned(m, zone) => {
            let utc = match zone {
                Some(z) => crate::date::zone_instant(z, m),
                None => None,
            };
            match utc {
                Some(u) => is_reading(u, r),
                None => r == Some((m.date, Some((m.hour, m.minute)))),
            }
        },
    }
}

/// What clocks `offset` seconds ahead of UTC show at an instant.
pub fn reading_at(utc: Moment, offset: i32) -> (r: Option<(Date, Option<(u32, u32)>)>)
    requires
        crate::date::valid_moment(utc),
    ensures
        shows(utc, offset as int, r),
        r matches Some((date, _)) ==> crate::date::valid_date(date),
{
    match plus_seconds(utc, offset) {
        None => None,
        Some(m) => {
            let r = Some((m.date, Some((m.hour, m.minute))));
            proof {
                let n = crate::date::second_number(utc) + offset;
                let (hour, minute) = (r->0).1->0;
                assert(is_second(n, (r->0).0, hour, minute, m.second));
            }
            r
        },
    }
}

/// What the clocks here show at an instant.
fn reading(utc: Moment) -> (r: Option<(Date, Option<(u32, u32)>)>)
    requires
        crate::date::valid_moment(utc),
    ensures
        is_reading(utc, r),
        r matches Some((date, _)) ==> crate::date::valid_date(date),
{
    reading_at(utc, local_offset(utc))
}

/// The date, and the time of day where there is one, by the clocks here.
pub fn to_local(dt: &DtValue) -> (r: Option<(Date, Option<(u32, u32)>)>)
    requires
        crate::ics::valid_dt(dt@),
    ensures
        is_local(dt@, r),
        r matches Some((date, _)) ==> crate::date::valid_date(date),
{
    match dt {
        DtValue::Date(d) => Some((*d, None)),
        DtValue::Utc(m) => reading(*m),
        DtValue::Zoned(m, zone) => {
            let utc = match zone {
                Some(id) => instant_in_zone(id.as_str(), *m),
                None => None,
            };
            match utc {
                Some(u) => reading(u),
                None => Some((m.date, Some((m.hour, m.minute)))),
            }
        },
    }
}

// ── What has been mirrored ────────────────────────────────────────────────

/// The key that makes each record of a day unique: its date, time and title.
pub type SeenKey = (Seq<char>, Option<Seq<char>>, Seq<char>);

/// The keys of the records mirrored so far.
pub struct Seen {
    keys: Vec<(String, Option<String>, String)>,
}

impl Seen {
    pub closed spec fn view(&self) -> Set<SeenKey> {
        Seq::new(
            self.keys@.len(),
            |i: int|
                (self.keys@[i].0@, crate::text::opt_text(self.keys@[i].1), self.keys@[i].2@),
        ).to_set()
    }

    /// No key yet.
    pub fn new() -> (s: Self)
        ensures
            s@ == Set::<SeenKey>::empty(),
    {
        let s = Seen { keys: Vec::new() };
        assert(s@ =~= Set::<SeenKey>::empty());
        s
    }

    /// Adds a key; whether it was not there before.
    pub fn insert(&mut self, date: &str, time: &Option<String>, title: &str) -> (fresh: bool)
        ensures
            ({
                let key = (date@, crate::text::opt_text(*time), title@);
                &&& fresh == !old(self)@.contains(key)
                &&& final(self)@ == old(self)@.insert(key)
            }),
    {
        let ghost key = (date@, crate::text::opt_text(*time), title@);
        let ghost listed = Seq::new(
            self.keys@.len(),
            |i: int|
                (self.keys@[i].0@, crate::text::opt_text(self.keys@[i].1), self.keys@[i].2@),
        );
        let mut i: usize = 0;
        while i < self.keys.len()
            invariant
                i <= self.keys@.len(),
                listed == Seq::new(
                    self.keys@.len(),
                    |i: int|
                        (
                            self.keys@[i].0@,
                            crate::text::opt_text(self.keys@[i].1),
                            self.keys@[i].2@,
                        ),
                ),
                key == (date@, crate::text::opt_text(*time), title@),
                *self == *old(self),
                forall|j: int| 0 <= j < i ==> listed[j] != key,
            decreases self.keys@.len() - i,
        {
            let (d, t, n) = &self.keys[i];
            if text_eq(d.as_str(), date) && opt_eq(t, time) && text_eq(n.as_str(), title) {
                assert(listed[i as int] == key);
                assert(listed.contains(key));
                assert(self@.insert(key) =~= self@);
                return false;
            }
            i = i + 1;
        }
        assert(!listed.contains(key));
        self.keys.push((date.to_owned(), copy_opt(time), title.to_owned()));
        proof {
            let now = Seq::new(
                self.keys@.len(),
                |i: int|
                    (
                        self.keys@[i].0@,
                        crate::text::opt_text(self.keys@[i].1),
                        self.keys@[i].2@,
                    ),
            );
            assert(now =~= listed.push(key));
            assert(self@ =~= old(self)@.insert(key)) by {
                assert forall|k: SeenKey| self@.contains(k) == old(self)@.insert(key).contains(
                    k,
                ) by {
                    if listed.contains(k) {
                        let j = choose|j: int| 0 <= j < listed.len() && listed[j] == k;
                        assert(now[j] == k);
                    }
                    if k == key {
                        assert(now[listed.len() as int] == k);
                    }
                }
            }
        }
        true
    }
}

// ── Records ───────────────────────────────────────────────────────────────

/// A time of day as `09:30`.
pub open spec fn clock_text(hour: u32, minute: u32) -> Seq<char> {
    crate::text::padded(hour as nat, 2) + seq![':'] + crate::text::padded(minute as nat, 2)
}

/// Writes a time of day as `09:30`.
pub fn write_clock(hour: u32, minute: u32) -> (s: String)
    ensures
        s@ == clock_text(hour, minute),
{
    let mut s = two_digits(hour);
    s.push(':');
    s.append(two_digits(minute).as_str());
    assert(s@ =~= clock_text(hour, minute));
    s
}

/// What the records of an event have in common.
pub struct Origin {
    pub title: Seq<char>,
    pub uid: Option<Seq<char>>,
    pub source: Seq<char>,
    pub recurring: bool,
}

/// The record of an event on a day.
pub open spec fn mirror_record(
    o: Origin,
    date: Date,
    time: Option<(u32, u32)>,
) -> crate::record::RecordView {
    crate::record::RecordView {
        date: crate::date::date_text(date),
        time: match time {
            Some((h, m)) => Some(clock_text(h, m)),
            None => None,
        },
        title: o.title,
        uid: o.uid,
        source: Some(o.source),
        recurring: o.recurring,
    }
}

pub open spec fn record_key(r: crate::record::RecordView) -> SeenKey {
    (r.date, r.time, r.title)
}

/// The keys and the records once a day of an event has been mirrored: nothing changes when
/// the day lies outside the window or its record is there already.
pub open spec fn with_day(
    st: (Set<SeenKey>, Seq<crate::record::RecordView>),
    window: (Date, Date),
    o: Origin,
    date: Date,
    time: Option<(u32, u32)>,
) -> (Set<SeenKey>, Seq<crate::record::RecordView>) {
    let r = mirror_record(o, date, time);
    if crate::date::earlier(date, window.0) || crate::date::earlier(window.1, date)
        || st.0.contains(record_key(r)) {
        st
    } else {
        (st.0.insert(record_key(r)), st.1.push(r))
    }
}

/// The keys and the records once whole days of an event have been mirrored, in order.
pub open spec fn with_days(
    st: (Set<SeenKey>, Seq<crate::record::RecordView>),
    window: (Date, Date),
    o: Origin,
    days: Seq<Date>,
) -> (Set<SeenKey>, Seq<crate::record::RecordView>)
    decreases days.len(),
{
    if days.len() == 0 {
        st
    } else {
        with_day(with_days(st, window, o, days.drop_last()), window, o, days.last(), None)
    }
}

/// The date `n` days after another.
pub open spec fn days_after(d: Date, n: nat) -> Date
    decreases n,
{
    if n == 0 {
        d
    } else {
        crate::date::next_date(days_after(d, (n - 1) as nat))
    }
}

/// The day on which a whole-day event is over. Without an end after its start it takes the
/// one day.
pub open spec fn over_on(start: Date, end: Option<Date>) -> Date {
    match end {
        Some(d) if crate::date::earlier(start, d) => d,
        _ => if start == crate::date::max_date() {
            start
        } else {
            crate::date::next_date(start)
        },
    }
}

/// The days that a whole-day event covers: from its start to the day before it is over, and
/// no more than the limit.
pub open spec fn covered_days(start: Date, end: Option<Date>) -> Seq<Date> {
    let n = crate::date::day_number(over_on(start, end)) - crate::date::day_number(start);
    let n = if n > MAX_ALLDAY_SPAN {
        MAX_ALLDAY_SPAN as int
    } else {
        n
    };
    Seq::new(n as nat, |i: int| days_after(start, i as nat))
}

/// The title under which an event is mirrored.
pub open spec fn mirror_title(summary: Seq<char>) -> Seq<char> {
    if summary.len() == 0 {
        "(untitled)"@
    } else {
        summary
    }
}

/// What the records of an event have in common.
pub open spec fn origin(
    ev: crate::ics::VEventView,
    source: Seq<char>,
    recurring: bool,
) -> Origin {
    Origin {
        title: mirror_title(ev.summary),
        uid: if ev.uid.len() == 0 {
            None
        } else {
            Some(ev.uid)
        },
        source,
        recurring,
    }
}

/// When an event starts and ends by the clocks here, as far as that is known.
#[derive(Clone, Copy, Debug)]
pub struct LocalSpan {
    pub start: Option<(Date, Option<(u32, u32)>)>,
    pub end: Option<(Date, Option<(u32, u32)>)>,
}

/// Whether the dates of a span are ones.
pub open spec fn valid_span(s: LocalSpan) -> bool {
    &&& s.start matches Some((date, _)) ==> crate::date::valid_date(date)
    &&& s.end matches Some((date, _)) ==> crate::date::valid_date(date)
}

/// Whether `s` is when an event starts and ends by local clocks.
pub open spec fn is_local_span(ev: crate::ics::VEventView, s: LocalSpan) -> bool {
    &&& match ev.dtstart {
        None => s.start is None,
        Some(dt) => is_local(dt, s.start),
    }
    &&& match ev.dtend {
        None => s.end is None,
        Some(dt) => is_local(dt, s.end),
    }
}

/// When an event starts and ends by the clocks here. The machine's time zone decides.
pub fn local_span(ev: &VEvent) -> (s: LocalSpan)
    requires
        crate::ics::valid_event(ev@),
    ensures
        is_local_span(ev@, s),
        valid_span(s),
{
    let start = match &ev.dtstart {
        None => None,
        Some(dt) => to_local(dt),
    };
    let end = match &ev.dtend {
        None => None,
        Some(dt) => to_local(dt),
    };
    LocalSpan { start, end }
}

/// The keys and the records once an event has been mirrored that takes place at the given
/// local span: one record for a timed event, one for each day covered for a whole-day event;
/// none for a cancelled event and for one that does not start.
pub open spec fn with_event(
    st: (Set<SeenKey>, Seq<crate::record::RecordView>),
    window: (Date, Date),
    source: Seq<char>,
    recurring: bool,
    ev: crate::ics::VEventView,
    s: LocalSpan,
) -> (Set<SeenKey>, Seq<crate::record::RecordView>) {
    let o = origin(ev, source, recurring);
    if ev.cancelled {
        st
    } else {
        match s.start {
            None => st,
            Some((date, Some(time))) => with_day(st, window, o, date, Some(time)),
            Some((date, None)) => with_days(
                st,
                window,
                o,
                covered_days(
                    date,
                    match s.end {
                        Some((d, _)) => Some(d),
                        None => None,
                    },
                ),
            ),
        }
    }
}

/// Mirrors one day of an event.
fn push_day(
    ev: &VEvent,
    title: &str,
    window: (Date, Date),
    source: &str,
    recurring: bool,
    date: Date,
    time: Option<(u32, u32)>,
    seen: &mut Seen,
    out: &mut Vec<EventRecord>,
)
    requires
        crate::date::valid_date(date),
        title@ == mirror_title(ev@.summary),
    ensures
        (final(seen)@, crate::record::record_views(final(out)@)) == with_day(
            (old(seen)@, crate::record::record_views(old(out)@)),
            window,
            origin(ev@, source@, recurring),
            date,
            time,
        ),
{
    if is_earlier(date, window.0) || is_earlier(window.1, date) {
        return ;
    }
    let date_s = write_date(date);
    let time_s = match time {
        Some((h, m)) => Some(write_clock(h, m)),
        None => None,
    };
    if seen.insert(date_s.as_str(), &time_s, title) {
        let uid = if ev.uid.as_str().is_empty() {
            None
        } else {
            Some(ev.uid.clone())
        };
        let r = EventRecord {
            date: date_s,
            time: time_s,
            title: title.to_owned(),
            uid,
            source: Some(source.to_owned()),
            recurring,
        };
        assert(r@ =~= mirror_record(origin(ev@, source@, recurring), date, time));
        out.push(r);
        assert(crate::record::record_views(out@) =~= crate::record::record_views(old(out)@).push(
            r@,
        ));
    }
}

/// Mirrors an event that takes place at the given local span.
pub fn mirror_event(
    ev: &VEvent,
    at: LocalSpan,
    window: (Date, Date),
    source: &str,
    recurring: bool,
    seen: &mut Seen,
    out: &mut Vec<EventRecord>,
)
    requires
        valid_span(at),
    ensures
        (final(seen)@, crate::record::record_views(final(out)@)) == with_event(
            (old(seen)@, crate::record::record_views(old(out)@)),
            window,
            source@,
            recurring,
            ev@,
            at,
        ),
{
    if ev.cancelled {
        return ;
    }
    let title = if ev.summary.as_str().is_empty() {
        "(untitled)"
    } else {
        ev.summary.as_str()
    };
    let end = at.end;
    let start = match at.start {
        None => return ,
        Some((date, Some(time))) => {
            push_day(ev, title, window, source, recurring, date, Some(time), seen, out);
            return ;
        },
        Some((date, None)) => date,
    };
    let ghost end_date = match end {
        Some((d, _)) => Some(d),
        None => None,
    };
    let ghost o = origin(ev@, source@, recurring);
    let ghost st = (seen@, crate::record::record_views(out@));
    proof {
        crate::date::lemma_next_date(start);
        crate::date::lemma_number_bounds(start);
        crate::date::lemma_numbers_in_order(start, crate::date::max_date());
    }
    let over = match end {
        Some((d, _)) if is_earlier(start, d) => d,
        _ => match plus_days(start, 1) {
            Some(next) => {
                proof {
                    crate::date::lemma_number_bounds(next);
                    crate::date::lemma_numbers_in_order(next, crate::date::next_date(start));
                }
                next
            },
            None => start,
        },
    };
    proof {
        crate::date::lemma_numbers_in_order(start, over);
        crate::date::lemma_number_bounds(over);
    }
    assert(over == over_on(start, end_date));
    let ghost days = covered_days(start, end_date);
    let mut day = start;
    let mut span: u64 = 0;
    assert(days.take(0) =~= Seq::<Date>::empty());
    while is_earlier(day, over) && span < MAX_ALLDAY_SPAN
        invariant_except_break
            crate::date::valid_date(day),
            crate::date::day_number(day) == crate::date::day_number(start) + span,
            day == days_after(start, span as nat),
            crate::date::earlier(day, over) <==> crate::date::day_number(day)
                < crate::date::day_number(over),
        invariant
            crate::date::valid_date(over),
            crate::date::valid_date(start),
            over == over_on(start, end_date),
            crate::date::day_number(start) <= crate::date::day_number(over),
            days == covered_days(start, end_date),
            span <= days.len(),
            title@ == mirror_title(ev@.summary),
            o == origin(ev@, source@, recurring),
            (seen@, crate::record::record_views(out@)) == with_days(
                st,
                window,
                o,
                days.take(span as int),
            ),
        ensures
            span == days.len(),
        decreases MAX_ALLDAY_SPAN - span,
    {
        proof {
            crate::date::lemma_numbers_in_order(day, over);
        }
        push_day(ev, title, window, source, recurring, day, None, seen, out);
        assert(days.take(span + 1).drop_last() =~= days.take(span as int));
        assert(days.take(span + 1).last() == day);
        proof {
            crate::date::lemma_next_date(day);
            crate::date::lemma_number_bounds(over);
        }
        match plus_days(day, 1) {
            None => {
                assert(false);
                break ;
            },
            Some(next) => {
                proof {
                    crate::date::lemma_numbers_in_order(day, crate::date::max_date());
                    crate::date::lemma_number_bounds(next);
                    crate::date::lemma_numbers_in_order(next, crate::date::next_date(day));
                }
                day = next;
            },
        }
        span = span + 1;
        proof {
            crate::date::lemma_numbers_in_order(day, over);
        }
    }
    assert(days.take(span as int) =~= days);
}

/// Mirrors an event as records of the file, by the clocks here. A cancelled event and one
/// without a start give none. The machine's time zone decides what a timed event reads as.
pub fn event_to_records(
    ev: &VEvent,
    window: (Date, Date),
    source: &str,
    recurring: bool,
    seen: &mut Seen,
    out: &mut Vec<EventRecord>,
)
    requires
        crate::ics::valid_event(ev@),
    ensures
        ({
            let before = (old(seen)@, crate::record::record_views(old(out)@));
            let after = (final(seen)@, crate::record::record_views(final(out)@));
            mirrors(ev@, window, source@, recurring, before, after)
        }),
{
    let at = local_span(ev);
    mirror_event(ev, at, window, source, recurring, seen, out);
}

/// Whether mirroring an event leads from the keys and records `before` to those `after`.
pub open spec fn mirrors(
    ev: crate::ics::VEventView,
    window: (Date, Date),
    source: Seq<char>,
    recurring: bool,
    before: (Set<SeenKey>, Seq<crate::record::RecordView>),
    after: (Set<SeenKey>, Seq<crate::record::RecordView>),
) -> bool {
    exists|at: LocalSpan| #[trigger]
        is_local_span(ev, at) && after == with_event(before, window, source, recurring, ev, at)
}

} // verus!
