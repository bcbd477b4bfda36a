//! What mirroring is for: every day of every event of the account that falls into the window is
//! a record, and every record is such a day.
use vstd::prelude::*;

use crate::caldav::{Mirrored, ResourceView};
use crate::date::Date;
use crate::google::ItemView;
use crate::ics::VEventView;
use crate::mirror::{LocalSpan, SeenKey};
use crate::record::RecordView;

verus! {

// ── One event ─────────────────────────────────────────────────────────────

/// Whether a date is no earlier than another.
pub open spec fn has_reached(a: Date, b: Date) -> bool {
    a.year > b.year || (a.year == b.year && (a.month > b.month || (a.month == b.month && a.day
        >= b.day)))
}

/// Whether an event is to be mirrored on a date, at a time of day where it has one. It is not
/// cancelled, and the date is in the window, its ends included. A timed event is mirrored on the
/// day and at the time that it starts. A whole-day event is mirrored on each day from its start
/// to the one before its end, on its first day in any case, and on its first two months only.
pub open spec fn is_due(
    ev: VEventView,
    at: LocalSpan,
    window: (Date, Date),
    date: Date,
    time: Option<(u32, u32)>,
) -> bool {
    &&& !ev.cancelled
    &&& has_reached(date, window.0)
    &&& has_reached(window.1, date)
    &&& match at.start {
        None => false,
        Some((start, Some(t))) => date == start && time == Some(t),
        Some((start, None)) => {
            &&& time is None
            &&& crate::date::valid_date(date)
            &&& start != crate::date::max_date()
            &&& crate::date::day_number(start) <= crate::date::day_number(date)
            &&& crate::date::day_number(date) < crate::date::day_number(start) + 62
            &&& date == start || (at.end matches Some((end, _)) && crate::date::day_number(date)
                < crate::date::day_number(end))
        },
    }
}

/// Whether a record is that of an event on a date on which it is due.
pub open spec fn is_owed(
    r: RecordView,
    ev: VEventView,
    at: LocalSpan,
    window: (Date, Date),
    source: Seq<char>,
    recurring: bool,
) -> bool {
    exists|date: Date, time: Option<(u32, u32)>| #[trigger]
        is_due(ev, at, window, date, time) && r == day_record(ev, source, recurring, date, time)
}

/// The record of an event on a date, at a time of day where it has one: with the title of the
/// event, or as untitled, its identity where it has one, the mark of the account, and whether it
/// repeats.
pub open spec fn day_record(
    ev: VEventView,
    source: Seq<char>,
    recurring: bool,
    date: Date,
    time: Option<(u32, u32)>,
) -> RecordView {
    RecordView {
        date: crate::date::date_text(date),
        time: match time {
            Some((h, m)) => Some(
                crate::text::padded(h as nat, 2) + ":"@ + crate::text::padded(m as nat, 2),
            ),
            None => None,
        },
        title: if ev.summary.len() > 0 {
            ev.summary
        } else {
            "(untitled)"@
        },
        uid: if ev.uid.len() > 0 {
            Some(ev.uid)
        } else {
            None
        },
        source: Some(source),
        recurring,
    }
}

/// Whether what was mirrored went from one state to another by the records of some events: each
/// key that came is that of a record that came, and each record that came has a key that was not
/// there before.
pub open spec fn is_told(a: (Set<SeenKey>, Seq<RecordView>), b: (Set<SeenKey>, Seq<RecordView>))
    -> bool {
    &&& a.1.len() <= b.1.len()
    &&& forall|i: int| 0 <= i < a.1.len() ==> #[trigger] b.1[i] == a.1[i]
    &&& forall|k: SeenKey| #[trigger]
        b.0.contains(k) <==> a.0.contains(k) || exists|i: int|
            a.1.len() <= i < b.1.len() && is_key_of(k, #[trigger] b.1[i])
    &&& forall|i: int|
        a.1.len() <= i < b.1.len() ==> !a.0.contains(
            ((#[trigger] b.1[i]).date, b.1[i].time, b.1[i].title),
        )
}

/// Whether a key is the date, the time and the title of a record.
pub open spec fn is_key_of(k: SeenKey, r: RecordView) -> bool {
    k == (r.date, r.time, r.title)
}

proof fn lemma_told_none(a: (Set<SeenKey>, Seq<RecordView>))
    ensures
        is_told(a, a),
{
}

proof fn lemma_told_more(
    a: (Set<SeenKey>, Seq<RecordView>),
    b: (Set<SeenKey>, Seq<RecordView>),
    c: (Set<SeenKey>, Seq<RecordView>),
)
    requires
        is_told(a, b),
        is_told(b, c),
    ensures
        is_told(a, c),
{
    assert forall|k: SeenKey| #[trigger]
        c.0.contains(k) <==> a.0.contains(k) || exists|i: int|
            a.1.len() <= i < c.1.len() && is_key_of(k, #[trigger] c.1[i]) by {
        assert(b.0.contains(k) <==> a.0.contains(k) || exists|i: int|
            a.1.len() <= i < b.1.len() && is_key_of(k, #[trigger] b.1[i]));
        if exists|i: int| a.1.len() <= i < b.1.len() && is_key_of(k, #[trigger] b.1[i]) {
            let i = choose|i: int| a.1.len() <= i < b.1.len() && is_key_of(k, #[trigger] b.1[i]);
            assert(c.1[i] == b.1[i]);
        }
        if exists|i: int| a.1.len() <= i < c.1.len() && is_key_of(k, #[trigger] c.1[i]) {
            let i = choose|i: int| a.1.len() <= i < c.1.len() && is_key_of(k, #[trigger] c.1[i]);
            if i < b.1.len() {
                assert(c.1[i] == b.1[i]);
                assert(is_key_of(k, b.1[i]));
            }
        }
    }
    assert forall|i: int| a.1.len() <= i < c.1.len() implies !a.0.contains(
        ((#[trigger] c.1[i]).date, c.1[i].time, c.1[i].title),
    ) by {
        if i < b.1.len() {
            assert(c.1[i] == b.1[i]);
        } else {
            let k = (c.1[i].date, c.1[i].time, c.1[i].title);
            assert(!b.0.contains(k));
        }
    }
    assert forall|i: int| 0 <= i < a.1.len() implies #[trigger] c.1[i] == a.1[i] by {
        assert(c.1[i] == b.1[i]);
    }
}

/// A day of the window is mirrored.
proof fn lemma_day_told(
    st: (Set<SeenKey>, Seq<RecordView>),
    window: (Date, Date),
    source: Seq<char>,
    recurring: bool,
    ev: VEventView,
    date: Date,
    time: Option<(u32, u32)>,
)
    ensures
        ({
            let o = crate::mirror::origin(ev, source, recurring);
            let after = crate::mirror::with_day(st, window, o, date, time);
            let r = day_record(ev, source, recurring, date, time);
            let k = (r.date, r.time, r.title);
            &&& is_told(st, after)
            &&& has_reached(date, window.0) && has_reached(window.1, date)
                ==> after.0.contains(k) && (!st.0.contains(k) ==> after.1 == st.1.push(r))
            &&& !(has_reached(date, window.0) && has_reached(window.1, date)) ==> after == st
            &&& st.0.contains(k) ==> after == st
        }),
{
    let o = crate::mirror::origin(ev, source, recurring);
    let after = crate::mirror::with_day(st, window, o, date, time);
    let r = day_record(ev, source, recurring, date, time);
    reveal_strlit(":");
    assert(":"@ =~= seq![':']);
    assert(crate::mirror::mirror_record(o, date, time) =~= r);
    if after != st {
        assert(after.1[st.1.len() as int] == r);
        assert forall|k: SeenKey| #[trigger]
            after.0.contains(k) <==> st.0.contains(k) || exists|i: int|
                st.1.len() <= i < after.1.len() && is_key_of(k, #[trigger] after.1[i]) by {
            if is_key_of(k, r) {
                assert(is_key_of(k, after.1[st.1.len() as int]));
            }
        }
    } else {
        lemma_told_none(st);
    }
}

/// Whether a record of those that came is that of an event on a date.
pub open spec fn comes_at(
    a: (Set<SeenKey>, Seq<RecordView>),
    b: (Set<SeenKey>, Seq<RecordView>),
    r: RecordView,
) -> bool {
    exists|i: int| a.1.len() <= i < b.1.len() && #[trigger] b.1[i] == r
}

/// Whether a record is that of an event on one of several days that is in the window.
pub open spec fn is_on_one(
    r: RecordView,
    ev: VEventView,
    source: Seq<char>,
    recurring: bool,
    window: (Date, Date),
    days: Seq<Date>,
) -> bool {
    exists|n: int|
        0 <= n < days.len() && has_reached(#[trigger] days[n], window.0) && has_reached(
            window.1,
            days[n],
        ) && r == day_record(ev, source, recurring, days[n], None)
}

proof fn lemma_days_told(
    st: (Set<SeenKey>, Seq<RecordView>),
    window: (Date, Date),
    source: Seq<char>,
    recurring: bool,
    ev: VEventView,
    days: Seq<Date>,
)
    ensures
        ({
            let o = crate::mirror::origin(ev, source, recurring);
            let after = crate::mirror::with_days(st, window, o, days);
            &&& is_told(st, after)
            &&& forall|n: int|
                0 <= n < days.len() && has_reached(#[trigger] days[n], window.0) && has_reached(
                    window.1,
                    days[n],
                ) ==> {
                    let r = day_record(ev, source, recurring, days[n], None);
                    &&& after.0.contains((r.date, r.time, r.title))
                    &&& !st.0.contains((r.date, r.time, r.title)) ==> comes_at(st, after, r)
                }
            &&& forall|i: int|
                st.1.len() <= i < after.1.len() ==> is_on_one(
                    #[trigger] after.1[i],
                    ev,
                    source,
                    recurring,
                    window,
                    days,
                )
        }),
    decreases days.len(),
{
    let o = crate::mirror::origin(ev, source, recurring);
    let after = crate::mirror::with_days(st, window, o, days);
    if days.len() == 0 {
        lemma_told_none(st);
    } else {
        let rest = days.drop_last();
        let before = crate::mirror::with_days(st, window, o, rest);
        let last = days.len() - 1;
        lemma_days_told(st, window, source, recurring, ev, rest);
        lemma_day_told(before, window, source, recurring, ev, days[last], None);
        lemma_told_more(st, before, after);
        assert forall|n: int|
            0 <= n < days.len() && has_reached(#[trigger] days[n], window.0) && has_reached(
                window.1,
                days[n],
            ) implies {
            let r = day_record(ev, source, recurring, days[n], None);
            &&& after.0.contains((r.date, r.time, r.title))
            &&& !st.0.contains((r.date, r.time, r.title)) ==> comes_at(st, after, r)
        } by {
            let r = day_record(ev, source, recurring, days[n], None);
            let k = (r.date, r.time, r.title);
            if n < last {
                assert(rest[n] == days[n]);
                assert(before.0.contains(k));
                if !st.0.contains(k) {
                    assert(comes_at(st, before, r));
                    let i = choose|i: int|
                        st.1.len() <= i < before.1.len() && #[trigger] before.1[i] == r;
                    assert(after.1[i] == r);
                }
            } else if !st.0.contains(k) {
                if before.0.contains(k) {
                    let i = choose|i: int|
                        st.1.len() <= i < before.1.len() && is_key_of(k, #[trigger] before.1[i]);
                    let m = choose|m: int|
                        0 <= m < rest.len() && has_reached(#[trigger] rest[m], window.0)
                            && has_reached(window.1, rest[m]) && before.1[i] == day_record(
                            ev,
                            source,
                            recurring,
                            rest[m],
                            None,
                        );
                    assert(before.1[i] =~= r);
                    assert(after.1[i] == r);
                } else {
                    assert(after.1[before.1.len() as int] == r);
                }
            }
        }
        assert forall|i: int| st.1.len() <= i < after.1.len() implies is_on_one(
            #[trigger] after.1[i],
            ev,
            source,
            recurring,
            window,
            days,
        ) by {
            if i < before.1.len() {
                assert(after.1[i] == before.1[i]);
                let m = choose|m: int|
                    0 <= m < rest.len() && has_reached(#[trigger] rest[m], window.0)
                        && has_reached(window.1, rest[m]) && before.1[i] == day_record(
                        ev,
                        source,
                        recurring,
                        rest[m],
                        None,
                    );
                assert(days[m] == rest[m]);
            } else {
                assert(has_reached(days[last], window.0));
            }
        }
    }
}

/// The days that a whole-day event covers are those on which it is due, but for the window.
proof fn lemma_covered(start: Date, end: Option<Date>)
    requires
        crate::date::valid_date(start),
        end matches Some(e) ==> crate::date::valid_date(e),
    ensures
        ({
            let days = crate::mirror::covered_days(start, end);
            &&& forall|n: int|
                0 <= n < days.len() ==> crate::date::valid_date(#[trigger] days[n])
                    && crate::date::day_number(days[n]) == crate::date::day_number(start) + n
            &&& days.len() <= 62
            &&& days.len() == 0 <==> start == crate::date::max_date()
            &&& days.len() > 0 ==> days[0] == start
            &&& forall|d: Date| #[trigger]
                crate::date::valid_date(d) ==> (days.contains(d) <==> {
                    &&& start != crate::date::max_date()
                    &&& crate::date::day_number(start) <= crate::date::day_number(d)
                    &&& crate::date::day_number(d) < crate::date::day_number(start) + 62
                    &&& d == start || (end matches Some(e) && crate::date::day_number(d)
                        < crate::date::day_number(e))
                })
        }),
{
    let days = crate::mirror::covered_days(start, end);
    let over = crate::mirror::over_on(start, end);
    let max = crate::date::max_date();
    crate::date::lemma_number_bounds(start);
    crate::date::lemma_next_date(start);
    crate::date::lemma_numbers_in_order(start, max);
    if let Some(e) = end {
        crate::date::lemma_number_bounds(e);
        crate::date::lemma_numbers_in_order(start, e);
    }
    assert(crate::date::valid_date(over));
    crate::date::lemma_number_bounds(over);
    assert forall|n: int| 0 <= n < days.len() implies crate::date::valid_date(#[trigger] days[n])
        && crate::date::day_number(days[n]) == crate::date::day_number(start) + n by {
        lemma_days_after(start, n as nat);
    }
    if days.len() > 0 {
        reveal_with_fuel(crate::mirror::days_after, 1);
        assert(days[0] == start);
    }
    assert forall|d: Date| #[trigger] crate::date::valid_date(d) implies (days.contains(d) <==> {
        &&& start != max
        &&& crate::date::day_number(start) <= crate::date::day_number(d)
        &&& crate::date::day_number(d) < crate::date::day_number(start) + 62
        &&& d == start || (end matches Some(e) && crate::date::day_number(d)
            < crate::date::day_number(e))
    }) by {
        crate::date::lemma_numbers_in_order(d, start);
        if days.contains(d) {
            let n = choose|n: int| 0 <= n < days.len() && days[n] == d;
            assert(crate::date::day_number(days[n]) == crate::date::day_number(start) + n);
        }
        let n = crate::date::day_number(d) - crate::date::day_number(start);
        if 0 <= n < days.len() {
            assert(crate::date::valid_date(days[n]));
            crate::date::lemma_numbers_in_order(d, days[n]);
            assert(days[n] == d);
        }
    }
}

proof fn lemma_days_after(start: Date, n: nat)
    requires
        crate::date::valid_date(start),
        crate::date::day_number(start) + n <= crate::date::day_number(crate::date::max_date()),
    ensures
        crate::date::valid_date(crate::mirror::days_after(start, n)),
        crate::date::day_number(crate::mirror::days_after(start, n)) == crate::date::day_number(
            start,
        ) + n,
    decreases n,
{
    if n > 0 {
        lemma_days_after(start, (n - 1) as nat);
        let d = crate::mirror::days_after(start, (n - 1) as nat);
        crate::date::lemma_next_date(d);
        crate::date::lemma_numbers_in_order(d, crate::date::max_date());
    }
}

/// An event is mirrored on each date on which it is due: the date, the time and the title are
/// among the keys, and where they were not before, the record of the event on that date has come.
/// Nothing else has come. Where its first day is new, that comes first.
pub proof fn law_event_is_mirrored(
    st: (Set<SeenKey>, Seq<RecordView>),
    window: (Date, Date),
    source: Seq<char>,
    recurring: bool,
    ev: VEventView,
    at: LocalSpan,
)
    requires
        crate::mirror::valid_span(at),
    ensures
        ({
            let after = crate::mirror::with_event(st, window, source, recurring, ev, at);
            &&& is_told(st, after)
            &&& forall|date: Date, time: Option<(u32, u32)>| #[trigger]
                is_due(ev, at, window, date, time) ==> {
                    let r = day_record(ev, source, recurring, date, time);
                    &&& after.0.contains((r.date, r.time, r.title))
                    &&& !st.0.contains((r.date, r.time, r.title)) ==> comes_at(st, after, r)
                }
            &&& forall|i: int|
                st.1.len() <= i < after.1.len() ==> is_owed(
                    #[trigger] after.1[i],
                    ev,
                    at,
                    window,
                    source,
                    recurring,
                )
            &&& at.start matches Some((date, time)) ==> is_due(ev, at, window, date, time) ==> {
                let r = day_record(ev, source, recurring, date, time);
                !st.0.contains((r.date, r.time, r.title)) ==> after.1.len() > st.1.len()
                    && after.1[st.1.len() as int] == r
            }
        }),
{
    let after = crate::mirror::with_event(st, window, source, recurring, ev, at);
    let o = crate::mirror::origin(ev, source, recurring);
    lemma_told_none(st);
    if !ev.cancelled {
        match at.start {
            None => {},
            Some((date, Some(time))) => {
                lemma_day_told(st, window, source, recurring, ev, date, Some(time));
                let r = day_record(ev, source, recurring, date, Some(time));
                if after != st {
                    assert(after.1[st.1.len() as int] == r);
                    assert(is_due(ev, at, window, date, Some(time)));
                }
            },
            Some((start, None)) => {
                let end = match at.end {
                    Some((d, _)) => Some(d),
                    None => None,
                };
                let days = crate::mirror::covered_days(start, end);
                lemma_covered(start, end);
                lemma_days_told(st, window, source, recurring, ev, days);
                assert forall|date: Date, time: Option<(u32, u32)>| #[trigger]
                    is_due(ev, at, window, date, time) implies {
                    let r = day_record(ev, source, recurring, date, time);
                    &&& after.0.contains((r.date, r.time, r.title))
                    &&& !st.0.contains((r.date, r.time, r.title)) ==> comes_at(st, after, r)
                } by {
                    assert(crate::date::valid_date(date));
                    assert(days.contains(date));
                    let n = choose|n: int| 0 <= n < days.len() && days[n] == date;
                    assert(has_reached(days[n], window.0));
                }
                assert forall|i: int| st.1.len() <= i < after.1.len() implies is_owed(
                    #[trigger] after.1[i],
                    ev,
                    at,
                    window,
                    source,
                    recurring,
                ) by {
                    let n = choose|n: int|
                        0 <= n < days.len() && has_reached(#[trigger] days[n], window.0)
                            && has_reached(window.1, days[n]) && after.1[i] == day_record(
                            ev,
                            source,
                            recurring,
                            days[n],
                            None,
                        );
                    assert(crate::date::valid_date(days[n]));
                    assert(days.contains(days[n]));
                    assert(is_due(ev, at, window, days[n], None));
                }
                if is_due(ev, at, window, start, None) {
                    lemma_first_day(st, window, source, recurring, ev, days);
                }
            },
        }
    }
}

/// The first of the days comes first.
proof fn lemma_first_day(
    st: (Set<SeenKey>, Seq<RecordView>),
    window: (Date, Date),
    source: Seq<char>,
    recurring: bool,
    ev: VEventView,
    days: Seq<Date>,
)
    requires
        days.len() > 0,
        has_reached(days[0], window.0),
        has_reached(window.1, days[0]),
    ensures
        ({
            let o = crate::mirror::origin(ev, source, recurring);
            let after = crate::mirror::with_days(st, window, o, days);
            let r = day_record(ev, source, recurring, days[0], None);
            !st.0.contains((r.date, r.time, r.title)) ==> after.1.len() > st.1.len()
                && after.1[st.1.len() as int] == r
        }),
    decreases days.len(),
{
    let o = crate::mirror::origin(ev, source, recurring);
    let rest = days.drop_last();
    let before = crate::mirror::with_days(st, window, o, rest);
    lemma_day_told(before, window, source, recurring, ev, days.last(), None);
    if days.len() == 1 {
        assert(before == st);
    } else {
        lemma_first_day(st, window, source, recurring, ev, rest);
    }
}

// ── The events of a resource ──────────────────────────────────────────────

/// Whether a record is that of one of several events on a date on which it is due.
pub open spec fn is_owed_to_one(
    r: RecordView,
    events: Seq<VEventView>,
    spans: Seq<LocalSpan>,
    window: (Date, Date),
    source: Seq<char>,
    recurring: bool,
) -> bool {
    exists|k: int|
        0 <= k < events.len() && is_owed(
            r,
            #[trigger] events[k],
            spans[k],
            window,
            source,
            recurring,
        )
}

/// Each of several events is mirrored on each date on which it is due: the date, the time and
/// the title are among the keys, and where they were not before, a record with them has come.
/// Each record that has come is that of one of the events on a date on which it is due.
pub proof fn law_events_are_mirrored(
    st: (Set<SeenKey>, Seq<RecordView>),
    window: (Date, Date),
    source: Seq<char>,
    recurring: bool,
    events: Seq<VEventView>,
    spans: Seq<LocalSpan>,
)
    requires
        events.len() <= spans.len(),
        forall|k: int| 0 <= k < events.len() ==> crate::mirror::valid_span(#[trigger] spans[k]),
    ensures
        ({
            let after = crate::caldav::with_events(st, window, source, recurring, events, spans);
            &&& is_told(st, after)
            &&& forall|k: int, date: Date, time: Option<(u32, u32)>|
                0 <= k < events.len() && #[trigger] is_due(
                    events[k],
                    spans[k],
                    window,
                    date,
                    time,
                ) ==> {
                    let r = day_record(events[k], source, recurring, date, time);
                    &&& after.0.contains((r.date, r.time, r.title))
                    &&& !st.0.contains((r.date, r.time, r.title)) ==> exists|i: int|
                        st.1.len() <= i < after.1.len() && is_key_of(
                            (r.date, r.time, r.title),
                            #[trigger] after.1[i],
                        )
                }
            &&& forall|i: int|
                st.1.len() <= i < after.1.len() ==> is_owed_to_one(
                    #[trigger] after.1[i],
                    events,
                    spans,
                    window,
                    source,
                    recurring,
                )
        }),
    decreases events.len(),
{
    let after = crate::caldav::with_events(st, window, source, recurring, events, spans);
    lemma_told_none(st);
    if events.len() > 0 {
        let rest = events.drop_last();
        let last = events.len() - 1;
        let before = crate::caldav::with_events(st, window, source, recurring, rest, spans);
        law_events_are_mirrored(st, window, source, recurring, rest, spans);
        assert(crate::mirror::valid_span(spans[last]));
        law_event_is_mirrored(before, window, source, recurring, events[last], spans[last]);
        lemma_told_more(st, before, after);
        assert forall|k: int, date: Date, time: Option<(u32, u32)>|
            0 <= k < events.len() && #[trigger] is_due(
                events[k],
                spans[k],
                window,
                date,
                time,
            ) implies {
            let r = day_record(events[k], source, recurring, date, time);
            &&& after.0.contains((r.date, r.time, r.title))
            &&& !st.0.contains((r.date, r.time, r.title)) ==> exists|i: int|
                st.1.len() <= i < after.1.len() && is_key_of(
                    (r.date, r.time, r.title),
                    #[trigger] after.1[i],
                )
        } by {
            let r = day_record(events[k], source, recurring, date, time);
            let key = (r.date, r.time, r.title);
            if k < last {
                assert(rest[k] == events[k]);
                assert(is_due(rest[k], spans[k], window, date, time));
                assert(before.0.contains(key));
            }
            assert(after.0.contains(key));
        }
        assert forall|i: int| st.1.len() <= i < after.1.len() implies is_owed_to_one(
            #[trigger] after.1[i],
            events,
            spans,
            window,
            source,
            recurring,
        ) by {
            if i < before.1.len() {
                assert(after.1[i] == before.1[i]);
                let k = choose|k: int|
                    0 <= k < rest.len() && is_owed(
                        before.1[i],
                        #[trigger] rest[k],
                        spans[k],
                        window,
                        source,
                        recurring,
                    );
                assert(rest[k] == events[k]);
            } else {
                assert(is_owed(
                    after.1[i],
                    events[last],
                    spans[last],
                    window,
                    source,
                    recurring,
                ));
            }
        }
    }
}

/// A resource is mirrored under its identity, with its address, its tag, its lines and whether it
/// repeats; other identities are not touched. Each of its events is mirrored on each date on
/// which it is due: the date, the time and the title are among the keys, and where they were not
/// before, a record with them is among the instances. Each instance is owed to one of the events.
pub proof fn law_resource_is_mirrored(
    st: Mirrored,
    window: (Date, Date),
    source: Seq<char>,
    r: ResourceView,
    spans: Seq<LocalSpan>,
)
    requires
        r.events.len() <= spans.len(),
        forall|k: int| 0 <= k < r.events.len() ==> crate::mirror::valid_span(#[trigger] spans[k]),
    ensures
        ({
            let after = crate::caldav::with_resource(st, window, source, r, spans);
            let e = after.1[r.uid];
            &&& after.1.contains_key(r.uid)
            &&& e.url == r.url
            &&& e.etag == r.etag
            &&& e.recurring == r.recurring
            &&& e.lines == r.lines
            &&& forall|u: Seq<char>|
                u != r.uid ==> (#[trigger] after.1.contains_key(u) <==> st.1.contains_key(u))
            &&& forall|u: Seq<char>|
                u != r.uid && st.1.contains_key(u) ==> #[trigger] after.1[u] == st.1[u]
            &&& is_told((st.0, Seq::empty()), (after.0, e.instances))
            &&& forall|k: int, date: Date, time: Option<(u32, u32)>|
                0 <= k < r.events.len() && #[trigger] is_due(
                    r.events[k],
                    spans[k],
                    window,
                    date,
                    time,
                ) ==> {
                    let d = day_record(r.events[k], source, r.recurring, date, time);
                    &&& after.0.contains((d.date, d.time, d.title))
                    &&& !st.0.contains((d.date, d.time, d.title)) ==> has_key(
                        e.instances,
                        (d.date, d.time, d.title),
                    )
                }
            &&& forall|i: int|
                0 <= i < e.instances.len() ==> is_owed_to_one(
                    #[trigger] e.instances[i],
                    r.events,
                    spans,
                    window,
                    source,
                    r.recurring,
                )
        }),
{
    let none = (st.0, Seq::<RecordView>::empty());
    law_events_are_mirrored(none, window, source, r.recurring, r.events, spans);
    let after = crate::caldav::with_resource(st, window, source, r, spans);
    let e = after.1[r.uid];
    let b = crate::caldav::with_events(none, window, source, r.recurring, r.events, spans);
    assert(b == (after.0, e.instances));
    assert forall|k: int, date: Date, time: Option<(u32, u32)>|
        0 <= k < r.events.len() && #[trigger] is_due(
            r.events[k],
            spans[k],
            window,
            date,
            time,
        ) implies {
        let d = day_record(r.events[k], source, r.recurring, date, time);
        &&& after.0.contains((d.date, d.time, d.title))
        &&& !st.0.contains((d.date, d.time, d.title)) ==> has_key(
            e.instances,
            (d.date, d.time, d.title),
        )
    } by {
        let d = day_record(r.events[k], source, r.recurring, date, time);
        let key = (d.date, d.time, d.title);
        assert(b.0.contains(key));
        if !st.0.contains(key) {
            let i = choose|i: int|
                none.1.len() <= i < b.1.len() && is_key_of(key, #[trigger] b.1[i]);
            assert(is_key_of(key, e.instances[i]));
        }
    }
    assert forall|i: int| 0 <= i < e.instances.len() implies is_owed_to_one(
        #[trigger] e.instances[i],
        r.events,
        spans,
        window,
        source,
        r.recurring,
    ) by {
        assert(b.1[i] == e.instances[i]);
    }
}

/// Whether one of several records has a date, a time and a title.
pub open spec fn has_key(records: Seq<RecordView>, k: SeenKey) -> bool {
    exists|i: int| 0 <= i < records.len() && is_key_of(k, #[trigger] records[i])
}

/// Whether spans are given for each event of each of several resources.
pub open spec fn are_spans_for(list: Seq<ResourceView>, spans: Seq<Seq<LocalSpan>>) -> bool {
    &&& list.len() <= spans.len()
    &&& forall|n: int|
        0 <= n < list.len() ==> list[n].events.len() <= (#[trigger] spans[n]).len()
    &&& forall|n: int, k: int|
        0 <= n < list.len() && 0 <= k < list[n].events.len() ==> crate::mirror::valid_span(
            #[trigger] spans[n][k],
        )
}

/// Whether a date, a time and a title are those of a record under the identity of one of several
/// resources.
pub open spec fn is_held_by_one(
    events: Map<Seq<char>, crate::remote::RemoteEventView>,
    list: Seq<ResourceView>,
    k: SeenKey,
) -> bool {
    exists|j: int|
        0 <= j < list.len() && events.contains_key((#[trigger] list[j]).uid) && has_key(
            events[list[j].uid].instances,
            k,
        )
}

/// Each event of each resource of a reply is mirrored on each date on which it is due: the date,
/// the time and the title are among the keys. What was among them stays.
pub proof fn law_due_dates_are_seen(
    st: Mirrored,
    window: (Date, Date),
    source: Seq<char>,
    list: Seq<ResourceView>,
    spans: Seq<Seq<LocalSpan>>,
    n: int,
    k: int,
    date: Date,
    time: Option<(u32, u32)>,
)
    requires
        are_spans_for(list, spans),
        0 <= n < list.len(),
        0 <= k < list[n].events.len(),
        is_due(list[n].events[k], spans[n][k], window, date, time),
    ensures
        ({
            let d = day_record(list[n].events[k], source, list[n].recurring, date, time);
            crate::caldav::with_resources(st, window, source, list, spans).0.contains(
                (d.date, d.time, d.title),
            )
        }),
    decreases list.len(),
{
    let rest = list.drop_last();
    let last = list.len() - 1;
    let before = crate::caldav::with_resources(st, window, source, rest, spans);
    let d = day_record(list[n].events[k], source, list[n].recurring, date, time);
    lemma_rest_spans(list, spans);
    law_resource_is_mirrored(before, window, source, list[last], spans[last]);
    if n < last {
        law_due_dates_are_seen(st, window, source, rest, spans, n, k, date, time);
        lemma_seen_stay(before, window, source, list[last], spans[last]);
    }
}

/// What was seen stays seen.
proof fn lemma_seen_stay(
    st: Mirrored,
    window: (Date, Date),
    source: Seq<char>,
    r: ResourceView,
    spans: Seq<LocalSpan>,
)
    requires
        r.events.len() <= spans.len(),
        forall|k: int| 0 <= k < r.events.len() ==> crate::mirror::valid_span(#[trigger] spans[k]),
    ensures
        ({
            let after = crate::caldav::with_resource(st, window, source, r, spans);
            forall|k: SeenKey| st.0.contains(k) ==> #[trigger] after.0.contains(k)
        }),
{
    law_resource_is_mirrored(st, window, source, r, spans);
    let after = crate::caldav::with_resource(st, window, source, r, spans);
    let (a, b) = ((st.0, Seq::<RecordView>::empty()), (after.0, after.1[r.uid].instances));
    assert(is_told(a, b));
    assert forall|k: SeenKey| st.0.contains(k) implies #[trigger] after.0.contains(k) by {
        assert(a.0.contains(k) && b.0.contains(k));
    }
}

proof fn lemma_rest_spans(list: Seq<ResourceView>, spans: Seq<Seq<LocalSpan>>)
    requires
        are_spans_for(list, spans),
        list.len() > 0,
    ensures
        are_spans_for(list.drop_last(), spans),
        list.last().events.len() <= spans[list.len() - 1].len(),
        forall|k: int|
            0 <= k < list.last().events.len() ==> crate::mirror::valid_span(
                #[trigger] spans[list.len() - 1][k],
            ),
{
    let rest = list.drop_last();
    assert forall|n: int, k: int|
        0 <= n < rest.len() && 0 <= k < rest[n].events.len() implies crate::mirror::valid_span(
        #[trigger] spans[n][k],
    ) by {
        assert(rest[n] == list[n]);
    }
    assert forall|n: int| 0 <= n < rest.len() implies rest[n].events.len() <= (
    #[trigger] spans[n]).len() by {
        assert(rest[n] == list[n]);
    }
}

/// The resources of a reply are mirrored under their identities and no others; what was mirrored
/// under an identity that none of them has stays as it is.
pub proof fn law_resources_keep_their_identities(
    st: Mirrored,
    window: (Date, Date),
    source: Seq<char>,
    list: Seq<ResourceView>,
    spans: Seq<Seq<LocalSpan>>,
    u: Seq<char>,
)
    requires
        are_spans_for(list, spans),
    ensures
        ({
            let after = crate::caldav::with_resources(st, window, source, list, spans);
            &&& after.1.contains_key(u) <==> st.1.contains_key(u) || has_uid(list, u)
            &&& st.1.contains_key(u) && !has_uid(list, u) ==> after.1[u] == st.1[u]
        }),
    decreases list.len(),
{
    if list.len() > 0 {
        let rest = list.drop_last();
        let last = list.len() - 1;
        let before = crate::caldav::with_resources(st, window, source, rest, spans);
        lemma_rest_spans(list, spans);
        law_resources_keep_their_identities(st, window, source, rest, spans, u);
        law_resource_is_mirrored(before, window, source, list[last], spans[last]);
        lemma_has_uid(list, u);
    }
}

/// Whether one of several resources has an identity.
pub open spec fn has_uid(list: Seq<ResourceView>, u: Seq<char>) -> bool {
    exists|n: int| 0 <= n < list.len() && (#[trigger] list[n]).uid == u
}

proof fn lemma_has_uid(list: Seq<ResourceView>, u: Seq<char>)
    requires
        list.len() > 0,
    ensures
        has_uid(list, u) <==> has_uid(list.drop_last(), u) || list.last().uid == u,
{
    let rest = list.drop_last();
    if has_uid(rest, u) {
        let n = choose|n: int| 0 <= n < rest.len() && (#[trigger] rest[n]).uid == u;
        assert(list[n].uid == u);
    }
    if list.last().uid == u {
        assert(list[list.len() - 1].uid == u);
    }
    if has_uid(list, u) {
        let n = choose|n: int| 0 <= n < list.len() && (#[trigger] list[n]).uid == u;
        if n < rest.len() {
            assert(rest[n].uid == u);
        }
    }
}

/// Where no two resources of a reply have the same identity, each is mirrored with its address,
/// its tag, its lines and whether it repeats, and its instances are owed to its events.
pub proof fn law_resources_are_mirrored(
    st: Mirrored,
    window: (Date, Date),
    source: Seq<char>,
    list: Seq<ResourceView>,
    spans: Seq<Seq<LocalSpan>>,
    n: int,
)
    requires
        are_spans_for(list, spans),
        are_apart(list),
        0 <= n < list.len(),
    ensures
        ({
            let after = crate::caldav::with_resources(st, window, source, list, spans);
            &&& after.1.contains_key(list[n].uid)
            &&& is_mirrored_as(after.1[list[n].uid], list[n], spans[n], window, source)
        }),
    decreases list.len(),
{
    let rest = list.drop_last();
    let last = list.len() - 1;
    let before = crate::caldav::with_resources(st, window, source, rest, spans);
    lemma_rest_spans(list, spans);
    lemma_rest_apart(list);
    law_resource_is_mirrored(before, window, source, list[last], spans[last]);
    if n < last {
        assert(rest[n] == list[n]);
        law_resources_are_mirrored(st, window, source, rest, spans, n);
        assert(list[n].uid != list[last].uid);
        let after = crate::caldav::with_resources(st, window, source, list, spans);
        assert(after.1[list[n].uid] == before.1[list[n].uid]);
    }
}

proof fn lemma_rest_apart(list: Seq<ResourceView>)
    requires
        are_apart(list),
        list.len() > 0,
    ensures
        are_apart(list.drop_last()),
{
    let rest = list.drop_last();
    assert forall|i: int, j: int| 0 <= i < j < rest.len() implies (#[trigger] rest[i]).uid != (
    #[trigger] rest[j]).uid by {
        assert(list[i].uid != list[j].uid);
    }
}

/// Where no two resources of a reply have the same identity, each date, time and title that came
/// among the keys is that of a record under one of their identities.
pub proof fn law_seen_dates_are_records(
    st: Mirrored,
    window: (Date, Date),
    source: Seq<char>,
    list: Seq<ResourceView>,
    spans: Seq<Seq<LocalSpan>>,
    k: SeenKey,
)
    requires
        are_spans_for(list, spans),
        are_apart(list),
        !st.0.contains(k),
        crate::caldav::with_resources(st, window, source, list, spans).0.contains(k),
    ensures
        is_held_by_one(
            crate::caldav::with_resources(st, window, source, list, spans).1,
            list,
            k,
        ),
    decreases list.len(),
{
    if list.len() > 0 {
        let rest = list.drop_last();
        let last = list.len() - 1;
        let before = crate::caldav::with_resources(st, window, source, rest, spans);
        let after = crate::caldav::with_resources(st, window, source, list, spans);
        lemma_rest_spans(list, spans);
        lemma_rest_apart(list);
        law_resource_is_mirrored(before, window, source, list[last], spans[last]);
        if before.0.contains(k) {
            law_seen_dates_are_records(st, window, source, rest, spans, k);
            let j = choose|j: int|
                0 <= j < rest.len() && before.1.contains_key((#[trigger] rest[j]).uid) && has_key(
                    before.1[rest[j].uid].instances,
                    k,
                );
            assert(list[j] == rest[j]);
            assert(list[j].uid != list[last].uid);
            assert(after.1[list[j].uid] == before.1[list[j].uid]);
        } else {
            let e = after.1[list[last].uid].instances;
            let (a, b) = ((before.0, Seq::<RecordView>::empty()), (after.0, e));
            assert(is_told(a, b));
            assert(b.0.contains(k));
            let i = choose|i: int| a.1.len() <= i < b.1.len() && is_key_of(k, #[trigger] b.1[i]);
            assert(is_key_of(k, e[i]));
            assert(has_key(after.1[list[last].uid].instances, k));
        }
    }
}

/// Whether no two resources have the same identity.
pub open spec fn are_apart(list: Seq<ResourceView>) -> bool {
    forall|i: int, j: int|
        0 <= i < j < list.len() ==> (#[trigger] list[i]).uid != (#[trigger] list[j]).uid
}

/// Whether an event of an account is a resource: with its address, its tag, its lines and whether
/// it repeats, and with instances that are owed to its events.
pub open spec fn is_mirrored_as(
    e: crate::remote::RemoteEventView,
    r: ResourceView,
    spans: Seq<LocalSpan>,
    window: (Date, Date),
    source: Seq<char>,
) -> bool {
    &&& e.url == r.url
    &&& e.etag == r.etag
    &&& e.recurring == r.recurring
    &&& e.lines == r.lines
    &&& forall|i: int|
        0 <= i < e.instances.len() ==> is_owed_to_one(
            #[trigger] e.instances[i],
            r.events,
            spans,
            window,
            source,
            r.recurring,
        )
}

// ── The events of a page ──────────────────────────────────────────────────

/// An event of the service is mirrored under its identity on each date on which it is due: the
/// date, the time and the title are among the keys, and where they were not before, its record
/// has joined the instances. What was there under the identity stays, in front. The event is one
/// that repeats if it was or if this one belongs to one that does. A new identity takes the
/// address and the tag of its first event; without an address there is no outcome. Other
/// identities are not touched.
pub proof fn law_item_is_mirrored(
    st: Mirrored,
    window: (Date, Date),
    source: Seq<char>,
    item: ItemView,
    address: Option<Seq<char>>,
    at: LocalSpan,
)
    requires
        crate::mirror::valid_span(at),
    ensures
        match crate::google::with_item(st, window, source, item, address, at) {
            None => !st.1.contains_key(item.uid) && address is None,
            Some(after) => {
                let e = after.1[item.uid];
                let known = st.1.contains_key(item.uid);
                let had = if known {
                    st.1[item.uid].instances
                } else {
                    Seq::empty()
                };
                &&& known || address is Some
                &&& after.1.contains_key(item.uid)
                &&& known ==> e.url == st.1[item.uid].url && e.etag == st.1[item.uid].etag
                    && e.lines == st.1[item.uid].lines
                &&& !known ==> Some(e.url) == address && e.etag == item.etag && e.lines.len() == 0
                &&& e.recurring <==> item.recurring || (known && st.1[item.uid].recurring)
                &&& had.len() <= e.instances.len()
                &&& forall|i: int| 0 <= i < had.len() ==> #[trigger] e.instances[i] == had[i]
                &&& is_told((st.0, had), (after.0, e.instances))
                &&& forall|date: Date, time: Option<(u32, u32)>| #[trigger]
                    is_due(item.event, at, window, date, time) ==> {
                        let d = day_record(item.event, source, item.recurring, date, time);
                        &&& after.0.contains((d.date, d.time, d.title))
                        &&& !st.0.contains((d.date, d.time, d.title)) ==> e.instances.contains(d)
                    }
                &&& forall|i: int|
                    had.len() <= i < e.instances.len() ==> is_owed(
                        #[trigger] e.instances[i],
                        item.event,
                        at,
                        window,
                        source,
                        item.recurring,
                    )
                &&& forall|u: Seq<char>|
                    u != item.uid ==> (#[trigger] after.1.contains_key(u) <==> st.1.contains_key(
                        u,
                    ))
                &&& forall|u: Seq<char>|
                    u != item.uid && st.1.contains_key(u) ==> #[trigger] after.1[u] == st.1[u]
            },
        },
{
    if let Some(after) = crate::google::with_item(st, window, source, item, address, at) {
        let none = (st.0, Seq::<RecordView>::empty());
        law_event_is_mirrored(none, window, source, item.recurring, item.event, at);
        let b = crate::mirror::with_event(
            none,
            window,
            source,
            item.recurring,
            item.event,
            at,
        );
        let e = after.1[item.uid];
        let had = if st.1.contains_key(item.uid) {
            st.1[item.uid].instances
        } else {
            Seq::empty()
        };
        assert(e.instances =~= had + b.1);
        assert(forall|i: int|
            0 <= i < b.1.len() ==> e.instances[had.len() + i] == #[trigger] b.1[i]);
        assert forall|k: SeenKey| #[trigger]
            after.0.contains(k) <==> st.0.contains(k) || exists|i: int|
                had.len() <= i < e.instances.len() && is_key_of(k, #[trigger] e.instances[i]) by {
            assert(b.0.contains(k) <==> none.0.contains(k) || exists|i: int|
                none.1.len() <= i < b.1.len() && is_key_of(k, #[trigger] b.1[i]));
            if exists|i: int| none.1.len() <= i < b.1.len() && is_key_of(k, #[trigger] b.1[i]) {
                let i = choose|i: int|
                    none.1.len() <= i < b.1.len() && is_key_of(k, #[trigger] b.1[i]);
                assert(is_key_of(k, e.instances[had.len() + i]));
            }
            if exists|i: int|
                had.len() <= i < e.instances.len() && is_key_of(k, #[trigger] e.instances[i]) {
                let i = choose|i: int|
                    had.len() <= i < e.instances.len() && is_key_of(k, #[trigger] e.instances[i]);
                assert(is_key_of(k, b.1[i - had.len()]));
            }
        }
        assert forall|i: int| had.len() <= i < e.instances.len() implies !st.0.contains(
            ((#[trigger] e.instances[i]).date, e.instances[i].time, e.instances[i].title),
        ) && is_owed(e.instances[i], item.event, at, window, source, item.recurring) by {
            assert(b.1[i - had.len()] == e.instances[i]);
        }
        assert forall|date: Date, time: Option<(u32, u32)>| #[trigger]
            is_due(item.event, at, window, date, time) implies {
            let d = day_record(item.event, source, item.recurring, date, time);
            &&& after.0.contains((d.date, d.time, d.title))
            &&& !st.0.contains((d.date, d.time, d.title)) ==> e.instances.contains(d)
        } by {
            let d = day_record(item.event, source, item.recurring, date, time);
            assert(b.0.contains((d.date, d.time, d.title)));
            if !st.0.contains((d.date, d.time, d.title)) {
                assert(comes_at(none, b, d));
                let i = choose|i: int| none.1.len() <= i < b.1.len() && #[trigger] b.1[i] == d;
                assert(e.instances[had.len() + i] == d);
            }
        }
    }
}

/// Each event of a page is mirrored on each date on which it is due: the date, the time and the
/// title are among the keys.
pub proof fn law_due_items_are_seen(
    st: Mirrored,
    window: (Date, Date),
    source: Seq<char>,
    url: Seq<char>,
    list: Seq<ItemView>,
    spans: Seq<LocalSpan>,
    n: int,
    date: Date,
    time: Option<(u32, u32)>,
)
    requires
        list.len() <= spans.len(),
        forall|k: int| 0 <= k < list.len() ==> crate::mirror::valid_span(#[trigger] spans[k]),
        0 <= n < list.len(),
        is_due(list[n].event, spans[n], window, date, time),
    ensures
        crate::google::with_items(st, window, source, url, list, spans) matches Some(after) ==> {
            let d = day_record(list[n].event, source, list[n].recurring, date, time);
            after.0.contains((d.date, d.time, d.title))
        },
    decreases list.len(),
{
    let rest = list.drop_last();
    let last = list.len() - 1;
    if let Some(before) = crate::google::with_items(st, window, source, url, rest, spans) {
        let address = crate::google::item_address(url, list[last].id);
        assert(crate::mirror::valid_span(spans[last]));
        law_item_is_mirrored(before, window, source, list[last], address, spans[last]);
        if n < last {
            law_due_items_are_seen(st, window, source, url, rest, spans, n, date, time);
            if let Some(after) = crate::google::with_items(st, window, source, url, list, spans) {
                let had = if before.1.contains_key(list[last].uid) {
                    before.1[list[last].uid].instances
                } else {
                    Seq::empty()
                };
                let (a, b) = ((before.0, had), (after.0, after.1[list[last].uid].instances));
                let d = day_record(list[n].event, source, list[n].recurring, date, time);
                assert(is_told(a, b));
                assert(a.0.contains((d.date, d.time, d.title)));
                assert(b.0.contains((d.date, d.time, d.title)));
            }
        }
    }
}

/// Each date, time and title that came among the keys with a page is that of a record under the
/// identity of one of its events.
pub proof fn law_seen_items_are_records(
    st: Mirrored,
    window: (Date, Date),
    source: Seq<char>,
    url: Seq<char>,
    list: Seq<ItemView>,
    spans: Seq<LocalSpan>,
    k: SeenKey,
)
    requires
        list.len() <= spans.len(),
        forall|k: int| 0 <= k < list.len() ==> crate::mirror::valid_span(#[trigger] spans[k]),
        !st.0.contains(k),
    ensures
        crate::google::with_items(st, window, source, url, list, spans) matches Some(after)
            ==> after.0.contains(k) ==> is_held_under_one(after.1, list, k),
    decreases list.len(),
{
    if list.len() > 0 {
        let rest = list.drop_last();
        let last = list.len() - 1;
        law_seen_items_are_records(st, window, source, url, rest, spans, k);
        if let Some(before) = crate::google::with_items(st, window, source, url, rest, spans) {
            let address = crate::google::item_address(url, list[last].id);
            assert(crate::mirror::valid_span(spans[last]));
            law_item_is_mirrored(before, window, source, list[last], address, spans[last]);
            if let Some(after) = crate::google::with_items(st, window, source, url, list, spans) {
                let had = if before.1.contains_key(list[last].uid) {
                    before.1[list[last].uid].instances
                } else {
                    Seq::empty()
                };
                let e = after.1[list[last].uid];
                if before.0.contains(k) {
                    let j = choose|j: int|
                        0 <= j < rest.len() && before.1.contains_key((#[trigger] rest[j]).uid)
                            && has_key(before.1[rest[j].uid].instances, k);
                    assert(list[j] == rest[j]);
                    let u = list[j].uid;
                    let i = choose|i: int|
                        0 <= i < before.1[u].instances.len() && is_key_of(
                            k,
                            #[trigger] before.1[u].instances[i],
                        );
                    if u == list[last].uid {
                        assert(e.instances[i] == had[i]);
                    } else {
                        assert(after.1[u] == before.1[u]);
                    }
                    assert(is_key_of(k, after.1[u].instances[i]));
                    assert(has_key(after.1[list[j].uid].instances, k));
                } else if after.0.contains(k) {
                    let (a, b) = ((before.0, had), (after.0, e.instances));
                    assert(is_told(a, b));
                    assert(b.0.contains(k));
                    let i = choose|i: int|
                        a.1.len() <= i < b.1.len() && is_key_of(k, #[trigger] b.1[i]);
                    assert(is_key_of(k, e.instances[i]));
                    assert(has_key(after.1[list[last].uid].instances, k));
                }
            }
        }
    }
}

/// What is mirrored under an identity once a page has been: what was there stays, and it repeats
/// if it did or if an event of the page with the identity belongs to one that does. A new
/// identity takes the address and the tag of the first event of the page that has it. There is no
/// other identity than those that were there and those of the page.
#[verifier::rlimit(40)]
pub proof fn law_items_join_their_identities(
    st: Mirrored,
    window: (Date, Date),
    source: Seq<char>,
    url: Seq<char>,
    list: Seq<ItemView>,
    spans: Seq<LocalSpan>,
    u: Seq<char>,
)
    requires
        list.len() <= spans.len(),
        forall|k: int| 0 <= k < list.len() ==> crate::mirror::valid_span(#[trigger] spans[k]),
    ensures
        crate::google::with_items(st, window, source, url, list, spans) matches Some(after) ==> {
            let among = exists|n: int| 0 <= n < list.len() && (#[trigger] list[n]).uid == u;
            let repeats = exists|n: int|
                0 <= n < list.len() && (#[trigger] list[n]).uid == u && list[n].recurring;
            &&& after.1.contains_key(u) <==> st.1.contains_key(u) || among
            &&& st.1.contains_key(u) ==> keeps(st.1[u], after.1[u])
            &&& st.1.contains_key(u) && !among ==> after.1[u] == st.1[u]
            &&& after.1.contains_key(u) ==> (after.1[u].recurring <==> repeats || (
            st.1.contains_key(u) && st.1[u].recurring))
            &&& forall|n: int|
                0 <= n < list.len() && (#[trigger] list[n]).uid == u && is_first(list, n)
                    && !st.1.contains_key(u) ==> crate::url::url_read(url + "/"@ + list[n].id)
                    == Some(after.1[u].url) && after.1[u].etag == list[n].etag
        },
    decreases list.len(),
{
    if list.len() == 0 {
        if st.1.contains_key(u) {
            assert(st.1[u].instances.take(st.1[u].instances.len() as int) =~= st.1[u].instances);
        }
    } else {
        let rest = list.drop_last();
        let last = list.len() - 1;
        law_items_join_their_identities(st, window, source, url, rest, spans, u);
        if let Some(before) = crate::google::with_items(st, window, source, url, rest, spans) {
            let address = crate::google::item_address(url, list[last].id);
            assert(crate::mirror::valid_span(spans[last]));
            law_item_is_mirrored(before, window, source, list[last], address, spans[last]);
            if let Some(after) = crate::google::with_items(st, window, source, url, list, spans) {
                lemma_among(list, u);
                if u == list[last].uid {
                    if st.1.contains_key(u) {
                        assert(after.1[u].instances.take(st.1[u].instances.len() as int)
                            =~= before.1[u].instances.take(st.1[u].instances.len() as int));
                    }
                } else {
                    assert(after.1.contains_key(u) <==> before.1.contains_key(u));
                    if before.1.contains_key(u) {
                        assert(after.1[u] == before.1[u]);
                    }
                }
                assert forall|n: int|
                    0 <= n < list.len() && (#[trigger] list[n]).uid == u && is_first(list, n)
                        && !st.1.contains_key(u) implies crate::url::url_read(
                    url + "/"@ + list[n].id,
                ) == Some(after.1[u].url) && after.1[u].etag == list[n].etag by {
                    if n < last {
                        assert(rest[n] == list[n]);
                        assert(is_first(rest, n)) by {
                            assert forall|m: int| 0 <= m < n implies (#[trigger] rest[m]).uid
                                != rest[n].uid by {
                                assert(list[m].uid != list[n].uid);
                            }
                        }
                        assert(before.1.contains_key(u));
                    } else if before.1.contains_key(u) {
                        let m = choose|m: int|
                            0 <= m < rest.len() && (#[trigger] rest[m]).uid == u;
                        assert(list[m].uid == u);
                    }
                }
            }
        }
    }
}

/// A page cannot be mirrored exactly where the first event of an identity that was not there has
/// no address.
pub proof fn law_new_identities_need_addresses(
    st: Mirrored,
    window: (Date, Date),
    source: Seq<char>,
    url: Seq<char>,
    list: Seq<ItemView>,
    spans: Seq<LocalSpan>,
)
    requires
        list.len() <= spans.len(),
        forall|k: int| 0 <= k < list.len() ==> crate::mirror::valid_span(#[trigger] spans[k]),
    ensures
        crate::google::with_items(st, window, source, url, list, spans) is None <==> exists|n: int|
            0 <= n < list.len() && #[trigger] is_first(list, n) && !st.1.contains_key(list[n].uid)
                && crate::url::url_read(url + "/"@ + list[n].id) is None,
    decreases list.len(),
{
    if list.len() > 0 {
        let rest = list.drop_last();
        let last = list.len() - 1;
        law_new_identities_need_addresses(st, window, source, url, rest, spans);
        law_items_join_their_identities(st, window, source, url, rest, spans, list[last].uid);
        lemma_item_step(st, window, source, url, list, spans);
        lemma_firsts(list);
        let known = st.1;
        let none = crate::google::with_items(st, window, source, url, rest, spans) is None;
        let fails = crate::google::with_items(st, window, source, url, list, spans) is None;
        assert(none <==> exists|n: int|
            0 <= n < rest.len() && #[trigger] is_first(rest, n) && !known.contains_key(rest[n].uid)
                && crate::url::url_read(url + "/"@ + rest[n].id) is None);
        assert(fails <==> none || (is_first(list, last) && !known.contains_key(list[last].uid)
            && crate::url::url_read(url + "/"@ + list[last].id) is None));
        lemma_first_without_address(known, url, list);
    }
}

/// A page fails at its last event, or before.
proof fn lemma_item_step(
    st: Mirrored,
    window: (Date, Date),
    source: Seq<char>,
    url: Seq<char>,
    list: Seq<ItemView>,
    spans: Seq<LocalSpan>,
)
    requires
        list.len() > 0,
    ensures
        ({
            let before = crate::google::with_items(
                st,
                window,
                source,
                url,
                list.drop_last(),
                spans,
            );
            crate::google::with_items(st, window, source, url, list, spans) is None <==> before
                is None || (!(before->0).1.contains_key(list.last().uid) && crate::url::url_read(
                url + "/"@ + list.last().id,
            ) is None)
        }),
{
}

/// The last event of a page is the first of its identity exactly where no other has it, and the
/// others are first where they were without it.
proof fn lemma_firsts(list: Seq<ItemView>)
    requires
        list.len() > 0,
    ensures
        ({
            let rest = list.drop_last();
            &&& is_first(list, list.len() - 1) <==> !(exists|n: int|
                0 <= n < rest.len() && (#[trigger] rest[n]).uid == list.last().uid)
            &&& forall|n: int|
                0 <= n < rest.len() ==> #[trigger] is_first(list, n) == is_first(rest, n)
        }),
{
    let rest = list.drop_last();
    let last = list.len() - 1;
    if is_first(list, last) {
        assert forall|n: int| 0 <= n < rest.len() implies (#[trigger] rest[n]).uid
            != list.last().uid by {
            assert(list[n].uid != list[last].uid);
        }
    } else {
        let m = choose|m: int| 0 <= m < last && !((#[trigger] list[m]).uid != list[last].uid);
        assert(rest[m].uid == list.last().uid);
    }
    assert forall|n: int| 0 <= n < rest.len() implies #[trigger] is_first(list, n) == is_first(
        rest,
        n,
    ) by {
        if is_first(list, n) {
            assert forall|m: int| 0 <= m < n implies (#[trigger] rest[m]).uid != rest[n].uid by {
                assert(list[m].uid != list[n].uid);
            }
        }
        if is_first(rest, n) {
            assert forall|m: int| 0 <= m < n implies (#[trigger] list[m]).uid != list[n].uid by {
                assert(rest[m].uid != rest[n].uid);
            }
        }
    }
}

/// An event without an address that is the first of a new identity is the last of the page, or
/// among the others.
proof fn lemma_first_without_address(
    known: Map<Seq<char>, crate::remote::RemoteEventView>,
    url: Seq<char>,
    list: Seq<ItemView>,
)
    requires
        list.len() > 0,
    ensures
        ({
            let rest = list.drop_last();
            (exists|n: int|
                0 <= n < list.len() && #[trigger] is_first(list, n) && !known.contains_key(
                    list[n].uid,
                ) && crate::url::url_read(url + "/"@ + list[n].id) is None) <==> (exists|n: int|
                0 <= n < rest.len() && #[trigger] is_first(rest, n) && !known.contains_key(
                    rest[n].uid,
                ) && crate::url::url_read(url + "/"@ + rest[n].id) is None) || (is_first(
                list,
                list.len() - 1,
            ) && !known.contains_key(list.last().uid) && crate::url::url_read(
                url + "/"@ + list.last().id,
            ) is None)
        }),
{
    let rest = list.drop_last();
    lemma_firsts(list);
    if exists|n: int|
        0 <= n < list.len() && #[trigger] is_first(list, n) && !known.contains_key(list[n].uid)
            && crate::url::url_read(url + "/"@ + list[n].id) is None {
        let n = choose|n: int|
            0 <= n < list.len() && #[trigger] is_first(list, n) && !known.contains_key(list[n].uid)
                && crate::url::url_read(url + "/"@ + list[n].id) is None;
        if n < rest.len() {
            assert(is_first(rest, n));
        }
    }
    if exists|n: int|
        0 <= n < rest.len() && #[trigger] is_first(rest, n) && !known.contains_key(rest[n].uid)
            && crate::url::url_read(url + "/"@ + rest[n].id) is None {
        let n = choose|n: int|
            0 <= n < rest.len() && #[trigger] is_first(rest, n) && !known.contains_key(rest[n].uid)
                && crate::url::url_read(url + "/"@ + rest[n].id) is None;
        assert(is_first(list, n));
    }
}

proof fn lemma_among(list: Seq<ItemView>, u: Seq<char>)
    requires
        list.len() > 0,
    ensures
        ({
            let rest = list.drop_last();
            &&& (exists|n: int| 0 <= n < list.len() && (#[trigger] list[n]).uid == u) <==> (
            exists|n: int| 0 <= n < rest.len() && (#[trigger] rest[n]).uid == u)
                || list.last().uid == u
            &&& (exists|n: int|
                0 <= n < list.len() && (#[trigger] list[n]).uid == u && list[n].recurring) <==> (
            exists|n: int|
                0 <= n < rest.len() && (#[trigger] rest[n]).uid == u && rest[n].recurring) || (
            list.last().uid == u && list.last().recurring)
        }),
{
    let rest = list.drop_last();
    assert(forall|n: int| 0 <= n < rest.len() ==> #[trigger] rest[n] == list[n]);
    assert(list[list.len() - 1] == list.last());
    if exists|n: int| 0 <= n < rest.len() && (#[trigger] rest[n]).uid == u {
        let n = choose|n: int| 0 <= n < rest.len() && (#[trigger] rest[n]).uid == u;
        assert(list[n].uid == u);
    }
    if exists|n: int| 0 <= n < rest.len() && (#[trigger] rest[n]).uid == u && rest[n].recurring {
        let n = choose|n: int|
            0 <= n < rest.len() && (#[trigger] rest[n]).uid == u && rest[n].recurring;
        assert(list[n].uid == u && list[n].recurring);
    }
    if exists|n: int| 0 <= n < list.len() && (#[trigger] list[n]).uid == u {
        let n = choose|n: int| 0 <= n < list.len() && (#[trigger] list[n]).uid == u;
        if n < rest.len() {
            assert(rest[n].uid == u);
        }
    }
    if exists|n: int| 0 <= n < list.len() && (#[trigger] list[n]).uid == u && list[n].recurring {
        let n = choose|n: int|
            0 <= n < list.len() && (#[trigger] list[n]).uid == u && list[n].recurring;
        if n < rest.len() {
            assert(rest[n].uid == u && rest[n].recurring);
        }
    }
}

/// Whether no earlier event of a page has the identity of one.
pub open spec fn is_first(list: Seq<ItemView>, n: int) -> bool {
    forall|m: int| 0 <= m < n ==> (#[trigger] list[m]).uid != list[n].uid
}

/// Whether an event of an account kept its address, its tag and its instances, and repeats if it
/// did.
pub open spec fn keeps(
    a: crate::remote::RemoteEventView,
    b: crate::remote::RemoteEventView,
) -> bool {
    &&& b.url == a.url
    &&& b.etag == a.etag
    &&& a.recurring ==> b.recurring
    &&& a.instances.len() <= b.instances.len()
    &&& b.instances.take(a.instances.len() as int) == a.instances
}

/// Whether a date, a time and a title are those of a record under the identity of one of several
/// events.
pub open spec fn is_held_under_one(
    events: Map<Seq<char>, crate::remote::RemoteEventView>,
    list: Seq<ItemView>,
    k: SeenKey,
) -> bool {
    exists|j: int|
        0 <= j < list.len() && events.contains_key((#[trigger] list[j]).uid) && has_key(
            events[list[j].uid].instances,
            k,
        )
}

} // verus!
