//! What writing to a server is for: a record is sent with its day or its instants and its title,
//! over nothing else than the event that it was read from, and everything else stays.
use vstd::prelude::*;

use crate::date::{Date, Moment};
use crate::record::RecordView;
use crate::when::{RecordError, Span};

verus! {

// ── When a record is ──────────────────────────────────────────────────────

/// A record is on the date it writes, and at the hour and the minute that it writes on the two
/// sides of the first colon of its time. It is nowhere exactly where its date is none or its time
/// is not of that form.
pub proof fn law_records_say_when(r: RecordView)
    ensures
        match crate::when::record_when(r) {
            Ok((date, time)) => {
                &&& crate::date::date_read(r.date) == Some(date)
                &&& time is Some <==> r.time is Some
                &&& time matches Some((h, m)) ==> is_clock(r.time->0, h, m)
            },
            Err(e) => {
                ||| e == RecordError::BadDate && crate::date::date_read(r.date) is None
                ||| e == RecordError::BadTime && crate::date::date_read(r.date) is Some
                    && r.time is Some && forall|h: u32, m: u32| !#[trigger] is_clock(r.time->0, h, m)
            },
        },
{
    if let Some(t) = r.time {
        lemma_clock(t);
    }
}

/// Whether a text is an hour, a colon and a minute.
pub open spec fn is_clock(text: Seq<char>, h: u32, m: u32) -> bool {
    exists|k: int|
        0 <= k < text.len() && #[trigger] text[k] == ':' && (forall|i: int|
            0 <= i < k ==> text[i] != ':') && crate::text::number(text.take(k)) == Some(h)
            && crate::text::number(text.skip(k + 1)) == Some(m)
}

proof fn lemma_clock(t: Seq<char>)
    ensures
        match crate::when::clock_read(t) {
            Some((h, m)) => is_clock(t, h, m),
            None => forall|h: u32, m: u32| !#[trigger] is_clock(t, h, m),
        },
{
    let k = crate::text::find(t, ':');
    crate::text::lemma_find(t, ':');
    if let Some((h, m)) = crate::when::clock_read(t) {
        assert(t[k] == ':');
        assert(is_clock(t, h, m));
    } else {
        assert forall|h: u32, m: u32| !#[trigger] is_clock(t, h, m) by {
            if is_clock(t, h, m) {
                let j = choose|j: int|
                    0 <= j < t.len() && #[trigger] t[j] == ':' && (forall|i: int|
                        0 <= i < j ==> t[i] != ':') && crate::text::number(t.take(j)) == Some(h)
                        && crate::text::number(t.skip(j + 1)) == Some(m);
                crate::text::lemma_find_is(t, ':', j);
            }
        }
    }
}

/// A record starts at its hour and minute, or with its day; not at an hour or a minute that no
/// day has.
pub proof fn law_records_start(r: RecordView)
    ensures
        match (crate::when::record_when(r), crate::when::record_start(r)) {
            (Ok((date, None)), Ok(m)) => m == (Moment { date, hour: 0, minute: 0, second: 0 }),
            (Ok((date, Some((hour, minute)))), Ok(m)) => hour < 24 && minute < 60 && m == (
            Moment { date, hour, minute, second: 0 }),
            (Ok((_, Some((hour, minute)))), Err(e)) => e == RecordError::BadTime && (hour >= 24
                || minute >= 60),
            (Ok((_, None)), Err(_)) => false,
            (Err(e), s) => s == Err::<Moment, RecordError>(e),
        },
{
}

/// A timed record is sent as the hour from the instant at which the clocks show its start.
pub proof fn law_records_take_an_hour(span: Span, local: Moment)
    requires
        crate::when::spans(span, local),
    ensures
        crate::date::second_number(span.start) + span.start_offset == crate::date::second_number(
            local,
        ),
        crate::date::second_number(span.end) == crate::date::second_number(span.start) + 3600,
        -86400 < span.start_offset < 86400,
{
}

// ── The lines of a span ───────────────────────────────────────────────────

/// The lines of a record without a time are its day and the day after; those of a timed record
/// are an instant in UTC less than a day from what the clocks show, and the one an hour later.
pub proof fn law_span_lines(r: RecordView, lines: (Seq<char>, Seq<char>))
    requires
        crate::vevent::are_span_lines(r, lines),
    ensures
        crate::when::record_when(r) is Ok,
        match crate::when::record_when(r)->Ok_0 {
            (date, None) => exists|next: Date|
                (crate::date::valid_date(date) ==> crate::date::valid_date(next)
                    && crate::date::day_number(next) == crate::date::day_number(date) + 1)
                    && lines.0 == "DTSTART;VALUE=DATE:"@ + crate::date::compact_text(date)
                    && lines.1 == "DTEND;VALUE=DATE:"@ + #[trigger] crate::date::compact_text(
                    next,
                ),
            (_, Some(_)) => exists|start: Moment, end: Moment|
                crate::when::record_start(r) is Ok && is_hour_from(
                    crate::when::record_start(r)->Ok_0,
                    start,
                    end,
                ) && lines.0 == "DTSTART:"@ + #[trigger] crate::date::stamp_text(start) + seq!['Z']
                    && lines.1 == "DTEND:"@ + #[trigger] crate::date::stamp_text(end) + seq!['Z'],
        },
{
    match crate::when::record_when(r)->Ok_0 {
        (date, None) => {
            let next = crate::date::next_date(date);
            if crate::date::valid_date(date) {
                crate::date::lemma_next_date(date);
            }
            assert(lines.1 == "DTEND;VALUE=DATE:"@ + crate::date::compact_text(next));
        },
        (_, Some(_)) => {
            let local = crate::when::record_start(r)->Ok_0;
            let span = choose|span: Span| #[trigger]
                crate::when::spans(span, local) && lines == crate::vevent::instant_lines(
                    span.start,
                    span.end,
                ) && crate::when::record_start(r) is Ok;
            law_records_take_an_hour(span, local);
            assert(is_hour_from(local, span.start, span.end));
            assert(lines.0 == "DTSTART:"@ + crate::date::stamp_text(span.start) + seq!['Z']);
            assert(lines.1 == "DTEND:"@ + crate::date::stamp_text(span.end) + seq!['Z']);
        },
    }
}

/// Whether two instants are an hour apart, the first less than a day from what clocks show.
pub open spec fn is_hour_from(local: Moment, start: Moment, end: Moment) -> bool {
    &&& crate::date::valid_moment(start)
    &&& crate::date::valid_moment(end)
    &&& -86400 < crate::date::second_number(local) - crate::date::second_number(start) < 86400
    &&& crate::date::second_number(end) == crate::date::second_number(start) + 3600
}

/// Lines are written one after the other, each with a carriage return and a line feed behind it.
pub proof fn law_lines_are_written(lines: Seq<Seq<char>>, line: Seq<char>)
    ensures
        crate::vevent::lines_text(Seq::empty()) == Seq::<char>::empty(),
        crate::vevent::lines_text(lines.push(line)) == crate::vevent::lines_text(lines) + line
            + seq!['\r', '\n'],
{
    assert(lines.push(line).drop_last() =~= lines);
}

/// A new event is a calendar with one event, under its identity, stamped with the time it is, with
/// the lines of its span and its title.
pub proof fn law_new_event(
    uid: Seq<char>,
    now: Moment,
    span: (Seq<char>, Seq<char>),
    title: Seq<char>,
)
    ensures
        ({
            let lines = crate::vevent::new_event_lines(uid, now, span, title);
            let n = lines.len() as int;
            &&& lines[0] == "BEGIN:VCALENDAR"@
            &&& lines[n - 1] == "END:VCALENDAR"@
            &&& lines[n - 2] == "END:VEVENT"@
            &&& n == 12
            &&& lines.contains("VERSION:2.0"@)
            &&& lines.contains("PRODID:-//cce//cce-calendar-sync//EN"@)
            &&& exists|b: int|
                0 < b < n - 2 && #[trigger] lines[b] == "BEGIN:VEVENT"@ && {
                    let inner = lines.subrange(b + 1, n - 2);
                    &&& inner.contains("UID:"@ + uid)
                    &&& inner.contains("DTSTAMP:"@ + (crate::date::stamp_text(now) + seq!['Z']))
                    &&& inner.contains("CREATED:"@ + (crate::date::stamp_text(now) + seq!['Z']))
                    &&& inner.contains(span.0)
                    &&& inner.contains(span.1)
                    &&& inner.contains("SUMMARY:"@ + crate::ics::escaped(title))
                }
        }),
{
    let lines = crate::vevent::new_event_lines(uid, now, span, title);
    assert(lines[1] == "VERSION:2.0"@);
    assert(lines[2] == "PRODID:-//cce//cce-calendar-sync//EN"@);
    assert(lines[3] == "BEGIN:VEVENT"@);
    let inner = lines.subrange(4, 10);
    assert(inner[0] == "UID:"@ + uid);
    assert(inner[1] == "DTSTAMP:"@ + (crate::date::stamp_text(now) + seq!['Z']));
    assert(inner[2] == "CREATED:"@ + (crate::date::stamp_text(now) + seq!['Z']));
    assert(inner[3] == span.0);
    assert(inner[4] == span.1);
    assert(inner[5] == "SUMMARY:"@ + crate::ics::escaped(title));
}

// ── Changing an event ─────────────────────────────────────────────────────

/// Whether a line is one of those that a change replaces: the title, the start, the end or the
/// duration.
pub open spec fn is_span_or_title(line: Seq<char>) -> bool {
    let name = crate::ics::line_name(line);
    name == "SUMMARY"@ || name == "DTSTART"@ || name == "DTEND"@ || name == "DURATION"@
}

/// A change can be made exactly where a line opens an event and a later one closes it. Of the
/// lines up to the first that opens one and from the first behind it that closes one, all stay
/// where they are; between them stand first lines that stood there, then the new title, the new
/// start and the new end.
pub proof fn law_change_stays_within_the_event(
    lines: Seq<Seq<char>>,
    title: Seq<char>,
    span: (Seq<char>, Seq<char>),
    b: int,
    e: int,
)
    requires
        0 <= b < e < lines.len(),
        crate::parse_laws::opens_event(lines[b]),
        forall|i: int| 0 <= i < b ==> !crate::parse_laws::opens_event(#[trigger] lines[i]),
        crate::parse_laws::closes_event(lines[e]),
        forall|i: int| b < i < e ==> !crate::parse_laws::closes_event(#[trigger] lines[i]),
    ensures
        ({
            let inner = lines.subrange(b + 1, e);
            let kept = crate::vevent::kept(inner);
            crate::vevent::patched_lines(lines, title, span) == Some(
                lines.take(b + 1) + kept + seq![
                    "SUMMARY:"@ + crate::ics::escaped(title),
                    span.0,
                    span.1,
                ] + lines.skip(e),
            )
        }),
{
    lemma_first_open(lines, b);
    let body = lines.skip(b + 1);
    assert forall|i: int| 0 <= i < e - b - 1 implies !crate::parse_laws::closes_event(
        #[trigger] body[i],
    ) by {
        assert(body[i] == lines[b + 1 + i]);
    }
    assert(body[e - b - 1] == lines[e]);
    lemma_first_close(body, e - b - 1);
    assert(body.take(e - b - 1) =~= lines.subrange(b + 1, e));
    assert(body.skip(e - b - 1) =~= lines.skip(e));
}

proof fn lemma_first_open(lines: Seq<Seq<char>>, k: int)
    requires
        0 <= k < lines.len(),
        crate::parse_laws::opens_event(lines[k]),
        forall|i: int| 0 <= i < k ==> !crate::parse_laws::opens_event(#[trigger] lines[i]),
    ensures
        crate::vevent::event_start(lines) == k,
    decreases k,
{
    if k > 0 {
        let rest = lines.drop_first();
        assert(!crate::parse_laws::opens_event(lines[0]));
        assert forall|i: int| 0 <= i < k - 1 implies !crate::parse_laws::opens_event(
            #[trigger] rest[i],
        ) by {
            assert(rest[i] == lines[i + 1]);
        }
        lemma_first_open(rest, k - 1);
    }
}

proof fn lemma_first_close(lines: Seq<Seq<char>>, k: int)
    requires
        0 <= k < lines.len(),
        crate::parse_laws::closes_event(lines[k]),
        forall|i: int| 0 <= i < k ==> !crate::parse_laws::closes_event(#[trigger] lines[i]),
    ensures
        crate::vevent::event_end(lines) == k,
    decreases k,
{
    if k > 0 {
        let rest = lines.drop_first();
        assert(!crate::parse_laws::closes_event(lines[0]));
        assert forall|i: int| 0 <= i < k - 1 implies !crate::parse_laws::closes_event(
            #[trigger] rest[i],
        ) by {
            assert(rest[i] == lines[i + 1]);
        }
        lemma_first_close(rest, k - 1);
    }
}

/// Lines without an event that is opened and then closed cannot be changed.
pub proof fn law_no_event_no_change(
    lines: Seq<Seq<char>>,
    title: Seq<char>,
    span: (Seq<char>, Seq<char>),
)
    requires
        forall|b: int, e: int|
            0 <= b < e < lines.len() && crate::parse_laws::opens_event(#[trigger] lines[b])
                ==> !crate::parse_laws::closes_event(#[trigger] lines[e]),
    ensures
        crate::vevent::patched_lines(lines, title, span) is None,
        !crate::vevent::has_event(lines),
{
    let b = crate::vevent::event_start(lines);
    crate::patch_laws::lemma_event_start(lines);
    if b < lines.len() {
        let body = lines.skip(b + 1);
        let e = crate::vevent::event_end(body);
        crate::patch_laws::lemma_event_end(body);
        if e < body.len() {
            assert(body[e] == lines[b + 1 + e]);
            assert(crate::parse_laws::opens_event(lines[b]));
            assert(crate::parse_laws::closes_event(lines[b + 1 + e]));
        }
    }
}

/// Of the lines inside an event, those that are neither its title, nor its start, its end or its
/// duration stay, in their order and no others: so does everything inside a component that is
/// opened and closed within it. Its own title, start, end and duration go.
pub proof fn law_what_stays_of_an_event(inner: Seq<Seq<char>>)
    ensures
        ({
            let other = |l: Seq<char>| !is_span_or_title(l);
            crate::vevent::kept(inner).filter(other) == inner.filter(other)
        }),
        forall|i: int|
            0 <= i < inner.len() && is_span_or_title(#[trigger] inner[i]) && is_component_around(
                inner,
                i,
            ) ==> crate::vevent::kept(inner).contains(inner[i]),
        (forall|i: int| 0 <= i < inner.len() ==> crate::ics::line_name(#[trigger] inner[i])
            != "BEGIN"@) ==> forall|j: int|
            0 <= j < crate::vevent::kept(inner).len() ==> !is_span_or_title(
                #[trigger] crate::vevent::kept(inner)[j],
            ),
{
    lemma_others_stay(inner, inner.len() as int);
    assert(inner.take(inner.len() as int) =~= inner);
    assert forall|i: int|
        0 <= i < inner.len() && is_span_or_title(#[trigger] inner[i]) && is_component_around(
            inner,
            i,
        ) implies crate::vevent::kept(inner).contains(inner[i]) by {
        lemma_component_stays(inner, i);
        lemma_kept_has(inner, i, inner.len() as int);
    }
    if forall|i: int| 0 <= i < inner.len() ==> crate::ics::line_name(#[trigger] inner[i])
        != "BEGIN"@ {
        lemma_own_go(inner, inner.len() as int);
    }
}

/// Whether a line stands between a line that opens a component and the next that closes one, and
/// these have the same name, with no other component between them.
pub open spec fn is_component_around(inner: Seq<Seq<char>>, i: int) -> bool {
    exists|b: int, e: int|
        0 <= b < i < e < inner.len() && crate::ics::line_name(#[trigger] inner[b]) == "BEGIN"@
            && crate::ics::line_name(#[trigger] inner[e]) == "END"@ && crate::text::same_letters(
            crate::ics::line_value(inner[b]),
            crate::ics::line_value(inner[e]),
        ) && forall|k: int|
            b < k < e ==> crate::ics::line_name(#[trigger] inner[k]) != "BEGIN"@
                && crate::ics::line_name(inner[k]) != "END"@
}

proof fn lemma_others_stay(inner: Seq<Seq<char>>, n: int)
    requires
        0 <= n <= inner.len(),
    ensures
        ({
            let other = |l: Seq<char>| !is_span_or_title(l);
            crate::vevent::kept_among(inner, n).filter(other) == inner.take(n).filter(other)
        }),
    decreases n,
{
    reveal(Seq::filter);
    let other = |l: Seq<char>| !is_span_or_title(l);
    if n > 0 {
        lemma_others_stay(inner, n - 1);
        let before = crate::vevent::kept_among(inner, n - 1);
        assert(inner.take(n).drop_last() =~= inner.take(n - 1));
        assert(inner.take(n).last() == inner[n - 1]);
        assert(before.push(inner[n - 1]).drop_last() =~= before);
    } else {
        assert(inner.take(0) =~= Seq::empty());
    }
}

proof fn lemma_kept_has(inner: Seq<Seq<char>>, i: int, n: int)
    requires
        0 <= i < n <= inner.len(),
        crate::vevent::is_kept(inner, i),
    ensures
        crate::vevent::kept_among(inner, n).contains(inner[i]),
    decreases n,
{
    let k = crate::vevent::kept_among(inner, n);
    if i == n - 1 {
        assert(k.last() == inner[i]);
    } else {
        lemma_kept_has(inner, i, n - 1);
        let before = crate::vevent::kept_among(inner, n - 1);
        let j = choose|j: int| 0 <= j < before.len() && before[j] == inner[i];
        assert(k[j] == inner[i]);
    }
}

proof fn lemma_component_stays(inner: Seq<Seq<char>>, i: int)
    requires
        0 <= i < inner.len(),
        is_component_around(inner, i),
    ensures
        crate::vevent::is_kept(inner, i),
{
    let (b, e) = choose|b: int, e: int|
        0 <= b < i < e < inner.len() && crate::ics::line_name(#[trigger] inner[b]) == "BEGIN"@
            && crate::ics::line_name(#[trigger] inner[e]) == "END"@ && crate::text::same_letters(
            crate::ics::line_value(inner[b]),
            crate::ics::line_value(inner[e]),
        ) && forall|k: int|
            b < k < e ==> crate::ics::line_name(#[trigger] inner[k]) != "BEGIN"@
                && crate::ics::line_name(inner[k]) != "END"@;
    let name = crate::ics::line_value(inner[b]);
    lemma_open_at(inner, b, i, name);
    lemma_closed_at(inner, i + 1, e, name);
    assert(crate::vevent::is_within(inner, i, name));
}

proof fn lemma_open_at(inner: Seq<Seq<char>>, b: int, n: int, name: Seq<char>)
    requires
        0 <= b < n <= inner.len(),
        crate::vevent::opens(inner[b], name),
        forall|k: int|
            b < k < n ==> crate::ics::line_name(#[trigger] inner[k]) != "BEGIN"@
                && crate::ics::line_name(inner[k]) != "END"@,
    ensures
        crate::vevent::open_count(inner.take(n), name) > 0,
    decreases n,
{
    assert(inner.take(n).drop_last() =~= inner.take(n - 1));
    assert(inner.take(n).last() == inner[n - 1]);
    if n - 1 > b {
        assert(crate::ics::line_name(inner[n - 1]) != "BEGIN"@);
        lemma_open_at(inner, b, n - 1, name);
    }
}

proof fn lemma_closed_at(inner: Seq<Seq<char>>, n: int, e: int, name: Seq<char>)
    requires
        0 <= n <= e < inner.len(),
        crate::vevent::closes(inner[e], name),
        forall|k: int|
            n <= k < e ==> crate::ics::line_name(#[trigger] inner[k]) != "BEGIN"@
                && crate::ics::line_name(inner[k]) != "END"@,
    ensures
        crate::vevent::closed_count(inner.skip(n), name) > 0,
    decreases e - n,
{
    assert(inner.skip(n).drop_first() =~= inner.skip(n + 1));
    assert(inner.skip(n)[0] == inner[n]);
    if n < e {
        assert(crate::ics::line_name(inner[n]) != "BEGIN"@);
        lemma_closed_at(inner, n + 1, e, name);
    }
}

proof fn lemma_own_go(inner: Seq<Seq<char>>, n: int)
    requires
        0 <= n <= inner.len(),
        forall|i: int| 0 <= i < inner.len() ==> crate::ics::line_name(#[trigger] inner[i])
            != "BEGIN"@,
    ensures
        forall|j: int|
            0 <= j < crate::vevent::kept_among(inner, n).len() ==> !is_span_or_title(
                #[trigger] crate::vevent::kept_among(inner, n)[j],
            ),
    decreases n,
{
    if n > 0 {
        lemma_own_go(inner, n - 1);
        let before = crate::vevent::kept_among(inner, n - 1);
        let k = crate::vevent::kept_among(inner, n);
        if crate::vevent::is_inside(inner, n - 1) {
            let name = choose|name: Seq<char>| #[trigger]
                crate::vevent::is_within(inner, n - 1, name);
            lemma_never_open(inner, n - 1, name);
        }
        assert forall|j: int| 0 <= j < k.len() implies !is_span_or_title(#[trigger] k[j]) by {
            if j < before.len() {
                assert(k[j] == before[j]);
            }
        }
    }
}

proof fn lemma_never_open(inner: Seq<Seq<char>>, n: int, name: Seq<char>)
    requires
        0 <= n <= inner.len(),
        forall|i: int| 0 <= i < n ==> crate::ics::line_name(#[trigger] inner[i]) != "BEGIN"@,
    ensures
        crate::vevent::open_count(inner.take(n), name) == 0,
    decreases n,
{
    if n > 0 {
        lemma_never_open(inner, n - 1, name);
        assert(inner.take(n).drop_last() =~= inner.take(n - 1));
        assert(inner.take(n).last() == inner[n - 1]);
        assert(crate::ics::line_name(inner[n - 1]) != "BEGIN"@);
    }
}

proof fn lemma_never_closed(inner: Seq<Seq<char>>, n: int, name: Seq<char>)
    requires
        0 <= n <= inner.len(),
        forall|i: int|
            n <= i < inner.len() ==> crate::ics::line_name(#[trigger] inner[i]) != "END"@,
    ensures
        crate::vevent::closed_count(inner.skip(n), name) == 0,
    decreases inner.len() - n,
{
    if n < inner.len() {
        lemma_never_closed(inner, n + 1, name);
        assert(inner.skip(n).drop_first() =~= inner.skip(n + 1));
        assert(inner.skip(n)[0] == inner[n]);
        assert(crate::ics::line_name(inner[n]) != "END"@);
    }
}

/// Whether a line neither opens nor closes a component.
pub open spec fn is_plain(line: Seq<char>) -> bool {
    crate::ics::line_name(line) != "BEGIN"@ && crate::ics::line_name(line) != "END"@
}

/// A component inside an event, such as an alarm, stays whole, with its own title and times; of the
/// lines before and behind it the title, the start, the end and the duration of the event go, and
/// all others stay.
pub proof fn law_components_stay_whole(inner: Seq<Seq<char>>, b: int, e: int)
    requires
        0 <= b < e < inner.len(),
        crate::ics::line_name(inner[b]) == "BEGIN"@,
        crate::ics::line_name(inner[e]) == "END"@,
        crate::text::same_letters(
            crate::ics::line_value(inner[b]),
            crate::ics::line_value(inner[e]),
        ),
        forall|k: int| 0 <= k < inner.len() && k != b && k != e ==> is_plain(#[trigger] inner[k]),
    ensures
        ({
            let other = |l: Seq<char>| !is_span_or_title(l);
            crate::vevent::kept(inner) == inner.take(b).filter(other) + inner.subrange(b, e + 1)
                + inner.skip(e + 1).filter(other)
        }),
{
    let n = inner.len() as int;
    lemma_kept_around(inner, b, e, n);
    assert(inner.subrange(e + 1, n) =~= inner.skip(e + 1));
}

proof fn lemma_kept_around(inner: Seq<Seq<char>>, b: int, e: int, n: int)
    requires
        0 <= b < e < n <= inner.len(),
        crate::ics::line_name(inner[b]) == "BEGIN"@,
        crate::ics::line_name(inner[e]) == "END"@,
        crate::text::same_letters(
            crate::ics::line_value(inner[b]),
            crate::ics::line_value(inner[e]),
        ),
        forall|k: int| 0 <= k < inner.len() && k != b && k != e ==> is_plain(#[trigger] inner[k]),
    ensures
        ({
            let other = |l: Seq<char>| !is_span_or_title(l);
            crate::vevent::kept_among(inner, n) == inner.take(b).filter(other) + inner.subrange(
                b,
                e + 1,
            ) + inner.subrange(e + 1, n).filter(other)
        }),
    decreases n,
{
    reveal(Seq::filter);
    let other = |l: Seq<char>| !is_span_or_title(l);
    let front = inner.take(b).filter(other) + inner.subrange(b, e + 1);
    if n == e + 1 {
        lemma_kept_to_end(inner, b, e, n);
        assert(inner.subrange(e + 1, n) =~= Seq::empty());
        assert(front + Seq::<Seq<char>>::empty() =~= front);
    } else {
        lemma_kept_around(inner, b, e, n - 1);
        let i = n - 1;
        assert(is_plain(inner[i]));
        assert(inner.subrange(e + 1, n).drop_last() =~= inner.subrange(e + 1, i));
        assert(inner.subrange(e + 1, n).last() == inner[i]);
        assert forall|k: int| i + 1 <= k < inner.len() implies crate::ics::line_name(
            #[trigger] inner[k],
        ) != "END"@ by {
            assert(is_plain(inner[k]));
        }
        if crate::vevent::is_inside(inner, i) {
            let name = choose|name: Seq<char>| #[trigger] crate::vevent::is_within(inner, i, name);
            lemma_never_closed(inner, i + 1, name);
        }
        let rest = inner.subrange(e + 1, i).filter(other);
        assert((front + rest).push(inner[i]) =~= front + rest.push(inner[i]));
    }
}

proof fn lemma_kept_to_end(inner: Seq<Seq<char>>, b: int, e: int, n: int)
    requires
        0 <= b < e < inner.len(),
        b <= n <= e + 1,
        crate::ics::line_name(inner[b]) == "BEGIN"@,
        crate::ics::line_name(inner[e]) == "END"@,
        crate::text::same_letters(
            crate::ics::line_value(inner[b]),
            crate::ics::line_value(inner[e]),
        ),
        forall|k: int| 0 <= k < inner.len() && k != b && k != e ==> is_plain(#[trigger] inner[k]),
    ensures
        ({
            let other = |l: Seq<char>| !is_span_or_title(l);
            crate::vevent::kept_among(inner, n) == inner.take(b).filter(other) + inner.subrange(
                b,
                n,
            )
        }),
    decreases n,
{
    let other = |l: Seq<char>| !is_span_or_title(l);
    let front = inner.take(b).filter(other);
    if n == b {
        assert forall|k: int| 0 <= k < b implies crate::ics::line_name(#[trigger] inner[k])
            != "BEGIN"@ by {
            assert(is_plain(inner[k]));
        }
        lemma_kept_before(inner, n);
        assert(inner.subrange(b, n) =~= Seq::empty());
        assert(front + Seq::<Seq<char>>::empty() =~= front);
    } else {
        lemma_kept_to_end(inner, b, e, n - 1);
        let i = n - 1;
        reveal_strlit("BEGIN");
        reveal_strlit("END");
        reveal_strlit("SUMMARY");
        reveal_strlit("DTSTART");
        reveal_strlit("DTEND");
        reveal_strlit("DURATION");
        if b < i < e {
            assert(is_component_around(inner, i)) by {
                assert forall|k: int| b < k < e implies crate::ics::line_name(#[trigger] inner[k])
                    != "BEGIN"@ && crate::ics::line_name(inner[k]) != "END"@ by {
                    assert(is_plain(inner[k]));
                }
            }
            lemma_component_stays(inner, i);
        } else if i == b {
            assert("BEGIN"@[0] == 'B');
            assert("SUMMARY"@[0] == 'S' && "DTSTART"@[0] == 'D' && "DTEND"@[0] == 'D'
                && "DURATION"@[0] == 'D');
        } else {
            assert("END"@[0] == 'E');
            assert("SUMMARY"@[0] == 'S' && "DTSTART"@[0] == 'D' && "DTEND"@[0] == 'D'
                && "DURATION"@[0] == 'D');
        }
        assert(crate::vevent::is_kept(inner, i));
        assert((front + inner.subrange(b, i)).push(inner[i]) =~= front + inner.subrange(b, n));
    }
}

proof fn lemma_kept_before(inner: Seq<Seq<char>>, n: int)
    requires
        0 <= n <= inner.len(),
        forall|k: int| 0 <= k < n ==> crate::ics::line_name(#[trigger] inner[k]) != "BEGIN"@,
    ensures
        ({
            let other = |l: Seq<char>| !is_span_or_title(l);
            crate::vevent::kept_among(inner, n) == inner.take(n).filter(other)
        }),
    decreases n,
{
    reveal(Seq::filter);
    if n > 0 {
        lemma_kept_before(inner, n - 1);
        assert(inner.take(n).drop_last() =~= inner.take(n - 1));
        assert(inner.take(n).last() == inner[n - 1]);
        if crate::vevent::is_inside(inner, n - 1) {
            let name = choose|name: Seq<char>| #[trigger]
                crate::vevent::is_within(inner, n - 1, name);
            lemma_never_open(inner, n - 1, name);
        }
    } else {
        assert(inner.take(0) =~= Seq::empty());
    }
}

// ── The requests ──────────────────────────────────────────────────────────

/// Whether a request says that it is to be done only over the version with a tag, and says
/// nothing of versions where the tag is empty.
pub open spec fn is_guarded(r: crate::http::RequestView, etag: Seq<char>) -> bool {
    if etag.len() > 0 {
        r.headers.contains(("If-Match"@, etag))
    } else {
        forall|i: int| 0 <= i < r.headers.len() ==> (#[trigger] r.headers[i]).0 != "If-Match"@
    }
}

/// Storing a new event is refused where something is already there; storing a change, or
/// deleting, is refused where the event is no longer the version with the tag.
pub proof fn law_writes_are_guarded(url: Seq<char>, body: Seq<char>, etag: Seq<char>)
    ensures
        ({
            let r = crate::http::put_view(url, body, None);
            &&& r.method == "PUT"@
            &&& r.url == url
            &&& r.body == Some(body)
            &&& r.headers.contains(("If-None-Match"@, "*"@))
            &&& r.headers.contains(("Content-Type"@, "text/calendar; charset=utf-8"@))
        }),
        ({
            let r = crate::http::put_view(url, body, Some(etag));
            &&& r.method == "PUT"@
            &&& r.url == url
            &&& r.body == Some(body)
            &&& is_guarded(r, etag)
            &&& r.headers.contains(("Content-Type"@, "text/calendar; charset=utf-8"@))
        }),
        ({
            let r = crate::http::delete_view(url, etag);
            &&& r.method == "DELETE"@
            &&& r.url == url
            &&& r.body is None
            &&& is_guarded(r, etag)
        }),
        forall|method: Seq<char>|
            {
                let r = #[trigger] crate::push::write_view(method, url, body, etag);
                &&& r.method == method
                &&& r.url == url
                &&& r.body == Some(body)
                &&& is_guarded(r, etag)
                &&& r.headers.contains(("Content-Type"@, "application/json"@))
            },
{
    reveal_strlit("If-Match");
    reveal_strlit("Content-Type");
    assert("If-Match"@.len() == 8 && "Content-Type"@.len() == 12);
    let a = crate::http::put_view(url, body, None).headers;
    assert(a[0] == ("Content-Type"@, "text/calendar; charset=utf-8"@));
    assert(a[1] == ("If-None-Match"@, "*"@));
    let b = crate::http::put_view(url, body, Some(etag)).headers;
    assert(b[0] == ("Content-Type"@, "text/calendar; charset=utf-8"@));
    let c = crate::http::delete_view(url, etag).headers;
    if etag.len() > 0 {
        assert(b[1] == ("If-Match"@, etag));
        assert(c[0] == ("If-Match"@, etag));
    }
    assert forall|method: Seq<char>|
        {
            let r = #[trigger] crate::push::write_view(method, url, body, etag);
            &&& r.method == method
            &&& r.url == url
            &&& r.body == Some(body)
            &&& is_guarded(r, etag)
            &&& r.headers.contains(("Content-Type"@, "application/json"@))
        } by {
        let d = crate::push::write_view(method, url, body, etag).headers;
        assert(d[0] == ("Content-Type"@, "application/json"@));
        if etag.len() > 0 {
            assert(d[1] == ("If-Match"@, etag));
        }
    }
}

/// A status says that a request succeeded exactly from 200 on and below 300.
pub proof fn law_success(status: u16)
    ensures
        crate::http::succeeded(status) <==> status / 100 == 2,
{
}

/// A created event goes by its iCalendar identity, or else by its id, at its address, with the tag
/// it was given; without an id or an address it is none.
pub proof fn law_created_events_are_identified(
    id: Option<Seq<char>>,
    address: Option<Seq<char>>,
    uid: Option<Seq<char>>,
    etag: Option<Seq<char>>,
)
    ensures
        match crate::push::created_event(id, address, uid, etag) {
            Ok((u, url, tag)) => {
                &&& id is Some
                &&& address == Some(url)
                &&& uid is Some ==> u == uid->0
                &&& uid is None ==> u == id->0
                &&& etag is Some ==> tag == etag->0
                &&& etag is None ==> tag.len() == 0
            },
            Err(e) => {
                &&& id is None || address is None
                &&& e == if id is None {
                    crate::google::GoogleError::NoId
                } else {
                    crate::google::GoogleError::BadUrl
                }
            },
        },
{
}

/// A reply of the service is its text where the service succeeded and the text is JSON; it is
/// nothing where there is none; else it is an error that says the method, the address and what
/// went wrong.
pub proof fn law_replies_of_the_service(
    method: Seq<char>,
    url: Seq<char>,
    status: u16,
    status_text: Seq<char>,
    text: Seq<char>,
    fault: Option<Seq<char>>,
)
    ensures
        ({
            let empty = crate::text::trimmed(text).len() == 0;
            match crate::push::reply_of(method, url, status, status_text, text, fault) {
                Ok(t) => {
                    &&& status / 100 == 2
                    &&& status == 204 || empty ==> t == "null"@
                    &&& status != 204 && !empty ==> t == text && fault is None
                },
                Err(e) => {
                    &&& status != 204
                    &&& method.is_prefix_of(e)
                    &&& status / 100 != 2 || (fault is Some && !empty)
                    &&& status / 100 != 2 ==> e == method + " "@ + url + ": HTTP "@ + status_text
                        + " "@ + text
                    &&& status / 100 == 2 ==> e == method + " "@ + url + ": bad JSON: "@ + fault->0
                },
            }
        }),
{
    let r = crate::push::reply_of(method, url, status, status_text, text, fault);
    if let Err(e) = r {
        assert(e.take(method.len() as int) =~= method);
    }
}

/// There is a token exactly where the reply is JSON, the grant was not refused, and the reply
/// holds one.
pub proof fn law_tokens(status: u16, fault: Option<Seq<char>>, token: Option<Seq<char>>)
    ensures
        match crate::push::token_of(status, fault, token) {
            Ok(t) => fault is None && status / 100 == 2 && token == Some(t),
            Err(crate::push::TokenError::BadJson) => fault is Some,
            Err(crate::push::TokenError::Refused) => fault is None && status / 100 != 2,
            Err(crate::push::TokenError::NoToken) => fault is None && status / 100 == 2
                && token is None,
        },
{
}

/// What is sent to Google of a record: its title, and its day and the day after, or the instant at
/// which the clocks show its start and the one an hour later, each as the clocks show it.
pub proof fn law_bodies(r: RecordView, body: Seq<char>)
    requires
        crate::google::is_google_body(r, body),
    ensures
        crate::when::record_when(r) is Ok,
        exists|key: Seq<char>, start: Seq<char>, end: Seq<char>|
            is_body(body, r.title, key, start, end) && #[trigger] are_ends(r, key, start, end),
{
    match crate::when::record_when(r)->Ok_0 {
        (date, None) => {
            let next = crate::date::next_date(date);
            if crate::date::valid_date(date) {
                crate::date::lemma_next_date(date);
            }
            let (a, b) = (crate::date::date_text(date), crate::date::date_text(next));
            lemma_body(r.title, "date"@, a, b);
            assert(are_ends(r, "date"@, a, b));
        },
        (_, Some(_)) => {
            let local = crate::when::record_start(r)->Ok_0;
            let span = choose|span: Span| #[trigger]
                crate::when::spans(span, local) && crate::google::is_timed_body(
                    body,
                    r.title,
                    local,
                    span,
                );
            let end = choose|end: Seq<char>| #[trigger]
                crate::google::writes_instant(span.end, span.end_offset as int, end) && body
                    == crate::google::body_text(
                    r.title,
                    "dateTime"@,
                    crate::date::rfc3339_text(local, span.start_offset as int),
                    end,
                );
            let start = crate::date::rfc3339_text(local, span.start_offset as int);
            lemma_body(r.title, "dateTime"@, start, end);
            law_records_take_an_hour(span, local);
            assert forall|m: Moment| #[trigger] crate::date::valid_moment(m)
                && crate::date::second_number(m) == crate::date::second_number(span.end)
                + span.end_offset implies end == crate::date::rfc3339_text(
                m,
                span.end_offset as int,
            ) by {
                assert(crate::google::reads(span.end, span.end_offset as int, m));
            }
            assert(is_timed_end(r, span, start, end));
            assert(are_ends(r, "dateTime"@, start, end));
        },
    }
}

/// Whether a text is a JSON object with a title, a start and an end, these as objects with one
/// member.
pub open spec fn is_body(
    body: Seq<char>,
    title: Seq<char>,
    key: Seq<char>,
    start: Seq<char>,
    end: Seq<char>,
) -> bool {
    body == "{\"end\":{\""@ + key + "\":"@ + crate::json::json_quoted(end) + "},\"start\":{\""@ + key
        + "\":"@ + crate::json::json_quoted(start) + "},\"summary\":"@ + crate::json::json_quoted(
        title,
    ) + "}"@
}

/// Whether texts are the start and the end of a record, as dates or as instants.
pub open spec fn are_ends(r: RecordView, key: Seq<char>, start: Seq<char>, end: Seq<char>) -> bool {
    match crate::when::record_when(r)->Ok_0 {
        (date, None) => key == "date"@ && start == crate::date::date_text(date) && exists|
            next: Date,
        |
            (crate::date::valid_date(date) ==> crate::date::valid_date(next)
                && crate::date::day_number(next) == crate::date::day_number(date) + 1) && end
                == #[trigger] crate::date::date_text(next),
        (_, Some(_)) => key == "dateTime"@ && exists|span: Span| #[trigger]
            is_timed_end(r, span, start, end),
    }
}

/// Whether texts are the start and the end of a timed record as clocks show them.
pub open spec fn is_timed_end(r: RecordView, span: Span, start: Seq<char>, end: Seq<char>) -> bool {
    &&& crate::when::record_start(r) matches Ok(local)
    &&& -86400 < span.start_offset < 86400
    &&& crate::date::second_number(span.start) + span.start_offset == crate::date::second_number(
        local,
    )
    &&& crate::date::second_number(span.end) == crate::date::second_number(span.start) + 3600
    &&& start == crate::date::rfc3339_text(local, span.start_offset as int)
    &&& forall|m: Moment| #[trigger]
        crate::date::valid_moment(m) && crate::date::second_number(m)
            == crate::date::second_number(span.end) + span.end_offset ==> end
            == crate::date::rfc3339_text(m, span.end_offset as int)
}

proof fn lemma_body(title: Seq<char>, key: Seq<char>, start: Seq<char>, end: Seq<char>)
    ensures
        is_body(crate::google::body_text(title, key, start, end), title, key, start, end),
{
}

// ── What cannot be sent ───────────────────────────────────────────────────

/// A record is not sent because of its date where it has none; because of its time where that is
/// no hour and minute of a day; and because of the calendar's end only where it takes the last day
/// of the calendar, or may end behind it. The clocks can stand in the way of a timed record alone.
pub proof fn law_what_cannot_be_sent(r: RecordView, e: RecordError)
    requires
        crate::when::fails_with(r, e),
    ensures
        e == RecordError::BadDate <==> crate::date::date_read(r.date) is None,
        e == RecordError::BadTime <==> crate::date::date_read(r.date) is Some && r.time is Some
            && forall|h: u32, m: u32| h < 24 && m < 60 ==> !#[trigger] is_clock(r.time->0, h, m),
        e == RecordError::SkippedTime ==> r.time is Some,
        e == RecordError::OutOfRange ==> {
            let date = crate::date::date_read(r.date)->0;
            let last = crate::date::day_number(crate::date::max_date());
            &&& crate::date::date_read(r.date) is Some
            &&& r.time is None ==> crate::date::day_number(date) == last
            &&& r.time is Some ==> crate::when::record_start(r) is Ok
                && crate::date::second_number(crate::when::record_start(r)->Ok_0) + 86400 + 3600 > (
            last + 1) * 86400
        },
        e != RecordError::NoEvent,
{
    law_records_say_when(r);
    law_records_start(r);
    if let Some(t) = r.time {
        lemma_clock(t);
        lemma_one_clock(t);
    }
}

/// A text is the hour and the minute of at most one time.
proof fn lemma_one_clock(t: Seq<char>)
    ensures
        forall|h: u32, m: u32| #[trigger]
            is_clock(t, h, m) ==> crate::when::clock_read(t) == Some((h, m)),
{
    assert forall|h: u32, m: u32| #[trigger] is_clock(t, h, m) implies crate::when::clock_read(t)
        == Some((h, m)) by {
        let j = choose|j: int|
            0 <= j < t.len() && #[trigger] t[j] == ':' && (forall|i: int|
                0 <= i < j ==> t[i] != ':') && crate::text::number(t.take(j)) == Some(h)
                && crate::text::number(t.skip(j + 1)) == Some(m);
        crate::text::lemma_find_is(t, ':', j);
    }
}

/// A record can be sent, as far as the record goes, exactly where it has a date with a day after
/// it, or a date and an hour and a minute of a day.
pub proof fn law_what_may_be_sent(r: RecordView)
    ensures
        crate::when::may_be_sent(r) <==> crate::date::date_read(r.date) is Some && match r.time {
            None => crate::date::date_read(r.date)->0 != crate::date::max_date(),
            Some(t) => exists|h: u32, m: u32| h < 24 && m < 60 && #[trigger] is_clock(t, h, m),
        },
{
    law_records_say_when(r);
    law_records_start(r);
    if let Some(t) = r.time {
        lemma_clock(t);
        lemma_one_clock(t);
    }
}

// ── What is sent ──────────────────────────────────────────────────────────

/// Whether lines say when a record is, in two of them, and what it is.
pub open spec fn say_record(
    lines: Seq<Seq<char>>,
    r: RecordView,
    span: (Seq<char>, Seq<char>),
) -> bool {
    &&& crate::vevent::are_span_lines(r, span)
    &&& lines.contains(span.0)
    &&& lines.contains(span.1)
    &&& lines.contains("SUMMARY:"@ + crate::ics::escaped(r.title))
}

/// What is sent to create an event are lines that say its identity and when and what the record
/// is.
pub proof fn law_created_event_says_the_record(uid: Seq<char>, r: RecordView, text: Seq<char>)
    requires
        crate::push::is_new_event(uid, r, text),
    ensures
        exists|lines: Seq<Seq<char>>, span: (Seq<char>, Seq<char>)|
            text == crate::vevent::lines_text(lines) && #[trigger] say_record(lines, r, span)
                && lines.contains("UID:"@ + uid),
{
    let (now, span) = choose|now: Moment, span: (Seq<char>, Seq<char>)|
        crate::date::valid_moment(now) && crate::vevent::are_span_lines(r, span) && text
            == crate::vevent::lines_text(
            #[trigger] crate::vevent::new_event_lines(uid, now, span, r.title),
        );
    let lines = crate::vevent::new_event_lines(uid, now, span, r.title);
    assert(lines[4] == "UID:"@ + uid);
    assert(lines[7] == span.0);
    assert(lines[8] == span.1);
    assert(lines[9] == "SUMMARY:"@ + crate::ics::escaped(r.title));
    assert(say_record(lines, r, span));
}

/// What is sent to change an event are the lines that the server had, changed to say when and what
/// the record is.
pub proof fn law_changed_event_says_the_record(
    lines: Seq<Seq<char>>,
    r: RecordView,
    text: Seq<char>,
)
    requires
        crate::push::is_changed_event(lines, r, text),
    ensures
        exists|out: Seq<Seq<char>>, span: (Seq<char>, Seq<char>)|
            text == crate::vevent::lines_text(out) && #[trigger] say_record(out, r, span)
                && crate::vevent::patched_lines(lines, r.title, span) == Some(out),
{
    let span = choose|span: (Seq<char>, Seq<char>)|
        crate::vevent::are_span_lines(r, span) && #[trigger] crate::vevent::patched_lines(
            lines,
            r.title,
            span,
        ) is Some && text == crate::vevent::lines_text(
            crate::vevent::patched_lines(lines, r.title, span)->0,
        );
    let out = crate::vevent::patched_lines(lines, r.title, span)->0;
    let begin = crate::vevent::event_start(lines);
    let body = lines.skip(begin + 1);
    let end = crate::vevent::event_end(body);
    crate::patch_laws::lemma_event_start(lines);
    crate::patch_laws::lemma_event_end(body);
    let front = lines.take(begin + 1) + crate::vevent::kept(body.take(end));
    let n = front.len() as int;
    assert(out[n] == "SUMMARY:"@ + crate::ics::escaped(r.title));
    assert(out[n + 1] == span.0);
    assert(out[n + 2] == span.1);
    assert(say_record(out, r, span));
}

} // verus!
