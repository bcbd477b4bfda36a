//! Records written as iCalendar events.
use vstd::prelude::*;

use crate::date::{plus_days, utc_now, write_compact, write_stamp, Date, Moment};
use crate::ics::{escape_text, prop_name, split_content_line};
use crate::record::EventRecord;
use crate::text::{eq_ignore_case, text_eq};
use crate::when::{parse_record_time, record_span, RecordError};

verus! {

/// Lines, each ended by a carriage return and a line feed.
pub open spec fn lines_text(lines: Seq<Seq<char>>) -> Seq<char>
    decreases lines.len(),
{
    if lines.len() == 0 {
        Seq::empty()
    } else {
        lines_text(lines.drop_last()) + lines.last() + seq!['\r', '\n']
    }
}

/// Writes lines, each ended by a carriage return and a line feed.
fn write_lines(lines: &Vec<String>) -> (text: String)
    ensures
        text@ == lines_text(crate::text::texts(lines@)),
{
    let ghost all = crate::text::texts(lines@);
    let mut text = String::new();
    let mut i: usize = 0;
    while i < lines.len()
        invariant
            all == crate::text::texts(lines@),
            i <= lines@.len(),
            text@ == lines_text(all.take(i as int)),
        decreases lines@.len() - i,
    {
        assert(all.take(i + 1).drop_last() =~= all.take(i as int));
        let ghost before = text@;
        text.append(lines[i].as_str());
        text.push('\r');
        text.push('\n');
        assert(text@ =~= before + all[i as int] + seq!['\r', '\n']);
        i = i + 1;
    }
    assert(all.take(i as int) =~= all);
    text
}

// ── The span of a record ──────────────────────────────────────────────────

/// The lines for a whole day and the day after it.
pub open spec fn day_lines(date: Date, next: Date) -> (Seq<char>, Seq<char>) {
    (
        "DTSTART;VALUE=DATE:"@ + crate::date::compact_text(date),
        "DTEND;VALUE=DATE:"@ + crate::date::compact_text(next),
    )
}

/// The lines for a start and an end in UTC.
pub open spec fn instant_lines(start: Moment, end: Moment) -> (Seq<char>, Seq<char>) {
    (
        "DTSTART:"@ + crate::date::stamp_text(start) + seq!['Z'],
        "DTEND:"@ + crate::date::stamp_text(end) + seq!['Z'],
    )
}

/// Whether two lines are the start and the end of a record: of the whole day, where it has no
/// time, with the end on the day after; else from the instant at which the clocks here show
/// the time.
pub open spec fn are_span_lines(
    r: crate::record::RecordView,
    lines: (Seq<char>, Seq<char>),
) -> bool {
    match crate::when::record_when(r) {
        Err(_) => false,
        Ok((date, None)) => {
            &&& date != crate::date::max_date()
            &&& lines == day_lines(date, crate::date::next_date(date))
        },
        Ok((date, Some(_))) => exists|span: crate::when::Span| #[trigger]
            crate::when::spans(span, crate::when::record_start(r)->Ok_0) && lines == instant_lines(
                span.start,
                span.end,
            ) && crate::when::record_start(r) is Ok,
    }
}

/// Writes the lines for a start and an end in UTC.
pub fn write_instants(start: Moment, end: Moment) -> (lines: (String, String))
    requires
        crate::date::valid_moment(start),
        crate::date::valid_moment(end),
    ensures
        (lines.0@, lines.1@) == instant_lines(start, end),
{
    let mut a = "DTSTART:".to_owned();
    a.append(write_stamp(start).as_str());
    a.push('Z');
    let mut b = "DTEND:".to_owned();
    b.append(write_stamp(end).as_str());
    b.push('Z');
    assert(a@ =~= instant_lines(start, end).0);
    assert(b@ =~= instant_lines(start, end).1);
    (a, b)
}

/// The `DTSTART` and `DTEND` lines of a record: in UTC for a timed one; for a whole day as
/// dates, with the end on the day after.
pub fn ics_span(r: &EventRecord) -> (lines: Result<(String, String), RecordError>)
    ensures
        match lines {
            Ok((start, end)) => are_span_lines(r@, (start@, end@)),
            Err(e) => crate::when::fails_with(r@, e),
        },
{
    let (date, time) = match parse_record_time(r) {
        Err(e) => return Err(e),
        Ok(w) => w,
    };
    if time.is_some() {
        return match record_span(r) {
            Err(e) => Err(e),
            Ok(span) => Ok(write_instants(span.start, span.end)),
        };
    }
    proof {
        crate::date::lemma_number_bounds(date);
        crate::date::lemma_next_date(date);
        crate::date::lemma_numbers_in_order(date, crate::date::max_date());
    }
    match plus_days(date, 1) {
        None => Err(RecordError::OutOfRange),
        Some(next) => {
            proof {
                crate::date::lemma_number_bounds(next);
                crate::date::lemma_numbers_in_order(next, crate::date::next_date(date));
            }
            let mut a = "DTSTART;VALUE=DATE:".to_owned();
            a.append(write_compact(date).as_str());
            let mut b = "DTEND;VALUE=DATE:".to_owned();
            b.append(write_compact(next).as_str());
            Ok((a, b))
        },
    }
}

// ── A new event ───────────────────────────────────────────────────────────

/// The lines of a calendar with one event.
pub open spec fn new_event_lines(
    uid: Seq<char>,
    now: Moment,
    span: (Seq<char>, Seq<char>),
    title: Seq<char>,
) -> Seq<Seq<char>> {
    let stamp = crate::date::stamp_text(now) + seq!['Z'];
    seq![
        "BEGIN:VCALENDAR"@,
        "VERSION:2.0"@,
        "PRODID:-//cce//cce-calendar-sync//EN"@,
        "BEGIN:VEVENT"@,
        "UID:"@ + uid,
        "DTSTAMP:"@ + stamp,
        "CREATED:"@ + stamp,
        span.0,
        span.1,
        "SUMMARY:"@ + crate::ics::escaped(title),
        "END:VEVENT"@,
        "END:VCALENDAR"@,
    ]
}

/// A line of a property and its value.
fn property(start: &str, value: &str) -> (line: String)
    ensures
        line@ == start@ + value@,
{
    let mut line = start.to_owned();
    line.append(value);
    line
}

/// Writes a calendar with one event, given the time it is and the lines of the span.
pub fn write_new_event(
    uid: &str,
    now: Moment,
    dtstart: String,
    dtend: String,
    title: &str,
) -> (text: String)
    requires
        crate::date::valid_moment(now),
    ensures
        text@ == lines_text(new_event_lines(uid@, now, (dtstart@, dtend@), title@)),
{
    let mut stamp = write_stamp(now);
    stamp.push('Z');
    let ghost wanted = new_event_lines(uid@, now, (dtstart@, dtend@), title@);
    assert(stamp@ =~= crate::date::stamp_text(now) + seq!['Z']);
    let mut lines: Vec<String> = Vec::new();
    lines.push("BEGIN:VCALENDAR".to_owned());
    lines.push("VERSION:2.0".to_owned());
    lines.push("PRODID:-//cce//cce-calendar-sync//EN".to_owned());
    lines.push("BEGIN:VEVENT".to_owned());
    lines.push(property("UID:", uid));
    lines.push(property("DTSTAMP:", stamp.as_str()));
    lines.push(property("CREATED:", stamp.as_str()));
    lines.push(dtstart);
    lines.push(dtend);
    lines.push(property("SUMMARY:", escape_text(title).as_str()));
    lines.push("END:VEVENT".to_owned());
    lines.push("END:VCALENDAR".to_owned());
    assert(crate::text::texts(lines@) =~= wanted);
    write_lines(&lines)
}

/// Writes a record as a new event. The time it is stands in the text as its stamp.
pub fn new_vevent(uid: &str, r: &EventRecord) -> (text: Result<String, RecordError>)
    ensures
        match text {
            Ok(text) => exists|now: Moment, span: (Seq<char>, Seq<char>)|
                crate::date::valid_moment(now) && are_span_lines(r@, span) && text@ == lines_text(
                    #[trigger] new_event_lines(uid@, now, span, r@.title),
                ),
            Err(e) => crate::when::fails_with(r@, e),
        },
{
    let now = utc_now();
    match ics_span(r) {
        Err(e) => Err(e),
        Ok((dtstart, dtend)) => {
            let ghost span = (dtstart@, dtend@);
            let text = write_new_event(uid, now, dtstart, dtend, r.title.as_str());
            assert(text@ == lines_text(new_event_lines(uid@, now, span, r@.title)));
            Ok(text)
        },
    }
}

// ── Changing an event ─────────────────────────────────────────────────────

/// The place of the first line that opens an event, or the number of lines.
pub open spec fn event_start(lines: Seq<Seq<char>>) -> int
    decreases lines.len(),
{
    if lines.len() == 0 || crate::ics::begins_event(lines[0]) {
        0
    } else {
        1 + event_start(lines.drop_first())
    }
}

/// The place of the first line that closes an event, or the number of lines.
pub open spec fn event_end(lines: Seq<Seq<char>>) -> int
    decreases lines.len(),
{
    if lines.len() == 0 || crate::ics::ends_event(lines[0]) {
        0
    } else {
        1 + event_end(lines.drop_first())
    }
}

/// Whether a line opens a component with a name.
pub open spec fn opens(line: Seq<char>, name: Seq<char>) -> bool {
    crate::ics::line_name(line) == "BEGIN"@ && crate::text::same_letters(
        crate::ics::line_value(line),
        name,
    )
}

/// Whether a line closes a component with a name.
pub open spec fn closes(line: Seq<char>, name: Seq<char>) -> bool {
    crate::ics::line_name(line) == "END"@ && crate::text::same_letters(
        crate::ics::line_value(line),
        name,
    )
}

/// How many components with a name are open behind lines.
pub open spec fn open_count(lines: Seq<Seq<char>>, name: Seq<char>) -> nat
    decreases lines.len(),
{
    if lines.len() == 0 {
        0
    } else {
        let n = open_count(lines.drop_last(), name);
        if opens(lines.last(), name) {
            n + 1
        } else if closes(lines.last(), name) && n > 0 {
            (n - 1) as nat
        } else {
            n
        }
    }
}

/// How many components with a name that are open before lines the lines can close.
pub open spec fn closed_count(lines: Seq<Seq<char>>, name: Seq<char>) -> nat
    decreases lines.len(),
{
    if lines.len() == 0 {
        0
    } else {
        let n = closed_count(lines.drop_first(), name);
        if closes(lines[0], name) {
            n + 1
        } else if opens(lines[0], name) && n > 0 {
            (n - 1) as nat
        } else {
            n
        }
    }
}

/// Whether a component with a name is open before a place among lines and is closed behind it.
pub open spec fn is_within(inner: Seq<Seq<char>>, i: int, name: Seq<char>) -> bool {
    open_count(inner.take(i), name) > 0 && closed_count(inner.skip(i + 1), name) > 0
}

/// Whether a line inside an event stands inside an inner component, such as an alarm: one that is
/// opened before it and closed behind it. One that is never closed is none.
pub open spec fn is_inside(inner: Seq<Seq<char>>, i: int) -> bool {
    exists|name: Seq<char>| #[trigger] is_within(inner, i, name)
}

/// Whether a property is replaced when an event is changed.
pub open spec fn is_replaced(name: Seq<char>) -> bool {
    name == "SUMMARY"@ || name == "DTSTART"@ || name == "DTEND"@ || name == "DURATION"@
}

/// Whether a line inside an event stays when the event is changed.
pub open spec fn is_kept(inner: Seq<Seq<char>>, i: int) -> bool {
    is_inside(inner, i) || !is_replaced(crate::ics::line_name(inner[i]))
}

/// Those of the first `n` lines inside an event that stay, in order.
pub open spec fn kept_among(inner: Seq<Seq<char>>, n: int) -> Seq<Seq<char>>
    decreases n,
{
    if n <= 0 {
        Seq::empty()
    } else if is_kept(inner, n - 1) {
        kept_among(inner, n - 1).push(inner[n - 1])
    } else {
        kept_among(inner, n - 1)
    }
}

/// The lines inside an event without the properties of its own that are replaced. What
/// stands inside an inner component, such as an alarm, is not touched.
pub open spec fn kept(inner: Seq<Seq<char>>) -> Seq<Seq<char>> {
    kept_among(inner, inner.len() as int)
}

/// The lines with the first event changed to a new title and span; none when no event is
/// opened and closed.
pub open spec fn patched_lines(
    lines: Seq<Seq<char>>,
    title: Seq<char>,
    span: (Seq<char>, Seq<char>),
) -> Option<Seq<Seq<char>>> {
    let begin = event_start(lines);
    if begin >= lines.len() {
        None
    } else {
        let body = lines.skip(begin + 1);
        let end = event_end(body);
        if end >= body.len() {
            None
        } else {
            Some(
                lines.take(begin + 1) + kept(body.take(end)) + seq![
                    "SUMMARY:"@ + crate::ics::escaped(title),
                    span.0,
                    span.1,
                ] + body.skip(end),
            )
        }
    }
}

/// Whether a line has the given name and is about an event.
fn is_event_line(line: &str, name: &str) -> (r: bool)
    requires
        name@.len() > 0,
    ensures
        r == (crate::ics::line_name(line@) == name@ && crate::text::same_letters(
            crate::ics::line_value(line@),
            "VEVENT"@,
        )),
{
    match split_content_line(line) {
        None => false,
        Some((_, value)) => text_eq(prop_name(line).as_str(), name) && eq_ignore_case(
            value,
            "VEVENT",
        ),
    }
}

/// The place of the first line from `from` on that opens or closes an event.
fn find_event_line(lines: &Vec<String>, from: usize, opening: bool) -> (at: usize)
    requires
        from <= lines@.len(),
    ensures
        from <= at <= lines@.len(),
        opening ==> at == from + event_start(crate::text::texts(lines@).skip(from as int)),
        !opening ==> at == from + event_end(crate::text::texts(lines@).skip(from as int)),
{
    let ghost all = crate::text::texts(lines@);
    let name = if opening {
        "BEGIN"
    } else {
        "END"
    };
    proof {
        reveal_strlit("BEGIN");
        reveal_strlit("END");
    }
    let mut at: usize = from;
    while at < lines.len()
        invariant
            all == crate::text::texts(lines@),
            from <= at <= lines@.len(),
            name@.len() > 0,
            name@ == (if opening {
                "BEGIN"@
            } else {
                "END"@
            }),
            opening ==> event_start(all.skip(from as int)) == at - from + event_start(
                all.skip(at as int),
            ),
            !opening ==> event_end(all.skip(from as int)) == at - from + event_end(
                all.skip(at as int),
            ),
        decreases lines@.len() - at,
    {
        assert(all.skip(at as int).drop_first() =~= all.skip(at + 1));
        assert(all.skip(at as int)[0] == lines@[at as int]@);
        if is_event_line(lines[at].as_str(), name) {
            return at;
        }
        at = at + 1;
    }
    at
}

/// Names that differ at most in case name the same components.
proof fn lemma_same_name(lines: Seq<Seq<char>>, a: Seq<char>, b: Seq<char>)
    requires
        crate::text::same_letters(a, b),
    ensures
        open_count(lines, a) == open_count(lines, b),
        closed_count(lines, a) == closed_count(lines, b),
    decreases lines.len(),
{
    if lines.len() > 0 {
        lemma_same_name(lines.drop_last(), a, b);
        lemma_same_name(lines.drop_first(), a, b);
    }
}

/// What is open was opened.
proof fn lemma_was_opened(lines: Seq<Seq<char>>, name: Seq<char>)
    requires
        open_count(lines, name) > 0,
    ensures
        exists|b: int| 0 <= b < lines.len() && opens(#[trigger] lines[b], name),
    decreases lines.len(),
{
    let last = lines.len() - 1;
    if opens(lines[last], name) {
    } else {
        lemma_was_opened(lines.drop_last(), name);
        let b = choose|b: int|
            0 <= b < lines.drop_last().len() && opens(#[trigger] lines.drop_last()[b], name);
        assert(lines[b] == lines.drop_last()[b]);
    }
}

/// Whether a line opens or closes a component with a name.
fn is_component_line(line: &str, word: &str, name: &str) -> (r: bool)
    requires
        word@.len() > 0,
    ensures
        r == (crate::ics::line_name(line@) == word@ && crate::text::same_letters(
            crate::ics::line_value(line@),
            name@,
        )),
{
    match split_content_line(line) {
        None => false,
        Some((_, value)) => text_eq(prop_name(line).as_str(), word) && eq_ignore_case(value, name),
    }
}

/// How many components with a name are open behind some of the lines.
fn count_open(lines: &Vec<String>, from: usize, to: usize, name: &str) -> (n: usize)
    requires
        from <= to <= lines@.len(),
    ensures
        n == open_count(crate::text::texts(lines@).subrange(from as int, to as int), name@),
{
    let ghost all = crate::text::texts(lines@);
    proof {
        reveal_strlit("BEGIN");
        reveal_strlit("END");
    }
    let mut n: usize = 0;
    let mut i: usize = from;
    while i < to
        invariant
            all == crate::text::texts(lines@),
            from <= i <= to <= lines@.len(),
            "BEGIN"@.len() > 0,
            "END"@.len() > 0,
            n == open_count(all.subrange(from as int, i as int), name@),
            n <= i - from,
        decreases to - i,
    {
        let ghost longer = all.subrange(from as int, i + 1);
        assert(longer.drop_last() =~= all.subrange(from as int, i as int));
        assert(longer.last() == lines@[i as int]@);
        let line = lines[i].as_str();
        if is_component_line(line, "BEGIN", name) {
            n = n + 1;
        } else if n > 0 && is_component_line(line, "END", name) {
            n = n - 1;
        }
        i = i + 1;
    }
    n
}

/// How many components with a name that are open before some of the lines these can close.
fn count_closed(lines: &Vec<String>, from: usize, to: usize, name: &str) -> (n: usize)
    requires
        from <= to <= lines@.len(),
    ensures
        n == closed_count(crate::text::texts(lines@).subrange(from as int, to as int), name@),
{
    let ghost all = crate::text::texts(lines@);
    proof {
        reveal_strlit("BEGIN");
        reveal_strlit("END");
    }
    let mut n: usize = 0;
    let mut i: usize = to;
    while i > from
        invariant
            all == crate::text::texts(lines@),
            from <= i <= to <= lines@.len(),
            "BEGIN"@.len() > 0,
            "END"@.len() > 0,
            n == closed_count(all.subrange(i as int, to as int), name@),
            n <= to - i,
        decreases i - from,
    {
        let ghost longer = all.subrange(i - 1, to as int);
        assert(longer.drop_first() =~= all.subrange(i as int, to as int));
        assert(longer[0] == lines@[i - 1]@);
        let line = lines[i - 1].as_str();
        if is_component_line(line, "END", name) {
            n = n + 1;
        } else if n > 0 && is_component_line(line, "BEGIN", name) {
            n = n - 1;
        }
        i = i - 1;
    }
    n
}

/// Whether a line inside an event, whose lines are some of those given, stands inside an inner
/// component.
fn stands_inside(lines: &Vec<String>, from: usize, to: usize, at: usize) -> (r: bool)
    requires
        from <= at < to <= lines@.len(),
    ensures
        r == is_inside(
            crate::text::texts(lines@).subrange(from as int, to as int),
            at - from,
        ),
{
    let ghost all = crate::text::texts(lines@);
    let ghost inner = all.subrange(from as int, to as int);
    let ghost k = at - from;
    assert(inner.take(k) =~= all.subrange(from as int, at as int));
    assert(inner.skip(k + 1) =~= all.subrange(at + 1, to as int));
    let mut b: usize = from;
    while b < at
        invariant
            all == crate::text::texts(lines@),
            inner == all.subrange(from as int, to as int),
            k == at - from,
            from <= b <= at < to <= lines@.len(),
            inner.take(k) == all.subrange(from as int, at as int),
            inner.skip(k + 1) == all.subrange(at + 1, to as int),
            forall|c: int|
                from <= c < b && crate::ics::line_name(#[trigger] all[c]) == "BEGIN"@
                    ==> !is_within(inner, k, crate::ics::line_value(all[c])),
        decreases at - b,
    {
        assert(all[b as int] == lines@[b as int]@);
        proof {
            reveal_strlit("BEGIN");
            assert("BEGIN"@.len() == 5);
        }
        if let Some((_, name)) = split_content_line(lines[b].as_str()) {
            if text_eq(prop_name(lines[b].as_str()).as_str(), "BEGIN") {
                let open = count_open(lines, from, at, name);
                let closed = count_closed(lines, at + 1, to, name);
                if open > 0 && closed > 0 {
                    assert(is_within(inner, k, name@));
                    return true;
                }
            }
        }
        b = b + 1;
    }
    proof {
        if is_inside(inner, k) {
            let name = choose|name: Seq<char>| #[trigger] is_within(inner, k, name);
            lemma_was_opened(inner.take(k), name);
            let c = choose|c: int|
                0 <= c < inner.take(k).len() && opens(#[trigger] inner.take(k)[c], name);
            let value = crate::ics::line_value(all[from + c]);
            assert(inner.take(k)[c] == all[from + c]);
            lemma_same_name(inner.take(k), name, value);
            lemma_same_name(inner.skip(k + 1), name, value);
            assert(is_within(inner, k, value));
        }
    }
    false
}

/// Puts a copy of a line behind others.
fn push_copy(out: &mut Vec<String>, line: &String)
    ensures
        crate::text::texts(final(out)@) == crate::text::texts(old(out)@).push(line@),
{
    out.push(line.clone());
    assert(crate::text::texts(out@) =~= crate::text::texts(old(out)@).push(line@));
}

/// Rewrites only the summary, the start and the end of the first event, and drops a duration,
/// which the end supersedes. Every other property and every inner component, such as an
/// alarm, stays as it is.
pub fn patch_lines(
    lines: &Vec<String>,
    title: &str,
    dtstart: &str,
    dtend: &str,
) -> (text: Result<String, RecordError>)
    ensures
        match patched_lines(crate::text::texts(lines@), title@, (dtstart@, dtend@)) {
            Some(out) => text matches Ok(t) && t@ == lines_text(out),
            None => text == Err::<String, RecordError>(RecordError::NoEvent),
        },
{
    let ghost all = crate::text::texts(lines@);
    assert(all.skip(0) =~= all);
    let begin = find_event_line(lines, 0, true);
    if begin == lines.len() {
        return Err(RecordError::NoEvent);
    }
    let end = find_event_line(lines, begin + 1, false);
    if end == lines.len() {
        return Err(RecordError::NoEvent);
    }
    let ghost body = all.skip(begin + 1);
    let ghost inner = body.take(end - (begin + 1));
    let mut out: Vec<String> = Vec::new();
    let mut i: usize = 0;
    while i < begin + 1
        invariant
            all == crate::text::texts(lines@),
            i <= begin + 1 <= lines@.len() <= usize::MAX,
            crate::text::texts(out@) == all.take(i as int),
        decreases begin + 1 - i,
    {
        push_copy(&mut out, &lines[i]);
        assert(all.take(i + 1) =~= all.take(i as int).push(all[i as int]));
        i = i + 1;
    }
    let ghost opened = all.take(begin + 1);
    assert(inner =~= all.subrange(begin + 1, end as int));
    assert(opened + kept_among(inner, 0) =~= opened);
    while i < end
        invariant
            all == crate::text::texts(lines@),
            begin + 1 <= i <= end < lines@.len(),
            opened == all.take(begin + 1),
            inner == all.subrange(begin + 1, end as int),
            crate::text::texts(out@) == opened + kept_among(inner, i - (begin + 1)),
        decreases end - i,
    {
        let ghost k = i - (begin + 1);
        assert(inner[k] == lines@[i as int]@);
        let name = prop_name(lines[i].as_str());
        let name = name.as_str();
        let replaced = text_eq(name, "SUMMARY") || text_eq(name, "DTSTART") || text_eq(
            name,
            "DTEND",
        ) || text_eq(name, "DURATION");
        if !replaced || stands_inside(lines, begin + 1, end, i) {
            push_copy(&mut out, &lines[i]);
            assert((opened + kept_among(inner, k)).push(lines@[i as int]@) =~= opened + kept_among(
                inner,
                k,
            ).push(lines@[i as int]@));
        }
        i = i + 1;
    }
    let ghost first = crate::text::texts(out@);
    out.push(property("SUMMARY:", escape_text(title).as_str()));
    out.push(dtstart.to_owned());
    out.push(dtend.to_owned());
    let ghost middle = first + seq![
        "SUMMARY:"@ + crate::ics::escaped(title@),
        dtstart@,
        dtend@,
    ];
    assert(crate::text::texts(out@) =~= middle);
    let ghost rest = body.skip(end - (begin + 1));
    assert(middle + rest.take(0) =~= middle);
    while i < lines.len()
        invariant
            all == crate::text::texts(lines@),
            begin + 1 <= end <= i <= lines@.len(),
            body == all.skip(begin + 1),
            rest == body.skip(end - (begin + 1)),
            crate::text::texts(out@) == middle + rest.take(i - end),
        decreases lines@.len() - i,
    {
        push_copy(&mut out, &lines[i]);
        assert((middle + rest.take(i - end)).push(all[i as int]) =~= middle + rest.take(
            i - end + 1,
        ));
        i = i + 1;
    }
    assert(rest.take(i - end) =~= rest);
    Ok(write_lines(&out))
}

/// Changes the first event of unfolded lines to what a record says: only its summary and its
/// span.
pub fn patch_vevent(lines: &Vec<String>, r: &EventRecord) -> (text: Result<String, RecordError>)
    ensures
        match text {
            Ok(text) => exists|span: (Seq<char>, Seq<char>)|
                are_span_lines(r@, span) && #[trigger] patched_lines(
                    crate::text::texts(lines@),
                    r@.title,
                    span,
                ) is Some && text@ == lines_text(
                    patched_lines(crate::text::texts(lines@), r@.title, span)->0,
                ),
            Err(e) => crate::when::fails_with(r@, e) || (e == RecordError::NoEvent && !has_event(
                crate::text::texts(lines@),
            ) && crate::when::may_be_sent(r@)),
        },
{
    match ics_span(r) {
        Err(e) => Err(e),
        Ok((dtstart, dtend)) => {
            let text = patch_lines(lines, r.title.as_str(), dtstart.as_str(), dtend.as_str());
            assert(patched_lines(crate::text::texts(lines@), r@.title, (dtstart@, dtend@)) is Some
                <==> text is Ok);
            text
        },
    }
}

/// Whether lines hold an event that is opened and closed.
pub open spec fn has_event(lines: Seq<Seq<char>>) -> bool {
    let begin = event_start(lines);
    begin < lines.len() && event_end(lines.skip(begin + 1)) < lines.skip(begin + 1).len()
}

} // verus!
