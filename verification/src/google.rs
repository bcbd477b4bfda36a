//! Events on Google's calendar service.
use vstd::prelude::*;

use crate::date::{plus_days, read_date_as, read_rfc3339, write_date, write_rfc3339};
use crate::date::{Date, Moment};
use crate::http::{add_pair, Request};
use crate::ics::{DtValue, VEvent};
use crate::json::{is_true_member, items_member, member, quote, string_member};
use crate::mirror::{local_span, mirror_event, LocalSpan, Seen};
use crate::record::{opt_is, EventRecord};
use crate::remote::{Remote, RemoteCalendar, RemoteEvent};
use crate::uid_map::UidMap;
use crate::url::parse_url;
use crate::when::{parse_record_time, record_span, RecordError, Span};

verus! {

/// Where the service is.
pub const CALENDAR_API: &'static str = "https://www.googleapis.com/calendar/v3";

// ── Addresses ─────────────────────────────────────────────────────────────

/// A character as it stands in a path.
pub open spec fn encoded_char(c: char) -> Seq<char> {
    if c == '%' {
        seq!['%', '2', '5']
    } else if c == '/' {
        seq!['%', '2', 'F']
    } else if c == '#' {
        seq!['%', '2', '3']
    } else if c == '?' {
        seq!['%', '3', 'F']
    } else if c == '@' {
        seq!['%', '4', '0']
    } else {
        seq![c]
    }
}

/// An id as it stands in a path: the few characters that could break it are escaped.
pub open spec fn encoded(s: Seq<char>) -> Seq<char>
    decreases s.len(),
{
    if s.len() == 0 {
        Seq::empty()
    } else {
        encoded(s.drop_last()) + encoded_char(s.last())
    }
}

/// Escapes the characters of an id that could break a path.
pub fn urlencode(s: &str) -> (out: String)
    ensures
        out@ == encoded(s@),
{
    let mut out = String::new();
    for c in it: s.chars()
        invariant
            out@ == encoded(it.seq().take(it.index() as int)),
            it.seq() == s@,
    {
        let ghost k = it.index() as int;
        assert(s@.take(k + 1).drop_last() =~= s@.take(k));
        let ghost before = out@;
        if c == '%' || c == '/' || c == '#' || c == '?' || c == '@' {
            out.push('%');
            if c == '%' {
                out.push('2');
                out.push('5');
            } else if c == '/' {
                out.push('2');
                out.push('F');
            } else if c == '#' {
                out.push('2');
                out.push('3');
            } else if c == '?' {
                out.push('3');
                out.push('F');
            } else {
                out.push('4');
                out.push('0');
            }
        } else {
            out.push(c);
        }
        assert(out@ =~= before + encoded_char(c));
    }
    assert(s@.take(s@.len() as int) =~= s@);
    out
}

/// Whether a character could break a path.
pub open spec fn breaks_path(c: char) -> bool {
    c == '/' || c == '#' || c == '?' || c == '@'
}

/// No character of an escaped id could break a path.
pub proof fn law_encoded_ids_fit_a_path(s: Seq<char>)
    ensures
        forall|i: int| 0 <= i < encoded(s).len() ==> !breaks_path(#[trigger] encoded(s)[i]),
    decreases s.len(),
{
    if s.len() > 0 {
        law_encoded_ids_fit_a_path(s.drop_last());
        let before = encoded(s.drop_last());
        assert forall|i: int| 0 <= i < encoded(s).len() implies !breaks_path(
            #[trigger] encoded(s)[i],
        ) by {
            if i < before.len() {
                assert(encoded(s)[i] == before[i]);
            } else {
                assert(encoded(s)[i] == encoded_char(s.last())[i - before.len()]);
            }
        }
    }
}

/// Different ids are escaped differently.
pub proof fn law_encoded_ids_are_distinct(a: Seq<char>, b: Seq<char>)
    requires
        encoded(a) == encoded(b),
    ensures
        a == b,
    decreases a.len(),
{
    if a.len() == 0 || b.len() == 0 {
        assert(a =~= b);
    } else {
        let (x, y) = (encoded_char(a.last()), encoded_char(b.last()));
        let e = encoded(a);
        let n = e.len();
        assert(e[n - 1] == x.last());
        assert(e[n - 1] == y.last());
        lemma_no_bare_percent(a.drop_last());
        lemma_no_bare_percent(b.drop_last());
        assert(x == y) by {
            if x.len() == 3 {
                assert(e[n - 3] == '%' && e[n - 2] == x[1]);
                if y.len() == 1 {
                    assert(encoded(b.drop_last())[n - 3] == '%');
                }
                assert(y.len() == 3);
                assert(e[n - 2] == y[1]);
            } else if y.len() == 3 {
                assert(e[n - 3] == '%' && e[n - 2] == y[1]);
                assert(encoded(a.drop_last())[n - 3] == '%');
            }
        }
        assert(a.last() == b.last());
        assert(encoded(a.drop_last()) =~= e.take(n - x.len()));
        assert(encoded(b.drop_last()) =~= e.take(n - y.len()));
        law_encoded_ids_are_distinct(a.drop_last(), b.drop_last());
        assert(a =~= a.drop_last().push(a.last()));
        assert(b =~= b.drop_last().push(b.last()));
    }
}

/// A percent sign in an escaped id begins one of the escapes.
proof fn lemma_no_bare_percent(s: Seq<char>)
    ensures
        forall|i: int|
            0 <= i < encoded(s).len() && #[trigger] encoded(s)[i] == '%' ==> i + 2 < encoded(
                s,
            ).len(),
    decreases s.len(),
{
    if s.len() > 0 {
        lemma_no_bare_percent(s.drop_last());
        let before = encoded(s.drop_last());
        assert forall|i: int|
            0 <= i < encoded(s).len() && #[trigger] encoded(s)[i] == '%' implies i + 2 < encoded(
            s,
        ).len() by {
            if i < before.len() {
                assert(before[i] == '%');
            }
        }
    }
}

/// Where the events of a calendar are.
pub open spec fn events_url(cal_id: Seq<char>) -> Seq<char> {
    CALENDAR_API@ + "/calendars/"@ + encoded(cal_id) + "/events"@
}

/// Where the events of a calendar are.
pub fn google_events_url(cal_id: &str) -> (url: String)
    ensures
        url@ == events_url(cal_id@),
{
    let mut url = CALENDAR_API.to_owned();
    url.append("/calendars/");
    url.append(urlencode(cal_id).as_str());
    url.append("/events");
    url
}

// ── Records as events ─────────────────────────────────────────────────────

/// An event with a title, a start and an end; `key` says whether these are dates or instants.
pub open spec fn body_text(
    title: Seq<char>,
    key: Seq<char>,
    start: Seq<char>,
    end: Seq<char>,
) -> Seq<char> {
    "{\"end\":{\""@ + key + "\":"@ + crate::json::json_quoted(end) + "},\"start\":{\""@ + key
        + "\":"@ + crate::json::json_quoted(start) + "},\"summary\":"@ + crate::json::json_quoted(
        title,
    ) + "}"@
}

/// Writes an event with a title, a start and an end.
pub fn write_body(title: &str, key: &str, start: &str, end: &str) -> (body: String)
    ensures
        body@ == body_text(title@, key@, start@, end@),
{
    let mut s = "{\"end\":{\"".to_owned();
    s.append(key);
    s.append("\":");
    s.append(quote(end).as_str());
    s.append("},\"start\":{\"");
    s.append(key);
    s.append("\":");
    s.append(quote(start).as_str());
    s.append("},\"summary\":");
    s.append(quote(title).as_str());
    s.append("}");
    assert(s@ =~= body_text(title@, key@, start@, end@));
    s
}

/// Whether clocks `offset` seconds ahead of UTC show `local` at an instant.
pub open spec fn reads(utc: Moment, offset: int, local: Moment) -> bool {
    crate::date::valid_moment(local) && crate::date::second_number(local)
        == crate::date::second_number(utc) + offset
}

/// Whether a text is an instant as clocks `offset` seconds ahead of UTC show it. Nothing is
/// said of one that they show outside the calendar.
pub open spec fn writes_instant(utc: Moment, offset: int, text: Seq<char>) -> bool {
    forall|local: Moment| #[trigger]
        reads(utc, offset, local) ==> text == crate::date::rfc3339_text(local, offset)
}

/// Whether a text is an event with a title that takes place during a span that starts when the
/// clocks here show `local`.
pub open spec fn is_timed_body(
    body: Seq<char>,
    title: Seq<char>,
    local: Moment,
    span: Span,
) -> bool {
    exists|end: Seq<char>| #[trigger]
        writes_instant(span.end, span.end_offset as int, end) && body == body_text(
            title,
            "dateTime"@,
            crate::date::rfc3339_text(local, span.start_offset as int),
            end,
        )
}

/// Writes an event with a title that takes place during a span: the start and the end as the
/// clocks show them, each with the offset from UTC.
pub fn write_timed_body(title: &str, span: &Span) -> (body: String)
    requires
        crate::date::valid_moment(span.start),
        crate::date::valid_moment(span.end),
        -86400 < span.start_offset < 86400,
        -86400 < span.end_offset < 86400,
    ensures
        forall|a: Moment, b: Moment|
            #![trigger reads(span.start, span.start_offset as int, a), reads(
                span.end,
                span.end_offset as int,
                b,
            )]
            reads(span.start, span.start_offset as int, a) && reads(
                span.end,
                span.end_offset as int,
                b,
            ) ==> body@ == body_text(
                title@,
                "dateTime"@,
                crate::date::rfc3339_text(a, span.start_offset as int),
                crate::date::rfc3339_text(b, span.end_offset as int),
            ),
        forall|local: Moment| #[trigger]
            reads(span.start, span.start_offset as int, local) ==> is_timed_body(
                body@,
                title@,
                local,
                *span,
            ),
{
    let start = write_rfc3339(span.start, span.start_offset);
    let end = write_rfc3339(span.end, span.end_offset);
    proof {
        assert forall|local: Moment| #[trigger]
            reads(span.start, span.start_offset as int, local) implies start@
            == crate::date::rfc3339_text(local, span.start_offset as int) by {
            assert(crate::date::valid_moment(local));
        }
        assert forall|local: Moment| #[trigger]
            reads(span.end, span.end_offset as int, local) implies end@
            == crate::date::rfc3339_text(local, span.end_offset as int) by {
            assert(crate::date::valid_moment(local));
        }
        assert(writes_instant(span.end, span.end_offset as int, end@));
    }
    write_body(title, "dateTime", start.as_str(), end.as_str())
}

/// Whether a text is an event of the service that says what a record says.
pub open spec fn is_google_body(r: crate::record::RecordView, body: Seq<char>) -> bool {
    match crate::when::record_when(r) {
        Err(_) => false,
        Ok((date, None)) => date != crate::date::max_date() && body == body_text(
            r.title,
            "date"@,
            crate::date::date_text(date),
            crate::date::date_text(crate::date::next_date(date)),
        ),
        Ok((_, Some(_))) => match crate::when::record_start(r) {
            Err(_) => false,
            Ok(local) => exists|span: Span| #[trigger]
                crate::when::spans(span, local) && is_timed_body(
                    body,
                    r.title,
                    local,
                    span,
                ),
        },
    }
}

/// Writes a record as an event: a timed one from the instant at which the clocks here show the
/// time, any other as the whole day.
pub fn google_body(r: &EventRecord) -> (body: Result<String, RecordError>)
    ensures
        match body {
            Ok(body) => is_google_body(r@, body@),
            Err(e) => crate::when::fails_with(r@, e),
        },
{
    let (date, time) = match parse_record_time(r) {
        Err(e) => return Err(e),
        Ok(w) => w,
    };
    if time.is_some() {
        return match record_span(r) {
            Err(e) => Err(e),
            Ok(span) => {
                let body = write_timed_body(r.title.as_str(), &span);
                proof {
                    let local = crate::when::record_start(r@)->Ok_0;
                    assert(reads(span.start, span.start_offset as int, local));
                }
                Ok(body)
            },
        };
    }
    proof {
        crate::date::lemma_number_bounds(date);
        crate::date::lemma_next_date(date);
        crate::date::lemma_numbers_in_order(date, crate::date::max_date());
    }
    match plus_days(date, 1) {
        None => Err(RecordError::OutOfRange),
        Some(next) => {
            proof {
                crate::date::lemma_number_bounds(next);
                crate::date::lemma_numbers_in_order(next, crate::date::next_date(date));
            }
            Ok(
                write_body(
                    r.title.as_str(),
                    "date",
                    write_date(date).as_str(),
                    write_date(next).as_str(),
                ),
            )
        },
    }
}

// ── Events of the service ─────────────────────────────────────────────────

/// When something is, by the date or the instant that the service gives: the date, where there
/// is one, as a whole day; else the instant.
pub open spec fn google_dt(date: Option<Seq<char>>, instant: Option<Seq<char>>) -> Option<
    crate::ics::DtView,
> {
    match date {
        Some(d) => match crate::date::date_read_as(d, "%Y-%m-%d"@) {
            Some(date) => Some(crate::ics::DtView::Date(date)),
            None => None,
        },
        None => match instant {
            Some(t) => match crate::date::rfc3339_read(t) {
                Some(m) => Some(crate::ics::DtView::Utc(m)),
                None => None,
            },
            None => None,
        },
    }
}

/// When something is, as a member of an event of the service says.
pub open spec fn member_dt(item: Seq<char>, key: Seq<char>) -> Option<crate::ics::DtView> {
    match crate::json::json_member(item, key) {
        None => None,
        Some(v) => google_dt(
            crate::json::member_string(v, "date"@),
            crate::json::member_string(v, "dateTime"@),
        ),
    }
}

fn read_dt(item: &str, key: &str) -> (dt: Option<DtValue>)
    ensures
        crate::ics::opt_dt(dt) == member_dt(item@, key@),
        crate::ics::valid_opt_dt(crate::ics::opt_dt(dt)),
{
    let value = match member(item, key) {
        None => return None,
        Some(v) => v,
    };
    if let Some(date) = string_member(value.as_str(), "date") {
        return match read_date_as(date.as_str(), "%Y-%m-%d") {
            Some(date) => Some(DtValue::Date(date)),
            None => None,
        };
    }
    match string_member(value.as_str(), "dateTime") {
        None => None,
        Some(t) => match read_rfc3339(t.as_str()) {
            Some(m) => Some(DtValue::Utc(m)),
            None => None,
        },
    }
}

fn take_or_empty(text: Option<String>) -> (s: String)
    ensures
        s@ == crate::text::or_empty(crate::text::opt_text(text)),
{
    match text {
        Some(t) => t,
        None => String::new(),
    }
}

/// An event in the form of an iCalendar event, from what the service says of it: none when it
/// does not say when the event starts.
pub open spec fn assembled(
    uid: Option<Seq<char>>,
    summary: Option<Seq<char>>,
    start: Option<crate::ics::DtView>,
    end: Option<crate::ics::DtView>,
    status: Option<Seq<char>>,
) -> Option<crate::ics::VEventView> {
    match start {
        None => None,
        Some(start) => Some(
            crate::ics::VEventView {
                uid: crate::text::or_empty(uid),
                summary: crate::text::or_empty(summary),
                dtstart: Some(start),
                dtend: end,
                cancelled: status == Some("cancelled"@),
                has_rrule: false,
                has_recurrence_id: false,
            },
        ),
    }
}

/// An event in the form of an iCalendar event, from what the service says of it.
pub fn assemble(
    uid: Option<String>,
    summary: Option<String>,
    start: Option<DtValue>,
    end: Option<DtValue>,
    status: Option<String>,
) -> (ev: Option<VEvent>)
    ensures
        crate::ics::opt_event(ev) == assembled(
            crate::text::opt_text(uid),
            crate::text::opt_text(summary),
            crate::ics::opt_dt(start),
            crate::ics::opt_dt(end),
            crate::text::opt_text(status),
        ),
{
    match start {
        None => None,
        Some(start) => Some(
            VEvent {
                uid: take_or_empty(uid),
                summary: take_or_empty(summary),
                dtstart: Some(start),
                dtend: end,
                cancelled: opt_is(&status, "cancelled"),
                has_rrule: false,
                has_recurrence_id: false,
            },
        ),
    }
}

/// An event of the service in the form of an iCalendar event.
pub open spec fn event_of(item: Seq<char>) -> Option<crate::ics::VEventView> {
    assembled(
        crate::json::member_string(item, "iCalUID"@),
        crate::json::member_string(item, "summary"@),
        member_dt(item, "start"@),
        member_dt(item, "end"@),
        crate::json::member_string(item, "status"@),
    )
}

/// Reads an event of the service in the form of an iCalendar event.
pub fn google_event(item: &str) -> (ev: Option<VEvent>)
    ensures
        crate::ics::opt_event(ev) == event_of(item@),
        ev matches Some(ev) ==> crate::ics::valid_event(ev@),
{
    assemble(
        string_member(item, "iCalUID"),
        string_member(item, "summary"),
        read_dt(item, "start"),
        read_dt(item, "end"),
        string_member(item, "status"),
    )
}

/// An event of the service with its identity.
pub struct Item {
    pub event: VEvent,
    pub id: String,
    pub uid: String,
    pub etag: String,
    pub recurring: bool,
}

#[verifier::ext_equal]
pub struct ItemView {
    pub event: crate::ics::VEventView,
    pub id: Seq<char>,
    pub uid: Seq<char>,
    pub etag: Seq<char>,
    pub recurring: bool,
}

impl View for Item {
    type V = ItemView;

    open spec fn view(&self) -> ItemView {
        ItemView {
            event: self.event@,
            id: self.id@,
            uid: self.uid@,
            etag: self.etag@,
            recurring: self.recurring,
        }
    }
}

/// An event of the service with its identity: the iCalendar identity, or the id of the service
/// where it gives none. It repeats where it belongs to an event that does.
pub open spec fn item_of(item: Seq<char>) -> Option<ItemView> {
    match event_of(item) {
        None => None,
        Some(event) => {
            let id = crate::text::or_empty(crate::json::member_string(item, "id"@));
            Some(
                ItemView {
                    event,
                    id,
                    uid: match crate::json::member_string(item, "iCalUID"@) {
                        Some(uid) => uid,
                        None => id,
                    },
                    etag: crate::text::or_empty(crate::json::member_string(item, "etag"@)),
                    recurring: crate::json::member_string(item, "recurringEventId"@) is Some,
                },
            )
        },
    }
}

/// The view of an optional event.
pub open spec fn opt_item(item: Option<Item>) -> Option<ItemView> {
    match item {
        Some(i) => Some(i@),
        None => None,
    }
}

fn read_item(text: &str) -> (item: Option<Item>)
    ensures
        opt_item(item) == item_of(text@),
        item matches Some(item) ==> crate::ics::valid_event(item@.event),
{
    match google_event(text) {
        None => None,
        Some(event) => {
            let id = take_or_empty(string_member(text, "id"));
            let uid = match string_member(text, "iCalUID") {
                Some(uid) => uid,
                None => id.clone(),
            };
            let item = Item {
                event,
                id,
                uid,
                etag: take_or_empty(string_member(text, "etag")),
                recurring: string_member(text, "recurringEventId").is_some(),
            };
            assert(item@ =~= item_of(text@)->0);
            Some(item)
        },
    }
}

// ── Calendars ─────────────────────────────────────────────────────────────

/// What is kept of a calendar: only one that has an id, that the user keeps visible and that
/// is not deleted.
pub open spec fn kept_calendar(
    id: Option<Seq<char>>,
    name: Option<Seq<char>>,
    selected: bool,
    deleted: bool,
    primary: bool,
) -> Option<crate::remote::CalendarView> {
    match id {
        Some(target) => if selected && !deleted {
            Some(
                crate::remote::CalendarView {
                    target,
                    name: match name {
                        Some(n) => n,
                        None => "?"@,
                    },
                    primary,
                },
            )
        } else {
            None
        },
        None => None,
    }
}

/// The view of an optional calendar.
pub open spec fn opt_calendar(c: Option<RemoteCalendar>) -> Option<crate::remote::CalendarView> {
    match c {
        Some(c) => Some(c@),
        None => None,
    }
}

/// What is kept of a calendar.
pub fn keep_calendar(
    id: Option<String>,
    name: Option<String>,
    selected: bool,
    deleted: bool,
    primary: bool,
) -> (c: Option<RemoteCalendar>)
    ensures
        opt_calendar(c) == kept_calendar(
            crate::text::opt_text(id),
            crate::text::opt_text(name),
            selected,
            deleted,
            primary,
        ),
{
    match id {
        Some(target) => {
            if selected && !deleted {
                let name = match name {
                    Some(n) => n,
                    None => "?".to_owned(),
                };
                Some(RemoteCalendar { target, name, primary })
            } else {
                None
            }
        },
        None => None,
    }
}

/// What is kept of a calendar as the service describes it.
pub open spec fn calendar_of(item: Seq<char>) -> Option<crate::remote::CalendarView> {
    kept_calendar(
        crate::json::member_string(item, "id"@),
        crate::json::member_string(item, "summary"@),
        crate::json::member_is_true(item, "selected"@),
        crate::json::member_is_true(item, "deleted"@),
        crate::json::member_is_true(item, "primary"@),
    )
}

/// What is kept of calendars, in order.
pub open spec fn calendars_of(items: Seq<Seq<char>>) -> Seq<crate::remote::CalendarView>
    decreases items.len(),
{
    if items.len() == 0 {
        Seq::empty()
    } else {
        match calendar_of(items.last()) {
            Some(c) => calendars_of(items.drop_last()).push(c),
            None => calendars_of(items.drop_last()),
        }
    }
}

fn read_calendars(items: &Vec<String>) -> (calendars: Vec<RemoteCalendar>)
    ensures
        crate::remote::calendar_views(calendars@) == calendars_of(crate::text::texts(items@)),
{
    let ghost all = crate::text::texts(items@);
    let mut calendars: Vec<RemoteCalendar> = Vec::new();
    let mut i: usize = 0;
    assert(crate::remote::calendar_views(calendars@) =~= Seq::empty());
    while i < items.len()
        invariant
            all == crate::text::texts(items@),
            i <= items@.len(),
            crate::remote::calendar_views(calendars@) == calendars_of(all.take(i as int)),
        decreases items@.len() - i,
    {
        assert(all.take(i + 1).drop_last() =~= all.take(i as int));
        let ghost before = crate::remote::calendar_views(calendars@);
        let item = items[i].as_str();
        let kept = keep_calendar(
            string_member(item, "id"),
            string_member(item, "summary"),
            is_true_member(item, "selected"),
            is_true_member(item, "deleted"),
            is_true_member(item, "primary"),
        );
        if let Some(c) = kept {
            calendars.push(c);
            assert(crate::remote::calendar_views(calendars@) =~= before.push(c@));
        }
        i = i + 1;
    }
    assert(all.take(i as int) =~= all);
    calendars
}

// ── Mirroring ─────────────────────────────────────────────────────────────

/// The events of a page that say when they start, in order.
pub open spec fn items_of(items: Seq<Seq<char>>) -> Seq<ItemView>
    decreases items.len(),
{
    if items.len() == 0 {
        Seq::empty()
    } else {
        match item_of(items.last()) {
            Some(i) => items_of(items.drop_last()).push(i),
            None => items_of(items.drop_last()),
        }
    }
}

/// What a list of events says.
pub open spec fn item_views(list: Seq<Item>) -> Seq<ItemView> {
    Seq::new(list.len(), |i: int| list[i]@)
}

fn read_items(items: &Vec<String>) -> (list: Vec<Item>)
    ensures
        item_views(list@) == items_of(crate::text::texts(items@)),
        forall|k: int| 0 <= k < list@.len() ==> crate::ics::valid_event((#[trigger] list@[k])@.event),
{
    let ghost all = crate::text::texts(items@);
    let mut list: Vec<Item> = Vec::new();
    let mut i: usize = 0;
    assert(item_views(list@) =~= Seq::empty());
    while i < items.len()
        invariant
            all == crate::text::texts(items@),
            i <= items@.len(),
            item_views(list@) == items_of(all.take(i as int)),
            forall|k: int|
                0 <= k < list@.len() ==> crate::ics::valid_event((#[trigger] list@[k])@.event),
        decreases items@.len() - i,
    {
        assert(all.take(i + 1).drop_last() =~= all.take(i as int));
        let ghost before = item_views(list@);
        if let Some(item) = read_item(items[i].as_str()) {
            list.push(item);
            assert(item_views(list@) =~= before.push(item@));
        }
        i = i + 1;
    }
    assert(all.take(i as int) =~= all);
    list
}

/// What has been mirrored once an event has been too that takes place at a local span: its
/// records join those of the same identity. One with a new identity needs an address, or else
/// there is no outcome.
pub open spec fn with_item(
    st: crate::caldav::Mirrored,
    window: (Date, Date),
    source: Seq<char>,
    item: ItemView,
    address: Option<Seq<char>>,
    span: LocalSpan,
) -> Option<crate::caldav::Mirrored> {
    let (seen, instances) = crate::mirror::with_event(
        (st.0, Seq::empty()),
        window,
        source,
        item.recurring,
        item.event,
        span,
    );
    let known = st.1.contains_key(item.uid);
    if !known && address is None {
        None
    } else {
        let base = if known {
            st.1[item.uid]
        } else {
            crate::remote::RemoteEventView {
                url: address->0,
                etag: item.etag,
                recurring: item.recurring,
                instances: Seq::empty(),
                lines: Seq::empty(),
            }
        };
        Some(
            (
                seen,
                st.1.insert(
                    item.uid,
                    crate::remote::RemoteEventView {
                        recurring: base.recurring || item.recurring,
                        instances: base.instances + instances,
                        ..base
                    },
                ),
            ),
        )
    }
}

/// The address of an event of the calendar whose events are at `url`.
pub open spec fn item_address(url: Seq<char>, id: Seq<char>) -> Option<Seq<char>> {
    crate::url::url_read(url + "/"@ + id)
}

/// What has been mirrored once events have been too, in order.
pub open spec fn with_items(
    st: crate::caldav::Mirrored,
    window: (Date, Date),
    source: Seq<char>,
    url: Seq<char>,
    list: Seq<ItemView>,
    spans: Seq<LocalSpan>,
) -> Option<crate::caldav::Mirrored>
    decreases list.len(),
{
    if list.len() == 0 {
        Some(st)
    } else {
        match with_items(st, window, source, url, list.drop_last(), spans) {
            None => None,
            Some(before) => with_item(
                before,
                window,
                source,
                list.last(),
                item_address(url, list.last().id),
                spans[list.len() - 1],
            ),
        }
    }
}

/// Mirrors an event that takes place at a local span; whether there was an address for it.
pub fn merge_item(
    item: &Item,
    address: Option<String>,
    span: LocalSpan,
    window: (Date, Date),
    source: &str,
    seen: &mut Seen,
    events: &mut UidMap<RemoteEvent>,
) -> (done: bool)
    requires
        old(events).wf(),
        crate::mirror::valid_span(span),
    ensures
        final(events).wf(),
        ({
            let after = with_item(
                (old(seen)@, crate::remote::remote_views(old(events)@)),
                window,
                source@,
                item@,
                crate::text::opt_text(address),
                span,
            );
            if done {
                after == Some((final(seen)@, crate::remote::remote_views(final(events)@)))
            } else {
                after is None
            }
        }),
{
    let ghost before = crate::remote::remote_views(events@);
    let mut instances: Vec<EventRecord> = Vec::new();
    assert(crate::record::record_views(instances@) =~= Seq::empty());
    mirror_event(&item.event, span, window, source, item.recurring, seen, &mut instances);
    let ghost found = crate::record::record_views(instances@);
    let mut event = match events.remove(item.uid.as_str()) {
        Some(event) => event,
        None => match address {
            None => return false,
            Some(url) => RemoteEvent {
                url,
                etag: item.etag.clone(),
                recurring: item.recurring,
                instances: Vec::new(),
                lines: Vec::new(),
            },
        },
    };
    let ghost base = event@;
    event.recurring = event.recurring || item.recurring;
    event.instances.append(&mut instances);
    proof {
        assert(event@.instances =~= base.instances + found);
        assert(event@ =~= crate::remote::RemoteEventView {
            recurring: base.recurring || item.recurring,
            instances: base.instances + found,
            ..base
        });
        if !before.contains_key(item.uid@) {
            assert(base.instances =~= Seq::empty());
            assert(base.lines =~= Seq::empty());
        }
    }
    events.insert(item.uid.clone(), event);
    assert(crate::remote::remote_views(events@) =~= before.insert(item.uid@, event@));
    true
}

/// Whether spans are when events take place by local clocks.
pub open spec fn are_item_spans(list: Seq<ItemView>, spans: Seq<LocalSpan>) -> bool {
    &&& spans.len() == list.len()
    &&& forall|i: int|
        0 <= i < spans.len() ==> crate::mirror::is_local_span(list[i].event, #[trigger] spans[i])
}

/// Whether mirroring events leads from `before` to `after`, by the clocks of some machine.
pub open spec fn items_lead_to(
    before: crate::caldav::Mirrored,
    window: (Date, Date),
    source: Seq<char>,
    url: Seq<char>,
    list: Seq<ItemView>,
    after: Option<crate::caldav::Mirrored>,
) -> bool {
    exists|spans: Seq<LocalSpan>| #[trigger]
        are_item_spans(list, spans) && after == with_items(
            before,
            window,
            source,
            url,
            list,
            spans,
        )
}

/// Where a part of the events has no outcome, neither have all.
proof fn lemma_items_fail(
    st: crate::caldav::Mirrored,
    window: (Date, Date),
    source: Seq<char>,
    url: Seq<char>,
    list: Seq<ItemView>,
    spans: Seq<LocalSpan>,
    n: int,
)
    requires
        0 <= n <= list.len(),
        with_items(st, window, source, url, list.take(n), spans) is None,
    ensures
        with_items(st, window, source, url, list, spans) is None,
    decreases list.len() - n,
{
    if n < list.len() {
        assert(list.take(n + 1).drop_last() =~= list.take(n));
        lemma_items_fail(st, window, source, url, list, spans, n + 1);
    } else {
        assert(list.take(n) =~= list);
    }
}

/// When events take place by the clocks here.
pub fn spans_of_items(list: &Vec<Item>) -> (spans: Vec<LocalSpan>)
    requires
        forall|k: int|
            0 <= k < list@.len() ==> crate::ics::valid_event((#[trigger] list@[k])@.event),
    ensures
        are_item_spans(item_views(list@), spans@),
        forall|i: int| 0 <= i < spans@.len() ==> crate::mirror::valid_span(#[trigger] spans@[i]),
{
    let mut spans: Vec<LocalSpan> = Vec::new();
    let mut i: usize = 0;
    while i < list.len()
        invariant
            i <= list@.len(),
            spans@.len() == i,
            forall|k: int|
                0 <= k < list@.len() ==> crate::ics::valid_event((#[trigger] list@[k])@.event),
            forall|k: int|
                0 <= k < i ==> crate::mirror::is_local_span(
                    item_views(list@)[k].event,
                    #[trigger] spans@[k],
                ),
            forall|k: int| 0 <= k < i ==> crate::mirror::valid_span(#[trigger] spans@[k]),
        decreases list@.len() - i,
    {
        assert(crate::ics::valid_event(list@[i as int]@.event));
        spans.push(local_span(&list[i].event));
        i = i + 1;
    }
    spans
}

/// Mirrors events that take place at the given local spans; whether there was an address for
/// each that needed one.
pub fn merge_items(
    list: &Vec<Item>,
    spans: &Vec<LocalSpan>,
    url: &str,
    window: (Date, Date),
    source: &str,
    seen: &mut Seen,
    events: &mut UidMap<RemoteEvent>,
) -> (done: bool)
    requires
        old(events).wf(),
        spans@.len() == list@.len(),
        forall|i: int| 0 <= i < spans@.len() ==> crate::mirror::valid_span(#[trigger] spans@[i]),
    ensures
        final(events).wf(),
        ({
            let after = with_items(
                (old(seen)@, crate::remote::remote_views(old(events)@)),
                window,
                source@,
                url@,
                item_views(list@),
                spans@,
            );
            if done {
                after == Some((final(seen)@, crate::remote::remote_views(final(events)@)))
            } else {
                after is None
            }
        }),
{
    let ghost all = item_views(list@);
    let ghost before = (seen@, crate::remote::remote_views(events@));
    let mut i: usize = 0;
    while i < list.len()
        invariant
            events.wf(),
            all == item_views(list@),
            before == (old(seen)@, crate::remote::remote_views(old(events)@)),
            i <= list@.len() == spans@.len(),
            forall|k: int|
                0 <= k < spans@.len() ==> crate::mirror::valid_span(#[trigger] spans@[k]),
            with_items(before, window, source@, url@, all.take(i as int), spans@) == Some(
                (seen@, crate::remote::remote_views(events@)),
            ),
        decreases list@.len() - i,
    {
        let item = &list[i];
        assert(all.take(i + 1).drop_last() =~= all.take(i as int));
        assert(all.take(i + 1).last() == item@);
        let mut address = url.to_owned();
        address.append("/");
        address.append(item.id.as_str());
        let done = merge_item(
            item,
            parse_url(address.as_str()),
            spans[i],
            window,
            source,
            seen,
            events,
        );
        if !done {
            proof {
                lemma_items_fail(before, window, source@, url@, all, spans@, i + 1);
            }
            return false;
        }
        i = i + 1;
    }
    assert(all.take(i as int) =~= all);
    true
}

// ── Fetching an account ───────────────────────────────────────────────────

/// Why a reply of the service is of no use.
#[derive(Clone, Copy, Debug, PartialEq, Eq, Structural)]
pub enum GoogleError {
    /// The address of an event is not one.
    BadUrl,
    /// A created event has no id.
    NoId,
}

/// The fetch of an account under way.
pub struct GoogleFetch {
    window: (Date, Date),
    source: String,
    listed: bool,
    calendars: Vec<RemoteCalendar>,
    at: usize,
    page: String,
    seen: Seen,
    events: UidMap<RemoteEvent>,
}

#[verifier::ext_equal]
pub struct GoogleFetchView {
    pub window: (Date, Date),
    pub source: Seq<char>,
    /// Whether the calendars are there.
    pub listed: bool,
    pub calendars: Seq<crate::remote::CalendarView>,
    /// The number of calendars whose events are there.
    pub at: int,
    /// The page of events that is next, empty for the first.
    pub page: Seq<char>,
    pub mirrored: crate::caldav::Mirrored,
}

/// A question to the service.
pub open spec fn get_view(
    url: Seq<char>,
    query: Seq<(Seq<char>, Seq<char>)>,
) -> crate::http::RequestView {
    crate::http::RequestView {
        method: "GET"@,
        url,
        headers: Seq::empty(),
        query,
        body: None,
    }
}

/// What is asked of a page of events.
pub open spec fn page_query(window: (Date, Date), page: Seq<char>) -> Seq<
    (Seq<char>, Seq<char>),
> {
    let query = seq![
        ("singleEvents"@, "true"@),
        ("timeMin"@, crate::date::date_text(window.0) + "T00:00:00Z"@),
        ("timeMax"@, crate::date::date_text(window.1) + "T00:00:00Z"@),
        ("maxResults"@, "2500"@),
        (
            "fields"@,
            "nextPageToken,items(id,iCalUID,recurringEventId,etag,summary,status,start,end)"@,
        ),
    ];
    if page.len() > 0 {
        query.push(("pageToken"@, page))
    } else {
        query
    }
}

/// The question that is asked next: none when the events of all calendars are there.
pub open spec fn google_request(f: GoogleFetchView) -> Option<crate::http::RequestView> {
    if !f.listed {
        Some(
            get_view(
                CALENDAR_API@ + "/users/me/calendarList"@,
                seq![
                    ("fields"@, "items(id,summary,selected,deleted,primary,accessRole)"@),
                ],
            ),
        )
    } else if f.at < f.calendars.len() {
        Some(get_view(events_url(f.calendars[f.at].target), page_query(f.window, f.page)))
    } else {
        None
    }
}

/// Every question goes to the service and nowhere else.
pub proof fn law_only_the_service_is_asked(f: GoogleFetchView)
    ensures
        google_request(f) matches Some(r) ==> CALENDAR_API@.is_prefix_of(r.url),
{
    if let Some(r) = google_request(f) {
        assert(r.url.take(CALENDAR_API@.len() as int) =~= CALENDAR_API@);
    }
}

/// The fetch once a page of events is there: on to the next page, where there is one, else to
/// the next calendar.
pub open spec fn after_page(
    f: GoogleFetchView,
    next: Option<Seq<char>>,
    mirrored: crate::caldav::Mirrored,
) -> GoogleFetchView {
    match next {
        Some(page) if page.len() > 0 => GoogleFetchView { page, mirrored, ..f },
        _ => GoogleFetchView { page: Seq::empty(), at: f.at + 1, mirrored, ..f },
    }
}

/// Whether the fetch `f` goes on as `g` once the service has replied; the zone of the machine
/// decides what timed events read as.
pub open spec fn google_goes_on(
    f: GoogleFetchView,
    reply: Seq<char>,
    g: Result<GoogleFetchView, GoogleError>,
) -> bool {
    if !f.listed {
        g == Ok::<GoogleFetchView, GoogleError>(
            GoogleFetchView {
                listed: true,
                calendars: calendars_of(crate::json::member_items(reply, "items"@)),
                ..f
            },
        )
    } else {
        let list = items_of(crate::json::member_items(reply, "items"@));
        let next = crate::json::member_string(reply, "nextPageToken"@);
        let url = events_url(f.calendars[f.at].target);
        match g {
            Ok(g) => g == after_page(f, next, g.mirrored) && items_lead_to(
                f.mirrored,
                f.window,
                f.source,
                url,
                list,
                Some(g.mirrored),
            ),
            Err(e) => e == GoogleError::BadUrl && items_lead_to(
                f.mirrored,
                f.window,
                f.source,
                url,
                list,
                None,
            ),
        }
    }
}

fn write_midnight(d: Date) -> (s: String)
    requires
        crate::date::valid_date(d),
    ensures
        s@ == crate::date::date_text(d) + "T00:00:00Z"@,
{
    let mut s = write_date(d);
    s.append("T00:00:00Z");
    s
}

impl GoogleFetch {
    pub closed spec fn view(&self) -> GoogleFetchView {
        GoogleFetchView {
            window: self.window,
            source: self.source@,
            listed: self.listed,
            calendars: crate::remote::calendar_views(self.calendars@),
            at: self.at as int,
            page: self.page@,
            mirrored: (self.seen@, crate::remote::remote_views(self.events@)),
        }
    }

    /// The invariant.
    pub closed spec fn wf(&self) -> bool {
        &&& self.events.wf()
        &&& crate::date::valid_date(self.window.0)
        &&& crate::date::valid_date(self.window.1)
        &&& self.at <= self.calendars@.len()
        &&& !self.listed ==> self.at == 0
    }

    /// Begins a fetch of the events within a window of days.
    pub fn begin(window: (Date, Date), source: String) -> (f: GoogleFetch)
        requires
            crate::date::valid_date(window.0),
            crate::date::valid_date(window.1),
        ensures
            f.wf(),
            f@ == (GoogleFetchView {
                window,
                source: source@,
                listed: false,
                calendars: Seq::empty(),
                at: 0,
                page: Seq::empty(),
                mirrored: (Set::empty(), Map::empty()),
            }),
    {
        let f = GoogleFetch {
            window,
            source,
            listed: false,
            calendars: Vec::new(),
            at: 0,
            page: String::new(),
            seen: Seen::new(),
            events: UidMap::new(),
        };
        assert(f@.calendars =~= Seq::empty());
        assert(f@.mirrored.1 =~= Map::empty());
        f
    }

    /// The name of the calendar whose events are asked for, while that is so.
    pub fn calendar_name(&self) -> (name: Option<String>)
        requires
            self.wf(),
        ensures
            crate::text::opt_text(name) == if self@.listed && self@.at < self@.calendars.len() {
                Some(self@.calendars[self@.at].name)
            } else {
                None
            },
    {
        if self.listed && self.at < self.calendars.len() {
            Some(self.calendars[self.at].name.clone())
        } else {
            None
        }
    }

    /// The question to ask next; none when the fetch is over.
    pub fn request(&self) -> (r: Option<Request>)
        requires
            self.wf(),
        ensures
            match r {
                Some(r) => google_request(self@) == Some(r@),
                None => google_request(self@) is None,
            },
    {
        let mut query: Vec<(String, String)> = Vec::new();
        let mut url = CALENDAR_API.to_owned();
        assert(crate::xml::pair_views(query@) =~= Seq::empty());
        if !self.listed {
            url.append("/users/me/calendarList");
            add_pair(
                &mut query,
                "fields",
                "items(id,summary,selected,deleted,primary,accessRole)",
            );
        } else if self.at < self.calendars.len() {
            assert(self@.calendars[self.at as int] == self.calendars@[self.at as int]@);
            url = google_events_url(self.calendars[self.at].target.as_str());
            add_pair(&mut query, "singleEvents", "true");
            add_pair(&mut query, "timeMin", write_midnight(self.window.0).as_str());
            add_pair(&mut query, "timeMax", write_midnight(self.window.1).as_str());
            add_pair(&mut query, "maxResults", "2500");
            add_pair(
                &mut query,
                "fields",
                "nextPageToken,items(id,iCalUID,recurringEventId,etag,summary,status,start,end)",
            );
            if !self.page.as_str().is_empty() {
                add_pair(&mut query, "pageToken", self.page.as_str());
            }
        } else {
            return None;
        }
        let r = Request {
            method: "GET".to_owned(),
            url,
            headers: Vec::new(),
            query,
            body: None,
        };
        assert(r@ =~= google_request(self@)->0);
        Some(r)
    }

    /// The service has replied.
    pub fn replied(self, reply: &str) -> (g: Result<GoogleFetch, GoogleError>)
        requires
            self.wf(),
            self@.listed ==> self@.at < self@.calendars.len(),
        ensures
            match g {
                Ok(g) => g.wf() && google_goes_on(self@, reply@, Ok(g@)),
                Err(e) => google_goes_on(self@, reply@, Err(e)),
            },
    {
        let ghost f = self@;
        let mut g = self;
        let items = items_member(reply, "items");
        if !g.listed {
            g.calendars = read_calendars(&items);
            g.listed = true;
            assert(g@ =~= GoogleFetchView {
                listed: true,
                calendars: calendars_of(crate::json::member_items(reply@, "items"@)),
                ..f
            });
            return Ok(g);
        }
        assert(f.calendars[f.at] == g.calendars@[f.at]@);
        let count: usize = g.calendars.len();
        assert(g.at < count);
        let url = google_events_url(g.calendars[g.at].target.as_str());
        let list = read_items(&items);
        let spans = spans_of_items(&list);
        let done = merge_items(
            &list,
            &spans,
            url.as_str(),
            g.window,
            g.source.as_str(),
            &mut g.seen,
            &mut g.events,
        );
        if !done {
            return Err(GoogleError::BadUrl);
        }
        let ghost mirrored = g@.mirrored;
        let next = string_member(reply, "nextPageToken");
        let ghost page = crate::text::opt_text(next);
        match next {
            Some(t) if !t.as_str().is_empty() => {
                g.page = t;
            },
            _ => {
                g.page = String::new();
                g.at = g.at + 1;
            },
        }
        assert(g@ =~= after_page(f, page, mirrored));
        Ok(g)
    }

    /// What the account holds, once the fetch is over. Events of which no instance is left are
    /// not among it.
    pub fn finish(self) -> (r: Remote)
        requires
            self.wf(),
        ensures
            r.events.wf(),
            crate::remote::calendar_views(r.calendars@) == self@.calendars,
            crate::remote::remote_views(r.events@) == without_empty(self@.mirrored.1),
    {
        let ghost all = self@.mirrored.1;
        let ghost uids = self.events.keys();
        let mut events = self.events;
        let mut empty: Vec<String> = Vec::new();
        let mut i: usize = 0;
        proof {
            events.lemma_entries();
        }
        while i < events.len()
            invariant
                events.wf(),
                uids == events.keys(),
                all == crate::remote::remote_views(events@),
                i <= uids.len(),
                forall|u: Seq<char>| #[trigger]
                    crate::text::texts(empty@).contains(u) <==> uids.take(i as int).contains(u)
                        && all[u].instances.len() == 0,
            decreases uids.len() - i,
        {
            proof {
                events.lemma_entries();
            }
            let ghost before = crate::text::texts(empty@);
            let ghost uid = uids[i as int];
            let event = events.value_at(i);
            assert(events@.contains_key(events.keys()[i as int]));
            assert(all[uid] == event@);
            if event.instances.len() == 0 {
                empty.push(events.key_at(i).clone());
                assert(crate::text::texts(empty@) =~= before.push(uid));
            }
            proof {
                assert(uids.take(i + 1) =~= uids.take(i as int).push(uid));
                assert forall|u: Seq<char>| #[trigger]
                    crate::text::texts(empty@).contains(u) <==> uids.take(i + 1).contains(u)
                        && all[u].instances.len() == 0 by {
                    crate::sync::lemma_push_contains(uids.take(i as int), uid, u);
                    crate::sync::lemma_push_contains(before, uid, u);
                    assert(before.contains(u) <==> uids.take(i as int).contains(u)
                        && all[u].instances.len() == 0);
                }
            }
            i = i + 1;
        }
        assert(uids.take(i as int) =~= uids);
        let ghost gone = crate::text::texts(empty@);
        let ghost known = events@;
        i = 0;
        while i < empty.len()
            invariant
                i <= empty@.len(),
                gone == crate::text::texts(empty@),
                events.wf(),
                forall|u: Seq<char>| #[trigger]
                    events@.contains_key(u) <==> known.contains_key(u) && !gone.take(
                        i as int,
                    ).contains(u),
                forall|u: Seq<char>| #[trigger]
                    events@.contains_key(u) ==> events@[u] == known[u],
            decreases empty@.len() - i,
        {
            events.remove(empty[i].as_str());
            proof {
                assert(gone.take(i + 1) =~= gone.take(i as int).push(gone[i as int]));
                assert forall|u: Seq<char>| #[trigger]
                    gone.take(i + 1).contains(u) <==> gone.take(i as int).contains(u) || u
                        == gone[i as int] by {
                    crate::sync::lemma_push_contains(gone.take(i as int), gone[i as int], u);
                }
            }
            i = i + 1;
        }
        assert(gone.take(i as int) =~= gone);
        assert(crate::remote::remote_views(events@) =~= without_empty(all));
        Remote { calendars: self.calendars, events }
    }
}

/// The events of which there is an instance.
pub open spec fn without_empty(
    events: Map<Seq<char>, crate::remote::RemoteEventView>,
) -> Map<Seq<char>, crate::remote::RemoteEventView> {
    events.restrict(
        Set::new(|u: Seq<char>| events.contains_key(u) && events[u].instances.len() > 0),
    )
}

} // verus!
