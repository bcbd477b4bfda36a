//! What holds of the records that mirror an account.
use vstd::prelude::*;

use crate::date::Date;
use crate::mirror::LocalSpan;

verus! {

/// Whether a record is on a day of the window and carries the mark of the account.
pub open spec fn is_mirror_of(
    r: crate::record::RecordView,
    window: (Date, Date),
    source: Seq<char>,
) -> bool {
    &&& r.source == Some(source)
    &&& exists|date: Date|
        !crate::date::earlier(date, window.0) && !crate::date::earlier(window.1, date) && r.date
            == #[trigger] crate::date::date_text(date)
}

/// Whether mirroring led from one list to another: what was there stays, what came is in the
/// window, marked and not among what was seen, and no record came twice.
pub open spec fn grew(
    a: (Set<crate::mirror::SeenKey>, Seq<crate::record::RecordView>),
    b: (Set<crate::mirror::SeenKey>, Seq<crate::record::RecordView>),
    window: (Date, Date),
    source: Seq<char>,
) -> bool {
    &&& a.1.len() <= b.1.len()
    &&& b.1.take(a.1.len() as int) == a.1
    &&& forall|k: crate::mirror::SeenKey| a.0.contains(k) ==> #[trigger] b.0.contains(k)
    &&& forall|i: int|
        a.1.len() <= i < b.1.len() ==> {
            &&& is_mirror_of(#[trigger] b.1[i], window, source)
            &&& !a.0.contains(crate::mirror::record_key(b.1[i]))
            &&& b.0.contains(crate::mirror::record_key(b.1[i]))
        }
    &&& forall|i: int, j: int|
        a.1.len() <= i < j < b.1.len() ==> crate::mirror::record_key(#[trigger] b.1[i])
            != crate::mirror::record_key(#[trigger] b.1[j])
}

proof fn lemma_grew_none(
    a: (Set<crate::mirror::SeenKey>, Seq<crate::record::RecordView>),
    window: (Date, Date),
    source: Seq<char>,
)
    ensures
        grew(a, a, window, source),
{
    assert(a.1.take(a.1.len() as int) =~= a.1);
}

proof fn lemma_grew_more(
    a: (Set<crate::mirror::SeenKey>, Seq<crate::record::RecordView>),
    b: (Set<crate::mirror::SeenKey>, Seq<crate::record::RecordView>),
    c: (Set<crate::mirror::SeenKey>, Seq<crate::record::RecordView>),
    window: (Date, Date),
    source: Seq<char>,
)
    requires
        grew(a, b, window, source),
        grew(b, c, window, source),
    ensures
        grew(a, c, window, source),
{
    assert(c.1.take(a.1.len() as int) =~= c.1.take(b.1.len() as int).take(a.1.len() as int));
    assert forall|i: int| 0 <= i < b.1.len() implies c.1[i] == b.1[i] by {
        assert(c.1.take(b.1.len() as int)[i] == c.1[i]);
    }
}

proof fn lemma_day_grows(
    st: (Set<crate::mirror::SeenKey>, Seq<crate::record::RecordView>),
    window: (Date, Date),
    o: crate::mirror::Origin,
    date: Date,
    time: Option<(u32, u32)>,
)
    ensures
        grew(st, crate::mirror::with_day(st, window, o, date, time), window, o.source),
{
    lemma_grew_none(st, window, o.source);
    let r = crate::mirror::mirror_record(o, date, time);
    let after = crate::mirror::with_day(st, window, o, date, time);
    if after != st {
        assert(after.1.take(st.1.len() as int) =~= st.1);
        assert(is_mirror_of(r, window, o.source));
        assert(after.1[st.1.len() as int] == r);
    }
}

proof fn lemma_days_grow(
    st: (Set<crate::mirror::SeenKey>, Seq<crate::record::RecordView>),
    window: (Date, Date),
    o: crate::mirror::Origin,
    days: Seq<Date>,
)
    ensures
        grew(st, crate::mirror::with_days(st, window, o, days), window, o.source),
    decreases days.len(),
{
    if days.len() == 0 {
        lemma_grew_none(st, window, o.source);
    } else {
        let before = crate::mirror::with_days(st, window, o, days.drop_last());
        lemma_days_grow(st, window, o, days.drop_last());
        lemma_day_grows(before, window, o, days.last(), None);
        lemma_grew_more(
            st,
            before,
            crate::mirror::with_days(st, window, o, days),
            window,
            o.source,
        );
    }
}

/// Mirroring an event keeps the records that are there and adds only records on days of the
/// window that carry the mark of the account, none with the date, time and title of one that
/// was seen before.
pub proof fn law_event_adds_fresh_records(
    st: (Set<crate::mirror::SeenKey>, Seq<crate::record::RecordView>),
    window: (Date, Date),
    source: Seq<char>,
    recurring: bool,
    ev: crate::ics::VEventView,
    at: LocalSpan,
)
    ensures
        grew(
            st,
            crate::mirror::with_event(st, window, source, recurring, ev, at),
            window,
            source,
        ),
{
    let o = crate::mirror::origin(ev, source, recurring);
    lemma_grew_none(st, window, source);
    match at.start {
        None => {},
        Some((date, Some(time))) => lemma_day_grows(st, window, o, date, Some(time)),
        Some((date, None)) => {
            let end = match at.end {
                Some((d, _)) => Some(d),
                None => None,
            };
            lemma_days_grow(st, window, o, crate::mirror::covered_days(date, end));
        },
    }
}

proof fn lemma_events_grow(
    st: (Set<crate::mirror::SeenKey>, Seq<crate::record::RecordView>),
    window: (Date, Date),
    source: Seq<char>,
    recurring: bool,
    events: Seq<crate::ics::VEventView>,
    spans: Seq<LocalSpan>,
)
    ensures
        grew(
            st,
            crate::caldav::with_events(st, window, source, recurring, events, spans),
            window,
            source,
        ),
    decreases events.len(),
{
    if events.len() == 0 {
        lemma_grew_none(st, window, source);
    } else {
        let before = crate::caldav::with_events(
            st,
            window,
            source,
            recurring,
            events.drop_last(),
            spans,
        );
        lemma_events_grow(st, window, source, recurring, events.drop_last(), spans);
        law_event_adds_fresh_records(
            before,
            window,
            source,
            recurring,
            events.last(),
            spans[events.len() - 1],
        );
        lemma_grew_more(
            st,
            before,
            crate::caldav::with_events(st, window, source, recurring, events, spans),
            window,
            source,
        );
    }
}

// ── A whole account ───────────────────────────────────────────────────────

/// Whether what mirrors an account is sound: every record is on a day of the window and
/// carries the mark of the account, and no two records have the same date, time and title.
pub open spec fn is_sound(
    st: crate::caldav::Mirrored,
    window: (Date, Date),
    source: Seq<char>,
) -> bool {
    &&& forall|u: Seq<char>, k: int|
        st.1.contains_key(u) && 0 <= k < st.1[u].instances.len() ==> {
            &&& is_mirror_of(#[trigger] st.1[u].instances[k], window, source)
            &&& st.0.contains(crate::mirror::record_key(st.1[u].instances[k]))
        }
    &&& forall|u: Seq<char>, k: int, v: Seq<char>, l: int|
        st.1.contains_key(u) && 0 <= k < st.1[u].instances.len() && st.1.contains_key(v) && 0 <= l
            < st.1[v].instances.len() && (u != v || k != l) ==> crate::mirror::record_key(
            #[trigger] st.1[u].instances[k],
        ) != crate::mirror::record_key(#[trigger] st.1[v].instances[l])
}

/// New records under an identity keep what mirrors an account sound.
proof fn lemma_sound_insert(
    st: crate::caldav::Mirrored,
    seen: Set<crate::mirror::SeenKey>,
    uid: Seq<char>,
    base: Seq<crate::record::RecordView>,
    fresh: Seq<crate::record::RecordView>,
    event: crate::remote::RemoteEventView,
    window: (Date, Date),
    source: Seq<char>,
)
    requires
        is_sound(st, window, source),
        grew((st.0, Seq::empty()), (seen, fresh), window, source),
        base.len() == 0 || (st.1.contains_key(uid) && base == st.1[uid].instances),
        event.instances == base + fresh,
    ensures
        is_sound((seen, st.1.insert(uid, event)), window, source),
{
    let m = st.1.insert(uid, event);
    assert forall|u: Seq<char>, k: int|
        m.contains_key(u) && 0 <= k < m[u].instances.len() implies is_mirror_of(
        #[trigger] m[u].instances[k],
        window,
        source,
    ) && seen.contains(crate::mirror::record_key(m[u].instances[k])) by {
        let (a, b) = ((st.0, Seq::<crate::record::RecordView>::empty()), (seen, fresh));
        if u == uid && k >= base.len() {
            assert(m[u].instances[k] == fresh[k - base.len()]);
            assert(is_mirror_of(b.1[k - base.len()], window, source));
        } else {
            let r = st.1[u].instances[k];
            assert(m[u].instances[k] == r);
            assert(is_mirror_of(st.1[u].instances[k], window, source));
            assert(a.0.contains(crate::mirror::record_key(r)));
            assert(b.0.contains(crate::mirror::record_key(r)));
        }
    }
    assert forall|u: Seq<char>, k: int, v: Seq<char>, l: int|
        m.contains_key(u) && 0 <= k < m[u].instances.len() && m.contains_key(v) && 0 <= l
            < m[v].instances.len() && (u != v || k != l) implies crate::mirror::record_key(
        #[trigger] m[u].instances[k],
    ) != crate::mirror::record_key(#[trigger] m[v].instances[l]) by {
        let (a, b) = (m[u].instances[k], m[v].instances[l]);
        let new_a = u == uid && k >= base.len();
        let new_b = v == uid && l >= base.len();
        if new_a {
            assert(a == fresh[k - base.len()]);
        } else {
            assert(a == st.1[u].instances[k]);
        }
        if new_b {
            assert(b == fresh[l - base.len()]);
        } else {
            assert(b == st.1[v].instances[l]);
        }
        if new_a && new_b {
            if k < l {
                assert(crate::mirror::record_key(fresh[k - base.len()])
                    != crate::mirror::record_key(fresh[l - base.len()]));
            } else {
                assert(crate::mirror::record_key(fresh[l - base.len()])
                    != crate::mirror::record_key(fresh[k - base.len()]));
            }
        }
    }
}

/// Mirroring the resources of a calendar keeps what mirrors an account sound: each record is
/// on a day of the window and marked, and each date, time and title is mirrored once.
pub proof fn law_resources_keep_the_mirror_sound(
    st: crate::caldav::Mirrored,
    window: (Date, Date),
    source: Seq<char>,
    list: Seq<crate::caldav::ResourceView>,
    spans: Seq<Seq<LocalSpan>>,
)
    requires
        is_sound(st, window, source),
    ensures
        is_sound(
            crate::caldav::with_resources(st, window, source, list, spans),
            window,
            source,
        ),
    decreases list.len(),
{
    if list.len() > 0 {
        let before = crate::caldav::with_resources(
            st,
            window,
            source,
            list.drop_last(),
            spans,
        );
        law_resources_keep_the_mirror_sound(st, window, source, list.drop_last(), spans);
        let r = list.last();
        let at = spans[list.len() - 1];
        let none = Seq::<crate::record::RecordView>::empty();
        lemma_events_grow((before.0, none), window, source, r.recurring, r.events, at);
        let (seen, instances) = crate::caldav::with_events(
            (before.0, none),
            window,
            source,
            r.recurring,
            r.events,
            at,
        );
        let after = crate::caldav::with_resource(before, window, source, r, at);
        assert(after.1[r.uid].instances =~= none + instances);
        lemma_sound_insert(
            before,
            seen,
            r.uid,
            none,
            instances,
            after.1[r.uid],
            window,
            source,
        );
        assert(after.1 =~= before.1.insert(r.uid, after.1[r.uid]));
    }
}

/// Mirroring the events of a page keeps what mirrors an account sound.
pub proof fn law_items_keep_the_mirror_sound(
    st: crate::caldav::Mirrored,
    window: (Date, Date),
    source: Seq<char>,
    url: Seq<char>,
    list: Seq<crate::google::ItemView>,
    spans: Seq<LocalSpan>,
)
    requires
        is_sound(st, window, source),
    ensures
        crate::google::with_items(st, window, source, url, list, spans) matches Some(after)
            ==> is_sound(after, window, source),
    decreases list.len(),
{
    if list.len() > 0 {
        law_items_keep_the_mirror_sound(st, window, source, url, list.drop_last(), spans);
        let earlier = crate::google::with_items(
            st,
            window,
            source,
            url,
            list.drop_last(),
            spans,
        );
        if let Some(before) = earlier {
            let item = list.last();
            let at = spans[list.len() - 1];
            let address = crate::google::item_address(url, item.id);
            let none = Seq::<crate::record::RecordView>::empty();
            law_event_adds_fresh_records(
                (before.0, none),
                window,
                source,
                item.recurring,
                item.event,
                at,
            );
            let (seen, instances) = crate::mirror::with_event(
                (before.0, none),
                window,
                source,
                item.recurring,
                item.event,
                at,
            );
            if let Some(after) = crate::google::with_item(
                before,
                window,
                source,
                item,
                address,
                at,
            ) {
                let base = if before.1.contains_key(item.uid) {
                    before.1[item.uid].instances
                } else {
                    none
                };
                lemma_sound_insert(
                    before,
                    seen,
                    item.uid,
                    base,
                    instances,
                    after.1[item.uid],
                    window,
                    source,
                );
                assert(after.1 =~= before.1.insert(item.uid, after.1[item.uid]));
            }
        }
    }
}

/// Each reply in a fetch of a CalDAV account keeps what mirrors it sound.
pub proof fn law_dav_replies_keep_the_mirror_sound(
    f: crate::caldav::FetchView,
    reply: Seq<char>,
    g: crate::caldav::FetchView,
)
    requires
        is_sound(f.mirrored, f.window, f.source),
        crate::caldav::fetch_goes_on(f, reply, Ok(g)),
    ensures
        g.window == f.window,
        g.source == f.source,
        is_sound(g.mirrored, g.window, g.source),
{
    if f.stage == crate::caldav::Stage::Events {
        let nodes = crate::xml::xml_read(reply)->0;
        let url = crate::url::url_read(f.calendars[f.at].target)->0;
        let list = crate::caldav::resources_in(nodes, nodes.len() as int, url, f.expand)->Ok_0;
        let spans = choose|spans: Seq<Seq<LocalSpan>>| #[trigger]
            crate::caldav::are_local_all(list, spans) && g.mirrored
                == crate::caldav::with_resources(f.mirrored, f.window, f.source, list, spans);
        law_resources_keep_the_mirror_sound(f.mirrored, f.window, f.source, list, spans);
    }
}

/// Each reply in a fetch of a Google account keeps what mirrors it sound.
pub proof fn law_google_replies_keep_the_mirror_sound(
    f: crate::google::GoogleFetchView,
    reply: Seq<char>,
    g: crate::google::GoogleFetchView,
)
    requires
        is_sound(f.mirrored, f.window, f.source),
        crate::google::google_goes_on(f, reply, Ok(g)),
    ensures
        g.window == f.window,
        g.source == f.source,
        is_sound(g.mirrored, g.window, g.source),
{
    if f.listed {
        let list = crate::google::items_of(crate::json::member_items(reply, "items"@));
        let url = crate::google::events_url(f.calendars[f.at].target);
        let spans = choose|spans: Seq<LocalSpan>| #[trigger]
            crate::google::are_item_spans(list, spans) && Some(g.mirrored)
                == crate::google::with_items(f.mirrored, f.window, f.source, url, list, spans);
        law_items_keep_the_mirror_sound(f.mirrored, f.window, f.source, url, list, spans);
    }
}

/// What mirrors an account soundly marks every record, so that a pass can tell it from those
/// of other accounts.
pub proof fn law_sound_mirrors_are_marked(
    st: crate::caldav::Mirrored,
    window: (Date, Date),
    source: Seq<char>,
)
    requires
        is_sound(st, window, source),
    ensures
        crate::sync_laws::is_marked(st.1, source),
{
    assert forall|u: Seq<char>, k: int|
        st.1.contains_key(u) && 0 <= k < st.1[u].instances.len() implies (
    #[trigger] st.1[u].instances[k]).source == Some(source) by {
        assert(is_mirror_of(st.1[u].instances[k], window, source));
    }
}

// ── What was sent comes back ──────────────────────────────────────────────

/// The record as it comes back from the server to which it was sent under an identity: its
/// title is on one line, and there is one.
pub open spec fn returned(
    r: crate::record::RecordView,
    uid: Seq<char>,
    source: Seq<char>,
) -> crate::record::RecordView {
    crate::record::RecordView {
        title: crate::mirror::mirror_title(crate::ics::on_one_line(r.title)),
        ..crate::sync::identified(r, uid, source)
    }
}

/// Whether a day is in a window and a record is not among those seen.
pub open spec fn is_to_come(
    st: (Set<crate::mirror::SeenKey>, Seq<crate::record::RecordView>),
    window: (Date, Date),
    date: Date,
    r: crate::record::RecordView,
) -> bool {
    &&& !crate::date::earlier(date, window.0)
    &&& !crate::date::earlier(window.1, date)
    &&& !st.0.contains(crate::mirror::record_key(r))
}

/// A record without a time that was sent to a server comes back with its date and its title and
/// carries the identity it was given, whatever the time zone.
pub proof fn law_sent_day_comes_back(
    st: (Set<crate::mirror::SeenKey>, Seq<crate::record::RecordView>),
    window: (Date, Date),
    source: Seq<char>,
    uid: Seq<char>,
    r: crate::record::RecordView,
    date: Date,
    at: LocalSpan,
)
    requires
        crate::when::is_dated(r, date, None),
        date != crate::date::max_date(),
        uid.len() > 0,
        is_to_come(st, window, date, returned(r, uid, source)),
        crate::mirror::is_local_span(crate::ics_laws::day_event(uid, date, r.title), at),
    ensures
        crate::mirror::with_event(
            st,
            window,
            source,
            false,
            crate::ics_laws::day_event(uid, date, r.title),
            at,
        ).1 == st.1.push(returned(r, uid, source)),
{
    let next = crate::date::next_date(date);
    crate::date::lemma_next_date(date);
    crate::date::lemma_numbers_in_order(date, next);
    let days = crate::mirror::covered_days(date, Some(next));
    let o = crate::mirror::origin(
        crate::ics_laws::day_event(uid, date, r.title),
        source,
        false,
    );
    reveal_with_fuel(crate::mirror::days_after, 1);
    assert(days =~= seq![date]);
    assert(days.drop_last() =~= Seq::empty());
    reveal_with_fuel(crate::mirror::with_days, 2);
    assert(crate::mirror::mirror_record(o, date, None) =~= returned(r, uid, source));
}

/// A timed record that was sent to a server comes back with its date, its time and its title
/// and carries the identity it was given, where the clocks are as far ahead of UTC as when it
/// was sent.
pub proof fn law_sent_time_comes_back(
    st: (Set<crate::mirror::SeenKey>, Seq<crate::record::RecordView>),
    window: (Date, Date),
    source: Seq<char>,
    uid: Seq<char>,
    r: crate::record::RecordView,
    local: crate::date::Moment,
    span: crate::when::Span,
    at: LocalSpan,
)
    requires
        crate::when::is_dated(r, local.date, Some((local.hour, local.minute))),
        local.second == 0,
        crate::when::spans(span, local),
        uid.len() > 0,
        is_to_come(st, window, local.date, returned(r, uid, source)),
        crate::mirror::shows(span.start, span.start_offset as int, at.start),
    ensures
        crate::mirror::with_event(
            st,
            window,
            source,
            false,
            crate::ics_laws::timed_event(uid, span.start, span.end, r.title),
            at,
        ).1 == st.1.push(returned(r, uid, source)),
{
    let ev = crate::ics_laws::timed_event(uid, span.start, span.end, r.title);
    let n = crate::date::second_number(local);
    crate::date::lemma_number_bounds(local.date);
    assert(at.start is Some);
    let (date, time) = at.start->0;
    let (hour, minute) = time->0;
    let second = choose|second: u32| #[trigger]
        crate::mirror::is_second(n, date, hour, minute, second);
    let m = crate::date::Moment { date, hour, minute, second };
    crate::date::lemma_second_number_identifies(m, local);
    let o = crate::mirror::origin(ev, source, false);
    assert(crate::mirror::mirror_record(o, date, time) =~= returned(r, uid, source));
}

} // verus!
