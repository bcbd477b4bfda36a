//! What fetching an account is for: every calendar that is to be seen is asked for its events,
//! every page and every resource of the replies is taken, and nothing else.
use vstd::prelude::*;

use crate::caldav::{FetchView, ResourceView, Stage};
use crate::google::GoogleFetchView;
use crate::remote::CalendarView;
use crate::xml::XmlView;

verus! {

// ── Finding things in a document ──────────────────────────────────────────

/// The first element with a name among nodes has it, and none before it does. Where none has it,
/// what is found is the end.
pub proof fn law_first_element(nodes: Seq<XmlView>, from: int, to: int, name: Seq<char>)
    requires
        0 <= from <= to <= nodes.len(),
    ensures
        ({
            let at = crate::xml::first_element(nodes, from, to, name);
            &&& from <= at <= to
            &&& at < to ==> nodes[at].name == name
            &&& forall|i: int| from <= i < at ==> (#[trigger] nodes[i]).name != name
        }),
    decreases to - from,
{
    if from < to && nodes[from].name != name {
        law_first_element(nodes, from + 1, to, name);
    }
}

/// What is below a node are the nodes behind it that are deeper, up to the first that is not.
pub proof fn law_below(nodes: Seq<XmlView>, at: int)
    requires
        0 <= at < nodes.len(),
    ensures
        ({
            let end = crate::xml::below_end(nodes, at);
            &&& at < end <= nodes.len()
            &&& forall|i: int| at < i < end ==> (#[trigger] nodes[i]).depth > nodes[at].depth
            &&& end < nodes.len() ==> nodes[end].depth <= nodes[at].depth
        }),
{
    lemma_rise(nodes, at + 1, nodes[at].depth as int);
}

proof fn lemma_rise(nodes: Seq<XmlView>, from: int, depth: int)
    requires
        0 <= from <= nodes.len(),
    ensures
        ({
            let end = crate::xml::rise(nodes, from, depth);
            &&& from <= end <= nodes.len()
            &&& forall|i: int| from <= i < end ==> (#[trigger] nodes[i]).depth > depth
            &&& end < nodes.len() ==> nodes[end].depth <= depth
        }),
    decreases nodes.len() - from,
{
    if from < nodes.len() && nodes[from].depth > depth {
        lemma_rise(nodes, from + 1, depth);
    }
}

/// Whether a text is that of the first element with a name among a node and what is below it, or
/// there is none because that element has none or there is no such element.
pub open spec fn is_text_below(
    nodes: Seq<XmlView>,
    at: int,
    name: Seq<char>,
    text: Option<Seq<char>>,
) -> bool {
    let end = crate::xml::below_end(nodes, at);
    ||| text is None && forall|i: int| at <= i < end ==> (#[trigger] nodes[i]).name != name
    ||| exists|k: int|
        at <= k < end && (#[trigger] nodes[k]).name == name && text == nodes[k].text && forall|
            i: int,
        |
            at <= i < k ==> (#[trigger] nodes[i]).name != name
}

/// The text of an element below a node is that of the first with the name.
pub proof fn law_text_below(nodes: Seq<XmlView>, at: int, name: Seq<char>)
    requires
        0 <= at < nodes.len(),
    ensures
        is_text_below(nodes, at, name, crate::xml::text_below(nodes, at, name)),
{
    let end = crate::xml::below_end(nodes, at);
    law_below(nodes, at);
    law_first_element(nodes, at, end, name);
    let k = crate::xml::first_element(nodes, at, end, name);
    if k < end {
        assert(nodes[k].name == name);
    }
}

/// Whether a text is that of the first child of a node that is an element with a name, or there
/// is none because that child has none or there is no such child.
pub open spec fn is_child_text(
    nodes: Seq<XmlView>,
    at: int,
    name: Seq<char>,
    text: Option<Seq<char>>,
) -> bool {
    let end = crate::xml::below_end(nodes, at);
    ||| text is None && forall|i: int|
        at < i < end ==> !((#[trigger] nodes[i]).name == name && nodes[i].depth == nodes[at].depth
            + 1)
    ||| exists|k: int|
        at < k < end && (#[trigger] nodes[k]).name == name && nodes[k].depth == nodes[at].depth + 1
            && text == nodes[k].text && forall|i: int|
            at < i < k ==> !((#[trigger] nodes[i]).name == name && nodes[i].depth
                == nodes[at].depth + 1)
}

/// The text of a child of a node is that of the first with the name; what is deeper does not
/// count.
pub proof fn law_child_text(nodes: Seq<XmlView>, at: int, name: Seq<char>)
    requires
        0 <= at < nodes.len(),
    ensures
        is_child_text(nodes, at, name, crate::xml::child_text(nodes, at, name)),
{
    let end = crate::xml::below_end(nodes, at);
    law_below(nodes, at);
    lemma_first_at_depth(nodes, at + 1, end, nodes[at].depth + 1, name);
    let k = crate::xml::first_at_depth(nodes, at + 1, end, nodes[at].depth + 1, name);
    if k < end {
        assert(nodes[k].name == name);
    }
}

proof fn lemma_first_at_depth(nodes: Seq<XmlView>, from: int, to: int, depth: int, name: Seq<char>)
    requires
        0 <= from <= to <= nodes.len(),
    ensures
        ({
            let at = crate::xml::first_at_depth(nodes, from, to, depth, name);
            &&& from <= at <= to
            &&& at < to ==> nodes[at].name == name && nodes[at].depth == depth
            &&& forall|i: int|
                from <= i < at ==> !((#[trigger] nodes[i]).name == name && nodes[i].depth == depth)
        }),
    decreases to - from,
{
    if from < to && !(nodes[from].name == name && nodes[from].depth == depth) {
        lemma_first_at_depth(nodes, from + 1, to, depth, name);
    }
}

/// The value of an attribute is that of the first with the name; there is none where no
/// attribute has it.
pub proof fn law_attribute(attributes: Seq<(Seq<char>, Seq<char>)>, name: Seq<char>)
    ensures
        match crate::xml::attribute(attributes, name) {
            Some(v) => exists|k: int|
                0 <= k < attributes.len() && #[trigger] attributes[k] == (name, v) && forall|i: int|
                    0 <= i < k ==> (#[trigger] attributes[i]).0 != name,
            None => forall|i: int| 0 <= i < attributes.len() ==> (#[trigger] attributes[i]).0 != name,
        },
    decreases attributes.len(),
{
    if attributes.len() > 0 {
        let rest = attributes.drop_first();
        law_attribute(rest, name);
        if attributes[0].0 == name {
            assert(attributes[0] == (name, attributes[0].1));
        } else {
            match crate::xml::attribute(rest, name) {
                Some(v) => {
                    let k = choose|k: int|
                        0 <= k < rest.len() && #[trigger] rest[k] == (name, v) && forall|i: int|
                            0 <= i < k ==> (#[trigger] rest[i]).0 != name;
                    assert(attributes[k + 1] == (name, v));
                    assert forall|i: int| 0 <= i < k + 1 implies (#[trigger] attributes[i]).0
                        != name by {
                        if i > 0 {
                            assert(rest[i - 1].0 != name);
                        }
                    }
                },
                None => {
                    assert forall|i: int| 0 <= i < attributes.len() implies (
                    #[trigger] attributes[i]).0 != name by {
                        if i > 0 {
                            assert(rest[i - 1].0 != name);
                        }
                    }
                },
            }
        }
    }
}

// ── What the replies of a CalDAV server say ───────────────────────────────

/// The address to which a property leads is the reference of the first element with its name,
/// read from the address that replied. It fails exactly where the reply is no document, the
/// property or its reference is missing, or the reference leads nowhere.
pub proof fn law_property_leads(xml: Seq<char>, url: Seq<char>, prop: Seq<char>)
    ensures
        match crate::xml::xml_read(xml) {
            None => crate::caldav::discovered(xml, url, prop) == Err::<
                Seq<char>,
                crate::caldav::DavFault,
            >(crate::caldav::DavFault::BadXml),
            Some(nodes) => {
                let at = crate::xml::first_element(nodes, 0, nodes.len() as int, prop);
                match crate::caldav::discovered(xml, url, prop) {
                    Ok(found) => at < nodes.len() && exists|href: Seq<char>|
                        is_text_below(nodes, at, "href"@, Some(href)) && #[trigger] crate::url::url_joined(
                            url,
                            crate::text::trimmed(href),
                        ) == Some(found),
                    Err(crate::caldav::DavFault::NoProperty(p)) => p == prop && (at == nodes.len()
                        || is_text_below(nodes, at, "href"@, None)),
                    Err(crate::caldav::DavFault::BadHref(href)) => at < nodes.len()
                        && is_text_below(nodes, at, "href"@, Some(href)) && crate::url::url_joined(
                        url,
                        crate::text::trimmed(href),
                    ) is None,
                    Err(_) => false,
                }
            },
        },
{
    if let Some(nodes) = crate::xml::xml_read(xml) {
        law_first_element(nodes, 0, nodes.len() as int, prop);
        let at = crate::xml::first_element(nodes, 0, nodes.len() as int, prop);
        if at < nodes.len() {
            law_text_below(nodes, at, "href"@);
        }
    }
}

/// Whether a node is an element that says that its resource is a calendar.
pub open spec fn says_calendar(n: XmlView) -> bool {
    n.name == "calendar"@ && n.namespace == Some("urn:ietf:params:xml:ns:caldav"@)
}

/// Whether a node is an element that says that its resource is for a kind of component.
pub open spec fn says_kind(n: XmlView, kind: Option<Seq<char>>) -> bool {
    n.name == "comp"@ && crate::xml::attribute(n.attributes, "name"@) is Some && (kind is None
        || crate::xml::attribute(n.attributes, "name"@) == kind)
}

/// A response stands for a calendar exactly where it has a reference as a child, says that it is
/// a calendar, says of no kind of component or of events that it is for them, and is not the home
/// itself. The calendar is where the reference leads from the home, and is named as it says or
/// else by the reference.
pub proof fn law_response_is_a_calendar(nodes: Seq<XmlView>, at: int, home: Seq<char>)
    requires
        0 <= at < nodes.len(),
    ensures
        ({
            let end = crate::xml::below_end(nodes, at);
            let href = crate::xml::child_text(nodes, at, "href"@);
            let shown = crate::xml::text_below(nodes, at, "displayname"@);
            let is_calendar = exists|i: int| at <= i < end && says_calendar(#[trigger] nodes[i]);
            let for_events = (exists|i: int|
                at <= i < end && says_kind(#[trigger] nodes[i], Some("VEVENT"@))) || (forall|i: int|
                at <= i < end ==> !says_kind(#[trigger] nodes[i], None));
            match crate::caldav::calendar_at(nodes, at, home) {
                Ok(Some(c)) => {
                    &&& href is Some && is_calendar && for_events
                    &&& crate::url::url_joined(home, crate::text::trimmed(href->0)) == Some(
                        c.target,
                    )
                    &&& !crate::caldav::is_same_path(c.target, home)
                    &&& c.name == if shown is Some {
                        shown->0
                    } else {
                        href->0
                    }
                    &&& !c.primary
                },
                Ok(None) => {
                    ||| href is None || !is_calendar || !for_events
                    ||| exists|target: Seq<char>|
                        crate::url::url_joined(home, crate::text::trimmed(href->0)) == Some(target)
                            && #[trigger] crate::caldav::is_same_path(target, home)
                },
                Err(e) => {
                    &&& href is Some && is_calendar && for_events
                    &&& crate::url::url_joined(home, crate::text::trimmed(href->0)) is None
                    &&& e == crate::caldav::DavFault::BadHref(href->0)
                },
            }
        }),
{
    let end = crate::xml::below_end(nodes, at);
    if crate::caldav::has_calendar(nodes, at, end) {
        let i = choose|i: int|
            at <= i < end && crate::caldav::marks_calendar(#[trigger] nodes[i]);
        assert(says_calendar(nodes[i]));
    }
    if exists|i: int| at <= i < end && says_calendar(#[trigger] nodes[i]) {
        let i = choose|i: int| at <= i < end && says_calendar(#[trigger] nodes[i]);
        assert(crate::caldav::marks_calendar(nodes[i]));
    }
    if exists|i: int| at <= i < end && says_kind(#[trigger] nodes[i], Some("VEVENT"@)) {
        let i = choose|i: int| at <= i < end && says_kind(#[trigger] nodes[i], Some("VEVENT"@));
        assert(crate::caldav::names_events(nodes[i]));
    }
    if exists|i: int| at <= i < end && crate::caldav::names_events(#[trigger] nodes[i]) {
        let i = choose|i: int| at <= i < end && crate::caldav::names_events(#[trigger] nodes[i]);
        assert(says_kind(nodes[i], Some("VEVENT"@)));
    }
    if forall|i: int| at <= i < end ==> !says_kind(#[trigger] nodes[i], None) {
        assert forall|i: int| at <= i < end implies !crate::caldav::names_component(
            #[trigger] nodes[i],
        ) by {
            assert(!says_kind(nodes[i], None));
        }
    }
    if forall|i: int| at <= i < end ==> !crate::caldav::names_component(#[trigger] nodes[i]) {
        assert forall|i: int| at <= i < end implies !says_kind(#[trigger] nodes[i], None) by {
            assert(!crate::caldav::names_component(nodes[i]));
        }
    }
}

/// Two addresses have the same path exactly where what is left of the paths without the slashes
/// at the end is the same.
pub proof fn law_same_path(p: Seq<char>, q: Seq<char>, m: int, n: int)
    requires
        0 <= m <= p.len(),
        0 <= n <= q.len(),
        m == 0 || p[m - 1] != '/',
        n == 0 || q[n - 1] != '/',
        forall|i: int| m <= i < p.len() ==> p[i] == '/',
        forall|i: int| n <= i < q.len() ==> q[i] == '/',
    ensures
        crate::caldav::leads_alike(p, q) <==> p.take(m) == q.take(n),
{
    lemma_stripped(p, m);
    lemma_stripped(q, n);
}

proof fn lemma_stripped(p: Seq<char>, m: int)
    requires
        0 <= m <= p.len(),
        m == 0 || p[m - 1] != '/',
        forall|i: int| m <= i < p.len() ==> p[i] == '/',
    ensures
        crate::text::strip_end(p, '/') == p.take(m),
    decreases p.len(),
{
    if m < p.len() {
        assert(p[p.len() - 1] == '/');
        lemma_stripped(p.drop_last(), m);
        assert(p.drop_last().take(m) =~= p.take(m));
    } else {
        assert(p.take(m) =~= p);
    }
}

/// The calendars of a reply are those of all its responses, in order; a response that leads
/// nowhere fails the whole.
pub proof fn law_every_calendar_is_listed(nodes: Seq<XmlView>, n: int, home: Seq<char>)
    requires
        0 <= n <= nodes.len(),
    ensures
        match crate::caldav::calendars_in(nodes, n, home) {
            Ok(found) => {
                &&& forall|i: int|
                    0 <= i < n && (#[trigger] nodes[i]).name == "response"@
                        ==> crate::caldav::calendar_at(nodes, i, home) is Ok
                &&& found == Seq::new(n as nat, |i: int| i).filter(
                    |i: int|
                        nodes[i].name == "response"@ && crate::caldav::calendar_at(nodes, i, home)
                            matches Ok(Some(_)),
                ).map_values(|i: int| crate::caldav::calendar_at(nodes, i, home)->Ok_0->Some_0)
            },
            Err(e) => exists|i: int|
                0 <= i < n && (#[trigger] nodes[i]).name == "response"@
                    && crate::caldav::calendar_at(nodes, i, home) == Err::<
                    Option<CalendarView>,
                    crate::caldav::DavFault,
                >(e),
        },
    decreases n,
{
    reveal(Seq::filter);
    let all = Seq::new(n as nat, |i: int| i);
    let keeps = |i: int|
        nodes[i].name == "response"@ && crate::caldav::calendar_at(nodes, i, home) matches Ok(
            Some(_),
        );
    let get = |i: int| crate::caldav::calendar_at(nodes, i, home)->Ok_0->Some_0;
    if n > 0 {
        law_every_calendar_is_listed(nodes, n - 1, home);
        let rest = Seq::new((n - 1) as nat, |i: int| i);
        assert(all.drop_last() =~= rest);
        assert(all.last() == n - 1);
        assert(rest.filter(keeps).push(n - 1).map_values(get) =~= rest.filter(keeps).map_values(
            get,
        ).push(get(n - 1)));
        if let Err(e) = crate::caldav::calendars_in(nodes, n - 1, home) {
            let i = choose|i: int|
                0 <= i < n - 1 && (#[trigger] nodes[i]).name == "response"@
                    && crate::caldav::calendar_at(nodes, i, home) == Err::<
                    Option<CalendarView>,
                    crate::caldav::DavFault,
                >(e);
            assert(nodes[i].name == "response"@);
        } else {
            assert(nodes[n - 1].name == nodes[n - 1].name);
        }
    } else {
        assert(all.filter(keeps).map_values(get) =~= Seq::<CalendarView>::empty());
    }
}

/// A response stands for a resource exactly where it holds iCalendar data with an event that has
/// an identity, unless it repeats and has not come expanded. The resource is where the reference
/// leads from the calendar, has the tag of the response, goes by the first identity, and repeats
/// where it holds more than one event or one that says so.
pub proof fn law_response_is_a_resource(
    nodes: Seq<XmlView>,
    at: int,
    calendar: Seq<char>,
    expanded: bool,
)
    requires
        0 <= at < nodes.len(),
    ensures
        ({
            let data = crate::xml::text_below(nodes, at, "calendar-data"@);
            let href = match crate::xml::child_text(nodes, at, "href"@) {
                Some(h) => h,
                None => Seq::empty(),
            };
            let etag = match crate::xml::text_below(nodes, at, "getetag"@) {
                Some(t) => t,
                None => Seq::empty(),
            };
            let lines = crate::ics::logical_lines(data->0);
            let events = crate::ics::events_in(lines).0;
            let repeats = events.len() > 1 || (events.len() == 1 && (events[0].has_rrule
                || events[0].has_recurrence_id));
            match crate::caldav::resource_at(nodes, at, calendar, expanded) {
                Ok(Some(r)) => {
                    &&& data is Some
                    &&& expanded || !repeats
                    &&& crate::url::url_joined(calendar, crate::text::trimmed(href)) == Some(r.url)
                    &&& r.etag == etag
                    &&& r.lines == lines
                    &&& r.events == events
                    &&& r.recurring == repeats
                    &&& r.uid.len() > 0
                    &&& exists|k: int|
                        0 <= k < events.len() && (#[trigger] events[k]).uid == r.uid && forall|
                            i: int,
                        |
                            0 <= i < k ==> (#[trigger] events[i]).uid.len() == 0
                },
                Ok(None) => data is Some ==> {
                    ||| !expanded && repeats
                    ||| forall|i: int| 0 <= i < events.len() ==> (#[trigger] events[i]).uid.len() == 0
                },
                Err(e) => {
                    &&& data is Some
                    &&& crate::url::url_joined(calendar, crate::text::trimmed(href)) is None
                    &&& e == crate::caldav::DavFault::BadHref(href)
                },
            }
        }),
{
    if let Some(data) = crate::xml::text_below(nodes, at, "calendar-data"@) {
        let events = crate::ics::events_in(crate::ics::logical_lines(data)).0;
        lemma_first_uid(events);
        if events.len() == 1 && (events[0].has_rrule || events[0].has_recurrence_id) {
            assert(crate::caldav::says_it_repeats(events[0]));
        }
    }
}

proof fn lemma_first_uid(events: Seq<crate::ics::VEventView>)
    ensures
        ({
            let uid = crate::caldav::first_uid(events);
            if uid.len() > 0 {
                exists|k: int|
                    0 <= k < events.len() && (#[trigger] events[k]).uid == uid && forall|i: int|
                        0 <= i < k ==> (#[trigger] events[i]).uid.len() == 0
            } else {
                forall|i: int| 0 <= i < events.len() ==> (#[trigger] events[i]).uid.len() == 0
            }
        }),
    decreases events.len(),
{
    if events.len() > 0 {
        let rest = events.drop_first();
        let uid = crate::caldav::first_uid(events);
        lemma_first_uid(rest);
        if events[0].uid.len() > 0 {
            assert(events[0].uid == uid);
        } else if uid.len() > 0 {
            let k = choose|k: int|
                0 <= k < rest.len() && (#[trigger] rest[k]).uid == uid && forall|i: int|
                    0 <= i < k ==> (#[trigger] rest[i]).uid.len() == 0;
            assert(events[k + 1].uid == uid);
            assert forall|i: int| 0 <= i < k + 1 implies (#[trigger] events[i]).uid.len() == 0 by {
                if i > 0 {
                    assert(rest[i - 1].uid.len() == 0);
                }
            }
        } else {
            assert forall|i: int| 0 <= i < events.len() implies (#[trigger] events[i]).uid.len()
                == 0 by {
                if i > 0 {
                    assert(rest[i - 1].uid.len() == 0);
                }
            }
        }
    }
}

/// The resources of a reply are those of all its responses, in order; a response that leads
/// nowhere fails the whole.
pub proof fn law_every_resource_is_read(
    nodes: Seq<XmlView>,
    n: int,
    calendar: Seq<char>,
    expanded: bool,
)
    requires
        0 <= n <= nodes.len(),
    ensures
        match crate::caldav::resources_in(nodes, n, calendar, expanded) {
            Ok(found) => {
                &&& forall|i: int|
                    0 <= i < n && (#[trigger] nodes[i]).name == "response"@
                        ==> crate::caldav::resource_at(nodes, i, calendar, expanded) is Ok
                &&& found == Seq::new(n as nat, |i: int| i).filter(
                    |i: int|
                        nodes[i].name == "response"@ && crate::caldav::resource_at(
                            nodes,
                            i,
                            calendar,
                            expanded,
                        ) matches Ok(Some(_)),
                ).map_values(
                    |i: int|
                        crate::caldav::resource_at(nodes, i, calendar, expanded)->Ok_0->Some_0,
                )
            },
            Err(e) => exists|i: int|
                0 <= i < n && (#[trigger] nodes[i]).name == "response"@
                    && crate::caldav::resource_at(nodes, i, calendar, expanded) == Err::<
                    Option<ResourceView>,
                    crate::caldav::DavFault,
                >(e),
        },
    decreases n,
{
    reveal(Seq::filter);
    let all = Seq::new(n as nat, |i: int| i);
    let keeps = |i: int|
        nodes[i].name == "response"@ && crate::caldav::resource_at(nodes, i, calendar, expanded)
            matches Ok(Some(_));
    let get = |i: int| crate::caldav::resource_at(nodes, i, calendar, expanded)->Ok_0->Some_0;
    if n > 0 {
        law_every_resource_is_read(nodes, n - 1, calendar, expanded);
        let rest = Seq::new((n - 1) as nat, |i: int| i);
        assert(all.drop_last() =~= rest);
        assert(all.last() == n - 1);
        assert(rest.filter(keeps).push(n - 1).map_values(get) =~= rest.filter(keeps).map_values(
            get,
        ).push(get(n - 1)));
        if let Err(e) = crate::caldav::resources_in(nodes, n - 1, calendar, expanded) {
            let i = choose|i: int|
                0 <= i < n - 1 && (#[trigger] nodes[i]).name == "response"@
                    && crate::caldav::resource_at(nodes, i, calendar, expanded) == Err::<
                    Option<ResourceView>,
                    crate::caldav::DavFault,
                >(e);
            assert(nodes[i].name == "response"@);
        } else {
            assert(nodes[n - 1].name == nodes[n - 1].name);
        }
    } else {
        assert(all.filter(keeps).map_values(get) =~= Seq::<ResourceView>::empty());
    }
}

// ── Fetching a CalDAV account ─────────────────────────────────────────────

/// A fetch of a CalDAV account asks for the principal, for the home of the calendars, for the
/// calendars of the home, and then for the events of each calendar in turn, within the window and
/// expanded unless the server has refused that. It is over exactly when all calendars were asked.
pub proof fn law_dav_questions(f: FetchView)
    ensures
        match crate::caldav::fetch_request(f) {
            Ok(None) => f.stage == Stage::Events && f.at >= f.calendars.len(),
            Ok(Some(r)) => {
                &&& r.body is Some
                &&& r.query.len() == 0
                &&& f.stage != Stage::Events ==> r.method == "PROPFIND"@ && r.url == f.url
                &&& f.stage == Stage::Principal ==> r.body == Some(crate::caldav::PRINCIPAL_QUERY@)
                    && r.headers.contains(("Depth"@, "0"@))
                &&& f.stage == Stage::Home ==> r.body == Some(crate::caldav::HOME_QUERY@)
                    && r.headers.contains(("Depth"@, "0"@))
                &&& f.stage == Stage::Calendars ==> r.body == Some(crate::caldav::CALENDARS_QUERY@)
                    && r.headers.contains(("Depth"@, "1"@))
                &&& f.stage == Stage::Events ==> {
                    &&& f.at < f.calendars.len()
                    &&& r.method == "REPORT"@
                    &&& r.headers.contains(("Depth"@, "1"@))
                    &&& crate::url::url_read(f.calendars[f.at].target) == Some(r.url)
                    &&& r.body == Some(
                        crate::caldav::query_text(
                            crate::date::compact_text(f.window.0) + "T000000Z"@,
                            crate::date::compact_text(f.window.1) + "T000000Z"@,
                            f.expand,
                        ),
                    )
                }
            },
            Err(e) => {
                &&& f.stage == Stage::Events
                &&& f.at < f.calendars.len()
                &&& crate::url::url_read(f.calendars[f.at].target) is None
                &&& e == crate::caldav::DavFault::BadUrl(f.calendars[f.at].target)
            },
        },
{
    if let Ok(Some(r)) = crate::caldav::fetch_request(f) {
        assert(r.headers[0].0 == "Depth"@);
    }
}

/// Each reply takes a fetch of a CalDAV account on by one question: from the principal to the
/// home, from the home to the calendars, from these to the events of the first, and from the
/// events of one calendar to those of the next, which are asked for expanded again. The window
/// and the mark stay, and only the events of a calendar change what is mirrored.
pub proof fn law_dav_replies(f: FetchView, reply: Seq<char>, g: FetchView)
    requires
        crate::caldav::fetch_goes_on(f, reply, Ok(g)),
    ensures
        g.window == f.window,
        g.source == f.source,
        f.stage == Stage::Principal ==> g.stage == Stage::Home && g.at == f.at && g.calendars
            == f.calendars && g.mirrored == f.mirrored && g.expand == f.expand
            && crate::caldav::discovered(reply, f.url, "current-user-principal"@) == Ok::<
            Seq<char>,
            crate::caldav::DavFault,
        >(g.url),
        f.stage == Stage::Home ==> g.stage == Stage::Calendars && g.at == f.at && g.calendars
            == f.calendars && g.mirrored == f.mirrored && g.expand == f.expand
            && crate::caldav::discovered(reply, f.url, "calendar-home-set"@) == Ok::<
            Seq<char>,
            crate::caldav::DavFault,
        >(g.url),
        f.stage == Stage::Calendars ==> g.stage == Stage::Events && g.at == f.at && g.mirrored
            == f.mirrored && g.expand == f.expand && crate::xml::xml_read(reply) is Some
            && crate::caldav::calendars_in(
            crate::xml::xml_read(reply)->0,
            crate::xml::xml_read(reply)->0.len() as int,
            f.url,
        ) == Ok::<Seq<CalendarView>, crate::caldav::DavFault>(g.calendars),
        f.stage == Stage::Events ==> {
            let nodes = crate::xml::xml_read(reply)->0;
            let url = crate::url::url_read(f.calendars[f.at].target);
            &&& g.stage == Stage::Events
            &&& g.at == f.at + 1
            &&& g.calendars == f.calendars
            &&& g.expand
            &&& url is Some
            &&& crate::xml::xml_read(reply) is Some
            &&& exists|list: Seq<ResourceView>, spans: Seq<Seq<crate::mirror::LocalSpan>>|
                crate::caldav::resources_in(nodes, nodes.len() as int, url->0, f.expand) == Ok::<
                    Seq<ResourceView>,
                    crate::caldav::DavFault,
                >(list) && #[trigger] crate::caldav::are_local_all(list, spans) && g.mirrored
                    == crate::caldav::with_resources(f.mirrored, f.window, f.source, list, spans)
        },
        f.stage == Stage::Events && f.at + 1 < f.calendars.len() && crate::url::url_read(
            f.calendars[f.at + 1].target,
        ) is Some ==> {
            &&& crate::caldav::fetch_request(g) matches Ok(Some(r))
            &&& crate::url::url_read(f.calendars[f.at + 1].target) == Some(r.url)
        },
        f.stage == Stage::Events && f.at + 1 == f.calendars.len() ==> crate::caldav::fetch_request(g)
            == Ok::<Option<crate::http::RequestView>, crate::caldav::DavFault>(None),
{
    if f.stage == Stage::Events {
        let nodes = crate::xml::xml_read(reply)->0;
        let url = crate::url::url_read(f.calendars[f.at].target)->0;
        let list = crate::caldav::resources_in(nodes, nodes.len() as int, url, f.expand)->Ok_0;
        let spans = choose|spans: Seq<Seq<crate::mirror::LocalSpan>>| #[trigger]
            crate::caldav::are_local_all(list, spans) && g.mirrored
                == crate::caldav::with_resources(f.mirrored, f.window, f.source, list, spans);
        assert(crate::caldav::are_local_all(list, spans));
    }
}

// ── Fetching a Google account ─────────────────────────────────────────────

/// A calendar of the service is to be seen exactly where it has an id, is selected and is not
/// deleted. It goes by its id and is shown by its name, or as a question mark. The calendars of a
/// reply are all that are to be seen, in order.
pub proof fn law_every_visible_calendar_is_listed(items: Seq<Seq<char>>)
    ensures
        crate::google::calendars_of(items) == items.filter_map(
            |item: Seq<char>|
                {
                    let id = crate::json::member_string(item, "id"@);
                    let name = crate::json::member_string(item, "summary"@);
                    if id is Some && crate::json::member_is_true(item, "selected"@)
                        && !crate::json::member_is_true(item, "deleted"@) {
                        Some(
                            CalendarView {
                                target: id->0,
                                name: if name is Some {
                                    name->0
                                } else {
                                    "?"@
                                },
                                primary: crate::json::member_is_true(item, "primary"@),
                            },
                        )
                    } else {
                        None
                    }
                },
        ),
    decreases items.len(),
{
    if items.len() > 0 {
        law_every_visible_calendar_is_listed(items.drop_last());
        if let Some(c) = crate::google::calendar_of(items.last()) {
            let before = crate::google::calendars_of(items.drop_last());
            assert(before.push(c) =~= before + seq![c]);
        }
    }
}

/// The events of a page are all those that say when they start, in order.
pub proof fn law_every_dated_item_is_read(items: Seq<Seq<char>>)
    ensures
        crate::google::items_of(items) == items.filter_map(
            |item: Seq<char>| crate::google::item_of(item),
        ),
    decreases items.len(),
{
    if items.len() > 0 {
        law_every_dated_item_is_read(items.drop_last());
        if let Some(c) = crate::google::item_of(items.last()) {
            let before = crate::google::items_of(items.drop_last());
            assert(before.push(c) =~= before + seq![c]);
        }
    }
}

/// When an event of the service starts or ends, by a member of it: on a whole day where it gives
/// a date, else at an instant.
pub open spec fn is_told_by(item: Seq<char>, key: Seq<char>, dt: Option<crate::ics::DtView>)
    -> bool {
    match crate::json::json_member(item, key) {
        None => dt is None,
        Some(v) => match (
            crate::json::member_string(v, "date"@),
            crate::json::member_string(v, "dateTime"@),
        ) {
            (Some(d), _) => match crate::date::date_read_as(d, "%Y-%m-%d"@) {
                Some(day) => dt == Some(crate::ics::DtView::Date(day)),
                None => dt is None,
            },
            (None, Some(t)) => match crate::date::rfc3339_read(t) {
                Some(m) => dt == Some(crate::ics::DtView::Utc(m)),
                None => dt is None,
            },
            (None, None) => dt is None,
        },
    }
}

/// An event of the service is read exactly where it says when it starts: with its title, when it
/// starts and ends, and whether it is cancelled, under its iCalendar identity or else its id, with
/// its tag, and as one that repeats where it belongs to such an event.
pub proof fn law_item_is_read(item: Seq<char>)
    ensures
        match crate::google::item_of(item) {
            None => is_told_by(item, "start"@, None),
            Some(i) => {
                &&& i.event.dtstart is Some
                &&& is_told_by(item, "start"@, i.event.dtstart)
                &&& is_told_by(item, "end"@, i.event.dtend)
                &&& i.event.summary == match crate::json::member_string(item, "summary"@) {
                    Some(t) => t,
                    None => Seq::empty(),
                }
                &&& i.event.uid == match crate::json::member_string(item, "iCalUID"@) {
                    Some(t) => t,
                    None => Seq::empty(),
                }
                &&& i.event.cancelled <==> crate::json::member_string(item, "status"@) == Some(
                    "cancelled"@,
                )
                &&& i.id == match crate::json::member_string(item, "id"@) {
                    Some(t) => t,
                    None => Seq::empty(),
                }
                &&& i.uid == match crate::json::member_string(item, "iCalUID"@) {
                    Some(t) => t,
                    None => i.id,
                }
                &&& i.etag == match crate::json::member_string(item, "etag"@) {
                    Some(t) => t,
                    None => Seq::empty(),
                }
                &&& i.recurring <==> crate::json::member_string(item, "recurringEventId"@) is Some
            },
        },
{
}

/// A fetch of a Google account asks for the calendars, and then for the events of each of them
/// within the window, as single events, page by page. It is over exactly when all were asked.
pub proof fn law_google_questions(f: GoogleFetchView)
    ensures
        match crate::google::google_request(f) {
            None => f.listed && f.at >= f.calendars.len(),
            Some(r) => {
                &&& r.method == "GET"@
                &&& r.body is None
                &&& !f.listed ==> r.url == crate::google::CALENDAR_API@ + "/users/me/calendarList"@
                &&& f.listed ==> {
                    &&& f.at < f.calendars.len()
                    &&& r.url == crate::google::CALENDAR_API@ + "/calendars/"@
                        + crate::google::encoded(f.calendars[f.at].target) + "/events"@
                    &&& r.query.contains(("singleEvents"@, "true"@))
                    &&& r.query.contains(
                        ("timeMin"@, crate::date::date_text(f.window.0) + "T00:00:00Z"@),
                    )
                    &&& r.query.contains(
                        ("timeMax"@, crate::date::date_text(f.window.1) + "T00:00:00Z"@),
                    )
                    &&& f.page.len() > 0 ==> r.query.contains(("pageToken"@, f.page))
                    &&& f.page.len() == 0 ==> r.query.len() == 5
                    &&& r.query[4].0 == "fields"@
                }
            },
        },
{
    if f.listed && f.at < f.calendars.len() {
        let r = crate::google::google_request(f)->0;
        assert(r.query[0] == ("singleEvents"@, "true"@));
        assert(r.query[1] == (
            "timeMin"@,
            crate::date::date_text(f.window.0) + "T00:00:00Z"@,
        ));
        assert(r.query[2] == (
            "timeMax"@,
            crate::date::date_text(f.window.1) + "T00:00:00Z"@,
        ));
        if f.page.len() > 0 {
            assert(r.query[5] == ("pageToken"@, f.page));
        }
    }
}

/// Each reply takes a fetch of a Google account on. The reply to the first question gives the
/// calendars. A page of events that names a next page leads to that page of the same calendar;
/// any other leads to the first page of the next calendar, or, behind the last calendar, to the
/// end. Every event of the page is mirrored.
pub proof fn law_google_replies(f: GoogleFetchView, reply: Seq<char>, g: GoogleFetchView)
    requires
        crate::google::google_goes_on(f, reply, Ok(g)),
    ensures
        g.window == f.window,
        g.source == f.source,
        g.listed,
        !f.listed ==> {
            &&& g.at == f.at
            &&& g.page == f.page
            &&& g.mirrored == f.mirrored
            &&& g.calendars == crate::google::calendars_of(
                crate::json::member_items(reply, "items"@),
            )
        },
        f.listed ==> {
            let next = crate::json::member_string(reply, "nextPageToken"@);
            &&& g.calendars == f.calendars
            &&& exists|spans: Seq<crate::mirror::LocalSpan>| #[trigger]
                crate::google::are_item_spans(
                    crate::google::items_of(crate::json::member_items(reply, "items"@)),
                    spans,
                ) && Some(g.mirrored) == crate::google::with_items(
                    f.mirrored,
                    f.window,
                    f.source,
                    crate::google::CALENDAR_API@ + "/calendars/"@ + crate::google::encoded(
                        f.calendars[f.at].target,
                    ) + "/events"@,
                    crate::google::items_of(crate::json::member_items(reply, "items"@)),
                    spans,
                )
            &&& if next is Some && next->0.len() > 0 {
                g.at == f.at && g.page == next->0
            } else {
                g.at == f.at + 1 && g.page.len() == 0
            }
        },
        f.listed && f.at < f.calendars.len() && crate::json::member_string(
            reply,
            "nextPageToken"@,
        ) is None ==> {
            let q = crate::google::google_request(g);
            if f.at + 1 < f.calendars.len() {
                &&& q matches Some(r)
                &&& r.url == crate::google::CALENDAR_API@ + "/calendars/"@ + crate::google::encoded(
                    f.calendars[f.at + 1].target,
                ) + "/events"@
            } else {
                q is None
            }
        },
{
}

/// What a fetch of a Google account gives in the end are the events that have an instance, as
/// they were mirrored.
pub proof fn law_empty_events_are_left_out(
    events: Map<Seq<char>, crate::remote::RemoteEventView>,
    u: Seq<char>,
)
    ensures
        ({
            let kept = crate::google::without_empty(events);
            &&& kept.contains_key(u) <==> events.contains_key(u) && events[u].instances.len() > 0
            &&& kept.contains_key(u) ==> kept[u] == events[u]
        }),
{
}

// ── Tags, queries and ids ─────────────────────────────────────────────────

/// The tag of a resource is what the first element for it says; without one there is none.
pub proof fn law_tag_is_read(nodes: Seq<XmlView>)
    ensures
        forall|k: int|
            0 <= k < nodes.len() && (#[trigger] nodes[k]).name == "getetag"@ && (forall|i: int|
                0 <= i < k ==> (#[trigger] nodes[i]).name != "getetag"@)
                ==> crate::caldav::etag_in(nodes) == nodes[k].text,
        (forall|i: int| 0 <= i < nodes.len() ==> (#[trigger] nodes[i]).name != "getetag"@)
            ==> crate::caldav::etag_in(nodes) is None,
{
    law_first_element(nodes, 0, nodes.len() as int, "getetag"@);
    let at = crate::xml::first_element(nodes, 0, nodes.len() as int, "getetag"@);
    assert forall|k: int|
        0 <= k < nodes.len() && (#[trigger] nodes[k]).name == "getetag"@ && (forall|i: int|
            0 <= i < k ==> (#[trigger] nodes[i]).name != "getetag"@) implies crate::caldav::etag_in(
        nodes,
    ) == nodes[k].text by {
        assert(nodes[at].name == "getetag"@);
    }
}

/// The query for the events of a calendar asks for those from one instant to another, and, to have
/// them expanded, says both instants once more.
pub proof fn law_queries_say_the_window(start: Seq<char>, end: Seq<char>)
    ensures
        exists|front: Seq<char>, between: Seq<char>, back: Seq<char>|
            {
                let within = between + start + "\" end=\""@ + end + back;
                &&& crate::caldav::query_text(start, end, false) == front
                    + "<C:calendar-data/>"@ + within
                &&& crate::caldav::query_text(start, end, true) == #[trigger] (front
                    + "<C:calendar-data><C:expand start=\""@ + start + "\" end=\""@ + end
                    + "\"/></C:calendar-data>"@ + (between + start + "\" end=\""@ + end + back))
            },
{
    let front =
        "<?xml version=\"1.0\" encoding=\"utf-8\"?>\n<C:calendar-query xmlns:D=\"DAV:\" xmlns:C=\"urn:ietf:params:xml:ns:caldav\">\n  <D:prop><D:getetag/>"@;
    let between =
        "</D:prop>\n  <C:filter><C:comp-filter name=\"VCALENDAR\"><C:comp-filter name=\"VEVENT\">\n    <C:time-range start=\""@;
    let back = "\"/>\n  </C:comp-filter></C:comp-filter></C:filter>\n</C:calendar-query>"@;
    let within = between + start + "\" end=\""@ + end + back;
    assert(crate::caldav::query_text(start, end, false) =~= front + "<C:calendar-data/>"@ + within);
    assert(crate::caldav::query_text(start, end, true) =~= front
        + "<C:calendar-data><C:expand start=\""@ + start + "\" end=\""@ + end
        + "\"/></C:calendar-data>"@ + (between + start + "\" end=\""@ + end + back));
}

/// A character of an id that could break a path is written as a percent sign and its code in two
/// hexadecimal digits; every other character stays, and all stay in order.
pub proof fn law_ids_are_encoded(s: Seq<char>, c: char)
    ensures
        crate::google::encoded(Seq::empty()).len() == 0,
        ({
            let (before, after) = (crate::google::encoded(s), crate::google::encoded(s.push(c)));
            let n = before.len() as int;
            if c == '%' || c == '/' || c == '#' || c == '?' || c == '@' {
                &&& after.len() == n + 3
                &&& after.take(n) == before
                &&& after[n] == '%'
                &&& crate::setup_laws::is_hex_for(after[n + 1], c as int / 16)
                &&& crate::setup_laws::is_hex_for(after[n + 2], c as int % 16)
            } else {
                after == before.push(c)
            }
        }),
{
    let (before, after) = (crate::google::encoded(s), crate::google::encoded(s.push(c)));
    assert(s.push(c).drop_last() =~= s);
    assert(after.take(before.len() as int) =~= before);
    assert(before + seq![c] =~= before.push(c));
}

// ── Where events take place ───────────────────────────────────────────────

/// Whether a span is where an event takes place: it starts and ends as the clocks here show the
/// start and the end of the event, where it has them.
pub open spec fn is_span_of(ev: crate::ics::VEventView, s: crate::mirror::LocalSpan) -> bool {
    &&& ev.dtstart is None ==> s.start is None
    &&& ev.dtstart is Some ==> crate::mirror::is_local(ev.dtstart->0, s.start)
    &&& ev.dtend is None ==> s.end is None
    &&& ev.dtend is Some ==> crate::mirror::is_local(ev.dtend->0, s.end)
}

/// The spans with which resources are mirrored are those of their events, of each of them.
pub proof fn law_resources_are_mirrored_in_place(
    list: Seq<ResourceView>,
    spans: Seq<Seq<crate::mirror::LocalSpan>>,
    n: int,
    k: int,
)
    requires
        crate::caldav::are_local_all(list, spans),
    ensures
        spans.len() == list.len(),
        0 <= n < list.len() ==> spans[n].len() == list[n].events.len(),
        0 <= n < list.len() && 0 <= k < list[n].events.len() ==> is_span_of(
            list[n].events[k],
            spans[n][k],
        ),
{
    if 0 <= n < list.len() {
        assert(crate::caldav::are_local_spans(list[n].events, spans[n]));
        if 0 <= k < list[n].events.len() {
            assert(crate::mirror::is_local_span(list[n].events[k], spans[n][k]));
        }
    }
}

/// The spans with which the events of a page are mirrored are those of the events, of each of them.
pub proof fn law_items_are_mirrored_in_place(
    list: Seq<crate::google::ItemView>,
    spans: Seq<crate::mirror::LocalSpan>,
    n: int,
)
    requires
        crate::google::are_item_spans(list, spans),
    ensures
        spans.len() == list.len(),
        0 <= n < list.len() ==> is_span_of(list[n].event, spans[n]),
{
    if 0 <= n < list.len() {
        assert(crate::mirror::is_local_span(list[n].event, spans[n]));
    }
}

/// An event is mirrored where it takes place.
pub proof fn law_event_is_mirrored_in_place(
    ev: crate::ics::VEventView,
    window: (crate::date::Date, crate::date::Date),
    source: Seq<char>,
    recurring: bool,
    before: (Set<crate::mirror::SeenKey>, Seq<crate::record::RecordView>),
    after: (Set<crate::mirror::SeenKey>, Seq<crate::record::RecordView>),
)
    requires
        crate::mirror::mirrors(ev, window, source, recurring, before, after),
    ensures
        exists|s: crate::mirror::LocalSpan| #[trigger]
            is_span_of(ev, s) && after == crate::mirror::with_event(
                before,
                window,
                source,
                recurring,
                ev,
                s,
            ),
{
    let s = choose|s: crate::mirror::LocalSpan| #[trigger]
        crate::mirror::is_local_span(ev, s) && after == crate::mirror::with_event(
            before,
            window,
            source,
            recurring,
            ev,
            s,
        );
    assert(is_span_of(ev, s));
}

} // verus!
