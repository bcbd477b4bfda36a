//! Reading calendars from a CalDAV server.
//!
//! The server is asked for the principal of the account, for the home of its calendars, for
//! the calendars, and for the events of each calendar. What a reply says decides what is asked
//! next.
use vstd::prelude::*;

use crate::date::{write_compact, Date};
use crate::http::{dav_request, Request};
use crate::ics::{parse_ics_events, unfold, VEvent};
use crate::mirror::{local_span, mirror_event, LocalSpan, Seen};
use crate::record::{copy_opt, EventRecord};
use crate::remote::{Remote, RemoteCalendar, RemoteEvent};
use crate::text::{copy_texts, text_eq, trim, trim_end_char};
use crate::uid_map::UidMap;
use crate::url::{join_url, parse_url, path_of_url};
use crate::xml::{end_of_below, find_attribute, find_child_text, find_element, find_text_below};
use crate::xml::{read_xml, XmlNode};

verus! {

/// Where the search for an account's calendars begins.
pub const CALDAV_ROOT: &'static str = "https://caldav.icloud.com/";

pub const CALDAV_NS: &'static str = "urn:ietf:params:xml:ns:caldav";

/// Why a reply of the server is of no use.
#[derive(Debug, PartialEq, Eq)]
pub enum DavError {
    /// It is not an XML document.
    BadXml,
    /// It lacks the property that was asked for.
    NoProperty(String),
    /// This reference in it does not lead to an address.
    BadHref(String),
    /// This address of a calendar is not one.
    BadUrl(String),
}

pub enum DavFault {
    BadXml,
    NoProperty(Seq<char>),
    BadHref(Seq<char>),
    BadUrl(Seq<char>),
}

impl View for DavError {
    type V = DavFault;

    open spec fn view(&self) -> DavFault {
        match self {
            DavError::BadXml => DavFault::BadXml,
            DavError::NoProperty(prop) => DavFault::NoProperty(prop@),
            DavError::BadHref(href) => DavFault::BadHref(href@),
            DavError::BadUrl(url) => DavFault::BadUrl(url@),
        }
    }
}

// ── Single properties ─────────────────────────────────────────────────────

/// The reference that the first element with a name holds.
pub open spec fn href_in(nodes: Seq<crate::xml::XmlView>, prop: Seq<char>) -> Option<Seq<char>> {
    let at = crate::xml::first_element(nodes, 0, nodes.len() as int, prop);
    if at < nodes.len() {
        crate::xml::text_below(nodes, at, "href"@)
    } else {
        None
    }
}

/// The address to which a property in the reply of a server leads.
pub open spec fn discovered(
    xml: Seq<char>,
    url: Seq<char>,
    prop: Seq<char>,
) -> Result<Seq<char>, DavFault> {
    match crate::xml::xml_read(xml) {
        None => Err(DavFault::BadXml),
        Some(nodes) => match href_in(nodes, prop) {
            None => Err(DavFault::NoProperty(prop)),
            Some(href) => match crate::url::url_joined(url, crate::text::trimmed(href)) {
                None => Err(DavFault::BadHref(href)),
                Some(found) => Ok(found),
            },
        },
    }
}

/// The view of a text or an error.
pub open spec fn result_text(r: Result<String, DavError>) -> Result<Seq<char>, DavFault> {
    match r {
        Ok(s) => Ok(s@),
        Err(e) => Err(e@),
    }
}

/// Finds the reference that the first element with a name holds.
pub fn find_href<'a>(nodes: &'a Vec<XmlNode>, prop: &str) -> (href: Option<&'a String>)
    ensures
        crate::xml::text_of(href) == href_in(crate::xml::node_views(nodes@), prop@),
{
    let at = find_element(nodes, 0, nodes.len(), prop);
    if at == nodes.len() {
        None
    } else {
        find_text_below(nodes, at, "href")
    }
}

/// Finds the address to which a property leads, in the reply of the server at `url`.
pub fn discover_href(xml: &str, url: &str, prop: &str) -> (found: Result<String, DavError>)
    ensures
        result_text(found) == discovered(xml@, url@, prop@),
{
    let nodes = match read_xml(xml) {
        None => return Err(DavError::BadXml),
        Some(nodes) => nodes,
    };
    match find_href(&nodes, prop) {
        None => Err(DavError::NoProperty(prop.to_owned())),
        Some(href) => match join_url(url, trim(href.as_str())) {
            None => Err(DavError::BadHref(href.clone())),
            Some(found) => Ok(found),
        },
    }
}

/// The tag of a resource that the reply of a server gives.
pub open spec fn etag_in(nodes: Seq<crate::xml::XmlView>) -> Option<Seq<char>> {
    let at = crate::xml::first_element(nodes, 0, nodes.len() as int, "getetag"@);
    if at < nodes.len() {
        nodes[at].text
    } else {
        None
    }
}

/// Finds the tag of a resource.
pub fn find_etag(nodes: &Vec<XmlNode>) -> (etag: Option<String>)
    ensures
        crate::text::opt_text(etag) == etag_in(crate::xml::node_views(nodes@)),
{
    let at = find_element(nodes, 0, nodes.len(), "getetag");
    if at == nodes.len() {
        return None;
    }
    assert(crate::xml::node_views(nodes@)[at as int] == nodes@[at as int]@);
    copy_opt(&nodes[at].text)
}

/// Finds the tag of a resource in the reply of a server.
pub fn fetch_etag(xml: &str) -> (etag: Option<String>)
    ensures
        match crate::xml::xml_read(xml@) {
            None => etag is None,
            Some(nodes) => crate::text::opt_text(etag) == etag_in(nodes),
        },
{
    match read_xml(xml) {
        None => None,
        Some(nodes) => find_etag(&nodes),
    }
}

// ── Calendars ─────────────────────────────────────────────────────────────

/// Whether a node stands for a calendar.
pub open spec fn marks_calendar(n: crate::xml::XmlView) -> bool {
    n.name == "calendar"@ && n.namespace == Some(CALDAV_NS@)
}

/// Whether one of the nodes from `from` to before `to` stands for a calendar.
pub open spec fn has_calendar(nodes: Seq<crate::xml::XmlView>, from: int, to: int) -> bool {
    exists|i: int| from <= i < to && marks_calendar(#[trigger] nodes[i])
}

/// Whether a node names a kind of component.
pub open spec fn names_component(n: crate::xml::XmlView) -> bool {
    n.name == "comp"@ && crate::xml::attribute(n.attributes, "name"@) is Some
}

/// Whether a node names events as a kind of component.
pub open spec fn names_events(n: crate::xml::XmlView) -> bool {
    n.name == "comp"@ && crate::xml::attribute(n.attributes, "name"@) == Some("VEVENT"@)
}

/// Whether the nodes from `from` to before `to` allow events: they name no kind of component,
/// or events among others.
pub open spec fn allows_events(nodes: Seq<crate::xml::XmlView>, from: int, to: int) -> bool {
    ||| forall|i: int| from <= i < to ==> !names_component(#[trigger] nodes[i])
    ||| exists|i: int| from <= i < to && names_events(#[trigger] nodes[i])
}

/// The reference to a calendar for events and its name, where a response of the reply lists
/// one.
pub open spec fn listed(nodes: Seq<crate::xml::XmlView>, at: int) -> Option<
    (Seq<char>, Seq<char>),
> {
    let end = crate::xml::below_end(nodes, at);
    match crate::xml::child_text(nodes, at, "href"@) {
        None => None,
        Some(href) => if has_calendar(nodes, at, end) && allows_events(nodes, at, end) {
            match crate::xml::text_below(nodes, at, "displayname"@) {
                Some(name) => Some((href, name)),
                None => Some((href, href)),
            }
        } else {
            None
        },
    }
}

/// The calendar that a response of the reply stands for: none when it is not a calendar, holds
/// no events or is the home itself.
pub open spec fn calendar_at(
    nodes: Seq<crate::xml::XmlView>,
    at: int,
    home: Seq<char>,
) -> Result<Option<crate::remote::CalendarView>, DavFault> {
    match listed(nodes, at) {
        None => Ok(None),
        Some((href, name)) => match crate::url::url_joined(home, crate::text::trimmed(href)) {
            None => Err(DavFault::BadHref(href)),
            Some(target) => if is_same_path(target, home) {
                Ok(None)
            } else {
                Ok(Some(crate::remote::CalendarView { target, name, primary: false }))
            },
        },
    }
}

/// Whether two addresses have the same path, but for slashes at the end.
pub open spec fn is_same_path(a: Seq<char>, b: Seq<char>) -> bool {
    match (crate::url::url_path(a), crate::url::url_path(b)) {
        (Some(p), Some(q)) => leads_alike(p, q),
        _ => false,
    }
}

/// Whether two paths are the same but for slashes at the end.
pub open spec fn leads_alike(p: Seq<char>, q: Seq<char>) -> bool {
    crate::text::strip_end(p, '/') == crate::text::strip_end(q, '/')
}

/// The calendars that the first `n` nodes of a reply list, in order.
pub open spec fn calendars_in(nodes: Seq<crate::xml::XmlView>, n: int, home: Seq<char>) -> Result<
    Seq<crate::remote::CalendarView>,
    DavFault,
>
    decreases n,
{
    if n <= 0 {
        Ok(Seq::empty())
    } else {
        match calendars_in(nodes, n - 1, home) {
            Err(e) => Err(e),
            Ok(found) => if nodes[n - 1].name != "response"@ {
                Ok(found)
            } else {
                match calendar_at(nodes, n - 1, home) {
                    Err(e) => Err(e),
                    Ok(None) => Ok(found),
                    Ok(Some(c)) => Ok(found.push(c)),
                }
            },
        }
    }
}

/// An error in a part of a reply is one of the whole.
proof fn lemma_calendars_error(nodes: Seq<crate::xml::XmlView>, m: int, n: int, home: Seq<char>)
    requires
        m <= n,
        calendars_in(nodes, m, home) is Err,
    ensures
        calendars_in(nodes, n, home) == calendars_in(nodes, m, home),
    decreases n - m,
{
    if m < n {
        lemma_calendars_error(nodes, m, n - 1, home);
    }
}

fn is_calendar(nodes: &Vec<XmlNode>, from: usize, to: usize) -> (r: bool)
    requires
        from <= to <= nodes@.len(),
    ensures
        r == has_calendar(crate::xml::node_views(nodes@), from as int, to as int),
{
    let ghost all = crate::xml::node_views(nodes@);
    let mut i: usize = from;
    while i < to
        invariant
            all == crate::xml::node_views(nodes@),
            from <= i <= to <= nodes@.len(),
            forall|j: int| from <= j < i ==> !marks_calendar(#[trigger] all[j]),
        decreases to - i,
    {
        assert(all[i as int] == nodes@[i as int]@);
        if text_eq(nodes[i].name.as_str(), "calendar") {
            if let Some(ns) = &nodes[i].namespace {
                if text_eq(ns.as_str(), CALDAV_NS) {
                    assert(marks_calendar(all[i as int]));
                    return true;
                }
            }
        }
        i = i + 1;
    }
    false
}

fn may_hold_events(nodes: &Vec<XmlNode>, from: usize, to: usize) -> (r: bool)
    requires
        from <= to <= nodes@.len(),
    ensures
        r == allows_events(crate::xml::node_views(nodes@), from as int, to as int),
{
    let ghost all = crate::xml::node_views(nodes@);
    let mut named = false;
    let mut i: usize = from;
    while i < to
        invariant
            all == crate::xml::node_views(nodes@),
            from <= i <= to <= nodes@.len(),
            named == exists|j: int| from <= j < i && names_component(#[trigger] all[j]),
            forall|j: int| from <= j < i ==> !names_events(#[trigger] all[j]),
        decreases to - i,
    {
        assert(all[i as int] == nodes@[i as int]@);
        if text_eq(nodes[i].name.as_str(), "comp") {
            if let Some(value) = find_attribute(&nodes[i], "name") {
                assert(names_component(all[i as int]));
                named = true;
                if text_eq(value.as_str(), "VEVENT") {
                    assert(names_events(all[i as int]));
                    return true;
                }
            }
        }
        i = i + 1;
    }
    !named
}

/// Whether two paths are the same but for slashes at the end.
pub fn lead_alike(p: &str, q: &str) -> (r: bool)
    ensures
        r == leads_alike(p@, q@),
{
    text_eq(trim_end_char(p, '/'), trim_end_char(q, '/'))
}

fn same_path(a: &str, b: &str) -> (r: bool)
    ensures
        r == is_same_path(a@, b@),
{
    match (path_of_url(a), path_of_url(b)) {
        (Some(p), Some(q)) => lead_alike(p.as_str(), q.as_str()),
        _ => false,
    }
}

/// The reference to a calendar for events and its name, where a response of the reply lists
/// one.
pub fn read_listed<'a>(nodes: &'a Vec<XmlNode>, at: usize) -> (c: Option<(&'a String, &'a String)>)
    requires
        at < nodes@.len(),
    ensures
        match c {
            Some((href, name)) => listed(crate::xml::node_views(nodes@), at as int) == Some(
                (href@, name@),
            ),
            None => listed(crate::xml::node_views(nodes@), at as int) is None,
        },
{
    let href = match find_child_text(nodes, at, "href") {
        None => return None,
        Some(href) => href,
    };
    let end = end_of_below(nodes, at);
    if !is_calendar(nodes, at, end) || !may_hold_events(nodes, at, end) {
        return None;
    }
    match find_text_below(nodes, at, "displayname") {
        Some(name) => Some((href, name)),
        None => Some((href, href)),
    }
}

/// The view of what a response stands for.
pub open spec fn result_calendar(c: Result<Option<RemoteCalendar>, DavError>) -> Result<
    Option<crate::remote::CalendarView>,
    DavFault,
> {
    match c {
        Ok(Some(c)) => Ok(Some(c@)),
        Ok(None) => Ok(None),
        Err(e) => Err(e@),
    }
}

/// The calendar that a response of the reply stands for.
fn read_calendar(nodes: &Vec<XmlNode>, at: usize, home: &str) -> (c: Result<
    Option<RemoteCalendar>,
    DavError,
>)
    requires
        at < nodes@.len(),
    ensures
        result_calendar(c) == calendar_at(crate::xml::node_views(nodes@), at as int, home@),
{
    let (href, name) = match read_listed(nodes, at) {
        None => return Ok(None),
        Some(found) => found,
    };
    match join_url(home, trim(href.as_str())) {
        None => Err(DavError::BadHref(href.clone())),
        Some(target) => {
            if same_path(target.as_str(), home) {
                Ok(None)
            } else {
                Ok(Some(RemoteCalendar { target, name: name.clone(), primary: false }))
            }
        },
    }
}

/// The calendars for events that the reply of the server at `home` lists: lists of tasks, and
/// the home itself, are not among them.
pub fn list_event_calendars(xml: &str, home: &str) -> (found: Result<
    Vec<RemoteCalendar>,
    DavError,
>)
    ensures
        match crate::xml::xml_read(xml@) {
            None => found matches Err(e) && e@ == DavFault::BadXml,
            Some(nodes) => match calendars_in(nodes, nodes.len() as int, home@) {
                Err(fault) => found matches Err(e) && e@ == fault,
                Ok(list) => found matches Ok(found) && crate::remote::calendar_views(found@)
                    == list,
            },
        },
{
    let nodes = match read_xml(xml) {
        None => return Err(DavError::BadXml),
        Some(nodes) => nodes,
    };
    let ghost all = crate::xml::node_views(nodes@);
    let mut found: Vec<RemoteCalendar> = Vec::new();
    let mut i: usize = 0;
    assert(crate::remote::calendar_views(found@) =~= Seq::empty());
    while i < nodes.len()
        invariant
            all == crate::xml::node_views(nodes@),
            crate::xml::xml_read(xml@) == Some(all),
            i <= nodes@.len(),
            calendars_in(all, i as int, home@) == Ok::<
                Seq<crate::remote::CalendarView>,
                DavFault,
            >(crate::remote::calendar_views(found@)),
        decreases nodes@.len() - i,
    {
        assert(all[i as int] == nodes@[i as int]@);
        let ghost before = crate::remote::calendar_views(found@);
        if text_eq(nodes[i].name.as_str(), "response") {
            match read_calendar(&nodes, i, home) {
                Err(e) => {
                    proof {
                        lemma_calendars_error(all, i + 1, all.len() as int, home@);
                    }
                    return Err(e);
                },
                Ok(None) => {},
                Ok(Some(c)) => {
                    found.push(c);
                    assert(crate::remote::calendar_views(found@) =~= before.push(c@));
                },
            }
        }
        i = i + 1;
    }
    Ok(found)
}

// ── Events ────────────────────────────────────────────────────────────────

/// A calendar resource: an event, or the instances of one.
pub struct Resource {
    pub uid: String,
    pub url: String,
    pub etag: String,
    pub recurring: bool,
    pub events: Vec<VEvent>,
    pub lines: Vec<String>,
}

#[verifier::ext_equal]
pub struct ResourceView {
    pub uid: Seq<char>,
    pub url: Seq<char>,
    pub etag: Seq<char>,
    pub recurring: bool,
    pub events: Seq<crate::ics::VEventView>,
    pub lines: Seq<Seq<char>>,
}

impl View for Resource {
    type V = ResourceView;

    open spec fn view(&self) -> ResourceView {
        ResourceView {
            uid: self.uid@,
            url: self.url@,
            etag: self.etag@,
            recurring: self.recurring,
            events: crate::ics::event_views(self.events@),
            lines: crate::text::texts(self.lines@),
        }
    }
}

/// What a list of resources says.
pub open spec fn resource_views(list: Seq<Resource>) -> Seq<ResourceView> {
    Seq::new(list.len(), |i: int| list[i]@)
}

/// Whether a resource repeats: it says so, or it holds more than one dated event.
pub open spec fn repeats(events: Seq<crate::ics::VEventView>) -> bool {
    events.len() > 1 || exists|i: int|
        0 <= i < events.len() && says_it_repeats(#[trigger] events[i])
}

pub open spec fn says_it_repeats(ev: crate::ics::VEventView) -> bool {
    ev.has_rrule || ev.has_recurrence_id
}

/// The first identity that events have; empty when they have none.
pub open spec fn first_uid(events: Seq<crate::ics::VEventView>) -> Seq<char>
    decreases events.len(),
{
    if events.len() == 0 {
        Seq::empty()
    } else if events[0].uid.len() > 0 {
        events[0].uid
    } else {
        first_uid(events.drop_first())
    }
}

fn do_repeat(events: &Vec<VEvent>) -> (r: bool)
    ensures
        r == repeats(crate::ics::event_views(events@)),
{
    let ghost all = crate::ics::event_views(events@);
    if events.len() > 1 {
        return true;
    }
    let mut i: usize = 0;
    while i < events.len()
        invariant
            all == crate::ics::event_views(events@),
            i <= events@.len() <= 1,
            forall|j: int| 0 <= j < i ==> !says_it_repeats(#[trigger] all[j]),
        decreases events@.len() - i,
    {
        assert(all[i as int] == events@[i as int]@);
        if events[i].has_rrule || events[i].has_recurrence_id {
            assert(says_it_repeats(all[i as int]));
            return true;
        }
        i = i + 1;
    }
    false
}

fn find_uid(events: &Vec<VEvent>) -> (uid: String)
    ensures
        uid@ == first_uid(crate::ics::event_views(events@)),
{
    let ghost all = crate::ics::event_views(events@);
    let mut i: usize = 0;
    assert(all.skip(0) =~= all);
    while i < events.len()
        invariant
            all == crate::ics::event_views(events@),
            i <= events@.len(),
            first_uid(all) == first_uid(all.skip(i as int)),
        decreases events@.len() - i,
    {
        assert(all.skip(i as int)[0] == events@[i as int]@);
        assert(all.skip(i as int).drop_first() =~= all.skip(i + 1));
        if !events[i].uid.as_str().is_empty() {
            return events[i].uid.clone();
        }
        i = i + 1;
    }
    String::new()
}

/// What is kept of a resource with these events: nothing when it has no identity, or repeats
/// and the server has not expanded it.
pub open spec fn resource_of(
    url: Seq<char>,
    etag: Seq<char>,
    events: Seq<crate::ics::VEventView>,
    lines: Seq<Seq<char>>,
    expanded: bool,
) -> Option<ResourceView> {
    let uid = first_uid(events);
    if (!expanded && repeats(events)) || uid.len() == 0 {
        None
    } else {
        Some(ResourceView { uid, url, etag, recurring: repeats(events), events, lines })
    }
}

/// The view of an optional resource.
pub open spec fn opt_resource(r: Option<Resource>) -> Option<ResourceView> {
    match r {
        Some(r) => Some(r@),
        None => None,
    }
}

/// What is kept of a resource with these events.
pub fn keep_resource(
    url: String,
    etag: String,
    events: Vec<VEvent>,
    lines: Vec<String>,
    expanded: bool,
) -> (r: Option<Resource>)
    ensures
        opt_resource(r) == resource_of(
            url@,
            etag@,
            crate::ics::event_views(events@),
            crate::text::texts(lines@),
            expanded,
        ),
        r matches Some(r) ==> r.events == events,
{
    let recurring = do_repeat(&events);
    if !expanded && recurring {
        return None;
    }
    let uid = find_uid(&events);
    if uid.as_str().is_empty() {
        None
    } else {
        Some(Resource { uid, url, etag, recurring, events, lines })
    }
}

/// The reference, the tag and the iCalendar text of a response that has one. A missing
/// reference or tag is empty.
pub open spec fn response_at(nodes: Seq<crate::xml::XmlView>, at: int) -> Option<
    (Seq<char>, Seq<char>, Seq<char>),
> {
    match crate::xml::text_below(nodes, at, "calendar-data"@) {
        None => None,
        Some(ics) => Some(
            (
                crate::text::or_empty(crate::xml::child_text(nodes, at, "href"@)),
                crate::text::or_empty(crate::xml::text_below(nodes, at, "getetag"@)),
                ics,
            ),
        ),
    }
}

fn copy_or_empty(text: Option<&String>) -> (s: String)
    ensures
        s@ == crate::text::or_empty(crate::xml::text_of(text)),
{
    match text {
        Some(t) => t.clone(),
        None => String::new(),
    }
}

/// The reference, the tag and the iCalendar text of a response that has one.
pub fn read_response<'a>(nodes: &'a Vec<XmlNode>, at: usize) -> (r: Option<
    (String, String, &'a String),
>)
    requires
        at < nodes@.len(),
    ensures
        match r {
            Some((href, etag, ics)) => response_at(crate::xml::node_views(nodes@), at as int)
                == Some((href@, etag@, ics@)),
            None => response_at(crate::xml::node_views(nodes@), at as int) is None,
        },
{
    match find_text_below(nodes, at, "calendar-data") {
        None => None,
        Some(ics) => Some(
            (
                copy_or_empty(find_child_text(nodes, at, "href")),
                copy_or_empty(find_text_below(nodes, at, "getetag")),
                ics,
            ),
        ),
    }
}

/// The resource that a response of the reply stands for, where there is one to keep.
pub open spec fn resource_at(
    nodes: Seq<crate::xml::XmlView>,
    at: int,
    calendar: Seq<char>,
    expanded: bool,
) -> Result<Option<ResourceView>, DavFault> {
    match response_at(nodes, at) {
        None => Ok(None),
        Some((href, etag, ics)) => match crate::url::url_joined(
            calendar,
            crate::text::trimmed(href),
        ) {
            None => Err(DavFault::BadHref(href)),
            Some(url) => {
                let lines = crate::ics::logical_lines(ics);
                Ok(resource_of(url, etag, crate::ics::events_in(lines).0, lines, expanded))
            },
        },
    }
}

/// The resources that the first `n` nodes of a reply hold, in order.
pub open spec fn resources_in(
    nodes: Seq<crate::xml::XmlView>,
    n: int,
    calendar: Seq<char>,
    expanded: bool,
) -> Result<Seq<ResourceView>, DavFault>
    decreases n,
{
    if n <= 0 {
        Ok(Seq::empty())
    } else {
        match resources_in(nodes, n - 1, calendar, expanded) {
            Err(e) => Err(e),
            Ok(found) => if nodes[n - 1].name != "response"@ {
                Ok(found)
            } else {
                match resource_at(nodes, n - 1, calendar, expanded) {
                    Err(e) => Err(e),
                    Ok(None) => Ok(found),
                    Ok(Some(r)) => Ok(found.push(r)),
                }
            },
        }
    }
}

/// An error in a part of a reply is one of the whole.
proof fn lemma_resources_error(
    nodes: Seq<crate::xml::XmlView>,
    m: int,
    n: int,
    calendar: Seq<char>,
    expanded: bool,
)
    requires
        m <= n,
        resources_in(nodes, m, calendar, expanded) is Err,
    ensures
        resources_in(nodes, n, calendar, expanded) == resources_in(nodes, m, calendar, expanded),
    decreases n - m,
{
    if m < n {
        lemma_resources_error(nodes, m, n - 1, calendar, expanded);
    }
}

/// Whether the dates of the events of a resource are ones.
pub open spec fn valid_resource(r: ResourceView) -> bool {
    forall|i: int| 0 <= i < r.events.len() ==> crate::ics::valid_event(#[trigger] r.events[i])
}

fn read_resource(nodes: &Vec<XmlNode>, at: usize, calendar: &str, expanded: bool) -> (r: Result<
    Option<Resource>,
    DavError,
>)
    requires
        at < nodes@.len(),
    ensures
        match r {
            Ok(r) => resource_at(
                crate::xml::node_views(nodes@),
                at as int,
                calendar@,
                expanded,
            ) == Ok::<Option<ResourceView>, DavFault>(opt_resource(r)),
            Err(e) => resource_at(
                crate::xml::node_views(nodes@),
                at as int,
                calendar@,
                expanded,
            ) == Err::<Option<ResourceView>, DavFault>(e@),
        },
        r matches Ok(Some(r)) ==> valid_resource(r@),
{
    match read_response(nodes, at) {
        None => Ok(None),
        Some((href, etag, ics)) => match join_url(calendar, trim(href.as_str())) {
            None => Err(DavError::BadHref(href)),
            Some(url) => {
                let events = parse_ics_events(ics.as_str());
                Ok(keep_resource(url, etag, events, unfold(ics.as_str()), expanded))
            },
        },
    }
}

/// The resources that the reply of a calendar holds.
pub fn read_resources(xml: &str, calendar: &str, expanded: bool) -> (found: Result<
    Vec<Resource>,
    DavError,
>)
    ensures
        match crate::xml::xml_read(xml@) {
            None => found matches Err(e) && e@ == DavFault::BadXml,
            Some(nodes) => match resources_in(nodes, nodes.len() as int, calendar@, expanded) {
                Err(fault) => found matches Err(e) && e@ == fault,
                Ok(list) => found matches Ok(found) && resource_views(found@) == list,
            },
        },
        found matches Ok(found) ==> forall|i: int|
            0 <= i < found@.len() ==> valid_resource(#[trigger] found@[i]@),
{
    let nodes = match read_xml(xml) {
        None => return Err(DavError::BadXml),
        Some(nodes) => nodes,
    };
    let ghost all = crate::xml::node_views(nodes@);
    let mut found: Vec<Resource> = Vec::new();
    let mut i: usize = 0;
    assert(resource_views(found@) =~= Seq::empty());
    while i < nodes.len()
        invariant
            all == crate::xml::node_views(nodes@),
            crate::xml::xml_read(xml@) == Some(all),
            i <= nodes@.len(),
            resources_in(all, i as int, calendar@, expanded) == Ok::<Seq<ResourceView>, DavFault>(
                resource_views(found@),
            ),
            forall|k: int| 0 <= k < found@.len() ==> valid_resource(#[trigger] found@[k]@),
        decreases nodes@.len() - i,
    {
        assert(all[i as int] == nodes@[i as int]@);
        let ghost before = resource_views(found@);
        if text_eq(nodes[i].name.as_str(), "response") {
            match read_resource(&nodes, i, calendar, expanded) {
                Err(e) => {
                    proof {
                        lemma_resources_error(all, i + 1, all.len() as int, calendar@, expanded);
                    }
                    return Err(e);
                },
                Ok(None) => {},
                Ok(Some(r)) => {
                    found.push(r);
                    assert(resource_views(found@) =~= before.push(r@));
                },
            }
        }
        i = i + 1;
    }
    Ok(found)
}

// ── Mirroring ─────────────────────────────────────────────────────────────

/// What has been mirrored so far: the keys of the records, and the events by identity.
pub type Mirrored = (
    Set<crate::mirror::SeenKey>,
    Map<Seq<char>, crate::remote::RemoteEventView>,
);

/// The keys and the records once events have been mirrored one after the other that take place
/// at the given local spans.
pub open spec fn with_events(
    st: (Set<crate::mirror::SeenKey>, Seq<crate::record::RecordView>),
    window: (Date, Date),
    source: Seq<char>,
    recurring: bool,
    events: Seq<crate::ics::VEventView>,
    spans: Seq<LocalSpan>,
) -> (Set<crate::mirror::SeenKey>, Seq<crate::record::RecordView>)
    decreases events.len(),
{
    if events.len() == 0 {
        st
    } else {
        crate::mirror::with_event(
            with_events(st, window, source, recurring, events.drop_last(), spans),
            window,
            source,
            recurring,
            events.last(),
            spans[events.len() - 1],
        )
    }
}

/// What has been mirrored once a resource has been too. It takes the place of an earlier one
/// with the same identity.
pub open spec fn with_resource(
    st: Mirrored,
    window: (Date, Date),
    source: Seq<char>,
    r: ResourceView,
    spans: Seq<LocalSpan>,
) -> Mirrored {
    let (seen, instances) = with_events(
        (st.0, Seq::empty()),
        window,
        source,
        r.recurring,
        r.events,
        spans,
    );
    (
        seen,
        st.1.insert(
            r.uid,
            crate::remote::RemoteEventView {
                url: r.url,
                etag: r.etag,
                recurring: r.recurring,
                instances,
                lines: r.lines,
            },
        ),
    )
}

/// What has been mirrored once resources have been too, in order.
pub open spec fn with_resources(
    st: Mirrored,
    window: (Date, Date),
    source: Seq<char>,
    list: Seq<ResourceView>,
    spans: Seq<Seq<LocalSpan>>,
) -> Mirrored
    decreases list.len(),
{
    if list.len() == 0 {
        st
    } else {
        with_resource(
            with_resources(st, window, source, list.drop_last(), spans),
            window,
            source,
            list.last(),
            spans[list.len() - 1],
        )
    }
}

/// Whether the spans are when the events take place by local clocks.
pub open spec fn are_local_spans(
    events: Seq<crate::ics::VEventView>,
    spans: Seq<LocalSpan>,
) -> bool {
    &&& spans.len() == events.len()
    &&& forall|i: int|
        0 <= i < spans.len() ==> crate::mirror::is_local_span(events[i], #[trigger] spans[i])
}

/// Whether the spans are when the events of resources take place by local clocks.
pub open spec fn are_local_all(list: Seq<ResourceView>, spans: Seq<Seq<LocalSpan>>) -> bool {
    &&& spans.len() == list.len()
    &&& forall|i: int|
        0 <= i < spans.len() ==> are_local_spans(list[i].events, #[trigger] spans[i])
}

/// The spans depend on the zone of the machine; the later of them do not change what the
/// earlier resources give.
proof fn lemma_earlier_spans(
    st: Mirrored,
    window: (Date, Date),
    source: Seq<char>,
    list: Seq<ResourceView>,
    a: Seq<Seq<LocalSpan>>,
    b: Seq<Seq<LocalSpan>>,
)
    requires
        list.len() <= a.len(),
        list.len() <= b.len(),
        forall|i: int| 0 <= i < list.len() ==> a[i] == b[i],
    ensures
        with_resources(st, window, source, list, a) == with_resources(
            st,
            window,
            source,
            list,
            b,
        ),
    decreases list.len(),
{
    if list.len() > 0 {
        lemma_earlier_spans(st, window, source, list.drop_last(), a, b);
    }
}

/// When the events of a resource take place by the clocks here.
pub fn spans_of(events: &Vec<VEvent>) -> (spans: Vec<LocalSpan>)
    requires
        forall|i: int| 0 <= i < events@.len() ==> crate::ics::valid_event(#[trigger] events@[i]@),
    ensures
        are_local_spans(crate::ics::event_views(events@), spans@),
        forall|i: int| 0 <= i < spans@.len() ==> crate::mirror::valid_span(#[trigger] spans@[i]),
{
    let mut spans: Vec<LocalSpan> = Vec::new();
    let mut i: usize = 0;
    while i < events.len()
        invariant
            i <= events@.len(),
            spans@.len() == i,
            forall|k: int|
                0 <= k < events@.len() ==> crate::ics::valid_event(#[trigger] events@[k]@),
            forall|k: int|
                0 <= k < i ==> crate::mirror::is_local_span(
                    crate::ics::event_views(events@)[k],
                    #[trigger] spans@[k],
                ),
            forall|k: int| 0 <= k < i ==> crate::mirror::valid_span(#[trigger] spans@[k]),
        decreases events@.len() - i,
    {
        spans.push(local_span(&events[i]));
        i = i + 1;
    }
    spans
}

/// Mirrors a resource whose events take place at the given local spans.
pub fn mirror_resource(
    r: &Resource,
    spans: &Vec<LocalSpan>,
    window: (Date, Date),
    source: &str,
    seen: &mut Seen,
    events: &mut UidMap<RemoteEvent>,
)
    requires
        old(events).wf(),
        spans@.len() == r.events@.len(),
        forall|i: int| 0 <= i < spans@.len() ==> crate::mirror::valid_span(#[trigger] spans@[i]),
    ensures
        final(events).wf(),
        (final(seen)@, crate::remote::remote_views(final(events)@)) == with_resource(
            (old(seen)@, crate::remote::remote_views(old(events)@)),
            window,
            source@,
            r@,
            spans@,
        ),
{
    let ghost all = r@.events;
    let ghost start = seen@;
    let mut instances: Vec<EventRecord> = Vec::new();
    let mut i: usize = 0;
    assert(crate::record::record_views(instances@) =~= Seq::empty());
    while i < r.events.len()
        invariant
            all == r@.events,
            i <= r.events@.len() == spans@.len(),
            forall|k: int|
                0 <= k < spans@.len() ==> crate::mirror::valid_span(#[trigger] spans@[k]),
            (seen@, crate::record::record_views(instances@)) == with_events(
                (start, Seq::empty()),
                window,
                source@,
                r.recurring,
                all.take(i as int),
                spans@,
            ),
        decreases r.events@.len() - i,
    {
        assert(all.take(i + 1).drop_last() =~= all.take(i as int));
        assert(all.take(i + 1).last() == r.events@[i as int]@);
        mirror_event(
            &r.events[i],
            spans[i],
            window,
            source,
            r.recurring,
            seen,
            &mut instances,
        );
        i = i + 1;
    }
    assert(all.take(i as int) =~= all);
    let ghost before = crate::remote::remote_views(events@);
    let event = RemoteEvent {
        url: r.url.clone(),
        etag: r.etag.clone(),
        recurring: r.recurring,
        instances,
        lines: copy_texts(&r.lines),
    };
    events.insert(r.uid.clone(), event);
    assert(crate::remote::remote_views(events@) =~= before.insert(r.uid@, event@));
}

/// Whether mirroring the resources of a reply leads from `before` to `after`, by the clocks of
/// some machine.
pub open spec fn leads_to(
    before: Mirrored,
    window: (Date, Date),
    source: Seq<char>,
    list: Seq<ResourceView>,
    after: Mirrored,
) -> bool {
    exists|spans: Seq<Seq<LocalSpan>>| #[trigger]
        are_local_all(list, spans) && after == with_resources(before, window, source, list, spans)
}

/// Mirrors the events that the reply of a calendar holds. The machine's time zone decides what
/// timed events read as.
pub fn fetch_events(
    xml: &str,
    calendar: &str,
    expanded: bool,
    window: (Date, Date),
    source: &str,
    seen: &mut Seen,
    events: &mut UidMap<RemoteEvent>,
) -> (r: Result<(), DavError>)
    requires
        old(events).wf(),
    ensures
        final(events).wf(),
        ({
            let before = (old(seen)@, crate::remote::remote_views(old(events)@));
            let after = (final(seen)@, crate::remote::remote_views(final(events)@));
            match crate::xml::xml_read(xml@) {
                None => (r matches Err(e) && e@ == DavFault::BadXml) && after == before,
                Some(nodes) => match resources_in(
                    nodes,
                    nodes.len() as int,
                    calendar@,
                    expanded,
                ) {
                    Err(fault) => (r matches Err(e) && e@ == fault) && after == before,
                    Ok(list) => r is Ok && leads_to(before, window, source@, list, after),
                },
            }
        }),
{
    let list = match read_resources(xml, calendar, expanded) {
        Err(e) => return Err(e),
        Ok(list) => list,
    };
    let ghost all = resource_views(list@);
    let ghost before = (seen@, crate::remote::remote_views(events@));
    let ghost mut taken: Seq<Seq<LocalSpan>> = Seq::empty();
    let mut i: usize = 0;
    while i < list.len()
        invariant
            events.wf(),
            all == resource_views(list@),
            i <= list@.len(),
            taken.len() == i,
            forall|k: int| 0 <= k < list@.len() ==> valid_resource(#[trigger] list@[k]@),
            are_local_all(all.take(i as int), taken),
            (seen@, crate::remote::remote_views(events@)) == with_resources(
                before,
                window,
                source@,
                all.take(i as int),
                taken,
            ),
        decreases list@.len() - i,
    {
        let r = &list[i];
        assert(valid_resource(list@[i as int]@));
        assert forall|k: int| 0 <= k < r.events@.len() implies crate::ics::valid_event(
            #[trigger] r.events@[k]@,
        ) by {
            assert(crate::ics::valid_event(r@.events[k]));
        }
        let spans = spans_of(&r.events);
        mirror_resource(r, &spans, window, source, seen, events);
        proof {
            let n = i as int;
            let longer = taken.push(spans@);
            lemma_earlier_spans(before, window, source@, all.take(n), taken, longer);
            assert(all.take(n + 1).drop_last() =~= all.take(n));
            assert forall|k: int| 0 <= k < longer.len() implies are_local_spans(
                all.take(n + 1)[k].events,
                #[trigger] longer[k],
            ) by {
                if k < n {
                    assert(are_local_spans(all.take(n)[k].events, taken[k]));
                }
            }
            taken = longer;
        }
        i = i + 1;
    }
    assert(all.take(i as int) =~= all);
    Ok(())
}

// ── The questions ─────────────────────────────────────────────────────────

/// Asks for the principal of the account.
pub const PRINCIPAL_QUERY: &'static str =
    "<?xml version=\"1.0\" encoding=\"utf-8\"?>\n<propfind xmlns=\"DAV:\"><prop><current-user-principal/></prop></propfind>";

/// Asks for the home of the calendars of a principal.
pub const HOME_QUERY: &'static str =
    "<?xml version=\"1.0\" encoding=\"utf-8\"?>\n<propfind xmlns=\"DAV:\" xmlns:C=\"urn:ietf:params:xml:ns:caldav\"><prop><C:calendar-home-set/></prop></propfind>";

/// Asks for the calendars of a home.
pub const CALENDARS_QUERY: &'static str =
    "<?xml version=\"1.0\" encoding=\"utf-8\"?>\n<propfind xmlns=\"DAV:\" xmlns:C=\"urn:ietf:params:xml:ns:caldav\">\n  <prop><resourcetype/><displayname/><C:supported-calendar-component-set/></prop>\n</propfind>";

/// Asks for the tag of a resource.
pub const ETAG_QUERY: &'static str =
    "<?xml version=\"1.0\" encoding=\"utf-8\"?>\n<propfind xmlns=\"DAV:\"><prop><getetag/></prop></propfind>";

/// Asks for the events of a calendar between two instants, with those that repeat expanded
/// into their instances or as they are.
pub open spec fn query_text(start: Seq<char>, end: Seq<char>, expand: bool) -> Seq<char> {
    let data = if expand {
        "<C:calendar-data><C:expand start=\""@ + start + "\" end=\""@ + end
            + "\"/></C:calendar-data>"@
    } else {
        "<C:calendar-data/>"@
    };
    "<?xml version=\"1.0\" encoding=\"utf-8\"?>\n<C:calendar-query xmlns:D=\"DAV:\" xmlns:C=\"urn:ietf:params:xml:ns:caldav\">\n  <D:prop><D:getetag/>"@
        + data
        + "</D:prop>\n  <C:filter><C:comp-filter name=\"VCALENDAR\"><C:comp-filter name=\"VEVENT\">\n    <C:time-range start=\""@
        + start + "\" end=\""@ + end
        + "\"/>\n  </C:comp-filter></C:comp-filter></C:filter>\n</C:calendar-query>"@
}

/// Asks for the events of a calendar between two instants.
pub fn calendar_query(start: &str, end: &str, expand: bool) -> (query: String)
    ensures
        query@ == query_text(start@, end@, expand),
{
    let mut q =
        "<?xml version=\"1.0\" encoding=\"utf-8\"?>\n<C:calendar-query xmlns:D=\"DAV:\" xmlns:C=\"urn:ietf:params:xml:ns:caldav\">\n  <D:prop><D:getetag/>".to_owned();
    if expand {
        q.append("<C:calendar-data><C:expand start=\"");
        q.append(start);
        q.append("\" end=\"");
        q.append(end);
        q.append("\"/></C:calendar-data>");
    } else {
        q.append("<C:calendar-data/>");
    }
    q.append(
        "</D:prop>\n  <C:filter><C:comp-filter name=\"VCALENDAR\"><C:comp-filter name=\"VEVENT\">\n    <C:time-range start=\"",
    );
    q.append(start);
    q.append("\" end=\"");
    q.append(end);
    q.append("\"/>\n  </C:comp-filter></C:comp-filter></C:filter>\n</C:calendar-query>");
    assert(q@ =~= query_text(start@, end@, expand));
    q
}

/// Asks for the tag of the resource at an address.
pub fn etag_request(url: &str) -> (r: Request)
    ensures
        r@ == crate::http::dav_view("PROPFIND"@, url@, "0"@, ETAG_QUERY@),
{
    dav_request("PROPFIND", url, "0", ETAG_QUERY)
}

/// The beginning of a day in UTC.
pub open spec fn midnight_text(d: Date) -> Seq<char> {
    crate::date::compact_text(d) + "T000000Z"@
}

fn write_midnight(d: Date) -> (s: String)
    requires
        crate::date::valid_date(d),
    ensures
        s@ == midnight_text(d),
{
    let mut s = write_compact(d);
    s.append("T000000Z");
    s
}

// ── Fetching an account ───────────────────────────────────────────────────

/// What is asked of the server next.
#[derive(Clone, Copy, Debug, PartialEq, Eq, Structural)]
pub enum Stage {
    /// The principal of the account.
    Principal,
    /// The home of its calendars.
    Home,
    /// The calendars.
    Calendars,
    /// The events of one calendar after the other.
    Events,
}

/// The fetch of an account under way.
pub struct DavFetch {
    window: (Date, Date),
    source: String,
    stage: Stage,
    url: String,
    calendars: Vec<RemoteCalendar>,
    at: usize,
    expand: bool,
    seen: Seen,
    events: UidMap<RemoteEvent>,
}

#[verifier::ext_equal]
pub struct FetchView {
    pub window: (Date, Date),
    pub source: Seq<char>,
    pub stage: Stage,
    /// The address that is asked, before there are calendars.
    pub url: Seq<char>,
    pub calendars: Seq<crate::remote::CalendarView>,
    /// The number of calendars whose events are there.
    pub at: int,
    /// Whether events that repeat are to come expanded.
    pub expand: bool,
    pub mirrored: Mirrored,
}

/// The question that is asked next: none when the events of all calendars are there.
pub open spec fn fetch_request(f: FetchView) -> Result<
    Option<crate::http::RequestView>,
    DavFault,
> {
    match f.stage {
        Stage::Principal => Ok(
            Some(crate::http::dav_view("PROPFIND"@, f.url, "0"@, PRINCIPAL_QUERY@)),
        ),
        Stage::Home => Ok(Some(crate::http::dav_view("PROPFIND"@, f.url, "0"@, HOME_QUERY@))),
        Stage::Calendars => Ok(
            Some(crate::http::dav_view("PROPFIND"@, f.url, "1"@, CALENDARS_QUERY@)),
        ),
        Stage::Events => if f.at >= f.calendars.len() {
            Ok(None)
        } else {
            match crate::url::url_read(f.calendars[f.at].target) {
                None => Err(DavFault::BadUrl(f.calendars[f.at].target)),
                Some(url) => Ok(
                    Some(
                        crate::http::dav_view(
                            "REPORT"@,
                            url,
                            "1"@,
                            query_text(
                                midnight_text(f.window.0),
                                midnight_text(f.window.1),
                                f.expand,
                            ),
                        ),
                    ),
                ),
            }
        },
    }
}

/// Whether the fetch `f` goes on as `g` once the server has replied; the zone of the machine
/// decides what timed events read as.
pub open spec fn fetch_goes_on(f: FetchView, reply: Seq<char>, g: Result<FetchView, DavFault>) -> bool {
    match f.stage {
        Stage::Principal => g == match discovered(reply, f.url, "current-user-principal"@) {
            Ok(url) => Ok(FetchView { stage: Stage::Home, url, ..f }),
            Err(e) => Err(e),
        },
        Stage::Home => g == match discovered(reply, f.url, "calendar-home-set"@) {
            Ok(url) => Ok(FetchView { stage: Stage::Calendars, url, ..f }),
            Err(e) => Err(e),
        },
        Stage::Calendars => g == match crate::xml::xml_read(reply) {
            None => Err(DavFault::BadXml),
            Some(nodes) => match calendars_in(nodes, nodes.len() as int, f.url) {
                Ok(calendars) => Ok(FetchView { stage: Stage::Events, calendars, ..f }),
                Err(e) => Err(e),
            },
        },
        Stage::Events => match crate::url::url_read(f.calendars[f.at].target) {
            None => g == Err::<FetchView, DavFault>(DavFault::BadUrl(f.calendars[f.at].target)),
            Some(url) => match crate::xml::xml_read(reply) {
                None => g == Err::<FetchView, DavFault>(DavFault::BadXml),
                Some(nodes) => match resources_in(nodes, nodes.len() as int, url, f.expand) {
                    Err(e) => g == Err::<FetchView, DavFault>(e),
                    Ok(list) => {
                        &&& g matches Ok(g)
                        &&& g == (FetchView {
                            at: f.at + 1,
                            expand: true,
                            mirrored: g.mirrored,
                            ..f
                        })
                        &&& leads_to(f.mirrored, f.window, f.source, list, g.mirrored)
                    },
                },
            },
        },
    }
}

impl DavFetch {
    pub closed spec fn view(&self) -> FetchView {
        FetchView {
            window: self.window,
            source: self.source@,
            stage: self.stage,
            url: self.url@,
            calendars: crate::remote::calendar_views(self.calendars@),
            at: self.at as int,
            expand: self.expand,
            mirrored: (self.seen@, crate::remote::remote_views(self.events@)),
        }
    }

    /// The invariant.
    pub closed spec fn wf(&self) -> bool {
        &&& self.events.wf()
        &&& crate::date::valid_date(self.window.0)
        &&& crate::date::valid_date(self.window.1)
        &&& self.at <= self.calendars@.len()
        &&& self.stage != Stage::Events ==> self.at == 0
    }

    /// Begins a fetch of the events within a window of days.
    pub fn begin(window: (Date, Date), source: String) -> (f: DavFetch)
        requires
            crate::date::valid_date(window.0),
            crate::date::valid_date(window.1),
        ensures
            f.wf(),
            f@ == (FetchView {
                window,
                source: source@,
                stage: Stage::Principal,
                url: CALDAV_ROOT@,
                calendars: Seq::empty(),
                at: 0,
                expand: true,
                mirrored: (Set::empty(), Map::empty()),
            }),
    {
        let f = DavFetch {
            window,
            source,
            stage: Stage::Principal,
            url: CALDAV_ROOT.to_owned(),
            calendars: Vec::new(),
            at: 0,
            expand: true,
            seen: Seen::new(),
            events: UidMap::new(),
        };
        assert(f@.calendars =~= Seq::empty());
        assert(f@.mirrored.1 =~= Map::empty());
        f
    }

    /// The name of the calendar whose events are asked for, while that is so.
    pub fn calendar_name(&self) -> (name: Option<String>)
        requires
            self.wf(),
        ensures
            crate::text::opt_text(name) == if self@.stage == Stage::Events && self@.at
                < self@.calendars.len() {
                Some(self@.calendars[self@.at].name)
            } else {
                None
            },
    {
        match self.stage {
            Stage::Events if self.at < self.calendars.len() => Some(
                self.calendars[self.at].name.clone(),
            ),
            _ => None,
        }
    }

    /// The question to ask next; none when the fetch is over.
    pub fn request(&self) -> (r: Result<Option<Request>, DavError>)
        requires
            self.wf(),
        ensures
            match r {
                Ok(Some(r)) => fetch_request(self@) == Ok::<
                    Option<crate::http::RequestView>,
                    DavFault,
                >(Some(r@)),
                Ok(None) => fetch_request(self@) == Ok::<
                    Option<crate::http::RequestView>,
                    DavFault,
                >(None),
                Err(e) => fetch_request(self@) == Err::<
                    Option<crate::http::RequestView>,
                    DavFault,
                >(e@),
            },
    {
        match self.stage {
            Stage::Principal => Ok(
                Some(dav_request("PROPFIND", self.url.as_str(), "0", PRINCIPAL_QUERY)),
            ),
            Stage::Home => Ok(Some(dav_request("PROPFIND", self.url.as_str(), "0", HOME_QUERY))),
            Stage::Calendars => Ok(
                Some(dav_request("PROPFIND", self.url.as_str(), "1", CALENDARS_QUERY)),
            ),
            Stage::Events => {
                if self.at >= self.calendars.len() {
                    return Ok(None);
                }
                assert(self@.calendars[self.at as int] == self.calendars@[self.at as int]@);
                match parse_url(self.calendars[self.at].target.as_str()) {
                    None => Err(DavError::BadUrl(self.calendars[self.at].target.clone())),
                    Some(url) => {
                        let start = write_midnight(self.window.0);
                        let end = write_midnight(self.window.1);
                        let query = calendar_query(start.as_str(), end.as_str(), self.expand);
                        Ok(Some(dav_request("REPORT", url.as_str(), "1", query.as_str())))
                    },
                }
            },
        }
    }

    /// The server has replied.
    pub fn replied(self, reply: &str) -> (g: Result<DavFetch, DavError>)
        requires
            self.wf(),
            self@.stage == Stage::Events ==> self@.at < self@.calendars.len(),
        ensures
            match g {
                Ok(g) => g.wf() && fetch_goes_on(self@, reply@, Ok(g@)),
                Err(e) => fetch_goes_on(self@, reply@, Err(e@)),
            },
    {
        let ghost f = self@;
        let mut g = self;
        match g.stage {
            Stage::Principal => {
                match discover_href(reply, g.url.as_str(), "current-user-principal") {
                    Err(e) => return Err(e),
                    Ok(url) => {
                        g.url = url;
                        g.stage = Stage::Home;
                        assert(g@ =~= FetchView { stage: Stage::Home, url: url@, ..f });
                    },
                }
            },
            Stage::Home => {
                match discover_href(reply, g.url.as_str(), "calendar-home-set") {
                    Err(e) => return Err(e),
                    Ok(url) => {
                        g.url = url;
                        g.stage = Stage::Calendars;
                        assert(g@ =~= FetchView { stage: Stage::Calendars, url: url@, ..f });
                    },
                }
            },
            Stage::Calendars => {
                match list_event_calendars(reply, g.url.as_str()) {
                    Err(e) => return Err(e),
                    Ok(calendars) => {
                        g.calendars = calendars;
                        g.stage = Stage::Events;
                        assert(g@ =~= FetchView {
                            stage: Stage::Events,
                            calendars: crate::remote::calendar_views(calendars@),
                            ..f
                        });
                    },
                }
            },
            Stage::Events => {
                assert(f.calendars[f.at] == g.calendars@[f.at]@);
                let count: usize = g.calendars.len();
                assert(g.at < count);
                let url = match parse_url(g.calendars[g.at].target.as_str()) {
                    None => return Err(DavError::BadUrl(g.calendars[g.at].target.clone())),
                    Some(url) => url,
                };
                let fetched = fetch_events(
                    reply,
                    url.as_str(),
                    g.expand,
                    g.window,
                    g.source.as_str(),
                    &mut g.seen,
                    &mut g.events,
                );
                if let Err(e) = fetched {
                    return Err(e);
                }
                g.at = g.at + 1;
                g.expand = true;
                assert(g@ =~= FetchView {
                    at: f.at + 1,
                    expand: true,
                    mirrored: g@.mirrored,
                    ..f
                });
            },
        }
        Ok(g)
    }

    /// The server has refused the question. Only events that were to come expanded are asked
    /// for again, as they are; otherwise the fetch has failed.
    pub fn refused(self) -> (g: Option<DavFetch>)
        requires
            self.wf(),
        ensures
            match g {
                Some(g) => {
                    &&& g.wf()
                    &&& self@.stage == Stage::Events
                    &&& self@.expand
                    &&& g@ == (FetchView { expand: false, ..self@ })
                },
                None => self@.stage != Stage::Events || !self@.expand,
            },
    {
        match self.stage {
            Stage::Events => {
                if !self.expand {
                    return None;
                }
                let ghost f = self@;
                let mut g = self;
                g.expand = false;
                assert(g@ =~= FetchView { expand: false, ..f });
                Some(g)
            },
            _ => None,
        }
    }

    /// What the account holds, once the fetch is over.
    pub fn finish(self) -> (r: Remote)
        requires
            self.wf(),
        ensures
            r.events.wf(),
            crate::remote::calendar_views(r.calendars@) == self@.calendars,
            crate::remote::remote_views(r.events@) == self@.mirrored.1,
    {
        Remote { calendars: self.calendars, events: self.events }
    }
}

} // verus!
