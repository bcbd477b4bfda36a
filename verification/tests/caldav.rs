use cce_calendar::caldav::{
    calendar_query, discover_href, etag_request, fetch_etag, fetch_events, find_href,
    keep_resource, lead_alike, list_event_calendars, read_resources, DavError, DavFetch,
    CALDAV_ROOT,
};
use cce_calendar::date::Date;
use cce_calendar::http::{is_deleted, is_success, read_stored, Stored};
use cce_calendar::ics::parse_ics_events;
use cce_calendar::mirror::Seen;
use cce_calendar::remote::RemoteEvent;
use cce_calendar::uid_map::UidMap;
use cce_calendar::xml::XmlNode;

fn window() -> (Date, Date) {
    (Date { year: 2026, month: 9, day: 1 }, Date { year: 2026, month: 12, day: 1 })
}

fn event(uid: &str, date: &str, title: &str) -> String {
    format!(
        "BEGIN:VEVENT&#13;\nUID:{uid}&#13;\nDTSTART;VALUE=DATE:{date}&#13;\nSUMMARY:{title}&#13;\nEND:VEVENT&#13;\n"
    )
}

fn response(href: &str, etag: &str, ics: &str) -> String {
    format!(
        "<D:response><D:href>{href}</D:href><D:propstat><D:prop><D:getetag>{etag}</D:getetag>\
         <C:calendar-data>BEGIN:VCALENDAR\n{ics}END:VCALENDAR\n</C:calendar-data>\
         </D:prop></D:propstat></D:response>"
    )
}

fn multistatus(inner: &str) -> String {
    format!(
        "<?xml version=\"1.0\"?><D:multistatus xmlns:D=\"DAV:\" \
         xmlns:C=\"urn:ietf:params:xml:ns:caldav\">{inner}</D:multistatus>"
    )
}

fn principal() -> String {
    multistatus(
        "<D:response><D:href>/</D:href><D:prop><D:current-user-principal>\
         <D:href> /123/principal/ </D:href></D:current-user-principal></D:prop></D:response>",
    )
}

fn home() -> String {
    multistatus(
        "<D:response><D:prop><C:calendar-home-set><D:href>https://p01.example.com/123/calendars/\
         </D:href></C:calendar-home-set></D:prop></D:response>",
    )
}

fn listing() -> String {
    let of = |href: &str, name: &str, kind: &str, comps: &str| {
        format!(
            "<D:response><D:href>{href}</D:href><D:propstat><D:prop>{name}<D:resourcetype>\
             <D:collection/>{kind}</D:resourcetype><C:supported-calendar-component-set>{comps}\
             </C:supported-calendar-component-set></D:prop></D:propstat></D:response>"
        )
    };
    let cal = "<C:calendar/>";
    let named = |n: &str| format!("<D:displayname>{n}</D:displayname>");
    multistatus(
        &[
            of("/123/calendars/", &named("Root"), cal, ""),
            of("/123/calendars/home/", &named("Home"), cal, "<C:comp name=\"VEVENT\"/>"),
            of("/123/calendars/tasks/", &named("Tasks"), cal, "<C:comp name=\"VTODO\"/>"),
            of("/123/calendars/inbox/", &named("Inbox"), "", ""),
            of("/123/calendars/work/", "", cal, ""),
            of("/123/calendars/other/", &named("Other"), "<D:calendar/>", ""),
        ]
        .concat(),
    )
}

#[test]
fn references_are_found_and_joined() {
    assert_eq!(
        discover_href(&principal(), CALDAV_ROOT, "current-user-principal"),
        Ok("https://caldav.icloud.com/123/principal/".to_string())
    );
    assert_eq!(
        discover_href(&home(), CALDAV_ROOT, "calendar-home-set"),
        Ok("https://p01.example.com/123/calendars/".to_string())
    );
    assert_eq!(
        discover_href(&home(), CALDAV_ROOT, "current-user-principal"),
        Err(DavError::NoProperty("current-user-principal".into()))
    );
    assert_eq!(discover_href("<a>", CALDAV_ROOT, "a"), Err(DavError::BadXml));
    assert_eq!(
        discover_href("<a><href> https://[</href></a>", CALDAV_ROOT, "a"),
        Err(DavError::BadHref(" https://[".into()))
    );
}

#[test]
fn references_below_an_element() {
    let node = |name: &str, text: Option<&str>, depth: usize| XmlNode {
        name: name.into(),
        namespace: None,
        text: text.map(String::from),
        attributes: vec![],
        depth,
    };
    let nodes = vec![
        node("", None, 0),
        node("other", None, 1),
        node("href", Some("no"), 2),
        node("prop", None, 1),
        node("deep", None, 2),
        node("href", Some("yes"), 3),
    ];
    assert_eq!(find_href(&nodes, "prop").map(String::as_str), Some("yes"));
    assert_eq!(find_href(&nodes, "deep").map(String::as_str), Some("yes"));
    assert_eq!(find_href(&nodes, "gone"), None);
}

#[test]
fn event_calendars_are_listed() {
    let found = list_event_calendars(&listing(), "https://p01.example.com/123/calendars").unwrap();
    let found: Vec<(&str, &str)> =
        found.iter().map(|c| (c.target.as_str(), c.name.as_str())).collect();
    assert_eq!(
        found,
        vec![
            ("https://p01.example.com/123/calendars/home/", "Home"),
            ("https://p01.example.com/123/calendars/work/", "/123/calendars/work/"),
        ]
    );
    assert!(matches!(list_event_calendars("", CALDAV_ROOT), Err(DavError::BadXml)));
    assert_eq!(
        list_event_calendars(&listing().replace("/123/calendars/work/", "https://["), CALDAV_ROOT).err(),
        Some(DavError::BadHref("https://[".into()))
    );
    assert!(lead_alike("/a//", "/a"));
    assert!(!lead_alike("/a/b", "/a"));
}

#[test]
fn components_are_named_in_any_namespace() {
    for (comp, name, kept) in [
        ("<C:comp name=\"VEVENT\"/>", Some("VEVENT"), true),
        ("<C:comp C:name=\"VEVENT\"/>", Some("VEVENT"), true),
        ("<C:comp name=\"VTODO\"/>", Some("VTODO"), false),
        ("<C:comp C:name=\"VTODO\"/>", Some("VTODO"), false),
        ("<C:comp C:name=\"VTODO\" name=\"VEVENT\"/>", Some("VTODO"), false),
        ("<C:comp name=\"VEVENT\" C:name=\"VTODO\"/>", Some("VEVENT"), true),
        ("<C:comp/>", None, true),
    ] {
        let xml = multistatus(
            &["<D:response><D:href>/c/</D:href><C:calendar/>", comp, "</D:response>"].concat(),
        );
        let doc = roxmltree::Document::parse(&xml).unwrap();
        let node = doc.descendants().find(|n| n.tag_name().name() == "comp").unwrap();
        assert_eq!(node.attribute("name"), name);
        let found = list_event_calendars(&xml, "https://host/").unwrap();
        assert_eq!(found.len() == 1, kept);
    }
}

#[test]
fn resources_are_read() {
    let ics = [event("a", "20260910", "one"), event("a", "20260917", "two")].concat();
    let xml = multistatus(
        &[
            response("/c/a.ics", "\"1\"", &ics),
            response("/c/b.ics", "", &event("b", "20260911", "single")),
            response("/c/none.ics", "", ""),
            "<D:response><D:href>/c/empty.ics</D:href></D:response>".to_string(),
        ]
        .concat(),
    );
    let found = read_resources(&xml, "https://host/c/", true).unwrap();
    assert_eq!(found.len(), 2);
    assert_eq!(found[0].uid, "a");
    assert_eq!(found[0].url, "https://host/c/a.ics");
    assert_eq!(found[0].etag, "\"1\"");
    assert!(found[0].recurring);
    assert_eq!(found[0].events.len(), 2);
    assert!(!found[1].recurring);
    assert_eq!(found[1].lines[0], "BEGIN:VCALENDAR");
    // Without expansion, events that repeat cannot be mirrored.
    let found = read_resources(&xml, "https://host/c/", false).unwrap();
    assert_eq!(found.len(), 1);
    assert_eq!(found[0].uid, "b");
    assert!(matches!(read_resources("<", "https://host/", true), Err(DavError::BadXml)));
    let bad = multistatus(&response("https://[", "", &event("b", "20260911", "x")));
    assert_eq!(
        read_resources(&bad, "https://host/", true).err(),
        Some(DavError::BadHref("https://[".into()))
    );
}

#[test]
fn a_rule_or_a_recurrence_id_makes_a_resource_recurring() {
    let keep = |more: &str, expanded: bool| {
        let ics = format!("BEGIN:VEVENT\nUID:u\n{more}\nEND:VEVENT");
        keep_resource("url".into(), "".into(), parse_ics_events(&ics), vec![], expanded)
    };
    assert!(!keep("SUMMARY:x", true).unwrap().recurring);
    assert!(keep("RRULE:FREQ=DAILY", true).unwrap().recurring);
    assert!(keep("RECURRENCE-ID:20260910", true).unwrap().recurring);
    assert!(keep("RDATE:20260910", false).is_none());
    assert!(keep_resource("u".into(), "".into(), vec![], vec![], true).is_none());
}

#[test]
fn events_are_mirrored() {
    let xml = multistatus(&response("b.ics", "t", &event("b", "20260911", "single")));
    let mut seen = Seen::new();
    let mut events: UidMap<RemoteEvent> = UidMap::new();
    let r = fetch_events(&xml, "https://host/c/", true, window(), "s", &mut seen, &mut events);
    assert_eq!(r, Ok(()));
    let e = events.get("b").unwrap();
    assert_eq!(e.url, "https://host/c/b.ics");
    assert_eq!(e.etag, "t");
    assert_eq!(e.instances.len(), 1);
    assert_eq!(e.instances[0].date, "2026-09-11");
    assert_eq!(e.instances[0].source.as_deref(), Some("s"));
    // The same day, time and title again gives no second record.
    let again = multistatus(&response("c.ics", "t", &event("c", "20260911", "single")));
    let r = fetch_events(&again, "https://host/c/", true, window(), "s", &mut seen, &mut events);
    assert_eq!(r, Ok(()));
    assert!(events.get("c").unwrap().instances.is_empty());
}

#[test]
fn an_account_is_fetched_step_by_step() {
    let ask = |f: &DavFetch| f.request().unwrap().unwrap();
    let f = DavFetch::begin(window(), "s".into());
    let r = ask(&f);
    assert_eq!((r.method.as_str(), r.url.as_str()), ("PROPFIND", CALDAV_ROOT));
    assert_eq!(r.headers[0], ("Depth".to_string(), "0".to_string()));
    assert!(r.body.unwrap().contains("<current-user-principal/>"));
    assert!(DavFetch::begin(window(), "s".into()).refused().is_none());
    let f = f.replied(&principal()).ok().unwrap();
    assert_eq!(ask(&f).url, "https://caldav.icloud.com/123/principal/");
    let f = f.replied(&home()).ok().unwrap();
    assert_eq!(f.calendar_name(), None);
    let r = ask(&f);
    assert_eq!(r.url, "https://p01.example.com/123/calendars/");
    assert_eq!(r.headers[0].1, "1");
    let f = f.replied(&listing()).ok().unwrap();
    let r = ask(&f);
    assert_eq!((r.method.as_str(), r.url.as_str()), ("REPORT", "https://p01.example.com/123/calendars/home/"));
    assert_eq!(r.body, Some(calendar_query("20260901T000000Z", "20261201T000000Z", true)));
    assert_eq!(f.calendar_name().as_deref(), Some("Home"));
    // Where the server does not expand, it is asked again; a second refusal is final.
    let f = f.refused().unwrap();
    assert_eq!(ask(&f).body, Some(calendar_query("20260901T000000Z", "20261201T000000Z", false)));
    let one = multistatus(&response("b.ics", "t", &event("b", "20260911", "single")));
    let f = f.replied(&one).ok().unwrap();
    assert_eq!(ask(&f).url, "https://p01.example.com/123/calendars/work/");
    assert!(ask(&f).body.unwrap().contains("<C:expand start=\"20260901T000000Z\""));
    assert_eq!(f.calendar_name().as_deref(), Some("/123/calendars/work/"));
    let f = f.replied(&multistatus("")).ok().unwrap();
    assert!(matches!(f.request(), Ok(None)));
    assert_eq!(f.calendar_name(), None);
    let remote = f.finish();
    assert_eq!(remote.calendars.len(), 2);
    assert_eq!(remote.events.len(), 1);
    assert!(remote.events.contains_key("b"));
}

#[test]
fn a_second_refusal_is_final() {
    let f = DavFetch::begin(window(), "s".into());
    let f = f.replied(&principal()).ok().unwrap();
    let f = f.replied(&home()).ok().unwrap();
    let f = f.replied(&listing()).ok().unwrap();
    assert!(f.refused().unwrap().refused().is_none());
}

#[test]
fn tags() {
    let xml = multistatus("<D:response><D:getetag>\"5\"</D:getetag></D:response>");
    assert_eq!(fetch_etag(&xml), Some("\"5\"".to_string()));
    assert_eq!(fetch_etag(&multistatus("")), None);
    assert_eq!(fetch_etag("no xml"), None);
    let r = etag_request("https://host/a.ics");
    assert_eq!((r.method.as_str(), r.url.as_str()), ("PROPFIND", "https://host/a.ics"));
    assert!(r.body.unwrap().contains("<getetag/>"));
}

#[test]
fn what_a_status_means() {
    assert!(is_success(200) && is_success(299) && !is_success(300) && !is_success(199));
    assert!(is_deleted(204) && is_deleted(404) && !is_deleted(410));
    assert!(matches!(read_stored(412, Some("t")), Stored::Refused));
    assert!(matches!(read_stored(201, Some("t")), Stored::Tagged(t) if t == "t"));
    assert!(matches!(read_stored(201, Some("")), Stored::Untagged));
    assert!(matches!(read_stored(204, None), Stored::Untagged));
}
