use cce_calendar::date::{Date, Moment};
use cce_calendar::google::{
    assemble, google_body, google_event, google_events_url, keep_calendar, urlencode,
    write_timed_body, GoogleError, GoogleFetch,
};
use cce_calendar::ics::DtValue;
use cce_calendar::push::{
    google_access_token, google_create, google_created, google_delete, google_reply, google_update,
    google_updated, icloud_create, icloud_update, identify_created, is_already_gone, read_reply,
    read_token, PushError, TokenError,
};
use cce_calendar::record::EventRecord;
use cce_calendar::when::{RecordError, Span};
use serde_json::Value;

fn record(date: &str, time: Option<&str>, title: &str) -> EventRecord {
    EventRecord {
        date: date.into(),
        time: time.map(String::from),
        title: title.into(),
        uid: None,
        source: None,
        recurring: false,
    }
}

fn window() -> (Date, Date) {
    (Date { year: 2026, month: 9, day: 1 }, Date { year: 2026, month: 12, day: 1 })
}

#[test]
fn google_body_shapes() {
    let body = |r: &EventRecord| -> Value { serde_json::from_str(&google_body(r).unwrap()).unwrap() };
    let all_day = body(&record("2026-09-10", None, "x"));
    assert_eq!(all_day["start"]["date"], "2026-09-10");
    assert_eq!(all_day["end"]["date"], "2026-09-11");
    let timed = body(&record("2026-09-10", Some("09:30"), "x"));
    assert!(timed["start"]["dateTime"].as_str().unwrap().starts_with("2026-09-10T09:30:00"));
}

#[test]
fn bodies_quote_titles() {
    let text = google_body(&record("2026-12-31", None, "a \"b\" \\ c\n")).unwrap();
    let body: Value = serde_json::from_str(&text).unwrap();
    assert_eq!(body["summary"], "a \"b\" \\ c\n");
    assert_eq!(body["end"]["date"], "2027-01-01");
    assert_eq!(body.as_object().unwrap().len(), 3);
    assert_eq!(google_body(&record("never", None, "x")), Err(RecordError::BadDate));
}

#[test]
fn quoted_titles_to_the_letter() {
    let text = google_body(&record("2026-09-10", None, "\"\\/\n\r\t\u{8}\u{c}\u{0}\u{1f}\u{7f}\u{e9}\u{1f600}")).unwrap();
    assert_eq!(
        text,
        [
            "{\"end\":{\"date\":\"2026-09-11\"},\"start\":{\"date\":\"2026-09-10\"},\"summary\":",
            "\"\\\"\\\\/\\n\\r\\t\\b\\f\\u0000\\u001f\u{7f}\u{e9}\u{1f600}\"}",
        ]
        .concat()
    );
}

#[test]
fn a_timed_body_to_the_letter() {
    let at = |hour: u32| Moment {
        date: Date { year: 2026, month: 10, day: 25 },
        hour,
        minute: 30,
        second: 0,
    };
    // The clocks go back within the hour.
    let span = Span { start: at(0), start_offset: 7200, end: at(1), end_offset: 3600 };
    assert_eq!(
        write_timed_body("x", &span),
        "{\"end\":{\"dateTime\":\"2026-10-25T02:30:00+01:00\"},\"start\":{\"dateTime\":\"2026-10-25T02:30:00+02:00\"},\"summary\":\"x\"}"
    );
}

#[test]
fn a_timed_body_is_an_hour_long() {
    let text = google_body(&record("2026-09-10", Some("09:30"), "x")).unwrap();
    let body: Value = serde_json::from_str(&text).unwrap();
    let at = |k: &str| {
        chrono::DateTime::parse_from_rfc3339(body[k]["dateTime"].as_str().unwrap()).unwrap()
    };
    assert_eq!(at("end") - at("start"), chrono::Duration::minutes(60));
}

#[test]
fn ids_in_paths() {
    assert_eq!(urlencode("a@b/c#d?e%f g"), "a%40b%2Fc%23d%3Fe%25f g");
    assert_eq!(
        google_events_url("me@x.org"),
        "https://www.googleapis.com/calendar/v3/calendars/me%40x.org/events"
    );
    assert_ne!(urlencode("a@b"), urlencode("a%40b"));
}

#[test]
fn items_become_events() {
    let ev = google_event(
        r#"{"iCalUID":"u","summary":"s","status":"confirmed",
            "start":{"date":"2026-09-10"},"end":{"date":"2026-09-12"}}"#,
    )
    .unwrap();
    assert_eq!((ev.uid.as_str(), ev.summary.as_str(), ev.cancelled), ("u", "s", false));
    assert!(matches!(ev.dtstart, Some(DtValue::Date(d)) if d.day == 10));
    assert!(matches!(ev.dtend, Some(DtValue::Date(d)) if d.day == 12));
    let ev = google_event(
        r#"{"status":"cancelled","start":{"dateTime":"2026-09-10T09:30:00+02:00"}}"#,
    )
    .unwrap();
    assert!(ev.cancelled && ev.uid.is_empty() && ev.dtend.is_none());
    assert!(matches!(ev.dtstart, Some(DtValue::Utc(m)) if m.hour == 7 && m.minute == 30));
    assert!(google_event(r#"{"summary":"no start"}"#).is_none());
    assert!(google_event(r#"{"start":{"date":"10.9.2026"}}"#).is_none());
}

#[test]
fn parts_of_an_item() {
    let day = DtValue::Date(Date { year: 2026, month: 9, day: 10 });
    let ev = assemble(None, Some("s".into()), Some(day.clone()), None, Some("cancelled".into()));
    let ev = ev.unwrap();
    assert!(ev.cancelled && ev.uid.is_empty() && ev.summary == "s");
    assert!(!ev.has_rrule && !ev.has_recurrence_id);
    assert!(assemble(None, None, None, Some(day), None).is_none());
}

#[test]
fn hidden_calendars_stay_hidden() {
    let keep = |id: Option<&str>, selected, deleted| {
        keep_calendar(id.map(String::from), None, selected, deleted, true)
    };
    let c = keep(Some("id"), true, false).unwrap();
    assert_eq!((c.target.as_str(), c.name.as_str(), c.primary), ("id", "?", true));
    assert!(keep(Some("id"), false, false).is_none());
    assert!(keep(Some("id"), true, true).is_none());
    assert!(keep(None, true, false).is_none());
}

#[test]
fn an_account_is_fetched_page_by_page() {
    let f = GoogleFetch::begin(window(), "google:me".into());
    let r = f.request().unwrap();
    assert_eq!(r.url, "https://www.googleapis.com/calendar/v3/users/me/calendarList");
    assert_eq!(r.query[0].0, "fields");
    let f = f
        .replied(
            r#"{"items":[{"id":"me@x","summary":"Me","selected":true,"primary":true},
                {"id":"hidden","selected":false},{"id":"gone","selected":true,"deleted":true}]}"#,
        )
        .ok()
        .unwrap();
    assert_eq!(f.calendar_name().as_deref(), Some("Me"));
    let r = f.request().unwrap();
    assert!(r.url.ends_with("/calendars/me%40x/events"));
    let query: Vec<(&str, &str)> = r.query.iter().map(|(k, v)| (k.as_str(), v.as_str())).collect();
    assert_eq!(query[0], ("singleEvents", "true"));
    assert_eq!(query[1], ("timeMin", "2026-09-01T00:00:00Z"));
    assert_eq!(query[2], ("timeMax", "2026-12-01T00:00:00Z"));
    assert_eq!(query[3], ("maxResults", "2500"));
    assert_eq!(query.len(), 5);
    let f = f
        .replied(
            r#"{"nextPageToken":"p2","items":[
                {"id":"1","iCalUID":"u1","etag":"e1","summary":"one","start":{"date":"2026-09-10"}},
                {"id":"2_a","iCalUID":"u2","recurringEventId":"2","summary":"rep","start":{"date":"2026-09-11"}},
                {"id":"3","status":"cancelled","start":{"date":"2026-09-11"}},
                {"id":"4"}]}"#,
        )
        .ok()
        .unwrap();
    let r = f.request().unwrap();
    assert_eq!(r.query[5], ("pageToken".to_string(), "p2".to_string()));
    let f = f
        .replied(
            r#"{"items":[{"id":"2_b","iCalUID":"u2","recurringEventId":"2","summary":"rep",
                "start":{"date":"2026-09-18"}}]}"#,
        )
        .ok()
        .unwrap();
    assert!(f.request().is_none());
    assert_eq!(f.calendar_name(), None);
    let remote = f.finish();
    assert_eq!(remote.calendars.len(), 1);
    assert!(remote.calendars[0].primary);
    assert_eq!(remote.events.len(), 2);
    let one = remote.events.get("u1").unwrap();
    assert!(one.url.ends_with("/calendars/me%40x/events/1"));
    assert_eq!((one.etag.as_str(), one.recurring, one.instances.len()), ("e1", false, 1));
    let rep = remote.events.get("u2").unwrap();
    assert!(rep.recurring && rep.instances.iter().all(|r| r.recurring));
    assert_eq!(rep.instances.len(), 2);
}

#[test]
fn google_writes() {
    let r = google_create("me", &record("2026-09-10", None, "x")).unwrap();
    assert_eq!(r.method, "POST");
    assert!(r.url.ends_with("/calendars/me/events"));
    assert_eq!(r.headers.len(), 1);
    let r = google_update("https://host/e", "tag", &record("2026-09-10", None, "x")).unwrap();
    assert_eq!((r.method.as_str(), r.url.as_str()), ("PATCH", "https://host/e"));
    assert_eq!(r.headers[1], ("If-Match".to_string(), "tag".to_string()));
    let r = google_update("https://host/e", "", &record("2026-09-10", None, "x")).unwrap();
    assert_eq!(r.headers.len(), 1);
    let bad = google_update("https://host/e", "", &record("2026-09-10", Some("9"), "x"));
    assert!(matches!(bad, Err(RecordError::BadTime)));
    let r = google_delete("https://host/e");
    assert_eq!(r.method, "DELETE");
    assert!(r.headers.is_empty() && r.body.is_none());
    assert_eq!(google_updated(r#"{"etag":"t"}"#), "t");
    assert_eq!(google_updated("null"), "");
}

#[test]
fn created_events_are_identified() {
    let (uid, url, etag) =
        google_created("me", r#"{"id":"i","iCalUID":"u","etag":"t"}"#).ok().unwrap();
    assert_eq!((uid.as_str(), etag.as_str()), ("u", "t"));
    assert!(url.ends_with("/calendars/me/events/i"));
    assert_eq!(google_created("me", r#"{"id":"i"}"#).ok().unwrap().0, "i");
    assert_eq!(google_created("me", "null").err(), Some(GoogleError::NoId));
    let r = identify_created(Some("i".into()), None, None, None);
    assert_eq!(r.err(), Some(GoogleError::BadUrl));
}

#[test]
fn replies_of_the_service() {
    let reply = |status, words: &str, text: &str| google_reply("GET", "https://h/", status, words, text);
    assert_eq!(reply(204, "204 No Content", "{"), Ok("null".to_string()));
    assert_eq!(reply(200, "200 OK", " \n"), Ok("null".to_string()));
    assert_eq!(reply(200, "200 OK", "{\"a\":1}"), Ok("{\"a\":1}".to_string()));
    assert_eq!(
        reply(403, "403 Forbidden", "no"),
        Err("GET https://h/: HTTP 403 Forbidden no".to_string())
    );
    assert!(reply(200, "200 OK", "{").unwrap_err().starts_with("GET https://h/: bad JSON: "));
    assert_eq!(
        read_reply("GET", "u", 200, "200 OK", "x", Some("why".into())),
        Err("GET u: bad JSON: why".to_string())
    );
}

#[test]
fn missing_events_count_as_deleted() {
    let gone = google_reply("DELETE", "https://h/e", 410, "410 Gone", "").unwrap_err();
    assert!(is_already_gone(&gone));
    let gone = google_reply("DELETE", "https://h/e", 404, "404 Not Found", "x").unwrap_err();
    assert!(is_already_gone(&gone));
    let other = google_reply("DELETE", "https://h/e", 403, "403 Forbidden", "").unwrap_err();
    assert!(!is_already_gone(&other));
}

#[test]
fn tokens() {
    assert_eq!(google_access_token(200, r#"{"access_token":"t"}"#), Ok("t".to_string()));
    assert_eq!(google_access_token(400, r#"{"error":"invalid_grant"}"#), Err(TokenError::Refused));
    assert_eq!(google_access_token(200, r#"{"access_token":5}"#), Err(TokenError::NoToken));
    assert_eq!(google_access_token(500, "<html>"), Err(TokenError::BadJson));
    assert_eq!(read_token(200, None, Some("x".into())), Ok("x".to_string()));
}

#[test]
fn icloud_writes() {
    let r = record("2026-09-10", None, "x");
    let (url, request) = icloud_create("U1", "https://host/c/", &r).unwrap();
    assert_eq!(url, "https://host/c/U1.ics");
    assert_eq!((request.method.as_str(), request.url.as_str()), ("PUT", "https://host/c/U1.ics"));
    assert_eq!(request.headers[1], ("If-None-Match".to_string(), "*".to_string()));
    assert!(request.body.unwrap().contains("\r\nUID:U1\r\n"));
    assert!(matches!(icloud_create("U1", "nowhere", &r), Err(PushError::BadUrl)));
    let bad = record("", None, "x");
    assert!(matches!(
        icloud_create("U1", "https://host/c/", &bad),
        Err(PushError::Record(RecordError::BadDate))
    ));
    let lines = vec!["BEGIN:VEVENT".to_string(), "END:VEVENT".to_string()];
    let request = icloud_update("https://host/e.ics", "t", &lines, &r).unwrap();
    assert_eq!(request.headers[1], ("If-Match".to_string(), "t".to_string()));
    assert_eq!(
        request.body.as_deref(),
        Some(
            "BEGIN:VEVENT\r\nSUMMARY:x\r\nDTSTART;VALUE=DATE:20260910\r\n\
             DTEND;VALUE=DATE:20260911\r\nEND:VEVENT\r\n"
        )
    );
    let request = icloud_update("https://host/e.ics", "", &lines, &r).unwrap();
    assert_eq!(request.headers.len(), 1);
    assert!(matches!(icloud_update("u", "t", &vec![], &r), Err(RecordError::NoEvent)));
}

#[test]
fn only_the_service_is_asked() {
    let f = GoogleFetch::begin(window(), "google:me".into());
    let list = r#"{"items":[{"id":"https://elsewhere/?","selected":true}]}"#;
    let f = f.replied(list).ok().unwrap();
    let r = f.request().unwrap();
    assert_eq!(
        r.url,
        "https://www.googleapis.com/calendar/v3/calendars/https:%2F%2Felsewhere%2F%3F/events"
    );
}
