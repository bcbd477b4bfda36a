use cce_calendar::date::{Date, Moment};
use cce_calendar::ics::{
    escape_text, parse_dt, parse_ics_events, prop_name, split_content_line, unescape_text, unfold,
    DtValue, VEvent,
};
use cce_calendar::mirror::{
    event_to_records, mirror_event, reading_at, to_local, LocalSpan, Seen,
};
use cce_calendar::record::EventRecord;
use cce_calendar::vevent::{ics_span, new_vevent, patch_vevent, write_new_event};
use cce_calendar::when::{end_of_record, parse_record_time, record_span, RecordError};

fn record(date: &str, time: Option<&str>, title: &str) -> EventRecord {
    EventRecord {
        date: date.into(),
        time: time.map(String::from),
        title: title.into(),
        uid: None,
        source: None,
        recurring: false,
    }
}

fn day(year: i32, month: u32, day: u32) -> Date {
    Date { year, month, day }
}

fn moment(d: Date, hour: u32, minute: u32) -> Moment {
    Moment { date: d, hour, minute, second: 0 }
}

#[test]
fn unfolds_continuation_lines() {
    let lines = unfold("SUMMARY:split\r\n  over\r\nUID:x\n\tmore");
    assert_eq!(lines, vec!["SUMMARY:split over", "UID:xmore"]);
}

#[test]
fn unfolding_drops_empty_lines_and_keeps_a_first_continuation() {
    assert_eq!(unfold(" a\r\n\r\nb\r\n"), vec![" a", "b"]);
    assert!(unfold("").is_empty());
}

#[test]
fn folding_a_line_anywhere_changes_nothing() {
    let text = "BEGIN:VEVENT\r\nSUMMARY:a b\r\n\r\nEND:VEVENT\r\n";
    let whole = unfold(text);
    for (at, _) in text.char_indices() {
        let (a, b) = text.split_at(at);
        if a.is_empty() || a.ends_with('\r') || a.ends_with('\n') {
            continue;
        }
        for fold in ["\r\n ", "\n ", "\r\n\t", "\n\t"] {
            assert_eq!(unfold(&[a, fold, b].concat()), whole);
        }
    }
    assert!(whole.iter().all(|l| !l.is_empty() && !l.contains('\n')));
}

#[test]
fn lines_read_back() {
    let lines = vec![" first", "a\r", "b\r\r", "c"];
    assert_eq!(unfold(&lines.iter().map(|l| format!("{l}\r\n")).collect::<String>()), lines);
}

#[test]
fn parses_expanded_utc_event() {
    let ics = "BEGIN:VCALENDAR\r\nBEGIN:VEVENT\r\nUID:abc\r\nDTSTART:20260901T140000Z\r\nDTEND:20260901T150000Z\r\nSUMMARY:Dentist\\, checkup\r\nEND:VEVENT\r\nEND:VCALENDAR\r\n";
    let events = parse_ics_events(ics);
    assert_eq!(events.len(), 1);
    assert_eq!(events[0].uid, "abc");
    assert_eq!(events[0].summary, "Dentist, checkup");
    assert!(matches!(events[0].dtstart, Some(DtValue::Utc(_))));
    assert!(!events[0].has_rrule && !events[0].has_recurrence_id);
}

#[test]
fn all_day_span_yields_one_record_per_day_dtend_exclusive() {
    let ev = VEvent {
        uid: "trip".into(),
        summary: "Trip".into(),
        dtstart: Some(DtValue::Date(day(2026, 9, 10))),
        dtend: Some(DtValue::Date(day(2026, 9, 13))),
        ..Default::default()
    };
    let window = (day(2026, 9, 1), day(2026, 12, 1));
    let (mut seen, mut out) = (Seen::new(), Vec::new());
    event_to_records(&ev, window, "icloud:x", false, &mut seen, &mut out);
    assert_eq!(
        out.iter().map(|r| r.date.as_str()).collect::<Vec<_>>(),
        vec!["2026-09-10", "2026-09-11", "2026-09-12"]
    );
    assert!(out.iter().all(|r| r.time.is_none() && r.source.as_deref() == Some("icloud:x")));
}

#[test]
fn cancelled_events_are_dropped() {
    let ics = "BEGIN:VEVENT\r\nUID:x\r\nSTATUS:CANCELLED\r\nDTSTART:20260901T140000Z\r\nEND:VEVENT\r\n";
    let ev = &parse_ics_events(ics)[0];
    let (mut seen, mut out) = (Seen::new(), Vec::new());
    let window = (day(2026, 1, 1), day(2027, 1, 1));
    event_to_records(ev, window, "s", false, &mut seen, &mut out);
    assert!(out.is_empty());
}

#[test]
fn new_vevent_all_day_and_timed() {
    let all_day = new_vevent("U1", &record("2026-09-10", None, "Trip, day")).unwrap();
    assert!(all_day.contains("DTSTART;VALUE=DATE:20260910"));
    assert!(all_day.contains("DTEND;VALUE=DATE:20260911"));
    assert!(all_day.contains("SUMMARY:Trip\\, day"));
    let timed = new_vevent("U2", &record("2026-09-10", Some("09:30"), "Call")).unwrap();
    // UTC form, an hour long; the exact hour depends on the local zone.
    assert!(timed.contains("DTSTART:20260910T") || timed.contains("DTSTART:20260911T"));
    assert!(timed.contains("Z\r\nDTEND:"));
}

#[test]
fn patch_keeps_foreign_properties_and_replaces_the_span() {
    let ics = "BEGIN:VCALENDAR\r\nVERSION:2.0\r\nBEGIN:VEVENT\r\nUID:u\r\nDTSTART;TZID=America/New_York:20261001T090000\r\nDURATION:PT30M\r\nSUMMARY:old\r\nBEGIN:VALARM\r\nTRIGGER:-PT10M\r\nEND:VALARM\r\nX-APPLE-TRAVEL:1\r\nEND:VEVENT\r\nEND:VCALENDAR\r\n";
    let patched = patch_vevent(&unfold(ics), &record("2026-10-02", None, "new")).unwrap();
    assert!(patched.contains("BEGIN:VALARM"));
    assert!(patched.contains("X-APPLE-TRAVEL:1"));
    assert!(patched.contains("SUMMARY:new"));
    assert!(patched.contains("DTSTART;VALUE=DATE:20261002"));
    assert!(!patched.contains("SUMMARY:old"));
    assert!(!patched.contains("DURATION"));
    assert!(!patched.contains("TZID"));
}

#[test]
fn patch_leaves_alarms_as_they_are() {
    let ics = "BEGIN:VEVENT\r\nSUMMARY:old\r\nBEGIN:VALARM\r\nSUMMARY:ring\r\nDURATION:PT5M\r\nEND:VALARM\r\nEND:VEVENT\r\n";
    let patched = patch_vevent(&unfold(ics), &record("2026-10-02", None, "new")).unwrap();
    assert_eq!(
        patched,
        "BEGIN:VEVENT\r\nBEGIN:VALARM\r\nSUMMARY:ring\r\nDURATION:PT5M\r\nEND:VALARM\r\nSUMMARY:new\r\nDTSTART;VALUE=DATE:20261002\r\nDTEND;VALUE=DATE:20261003\r\nEND:VEVENT\r\n"
    );
}

#[test]
fn patching_twice_is_patching_once() {
    let lines = unfold("BEGIN:VEVENT\r\nUID:u\r\nSUMMARY:a\r\nDTSTART:20260101T000000Z\r\nEND:VEVENT\r\n");
    let once = patch_vevent(&lines, &record("2026-10-02", None, "b")).unwrap();
    let last = record("2026-11-03", None, "c");
    assert_eq!(
        patch_vevent(&unfold(&once), &last).unwrap(),
        patch_vevent(&lines, &last).unwrap()
    );
    let events = parse_ics_events(&patch_vevent(&lines, &last).unwrap());
    assert_eq!(events.len(), 1);
    assert_eq!(events[0].uid, "u");
    assert_eq!(events[0].summary, "c");
    assert!(matches!(events[0].dtstart, Some(DtValue::Date(d)) if d == day(2026, 11, 3)));
}

#[test]
fn the_last_change_wins_where_a_component_is_not_closed() {
    let first = record("2026-10-02", None, "b");
    let last = record("2026-11-03", None, "c");
    for ics in [
        "BEGIN:VEVENT\nBEGIN:VALARM\nEND:VEVENT",
        "BEGIN:VEVENT\nBEGIN:VEVENT\nSUMMARY:a\nEND:VEVENT",
        "BEGIN:VEVENT\nEND:VALARM\nSUMMARY:a\nBEGIN:VALARM\nDURATION:PT1H\nEND:VEVENT",
        "BEGIN:VEVENT\nBEGIN:VALARM\nBEGIN:X\nSUMMARY:ring\nEND:VALARM\nSUMMARY:a\nEND:VEVENT",
    ] {
        let lines = unfold(ics);
        let once = patch_vevent(&lines, &first).unwrap();
        let direct = patch_vevent(&lines, &last).unwrap();
        assert_eq!(patch_vevent(&unfold(&once), &last).unwrap(), direct);
        assert_eq!(patch_vevent(&unfold(&once), &first).unwrap(), once);
        assert_eq!(direct.matches("SUMMARY:c").count(), 1);
        assert!(!direct.contains("SUMMARY:a"));
    }
    assert_eq!(
        patch_vevent(&unfold("BEGIN:VEVENT\nBEGIN:VALARM\nSUMMARY:a\nEND:VEVENT"), &first).unwrap(),
        "BEGIN:VEVENT\r\nBEGIN:VALARM\r\nSUMMARY:b\r\nDTSTART;VALUE=DATE:20261002\r\nDTEND;VALUE=DATE:20261003\r\nEND:VEVENT\r\n"
    );
}

#[test]
fn lines_without_an_event_cannot_be_patched() {
    let lines = unfold("BEGIN:VEVENT\r\nSUMMARY:x\r\n");
    assert!(matches!(patch_vevent(&lines, &record("2026-10-02", None, "b")), Err(RecordError::NoEvent)));
}

#[test]
fn new_events_read_back() {
    let d = day(2026, 9, 10);
    let text = write_new_event(
        "CCE-1",
        moment(day(2026, 1, 2), 3, 4),
        "DTSTART;VALUE=DATE:20260910".into(),
        "DTEND;VALUE=DATE:20260911".into(),
        "a, b; c\\d\ne",
    );
    assert_eq!(
        text,
        "BEGIN:VCALENDAR\r\nVERSION:2.0\r\nPRODID:-//cce//cce-calendar-sync//EN\r\nBEGIN:VEVENT\r\nUID:CCE-1\r\nDTSTAMP:20260102T030400Z\r\nCREATED:20260102T030400Z\r\nDTSTART;VALUE=DATE:20260910\r\nDTEND;VALUE=DATE:20260911\r\nSUMMARY:a\\, b\\; c\\\\d\\ne\r\nEND:VEVENT\r\nEND:VCALENDAR\r\n"
    );
    let events = parse_ics_events(&text);
    assert_eq!(events.len(), 1);
    assert_eq!(events[0].uid, "CCE-1");
    assert_eq!(events[0].summary, "a, b; c\\d e");
    assert!(matches!(events[0].dtstart, Some(DtValue::Date(x)) if x == d));
    assert!(matches!(events[0].dtend, Some(DtValue::Date(x)) if x == day(2026, 9, 11)));
}

#[test]
fn timed_events_read_back() {
    let r = record("2026-09-10", Some("09:30"), "Call");
    let span = record_span(&r).unwrap();
    let events = parse_ics_events(&new_vevent("U2", &r).unwrap());
    assert!(matches!(events[0].dtstart, Some(DtValue::Utc(m)) if m == span.start));
    assert!(matches!(events[0].dtend, Some(DtValue::Utc(m)) if m == span.end));
    let (mut seen, mut out) = (Seen::new(), Vec::new());
    event_to_records(&events[0], (day(2026, 1, 1), day(2027, 1, 1)), "s", false, &mut seen, &mut out);
    assert_eq!(out.len(), 1);
    assert_eq!(out[0].date, "2026-09-10");
    assert_eq!(out[0].time.as_deref(), Some("09:30"));
}

#[test]
fn escaping_and_unescaping() {
    assert_eq!(escape_text("a,b;c\\d\ne"), "a\\,b\\;c\\\\d\\ne");
    assert_eq!(unescape_text("a\\,b\\;c\\\\d\\ne\\Nf\\"), "a,b;c\\d e f");
}

#[test]
fn content_lines_split_outside_quotes() {
    assert_eq!(split_content_line("A;X=\"b:c\":d:e"), Some(("A;X=\"b:c\"", "d:e")));
    assert_eq!(split_content_line("no colon"), None);
    assert_eq!(prop_name("dtstart;VALUE=DATE:20260101"), "DTSTART");
    assert_eq!(prop_name("no colon"), "");
}

#[test]
fn date_values_in_their_forms() {
    assert!(matches!(parse_dt("DTSTART", "20260910"), Some(DtValue::Date(d)) if d == day(2026, 9, 10)));
    assert!(matches!(parse_dt("DTSTART;value=date", " 20260910 "), Some(DtValue::Date(_))));
    assert!(matches!(
        parse_dt("DTSTART", "20260910T093000Z"),
        Some(DtValue::Utc(m)) if m == moment(day(2026, 9, 10), 9, 30)
    ));
    match parse_dt("DTSTART;TZID=\"Europe/Rome\"", "20260910T093000") {
        Some(DtValue::Zoned(m, Some(zone))) => {
            assert_eq!(m, moment(day(2026, 9, 10), 9, 30));
            assert_eq!(zone, "Europe/Rome");
        }
        other => panic!("{other:?}"),
    }
    assert!(parse_dt("DTSTART", "soon").is_none());
    assert!(parse_dt("DTSTART", "20261310").is_none());
}

#[test]
fn whole_days_and_unknown_zones_are_taken_as_they_stand() {
    assert_eq!(to_local(&DtValue::Date(day(2026, 9, 10))), Some((day(2026, 9, 10), None)));
    let m = moment(day(2026, 9, 10), 9, 30);
    let dt = DtValue::Zoned(m, Some("Nowhere/Land".into()));
    assert_eq!(to_local(&dt), Some((day(2026, 9, 10), Some((9, 30)))));
}

#[test]
fn zones_shift_readings() {
    // The same instant in two notations reads the same here.
    let zoned = DtValue::Zoned(moment(day(2026, 7, 1), 12, 0), Some("America/New_York".into()));
    let utc = DtValue::Utc(moment(day(2026, 7, 1), 16, 0));
    assert_eq!(to_local(&zoned), to_local(&utc));
    // A reading that the clocks of the zone skip is taken as it stands.
    let skipped = DtValue::Zoned(moment(day(2026, 3, 8), 2, 30), Some("America/New_York".into()));
    assert_eq!(to_local(&skipped), Some((day(2026, 3, 8), Some((2, 30)))));
}

#[test]
fn mirrored_records_stay_in_the_window_and_come_once() {
    let ev = VEvent { uid: "u".into(), summary: "".into(), ..Default::default() };
    let at = LocalSpan {
        start: Some((day(2026, 2, 27), None)),
        end: Some((day(2026, 3, 3), None)),
    };
    let (mut seen, mut out) = (Seen::new(), Vec::new());
    let window = (day(2026, 2, 28), day(2026, 3, 1));
    mirror_event(&ev, at, window, "g:x", true, &mut seen, &mut out);
    mirror_event(&ev, at, window, "g:x", true, &mut seen, &mut out);
    assert_eq!(out.len(), 2);
    assert_eq!(out[0].date, "2026-02-28");
    assert_eq!(out[1].date, "2026-03-01");
    assert_eq!(out[0].title, "(untitled)");
    assert!(out.iter().all(|r| r.recurring && r.uid.as_deref() == Some("u")));
    // Overlong events are clamped; one without an end takes a day.
    let long = LocalSpan {
        start: Some((day(2026, 1, 1), None)),
        end: Some((day(2027, 1, 1), None)),
    };
    let year = (day(2026, 1, 1), day(2027, 1, 1));
    let (mut seen, mut out) = (Seen::new(), Vec::new());
    mirror_event(&ev, long, year, "g:x", false, &mut seen, &mut out);
    assert_eq!(out.len(), 62);
    assert_eq!(out[61].date, "2026-03-03");
    let one = LocalSpan { start: Some((day(2026, 5, 1), None)), end: None };
    let (mut seen, mut out) = (Seen::new(), Vec::new());
    mirror_event(&ev, one, year, "g:x", false, &mut seen, &mut out);
    assert_eq!(out.len(), 1);
}

#[test]
fn records_that_cannot_be_sent() {
    assert!(matches!(parse_record_time(&record("soon", None, "x")), Err(RecordError::BadDate)));
    assert!(matches!(
        parse_record_time(&record("2026-09-10", Some("nine"), "x")),
        Err(RecordError::BadTime)
    ));
    assert_eq!(
        parse_record_time(&record("2026-09-10", Some("25:00"), "x")),
        Ok((day(2026, 9, 10), Some((25, 0))))
    );
    assert!(matches!(record_span(&record("2026-09-10", Some("25:00"), "x")), Err(RecordError::BadTime)));
    assert!(matches!(ics_span(&record("+262142-12-31", None, "x")), Err(RecordError::OutOfRange)));
    assert_eq!(
        ics_span(&record("2024-02-28", None, "x")).unwrap(),
        ("DTSTART;VALUE=DATE:20240228".to_string(), "DTEND;VALUE=DATE:20240229".to_string())
    );
}

#[test]
fn readings_of_clocks_ahead_of_utc() {
    let m = moment(day(2026, 12, 31), 23, 30);
    assert_eq!(reading_at(m, 3600), Some((day(2027, 1, 1), Some((0, 30)))));
    assert_eq!(reading_at(m, -5400), Some((day(2026, 12, 31), Some((22, 0)))));
    assert_eq!(reading_at(moment(day(262142, 12, 31), 23, 30), 3600), None);
}

#[test]
fn timed_records_end_after_an_hour() {
    let start = moment(day(2026, 9, 10), 23, 30);
    assert_eq!(end_of_record(Some((start, 7200))), Ok(moment(day(2026, 9, 11), 0, 30)));
    assert_eq!(end_of_record(None), Err(RecordError::SkippedTime));
    let late = moment(day(262142, 12, 31), 23, 30);
    assert_eq!(end_of_record(Some((late, 0))), Err(RecordError::OutOfRange));
}

#[test]
fn sent_records_come_back_with_their_identity() {
    let window = (day(2026, 1, 1), day(2027, 1, 1));
    for sent in [
        record("2026-09-10", None, "Trip, day; \\ and more"),
        record("2026-09-10", Some("09:30"), "Call"),
        record("2026-09-10", None, ""),
    ] {
        let text = new_vevent("U1", &sent).unwrap();
        let events = parse_ics_events(&text);
        let (mut seen, mut out) = (Seen::new(), Vec::new());
        event_to_records(&events[0], window, "icloud:x", false, &mut seen, &mut out);
        let title = if sent.title.is_empty() { "(untitled)".into() } else { sent.title.clone() };
        let wanted = EventRecord {
            title,
            uid: Some("U1".into()),
            source: Some("icloud:x".into()),
            ..sent
        };
        assert_eq!(out, vec![wanted]);
    }
}

#[test]
fn dates_and_times_read_back() {
    let r = record("2026-09-10", Some("09:05"), "x");
    assert_eq!(parse_record_time(&r), Ok((day(2026, 9, 10), Some((9, 5)))));
    let far = record("-0044-03-15", None, "x");
    assert_eq!(parse_record_time(&far), Ok((day(-44, 3, 15), None)));
}
