use cce_calendar::record::{sort_records, synced, EventRecord, PushTarget, SyncState};
use cce_calendar::remote::{pick_target, Remote, RemoteCalendar, RemoteEvent, SyncError};
use cce_calendar::sync::{Course, Pass, Step};
use cce_calendar::uid_map::UidMap;

const SOURCE: &str = "icloud:me@icloud.com";

fn typed(date: &str, time: Option<&str>, title: &str) -> EventRecord {
    EventRecord {
        date: date.into(),
        time: time.map(String::from),
        title: title.into(),
        uid: None,
        source: None,
        recurring: false,
    }
}

fn mirrored(uid: &str, date: &str, title: &str) -> EventRecord {
    EventRecord {
        uid: Some(uid.into()),
        source: Some(SOURCE.into()),
        ..typed(date, None, title)
    }
}

fn remote_event(uid: &str, date: &str, title: &str) -> RemoteEvent {
    RemoteEvent {
        url: format!("https://server/{uid}.ics"),
        etag: format!("tag-{uid}"),
        recurring: false,
        instances: vec![mirrored(uid, date, title)],
        lines: vec!["BEGIN:VEVENT".into()],
    }
}

fn remote(list: Vec<(&str, RemoteEvent)>) -> Remote {
    let mut events = UidMap::new();
    for (uid, e) in list {
        events.insert(uid.to_string(), e);
    }
    Remote {
        calendars: vec![
            RemoteCalendar { target: "https://server/work/".into(), name: "Work".into(), primary: false },
            RemoteCalendar { target: "https://server/home/".into(), name: "Home".into(), primary: false },
        ],
        events,
    }
}

fn state(list: Vec<(&str, &str, &str)>) -> SyncState {
    let mut s = SyncState::default();
    for (uid, date, title) in list {
        let url = format!("https://server/{uid}.ics");
        s.events.insert(uid.to_string(), synced(SOURCE, &url, "old", &typed(date, None, title)));
    }
    s
}

fn push(calendar: Option<&str>) -> PushTarget {
    PushTarget { kind: "icloud".into(), calendar: calendar.map(String::from) }
}

fn begin(records: Vec<EventRecord>, state: SyncState, remote: Remote, push_here: bool) -> Pass {
    match Pass::begin(SOURCE.to_string(), records, state, remote, &push(None), push_here, false) {
        Ok(pass) => pass,
        Err(refusal) => panic!("{:?}", refusal.error),
    }
}

fn titles(records: &[EventRecord]) -> Vec<&str> {
    records.iter().map(|r| r.title.as_str()).collect()
}

#[test]
fn a_first_pass_imports() {
    let other = EventRecord { source: Some("google:x".into()), ..mirrored("o", "2026-01-01", "other") };
    let pass = begin(
        vec![other.clone(), typed("2026-01-02", None, "typed")],
        SyncState::default(),
        remote(vec![("b", remote_event("b", "2026-02-02", "B")), ("a", remote_event("a", "2026-02-01", "A"))]),
        false,
    );
    assert!(matches!(pass.next(), Ok(Step::Done)));
    let (records, state) = pass.finish();
    assert_eq!(titles(&records), vec!["other", "typed", "A", "B"]);
    assert_eq!(records[0], other);
    assert_eq!(state.events.len(), 2);
    assert_eq!(state.events.get("a").unwrap().etag, "tag-a");
}

#[test]
fn a_deleted_record_is_deleted_on_the_server() {
    let mut pass = begin(
        vec![],
        state(vec![("a", "2026-02-01", "A")]),
        remote(vec![("a", remote_event("a", "2026-02-01", "A"))]),
        false,
    );
    match pass.next() {
        Ok(Step::Delete { uid, url, etag }) => {
            assert_eq!((uid.as_str(), url.as_str(), etag.as_str()), ("a", "https://server/a.ics", "old"));
        }
        _ => panic!("no deletion"),
    }
    pass.deleted();
    assert!(matches!(pass.next(), Ok(Step::Done)));
    let (records, state) = pass.finish();
    assert!(records.is_empty());
    assert!(state.events.is_empty());
}

#[test]
fn a_failed_deletion_brings_the_record_back() {
    let mut pass = begin(
        vec![],
        state(vec![("a", "2026-02-01", "A")]),
        remote(vec![("a", remote_event("a", "2026-02-01", "A"))]),
        false,
    );
    pass.failed();
    let (records, state) = pass.finish();
    assert_eq!(titles(&records), vec!["A"]);
    assert!(state.events.contains_key("a"));
}

#[test]
fn a_failed_change_gives_way_to_the_server() {
    let mut pass = begin(
        vec![mirrored("a", "2026-02-03", "mine")],
        state(vec![("a", "2026-02-01", "A")]),
        remote(vec![("a", remote_event("a", "2026-02-02", "theirs"))]),
        false,
    );
    assert!(matches!(pass.next(), Ok(Step::Update { .. })));
    pass.failed();
    let (records, state) = pass.finish();
    assert_eq!(records, vec![mirrored("a", "2026-02-02", "theirs")]);
    let s = state.events.get("a").unwrap();
    assert_eq!((s.etag.as_str(), s.date.as_str(), s.title.as_str()), ("tag-a", "2026-02-02", "theirs"));
}

#[test]
fn a_changed_record_is_changed_on_the_server_and_wins() {
    let mut pass = begin(
        vec![mirrored("a", "2026-02-03", "mine")],
        state(vec![("a", "2026-02-01", "A")]),
        remote(vec![("a", remote_event("a", "2026-02-02", "theirs"))]),
        false,
    );
    match pass.next() {
        Ok(Step::Update { uid, url, etag, lines, record }) => {
            assert_eq!((uid.as_str(), url.as_str(), etag.as_str()), ("a", "https://server/a.ics", "tag-a"));
            assert_eq!(lines, vec!["BEGIN:VEVENT"]);
            assert_eq!(record.title, "mine");
        }
        _ => panic!("no change"),
    }
    pass.updated("new".into());
    let (records, state) = pass.finish();
    assert_eq!(records, vec![mirrored("a", "2026-02-03", "mine")]);
    let s = state.events.get("a").unwrap();
    assert_eq!((s.etag.as_str(), s.date.as_str(), s.title.as_str()), ("new", "2026-02-03", "mine"));
}

#[test]
fn a_remote_change_comes_in() {
    let pass = begin(
        vec![mirrored("a", "2026-02-01", "A")],
        state(vec![("a", "2026-02-01", "A")]),
        remote(vec![("a", remote_event("a", "2026-02-02", "theirs"))]),
        false,
    );
    assert!(matches!(pass.next(), Ok(Step::Done)));
    let (records, _) = pass.finish();
    assert_eq!(records, vec![mirrored("a", "2026-02-02", "theirs")]);
}

#[test]
fn a_typed_record_is_created_and_comes_back_with_its_identity() {
    let mut pass = begin(
        vec![typed("2026-02-01", Some("09:30"), "new"), typed("2026-02-02", None, "later")],
        SyncState::default(),
        remote(vec![]),
        true,
    );
    match pass.next() {
        Ok(Step::Create { target, record }) => {
            assert_eq!(target, "https://server/work/");
            assert_eq!(record.title, "new");
        }
        _ => panic!("no creation"),
    }
    pass.created("u1".into(), "https://server/work/u1.ics".into(), "t1".into());
    assert!(matches!(pass.next(), Ok(Step::Create { .. })));
    pass.failed();
    let (records, state) = pass.finish();
    assert_eq!(titles(&records), vec!["later", "new"]);
    assert_eq!(records[1].uid.as_deref(), Some("u1"));
    assert_eq!(records[1].source.as_deref(), Some(SOURCE));
    assert_eq!(records[1].time.as_deref(), Some("09:30"));
    assert_eq!(state.events.get("u1").unwrap().url, "https://server/work/u1.ics");
}

#[test]
fn the_next_pass_is_quiet() {
    let mut pass = begin(
        vec![typed("2026-02-01", None, "new"), mirrored("a", "2026-02-03", "mine")],
        state(vec![("a", "2026-02-01", "A")]),
        remote(vec![("a", remote_event("a", "2026-02-02", "theirs"))]),
        true,
    );
    pass.updated("t".into());
    pass.created("n".into(), "https://server/n.ics".into(), "t".into());
    let (records, state) = pass.finish();
    let again = remote(vec![
        ("a", remote_event("a", "2026-02-03", "mine")),
        ("n", remote_event("n", "2026-02-01", "new")),
    ]);
    let pass = begin(records, state, again, true);
    assert!(matches!(pass.next(), Ok(Step::Done)));
    let (records, state) = pass.finish();
    assert_eq!(titles(&records), vec!["mine", "new"]);
    assert_eq!(state.events.len(), 2);
}

#[test]
fn recurring_events_are_never_written() {
    let mut event = remote_event("a", "2026-02-01", "A");
    event.recurring = true;
    let pass = begin(vec![], state(vec![("a", "2026-02-01", "A")]), remote(vec![("a", event)]), false);
    assert!(matches!(pass.next(), Ok(Step::Done)));
    let (records, state) = pass.finish();
    assert_eq!(titles(&records), vec!["A"]);
    assert!(state.events.is_empty());
}

#[test]
fn too_many_deletions_are_refused() {
    let uids = ["a", "b", "c", "d", "e", "f"];
    let known = || state(uids.iter().map(|u| (*u, "2026-02-01", "x")).collect());
    let there = || remote(uids.iter().map(|u| (*u, remote_event(u, "2026-02-01", "x"))).collect());
    let refused = Pass::begin(SOURCE.to_string(), vec![], known(), there(), &push(None), false, false);
    match refused {
        Err(refusal) => {
            assert_eq!(refusal.error, SyncError::RefusedDeletes { count: 6, known: 6 });
            assert_eq!(refusal.state.events.len(), 6);
        }
        Ok(_) => panic!("not refused"),
    }
    let forced = Pass::begin(SOURCE.to_string(), vec![], known(), there(), &push(None), false, true);
    assert!(matches!(forced.ok().unwrap().next(), Ok(Step::Delete { .. })));
    // Five are not too many, nor is half.
    let mut five = known();
    five.events.remove("f");
    assert!(Pass::begin(SOURCE.to_string(), vec![], five, there(), &push(None), false, false).is_ok());
    let mut kept: Vec<EventRecord> = vec![];
    let mut twelve = known();
    let mut all: Vec<(&str, RemoteEvent)> =
        uids.iter().map(|u| (*u, remote_event(u, "2026-02-01", "x"))).collect();
    for u in ["g", "h", "i", "j", "k", "l"] {
        twelve.events.insert(u.to_string(), synced(SOURCE, "https://s/", "", &typed("2026-02-01", None, "x")));
        all.push((u, remote_event(u, "2026-02-01", "x")));
        kept.push(mirrored(u, "2026-02-01", "x"));
    }
    assert!(Pass::begin(SOURCE.to_string(), kept, twelve, remote(all), &push(None), false, false).is_ok());
}

#[test]
fn a_bad_address_stops_the_pass() {
    let mut bad = state(vec![("a", "2026-02-01", "A")]);
    bad.events.insert("a".into(), synced(SOURCE, "not an address", "e", &typed("2026-02-01", None, "A")));
    let pass = begin(vec![], bad, remote(vec![("a", remote_event("a", "2026-02-01", "A"))]), false);
    assert_eq!(pass.next().err().as_deref(), Some("not an address"));
    let (records, state) = pass.abandon();
    assert!(records.is_empty());
    assert_eq!(state.events.len(), 1);
}

#[test]
fn addresses_are_put_into_their_normal_form() {
    let mut odd = state(vec![("a", "2026-02-01", "A")]);
    odd.events.insert("a".into(), synced(SOURCE, "HTTPS://Server:443/a b", "e", &typed("2026-02-01", None, "A")));
    let pass = begin(vec![], odd, remote(vec![("a", remote_event("a", "2026-02-01", "A"))]), false);
    match pass.next() {
        Ok(Step::Delete { url, .. }) => assert_eq!(url, "https://server/a%20b"),
        _ => panic!("no deletion"),
    }
}

#[test]
fn the_calendar_for_typed_events() {
    let calendars = remote(vec![]).calendars;
    assert_eq!(pick_target(&calendars, &push(None)), Ok(0));
    assert_eq!(pick_target(&calendars, &push(Some("home"))), Ok(1));
    assert_eq!(pick_target(&calendars, &push(Some("Gone"))), Err(SyncError::NoSuchCalendar));
    assert_eq!(pick_target(&vec![], &push(None)), Err(SyncError::NoCalendar));
    let mut calendars = calendars;
    calendars[1].primary = true;
    assert_eq!(pick_target(&calendars, &push(None)), Ok(1));
    let refused = Pass::begin(
        SOURCE.to_string(),
        vec![],
        SyncState::default(),
        remote(vec![]),
        &push(Some("Gone")),
        true,
        false,
    );
    assert!(matches!(refused, Err(r) if r.error == SyncError::NoSuchCalendar));
}

#[test]
fn the_preview_says_what_would_be_done() {
    let pass = begin(
        vec![
            typed("2026-02-01", Some("09:30"), "new"),
            typed("2026-02-02", None, "day"),
            mirrored("b", "2026-02-03", "mine"),
        ],
        state(vec![("a", "2026-02-01", "A"), ("b", "2026-02-01", "B")]),
        remote(vec![
            ("a", remote_event("a", "2026-02-01", "A")),
            ("b", remote_event("b", "2026-02-01", "B")),
        ]),
        true,
    );
    assert_eq!(
        pass.preview(),
        vec![
            "push new:    2026-02-01 09:30 new",
            "push new:    2026-02-02 ----- day",
            "push change: 2026-02-03 ----- mine (b)",
            "push delete: A (a)",
            "icloud:me@icloud.com: 2 record(s) mirrored",
        ]
    );
}

#[test]
fn a_dry_run_gives_everything_back() {
    let records = vec![typed("2026-02-01", Some("09:30"), "new"), mirrored("b", "2026-02-03", "mine")];
    let known = || state(vec![("a", "2026-02-01", "A"), ("b", "2026-02-01", "B")]);
    let there = || {
        remote(vec![
            ("a", remote_event("a", "2026-02-01", "A")),
            ("b", remote_event("b", "2026-02-01", "B")),
        ])
    };
    match begin(records.clone(), known(), there(), true).set_out(true) {
        Course::Previewed { lines, records: kept, state } => {
            assert_eq!(
                lines,
                vec![
                    "push new:    2026-02-01 09:30 new",
                    "push change: 2026-02-03 ----- mine (b)",
                    "push delete: A (a)",
                    "icloud:me@icloud.com: 2 record(s) mirrored",
                ]
            );
            assert_eq!(kept, records);
            assert_eq!(state.events.len(), 2);
            assert_eq!(state.events.get("b").unwrap().title, "B");
        }
        Course::UnderWay(_) => panic!("not dry"),
    }
    match begin(records, known(), there(), true).set_out(false) {
        Course::UnderWay(pass) => assert!(matches!(pass.next(), Ok(Step::Delete { .. }))),
        Course::Previewed { .. } => panic!("dry"),
    }
}

/// An event of three whole days.
fn trip() -> RemoteEvent {
    RemoteEvent {
        instances: vec![
            mirrored("trip", "2026-09-10", "Trip"),
            mirrored("trip", "2026-09-11", "Trip"),
            mirrored("trip", "2026-09-12", "Trip"),
        ],
        ..remote_event("trip", "2026-09-10", "Trip")
    }
}

#[test]
fn an_event_of_several_days_is_left_alone() {
    let pass = begin(vec![], SyncState::default(), remote(vec![("trip", trip())]), true);
    assert!(matches!(pass.next(), Ok(Step::Done)));
    let (mut records, state) = pass.finish();
    assert_eq!(records.len(), 3);
    assert_eq!(state.events.get("trip").unwrap().date, "2026-09-10");
    sort_records(&mut records);
    let pass = begin(records.clone(), state, remote(vec![("trip", trip())]), true);
    assert!(matches!(pass.next(), Ok(Step::Done)));
    let (again, state) = pass.finish();
    assert_eq!(again, records);
    assert_eq!(state.events.get("trip").unwrap().date, "2026-09-10");
}

#[test]
fn a_change_of_one_of_several_days_is_not_written() {
    let known = || state(vec![("trip", "2026-09-10", "Trip")]);
    let records = vec![
        mirrored("trip", "2026-09-10", "Trip"),
        mirrored("trip", "2026-09-11", "Trip, second day"),
        mirrored("trip", "2026-09-12", "Trip"),
    ];
    let pass = begin(records, known(), remote(vec![("trip", trip())]), false);
    assert!(matches!(pass.next(), Ok(Step::Done)));
    assert_eq!(titles(&pass.finish().0), vec!["Trip", "Trip", "Trip"]);
    // Nor is it where one day alone is left, changed or not; the days come back.
    for left in [
        mirrored("trip", "2026-09-11", "Trip"),
        mirrored("trip", "2026-09-10", "Trip, shorter"),
        mirrored("trip", "2026-09-10", "Trip"),
    ] {
        let pass = begin(vec![left], known(), remote(vec![("trip", trip())]), false);
        assert!(matches!(pass.next(), Ok(Step::Done)));
        let (records, state) = pass.finish();
        assert_eq!(records, trip().instances);
        assert_eq!(state.events.get("trip").unwrap().title, "Trip");
    }
    // With none of the days left, the event is deleted.
    let pass = begin(vec![], known(), remote(vec![("trip", trip())]), false);
    assert!(matches!(pass.next(), Ok(Step::Delete { uid, .. }) if uid == "trip"));
}

#[test]
fn an_event_that_has_become_one_day_is_not_changed_by_old_days() {
    let pass = begin(
        trip().instances,
        state(vec![("trip", "2026-09-10", "Trip")]),
        remote(vec![("trip", remote_event("trip", "2026-09-20", "Outing"))]),
        false,
    );
    assert!(matches!(pass.next(), Ok(Step::Done)));
    assert_eq!(pass.finish().0, vec![mirrored("trip", "2026-09-20", "Outing")]);
}

#[test]
fn a_state_of_other_accounts_deletes_nothing() {
    let mut other = SyncState::default();
    other.events.insert("a".into(), synced("google:x", "https://s/a", "e", &typed("2026-02-01", None, "A")));
    let pass = begin(vec![], other, remote(vec![("a", remote_event("a", "2026-02-01", "A"))]), false);
    assert!(matches!(pass.next(), Ok(Step::Done)));
    assert_eq!(titles(&pass.finish().0), vec!["A"]);
}

#[test]
fn a_step_leaves_other_events_alone() {
    let mut pass = begin(
        vec![mirrored("b", "2026-02-03", "mine")],
        state(vec![("a", "2026-02-01", "A"), ("b", "2026-02-01", "B"), ("c", "2026-02-01", "C")]),
        remote(vec![
            ("a", remote_event("a", "2026-02-01", "A")),
            ("b", remote_event("b", "2026-02-01", "B")),
            ("c", remote_event("c", "2026-02-01", "C")),
        ]),
        false,
    );
    pass.deleted();
    pass.failed();
    pass.updated("t".into());
    let (records, state) = pass.finish();
    assert_eq!(titles(&records), vec!["mine", "C"]);
    assert!(!state.events.contains_key("a"));
    assert_eq!(state.events.get("b").unwrap().etag, "t");
    assert_eq!(state.events.get("c").unwrap().etag, "tag-c");
}
