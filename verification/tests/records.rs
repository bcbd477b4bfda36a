use cce_calendar::record::{sort_records, synced, EventRecord, SyncState, SyncedEvent};
use cce_calendar::uid_map::UidMap;

fn record(date: &str, time: Option<&str>, title: &str) -> EventRecord {
    EventRecord {
        date: date.into(),
        time: time.map(String::from),
        title: title.into(),
        uid: None,
        source: None,
        recurring: false,
    }
}

#[test]
fn synced_event_matches_on_the_editable_triple() {
    let s = SyncedEvent {
        source: "icloud:a".into(),
        url: "u".into(),
        etag: "e".into(),
        date: "2026-09-10".into(),
        time: Some("09:30".into()),
        title: "x".into(),
    };
    assert!(s.matches(&record("2026-09-10", Some("09:30"), "x")));
    assert!(!s.matches(&record("2026-09-10", Some("10:30"), "x")));
    assert!(!s.matches(&record("2026-09-10", Some("09:30"), "y")));
}

#[test]
fn records_sort_by_date_then_time_then_title() {
    let mut list = vec![
        record("2026-09-11", None, "d"),
        record("2026-09-10", None, "b"),
        record("2026-09-10", Some("10:00"), "z"),
        record("2026-09-10", None, "a"),
        record("2026-09-10", Some("09:00"), "y"),
        record("2026-09-10", Some("09:00"), "x"),
    ];
    sort_records(&mut list);
    let titles: Vec<&str> = list.iter().map(|r| r.title.as_str()).collect();
    assert_eq!(titles, vec!["x", "y", "z", "a", "b", "d"]);
}

#[test]
fn equal_records_keep_their_order() {
    let mut first = record("2026-09-10", None, "a");
    first.uid = Some("1".into());
    let mut second = record("2026-09-10", None, "a");
    second.uid = Some("2".into());
    let mut list = vec![record("2026-09-11", None, "z"), first, second];
    sort_records(&mut list);
    let uids: Vec<Option<&str>> = list.iter().map(|r| r.uid.as_deref()).collect();
    assert_eq!(uids, vec![Some("1"), Some("2"), None]);
}

#[test]
fn synced_takes_what_the_record_says() {
    let s = synced("google:a", "https://x/", "tag", &record("2026-09-10", Some("09:30"), "x"));
    assert_eq!((s.source.as_str(), s.url.as_str(), s.etag.as_str()), ("google:a", "https://x/", "tag"));
    assert!(s.matches(&record("2026-09-10", Some("09:30"), "x")));
}

#[test]
fn a_new_state_is_empty() {
    assert!(SyncState::default().events.is_empty());
}

#[test]
fn keys_are_walked_in_order() {
    let mut m: UidMap<u32> = UidMap::new();
    m.insert("b".into(), 1);
    m.insert("a".into(), 2);
    m.insert("c".into(), 3);
    m.insert("a".into(), 4);
    let walked: Vec<(String, u32)> =
        (0..m.len()).map(|i| (m.key_at(i).clone(), *m.value_at(i))).collect();
    assert_eq!(walked, vec![("a".to_string(), 4), ("b".to_string(), 1), ("c".to_string(), 3)]);
    assert_eq!(m.remove("b"), Some(1));
    assert_eq!(m.remove("b"), None);
    assert_eq!(m.get("c"), Some(&3));
    assert!(!m.contains_key("b"));
}
