use cce_calendar::accounts::{
    google_accounts, icloud_accounts, is_icloud, needs_keyring, Account, AccountOnDisk, Backend,
    GoogleAccount, GoogleClientConfig, OAuthOnDisk,
};
use cce_calendar::config::{push_target_config, week_start_config, Weekday};
use cce_calendar::date::Date;
use cce_calendar::paths::{data_path, sync_state_path};
use cce_calendar::record::{synced, EventRecord, PushTarget, SyncState};
use cce_calendar::run::{choose_target, is_push_target, read_options, sync_window, usable_state, Outcome};
use cce_calendar::uid::new_uid;

fn on_disk(email: &str, imap: &str, password: &str) -> AccountOnDisk {
    AccountOnDisk { email: email.into(), imap: imap.into(), password: password.into() }
}

fn oauth(email: &str, is_oauth: bool, token: Option<&str>, id: Option<&str>) -> OAuthOnDisk {
    OAuthOnDisk {
        email: email.into(),
        is_oauth,
        refresh_token: token.map(String::from),
        client_id: id.map(String::from),
        client_secret: None,
    }
}

fn icloud(email: &str) -> Backend {
    Backend::ICloud(Account { email: email.into(), password: "p".into() })
}

fn google(email: &str) -> Backend {
    Backend::Google(GoogleAccount {
        email: email.into(),
        refresh_token: "t".into(),
        client_id: "i".into(),
        client_secret: "s".into(),
    })
}

#[test]
fn icloud_accounts_are_known_by_address_or_host() {
    assert!(is_icloud(&on_disk("a@icloud.com", "", "")));
    assert!(is_icloud(&on_disk("a@me.com", "", "")));
    assert!(is_icloud(&on_disk("a@mac.com", "", "")));
    assert!(is_icloud(&on_disk("a@own.org", "imap.mail.me.com:993", "")));
    assert!(is_icloud(&on_disk("a@own.org", "imap.mail.me.com", "")));
    assert!(!is_icloud(&on_disk("a@own.org", "imap.own.org:mail.me.com", "")));
    assert!(!is_icloud(&on_disk("icloud.com@gmail.com", "imap.gmail.com:993", "")));
}

#[test]
fn passwords_come_from_the_file_or_the_keyring() {
    let list = vec![
        on_disk("a@icloud.com", "", "file"),
        on_disk("b@icloud.com", "", ""),
        on_disk("c@icloud.com", "", ""),
        on_disk("d@own.org", "", "x"),
    ];
    assert!(!needs_keyring(&list[0]) && needs_keyring(&list[1]) && !needs_keyring(&list[3]));
    let found = icloud_accounts(&list, &vec![Some("no".into()), Some("ring".into()), None, None]);
    let found: Vec<(&str, &str)> =
        found.iter().map(|a| (a.email.as_str(), a.password.as_str())).collect();
    assert_eq!(found, vec![("a@icloud.com", "file"), ("b@icloud.com", "ring")]);
}

#[test]
fn google_accounts_need_a_token() {
    let template = GoogleClientConfig { client_id: "tid".into(), client_secret: "tsec".into() };
    let list = vec![
        oauth("a", true, Some("t"), Some("own")),
        oauth("b", true, Some("t"), Some("")),
        oauth("c", true, Some(""), None),
        oauth("d", true, None, None),
        oauth("e", false, Some("t"), None),
    ];
    let found = google_accounts(&list, &template);
    assert_eq!(found.len(), 2);
    assert_eq!((found[0].email.as_str(), found[0].client_id.as_str()), ("a", "own"));
    assert_eq!((found[1].email.as_str(), found[1].client_id.as_str()), ("b", "tid"));
    assert_eq!(found[0].client_secret, "tsec");
}

#[test]
fn sources_tell_accounts_apart() {
    assert_eq!(icloud("a@b").source(), "icloud:a@b");
    assert_eq!(google("a@b").source(), "google:a@b");
    assert_eq!(google("a@b").email(), "a@b");
    assert_eq!(icloud("a@b").kind(), "icloud");
}

#[test]
fn typed_events_go_to_the_first_account_of_the_kind() {
    let list = vec![icloud("a"), icloud("b"), google("c")];
    let push = |kind: &str| PushTarget { kind: kind.into(), calendar: None };
    let hits = |kind: &str| -> Vec<bool> {
        (0..3).map(|i| is_push_target(&list, i, &push(kind))).collect()
    };
    assert_eq!(hits("icloud"), vec![true, false, false]);
    assert_eq!(hits("google"), vec![false, false, true]);
    assert_eq!(hits("none"), vec![false, false, false]);
    assert_eq!(choose_target(None, true).kind, "icloud");
    assert_eq!(choose_target(None, false).kind, "google");
    assert_eq!(choose_target(Some(push("none")), true).kind, "none");
}

#[test]
fn options_and_window() {
    let args = |list: &[&str]| -> Vec<String> { list.iter().map(|s| s.to_string()).collect() };
    assert_eq!(read_options(&args(&["x", "--dry-run"])), (true, false));
    assert_eq!(read_options(&args(&["x", "--force-deletes", "--dry-run"])), (true, true));
    assert_eq!(read_options(&args(&["x"])), (false, false));
    let today = Date { year: 2026, month: 3, day: 1 };
    let (start, end) = sync_window(today);
    assert_eq!(start, Date { year: 2025, month: 12, day: 31 });
    assert_eq!(end, Date { year: 2027, month: 4, day: 5 });
    let last = Date { year: 262142, month: 12, day: 31 };
    assert_eq!(sync_window(last).1, last);
}

#[test]
fn a_missing_file_discards_the_state() {
    let full = || {
        let mut s = SyncState::default();
        let r = EventRecord {
            date: "2026-01-01".into(),
            time: None,
            title: "x".into(),
            uid: None,
            source: None,
            recurring: false,
        };
        s.events.insert("a".into(), synced("s", "u", "e", &r));
        s
    };
    assert!(usable_state(false, full()).events.is_empty());
    assert_eq!(usable_state(true, full()).events.len(), 1);
}

#[test]
fn outcomes_of_a_run() {
    let mut o = Outcome::new();
    assert!(!o.is_to_be_saved(false));
    assert_eq!(o.exit_status(), 0);
    o.passed(true);
    assert!(o.is_to_be_saved(false) && !o.is_to_be_saved(true));
    o.passed(false);
    assert!(o.is_to_be_saved(false));
    assert_eq!(o.exit_status(), 1);
    let mut o = Outcome::new();
    o.saved(true);
    assert_eq!(o.exit_status(), 0);
    o.saved(false);
    assert_eq!(o.exit_status(), 1);
}

#[test]
fn push_targets_are_read_from_the_settings() {
    let t = push_target_config("push-to \"iCloud\" calendar=\"Home\"\n").unwrap();
    assert_eq!((t.kind.as_str(), t.calendar.as_deref()), ("icloud", Some("Home")));
    let t = push_target_config("other 1\npush-to \"none\"\npush-to \"google\"").unwrap();
    assert_eq!((t.kind.as_str(), t.calendar), ("none", None));
    assert!(push_target_config("push-to 5").is_none());
    assert!(push_target_config("week-start \"sunday\"").is_none());
    assert!(push_target_config("push-to {").is_none());
}

#[test]
fn week_starts_are_read_from_the_settings() {
    assert_eq!(week_start_config("week-start \"Sunday\""), Weekday::Sun);
    assert_eq!(week_start_config("week-start \"sat\""), Weekday::Sat);
    assert_eq!(week_start_config("week-start \"friday\""), Weekday::Mon);
    assert_eq!(week_start_config("week-start"), Weekday::Mon);
    assert_eq!(week_start_config("{"), Weekday::Mon);
}

#[test]
fn files_are_below_the_data_directory() {
    let xdg = b"/data".to_vec();
    let relative = b"data".to_vec();
    let home = b"/home/me/".to_vec();
    assert_eq!(data_path(Some(&xdg), Some(&home)), b"/data/cce/calendar/events.json");
    assert_eq!(
        data_path(Some(&relative), Some(&home)),
        b"/home/me/.local/share/cce/calendar/events.json"
    );
    assert_eq!(sync_state_path(None, None), b".local/share/cce/calendar/sync-state.json");
}

#[test]
fn new_uids_show_their_bytes() {
    let mut bytes = [0u8; 16];
    for (i, b) in bytes.iter_mut().enumerate() {
        *b = (i * 17) as u8;
    }
    assert_eq!(new_uid(Some(bytes)), "CCE-00112233-44556677-8899AABBCCDDEEFF");
    let timed = new_uid(None);
    assert!(timed.starts_with("CCE-20") && timed.ends_with('Z'));
    assert_eq!(timed.len(), 4 + 15 + 9 + 1);
}
