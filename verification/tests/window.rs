use cce_calendar::agenda::{load_events, parse_event, parse_time, Agenda};
use cce_calendar::calendar::{Calendar, Key, Pressed, Target};
use cce_calendar::config::Weekday;
use cce_calendar::date::Date;
use cce_calendar::display::{
    column_name, count_shown, day_heading, grid_cells, hint, input_label, month_label, more_label,
    time_label,
};
use cce_calendar::month::{
    add_months, can_shift, day_at, days_in_month, first_day, weekday, weekday_offset,
};
use cce_calendar::record::EventRecord;

fn day(year: i32, month: u32, day: u32) -> Date {
    Date { year, month, day }
}

fn record(date: &str, time: Option<&str>, title: &str) -> EventRecord {
    EventRecord {
        date: date.into(),
        time: time.map(String::from),
        title: title.into(),
        uid: None,
        source: None,
        recurring: false,
    }
}

fn open(records: Vec<EventRecord>) -> Calendar {
    Calendar::new(load_events(&records), Weekday::Mon, day(2026, 9, 10))
}

fn press(c: &mut Calendar, keys: &str) -> Pressed {
    let mut last = Pressed::Ignored;
    for k in keys.chars() {
        let text = k.to_string();
        last = c.key_pressed(&Key::Character(text.clone()), Some(&text));
    }
    last
}

#[test]
fn times_are_read() {
    assert_eq!(parse_time("9:30"), Some((9, 30)));
    assert_eq!(parse_time("23:59"), Some((23, 59)));
    assert_eq!(parse_time("24:00"), None);
    assert_eq!(parse_time("12:60"), None);
    assert_eq!(parse_time("+9:30"), None);
    assert_eq!(parse_time("930"), None);
    assert_eq!(parse_time("9:"), None);
}

#[test]
fn events_are_typed() {
    let typed = |raw: &str| parse_event(raw).map(|e| (e.time, e.title));
    assert_eq!(typed("  09:30  Call  mum "), Some((Some((9, 30)), "Call  mum".to_string())));
    assert_eq!(typed("Lunch 12:00"), Some((None, "Lunch 12:00".to_string())));
    assert_eq!(typed("7:05"), Some((Some((7, 5)), "(untitled)".to_string())));
    assert_eq!(typed("   "), None);
}

#[test]
fn saving_strips_nothing_of_what_was_read() {
    let read = vec![
        EventRecord {
            uid: Some("u".into()),
            source: Some("icloud:a".into()),
            recurring: true,
            ..record("2026-09-10", Some("09:30"), "weekly")
        },
        EventRecord {
            uid: Some("v".into()),
            source: Some("google:b".into()),
            ..record("2026-09-11", None, "once")
        },
    ];
    assert_eq!(load_events(&read).to_records(), read);
}

#[test]
fn the_agenda_gives_the_records_back() {
    let synced = EventRecord {
        uid: Some("u".into()),
        source: Some("icloud:a".into()),
        recurring: true,
        ..record("2026-09-10", None, "all day")
    };
    let agenda = load_events(&vec![
        synced.clone(),
        record("2026-09-10", Some("12:00"), "noon"),
        record("not a day", None, "lost"),
        record("2026-09-09", Some("late"), "before"),
        record("2026-09-10", Some("08:00"), "early"),
    ]);
    assert_eq!(
        agenda.to_records(),
        vec![
            record("2026-09-09", None, "before"),
            record("2026-09-10", Some("08:00"), "early"),
            record("2026-09-10", Some("12:00"), "noon"),
            synced,
        ]
    );
    let again = load_events(&agenda.to_records());
    assert_eq!(again.to_records(), agenda.to_records());
    assert!(Agenda::new().to_records().is_empty());
    assert!(agenda.on(day(2026, 9, 11)).is_none());
}

#[test]
fn months_and_weeks() {
    assert_eq!(add_months(2026, 1, -1), (2025, 12));
    assert_eq!(add_months(2026, 12, 1), (2027, 1));
    assert_eq!(add_months(0, 1, -13), (-2, 12));
    assert_eq!(days_in_month(2024, 2), 29);
    assert_eq!(days_in_month(2026, 2), 28);
    assert_eq!(days_in_month(1900, 2), 28);
    assert_eq!(days_in_month(262142, 12), 28);
    assert!(can_shift((2026, 1), -12));
    assert!(!can_shift((i32::MAX / 12, 12), 12));
    assert_eq!(weekday(day(2026, 9, 10)), Weekday::Thu);
    assert_eq!(weekday_offset(Weekday::Mon, Weekday::Sun), 1);
    assert_eq!(weekday_offset(Weekday::Sun, Weekday::Mon), 6);
    let first = first_day((2026, 9), day(2026, 9, 10), Weekday::Mon);
    assert_eq!(first, day(2026, 8, 31));
    assert_eq!(first_day((2026, 9), day(2026, 9, 10), Weekday::Sun), day(2026, 8, 30));
    assert_eq!(day_at(first, 3, 1), Some(day(2026, 9, 10)));
    assert_eq!(day_at(first, 99, 99), Some(day(2026, 10, 11)));
}

#[test]
fn keys_move_the_selection() {
    let mut c = open(vec![]);
    c.key_pressed(&Key::ArrowRight, None);
    c.key_pressed(&Key::ArrowDown, None);
    assert_eq!(c.selected, day(2026, 9, 18));
    c.key_pressed(&Key::ArrowUp, None);
    c.key_pressed(&Key::ArrowLeft, None);
    assert_eq!(c.selected, day(2026, 9, 10));
    press(&mut c, "]");
    assert_eq!((c.view, c.selected), ((2027, 9), day(2027, 9, 10)));
    press(&mut c, "[");
    c.key_pressed(&Key::PageUp, None);
    assert_eq!(c.view, (2026, 8));
    c.key_pressed(&Key::PageDown, None);
    c.key_pressed(&Key::Home, None);
    assert_eq!(c.selected, c.today);
    assert_eq!(press(&mut c, "q"), Pressed::Quit);
    assert_eq!(press(&mut c, "z"), Pressed::Ignored);
    assert_eq!(c.key_pressed(&Key::Escape, None), Pressed::Ignored);
}

#[test]
fn a_shorter_month_takes_its_last_day() {
    let mut c = open(vec![]);
    c.select(day(2026, 3, 31));
    c.shift_months(-1);
    assert_eq!((c.view, c.selected), ((2026, 2), day(2026, 2, 28)));
}

#[test]
fn an_event_is_typed_and_deleted() {
    let mut c = open(vec![record("2026-09-11", None, "tomorrow")]);
    assert_eq!(press(&mut c, "n9:30 x\u{7}q"), Pressed::Changed);
    assert_eq!(c.input.as_deref(), Some("9:30 xq"));
    c.key_pressed(&Key::Backspace, None);
    assert_eq!(c.key_pressed(&Key::Enter, Some("\n")), Pressed::Save);
    assert!(c.input.is_none());
    assert_eq!(
        c.events.to_records(),
        vec![record("2026-09-10", Some("09:30"), "x"), record("2026-09-11", None, "tomorrow")]
    );
    assert_eq!(press(&mut c, "d"), Pressed::Changed);
    assert!(c.click(Target::List(Some(0))));
    assert_eq!(c.key_pressed(&Key::Delete, None), Pressed::Save);
    assert_eq!(c.events.to_records(), vec![record("2026-09-11", None, "tomorrow")]);
    assert!(c.sel_event.is_none());
    press(&mut c, "n");
    assert_eq!(c.key_pressed(&Key::Enter, None), Pressed::Changed);
    press(&mut c, "nabc");
    c.key_pressed(&Key::Escape, None);
    assert!(c.input.is_none());
    assert_eq!(c.events.to_records().len(), 1);
}

#[test]
fn instances_of_repeating_events_stay() {
    let repeating = EventRecord { recurring: true, ..record("2026-09-10", None, "weekly") };
    let mut c = open(vec![repeating.clone()]);
    c.click(Target::List(Some(0)));
    assert_eq!(press(&mut c, "d"), Pressed::Changed);
    assert_eq!(c.events.to_records(), vec![repeating]);
}

#[test]
fn clicks() {
    let mut c = open(vec![]);
    c.click(Target::Following);
    assert_eq!(c.view, (2026, 10));
    c.click(Target::Previous);
    c.click(Target::Previous);
    assert_eq!(c.view, (2026, 8));
    c.click(Target::Day(day(2026, 7, 31)));
    assert_eq!((c.view, c.selected), ((2026, 7), day(2026, 7, 31)));
    c.click(Target::Today);
    assert_eq!(c.selected, c.today);
    assert!(!c.click(Target::Elsewhere));
    assert!(!c.set_today(day(2026, 9, 10)));
    assert!(c.set_today(day(2026, 9, 11)));
    assert_eq!(c.today, day(2026, 9, 11));
}

#[test]
fn labels() {
    assert_eq!(month_label((2026, 9)), "September 2026");
    assert_eq!(month_label((-1, 12)), "December -1");
    assert_eq!(day_heading(day(2026, 9, 10)), "Thu, September 10");
    assert_eq!(column_name(Weekday::Sun, 0), "Sun");
    assert_eq!(column_name(Weekday::Sat, 2), "Mon");
    let e = parse_event("7:05 x").unwrap();
    assert_eq!(time_label(&e), "07:05");
    assert_eq!(time_label(&parse_event("x").unwrap()), "——");
    assert_eq!(input_label(""), "HH:MM title");
    assert_eq!(input_label("ab"), "ab▏");
    let mut c = open(vec![]);
    assert_eq!(hint(&c), "n new · t today · pgup/pgdn month");
    c.sel_event = Some(0);
    assert_eq!(hint(&c), "d delete · n new · t today");
    c.status = Some("save failed: x".into());
    assert_eq!(hint(&c), "save failed: x");
}

#[test]
fn cells_of_the_grid() {
    let c = open(vec![]);
    let cells = grid_cells(&c);
    assert_eq!(cells.len(), 42);
    assert_eq!(cells[0].date, day(2026, 8, 31));
    assert!(!cells[0].in_month && cells[1].in_month);
    assert_eq!(cells[10].date, c.today);
    assert!(cells[10].is_today && cells[10].is_selected);
    assert_eq!((cells[10].row, cells[10].col), (1, 3));
    assert_eq!((count_shown(3, 3), count_shown(3, 4), count_shown(0, 2)), (3, 2, 0));
    assert_eq!(more_label(4, 2), Some("+2 more".to_string()));
    assert_eq!(more_label(2, 2), None);
}
